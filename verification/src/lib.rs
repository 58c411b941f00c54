//! A verified renderer for declaratively specified survey forms.
//!
//! A survey is a tree: a [`model::Form`] holds ordered [`model::QuestionSet`]s,
//! each holding ordered [`model::Question`]s, each of one
//! [`model::QuestionType`]. The renderer walks that tree and produces a single
//! HTML document string; every input element receives a stable, collision-free
//! identifier derived from its position in the tree (see [`ids`]). The tree can
//! be written to and read back from a declarative text form (see [`codec`]).

pub mod codec;
pub mod ids;
pub mod model;
pub mod render;
