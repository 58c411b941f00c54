//! The specification model: the typed tree that describes a survey form.
//!
//! A [`Form`] holds ordered [`QuestionSet`]s, each holding ordered
//! [`Question`]s, each carrying exactly one [`QuestionType`] variant. The
//! entities are plain value objects; sequence order is significant and is
//! preserved by rendering and by the declarative text form.
//!
//! Each executable type has a ghost view (`FormV` and so on) built from
//! `Seq` and mathematical integers; every contract of the crate speaks over
//! those views.

use vstd::prelude::*;

verus! {

/// The closed set of input kinds a question may take.
#[derive(Debug, PartialEq)]
pub enum QuestionType {
    /// One option per integer value in the inclusive range `bounds`, with an
    /// optional description per value. `num_descriptions` holds the mapping
    /// in canonical form: keys strictly ascending (see [`QuestionTypeV::wf`]).
    DiscreteNumeric { bounds: (i8, i8), num_descriptions: Vec<(i8, String)> },
    /// A numeric input, as a slider when bounds are given. The bounds are
    /// held as their decimal display text; that the lower bound does not
    /// exceed the upper is the constructing caller's responsibility, checked
    /// where the numbers themselves exist.
    ContinuousNumeric { bounds: Option<(String, String)> },
    /// One mutually-exclusive option per answer, plus an optional
    /// custom-answer pair.
    SingleChoice { answers: Vec<String>, custom_answer: bool },
    /// One independently togglable option per answer, plus an optional
    /// custom-answer pair.
    MultipleChoice { answers: Vec<String>, custom_answer: bool },
    /// Free text, multi-line when `is_long` is set.
    Text { is_long: bool },
}

/// A single question: a title and exactly one typed input specification.
#[derive(Debug, PartialEq)]
pub struct Question {
    pub title: String,
    pub spec: QuestionType,
}

/// A named, ordered group of questions.
#[derive(Debug, PartialEq)]
pub struct QuestionSet {
    pub title: String,
    pub description: String,
    pub questions: Vec<Question>,
}

/// The root entity: a titled, described, ordered sequence of question sets.
#[derive(Debug, PartialEq)]
pub struct Form {
    pub title: String,
    pub description: String,
    pub groups: Vec<QuestionSet>,
}

/// Ghost view of [`QuestionType`].
pub enum QuestionTypeV {
    DiscreteNumeric { min: int, max: int, num_descriptions: Seq<(int, Seq<char>)> },
    ContinuousNumeric { bounds: Option<(Seq<char>, Seq<char>)> },
    SingleChoice { answers: Seq<Seq<char>>, custom_answer: bool },
    MultipleChoice { answers: Seq<Seq<char>>, custom_answer: bool },
    Text { is_long: bool },
}

/// Ghost view of [`Question`].
pub struct QuestionV {
    pub title: Seq<char>,
    pub spec: QuestionTypeV,
}

/// Ghost view of [`QuestionSet`].
pub struct QuestionSetV {
    pub title: Seq<char>,
    pub description: Seq<char>,
    pub questions: Seq<QuestionV>,
}

/// Ghost view of [`Form`].
pub struct FormV {
    pub title: Seq<char>,
    pub description: Seq<char>,
    pub groups: Seq<QuestionSetV>,
}

impl View for QuestionType {
    type V = QuestionTypeV;

    open spec fn view(&self) -> QuestionTypeV {
        match self {
            QuestionType::DiscreteNumeric { bounds, num_descriptions } => {
                QuestionTypeV::DiscreteNumeric {
                    min: bounds.0 as int,
                    max: bounds.1 as int,
                    num_descriptions: num_descriptions@.map_values(
                        |p: (i8, String)| (p.0 as int, p.1@),
                    ),
                }
            },
            QuestionType::ContinuousNumeric { bounds } => {
                QuestionTypeV::ContinuousNumeric {
                    bounds: match bounds {
                        Some(b) => Some((b.0@, b.1@)),
                        None => None,
                    },
                }
            },
            QuestionType::SingleChoice { answers, custom_answer } => {
                QuestionTypeV::SingleChoice {
                    answers: answers@.map_values(|a: String| a@),
                    custom_answer: *custom_answer,
                }
            },
            QuestionType::MultipleChoice { answers, custom_answer } => {
                QuestionTypeV::MultipleChoice {
                    answers: answers@.map_values(|a: String| a@),
                    custom_answer: *custom_answer,
                }
            },
            QuestionType::Text { is_long } => QuestionTypeV::Text { is_long: *is_long },
        }
    }
}

impl View for Question {
    type V = QuestionV;

    open spec fn view(&self) -> QuestionV {
        QuestionV { title: self.title@, spec: self.spec@ }
    }
}

impl View for QuestionSet {
    type V = QuestionSetV;

    open spec fn view(&self) -> QuestionSetV {
        QuestionSetV {
            title: self.title@,
            description: self.description@,
            questions: self.questions@.map_values(|q: Question| q@),
        }
    }
}

impl View for Form {
    type V = FormV;

    open spec fn view(&self) -> FormV {
        FormV {
            title: self.title@,
            description: self.description@,
            groups: self.groups@.map_values(|g: QuestionSet| g@),
        }
    }
}

impl QuestionTypeV {
    /// Validity of a question type: discrete bounds are ordered and every
    /// described value lies inside them, with the description keys held in
    /// strictly ascending order (the canonical form of a finite mapping).
    pub open spec fn wf(self) -> bool {
        match self {
            QuestionTypeV::DiscreteNumeric { min, max, num_descriptions } => {
                &&& min <= max
                &&& forall|k: int|
                    0 <= k < num_descriptions.len() ==> min <= #[trigger] num_descriptions[k].0
                        <= max
                &&& forall|k: int|
                    0 < k < num_descriptions.len() ==> #[trigger] num_descriptions[k - 1].0
                        < num_descriptions[k].0
            },
            _ => true,
        }
    }
}

impl QuestionV {
    /// Validity of a question: its type is valid.
    pub open spec fn wf(self) -> bool {
        self.spec.wf()
    }
}

impl QuestionSetV {
    /// Validity of a group: every question in it is valid.
    pub open spec fn wf(self) -> bool {
        forall|k: int| 0 <= k < self.questions.len() ==> (#[trigger] self.questions[k]).wf()
    }
}

impl FormV {
    /// Validity of a whole specification tree: every group is valid.
    pub open spec fn wf(self) -> bool {
        forall|k: int| 0 <= k < self.groups.len() ==> (#[trigger] self.groups[k]).wf()
    }
}

impl QuestionType {
    /// Check this question type's validity: exactly [`QuestionTypeV::wf`] of
    /// its view. Callers reject a tree that fails this before rendering it.
    #[verifier::loop_isolation(false)]
    pub fn well_formed(&self) -> (r: bool)
        ensures
            r == self@.wf(),
    {
        match self {
            QuestionType::DiscreteNumeric { bounds, num_descriptions } => {
                if bounds.0 > bounds.1 {
                    return false;
                }
                let ghost dv = num_descriptions@.map_values(
                    |p: (i8, String)| (p.0 as int, p.1@),
                );
                let mut i: usize = 0;
                while i < num_descriptions.len()
                    invariant
                        0 <= i <= num_descriptions.len(),
                        dv == num_descriptions@.map_values(|p: (i8, String)| (p.0 as int, p.1@)),
                        dv.len() == num_descriptions.len(),
                        bounds.0 <= bounds.1,
                        forall|k: int|
                            0 <= k < i ==> bounds.0 as int <= #[trigger] dv[k].0
                                <= bounds.1 as int,
                        forall|k: int| 0 < k < i ==> #[trigger] dv[k - 1].0 < dv[k].0,
                    decreases num_descriptions.len() - i,
                {
                    proof {
                        assert(dv[i as int].0 == num_descriptions@[i as int].0 as int);
                        if i > 0 {
                            assert(dv[i as int - 1].0 == num_descriptions@[i as int - 1].0 as int);
                        }
                    }
                    if num_descriptions[i].0 < bounds.0 || num_descriptions[i].0 > bounds.1 {
                        proof {
                            let v = self@;
                            if v.wf() {
                                let nd = v->DiscreteNumeric_num_descriptions;
                                assert(v->DiscreteNumeric_min <= nd[i as int].0);
                                assert(nd[i as int].0 <= v->DiscreteNumeric_max);
                                assert(nd[i as int] == dv[i as int]);
                                assert(false);
                            }
                        }
                        return false;
                    }
                    if i > 0 && num_descriptions[i - 1].0 >= num_descriptions[i].0 {
                        proof {
                            let v = self@;
                            if v.wf() {
                                let nd = v->DiscreteNumeric_num_descriptions;
                                assert(nd[i as int - 1].0 < nd[i as int].0);
                                assert(nd[i as int] == dv[i as int]);
                                assert(nd[i as int - 1] == dv[i as int - 1]);
                                assert(false);
                            }
                        }
                        return false;
                    }
                    i += 1;
                }
                true
            },
            QuestionType::ContinuousNumeric { .. } => true,
            QuestionType::SingleChoice { .. } => true,
            QuestionType::MultipleChoice { .. } => true,
            QuestionType::Text { .. } => true,
        }
    }
}

impl Question {
    /// Check this question's validity: exactly [`QuestionV::wf`] of its view.
    pub fn well_formed(&self) -> (r: bool)
        ensures
            r == self@.wf(),
    {
        self.spec.well_formed()
    }
}

impl QuestionSet {
    /// Check this group's validity: exactly [`QuestionSetV::wf`] of its view.
    #[verifier::loop_isolation(false)]
    pub fn well_formed(&self) -> (r: bool)
        ensures
            r == self@.wf(),
    {
        let ghost qv = self.questions@.map_values(|q: Question| q@);
        let mut i: usize = 0;
        while i < self.questions.len()
            invariant
                0 <= i <= self.questions.len(),
                qv == self.questions@.map_values(|q: Question| q@),
                qv.len() == self.questions.len(),
                forall|k: int| 0 <= k < i ==> (#[trigger] qv[k]).wf(),
            decreases self.questions.len() - i,
        {
            proof {
                assert(qv[i as int] == self.questions@[i as int]@);
            }
            if !self.questions[i].well_formed() {
                proof {
                    let v = self@;
                    if v.wf() {
                        assert(v.questions[i as int].wf());
                        assert(v.questions[i as int] == qv[i as int]);
                        assert(false);
                    }
                }
                return false;
            }
            i += 1;
        }
        true
    }
}

impl Form {
    /// Check the whole tree's validity: exactly [`FormV::wf`] of its view.
    /// A tree that fails this is rejected before any rendering occurs.
    #[verifier::loop_isolation(false)]
    pub fn well_formed(&self) -> (r: bool)
        ensures
            r == self@.wf(),
    {
        let ghost gv = self.groups@.map_values(|g: QuestionSet| g@);
        let mut i: usize = 0;
        while i < self.groups.len()
            invariant
                0 <= i <= self.groups.len(),
                gv == self.groups@.map_values(|g: QuestionSet| g@),
                gv.len() == self.groups.len(),
                forall|k: int| 0 <= k < i ==> (#[trigger] gv[k]).wf(),
            decreases self.groups.len() - i,
        {
            proof {
                assert(gv[i as int] == self.groups@[i as int]@);
            }
            if !self.groups[i].well_formed() {
                proof {
                    let v = self@;
                    if v.wf() {
                        assert(v.groups[i as int].wf());
                        assert(v.groups[i as int] == gv[i as int]);
                        assert(false);
                    }
                }
                return false;
            }
            i += 1;
        }
        true
    }
}

/// Look up the description mapped to `key`: the first pair holding `key`,
/// or `None` when no pair does.
pub open spec fn spec_lookup(descs: Seq<(int, Seq<char>)>, key: int) -> Option<Seq<char>>
    decreases descs.len(),
{
    if descs.len() == 0 {
        None
    } else if descs[0].0 == key {
        Some(descs[0].1)
    } else {
        spec_lookup(descs.skip(1), key)
    }
}

/// Look up the description for value `key` in a description list.
pub fn lookup_description<'a>(descs: &'a Vec<(i8, String)>, key: i8) -> (r: Option<&'a String>)
    ensures
        match r {
            Some(d) => spec_lookup(
                descs@.map_values(|p: (i8, String)| (p.0 as int, p.1@)),
                key as int,
            ) == Some(d@),
            None => spec_lookup(
                descs@.map_values(|p: (i8, String)| (p.0 as int, p.1@)),
                key as int,
            ) is None,
        },
{
    let ghost dv = descs@.map_values(|p: (i8, String)| (p.0 as int, p.1@));
    proof {
        assert(dv.skip(0) =~= dv);
    }
    let mut i: usize = 0;
    while i < descs.len()
        invariant
            0 <= i <= descs.len(),
            dv == descs@.map_values(|p: (i8, String)| (p.0 as int, p.1@)),
            spec_lookup(dv, key as int) == spec_lookup(dv.skip(i as int), key as int),
        decreases descs.len() - i,
    {
        proof {
            assert(dv.skip(i as int)[0] == dv[i as int]);
        }
        if descs[i].0 == key {
            return Some(&descs[i].1);
        }
        proof {
            assert(dv.skip(i as int).skip(1) =~= dv.skip(i as int + 1));
        }
        i += 1;
    }
    proof {
        assert(dv.skip(i as int) =~= Seq::<(int, Seq<char>)>::empty());
    }
    None
}

} // verus!
