//! The rendering engine: one rendering operation per node type, each a pure
//! function from the node plus its assigned identifier to an HTML fragment.
//!
//! Composition is recursive: a container's fragment is the concatenation of
//! its children's fragments, each child invoked with an identifier extended
//! by the child's index (see [`crate::ids`]). Every executable renderer
//! returns exactly the character sequence given by its `spec_render_*`
//! function, so rendering is deterministic by construction
//! (see [`lemma_render_deterministic`]).
//!
//! Text fields are spliced verbatim, without HTML escaping: the specification
//! tree is trusted, caller-validated input.

use vstd::prelude::*;

use crate::ids::{child_id, dec_i8, spec_child_id, spec_dec_int, spec_dec_nat};
use crate::model::{
    Form, FormV, Question, QuestionSet, QuestionSetV, QuestionType, QuestionTypeV, QuestionV,
    lookup_description, spec_lookup,
};

verus! {

/// The parts interleaved with the separator: empty for no parts, otherwise
/// the parts in order with one separator between each adjacent pair.
pub open spec fn spec_join(parts: Seq<Seq<char>>, sep: Seq<char>) -> Seq<char>
    decreases parts.len(),
{
    if parts.len() == 0 {
        Seq::<char>::empty()
    } else if parts.len() == 1 {
        parts[0]
    } else {
        parts[0] + sep + spec_join(parts.skip(1), sep)
    }
}

/// Appending one part to a join appends a separator (when anything precedes
/// it) and the part.
pub proof fn lemma_join_push(parts: Seq<Seq<char>>, sep: Seq<char>, p: Seq<char>)
    ensures
        parts.len() == 0 ==> spec_join(parts.push(p), sep) == p,
        parts.len() > 0 ==> spec_join(parts.push(p), sep) == spec_join(parts, sep) + sep + p,
    decreases parts.len(),
{
    let pp = parts.push(p);
    if parts.len() == 0 {
        assert(pp.len() == 1);
        assert(pp[0] == p);
    } else {
        assert(pp[0] == parts[0]);
        assert(pp.skip(1) =~= parts.skip(1).push(p));
        lemma_join_push(parts.skip(1), sep, p);
        assert(spec_join(pp, sep) =~= spec_join(parts, sep) + sep + p);
    }
}

/// The visible label for a discrete value: `"<value> (<description>)"` when
/// the mapping holds a description for it, else the bare decimal value.
pub open spec fn discrete_label(v: int, descs: Seq<(int, Seq<char>)>) -> Seq<char> {
    match spec_lookup(descs, v) {
        Some(d) => spec_dec_int(v) + " ("@ + d + ")"@,
        None => spec_dec_int(v),
    }
}

/// One radio option of a discrete numeric question: grouping name `id`,
/// element identifier `id` extended by the value, and the value's label.
pub open spec fn discrete_option(id: Seq<char>, v: int, descs: Seq<(int, Seq<char>)>) -> Seq<
    char,
> {
    let eid = id + seq!['-'] + spec_dec_int(v);
    "<input type=\"radio\" name=\""@ + id + "\" id=\""@ + eid + "\" value=\""@ + spec_dec_int(v)
        + "\"><label for=\""@ + eid + "\">"@ + discrete_label(v, descs) + "</label>"@
}

/// The options of a discrete numeric question, one per value of the
/// inclusive range, in ascending order of value.
pub open spec fn discrete_options(
    id: Seq<char>,
    min: int,
    max: int,
    descs: Seq<(int, Seq<char>)>,
) -> Seq<Seq<char>> {
    let n = if min <= max {
        (max - min + 1) as nat
    } else {
        0
    };
    Seq::new(n, |k: int| discrete_option(id, min + k, descs))
}

/// One option of a choice question: an input of the given kind (`radio` or
/// `checkbox`), grouping name `id`, element identifier `id` extended by the
/// option's index, and the answer text as both value and label.
pub open spec fn choice_option(kind: Seq<char>, id: Seq<char>, idx: int, answer: Seq<char>) -> Seq<
    char,
> {
    let eid = id + seq!['-'] + spec_dec_nat(idx as nat);
    "<input type=\""@ + kind + "\" name=\""@ + id + "\" id=\""@ + eid + "\" value=\""@ + answer
        + "\"><label for=\""@ + eid + "\">"@ + answer + "</label>"@
}

/// The options of a choice question, one per answer, in sequence order.
pub open spec fn choice_options(kind: Seq<char>, id: Seq<char>, answers: Seq<Seq<char>>) -> Seq<
    Seq<char>,
> {
    Seq::new(answers.len(), |k: int| choice_option(kind, id, k, answers[k]))
}

/// The custom-answer pair: one extra input of the given kind (element
/// identifier `id` extended by `-c`) and a paired free-text field (`id`
/// extended by `-t`) whose text is mirrored into the extra input's value by
/// a client-side key-up binding.
pub open spec fn custom_pair(kind: Seq<char>, id: Seq<char>) -> Seq<char> {
    "\n<input type=\""@ + kind + "\" name=\""@ + id + "\" id=\""@ + id + "-c\" value=\"\"><input type=\"text\" id=\""@
        + id + "-t\" onkeyup=\"document.getElementById('"@ + id
        + "-c').setAttribute('value', this.value)\">"@
}

/// The fragment of one question type, given the question's identifier.
pub open spec fn spec_render_qtype(q: QuestionTypeV, id: Seq<char>) -> Seq<char> {
    match q {
        QuestionTypeV::Text { is_long } => {
            if is_long {
                "<textarea id=\""@ + id + "\"></textarea>"@
            } else {
                "<input type=\"text\" id=\""@ + id + "\">"@
            }
        },
        QuestionTypeV::ContinuousNumeric { bounds } => {
            match bounds {
                Some(b) => "<input type=\"range\" min=\""@ + b.0 + "\" max=\""@ + b.1
                    + "\" class=\"slider\" id=\""@ + id + "\">"@,
                None => "<input type=\"number\" id=\""@ + id + "\">"@,
            }
        },
        QuestionTypeV::DiscreteNumeric { min, max, num_descriptions } => {
            spec_join(discrete_options(id, min, max, num_descriptions), "\n"@)
        },
        QuestionTypeV::SingleChoice { answers, custom_answer } => {
            spec_join(choice_options("radio"@, id, answers), "\n"@) + if custom_answer {
                custom_pair("radio"@, id)
            } else {
                Seq::<char>::empty()
            }
        },
        QuestionTypeV::MultipleChoice { answers, custom_answer } => {
            spec_join(choice_options("checkbox"@, id, answers), "\n"@) + if custom_answer {
                custom_pair("checkbox"@, id)
            } else {
                Seq::<char>::empty()
            }
        },
    }
}

/// The fragment of one question: its title as a sub-heading, then its type's
/// fragment under the same identifier.
pub open spec fn spec_render_question(q: QuestionV, id: Seq<char>) -> Seq<char> {
    "<h3>"@ + q.title + "</h3>"@ + spec_render_qtype(q.spec, id)
}

/// The fragments of a group's questions, each under a child identifier
/// derived from its index.
pub open spec fn question_fragments(questions: Seq<QuestionV>, id: Seq<char>) -> Seq<Seq<char>> {
    Seq::new(questions.len(), |k: int| spec_render_question(questions[k], spec_child_id(id, k)))
}

/// The fragment of one question set: heading, description paragraph, and a
/// form-scoped block of its questions' fragments in order, separated by a
/// line break.
pub open spec fn spec_render_question_set(g: QuestionSetV, id: Seq<char>) -> Seq<char> {
    "<h2>"@ + g.title + "</h2><p>"@ + g.description + "</p><form>"@ + spec_join(
        question_fragments(g.questions, id),
        "\n</br>\n"@,
    ) + "</form>"@
}

/// The fragments of a form's groups, each under a child identifier derived
/// from its index.
pub open spec fn group_fragments(groups: Seq<QuestionSetV>, id: Seq<char>) -> Seq<Seq<char>> {
    Seq::new(groups.len(), |k: int| spec_render_question_set(groups[k], spec_child_id(id, k)))
}

/// The complete HTML document of a form: title heading, description
/// paragraph, and the concatenation of the groups' fragments in order.
pub open spec fn spec_render_form(f: FormV, id: Seq<char>) -> Seq<char> {
    "<html style=\"font-family=sans-serif\"><body><h1>"@ + f.title + "</h1><p>"@ + f.description
        + "</p><div class=\"content\"><pre>"@ + spec_join(group_fragments(f.groups, id), "\n"@)
        + "</pre></div></body></html>"@
}

/// The identifier of a discrete option's element: the question's identifier
/// extended by the option's (possibly negative) value.
fn value_id(id: &str, v: i8) -> (r: String)
    ensures
        r@ == id@ + seq!['-'] + spec_dec_int(v as int),
{
    let mut s = id.to_owned();
    s.append("-");
    let digits = dec_i8(v);
    s.append(digits.as_str());
    proof {
        reveal_strlit("-");
        assert("-"@ =~= seq!['-']);
        assert(s@ =~= id@ + seq!['-'] + spec_dec_int(v as int));
    }
    s
}

/// Render the options of a choice question (`kind` is `radio` or
/// `checkbox`), one per answer in sequence order, separated by line breaks.
fn render_choice_options(kind: &str, id: &str, answers: &Vec<String>) -> (r: String)
    ensures
        r@ == spec_join(
            choice_options(kind@, id@, answers@.map_values(|a: String| a@)),
            "\n"@,
        ),
{
    let ghost parts = choice_options(kind@, id@, answers@.map_values(|a: String| a@));
    let mut out = String::new();
    let mut i: usize = 0;
    while i < answers.len()
        invariant
            0 <= i <= answers.len(),
            parts == choice_options(kind@, id@, answers@.map_values(|a: String| a@)),
            parts.len() == answers.len(),
            out@ == spec_join(parts.take(i as int), "\n"@),
        decreases answers.len() - i,
    {
        if i > 0 {
            out.append("\n");
        }
        let eid = child_id(id, i);
        out.append("<input type=\"");
        out.append(kind);
        out.append("\" name=\"");
        out.append(id);
        out.append("\" id=\"");
        out.append(eid.as_str());
        out.append("\" value=\"");
        out.append(answers[i].as_str());
        out.append("\"><label for=\"");
        out.append(eid.as_str());
        out.append("\">");
        out.append(answers[i].as_str());
        out.append("</label>");
        proof {
            let av = answers@.map_values(|a: String| a@);
            assert(av[i as int] == answers@[i as int]@);
            lemma_join_push(parts.take(i as int), "\n"@, parts[i as int]);
            assert(parts[i as int] == choice_option(kind@, id@, i as int, av[i as int]));
            assert(parts.take(i as int + 1) =~= parts.take(i as int).push(parts[i as int]));
            assert(out@ =~= spec_join(parts.take(i as int + 1), "\n"@));
        }
        i += 1;
    }
    proof {
        assert(parts.take(parts.len() as int) =~= parts);
    }
    out
}

/// Append the custom-answer pair for a choice question of the given kind.
fn append_custom_pair(out: &mut String, kind: &str, id: &str)
    ensures
        final(out)@ == old(out)@ + custom_pair(kind@, id@),
{
    out.append("\n<input type=\"");
    out.append(kind);
    out.append("\" name=\"");
    out.append(id);
    out.append("\" id=\"");
    out.append(id);
    out.append("-c\" value=\"\"><input type=\"text\" id=\"");
    out.append(id);
    out.append("-t\" onkeyup=\"document.getElementById('");
    out.append(id);
    out.append("-c').setAttribute('value', this.value)\">");
    proof {
        assert(out@ =~= old(out)@ + custom_pair(kind@, id@));
    }
}

impl QuestionType {
    /// Render this question type under the element identifier `id`: exactly
    /// the fragment [`spec_render_qtype`] gives.
    pub fn render(&self, id: &str) -> (r: String)
        ensures
            r@ == spec_render_qtype(self@, id@),
    {
        match self {
            QuestionType::Text { is_long } => {
                let mut out = String::new();
                if *is_long {
                    out.append("<textarea id=\"");
                    out.append(id);
                    out.append("\"></textarea>");
                } else {
                    out.append("<input type=\"text\" id=\"");
                    out.append(id);
                    out.append("\">");
                }
                proof {
                    assert(out@ =~= spec_render_qtype(self@, id@));
                }
                out
            },
            QuestionType::ContinuousNumeric { bounds } => {
                let mut out = String::new();
                match bounds {
                    Some(b) => {
                        out.append("<input type=\"range\" min=\"");
                        out.append(b.0.as_str());
                        out.append("\" max=\"");
                        out.append(b.1.as_str());
                        out.append("\" class=\"slider\" id=\"");
                        out.append(id);
                        out.append("\">");
                    },
                    None => {
                        out.append("<input type=\"number\" id=\"");
                        out.append(id);
                        out.append("\">");
                    },
                }
                proof {
                    assert(out@ =~= spec_render_qtype(self@, id@));
                }
                out
            },
            QuestionType::DiscreteNumeric { bounds, num_descriptions } => {
                let min = bounds.0;
                let max = bounds.1;
                let ghost dv = num_descriptions@.map_values(|p: (i8, String)| (p.0 as int, p.1@));
                let ghost parts = discrete_options(id@, min as int, max as int, dv);
                let mut out = String::new();
                let mut v: i16 = min as i16;
                while v <= max as i16
                    invariant
                        min as i16 <= v <= max as i16 + 1 || (min > max && v == min as i16),
                        dv == num_descriptions@.map_values(|p: (i8, String)| (p.0 as int, p.1@)),
                        parts == discrete_options(id@, min as int, max as int, dv),
                        min <= max ==> parts.len() == max as int - min as int + 1,
                        min > max ==> parts.len() == 0,
                        out@ == spec_join(parts.take(v as int - min as int), "\n"@),
                    decreases max as int + 1 - v as int,
                {
                    let ghost k = v as int - min as int;
                    if v > min as i16 {
                        out.append("\n");
                    }
                    let vb: i8 = v as i8;
                    let eid = value_id(id, vb);
                    let digits = dec_i8(vb);
                    out.append("<input type=\"radio\" name=\"");
                    out.append(id);
                    out.append("\" id=\"");
                    out.append(eid.as_str());
                    out.append("\" value=\"");
                    out.append(digits.as_str());
                    out.append("\"><label for=\"");
                    out.append(eid.as_str());
                    out.append("\">");
                    match lookup_description(num_descriptions, vb) {
                        Some(d) => {
                            out.append(digits.as_str());
                            out.append(" (");
                            out.append(d.as_str());
                            out.append(")");
                        },
                        None => {
                            out.append(digits.as_str());
                        },
                    }
                    out.append("</label>");
                    proof {
                        lemma_join_push(parts.take(k), "\n"@, parts[k]);
                        assert(parts[k] == discrete_option(id@, v as int, dv));
                        assert(parts.take(k + 1) =~= parts.take(k).push(parts[k]));
                        assert(out@ =~= spec_join(parts.take(k + 1), "\n"@));
                    }
                    v = v + 1;
                }
                proof {
                    assert(parts.take(parts.len() as int) =~= parts);
                    assert(out@ =~= spec_render_qtype(self@, id@));
                }
                out
            },
            QuestionType::SingleChoice { answers, custom_answer } => {
                let mut out = render_choice_options("radio", id, answers);
                if *custom_answer {
                    append_custom_pair(&mut out, "radio", id);
                }
                proof {
                    assert(out@ =~= spec_render_qtype(self@, id@));
                }
                out
            },
            QuestionType::MultipleChoice { answers, custom_answer } => {
                let mut out = render_choice_options("checkbox", id, answers);
                if *custom_answer {
                    append_custom_pair(&mut out, "checkbox", id);
                }
                proof {
                    assert(out@ =~= spec_render_qtype(self@, id@));
                }
                out
            },
        }
    }
}

impl Question {
    /// Render this question under the identifier `id`: the title as a
    /// sub-heading, then the type's fragment under the same identifier.
    pub fn render(&self, id: &str) -> (r: String)
        ensures
            r@ == spec_render_question(self@, id@),
    {
        let mut out = String::new();
        out.append("<h3>");
        out.append(self.title.as_str());
        out.append("</h3>");
        let body = self.spec.render(id);
        out.append(body.as_str());
        proof {
            assert(out@ =~= spec_render_question(self@, id@));
        }
        out
    }
}

impl QuestionSet {
    /// Render this group under the identifier `id`: heading, description,
    /// and each question's fragment under a derived child identifier,
    /// separated by line breaks.
    pub fn render(&self, id: &str) -> (r: String)
        ensures
            r@ == spec_render_question_set(self@, id@),
    {
        let ghost qv = self.questions@.map_values(|q: Question| q@);
        let ghost parts = question_fragments(qv, id@);
        let mut out = String::new();
        out.append("<h2>");
        out.append(self.title.as_str());
        out.append("</h2><p>");
        out.append(self.description.as_str());
        out.append("</p><form>");
        let ghost header = out@;
        let mut i: usize = 0;
        while i < self.questions.len()
            invariant
                0 <= i <= self.questions.len(),
                qv == self.questions@.map_values(|q: Question| q@),
                parts == question_fragments(qv, id@),
                parts.len() == self.questions.len(),
                out@ == header + spec_join(parts.take(i as int), "\n</br>\n"@),
            decreases self.questions.len() - i,
        {
            if i > 0 {
                out.append("\n</br>\n");
            }
            let cid = child_id(id, i);
            let fragment = self.questions[i].render(cid.as_str());
            out.append(fragment.as_str());
            proof {
                assert(qv[i as int] == self.questions@[i as int]@);
                lemma_join_push(parts.take(i as int), "\n</br>\n"@, parts[i as int]);
                assert(parts[i as int] == spec_render_question(
                    qv[i as int],
                    spec_child_id(id@, i as int),
                ));
                assert(parts.take(i as int + 1) =~= parts.take(i as int).push(parts[i as int]));
                assert(out@ =~= header + spec_join(parts.take(i as int + 1), "\n</br>\n"@));
            }
            i += 1;
        }
        out.append("</form>");
        proof {
            assert(parts.take(parts.len() as int) =~= parts);
            assert(out@ =~= spec_render_question_set(self@, id@));
        }
        out
    }
}

impl Form {
    /// Render the whole form under the root identifier `id` into one
    /// complete HTML document: exactly [`spec_render_form`] of this form's
    /// view. Pure in its inputs; no error conditions.
    pub fn render(&self, id: &str) -> (r: String)
        ensures
            r@ == spec_render_form(self@, id@),
    {
        let ghost gv = self.groups@.map_values(|g: QuestionSet| g@);
        let ghost parts = group_fragments(gv, id@);
        let mut out = String::new();
        out.append("<html style=\"font-family=sans-serif\"><body><h1>");
        out.append(self.title.as_str());
        out.append("</h1><p>");
        out.append(self.description.as_str());
        out.append("</p><div class=\"content\"><pre>");
        let ghost header = out@;
        let mut i: usize = 0;
        while i < self.groups.len()
            invariant
                0 <= i <= self.groups.len(),
                gv == self.groups@.map_values(|g: QuestionSet| g@),
                parts == group_fragments(gv, id@),
                parts.len() == self.groups.len(),
                out@ == header + spec_join(parts.take(i as int), "\n"@),
            decreases self.groups.len() - i,
        {
            if i > 0 {
                out.append("\n");
            }
            let cid = child_id(id, i);
            let fragment = self.groups[i].render(cid.as_str());
            out.append(fragment.as_str());
            proof {
                assert(gv[i as int] == self.groups@[i as int]@);
                lemma_join_push(parts.take(i as int), "\n"@, parts[i as int]);
                assert(parts[i as int] == spec_render_question_set(
                    gv[i as int],
                    spec_child_id(id@, i as int),
                ));
                assert(parts.take(i as int + 1) =~= parts.take(i as int).push(parts[i as int]));
                assert(out@ =~= header + spec_join(parts.take(i as int + 1), "\n"@));
            }
            i += 1;
        }
        out.append("</pre></div></body></html>");
        proof {
            assert(parts.take(parts.len() as int) =~= parts);
            assert(out@ =~= spec_render_form(self@, id@));
        }
        out
    }
}

/// Rendering is deterministic: identical trees and identical root
/// identifiers always yield the identical output character sequence. Since
/// [`Form::render`] returns exactly `spec_render_form` of its inputs' views,
/// two renders of equal inputs are byte-identical.
pub proof fn lemma_render_deterministic(f1: FormV, f2: FormV, id1: Seq<char>, id2: Seq<char>)
    requires
        f1 == f2,
        id1 == id2,
    ensures
        spec_render_form(f1, id1) == spec_render_form(f2, id2),
{
}

/// A discrete numeric question renders exactly `max - min + 1` options, in
/// ascending order of value (the option at position `k` is for value
/// `min + k`), each labelled `"<value> (<description>)"` when the mapping
/// holds the value, else by the bare decimal value.
pub proof fn lemma_discrete_options_shape(
    id: Seq<char>,
    min: int,
    max: int,
    descs: Seq<(int, Seq<char>)>,
)
    requires
        min <= max,
    ensures
        spec_render_qtype(
            (QuestionTypeV::DiscreteNumeric { min, max, num_descriptions: descs }),
            id,
        ) == spec_join(discrete_options(id, min, max, descs), "\n"@),
        discrete_options(id, min, max, descs).len() == max - min + 1,
        forall|k: int|
            0 <= k <= max - min ==> #[trigger] discrete_options(id, min, max, descs)[k]
                == discrete_option(id, min + k, descs),
        forall|v: int|
            min <= v <= max && spec_lookup(descs, v) is Some ==> #[trigger] discrete_label(v, descs)
                == spec_dec_int(v) + " ("@ + spec_lookup(descs, v)->Some_0 + ")"@,
        forall|v: int|
            min <= v <= max && spec_lookup(descs, v) is None ==> #[trigger] discrete_label(v, descs)
                == spec_dec_int(v),
{
}

/// A choice question renders exactly `answers.len()` options (the option at
/// position `k` is for answer `k`), and exactly one extra custom pair when
/// and only when the custom-answer flag is set: the rendered fragment is the
/// joined options followed by the pair, or by nothing.
pub proof fn lemma_choice_options_shape(id: Seq<char>, answers: Seq<Seq<char>>, custom: bool)
    ensures
        spec_render_qtype((QuestionTypeV::SingleChoice { answers, custom_answer: custom }), id)
            == spec_join(choice_options("radio"@, id, answers), "\n"@) + if custom {
            custom_pair("radio"@, id)
        } else {
            Seq::<char>::empty()
        },
        spec_render_qtype((QuestionTypeV::MultipleChoice { answers, custom_answer: custom }), id)
            == spec_join(choice_options("checkbox"@, id, answers), "\n"@) + if custom {
            custom_pair("checkbox"@, id)
        } else {
            Seq::<char>::empty()
        },
        choice_options("radio"@, id, answers).len() == answers.len(),
        choice_options("checkbox"@, id, answers).len() == answers.len(),
        forall|k: int|
            0 <= k < answers.len() ==> #[trigger] choice_options("radio"@, id, answers)[k]
                == choice_option("radio"@, id, k, answers[k]),
        forall|k: int|
            0 <= k < answers.len() ==> #[trigger] choice_options("checkbox"@, id, answers)[k]
                == choice_option("checkbox"@, id, k, answers[k]),
{
}

} // verus!
