//! The declarative text form of a specification tree, with a verified
//! writer and reader.
//!
//! The form mirrors the model field for field, in order. Strings are
//! length-prefixed (`<len>:<chars>`), numbers are decimal with a `;`
//! terminator, booleans are `1;` or `0;`, sequences are a count followed by
//! the elements, and each question type starts with an explicit
//! single-letter discriminator (`d;`, `c;`, `s;`, `m;`, `t;`). Counts and
//! lengths are written with at most eighteen digits, which every value a
//! machine-built tree can hold satisfies.
//!
//! Reading back what was written yields a field-for-field equal tree:
//! see [`lemma_round_trip`].

use vstd::prelude::*;

use crate::ids::{dec_i8, dec_u64, dec_usize, digit_char, spec_dec_int, spec_dec_nat};
use crate::model::{
    Form, FormV, Question, QuestionSet, QuestionSetV, QuestionType, QuestionTypeV, QuestionV,
};

verus! {

/// The largest count or string length the text form can carry: one less
/// than the smallest nineteen-digit number.
pub open spec fn fits_count(n: nat) -> bool {
    n < 1000000000000000000
}

/// A string field small enough for the text form.
pub open spec fn fits_str(t: Seq<char>) -> bool {
    fits_count(t.len())
}

/// A question type whose fields the text form can carry: counts and string
/// lengths within [`fits_count`], numeric fields within the signed 8-bit
/// range. Every value built from the executable model satisfies this.
pub open spec fn fits_qtype(q: QuestionTypeV) -> bool {
    match q {
        QuestionTypeV::DiscreteNumeric { min, max, num_descriptions } => {
            &&& -128 <= min <= 127
            &&& -128 <= max <= 127
            &&& fits_count(num_descriptions.len())
            &&& forall|k: int|
                0 <= k < num_descriptions.len() ==> -128 <= (
                #[trigger] num_descriptions[k]).0 <= 127 && fits_str(num_descriptions[k].1)
        },
        QuestionTypeV::ContinuousNumeric { bounds } => {
            match bounds {
                Some(b) => fits_str(b.0) && fits_str(b.1),
                None => true,
            }
        },
        QuestionTypeV::SingleChoice { answers, .. } => {
            &&& fits_count(answers.len())
            &&& forall|k: int| 0 <= k < answers.len() ==> fits_str(#[trigger] answers[k])
        },
        QuestionTypeV::MultipleChoice { answers, .. } => {
            &&& fits_count(answers.len())
            &&& forall|k: int| 0 <= k < answers.len() ==> fits_str(#[trigger] answers[k])
        },
        QuestionTypeV::Text { .. } => true,
    }
}

/// A question the text form can carry.
pub open spec fn fits_question(q: QuestionV) -> bool {
    fits_str(q.title) && fits_qtype(q.spec)
}

/// A question set the text form can carry.
pub open spec fn fits_question_set(g: QuestionSetV) -> bool {
    &&& fits_str(g.title)
    &&& fits_str(g.description)
    &&& fits_count(g.questions.len())
    &&& forall|k: int| 0 <= k < g.questions.len() ==> fits_question(#[trigger] g.questions[k])
}

/// A whole tree the text form can carry.
pub open spec fn fits_form(f: FormV) -> bool {
    &&& fits_str(f.title)
    &&& fits_str(f.description)
    &&& fits_count(f.groups.len())
    &&& forall|k: int| 0 <= k < f.groups.len() ==> fits_question_set(#[trigger] f.groups[k])
}

/// A count or length field: decimal digits and a `;`.
pub open spec fn ser_num(n: nat) -> Seq<char> {
    spec_dec_nat(n) + seq![';']
}

/// A signed numeric field: decimal text (with a `-` sign when negative) and
/// a `;`.
pub open spec fn ser_int(v: int) -> Seq<char> {
    spec_dec_int(v) + seq![';']
}

/// A boolean field: `1;` or `0;`.
pub open spec fn ser_bool(b: bool) -> Seq<char> {
    if b {
        seq!['1', ';']
    } else {
        seq!['0', ';']
    }
}

/// A string field: its length, a `:`, and its characters verbatim.
pub open spec fn ser_str(t: Seq<char>) -> Seq<char> {
    spec_dec_nat(t.len()) + seq![':'] + t
}

/// The description pairs of a discrete numeric question, in order.
pub open spec fn ser_pairs(ps: Seq<(int, Seq<char>)>) -> Seq<char>
    decreases ps.len(),
{
    if ps.len() == 0 {
        Seq::<char>::empty()
    } else {
        ser_int(ps[0].0) + ser_str(ps[0].1) + ser_pairs(ps.skip(1))
    }
}

/// The answer strings of a choice question, in order.
pub open spec fn ser_strs(ts: Seq<Seq<char>>) -> Seq<char>
    decreases ts.len(),
{
    if ts.len() == 0 {
        Seq::<char>::empty()
    } else {
        ser_str(ts[0]) + ser_strs(ts.skip(1))
    }
}

/// A question type: its discriminator, then its fields in order.
pub open spec fn ser_qtype(q: QuestionTypeV) -> Seq<char> {
    match q {
        QuestionTypeV::DiscreteNumeric { min, max, num_descriptions } => {
            seq!['d', ';'] + ser_int(min) + ser_int(max) + ser_num(num_descriptions.len())
                + ser_pairs(num_descriptions)
        },
        QuestionTypeV::ContinuousNumeric { bounds } => {
            match bounds {
                Some(b) => seq!['c', ';'] + ser_bool(true) + ser_str(b.0) + ser_str(b.1),
                None => seq!['c', ';'] + ser_bool(false),
            }
        },
        QuestionTypeV::SingleChoice { answers, custom_answer } => {
            seq!['s', ';'] + ser_num(answers.len()) + ser_strs(answers) + ser_bool(custom_answer)
        },
        QuestionTypeV::MultipleChoice { answers, custom_answer } => {
            seq!['m', ';'] + ser_num(answers.len()) + ser_strs(answers) + ser_bool(custom_answer)
        },
        QuestionTypeV::Text { is_long } => seq!['t', ';'] + ser_bool(is_long),
    }
}

/// A question: its title, then its type.
pub open spec fn ser_question(q: QuestionV) -> Seq<char> {
    ser_str(q.title) + ser_qtype(q.spec)
}

/// The questions of a group, in order.
pub open spec fn ser_questions(qs: Seq<QuestionV>) -> Seq<char>
    decreases qs.len(),
{
    if qs.len() == 0 {
        Seq::<char>::empty()
    } else {
        ser_question(qs[0]) + ser_questions(qs.skip(1))
    }
}

/// A question set: title, description, question count, then the questions.
pub open spec fn ser_question_set(g: QuestionSetV) -> Seq<char> {
    ser_str(g.title) + ser_str(g.description) + ser_num(g.questions.len()) + ser_questions(
        g.questions,
    )
}

/// The groups of a form, in order.
pub open spec fn ser_question_sets(gs: Seq<QuestionSetV>) -> Seq<char>
    decreases gs.len(),
{
    if gs.len() == 0 {
        Seq::<char>::empty()
    } else {
        ser_question_set(gs[0]) + ser_question_sets(gs.skip(1))
    }
}

/// The whole text form of a tree: title, description, group count, then the
/// groups.
pub open spec fn ser_form(f: FormV) -> Seq<char> {
    ser_str(f.title) + ser_str(f.description) + ser_num(f.groups.len()) + ser_question_sets(
        f.groups,
    )
}

/// Appending one pair extends the pair serialization at the end.
pub proof fn lemma_ser_pairs_push(ps: Seq<(int, Seq<char>)>, p: (int, Seq<char>))
    ensures
        ser_pairs(ps.push(p)) == ser_pairs(ps) + ser_int(p.0) + ser_str(p.1),
    decreases ps.len(),
{
    reveal_with_fuel(ser_pairs, 2);
    let pp = ps.push(p);
    if ps.len() == 0 {
        assert(pp[0] == p);
        assert(pp.skip(1) =~= Seq::<(int, Seq<char>)>::empty());
        assert(ser_pairs(pp) =~= ser_pairs(ps) + ser_int(p.0) + ser_str(p.1));
    } else {
        assert(pp[0] == ps[0]);
        assert(pp.skip(1) =~= ps.skip(1).push(p));
        lemma_ser_pairs_push(ps.skip(1), p);
        assert(ser_pairs(pp) =~= ser_pairs(ps) + ser_int(p.0) + ser_str(p.1));
    }
}

/// Appending one string extends the string-list serialization at the end.
pub proof fn lemma_ser_strs_push(ts: Seq<Seq<char>>, t: Seq<char>)
    ensures
        ser_strs(ts.push(t)) == ser_strs(ts) + ser_str(t),
    decreases ts.len(),
{
    reveal_with_fuel(ser_strs, 2);
    let pp = ts.push(t);
    if ts.len() == 0 {
        assert(pp[0] == t);
        assert(pp.skip(1) =~= Seq::<Seq<char>>::empty());
        assert(ser_strs(pp) =~= ser_strs(ts) + ser_str(t));
    } else {
        assert(pp[0] == ts[0]);
        assert(pp.skip(1) =~= ts.skip(1).push(t));
        lemma_ser_strs_push(ts.skip(1), t);
        assert(ser_strs(pp) =~= ser_strs(ts) + ser_str(t));
    }
}

/// Appending one question extends the question-list serialization at the
/// end.
pub proof fn lemma_ser_questions_push(qs: Seq<QuestionV>, q: QuestionV)
    ensures
        ser_questions(qs.push(q)) == ser_questions(qs) + ser_question(q),
    decreases qs.len(),
{
    reveal_with_fuel(ser_questions, 2);
    let pp = qs.push(q);
    if qs.len() == 0 {
        assert(pp[0] == q);
        assert(pp.skip(1) =~= Seq::<QuestionV>::empty());
        assert(ser_questions(pp) =~= ser_questions(qs) + ser_question(q));
    } else {
        assert(pp[0] == qs[0]);
        assert(pp.skip(1) =~= qs.skip(1).push(q));
        lemma_ser_questions_push(qs.skip(1), q);
        assert(ser_questions(pp) =~= ser_questions(qs) + ser_question(q));
    }
}

/// Appending one group extends the group-list serialization at the end.
pub proof fn lemma_ser_question_sets_push(gs: Seq<QuestionSetV>, g: QuestionSetV)
    ensures
        ser_question_sets(gs.push(g)) == ser_question_sets(gs) + ser_question_set(g),
    decreases gs.len(),
{
    reveal_with_fuel(ser_question_sets, 2);
    let pp = gs.push(g);
    if gs.len() == 0 {
        assert(pp[0] == g);
        assert(pp.skip(1) =~= Seq::<QuestionSetV>::empty());
        assert(ser_question_sets(pp) =~= ser_question_sets(gs) + ser_question_set(g));
    } else {
        assert(pp[0] == gs[0]);
        assert(pp.skip(1) =~= gs.skip(1).push(g));
        lemma_ser_question_sets_push(gs.skip(1), g);
        assert(ser_question_sets(pp) =~= ser_question_sets(gs) + ser_question_set(g));
    }
}

/// Write a count or length field.
fn write_num(out: &mut String, n: u64)
    ensures
        final(out)@ == old(out)@ + ser_num(n as nat),
{
    let digits = dec_u64(n);
    out.append(digits.as_str());
    out.append(";");
    proof {
        reveal_strlit(";");
        assert(";"@ =~= seq![';']);
        assert(out@ =~= old(out)@ + ser_num(n as nat));
    }
}

/// Write a signed numeric field.
fn write_int8(out: &mut String, v: i8)
    ensures
        final(out)@ == old(out)@ + ser_int(v as int),
{
    let digits = dec_i8(v);
    out.append(digits.as_str());
    out.append(";");
    proof {
        reveal_strlit(";");
        assert(";"@ =~= seq![';']);
        assert(out@ =~= old(out)@ + ser_int(v as int));
    }
}

/// Write a boolean field.
fn write_bool(out: &mut String, b: bool)
    ensures
        final(out)@ == old(out)@ + ser_bool(b),
{
    if b {
        out.append("1;");
    } else {
        out.append("0;");
    }
    proof {
        reveal_strlit("1;");
        reveal_strlit("0;");
        assert(out@ =~= old(out)@ + ser_bool(b));
    }
}

/// Write a string field.
fn write_str(out: &mut String, t: &str)
    ensures
        final(out)@ == old(out)@ + ser_str(t@),
{
    let n = t.unicode_len();
    let digits = dec_usize(n);
    out.append(digits.as_str());
    out.append(":");
    out.append(t);
    proof {
        reveal_strlit(":");
        assert(":"@ =~= seq![':']);
        assert(out@ =~= old(out)@ + ser_str(t@));
    }
}

/// Write a question type: its discriminator, then its fields.
fn write_qtype(out: &mut String, q: &QuestionType)
    ensures
        final(out)@ == old(out)@ + ser_qtype(q@),
{
    match q {
        QuestionType::DiscreteNumeric { bounds, num_descriptions } => {
            out.append("d;");
            write_int8(out, bounds.0);
            write_int8(out, bounds.1);
            write_num(out, num_descriptions.len() as u64);
            let ghost pv = num_descriptions@.map_values(|p: (i8, String)| (p.0 as int, p.1@));
            let ghost base = out@;
            let mut i: usize = 0;
            while i < num_descriptions.len()
                invariant
                    0 <= i <= num_descriptions.len(),
                    pv == num_descriptions@.map_values(|p: (i8, String)| (p.0 as int, p.1@)),
                    pv.len() == num_descriptions.len(),
                    out@ == base + ser_pairs(pv.take(i as int)),
                decreases num_descriptions.len() - i,
            {
                write_int8(out, num_descriptions[i].0);
                write_str(out, num_descriptions[i].1.as_str());
                proof {
                    assert(pv[i as int] == (num_descriptions@[i as int].0 as int, num_descriptions@[i as int].1@));
                    lemma_ser_pairs_push(pv.take(i as int), pv[i as int]);
                    assert(pv.take(i as int + 1) =~= pv.take(i as int).push(pv[i as int]));
                    assert(out@ =~= base + ser_pairs(pv.take(i as int + 1)));
                }
                i += 1;
            }
            proof {
                reveal_strlit("d;");
                assert("d;"@ =~= seq!['d', ';']);
                assert(pv.take(pv.len() as int) =~= pv);
                assert(out@ =~= old(out)@ + ser_qtype(q@));
            }
        },
        QuestionType::ContinuousNumeric { bounds } => {
            out.append("c;");
            match bounds {
                Some(b) => {
                    write_bool(out, true);
                    write_str(out, b.0.as_str());
                    write_str(out, b.1.as_str());
                },
                None => {
                    write_bool(out, false);
                },
            }
            proof {
                reveal_strlit("c;");
                assert("c;"@ =~= seq!['c', ';']);
                assert(out@ =~= old(out)@ + ser_qtype(q@));
            }
        },
        QuestionType::SingleChoice { answers, custom_answer } => {
            out.append("s;");
            write_num(out, answers.len() as u64);
            let ghost av = answers@.map_values(|a: String| a@);
            let ghost base = out@;
            let mut i: usize = 0;
            while i < answers.len()
                invariant
                    0 <= i <= answers.len(),
                    av == answers@.map_values(|a: String| a@),
                    av.len() == answers.len(),
                    out@ == base + ser_strs(av.take(i as int)),
                decreases answers.len() - i,
            {
                write_str(out, answers[i].as_str());
                proof {
                    assert(av[i as int] == answers@[i as int]@);
                    lemma_ser_strs_push(av.take(i as int), av[i as int]);
                    assert(av.take(i as int + 1) =~= av.take(i as int).push(av[i as int]));
                    assert(out@ =~= base + ser_strs(av.take(i as int + 1)));
                }
                i += 1;
            }
            write_bool(out, *custom_answer);
            proof {
                reveal_strlit("s;");
                assert("s;"@ =~= seq!['s', ';']);
                assert(av.take(av.len() as int) =~= av);
                assert(out@ =~= old(out)@ + ser_qtype(q@));
            }
        },
        QuestionType::MultipleChoice { answers, custom_answer } => {
            out.append("m;");
            write_num(out, answers.len() as u64);
            let ghost av = answers@.map_values(|a: String| a@);
            let ghost base = out@;
            let mut i: usize = 0;
            while i < answers.len()
                invariant
                    0 <= i <= answers.len(),
                    av == answers@.map_values(|a: String| a@),
                    av.len() == answers.len(),
                    out@ == base + ser_strs(av.take(i as int)),
                decreases answers.len() - i,
            {
                write_str(out, answers[i].as_str());
                proof {
                    assert(av[i as int] == answers@[i as int]@);
                    lemma_ser_strs_push(av.take(i as int), av[i as int]);
                    assert(av.take(i as int + 1) =~= av.take(i as int).push(av[i as int]));
                    assert(out@ =~= base + ser_strs(av.take(i as int + 1)));
                }
                i += 1;
            }
            write_bool(out, *custom_answer);
            proof {
                reveal_strlit("m;");
                assert("m;"@ =~= seq!['m', ';']);
                assert(av.take(av.len() as int) =~= av);
                assert(out@ =~= old(out)@ + ser_qtype(q@));
            }
        },
        QuestionType::Text { is_long } => {
            out.append("t;");
            write_bool(out, *is_long);
            proof {
                reveal_strlit("t;");
                assert("t;"@ =~= seq!['t', ';']);
                assert(out@ =~= old(out)@ + ser_qtype(q@));
            }
        },
    }
}

/// Write a question: its title, then its type.
fn write_question(out: &mut String, q: &Question)
    ensures
        final(out)@ == old(out)@ + ser_question(q@),
{
    write_str(out, q.title.as_str());
    write_qtype(out, &q.spec);
    proof {
        assert(out@ =~= old(out)@ + ser_question(q@));
    }
}

/// Write a question set: title, description, count, then the questions.
fn write_question_set(out: &mut String, g: &QuestionSet)
    ensures
        final(out)@ == old(out)@ + ser_question_set(g@),
{
    write_str(out, g.title.as_str());
    write_str(out, g.description.as_str());
    write_num(out, g.questions.len() as u64);
    let ghost qv = g.questions@.map_values(|q: Question| q@);
    let ghost base = out@;
    let mut i: usize = 0;
    while i < g.questions.len()
        invariant
            0 <= i <= g.questions.len(),
            qv == g.questions@.map_values(|q: Question| q@),
            qv.len() == g.questions.len(),
            out@ == base + ser_questions(qv.take(i as int)),
        decreases g.questions.len() - i,
    {
        write_question(out, &g.questions[i]);
        proof {
            assert(qv[i as int] == g.questions@[i as int]@);
            lemma_ser_questions_push(qv.take(i as int), qv[i as int]);
            assert(qv.take(i as int + 1) =~= qv.take(i as int).push(qv[i as int]));
            assert(out@ =~= base + ser_questions(qv.take(i as int + 1)));
        }
        i += 1;
    }
    proof {
        assert(qv.take(qv.len() as int) =~= qv);
        assert(out@ =~= old(out)@ + ser_question_set(g@));
    }
}

/// Serialize a tree into its declarative text form: exactly [`ser_form`] of
/// the tree's view.
pub fn serialize(f: &Form) -> (r: String)
    ensures
        r@ == ser_form(f@),
{
    let mut out = String::new();
    write_str(&mut out, f.title.as_str());
    write_str(&mut out, f.description.as_str());
    write_num(&mut out, f.groups.len() as u64);
    let ghost gv = f.groups@.map_values(|g: QuestionSet| g@);
    let ghost base = out@;
    let mut i: usize = 0;
    while i < f.groups.len()
        invariant
            0 <= i <= f.groups.len(),
            gv == f.groups@.map_values(|g: QuestionSet| g@),
            gv.len() == f.groups.len(),
            out@ == base + ser_question_sets(gv.take(i as int)),
        decreases f.groups.len() - i,
    {
        write_question_set(&mut out, &f.groups[i]);
        proof {
            assert(gv[i as int] == f.groups@[i as int]@);
            lemma_ser_question_sets_push(gv.take(i as int), gv[i as int]);
            assert(gv.take(i as int + 1) =~= gv.take(i as int).push(gv[i as int]));
            assert(out@ =~= base + ser_question_sets(gv.take(i as int + 1)));
        }
        i += 1;
    }
    proof {
        assert(gv.take(gv.len() as int) =~= gv);
        assert(out@ =~= ser_form(f@));
    }
    out
}

/// Whether a character is a decimal digit.
pub open spec fn is_digit_char(c: char) -> bool {
    c == '0' || c == '1' || c == '2' || c == '3' || c == '4' || c == '5' || c == '6' || c == '7'
        || c == '8' || c == '9'
}

/// The value of a decimal digit character.
pub open spec fn digit_val(c: char) -> nat {
    if c == '0' {
        0
    } else if c == '1' {
        1
    } else if c == '2' {
        2
    } else if c == '3' {
        3
    } else if c == '4' {
        4
    } else if c == '5' {
        5
    } else if c == '6' {
        6
    } else if c == '7' {
        7
    } else if c == '8' {
        8
    } else if c == '9' {
        9
    } else {
        0
    }
}

/// The first position at or after `i` holding no digit (or the end).
pub open spec fn digit_run_end(s: Seq<char>, i: int) -> int
    decreases s.len() - i
        when 0 <= i <= s.len()
{
    if i >= s.len() {
        i
    } else if !is_digit_char(s[i]) {
        i
    } else {
        digit_run_end(s, i + 1)
    }
}

/// The value of a sequence of decimal digits, most significant first.
pub open spec fn digits_val(ds: Seq<char>) -> nat
    decreases ds.len(),
{
    if ds.len() == 0 {
        0
    } else {
        digits_val(ds.drop_last()) * 10 + digit_val(ds.last())
    }
}

/// Read a number: a run of one to eighteen digits, then the terminator.
/// Yields the value and the position after the terminator.
pub open spec fn spec_scan(s: Seq<char>, i: int, term: char) -> Option<(nat, int)> {
    let e = digit_run_end(s, i);
    if e == i || e - i > 18 {
        None
    } else if e < s.len() && s[e] == term {
        Some((digits_val(s.subrange(i, e)), e + 1))
    } else {
        None
    }
}

/// Read a signed numeric field: an optional `-` sign, then a number with a
/// `;` terminator.
pub open spec fn spec_parse_int(s: Seq<char>, i: int) -> Option<(int, int)> {
    if 0 <= i < s.len() && s[i] == '-' {
        match spec_scan(s, i + 1, ';') {
            Some(r) => Some((-(r.0 as int), r.1)),
            None => None,
        }
    } else {
        match spec_scan(s, i, ';') {
            Some(r) => Some((r.0 as int, r.1)),
            None => None,
        }
    }
}

/// Read a signed numeric field that must fit the signed 8-bit range.
pub open spec fn spec_parse_i8(s: Seq<char>, i: int) -> Option<(int, int)> {
    match spec_parse_int(s, i) {
        Some(r) => if -128 <= r.0 <= 127 {
            Some(r)
        } else {
            None
        },
        None => None,
    }
}

/// Read a boolean field: `1;` or `0;`.
pub open spec fn spec_parse_bool(s: Seq<char>, i: int) -> Option<(bool, int)> {
    match spec_scan(s, i, ';') {
        Some(r) => if r.0 == 0 {
            Some((false, r.1))
        } else if r.0 == 1 {
            Some((true, r.1))
        } else {
            None
        },
        None => None,
    }
}

/// Read a string field: its length, a `:`, then that many characters.
pub open spec fn spec_parse_str(s: Seq<char>, i: int) -> Option<(Seq<char>, int)> {
    match spec_scan(s, i, ':') {
        Some(r) => if r.1 + r.0 <= s.len() {
            Some((s.subrange(r.1, r.1 + r.0 as int), r.1 + r.0 as int))
        } else {
            None
        },
        None => None,
    }
}

/// Read `n` description pairs, in order.
pub open spec fn spec_parse_pairs(s: Seq<char>, i: int, n: nat) -> Option<
    (Seq<(int, Seq<char>)>, int),
>
    decreases n,
{
    if n == 0 {
        Some((Seq::<(int, Seq<char>)>::empty(), i))
    } else {
        match spec_parse_i8(s, i) {
            None => None,
            Some(k) => match spec_parse_str(s, k.1) {
                None => None,
                Some(v) => match spec_parse_pairs(s, v.1, (n - 1) as nat) {
                    None => None,
                    Some(rest) => Some((seq![(k.0, v.0)] + rest.0, rest.1)),
                },
            },
        }
    }
}

/// Read `n` answer strings, in order.
pub open spec fn spec_parse_strs(s: Seq<char>, i: int, n: nat) -> Option<(Seq<Seq<char>>, int)>
    decreases n,
{
    if n == 0 {
        Some((Seq::<Seq<char>>::empty(), i))
    } else {
        match spec_parse_str(s, i) {
            None => None,
            Some(t) => match spec_parse_strs(s, t.1, (n - 1) as nat) {
                None => None,
                Some(rest) => Some((seq![t.0] + rest.0, rest.1)),
            },
        }
    }
}

/// Read a question type: its discriminator, then its fields.
pub open spec fn spec_parse_qtype(s: Seq<char>, i: int) -> Option<(QuestionTypeV, int)> {
    if i + 2 > s.len() || s[i + 1] != ';' {
        None
    } else {
        let c = s[i];
        let j = i + 2;
        if c == 't' {
            match spec_parse_bool(s, j) {
                Some(b) => Some((QuestionTypeV::Text { is_long: b.0 }, b.1)),
                None => None,
            }
        } else if c == 'c' {
            match spec_parse_bool(s, j) {
                Some(b) => if b.0 {
                    match spec_parse_str(s, b.1) {
                        Some(mn) => match spec_parse_str(s, mn.1) {
                            Some(mx) => Some(
                                (
                                    QuestionTypeV::ContinuousNumeric {
                                        bounds: Some((mn.0, mx.0)),
                                    },
                                    mx.1,
                                ),
                            ),
                            None => None,
                        },
                        None => None,
                    }
                } else {
                    Some((QuestionTypeV::ContinuousNumeric { bounds: None }, b.1))
                },
                None => None,
            }
        } else if c == 'd' {
            match spec_parse_i8(s, j) {
                Some(mn) => match spec_parse_i8(s, mn.1) {
                    Some(mx) => match spec_scan(s, mx.1, ';') {
                        Some(cnt) => match spec_parse_pairs(s, cnt.1, cnt.0) {
                            Some(ps) => Some(
                                (
                                    QuestionTypeV::DiscreteNumeric {
                                        min: mn.0,
                                        max: mx.0,
                                        num_descriptions: ps.0,
                                    },
                                    ps.1,
                                ),
                            ),
                            None => None,
                        },
                        None => None,
                    },
                    None => None,
                },
                None => None,
            }
        } else if c == 's' {
            match spec_scan(s, j, ';') {
                Some(cnt) => match spec_parse_strs(s, cnt.1, cnt.0) {
                    Some(ans) => match spec_parse_bool(s, ans.1) {
                        Some(b) => Some(
                            (
                                QuestionTypeV::SingleChoice {
                                    answers: ans.0,
                                    custom_answer: b.0,
                                },
                                b.1,
                            ),
                        ),
                        None => None,
                    },
                    None => None,
                },
                None => None,
            }
        } else if c == 'm' {
            match spec_scan(s, j, ';') {
                Some(cnt) => match spec_parse_strs(s, cnt.1, cnt.0) {
                    Some(ans) => match spec_parse_bool(s, ans.1) {
                        Some(b) => Some(
                            (
                                QuestionTypeV::MultipleChoice {
                                    answers: ans.0,
                                    custom_answer: b.0,
                                },
                                b.1,
                            ),
                        ),
                        None => None,
                    },
                    None => None,
                },
                None => None,
            }
        } else {
            None
        }
    }
}

/// Read one question: its title, then its type.
pub open spec fn spec_parse_question(s: Seq<char>, i: int) -> Option<(QuestionV, int)> {
    match spec_parse_str(s, i) {
        Some(t) => match spec_parse_qtype(s, t.1) {
            Some(q) => Some((QuestionV { title: t.0, spec: q.0 }, q.1)),
            None => None,
        },
        None => None,
    }
}

/// Read `n` questions, in order.
pub open spec fn spec_parse_questions(s: Seq<char>, i: int, n: nat) -> Option<
    (Seq<QuestionV>, int),
>
    decreases n,
{
    if n == 0 {
        Some((Seq::<QuestionV>::empty(), i))
    } else {
        match spec_parse_question(s, i) {
            None => None,
            Some(q) => match spec_parse_questions(s, q.1, (n - 1) as nat) {
                None => None,
                Some(rest) => Some((seq![q.0] + rest.0, rest.1)),
            },
        }
    }
}

/// Read one question set: title, description, count, then the questions.
pub open spec fn spec_parse_question_set(s: Seq<char>, i: int) -> Option<(QuestionSetV, int)> {
    match spec_parse_str(s, i) {
        Some(t) => match spec_parse_str(s, t.1) {
            Some(d) => match spec_scan(s, d.1, ';') {
                Some(cnt) => match spec_parse_questions(s, cnt.1, cnt.0) {
                    Some(qs) => Some(
                        (
                            QuestionSetV {
                                title: t.0,
                                description: d.0,
                                questions: qs.0,
                            },
                            qs.1,
                        ),
                    ),
                    None => None,
                },
                None => None,
            },
            None => None,
        },
        None => None,
    }
}

/// Read `n` question sets, in order.
pub open spec fn spec_parse_question_sets(s: Seq<char>, i: int, n: nat) -> Option<
    (Seq<QuestionSetV>, int),
>
    decreases n,
{
    if n == 0 {
        Some((Seq::<QuestionSetV>::empty(), i))
    } else {
        match spec_parse_question_set(s, i) {
            None => None,
            Some(g) => match spec_parse_question_sets(s, g.1, (n - 1) as nat) {
                None => None,
                Some(rest) => Some((seq![g.0] + rest.0, rest.1)),
            },
        }
    }
}

/// Read a whole tree starting at `i`: title, description, count, then the
/// groups.
pub open spec fn spec_parse_form_at(s: Seq<char>, i: int) -> Option<(FormV, int)> {
    match spec_parse_str(s, i) {
        Some(t) => match spec_parse_str(s, t.1) {
            Some(d) => match spec_scan(s, d.1, ';') {
                Some(cnt) => match spec_parse_question_sets(s, cnt.1, cnt.0) {
                    Some(gs) => Some(
                        (FormV { title: t.0, description: d.0, groups: gs.0 }, gs.1),
                    ),
                    None => None,
                },
                None => None,
            },
            None => None,
        },
        None => None,
    }
}

/// Read a whole document: a tree that consumes the input exactly.
pub open spec fn spec_parse_form(s: Seq<char>) -> Option<FormV> {
    match spec_parse_form_at(s, 0) {
        Some(f) => if f.1 == s.len() {
            Some(f.0)
        } else {
            None
        },
        None => None,
    }
}

/// Ten to the power `k`.
pub open spec fn pow10(k: nat) -> nat
    decreases k,
{
    if k == 0 {
        1
    } else {
        10 * pow10((k - 1) as nat)
    }
}

/// Powers of ten are positive.
pub proof fn lemma_pow10_pos(k: nat)
    ensures
        pow10(k) >= 1,
    decreases k,
{
    if k > 0 {
        lemma_pow10_pos((k - 1) as nat);
    }
}

/// Powers of ten grow with the exponent.
pub proof fn lemma_pow10_mono(a: nat, b: nat)
    requires
        a <= b,
    ensures
        pow10(a) <= pow10(b),
    decreases b,
{
    if a < b {
        lemma_pow10_mono(a, (b - 1) as nat);
        lemma_pow10_pos((b - 1) as nat);
    }
}

/// The eighteenth power of ten, spelled out.
pub proof fn lemma_pow10_18()
    ensures
        pow10(18) == 1000000000000000000,
{
    reveal_with_fuel(pow10, 19);
}

/// A digit sequence's value is below ten to its length.
pub proof fn lemma_digits_val_bound(ds: Seq<char>)
    ensures
        digits_val(ds) < pow10(ds.len()),
    decreases ds.len(),
{
    if ds.len() > 0 {
        lemma_digits_val_bound(ds.drop_last());
    }
}

/// The bounds of a digit run: every character before the end of the run is a
/// digit, and the run ends at the input's end or at a non-digit.
pub proof fn lemma_run_end_bounds(s: Seq<char>, i: int)
    requires
        0 <= i <= s.len(),
    ensures
        i <= digit_run_end(s, i) <= s.len(),
        forall|j: int| i <= j < digit_run_end(s, i) ==> is_digit_char(#[trigger] s[j]),
        digit_run_end(s, i) == s.len() || !is_digit_char(s[digit_run_end(s, i)]),
    decreases s.len() - i,
{
    if i < s.len() && is_digit_char(s[i]) {
        lemma_run_end_bounds(s, i + 1);
    }
}

/// Whether a character is a decimal digit.
fn digit_check(c: char) -> (b: bool)
    ensures
        b == is_digit_char(c),
{
    c == '0' || c == '1' || c == '2' || c == '3' || c == '4' || c == '5' || c == '6' || c == '7'
        || c == '8' || c == '9'
}

/// The value of a decimal digit character.
fn digit_value(c: char) -> (d: u64)
    requires
        is_digit_char(c),
    ensures
        d as nat == digit_val(c),
{
    if c == '0' {
        0
    } else if c == '1' {
        1
    } else if c == '2' {
        2
    } else if c == '3' {
        3
    } else if c == '4' {
        4
    } else if c == '5' {
        5
    } else if c == '6' {
        6
    } else if c == '7' {
        7
    } else if c == '8' {
        8
    } else {
        9
    }
}

/// Find the end of the digit run starting at `i`.
fn run_end(s: &str, n: usize, i: usize) -> (e: usize)
    requires
        n == s@.len(),
        i <= n,
    ensures
        e as int == digit_run_end(s@, i as int),
        i <= e <= n,
    decreases n - i,
{
    if i < n {
        let c = s.get_char(i);
        if digit_check(c) {
            return run_end(s, n, i + 1);
        }
    }
    i
}

/// Read a number terminated by `term`, as [`spec_scan`] describes.
fn scan_number(s: &str, n: usize, i: usize, term: char) -> (r: Option<(u64, usize)>)
    requires
        n == s@.len(),
        i <= n,
    ensures
        match r {
            Some(v) => spec_scan(s@, i as int, term) == Some((v.0 as nat, v.1 as int)) && i < v.1
                <= n,
            None => spec_scan(s@, i as int, term) is None,
        },
{
    let ghost ss = s@;
    let e = run_end(s, n, i);
    proof {
        lemma_run_end_bounds(ss, i as int);
    }
    if e == i {
        return None;
    }
    if e - i > 18 {
        return None;
    }
    if e == n {
        return None;
    }
    let t = s.get_char(e);
    if t != term {
        return None;
    }
    let mut val: u64 = 0;
    let mut j: usize = i;
    while j < e
        invariant
            i <= j <= e,
            e < n,
            n == ss.len(),
            ss == s@,
            e as int == digit_run_end(ss, i as int),
            e - i <= 18,
            val as nat == digits_val(ss.subrange(i as int, j as int)),
        decreases e - j,
    {
        proof {
            lemma_run_end_bounds(ss, i as int);
            lemma_digits_val_bound(ss.subrange(i as int, j as int));
            lemma_pow10_mono((j - i) as nat, 18);
            lemma_pow10_18();
        }
        let c = s.get_char(j);
        let d = digit_value(c);
        val = val * 10 + d;
        proof {
            assert(ss.subrange(i as int, j as int + 1).drop_last() =~= ss.subrange(
                i as int,
                j as int,
            ));
            assert(ss.subrange(i as int, j as int + 1).last() == ss[j as int]);
        }
        j += 1;
    }
    Some((val, e + 1))
}

/// Read a string field, as [`spec_parse_str`] describes.
fn read_str(s: &str, n: usize, i: usize) -> (r: Option<(String, usize)>)
    requires
        n == s@.len(),
        i <= n,
    ensures
        match r {
            Some(t) => spec_parse_str(s@, i as int) == Some((t.0@, t.1 as int)) && i < t.1 <= n,
            None => spec_parse_str(s@, i as int) is None,
        },
{
    match scan_number(s, n, i, ':') {
        None => None,
        Some((len, j)) => {
            if len > (n - j) as u64 {
                return None;
            }
            let end = j + (len as usize);
            let sub = s.substring_char(j, end);
            let t = sub.to_owned();
            Some((t, end))
        },
    }
}

/// Read a signed 8-bit numeric field, as [`spec_parse_i8`] describes.
fn read_i8(s: &str, n: usize, i: usize) -> (r: Option<(i8, usize)>)
    requires
        n == s@.len(),
        i <= n,
    ensures
        match r {
            Some(v) => spec_parse_i8(s@, i as int) == Some((v.0 as int, v.1 as int)) && i < v.1
                <= n,
            None => spec_parse_i8(s@, i as int) is None,
        },
{
    if i < n {
        let c = s.get_char(i);
        if c == '-' {
            return match scan_number(s, n, i + 1, ';') {
                None => None,
                Some((v, j)) => if v <= 128 {
                    Some(((-(v as i64)) as i8, j))
                } else {
                    None
                },
            };
        }
    }
    match scan_number(s, n, i, ';') {
        None => None,
        Some((v, j)) => if v <= 127 {
            Some((v as i8, j))
        } else {
            None
        },
    }
}

/// Read a boolean field, as [`spec_parse_bool`] describes.
fn read_bool(s: &str, n: usize, i: usize) -> (r: Option<(bool, usize)>)
    requires
        n == s@.len(),
        i <= n,
    ensures
        match r {
            Some(v) => spec_parse_bool(s@, i as int) == Some((v.0, v.1 as int)) && i < v.1 <= n,
            None => spec_parse_bool(s@, i as int) is None,
        },
{
    match scan_number(s, n, i, ';') {
        None => None,
        Some((v, j)) => if v == 0 {
            Some((false, j))
        } else if v == 1 {
            Some((true, j))
        } else {
            None
        },
    }
}

/// Read `count` description pairs, as [`spec_parse_pairs`] describes.
fn read_pairs(s: &str, n: usize, i: usize, count: u64) -> (r: Option<(Vec<(i8, String)>, usize)>)
    requires
        n == s@.len(),
        i <= n,
    ensures
        match r {
            Some(ps) => spec_parse_pairs(s@, i as int, count as nat) == Some(
                (ps.0@.map_values(|p: (i8, String)| (p.0 as int, p.1@)), ps.1 as int),
            ) && ps.1 <= n,
            None => spec_parse_pairs(s@, i as int, count as nat) is None,
        },
{
    let ghost ss = s@;
    let mut acc: Vec<(i8, String)> = Vec::new();
    let mut pos: usize = i;
    let mut k: u64 = 0;
    proof {
        assert(acc@.map_values(|p: (i8, String)| (p.0 as int, p.1@)) =~= Seq::<
            (int, Seq<char>),
        >::empty());
    }
    while k < count
        invariant
            n == ss.len(),
            ss == s@,
            pos <= n,
            k <= count,
            spec_parse_pairs(ss, i as int, count as nat) == (match spec_parse_pairs(
                ss,
                pos as int,
                (count - k) as nat,
            ) {
                Some(rest) => Some(
                    (
                        acc@.map_values(|p: (i8, String)| (p.0 as int, p.1@)) + rest.0,
                        rest.1,
                    ),
                ),
                None => None::<(Seq<(int, Seq<char>)>, int)>,
            }),
        decreases count - k,
    {
        let ghost accv = acc@.map_values(|p: (i8, String)| (p.0 as int, p.1@));
        let (kk, j1) = match read_i8(s, n, pos) {
            Some(x) => x,
            None => {
                return None;
            },
        };
        let (vv, j2) = match read_str(s, n, j1) {
            Some(x) => x,
            None => {
                return None;
            },
        };
        acc.push((kk, vv));
        proof {
            assert(acc@.map_values(|p: (i8, String)| (p.0 as int, p.1@)) =~= accv + seq![
                (kk as int, vv@),
            ]);
            let inner = spec_parse_pairs(ss, j2 as int, (count - k - 1) as nat);
            if inner is Some {
                assert(accv + (seq![(kk as int, vv@)] + inner->Some_0.0) =~= (accv + seq![
                    (kk as int, vv@),
                ]) + inner->Some_0.0);
            }
        }
        pos = j2;
        k = k + 1;
    }
    proof {
        assert(acc@.map_values(|p: (i8, String)| (p.0 as int, p.1@)) + Seq::<
            (int, Seq<char>),
        >::empty() =~= acc@.map_values(|p: (i8, String)| (p.0 as int, p.1@)));
    }
    Some((acc, pos))
}

/// Read `count` answer strings, as [`spec_parse_strs`] describes.
fn read_strs(s: &str, n: usize, i: usize, count: u64) -> (r: Option<(Vec<String>, usize)>)
    requires
        n == s@.len(),
        i <= n,
    ensures
        match r {
            Some(ts) => spec_parse_strs(s@, i as int, count as nat) == Some(
                (ts.0@.map_values(|a: String| a@), ts.1 as int),
            ) && ts.1 <= n,
            None => spec_parse_strs(s@, i as int, count as nat) is None,
        },
{
    let ghost ss = s@;
    let mut acc: Vec<String> = Vec::new();
    let mut pos: usize = i;
    let mut k: u64 = 0;
    proof {
        assert(acc@.map_values(|a: String| a@) =~= Seq::<Seq<char>>::empty());
    }
    while k < count
        invariant
            n == ss.len(),
            ss == s@,
            pos <= n,
            k <= count,
            spec_parse_strs(ss, i as int, count as nat) == (match spec_parse_strs(
                ss,
                pos as int,
                (count - k) as nat,
            ) {
                Some(rest) => Some((acc@.map_values(|a: String| a@) + rest.0, rest.1)),
                None => None::<(Seq<Seq<char>>, int)>,
            }),
        decreases count - k,
    {
        let ghost accv = acc@.map_values(|a: String| a@);
        let (t, j1) = match read_str(s, n, pos) {
            Some(x) => x,
            None => {
                return None;
            },
        };
        acc.push(t);
        proof {
            assert(acc@.map_values(|a: String| a@) =~= accv + seq![acc@.last()@]);
            let inner = spec_parse_strs(ss, j1 as int, (count - k - 1) as nat);
            if inner is Some {
                assert(accv + (seq![acc@.last()@] + inner->Some_0.0) =~= (accv + seq![
                    acc@.last()@,
                ]) + inner->Some_0.0);
            }
        }
        pos = j1;
        k = k + 1;
    }
    proof {
        assert(acc@.map_values(|a: String| a@) + Seq::<Seq<char>>::empty() =~= acc@.map_values(
            |a: String| a@,
        ));
    }
    Some((acc, pos))
}

/// Read a question type, as [`spec_parse_qtype`] describes.
fn read_qtype(s: &str, n: usize, i: usize) -> (r: Option<(QuestionType, usize)>)
    requires
        n == s@.len(),
        i <= n,
    ensures
        match r {
            Some(q) => spec_parse_qtype(s@, i as int) == Some((q.0@, q.1 as int)) && q.1 <= n,
            None => spec_parse_qtype(s@, i as int) is None,
        },
{
    if n - i < 2 {
        return None;
    }
    let c = s.get_char(i);
    let semi = s.get_char(i + 1);
    if semi != ';' {
        return None;
    }
    let j = i + 2;
    if c == 't' {
        match read_bool(s, n, j) {
            Some((b, e)) => Some((QuestionType::Text { is_long: b }, e)),
            None => None,
        }
    } else if c == 'c' {
        match read_bool(s, n, j) {
            Some((true, e)) => {
                let (mn, e1) = match read_str(s, n, e) {
                    Some(x) => x,
                    None => {
                        return None;
                    },
                };
                let (mx, e2) = match read_str(s, n, e1) {
                    Some(x) => x,
                    None => {
                        return None;
                    },
                };
                Some((QuestionType::ContinuousNumeric { bounds: Some((mn, mx)) }, e2))
            },
            Some((false, e)) => Some((QuestionType::ContinuousNumeric { bounds: None }, e)),
            None => None,
        }
    } else if c == 'd' {
        let (mn, e1) = match read_i8(s, n, j) {
            Some(x) => x,
            None => {
                return None;
            },
        };
        let (mx, e2) = match read_i8(s, n, e1) {
            Some(x) => x,
            None => {
                return None;
            },
        };
        let (cnt, e3) = match scan_number(s, n, e2, ';') {
            Some(x) => x,
            None => {
                return None;
            },
        };
        let (ps, e4) = match read_pairs(s, n, e3, cnt) {
            Some(x) => x,
            None => {
                return None;
            },
        };
        Some((QuestionType::DiscreteNumeric { bounds: (mn, mx), num_descriptions: ps }, e4))
    } else if c == 's' {
        let (cnt, e1) = match scan_number(s, n, j, ';') {
            Some(x) => x,
            None => {
                return None;
            },
        };
        let (ans, e2) = match read_strs(s, n, e1, cnt) {
            Some(x) => x,
            None => {
                return None;
            },
        };
        let (b, e3) = match read_bool(s, n, e2) {
            Some(x) => x,
            None => {
                return None;
            },
        };
        Some((QuestionType::SingleChoice { answers: ans, custom_answer: b }, e3))
    } else if c == 'm' {
        let (cnt, e1) = match scan_number(s, n, j, ';') {
            Some(x) => x,
            None => {
                return None;
            },
        };
        let (ans, e2) = match read_strs(s, n, e1, cnt) {
            Some(x) => x,
            None => {
                return None;
            },
        };
        let (b, e3) = match read_bool(s, n, e2) {
            Some(x) => x,
            None => {
                return None;
            },
        };
        Some((QuestionType::MultipleChoice { answers: ans, custom_answer: b }, e3))
    } else {
        None
    }
}

/// Read one question, as [`spec_parse_question`] describes.
fn read_question(s: &str, n: usize, i: usize) -> (r: Option<(Question, usize)>)
    requires
        n == s@.len(),
        i <= n,
    ensures
        match r {
            Some(q) => spec_parse_question(s@, i as int) == Some((q.0@, q.1 as int)) && q.1 <= n,
            None => spec_parse_question(s@, i as int) is None,
        },
{
    let (title, j1) = match read_str(s, n, i) {
        Some(x) => x,
        None => {
            return None;
        },
    };
    let (qt, j2) = match read_qtype(s, n, j1) {
        Some(x) => x,
        None => {
            return None;
        },
    };
    Some((Question { title, spec: qt }, j2))
}

/// Read `count` questions, as [`spec_parse_questions`] describes.
fn read_questions(s: &str, n: usize, i: usize, count: u64) -> (r: Option<(Vec<Question>, usize)>)
    requires
        n == s@.len(),
        i <= n,
    ensures
        match r {
            Some(qs) => spec_parse_questions(s@, i as int, count as nat) == Some(
                (qs.0@.map_values(|q: Question| q@), qs.1 as int),
            ) && qs.1 <= n,
            None => spec_parse_questions(s@, i as int, count as nat) is None,
        },
{
    let ghost ss = s@;
    let mut acc: Vec<Question> = Vec::new();
    let mut pos: usize = i;
    let mut k: u64 = 0;
    proof {
        assert(acc@.map_values(|q: Question| q@) =~= Seq::<QuestionV>::empty());
    }
    while k < count
        invariant
            n == ss.len(),
            ss == s@,
            pos <= n,
            k <= count,
            spec_parse_questions(ss, i as int, count as nat) == (match spec_parse_questions(
                ss,
                pos as int,
                (count - k) as nat,
            ) {
                Some(rest) => Some((acc@.map_values(|q: Question| q@) + rest.0, rest.1)),
                None => None::<(Seq<QuestionV>, int)>,
            }),
        decreases count - k,
    {
        let ghost accv = acc@.map_values(|q: Question| q@);
        let (q, j1) = match read_question(s, n, pos) {
            Some(x) => x,
            None => {
                return None;
            },
        };
        acc.push(q);
        proof {
            assert(acc@.map_values(|q: Question| q@) =~= accv + seq![acc@.last()@]);
            let inner = spec_parse_questions(ss, j1 as int, (count - k - 1) as nat);
            if inner is Some {
                assert(accv + (seq![acc@.last()@] + inner->Some_0.0) =~= (accv + seq![
                    acc@.last()@,
                ]) + inner->Some_0.0);
            }
        }
        pos = j1;
        k = k + 1;
    }
    proof {
        assert(acc@.map_values(|q: Question| q@) + Seq::<QuestionV>::empty() =~= acc@.map_values(
            |q: Question| q@,
        ));
    }
    Some((acc, pos))
}

/// Read one question set, as [`spec_parse_question_set`] describes.
fn read_question_set(s: &str, n: usize, i: usize) -> (r: Option<(QuestionSet, usize)>)
    requires
        n == s@.len(),
        i <= n,
    ensures
        match r {
            Some(g) => spec_parse_question_set(s@, i as int) == Some((g.0@, g.1 as int)) && g.1
                <= n,
            None => spec_parse_question_set(s@, i as int) is None,
        },
{
    let (title, j1) = match read_str(s, n, i) {
        Some(x) => x,
        None => {
            return None;
        },
    };
    let (description, j2) = match read_str(s, n, j1) {
        Some(x) => x,
        None => {
            return None;
        },
    };
    let (cnt, j3) = match scan_number(s, n, j2, ';') {
        Some(x) => x,
        None => {
            return None;
        },
    };
    let (questions, j4) = match read_questions(s, n, j3, cnt) {
        Some(x) => x,
        None => {
            return None;
        },
    };
    Some((QuestionSet { title, description, questions }, j4))
}

/// Read `count` question sets, as [`spec_parse_question_sets`] describes.
fn read_question_sets(s: &str, n: usize, i: usize, count: u64) -> (r: Option<
    (Vec<QuestionSet>, usize),
>)
    requires
        n == s@.len(),
        i <= n,
    ensures
        match r {
            Some(gs) => spec_parse_question_sets(s@, i as int, count as nat) == Some(
                (gs.0@.map_values(|g: QuestionSet| g@), gs.1 as int),
            ) && gs.1 <= n,
            None => spec_parse_question_sets(s@, i as int, count as nat) is None,
        },
{
    let ghost ss = s@;
    let mut acc: Vec<QuestionSet> = Vec::new();
    let mut pos: usize = i;
    let mut k: u64 = 0;
    proof {
        assert(acc@.map_values(|g: QuestionSet| g@) =~= Seq::<QuestionSetV>::empty());
    }
    while k < count
        invariant
            n == ss.len(),
            ss == s@,
            pos <= n,
            k <= count,
            spec_parse_question_sets(ss, i as int, count as nat) == (match spec_parse_question_sets(
                ss,
                pos as int,
                (count - k) as nat,
            ) {
                Some(rest) => Some((acc@.map_values(|g: QuestionSet| g@) + rest.0, rest.1)),
                None => None::<(Seq<QuestionSetV>, int)>,
            }),
        decreases count - k,
    {
        let ghost accv = acc@.map_values(|g: QuestionSet| g@);
        let (g, j1) = match read_question_set(s, n, pos) {
            Some(x) => x,
            None => {
                return None;
            },
        };
        acc.push(g);
        proof {
            assert(acc@.map_values(|g: QuestionSet| g@) =~= accv + seq![acc@.last()@]);
            let inner = spec_parse_question_sets(ss, j1 as int, (count - k - 1) as nat);
            if inner is Some {
                assert(accv + (seq![acc@.last()@] + inner->Some_0.0) =~= (accv + seq![
                    acc@.last()@,
                ]) + inner->Some_0.0);
            }
        }
        pos = j1;
        k = k + 1;
    }
    proof {
        assert(acc@.map_values(|g: QuestionSet| g@) + Seq::<QuestionSetV>::empty()
            =~= acc@.map_values(|g: QuestionSet| g@));
    }
    Some((acc, pos))
}

/// Parse a declarative text form back into a tree: exactly what
/// [`spec_parse_form`] gives on the input's characters, `None` when the
/// input is not a complete, well-formed document.
pub fn parse(s: &str) -> (r: Option<Form>)
    ensures
        match r {
            Some(f) => spec_parse_form(s@) == Some(f@),
            None => spec_parse_form(s@) is None,
        },
{
    let n = s.unicode_len();
    let (title, j1) = match read_str(s, n, 0) {
        Some(x) => x,
        None => {
            return None;
        },
    };
    let (description, j2) = match read_str(s, n, j1) {
        Some(x) => x,
        None => {
            return None;
        },
    };
    let (cnt, j3) = match scan_number(s, n, j2, ';') {
        Some(x) => x,
        None => {
            return None;
        },
    };
    let (groups, j4) = match read_question_sets(s, n, j3, cnt) {
        Some(x) => x,
        None => {
            return None;
        },
    };
    if j4 != n {
        return None;
    }
    Some(Form { title, description, groups })
}

/// Every character of a decimal text is a digit.
proof fn lemma_dec_nat_digits(n: nat)
    ensures
        forall|k: int|
            0 <= k < spec_dec_nat(n).len() ==> is_digit_char(#[trigger] spec_dec_nat(n)[k]),
    decreases n,
{
    if n >= 10 {
        lemma_dec_nat_digits(n / 10);
    }
    assert forall|k: int| 0 <= k < spec_dec_nat(n).len() implies is_digit_char(
        #[trigger] spec_dec_nat(n)[k],
    ) by {
        if n < 10 {
            assert(spec_dec_nat(n)[k] == digit_char(n as int));
        } else if k < spec_dec_nat(n / 10).len() {
            assert(spec_dec_nat(n)[k] == spec_dec_nat(n / 10)[k]);
        } else {
            assert(spec_dec_nat(n)[k] == digit_char((n % 10) as int));
        }
    }
}

/// A number below ten to the `k` has at most `k` decimal digits.
proof fn lemma_dec_nat_len_bound(n: nat, k: nat)
    requires
        k >= 1,
        n < pow10(k),
    ensures
        spec_dec_nat(n).len() <= k,
    decreases k,
{
    if n >= 10 {
        if k == 1 {
            assert(pow10(1) == 10) by {
                reveal_with_fuel(pow10, 2);
            }
            assert(false);
        } else {
            assert(pow10(k) == 10 * pow10((k - 1) as nat));
            assert(n / 10 < pow10((k - 1) as nat)) by (nonlinear_arith)
                requires
                    n < 10 * pow10((k - 1) as nat),
            ;
            lemma_dec_nat_len_bound(n / 10, (k - 1) as nat);
        }
    }
}

/// Reading back the digits of a decimal text yields the number.
proof fn lemma_digits_val_dec(n: nat)
    ensures
        digits_val(spec_dec_nat(n)) == n,
    decreases n,
{
    reveal_with_fuel(digits_val, 2);
    if n < 10 {
        let ds = spec_dec_nat(n);
        assert(ds.drop_last() =~= Seq::<char>::empty());
        assert(ds.last() == digit_char(n as int));
    } else {
        lemma_digits_val_dec(n / 10);
        let ds = spec_dec_nat(n);
        assert(ds.drop_last() =~= spec_dec_nat(n / 10));
        assert(ds.last() == digit_char((n % 10) as int));
        assert(n == 10 * (n / 10) + n % 10);
    }
}

/// A digit run ends exactly where the digits end.
proof fn lemma_run_end_of(s: Seq<char>, i: int, e: int)
    requires
        0 <= i <= e <= s.len(),
        forall|j: int| i <= j < e ==> is_digit_char(#[trigger] s[j]),
        e == s.len() || !is_digit_char(s[e]),
    ensures
        digit_run_end(s, i) == e,
    decreases e - i,
{
    if i < e {
        lemma_run_end_of(s, i + 1, e);
    }
}

/// A slice equal to a concatenation splits into slices equal to the parts.
proof fn lemma_split_prefix(s: Seq<char>, i: int, a: Seq<char>, b: Seq<char>)
    requires
        0 <= i,
        i + a.len() + b.len() <= s.len(),
        s.subrange(i, i + a.len() + b.len()) == a + b,
    ensures
        s.subrange(i, i + a.len()) == a,
        s.subrange(i + a.len(), i + a.len() + b.len()) == b,
{
    assert forall|k: int| 0 <= k < a.len() implies s.subrange(i, i + a.len())[k] == a[k] by {
        assert(s.subrange(i, i + a.len() + b.len())[k] == s[i + k]);
        assert((a + b)[k] == a[k]);
    }
    assert(s.subrange(i, i + a.len()) =~= a);
    assert forall|k: int| 0 <= k < b.len() implies s.subrange(
        i + a.len(),
        i + a.len() + b.len(),
    )[k] == b[k] by {
        assert(s.subrange(i, i + a.len() + b.len())[a.len() + k] == s[i + a.len() + k]);
        assert((a + b)[a.len() + k] == b[k]);
    }
    assert(s.subrange(i + a.len(), i + a.len() + b.len()) =~= b);
}

/// Reading a number at a written number yields the number and stops after
/// its terminator.
proof fn lemma_parse_ser_scan(n: nat, term: char, s: Seq<char>, i: int)
    requires
        fits_count(n),
        !is_digit_char(term),
        0 <= i,
        i + spec_dec_nat(n).len() + 1 <= s.len(),
        s.subrange(i, i + spec_dec_nat(n).len() + 1) == spec_dec_nat(n) + seq![term],
    ensures
        spec_scan(s, i, term) == Some((n, i + spec_dec_nat(n).len() + 1)),
{
    let d = spec_dec_nat(n);
    let l = d.len() as int;
    lemma_dec_nat_digits(n);
    crate::ids::lemma_dec_nat_len(n);
    lemma_pow10_18();
    lemma_dec_nat_len_bound(n, 18);
    assert forall|j: int| 0 <= j < l implies s[i + j] == d[j] by {
        assert(s.subrange(i, i + l + 1)[j] == s[i + j]);
        assert((d + seq![term])[j] == d[j]);
    }
    assert(s.subrange(i, i + l + 1)[l] == s[i + l]);
    assert(s[i + l] == term);
    assert forall|j: int| i <= j < i + l implies is_digit_char(#[trigger] s[j]) by {
        assert(s[j] == d[j - i]);
    }
    lemma_run_end_of(s, i, i + l);
    assert(s.subrange(i, i + l) =~= d);
    lemma_digits_val_dec(n);
}

/// Reading a count at a written count yields the count.
proof fn lemma_parse_ser_num(n: nat, s: Seq<char>, i: int)
    requires
        fits_count(n),
        0 <= i,
        i + ser_num(n).len() <= s.len(),
        s.subrange(i, i + ser_num(n).len()) == ser_num(n),
    ensures
        spec_scan(s, i, ';') == Some((n, i + ser_num(n).len())),
{
    lemma_parse_ser_scan(n, ';', s, i);
}

/// Reading a signed field at a written signed field yields the value.
proof fn lemma_parse_ser_int(v: int, s: Seq<char>, i: int)
    requires
        -128 <= v <= 127,
        0 <= i,
        i + ser_int(v).len() <= s.len(),
        s.subrange(i, i + ser_int(v).len()) == ser_int(v),
    ensures
        spec_parse_i8(s, i) == Some((v, i + ser_int(v).len())),
{
    if v >= 0 {
        assert(ser_int(v) =~= ser_num(v as nat));
        lemma_parse_ser_num(v as nat, s, i);
        lemma_dec_nat_digits(v as nat);
        crate::ids::lemma_dec_nat_len(v as nat);
        assert(s.subrange(i, i + ser_int(v).len())[0] == s[i]);
        assert(s[i] == spec_dec_nat(v as nat)[0]);
        assert(is_digit_char(s[i]));
        assert(s[i] != '-');
    } else {
        let m = (-v) as nat;
        assert(ser_int(v) =~= seq!['-'] + ser_num(m));
        lemma_split_prefix(s, i, seq!['-'], ser_num(m));
        assert(s.subrange(i, i + 1)[0] == s[i]);
        assert(s[i] == '-');
        lemma_parse_ser_num(m, s, i + 1);
    }
}

/// Reading a boolean field at a written boolean field yields the value.
proof fn lemma_parse_ser_bool(b: bool, s: Seq<char>, i: int)
    requires
        0 <= i,
        i + ser_bool(b).len() <= s.len(),
        s.subrange(i, i + ser_bool(b).len()) == ser_bool(b),
    ensures
        spec_parse_bool(s, i) == Some((b, i + ser_bool(b).len())),
{
    if b {
        assert(ser_bool(b) =~= ser_num(1));
        lemma_parse_ser_num(1, s, i);
    } else {
        assert(ser_bool(b) =~= ser_num(0));
        lemma_parse_ser_num(0, s, i);
    }
}

/// Reading a string field at a written string field yields the string.
proof fn lemma_parse_ser_str(t: Seq<char>, s: Seq<char>, i: int)
    requires
        fits_str(t),
        0 <= i,
        i + ser_str(t).len() <= s.len(),
        s.subrange(i, i + ser_str(t).len()) == ser_str(t),
    ensures
        spec_parse_str(s, i) == Some((t, i + ser_str(t).len())),
{
    let head = spec_dec_nat(t.len()) + seq![':'];
    assert(ser_str(t) =~= head + t);
    lemma_split_prefix(s, i, head, t);
    lemma_parse_ser_scan(t.len(), ':', s, i);
}

/// Reading pairs at written pairs yields the pairs.
proof fn lemma_parse_ser_pairs(ps: Seq<(int, Seq<char>)>, s: Seq<char>, i: int)
    requires
        0 <= i,
        i + ser_pairs(ps).len() <= s.len(),
        s.subrange(i, i + ser_pairs(ps).len()) == ser_pairs(ps),
        forall|k: int|
            0 <= k < ps.len() ==> -128 <= (#[trigger] ps[k]).0 <= 127 && fits_str(ps[k].1),
    ensures
        spec_parse_pairs(s, i, ps.len()) == Some((ps, i + ser_pairs(ps).len())),
    decreases ps.len(),
{
    reveal_with_fuel(ser_pairs, 2);
    reveal_with_fuel(spec_parse_pairs, 2);
    if ps.len() == 0 {
        assert(ps =~= Seq::<(int, Seq<char>)>::empty());
    } else {
        let a = ser_int(ps[0].0);
        let b = ser_str(ps[0].1);
        let c = ser_pairs(ps.skip(1));
        assert(s.subrange(i, i + a.len() + (b.len() + c.len())) == a + (b + c)) by {
            assert(ser_pairs(ps) =~= a + (b + c));
        }
        lemma_split_prefix(s, i, a, b + c);
        lemma_split_prefix(s, i + a.len(), b, c);
        lemma_parse_ser_int(ps[0].0, s, i);
        lemma_parse_ser_str(ps[0].1, s, i + a.len());
        assert(forall|k: int|
            0 <= k < ps.skip(1).len() ==> -128 <= (#[trigger] ps.skip(1)[k]).0 <= 127 && fits_str(
                ps.skip(1)[k].1,
            ));
        lemma_parse_ser_pairs(ps.skip(1), s, i + a.len() + b.len());
        assert(seq![(ps[0].0, ps[0].1)] + ps.skip(1) =~= ps);
    }
}

/// Reading answer strings at written answer strings yields the strings.
proof fn lemma_parse_ser_strs(ts: Seq<Seq<char>>, s: Seq<char>, i: int)
    requires
        0 <= i,
        i + ser_strs(ts).len() <= s.len(),
        s.subrange(i, i + ser_strs(ts).len()) == ser_strs(ts),
        forall|k: int| 0 <= k < ts.len() ==> fits_str(#[trigger] ts[k]),
    ensures
        spec_parse_strs(s, i, ts.len()) == Some((ts, i + ser_strs(ts).len())),
    decreases ts.len(),
{
    reveal_with_fuel(ser_strs, 2);
    reveal_with_fuel(spec_parse_strs, 2);
    if ts.len() == 0 {
        assert(ts =~= Seq::<Seq<char>>::empty());
    } else {
        let a = ser_str(ts[0]);
        let c = ser_strs(ts.skip(1));
        assert(s.subrange(i, i + a.len() + c.len()) == a + c) by {
            assert(ser_strs(ts) =~= a + c);
        }
        lemma_split_prefix(s, i, a, c);
        lemma_parse_ser_str(ts[0], s, i);
        assert(forall|k: int| 0 <= k < ts.skip(1).len() ==> fits_str(#[trigger] ts.skip(1)[k]));
        lemma_parse_ser_strs(ts.skip(1), s, i + a.len());
        assert(seq![ts[0]] + ts.skip(1) =~= ts);
    }
}

/// Reading a question type at a written question type yields the type.
#[verifier::rlimit(100)]
#[verifier::spinoff_prover]
proof fn lemma_parse_ser_qtype(q: QuestionTypeV, s: Seq<char>, i: int)
    requires
        fits_qtype(q),
        0 <= i,
        i + ser_qtype(q).len() <= s.len(),
        s.subrange(i, i + ser_qtype(q).len()) == ser_qtype(q),
    ensures
        spec_parse_qtype(s, i) == Some((q, i + ser_qtype(q).len())),
{
    match q {
        QuestionTypeV::Text { is_long } => {
            let tag = seq!['t', ';'];
            let a = ser_bool(is_long);
            assert(s.subrange(i, i + tag.len() + a.len()) == tag + a) by {
                assert(ser_qtype(q) =~= tag + a);
            }
            lemma_split_prefix(s, i, tag, a);
            assert(s[i] == 't' && s[i + 1] == ';') by {
                assert(s.subrange(i, i + 2)[0] == s[i]);
                assert(s.subrange(i, i + 2)[1] == s[i + 1]);
            }
            lemma_parse_ser_bool(is_long, s, i + 2);
        },
        QuestionTypeV::ContinuousNumeric { bounds } => {
            match bounds {
                None => {
                    let tag = seq!['c', ';'];
                    let a = ser_bool(false);
                    assert(s.subrange(i, i + tag.len() + a.len()) == tag + a) by {
                        assert(ser_qtype(q) =~= tag + a);
                    }
                    lemma_split_prefix(s, i, tag, a);
                    assert(s[i] == 'c' && s[i + 1] == ';') by {
                        assert(s.subrange(i, i + 2)[0] == s[i]);
                        assert(s.subrange(i, i + 2)[1] == s[i + 1]);
                    }
                    lemma_parse_ser_bool(false, s, i + 2);
                },
                Some(bp) => {
                    let tag = seq!['c', ';'];
                    let a = ser_bool(true);
                    let b = ser_str(bp.0);
                    let c = ser_str(bp.1);
                    assert(s.subrange(i, i + tag.len() + (a.len() + (b.len() + c.len()))) == tag + (
                    a + (b + c))) by {
                        assert(ser_qtype(q) =~= tag + (a + (b + c)));
                    }
                    lemma_split_prefix(s, i, tag, a + (b + c));
                    lemma_split_prefix(s, i + 2, a, b + c);
                    lemma_split_prefix(s, i + 2 + a.len(), b, c);
                    assert(s[i] == 'c' && s[i + 1] == ';') by {
                        assert(s.subrange(i, i + 2)[0] == s[i]);
                        assert(s.subrange(i, i + 2)[1] == s[i + 1]);
                    }
                    lemma_parse_ser_bool(true, s, i + 2);
                    lemma_parse_ser_str(bp.0, s, i + 2 + a.len());
                    lemma_parse_ser_str(bp.1, s, i + 2 + a.len() + b.len());
                },
            }
        },
        QuestionTypeV::DiscreteNumeric { min, max, num_descriptions } => {
            let tag = seq!['d', ';'];
            let a = ser_int(min);
            let b = ser_int(max);
            let c = ser_num(num_descriptions.len());
            let d = ser_pairs(num_descriptions);
            assert(s.subrange(i, i + tag.len() + (a.len() + (b.len() + (c.len() + d.len()))))
                == tag + (a + (b + (c + d)))) by {
                assert(ser_qtype(q) =~= tag + (a + (b + (c + d))));
            }
            lemma_split_prefix(s, i, tag, a + (b + (c + d)));
            lemma_split_prefix(s, i + 2, a, b + (c + d));
            lemma_split_prefix(s, i + 2 + a.len(), b, c + d);
            lemma_split_prefix(s, i + 2 + a.len() + b.len(), c, d);
            assert(s[i] == 'd' && s[i + 1] == ';') by {
                assert(s.subrange(i, i + 2)[0] == s[i]);
                assert(s.subrange(i, i + 2)[1] == s[i + 1]);
            }
            lemma_parse_ser_int(min, s, i + 2);
            lemma_parse_ser_int(max, s, i + 2 + a.len());
            lemma_parse_ser_num(num_descriptions.len(), s, i + 2 + a.len() + b.len());
            lemma_parse_ser_pairs(num_descriptions, s, i + 2 + a.len() + b.len() + c.len());
        },
        QuestionTypeV::SingleChoice { answers, custom_answer } => {
            let tag = seq!['s', ';'];
            let a = ser_num(answers.len());
            let b = ser_strs(answers);
            let c = ser_bool(custom_answer);
            assert(s.subrange(i, i + tag.len() + (a.len() + (b.len() + c.len()))) == tag + (a + (b
                + c))) by {
                assert(ser_qtype(q) =~= tag + (a + (b + c)));
            }
            lemma_split_prefix(s, i, tag, a + (b + c));
            lemma_split_prefix(s, i + 2, a, b + c);
            lemma_split_prefix(s, i + 2 + a.len(), b, c);
            assert(s[i] == 's' && s[i + 1] == ';') by {
                assert(s.subrange(i, i + 2)[0] == s[i]);
                assert(s.subrange(i, i + 2)[1] == s[i + 1]);
            }
            lemma_parse_ser_num(answers.len(), s, i + 2);
            lemma_parse_ser_strs(answers, s, i + 2 + a.len());
            lemma_parse_ser_bool(custom_answer, s, i + 2 + a.len() + b.len());
        },
        QuestionTypeV::MultipleChoice { answers, custom_answer } => {
            let tag = seq!['m', ';'];
            let a = ser_num(answers.len());
            let b = ser_strs(answers);
            let c = ser_bool(custom_answer);
            assert(s.subrange(i, i + tag.len() + (a.len() + (b.len() + c.len()))) == tag + (a + (b
                + c))) by {
                assert(ser_qtype(q) =~= tag + (a + (b + c)));
            }
            lemma_split_prefix(s, i, tag, a + (b + c));
            lemma_split_prefix(s, i + 2, a, b + c);
            lemma_split_prefix(s, i + 2 + a.len(), b, c);
            assert(s[i] == 'm' && s[i + 1] == ';') by {
                assert(s.subrange(i, i + 2)[0] == s[i]);
                assert(s.subrange(i, i + 2)[1] == s[i + 1]);
            }
            lemma_parse_ser_num(answers.len(), s, i + 2);
            lemma_parse_ser_strs(answers, s, i + 2 + a.len());
            lemma_parse_ser_bool(custom_answer, s, i + 2 + a.len() + b.len());
        },
    }
}

/// Reading a question at a written question yields the question.
proof fn lemma_parse_ser_question(q: QuestionV, s: Seq<char>, i: int)
    requires
        fits_question(q),
        0 <= i,
        i + ser_question(q).len() <= s.len(),
        s.subrange(i, i + ser_question(q).len()) == ser_question(q),
    ensures
        spec_parse_question(s, i) == Some((q, i + ser_question(q).len())),
{
    let a = ser_str(q.title);
    let b = ser_qtype(q.spec);
    assert(s.subrange(i, i + a.len() + b.len()) == a + b) by {
        assert(ser_question(q) =~= a + b);
    }
    lemma_split_prefix(s, i, a, b);
    lemma_parse_ser_str(q.title, s, i);
    lemma_parse_ser_qtype(q.spec, s, i + a.len());
    assert((QuestionV { title: q.title, spec: q.spec }) == q);
}

/// Reading questions at written questions yields the questions.
proof fn lemma_parse_ser_questions(qs: Seq<QuestionV>, s: Seq<char>, i: int)
    requires
        0 <= i,
        i + ser_questions(qs).len() <= s.len(),
        s.subrange(i, i + ser_questions(qs).len()) == ser_questions(qs),
        forall|k: int| 0 <= k < qs.len() ==> fits_question(#[trigger] qs[k]),
    ensures
        spec_parse_questions(s, i, qs.len()) == Some((qs, i + ser_questions(qs).len())),
    decreases qs.len(),
{
    reveal_with_fuel(ser_questions, 2);
    reveal_with_fuel(spec_parse_questions, 2);
    if qs.len() == 0 {
        assert(qs =~= Seq::<QuestionV>::empty());
    } else {
        let a = ser_question(qs[0]);
        let c = ser_questions(qs.skip(1));
        assert(s.subrange(i, i + a.len() + c.len()) == a + c) by {
            assert(ser_questions(qs) =~= a + c);
        }
        lemma_split_prefix(s, i, a, c);
        lemma_parse_ser_question(qs[0], s, i);
        assert(forall|k: int|
            0 <= k < qs.skip(1).len() ==> fits_question(#[trigger] qs.skip(1)[k]));
        lemma_parse_ser_questions(qs.skip(1), s, i + a.len());
        assert(seq![qs[0]] + qs.skip(1) =~= qs);
    }
}

/// Reading a question set at a written question set yields the set.
proof fn lemma_parse_ser_question_set(g: QuestionSetV, s: Seq<char>, i: int)
    requires
        fits_question_set(g),
        0 <= i,
        i + ser_question_set(g).len() <= s.len(),
        s.subrange(i, i + ser_question_set(g).len()) == ser_question_set(g),
    ensures
        spec_parse_question_set(s, i) == Some((g, i + ser_question_set(g).len())),
{
    let a = ser_str(g.title);
    let b = ser_str(g.description);
    let c = ser_num(g.questions.len());
    let d = ser_questions(g.questions);
    assert(s.subrange(i, i + a.len() + (b.len() + (c.len() + d.len()))) == a + (b + (c + d))) by {
        assert(ser_question_set(g) =~= a + (b + (c + d)));
    }
    lemma_split_prefix(s, i, a, b + (c + d));
    lemma_split_prefix(s, i + a.len(), b, c + d);
    lemma_split_prefix(s, i + a.len() + b.len(), c, d);
    lemma_parse_ser_str(g.title, s, i);
    lemma_parse_ser_str(g.description, s, i + a.len());
    lemma_parse_ser_num(g.questions.len(), s, i + a.len() + b.len());
    lemma_parse_ser_questions(g.questions, s, i + a.len() + b.len() + c.len());
    assert((QuestionSetV { title: g.title, description: g.description, questions: g.questions })
        == g);
}

/// Reading question sets at written question sets yields the sets.
proof fn lemma_parse_ser_question_sets(gs: Seq<QuestionSetV>, s: Seq<char>, i: int)
    requires
        0 <= i,
        i + ser_question_sets(gs).len() <= s.len(),
        s.subrange(i, i + ser_question_sets(gs).len()) == ser_question_sets(gs),
        forall|k: int| 0 <= k < gs.len() ==> fits_question_set(#[trigger] gs[k]),
    ensures
        spec_parse_question_sets(s, i, gs.len()) == Some((gs, i + ser_question_sets(gs).len())),
    decreases gs.len(),
{
    reveal_with_fuel(ser_question_sets, 2);
    reveal_with_fuel(spec_parse_question_sets, 2);
    if gs.len() == 0 {
        assert(gs =~= Seq::<QuestionSetV>::empty());
    } else {
        let a = ser_question_set(gs[0]);
        let c = ser_question_sets(gs.skip(1));
        assert(s.subrange(i, i + a.len() + c.len()) == a + c) by {
            assert(ser_question_sets(gs) =~= a + c);
        }
        lemma_split_prefix(s, i, a, c);
        lemma_parse_ser_question_set(gs[0], s, i);
        assert(forall|k: int|
            0 <= k < gs.skip(1).len() ==> fits_question_set(#[trigger] gs.skip(1)[k]));
        lemma_parse_ser_question_sets(gs.skip(1), s, i + a.len());
        assert(seq![gs[0]] + gs.skip(1) =~= gs);
    }
}

/// Reading a tree at a written tree yields the tree.
proof fn lemma_parse_ser_form_at(f: FormV, s: Seq<char>, i: int)
    requires
        fits_form(f),
        0 <= i,
        i + ser_form(f).len() <= s.len(),
        s.subrange(i, i + ser_form(f).len()) == ser_form(f),
    ensures
        spec_parse_form_at(s, i) == Some((f, i + ser_form(f).len())),
{
    let a = ser_str(f.title);
    let b = ser_str(f.description);
    let c = ser_num(f.groups.len());
    let d = ser_question_sets(f.groups);
    assert(s.subrange(i, i + a.len() + (b.len() + (c.len() + d.len()))) == a + (b + (c + d))) by {
        assert(ser_form(f) =~= a + (b + (c + d)));
    }
    lemma_split_prefix(s, i, a, b + (c + d));
    lemma_split_prefix(s, i + a.len(), b, c + d);
    lemma_split_prefix(s, i + a.len() + b.len(), c, d);
    lemma_parse_ser_str(f.title, s, i);
    lemma_parse_ser_str(f.description, s, i + a.len());
    lemma_parse_ser_num(f.groups.len(), s, i + a.len() + b.len());
    lemma_parse_ser_question_sets(f.groups, s, i + a.len() + b.len() + c.len());
    assert((FormV { title: f.title, description: f.description, groups: f.groups }) == f);
}

/// Round trip: writing a tree to its declarative text form and reading it
/// back yields the same tree, field for field and in order. Together with
/// the contracts of [`serialize`] and [`parse`], reading back a written
/// executable tree gives a tree with an equal view.
pub proof fn lemma_round_trip(f: FormV)
    requires
        fits_form(f),
    ensures
        spec_parse_form(ser_form(f)) == Some(f),
{
    let s = ser_form(f);
    assert(s.subrange(0, s.len() as int) =~= s);
    lemma_parse_ser_form_at(f, s, 0);
}

} // verus!

