use survey::codec::{parse, serialize};
use survey::model::{Form, Question, QuestionSet, QuestionType};

fn s(x: &str) -> String {
    x.to_string()
}

fn sample_form() -> Form {
    Form {
        title: s("This is Survey speaking!"),
        description: s("Hello, I am survey."),
        groups: vec![QuestionSet {
            title: s("Set 1"),
            description: s(""),
            questions: vec![
                Question {
                    title: s("Why would you do this?"),
                    spec: QuestionType::Text { is_long: true },
                },
                Question {
                    title: s("How much is the fish?"),
                    spec: QuestionType::ContinuousNumeric { bounds: None },
                },
                Question {
                    title: s("What do you want?"),
                    spec: QuestionType::DiscreteNumeric {
                        bounds: (1, 10),
                        num_descriptions: vec![(1, s("NOPE!")), (10, s("YESSSSH!!!!"))],
                    },
                },
                Question {
                    title: s("What do you want?"),
                    spec: QuestionType::SingleChoice {
                        answers: vec![s("Pizza"), s("Ravioli"), s("MAOAM")],
                        custom_answer: true,
                    },
                },
                Question {
                    title: s("What do you want?"),
                    spec: QuestionType::MultipleChoice {
                        answers: vec![s("Pizza"), s("Ravioli"), s("MAOAM")],
                        custom_answer: true,
                    },
                },
            ],
        }],
    }
}

#[test]
fn serialize_empty_form_exactly() {
    let f = Form { title: s("T"), description: s("D"), groups: vec![] };
    assert_eq!(serialize(&f), "1:T1:D0;");
}

#[test]
fn serialize_one_text_question_exactly() {
    let f = Form {
        title: s("F"),
        description: s(""),
        groups: vec![QuestionSet {
            title: s("Set A"),
            description: s(""),
            questions: vec![Question { title: s("Q"), spec: QuestionType::Text { is_long: true } }],
        }],
    };
    assert_eq!(serialize(&f), "1:F0:1;5:Set A0:1;1:Qt;1;");
}

#[test]
fn serialize_discrete_with_negative_bounds_exactly() {
    let f = Form {
        title: s("F"),
        description: s("d"),
        groups: vec![QuestionSet {
            title: s("G"),
            description: s("g"),
            questions: vec![Question {
                title: s("Q"),
                spec: QuestionType::DiscreteNumeric {
                    bounds: (-3, 2),
                    num_descriptions: vec![(-1, s("meh")), (2, s("yay"))],
                },
            }],
        }],
    };
    assert_eq!(serialize(&f), "1:F1:d1;1:G1:g1;1:Qd;-3;2;2;-1;3:meh2;3:yay");
}

#[test]
fn parse_empty_form_exactly() {
    let parsed = parse("1:T1:D0;");
    assert_eq!(parsed, Some(Form { title: s("T"), description: s("D"), groups: vec![] }));
}

#[test]
fn round_trip_preserves_the_whole_tree() {
    let f = sample_form();
    let text = serialize(&f);
    let parsed = parse(&text).expect("a written tree reads back");
    assert_eq!(parsed, f);
}

#[test]
fn round_trip_keeps_order_and_unicode() {
    let f = Form {
        title: s("Héllo ü — survey"),
        description: s("multi\nline\ttext"),
        groups: vec![
            QuestionSet {
                title: s("b:group;with:separators"),
                description: s("12:34;"),
                questions: vec![
                    Question {
                        title: s("z"),
                        spec: QuestionType::SingleChoice {
                            answers: vec![s("b"), s("a"), s("a")],
                            custom_answer: false,
                        },
                    },
                    Question {
                        title: s(""),
                        spec: QuestionType::ContinuousNumeric {
                            bounds: Some((s("-1.5"), s("2.25"))),
                        },
                    },
                ],
            },
            QuestionSet { title: s(""), description: s(""), questions: vec![] },
        ],
    };
    let parsed = parse(&serialize(&f)).expect("a written tree reads back");
    assert_eq!(parsed, f);
    assert_eq!(parsed.groups[0].questions.len(), 2);
    assert_eq!(parsed.groups[1].questions.len(), 0);
}

#[test]
fn parse_rejects_malformed_documents() {
    assert_eq!(parse(""), None);
    assert_eq!(parse("abc"), None);
    // truncated: a group is promised but missing
    assert_eq!(parse("1:T1:D1;"), None);
    // trailing characters after a complete tree
    assert_eq!(parse("1:T1:D0;x"), None);
    // string length runs past the end of the input
    assert_eq!(parse("9:T1:D0;"), None);
    // a count with more than eighteen digits
    let huge = format!("1:T1:D{};", "9".repeat(19));
    assert_eq!(parse(&huge), None);
    // an unknown question-type discriminator
    assert_eq!(parse("1:T1:D1;1:G1:g1;1:Qx;"), None);
    // a discrete value outside the signed 8-bit range
    assert_eq!(parse("1:T1:D1;1:G1:g1;1:Qd;200;201;0;"), None);
    // a boolean field that is neither 0 nor 1
    assert_eq!(parse("1:T1:D1;1:G1:g1;1:Qt;2;"), None);
}

#[test]
fn parse_then_render_of_the_sample() {
    let f = sample_form();
    let parsed = parse(&serialize(&f)).expect("a written tree reads back");
    assert_eq!(parsed.render("i"), f.render("i"));
}
