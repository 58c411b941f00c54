use survey::ids::{child_id, dec_i8, dec_u64};
use survey::model::{Form, Question, QuestionSet, QuestionType};

fn s(x: &str) -> String {
    x.to_string()
}

#[test]
fn child_id_appends_separator_and_index() {
    assert_eq!(child_id("i-2", 1), "i-2-1");
    assert_eq!(child_id("i", 0), "i-0");
    assert_eq!(child_id("root", 42), "root-42");
}

#[test]
fn child_ids_of_distinct_siblings_differ() {
    let parent = "i-3";
    for i in 0..25usize {
        for j in 0..25usize {
            if i != j {
                assert_ne!(child_id(parent, i), child_id(parent, j));
            }
        }
    }
}

#[test]
fn decimal_texts() {
    assert_eq!(dec_u64(0), "0");
    assert_eq!(dec_u64(7), "7");
    assert_eq!(dec_u64(1234), "1234");
    assert_eq!(dec_i8(-5), "-5");
    assert_eq!(dec_i8(-128), "-128");
    assert_eq!(dec_i8(127), "127");
}

#[test]
fn text_inputs_render_by_length() {
    let long = QuestionType::Text { is_long: true };
    assert_eq!(long.render("q7"), r#"<textarea id="q7"></textarea>"#);
    let short = QuestionType::Text { is_long: false };
    assert_eq!(short.render("q7"), r#"<input type="text" id="q7">"#);
}

#[test]
fn continuous_numeric_renders_slider_or_plain_number() {
    let bounded = QuestionType::ContinuousNumeric { bounds: Some((s("0.5"), s("9.5"))) };
    assert_eq!(
        bounded.render("q1"),
        r#"<input type="range" min="0.5" max="9.5" class="slider" id="q1">"#
    );
    let unbounded = QuestionType::ContinuousNumeric { bounds: None };
    assert_eq!(unbounded.render("q1"), r#"<input type="number" id="q1">"#);
}

#[test]
fn discrete_numeric_labels_and_count() {
    let q = QuestionType::DiscreteNumeric {
        bounds: (1, 10),
        num_descriptions: vec![(1, s("NOPE!")), (10, s("YESSSSH!!!!"))],
    };
    let id = "i-0-2";
    let html = q.render(id);
    let mut expected_parts = Vec::new();
    for val in 1..=10 {
        let label = match val {
            1 => "1 (NOPE!)".to_string(),
            10 => "10 (YESSSSH!!!!)".to_string(),
            v => v.to_string(),
        };
        expected_parts.push(format!(
            r#"<input type="radio" name="{id}" id="{id}-{val}" value="{val}"><label for="{id}-{val}">{label}</label>"#
        ));
    }
    assert_eq!(html, expected_parts.join("\n"));
    assert_eq!(html.matches(r#"<input type="radio""#).count(), 10);
    assert!(html.contains(r#">1 (NOPE!)</label>"#));
    assert!(html.contains(r#">5</label>"#));
    assert!(html.contains(r#">10 (YESSSSH!!!!)</label>"#));
}

#[test]
fn discrete_numeric_with_negative_values() {
    let q = QuestionType::DiscreteNumeric { bounds: (-2, 1), num_descriptions: vec![] };
    let html = q.render("n");
    assert_eq!(html.matches(r#"<input type="radio""#).count(), 4);
    assert!(html.contains(r#"id="n--2" value="-2""#));
    assert!(html.contains(r#">-1</label>"#));
}

#[test]
fn single_choice_with_custom_answer() {
    let q = QuestionType::SingleChoice {
        answers: vec![s("Pizza"), s("Ravioli"), s("MAOAM")],
        custom_answer: true,
    };
    let id = "i-0-3";
    let html = q.render(id);
    let mut expected = vec![
        format!(
            r#"<input type="radio" name="{id}" id="{id}-0" value="Pizza"><label for="{id}-0">Pizza</label>"#
        ),
        format!(
            r#"<input type="radio" name="{id}" id="{id}-1" value="Ravioli"><label for="{id}-1">Ravioli</label>"#
        ),
        format!(
            r#"<input type="radio" name="{id}" id="{id}-2" value="MAOAM"><label for="{id}-2">MAOAM</label>"#
        ),
    ]
    .join("\n");
    expected.push_str(&format!(
        "\n<input type=\"radio\" name=\"{id}\" id=\"{id}-c\" value=\"\"><input type=\"text\" id=\"{id}-t\" onkeyup=\"document.getElementById('{id}-c').setAttribute('value', this.value)\">"
    ));
    assert_eq!(html, expected);
    // three exclusive options plus the custom option share one grouping name
    assert_eq!(html.matches(&format!("name=\"{id}\"")).count(), 4);
    assert_eq!(html.matches(r#"<input type="radio""#).count(), 4);
    assert_eq!(html.matches(r#"<input type="text""#).count(), 1);
}

#[test]
fn multiple_choice_uses_checkboxes() {
    let q = QuestionType::MultipleChoice {
        answers: vec![s("A"), s("B")],
        custom_answer: true,
    };
    let html = q.render("m");
    assert_eq!(html.matches(r#"<input type="checkbox""#).count(), 3);
    assert!(html.contains(r#"id="m-t""#));
    assert!(html.contains("document.getElementById('m-c')"));
}

#[test]
fn choice_without_custom_answer_has_no_extra_pair() {
    let q = QuestionType::SingleChoice { answers: vec![s("A"), s("B")], custom_answer: false };
    let html = q.render("p");
    assert_eq!(html.matches(r#"<input type="radio""#).count(), 2);
    assert!(!html.contains("p-c"));
    assert!(!html.contains("p-t"));
    assert!(!html.contains(r#"<input type="text""#));
}

#[test]
fn question_keeps_its_identifier_for_the_input() {
    let q = Question { title: s("Why?"), spec: QuestionType::Text { is_long: false } };
    assert_eq!(q.render("i-9"), r#"<h3>Why?</h3><input type="text" id="i-9">"#);
}

#[test]
fn question_set_joins_questions_with_breaks() {
    let g = QuestionSet {
        title: s("Set 1"),
        description: s("About you"),
        questions: vec![
            Question { title: s("A?"), spec: QuestionType::Text { is_long: false } },
            Question { title: s("B?"), spec: QuestionType::Text { is_long: true } },
        ],
    };
    let html = g.render("i-0");
    let expected = format!(
        "{}{}{}{}{}",
        "<h2>Set 1</h2><p>About you</p><form>",
        "<h3>A?</h3><input type=\"text\" id=\"i-0-0\">",
        "\n</br>\n",
        "<h3>B?</h3><textarea id=\"i-0-1\"></textarea>",
        "</form>"
    );
    assert_eq!(html, expected);
}

#[test]
fn form_with_empty_question_set_renders_nonempty_document() {
    let f = Form {
        title: s("This is Survey speaking!"),
        description: s("Hello, I am survey."),
        groups: vec![QuestionSet { title: s(""), description: s(""), questions: vec![] }],
    };
    let html = f.render("i");
    let expected = format!(
        "{}{}{}{}{}",
        "<html style=\"font-family=sans-serif\"><body>",
        "<h1>This is Survey speaking!</h1><p>Hello, I am survey.</p>",
        "<div class=\"content\"><pre>",
        "<h2></h2><p></p><form></form>",
        "</pre></div></body></html>"
    );
    assert_eq!(html, expected);
    assert!(!html.is_empty());
}

#[test]
fn rendering_is_deterministic() {
    let build = || Form {
        title: s("T"),
        description: s("D"),
        groups: vec![QuestionSet {
            title: s("G"),
            description: s("g"),
            questions: vec![
                Question {
                    title: s("Q1"),
                    spec: QuestionType::DiscreteNumeric {
                        bounds: (1, 3),
                        num_descriptions: vec![(2, s("mid"))],
                    },
                },
                Question {
                    title: s("Q2"),
                    spec: QuestionType::MultipleChoice {
                        answers: vec![s("x"), s("y")],
                        custom_answer: true,
                    },
                },
            ],
        }],
    };
    let first = build().render("i");
    let second = build().render("i");
    assert_eq!(first, second);
}

#[test]
fn well_formed_checks_discrete_invariants() {
    let good = QuestionType::DiscreteNumeric {
        bounds: (1, 10),
        num_descriptions: vec![(1, s("a")), (10, s("b"))],
    };
    assert!(good.well_formed());

    let key_outside = QuestionType::DiscreteNumeric {
        bounds: (1, 10),
        num_descriptions: vec![(11, s("too big"))],
    };
    assert!(!key_outside.well_formed());

    let reversed_bounds =
        QuestionType::DiscreteNumeric { bounds: (5, 2), num_descriptions: vec![] };
    assert!(!reversed_bounds.well_formed());

    let unsorted_keys = QuestionType::DiscreteNumeric {
        bounds: (1, 10),
        num_descriptions: vec![(4, s("x")), (3, s("y"))],
    };
    assert!(!unsorted_keys.well_formed());

    let form = Form {
        title: s("T"),
        description: s("D"),
        groups: vec![QuestionSet {
            title: s("G"),
            description: s(""),
            questions: vec![Question {
                title: s("Q"),
                spec: QuestionType::DiscreteNumeric {
                    bounds: (3, 1),
                    num_descriptions: vec![],
                },
            }],
        }],
    };
    assert!(!form.well_formed());
}
