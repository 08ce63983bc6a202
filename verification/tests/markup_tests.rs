use quizmark::markup::{can_lay_out, make_points_summary, make_quiz, make_section, make_section_with_orders};
use quizmark::models::{QuestOption, Question, Quiz, Section, Student};

fn open_q(text: &str, points: u32, lines: Option<u32>) -> Question {
    Question { question: text.to_string(), points, lines, options: None }
}

fn choice_q(text: &str, points: u32, opts: &[(&str, bool)]) -> Question {
    Question {
        question: text.to_string(),
        points,
        lines: None,
        options: Some(opts.iter().map(|(t, c)| QuestOption { text: t.to_string(), is_correct: *c }).collect()),
    }
}

fn section(title: &str, kind: &str, questions: Vec<Question>) -> Section {
    Section { title: title.to_string(), section_type: kind.to_string(), description: String::new(), questions }
}

fn quiz(sections: Vec<Section>) -> Quiz {
    Quiz {
        title: "Quiz".to_string(),
        class: "C1".to_string(),
        group: None,
        date: "2024".to_string(),
        sections,
    }
}

#[test]
fn points_summary_table() {
    let q = quiz(vec![
        section("A", "open", vec![open_q("x", 2, None), open_q("y", 3, None)]),
        section("B", "open", vec![open_q("z", 5, None)]),
    ]);
    let expected = "#add_markers_around_table(start_id: 0)[\n#table(\n\tcolumns: (5em, 5em, 5em),\n\talign: center,\n\tinset: 8pt,\n\ttext(weight: \"bold\")[1], text(weight: \"bold\")[2], $Sigma$,\n\ttext(weight: \"bold\")[5], text(weight: \"bold\")[5], text(weight: \"bold\")[10],\n\tv(1.5em), v(1.5em), v(1.5em),\n)\n\n]\n";
    assert_eq!(make_points_summary(&q, Some(0)), expected);
    assert_eq!(make_points_summary(&q, None), expected);
    assert!(make_points_summary(&q, Some(4)).starts_with("#add_markers_around_table(start_id: 4)[\n"));
}

#[test]
fn points_summary_of_quiz_without_sections() {
    let q = quiz(vec![]);
    let expected = "#add_markers_around_table(start_id: 0)[\n#table(\n\tcolumns: (5em),\n\talign: center,\n\tinset: 8pt,\n\t$Sigma$,\n\ttext(weight: \"bold\")[0],\n\tv(1.5em),\n)\n\n]\n";
    assert_eq!(make_points_summary(&q, Some(0)), expected);
}

#[test]
fn open_section_markup() {
    let s = section("Essay", "open", vec![open_q("Why?", 4, None), open_q("How?", 6, Some(12))]);
    let (markup, answers) = make_section_with_orders(&s, 2, &vec![]);
    assert_eq!(
        markup,
        "= Essay\n\n#open_question(points: 4, lines: 5, qnum: \"2.1\")[Why?]\n\n#open_question(points: 6, lines: 12, qnum: \"2.2\")[How?]\n\n"
    );
    assert!(answers.is_empty());
    let (markup, answers) = make_section(&s, 2);
    assert!(markup.ends_with("[How?]\n\n"));
    assert!(answers.is_empty());
}

#[test]
fn choice_section_markup_in_given_order() {
    let s = section(
        "Pick",
        "multiple_choice",
        vec![choice_q("Sky?", 1, &[("red", false), ("blue", true), ("green", false)]), choice_q("Even?", 2, &[("2", true), ("3", false), ("4", true)])],
    );
    let (markup, answers) = make_section_with_orders(&s, 1, &vec![vec![1, 2, 0], vec![2, 1, 0]]);
    assert_eq!(
        markup,
        "= Pick\n\n#multiple_choice_question(points: 1, qnum: \"1.1\", options: ([blue], [green], [red]))[Sky?]\n\n#multiple_choice_question(points: 2, qnum: \"1.2\", options: ([4], [3], [2]))[Even?]\n\n"
    );
    assert_eq!(answers, vec!["A", "A", "C"]);
}

#[test]
fn other_section_types_are_left_empty() {
    let s = section("Misc", "matching", vec![open_q("?", 1, None)]);
    assert_eq!(make_section(&s, 3), (String::from("= Misc\n\n"), vec![]));
}

#[test]
fn shuffled_section_keeps_options_and_answer_count() {
    let s = section("Pick", "multiple_choice", vec![choice_q("Q", 1, &[("a", false), ("b", true), ("c", false), ("d", true)])]);
    for _ in 0..20 {
        let (markup, answers) = make_section(&s, 1);
        for opt in ["[a]", "[b]", "[c]", "[d]"] {
            assert_eq!(markup.matches(opt).count(), 1);
        }
        assert_eq!(answers.len(), 2);
        for a in &answers {
            let pos = (a.as_bytes()[0] - b'A') as usize;
            let text = ["[a]", "[b]", "[c]", "[d]"].iter().copied().find(|o| {
                let start = markup.find("options: (").unwrap() + "options: (".len();
                let items: Vec<&str> = markup[start..].split("))").next().unwrap().split(", ").collect();
                items[pos] == *o
            });
            assert!(text == Some("[b]") || text == Some("[d]"));
        }
    }
}

#[test]
fn single_option_question_is_deterministic() {
    let s = section("One", "multiple_choice", vec![choice_q("Q", 3, &[("only", true)])]);
    let (markup, answers) = make_section(&s, 1);
    assert_eq!(markup, "= One\n\n#multiple_choice_question(points: 3, qnum: \"1.1\", options: ([only]))[Q]\n\n");
    assert_eq!(answers, vec!["A"]);
}

#[test]
fn whole_quiz_for_a_student() {
    let q = quiz(vec![section("Open", "open", vec![open_q("Why?", 4, None)])]);
    let student = Student { name: "Ann".to_string(), username: "ann1".to_string() };
    let (markup, answers) = make_quiz("T\n", &q, &student);
    let expected = String::from("T\n#set heading(numbering: \"1.1.\")\n\n")
        + "#show: doc => exam_setup(\"Ann\", \"ann1\", doc)\n\n"
        + "#assignment_header(\"Quiz\", \"\", \"C1\", \"2024\", \"Ann\", \"ann1\")\n"
        + "#add_markers_around_table(start_id: 0)[\n#table(\n\tcolumns: (5em, 5em),\n\talign: center,\n\tinset: 8pt,\n\ttext(weight: \"bold\")[1], $Sigma$,\n\ttext(weight: \"bold\")[4], text(weight: \"bold\")[4],\n\tv(1.5em), v(1.5em),\n)\n\n]\n"
        + "= Open\n\n#open_question(points: 4, lines: 5, qnum: \"1.1\")[Why?]\n\n"
        + "\n#finish_exam(\"Ann\", \"ann1\")\n";
    assert_eq!(markup, expected);
    assert_eq!(answers.len(), 1);
    assert_eq!(answers.get(&0), Some(&vec![]));
}

#[test]
fn quiz_answers_are_keyed_by_section_index() {
    let mut q = quiz(vec![
        section("Open", "open", vec![open_q("Why?", 1, None)]),
        section("Pick", "multiple_choice", vec![choice_q("Q", 1, &[("yes", true)])]),
    ]);
    q.group = Some("G2".to_string());
    let student = Student { name: "Bo".to_string(), username: "bo".to_string() };
    let (markup, answers) = make_quiz("", &q, &student);
    assert!(markup.contains("#assignment_header(\"Quiz\", \"G2\", \"C1\", \"2024\", \"Bo\", \"bo\")\n"));
    assert!(markup.contains("qnum: \"2.1\""));
    assert_eq!(answers.len(), 2);
    assert_eq!(answers.get(&0), Some(&vec![]));
    assert_eq!(answers.get(&1), Some(&vec![String::from("A")]));
}

#[test]
fn quizzes_whose_points_overflow_cannot_be_laid_out() {
    let q = quiz(vec![
        section("A", "open", vec![open_q("x", u32::MAX - 1, None)]),
        section("B", "open", vec![open_q("y", 1, None)]),
    ]);
    assert!(can_lay_out(&q));
    let q = quiz(vec![
        section("A", "open", vec![open_q("x", u32::MAX - 1, None)]),
        section("B", "open", vec![open_q("y", 1, None), open_q("z", 1, None)]),
    ]);
    assert!(!can_lay_out(&q));
}

#[test]
fn answer_letters_must_fit_in_a_byte() {
    let many = |n: usize, correct: bool| -> Question {
        Question {
            question: "?".to_string(),
            points: 1,
            lines: None,
            options: Some((0..n).map(|i| QuestOption { text: i.to_string(), is_correct: correct && i == 0 }).collect()),
        }
    };
    assert!(can_lay_out(&quiz(vec![section("M", "multiple_choice", vec![many(191, true)])])));
    assert!(!can_lay_out(&quiz(vec![section("M", "multiple_choice", vec![many(192, true)])])));
    assert!(can_lay_out(&quiz(vec![section("M", "multiple_choice", vec![many(192, false)])])));
    assert!(can_lay_out(&quiz(vec![])));
}

#[test]
fn options_of_other_sections_are_never_read() {
    let q = Question {
        question: "Why?".to_string(),
        points: 2,
        lines: None,
        options: Some((0..200).map(|i| QuestOption { text: i.to_string(), is_correct: true }).collect()),
    };
    let s = section("Essay", "open", vec![q]);
    let quiz_with_options = quiz(vec![s]);
    assert!(can_lay_out(&quiz_with_options));
    let (markup, answers) = make_section(&quiz_with_options.sections[0], 1);
    assert_eq!(markup, "= Essay\n\n#open_question(points: 2, lines: 5, qnum: \"1.1\")[Why?]\n\n");
    assert!(answers.is_empty());
}

#[test]
fn quizzes_without_choices_come_out_the_same_each_time() {
    let q = quiz(vec![section("Open", "open", vec![open_q("Why?", 4, None)]), section("Misc", "other", vec![])]);
    let student = Student { name: "Ann".to_string(), username: "ann1".to_string() };
    assert_eq!(make_quiz("T", &q, &student), make_quiz("T", &q, &student));
}

#[test]
fn answer_keys_of_two_quizzes_have_the_same_sizes() {
    let q = quiz(vec![section(
        "Pick",
        "multiple_choice",
        vec![choice_q("Q1", 1, &[("a", true), ("b", false), ("c", true)]), choice_q("Q2", 1, &[("x", false), ("y", true)])],
    )]);
    let student = Student { name: "Bo".to_string(), username: "bo".to_string() };
    let (_, a1) = make_quiz("", &q, &student);
    let (_, a2) = make_quiz("", &q, &student);
    assert_eq!(a1[&0].len(), 3);
    assert_eq!(a2[&0].len(), 3);
}
