use exam_quiz::config::config::delay_millis;
use exam_quiz::dto::question::Question;
use exam_quiz::types::AnswerType;
use exam_quiz::utils::answer_type_action::{
    question_choice_positions, question_multiple_result, question_single_result, question_text_result,
    shuffle_question_options,
};
use exam_quiz::utils::input_action::same_elements;
use exam_quiz::utils::input_handler::{decide_multiple_choice, reply_to_line, TextInput};
use exam_quiz::utils::text_matcher::{levenshtein, matches_text_answer, normal_words_of, normalize};
use exam_quiz::types::console_operation_type::ConsoleOperation;
use rand::rngs::StdRng;
use rand::SeedableRng;

#[test]
fn levenshtein_is_symmetric_and_bounded() {
    assert_eq!(levenshtein("kitten", "sitting"), levenshtein("sitting", "kitten"));
    assert_eq!(levenshtein("ёж", "еж"), 1);
    assert!(levenshtein("abc", "wxyz") <= 4);
}

#[test]
fn normalize_reads_separators_as_spaces() {
    assert_eq!(normalize("Ёлка-Палка!"), "елка палка");
    assert_eq!(normalize("  Rust\t2021 "), "rust 2021");
}

#[test]
fn text_answers_with_one_typo() {
    let accept = vec!["Николай Коперник".to_string()];
    assert!(matches_text_answer("коперник", "Коперник", &accept));
    assert!(matches_text_answer("николай коперик", "Коперник", &accept));
    assert!(!matches_text_answer("копник", "Коперник", &accept));
    assert!(!matches_text_answer("", "Коперник", &accept));
}

#[test]
fn reader_hands_out_lines() {
    let mut input = TextInput::new("a\r\nb\nlast");
    assert_eq!(input.read_line(), Some("a\r\n".to_string()));
    assert_eq!(input.read_line(), Some("b\n".to_string()));
    assert_eq!(input.read_line(), Some("last".to_string()));
    assert_eq!(input.read_line(), None);
}

#[test]
fn line_replies() {
    assert_eq!(reply_to_line(Some("text\r\n")), ("text".to_string(), false));
    assert_eq!(reply_to_line(Some("  !quit\n")), (String::new(), true));
    assert_eq!(reply_to_line(None), (String::new(), true));
}

#[test]
fn multiple_choice_lists() {
    assert_eq!(decide_multiple_choice("2, 2, 1", false, 3), Some((vec![1, 0], false)));
    assert_eq!(decide_multiple_choice("1, 4", false, 3), None);
    assert_eq!(decide_multiple_choice(" , ", false, 3), None);
    assert_eq!(decide_multiple_choice("!skip", false, 3), Some((vec![], false)));
}

#[test]
fn same_elements_ignores_order() {
    assert!(same_elements(&vec![2, 0, 1], &vec![0, 1, 2]));
    assert!(!same_elements(&vec![0, 0], &vec![0]));
    assert!(!same_elements(&vec![0, 1], &vec![0, 2]));
}

#[test]
fn delays() {
    assert_eq!(delay_millis("500ms"), Some(500));
    assert_eq!(delay_millis(" 2s "), Some(2000));
    assert_eq!(delay_millis("fast"), None);
    assert_eq!(delay_millis("ms"), None);
}

fn choice_question() -> Question {
    Question {
        text: "Q".to_string(),
        options: vec!["A".to_string(), "B".to_string(), "A".to_string()],
        correct_indices: vec![2, 1],
        correct_text: String::new(),
        accept: vec![],
        line: 1,
    }
}

#[test]
fn question_file_answers() {
    let q = choice_question();
    assert!(q.is_choice());
    assert_eq!(q.get_answer_type(), AnswerType::Multiple);
    assert_eq!(q.correct_answer_string(), "A, B");
    let shown = vec!["B".to_string(), "A".to_string(), "A".to_string()];
    assert_eq!(question_choice_positions(&q, &shown), vec![1, 0]);
    assert_eq!(question_single_result(&shown, &vec![1], 1, false), ("A".to_string(), true));
    assert_eq!(question_single_result(&shown, &vec![1], -1, false), ("(пропущено)".to_string(), false));
    assert_eq!(question_multiple_result(&shown, &vec![1, 0], &vec![0, 1], false), ("B, A".to_string(), true));
    let mut rng = StdRng::seed_from_u64(5);
    let mut options = shuffle_question_options(&q, &mut rng);
    options.sort();
    assert_eq!(options, vec!["A".to_string(), "A".to_string(), "B".to_string()]);
    let text = Question {
        text: "Q".to_string(),
        options: vec![],
        correct_indices: vec![],
        correct_text: "Москва".to_string(),
        accept: vec![],
        line: 3,
    };
    assert_eq!(text.get_answer_type(), AnswerType::Text);
    assert_eq!(question_text_result(&text, "москва".to_string(), false), ("москва".to_string(), true));
    assert_eq!(question_text_result(&text, "москва".to_string(), true), (String::new(), false));
}

#[test]
fn distinct_options_are_judged_by_text() {
    let q = Question {
        text: "Q".to_string(),
        options: vec!["A".to_string(), "B".to_string(), "C".to_string(), "D".to_string()],
        correct_indices: vec![2, 0],
        correct_text: String::new(),
        accept: vec![],
        line: 1,
    };
    let mut rng = StdRng::seed_from_u64(9);
    let shown = shuffle_question_options(&q, &mut rng);
    let pos = question_choice_positions(&q, &shown);
    for c in 0..shown.len() {
        let (answer, ok) = question_single_result(&shown, &pos, c as i32, false);
        assert_eq!(answer, shown[c]);
        assert_eq!(ok, shown[c] == "C");
    }
    let a = shown.iter().position(|s| s == "A").unwrap();
    let c = shown.iter().position(|s| s == "C").unwrap();
    let b = shown.iter().position(|s| s == "B").unwrap();
    assert!(question_multiple_result(&shown, &pos, &vec![a, c], false).1);
    assert!(question_multiple_result(&shown, &pos, &vec![c, a], false).1);
    assert!(!question_multiple_result(&shown, &pos, &vec![a, b], false).1);
    assert!(!question_multiple_result(&shown, &pos, &vec![a], false).1);
}

#[test]
fn list_of_picks_rule() {
    assert_eq!(decide_multiple_choice("2, 2, 1", false, 3), Some((vec![1, 0], false)));
    assert_eq!(decide_multiple_choice(" 2,,3 ", false, 3), Some((vec![1, 2], false)));
    assert_eq!(decide_multiple_choice("3", false, 3), Some((vec![2], false)));
    assert_eq!(decide_multiple_choice("4", false, 3), None);
    assert_eq!(decide_multiple_choice("1, 0", false, 3), None);
    assert_eq!(decide_multiple_choice("1, x", false, 3), None);
    assert_eq!(decide_multiple_choice(" , ", false, 3), None);
}

#[test]
fn normal_words_twice_is_once() {
    for text in ["  ёж, ёлка!  ", "a--b  c", "", "123 abc", "Σ x"] {
        let once = normal_words_of(text);
        assert_eq!(normal_words_of(&once), once);
        assert_eq!(normalize(&normalize(text)), normalize(text));
    }
}

#[test]
fn distance_is_at_least_the_length_gap() {
    assert_eq!(levenshtein("abc", "abcdef"), 3);
    assert_eq!(levenshtein("kitten", "k"), 5);
    assert!(levenshtein("ab", "xyzw") >= 2);
}

#[test]
fn unicode_whitespace_around_commands() {
    assert_eq!(ConsoleOperation::from_input("\u{3000}!skip\u{85}"), ConsoleOperation::Skip);
    assert_eq!(ConsoleOperation::from_input("\u{a0}!выход\t\n"), ConsoleOperation::Quit);
    assert_eq!(ConsoleOperation::from_input("\u{200b}!start"), ConsoleOperation::Unknown);
}
