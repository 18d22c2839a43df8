use exam_quiz::dto::test::{CfgOption, CfgTest};
use exam_quiz::types::answer_type::AnswerType;
use exam_quiz::utils::input_action::{
    prepare_shuffled_options, process_multiple_choice_from, process_single_choice_from,
    process_text_answer_from,
};
use exam_quiz::utils::input_handler::TextInput;
use rand::rngs::StdRng;
use rand::SeedableRng;

fn make_test(options: Vec<&str>, correct: AnswerType) -> CfgTest {
    CfgTest {
        question: "?".to_string(),
        options: options.into_iter().map(|s| CfgOption { answer: s.to_string() }).collect(),
        correct,
        accept: vec![],
    }
}

#[test]
fn prepare_shuffled_options_preserves_elements() {
    let test = make_test(vec!["A", "B", "C", "D"], AnswerType::SingleAnswer(0));
    let mut rng = StdRng::seed_from_u64(42);
    let (shuffled, correct) = prepare_shuffled_options(&test, &mut rng);
    let mut sorted_orig = test.options.iter().map(|o| o.answer.clone()).collect::<Vec<_>>();
    sorted_orig.sort();
    let mut sorted_shuf = shuffled.clone();
    sorted_shuf.sort();
    assert_eq!(sorted_orig, sorted_shuf);
    assert_eq!(shuffled[correct[0]], "A");
}

#[test]
fn prepare_shuffled_options_multiple_correct() {
    let test = make_test(
        vec!["X", "Y", "Z", "W"],
        AnswerType::MultipleAnswer(vec![0, 2].into_iter().collect()),
    );
    let mut rng = StdRng::seed_from_u64(123);
    let (shuffled, correct) = prepare_shuffled_options(&test, &mut rng);
    let mut correct_texts: Vec<_> = correct.iter().map(|&i| shuffled[i].clone()).collect();
    correct_texts.sort();
    assert_eq!(correct_texts, vec!["X", "Z"]);
}

#[test]
fn process_single_choice_from_valid() {
    let shuffled = vec!["A".to_string(), "B".to_string(), "C".to_string()];
    let correct = vec![1];
    let mut input = TextInput::new("2\n");
    let mut output = String::new();
    let (answer, ok, skipped) = process_single_choice_from(&mut input, &mut output, shuffled, correct);
    assert_eq!(answer, "B");
    assert!(ok);
    assert!(!skipped);
    assert!(output.contains("Ваш ответ (1-3):"));
}

#[test]
fn process_single_choice_from_skip() {
    let shuffled = vec!["A".to_string(), "B".to_string()];
    let correct = vec![0];
    let mut input = TextInput::new("!пропуск\n");
    let mut output = String::new();
    let (answer, ok, skipped) = process_single_choice_from(&mut input, &mut output, shuffled, correct);
    assert_eq!(answer, "");
    assert!(!ok);
    assert!(skipped);
}

#[test]
fn process_single_choice_from_quit() {
    let shuffled = vec!["A".to_string(), "B".to_string()];
    let correct = vec![0];
    let mut input = TextInput::new("!выход\n");
    let mut output = String::new();
    let (answer, ok, skipped) = process_single_choice_from(&mut input, &mut output, shuffled, correct);
    assert_eq!(answer, "");
    assert!(!ok);
    assert!(skipped);
}

#[test]
fn process_single_choice_from_invalid_then_valid() {
    let shuffled = vec!["A".to_string(), "B".to_string(), "C".to_string()];
    let correct = vec![2];
    let mut input = TextInput::new("0\n3\n");
    let mut output = String::new();
    let (answer, ok, skipped) = process_single_choice_from(&mut input, &mut output, shuffled, correct);
    assert_eq!(answer, "C");
    assert!(ok);
    assert!(!skipped);
    assert!(output.contains("Введите число от 1 до 3"));
}

#[test]
fn process_multiple_choice_from_valid() {
    let shuffled = vec!["A".to_string(), "B".to_string(), "C".to_string()];
    let correct = vec![0, 2];
    let mut input = TextInput::new("1, 3\n");
    let mut output = String::new();
    let (answer, ok, skipped) = process_multiple_choice_from(&mut input, &mut output, shuffled, correct);
    assert_eq!(answer, "A, C");
    assert!(ok);
    assert!(!skipped);
}

#[test]
fn process_multiple_choice_from_wrong_order() {
    let shuffled = vec!["X".to_string(), "Y".to_string(), "Z".to_string()];
    let correct = vec![1, 2];
    let mut input = TextInput::new("3, 2\n");
    let mut output = String::new();
    let (answer, ok, skipped) = process_multiple_choice_from(&mut input, &mut output, shuffled, correct);
    assert_eq!(answer, "Z, Y");
    assert!(ok);
    assert!(!skipped);
}

#[test]
fn process_multiple_choice_from_skip() {
    let shuffled = vec!["A".to_string(), "B".to_string()];
    let correct = vec![0, 1];
    let mut input = TextInput::new("!пропуск\n");
    let mut output = String::new();
    let (answer, ok, skipped) = process_multiple_choice_from(&mut input, &mut output, shuffled, correct);
    assert_eq!(answer, "");
    assert!(!ok);
    assert!(skipped);
}

#[test]
fn process_multiple_choice_from_quit() {
    let shuffled = vec!["A".to_string(), "B".to_string()];
    let correct = vec![0];
    let mut input = TextInput::new("!выход\n");
    let mut output = String::new();
    let (answer, ok, skipped) = process_multiple_choice_from(&mut input, &mut output, shuffled, correct);
    assert_eq!(answer, "");
    assert!(!ok);
    assert!(skipped);
}

fn text_test(correct: &str) -> CfgTest {
    CfgTest {
        question: "?".to_string(),
        options: vec![],
        correct: AnswerType::TextAnswer(correct.to_string()),
        accept: vec![],
    }
}

#[test]
fn process_text_answer_from_valid() {
    let test = text_test("правильный");
    let mut input = TextInput::new("правильный\n");
    let mut output = String::new();
    let (answer, ok, skipped) = process_text_answer_from(&mut input, &mut output, &test);
    assert_eq!(answer, "правильный");
    assert!(ok);
    assert!(!skipped);
}

#[test]
fn process_text_answer_from_empty_then_valid() {
    let test = text_test("текст");
    let mut input = TextInput::new("\nтекст\n");
    let mut output = String::new();
    let (answer, ok, skipped) = process_text_answer_from(&mut input, &mut output, &test);
    assert_eq!(answer, "текст");
    assert!(ok);
    assert!(!skipped);
    assert!(output.contains("Ответ не может быть пустым"));
}

#[test]
fn process_text_answer_from_skip() {
    let test = text_test("текст");
    let mut input = TextInput::new("!пропуск\n");
    let mut output = String::new();
    let (answer, ok, skipped) = process_text_answer_from(&mut input, &mut output, &test);
    assert_eq!(answer, "");
    assert!(!ok);
    assert!(skipped);
}

#[test]
fn process_text_answer_from_quit() {
    let test = text_test("текст");
    let mut input = TextInput::new("!выход\n");
    let mut output = String::new();
    let (answer, ok, skipped) = process_text_answer_from(&mut input, &mut output, &test);
    assert_eq!(answer, "");
    assert!(!ok);
    assert!(skipped);
}
