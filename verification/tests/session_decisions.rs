use exam_quiz::cli::cli::{
    decide_restart, decide_start, pick_question_order, question_heading, question_result, questions_in_run,
};
use exam_quiz::dto::test::CfgTest;
use exam_quiz::types::answer_type::AnswerType;
use exam_quiz::types::console_operation_type::ConsoleOperation;
use rand::rngs::StdRng;
use rand::SeedableRng;

fn text_test() -> CfgTest {
    CfgTest {
        question: "Q".to_string(),
        options: vec![],
        correct: AnswerType::TextAnswer("A".to_string()),
        accept: vec![],
    }
}

#[test]
fn commands_ignore_surrounding_whitespace() {
    assert_eq!(ConsoleOperation::from_input("  !start \t"), ConsoleOperation::Start);
    assert_eq!(ConsoleOperation::from_input("!старт"), ConsoleOperation::Start);
    assert_eq!(ConsoleOperation::from_input("!quit"), ConsoleOperation::Quit);
    assert_eq!(ConsoleOperation::from_input("!рестарт"), ConsoleOperation::Restart);
    assert_eq!(ConsoleOperation::from_input("!skip"), ConsoleOperation::Skip);
    assert_eq!(ConsoleOperation::from_input("!стоп"), ConsoleOperation::Unknown);
}

#[test]
fn start_and_restart_decisions() {
    assert_eq!(decide_start("!start", false), Some(true));
    assert_eq!(decide_start("!выход", false), Some(false));
    assert_eq!(decide_start("hello", false), None);
    assert_eq!(decide_start("!start", true), Some(false));
    assert_eq!(decide_restart("!restart", false), Some(true));
    assert_eq!(decide_restart("!quit", false), Some(false));
    assert_eq!(decide_restart("!start", false), None);
}

#[test]
fn skipped_question_counts_as_wrong_and_stops() {
    let (result, stop) = question_result(text_test(), "A".to_string(), true, true);
    assert_eq!(result.user_answer, "(пропущено)");
    assert!(!result.correct);
    assert!(stop);
}

#[test]
fn blank_answer_is_reported_as_none() {
    let (result, stop) = question_result(text_test(), "   ".to_string(), false, false);
    assert_eq!(result.user_answer, "(нет ответа)");
    assert!(!stop);
    let (result, _) = question_result(text_test(), "A".to_string(), true, false);
    assert_eq!(result.user_answer, "A");
    assert!(result.correct);
}

#[test]
fn heading_names_question_and_total() {
    assert_eq!(question_heading(0, 12), format!("\nВопрос 1 из 12\n{}\n", "-".repeat(64)));
}

#[test]
fn run_asks_at_most_the_pool() {
    assert_eq!(questions_in_run(30, 10), 10);
    assert_eq!(questions_in_run(3, 10), 3);
    let mut rng = StdRng::seed_from_u64(7);
    let picked = pick_question_order(10, 4, &mut rng);
    assert_eq!(picked.len(), 4);
    let mut sorted = picked.clone();
    sorted.sort();
    sorted.dedup();
    assert_eq!(sorted.len(), 4);
    assert!(picked.iter().all(|&i| i < 10));
    let all = pick_question_order(5, 30, &mut rng);
    let mut sorted = all.clone();
    sorted.sort();
    assert_eq!(sorted, vec![0, 1, 2, 3, 4]);
}

#[test]
fn question_order_is_shuffled() {
    let mut rng = StdRng::seed_from_u64(11);
    let order = pick_question_order(20, 20, &mut rng);
    let identity: Vec<usize> = (0..20).collect();
    assert_ne!(order, identity);
    let mut sorted = order.clone();
    sorted.sort();
    assert_eq!(sorted, identity);
}
