use exam_quiz::dto::answer_result::AnswerResult;
use exam_quiz::dto::test::{CfgOption, CfgTest};
use exam_quiz::types::answer_type::{AnswerKind, AnswerType};
use exam_quiz::utils::console_print::{count_right, progress_bar_cells, report_mistakes, report_opening};
use exam_quiz::utils::input_action::options_listing;
use std::collections::HashSet;

fn result(question: &str, user_answer: &str, correct: bool) -> AnswerResult {
    AnswerResult {
        question: CfgTest {
            question: question.to_string(),
            options: vec![],
            correct: AnswerType::TextAnswer("Правильный".to_string()),
            accept: vec![],
        },
        user_answer: user_answer.to_string(),
        correct,
    }
}

#[test]
fn progress_bar_is_always_forty_cells() {
    assert_eq!(progress_bar_cells(0), format!("[{}]", ".".repeat(40)));
    assert_eq!(progress_bar_cells(17), format!("[{}{}]", "#".repeat(17), ".".repeat(23)));
    assert_eq!(progress_bar_cells(40), format!("[{}]", "#".repeat(40)));
    assert_eq!(progress_bar_cells(55), format!("[{}]", "#".repeat(40)));
}

#[test]
fn opening_of_empty_report() {
    let text = report_opening(&vec![], 5, false);
    assert!(text.contains("  РЕЗУЛЬТАТЫ"));
    assert!(text.ends_with("Ни на один вопрос ответа не получено.\n"));
}

#[test]
fn opening_of_aborted_report() {
    let results = vec![result("Q1", "A", true)];
    let text = report_opening(&results, 5, true);
    assert!(text.contains("Тест прерван: отвечено 1 из 5 вопросов."));
    assert!(text.ends_with("Правильных ответов: 1 из 5\n"));
}

#[test]
fn right_and_wrong_add_up() {
    let results = vec![result("Q1", "A", true), result("Q2", "B", false), result("Q3", "C", true)];
    assert_eq!(count_right(&results), 2);
}

#[test]
fn mistakes_list_wrong_answers_with_right_ones() {
    let results = vec![result("Вопрос 1", "Неправильно", false), result("Вопрос 2", "Правильно", true)];
    let text = report_mistakes(&results);
    assert!(text.contains("Неверно отвеченные вопросы (1):"));
    assert!(text.contains("1. Вопрос 1"));
    assert!(text.contains("Ваш ответ:        Неправильно"));
    assert!(text.contains("Правильный ответ: Правильный"));
    assert!(!text.contains("Вопрос 2"));
    let all_right = vec![result("Q", "A", true)];
    assert_eq!(report_mistakes(&all_right), "\nОшибок нет. Отличная работа!\n");
}

#[test]
fn listing_numbers_options_from_one() {
    let shown = vec!["A".to_string(), "B".to_string()];
    assert_eq!(options_listing(&shown), "\n  1) A\n  2) B\n\n");
}

#[test]
fn verdict_and_labels() {
    assert_eq!(result("Q", "A", true).verdict_line(), "  Верно");
    assert_eq!(result("Q", "A", false).verdict_line(), "  Неверно");
    assert_eq!(AnswerKind::SingleAnswer.label(), "[ВЫБЕРИТЕ ОДИН ОТВЕТ]");
    assert_eq!(AnswerKind::MultipleAnswer.label(), "[ВЫБЕРИТЕ НЕСКОЛЬКО ОТВЕТОВ]");
    assert_eq!(AnswerKind::TextAnswer.label(), "[ВВЕДИТЕ ТЕКСТОВЫЙ ОТВЕТ]");
}

#[test]
fn correct_answer_strings() {
    let options: Vec<CfgOption> = ["A", "B", "C"].iter().map(|s| CfgOption { answer: s.to_string() }).collect();
    let single = CfgTest {
        question: "?".to_string(),
        options: options.clone(),
        correct: AnswerType::SingleAnswer(1),
        accept: vec![],
    };
    assert_eq!(single.correct_answer_string(), "B");
    let set: HashSet<usize> = vec![2, 0].into_iter().collect();
    let multiple = CfgTest {
        question: "?".to_string(),
        options,
        correct: AnswerType::MultipleAnswer(set),
        accept: vec![],
    };
    assert_eq!(multiple.correct_answer_string(), "A, C");
    assert_eq!(multiple.get_answer_type(), AnswerKind::MultipleAnswer);
    let copy = multiple.correct.clone();
    match copy {
        AnswerType::MultipleAnswer(s) => assert_eq!(s, vec![0, 2].into_iter().collect::<HashSet<usize>>()),
        _ => panic!("kind changed"),
    }
    assert_eq!(result("Q", "A", true).question.correct_answer_string(), "Правильный");
}
