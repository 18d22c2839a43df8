use exam_quiz::text::IntErrorKind;
use exam_quiz::util::question_parser::{parse_questions, QuestionParseError};

#[test]
fn parses_choice_and_text_questions() {
    let content = "# comment\r\n- question: \"Столица Франции?\"\r\n  options:\r\n    - answer: Париж\r\n    - answer: 'Лион'\r\n  correct: 0\r\n\r\n- question: Простые числа\n  options:\n    - answer: 2\n    - answer: 4\n    - answer: 5\n  correct: [0, 2]\n- question: Автор \"Войны и мира\"\n  correct: \"Толстой\"\n  accept:\n    - Лев Толстой\n    - 'Л. Н. Толстой'\n";
    let qs = parse_questions(content).unwrap();
    assert_eq!(qs.len(), 3);
    assert_eq!(qs[0].text, "Столица Франции?");
    assert_eq!(qs[0].options, vec!["Париж".to_string(), "Лион".to_string()]);
    assert_eq!(qs[0].correct_indices, vec![0]);
    assert_eq!(qs[0].line, 2);
    assert_eq!(qs[1].correct_indices, vec![0, 2]);
    assert_eq!(qs[1].line, 8);
    assert_eq!(qs[2].text, "Автор \"Войны и мира\"");
    assert!(qs[2].options.is_empty());
    assert_eq!(qs[2].correct_text, "Толстой");
    assert_eq!(qs[2].accept, vec!["Лев Толстой".to_string(), "Л. Н. Толстой".to_string()]);
}

#[test]
fn unquotes_escapes() {
    let content = "- question: \"a \\\"b\\\" c\\\\d\"\n  correct: 'it''s'\n";
    let qs = parse_questions(content).unwrap();
    assert_eq!(qs[0].text, "a \"b\" c\\d");
    assert_eq!(qs[0].correct_text, "it's");
}

#[test]
fn empty_pieces_of_index_list_are_skipped() {
    let content = "- question: q\n  options:\n    - answer: a\n    - answer: b\n  correct: [1, , 0,]\n";
    let qs = parse_questions(content).unwrap();
    assert_eq!(qs[0].correct_indices, vec![1, 0]);
}

#[test]
fn refuses_line_before_first_question() {
    let err = parse_questions("options:\n- question: q\n").unwrap_err();
    assert!(matches!(err, QuestionParseError::OutsideQuestion { line: 1, ref text } if text == "options:"));
}

#[test]
fn refuses_bad_index_list() {
    let content = "- question: q\n  options:\n    - answer: a\n  correct: [0, x]\n";
    let err = parse_questions(content).unwrap_err();
    assert!(matches!(err, QuestionParseError::BadIndices { line: 4, kind: IntErrorKind::InvalidDigit }));
    let content = "- question: q\n  options:\n    - answer: a\n  correct: [99999999999999999999999]\n";
    let err = parse_questions(content).unwrap_err();
    assert!(matches!(err, QuestionParseError::BadIndices { line: 4, kind: IntErrorKind::PosOverflow }));
}

#[test]
fn refuses_empty_index_list() {
    let content = "- question: q\n  options:\n    - answer: a\n  correct: [ , ]\n";
    let err = parse_questions(content).unwrap_err();
    assert!(matches!(err, QuestionParseError::EmptyCorrect { line: 4 }));
}

#[test]
fn refuses_unknown_line() {
    let content = "- question: q\n  correct: x\n  - stray\n";
    let err = parse_questions(content).unwrap_err();
    assert!(matches!(err, QuestionParseError::Unparsable { line: 3, ref text } if text == "- stray"));
}

#[test]
fn refuses_file_without_questions() {
    let err = parse_questions("# nothing here\n\n").unwrap_err();
    assert!(matches!(err, QuestionParseError::NoQuestions));
}

#[test]
fn refuses_empty_question_text() {
    let err = parse_questions("- question: \"\"\n  correct: x\n").unwrap_err();
    assert!(matches!(err, QuestionParseError::EmptyQuestionText { line: 1 }));
}

#[test]
fn refuses_choice_question_without_correct_index() {
    let err = parse_questions("- question: q\n  options:\n    - answer: a\n").unwrap_err();
    assert!(matches!(err, QuestionParseError::MissingCorrectIndex { line: 1 }));
}

#[test]
fn refuses_index_past_options() {
    let content = "- question: ok\n  correct: yes\n- question: q\n  options:\n    - answer: a\n    - answer: b\n  correct: [1, 2, 3]\n";
    let err = parse_questions(content).unwrap_err();
    assert!(matches!(err, QuestionParseError::IndexOutOfRange { line: 3, index: 2, options: 2 }));
}

#[test]
fn refuses_text_question_without_answer() {
    let err = parse_questions("- question: q\n").unwrap_err();
    assert!(matches!(err, QuestionParseError::MissingTextAnswer { line: 1 }));
}

#[test]
fn error_messages_name_line_and_data() {
    let e = parse_questions("correct: 1\n- question: Q\n").unwrap_err();
    assert_eq!(e.message("q.txt"), "строка 1: данные вне блока вопроса: \"correct: 1\"");
    let e = parse_questions("- question: Q\n  options:\n    - answer: A\n    - answer: B\n  correct: [0, 2]\n").unwrap_err();
    assert_eq!(e.message("q.txt"), "строка 1: correct=2 вне диапазона вариантов (2)");
    let e = parse_questions("- question: Q\n  correct: [x]\n").unwrap_err();
    assert_eq!(e.message("q.txt"), "строка 2: ошибка парсинга индексов: invalid digit found in string");
    let e = parse_questions("- question: Q\n  correct: []\n").unwrap_err();
    assert_eq!(e.message("q.txt"), "строка 2: массив correct не может быть пустым");
    let e = parse_questions("- question: Q\n  what: \"x\"\n").unwrap_err();
    assert_eq!(e.message("q.txt"), "строка 2: не удалось разобрать: \"what: \\\"x\\\"\"");
    let e = parse_questions("# nothing\n").unwrap_err();
    assert_eq!(e.message("q.txt"), "в файле q.txt не найдено ни одного вопроса");
    let e = parse_questions("- question:\n  correct: a\n").unwrap_err();
    assert_eq!(e.message("q.txt"), "строка 1: пустой текст вопроса");
    let e = parse_questions("- question: Q\n  options:\n    - answer: A\n").unwrap_err();
    assert_eq!(e.message("q.txt"), "строка 1: для вопроса с вариантами не указан correct индекс(ы)");
    let e = parse_questions("- question: Q\n").unwrap_err();
    assert_eq!(e.message("q.txt"), "строка 1: у вопроса со свободным вводом не задан текстовый ответ");
    assert_eq!(IntErrorKind::Empty.message(), "cannot parse integer from empty string");
    assert_eq!(IntErrorKind::PosOverflow.message(), "number too large to fit in target type");
}

#[test]
fn questions_come_in_file_order() {
    let qs = parse_questions("\n- question: A\n  correct: x\n\n# c\n- question: B\n  correct: y\n").unwrap();
    assert_eq!(qs.len(), 2);
    assert_eq!(qs[0].line, 2);
    assert_eq!(qs[1].line, 6);
}
