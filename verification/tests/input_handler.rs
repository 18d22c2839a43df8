use exam_quiz::utils::input_handler::{
    ask_line_from, ask_multiple_choice_from, ask_single_choice_from, ask_text_input_from, TextInput,
};

#[test]
fn ask_line_from_returns_text() {
    let mut input = TextInput::new("hello\n");
    let mut output = String::new();
    let (line, stop) = ask_line_from(&mut input, &mut output);
    assert_eq!(line, "hello");
    assert!(!stop);
}

#[test]
fn ask_line_from_handles_quit() {
    let mut input = TextInput::new("!выход\n");
    let mut output = String::new();
    let (line, stop) = ask_line_from(&mut input, &mut output);
    assert_eq!(line, "");
    assert!(stop);
}

#[test]
fn ask_line_from_eof_returns_stop() {
    let mut input = TextInput::new("");
    let mut output = String::new();
    let (line, stop) = ask_line_from(&mut input, &mut output);
    assert_eq!(line, "");
    assert!(stop);
}

#[test]
fn ask_text_input_valid() {
    let mut input = TextInput::new("мой ответ\n");
    let mut output = String::new();
    let (text, stop) = ask_text_input_from(&mut input, &mut output);
    assert_eq!(text, "мой ответ");
    assert!(!stop);
}

#[test]
fn ask_text_input_empty_then_nonempty() {
    let mut input = TextInput::new("\nтекст\n");
    let mut output = String::new();
    let (text, stop) = ask_text_input_from(&mut input, &mut output);
    assert_eq!(text, "текст");
    assert!(!stop);
    assert!(output.contains("Ответ не может быть пустым"));
}

#[test]
fn ask_text_input_skip() {
    let mut input = TextInput::new("!пропуск\n");
    let (text, stop) = ask_text_input_from(&mut input, &mut String::new());
    assert_eq!(text, "");
    assert!(!stop);
}

#[test]
fn ask_text_input_quit() {
    let mut input = TextInput::new("!выход\n");
    let (text, stop) = ask_text_input_from(&mut input, &mut String::new());
    assert_eq!(text, "");
    assert!(stop);
}

#[test]
fn ask_multiple_choice_single_number() {
    let mut input = TextInput::new("2\n");
    let mut output = String::new();
    let (indices, stop) = ask_multiple_choice_from(&mut input, &mut output, 3);
    assert_eq!(indices, vec![1]);
    assert!(!stop);
    assert!(output.contains("Ваши ответы (1-3 через запятую):"));
}

#[test]
fn ask_multiple_choice_multiple_numbers() {
    let mut input = TextInput::new("1, 3, 2\n");
    let mut output = String::new();
    let (indices, stop) = ask_multiple_choice_from(&mut input, &mut output, 3);
    assert_eq!(indices, vec![0, 2, 1]);
    assert!(!stop);
}

#[test]
fn ask_multiple_choice_invalid_then_valid() {
    let mut input = TextInput::new("5\n2\n");
    let mut output = String::new();
    let (indices, stop) = ask_multiple_choice_from(&mut input, &mut output, 3);
    assert_eq!(indices, vec![1]);
    assert!(!stop);
    assert!(output.contains("Введите корректные номера"));
}

#[test]
fn ask_multiple_choice_skip() {
    let mut input = TextInput::new("!пропуск\n");
    let mut output = String::new();
    let (indices, stop) = ask_multiple_choice_from(&mut input, &mut output, 3);
    assert!(indices.is_empty());
    assert!(!stop);
}

#[test]
fn ask_multiple_choice_quit() {
    let mut input = TextInput::new("!выход\n");
    let mut output = String::new();
    let (indices, stop) = ask_multiple_choice_from(&mut input, &mut output, 3);
    assert!(indices.is_empty());
    assert!(stop);
}

#[test]
fn ask_single_choice_valid() {
    let mut input = TextInput::new("3\n");
    let mut output = String::new();
    let (idx, stop) = ask_single_choice_from(&mut input, &mut output, 5);
    assert_eq!(idx, 2);
    assert!(!stop);
}

#[test]
fn ask_single_choice_invalid_then_valid() {
    let mut input = TextInput::new("0\n2\n");
    let mut output = String::new();
    let (idx, stop) = ask_single_choice_from(&mut input, &mut output, 3);
    assert_eq!(idx, 1);
    assert!(!stop);
    assert!(output.contains("Введите число от 1 до 3"));
}

#[test]
fn ask_single_choice_skip() {
    let mut input = TextInput::new("!пропуск\n");
    let (idx, stop) = ask_single_choice_from(&mut input, &mut String::new(), 3);
    assert_eq!(idx, -1);
    assert!(!stop);
}

#[test]
fn ask_single_choice_quit() {
    let mut input = TextInput::new("!выход\n");
    let (idx, stop) = ask_single_choice_from(&mut input, &mut String::new(), 3);
    assert_eq!(idx, 0);
    assert!(stop);
}
