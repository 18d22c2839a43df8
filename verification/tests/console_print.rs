use exam_quiz::utils::console_print::print_header_to;

#[test]
fn print_header_to_creates_correct_output() {
    let mut output = String::new();
    let subject = "Информатика";
    let pool = 150;
    let n = 10;
    print_header_to(&mut output, subject, pool, n);
    let expected = format!(
        "{}\nТЕСТ ЭКЗАМЕНА {}\n{}\nВопросов в базе: {}. В тесте: {} (выбраны случайно).\nКоманды: !пропуск — пропустить вопрос, !выход — завершить тест досрочно, !старт - для начала теста.\n",
        "=".repeat(64),
        subject,
        "=".repeat(64),
        pool,
        n
    );
    assert_eq!(output, expected);
}
