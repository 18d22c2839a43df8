//! The decisions of a test session: starting, recording each answer, choosing
//! the questions, and offering another run.
use rand::rngs::StdRng;
use vstd::prelude::*;
use crate::dto::answer_result::AnswerResult;
use crate::dto::test::CfgTest;
use crate::random::{is_permutation, shuffled_range};
use crate::text::{decimal, push_decimal, push_str, str_chars, string_from_chars, trim, trim_chars};
use crate::types::console_operation_type::{operation_of, ConsoleOperation};
use crate::utils::console_print::{push_repeated, repeated};

verus! {

/// Whether a session is to end.
pub type ShouldStopTest = bool;

/// What a line typed before the test gives: `Some(true)` starts the test,
/// `Some(false)` ends the session (also at the end of the input), `None` asks
/// again.
pub open spec fn start_decision(line: Seq<char>, stop: bool) -> Option<bool> {
    if stop {
        Some(false)
    } else {
        match operation_of(line) {
            ConsoleOperation::Start => Some(true),
            ConsoleOperation::Quit => Some(false),
            _ => None,
        }
    }
}

/// What a line typed before the test gives (see `start_decision`).
pub fn decide_start(line: &str, stop: bool) -> (r: Option<bool>)
    ensures
        r == start_decision(line@, stop),
{
    if stop {
        return Some(false);
    }
    match ConsoleOperation::from_input(line) {
        ConsoleOperation::Start => Some(true),
        ConsoleOperation::Quit => Some(false),
        _ => None,
    }
}

/// The message after an unknown command before the test.
pub fn unknown_start_command() -> (r: String)
    ensures
        r@ == "Неизвестная команда. Введите !старт или !выход."@,
{
    String::from_str("Неизвестная команда. Введите !старт или !выход.")
}

/// What a line typed after a run gives: `Some(true)` runs the test again,
/// `Some(false)` ends the session (also at the end of the input), `None` asks
/// again.
pub open spec fn restart_decision(line: Seq<char>, stop: bool) -> Option<bool> {
    if stop {
        Some(false)
    } else {
        match operation_of(line) {
            ConsoleOperation::Restart => Some(true),
            ConsoleOperation::Quit => Some(false),
            _ => None,
        }
    }
}

/// What a line typed after a run gives (see `restart_decision`).
pub fn decide_restart(line: &str, stop: bool) -> (r: Option<bool>)
    ensures
        r == restart_decision(line@, stop),
{
    if stop {
        return Some(false);
    }
    match ConsoleOperation::from_input(line) {
        ConsoleOperation::Restart => Some(true),
        ConsoleOperation::Quit => Some(false),
        _ => None,
    }
}

/// The prompt after a run.
pub fn restart_prompt() -> (r: String)
    ensures
        r@ == "\nВведите !рестарт для повторного теста или !выход для выхода: "@,
{
    String::from_str("\nВведите !рестарт для повторного теста или !выход для выхода: ")
}

/// The message after an unknown command after a run.
pub fn unknown_restart_command() -> (r: String)
    ensures
        r@ == "Неизвестная команда. Введите !рестарт или !выход."@,
{
    String::from_str("Неизвестная команда. Введите !рестарт или !выход.")
}

/// The answer as the report shows it: a left question shows as skipped, an
/// answer of blanks as no answer.
pub open spec fn reported_answer(user_answer: Seq<char>, skipped: bool) -> Seq<char> {
    if skipped {
        "(пропущено)"@
    } else if trim(user_answer).len() == 0 {
        "(нет ответа)"@
    } else {
        user_answer
    }
}

/// The record of how `test` was answered, and whether the session is to stop:
/// a left question ends the run and counts as wrong.
pub fn question_result(test: CfgTest, user_answer: String, correct: bool, skipped: bool) -> (r: (
    AnswerResult,
    ShouldStopTest,
))
    ensures
        r.0.question == test,
        r.0.user_answer@ == reported_answer(user_answer@, skipped),
        r.0.correct == (correct && !skipped),
        r.1 == skipped,
{
    if skipped {
        return (AnswerResult { question: test, user_answer: String::from_str("(пропущено)"), correct: false }, true);
    }
    let blank = trim_chars(&str_chars(user_answer.as_str())).len() == 0;
    let display = if blank {
        String::from_str("(нет ответа)")
    } else {
        user_answer
    };
    (AnswerResult { question: test, user_answer: display, correct }, false)
}

/// The heading of the `index`-th (from zero) of `total` questions.
pub open spec fn question_heading_text(index: nat, total: nat) -> Seq<char> {
    "\nВопрос "@ + decimal(index + 1) + " из "@ + decimal(total) + "\n"@ + repeated('-', 64) + "\n"@
}

/// The heading of the `index`-th (from zero) of `total` questions.
pub fn question_heading(index: usize, total: usize) -> (r: String)
    requires
        index < total,
    ensures
        r@ == question_heading_text(index as nat, total as nat),
{
    let mut v: Vec<char> = Vec::new();
    push_str(&mut v, "\nВопрос ");
    push_decimal(&mut v, index + 1);
    push_str(&mut v, " из ");
    push_decimal(&mut v, total);
    push_str(&mut v, "\n");
    push_repeated(&mut v, '-', 64);
    push_str(&mut v, "\n");
    assert(v@ =~= question_heading_text(index as nat, total as nat));
    string_from_chars(v.as_slice())
}

/// How many questions a run asks: the configured count, but no more than the pool holds.
pub fn questions_in_run(count: usize, pool: usize) -> (r: usize)
    ensures
        r == if count <= pool { count } else { pool },
{
    if count <= pool {
        count
    } else {
        pool
    }
}

/// The questions of one run: the first of the `pool` questions in an order
/// that `rng` picks, as many as `questions_in_run` allows.
pub fn pick_question_order(pool: usize, count: usize, rng: &mut StdRng) -> (r: Vec<usize>)
    ensures
        exists|perm: Seq<usize>| #![auto]
            is_permutation(perm, pool as nat) && r@ == perm.take(
                (if count <= pool { count } else { pool }) as int,
            ),
        r@.len() == if count <= pool { count } else { pool },
        r@.no_duplicates(),
        forall|k: int| 0 <= k < r@.len() ==> #[trigger] r@[k] < pool,
{
    let n = questions_in_run(count, pool);
    let perm = shuffled_range(pool, rng);
    let mut r: Vec<usize> = Vec::new();
    let mut k: usize = 0;
    while k < n
        invariant
            k <= n <= pool == perm.len(),
            r@ == perm@.take(k as int),
        decreases n - k,
    {
        r.push(perm[k]);
        k += 1;
        assert(r@ =~= perm@.take(k as int));
    }
    assert forall|a: int, b: int| 0 <= a < r@.len() && 0 <= b < r@.len() && a != b implies r@[a] != r@[b] by {
        assert(r@[a] == perm@[a] && r@[b] == perm@[b]);
    }
    assert forall|k: int| 0 <= k < r@.len() implies #[trigger] r@[k] < pool by {
        assert(r@[k] == perm@[k]);
    }
    r
}

/// Before the test, only the start command starts it; the end of the input and
/// the quit command end the session, and every other line asks again.
pub proof fn lemma_start_only_on_start_command(line: Seq<char>, stop: bool)
    ensures
        start_decision(line, stop) == Some(true) <==> !stop && operation_of(line) == ConsoleOperation::Start,
        start_decision(line, stop) == Some(false) <==> stop || operation_of(line) == ConsoleOperation::Quit,
{
}

/// After a run, only the restart command runs the test again; the end of the
/// input and the quit command end the session, and every other line asks again.
pub proof fn lemma_restart_only_on_restart_command(line: Seq<char>, stop: bool)
    ensures
        restart_decision(line, stop) == Some(true) <==> !stop && operation_of(line) == ConsoleOperation::Restart,
        restart_decision(line, stop) == Some(false) <==> stop || operation_of(line) == ConsoleOperation::Quit,
{
}

} // verus!
