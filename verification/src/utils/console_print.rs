//! The texts shown around a test: its header, the progress bar and the report.
use vstd::prelude::*;
use crate::dto::answer_result::AnswerResult;
use crate::text::{decimal, push_chars, push_decimal, push_str, str_chars, string_from_chars};

verus! {

/// `n` copies of `c`.
pub open spec fn repeated(c: char, n: nat) -> Seq<char> {
    Seq::new(n, |i: int| c)
}

/// Appends `n` copies of `c` to `out`.
pub fn push_repeated(out: &mut Vec<char>, c: char, n: usize)
    ensures
        final(out)@ == old(out)@ + repeated(c, n as nat),
{
    let mut k: usize = 0;
    while k < n
        invariant
            k <= n,
            out@ == old(out)@ + repeated(c, k as nat),
        decreases n - k,
    {
        out.push(c);
        k += 1;
        assert(out@ =~= old(out)@ + repeated(c, k as nat));
    }
}

/// The header shown before a test on `subject` that asks `n` of the `pool`
/// questions.
pub open spec fn header_text(subject: Seq<char>, pool: nat, n: nat) -> Seq<char> {
    repeated('=', 64) + "\n"@ + "ТЕСТ ЭКЗАМЕНА "@ + subject + "\n"@ + repeated('=', 64) + "\n"@
        + "Вопросов в базе: "@ + decimal(pool) + ". В тесте: "@ + decimal(n) + " (выбраны случайно).\n"@
        + "Команды: !пропуск — пропустить вопрос, !выход — завершить тест досрочно, !старт - для начала теста.\n"@
}

/// Appends the header of a test on `subject` that asks `n` of the `pool`
/// questions to `output` (see `header_text`).
pub fn print_header_to(output: &mut String, subject: &str, pool: usize, n: usize)
    ensures
        final(output)@ == old(output)@ + header_text(subject@, pool as nat, n as nat),
{
    let mut v: Vec<char> = Vec::new();
    push_repeated(&mut v, '=', 64);
    push_str(&mut v, "\n");
    push_str(&mut v, "ТЕСТ ЭКЗАМЕНА ");
    push_str(&mut v, subject);
    push_str(&mut v, "\n");
    push_repeated(&mut v, '=', 64);
    push_str(&mut v, "\n");
    push_str(&mut v, "Вопросов в базе: ");
    push_decimal(&mut v, pool);
    push_str(&mut v, ". В тесте: ");
    push_decimal(&mut v, n);
    push_str(&mut v, " (выбраны случайно).\n");
    push_str(
        &mut v,
        "Команды: !пропуск — пропустить вопрос, !выход — завершить тест досрочно, !старт - для начала теста.\n",
    );
    assert(v@ =~= header_text(subject@, pool as nat, n as nat));
    output.append(string_from_chars(v.as_slice()).as_str());
}

/// The width of the progress bar.
pub const PROGRESS_WIDTH: usize = 40;

/// A progress bar of forty cells of which the first `filled` (at most all)
/// are full.
pub open spec fn progress_bar_text(filled: nat) -> Seq<char> {
    let f = if filled <= 40 { filled } else { 40 };
    "["@ + repeated('#', f) + repeated('.', (40 - f) as nat) + "]"@
}

/// The progress bar with `filled` full cells (see `progress_bar_text`).
pub fn progress_bar_cells(filled: usize) -> (r: String)
    ensures
        r@ == progress_bar_text(filled as nat),
{
    let f = if filled <= PROGRESS_WIDTH { filled } else { PROGRESS_WIDTH };
    let mut v: Vec<char> = Vec::new();
    push_str(&mut v, "[");
    push_repeated(&mut v, '#', f);
    push_repeated(&mut v, '.', PROGRESS_WIDTH - f);
    push_str(&mut v, "]");
    assert(v@ =~= progress_bar_text(filled as nat));
    string_from_chars(v.as_slice())
}

/// How many of the results are right.
pub open spec fn right_count(rs: Seq<AnswerResult>) -> nat
    decreases rs.len(),
{
    if rs.len() == 0 {
        0
    } else {
        right_count(rs.drop_last()) + if rs.last().correct {
            1nat
        } else {
            0nat
        }
    }
}

/// The wrong results, in order.
pub open spec fn wrong_results(rs: Seq<AnswerResult>) -> Seq<AnswerResult>
    decreases rs.len(),
{
    if rs.len() == 0 {
        Seq::empty()
    } else {
        let w = wrong_results(rs.drop_last());
        if rs.last().correct {
            w
        } else {
            w.push(rs.last())
        }
    }
}

/// The beginning of the report on the results `rs` of a test that planned
/// `planned` questions: the title, then either the note that nothing was
/// answered, or the note on an aborted test (if it was) and the count of right
/// answers.
pub open spec fn report_opening_text(rs: Seq<AnswerResult>, planned: nat, aborted: bool) -> Seq<char> {
    let head = "\n"@ + repeated('=', 64) + "\n"@ + "  РЕЗУЛЬТАТЫ\n"@ + repeated('=', 64) + "\n"@;
    if rs.len() == 0 {
        head + "Ни на один вопрос ответа не получено.\n"@
    } else {
        head + (if aborted {
            "Тест прерван: отвечено "@ + decimal(rs.len()) + " из "@ + decimal(planned) + " вопросов.\n"@
        } else {
            Seq::empty()
        }) + "Правильных ответов: "@ + decimal(right_count(rs)) + " из "@ + decimal(planned) + "\n"@
    }
}

/// How many of `results` are right.
pub fn count_right(results: &Vec<AnswerResult>) -> (r: usize)
    ensures
        r == right_count(results@),
{
    let mut c: usize = 0;
    let mut k: usize = 0;
    while k < results.len()
        invariant
            k <= results.len(),
            c == right_count(results@.take(k as int)),
            c <= k,
        decreases results.len() - k,
    {
        assert(results@.take(k + 1).drop_last() =~= results@.take(k as int));
        if results[k].correct {
            c += 1;
        }
        k += 1;
    }
    assert(results@.take(k as int) =~= results@);
    c
}

/// The beginning of the report (see `report_opening_text`).
pub fn report_opening(results: &Vec<AnswerResult>, planned: usize, aborted: bool) -> (r: String)
    ensures
        r@ == report_opening_text(results@, planned as nat, aborted),
{
    let mut v: Vec<char> = Vec::new();
    push_str(&mut v, "\n");
    push_repeated(&mut v, '=', 64);
    push_str(&mut v, "\n");
    push_str(&mut v, "  РЕЗУЛЬТАТЫ\n");
    push_repeated(&mut v, '=', 64);
    push_str(&mut v, "\n");
    let ghost head = v@;
    if results.len() == 0 {
        push_str(&mut v, "Ни на один вопрос ответа не получено.\n");
    } else {
        if aborted {
            push_str(&mut v, "Тест прерван: отвечено ");
            push_decimal(&mut v, results.len());
            push_str(&mut v, " из ");
            push_decimal(&mut v, planned);
            push_str(&mut v, " вопросов.\n");
        }
        let ghost mid = v@;
        push_str(&mut v, "Правильных ответов: ");
        push_decimal(&mut v, count_right(results));
        push_str(&mut v, " из ");
        push_decimal(&mut v, planned);
        push_str(&mut v, "\n");
        proof {
            if aborted {
                assert(mid =~= head + ("Тест прерван: отвечено "@ + decimal(results@.len()) + " из "@ + decimal(
                    planned as nat,
                ) + " вопросов.\n"@));
            } else {
                assert(mid =~= head + Seq::<char>::empty());
            }
        }
    }
    assert(v@ =~= report_opening_text(results@, planned as nat, aborted));
    string_from_chars(v.as_slice())
}

/// The entry of the report for the `i`-th (from zero) wrong result `r`.
pub open spec fn mistake_entry(i: nat, r: AnswerResult) -> Seq<char> {
    repeated('-', 64) + "\n"@ + decimal(i + 1) + ". "@ + r.question.question@ + "\n"@ + "   Ваш ответ:        "@
        + r.user_answer@ + "\n"@ + "   Правильный ответ: "@ + r.question.correct_answer_text() + "\n"@
}

/// The entries of the report for the wrong results `ws`.
pub open spec fn mistake_entries(ws: Seq<AnswerResult>) -> Seq<char>
    decreases ws.len(),
{
    if ws.len() == 0 {
        Seq::empty()
    } else {
        mistake_entries(ws.drop_last()) + mistake_entry((ws.len() - 1) as nat, ws.last())
    }
}

/// The end of the report: praise when nothing was wrong, otherwise the list of
/// the wrong answers with the right ones.
pub open spec fn report_mistakes_text(rs: Seq<AnswerResult>) -> Seq<char> {
    let ws = wrong_results(rs);
    if ws.len() == 0 {
        "\nОшибок нет. Отличная работа!\n"@
    } else {
        "\nНеверно отвеченные вопросы ("@ + decimal(ws.len()) + "):\n"@ + mistake_entries(ws) + repeated('-', 64)
            + "\n"@
    }
}

/// The number of wrong results is at most the number of results.
proof fn lemma_wrong_results_len(rs: Seq<AnswerResult>)
    ensures
        wrong_results(rs).len() <= rs.len(),
    decreases rs.len(),
{
    if rs.len() > 0 {
        lemma_wrong_results_len(rs.drop_last());
    }
}

/// The end of the report (see `report_mistakes_text`).
pub fn report_mistakes(results: &Vec<AnswerResult>) -> (r: String)
    requires
        forall|k: int| 0 <= k < results@.len() ==> (#[trigger] results@[k]).question.answer_in_range(),
    ensures
        r@ == report_mistakes_text(results@),
{
    let ghost rs = results@;
    let mut wrong: usize = 0;
    let mut k: usize = 0;
    while k < results.len()
        invariant
            k <= results.len(),
            rs == results@,
            wrong == wrong_results(rs.take(k as int)).len(),
        decreases results.len() - k,
    {
        assert(rs.take(k + 1).drop_last() =~= rs.take(k as int));
        proof {
            lemma_wrong_results_len(rs.take(k as int));
        }
        if !results[k].correct {
            wrong += 1;
        }
        k += 1;
    }
    assert(rs.take(k as int) =~= rs);
    let mut v: Vec<char> = Vec::new();
    if wrong == 0 {
        push_str(&mut v, "\nОшибок нет. Отличная работа!\n");
        return string_from_chars(v.as_slice());
    }
    push_str(&mut v, "\nНеверно отвеченные вопросы (");
    push_decimal(&mut v, wrong);
    push_str(&mut v, "):\n");
    let ghost head = v@;
    let mut seen: usize = 0;
    let mut k: usize = 0;
    assert(rs.take(0) =~= Seq::<AnswerResult>::empty());
    while k < results.len()
        invariant
            k <= results.len(),
            rs == results@,
            forall|m: int| 0 <= m < results@.len() ==> (#[trigger] results@[m]).question.answer_in_range(),
            seen == wrong_results(rs.take(k as int)).len(),
            v@ == head + mistake_entries(wrong_results(rs.take(k as int))),
        decreases results.len() - k,
    {
        assert(rs.take(k + 1).drop_last() =~= rs.take(k as int));
        assert(rs.take(k + 1).last() == results@[k as int]);
        proof {
            lemma_wrong_results_len(rs.take(k as int));
        }
        let r = &results[k];
        if !r.correct {
            let ghost before = v@;
            push_repeated(&mut v, '-', 64);
            push_str(&mut v, "\n");
            push_decimal(&mut v, seen + 1);
            push_str(&mut v, ". ");
            push_str(&mut v, r.question.question.as_str());
            push_str(&mut v, "\n");
            push_str(&mut v, "   Ваш ответ:        ");
            push_str(&mut v, r.user_answer.as_str());
            push_str(&mut v, "\n");
            push_str(&mut v, "   Правильный ответ: ");
            let correct_text = r.question.correct_answer_string();
            push_str(&mut v, correct_text.as_str());
            push_str(&mut v, "\n");
            proof {
                let ws = wrong_results(rs.take(k + 1));
                assert(ws == wrong_results(rs.take(k as int)).push(*r));
                assert(ws.drop_last() =~= wrong_results(rs.take(k as int)));
                assert(v@ =~= before + mistake_entry(seen as nat, *r));
            }
            seen += 1;
        }
        k += 1;
    }
    assert(rs.take(k as int) =~= rs);
    push_repeated(&mut v, '-', 64);
    push_str(&mut v, "\n");
    assert(v@ =~= report_mistakes_text(results@));
    string_from_chars(v.as_slice())
}

/// Every result is either right or among the wrong ones.
pub proof fn lemma_right_and_wrong_add_up(rs: Seq<AnswerResult>)
    ensures
        right_count(rs) + wrong_results(rs).len() == rs.len(),
    decreases rs.len(),
{
    if rs.len() > 0 {
        lemma_right_and_wrong_add_up(rs.drop_last());
    }
}

/// The progress bar is always forty cells between two brackets.
pub proof fn lemma_progress_bar_width(filled: nat)
    ensures
        progress_bar_text(filled).len() == 42,
{
    reveal_strlit("[");
    reveal_strlit("]");
}

/// The right results are those whose flag is set, and the wrong ones those whose
/// flag is clear.
pub proof fn lemma_right_count_counts_right_results(rs: Seq<AnswerResult>)
    ensures
        right_count(rs) == rs.filter(|r: AnswerResult| r.correct).len(),
        wrong_results(rs) == rs.filter(|r: AnswerResult| !r.correct),
    decreases rs.len(),
{
    reveal(Seq::filter);
    if rs.len() > 0 {
        lemma_right_count_counts_right_results(rs.drop_last());
    }
}

/// A report on at least one answer ends with the line that gives how many of
/// the answers are right (those whose flag is set) out of the planned questions;
/// when some answer is wrong, that number is below the number of answers.
pub proof fn lemma_report_counts_right_answers(rs: Seq<AnswerResult>, planned: nat, aborted: bool)
    requires
        rs.len() > 0,
    ensures
        ({
            let t = report_opening_text(rs, planned, aborted);
            let tail = "Правильных ответов: "@ + decimal(rs.filter(|r: AnswerResult| r.correct).len()) + " из "@
                + decimal(planned) + "\n"@;
            &&& t.len() >= tail.len()
            &&& t.subrange(t.len() - tail.len(), t.len() as int) == tail
        }),
        (exists|k: int| 0 <= k < rs.len() && !(#[trigger] rs[k]).correct) ==> rs.filter(
            |r: AnswerResult| r.correct,
        ).len() < rs.len(),
{
    lemma_right_count_counts_right_results(rs);
    lemma_right_and_wrong_add_up(rs);
    let t = report_opening_text(rs, planned, aborted);
    let tail = "Правильных ответов: "@ + decimal(rs.filter(|r: AnswerResult| r.correct).len()) + " из "@ + decimal(
        planned,
    ) + "\n"@;
    let head = "\n"@ + repeated('=', 64) + "\n"@ + "  РЕЗУЛЬТАТЫ\n"@ + repeated('=', 64) + "\n"@;
    let note = if aborted {
        "Тест прерван: отвечено "@ + decimal(rs.len()) + " из "@ + decimal(planned) + " вопросов.\n"@
    } else {
        Seq::empty()
    };
    assert(t =~= (head + note) + tail);
    assert(t.subrange(t.len() - tail.len(), t.len() as int) =~= tail);
    if exists|k: int| 0 <= k < rs.len() && !(#[trigger] rs[k]).correct {
        let k = choose|k: int| 0 <= k < rs.len() && !(#[trigger] rs[k]).correct;
        let p = |r: AnswerResult| !r.correct;
        assert(rs.contains(rs[k]));
        assert(rs.filter(p).contains(rs[k]));
        assert(wrong_results(rs) == rs.filter(p));
        assert(wrong_results(rs).len() > 0);
    }
}

} // verus!
