//! Judging an answer once it has been read: which option was picked, whether the
//! picked options are the correct ones, and the shuffled order in which the
//! options of a question are shown.
use std::collections::HashSet;
use vstd::prelude::*;
use crate::dto::test::{CfgOption, CfgTest};
use crate::random::{is_permutation, lemma_permuted_items, shuffled_range};
use crate::text::{join, lemma_join_push, push_chars, push_decimal, push_str, str_chars, string_from_chars, decimal};
use crate::types::answer_type::{AnswerModel, AnswerType};
use crate::utils::input_handler::{
    ask_multiple_choice_from, ask_single_choice_from, ask_text_input_from, choice_list, lemma_choice_list_rule,
    multiple_choice_decision, multiple_choice_session, single_choice_decision, single_choice_session,
    text_input_session, TextInput, line_reply,
};
use crate::utils::text_matcher::{
    answer_text_matches, lemma_levenshtein_at_least_length_gap, levenshtein_distance, match_text, normalized,
    text_answer_matches, variant_matches,
};
use crate::text::{split_on, trim, usize_from_text};
use crate::types::console_operation_type::{operation_of, ConsoleOperation};

verus! {

broadcast use vstd::seq_lib::group_to_multiset_ensures;

/// How often `x` occurs in `v`.
fn count_of(v: &Vec<usize>, x: usize) -> (r: usize)
    ensures
        r == v@.to_multiset().count(x),
{
    let mut c: usize = 0;
    let mut k: usize = 0;
    assert(v@.take(0) =~= Seq::<usize>::empty());
    while k < v.len()
        invariant
            k <= v.len(),
            c == v@.take(k as int).to_multiset().count(x),
            c <= k,
        decreases v.len() - k,
    {
        assert(v@.take(k + 1) =~= v@.take(k as int).push(v@[k as int]));
        if v[k] == x {
            c += 1;
        }
        k += 1;
    }
    assert(v@.take(k as int) =~= v@);
    c
}

/// Whether `a` and `b` hold the same elements, each as often: what comparing the
/// two after sorting them tells.
pub fn same_elements(a: &Vec<usize>, b: &Vec<usize>) -> (r: bool)
    ensures
        r == (a@.to_multiset() == b@.to_multiset()),
{
    let mut k: usize = 0;
    while k < a.len()
        invariant
            k <= a.len(),
            forall|m: int| 0 <= m < k ==> a@.to_multiset().count(#[trigger] a@[m]) == b@.to_multiset().count(a@[m]),
        decreases a.len() - k,
    {
        if count_of(a, a[k]) != count_of(b, a[k]) {
            return false;
        }
        k += 1;
    }
    let mut k: usize = 0;
    while k < b.len()
        invariant
            k <= b.len(),
            forall|m: int| 0 <= m < k ==> a@.to_multiset().count(#[trigger] b@[m]) == b@.to_multiset().count(b@[m]),
        decreases b.len() - k,
    {
        if count_of(a, b[k]) != count_of(b, b[k]) {
            return false;
        }
        k += 1;
    }
    proof {
        assert forall|x: usize| a@.to_multiset().count(x) == b@.to_multiset().count(x) by {
            if a@.contains(x) {
                let m = choose|m: int| 0 <= m < a@.len() && a@[m] == x;
                assert(a@.to_multiset().count(a@[m]) == b@.to_multiset().count(a@[m]));
            } else if b@.contains(x) {
                let m = choose|m: int| 0 <= m < b@.len() && b@[m] == x;
                assert(a@.to_multiset().count(b@[m]) == b@.to_multiset().count(b@[m]));
            } else {
                assert(a@.to_multiset().count(x) == 0);
                assert(b@.to_multiset().count(x) == 0);
            }
        }
        assert(a@.to_multiset() =~= b@.to_multiset());
    }
    true
}

/// The texts of `v`.
pub open spec fn texts(v: Seq<String>) -> Seq<Seq<char>> {
    v.map_values(|s: String| s@)
}

/// The result of a single-choice question, given the shown options `shuffled`,
/// the positions of the correct ones, and what was picked: the text of the
/// picked option, whether it is the first correct position, and whether the
/// question was left (by skipping, quitting or the end of the input).
pub open spec fn single_choice_outcome(shuffled: Seq<Seq<char>>, correct: Seq<usize>, choice: i32, stop: bool) -> (
    Seq<char>,
    bool,
    bool,
) {
    if stop {
        (Seq::empty(), false, true)
    } else if choice >= 0 {
        (shuffled[choice as int], choice as usize == correct[0], false)
    } else {
        (Seq::empty(), false, true)
    }
}

/// The result of a single-choice question (see `single_choice_outcome`).
pub fn single_choice_result(shuffled: &Vec<String>, correct: &Vec<usize>, choice: i32, stop: bool) -> (r: (
    String,
    bool,
    bool,
))
    requires
        !stop && choice >= 0 ==> choice < shuffled.len() && correct.len() > 0,
    ensures
        (r.0@, r.1, r.2) == single_choice_outcome(texts(shuffled@), correct@, choice, stop),
{
    if stop {
        return (String::new(), false, true);
    }
    if choice >= 0 {
        let idx = choice as usize;
        let answer = shuffled[idx].clone();
        let ok = idx == correct[0];
        (answer, ok, false)
    } else {
        (String::new(), false, true)
    }
}

/// A single-choice session only picks one of the `max` options.
pub proof fn lemma_single_choice_in_range(lines: Seq<Seq<char>>, max: usize)
    ensures
        ({
            let (c, s, out, n) = single_choice_session(lines, max);
            !s && c >= 0 ==> c < max
        }),
    decreases lines.len(),
{
    if lines.len() > 0 {
        lemma_single_choice_in_range(lines.drop_first(), max);
    }
}

/// Asks for one of the options `shuffled` over `input` and judges the pick
/// against the correct positions `correct_indices` (see `single_choice_session`
/// and `single_choice_outcome`).
pub fn process_single_choice_from(
    input: &mut TextInput,
    output: &mut String,
    shuffled: Vec<String>,
    correct_indices: Vec<usize>,
) -> (r: (String, bool, bool))
    requires
        shuffled.len() <= i32::MAX,
        ({
            let (c, s, out, n) = single_choice_session(old(input)@, shuffled.len());
            !s && c >= 0 ==> correct_indices.len() > 0
        }),
    ensures
        ({
            let (c, s, out, n) = single_choice_session(old(input)@, shuffled.len());
            &&& (r.0@, r.1, r.2) == single_choice_outcome(texts(shuffled@), correct_indices@, c, s)
            &&& final(output)@ == old(output)@ + out
            &&& final(input)@ == old(input)@.skip(n as int)
        }),
{
    proof {
        lemma_single_choice_in_range(input@, shuffled.len());
    }
    let (choice, stop) = ask_single_choice_from(input, output, shuffled.len());
    single_choice_result(&shuffled, &correct_indices, choice, stop)
}

/// The texts of the options at the positions `ids`.
pub open spec fn picked_texts(shuffled: Seq<Seq<char>>, ids: Seq<usize>) -> Seq<Seq<char>> {
    ids.map_values(|i: usize| shuffled[i as int])
}

/// The result of a multiple-choice question, given the shown options
/// `shuffled`, the positions of the correct ones, and the picked positions: the
/// picked texts joined by ", ", whether the picked positions are exactly the
/// correct ones, and whether the question was left.
pub open spec fn multiple_choice_outcome(shuffled: Seq<Seq<char>>, correct: Seq<usize>, chosen: Seq<usize>, stop: bool) -> (
    Seq<char>,
    bool,
    bool,
) {
    if stop {
        (Seq::empty(), false, true)
    } else if chosen.len() > 0 {
        (join(picked_texts(shuffled, chosen), seq![',', ' ']), chosen.to_multiset() == correct.to_multiset(), false)
    } else {
        (Seq::empty(), false, true)
    }
}

/// The result of a multiple-choice question (see `multiple_choice_outcome`).
pub fn multiple_choice_result(shuffled: &Vec<String>, correct: &Vec<usize>, chosen: &Vec<usize>, stop: bool) -> (r: (
    String,
    bool,
    bool,
))
    requires
        forall|k: int| 0 <= k < chosen@.len() ==> #[trigger] chosen@[k] < shuffled@.len(),
    ensures
        (r.0@, r.1, r.2) == multiple_choice_outcome(texts(shuffled@), correct@, chosen@, stop),
{
    if stop {
        return (String::new(), false, true);
    }
    if chosen.len() != 0 {
        let ghost picked = picked_texts(texts(shuffled@), chosen@);
        let mut out: Vec<char> = Vec::new();
        let mut k: usize = 0;
        while k < chosen.len()
            invariant
                k <= chosen.len(),
                picked == picked_texts(texts(shuffled@), chosen@),
                forall|m: int| 0 <= m < chosen@.len() ==> #[trigger] chosen@[m] < shuffled@.len(),
                out@ == join(picked.take(k as int), seq![',', ' ']),
            decreases chosen.len() - k,
        {
            let opt = str_chars(shuffled[chosen[k]].as_str());
            proof {
                assert(picked.take(k + 1) =~= picked.take(k as int).push(opt@));
                lemma_join_push(picked.take(k as int), seq![',', ' '], opt@);
            }
            if k > 0 {
                out.push(',');
                out.push(' ');
            }
            push_chars(&mut out, &opt);
            k += 1;
        }
        assert(picked.take(k as int) =~= picked);
        let ok = same_elements(chosen, correct);
        (string_from_chars(out.as_slice()), ok, false)
    } else {
        (String::new(), false, true)
    }
}

/// A multiple-choice session only picks among the `max` options, each at most once.
pub proof fn lemma_multiple_choice_in_range(lines: Seq<Seq<char>>, max: usize)
    ensures
        ({
            let (ids, s, out, n) = multiple_choice_session(lines, max);
            &&& forall|k: int| 0 <= k < ids.len() ==> #[trigger] ids[k] < max
            &&& ids.no_duplicates()
        }),
    decreases lines.len(),
{
    if lines.len() > 0 {
        let (line, stop) = line_reply(Some(lines[0]));
        lemma_choice_list_rule(split_on(trim(line), ','), max);
        lemma_multiple_choice_in_range(lines.drop_first(), max);
        match multiple_choice_decision(line, stop, max) {
            Some((ids, s)) => {
                assert forall|k: int| 0 <= k < ids.len() implies #[trigger] ids[k] < max by {
                    if !stop && operation_of(line) != ConsoleOperation::Skip && operation_of(line)
                        != ConsoleOperation::Quit {
                        match usize_from_text(trim(line)) {
                            Ok(n) => {},
                            Err(_) => {},
                        }
                    }
                }
                assert(multiple_choice_session(lines, max).0 == ids);
            },
            None => {
                let (ids2, s2, out2, n2) = multiple_choice_session(lines.drop_first(), max);
                assert(multiple_choice_session(lines, max).0 == ids2);
            },
        }
    }
}

/// Asks for several of the options `shuffled` over `input` and judges the picks
/// against the correct positions `correct_indices` (see
/// `multiple_choice_session` and `multiple_choice_outcome`).
pub fn process_multiple_choice_from(
    input: &mut TextInput,
    output: &mut String,
    shuffled: Vec<String>,
    correct_indices: Vec<usize>,
) -> (r: (String, bool, bool))
    ensures
        ({
            let (ids, s, out, n) = multiple_choice_session(old(input)@, shuffled.len());
            &&& (r.0@, r.1, r.2) == multiple_choice_outcome(texts(shuffled@), correct_indices@, ids, s)
            &&& final(output)@ == old(output)@ + out
            &&& final(input)@ == old(input)@.skip(n as int)
        }),
{
    proof {
        lemma_multiple_choice_in_range(input@, shuffled.len());
    }
    let (chosen, stop) = ask_multiple_choice_from(input, output, shuffled.len());
    multiple_choice_result(&shuffled, &correct_indices, &chosen, stop)
}

/// The result of a text question, given the typed answer: the answer, whether it
/// is taken as right for `test`, and whether the question was left.
pub open spec fn text_answer_outcome(answer: Seq<char>, stop: bool, test: CfgTest) -> (Seq<char>, bool, bool) {
    if stop || answer.len() == 0 {
        (Seq::empty(), false, true)
    } else {
        (answer, answer_text_matches(answer, test), false)
    }
}

/// The result of a text question (see `text_answer_outcome`).
pub fn text_answer_result(answer: String, stop: bool, test: &CfgTest) -> (r: (String, bool, bool))
    ensures
        (r.0@, r.1, r.2) == text_answer_outcome(answer@, stop, *test),
{
    if stop {
        return (String::new(), false, true);
    }
    if answer.as_str().unicode_len() == 0 {
        return (String::new(), false, true);
    }
    let ok = match_text(answer.as_str(), test);
    (answer, ok, false)
}

/// Asks for a typed answer over `input` and judges it against `test` (see
/// `text_input_session` and `text_answer_outcome`).
pub fn process_text_answer_from(input: &mut TextInput, output: &mut String, test: &CfgTest) -> (r: (
    String,
    bool,
    bool,
))
    ensures
        ({
            let (t, s, out, n) = text_input_session(old(input)@);
            &&& (r.0@, r.1, r.2) == text_answer_outcome(t, s, *test)
            &&& final(output)@ == old(output)@ + out
            &&& final(input)@ == old(input)@.skip(n as int)
        }),
{
    let (answer, stop) = ask_text_input_from(input, output);
    text_answer_result(answer, stop, test)
}

/// Whether `pos` gives, for each correct option `cl[k]`, the place where the
/// order `perm` shows it.
pub open spec fn marks_positions(perm: Seq<usize>, cl: Seq<usize>, pos: Seq<usize>) -> bool {
    &&& pos.len() == cl.len()
    &&& forall|k: int| 0 <= k < pos.len() ==> #[trigger] pos[k] < perm.len() && perm[pos[k] as int] == cl[k]
}

/// The option texts of `q` in the order `perm`.
pub open spec fn arranged_texts(q: CfgTest, perm: Seq<usize>) -> Seq<Seq<char>> {
    perm.map_values(|i: usize| q.option_texts()[i as int])
}

/// The option texts of `q` in the order `perm`, and where each correct option
/// (see `CfgTest::correct_positions`) lands.
pub fn arrange_options(q: &CfgTest, perm: &Vec<usize>) -> (r: (Vec<String>, Vec<usize>))
    requires
        is_permutation(perm@, q.options@.len()),
        q.answer_in_range(),
    ensures
        texts(r.0@) == arranged_texts(*q, perm@),
        marks_positions(perm@, q.correct_positions(), r.1@),
{
    let n = q.options.len();
    let mut shuffled: Vec<String> = Vec::new();
    let mut inv: Vec<usize> = Vec::new();
    let mut k: usize = 0;
    while k < n
        invariant
            k <= n == q.options.len() == perm.len(),
            is_permutation(perm@, n as nat),
            texts(shuffled@) == arranged_texts(*q, perm@).take(k as int),
            inv@.len() == k,
        decreases n - k,
    {
        let s_new = q.options[perm[k]].answer.clone();
        let ghost before = shuffled@;
        shuffled.push(s_new);
        assert(texts(shuffled@) =~= texts(before).push(s_new@));
        assert(arranged_texts(*q, perm@).take(k + 1) =~= arranged_texts(*q, perm@).take(k as int).push(
            q.option_texts()[perm@[k as int] as int],
        ));
        inv.push(0);
        k += 1;
    }
    assert(arranged_texts(*q, perm@).take(n as int) =~= arranged_texts(*q, perm@));
    let mut j: usize = 0;
    while j < n
        invariant
            j <= n == q.options.len() == perm.len() == inv.len(),
            is_permutation(perm@, n as nat),
            forall|m: int| 0 <= m < j ==> #[trigger] inv@[perm@[m] as int] == m,
        decreases n - j,
    {
        inv.set(perm[j], j);
        assert forall|m: int| 0 <= m < j + 1 implies #[trigger] inv@[perm@[m] as int] == m by {
            if m < j {
                assert(perm@[m] != perm@[j as int]);
            }
        }
        j += 1;
    }
    assert forall|c: usize| c < n implies #[trigger] inv@[c as int] < n && perm@[inv@[c as int] as int] == c by {
        assert(perm@.contains(c));
        let m = choose|m: int| 0 <= m < perm@.len() && perm@[m] == c;
        assert(inv@[perm@[m] as int] == m);
    }
    let mut pos: Vec<usize> = Vec::new();
    match &q.correct {
        AnswerType::SingleAnswer(idx) => {
            pos.push(inv[*idx]);
            assert(q.correct_positions() =~= seq![*idx]);
        },
        AnswerType::MultipleAnswer(set) => {
            let ghost s = set@;
            let mut c: usize = 0;
            while c < n
                invariant
                    c <= n == q.options.len() == perm.len() == inv.len(),
                    s == set@,
                    forall|x: usize| x < n ==> #[trigger] inv@[x as int] < n && perm@[inv@[x as int] as int] == x,
                    marks_positions(perm@, crate::dto::test::indices_below(s, c as nat), pos@),
                decreases n - c,
            {
                if set.contains(&c) {
                    let ghost before = pos@;
                    pos.push(inv[c]);
                    assert(crate::dto::test::indices_below(s, (c + 1) as nat) == crate::dto::test::indices_below(
                        s,
                        c as nat,
                    ).push(c));
                    assert forall|k: int| 0 <= k < pos@.len() implies #[trigger] pos@[k] < perm@.len()
                        && perm@[pos@[k] as int] == crate::dto::test::indices_below(s, (c + 1) as nat)[k] by {
                        if k < before.len() {
                            assert(pos@[k] == before[k]);
                        }
                    }
                } else {
                    assert(crate::dto::test::indices_below(s, (c + 1) as nat) == crate::dto::test::indices_below(
                        s,
                        c as nat,
                    ));
                }
                c += 1;
            }
        },
        AnswerType::TextAnswer(_) => {},
    }
    (shuffled, pos)
}

/// The option texts of `q`, in their order.
fn option_answers(q: &CfgTest) -> (r: Vec<String>)
    ensures
        texts(r@) == q.option_texts(),
{
    let mut r: Vec<String> = Vec::new();
    let mut k: usize = 0;
    while k < q.options.len()
        invariant
            k <= q.options.len(),
            texts(r@) == q.option_texts().take(k as int),
        decreases q.options.len() - k,
    {
        let s_new = q.options[k].answer.clone();
        let ghost before = r@;
        r.push(s_new);
        assert(texts(r@) =~= texts(before).push(s_new@));
        assert(q.option_texts().take(k + 1) =~= q.option_texts().take(k as int).push(q.option_texts()[k as int]));
        k += 1;
    }
    assert(q.option_texts().take(k as int) =~= q.option_texts());
    r
}

/// The options of `q` in the order in which they are shown, and where the
/// correct options land. A text question keeps its options as they are and has
/// no correct positions; otherwise the order is one that `rng` picks.
pub fn prepare_shuffled_options(q: &CfgTest, rng: &mut rand::rngs::StdRng) -> (r: (Vec<String>, Vec<usize>))
    requires
        q.answer_in_range(),
    ensures
        q.correct is TextAnswer ==> texts(r.0@) == q.option_texts() && r.1@.len() == 0,
        !(q.correct is TextAnswer) ==> exists|perm: Seq<usize>|
            is_permutation(perm, q.options@.len()) && texts(r.0@) == arranged_texts(*q, perm)
                && marks_positions(perm, q.correct_positions(), r.1@),
        texts(r.0@).to_multiset() == q.option_texts().to_multiset(),
        r.1@.len() == q.correct_positions().len(),
        forall|k: int|
            0 <= k < r.1@.len() ==> #[trigger] r.1@[k] < r.0@.len() && texts(r.0@)[r.1@[k] as int]
                == q.option_texts()[q.correct_positions()[k] as int],
{
    match &q.correct {
        AnswerType::TextAnswer(_) => {
            let r = option_answers(q);
            assert(q.correct_positions() =~= Seq::<usize>::empty());
            return (r, Vec::new());
        },
        _ => {},
    }
    let perm = shuffled_range(q.options.len(), rng);
    let r = arrange_options(q, &perm);
    proof {
        lemma_shuffled_options_faithful(*q, perm@, texts(r.0@), r.1@);
    }
    r
}

/// Shown in the order `perm`, the options of `q` are all there, each as often,
/// and the marked positions show exactly the correct options.
pub proof fn lemma_shuffled_options_faithful(q: CfgTest, perm: Seq<usize>, shown: Seq<Seq<char>>, pos: Seq<usize>)
    requires
        is_permutation(perm, q.options@.len()),
        shown == arranged_texts(q, perm),
        marks_positions(perm, q.correct_positions(), pos),
    ensures
        shown.to_multiset() == q.option_texts().to_multiset(),
        forall|k: int|
            0 <= k < pos.len() ==> #[trigger] pos[k] < shown.len() && shown[pos[k] as int]
                == q.option_texts()[q.correct_positions()[k] as int],
{
    assert(q.options.len() == q.options@.len());
    lemma_permuted_items(q.option_texts(), perm);
}

/// The lines of the listing of the options `shown`: each is numbered from one.
pub open spec fn listing_lines(shown: Seq<Seq<char>>) -> Seq<char>
    decreases shown.len(),
{
    if shown.len() == 0 {
        Seq::empty()
    } else {
        listing_lines(shown.drop_last()) + "  "@ + decimal(shown.len()) + ") "@ + shown.last() + "\n"@
    }
}

/// The listing of the options `shown`, between two empty lines.
pub open spec fn options_listing_text(shown: Seq<Seq<char>>) -> Seq<char> {
    "\n"@ + listing_lines(shown) + "\n"@
}

/// The listing of the options `shuffled` (see `options_listing_text`).
pub fn options_listing(shuffled: &Vec<String>) -> (r: String)
    ensures
        r@ == options_listing_text(texts(shuffled@)),
{
    let ghost ts = texts(shuffled@);
    let mut v: Vec<char> = Vec::new();
    push_str(&mut v, "\n");
    let ghost head = v@;
    let mut j: usize = 0;
    assert(ts.take(0) =~= Seq::<Seq<char>>::empty());
    while j < shuffled.len()
        invariant
            j <= shuffled.len(),
            ts == texts(shuffled@),
            v@ == head + listing_lines(ts.take(j as int)),
        decreases shuffled.len() - j,
    {
        let ghost before = v@;
        push_str(&mut v, "  ");
        push_decimal(&mut v, j + 1);
        push_str(&mut v, ") ");
        push_str(&mut v, shuffled[j].as_str());
        push_str(&mut v, "\n");
        proof {
            assert(ts.take(j + 1).drop_last() =~= ts.take(j as int));
            assert(ts.take(j + 1).last() == shuffled@[j as int]@);
            assert(v@ =~= head + listing_lines(ts.take(j + 1)));
        }
        j += 1;
    }
    assert(ts.take(j as int) =~= ts);
    push_str(&mut v, "\n");
    assert(v@ =~= options_listing_text(ts));
    string_from_chars(v.as_slice())
}

/// The order in which options are picked does not change whether the answer
/// to a multiple-choice question is right, nor whether it counts as left.
pub proof fn lemma_multiple_choice_order_irrelevant(
    shuffled: Seq<Seq<char>>,
    correct: Seq<usize>,
    a: Seq<usize>,
    b: Seq<usize>,
    stop: bool,
)
    requires
        a.to_multiset() == b.to_multiset(),
    ensures
        multiple_choice_outcome(shuffled, correct, a, stop).1 == multiple_choice_outcome(shuffled, correct, b, stop).1,
        multiple_choice_outcome(shuffled, correct, a, stop).2 == multiple_choice_outcome(shuffled, correct, b, stop).2,
{
    assert(a.len() == a.to_multiset().len());
    assert(b.len() == b.to_multiset().len());
}

/// A picked single option gives its own text and is judged right exactly when it
/// is the correct position: any other pick is wrong. Stopping gives nothing and
/// leaves the question.
pub proof fn lemma_single_choice_right_iff_correct_position(
    shuffled: Seq<Seq<char>>,
    correct: Seq<usize>,
    choice: i32,
)
    requires
        0 <= choice,
        correct.len() > 0,
    ensures
        single_choice_outcome(shuffled, correct, choice, false).0 == shuffled[choice as int],
        single_choice_outcome(shuffled, correct, choice, false).1 <==> choice as usize == correct[0],
        !single_choice_outcome(shuffled, correct, choice, false).2,
        choice as usize != correct[0] ==> !single_choice_outcome(shuffled, correct, choice, false).1,
        !single_choice_outcome(shuffled, correct, choice, true).1,
        single_choice_outcome(shuffled, correct, choice, true).2,
{
}

/// A non-empty pick of several options is judged right exactly when every
/// position is picked as often as it is correct: a pick that misses a correct
/// option, or that takes an option that is not correct, is wrong, and picking the
/// correct positions themselves, in any order, is right.
pub proof fn lemma_multiple_choice_right_iff_exact(
    shuffled: Seq<Seq<char>>,
    correct: Seq<usize>,
    chosen: Seq<usize>,
)
    requires
        chosen.len() > 0,
    ensures
        multiple_choice_outcome(shuffled, correct, chosen, false).1 <==> (forall|x: usize|
            chosen.to_multiset().count(x) == #[trigger] correct.to_multiset().count(x)),
        forall|k: int|
            0 <= k < correct.len() && !chosen.contains(#[trigger] correct[k])
                ==> !multiple_choice_outcome(shuffled, correct, chosen, false).1,
        forall|k: int|
            0 <= k < chosen.len() && !correct.contains(#[trigger] chosen[k])
                ==> !multiple_choice_outcome(shuffled, correct, chosen, false).1,
        chosen.to_multiset() == correct.to_multiset() ==> multiple_choice_outcome(shuffled, correct, chosen, false).1,
        multiple_choice_outcome(shuffled, correct, chosen, false).0 == join(
            picked_texts(shuffled, chosen),
            seq![',', ' '],
        ),
        !multiple_choice_outcome(shuffled, correct, chosen, false).2,
{
    let a = chosen.to_multiset();
    let b = correct.to_multiset();
    if forall|x: usize| a.count(x) == #[trigger] b.count(x) {
        assert(a =~= b);
    }
    assert forall|k: int| 0 <= k < correct.len() && !chosen.contains(#[trigger] correct[k]) implies !multiple_choice_outcome(
        shuffled,
        correct,
        chosen,
        false,
    ).1 by {
        assert(correct.contains(correct[k]));
        assert(b.count(correct[k]) > 0);
        assert(a.count(correct[k]) == 0);
    }
    assert forall|k: int| 0 <= k < chosen.len() && !correct.contains(#[trigger] chosen[k]) implies !multiple_choice_outcome(
        shuffled,
        correct,
        chosen,
        false,
    ).1 by {
        assert(chosen.contains(chosen[k]));
        assert(a.count(chosen[k]) > 0);
        assert(b.count(chosen[k]) == 0);
    }
}

/// A non-empty typed answer to a text question is judged right exactly when its
/// normal form equals the non-empty normal form of the expected text or of an
/// accepted text, or is one edit away from such a normal form of at least eight
/// characters; an answer to a question that is not a text question is never
/// right.
pub proof fn lemma_text_answer_right_iff_close_to_a_variant(answer: Seq<char>, test: CfgTest)
    requires
        answer.len() > 0,
    ensures
        text_answer_outcome(answer, false, test).0 == answer,
        !text_answer_outcome(answer, false, test).2,
        text_answer_outcome(answer, false, test).1 <==> match test.correct {
            AnswerType::TextAnswer(t) => {
                let vs = seq![t@] + test.accept_texts();
                let nu = normalized(answer);
                exists|k: int|
                    0 <= k < vs.len() && normalized(#[trigger] vs[k]).len() > 0 && (nu == normalized(vs[k]) || (
                    normalized(vs[k]).len() >= 8 && levenshtein_distance(nu, normalized(vs[k])) <= 1))
            },
            _ => false,
        },
{
    match test.correct {
        AnswerType::TextAnswer(t) => {
            let acc = test.accept_texts();
            let vs = seq![t@] + acc;
            let nu = normalized(answer);
            let close = |v: Seq<char>|
                normalized(v).len() > 0 && (nu == normalized(v) || (normalized(v).len() >= 8
                    && levenshtein_distance(nu, normalized(v)) <= 1));
            assert forall|k: int| 0 <= k < vs.len() && close(vs[k]) implies nu.len() > 0 by {
                lemma_levenshtein_at_least_length_gap(nu, normalized(vs[k]));
            }
            if exists|k: int| 0 <= k < vs.len() && normalized(#[trigger] vs[k]).len() > 0 && (nu == normalized(vs[k]) || (
                normalized(vs[k]).len() >= 8 && levenshtein_distance(nu, normalized(vs[k])) <= 1)) {
                let k = choose|k: int| 0 <= k < vs.len() && normalized(#[trigger] vs[k]).len() > 0 && (nu == normalized(vs[k]) || (
                    normalized(vs[k]).len() >= 8 && levenshtein_distance(nu, normalized(vs[k])) <= 1));
                assert(close(vs[k]));
                assert(nu.len() > 0);
                if k == 0 {
                    assert(vs[0] == t@);
                    assert(variant_matches(nu, t@));
                } else {
                    assert(vs[k] == acc[k - 1]);
                    assert(variant_matches(nu, acc[k - 1]));
                }
            }
            if text_answer_matches(answer, t@, acc) {
                if variant_matches(nu, t@) {
                    assert(vs[0] == t@);
                } else {
                    let j = choose|j: int| 0 <= j < acc.len() && variant_matches(nu, #[trigger] acc[j]);
                    assert(vs[j + 1] == acc[j]);
                }
            }
        },
        _ => {},
    }
}

} // verus!
