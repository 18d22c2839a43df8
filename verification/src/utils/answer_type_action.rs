//! Judging the answer to a question read from a question file, whose options are
//! shown in a random order.
use rand::rngs::StdRng;
use vstd::prelude::*;
use crate::dto::question::Question;
use crate::random::{is_permutation, shuffled_range};
use crate::text::{join, lemma_join_push, push_chars, str_chars, string_from_chars};
use crate::utils::input_action::{picked_texts, same_elements, texts};
use crate::utils::text_matcher::{
    lemma_levenshtein_at_least_length_gap, levenshtein_distance, matches_text_answer, normalized,
    text_answer_matches, variant_matches,
};

verus! {

/// The first position of `t` in `s`, if it occurs.
pub open spec fn first_index_of(s: Seq<Seq<char>>, t: Seq<char>) -> Option<nat>
    decreases s.len(),
{
    if s.len() == 0 {
        None
    } else if s[0] == t {
        Some(0)
    } else {
        match first_index_of(s.drop_first(), t) {
            Some(i) => Some(i + 1),
            None => None,
        }
    }
}

/// Where `t` first occurs in `s`, found from the front.
proof fn lemma_first_index_of(s: Seq<Seq<char>>, t: Seq<char>, k: int)
    requires
        0 <= k <= s.len(),
        forall|m: int| 0 <= m < k ==> s[m] != t,
    ensures
        first_index_of(s, t) == match first_index_of(s.skip(k), t) {
            Some(i) => Some((i + k) as nat),
            None => None::<nat>,
        },
    decreases k,
{
    if k > 0 {
        assert(s.skip(1).skip(k - 1) =~= s.skip(k));
        lemma_first_index_of(s.drop_first(), t, k - 1);
    } else {
        assert(s.skip(0) =~= s);
    }
}

/// The first position of `t` among `shown`.
fn position_of(shown: &Vec<String>, t: &String) -> (r: Option<usize>)
    ensures
        match r {
            Some(i) => first_index_of(texts(shown@), t@) == Some(i as nat),
            None => first_index_of(texts(shown@), t@) is None,
        },
{
    let ghost ts = texts(shown@);
    let mut k: usize = 0;
    while k < shown.len()
        invariant
            k <= shown.len(),
            ts == texts(shown@),
            forall|m: int| 0 <= m < k ==> ts[m] != t@,
        decreases shown.len() - k,
    {
        if shown[k] == *t {
            proof {
                lemma_first_index_of(ts, t@, k as int);
                assert(ts.skip(k as int)[0] == t@);
            }
            return Some(k);
        }
        k += 1;
    }
    proof {
        lemma_first_index_of(ts, t@, k as int);
        assert(ts.skip(k as int).len() == 0);
    }
    None
}

/// Where, among the shown options `shown`, the correct options of `q` are: for
/// each correct index, the first shown option with the same text.
pub open spec fn shown_correct_positions(q_options: Seq<Seq<char>>, correct: Seq<usize>, shown: Seq<Seq<char>>) -> Seq<nat> {
    correct.map_values(|i: usize| first_index_of(shown, q_options[i as int])->Some_0)
}

/// Finds, for each correct index of `q`, the first shown option with the same
/// text (see `shown_correct_positions`).
pub fn question_choice_positions(q: &Question, shown: &Vec<String>) -> (r: Vec<usize>)
    requires
        forall|k: int| 0 <= k < q.correct_indices@.len() ==> #[trigger] q.correct_indices@[k] < q.options@.len()
            && first_index_of(texts(shown@), q.options@[q.correct_indices@[k] as int]@) is Some,
    ensures
        r@.map_values(|i: usize| i as nat) == shown_correct_positions(q@.options, q@.correct_indices, texts(shown@)),
{
    let ghost target = shown_correct_positions(q@.options, q@.correct_indices, texts(shown@));
    let mut r: Vec<usize> = Vec::new();
    let mut k: usize = 0;
    while k < q.correct_indices.len()
        invariant
            k <= q.correct_indices.len(),
            target == shown_correct_positions(q@.options, q@.correct_indices, texts(shown@)),
            forall|m: int| 0 <= m < q.correct_indices@.len() ==> #[trigger] q.correct_indices@[m] < q.options@.len()
                && first_index_of(texts(shown@), q.options@[q.correct_indices@[m] as int]@) is Some,
            r@.map_values(|i: usize| i as nat) == target.take(k as int),
        decreases q.correct_indices.len() - k,
    {
        let idx = q.correct_indices[k];
        assert(q@.options[idx as int] == q.options@[idx as int]@);
        let p = position_of(shown, &q.options[idx]);
        let i = p.unwrap();
        let ghost before = r@;
        r.push(i);
        assert(r@.map_values(|i: usize| i as nat) =~= before.map_values(|i: usize| i as nat).push(i as nat));
        assert(target.take(k + 1) =~= target.take(k as int).push(target[k as int]));
        k += 1;
    }
    assert(target.take(k as int) =~= target);
    r
}

/// The options of `q` in an order that `rng` picks.
pub fn shuffle_question_options(q: &Question, rng: &mut StdRng) -> (r: Vec<String>)
    ensures
        exists|perm: Seq<usize>|
            is_permutation(perm, q.options@.len()) && texts(r@) == perm.map_values(|i: usize| q@.options[i as int]),
{
    let perm = shuffled_range(q.options.len(), rng);
    let mut r: Vec<String> = Vec::new();
    let mut k: usize = 0;
    while k < perm.len()
        invariant
            k <= perm.len() == q.options.len(),
            is_permutation(perm@, q.options@.len()),
            texts(r@) == perm@.map_values(|i: usize| q@.options[i as int]).take(k as int),
        decreases perm.len() - k,
    {
        let s_new = q.options[perm[k]].clone();
        let ghost before = r@;
        r.push(s_new);
        assert(texts(r@) =~= texts(before).push(s_new@));
        assert(perm@.map_values(|i: usize| q@.options[i as int]).take(k + 1) =~= perm@.map_values(
            |i: usize| q@.options[i as int],
        ).take(k as int).push(q@.options[perm@[k as int] as int]));
        k += 1;
    }
    assert(perm@.map_values(|i: usize| q@.options[i as int]).take(k as int) =~= perm@.map_values(
        |i: usize| q@.options[i as int],
    ));
    r
}

/// The answer to a single-choice question from a question file and whether it
/// is right: nothing at a stop, the note of a skip, or the picked option.
pub open spec fn question_single_outcome(shown: Seq<Seq<char>>, correct: Seq<usize>, choice: i32, stop: bool) -> (Seq<char>, bool) {
    if stop {
        (Seq::empty(), false)
    } else if choice >= 0 {
        (shown[choice as int], choice as usize == correct[0])
    } else {
        ("(пропущено)"@, false)
    }
}

/// The answer to a single-choice question from a question file (see
/// `question_single_outcome`).
pub fn question_single_result(shown: &Vec<String>, correct: &Vec<usize>, choice: i32, stop: bool) -> (r: (String, bool))
    requires
        !stop && choice >= 0 ==> choice < shown.len() && correct.len() > 0,
    ensures
        (r.0@, r.1) == question_single_outcome(texts(shown@), correct@, choice, stop),
{
    if stop {
        return (String::new(), false);
    }
    if choice >= 0 {
        let idx = choice as usize;
        (shown[idx].clone(), idx == correct[0])
    } else {
        (String::from_str("(пропущено)"), false)
    }
}

/// The answer to a multiple-choice question from a question file and whether
/// it is right: nothing at a stop, the picked options joined by ", " and
/// whether they are exactly the correct ones, or the note of a skip.
pub open spec fn question_multiple_outcome(shown: Seq<Seq<char>>, correct: Seq<usize>, chosen: Seq<usize>, stop: bool) -> (Seq<char>, bool) {
    if stop {
        (Seq::empty(), false)
    } else if chosen.len() > 0 {
        (join(picked_texts(shown, chosen), seq![',', ' ']), chosen.to_multiset() == correct.to_multiset())
    } else {
        ("(пропущено)"@, false)
    }
}

/// The answer to a multiple-choice question from a question file (see
/// `question_multiple_outcome`).
pub fn question_multiple_result(shown: &Vec<String>, correct: &Vec<usize>, chosen: &Vec<usize>, stop: bool) -> (r: (String, bool))
    requires
        forall|k: int| 0 <= k < chosen@.len() ==> #[trigger] chosen@[k] < shown@.len(),
    ensures
        (r.0@, r.1) == question_multiple_outcome(texts(shown@), correct@, chosen@, stop),
{
    if stop {
        return (String::new(), false);
    }
    if chosen.len() == 0 {
        return (String::from_str("(пропущено)"), false);
    }
    let ghost picked = picked_texts(texts(shown@), chosen@);
    let mut out: Vec<char> = Vec::new();
    let mut k: usize = 0;
    while k < chosen.len()
        invariant
            k <= chosen.len(),
            picked == picked_texts(texts(shown@), chosen@),
            forall|m: int| 0 <= m < chosen@.len() ==> #[trigger] chosen@[m] < shown@.len(),
            out@ == join(picked.take(k as int), seq![',', ' ']),
        decreases chosen.len() - k,
    {
        let opt = str_chars(shown[chosen[k]].as_str());
        proof {
            assert(picked.take(k + 1) =~= picked.take(k as int).push(opt@));
            lemma_join_push(picked.take(k as int), seq![',', ' '], opt@);
        }
        if k > 0 {
            out.push(',');
            out.push(' ');
        }
        push_chars(&mut out, &opt);
        k += 1;
    }
    assert(picked.take(k as int) =~= picked);
    (string_from_chars(out.as_slice()), same_elements(chosen, correct))
}

/// The answer to a text question from a question file and whether it is right:
/// nothing at a stop, otherwise the typed answer and whether it is taken as the
/// expected text or one of the accepted ones.
pub open spec fn question_text_outcome(answer: Seq<char>, stop: bool, correct_text: Seq<char>, accept: Seq<Seq<char>>) -> (Seq<char>, bool) {
    if stop {
        (Seq::empty(), false)
    } else {
        (answer, answer.len() > 0 && text_answer_matches(answer, correct_text, accept))
    }
}

/// The answer to a text question from a question file (see `question_text_outcome`).
pub fn question_text_result(q: &Question, answer: String, stop: bool) -> (r: (String, bool))
    ensures
        (r.0@, r.1) == question_text_outcome(answer@, stop, q@.correct_text, q@.accept),
{
    if stop {
        return (String::new(), false);
    }
    let ok = if answer.as_str().unicode_len() == 0 {
        false
    } else {
        matches_text_answer(answer.as_str(), q.correct_text.as_str(), &q.accept)
    };
    (answer, ok)
}

/// Where `first_index_of` finds `t`, `t` stands; and it finds every `t` of `s`.
proof fn lemma_first_index_of_found(s: Seq<Seq<char>>, t: Seq<char>)
    ensures
        first_index_of(s, t) matches Some(p) ==> p < s.len() && s[p as int] == t,
        s.contains(t) ==> first_index_of(s, t) is Some,
    decreases s.len(),
{
    if s.len() > 0 && s[0] != t {
        lemma_first_index_of_found(s.drop_first(), t);
        if s.contains(t) {
            let k = choose|k: int| 0 <= k < s.len() && s[k] == t;
            assert(s.drop_first()[k - 1] == t);
        }
    }
}

/// What the positions of the correct options among the shown ones are, when the
/// option texts are distinct and the shown options are a permutation of them.
proof fn lemma_shown_positions(
    opts: Seq<Seq<char>>,
    correct: Seq<usize>,
    perm: Seq<usize>,
    shown: Seq<Seq<char>>,
    pos: Seq<usize>,
)
    requires
        opts.no_duplicates(),
        correct.no_duplicates(),
        forall|k: int| 0 <= k < correct.len() ==> #[trigger] correct[k] < opts.len(),
        is_permutation(perm, opts.len()),
        shown == perm.map_values(|i: usize| opts[i as int]),
        pos.map_values(|i: usize| i as nat) == shown_correct_positions(opts, correct, shown),
    ensures
        shown.no_duplicates(),
        pos.len() == correct.len(),
        pos.no_duplicates(),
        forall|k: int| 0 <= k < pos.len() ==> #[trigger] pos[k] < shown.len() && shown[pos[k] as int] == opts[correct[k] as int],
{
    assert forall|a: int, b: int| 0 <= a < shown.len() && 0 <= b < shown.len() && a != b implies shown[a] != shown[b] by {
        assert(shown[a] == opts[perm[a] as int] && shown[b] == opts[perm[b] as int]);
    }
    assert(pos.len() == correct.len()) by {
        assert(pos.map_values(|i: usize| i as nat).len() == pos.len());
    }
    assert forall|k: int| 0 <= k < pos.len() implies #[trigger] pos[k] < shown.len() && shown[pos[k] as int] == opts[correct[k] as int] by {
        let t = opts[correct[k] as int];
        let c = correct[k];
        assert(perm.contains(c));
        let p = choose|p: int| 0 <= p < perm.len() && perm[p] == c;
        assert(shown[p] == t);
        lemma_first_index_of_found(shown, t);
        assert(pos.map_values(|i: usize| i as nat)[k] == pos[k] as nat);
        assert(shown_correct_positions(opts, correct, shown)[k] == first_index_of(shown, t)->Some_0);
    }
    assert forall|a: int, b: int| 0 <= a < pos.len() && 0 <= b < pos.len() && a != b implies pos[a] != pos[b] by {
        if pos[a] == pos[b] {
            assert(opts[correct[a] as int] == opts[correct[b] as int]);
        }
    }
}

/// When the option texts of a question are distinct and are shown in the order of
/// a permutation, a single-choice answer is right exactly when the picked option
/// is the text of the first correct option.
pub proof fn lemma_single_question_judged_by_text(
    opts: Seq<Seq<char>>,
    correct: Seq<usize>,
    perm: Seq<usize>,
    shown: Seq<Seq<char>>,
    pos: Seq<usize>,
    choice: i32,
)
    requires
        opts.no_duplicates(),
        correct.no_duplicates(),
        correct.len() > 0,
        forall|k: int| 0 <= k < correct.len() ==> #[trigger] correct[k] < opts.len(),
        is_permutation(perm, opts.len()),
        shown == perm.map_values(|i: usize| opts[i as int]),
        pos.map_values(|i: usize| i as nat) == shown_correct_positions(opts, correct, shown),
        0 <= choice < shown.len(),
    ensures
        question_single_outcome(shown, pos, choice, false) == (
            shown[choice as int],
            shown[choice as int] == opts[correct[0] as int],
        ),
{
    lemma_shown_positions(opts, correct, perm, shown, pos);
    assert(pos[0] < shown.len());
}

/// When the option texts of a question are distinct and are shown in the order of
/// a permutation, a multiple-choice answer that picks distinct shown options is
/// right exactly when the picked texts are, as a set, the texts of the correct
/// options.
pub proof fn lemma_multiple_question_judged_by_text(
    opts: Seq<Seq<char>>,
    correct: Seq<usize>,
    perm: Seq<usize>,
    shown: Seq<Seq<char>>,
    pos: Seq<usize>,
    chosen: Seq<usize>,
)
    requires
        opts.no_duplicates(),
        correct.no_duplicates(),
        forall|k: int| 0 <= k < correct.len() ==> #[trigger] correct[k] < opts.len(),
        is_permutation(perm, opts.len()),
        shown == perm.map_values(|i: usize| opts[i as int]),
        pos.map_values(|i: usize| i as nat) == shown_correct_positions(opts, correct, shown),
        chosen.len() > 0,
        chosen.no_duplicates(),
        forall|k: int| 0 <= k < chosen.len() ==> #[trigger] chosen[k] < shown.len(),
    ensures
        question_multiple_outcome(shown, pos, chosen, false) == (
            join(picked_texts(shown, chosen), seq![',', ' ']),
            chosen.map_values(|i: usize| shown[i as int]).to_set() == correct.map_values(
                |i: usize| opts[i as int],
            ).to_set(),
        ),
{
    broadcast use vstd::seq_lib::group_to_multiset_ensures;

    lemma_shown_positions(opts, correct, perm, shown, pos);
    let chm = chosen.map_values(|i: usize| shown[i as int]);
    let cm = correct.map_values(|i: usize| opts[i as int]);
    let ct = chm.to_set();
    let rt = cm.to_set();
    chosen.lemma_multiset_has_no_duplicates();
    pos.lemma_multiset_has_no_duplicates();
    // the picked texts are the correct texts exactly when the picked positions are the correct positions
    assert forall|x: usize| #![trigger chosen.contains(x)] #![trigger pos.contains(x)] ct == rt implies (chosen.contains(x) <==> pos.contains(x)) by {
        if chosen.contains(x) {
            let a = choose|a: int| 0 <= a < chosen.len() && chosen[a] == x;
            assert(chm[a] == shown[x as int]);
            assert(ct.contains(shown[x as int]));
            assert(rt.contains(shown[x as int]));
            let b = choose|b: int| 0 <= b < correct.len() && cm[b] == shown[x as int];
            assert(shown[pos[b] as int] == shown[x as int]);
            assert(pos[b] == x);
        }
        if pos.contains(x) {
            let b = choose|b: int| 0 <= b < pos.len() && pos[b] == x;
            assert(cm[b] == shown[x as int]);
            assert(rt.contains(shown[x as int]));
            assert(ct.contains(shown[x as int]));
            let a = choose|a: int| 0 <= a < chosen.len() && chm[a] == shown[x as int];
            assert(shown[chosen[a] as int] == shown[x as int]);
            assert(chosen[a] == x);
        }
    }
    if ct == rt {
        assert(chosen.to_multiset() =~= pos.to_multiset()) by {
            assert forall|x: usize| chosen.to_multiset().count(x) == pos.to_multiset().count(x) by {
                assert(chosen.contains(x) <==> pos.contains(x));
                if chosen.contains(x) {
                    assert(chosen.to_multiset().contains(x));
                    assert(pos.to_multiset().contains(x));
                }
            }
        }
    }
    if chosen.to_multiset() == pos.to_multiset() {
        assert(ct =~= rt) by {
            assert forall|t: Seq<char>| ct.contains(t) implies rt.contains(t) by {
                let a = choose|a: int| 0 <= a < chosen.len() && chm[a] == t;
                let x = chosen[a];
                assert(chosen.contains(x));
                assert(chosen.to_multiset().count(x) > 0);
                assert(pos.contains(x));
                let b = choose|b: int| 0 <= b < pos.len() && pos[b] == x;
                assert(cm[b] == t);
            }
            assert forall|t: Seq<char>| rt.contains(t) implies ct.contains(t) by {
                let b = choose|b: int| 0 <= b < correct.len() && cm[b] == t;
                let x = pos[b];
                assert(pos.contains(x));
                assert(pos.to_multiset().count(x) > 0);
                assert(chosen.contains(x));
                let a = choose|a: int| 0 <= a < chosen.len() && chosen[a] == x;
                assert(chm[a] == t);
            }
        }
    }
}

/// A typed answer to a question of a question file is right exactly when it is
/// not empty and its normal form equals the non-empty normal form of the expected
/// text or of an accepted text, or is one edit away from such a normal form of at
/// least eight characters; stopping gives nothing and is wrong.
pub proof fn lemma_question_text_right_iff_close_to_a_variant(
    answer: Seq<char>,
    correct_text: Seq<char>,
    accept: Seq<Seq<char>>,
)
    ensures
        question_text_outcome(answer, false, correct_text, accept).0 == answer,
        question_text_outcome(answer, false, correct_text, accept).1 <==> answer.len() > 0 && ({
            let vs = seq![correct_text] + accept;
            let nu = normalized(answer);
            exists|k: int|
                0 <= k < vs.len() && normalized(#[trigger] vs[k]).len() > 0 && (nu == normalized(vs[k]) || (
                normalized(vs[k]).len() >= 8 && levenshtein_distance(nu, normalized(vs[k])) <= 1))
        }),
        question_text_outcome(answer, true, correct_text, accept) == (Seq::<char>::empty(), false),
{
    let vs = seq![correct_text] + accept;
    let nu = normalized(answer);
    if answer.len() > 0 {
        if exists|k: int| 0 <= k < vs.len() && normalized(#[trigger] vs[k]).len() > 0 && (nu == normalized(vs[k]) || (
            normalized(vs[k]).len() >= 8 && levenshtein_distance(nu, normalized(vs[k])) <= 1)) {
            let k = choose|k: int| 0 <= k < vs.len() && normalized(#[trigger] vs[k]).len() > 0 && (nu == normalized(vs[k]) || (
                normalized(vs[k]).len() >= 8 && levenshtein_distance(nu, normalized(vs[k])) <= 1));
            lemma_levenshtein_at_least_length_gap(nu, normalized(vs[k]));
            assert(nu.len() > 0);
            if k == 0 {
                assert(vs[0] == correct_text);
                assert(variant_matches(nu, correct_text));
            } else {
                assert(vs[k] == accept[k - 1]);
                assert(variant_matches(nu, accept[k - 1]));
            }
        }
        if text_answer_matches(answer, correct_text, accept) {
            if variant_matches(nu, correct_text) {
                assert(vs[0] == correct_text);
            } else {
                let j = choose|j: int| 0 <= j < accept.len() && variant_matches(nu, #[trigger] accept[j]);
                assert(vs[j + 1] == accept[j]);
            }
        }
    }
}

} // verus!
