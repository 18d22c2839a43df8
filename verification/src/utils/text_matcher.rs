//! Comparing a typed answer with the accepted texts: normalisation and edit distance.
use vstd::prelude::*;
use crate::dto::test::CfgTest;
use crate::types::answer_type::AnswerType;
use crate::text::{
    char_is_alphabetic, char_is_whitespace, is_alphabetic, is_decimal_digit, is_whitespace, join,
    lemma_join_push, push_chars, split_state, str_chars, str_lowercase, string_from_chars, to_lowercase,
    trim, trim_chars, trim_end, trim_start, words,
};

verus! {

/// How `normalize` treats one character of the lowercased input: `ё` counts as `е`,
/// letters and decimal digits stay, anything else becomes a space.
pub open spec fn normalize_char(c: char) -> char {
    let ch = if c == 'ё' { 'е' } else { c };
    if char_is_alphabetic(ch) || is_decimal_digit(ch) {
        ch
    } else {
        ' '
    }
}

/// The normal form of a text: trimmed, lowercased, `ё` read as `е`, every character
/// that is neither a letter nor a digit read as a space, and the words that remain
/// joined by single spaces.
pub open spec fn normalized(s: Seq<char>) -> Seq<char> {
    normal_words(str_lowercase(trim(s)))
}

/// What remains of an already lowercased text `lower`: `ё` read as `е`, every
/// character that is neither a letter nor a digit read as a space, and the words
/// that remain joined by single spaces.
pub open spec fn normal_words(lower: Seq<char>) -> Seq<char> {
    join(words(lower.map_values(|c: char| normalize_char(c))), seq![' '])
}

fn normalize_one(c: char) -> (r: char)
    ensures
        r == normalize_char(c),
{
    let ch = if c == 'ё' { 'е' } else { c };
    if is_alphabetic(ch) || ('0' <= ch && ch <= '9') {
        ch
    } else {
        ' '
    }
}

/// The normal form of `s` (see `normalized`).
pub fn normalize(s: &str) -> (r: String)
    ensures
        r@ == normalized(s@),
        trim(s@).len() == 0 ==> r@.len() == 0,
{
    let chars = str_chars(s);
    let trimmed = trim_chars(&chars);
    let trimmed_str = string_from_chars(trimmed.as_slice());
    let lower = to_lowercase(trimmed_str.as_str());
    normal_words_of(lower.as_str())
}

/// The words of the lowercased text `lower` in normal form (see `normal_words`).
pub fn normal_words_of(lower: &str) -> (r: String)
    ensures
        r@ == normal_words(lower@),
        lower@.len() == 0 ==> r@.len() == 0,
{
    let lower_chars = str_chars(lower);
    let ghost mapped = lower_chars@.map_values(|c: char| normalize_char(c));
    let mut out: Vec<char> = Vec::new();
    let mut cur: Vec<char> = Vec::new();
    let ghost mut done: Seq<Seq<char>> = Seq::empty();
    let mut any_done = false;
    let mut i: usize = 0;
    while i < lower_chars.len()
        invariant
            i <= lower_chars.len(),
            mapped == lower_chars@.map_values(|c: char| normalize_char(c)),
            split_state(mapped.take(i as int)) == (done, cur@),
            out@ == join(done, seq![' ']),
            any_done == (done.len() > 0),
        decreases lower_chars.len() - i,
    {
        let m = normalize_one(lower_chars[i]);
        proof {
            assert(mapped.take(i + 1).drop_last() =~= mapped.take(i as int));
            assert(mapped.take(i + 1).last() == m);
        }
        if is_whitespace(m) {
            if cur.len() > 0 {
                proof {
                    lemma_join_push(done, seq![' '], cur@);
                }
                if any_done {
                    out.push(' ');
                }
                push_chars(&mut out, &cur);
                proof {
                    done = done.push(cur@);
                }
                any_done = true;
                cur = Vec::new();
            }
        } else {
            cur.push(m);
        }
        i += 1;
    }
    assert(mapped.take(i as int) =~= mapped);
    if cur.len() > 0 {
        proof {
            lemma_join_push(done, seq![' '], cur@);
        }
        if any_done {
            out.push(' ');
        }
        push_chars(&mut out, &cur);
    }
    string_from_chars(out.as_slice())
}


pub open spec fn min3(x: nat, y: nat, z: nat) -> nat {
    if x <= y && x <= z {
        x
    } else if y <= z {
        y
    } else {
        z
    }
}

/// The edit distance between the first `i` characters of `a` and the first `j`
/// characters of `b`: the least number of single-character insertions, deletions
/// and substitutions that turn one into the other.
pub open spec fn edit_distance(a: Seq<char>, b: Seq<char>, i: nat, j: nat) -> nat
    decreases i + j,
{
    if i == 0 {
        j
    } else if j == 0 {
        i
    } else {
        let cost: nat = if a[i - 1] == b[j - 1] { 0 } else { 1 };
        min3(
            edit_distance(a, b, (i - 1) as nat, j) + 1,
            edit_distance(a, b, i, (j - 1) as nat) + 1,
            edit_distance(a, b, (i - 1) as nat, (j - 1) as nat) + cost,
        )
    }
}

/// The Levenshtein distance between `a` and `b`.
pub open spec fn levenshtein_distance(a: Seq<char>, b: Seq<char>) -> nat {
    edit_distance(a, b, a.len(), b.len())
}

/// No prefix pair is further apart than the longer of the two prefixes.
pub proof fn lemma_edit_distance_bound(a: Seq<char>, b: Seq<char>, i: nat, j: nat)
    ensures
        edit_distance(a, b, i, j) <= if i <= j { j } else { i },
    decreases i + j,
{
    if i > 0 && j > 0 {
        lemma_edit_distance_bound(a, b, (i - 1) as nat, (j - 1) as nat);
    }
}

/// The distance of the first `i` and the first `j` characters of `a` and `b`,
/// computed row by row with two rows.
fn edit_distance_rows(a: &Vec<char>, b: &Vec<char>) -> (r: usize)
    ensures
        r == levenshtein_distance(a@, b@),
{
    let len_a = a.len();
    let len_b = b.len();
    if len_a == 0 {
        return len_b;
    }
    if len_b == 0 {
        return len_a;
    }
    let mut prev: Vec<usize> = Vec::new();
    prev.push(0);
    let mut j: usize = 0;
    while j < len_b
        invariant
            j <= len_b == b.len(),
            prev@.len() == j + 1,
            forall|k: int| 0 <= k <= j ==> #[trigger] prev@[k] == k,
        decreases len_b - j,
    {
        prev.push(j + 1);
        j += 1;
    }
    assert(prev@.len() == len_b + 1);
    assert forall|k: int| 0 <= k <= len_b implies #[trigger] prev@[k] == edit_distance(a@, b@, 0, k as nat) by {}
    let mut cur: Vec<usize> = prev.clone();
    let mut i: usize = 0;
    while i < len_a
        invariant
            i <= len_a,
            len_a == a.len(),
            len_b == b.len(),
            len_b < usize::MAX,
            prev@.len() == len_b + 1,
            cur@.len() == len_b + 1,
            forall|k: int| 0 <= k <= len_b ==> #[trigger] prev@[k] == edit_distance(a@, b@, i as nat, k as nat),
        decreases len_a - i,
    {
        let row = i + 1;
        cur.set(0, row);
        let mut j: usize = 1;
        while j <= len_b
            invariant
                row == i + 1,
                i < len_a,
                1 <= j <= len_b + 1,
                len_a == a.len(),
                len_b == b.len(),
                len_b < usize::MAX,
                prev@.len() == len_b + 1,
                cur@.len() == len_b + 1,
                forall|k: int| 0 <= k <= len_b ==> #[trigger] prev@[k] == edit_distance(a@, b@, i as nat, k as nat),
                forall|k: int| 0 <= k < j ==> #[trigger] cur@[k] == edit_distance(a@, b@, row as nat, k as nat),
            decreases len_b + 1 - j,
        {
            proof {
                lemma_edit_distance_bound(a@, b@, i as nat, j as nat);
                lemma_edit_distance_bound(a@, b@, row as nat, (j - 1) as nat);
                lemma_edit_distance_bound(a@, b@, i as nat, (j - 1) as nat);
            }
            let cost: usize = if a[i] == b[j - 1] { 0 } else { 1 };
            let del = prev[j];
            let ins = cur[j - 1];
            let sub = prev[j - 1] + cost;
            // the least of del + 1, ins + 1 and sub, computed without passing usize::MAX
            let mut best = sub;
            if del < best && best - del > 1 {
                best = del + 1;
            }
            if ins < best && best - ins > 1 {
                best = ins + 1;
            }
            cur.set(j, best);
            j += 1;
        }
        std::mem::swap(&mut prev, &mut cur);
        i += 1;
    }
    prev[len_b]
}

/// The Levenshtein distance between the characters of `a` and those of `b`.
pub fn levenshtein(a: &str, b: &str) -> (r: usize)
    ensures
        r == levenshtein_distance(a@, b@),
{
    let a_chars = str_chars(a);
    let b_chars = str_chars(b);
    edit_distance_rows(&a_chars, &b_chars)
}


/// Whether the normalised answer `nu` is taken as the text `v`: the normal form of
/// `v` is not empty and is either `nu` itself or, when it has at least eight
/// characters, one edit away from `nu`.
pub open spec fn variant_matches(nu: Seq<char>, v: Seq<char>) -> bool {
    let nv = normalized(v);
    nv.len() > 0 && (nu == nv || (nv.len() >= 8 && levenshtein_distance(nu, nv) <= 1))
}

/// Whether the answer `user` is taken as the expected text `correct` or as one of
/// the further accepted texts.
pub open spec fn text_answer_matches(user: Seq<char>, correct: Seq<char>, accept: Seq<Seq<char>>) -> bool {
    let nu = normalized(user);
    &&& nu.len() > 0
    &&& (variant_matches(nu, correct) || exists|k: int|
        0 <= k < accept.len() && variant_matches(nu, #[trigger] accept[k]))
}

/// Whether `user` answers the question `test`: only a text question can be
/// answered by a text.
pub open spec fn answer_text_matches(user: Seq<char>, test: CfgTest) -> bool {
    match test.correct {
        AnswerType::TextAnswer(t) => text_answer_matches(user, t@, test.accept_texts()),
        _ => false,
    }
}

fn variant_check(nu: &String, v: &str) -> (r: bool)
    ensures
        r == variant_matches(nu@, v@),
{
    let nv = normalize(v);
    if nv.as_str().unicode_len() == 0 {
        return false;
    }
    if *nu == nv {
        return true;
    }
    nv.as_str().unicode_len() >= 8 && levenshtein(nu.as_str(), nv.as_str()) <= 1
}

/// Whether `user` is taken as the text `correct` or as one of `accept`.
pub fn matches_text_answer(user: &str, correct: &str, accept: &Vec<String>) -> (r: bool)
    ensures
        r == text_answer_matches(user@, correct@, accept@.map_values(|s: String| s@)),
{
    let ghost acc = accept@.map_values(|s: String| s@);
    let nu = normalize(user);
    if nu.as_str().unicode_len() == 0 {
        return false;
    }
    if variant_check(&nu, correct) {
        return true;
    }
    let mut k: usize = 0;
    while k < accept.len()
        invariant
            k <= accept.len(),
            acc == accept@.map_values(|s: String| s@),
            nu@ == normalized(user@),
            nu@.len() > 0,
            !variant_matches(nu@, correct@),
            forall|m: int| 0 <= m < k ==> !variant_matches(nu@, #[trigger] acc[m]),
        decreases accept.len() - k,
    {
        if variant_check(&nu, accept[k].as_str()) {
            assert(acc[k as int] == accept@[k as int]@);
            assert(variant_matches(nu@, acc[k as int]));
            return true;
        }
        assert(acc[k as int] == accept@[k as int]@);
        k += 1;
    }
    false
}

/// Whether the typed answer `user` answers the question `test` (see `answer_text_matches`).
pub fn match_text(user: &str, test: &CfgTest) -> (r: bool)
    ensures
        r == answer_text_matches(user@, *test),
{
    let nu = normalize(user);
    if nu.as_str().unicode_len() == 0 {
        return false;
    }
    match &test.correct {
        AnswerType::TextAnswer(text) => matches_text_answer(user, text.as_str(), &test.accept),
        _ => false,
    }
}

/// A text is at distance zero from itself.
pub proof fn lemma_levenshtein_identity(a: Seq<char>)
    ensures
        levenshtein_distance(a, a) == 0,
{
    lemma_edit_distance_diagonal(a, a.len());
}

proof fn lemma_edit_distance_diagonal(a: Seq<char>, i: nat)
    ensures
        edit_distance(a, a, i, i) == 0,
    decreases i,
{
    if i > 0 {
        lemma_edit_distance_diagonal(a, (i - 1) as nat);
    }
}

/// The distance between a text and the empty text is the length of the text,
/// either way round.
pub proof fn lemma_levenshtein_empty(a: Seq<char>)
    ensures
        levenshtein_distance(a, Seq::empty()) == a.len(),
        levenshtein_distance(Seq::empty(), a) == a.len(),
{
}

/// The distance does not depend on the order of the two texts.
pub proof fn lemma_levenshtein_symmetric(a: Seq<char>, b: Seq<char>)
    ensures
        levenshtein_distance(a, b) == levenshtein_distance(b, a),
{
    lemma_edit_distance_symmetric(a, b, a.len(), b.len());
}

proof fn lemma_edit_distance_symmetric(a: Seq<char>, b: Seq<char>, i: nat, j: nat)
    ensures
        edit_distance(a, b, i, j) == edit_distance(b, a, j, i),
    decreases i + j,
{
    if i > 0 && j > 0 {
        lemma_edit_distance_symmetric(a, b, (i - 1) as nat, j);
        lemma_edit_distance_symmetric(a, b, i, (j - 1) as nat);
        lemma_edit_distance_symmetric(a, b, (i - 1) as nat, (j - 1) as nat);
    }
}

/// Only equal texts are at distance zero.
pub proof fn lemma_levenshtein_zero_means_equal(a: Seq<char>, b: Seq<char>)
    ensures
        levenshtein_distance(a, b) == 0 <==> a == b,
{
    if a == b {
        lemma_levenshtein_identity(a);
    }
    if levenshtein_distance(a, b) == 0 {
        lemma_edit_distance_zero(a, b, a.len(), b.len());
        assert(a.take(a.len() as int) =~= a);
        assert(b.take(b.len() as int) =~= b);
    }
}

proof fn lemma_edit_distance_zero(a: Seq<char>, b: Seq<char>, i: nat, j: nat)
    requires
        i <= a.len(),
        j <= b.len(),
        edit_distance(a, b, i, j) == 0,
    ensures
        i == j,
        a.take(i as int) == b.take(j as int),
    decreases i + j,
{
    if i > 0 && j > 0 {
        lemma_edit_distance_zero(a, b, (i - 1) as nat, (j - 1) as nat);
        assert(a.take(i as int) =~= a.take(i - 1).push(a[i - 1]));
        assert(b.take(j as int) =~= b.take(j - 1).push(b[j - 1]));
    } else {
        assert(a.take(0) =~= b.take(0));
    }
}

/// No two texts are further apart than the longer of them is long.
pub proof fn lemma_levenshtein_at_most_longer(a: Seq<char>, b: Seq<char>)
    ensures
        levenshtein_distance(a, b) <= if a.len() <= b.len() { b.len() } else { a.len() },
{
    lemma_edit_distance_bound(a, b, a.len(), b.len());
}

/// No two texts are closer than the difference of their lengths.
pub proof fn lemma_levenshtein_at_least_length_gap(a: Seq<char>, b: Seq<char>)
    ensures
        levenshtein_distance(a, b) >= if a.len() <= b.len() { b.len() - a.len() } else { a.len() - b.len() },
{
    lemma_edit_distance_gap(a, b, a.len(), b.len());
}

proof fn lemma_edit_distance_gap(a: Seq<char>, b: Seq<char>, i: nat, j: nat)
    ensures
        edit_distance(a, b, i, j) >= i - j,
        edit_distance(a, b, i, j) >= j - i,
    decreases i + j,
{
    if i > 0 && j > 0 {
        lemma_edit_distance_gap(a, b, (i - 1) as nat, j);
        lemma_edit_distance_gap(a, b, i, (j - 1) as nat);
        lemma_edit_distance_gap(a, b, (i - 1) as nat, (j - 1) as nat);
    }
}

/// Whether every word of `ws` is non-empty and made of characters that are no
/// whitespace and that `normalize_char` keeps as they are.
pub open spec fn normal_word_list(ws: Seq<Seq<char>>) -> bool {
    forall|i: int|
        0 <= i < ws.len() ==> #[trigger] ws[i].len() > 0 && forall|k: int|
            0 <= k < ws[i].len() ==> !char_is_whitespace(#[trigger] ws[i][k]) && normalize_char(ws[i][k])
                == ws[i][k]
}

proof fn lemma_split_state_normal(s: Seq<char>)
    requires
        forall|k: int| 0 <= k < s.len() ==> normalize_char(#[trigger] s[k]) == s[k],
    ensures
        normal_word_list(split_state(s).0),
        forall|k: int|
            0 <= k < split_state(s).1.len() ==> !char_is_whitespace(#[trigger] split_state(s).1[k])
                && normalize_char(split_state(s).1[k]) == split_state(s).1[k],
    decreases s.len(),
{
    if s.len() > 0 {
        let pre = s.drop_last();
        assert forall|k: int| 0 <= k < pre.len() implies normalize_char(#[trigger] pre[k]) == pre[k] by {
            assert(pre[k] == s[k]);
        }
        lemma_split_state_normal(pre);
        let (done, cur) = split_state(pre);
        let c = s.last();
        assert(normalize_char(s[s.len() - 1]) == s[s.len() - 1]);
        if char_is_whitespace(c) {
            if cur.len() > 0 {
                let d2 = done.push(cur);
                assert forall|i: int| 0 <= i < d2.len() implies #[trigger] d2[i].len() > 0 && forall|k: int|
                    0 <= k < d2[i].len() ==> !char_is_whitespace(#[trigger] d2[i][k]) && normalize_char(d2[i][k])
                        == d2[i][k] by {
                    if i < done.len() {
                        assert(d2[i] == done[i]);
                    }
                }
            }
        } else {
            let c2 = cur.push(c);
            assert forall|k: int| 0 <= k < c2.len() implies !char_is_whitespace(#[trigger] c2[k])
                && normalize_char(c2[k]) == c2[k] by {
                if k < cur.len() {
                    assert(c2[k] == cur[k]);
                }
            }
        }
    }
}

proof fn lemma_split_state_append(a: Seq<char>, b: Seq<char>)
    requires
        forall|k: int| 0 <= k < b.len() ==> !char_is_whitespace(#[trigger] b[k]),
    ensures
        split_state(a + b) == (split_state(a).0, split_state(a).1 + b),
    decreases b.len(),
{
    if b.len() == 0 {
        assert(a + b =~= a);
        assert(split_state(a).1 + b =~= split_state(a).1);
    } else {
        let b2 = b.drop_last();
        lemma_split_state_append(a, b2);
        assert((a + b).drop_last() =~= a + b2);
        assert((a + b).last() == b[b.len() - 1]);
        assert(split_state(a).1 + b2 + seq![b.last()] =~= split_state(a).1 + b);
        assert((split_state(a).1 + b2).push(b.last()) =~= split_state(a).1 + b);
    }
}

proof fn lemma_split_state_of_join(ws: Seq<Seq<char>>)
    requires
        ws.len() > 0,
        normal_word_list(ws),
    ensures
        split_state(join(ws, seq![' '])) == (ws.drop_last(), ws.last()),
    decreases ws.len(),
{
    let w = ws.last();
    assert(ws[ws.len() - 1] == w);
    assert forall|k: int| 0 <= k < w.len() implies !char_is_whitespace(#[trigger] w[k]) by {
        assert(!char_is_whitespace(ws[ws.len() - 1][k]));
    }
    if ws.len() == 1 {
        lemma_split_state_append(Seq::empty(), w);
        assert(Seq::<char>::empty() + w =~= w);
        assert(ws.drop_last() =~= Seq::<Seq<char>>::empty());
        assert(Seq::<char>::empty() + w =~= w);
    } else {
        let v = ws.drop_last();
        assert forall|i: int| 0 <= i < v.len() implies #[trigger] v[i].len() > 0 && forall|k: int|
            0 <= k < v[i].len() ==> !char_is_whitespace(#[trigger] v[i][k]) && normalize_char(v[i][k]) == v[i][k] by {
            assert(v[i] == ws[i]);
        }
        lemma_split_state_of_join(v);
        let jv = join(v, seq![' ']);
        assert(v[v.len() - 1].len() > 0);
        assert(jv + seq![' '] =~= jv.push(' '));
        assert((jv + seq![' ']).drop_last() =~= jv);
        assert(split_state(jv + seq![' ']) == (v.drop_last().push(v.last()), Seq::<char>::empty()));
        assert(v.drop_last().push(v.last()) =~= v);
        lemma_split_state_append(jv + seq![' '], w);
        assert(Seq::<char>::empty() + w =~= w);
    }
}

/// Normalising the words of a lowercased text a second time changes nothing:
/// what `normal_words` gives has no `ё`, no character other than letters, digits
/// and single spaces between words, and no space at either end.
pub proof fn lemma_normal_words_idempotent(lower: Seq<char>)
    ensures
        normal_words(normal_words(lower)) == normal_words(lower),
{
    let m = lower.map_values(|c: char| normalize_char(c));
    assert forall|k: int| 0 <= k < m.len() implies normalize_char(#[trigger] m[k]) == m[k] by {
        assert(m[k] == normalize_char(lower[k]));
    }
    lemma_split_state_normal(m);
    let ws = words(m);
    let (done, cur) = split_state(m);
    assert(normal_word_list(ws)) by {
        if cur.len() > 0 {
            assert forall|i: int| 0 <= i < ws.len() implies #[trigger] ws[i].len() > 0 && forall|k: int|
                0 <= k < ws[i].len() ==> !char_is_whitespace(#[trigger] ws[i][k]) && normalize_char(ws[i][k])
                    == ws[i][k] by {
                if i < done.len() {
                    assert(ws[i] == done[i]);
                }
            }
        }
    }
    let y = join(ws, seq![' ']);
    lemma_join_normal_fixed(ws);
    assert(y.map_values(|c: char| normalize_char(c)) =~= y);
    if ws.len() > 0 {
        lemma_split_state_of_join(ws);
        assert(ws.drop_last().push(ws.last()) =~= ws);
    } else {
        assert(y =~= Seq::<char>::empty());
    }
}

proof fn lemma_join_normal_fixed(ws: Seq<Seq<char>>)
    requires
        normal_word_list(ws),
    ensures
        forall|k: int| 0 <= k < join(ws, seq![' ']).len() ==> normalize_char(#[trigger] join(ws, seq![' '])[k])
            == join(ws, seq![' '])[k],
    decreases ws.len(),
{
    if ws.len() > 0 {
        let v = ws.drop_last();
        let w = ws.last();
        assert forall|i: int| 0 <= i < v.len() implies #[trigger] v[i].len() > 0 && forall|k: int|
            0 <= k < v[i].len() ==> !char_is_whitespace(#[trigger] v[i][k]) && normalize_char(v[i][k]) == v[i][k] by {
            assert(v[i] == ws[i]);
        }
        lemma_join_normal_fixed(v);
        assert(ws[ws.len() - 1] == w);
        let j = join(ws, seq![' ']);
        assert forall|k: int| 0 <= k < j.len() implies normalize_char(#[trigger] j[k]) == j[k] by {
            if ws.len() == 1 {
                assert(normalize_char(ws[0][k]) == ws[0][k]);
            } else {
                let jv = join(v, seq![' ']);
                assert(j == jv + seq![' '] + w);
                if k < jv.len() {
                    assert(j[k] == jv[k]);
                } else if k == jv.len() {
                    assert(j[k] == ' ');
                } else {
                    assert(j[k] == w[k - jv.len() - 1]);
                    assert(normalize_char(ws[ws.len() - 1][k - jv.len() - 1]) == ws[ws.len() - 1][k - jv.len() - 1]);
                }
            }
        }
    }
}

proof fn lemma_join_ends(ws: Seq<Seq<char>>)
    requires
        ws.len() > 0,
        normal_word_list(ws),
    ensures
        join(ws, seq![' ']).len() > 0,
        join(ws, seq![' '])[0] == ws[0][0],
        join(ws, seq![' ']).last() == ws.last().last(),
    decreases ws.len(),
{
    assert(ws[0].len() > 0);
    assert(ws[ws.len() - 1].len() > 0);
    if ws.len() > 1 {
        let v = ws.drop_last();
        assert forall|i: int| 0 <= i < v.len() implies #[trigger] v[i].len() > 0 && forall|k: int|
            0 <= k < v[i].len() ==> !char_is_whitespace(#[trigger] v[i][k]) && normalize_char(v[i][k]) == v[i][k] by {
            assert(v[i] == ws[i]);
        }
        lemma_join_ends(v);
        assert(v[0] == ws[0]);
    }
}

/// The normal form has no whitespace at either end, and normalising it again
/// gives the words of its lowercase form. What std's lowercasing does to text
/// that is already lowercase is not stated here, so that normalising twice gives
/// the same as once is not proved beyond this.
pub proof fn lemma_normalize_twice(s: Seq<char>)
    ensures
        trim(normalized(s)) == normalized(s),
        normalized(normalized(s)) == normal_words(str_lowercase(normalized(s))),
        normal_words(normalized(s)) == normalized(s),
{
    let lower = str_lowercase(trim(s));
    lemma_normal_words_idempotent(lower);
    let m = lower.map_values(|c: char| normalize_char(c));
    assert forall|k: int| 0 <= k < m.len() implies normalize_char(#[trigger] m[k]) == m[k] by {
        assert(m[k] == normalize_char(lower[k]));
    }
    lemma_split_state_normal(m);
    let ws = words(m);
    let (done, cur) = split_state(m);
    assert(normal_word_list(ws)) by {
        if cur.len() > 0 {
            assert forall|i: int| 0 <= i < ws.len() implies #[trigger] ws[i].len() > 0 && forall|k: int|
                0 <= k < ws[i].len() ==> !char_is_whitespace(#[trigger] ws[i][k]) && normalize_char(ws[i][k])
                    == ws[i][k] by {
                if i < done.len() {
                    assert(ws[i] == done[i]);
                }
            }
        }
    }
    let n = normalized(s);
    assert(n == join(ws, seq![' ']));
    if ws.len() > 0 {
        lemma_join_ends(ws);
        assert(ws[0].len() > 0);
        assert(!char_is_whitespace(ws[0][0]));
        let w = ws[ws.len() - 1];
        assert(ws[ws.len() - 1].len() > 0);
        assert(!char_is_whitespace(w[w.len() - 1]));
        assert(trim_start(n) == n);
        assert(trim_end(n) == n);
    } else {
        assert(n =~= Seq::<char>::empty());
    }
}

/// An answer whose normal form is that of the expected text, and not empty, is taken.
pub proof fn lemma_same_normal_form_matches(user: Seq<char>, correct: Seq<char>, accept: Seq<Seq<char>>)
    requires
        normalized(user) == normalized(correct),
        normalized(user).len() > 0,
    ensures
        text_answer_matches(user, correct, accept),
{
}

/// Each further accepted text is itself taken, when its normal form is not empty.
pub proof fn lemma_accepted_text_matches(correct: Seq<char>, accept: Seq<Seq<char>>, k: int)
    requires
        0 <= k < accept.len(),
        normalized(accept[k]).len() > 0,
    ensures
        text_answer_matches(accept[k], correct, accept),
{
    assert(variant_matches(normalized(accept[k]), accept[k]));
}

/// An answer whose normal form is empty is never taken.
pub proof fn lemma_empty_answer_never_matches(user: Seq<char>, correct: Seq<char>, accept: Seq<Seq<char>>)
    requires
        normalized(user).len() == 0,
    ensures
        !text_answer_matches(user, correct, accept),
{
}

/// A short accepted form (under eight characters once normalised) is only taken
/// exactly: an answer that normalises to anything else does not match it.
pub proof fn lemma_short_text_needs_exact_answer(nu: Seq<char>, v: Seq<char>)
    requires
        normalized(v).len() < 8,
        nu != normalized(v),
    ensures
        !variant_matches(nu, v),
{
}

} // verus!
