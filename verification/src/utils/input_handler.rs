//! Reading answers line by line: what each typed line means, and the prompting
//! sessions that ask again until a line is acceptable.
use vstd::prelude::*;
use crate::text::{
    lemma_number_has_no_comma, lemma_split_on_without_separator, lemma_trim_idempotent,
    copy_range, decimal, decimal_string, parse_usize, split_chars, split_on, str_chars, string_from_chars,
    trim, trim_chars, usize_from_text, IntErrorKind,
};
use crate::types::console_operation_type::{operation_of, ConsoleOperation};

verus! {

/// The lines of `s` as a line reader hands them out: each line keeps its `\n`,
/// and the text after the last `\n`, if any, is a last line without one.
pub open spec fn text_lines(s: Seq<char>) -> Seq<Seq<char>> {
    let p = split_on(s, '\n');
    p.drop_last().map_values(|x: Seq<char>| x.push('\n')) + if p.last().len() > 0 {
        seq![p.last()]
    } else {
        Seq::empty()
    }
}

/// Text to be read line by line, held in memory.
pub struct TextInput {
    lines: Vec<String>,
    pos: usize,
}

impl View for TextInput {
    type V = Seq<Seq<char>>;

    /// The lines not read yet.
    closed spec fn view(&self) -> Seq<Seq<char>> {
        self.lines@.map_values(|s: String| s@).skip(self.pos as int)
    }
}

impl TextInput {
    #[verifier::type_invariant]
    spec fn inv(&self) -> bool {
        self.pos <= self.lines@.len()
    }

    /// A reader of the lines of `text`.
    pub fn new(text: &str) -> (r: TextInput)
        ensures
            r@ == text_lines(text@),
    {
        let chars = str_chars(text);
        let pieces = split_chars(&chars, '\n');
        let ghost p = pieces@.map_values(|x: Vec<char>| x@);
        assert(p == split_on(text@, '\n'));
        assert(p.len() >= 1);
        let mut lines: Vec<String> = Vec::new();
        let mut k: usize = 0;
        while k + 1 < pieces.len()
            invariant
                pieces.len() >= 1,
                k + 1 <= pieces.len(),
                p == pieces@.map_values(|x: Vec<char>| x@),
                lines@.map_values(|s: String| s@) == p.take(k as int).map_values(|x: Seq<char>| x.push('\n')),
            decreases pieces.len() - k,
        {
            let mut line = copy_range(&pieces[k], 0, pieces[k].len());
            assert(line@ =~= p[k as int]);
            line.push('\n');
            let s_new = string_from_chars(line.as_slice());
            let ghost before = lines@;
            lines.push(s_new);
            assert(lines@.map_values(|s: String| s@) =~= before.map_values(|s: String| s@).push(s_new@));
            assert(p.take(k + 1) =~= p.take(k as int).push(p[k as int]));
            assert(p.take(k + 1).map_values(|x: Seq<char>| x.push('\n')) =~= p.take(k as int).map_values(
                |x: Seq<char>| x.push('\n'),
            ).push(p[k as int].push('\n')));
            k += 1;
        }
        assert(p.take(k as int) =~= p.drop_last());
        let last = &pieces[k];
        let ghost before = lines@.map_values(|s: String| s@);
        if last.len() > 0 {
            lines.push(string_from_chars(last.as_slice()));
            assert(lines@.map_values(|s: String| s@) =~= before + seq![p.last()]);
        } else {
            assert(lines@.map_values(|s: String| s@) =~= before + Seq::<Seq<char>>::empty());
        }
        let r = TextInput { lines, pos: 0 };
        assert(r@ =~= text_lines(text@));
        r
    }

    /// The next line, with its `\n`, or `None` once all text has been read.
    pub fn read_line(&mut self) -> (r: Option<String>)
        ensures
            old(self)@.len() == 0 ==> r is None && final(self)@ == old(self)@,
            old(self)@.len() > 0 ==> (r matches Some(line) && line@ == old(self)@[0]
                && final(self)@ == old(self)@.drop_first()),
    {
        proof {
            use_type_invariant(&*self);
        }
        if self.pos < self.lines.len() {
            let line = self.lines[self.pos].clone();
            self.pos = self.pos + 1;
            assert(final(self)@ =~= old(self)@.drop_first());
            Some(line)
        } else {
            None
        }
    }
}

/// `s` without the `\r` and `\n` characters at its end.
pub open spec fn strip_line_end(s: Seq<char>) -> Seq<char>
    decreases s.len(),
{
    if s.len() > 0 && (s.last() == '\r' || s.last() == '\n') {
        strip_line_end(s.drop_last())
    } else {
        s
    }
}

/// What a line read from the console gives: `None` is the end of the input.
/// The end of the input and the quit command both stop; any other line is
/// handed on without its line end.
pub open spec fn line_reply(raw: Option<Seq<char>>) -> (Seq<char>, bool) {
    match raw {
        None => (Seq::empty(), true),
        Some(l) => {
            let t = strip_line_end(l);
            if operation_of(t) == ConsoleOperation::Quit {
                (Seq::empty(), true)
            } else {
                (t, false)
            }
        },
    }
}

/// What the line `raw` read from the console gives (see `line_reply`).
pub fn reply_to_line(raw: Option<&str>) -> (r: (String, bool))
    ensures
        (r.0@, r.1) == line_reply(match raw {
            Some(s) => Some(s@),
            None => None,
        }),
{
    match raw {
        None => (String::new(), true),
        Some(s) => {
            let v = str_chars(s);
            let mut n = v.len();
            assert(v@.take(n as int) =~= v@);
            while n > 0 && (v[n - 1] == '\r' || v[n - 1] == '\n')
                invariant
                    n <= v.len(),
                    strip_line_end(v@) == strip_line_end(v@.take(n as int)),
                decreases n,
            {
                assert(v@.take(n as int).drop_last() =~= v@.take(n - 1));
                n -= 1;
            }
            assert(v@.take(n as int) =~= v@.subrange(0, n as int));
            let t = string_from_chars(&v.as_slice()[0..n]);
            if ConsoleOperation::from_input(t.as_str()) == ConsoleOperation::Quit {
                (String::new(), true)
            } else {
                (t, false)
            }
        },
    }
}

/// Reads one line of `input` and tells what it gives (see `line_reply`). The
/// output is not written to.
pub fn ask_line_from(input: &mut TextInput, _output: &mut String) -> (r: (String, bool))
    ensures
        final(_output)@ == old(_output)@,
        old(input)@.len() == 0 ==> (r.0@, r.1) == line_reply(None) && final(input)@ == old(input)@,
        old(input)@.len() > 0 ==> (r.0@, r.1) == line_reply(Some(old(input)@[0])) && final(input)@
            == old(input)@.drop_first(),
{
    let raw = input.read_line();
    match raw {
        Some(line) => reply_to_line(Some(line.as_str())),
        None => reply_to_line(None),
    }
}

/// The prompt for picking one of `max` options.
pub open spec fn single_prompt(max: usize) -> Seq<char> {
    "Ваш ответ (1-"@ + decimal(max as nat) + "): "@
}

/// The message after a line that picks no option.
pub open spec fn single_retry(max: usize) -> Seq<char> {
    "Введите число от 1 до "@ + decimal(max as nat) + " или !пропуск.\n"@
}

/// What a line gives when one of `max` options is to be picked: `Some((i, stop))`
/// ends the question with the 0-based option `i` (-1 for a skip, 0 with `stop`
/// set for the end of the input or quitting); `None` asks again.
pub open spec fn single_choice_decision(line: Seq<char>, stop: bool, max: usize) -> Option<(i32, bool)> {
    if stop {
        Some((0i32, true))
    } else {
        match operation_of(line) {
            ConsoleOperation::Skip => Some((-1i32, false)),
            ConsoleOperation::Quit => Some((0i32, true)),
            _ => match usize_from_text(trim(line)) {
                Ok(n) => if 1 <= n && n <= max {
                    Some(((n - 1) as i32, false))
                } else {
                    None
                },
                Err(_) => None,
            },
        }
    }
}

/// The prompt for picking one of `max` options.
pub fn single_choice_prompt(max: usize) -> (r: String)
    ensures
        r@ == single_prompt(max),
{
    let mut r = String::from_str("Ваш ответ (1-");
    r.append(decimal_string(max).as_str());
    r.append("): ");
    r
}

/// The message after a line that picks no option.
pub fn single_choice_retry(max: usize) -> (r: String)
    ensures
        r@ == single_retry(max),
{
    let mut r = String::from_str("Введите число от 1 до ");
    r.append(decimal_string(max).as_str());
    r.append(" или !пропуск.\n");
    r
}

/// What the line `line` gives when one of `max` options is to be picked (see
/// `single_choice_decision`).
pub fn decide_single_choice(line: &str, stop: bool, max: usize) -> (r: Option<(i32, bool)>)
    requires
        max <= i32::MAX,
    ensures
        r == single_choice_decision(line@, stop, max),
{
    if stop {
        return Some((0, true));
    }
    match ConsoleOperation::from_input(line) {
        ConsoleOperation::Skip => Some((-1, false)),
        ConsoleOperation::Quit => Some((0, true)),
        _ => {
            let t = trim_chars(&str_chars(line));
            match parse_usize(&t) {
                Ok(n) => {
                    if 1 <= n && n <= max {
                        Some(((n - 1) as i32, false))
                    } else {
                        None
                    }
                },
                Err(_) => None,
            }
        },
    }
}

/// Prompting for one of `max` options over the lines `lines`: the choice, whether
/// to stop, what is written, and how many lines are read.
pub open spec fn single_choice_session(lines: Seq<Seq<char>>, max: usize) -> (i32, bool, Seq<char>, nat)
    decreases lines.len(),
{
    if lines.len() == 0 {
        (0i32, true, single_prompt(max), 0)
    } else {
        let (line, stop) = line_reply(Some(lines[0]));
        match single_choice_decision(line, stop, max) {
            Some((c, s)) => (c, s, single_prompt(max), 1),
            None => {
                let (c, s, out, n) = single_choice_session(lines.drop_first(), max);
                (c, s, single_prompt(max) + single_retry(max) + out, n + 1)
            },
        }
    }
}

/// Asks for one of `max` options until a line of `input` gives an answer (see
/// `single_choice_session`); prompts and messages go to `output`.
pub fn ask_single_choice_from(input: &mut TextInput, output: &mut String, max: usize) -> (r: (i32, bool))
    requires
        max <= i32::MAX,
    ensures
        ({
            let (c, s, out, n) = single_choice_session(old(input)@, max);
            &&& r == (c, s)
            &&& final(output)@ == old(output)@ + out
            &&& n <= old(input)@.len()
            &&& final(input)@ == old(input)@.skip(n as int)
        }),
{
    let ghost total = single_choice_session(input@, max);
    let ghost start = input@;
    let ghost mut written: Seq<char> = Seq::empty();
    let ghost mut used: nat = 0;
    let prompt = single_choice_prompt(max);
    let retry = single_choice_retry(max);
    loop
        invariant
            max <= i32::MAX,
            prompt@ == single_prompt(max),
            retry@ == single_retry(max),
            total == single_choice_session(start, max),
            start == old(input)@,
            used <= start.len(),
            input@ == start.skip(used as int),
            output@ == old(output)@ + written,
            ({
                let (c, s, out, n) = single_choice_session(input@, max);
                total == (c, s, written + out, used + n)
            }),
        decreases input@.len(),
    {
        output.append(prompt.as_str());
        let ghost lines = input@;
        let (line, stop) = ask_line_from(input, output);
        let decision = decide_single_choice(line.as_str(), stop, max);
        match decision {
            Some(res) => {
                proof {
                    let (c, s, out, n) = single_choice_session(lines, max);
                    assert(res == (c, s));
                    assert(out == prompt@);
                    if lines.len() > 0 {
                        assert(start.skip(used as int).drop_first() =~= start.skip(used as int + 1));
                        assert(input@ == start.skip((used + n) as int));
                    } else {
                        assert(input@ == start.skip((used + n) as int));
                    }
                    assert(old(output)@ + written + prompt@ =~= old(output)@ + (written + prompt@));
                    assert(output@ == old(output)@ + total.2);
                    assert(used + n <= start.len());
                }
                return res;
            },
            None => {
                output.append(retry.as_str());
                proof {
                    assert(old(output)@ + written + prompt@ + retry@ =~= old(output)@ + (written + prompt@ + retry@));
                    assert(lines.len() > 0);
                    assert(start.skip(used as int).drop_first() =~= start.skip(used as int + 1));
                    assert(written + (single_prompt(max) + single_retry(max) + single_choice_session(input@, max).2)
                        =~= (written + prompt@ + retry@) + single_choice_session(input@, max).2);
                    written = written + prompt@ + retry@;
                    used = used + 1;
                }
            },
        }
    }
}

/// The prompt for picking several of `max` options.
pub open spec fn multiple_prompt(max: usize) -> Seq<char> {
    "Ваши ответы (1-"@ + decimal(max as nat) + " через запятую): "@
}

/// The message after a line that picks no valid set of options.
pub open spec fn multiple_retry(max: usize) -> Seq<char> {
    "Введите корректные номера от 1 до "@ + decimal(max as nat) + " через запятую или !пропуск.\n"@
}

/// The 0-based options named by the comma-separated pieces `pieces`: empty
/// pieces are left out, a number named twice counts once, and a piece that is no
/// number from 1 to `max` makes the whole list invalid (`None`).
pub open spec fn choice_list(pieces: Seq<Seq<char>>, max: usize) -> Option<Seq<usize>>
    decreases pieces.len(),
{
    if pieces.len() == 0 {
        Some(Seq::empty())
    } else {
        match choice_list(pieces.drop_last(), max) {
            None => None,
            Some(ids) => {
                let t = trim(pieces.last());
                if t.len() == 0 {
                    Some(ids)
                } else {
                    match usize_from_text(t) {
                        Ok(n) => if 1 <= n && n <= max {
                            if ids.contains((n - 1) as usize) {
                                Some(ids)
                            } else {
                                Some(ids.push((n - 1) as usize))
                            }
                        } else {
                            None
                        },
                        Err(_) => None,
                    }
                }
            },
        }
    }
}

/// What a line gives when several of `max` options are to be picked:
/// `Some((ids, stop))` ends the question with the 0-based options `ids` (none for
/// a skip, or, with `stop` set, for the end of the input or quitting); `None`
/// asks again. A single number is one option; otherwise the line is a
/// comma-separated list (see `choice_list`) that must name at least one option.
pub open spec fn multiple_choice_decision(line: Seq<char>, stop: bool, max: usize) -> Option<(Seq<usize>, bool)> {
    if stop {
        Some((Seq::empty(), true))
    } else {
        match operation_of(line) {
            ConsoleOperation::Skip => Some((Seq::empty(), false)),
            ConsoleOperation::Quit => Some((Seq::empty(), true)),
            _ => {
                let t = trim(line);
                let single = match usize_from_text(t) {
                    Ok(n) => 1 <= n && n <= max,
                    Err(_) => false,
                };
                if single {
                    Some((seq![(usize_from_text(t)->Ok_0 - 1) as usize], false))
                } else {
                    match choice_list(split_on(t, ','), max) {
                        Some(ids) => if ids.len() > 0 {
                            Some((ids, false))
                        } else {
                            None
                        },
                        None => None,
                    }
                }
            },
        }
    }
}

/// The prompt for picking several of `max` options.
pub fn multiple_choice_prompt(max: usize) -> (r: String)
    ensures
        r@ == multiple_prompt(max),
{
    let mut r = String::from_str("Ваши ответы (1-");
    r.append(decimal_string(max).as_str());
    r.append(" через запятую): ");
    r
}

/// The message after a line that picks no valid set of options.
pub fn multiple_choice_retry(max: usize) -> (r: String)
    ensures
        r@ == multiple_retry(max),
{
    let mut r = String::from_str("Введите корректные номера от 1 до ");
    r.append(decimal_string(max).as_str());
    r.append(" через запятую или !пропуск.\n");
    r
}

fn contains_index(v: &Vec<usize>, x: usize) -> (r: bool)
    ensures
        r == v@.contains(x),
{
    let mut k: usize = 0;
    while k < v.len()
        invariant
            k <= v.len(),
            forall|m: int| 0 <= m < k ==> v@[m] != x,
        decreases v.len() - k,
    {
        if v[k] == x {
            return true;
        }
        k += 1;
    }
    false
}

/// The options named by the pieces `pieces` (see `choice_list`).
fn read_choice_list(pieces: &Vec<Vec<char>>, max: usize) -> (r: Option<Vec<usize>>)
    ensures
        match r {
            Some(ids) => choice_list(pieces@.map_values(|p: Vec<char>| p@), max) == Some(ids@),
            None => choice_list(pieces@.map_values(|p: Vec<char>| p@), max) is None,
        },
{
    let ghost ps = pieces@.map_values(|p: Vec<char>| p@);
    let mut ids: Vec<usize> = Vec::new();
    let mut k: usize = 0;
    while k < pieces.len()
        invariant
            k <= pieces.len(),
            ps == pieces@.map_values(|p: Vec<char>| p@),
            choice_list(ps.take(k as int), max) == Some(ids@),
        decreases pieces.len() - k,
    {
        assert(ps.take(k + 1).drop_last() =~= ps.take(k as int));
        assert(ps.take(k + 1).last() == pieces@[k as int]@);
        let t = trim_chars(&pieces[k]);
        if t.len() != 0 {
            match parse_usize(&t) {
                Ok(n) => {
                    if 1 <= n && n <= max {
                        if !contains_index(&ids, n - 1) {
                            ids.push(n - 1);
                        }
                    } else {
                        proof {
                            lemma_choice_list_invalid(ps, k as int + 1, max);
                        }
                        return None;
                    }
                },
                Err(_) => {
                    proof {
                        lemma_choice_list_invalid(ps, k as int + 1, max);
                    }
                    return None;
                },
            }
        }
        k += 1;
    }
    assert(ps.take(k as int) =~= ps);
    Some(ids)
}

/// Whether the piece `p` of a list of picks is acceptable: blank, or a number
/// from 1 to `max`.
pub open spec fn piece_is_choice(p: Seq<char>, max: usize) -> bool {
    let t = trim(p);
    t.len() == 0 || match usize_from_text(t) {
        Ok(n) => 1 <= n && n <= max,
        Err(_) => false,
    }
}

/// Whether the piece `p` names the 0-based option `x`, that is, reads as `x + 1`.
pub open spec fn piece_names(p: Seq<char>, x: usize) -> bool {
    let t = trim(p);
    t.len() > 0 && usize_from_text(t) == Ok::<nat, IntErrorKind>((x + 1) as nat)
}

/// A list of picks is accepted exactly when each of its pieces is blank or a
/// number from 1 to `max`. It then gives each named option once, 0-based, in
/// the order in which the options are first named, and nothing else.
pub proof fn lemma_choice_list_rule(pieces: Seq<Seq<char>>, max: usize)
    ensures
        (choice_list(pieces, max) is Some) <==> forall|k: int|
            0 <= k < pieces.len() ==> piece_is_choice(#[trigger] pieces[k], max),
        choice_list(pieces, max) matches Some(ids) ==> {
            &&& ids.no_duplicates()
            &&& forall|k: int| 0 <= k < ids.len() ==> #[trigger] ids[k] < max
            &&& forall|x: usize|
                #[trigger] ids.contains(x) <==> exists|k: int| 0 <= k < pieces.len() && piece_names(#[trigger] pieces[k], x)
            &&& forall|i: int, j: int, q: int|
                0 <= i < j < ids.len() && 0 <= q < pieces.len() && #[trigger] piece_names(pieces[q], ids[j])
                    ==> exists|p: int| 0 <= p < q && piece_names(#[trigger] pieces[p], #[trigger] ids[i])
        },
    decreases pieces.len(),
{
    if pieces.len() > 0 {
        let pre = pieces.drop_last();
        let last = pieces.last();
        let n = pieces.len() - 1;
        lemma_choice_list_rule(pre, max);
        assert forall|k: int| 0 <= k < pre.len() implies pre[k] == #[trigger] pieces[k] by {}
        assert(pieces[n] == last);
        match choice_list(pre, max) {
            None => {
                let k = choose|k: int| 0 <= k < pre.len() && !piece_is_choice(#[trigger] pre[k], max);
                assert(!piece_is_choice(pieces[k], max));
            },
            Some(ids0) => {
                assert(forall|k: int| 0 <= k < pre.len() ==> piece_is_choice(#[trigger] pre[k], max));
                let t = trim(last);
                if !piece_is_choice(last, max) {
                } else {
                    assert forall|k: int| 0 <= k < pieces.len() implies piece_is_choice(#[trigger] pieces[k], max) by {
                        if k < n {
                            assert(piece_is_choice(pre[k], max));
                        }
                    }
                    let ids = choice_list(pieces, max)->Some_0;
                    if t.len() == 0 {
                        assert(ids == ids0);
                        assert forall|x: usize| #[trigger] ids.contains(x) implies exists|k: int|
                            0 <= k < pieces.len() && piece_names(#[trigger] pieces[k], x) by {
                            let k = choose|k: int| 0 <= k < pre.len() && piece_names(#[trigger] pre[k], x);
                            assert(piece_names(pieces[k], x));
                        }
                        assert forall|x: usize| (exists|k: int| 0 <= k < pieces.len() && piece_names(#[trigger] pieces[k], x))
                            implies #[trigger] ids.contains(x) by {
                            let k = choose|k: int| 0 <= k < pieces.len() && piece_names(#[trigger] pieces[k], x);
                            assert(k < n);
                            assert(piece_names(pre[k], x));
                        }
                        assert forall|i: int, j: int, q: int|
                            0 <= i < j < ids.len() && 0 <= q < pieces.len() && #[trigger] piece_names(pieces[q], ids[j])
                            implies exists|p: int| 0 <= p < q && piece_names(#[trigger] pieces[p], #[trigger] ids[i]) by {
                            assert(q < n);
                            assert(piece_names(pre[q], ids0[j]));
                            let p = choose|p: int| 0 <= p < q && piece_names(#[trigger] pre[p], #[trigger] ids0[i]);
                            assert(piece_names(pieces[p], ids[i]));
                        }
                    } else {
                        let v = usize_from_text(t)->Ok_0;
                        let x = (v - 1) as usize;
                        assert(piece_names(last, x));
                        if ids0.contains(x) {
                            assert(ids == ids0);
                            assert forall|y: usize| #[trigger] ids.contains(y) implies exists|k: int|
                                0 <= k < pieces.len() && piece_names(#[trigger] pieces[k], y) by {
                                let k = choose|k: int| 0 <= k < pre.len() && piece_names(#[trigger] pre[k], y);
                                assert(piece_names(pieces[k], y));
                            }
                            assert forall|y: usize| (exists|k: int| 0 <= k < pieces.len() && piece_names(#[trigger] pieces[k], y))
                                implies #[trigger] ids.contains(y) by {
                                let k = choose|k: int| 0 <= k < pieces.len() && piece_names(#[trigger] pieces[k], y);
                                if k < n {
                                    assert(piece_names(pre[k], y));
                                } else {
                                    assert(y == x);
                                }
                            }
                            assert forall|i: int, j: int, q: int|
                                0 <= i < j < ids.len() && 0 <= q < pieces.len() && #[trigger] piece_names(pieces[q], ids[j])
                                implies exists|p: int| 0 <= p < q && piece_names(#[trigger] pieces[p], #[trigger] ids[i]) by {
                                if q < n {
                                    assert(piece_names(pre[q], ids0[j]));
                                    let p = choose|p: int| 0 <= p < q && piece_names(#[trigger] pre[p], #[trigger] ids0[i]);
                                    assert(piece_names(pieces[p], ids[i]));
                                } else {
                                    assert(ids[j] == x);
                                    let q2 = choose|k: int| 0 <= k < pre.len() && piece_names(#[trigger] pre[k], x);
                                    assert(piece_names(pre[q2], ids0[j]));
                                    let p = choose|p: int| 0 <= p < q2 && piece_names(#[trigger] pre[p], #[trigger] ids0[i]);
                                    assert(piece_names(pieces[p], ids[i]));
                                }
                            }
                        } else {
                            assert(ids == ids0.push(x));
                            assert forall|a: int, b: int| 0 <= a < ids.len() && 0 <= b < ids.len() && a != b implies ids[a] != ids[b] by {
                                if a < ids0.len() && b < ids0.len() {
                                    assert(ids[a] == ids0[a] && ids[b] == ids0[b]);
                                } else if a < ids0.len() {
                                    assert(ids0.contains(ids[a]));
                                } else {
                                    assert(ids0.contains(ids[b]));
                                }
                            }
                            assert forall|k: int| 0 <= k < ids.len() implies #[trigger] ids[k] < max by {
                                if k < ids0.len() {
                                    assert(ids[k] == ids0[k]);
                                }
                            }
                            assert forall|y: usize| #[trigger] ids.contains(y) implies exists|k: int|
                                0 <= k < pieces.len() && piece_names(#[trigger] pieces[k], y) by {
                                let a = choose|a: int| 0 <= a < ids.len() && ids[a] == y;
                                if a < ids0.len() {
                                    assert(ids0[a] == y);
                                    assert(ids0.contains(y));
                                    let k = choose|k: int| 0 <= k < pre.len() && piece_names(#[trigger] pre[k], y);
                                    assert(piece_names(pieces[k], y));
                                } else {
                                    assert(piece_names(pieces[n], y));
                                }
                            }
                            assert forall|y: usize| (exists|k: int| 0 <= k < pieces.len() && piece_names(#[trigger] pieces[k], y))
                                implies #[trigger] ids.contains(y) by {
                                let k = choose|k: int| 0 <= k < pieces.len() && piece_names(#[trigger] pieces[k], y);
                                if k < n {
                                    assert(piece_names(pre[k], y));
                                    assert(ids0.contains(y));
                                    let a = choose|a: int| 0 <= a < ids0.len() && ids0[a] == y;
                                    assert(ids[a] == y);
                                } else {
                                    assert(y == x);
                                    assert(ids[ids0.len() as int] == y);
                                }
                            }
                            assert forall|i: int, j: int, q: int|
                                0 <= i < j < ids.len() && 0 <= q < pieces.len() && #[trigger] piece_names(pieces[q], ids[j])
                                implies exists|p: int| 0 <= p < q && piece_names(#[trigger] pieces[p], #[trigger] ids[i]) by {
                                assert(ids[i] == ids0[i]);
                                assert(ids0.contains(ids[i]));
                                if j < ids0.len() {
                                    assert(ids[j] == ids0[j]);
                                    if q < n {
                                        assert(piece_names(pre[q], ids0[j]));
                                        let p = choose|p: int| 0 <= p < q && piece_names(#[trigger] pre[p], #[trigger] ids0[i]);
                                        assert(piece_names(pieces[p], ids[i]));
                                    } else {
                                        assert(ids[j] == x);
                                        assert(ids0.contains(x));
                                    }
                                } else {
                                    let p = choose|p: int| 0 <= p < pre.len() && piece_names(#[trigger] pre[p], ids[i]);
                                    assert(piece_names(pieces[p], ids[i]));
                                    if q < n {
                                        assert(piece_names(pre[q], x));
                                        assert(ids0.contains(x));
                                    }
                                }
                            }
                        }
                    }
                }
            },
        }
    }
}

/// What a typed line that is no command gives when several of `max` options are
/// to be picked: the line, trimmed, is read as a comma-separated list of picks
/// (see `lemma_choice_list_rule`), which must name at least one option.
pub proof fn lemma_multiple_choice_decision_rule(line: Seq<char>, max: usize)
    requires
        operation_of(line) != ConsoleOperation::Skip,
        operation_of(line) != ConsoleOperation::Quit,
    ensures
        multiple_choice_decision(line, false, max) == match choice_list(split_on(trim(line), ','), max) {
            Some(ids) => if ids.len() > 0 {
                Some((ids, false))
            } else {
                None
            },
            None => None::<(Seq<usize>, bool)>,
        },
{
    let t = trim(line);
    match usize_from_text(t) {
        Ok(n) => {
            if 1 <= n && n <= max {
                lemma_number_has_no_comma(t);
                lemma_split_on_without_separator(t, ',');
                let ps = split_on(t, ',');
                assert(ps =~= seq![t]);
                lemma_trim_idempotent(line);
                assert(ps.drop_last() =~= Seq::<Seq<char>>::empty());
                assert(ps.last() == t);
                assert(choice_list(ps.drop_last(), max) == Some(Seq::<usize>::empty()));
                assert(choice_list(ps, max) == Some(seq![(n - 1) as usize]));
            }
        },
        Err(_) => {},
    }
}

/// Once a prefix of the pieces is invalid, the whole list is.
proof fn lemma_choice_list_invalid(ps: Seq<Seq<char>>, k: int, max: usize)
    requires
        0 <= k <= ps.len(),
        choice_list(ps.take(k), max) is None,
    ensures
        choice_list(ps, max) is None,
    decreases ps.len() - k,
{
    if k < ps.len() {
        assert(ps.take(k + 1).drop_last() =~= ps.take(k));
        lemma_choice_list_invalid(ps, k + 1, max);
    } else {
        assert(ps.take(k) =~= ps);
    }
}

/// What the line `line` gives when several of `max` options are to be picked
/// (see `multiple_choice_decision`).
pub fn decide_multiple_choice(line: &str, stop: bool, max: usize) -> (r: Option<(Vec<usize>, bool)>)
    ensures
        match r {
            Some((ids, s)) => multiple_choice_decision(line@, stop, max) == Some((ids@, s)),
            None => multiple_choice_decision(line@, stop, max) is None,
        },
{
    if stop {
        return Some((Vec::new(), true));
    }
    match ConsoleOperation::from_input(line) {
        ConsoleOperation::Skip => Some((Vec::new(), false)),
        ConsoleOperation::Quit => Some((Vec::new(), true)),
        _ => {
            let t = trim_chars(&str_chars(line));
            match parse_usize(&t) {
                Ok(n) => {
                    if 1 <= n && n <= max {
                        let mut one: Vec<usize> = Vec::new();
                        one.push(n - 1);
                        assert(one@ =~= seq![(n - 1) as usize]);
                        return Some((one, false));
                    }
                },
                Err(_) => {},
            }
            let pieces = split_chars(&t, ',');
            match read_choice_list(&pieces, max) {
                Some(ids) => {
                    if ids.len() > 0 {
                        Some((ids, false))
                    } else {
                        None
                    }
                },
                None => None,
            }
        },
    }
}

/// Prompting for several of `max` options over the lines `lines`: the options,
/// whether to stop, what is written, and how many lines are read.
pub open spec fn multiple_choice_session(lines: Seq<Seq<char>>, max: usize) -> (Seq<usize>, bool, Seq<char>, nat)
    decreases lines.len(),
{
    if lines.len() == 0 {
        (Seq::empty(), true, multiple_prompt(max), 0)
    } else {
        let (line, stop) = line_reply(Some(lines[0]));
        match multiple_choice_decision(line, stop, max) {
            Some((ids, s)) => (ids, s, multiple_prompt(max), 1),
            None => {
                let (ids, s, out, n) = multiple_choice_session(lines.drop_first(), max);
                (ids, s, multiple_prompt(max) + multiple_retry(max) + out, n + 1)
            },
        }
    }
}

/// Asks for several of `max` options until a line of `input` gives an answer (see
/// `multiple_choice_session`); prompts and messages go to `output`.
pub fn ask_multiple_choice_from(input: &mut TextInput, output: &mut String, max: usize) -> (r: (Vec<usize>, bool))
    ensures
        ({
            let (ids, s, out, n) = multiple_choice_session(old(input)@, max);
            &&& r.0@ == ids
            &&& r.1 == s
            &&& final(output)@ == old(output)@ + out
            &&& n <= old(input)@.len()
            &&& final(input)@ == old(input)@.skip(n as int)
        }),
{
    let ghost total = multiple_choice_session(input@, max);
    let ghost start = input@;
    let ghost mut written: Seq<char> = Seq::empty();
    let ghost mut used: nat = 0;
    let prompt = multiple_choice_prompt(max);
    let retry = multiple_choice_retry(max);
    loop
        invariant
            prompt@ == multiple_prompt(max),
            retry@ == multiple_retry(max),
            total == multiple_choice_session(start, max),
            start == old(input)@,
            used <= start.len(),
            input@ == start.skip(used as int),
            output@ == old(output)@ + written,
            ({
                let (ids, s, out, n) = multiple_choice_session(input@, max);
                total == (ids, s, written + out, used + n)
            }),
        decreases input@.len(),
    {
        output.append(prompt.as_str());
        let ghost lines = input@;
        let (line, stop) = ask_line_from(input, output);
        let decision = decide_multiple_choice(line.as_str(), stop, max);
        match decision {
            Some(res) => {
                proof {
                    let (ids, s, out, n) = multiple_choice_session(lines, max);
                    assert(out == prompt@);
                    if lines.len() > 0 {
                        assert(start.skip(used as int).drop_first() =~= start.skip(used as int + 1));
                    }
                    assert(input@ == start.skip((used + n) as int));
                    assert(old(output)@ + written + prompt@ =~= old(output)@ + (written + prompt@));
                }
                return res;
            },
            None => {
                output.append(retry.as_str());
                proof {
                    assert(old(output)@ + written + prompt@ + retry@ =~= old(output)@ + (written + prompt@ + retry@));
                    assert(lines.len() > 0);
                    assert(start.skip(used as int).drop_first() =~= start.skip(used as int + 1));
                    assert(written + (multiple_prompt(max) + multiple_retry(max) + multiple_choice_session(input@, max).2)
                        =~= (written + prompt@ + retry@) + multiple_choice_session(input@, max).2);
                    written = written + prompt@ + retry@;
                    used = used + 1;
                }
            },
        }
    }
}

/// The prompt for a typed answer.
pub open spec fn text_prompt() -> Seq<char> {
    "Ваш ответ: "@
}

/// The message after an empty typed answer.
pub open spec fn text_retry() -> Seq<char> {
    "Ответ не может быть пустым. Введите текст или !пропуск.\n"@
}

/// What a line gives when a text is to be typed: `Some((text, stop))` ends the
/// question with the trimmed text (empty for a skip, or, with `stop` set, for the
/// end of the input or quitting); `None` asks again after an empty line.
pub open spec fn text_input_decision(line: Seq<char>, stop: bool) -> Option<(Seq<char>, bool)> {
    if stop {
        Some((Seq::empty(), true))
    } else {
        match operation_of(line) {
            ConsoleOperation::Skip => Some((Seq::empty(), false)),
            ConsoleOperation::Quit => Some((Seq::empty(), true)),
            _ => {
                let t = trim(line);
                if t.len() > 0 {
                    Some((t, false))
                } else {
                    None
                }
            },
        }
    }
}

/// The prompt for a typed answer.
pub fn text_input_prompt() -> (r: String)
    ensures
        r@ == text_prompt(),
{
    String::from_str("Ваш ответ: ")
}

/// The message after an empty typed answer.
pub fn text_input_retry() -> (r: String)
    ensures
        r@ == text_retry(),
{
    String::from_str("Ответ не может быть пустым. Введите текст или !пропуск.\n")
}

/// What the line `line` gives when a text is to be typed (see `text_input_decision`).
pub fn decide_text_input(line: &str, stop: bool) -> (r: Option<(String, bool)>)
    ensures
        match r {
            Some((t, s)) => text_input_decision(line@, stop) == Some((t@, s)),
            None => text_input_decision(line@, stop) is None,
        },
{
    if stop {
        return Some((String::new(), true));
    }
    match ConsoleOperation::from_input(line) {
        ConsoleOperation::Skip => Some((String::new(), false)),
        ConsoleOperation::Quit => Some((String::new(), true)),
        _ => {
            let t = trim_chars(&str_chars(line));
            if t.len() != 0 {
                Some((string_from_chars(t.as_slice()), false))
            } else {
                None
            }
        },
    }
}

/// Prompting for a typed answer over the lines `lines`: the text, whether to
/// stop, what is written, and how many lines are read.
pub open spec fn text_input_session(lines: Seq<Seq<char>>) -> (Seq<char>, bool, Seq<char>, nat)
    decreases lines.len(),
{
    if lines.len() == 0 {
        (Seq::empty(), true, text_prompt(), 0)
    } else {
        let (line, stop) = line_reply(Some(lines[0]));
        match text_input_decision(line, stop) {
            Some((t, s)) => (t, s, text_prompt(), 1),
            None => {
                let (t, s, out, n) = text_input_session(lines.drop_first());
                (t, s, text_prompt() + text_retry() + out, n + 1)
            },
        }
    }
}

/// Asks for a typed answer until a line of `input` gives one (see
/// `text_input_session`); prompts and messages go to `output`.
pub fn ask_text_input_from(input: &mut TextInput, output: &mut String) -> (r: (String, bool))
    ensures
        ({
            let (t, s, out, n) = text_input_session(old(input)@);
            &&& r.0@ == t
            &&& r.1 == s
            &&& final(output)@ == old(output)@ + out
            &&& n <= old(input)@.len()
            &&& final(input)@ == old(input)@.skip(n as int)
        }),
{
    let ghost total = text_input_session(input@);
    let ghost start = input@;
    let ghost mut written: Seq<char> = Seq::empty();
    let ghost mut used: nat = 0;
    let prompt = text_input_prompt();
    let retry = text_input_retry();
    loop
        invariant
            prompt@ == text_prompt(),
            retry@ == text_retry(),
            total == text_input_session(start),
            start == old(input)@,
            used <= start.len(),
            input@ == start.skip(used as int),
            output@ == old(output)@ + written,
            ({
                let (t, s, out, n) = text_input_session(input@);
                total == (t, s, written + out, used + n)
            }),
        decreases input@.len(),
    {
        output.append(prompt.as_str());
        let ghost lines = input@;
        let (line, stop) = ask_line_from(input, output);
        let decision = decide_text_input(line.as_str(), stop);
        match decision {
            Some(res) => {
                proof {
                    let (t, s, out, n) = text_input_session(lines);
                    assert(out == prompt@);
                    if lines.len() > 0 {
                        assert(start.skip(used as int).drop_first() =~= start.skip(used as int + 1));
                    }
                    assert(input@ == start.skip((used + n) as int));
                    assert(old(output)@ + written + prompt@ =~= old(output)@ + (written + prompt@));
                }
                return res;
            },
            None => {
                output.append(retry.as_str());
                proof {
                    assert(old(output)@ + written + prompt@ + retry@ =~= old(output)@ + (written + prompt@ + retry@));
                    assert(lines.len() > 0);
                    assert(start.skip(used as int).drop_first() =~= start.skip(used as int + 1));
                    assert(written + (text_prompt() + text_retry() + text_input_session(input@).2)
                        =~= (written + prompt@ + retry@) + text_input_session(input@).2);
                    written = written + prompt@ + retry@;
                    used = used + 1;
                }
            },
        }
    }
}

/// A typed line that is no command picks one of `max` options exactly when,
/// trimmed, it reads as a number from 1 to `max`; the pick is then that number
/// counted from zero, and any other line asks again.
pub proof fn lemma_single_choice_decision_rule(line: Seq<char>, max: usize)
    requires
        operation_of(line) != ConsoleOperation::Skip,
        operation_of(line) != ConsoleOperation::Quit,
        max <= i32::MAX,
    ensures
        (single_choice_decision(line, false, max) is Some) <==> (usize_from_text(trim(line)) matches Ok(n) && 1 <= n
            <= max),
        single_choice_decision(line, false, max) matches Some((c, s)) ==> !s && 0 <= c < max && usize_from_text(
            trim(line),
        ) == Ok::<nat, IntErrorKind>((c + 1) as nat),
{
}

/// A typed line that is no command answers a text question exactly when it is
/// not blank; the answer is the line without its surrounding whitespace.
pub proof fn lemma_text_input_decision_rule(line: Seq<char>)
    requires
        operation_of(line) != ConsoleOperation::Skip,
        operation_of(line) != ConsoleOperation::Quit,
    ensures
        (text_input_decision(line, false) is Some) <==> trim(line).len() > 0,
        text_input_decision(line, false) matches Some((a, s)) ==> !s && a == trim(line) && a.len() > 0,
        text_input_decision(line, true) == Some((Seq::<char>::empty(), true)),
{
}

} // verus!
