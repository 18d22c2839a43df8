//! Reading a question file: a line-oriented format in which `- question:` opens a
//! question and the lines after it give its options, its correct answer and the
//! further accepted texts.
use vstd::prelude::*;
use crate::dto::question::{Question, QuestionModel};
use crate::text::{
    lemma_number_has_no_comma, lemma_split_on_without_separator,
    char_is_whitespace, copy_range, debug_form, debug_quoted, decimal, equals_str, int_error_text,
    parse_usize, push_decimal, push_str, replace_char_pair, replace_pair, split_chars, split_on,
    starts_with, str_chars, string_from_chars, trim, trim_chars, usize_from_text, IntErrorKind,
};

verus! {

/// Which list the plain `- ` lines of a question currently extend.
#[derive(Debug, Clone, Copy, PartialEq, Eq, Structural)]
pub enum ParseMode {
    Plain,
    Options,
    Accept,
}

/// Why a question file was refused. Lines are counted from one.
#[derive(Debug, Clone)]
pub enum QuestionParseError {
    /// A line that is neither empty nor a comment stands before the first question.
    OutsideQuestion { line: usize, text: String },
    /// A list of correct indices holds an entry that is not a number.
    BadIndices { line: usize, kind: IntErrorKind },
    /// A list of correct indices is empty.
    EmptyCorrect { line: usize },
    /// A line inside a question that the format does not know.
    Unparsable { line: usize, text: String },
    /// The file holds no question.
    NoQuestions,
    /// The question starting at `line` has an empty text.
    EmptyQuestionText { line: usize },
    /// The question with options starting at `line` names no correct option.
    MissingCorrectIndex { line: usize },
    /// The question starting at `line` names the option `index`, but has only `options`.
    IndexOutOfRange { line: usize, index: usize, options: usize },
    /// The question without options starting at `line` has no expected text.
    MissingTextAnswer { line: usize },
}

/// A refusal in mathematical terms.
pub enum ParseErrorModel {
    OutsideQuestion { line: nat, text: Seq<char> },
    BadIndices { line: nat, kind: IntErrorKind },
    EmptyCorrect { line: nat },
    Unparsable { line: nat, text: Seq<char> },
    NoQuestions,
    EmptyQuestionText { line: nat },
    MissingCorrectIndex { line: nat },
    IndexOutOfRange { line: nat, index: nat, options: nat },
    MissingTextAnswer { line: nat },
}

impl View for QuestionParseError {
    type V = ParseErrorModel;

    open spec fn view(&self) -> ParseErrorModel {
        match self {
            QuestionParseError::OutsideQuestion { line, text } => ParseErrorModel::OutsideQuestion {
                line: *line as nat,
                text: text@,
            },
            QuestionParseError::BadIndices { line, kind } => ParseErrorModel::BadIndices {
                line: *line as nat,
                kind: *kind,
            },
            QuestionParseError::EmptyCorrect { line } => ParseErrorModel::EmptyCorrect { line: *line as nat },
            QuestionParseError::Unparsable { line, text } => ParseErrorModel::Unparsable {
                line: *line as nat,
                text: text@,
            },
            QuestionParseError::NoQuestions => ParseErrorModel::NoQuestions,
            QuestionParseError::EmptyQuestionText { line } => ParseErrorModel::EmptyQuestionText {
                line: *line as nat,
            },
            QuestionParseError::MissingCorrectIndex { line } => ParseErrorModel::MissingCorrectIndex {
                line: *line as nat,
            },
            QuestionParseError::IndexOutOfRange { line, index, options } => ParseErrorModel::IndexOutOfRange {
                line: *line as nat,
                index: *index as nat,
                options: *options as nat,
            },
            QuestionParseError::MissingTextAnswer { line } => ParseErrorModel::MissingTextAnswer {
                line: *line as nat,
            },
        }
    }
}

/// "строка N: " for the line number `line`.
pub open spec fn line_tag(line: nat) -> Seq<char> {
    "строка "@ + decimal(line) + ": "@
}

/// The message that tells the refusal `e` of the file at `path`.
pub open spec fn error_message(e: ParseErrorModel, path: Seq<char>) -> Seq<char> {
    match e {
        ParseErrorModel::OutsideQuestion { line, text } => line_tag(line) + "данные вне блока вопроса: "@
            + debug_form(text),
        ParseErrorModel::BadIndices { line, kind } => line_tag(line) + "ошибка парсинга индексов: "@
            + int_error_text(kind),
        ParseErrorModel::EmptyCorrect { line } => line_tag(line) + "массив correct не может быть пустым"@,
        ParseErrorModel::Unparsable { line, text } => line_tag(line) + "не удалось разобрать: "@ + debug_form(
            text,
        ),
        ParseErrorModel::NoQuestions => "в файле "@ + path + " не найдено ни одного вопроса"@,
        ParseErrorModel::EmptyQuestionText { line } => line_tag(line) + "пустой текст вопроса"@,
        ParseErrorModel::MissingCorrectIndex { line } => line_tag(line)
            + "для вопроса с вариантами не указан correct индекс(ы)"@,
        ParseErrorModel::IndexOutOfRange { line, index, options } => line_tag(line) + "correct="@ + decimal(
            index,
        ) + " вне диапазона вариантов ("@ + decimal(options) + ")"@,
        ParseErrorModel::MissingTextAnswer { line } => line_tag(line)
            + "у вопроса со свободным вводом не задан текстовый ответ"@,
    }
}

fn push_line_tag(out: &mut Vec<char>, line: usize)
    ensures
        final(out)@ == old(out)@ + line_tag(line as nat),
{
    push_str(out, "строка ");
    push_decimal(out, line);
    push_str(out, ": ");
}

impl QuestionParseError {
    /// The message that tells this refusal of the file at `path` (see `error_message`).
    pub fn message(&self, path: &str) -> (r: String)
        ensures
            r@ == error_message(self@, path@),
    {
        let mut out: Vec<char> = Vec::new();
        match self {
            QuestionParseError::OutsideQuestion { line, text } => {
                push_line_tag(&mut out, *line);
                push_str(&mut out, "данные вне блока вопроса: ");
                let quoted = debug_quoted(text.as_str());
                push_str(&mut out, quoted.as_str());
            },
            QuestionParseError::BadIndices { line, kind } => {
                push_line_tag(&mut out, *line);
                push_str(&mut out, "ошибка парсинга индексов: ");
                push_str(&mut out, kind.message());
            },
            QuestionParseError::EmptyCorrect { line } => {
                push_line_tag(&mut out, *line);
                push_str(&mut out, "массив correct не может быть пустым");
            },
            QuestionParseError::Unparsable { line, text } => {
                push_line_tag(&mut out, *line);
                push_str(&mut out, "не удалось разобрать: ");
                let quoted = debug_quoted(text.as_str());
                push_str(&mut out, quoted.as_str());
            },
            QuestionParseError::NoQuestions => {
                push_str(&mut out, "в файле ");
                push_str(&mut out, path);
                push_str(&mut out, " не найдено ни одного вопроса");
            },
            QuestionParseError::EmptyQuestionText { line } => {
                push_line_tag(&mut out, *line);
                push_str(&mut out, "пустой текст вопроса");
            },
            QuestionParseError::MissingCorrectIndex { line } => {
                push_line_tag(&mut out, *line);
                push_str(&mut out, "для вопроса с вариантами не указан correct индекс(ы)");
            },
            QuestionParseError::IndexOutOfRange { line, index, options } => {
                push_line_tag(&mut out, *line);
                push_str(&mut out, "correct=");
                push_decimal(&mut out, *index);
                push_str(&mut out, " вне диапазона вариантов (");
                push_decimal(&mut out, *options);
                push_str(&mut out, ")");
            },
            QuestionParseError::MissingTextAnswer { line } => {
                push_line_tag(&mut out, *line);
                push_str(&mut out, "у вопроса со свободным вводом не задан текстовый ответ");
            },
        }
        assert(out@ =~= error_message(self@, path@));
        string_from_chars(out.as_slice())
    }
}

#[verifier::ext_equal]
/// What has been read of a file so far: the finished questions, the question
/// being read, and which list plain `- ` lines extend.
pub struct ParseState {
    pub questions: Seq<QuestionModel>,
    pub cur: Option<QuestionModel>,
    pub mode: ParseMode,
}

/// Whether `s` begins with `p`.
pub open spec fn has_prefix(s: Seq<char>, p: Seq<char>) -> bool {
    p.len() <= s.len() && s.take(p.len() as int) == p
}

/// The text of a value as the format writes it: trimmed, and, when it is
/// enclosed in double quotes, without them and with `\"` read as `"` and then
/// `\\` as `\`; when it is enclosed in single quotes, without them and with `''`
/// read as `'`.
pub open spec fn unquoted(s: Seq<char>) -> Seq<char> {
    let t = trim(s);
    if t.len() >= 2 && t[0] == '"' && t.last() == '"' {
        replace_pair(replace_pair(t.subrange(1, t.len() - 1), '\\', '"', '"'), '\\', '\\', '\\')
    } else if t.len() >= 2 && t[0] == '\'' && t.last() == '\'' {
        replace_pair(t.subrange(1, t.len() - 1), '\'', '\'', '\'')
    } else {
        t
    }
}

/// A question that starts at line `line` with the text `text` and nothing else yet.
pub open spec fn new_question(text: Seq<char>, line: nat) -> QuestionModel {
    QuestionModel {
        text,
        options: Seq::empty(),
        correct_indices: Seq::empty(),
        correct_text: Seq::empty(),
        accept: Seq::empty(),
        line,
    }
}

/// The numbers of a list of correct indices, given its comma-separated pieces:
/// empty pieces (after trimming) are left out, and the first piece that is not a
/// number decides the error.
pub open spec fn index_list(pieces: Seq<Seq<char>>) -> Result<Seq<usize>, IntErrorKind>
    decreases pieces.len(),
{
    if pieces.len() == 0 {
        Ok(Seq::empty())
    } else {
        match index_list(pieces.drop_last()) {
            Err(k) => Err(k),
            Ok(ns) => {
                let t = trim(pieces.last());
                if t.len() == 0 {
                    Ok(ns)
                } else {
                    match usize_from_text(t) {
                        Err(k) => Err(k),
                        Ok(n) => Ok(ns.push(n as usize)),
                    }
                }
            },
        }
    }
}

/// What the value of a `correct:` line sets in the question `q`.
pub open spec fn read_correct(q: QuestionModel, line_no: nat, val: Seq<char>) -> Result<QuestionModel, ParseErrorModel> {
    if val.len() > 0 && val[0] == '[' && val.last() == ']' {
        match index_list(split_on(val.subrange(1, val.len() - 1), ',')) {
            Err(k) => Err(ParseErrorModel::BadIndices { line: line_no, kind: k }),
            Ok(ns) => if ns.len() == 0 {
                Err(ParseErrorModel::EmptyCorrect { line: line_no })
            } else {
                Ok(QuestionModel { correct_indices: ns, ..q })
            },
        }
    } else {
        match usize_from_text(val) {
            Ok(n) => Ok(QuestionModel { correct_indices: seq![n as usize], ..q }),
            Err(_) => Ok(QuestionModel { correct_text: unquoted(val), ..q }),
        }
    }
}

/// What a trimmed line `line` (number `line_no`) inside the question `q` does.
pub open spec fn read_question_line(
    questions: Seq<QuestionModel>,
    q: QuestionModel,
    mode: ParseMode,
    line_no: nat,
    line: Seq<char>,
) -> Result<ParseState, ParseErrorModel> {
    if line == "options:"@ {
        Ok(ParseState { questions, cur: Some(q), mode: ParseMode::Options })
    } else if line == "accept:"@ {
        Ok(ParseState { questions, cur: Some(q), mode: ParseMode::Accept })
    } else if has_prefix(line, "- answer:"@) {
        let opt = unquoted(line.skip("- answer:"@.len() as int));
        Ok(ParseState { questions, cur: Some(QuestionModel { options: q.options.push(opt), ..q }), mode })
    } else if has_prefix(line, "correct:"@) {
        match read_correct(q, line_no, trim(line.skip("correct:"@.len() as int))) {
            Err(e) => Err(e),
            Ok(q2) => Ok(ParseState { questions, cur: Some(q2), mode: ParseMode::Plain }),
        }
    } else if has_prefix(line, "- "@) && mode == ParseMode::Accept {
        let acc = unquoted(line.skip("- "@.len() as int));
        Ok(ParseState { questions, cur: Some(QuestionModel { accept: q.accept.push(acc), ..q }), mode })
    } else {
        Err(ParseErrorModel::Unparsable { line: line_no, text: line })
    }
}

/// What the line `raw` of the file, number `line_no`, does to the state `st`.
pub open spec fn read_line(st: ParseState, line_no: nat, raw: Seq<char>) -> Result<ParseState, ParseErrorModel> {
    let line = trim(raw);
    if line.len() == 0 || line[0] == '#' {
        Ok(st)
    } else if has_prefix(line, "- question:"@) {
        let questions = match st.cur {
            Some(q) => st.questions.push(q),
            None => st.questions,
        };
        let text = unquoted(line.skip("- question:"@.len() as int));
        Ok(ParseState { questions, cur: Some(new_question(text, line_no)), mode: ParseMode::Plain })
    } else {
        match st.cur {
            None => Err(ParseErrorModel::OutsideQuestion { line: line_no, text: line }),
            Some(q) => read_question_line(st.questions, q, st.mode, line_no, line),
        }
    }
}

/// The state after the lines `lines`, numbered from one, or the first refusal.
pub open spec fn read_lines(lines: Seq<Seq<char>>) -> Result<ParseState, ParseErrorModel>
    decreases lines.len(),
{
    if lines.len() == 0 {
        Ok(ParseState { questions: Seq::empty(), cur: None, mode: ParseMode::Plain })
    } else {
        match read_lines(lines.drop_last()) {
            Err(e) => Err(e),
            Ok(st) => read_line(st, lines.len(), lines.last()),
        }
    }
}

/// All questions read, the one being read included.
pub open spec fn finished_questions(st: ParseState) -> Seq<QuestionModel> {
    match st.cur {
        Some(q) => st.questions.push(q),
        None => st.questions,
    }
}

/// The first index among `idxs` that is not below `n`.
pub open spec fn first_out_of_range(idxs: Seq<usize>, n: nat) -> Option<usize>
    decreases idxs.len(),
{
    if idxs.len() == 0 {
        None
    } else {
        match first_out_of_range(idxs.drop_last(), n) {
            Some(i) => Some(i),
            None => if idxs.last() >= n {
                Some(idxs.last())
            } else {
                None
            },
        }
    }
}

/// What is wrong with the question `q`, if anything: an empty text; for a
/// question with options, no correct index or an index past the options; for a
/// question without options, no expected text.
pub open spec fn question_problem(q: QuestionModel) -> Option<ParseErrorModel> {
    if q.text.len() == 0 {
        Some(ParseErrorModel::EmptyQuestionText { line: q.line })
    } else if q.options.len() > 0 {
        if q.correct_indices.len() == 0 {
            Some(ParseErrorModel::MissingCorrectIndex { line: q.line })
        } else {
            match first_out_of_range(q.correct_indices, q.options.len()) {
                Some(i) => Some(
                    ParseErrorModel::IndexOutOfRange { line: q.line, index: i as nat, options: q.options.len() },
                ),
                None => None,
            }
        }
    } else if q.correct_text.len() == 0 {
        Some(ParseErrorModel::MissingTextAnswer { line: q.line })
    } else {
        None
    }
}

/// The problem of the first question in `qs` that has one.
pub open spec fn first_problem(qs: Seq<QuestionModel>) -> Option<ParseErrorModel>
    decreases qs.len(),
{
    if qs.len() == 0 {
        None
    } else {
        match first_problem(qs.drop_last()) {
            Some(e) => Some(e),
            None => question_problem(qs.last()),
        }
    }
}

/// The lines of a file whose text is `content`: `\r\n` counts as `\n`.
pub open spec fn file_lines(content: Seq<char>) -> Seq<Seq<char>> {
    split_on(replace_pair(content, '\r', '\n', '\n'), '\n')
}

/// The questions of a file whose text is `content`, or why it is refused.
/// `\r\n` counts as `\n`; lines are trimmed; empty lines and lines starting with
/// `#` are skipped; a file must hold at least one question, and every question
/// must be complete (see `question_problem`).
pub open spec fn parsed_questions(content: Seq<char>) -> Result<Seq<QuestionModel>, ParseErrorModel> {
    let lines = file_lines(content);
    match read_lines(lines) {
        Err(e) => Err(e),
        Ok(st) => {
            let qs = finished_questions(st);
            if qs.len() == 0 {
                Err(ParseErrorModel::NoQuestions)
            } else {
                match first_problem(qs) {
                    Some(e) => Err(e),
                    None => Ok(qs),
                }
            }
        },
    }
}

/// The models of the questions `qs`.
pub open spec fn models(qs: Seq<Question>) -> Seq<QuestionModel> {
    qs.map_values(|q: Question| q@)
}

/// The model of the question being read, if any.
pub open spec fn cur_model(cur: Option<Question>) -> Option<QuestionModel> {
    match cur {
        Some(q) => Some(q@),
        None => None,
    }
}

/// The text of a value as the format writes it (see `unquoted`).
pub fn unquote(s: &Vec<char>) -> (r: Vec<char>)
    ensures
        r@ == unquoted(s@),
{
    let t = trim_chars(s);
    let n = t.len();
    if n >= 2 && t[0] == '"' && t[n - 1] == '"' {
        let inner = copy_range(&t, 1, n - 1);
        let unescaped = replace_char_pair(&inner, '\\', '"', '"');
        replace_char_pair(&unescaped, '\\', '\\', '\\')
    } else if n >= 2 && t[0] == '\'' && t[n - 1] == '\'' {
        let inner = copy_range(&t, 1, n - 1);
        replace_char_pair(&inner, '\'', '\'', '\'')
    } else {
        t
    }
}

/// The rest of `v` after `prefix`, when `v` begins with it.
fn strip_prefix(v: &Vec<char>, prefix: &str) -> (r: Option<Vec<char>>)
    ensures
        r is Some <==> has_prefix(v@, prefix@),
        r matches Some(rest) ==> rest@ == v@.skip(prefix@.len() as int),
{
    if starts_with(v, prefix) {
        let p = str_chars(prefix);
        Some(copy_range(v, p.len(), v.len()))
    } else {
        None
    }
}

/// The numbers of a list of correct indices (see `index_list`).
fn read_index_list(pieces: &Vec<Vec<char>>) -> (r: Result<Vec<usize>, IntErrorKind>)
    ensures
        match r {
            Ok(ns) => index_list(pieces@.map_values(|p: Vec<char>| p@)) == Ok::<Seq<usize>, IntErrorKind>(ns@),
            Err(k) => index_list(pieces@.map_values(|p: Vec<char>| p@)) == Err::<Seq<usize>, IntErrorKind>(k),
        },
{
    let ghost ps = pieces@.map_values(|p: Vec<char>| p@);
    let mut ns: Vec<usize> = Vec::new();
    let mut k: usize = 0;
    while k < pieces.len()
        invariant
            k <= pieces.len(),
            ps == pieces@.map_values(|p: Vec<char>| p@),
            index_list(ps.take(k as int)) == Ok::<Seq<usize>, IntErrorKind>(ns@),
        decreases pieces.len() - k,
    {
        assert(ps.take(k + 1).drop_last() =~= ps.take(k as int));
        assert(ps.take(k + 1).last() == pieces@[k as int]@);
        let t = trim_chars(&pieces[k]);
        if t.len() != 0 {
            match parse_usize(&t) {
                Err(e) => {
                    proof {
                        lemma_index_list_error(ps, k as int + 1, e);
                    }
                    return Err(e);
                },
                Ok(n) => {
                    ns.push(n);
                },
            }
        }
        k += 1;
    }
    assert(ps.take(k as int) =~= ps);
    Ok(ns)
}

/// Once a prefix of the pieces is refused, the whole list is refused the same way.
proof fn lemma_index_list_error(ps: Seq<Seq<char>>, k: int, e: IntErrorKind)
    requires
        0 <= k <= ps.len(),
        index_list(ps.take(k)) == Err::<Seq<usize>, IntErrorKind>(e),
    ensures
        index_list(ps) == Err::<Seq<usize>, IntErrorKind>(e),
    decreases ps.len() - k,
{
    if k < ps.len() {
        assert(ps.take(k + 1).drop_last() =~= ps.take(k));
        lemma_index_list_error(ps, k + 1, e);
    } else {
        assert(ps.take(k) =~= ps);
    }
}

/// Sets in `q` what the value `val` of a `correct:` line says (see `read_correct`).
fn apply_correct(q: &mut Question, line_no: usize, val: &Vec<char>) -> (r: Result<(), QuestionParseError>)
    ensures
        match r {
            Ok(()) => read_correct(old(q)@, line_no as nat, val@) == Ok::<QuestionModel, ParseErrorModel>(final(q)@),
            Err(e) => read_correct(old(q)@, line_no as nat, val@) == Err::<QuestionModel, ParseErrorModel>(e@),
        },
{
    let n = val.len();
    if n > 0 && val[0] == '[' && val[n - 1] == ']' {
        let inner = copy_range(val, 1, n - 1);
        let pieces = split_chars(&inner, ',');
        match read_index_list(&pieces) {
            Err(k) => Err(QuestionParseError::BadIndices { line: line_no, kind: k }),
            Ok(ns) => {
                if ns.len() == 0 {
                    Err(QuestionParseError::EmptyCorrect { line: line_no })
                } else {
                    q.correct_indices = ns;
                    assert(final(q)@ =~= QuestionModel { correct_indices: ns@, ..old(q)@ });
                    Ok(())
                }
            },
        }
    } else {
        match parse_usize(val) {
            Ok(k) => {
                let mut v: Vec<usize> = Vec::new();
                v.push(k);
                q.correct_indices = v;
                assert(final(q)@ =~= QuestionModel { correct_indices: seq![k], ..old(q)@ });
                Ok(())
            },
            Err(_) => {
                let t = unquote(val);
                q.correct_text = string_from_chars(t.as_slice());
                assert(final(q)@ =~= QuestionModel { correct_text: t@, ..old(q)@ });
                Ok(())
            },
        }
    }
}

/// The state described by the finished questions, the question being read and the mode.
pub open spec fn state_of(questions: Seq<Question>, cur: Option<Question>, mode: ParseMode) -> ParseState {
    ParseState { questions: models(questions), cur: cur_model(cur), mode }
}

/// Reads the line `raw`, number `line_no`, into the state (see `read_line`).
fn read_one_line(
    questions: &mut Vec<Question>,
    cur: &mut Option<Question>,
    mode: &mut ParseMode,
    line_no: usize,
    raw: &Vec<char>,
) -> (r: Result<(), QuestionParseError>)
    ensures
        match r {
            Ok(()) => read_line(state_of(old(questions)@, *old(cur), *old(mode)), line_no as nat, raw@)
                == Ok::<ParseState, ParseErrorModel>(state_of(final(questions)@, *final(cur), *final(mode))),
            Err(e) => read_line(state_of(old(questions)@, *old(cur), *old(mode)), line_no as nat, raw@)
                == Err::<ParseState, ParseErrorModel>(e@),
        },
{
    let line = trim_chars(raw);
    if line.len() == 0 || line[0] == '#' {
        return Ok(());
    }
    if let Some(rest) = strip_prefix(&line, "- question:") {
        let t = unquote(&rest);
        let prev = cur.take();
        match prev {
            Some(q) => {
                let ghost before = questions@;
                questions.push(q);
                assert(models(questions@) =~= models(before).push(q@));
            },
            None => {},
        }
        *cur = Some(
            Question {
                text: string_from_chars(t.as_slice()),
                options: Vec::new(),
                correct_indices: Vec::new(),
                correct_text: String::new(),
                accept: Vec::new(),
                line: line_no,
            },
        );
        assert(final(cur)->0@ =~= crate::util::question_parser::new_question(t@, line_no as nat));
        *mode = ParseMode::Plain;
        return Ok(());
    }
    let taken = cur.take();
    match taken {
        None => Err(QuestionParseError::OutsideQuestion { line: line_no, text: string_from_chars(line.as_slice()) }),
        Some(mut q) => {
            if equals_str(&line, "options:") {
                *cur = Some(q);
                *mode = ParseMode::Options;
                Ok(())
            } else if equals_str(&line, "accept:") {
                *cur = Some(q);
                *mode = ParseMode::Accept;
                Ok(())
            } else if let Some(rest) = strip_prefix(&line, "- answer:") {
                let o = unquote(&rest);
                let ghost q0 = q@;
                q.options.push(string_from_chars(o.as_slice()));
                assert(q@ =~= QuestionModel { options: q0.options.push(o@), ..q0 });
                *cur = Some(q);
                Ok(())
            } else if let Some(rest) = strip_prefix(&line, "correct:") {
                let val = trim_chars(&rest);
                match apply_correct(&mut q, line_no, &val) {
                    Err(e) => Err(e),
                    Ok(()) => {
                        *cur = Some(q);
                        *mode = ParseMode::Plain;
                        Ok(())
                    },
                }
            } else {
                let dash = strip_prefix(&line, "- ");
                if *mode == ParseMode::Accept && dash.is_some() {
                    let rest = dash.unwrap();
                    let a = unquote(&rest);
                    let ghost q0 = q@;
                    q.accept.push(string_from_chars(a.as_slice()));
                    assert(q@ =~= QuestionModel { accept: q0.accept.push(a@), ..q0 });
                    *cur = Some(q);
                    Ok(())
                } else {
                    Err(QuestionParseError::Unparsable { line: line_no, text: string_from_chars(line.as_slice()) })
                }
            }
        },
    }
}

/// What is wrong with the question `q`, if anything (see `question_problem`).
fn find_question_problem(q: &Question) -> (r: Option<QuestionParseError>)
    ensures
        match r {
            Some(e) => question_problem(q@) == Some(e@),
            None => question_problem(q@) is None,
        },
{
    if q.text.as_str().unicode_len() == 0 {
        return Some(QuestionParseError::EmptyQuestionText { line: q.line });
    }
    if q.options.len() != 0 {
        if q.correct_indices.len() == 0 {
            return Some(QuestionParseError::MissingCorrectIndex { line: q.line });
        }
        let mut k: usize = 0;
        while k < q.correct_indices.len()
            invariant
                k <= q.correct_indices.len(),
                q@.text.len() > 0,
                q@.options.len() > 0,
                q@.correct_indices.len() > 0,
                first_out_of_range(q.correct_indices@.take(k as int), q.options@.len()) is None,
            decreases q.correct_indices.len() - k,
        {
            let idx = q.correct_indices[k];
            assert(q.correct_indices@.take(k + 1).drop_last() =~= q.correct_indices@.take(k as int));
            assert(q.correct_indices@.take(k + 1).last() == idx);
            if idx >= q.options.len() {
                proof {
                    lemma_first_out_of_range_found(q.correct_indices@, k as int + 1, q.options@.len(), idx);
                }
                return Some(
                    QuestionParseError::IndexOutOfRange { line: q.line, index: idx, options: q.options.len() },
                );
            }
            k += 1;
        }
        assert(q.correct_indices@.take(k as int) =~= q.correct_indices@);
        None
    } else if q.correct_text.as_str().unicode_len() == 0 {
        Some(QuestionParseError::MissingTextAnswer { line: q.line })
    } else {
        None
    }
}

/// Once an out-of-range index is found in a prefix, it is the first one of the whole list.
proof fn lemma_first_out_of_range_found(idxs: Seq<usize>, k: int, n: nat, i: usize)
    requires
        0 <= k <= idxs.len(),
        first_out_of_range(idxs.take(k), n) == Some(i),
    ensures
        first_out_of_range(idxs, n) == Some(i),
    decreases idxs.len() - k,
{
    if k < idxs.len() {
        assert(idxs.take(k + 1).drop_last() =~= idxs.take(k));
        lemma_first_out_of_range_found(idxs, k + 1, n, i);
    } else {
        assert(idxs.take(k) =~= idxs);
    }
}

/// Once a prefix of the lines is refused, the file is refused the same way.
proof fn lemma_read_lines_error(ls: Seq<Seq<char>>, k: int, e: ParseErrorModel)
    requires
        0 <= k <= ls.len(),
        read_lines(ls.take(k)) == Err::<ParseState, ParseErrorModel>(e),
    ensures
        read_lines(ls) == Err::<ParseState, ParseErrorModel>(e),
    decreases ls.len() - k,
{
    if k < ls.len() {
        assert(ls.take(k + 1).drop_last() =~= ls.take(k));
        lemma_read_lines_error(ls, k + 1, e);
    } else {
        assert(ls.take(k) =~= ls);
    }
}

/// Once a question of a prefix has a problem, it is the first problem of all.
proof fn lemma_first_problem_found(qs: Seq<QuestionModel>, k: int, e: ParseErrorModel)
    requires
        0 <= k <= qs.len(),
        first_problem(qs.take(k)) == Some(e),
    ensures
        first_problem(qs) == Some(e),
    decreases qs.len() - k,
{
    if k < qs.len() {
        assert(qs.take(k + 1).drop_last() =~= qs.take(k));
        lemma_first_problem_found(qs, k + 1, e);
    } else {
        assert(qs.take(k) =~= qs);
    }
}

/// The questions of a question file whose text is `content`, or why the file is
/// refused (see `parsed_questions`).
pub fn parse_questions(content: &str) -> (r: Result<Vec<Question>, QuestionParseError>)
    ensures
        match r {
            Ok(qs) => parsed_questions(content@) == Ok::<Seq<QuestionModel>, ParseErrorModel>(models(qs@)),
            Err(e) => parsed_questions(content@) == Err::<Seq<QuestionModel>, ParseErrorModel>(e@),
        },
{
    let chars = str_chars(content);
    let unix = replace_char_pair(&chars, '\r', '\n', '\n');
    let lines = split_chars(&unix, '\n');
    let ghost ls = lines@.map_values(|p: Vec<char>| p@);
    assert(ls == split_on(replace_pair(content@, '\r', '\n', '\n'), '\n'));
    let mut questions: Vec<Question> = Vec::new();
    let mut cur: Option<Question> = None;
    let mut mode = ParseMode::Plain;
    let mut i: usize = 0;
    assert(ls.take(0) =~= Seq::<Seq<char>>::empty());
    assert(models(questions@) =~= Seq::<QuestionModel>::empty());
    while i < lines.len()
        invariant
            i <= lines.len(),
            ls == lines@.map_values(|p: Vec<char>| p@),
            ls == split_on(replace_pair(content@, '\r', '\n', '\n'), '\n'),
            read_lines(ls.take(i as int)) == Ok::<ParseState, ParseErrorModel>(state_of(questions@, cur, mode)),
        decreases lines.len() - i,
    {
        assert(ls.take(i + 1).drop_last() =~= ls.take(i as int));
        assert(ls.take(i + 1).last() == lines@[i as int]@);
        match read_one_line(&mut questions, &mut cur, &mut mode, i + 1, &lines[i]) {
            Err(e) => {
                proof {
                    lemma_read_lines_error(ls, i as int + 1, e@);
                    assert(ls == split_on(replace_pair(content@, '\r', '\n', '\n'), '\n'));
                    assert(parsed_questions(content@) == Err::<Seq<QuestionModel>, ParseErrorModel>(e@));
                }
                return Err(e);
            },
            Ok(()) => {},
        }
        i += 1;
    }
    assert(ls.take(i as int) =~= ls);
    let last = cur.take();
    match last {
        Some(q) => {
            let ghost before = questions@;
            questions.push(q);
            assert(models(questions@) =~= models(before).push(q@));
        },
        None => {},
    }
    if questions.len() == 0 {
        return Err(QuestionParseError::NoQuestions);
    }
    let ghost qs = models(questions@);
    let mut k: usize = 0;
    while k < questions.len()
        invariant
            k <= questions.len(),
            qs == models(questions@),
            first_problem(qs.take(k as int)) is None,
            ls == split_on(replace_pair(content@, '\r', '\n', '\n'), '\n'),
            read_lines(ls) matches Ok(st) && finished_questions(st) == qs,
        decreases questions.len() - k,
    {
        assert(qs.take(k + 1).drop_last() =~= qs.take(k as int));
        assert(qs.take(k + 1).last() == questions@[k as int]@);
        match find_question_problem(&questions[k]) {
            Some(e) => {
                proof {
                    lemma_first_problem_found(qs, k as int + 1, e@);
                    assert(ls == split_on(replace_pair(content@, '\r', '\n', '\n'), '\n'));
                    assert(parsed_questions(content@) == Err::<Seq<QuestionModel>, ParseErrorModel>(e@));
                }
                return Err(e);
            },
            None => {},
        }
        k += 1;
    }
    assert(qs.take(k as int) =~= qs);
    Ok(questions)
}

/// Whether a question is complete: it has a text; with options, it names at
/// least one correct option and only existing ones; without options, it has an
/// expected text.
pub open spec fn question_is_complete(q: QuestionModel) -> bool {
    &&& q.text.len() > 0
    &&& q.options.len() > 0 ==> q.correct_indices.len() > 0 && forall|k: int|
        0 <= k < q.correct_indices.len() ==> #[trigger] q.correct_indices[k] < q.options.len()
    &&& q.options.len() == 0 ==> q.correct_text.len() > 0
}

proof fn lemma_no_index_out_of_range(idxs: Seq<usize>, n: nat)
    requires
        first_out_of_range(idxs, n) is None,
    ensures
        forall|k: int| 0 <= k < idxs.len() ==> #[trigger] idxs[k] < n,
    decreases idxs.len(),
{
    if idxs.len() > 0 {
        lemma_no_index_out_of_range(idxs.drop_last(), n);
        assert forall|k: int| 0 <= k < idxs.len() implies #[trigger] idxs[k] < n by {
            if k < idxs.len() - 1 {
                assert(idxs[k] == idxs.drop_last()[k]);
            }
        }
    }
}

proof fn lemma_no_problem(qs: Seq<QuestionModel>)
    requires
        first_problem(qs) is None,
    ensures
        forall|k: int| 0 <= k < qs.len() ==> question_is_complete(#[trigger] qs[k]),
    decreases qs.len(),
{
    if qs.len() > 0 {
        lemma_no_problem(qs.drop_last());
        assert forall|k: int| 0 <= k < qs.len() implies question_is_complete(#[trigger] qs[k]) by {
            if k < qs.len() - 1 {
                assert(qs[k] == qs.drop_last()[k]);
            } else {
                let q = qs[k];
                if q.options.len() > 0 {
                    lemma_no_index_out_of_range(q.correct_indices, q.options.len());
                }
            }
        }
    }
}

/// A file that is read gives at least one question, and every question it gives is complete.
pub proof fn lemma_parsed_questions_are_complete(content: Seq<char>)
    ensures
        parsed_questions(content) matches Ok(qs) ==> qs.len() > 0 && forall|k: int|
            0 <= k < qs.len() ==> question_is_complete(#[trigger] qs[k]),
{
    let lines = split_on(replace_pair(content, '\r', '\n', '\n'), '\n');
    match read_lines(lines) {
        Ok(st) => {
            let qs = finished_questions(st);
            if qs.len() > 0 && first_problem(qs) is None {
                lemma_no_problem(qs);
            }
        },
        Err(_) => {},
    }
}

/// The line numbers at which the questions `qs` start.
pub open spec fn start_lines(qs: Seq<QuestionModel>) -> Seq<nat> {
    qs.map_values(|q: QuestionModel| q.line)
}

/// Whether the line numbers `ls` rise strictly and each names a line of `lines`
/// (counted from one) that opens a question.
pub open spec fn starts_in_file_order(ls: Seq<nat>, lines: Seq<Seq<char>>) -> bool {
    &&& forall|i: int, j: int| 0 <= i < j < ls.len() ==> ls[i] < ls[j]
    &&& forall|k: int|
        0 <= k < ls.len() ==> 1 <= #[trigger] ls[k] <= lines.len() && has_prefix(
            trim(lines[ls[k] - 1]),
            "- question:"@,
        )
}

proof fn lemma_read_lines_in_file_order(lines: Seq<Seq<char>>)
    ensures
        read_lines(lines) matches Ok(st) ==> starts_in_file_order(start_lines(finished_questions(st)), lines),
    decreases lines.len(),
{
    if lines.len() > 0 {
        let prev = lines.drop_last();
        lemma_read_lines_in_file_order(prev);
        match read_lines(prev) {
            Err(_) => {},
            Ok(st0) => {
                let n = lines.len();
                let ls0 = start_lines(finished_questions(st0));
                assert forall|k: int| 0 <= k < ls0.len() implies 1 <= #[trigger] ls0[k] <= lines.len() && has_prefix(
                    trim(lines[ls0[k] - 1]),
                    "- question:"@,
                ) by {
                    assert(lines[ls0[k] - 1] == prev[ls0[k] - 1]);
                }
                match read_line(st0, n, lines.last()) {
                    Err(_) => {},
                    Ok(st) => {
                        let ls = start_lines(finished_questions(st));
                        let line = trim(lines.last());
                        if line.len() == 0 || line[0] == '#' {
                        } else if has_prefix(line, "- question:"@) {
                            assert(finished_questions(st) == finished_questions(st0).push(
                                new_question(unquoted(line.skip("- question:"@.len() as int)), n),
                            ));
                            assert(ls =~= ls0.push(n));
                            assert(lines[n - 1] == lines.last());
                        } else {
                            let q = st0.cur->0;
                            assert(st.questions == st0.questions);
                            assert(st.cur is Some && st.cur->0.line == q.line);
                            assert(ls =~= ls0);
                        }
                    },
                }
            },
        }
    }
}

/// The questions of a file come in the order of the file: their line numbers
/// rise strictly, and each is the number (counted from one) of a line that
/// opens a question.
pub proof fn lemma_parsed_questions_in_file_order(content: Seq<char>)
    ensures
        parsed_questions(content) matches Ok(qs) ==> {
            &&& forall|i: int, j: int| 0 <= i < j < qs.len() ==> qs[i].line < qs[j].line
            &&& forall|k: int|
                0 <= k < qs.len() ==> 1 <= #[trigger] qs[k].line <= file_lines(content).len() && has_prefix(
                    trim(file_lines(content)[qs[k].line - 1]),
                    "- question:"@,
                )
        },
{
    let lines = file_lines(content);
    lemma_read_lines_in_file_order(lines);
    match read_lines(lines) {
        Ok(st) => {
            let qs = finished_questions(st);
            let ls = start_lines(qs);
            assert forall|i: int, j: int| 0 <= i < j < qs.len() implies qs[i].line < qs[j].line by {
                assert(ls[i] == qs[i].line && ls[j] == qs[j].line);
            }
            assert forall|k: int| 0 <= k < qs.len() implies 1 <= #[trigger] qs[k].line <= lines.len() && has_prefix(
                trim(lines[qs[k].line - 1]),
                "- question:"@,
            ) by {
                assert(ls[k] == qs[k].line);
            }
        },
        Err(_) => {},
    }
}

/// A `correct:` value that is one plain number `n` makes `n` the only correct
/// index, counted from zero as in the bracketed list, so `correct: n` and
/// `correct: [n]` set the same; nothing else of the question changes.
pub proof fn lemma_single_correct_index(q: QuestionModel, line_no: nat, val: Seq<char>, n: nat)
    requires
        usize_from_text(val) == Ok::<nat, IntErrorKind>(n),
    ensures
        read_correct(q, line_no, val) == Ok::<QuestionModel, ParseErrorModel>(
            QuestionModel { correct_indices: seq![n as usize], ..q },
        ),
        read_correct(q, line_no, seq!['['] + val + seq![']']) == read_correct(q, line_no, val),
{
    lemma_number_has_no_comma(val);
    assert(val[0] != '[');
    let b = seq!['['] + val + seq![']'];
    assert(b.subrange(1, b.len() - 1) =~= val);
    lemma_split_on_without_separator(val, ',');
    let ps = split_on(val, ',');
    assert(ps =~= seq![val]);
    assert(ps.drop_last() =~= Seq::<Seq<char>>::empty());
    assert(index_list(ps.drop_last()) == Ok::<Seq<usize>, IntErrorKind>(Seq::empty()));
    assert(index_list(ps) == Ok::<Seq<usize>, IntErrorKind>(seq![n as usize]));
}

} // verus!
