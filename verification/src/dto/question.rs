use vstd::prelude::*;
use crate::text::{join, lemma_join_push, push_chars, str_chars, string_from_chars};
use crate::types::AnswerType;

verus! {

/// A question read from a question file: its text, its options (none for a
/// question answered by text), the indices of the right options, the expected
/// text, the further accepted texts, and the line of the file where it starts.
#[derive(Debug, Clone)]
pub struct Question {
    pub text: String,
    pub options: Vec<String>,
    pub correct_indices: Vec<usize>,
    pub correct_text: String,
    pub accept: Vec<String>,
    pub line: usize,
}

#[verifier::ext_equal]
/// A question in mathematical terms.
pub struct QuestionModel {
    pub text: Seq<char>,
    pub options: Seq<Seq<char>>,
    pub correct_indices: Seq<usize>,
    pub correct_text: Seq<char>,
    pub accept: Seq<Seq<char>>,
    pub line: nat,
}

impl View for Question {
    type V = QuestionModel;

    open spec fn view(&self) -> QuestionModel {
        QuestionModel {
            text: self.text@,
            options: self.options@.map_values(|s: String| s@),
            correct_indices: self.correct_indices@,
            correct_text: self.correct_text@,
            accept: self.accept@.map_values(|s: String| s@),
            line: self.line as nat,
        }
    }
}

/// How a question in these terms is answered.
pub open spec fn answer_type_of(q: QuestionModel) -> AnswerType {
    if q.options.len() > 0 {
        if q.correct_indices.len() > 1 {
            AnswerType::Multiple
        } else {
            AnswerType::Single
        }
    } else {
        AnswerType::Text
    }
}

/// The text that names the right answer of `q`: the right options joined by
/// ", " for a question with options, the expected text otherwise.
pub open spec fn correct_answer_text(q: QuestionModel) -> Seq<char> {
    if q.options.len() > 0 {
        join(q.correct_indices.map_values(|i: usize| q.options[i as int]), seq![',', ' '])
    } else {
        q.correct_text
    }
}

impl Question {
    /// Whether the question is answered by picking options.
    pub fn is_choice(&self) -> (r: bool)
        ensures
            r == (self@.options.len() > 0),
    {
        self.options.len() != 0
    }

    fn is_multiple_choice(&self) -> (r: bool)
        ensures
            r == (self@.options.len() > 0 && self@.correct_indices.len() > 1),
    {
        self.is_choice() && self.correct_indices.len() > 1
    }

    /// How the question is answered.
    pub fn get_answer_type(&self) -> (r: AnswerType)
        ensures
            r == answer_type_of(self@),
    {
        if self.is_choice() {
            if self.is_multiple_choice() {
                AnswerType::Multiple
            } else {
                AnswerType::Single
            }
        } else {
            AnswerType::Text
        }
    }

    /// The text that names the right answer (see `correct_answer_text`).
    pub fn correct_answer_string(&self) -> (r: String)
        requires
            forall|k: int|
                0 <= k < self.correct_indices@.len() ==> #[trigger] self.correct_indices@[k]
                    < self.options@.len(),
        ensures
            r@ == correct_answer_text(self@),
    {
        if self.is_choice() {
            let ghost picked = self@.correct_indices.map_values(|i: usize| self@.options[i as int]);
            let mut out: Vec<char> = Vec::new();
            let mut k: usize = 0;
            while k < self.correct_indices.len()
                invariant
                    k <= self.correct_indices.len(),
                    picked == self@.correct_indices.map_values(|i: usize| self@.options[i as int]),
                    forall|m: int|
                        0 <= m < self.correct_indices@.len() ==> #[trigger] self.correct_indices@[m]
                            < self.options@.len(),
                    out@ == join(picked.take(k as int), seq![',', ' ']),
                decreases self.correct_indices.len() - k,
            {
                let idx = self.correct_indices[k];
                let opt = str_chars(self.options[idx].as_str());
                proof {
                    assert(picked.take(k + 1) =~= picked.take(k as int).push(opt@));
                    lemma_join_push(picked.take(k as int), seq![',', ' '], opt@);
                }
                if k > 0 {
                    out.push(',');
                    out.push(' ');
                }
                push_chars(&mut out, &opt);
                k += 1;
            }
            assert(picked.take(k as int) =~= picked);
            string_from_chars(out.as_slice())
        } else {
            self.correct_text.clone()
        }
    }
}

} // verus!
