use vstd::prelude::*;
use crate::types::answer_type::{AnswerKind, AnswerModel, AnswerType};
use crate::text::{join, lemma_join_push, push_chars, str_chars, string_from_chars};

verus! {

broadcast use vstd::std_specs::hash::group_hash_axioms;

/// One answer option of a question.
#[derive(Debug, Clone)]
pub struct CfgOption {
    pub answer: String,
}

/// One question of a test file: its text, its options (none for a text question),
/// its correct answer and the further texts accepted for a text question.
#[derive(Debug, Clone)]
pub struct CfgTest {
    pub question: String,
    pub options: Vec<CfgOption>,
    pub correct: AnswerType,
    pub accept: Vec<String>,
}

/// The questions of a test file, with the subject of the exam.
#[derive(Debug, Clone)]
pub struct CfgTests {
    pub exam_subject: String,
    pub questions: Vec<CfgTest>,
}

/// The question pool of a session and how many of them a run asks.
#[derive(Debug, Clone)]
pub struct CliTests {
    pub questions: Vec<CfgTest>,
    pub count: usize,
}

/// The members of `s` below `n`, in ascending order.
pub open spec fn indices_below(s: Set<usize>, n: nat) -> Seq<usize>
    decreases n,
{
    if n == 0 {
        Seq::empty()
    } else {
        let prev = indices_below(s, (n - 1) as nat);
        if s.contains((n - 1) as usize) {
            prev.push((n - 1) as usize)
        } else {
            prev
        }
    }
}

/// Every member of `indices_below(s, n)` is a member of `s` below `n`.
pub proof fn lemma_indices_below(s: Set<usize>, n: nat)
    ensures
        forall|k: int| 0 <= k < indices_below(s, n).len() ==> #[trigger] indices_below(s, n)[k] < n
            && s.contains(indices_below(s, n)[k]),
    decreases n,
{
    if n > 0 {
        lemma_indices_below(s, (n - 1) as nat);
        let prev = indices_below(s, (n - 1) as nat);
        assert forall|k: int| 0 <= k < indices_below(s, n).len() implies #[trigger] indices_below(s, n)[k] < n
            && s.contains(indices_below(s, n)[k]) by {
            if k < prev.len() {
                assert(indices_below(s, n)[k] == prev[k]);
            }
        }
    }
}

impl CfgTest {
    /// Whether the correct answer names only existing options.
    pub open spec fn answer_in_range(&self) -> bool {
        match self.correct@ {
            AnswerModel::SingleAnswer(i) => i < self.options@.len(),
            AnswerModel::MultipleAnswer(s) => forall|i: usize| s.contains(i) ==> i < self.options@.len(),
            AnswerModel::TextAnswer(_) => true,
        }
    }

    /// The positions of the correct options, in ascending order (none for a text question).
    pub open spec fn correct_positions(&self) -> Seq<usize> {
        match self.correct@ {
            AnswerModel::SingleAnswer(i) => seq![i],
            AnswerModel::MultipleAnswer(s) => indices_below(s, self.options@.len()),
            AnswerModel::TextAnswer(_) => Seq::empty(),
        }
    }

    /// The text that names the right answer: the right option, the right options
    /// joined by ", " in the order of the options, or the expected text.
    pub open spec fn correct_answer_text(&self) -> Seq<char> {
        match self.correct@ {
            AnswerModel::TextAnswer(t) => t,
            _ => join(self.correct_positions().map_values(|i: usize| self.option_texts()[i as int]), seq![',', ' ']),
        }
    }

    /// The text that names the right answer (see `correct_answer_text`).
    pub fn correct_answer_string(&self) -> (r: String)
        requires
            self.answer_in_range(),
        ensures
            r@ == self.correct_answer_text(),
    {
        match &self.correct {
            AnswerType::SingleAnswer(idx) => {
                let r = self.options[*idx].answer.clone();
                assert(join(seq![self.option_texts()[*idx as int]], seq![',', ' ']) == self.option_texts()[*idx as int]);
                assert(self.correct_positions().map_values(|i: usize| self.option_texts()[i as int]) =~= seq![self.option_texts()[*idx as int]]);
                r
            },
            AnswerType::MultipleAnswer(set) => {
                let n = self.options.len();
                let ghost s = set@;
                let mut out: Vec<char> = Vec::new();
                let mut any = false;
                let mut i: usize = 0;
                while i < n
                    invariant
                        i <= n == self.options.len(),
                        s == set@,
                        any == (indices_below(s, i as nat).len() > 0),
                        out@ == join(indices_below(s, i as nat).map_values(|k: usize| self.option_texts()[k as int]), seq![',', ' ']),
                    decreases n - i,
                {
                    let ghost prev = indices_below(s, i as nat).map_values(|k: usize| self.option_texts()[k as int]);
                    if set.contains(&i) {
                        let opt = str_chars(self.options[i].answer.as_str());
                        proof {
                            assert(indices_below(s, (i + 1) as nat) == indices_below(s, i as nat).push(i));
                            assert(indices_below(s, (i + 1) as nat).map_values(|k: usize| self.option_texts()[k as int])
                                =~= prev.push(opt@));
                            lemma_join_push(prev, seq![',', ' '], opt@);
                        }
                        if any {
                            out.push(',');
                            out.push(' ');
                        }
                        push_chars(&mut out, &opt);
                        any = true;
                    } else {
                        assert(indices_below(s, (i + 1) as nat) == indices_below(s, i as nat));
                    }
                    i += 1;
                }
                string_from_chars(out.as_slice())
            },
            AnswerType::TextAnswer(text) => text.clone(),
        }
    }

    /// The texts of the options, in order.
    pub open spec fn option_texts(&self) -> Seq<Seq<char>> {
        self.options@.map_values(|o: CfgOption| o.answer@)
    }

    /// The further accepted texts, in order.
    pub open spec fn accept_texts(&self) -> Seq<Seq<char>> {
        self.accept@.map_values(|s: String| s@)
    }

    /// How this question is answered.
    pub fn get_answer_type(&self) -> (k: AnswerKind)
        ensures
            k == self.correct.spec_kind(),
    {
        self.correct.kind()
    }
}

} // verus!
