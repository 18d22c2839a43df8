use vstd::prelude::*;
use crate::dto::test::CfgTest;

verus! {

/// How a question was answered: the question, the answer as it is reported, and
/// whether it was right.
#[derive(Debug, Clone)]
pub struct AnswerResult {
    pub question: CfgTest,
    pub user_answer: String,
    pub correct: bool,
}

/// The line that tells whether an answer was right.
pub open spec fn verdict_text(correct: bool) -> Seq<char> {
    if correct {
        "  Верно"@
    } else {
        "  Неверно"@
    }
}

impl AnswerResult {
    /// The line that tells whether this answer was right.
    pub fn verdict_line(&self) -> (r: String)
        ensures
            r@ == verdict_text(self.correct),
    {
        if self.correct {
            String::from_str("  Верно")
        } else {
            String::from_str("  Неверно")
        }
    }
}

} // verus!
