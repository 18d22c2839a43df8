use std::collections::HashSet;
use vstd::prelude::*;

verus! {

broadcast use vstd::std_specs::hash::group_hash_axioms;

/// The three ways a question of a test file can be answered.
#[derive(Debug, Clone, Copy, PartialEq, Eq, Structural)]
pub enum AnswerKind {
    SingleAnswer,
    MultipleAnswer,
    TextAnswer,
}

/// The line that tells how a question of kind `k` is to be answered.
pub open spec fn kind_label(k: AnswerKind) -> Seq<char> {
    match k {
        AnswerKind::SingleAnswer => "[ВЫБЕРИТЕ ОДИН ОТВЕТ]"@,
        AnswerKind::MultipleAnswer => "[ВЫБЕРИТЕ НЕСКОЛЬКО ОТВЕТОВ]"@,
        AnswerKind::TextAnswer => "[ВВЕДИТЕ ТЕКСТОВЫЙ ОТВЕТ]"@,
    }
}

impl AnswerKind {
    /// The line that tells how a question of this kind is to be answered.
    pub fn label(&self) -> (r: String)
        ensures
            r@ == kind_label(*self),
    {
        match self {
            AnswerKind::SingleAnswer => String::from_str("[ВЫБЕРИТЕ ОДИН ОТВЕТ]"),
            AnswerKind::MultipleAnswer => String::from_str("[ВЫБЕРИТЕ НЕСКОЛЬКО ОТВЕТОВ]"),
            AnswerKind::TextAnswer => String::from_str("[ВВЕДИТЕ ТЕКСТОВЫЙ ОТВЕТ]"),
        }
    }
}

/// The correct answer of a question: the index of the one right option, the set of
/// indices of the right options, or the expected text.
#[derive(Debug)]
pub enum AnswerType {
    SingleAnswer(usize),
    MultipleAnswer(HashSet<usize>),
    TextAnswer(String),
}

/// What a correct answer says, in mathematical terms.
pub enum AnswerModel {
    SingleAnswer(usize),
    MultipleAnswer(Set<usize>),
    TextAnswer(Seq<char>),
}

impl View for AnswerType {
    type V = AnswerModel;

    open spec fn view(&self) -> AnswerModel {
        match self {
            AnswerType::SingleAnswer(i) => AnswerModel::SingleAnswer(*i),
            AnswerType::MultipleAnswer(s) => AnswerModel::MultipleAnswer(s@),
            AnswerType::TextAnswer(t) => AnswerModel::TextAnswer(t@),
        }
    }
}

impl AnswerType {
    pub open spec fn spec_kind(&self) -> AnswerKind {
        match self {
            AnswerType::SingleAnswer(_) => AnswerKind::SingleAnswer,
            AnswerType::MultipleAnswer(_) => AnswerKind::MultipleAnswer,
            AnswerType::TextAnswer(_) => AnswerKind::TextAnswer,
        }
    }

    /// Which of the three ways of answering this correct answer belongs to.
    pub fn kind(&self) -> (k: AnswerKind)
        ensures
            k == self.spec_kind(),
    {
        match self {
            AnswerType::SingleAnswer(_) => AnswerKind::SingleAnswer,
            AnswerType::MultipleAnswer(_) => AnswerKind::MultipleAnswer,
            AnswerType::TextAnswer(_) => AnswerKind::TextAnswer,
        }
    }
}

/// A copy of the set of indices `s`.
pub fn copy_index_set(s: &HashSet<usize>) -> (r: HashSet<usize>)
    ensures
        r@ == s@,
{
    let mut r: HashSet<usize> = HashSet::new();
    for x in it: s.iter()
        invariant
            it.seq().unref().to_set() == s@,
            forall|y: usize| r@.contains(y) ==> s@.contains(y),
            forall|y: usize|
                s@.contains(y) ==> r@.contains(y) || exists|k: int|
                    it.index() <= k < it.seq().len() && #[trigger] it.seq().unref()[k] == y,
    {
        proof {
            assert(it.seq().unref()[it.index() as int] == *x);
            assert(it.seq().unref().to_set().contains(*x));
            assert forall|y: usize| s@.contains(y) && !r@.insert(*x).contains(y) implies exists|k: int|
                it.index() + 1 <= k < it.seq().len() && #[trigger] it.seq().unref()[k] == y by {
                let k = choose|k: int| it.index() <= k < it.seq().len() && #[trigger] it.seq().unref()[k] == y;
                assert(k != it.index());
            }
        }
        r.insert(*x);
    }
    proof {
        assert(r@ =~= s@);
    }
    r
}

impl Clone for AnswerType {
    fn clone(&self) -> (r: Self)
        ensures
            r@ == self@,
    {
        match self {
            AnswerType::SingleAnswer(i) => AnswerType::SingleAnswer(*i),
            AnswerType::MultipleAnswer(s) => AnswerType::MultipleAnswer(copy_index_set(s)),
            AnswerType::TextAnswer(t) => AnswerType::TextAnswer(t.clone()),
        }
    }
}

} // verus!
