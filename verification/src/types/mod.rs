pub mod answer_type;
pub mod console_operation_type;

use vstd::prelude::*;

verus! {

/// How a parsed question is to be answered: by picking one option, by picking
/// several, or by typing a text.
#[derive(Debug, Clone, Copy, PartialEq, Eq, Structural)]
pub enum AnswerType {
    Single,
    Multiple,
    Text,
}

/// The line that tells how a parsed question of type `t` is to be answered.
pub open spec fn answer_type_label(t: AnswerType) -> Seq<char> {
    match t {
        AnswerType::Single => "[ВЫБЕРИТЕ ОДИН ОТВЕТ]"@,
        AnswerType::Multiple => "[ВЫБЕРИТЕ НЕСКОЛЬКО ОТВЕТОВ]"@,
        AnswerType::Text => "[ВВЕДИТЕ ТЕКСТОВЫЙ ОТВЕТ]"@,
    }
}

impl AnswerType {
    /// The line that tells how a parsed question of this type is to be answered.
    pub fn label(&self) -> (r: String)
        ensures
            r@ == answer_type_label(*self),
    {
        match self {
            AnswerType::Single => String::from_str("[ВЫБЕРИТЕ ОДИН ОТВЕТ]"),
            AnswerType::Multiple => String::from_str("[ВЫБЕРИТЕ НЕСКОЛЬКО ОТВЕТОВ]"),
            AnswerType::Text => String::from_str("[ВВЕДИТЕ ТЕКСТОВЫЙ ОТВЕТ]"),
        }
    }
}

} // verus!
