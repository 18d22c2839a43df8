use vstd::prelude::*;
use crate::text::{equals_str, lemma_trim_idempotent, str_chars, trim, trim_chars};

verus! {

/// A command typed at the console.
#[derive(Debug, Clone, Copy, PartialEq, Eq, Structural)]
pub enum ConsoleOperation {
    Quit,
    Start,
    Restart,
    Skip,
    Unknown,
}

/// The command that the typed text `s` names once trimmed; each command has a
/// Russian and an English spelling.
pub open spec fn operation_of(s: Seq<char>) -> ConsoleOperation {
    let t = trim(s);
    if t == "!выход"@ || t == "!quit"@ {
        ConsoleOperation::Quit
    } else if t == "!старт"@ || t == "!start"@ {
        ConsoleOperation::Start
    } else if t == "!рестарт"@ || t == "!restart"@ {
        ConsoleOperation::Restart
    } else if t == "!пропуск"@ || t == "!skip"@ {
        ConsoleOperation::Skip
    } else {
        ConsoleOperation::Unknown
    }
}

/// Whitespace around a command does not change which command it is.
pub proof fn lemma_operation_ignores_surrounding_whitespace(s: Seq<char>)
    ensures
        operation_of(trim(s)) == operation_of(s),
{
    lemma_trim_idempotent(s);
}

impl ConsoleOperation {
    /// The command named by the typed text `input` (see `operation_of`).
    pub fn from_input(input: &str) -> (r: ConsoleOperation)
        ensures
            r == operation_of(input@),
    {
        let t = trim_chars(&str_chars(input));
        if equals_str(&t, "!выход") || equals_str(&t, "!quit") {
            ConsoleOperation::Quit
        } else if equals_str(&t, "!старт") || equals_str(&t, "!start") {
            ConsoleOperation::Start
        } else if equals_str(&t, "!рестарт") || equals_str(&t, "!restart") {
            ConsoleOperation::Restart
        } else if equals_str(&t, "!пропуск") || equals_str(&t, "!skip") {
            ConsoleOperation::Skip
        } else {
            ConsoleOperation::Unknown
        }
    }
}

} // verus!
