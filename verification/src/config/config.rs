//! The settings of the program that are not numbers with fractions.
use vstd::prelude::*;
use crate::text::{copy_range, parse_usize, str_chars, trim, trim_chars, usize_from_text};

verus! {

/// Where the settings file is read from.
pub const CONFIG_PATH: &'static str = "config/config.yaml";

/// The pause written as `text`, in milliseconds: a whole number followed by
/// `ms`, or by `s` for seconds; surrounding whitespace is ignored.
pub open spec fn delay_from_text(text: Seq<char>) -> Option<nat> {
    let t = trim(text);
    if t.len() >= 2 && t[t.len() - 2] == 'm' && t[t.len() - 1] == 's' {
        match usize_from_text(t.take(t.len() - 2)) {
            Ok(n) => Some(n),
            Err(_) => None,
        }
    } else if t.len() >= 1 && t[t.len() - 1] == 's' {
        match usize_from_text(t.take(t.len() - 1)) {
            Ok(n) => if n * 1000 <= u64::MAX {
                Some(n * 1000)
            } else {
                None
            },
            Err(_) => None,
        }
    } else {
        None
    }
}

/// The pause written as `text`, in milliseconds (see `delay_from_text`).
pub fn delay_millis(text: &str) -> (r: Option<u64>)
    ensures
        match r {
            Some(ms) => delay_from_text(text@) == Some(ms as nat),
            None => delay_from_text(text@) is None,
        },
{
    let t = trim_chars(&str_chars(text));
    let n = t.len();
    if n >= 2 && t[n - 2] == 'm' && t[n - 1] == 's' {
        let digits = copy_range(&t, 0, n - 2);
        assert(digits@ =~= t@.take(n - 2));
        match parse_usize(&digits) {
            Ok(k) => Some(k as u64),
            Err(_) => None,
        }
    } else if n >= 1 && t[n - 1] == 's' {
        let digits = copy_range(&t, 0, n - 1);
        assert(digits@ =~= t@.take(n - 1));
        match parse_usize(&digits) {
            Ok(k) => {
                let k64 = k as u64;
                if k64 <= u64::MAX / 1000 {
                    Some(k64 * 1000)
                } else {
                    None
                }
            },
            Err(_) => None,
        }
    } else {
        None
    }
}

} // verus!
