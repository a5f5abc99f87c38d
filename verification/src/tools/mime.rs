//! Reading the default desktop entry of a MIME type from `xdg-mime`.
use vstd::prelude::*;

use crate::text::{same_text, trim, trimmed};

verus! {

/// The default desktop entry for a MIME type, given the output of
/// `xdg-mime query default` for it, or `None` when `xdg-mime` is not
/// available: the output with surrounding whitespace removed.
pub fn query_default(query_output: Option<&str>) -> (r: Option<String>)
    ensures
        match query_output {
            Some(out) => r matches Some(v) && v@ == trimmed(out@),
            None => r is None,
        },
{
    match query_output {
        Some(out) => Some(trim(out)),
        None => None,
    }
}

/// Whether the default desktop entry `current` (as [`query_default`] gives
/// it) is `expected`. Without `xdg-mime` the answer is `false`.
pub fn is_default(current: &Option<String>, expected: &str) -> (r: bool)
    ensures
        r == (current matches Some(v) && v@ == expected@),
{
    match current {
        Some(v) => same_text(v.as_str(), expected),
        None => false,
    }
}

} // verus!
