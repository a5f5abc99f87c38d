//! Reading the output of `git status --porcelain`.
use vstd::prelude::*;

use crate::text::{is_blank, trim};

verus! {

/// Whether a working tree is clean (no modified or untracked files), given
/// the output of `git status --porcelain` for it: the output is empty once
/// surrounding whitespace is removed.
pub fn is_clean(status_output: &str) -> (r: bool)
    ensures
        r == is_blank(status_output@),
{
    let t = trim(status_output);
    t.unicode_len() == 0
}

} // verus!
