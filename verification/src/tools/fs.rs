//! Whether a build result is up to date with its prerequisites, judged
//! from modification times as `make` does.
use vstd::prelude::*;

verus! {

/// A target is up to date when it exists and every prerequisite exists and
/// is not newer than it. `None` stands for a file that does not exist.
pub open spec fn up_to_date_spec(target: Option<u64>, prerequisites: Seq<Option<u64>>) -> bool {
    match target {
        None => false,
        Some(t) => forall|i: int|
            0 <= i < prerequisites.len() ==> (#[trigger] prerequisites[i] matches Some(m) && m <= t),
    }
}

/// Whether a target is up to date with respect to its prerequisites, using
/// the same logic as `make`: the target needs a rebuild when it does not
/// exist, or when any prerequisite is newer (has a later modification
/// time). A missing prerequisite also means a rebuild, since the result
/// cannot be verified without it.
///
/// `target_mtime` and `prerequisite_mtimes` are modification times in
/// seconds since the Unix epoch, `None` for a missing file.
pub fn up_to_date(target_mtime: Option<u64>, prerequisite_mtimes: &[Option<u64>]) -> (r: bool)
    ensures
        r == up_to_date_spec(target_mtime, prerequisite_mtimes@),
{
    let t = match target_mtime {
        Some(t) => t,
        None => return false,
    };
    let mut i: usize = 0;
    while i < prerequisite_mtimes.len()
        invariant
            target_mtime == Some(t),
            i <= prerequisite_mtimes@.len(),
            forall|k: int|
                0 <= k < i ==> (#[trigger] prerequisite_mtimes@[k] matches Some(m) && m <= t),
        decreases prerequisite_mtimes@.len() - i,
    {
        match prerequisite_mtimes[i] {
            Some(m) => {
                if m > t {
                    return false;
                }
            },
            None => {
                return false;
            },
        }
        i = i + 1;
    }
    true
}

/// Once some prerequisites show a target out of date, further prerequisites
/// do not change that: the judgement can stop at the first missing or newer
/// one.
pub proof fn law_out_of_date_stays_out_of_date(target: Option<u64>, seen: Seq<Option<u64>>, rest: Seq<Option<u64>>)
    requires
        !up_to_date_spec(target, seen),
    ensures
        !up_to_date_spec(target, seen + rest),
{
    if let Some(t) = target {
        let i = choose|i: int| 0 <= i < seen.len() && !(#[trigger] seen[i] matches Some(m) && m <= t);
        assert((seen + rest)[i] == seen[i]);
    }
}

} // verus!
