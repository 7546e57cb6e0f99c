//! The decision taken at each entry of a directory during a scan.
use vstd::prelude::*;
use vstd::string::StrSliceExecFns;
use crate::text::matches_at;
use crate::url::git_ext;

verus! {

/// What a scan does with one entry of a directory `D`.
#[derive(Debug, Clone, Copy, PartialEq, Eq, Structural)]
pub enum ScanStep {
    /// Not a directory: nothing to do.
    Skip,
    /// A directory named `.git`: `D` is a repository; `.git` itself is not entered.
    Repository,
    /// Another directory: scan it.
    Descend,
}

/// The step for an entry named `name`, which is a directory when `is_dir`.
pub fn scan_step(is_dir: bool, name: &str) -> (r: ScanStep)
    ensures
        r == (if !is_dir {
            ScanStep::Skip
        } else if name@ == git_ext() {
            ScanStep::Repository
        } else {
            ScanStep::Descend
        }),
{
    if !is_dir {
        return ScanStep::Skip;
    }
    let n = name.unicode_len();
    proof {
        reveal_strlit(".git");
        assert(".git"@ =~= git_ext());
        assert(name@.subrange(0, n as int) =~= name@);
    }
    if n == 4 && matches_at(name, 0, n, ".git") {
        ScanStep::Repository
    } else {
        ScanStep::Descend
    }
}

} // verus!
