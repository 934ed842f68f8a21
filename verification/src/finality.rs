//! The rule that decides when a height may be made final.

use vstd::prelude::*;

verus! {

/// When a pending height has become final.
#[derive(Clone, Copy, Debug, PartialEq, Eq, Structural)]
pub enum FinalityRule {
    /// A height is final once the data-availability layer reports a final
    /// height at or above it.
    DaReported,
    /// A height is final once the tip stands this many heights above it.
    Depth(u64),
}

impl FinalityRule {
    /// Whether `height` is final when the tip is at `tip` and the
    /// data-availability layer reports `da_finalized` as final.
    pub open spec fn allows(self, height: u64, tip: u64, da_finalized: u64) -> bool {
        match self {
            FinalityRule::DaReported => height <= da_finalized,
            FinalityRule::Depth(d) => height + d <= tip,
        }
    }

    /// The rule that a configuration selects: a confirmation depth, where one
    /// is given, takes precedence over the height that the data-availability
    /// layer reports. With neither, no rule is selected.
    pub fn resolve(da_reported: bool, depth: Option<u64>) -> (r: Option<FinalityRule>)
        ensures
            r == match depth {
                Some(d) => Some(FinalityRule::Depth(d)),
                None => if da_reported {
                    Some(FinalityRule::DaReported)
                } else {
                    None::<FinalityRule>
                },
            },
    {
        match depth {
            Some(d) => Some(FinalityRule::Depth(d)),
            None => if da_reported {
                Some(FinalityRule::DaReported)
            } else {
                None
            },
        }
    }

    /// Decides whether `height` may be made final.
    pub fn is_final(&self, height: u64, tip: u64, da_finalized: u64) -> (r: bool)
        ensures
            r == self.allows(height, tip, da_finalized),
    {
        match self {
            FinalityRule::DaReported => height <= da_finalized,
            FinalityRule::Depth(d) => *d <= tip && height <= tip - *d,
        }
    }
}

} // verus!
