use vstd::prelude::*;
use vstd::string::StringExecFns;

use crate::error;
use crate::error::decimal_text;

verus! {

/// An estimate or exact count of lines in a branch.
///
/// `exact: false` means the value was extrapolated from a partially-scanned
/// segment map; its text starts with `~`.  `exact: true` means the whole
/// branch has been scanned and the value is authoritative.
#[derive(Debug, Clone, Copy, PartialEq, Eq, Hash, Structural)]
pub struct LineCount {
    /// The line count (exact or estimated).
    pub value: usize,
    /// `true` when the full branch has been scanned.
    pub exact: bool,
}

impl LineCount {
    /// Construct an exact count.
    pub fn exact(value: usize) -> (count: Self)
        ensures
            count == (LineCount { value, exact: true }),
    {
        Self { value, exact: true }
    }

    /// Construct an estimated (extrapolated) count.
    pub fn estimate(value: usize) -> (count: Self)
        ensures
            count == (LineCount { value, exact: false }),
    {
        Self { value, exact: false }
    }

    /// The count in decimal, after a `~` where it is an estimate.
    pub fn to_string(&self) -> (text: String)
        ensures
            text@ == (if self.exact {
                error::decimal(self.value as nat)
            } else {
                "~"@ + error::decimal(self.value as nat)
            }),
    {
        if self.exact {
            decimal_text(self.value as u64)
        } else {
            let mut text = "~".to_owned();
            text.append(decimal_text(self.value as u64).as_str());
            text
        }
    }
}

} // verus!
