//! Disabling the scanner of accessed pages for a while.

use vstd::prelude::*;

verus! {

/// How many reasons there are for the scanner not to run.
#[derive(PartialEq, Eq, Structural, Debug)]
pub struct ScannerDisableCount {
    pub count: u64,
}

impl ScannerDisableCount {
    /// A scanner that runs.
    pub fn new() -> (scanner: ScannerDisableCount)
        ensures
            scanner.count == 0,
    {
        ScannerDisableCount { count: 0 }
    }

    pub fn is_disabled(&self) -> (disabled: bool)
        ensures
            disabled == (self.count > 0),
    {
        self.count > 0
    }
}

/// Keeps the scanner disabled until it is released. These nest: the scanner runs again once the
/// last of them is gone.
#[derive(Debug)]
pub struct AutoVmScannerDisable {}

impl AutoVmScannerDisable {
    /// Disables the scanner.
    pub fn new(scanner: &mut ScannerDisableCount) -> (guard: AutoVmScannerDisable)
        requires
            old(scanner).count < u64::MAX,
        ensures
            final(scanner).count == old(scanner).count + 1,
    {
        scanner.count = scanner.count + 1;
        AutoVmScannerDisable {  }
    }

    /// Restores the scanner to the state that it was in before.
    pub fn release(self, scanner: &mut ScannerDisableCount)
        requires
            old(scanner).count > 0,
        ensures
            final(scanner).count == old(scanner).count - 1,
    {
        scanner.count = scanner.count - 1;
    }
}

} // verus!
