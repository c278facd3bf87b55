//! Tests of the small parts: the page queues' types and the scanner.

use kernel_vm::page_queues::{ActiveInactiveCounts, Counts, ReclaimCounts};
use kernel_vm::scanner::{AutoVmScannerDisable, ScannerDisableCount};

#[test]
fn scanner_disables_nest() {
    let mut scanner = ScannerDisableCount::new();
    assert!(!scanner.is_disabled());
    let outer = AutoVmScannerDisable::new(&mut scanner);
    let inner = AutoVmScannerDisable::new(&mut scanner);
    assert!(scanner.is_disabled());
    inner.release(&mut scanner);
    assert!(scanner.is_disabled());
    outer.release(&mut scanner);
    assert!(!scanner.is_disabled());
}

#[test]
fn queue_counts_start_at_zero() {
    let counts = Counts::default();
    assert_eq!(counts.reclaim, [0; 8]);
    assert_eq!(counts.wired, 0);
    let reclaim = ReclaimCounts::default();
    assert_eq!((reclaim.total, reclaim.newest, reclaim.oldest), (0, 0, 0));
    let active = ActiveInactiveCounts::default();
    assert_eq!((active.active, active.inactive), (0, 0));
}
