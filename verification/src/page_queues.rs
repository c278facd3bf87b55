//! The queues that pages owned by objects are in, and how they are counted.

use vstd::prelude::*;

use crate::vm_page::VmPagePtr;

verus! {

/// The number of reclaim queues. Pages move from the first, which is for those accessed most
/// recently, towards the last.
pub const NUM_RECLAIM: usize = 8;

/// The number of reclaim queues, from the first on, whose pages are active.
pub const NUM_ACTIVE_QUEUES: usize = 2;

/// How many pages the counts of active and inactive pages may be off by: two megabytes of them.
pub const ACTIVE_INACTIVE_ERROR_MARGIN: usize = 512;

/// The number of reclaim queues, from the last on, whose pages are the oldest.
pub const NUM_OLDEST_QUEUES: usize = 2;

/// The isolate queue for pages that are not needed.
pub const ISOLATE_QUEUE_DONT_NEED: usize = 0;

pub const ISOLATE_QUEUE_STANDARD: usize = 1;

pub const NUM_ISOLATE_QUEUES: usize = 2;

/// In nanoseconds.
pub const DEFAULT_MIN_MRU_ROTATE_TIME: i64 = 5_000_000_000;

/// In nanoseconds.
pub const DEFAULT_MAX_MRU_ROTATE_TIME: i64 = 5_000_000_000;

pub const DEFAULT_ACTIVE_RATIO_MULTIPLIER: u64 = 0;

/// Why the queues were aged.
#[derive(PartialEq, Eq, Structural, Clone, Copy, Debug, Hash)]
pub enum AgeReason {
    /// The time was up.
    Timeout,
    /// There were too many active pages.
    ActiveRatio,
    /// It was asked for.
    Manual,
}

/// What to do with the pages of the oldest queue.
#[derive(PartialEq, Eq, Structural, Clone, Copy, Debug, Hash)]
pub enum LruAction {
    Leave,
    EvictOnly,
    CompressOnly,
    EvictAndCompress,
}

/// The numbers of pages in the queues.
#[derive(Clone, Debug)]
pub struct Counts {
    pub reclaim: [usize; 8],
    pub reclaim_isolate: usize,
    pub pager_backed_dirty: usize,
    pub anonymous: usize,
    pub wired: usize,
    pub anonymous_zero_fork: usize,
    pub failed_reclaim: usize,
    pub high_priority: usize,
}

impl Default for Counts {
    fn default() -> (counts: Counts)
        ensures
            forall|i: int| 0 <= i < 8 ==> #[trigger] counts.reclaim[i] == 0,
            counts.reclaim_isolate == 0,
            counts.pager_backed_dirty == 0,
            counts.anonymous == 0,
            counts.wired == 0,
            counts.anonymous_zero_fork == 0,
            counts.failed_reclaim == 0,
            counts.high_priority == 0,
    {
        Counts {
            reclaim: [0, 0, 0, 0, 0, 0, 0, 0],
            reclaim_isolate: 0,
            pager_backed_dirty: 0,
            anonymous: 0,
            wired: 0,
            anonymous_zero_fork: 0,
            failed_reclaim: 0,
            high_priority: 0,
        }
    }
}

/// The numbers of pages in the reclaim queues.
#[derive(PartialEq, Eq, Structural, Clone, Copy, Debug)]
pub struct ReclaimCounts {
    pub total: usize,
    pub newest: usize,
    pub oldest: usize,
}

impl Default for ReclaimCounts {
    fn default() -> (counts: ReclaimCounts)
        ensures
            counts == (ReclaimCounts { total: 0, newest: 0, oldest: 0 }),
    {
        ReclaimCounts { total: 0, newest: 0, oldest: 0 }
    }
}

/// The numbers of pages that can be reclaimed and were, or were not, accessed recently.
#[derive(PartialEq, Eq, Structural, Clone, Copy, Debug)]
pub struct ActiveInactiveCounts {
    pub active: usize,
    pub inactive: usize,
}

impl Default for ActiveInactiveCounts {
    fn default() -> (counts: ActiveInactiveCounts)
        ensures
            counts == (ActiveInactiveCounts { active: 0, inactive: 0 }),
    {
        ActiveInactiveCounts { active: 0, inactive: 0 }
    }
}

/// Which object a page belongs to, and where in it.
#[derive(PartialEq, Eq, Clone, Copy, Debug)]
pub struct VmoBacklink {
    pub cow: Option<u64>,
    pub page: VmPagePtr,
    pub offset: u64,
}

} // verus!
