//! Counts what is attributed to an object, together with the most there has been.

use vstd::prelude::*;

verus! {

/// A tracker for where attribution is not tracked: it takes every change and keeps nothing.
#[derive(PartialEq, Eq, Structural, Clone, Copy, Debug)]
pub struct StubContinuousAttributionTracker;

impl StubContinuousAttributionTracker {
    pub fn new() -> (tracker: StubContinuousAttributionTracker)
        ensures
            tracker == StubContinuousAttributionTracker,
    {
        StubContinuousAttributionTracker
    }

    pub fn increment(&mut self, count: u32)
        ensures
            *final(self) == *old(self),
    {
    }

    /// More may be taken away than was ever added.
    pub fn decrement(&mut self, count: u32)
        ensures
            *final(self) == *old(self),
    {
    }
}

/// Tracks how many slots are attributed to an object, and the highest number since it was last
/// asked for.
#[derive(PartialEq, Eq, Structural, Debug)]
pub struct ContinuousAttributionTracker {
    pub current: u32,
    /// The high-water mark.
    pub hwm: u32,
}

impl Default for ContinuousAttributionTracker {
    fn default() -> (tracker: ContinuousAttributionTracker)
        ensures
            tracker == ContinuousAttributionTracker::zero(),
    {
        ContinuousAttributionTracker { current: 0, hwm: 0 }
    }
}

impl ContinuousAttributionTracker {
    /// A tracker that has seen nothing.
    pub open spec fn zero() -> ContinuousAttributionTracker {
        ContinuousAttributionTracker { current: 0, hwm: 0 }
    }

    /// The high-water mark is never below the current count.
    pub open spec fn wf(self) -> bool {
        self.current <= self.hwm
    }

    pub fn new() -> (tracker: ContinuousAttributionTracker)
        ensures
            tracker.wf(),
            tracker == ContinuousAttributionTracker::zero(),
    {
        ContinuousAttributionTracker { current: 0, hwm: 0 }
    }

    pub fn increment(&mut self, count: u32)
        requires
            old(self).wf(),
            old(self).current + count <= u32::MAX,
        ensures
            final(self).wf(),
            final(self).current == old(self).current + count,
            final(self).hwm == if old(self).current + count > old(self).hwm {
                old(self).current + count
            } else {
                old(self).hwm as int
            },
    {
        self.current = self.current + count;
        if self.current > self.hwm {
            self.hwm = self.current;
        }
    }

    pub fn decrement(&mut self, count: u32)
        requires
            old(self).wf(),
            count <= old(self).current,
        ensures
            final(self).wf(),
            final(self).current == old(self).current - count,
            final(self).hwm == old(self).hwm,
    {
        self.current = self.current - count;
    }

    pub fn fetch_current(&self) -> (current: u32)
        ensures
            current == self.current,
    {
        self.current
    }

    /// The highest count since this was last called. From then on it is the current count.
    pub fn fetch_hwm_and_reset(&mut self) -> (hwm: u32)
        requires
            old(self).wf(),
        ensures
            final(self).wf(),
            hwm == old(self).hwm,
            final(self).current == old(self).current,
            final(self).hwm == old(self).current,
    {
        let hwm: u32 = self.hwm;
        self.hwm = self.current;
        hwm
    }

    /// Takes over what `other` has tracked, which is then as new.
    pub fn take_from(&mut self, other: &mut ContinuousAttributionTracker)
        ensures
            *final(self) == *old(other),
            *final(other) == ContinuousAttributionTracker::zero(),
    {
        self.current = other.current;
        self.hwm = other.hwm;
        other.current = 0;
        other.hwm = 0;
    }
}

} // verus!
