//! What watches the number of free pages: the delaying of allocations that can wait, and the
//! one-shot signal raised once the number of free pages leaves its bounds.

use vstd::prelude::*;

verus! {

/// Controls the behavior of requests that can wait.
#[derive(PartialEq, Eq, Structural, Clone, Copy, Debug)]
pub enum ShouldWaitState {
    /// No request is ever told to wait: each is tried, or fails for want of memory. This state is
    /// permanent and cannot be left.
    Never,
    /// Allocations do not need to be delayed, but the free pages level is monitored, and once it
    /// is tripped they are.
    OnceLevelTripped,
    /// The level got tripped: any allocation that can wait is delayed until the level is reset.
    UntilReset,
}

/// Whether an allocation is delayed at random, given a number drawn from 0 to `max`: one in ten
/// is.
pub fn is_delayed_by(value: u32, max: u32) -> (delayed: bool)
    ensures
        delayed == (value < max / 10),
{
    value < max / 10
}

/// The state of a `FreeMemoryThrottle`.
#[verifier::ext_equal]
pub struct Throttle {
    pub should_wait: ShouldWaitState,
    /// Below this number of free pages allocations that can wait are delayed.
    pub level: u64,
    /// The event that lets one waiting thread through at a time.
    pub may_allocate: bool,
    /// The event to raise once the number of free pages leaves the bounds.
    pub signal: Option<u64>,
    pub lower: u64,
    pub upper: u64,
    /// The events raised so far and not yet collected, oldest first.
    pub raised: Seq<u64>,
    /// The outcome of the draw that delays allocations at random.
    pub random_delay: bool,
}

impl Throttle {
    /// The state of a throttle that has not been configured.
    pub open spec fn initial() -> Throttle {
        Throttle {
            should_wait: ShouldWaitState::OnceLevelTripped,
            level: 0,
            may_allocate: true,
            signal: None,
            lower: 0,
            upper: 0,
            raised: Seq::empty(),
            random_delay: false,
        }
    }

    /// An allocation that can wait is told to.
    pub open spec fn delays(self) -> bool {
        match self.should_wait {
            ShouldWaitState::UntilReset => true,
            ShouldWaitState::Never => false,
            ShouldWaitState::OnceLevelTripped => self.random_delay,
        }
    }

    /// Allocations become delayed, unless they never are.
    pub open spec fn tripped(self) -> Throttle {
        if self.should_wait == ShouldWaitState::OnceLevelTripped {
            Throttle { should_wait: ShouldWaitState::UntilReset, may_allocate: false, ..self }
        } else {
            self
        }
    }

    /// The signal, if there is one, is raised and spent.
    pub open spec fn signalled(self) -> Throttle {
        match self.signal {
            Some(event) => Throttle { signal: None, raised: self.raised.push(event), ..self },
            None => self,
        }
    }

    /// The number of free pages has gone down to `count`.
    pub open spec fn fell(self, count: int) -> Throttle {
        let throttle = if count < self.level {
            self.tripped()
        } else {
            self
        };
        if count < self.lower {
            throttle.signalled()
        } else {
            throttle
        }
    }

    /// The number of free pages has gone up to `count`.
    pub open spec fn rose(self, count: int) -> Throttle {
        if count > self.upper {
            self.signalled()
        } else {
            self
        }
    }

    /// New bounds, a new level, and a new signal or none.
    pub open spec fn configured(
        self,
        lower: u64,
        upper: u64,
        level: u64,
        event: Option<u64>,
    ) -> Throttle {
        let throttle = if level == u64::MAX {
            self.tripped()
        } else if self.should_wait == ShouldWaitState::UntilReset {
            Throttle { should_wait: ShouldWaitState::OnceLevelTripped, may_allocate: true, ..self }
        } else {
            self
        };
        Throttle { level, lower, upper, signal: event, ..throttle }
    }

    /// Nothing is ever told to wait again.
    pub open spec fn stopped(self) -> Throttle {
        Throttle { should_wait: ShouldWaitState::Never, may_allocate: true, ..self }
    }

    /// The `Never` state is permanent: nothing that happens to the number of free pages, and no
    /// new configuration, leaves it.
    pub proof fn lemma_never_is_permanent(
        self,
        count: int,
        lower: u64,
        upper: u64,
        level: u64,
        event: Option<u64>,
    )
        requires
            self.should_wait == ShouldWaitState::Never,
        ensures
            self.fell(count).should_wait == ShouldWaitState::Never,
            self.rose(count).should_wait == ShouldWaitState::Never,
            self.signalled().should_wait == ShouldWaitState::Never,
            self.configured(lower, upper, level, event).should_wait == ShouldWaitState::Never,
            self.stopped().should_wait == ShouldWaitState::Never,
            !self.delays(),
    {
    }

    /// Once the level is tripped allocations stay delayed, however many pages are freed, until the
    /// throttle is configured with a level again; then they go on.
    pub proof fn lemma_delay_is_sticky(
        self,
        count: int,
        lower: u64,
        upper: u64,
        level: u64,
        event: Option<u64>,
    )
        requires
            self.should_wait == ShouldWaitState::UntilReset,
            level != u64::MAX,
        ensures
            self.fell(count).delays(),
            self.rose(count).delays(),
            self.configured(lower, upper, level, event).may_allocate,
            self.configured(lower, upper, level, event).delays() == self.random_delay,
    {
    }

    /// The signal is raised at most once for each configuration, and never while the number of
    /// free pages stays within the bounds.
    pub proof fn lemma_signal_is_one_shot(self, first: int, second: int)
        ensures
            self.signalled().fell(first).raised == self.signalled().raised,
            self.signalled().rose(second).raised == self.signalled().raised,
            self.lower <= first <= self.upper && self.lower <= second <= self.upper
                ==> self.fell(first).rose(second).signal == self.signal
                && self.fell(first).rose(second).raised == self.raised,
    {
    }

    /// Whenever the number of free pages goes down to any number below the level, allocations that
    /// can wait are delayed afterwards, unless nothing ever waits, and threads that wait are held
    /// up from then on. At the level or above it nothing changes about that.
    pub proof fn lemma_falling_below_the_level_delays(self, count: int)
        ensures
            count < self.level && self.should_wait != ShouldWaitState::Never
                ==> self.fell(count).should_wait == ShouldWaitState::UntilReset && self.fell(
                count,
            ).delays(),
            count < self.level && self.should_wait == ShouldWaitState::OnceLevelTripped
                ==> !self.fell(count).may_allocate,
            self.should_wait != ShouldWaitState::OnceLevelTripped || self.level <= count
                ==> self.fell(count).should_wait == self.should_wait && self.fell(
                count,
            ).may_allocate == self.may_allocate,
            self.fell(count).level == self.level,
            self.fell(count).random_delay == self.random_delay,
    {
    }

    /// Whenever the number of free pages goes down to any number below the lower bound while an
    /// event is set, the event is raised, last of all, and is no longer set. At the lower bound or
    /// above it, or without an event, nothing is raised and what is set stays set.
    pub proof fn lemma_falling_below_the_bound_raises(self, count: int)
        ensures
            match self.signal {
                Some(event) if count < self.lower => {
                    &&& self.fell(count).signal is None
                    &&& self.fell(count).raised.len() == self.raised.len() + 1
                    &&& self.fell(count).raised[self.raised.len() as int] == event
                    &&& forall|i: int|
                        0 <= i < self.raised.len() ==> #[trigger] self.fell(count).raised[i]
                            == self.raised[i]
                },
                _ => self.fell(count).signal == self.signal && self.fell(count).raised
                    == self.raised,
            },
            self.fell(count).lower == self.lower,
            self.fell(count).upper == self.upper,
    {
    }

    /// Whenever the number of free pages goes up to any number above the upper bound while an
    /// event is set, the event is raised, last of all, and is no longer set. At the upper bound or
    /// below it, or without an event, nothing is raised and what is set stays set. Whether
    /// allocations are delayed does not change.
    pub proof fn lemma_rising_above_the_bound_raises(self, count: int)
        ensures
            match self.signal {
                Some(event) if count > self.upper => {
                    &&& self.rose(count).signal is None
                    &&& self.rose(count).raised.len() == self.raised.len() + 1
                    &&& self.rose(count).raised[self.raised.len() as int] == event
                    &&& forall|i: int|
                        0 <= i < self.raised.len() ==> #[trigger] self.rose(count).raised[i]
                            == self.raised[i]
                },
                _ => self.rose(count).signal == self.signal && self.rose(count).raised
                    == self.raised,
            },
            self.rose(count).lower == self.lower,
            self.rose(count).upper == self.upper,
            self.rose(count).level == self.level,
            self.rose(count).should_wait == self.should_wait,
            self.rose(count).may_allocate == self.may_allocate,
            self.rose(count).random_delay == self.random_delay,
    {
    }

    /// Falling further delays and raises whatever falling less far does: it makes no difference
    /// whether pages go one by one or all at once.
    pub proof fn lemma_falling_in_steps(self, first: int, second: int)
        requires
            second <= first,
        ensures
            self.fell(first).fell(second) == self.fell(second),
    {
        assert(self.fell(first).fell(second) =~= self.fell(second));
    }

    /// Rising in steps is the same as rising at once.
    pub proof fn lemma_rising_in_steps(self, first: int, second: int)
        requires
            first <= second,
        ensures
            self.rose(first).rose(second) == self.rose(second),
    {
        assert(self.rose(first).rose(second) =~= self.rose(second));
    }

    /// An allocation that can wait is told to where the level was tripped, or where it was drawn
    /// to while the level is watched, and never where nothing ever waits.
    pub proof fn lemma_what_is_delayed(self)
        ensures
            self.should_wait == ShouldWaitState::UntilReset ==> self.delays(),
            self.should_wait == ShouldWaitState::Never ==> !self.delays(),
            self.should_wait == ShouldWaitState::OnceLevelTripped ==> self.delays()
                == self.random_delay,
    {
    }

    /// A configuration sets the bounds, the level and the event to what was asked for, and raises
    /// nothing. With the largest level allocations are delayed at once; with any other they go on,
    /// and threads that were held up are let through. Where nothing ever waits that stays so.
    pub proof fn lemma_configuring(self, lower: u64, upper: u64, level: u64, event: Option<u64>)
        ensures
            ({
                let after = self.configured(lower, upper, level, event);
                &&& after.lower == lower && after.upper == upper && after.level == level
                &&& after.signal == event
                &&& after.raised == self.raised
                &&& after.random_delay == self.random_delay
                &&& self.should_wait == ShouldWaitState::Never ==> after.should_wait
                    == ShouldWaitState::Never
                &&& self.should_wait != ShouldWaitState::Never && level == 0xffff_ffff_ffff_ffff
                    ==> after.should_wait == ShouldWaitState::UntilReset
                &&& self.should_wait != ShouldWaitState::Never && level < 0xffff_ffff_ffff_ffff
                    ==> after.should_wait == ShouldWaitState::OnceLevelTripped
                &&& self.should_wait == ShouldWaitState::OnceLevelTripped && level
                    == 0xffff_ffff_ffff_ffff ==> !after.may_allocate
                &&& self.should_wait == ShouldWaitState::UntilReset && level
                    < 0xffff_ffff_ffff_ffff ==> after.may_allocate
                &&& after.should_wait == self.should_wait ==> after.may_allocate
                    == self.may_allocate
            }),
    {
    }

    /// To stop is to let everything through from then on, and changes nothing else.
    pub proof fn lemma_stopping(self)
        ensures
            self.stopped().should_wait == ShouldWaitState::Never,
            self.stopped().may_allocate,
            self.stopped().signal == self.signal,
            self.stopped().raised == self.raised,
            self.stopped().lower == self.lower,
            self.stopped().upper == self.upper,
            self.stopped().level == self.level,
            self.stopped().random_delay == self.random_delay,
    {
    }

    /// At first nothing is set, nothing was raised and nothing is delayed.
    pub proof fn lemma_at_first()
        ensures
            Throttle::initial().should_wait == ShouldWaitState::OnceLevelTripped,
            Throttle::initial().level == 0,
            Throttle::initial().may_allocate,
            Throttle::initial().signal is None,
            Throttle::initial().lower == 0,
            Throttle::initial().upper == 0,
            Throttle::initial().raised.len() == 0,
            !Throttle::initial().random_delay,
    {
    }
}

pub struct FreeMemoryThrottle {
    should_wait: ShouldWaitState,
    should_wait_free_pages_level: u64,
    may_allocate_evt: bool,
    mem_signal: Option<u64>,
    mem_signal_lower_bound: u64,
    mem_signal_upper_bound: u64,
    raised: Vec<u64>,
    random_delay: bool,
}

impl View for FreeMemoryThrottle {
    type V = Throttle;

    closed spec fn view(&self) -> Throttle {
        Throttle {
            should_wait: self.should_wait,
            level: self.should_wait_free_pages_level,
            may_allocate: self.may_allocate_evt,
            signal: self.mem_signal,
            lower: self.mem_signal_lower_bound,
            upper: self.mem_signal_upper_bound,
            raised: self.raised@,
            random_delay: self.random_delay,
        }
    }
}

impl FreeMemoryThrottle {
    pub fn new() -> (throttle: FreeMemoryThrottle)
        ensures
            throttle@ == Throttle::initial(),
    {
        let throttle = FreeMemoryThrottle {
            should_wait: ShouldWaitState::OnceLevelTripped,
            should_wait_free_pages_level: 0,
            may_allocate_evt: true,
            mem_signal: None,
            mem_signal_lower_bound: 0,
            mem_signal_upper_bound: 0,
            raised: Vec::new(),
            random_delay: false,
        };
        assert(throttle@ =~= Throttle::initial());
        throttle
    }

    pub fn should_wait(&self) -> (state: ShouldWaitState)
        ensures
            state == self@.should_wait,
    {
        self.should_wait
    }

    pub fn should_delay_allocation(&self) -> (delay: bool)
        ensures
            delay == self@.delays(),
    {
        if self.should_wait == ShouldWaitState::UntilReset {
            return true;
        }
        if self.should_wait == ShouldWaitState::Never {
            return false;
        }
        self.random_delay
    }

    pub fn set_random_delay(&mut self, delay: bool)
        ensures
            final(self)@ == (Throttle { random_delay: delay, ..old(self)@ }),
    {
        self.random_delay = delay;
    }

    pub fn trip_free_pages_level(&mut self)
        ensures
            final(self)@ == old(self)@.tripped(),
    {
        if self.should_wait == ShouldWaitState::OnceLevelTripped {
            self.should_wait = ShouldWaitState::UntilReset;
            self.may_allocate_evt = false;
        }
    }

    /// Raises the signal, if there is one.
    pub fn signal_free_memory_change(&mut self)
        ensures
            final(self)@ == old(self)@.signalled(),
    {
        if let Some(event) = self.mem_signal {
            self.raised.push(event);
            self.mem_signal = None;
        }
        assert(self@ =~= old(self)@.signalled());
    }

    /// Tells the throttle that the number of free pages has gone down to `free_count`.
    pub fn count_fell(&mut self, free_count: u64)
        ensures
            final(self)@ == old(self)@.fell(free_count as int),
    {
        if free_count < self.should_wait_free_pages_level {
            self.trip_free_pages_level();
        }
        if free_count < self.mem_signal_lower_bound {
            self.signal_free_memory_change();
        }
    }

    /// Tells the throttle that the number of free pages has gone up to `free_count`.
    pub fn count_rose(&mut self, free_count: u64)
        ensures
            final(self)@ == old(self)@.rose(free_count as int),
    {
        if free_count > self.mem_signal_upper_bound {
            self.signal_free_memory_change();
        }
    }

    pub fn configure(&mut self, lower: u64, upper: u64, level: u64, event: Option<u64>)
        ensures
            final(self)@ == old(self)@.configured(lower, upper, level, event),
    {
        if level == u64::MAX {
            self.trip_free_pages_level();
        } else if self.should_wait == ShouldWaitState::UntilReset {
            self.may_allocate_evt = true;
            self.should_wait = ShouldWaitState::OnceLevelTripped;
        }
        self.should_wait_free_pages_level = level;
        self.mem_signal_lower_bound = lower;
        self.mem_signal_upper_bound = upper;
        self.mem_signal = event;
    }

    pub fn stop_returning_should_wait(&mut self)
        ensures
            final(self)@ == old(self)@.stopped(),
    {
        self.should_wait = ShouldWaitState::Never;
        self.may_allocate_evt = true;
    }

    /// Lets one waiting thread through.
    pub fn signal_may_allocate(&mut self)
        ensures
            final(self)@ == (Throttle { may_allocate: true, ..old(self)@ }),
    {
        self.may_allocate_evt = true;
    }

    /// Goes through if the way is open, and closes it behind.
    pub fn pass(&mut self) -> (passed: bool)
        ensures
            passed == old(self)@.may_allocate,
            final(self)@ == (Throttle { may_allocate: false, ..old(self)@ }),
    {
        let passed = self.may_allocate_evt;
        self.may_allocate_evt = false;
        passed
    }

    /// Collects the events raised since they were last collected.
    pub fn take_raised(&mut self) -> (raised: Vec<u64>)
        ensures
            raised@ == old(self)@.raised,
            final(self)@ == (Throttle { raised: Seq::empty(), ..old(self)@ }),
    {
        let mut raised: Vec<u64> = Vec::new();
        raised.append(&mut self.raised);
        assert(raised@ =~= old(self)@.raised);
        assert(self@ =~= Throttle { raised: Seq::empty(), ..old(self)@ });
        raised
    }
}

} // verus!
