//! Statistics: what a queue reports about itself.
use crate::caller::Caller;
use vstd::prelude::*;

verus! {

/// trait for types that can track work queue statistics
pub trait WorkQueueStats {
    /// single work item enqueued
    fn enqueue(&self) {
    }

    /// single work item executed
    fn execute(&self) {
    }

    /// new queue block allocated
    fn block_allocate(&self) {
    }

    /// block write pointer move to new block
    fn write_rollover(&self) {
    }

    /// block read pointer moved to new block
    fn read_rollover(&self) {
    }
}

/// A default work queue statistics type that records nothing and takes no space
pub struct NopWorkQueueStats;

impl WorkQueueStats for NopWorkQueueStats {

}

impl Default for NopWorkQueueStats {
    fn default() -> (stats: Self)
        ensures
            stats == NopWorkQueueStats,
    {
        NopWorkQueueStats
    }
}

/// What a queue reports to its statistics tracker: one variant for each method of
/// [`WorkQueueStats`].
#[derive(Clone, Copy, Debug, PartialEq, Eq, Structural)]
pub enum StatEvent {
    Enqueue,
    Execute,
    BlockAllocate,
    WriteRollover,
    ReadRollover,
}

impl StatEvent {
    /// The event has been reported to `stats`: the method that stands for it was called.
    pub open spec fn reported_to<S: WorkQueueStats>(self, stats: &S) -> bool {
        match self {
            StatEvent::Enqueue => call_ensures(S::enqueue, (stats,), ()),
            StatEvent::Execute => call_ensures(S::execute, (stats,), ()),
            StatEvent::BlockAllocate => call_ensures(S::block_allocate, (stats,), ()),
            StatEvent::WriteRollover => call_ensures(S::write_rollover, (stats,), ()),
            StatEvent::ReadRollover => call_ensures(S::read_rollover, (stats,), ()),
        }
    }

    /// A call of the method that stands for the event, as a [`Caller`] records it.
    pub open spec fn as_call<S: WorkQueueStats>(self) -> spec_fn(S) -> bool {
        |stats: S| self.reported_to(&stats)
    }

    /// Every event in `log` has been reported to `stats`.
    pub open spec fn all_reported_to<S: WorkQueueStats>(log: Seq<StatEvent>, stats: &S) -> bool {
        forall|i: int| 0 <= i < log.len() ==> (#[trigger] log[i]).reported_to(stats)
    }

    /// How often the event occurs in `log`.
    pub open spec fn count(self, log: Seq<StatEvent>) -> nat
        decreases log.len(),
    {
        if log.len() == 0 {
            0
        } else {
            self.count(log.drop_last()) + if log.last() == self {
                1nat
            } else {
                0nat
            }
        }
    }

    /// Counting adds up over concatenation.
    pub proof fn lemma_count_add(self, log: Seq<StatEvent>, more: Seq<StatEvent>)
        ensures
            self.count(log + more) == self.count(log) + self.count(more),
        decreases more.len(),
    {
        if more.len() == 0 {
            assert(log + more =~= log);
        } else {
            assert((log + more).drop_last() =~= log + more.drop_last());
            self.lemma_count_add(log, more.drop_last());
        }
    }
}

/// A statistics tracker, with the record of what was reported to it.
///
/// The two can only change together: [`Tracker::report`] calls the method of the tracker that
/// stands for an event, once, and appends the event to the record, and nothing else gets at
/// either.
#[verifier::reject_recursive_types(S)]
pub struct Tracker<S: WorkQueueStats> {
    caller: Caller<S>,
    log: Ghost<Seq<StatEvent>>,
}

impl<S: WorkQueueStats> Tracker<S> {
    /// The statistics tracker.
    pub closed spec fn stats(&self) -> S {
        self.caller.subject()
    }

    /// Everything that was reported to the tracker, in order.
    pub closed spec fn log(&self) -> Seq<StatEvent> {
        self.log@
    }

    /// The calls that were made of the tracker's methods, in order, one entry for each call.
    pub closed spec fn calls(&self) -> Seq<spec_fn(S) -> bool> {
        self.caller.calls()
    }

    /// The calls that are spoken of are those that were made of the tracker.
    proof fn law_record_is_kept(&self)
        ensures
            self.calls() == self.caller.calls(),
            self.stats() == self.caller.subject(),
            self.log() == self.log@,
    {
    }

    /// A tracker that nothing was reported to yet.
    pub fn new(stats: S) -> (tracker: Self)
        ensures
            tracker.stats() == stats,
            tracker.log() == Seq::<StatEvent>::empty(),
            tracker.calls() == Seq::<spec_fn(S) -> bool>::empty(),
        opens_invariants none
        no_unwind
    {
        Tracker { caller: Caller::new(stats), log: Ghost(Seq::empty()) }
    }

    /// Report an event.
    pub fn report(&mut self, event: StatEvent)
        ensures
            final(self).stats() == old(self).stats(),
            final(self).log() == old(self).log().push(event),
            final(self).calls() == old(self).calls().push(event.as_call::<S>()),
            event.reported_to(&old(self).stats()),
    {
        let ghost before = self.caller.calls();
        match event {
            StatEvent::Enqueue => self.caller.call(S::enqueue),
            StatEvent::Execute => self.caller.call(S::execute),
            StatEvent::BlockAllocate => self.caller.call(S::block_allocate),
            StatEvent::WriteRollover => self.caller.call(S::write_rollover),
            StatEvent::ReadRollover => self.caller.call(S::read_rollover),
        }
        proof {
            self.log@ = self.log@.push(event);
            assert(self.caller.calls().last() =~= event.as_call::<S>());
            assert(self.caller.calls() =~= before.push(event.as_call::<S>()));
        }
    }
}

} // verus!
