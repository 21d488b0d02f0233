//! Dispatching: the loop that executes what a queue holds.
//!
//! What stands here sees of a queue only what its contracts say. An item can be executed only
//! after [`AdvancedWorkQueue::begin_one`] has taken it out, and the next one is taken out only
//! after [`AdvancedWorkQueue::finish_one`], so items are executed in the order of the queue.
use crate::stats::WorkQueueStats;
use crate::work_queue::AdvancedWorkQueue;
use vstd::prelude::*;

verus! {

impl<'a, S: WorkQueueStats> AdvancedWorkQueue<'a, S> {
    /// dispatch a single work item, returns true if additional items remain
    pub fn pump_one(&mut self) -> (more: bool)
        requires
            old(self).wf(),
            !old(self)@.pumping,
        ensures
            final(self).wf(),
            final(self)@ == old(self)@.stepped(),
            !final(self)@.pumping,
            final(self).log() == old(self).log() + old(self)@.step_events(),
            final(self).posted() == old(self).posted(),
            final(self).stats() == old(self).stats(),
            more == (final(self)@.pending().len() > 0),
            old(self)@.pending().len() == 0 ==> *final(self) == *old(self),
            old(self)@.pending().len() > 0 ==> {
                &&& old(self)@.pending()[0].completed()
                &&& final(self)@.pending() == old(self)@.pending().drop_first()
                &&& final(self).dispatched() == old(self).dispatched().push(
                    old(self)@.pending()[0],
                )
            },
    {
        match self.begin_one() {
            Some(item) => {
                item.execute();
                let more = self.finish_one();
                assert(self.log() =~= old(self).log() + old(self)@.step_events());
                more
            },
            None => {
                assert(self.log() =~= old(self).log() + old(self)@.step_events());
                false
            },
        }
    }

    /// Dispatch a single work item unless one is being executed; returns whether additional
    /// items remain, and nothing if one is being executed: no other is then started.
    pub fn try_pump_one(&mut self) -> (more: Option<bool>)
        requires
            old(self).wf(),
        ensures
            final(self).wf(),
            old(self)@.pumping <==> more is None,
            old(self)@.pumping ==> *final(self) == *old(self),
            match more {
                Some(more) => {
                    &&& final(self)@ == old(self)@.stepped()
                    &&& final(self).log() == old(self).log() + old(self)@.step_events()
                    &&& final(self).posted() == old(self).posted()
                    &&& final(self).stats() == old(self).stats()
                    &&& more == (final(self)@.pending().len() > 0)
                    &&& old(self)@.pending().len() == 0 ==> *final(self) == *old(self)
                    &&& old(self)@.pending().len() > 0 ==> {
                        &&& old(self)@.pending()[0].completed()
                        &&& final(self)@.pending() == old(self)@.pending().drop_first()
                        &&& final(self).dispatched() == old(self).dispatched().push(
                            old(self)@.pending()[0],
                        )
                    }
                },
                None => true,
            },
    {
        if self.is_pumping() {
            None
        } else {
            Some(self.pump_one())
        }
    }

    /// dispatch all queued work items
    pub fn pump(&mut self)
        requires
            old(self).wf(),
            !old(self)@.pumping,
        ensures
            final(self).wf(),
            final(self)@ == old(self)@.stepped_times(old(self)@.pending().len()),
            !final(self)@.pumping,
            final(self)@.pending().len() == 0,
            final(self).log() == old(self).log() + old(self)@.steps_events(
                old(self)@.pending().len(),
            ),
            final(self).posted() == old(self).posted(),
            final(self).dispatched() == old(self).dispatched() + old(self)@.pending(),
            final(self).stats() == old(self).stats(),
            forall|i: int|
                0 <= i < old(self)@.pending().len() ==> (
                #[trigger] old(self)@.pending()[i]).completed(),
    {
        let ghost start = old(self)@;
        let ghost mut count: nat = 0;
        let mut more = !self.is_empty();
        proof {
            start.lemma_stepped_times(0);
            assert(self.log() =~= old(self).log() + start.steps_events(0));
            assert(self.dispatched() =~= old(self).dispatched() + start.pending().take(0));
        }
        while more
            invariant
                start == old(self)@,
                start.wf(),
                !start.pumping,
                count <= start.pending().len(),
                self.wf(),
                !self@.pumping,
                self@ == start.stepped_times(count),
                self@.pending() == start.pending().skip(count as int),
                self.log() == old(self).log() + start.steps_events(count),
                self.dispatched() == old(self).dispatched() + start.pending().take(count as int),
                self.posted() == old(self).posted(),
                self.stats() == old(self).stats(),
                more == (self@.pending().len() > 0),
                forall|i: int| 0 <= i < count ==> (#[trigger] start.pending()[i]).completed(),
            decreases self@.pending().len(),
        {
            let ghost before = *self;
            more = self.pump_one();
            proof {
                assert(before@.pending()[0] == start.pending()[count as int]);
                count = count + 1;
                start.lemma_stepped_times(count);
                assert(self.log() =~= old(self).log() + start.steps_events(count));
                assert(self.dispatched() =~= old(self).dispatched() + start.pending().take(
                    count as int,
                ));
            }
        }
        assert(start.pending().take(count as int) =~= start.pending());
    }
}

} // verus!
