//! A low overhead single threaded work queue that can enqueue and execute `FnOnce` closures.
use vstd::prelude::*;

pub mod block;
pub mod caller;
pub mod deque;
pub mod effects;
pub mod item;
pub mod laws;
pub mod pump;
pub mod state;
pub mod stats;
pub mod work_queue;

pub use crate::block::Block;
pub use crate::item::{DynamicWorkItem, QueuedItem, WorkItem, WorkItemWrapper};
pub use crate::stats::{NopWorkQueueStats, WorkQueueStats};
pub use crate::work_queue::AdvancedWorkQueue;

use crate::block::{BLOCK_HEADER_LEN, BLOCK_LEN, ITEM_HEADER_LEN};
use crate::state::QueueState;

verus! {

/// A low overhead work queue for `FnOnce()` work items.
///
/// Amortized constant time queue management.
pub struct WorkQueue<'a>(AdvancedWorkQueue<'a, NopWorkQueueStats>);

impl<'a> View for WorkQueue<'a> {
    type V = QueueState<'a>;

    closed spec fn view(&self) -> QueueState<'a> {
        self.0@
    }
}

impl<'a> Default for WorkQueue<'a> {
    fn default() -> (queue: Self)
        ensures
            queue.wf(),
            queue@ == QueueState::<'a>::empty(),
            queue@.chain.len() == 0,
            queue@.write == 0,
            !queue@.pumping,
            queue@.pending().len() == 0,
            queue.posted() == Seq::<QueuedItem<'a>>::empty(),
            queue.dispatched() == Seq::<QueuedItem<'a>>::empty(),
    {
        Self::new()
    }
}

impl<'a> WorkQueue<'a> {
    /// The queue is consistent.
    pub closed spec fn wf(&self) -> bool {
        self.0.wf()
    }

    /// Every item that was ever pushed, in order.
    pub closed spec fn posted(&self) -> Seq<QueuedItem<'a>> {
        self.0.posted()
    }

    /// The items that were taken out of the queue in order to be executed, in order.
    pub closed spec fn dispatched(&self) -> Seq<QueuedItem<'a>> {
        self.0.dispatched()
    }

    /// What was pushed is what was taken out, followed by what is waiting; and what was taken
    /// out is completed, but for the one item that may be being executed.
    pub proof fn lemma_wf(&self)
        requires
            self.wf(),
        ensures
            self@.wf(),
            self.posted() == self.dispatched() + self@.pending(),
            forall|i: int|
                0 <= i < self.dispatched().len() && !(self@.pumping && i
                    == self.dispatched().len() - 1) ==> (
                #[trigger] self.dispatched()[i]).completed(),
    {
    }

    /// initialize a new instance of a work queue
    pub fn new() -> (queue: Self)
        ensures
            queue.wf(),
            queue@ == QueueState::<'a>::empty(),
            queue@.chain.len() == 0,
            queue@.write == 0,
            !queue@.pumping,
            queue@.pending().len() == 0,
            queue.posted() == Seq::<QueuedItem<'a>>::empty(),
            queue.dispatched() == Seq::<QueuedItem<'a>>::empty(),
    {
        WorkQueue(AdvancedWorkQueue::new())
    }

    /// return true if there are no items in the queue
    pub fn is_empty(&self) -> (empty: bool)
        requires
            self.wf(),
        ensures
            empty == (self@.pending().len() == 0),
            empty == (self.posted().len() == self.dispatched().len()),
    {
        self.0.is_empty()
    }

    /// Returns true while an item that was taken out of the queue is being executed.
    pub fn is_pumping(&self) -> (pumping: bool)
        ensures
            pumping == self@.pumping,
    {
        self.0.is_pumping()
    }

    /// create a new work queue with a initial storage capacity
    pub fn with_capacity(size: usize) -> (queue: Self)
        requires
            work_queue::allocatable(size as nat),
        ensures
            queue.wf(),
            queue@ == QueueState::<'a>::with_buffer(size as nat),
            queue@.chain.len() == 1,
            queue@.chain[0].size == if size < BLOCK_HEADER_LEN {
                BLOCK_HEADER_LEN
            } else {
                size
            },
            queue@.chain[0].beg == BLOCK_HEADER_LEN,
            queue@.chain[0].end == BLOCK_HEADER_LEN,
            queue@.write == 0,
            !queue@.pumping,
            queue@.pending().len() == 0,
            queue.posted() == Seq::<QueuedItem<'a>>::empty(),
            queue.dispatched() == Seq::<QueuedItem<'a>>::empty(),
    {
        WorkQueue(AdvancedWorkQueue::with_capacity(size))
    }

    /// push a work item onto the work queue
    ///
    /// An item that is being executed may do so too: see [`WorkQueue::begin_one`].
    pub fn push<F>(&mut self, f: F) where F: FnOnce() + 'a
        requires
            old(self).wf(),
            block::fits::<F>(),
            old(self)@.accepts(block::footprint::<F>()),
            call_requires(f, ()),
        ensures
            final(self).wf(),
            final(self)@ == old(self)@.posted(
                QueuedItem::of(block::footprint::<F>() as usize, f),
            ),
            final(self)@.pending() == old(self)@.pending().push(
                QueuedItem::of(block::footprint::<F>() as usize, f),
            ),
            final(self)@.pending().last().size() >= ITEM_HEADER_LEN + vstd::layout::size_of::<
                Option<F>,
            >(),
            final(self)@.pending().last().size() < 2 * ITEM_HEADER_LEN + vstd::layout::size_of::<
                Option<F>,
            >(),
            final(self)@.pending().last().completed() == call_ensures(f, (), ()),
            final(self).posted() == old(self).posted().push(
                QueuedItem::of(block::footprint::<F>() as usize, f),
            ),
            final(self).dispatched() == old(self).dispatched(),
    {
        self.0.push(f)
    }

    /// A work item of type `F` can be pushed: it is neither too large nor too strictly aligned,
    /// and there is room for it in a block that the queue has, or in a new one.
    pub fn accepts<F>(&self) -> (ok: bool)
        requires
            self.wf(),
        ensures
            ok == (block::fits::<F>() && self@.accepts(block::footprint::<F>())),
            vstd::layout::size_of::<Option<F>>() + ITEM_HEADER_LEN <= BLOCK_LEN - BLOCK_HEADER_LEN
                && vstd::layout::align_of::<Option<F>>() <= ITEM_HEADER_LEN ==> ok,
            vstd::layout::size_of::<Option<F>>() > BLOCK_LEN - BLOCK_HEADER_LEN ==> !ok,
            vstd::layout::align_of::<Option<F>>() > ITEM_HEADER_LEN ==> !ok,
    {
        self.0.accepts::<F>()
    }

    /// Push a work item onto the work queue if it can be; hand it back if it cannot.
    pub fn try_push<F>(&mut self, f: F) -> (result: Result<(), F>) where F: FnOnce() + 'a
        requires
            old(self).wf(),
            call_requires(f, ()),
        ensures
            final(self).wf(),
            final(self).dispatched() == old(self).dispatched(),
            vstd::layout::size_of::<Option<F>>() + ITEM_HEADER_LEN <= BLOCK_LEN - BLOCK_HEADER_LEN
                && vstd::layout::align_of::<Option<F>>() <= ITEM_HEADER_LEN ==> result is Ok,
            vstd::layout::size_of::<Option<F>>() > BLOCK_LEN - BLOCK_HEADER_LEN ==> result is Err,
            vstd::layout::align_of::<Option<F>>() > ITEM_HEADER_LEN ==> result is Err,
            match result {
                Ok(()) => {
                    &&& block::fits::<F>()
                    &&& old(self)@.accepts(block::footprint::<F>())
                    &&& final(self)@ == old(self)@.posted(
                        QueuedItem::of(block::footprint::<F>() as usize, f),
                    )
                    &&& final(self)@.pending() == old(self)@.pending().push(
                        QueuedItem::of(block::footprint::<F>() as usize, f),
                    )
                    &&& final(self)@.pending().last().completed() == call_ensures(f, (), ())
                    &&& final(self).posted() == old(self).posted().push(
                        QueuedItem::of(block::footprint::<F>() as usize, f),
                    )
                },
                Err(rejected) => {
                    &&& !(block::fits::<F>() && old(self)@.accepts(block::footprint::<F>()))
                    &&& rejected == f
                    &&& *final(self) == *old(self)
                },
            },
    {
        self.0.try_push(f)
    }

    /// Take the next item out of the queue in order to execute it.
    ///
    /// The queue is consistent while the item is being executed: the item may push further
    /// items, and may ask whether the queue is empty. No other item may be taken out until
    /// [`WorkQueue::finish_one`] is called, once the item has been executed.
    pub fn begin_one(&mut self) -> (item: Option<QueuedItem<'a>>)
        requires
            old(self).wf(),
            !old(self)@.pumping,
        ensures
            final(self).wf(),
            final(self)@ == old(self)@.begun(),
            final(self).posted() == old(self).posted(),
            match item {
                Some(item) => {
                    &&& old(self)@.pending().len() > 0
                    &&& item == old(self)@.pending()[0]
                    &&& item.runnable()
                    &&& final(self)@.pumping
                    &&& final(self)@.pending() == old(self)@.pending().drop_first()
                    &&& final(self).dispatched() == old(self).dispatched().push(item)
                },
                None => {
                    &&& old(self)@.pending().len() == 0
                    &&& *final(self) == *old(self)
                },
            },
    {
        self.0.begin_one()
    }

    /// Give back the bytes of the item that was taken out of the queue, once it has been
    /// executed; returns true if additional items remain.
    pub fn finish_one(&mut self) -> (more: bool)
        requires
            old(self).wf(),
            old(self)@.pumping,
            old(self).dispatched().last().completed(),
        ensures
            final(self).wf(),
            final(self)@ == old(self)@.finished(),
            !final(self)@.pumping,
            final(self)@.pending() == old(self)@.pending(),
            final(self).posted() == old(self).posted(),
            final(self).dispatched() == old(self).dispatched(),
            more == (final(self)@.pending().len() > 0),
    {
        self.0.finish_one()
    }

    /// dispatch a single work item, returns true if additional items remain
    pub fn pump_one(&mut self) -> (more: bool)
        requires
            old(self).wf(),
            !old(self)@.pumping,
        ensures
            final(self).wf(),
            final(self)@ == old(self)@.stepped(),
            !final(self)@.pumping,
            final(self).posted() == old(self).posted(),
            more == (final(self)@.pending().len() > 0),
            old(self)@.pending().len() == 0 ==> *final(self) == *old(self),
            old(self)@.pending().len() > 0 ==> {
                &&& old(self)@.pending()[0].completed()
                &&& final(self)@.pending() == old(self)@.pending().drop_first()
                &&& final(self).dispatched() == old(self).dispatched().push(
                    old(self)@.pending()[0],
                )
            },
    {
        self.0.pump_one()
    }

    /// Dispatch a single work item unless one is being executed; returns whether additional
    /// items remain, and nothing if one is being executed: no other is then started.
    pub fn try_pump_one(&mut self) -> (more: Option<bool>)
        requires
            old(self).wf(),
        ensures
            final(self).wf(),
            old(self)@.pumping <==> more is None,
            old(self)@.pumping ==> *final(self) == *old(self),
            match more {
                Some(more) => {
                    &&& final(self)@ == old(self)@.stepped()
                    &&& final(self).posted() == old(self).posted()
                    &&& more == (final(self)@.pending().len() > 0)
                    &&& old(self)@.pending().len() == 0 ==> *final(self) == *old(self)
                    &&& old(self)@.pending().len() > 0 ==> {
                        &&& old(self)@.pending()[0].completed()
                        &&& final(self)@.pending() == old(self)@.pending().drop_first()
                        &&& final(self).dispatched() == old(self).dispatched().push(
                            old(self)@.pending()[0],
                        )
                    }
                },
                None => true,
            },
    {
        self.0.try_pump_one()
    }

    /// dispatch all queued work items
    pub fn pump(&mut self)
        requires
            old(self).wf(),
            !old(self)@.pumping,
        ensures
            final(self).wf(),
            final(self)@ == old(self)@.stepped_times(old(self)@.pending().len()),
            !final(self)@.pumping,
            final(self)@.pending().len() == 0,
            final(self).posted() == old(self).posted(),
            final(self).dispatched() == old(self).dispatched() + old(self)@.pending(),
            forall|i: int|
                0 <= i < old(self)@.pending().len() ==> (
                #[trigger] old(self)@.pending()[i]).completed(),
    {
        self.0.pump()
    }
}

} // verus!
