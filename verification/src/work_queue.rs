//! The queue itself, with statistics gathering support.
use crate::block::{
    self, Block, BlockState, BLOCK_HEADER_LEN, BLOCK_LEN, ITEM_HEADER_LEN, MAX_ITEM_LEN,
};
use crate::deque::Deque;
use crate::item::{QueuedItem, WorkItem};
use crate::laws;
use crate::state::{self, QueueState};
use crate::stats::{StatEvent, Tracker, WorkQueueStats};
use vstd::prelude::*;

verus! {

/// The alignment of a block in memory.
pub const BLOCK_ALIGN: usize = 32;

/// A block of `size` bytes can be asked of an allocator: padded to the alignment of blocks it
/// does not exceed `isize::MAX` bytes.
pub open spec fn allocatable(size: nat) -> bool {
    size + BLOCK_ALIGN - 1 <= isize::MAX
}

/// What a sequence of blocks holds.
spec fn views<'a>(blocks: Seq<Block<'a>>) -> Seq<BlockState<'a>> {
    Seq::new(blocks.len(), |i: int| blocks[i]@)
}

/// An advanced version of [`WorkQueue`](crate::WorkQueue) with statistics gathering support.
///
/// The blocks form a chain: those in `filled` are read first and are no longer written to,
/// `current` is written to, and those in `spare` are empty. The items that are left when the
/// queue goes out of scope are not dropped, so what they borrow need not be there any more; the
/// ghost histories are held by reference because they do not own the items either.
#[verifier::reject_recursive_types(S)]
pub struct AdvancedWorkQueue<'a, S: WorkQueueStats> {
    filled: Deque<Block<'a>>,
    current: Option<Block<'a>>,
    spare: Deque<Block<'a>>,
    pumping: bool,
    tracker: Tracker<S>,
    posted: Ghost<&'a Seq<QueuedItem<'a>>>,
    dispatched: Ghost<&'a Seq<QueuedItem<'a>>>,
}

impl<'a, S: WorkQueueStats> View for AdvancedWorkQueue<'a, S> {
    type V = QueueState<'a>;

    closed spec fn view(&self) -> QueueState<'a> {
        QueueState {
            chain: views(self.filled@) + match self.current {
                Some(block) => seq![block@],
                None => Seq::empty(),
            } + views(self.spare@),
            write: self.filled@.len(),
            pumping: self.pumping,
        }
    }
}

impl<'a, S: WorkQueueStats> AdvancedWorkQueue<'a, S> {
    /// The statistics tracker.
    pub closed spec fn stats(&self) -> S {
        self.tracker.stats()
    }

    /// Everything that was reported to the statistics tracker, in order.
    pub closed spec fn log(&self) -> Seq<StatEvent> {
        self.tracker.log()
    }

    /// The calls that were made of the tracker's methods, in order, one entry for each call.
    pub closed spec fn calls(&self) -> Seq<spec_fn(S) -> bool> {
        self.tracker.calls()
    }

    /// Every item that was ever pushed, in order.
    pub closed spec fn posted(&self) -> Seq<QueuedItem<'a>> {
        *self.posted@
    }

    /// The items that were taken out of the queue in order to be executed, in order.
    pub closed spec fn dispatched(&self) -> Seq<QueuedItem<'a>> {
        *self.dispatched@
    }

    /// There is a block to write to, or no block at all.
    pub closed spec fn linked(&self) -> bool {
        self.current is None ==> self.filled@.len() == 0 && self.spare@.len() == 0
    }

    /// What the log says was reported has been reported: the method of the tracker that stands
    /// for each entry was called, once for each entry, and no other call was made. The methods
    /// take `&self`, so what a call changes in the tracker is not stated.
    pub open spec fn reported(&self) -> bool {
        &&& StatEvent::all_reported_to(self.log(), &self.stats())
        &&& self.calls().len() == self.log().len()
        &&& forall|i: int|
            0 <= i < self.log().len() ==> (#[trigger] self.calls()[i]) == self.log()[i].as_call::<
                S,
            >()
    }

    /// The queue is consistent.
    ///
    /// What was pushed is what was taken out, followed by what is waiting: items are taken out
    /// in the order in which they were pushed, and none is lost or taken out twice. What was
    /// taken out has been executed and is completed, but for the one item that may be being
    /// executed.
    pub open spec fn wf(&self) -> bool {
        &&& self.linked()
        &&& self@.wf()
        &&& self.reported()
        &&& self@.balanced(self.log())
        &&& self.posted() == self.dispatched() + self@.pending()
        &&& self.dispatched().len() == StatEvent::Execute.count(self.log())
            + if self@.pumping {
            1nat
        } else {
            0nat
        }
        &&& forall|i: int|
            0 <= i < StatEvent::Execute.count(self.log()) ==> (
            #[trigger] self.dispatched()[i]).completed()
    }

    /// The calls that are spoken of are those that were made of the queue's own tracker.
    proof fn law_record_is_kept(&self)
        ensures
            self.calls() == self.tracker.calls(),
            self.stats() == self.tracker.stats(),
            self.log() == self.tracker.log(),
    {
    }

    /// The tracker, and what was pushed and taken out, are those of `other`.
    pub open spec fn same_history(&self, other: &Self) -> bool {
        &&& self.stats() == other.stats()
        &&& self.posted() == other.posted()
        &&& self.dispatched() == other.dispatched()
    }

    /// Report an event to the statistics tracker.
    fn note(&mut self, event: StatEvent)
        requires
            old(self).linked(),
            old(self).reported(),
        ensures
            final(self).linked(),
            final(self).reported(),
            final(self)@ == old(self)@,
            final(self).log() == old(self).log().push(event),
            final(self).same_history(old(self)),
    {
        self.tracker.report(event);
    }

    /// A new block; no block is smaller than its header.
    fn new_block(size: usize) -> (block: Block<'a>)
        requires
            allocatable(size as nat),
        ensures
            block@.wf(),
            QueueState::<'a>::with_buffer(size as nat).chain == seq![block@],
            BLOCK_HEADER_LEN <= size ==> block@ == BlockState::<'a>::fresh(size as nat),
            block@.size == if size < BLOCK_HEADER_LEN {
                BLOCK_HEADER_LEN
            } else {
                size
            },
            block@.beg == BLOCK_HEADER_LEN,
            block@.end == BLOCK_HEADER_LEN,
            block@.items.len() == 0,
        opens_invariants none
        no_unwind
    {
        if size < BLOCK_HEADER_LEN {
            Block::new(BLOCK_HEADER_LEN)
        } else {
            Block::new(size)
        }
    }

    /// Take the first block out of the chain. It must not be the one that is written to.
    pub(crate) fn pop_front(&mut self) -> (block: Block<'a>)
        requires
            old(self).linked(),
            old(self).reported(),
            old(self)@.write > 0,
        ensures
            final(self).linked(),
            final(self).reported(),
            block@ == old(self)@.chain[0],
            final(self)@ == old(self)@.without_front(),
            final(self).log() == old(self).log(),
            final(self).same_history(old(self)),
    {
        let block = self.filled.pop_front().unwrap();
        assert(self@.chain =~= old(self)@.chain.drop_first());
        block
    }

    /// Put a block that has been taken out of the chain in front of it again.
    fn push_front(&mut self, block: Block<'a>)
        requires
            old(self).linked(),
            old(self).reported(),
            old(self)@.chain.len() > 0,
        ensures
            final(self).linked(),
            final(self).reported(),
            final(self)@ == (QueueState {
                chain: seq![block@] + old(self)@.chain,
                write: old(self)@.write + 1,
                pumping: old(self)@.pumping,
            }),
            final(self).log() == old(self).log(),
            final(self).same_history(old(self)),
    {
        self.filled.push_front(block);
        assert(self@.chain =~= seq![block@] + old(self)@.chain);
    }

    /// Put a block behind the last one of the chain.
    pub(crate) fn push_back(&mut self, block: Block<'a>)
        requires
            old(self).linked(),
            old(self).reported(),
            old(self)@.chain.len() > 0,
        ensures
            final(self).linked(),
            final(self).reported(),
            final(self)@ == old(self)@.with_back(block@),
            final(self).log() == old(self).log(),
            final(self).same_history(old(self)),
    {
        self.spare.push_back(block);
        assert(self@.chain =~= old(self)@.chain.push(block@));
    }

    /// Move the first block to the back of the chain. No block is lost, added or changed, and
    /// the one that is written to stays the same.
    pub(crate) fn rotate(&mut self)
        requires
            old(self).linked(),
            old(self).reported(),
            0 < old(self)@.write < old(self)@.chain.len(),
        ensures
            final(self).linked(),
            final(self).reported(),
            final(self)@ == old(self)@.rotated(),
            final(self)@.chain == old(self)@.chain.skip(1) + old(self)@.chain.take(1),
            final(self)@.chain.to_multiset() == old(self)@.chain.to_multiset(),
            final(self)@.chain[final(self)@.write as int] == old(self)@.chain[old(
                self,
            )@.write as int],
            final(self).log() == old(self).log(),
            final(self).same_history(old(self)),
    {
        let block = self.pop_front();
        self.push_back(block);
        proof {
            laws::law_rotation(old(self)@);
        }
    }

    /// Nothing is left in the first block, and it is not the one that is written to.
    fn first_is_spent(&self) -> (spent: bool)
        requires
            self.linked(),
            self@.chain_wf(),
        ensures
            spent == self@.first_is_spent(),
    {
        if self.filled.len() > 0 {
            assert(self@.chain[0] == self.filled@[0]@);
            assert(self@.chain[0].wf());
            self.filled.at(0).is_drained()
        } else {
            false
        }
    }

    /// Put a block directly behind the one that is written to.
    fn insert_next(&mut self, block: Block<'a>)
        requires
            old(self).linked(),
            old(self).reported(),
            old(self)@.chain.len() > 0,
        ensures
            final(self).linked(),
            final(self).reported(),
            final(self)@ == (QueueState {
                chain: old(self)@.chain.insert(old(self)@.write as int + 1, block@),
                ..old(self)@
            }),
            final(self).log() == old(self).log(),
            final(self).same_history(old(self)),
    {
        self.spare.push_front(block);
        assert(self@.chain =~= old(self)@.chain.insert(old(self)@.write as int + 1, block@));
    }

    /// Bring the first spare block with room for `len` bytes directly behind the block that is
    /// written to; returns false if there is none.
    fn bring_next(&mut self, len: usize) -> (found: bool)
        requires
            old(self).linked(),
            old(self).reported(),
            old(self)@.chain_wf(),
            old(self)@.chain.len() > 0,
        ensures
            final(self).linked(),
            final(self).reported(),
            final(self).log() == old(self).log(),
            final(self).same_history(old(self)),
            found == (old(self)@.next_fit(len as nat) < old(self)@.chain.len()),
            !found ==> final(self)@ == old(self)@,
            found ==> final(self)@ == (QueueState {
                chain: old(self)@.chain.remove(old(self)@.next_fit(len as nat) as int).insert(
                    old(self)@.write as int + 1,
                    old(self)@.chain[old(self)@.next_fit(len as nat) as int],
                ),
                ..old(self)@
            }),
    {
        let ghost chain = self@.chain;
        let ghost behind = self@.write + 1;
        let i = self.find_spare(len);
        if i < self.spare.len() {
            let block = self.spare.remove(i).unwrap();
            assert(self@.chain =~= chain.remove(behind + i));
            self.insert_next(block);
            true
        } else {
            false
        }
    }

    /// The index of the first spare block with room for `len` bytes; their number if there is
    /// none.
    fn find_spare(&self, len: usize) -> (at: usize)
        requires
            self.linked(),
            self@.chain_wf(),
            self@.chain.len() > 0,
        ensures
            at <= self.spare@.len(),
            self@.write + 1 + at == self@.next_fit(len as nat),
            self@.chain.len() == self@.write + 1 + self.spare@.len(),
            at < self.spare@.len() ==> self.spare@[at as int]@ == self@.chain[self@.write + 1
                + at],
    {
        let ghost chain = self@.chain;
        let ghost behind = self@.write + 1;
        let mut i: usize = 0;
        while i < self.spare.len() && self.room_in_spare(i) < len
            invariant
                self.linked(),
                self@.chain_wf(),
                chain == self@.chain,
                behind == self@.write + 1,
                chain.len() == behind + self.spare@.len(),
                i <= self.spare@.len(),
                forall|j: int| behind <= j < behind + i ==> (#[trigger] chain[j]).room() < len,
            decreases self.spare@.len() - i,
        {
            i = i + 1;
        }
        proof {
            state::lemma_first_fit_is(chain, behind, len as nat, behind + i as nat);
        }
        i
    }

    /// The bytes that can be allocated in the spare block at index `i`.
    fn room_in_spare(&self, i: usize) -> (free: usize)
        requires
            self.linked(),
            self@.chain_wf(),
            i < self.spare@.len(),
        ensures
            free == self@.chain[self@.write + 1 + i].room(),
    {
        assert(self@.chain[self@.write + 1 + i] == self.spare@[i as int]@);
        assert(self@.chain[self@.write + 1 + i].wf());
        self.spare.at(i).free_remaining()
    }

    /// Write to the next block from now on.
    fn advance(&mut self)
        requires
            old(self).linked(),
            old(self).reported(),
            old(self)@.write + 1 < old(self)@.chain.len(),
        ensures
            final(self).linked(),
            final(self).reported(),
            final(self)@ == (QueueState { write: old(self)@.write + 1, ..old(self)@ }),
            final(self).log() == old(self).log().push(StatEvent::WriteRollover),
            final(self).same_history(old(self)),
    {
        if let Some(block) = self.current.take() {
            self.filled.push_back(block);
        }
        self.current = self.spare.pop_front();
        assert(self@.chain =~= old(self)@.chain);
        self.note(StatEvent::WriteRollover);
    }

    /// The bytes that can still be allocated in the block that is written to.
    fn free_remaining(&self) -> (free: usize)
        requires
            self.linked(),
            self@.chain_wf(),
            self@.chain.len() > 0,
        ensures
            free == self@.chain[self@.write as int].room(),
    {
        assert(self@.chain[self@.write as int].wf());
        match &self.current {
            Some(block) => {
                assert(self@.chain[self@.write as int] == block@);
                block.free_remaining()
            },
            None => 0,
        }
    }

    /// ensure the block that is written to has room for at least `len` bytes
    fn preallocate(&mut self, len: usize)
        requires
            old(self).linked(),
            old(self).reported(),
            old(self)@.wf(),
            old(self)@.accepts(len as nat),
        ensures
            final(self).linked(),
            final(self).reported(),
            final(self)@ == old(self)@.prepared(len as nat),
            final(self).log() == old(self).log() + old(self)@.prepare_events(len as nat),
            final(self).same_history(old(self)),
    {
        if self.current.is_none() {
            // first allocation from empty
            let block = Self::new_block(BLOCK_LEN);
            self.current = Some(block);
            assert(self@.chain =~= seq![block@]);
            self.note(StatEvent::BlockAllocate);
        } else if self.free_remaining() < len {
            // there is not enough room in the current block, skip to the next
            if !self.bring_next(len) {
                // we need a new block to spill into
                self.insert_next(Self::new_block(BLOCK_LEN));
                self.note(StatEvent::BlockAllocate);
            }
            self.advance();
        }
        assert(self.log() =~= old(self).log() + old(self)@.prepare_events(len as nat));
    }
}

impl<'a, S: WorkQueueStats + Default> Default for AdvancedWorkQueue<'a, S> {
    fn default() -> (queue: Self)
        ensures
            queue.wf(),
            queue@ == QueueState::<'a>::empty(),
            queue@.chain.len() == 0,
            queue@.write == 0,
            !queue@.pumping,
            queue@.pending().len() == 0,
            queue.log() == Seq::<StatEvent>::empty(),
            queue.posted() == Seq::<QueuedItem<'a>>::empty(),
            queue.dispatched() == Seq::<QueuedItem<'a>>::empty(),
            call_ensures(S::default, (), queue.stats()),
            queue.calls().len() == 0,
    {
        Self::new()
    }
}

impl<'a, S: WorkQueueStats + Default> AdvancedWorkQueue<'a, S> {
    /// create a new work queue without a buffer
    pub fn new() -> (queue: Self)
        ensures
            queue.wf(),
            queue@ == QueueState::<'a>::empty(),
            queue@.chain.len() == 0,
            queue@.write == 0,
            !queue@.pumping,
            queue@.pending().len() == 0,
            queue.log() == Seq::<StatEvent>::empty(),
            queue.posted() == Seq::<QueuedItem<'a>>::empty(),
            queue.dispatched() == Seq::<QueuedItem<'a>>::empty(),
            call_ensures(S::default, (), queue.stats()),
            queue.calls().len() == 0,
    {
        Self::with_stats(S::default())
    }

    /// create a new work queue with an initial storage capacity
    pub fn with_capacity(size: usize) -> (queue: Self)
        requires
            allocatable(size as nat),
        ensures
            queue.wf(),
            queue@ == QueueState::<'a>::with_buffer(size as nat),
            queue@.chain.len() == 1,
            queue@.chain[0].size == if size < BLOCK_HEADER_LEN {
                BLOCK_HEADER_LEN
            } else {
                size
            },
            queue@.chain[0].beg == BLOCK_HEADER_LEN,
            queue@.chain[0].end == BLOCK_HEADER_LEN,
            queue@.write == 0,
            !queue@.pumping,
            queue@.pending().len() == 0,
            queue.log() == Seq::<StatEvent>::empty(),
            queue.posted() == Seq::<QueuedItem<'a>>::empty(),
            queue.dispatched() == Seq::<QueuedItem<'a>>::empty(),
            call_ensures(S::default, (), queue.stats()),
            queue.calls().len() == 0,
    {
        Self::with_stats_and_capacity(S::default(), size)
    }
}

impl<'a, S: WorkQueueStats> AdvancedWorkQueue<'a, S> {
    /// create a new work queue with the specified stats tracker and without a buffer
    pub fn with_stats(stats: S) -> (queue: Self)
        ensures
            queue.wf(),
            queue@ == QueueState::<'a>::empty(),
            queue@.chain.len() == 0,
            queue@.write == 0,
            !queue@.pumping,
            queue@.pending().len() == 0,
            queue.log() == Seq::<StatEvent>::empty(),
            queue.posted() == Seq::<QueuedItem<'a>>::empty(),
            queue.dispatched() == Seq::<QueuedItem<'a>>::empty(),
            queue.stats() == stats,
            queue.calls().len() == 0,
        opens_invariants none
        no_unwind
    {
        let queue = Self::internal_construct(stats, None);
        assert(queue@.chain =~= Seq::<BlockState<'a>>::empty());
        proof {
            state::lemma_one_odd_size_alone(queue@.chain);
        }
        queue
    }

    /// create a new work queue with the specified stats tracker and an initial
    /// storage capacity
    pub fn with_stats_and_capacity(stats: S, size: usize) -> (queue: Self)
        requires
            allocatable(size as nat),
        ensures
            queue.wf(),
            queue@ == QueueState::<'a>::with_buffer(size as nat),
            queue@.chain.len() == 1,
            queue@.chain[0].size == if size < BLOCK_HEADER_LEN {
                BLOCK_HEADER_LEN
            } else {
                size
            },
            queue@.chain[0].beg == BLOCK_HEADER_LEN,
            queue@.chain[0].end == BLOCK_HEADER_LEN,
            queue@.write == 0,
            !queue@.pumping,
            queue@.pending().len() == 0,
            queue.log() == Seq::<StatEvent>::empty(),
            queue.posted() == Seq::<QueuedItem<'a>>::empty(),
            queue.dispatched() == Seq::<QueuedItem<'a>>::empty(),
            queue.stats() == stats,
            queue.calls().len() == 0,
        opens_invariants none
        no_unwind
    {
        let block = Self::new_block(size);
        let queue = Self::internal_construct(stats, Some(block));
        assert(queue@.chain =~= seq![block@]);
        assert(queue@.chain[0].is_reset());
        proof {
            state::lemma_items_none(queue@.chain);
            state::lemma_one_odd_size_alone(queue@.chain);
        }
        queue
    }

    /// A queue whose chain is the given block, or is empty.
    fn internal_construct(stats: S, block: Option<Block<'a>>) -> (queue: Self)
        ensures
            queue.linked(),
            queue.reported(),
            queue@.write == 0,
            !queue@.pumping,
            queue@.chain == match block {
                Some(block) => seq![block@],
                None => Seq::empty(),
            },
            queue.log() == Seq::<StatEvent>::empty(),
            queue.posted() == Seq::<QueuedItem<'a>>::empty(),
            queue.dispatched() == Seq::<QueuedItem<'a>>::empty(),
            queue.stats() == stats,
            queue.calls().len() == 0,
        opens_invariants none
        no_unwind
    {
        let queue = AdvancedWorkQueue {
            filled: Deque::new(),
            current: block,
            spare: Deque::new(),
            pumping: false,
            tracker: Tracker::new(stats),
            posted: Ghost(&Seq::empty()),
            dispatched: Ghost(&Seq::empty()),
        };
        assert(queue@.chain =~= match block {
            Some(block) => seq![block@],
            None => Seq::empty(),
        });
        queue
    }

    /// return true if there are no items in the queue
    pub fn is_empty(&self) -> (empty: bool)
        requires
            self.wf(),
        ensures
            empty == (self@.pending().len() == 0),
            empty == (self.posted().len() == self.dispatched().len()),
    {
        proof {
            self@.lemma_nothing_pending();
        }
        match &self.current {
            Some(block) => {
                assert(self@.chain[self@.write as int] == block@);
                if self.filled.len() == 0 {
                    block.is_drained()
                } else {
                    false
                }
            },
            None => {
                assert(self@.chain.len() == 0);
                true
            },
        }
    }

    /// Returns true while an item that was taken out of the queue is being executed.
    pub fn is_pumping(&self) -> (pumping: bool)
        ensures
            pumping == self@.pumping,
    {
        self.pumping
    }

    /// push a work item onto the work queue
    ///
    /// An item that is being executed may do so too: see [`AdvancedWorkQueue::begin_one`].
    pub fn push<F: WorkItem<'a>>(&mut self, f: F)
        requires
            old(self).wf(),
            block::fits::<F>(),
            old(self)@.accepts(block::footprint::<F>()),
            f.runnable(),
        ensures
            final(self).wf(),
            final(self)@ == old(self)@.posted(
                QueuedItem::of(block::footprint::<F>() as usize, f),
            ),
            final(self)@.pending() == old(self)@.pending().push(
                QueuedItem::of(block::footprint::<F>() as usize, f),
            ),
            final(self)@.pending().last().size() >= ITEM_HEADER_LEN + vstd::layout::size_of::<
                Option<F>,
            >(),
            final(self)@.pending().last().size() < 2 * ITEM_HEADER_LEN + vstd::layout::size_of::<
                Option<F>,
            >(),
            final(self)@.pending().last().completed() == f.completed(),
            final(self).log() == old(self).log() + old(self)@.post_events(
                block::footprint::<F>(),
            ),
            ({
                let queue = old(self)@;
                let block = queue.chain[queue.write as int];
                queue.write < queue.chain.len() && block.end + 2 * ITEM_HEADER_LEN
                    + vstd::layout::size_of::<Option<F>>() <= block.size ==> final(self).log()
                    == old(self).log().push(StatEvent::Enqueue)
            }),
            final(self).posted() == old(self).posted().push(
                QueuedItem::of(block::footprint::<F>() as usize, f),
            ),
            final(self).dispatched() == old(self).dispatched(),
            final(self).stats() == old(self).stats(),
    {
        broadcast use QueuedItem::lemma_of;

        let ghost item = QueuedItem::of(block::footprint::<F>() as usize, f);
        proof {
            block::lemma_footprint::<F>();
            old(self)@.lemma_posted(item);
            old(self)@.lemma_prepared(item.size());
            old(self)@.lemma_post_balanced(item, old(self).log());
        }
        let len: usize = Block::align(ITEM_HEADER_LEN + core::mem::size_of::<Option<F>>());
        self.preallocate(len);
        let ghost ready = *self;
        assert(ready@.chain[ready@.write as int].wf());
        match &mut self.current {
            Some(block) => {
                assert(ready@.chain[ready@.write as int] == block@);
                block.push(Some(f));
            },
            None => {},
        }
        assert(self@.chain =~= old(self)@.posted(item).chain);
        self.note(StatEvent::Enqueue);
        proof {
            self.posted@ = &self.posted@.push(item);
        }
        assert(self.log() =~= old(self).log() + old(self)@.post_events(item.size()));
        assert(self.posted() =~= self.dispatched() + self@.pending());
    }

    /// A work item of type `F` can be pushed: it is neither too large nor too strictly aligned,
    /// and there is room for it in a block that the queue has, or in a new one.
    pub fn accepts<F>(&self) -> (ok: bool)
        requires
            self.wf(),
        ensures
            ok == (block::fits::<F>() && self@.accepts(block::footprint::<F>())),
            vstd::layout::size_of::<Option<F>>() + ITEM_HEADER_LEN <= BLOCK_LEN - BLOCK_HEADER_LEN
                && vstd::layout::align_of::<Option<F>>() <= ITEM_HEADER_LEN ==> ok,
            vstd::layout::size_of::<Option<F>>() > BLOCK_LEN - BLOCK_HEADER_LEN ==> !ok,
            vstd::layout::align_of::<Option<F>>() > ITEM_HEADER_LEN ==> !ok,
    {
        if !Block::fits::<F>() {
            return false;
        }
        proof {
            block::lemma_footprint::<F>();
            if vstd::layout::size_of::<Option<F>>() + ITEM_HEADER_LEN <= MAX_ITEM_LEN {
                laws::law_small_items_are_accepted::<F>(self@);
            }
        }
        let len: usize = Block::align(ITEM_HEADER_LEN + core::mem::size_of::<Option<F>>());
        if BLOCK_HEADER_LEN + len <= BLOCK_LEN {
            return true;
        }
        if self.current.is_none() {
            assert(self@.chain.len() == 0);
            return false;
        }
        proof {
            state::lemma_first_fit(self@.chain, self@.write + 1, len as nat);
        }
        self.free_remaining() >= len || self.find_spare(len) < self.spare.len()
    }

    /// Push a work item onto the work queue if it can be; hand it back if it cannot.
    pub fn try_push<F: WorkItem<'a>>(&mut self, f: F) -> (result: Result<(), F>)
        requires
            old(self).wf(),
            f.runnable(),
        ensures
            final(self).wf(),
            final(self).stats() == old(self).stats(),
            final(self).dispatched() == old(self).dispatched(),
            vstd::layout::size_of::<Option<F>>() + ITEM_HEADER_LEN <= BLOCK_LEN - BLOCK_HEADER_LEN
                && vstd::layout::align_of::<Option<F>>() <= ITEM_HEADER_LEN ==> result is Ok,
            vstd::layout::size_of::<Option<F>>() > BLOCK_LEN - BLOCK_HEADER_LEN ==> result is Err,
            vstd::layout::align_of::<Option<F>>() > ITEM_HEADER_LEN ==> result is Err,
            match result {
                Ok(()) => {
                    &&& block::fits::<F>()
                    &&& old(self)@.accepts(block::footprint::<F>())
                    &&& final(self)@ == old(self)@.posted(
                        QueuedItem::of(block::footprint::<F>() as usize, f),
                    )
                    &&& final(self)@.pending() == old(self)@.pending().push(
                        QueuedItem::of(block::footprint::<F>() as usize, f),
                    )
                    &&& final(self)@.pending().last().completed() == f.completed()
                    &&& final(self).log() == old(self).log() + old(self)@.post_events(
                        block::footprint::<F>(),
                    )
                    &&& final(self).posted() == old(self).posted().push(
                        QueuedItem::of(block::footprint::<F>() as usize, f),
                    )
                },
                Err(rejected) => {
                    &&& !(block::fits::<F>() && old(self)@.accepts(block::footprint::<F>()))
                    &&& rejected == f
                    &&& *final(self) == *old(self)
                },
            },
    {
        if self.accepts::<F>() {
            self.push(f);
            Ok(())
        } else {
            Err(f)
        }
    }

    /// Take the next item out of the queue in order to execute it.
    ///
    /// The queue is consistent while the item is being executed: the item may push further
    /// items, and may ask whether the queue is empty. No other item may be taken out until
    /// [`AdvancedWorkQueue::finish_one`] is called, once the item has been executed.
    pub fn begin_one(&mut self) -> (item: Option<QueuedItem<'a>>)
        requires
            old(self).wf(),
            !old(self)@.pumping,
        ensures
            final(self).wf(),
            final(self)@ == old(self)@.begun(),
            final(self).log() == old(self).log() + old(self)@.begin_events(),
            final(self).posted() == old(self).posted(),
            final(self).stats() == old(self).stats(),
            match item {
                Some(item) => {
                    &&& old(self)@.pending().len() > 0
                    &&& item == old(self)@.pending()[0]
                    &&& item.runnable()
                    &&& final(self)@.pumping
                    &&& final(self)@.pending() == old(self)@.pending().drop_first()
                    &&& final(self).dispatched() == old(self).dispatched().push(item)
                },
                None => {
                    &&& old(self)@.pending().len() == 0
                    &&& *final(self) == *old(self)
                },
            },
    {
        let ghost start = old(self)@;
        proof {
            start.lemma_nothing_pending();
        }
        if self.is_empty() {
            assert(self.log() =~= old(self).log() + start.begin_events());
            return None;
        }
        proof {
            start.lemma_front();
            start.lemma_begun();
            start.lemma_begin_balanced(old(self).log());
            assert(start.chain[0].wf());
        }
        if self.first_is_spent() {
            self.rotate();
            self.note(StatEvent::ReadRollover);
        }
        assert(self.log() =~= old(self).log() + start.begin_events());
        assert(self@ == start.fronted());
        let item = self.take_front();
        self.pumping = true;
        proof {
            self.dispatched@ = &self.dispatched@.push(start.pending()[0]);
            assert(self.posted() =~= self.dispatched() + self@.pending());
            assert forall|i: int| 0 <= i < StatEvent::Execute.count(self.log()) implies (
            #[trigger] self.dispatched()[i]).completed() by {
                assert(old(self).dispatched()[i].completed());
            }
        }
        item
    }

    /// Take the first item out of the first block.
    fn take_front(&mut self) -> (item: Option<QueuedItem<'a>>)
        requires
            old(self).linked(),
            old(self).reported(),
            old(self)@.chain_wf(),
            old(self)@.chain.len() > 0,
            old(self)@.chain[0].items.len() > 0,
        ensures
            final(self).linked(),
            final(self).reported(),
            item == Some(old(self)@.chain[0].items[0]),
            final(self)@ == (QueueState {
                chain: old(self)@.chain.update(0, old(self)@.chain[0].without_first()),
                ..old(self)@
            }),
            final(self).log() == old(self).log(),
            final(self).same_history(old(self)),
    {
        let ghost chain = self@.chain;
        assert(chain[0].wf());
        if self.filled.len() > 0 {
            let mut block = self.pop_front();
            let item = block.take_one();
            self.push_front(block);
            assert(self@.chain =~= chain.update(0, chain[0].without_first()));
            item
        } else {
            match &mut self.current {
                Some(block) => {
                    assert(chain[0] == block@);
                    let item = block.take_one();
                    assert(self@.chain =~= chain.update(0, chain[0].without_first()));
                    item
                },
                None => None,
            }
        }
    }

    /// Give back the bytes of the item that was taken out of the queue, once it has been
    /// executed; returns true if additional items remain.
    pub fn finish_one(&mut self) -> (more: bool)
        requires
            old(self).wf(),
            old(self)@.pumping,
            old(self).dispatched().last().completed(),
        ensures
            final(self).wf(),
            final(self)@ == old(self)@.finished(),
            !final(self)@.pumping,
            final(self)@.pending() == old(self)@.pending(),
            final(self).log() == old(self).log() + old(self)@.finish_events(),
            final(self).posted() == old(self).posted(),
            final(self).dispatched() == old(self).dispatched(),
            final(self).stats() == old(self).stats(),
            more == (final(self)@.pending().len() > 0),
    {
        let ghost start = old(self)@;
        proof {
            start.lemma_finished();
            start.lemma_finish_balanced(old(self).log());
            assert(start.chain[0].wf());
        }
        let empty = self.settle_front();
        self.pumping = false;
        self.note(StatEvent::Execute);
        assert(self@ == start.first_settled());
        let more = if empty {
            if self.filled.len() > 0 {
                self.rotate();
                self.note(StatEvent::ReadRollover);
                true
            } else {
                false
            }
        } else {
            true
        };
        assert(self.log() =~= old(self).log() + start.finish_events());
        more
    }

    /// Settle the first block; returns true if it is empty.
    fn settle_front(&mut self) -> (empty: bool)
        requires
            old(self).linked(),
            old(self).reported(),
            old(self)@.chain_wf(),
            old(self)@.chain.len() > 0,
        ensures
            final(self).linked(),
            final(self).reported(),
            empty == (old(self)@.chain[0].items.len() == 0),
            final(self)@ == (QueueState {
                chain: old(self)@.chain.update(0, old(self)@.chain[0].settled()),
                ..old(self)@
            }),
            final(self).log() == old(self).log(),
            final(self).same_history(old(self)),
    {
        let ghost chain = self@.chain;
        assert(chain[0].wf());
        if self.filled.len() > 0 {
            let mut block = self.pop_front();
            let empty = block.settle();
            self.push_front(block);
            assert(self@.chain =~= chain.update(0, chain[0].settled()));
            empty
        } else {
            match &mut self.current {
                Some(block) => {
                    assert(chain[0] == block@);
                    let empty = block.settle();
                    assert(self@.chain =~= chain.update(0, chain[0].settled()));
                    empty
                },
                None => true,
            }
        }
    }
}

} // verus!
