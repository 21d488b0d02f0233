//! The mathematical model of a queue: a chain of blocks, and what each operation makes of it.
use crate::block::{BlockState, BLOCK_HEADER_LEN, BLOCK_LEN, ITEM_HEADER_LEN};
use crate::item::QueuedItem;
use crate::stats::StatEvent;
use vstd::prelude::*;

verus! {

/// The items in a chain of blocks, in the order in which they will be executed.
pub open spec fn items_in<'a>(chain: Seq<BlockState<'a>>) -> Seq<QueuedItem<'a>>
    decreases chain.len(),
{
    if chain.len() == 0 {
        Seq::empty()
    } else {
        items_in(chain.drop_last()) + chain.last().items
    }
}

/// The first block at or behind `from` with room for `len` bytes; the length of the chain if
/// there is none.
pub open spec fn first_fit<'a>(chain: Seq<BlockState<'a>>, from: nat, len: nat) -> nat
    decreases chain.len() - from,
{
    if from >= chain.len() {
        chain.len()
    } else if chain[from as int].room() >= len {
        from
    } else {
        first_fit(chain, from + 1, len)
    }
}

/// At most one block of `chain` has another size than those that are allocated on demand.
#[verifier::opaque]
pub open spec fn one_odd_size<'a>(chain: Seq<BlockState<'a>>) -> bool {
    forall|i: int, j: int|
        #![trigger chain[i], chain[j]]
        0 <= i < j < chain.len() ==> chain[i].size == BLOCK_LEN || chain[j].size == BLOCK_LEN
}

/// An item that may be put into a queue.
pub open spec fn queueable(item: QueuedItem) -> bool {
    &&& item.runnable()
    &&& item.size() > 0
    &&& item.size() % (ITEM_HEADER_LEN as nat) == 0
}

/// The state of a queue.
///
/// Items are read from the first block of the chain and written to the block at index
/// `write`. The blocks behind that one are spare.
#[verifier::ext_equal]
pub struct QueueState<'a> {
    /// all blocks, in the order in which they are read and written
    pub chain: Seq<BlockState<'a>>,
    /// the block that the next item is written to
    pub write: nat,
    /// an item has been taken out of the queue and is being executed
    pub pumping: bool,
}

impl<'a> QueueState<'a> {
    /// A queue without a buffer.
    pub open spec fn empty() -> Self {
        QueueState { chain: Seq::empty(), write: 0, pumping: false }
    }

    /// A queue with one buffer of `size` bytes. No block is smaller than its header.
    pub open spec fn with_buffer(size: nat) -> Self {
        let size = if size < BLOCK_HEADER_LEN {
            BLOCK_HEADER_LEN as nat
        } else {
            size
        };
        QueueState { chain: seq![BlockState::fresh(size)], write: 0, pumping: false }
    }

    /// The chain is consistent, whether or not something has been written to the block at
    /// index `write`.
    pub open spec fn chain_wf(self) -> bool {
        &&& self.write < self.chain.len() || self.write == self.chain.len() == 0
        &&& self.pumping ==> self.chain.len() > 0
        &&& one_odd_size(self.chain)
        &&& forall|i: int| 0 <= i < self.chain.len() ==> (#[trigger] self.chain[i]).wf()
        &&& forall|i: int|
            self.write < i < self.chain.len() ==> (#[trigger] self.chain[i]).is_reset()
        &&& forall|i: int|
            0 <= i < self.chain.len() && (#[trigger] self.chain[i]).items.len() == 0 && !(i == 0
                && self.pumping) ==> self.chain[i].is_reset()
    }

    /// The state is consistent: every block is; all but one, the initial one, have the size of
    /// those that are allocated on demand; spare blocks are empty; empty blocks are
    /// written from their beginning, except for the one whose last item is being executed; and
    /// there are items in every block from the second to the write block.
    pub open spec fn wf(self) -> bool {
        &&& self.chain_wf()
        &&& forall|i: int| 0 < i <= self.write ==> (#[trigger] self.chain[i]).items.len() > 0
    }

    /// The items that are waiting, in the order in which they will be executed.
    pub open spec fn pending(self) -> Seq<QueuedItem<'a>> {
        items_in(self.chain)
    }

    /// A block, from the write block on, has room for `len` bytes.
    pub open spec fn has_room(self, len: nat) -> bool {
        exists|i: int|
            self.write <= i < self.chain.len() && (#[trigger] self.chain[i]).room() >= len
    }

    /// All blocks are empty and written from their beginning, and the first one is written to.
    pub open spec fn rewound(self) -> bool {
        &&& self.write == 0
        &&& forall|i: int| 0 <= i < self.chain.len() ==> (#[trigger] self.chain[i]).is_reset()
    }

    /// All blocks have `size` bytes.
    pub open spec fn blocks_have_size(self, size: nat) -> bool {
        forall|i: int| 0 <= i < self.chain.len() ==> (#[trigger] self.chain[i]).size == size
    }

    /// `log` is the record of a queue that has got into this state: each move of the write
    /// block is matched by a move of the read block but for the blocks between the two; each
    /// enqueued item is executed, waiting, or being executed; each block was allocated on
    /// demand, but for an initial one; and there are no more moves of the write block, and no
    /// more allocations, than enqueued items.
    pub open spec fn balanced(self, log: Seq<StatEvent>) -> bool {
        &&& StatEvent::WriteRollover.count(log) == StatEvent::ReadRollover.count(log) + self.write
        &&& StatEvent::Enqueue.count(log) == StatEvent::Execute.count(log) + self.pending().len()
            + if self.pumping {
            1nat
        } else {
            0nat
        }
        &&& StatEvent::BlockAllocate.count(log) <= self.chain.len()
            <= StatEvent::BlockAllocate.count(log) + 1
        &&& StatEvent::WriteRollover.count(log) <= StatEvent::Enqueue.count(log)
        &&& StatEvent::BlockAllocate.count(log) <= StatEvent::Enqueue.count(log)
    }

    /// The queue without its first block.
    pub open spec fn without_front(self) -> Self {
        QueueState { chain: self.chain.drop_first(), write: (self.write - 1) as nat, ..self }
    }

    /// The queue with `block` behind its last one.
    pub open spec fn with_back(self, block: BlockState<'a>) -> Self {
        QueueState { chain: self.chain.push(block), ..self }
    }

    /// The queue after its first block, which is empty, has become the last one.
    pub open spec fn rotated(self) -> Self {
        self.without_front().with_back(self.chain[0])
    }

    /// Room for `len` bytes can be made: a block, from the write block on, has it, or a new one
    /// would have it.
    pub open spec fn accepts(self, len: nat) -> bool {
        BLOCK_HEADER_LEN + len <= BLOCK_LEN || self.has_room(len)
    }

    /// The write block has room for `len` bytes.
    pub open spec fn is_ready(self, len: nat) -> bool {
        self.write < self.chain.len() && self.chain[self.write as int].room() >= len
    }

    /// The spare block that comes next when the write block has no room for `len` bytes: the
    /// first one that has. The length of the chain if there is none.
    pub open spec fn next_fit(self, len: nat) -> nat {
        first_fit(self.chain, self.write + 1, len)
    }

    /// The queue with room for `len` bytes in its write block. If the write block lacks it, the
    /// first spare block that has it, or else a new one, is brought directly behind the write
    /// block and takes its place.
    pub open spec fn prepared(self, len: nat) -> Self {
        let fresh = BlockState::fresh(BLOCK_LEN as nat);
        let at = self.next_fit(len) as int;
        let behind = self.write as int + 1;
        if self.chain.len() == 0 {
            QueueState { chain: seq![fresh], ..self }
        } else if self.is_ready(len) {
            self
        } else if at < self.chain.len() {
            QueueState {
                chain: self.chain.remove(at).insert(behind, self.chain[at]),
                write: self.write + 1,
                ..self
            }
        } else {
            QueueState { chain: self.chain.insert(behind, fresh), write: self.write + 1, ..self }
        }
    }

    /// What is reported while room is made for `len` bytes: an allocation for a new block, and
    /// then a rollover if the write block moves.
    pub open spec fn prepare_events(self, len: nat) -> Seq<StatEvent> {
        if self.chain.len() == 0 {
            seq![StatEvent::BlockAllocate]
        } else if self.is_ready(len) {
            Seq::empty()
        } else if self.next_fit(len) < self.chain.len() {
            seq![StatEvent::WriteRollover]
        } else {
            seq![StatEvent::BlockAllocate, StatEvent::WriteRollover]
        }
    }

    /// The queue with `item` behind all others.
    pub open spec fn posted(self, item: QueuedItem<'a>) -> Self {
        let ready = self.prepared(item.size());
        let at = ready.write as int;
        QueueState { chain: ready.chain.update(at, ready.chain[at].with_item(item)), ..ready }
    }

    /// What is reported while an item of `len` bytes is posted.
    pub open spec fn post_events(self, len: nat) -> Seq<StatEvent> {
        self.prepare_events(len).push(StatEvent::Enqueue)
    }

    /// The first block is empty, and is not the one that is written to.
    pub open spec fn first_is_spent(self) -> bool {
        self.write > 0 && self.chain[0].items.len() == 0
    }

    /// The queue with its next item in its first block.
    pub open spec fn fronted(self) -> Self {
        if self.first_is_spent() {
            self.rotated()
        } else {
            self
        }
    }

    /// The queue after its next item has been taken out in order to be executed; the queue as
    /// it is if nothing is waiting.
    pub open spec fn begun(self) -> Self {
        if self.pending().len() == 0 {
            self
        } else {
            let front = self.fronted();
            QueueState {
                chain: front.chain.update(0, front.chain[0].without_first()),
                pumping: true,
                ..front
            }
        }
    }

    /// What is reported while the next item is taken out: a rollover if there was an empty
    /// block in front of it.
    pub open spec fn begin_events(self) -> Seq<StatEvent> {
        if self.first_is_spent() {
            seq![StatEvent::ReadRollover]
        } else {
            Seq::empty()
        }
    }

    /// The queue with the bytes of the items that were taken out of its first block given
    /// back.
    pub open spec fn first_settled(self) -> Self {
        QueueState {
            chain: self.chain.update(0, self.chain[0].settled()),
            pumping: false,
            ..self
        }
    }

    /// The queue after the item that was taken out has been executed.
    pub open spec fn finished(self) -> Self {
        if self.first_is_spent() {
            self.first_settled().rotated()
        } else {
            self.first_settled()
        }
    }

    /// What is reported once an item has been executed.
    pub open spec fn finish_events(self) -> Seq<StatEvent> {
        if self.first_is_spent() {
            seq![StatEvent::Execute, StatEvent::ReadRollover]
        } else {
            seq![StatEvent::Execute]
        }
    }

    /// The queue after its next item, if there is one, has been executed, and has not posted
    /// anything.
    pub open spec fn stepped(self) -> Self {
        if self.pending().len() == 0 {
            self
        } else {
            self.begun().finished()
        }
    }

    /// What is reported while the next item is executed.
    pub open spec fn step_events(self) -> Seq<StatEvent> {
        if self.pending().len() == 0 {
            Seq::empty()
        } else {
            self.begin_events() + self.begun().finish_events()
        }
    }

    /// The queue after its `count` next items have been executed, and have not posted
    /// anything.
    pub open spec fn stepped_times(self, count: nat) -> Self
        decreases count,
    {
        if count == 0 {
            self
        } else {
            self.stepped_times((count - 1) as nat).stepped()
        }
    }

    /// What is reported while the `count` next items are executed.
    pub open spec fn steps_events(self, count: nat) -> Seq<StatEvent>
        decreases count,
    {
        if count == 0 {
            Seq::empty()
        } else {
            let before = (count - 1) as nat;
            self.steps_events(before) + self.stepped_times(before).step_events()
        }
    }

    /// Room can be made for each one of `items` when they are posted one after the other.
    pub open spec fn accepts_all(self, items: Seq<QueuedItem<'a>>) -> bool
        decreases items.len(),
    {
        items.len() > 0 ==> self.accepts_all(items.drop_last()) && self.posted_all(
            items.drop_last(),
        ).accepts(items.last().size())
    }

    /// What is reported while `items` are posted, one after the other.
    pub open spec fn post_all_events(self, items: Seq<QueuedItem<'a>>) -> Seq<StatEvent>
        decreases items.len(),
    {
        if items.len() == 0 {
            Seq::empty()
        } else {
            self.post_all_events(items.drop_last()) + self.posted_all(
                items.drop_last(),
            ).post_events(items.last().size())
        }
    }

    /// The queue after `items` have been posted, one after the other.
    pub open spec fn posted_all(self, items: Seq<QueuedItem<'a>>) -> Self
        decreases items.len(),
    {
        if items.len() == 0 {
            self
        } else {
            self.posted_all(items.drop_last()).posted(items.last())
        }
    }
}

/// The items of two chains, one behind the other.
pub proof fn lemma_items_add<'a>(front: Seq<BlockState<'a>>, back: Seq<BlockState<'a>>)
    ensures
        items_in(front + back) == items_in(front) + items_in(back),
    decreases back.len(),
{
    if back.len() == 0 {
        assert(front + back =~= front);
    } else {
        assert((front + back).drop_last() =~= front + back.drop_last());
        lemma_items_add(front, back.drop_last());
    }
}

/// There are no items in empty blocks.
pub proof fn lemma_items_none<'a>(chain: Seq<BlockState<'a>>)
    requires
        forall|i: int| 0 <= i < chain.len() ==> (#[trigger] chain[i]).items.len() == 0,
    ensures
        items_in(chain) == Seq::<QueuedItem<'a>>::empty(),
    decreases chain.len(),
{
    if chain.len() > 0 {
        assert forall|i: int| 0 <= i < chain.drop_last().len() implies (
        #[trigger] chain.drop_last()[i]).items.len() == 0 by {
            assert(chain[i].items.len() == 0);
        }
        lemma_items_none(chain.drop_last());
        assert(chain.last().items.len() == 0);
    }
}

/// The items of a chain, seen from the block at index `at`.
pub proof fn lemma_items_at<'a>(chain: Seq<BlockState<'a>>, at: int)
    requires
        0 <= at < chain.len(),
    ensures
        items_in(chain) == items_in(chain.take(at)) + chain[at].items + items_in(
            chain.skip(at + 1),
        ),
{
    assert(chain =~= chain.take(at + 1) + chain.skip(at + 1));
    lemma_items_add(chain.take(at + 1), chain.skip(at + 1));
    assert(chain.take(at + 1).drop_last() =~= chain.take(at));
}

/// The block that `first_fit` gives is the first one that fits.
pub proof fn lemma_first_fit<'a>(chain: Seq<BlockState<'a>>, from: nat, len: nat)
    requires
        from <= chain.len(),
    ensures
        from <= first_fit(chain, from, len) <= chain.len(),
        first_fit(chain, from, len) < chain.len() ==> chain[first_fit(
            chain,
            from,
            len,
        ) as int].room() >= len,
        forall|i: int|
            from <= i < first_fit(chain, from, len) ==> (#[trigger] chain[i]).room() < len,
    decreases chain.len() - from,
{
    if from < chain.len() && chain[from as int].room() < len {
        lemma_first_fit(chain, from + 1, len);
    }
}

/// A block that fits is the one that `first_fit` gives if none before it fits.
pub proof fn lemma_first_fit_is<'a>(chain: Seq<BlockState<'a>>, from: nat, len: nat, at: nat)
    requires
        from <= at <= chain.len(),
        forall|i: int| from <= i < at ==> (#[trigger] chain[i]).room() < len,
        at < chain.len() ==> chain[at as int].room() >= len,
    ensures
        first_fit(chain, from, len) == at,
    decreases at - from,
{
    if from < at {
        assert(chain[from as int].room() < len);
        lemma_first_fit_is(chain, from + 1, len, at);
    }
}

/// Which blocks have an odd size does not change when one is exchanged for one of its size, when
/// one is moved, or when one of the usual size is added.
pub proof fn lemma_one_odd_size<'a>(chain: Seq<BlockState<'a>>)
    requires
        one_odd_size(chain),
    ensures
        forall|at: int, block: BlockState<'a>|
            0 <= at < chain.len() && block.size == chain[at].size ==> one_odd_size(
                #[trigger] chain.update(at, block),
            ),
        forall|from: int, to: int|
            0 <= to <= from < chain.len() ==> one_odd_size(
                #[trigger] chain.remove(from).insert(to, chain[from]),
            ),
        forall|to: int, block: BlockState<'a>|
            0 <= to <= chain.len() && block.size == BLOCK_LEN ==> one_odd_size(
                #[trigger] chain.insert(to, block),
            ),
        chain.len() > 0 ==> one_odd_size(chain.drop_first().push(chain[0])),
{
    reveal(one_odd_size);
    assert forall|from: int, to: int| 0 <= to <= from < chain.len() implies one_odd_size(
        #[trigger] chain.remove(from).insert(to, chain[from]),
    ) by {
        let next = chain.remove(from).insert(to, chain[from]);
        assert forall|i: int, j: int|
            #![trigger next[i], next[j]]
            0 <= i < j < next.len() implies next[i].size == BLOCK_LEN || next[j].size
            == BLOCK_LEN by {
            let source = |k: int|
                if k == to {
                    from
                } else if to < k <= from {
                    k - 1
                } else {
                    k
                };
            assert(next[i] == chain[source(i)]);
            assert(next[j] == chain[source(j)]);
        }
    }
    assert forall|to: int, block: BlockState<'a>|
        0 <= to <= chain.len() && block.size == BLOCK_LEN implies one_odd_size(
        #[trigger] chain.insert(to, block),
    ) by {
        let next = chain.insert(to, block);
        assert forall|i: int, j: int|
            #![trigger next[i], next[j]]
            0 <= i < j < next.len() implies next[i].size == BLOCK_LEN || next[j].size
            == BLOCK_LEN by {
            if i != to && j != to {
                let source = |k: int|
                    if k < to {
                        k
                    } else {
                        k - 1
                    };
                assert(next[i] == chain[source(i)]);
                assert(next[j] == chain[source(j)]);
            }
        }
    }
    if chain.len() > 0 {
        let next = chain.drop_first().push(chain[0]);
        assert forall|i: int, j: int|
            #![trigger next[i], next[j]]
            0 <= i < j < next.len() implies next[i].size == BLOCK_LEN || next[j].size
            == BLOCK_LEN by {
            assert(next[i] == chain[i + 1]);
            if j < chain.len() - 1 {
                assert(next[j] == chain[j + 1]);
            } else {
                assert(next[j] == chain[0]);
            }
        }
    }
}

/// A chain of one block has at most one of an odd size.
pub proof fn lemma_one_odd_size_alone<'a>(chain: Seq<BlockState<'a>>)
    requires
        chain.len() <= 1,
    ensures
        one_odd_size(chain),
{
    reveal(one_odd_size);
}

impl<'a> QueueState<'a> {
    /// Nothing is waiting exactly when the first block is the write block and is empty.
    pub proof fn lemma_nothing_pending(self)
        requires
            self.wf(),
        ensures
            self.pending().len() == 0 <==> self.chain.len() == 0 || (self.write == 0
                && self.chain[0].items.len() == 0),
    {
        if self.chain.len() > 0 {
            lemma_items_at(self.chain, self.write as int);
            self.lemma_spare();
            if self.write == 0 {
                assert(self.chain.take(0) =~= Seq::<BlockState<'a>>::empty());
            }
        }
    }

    /// There are no items behind the write block.
    pub proof fn lemma_spare(self)
        requires
            self.chain_wf(),
            self.chain.len() > 0,
        ensures
            items_in(self.chain.skip(self.write as int + 1)) == Seq::<QueuedItem<'a>>::empty(),
    {
        let spare = self.chain.skip(self.write as int + 1);
        assert forall|i: int| 0 <= i < spare.len() implies (
        #[trigger] spare[i]).items.len() == 0 by {
            assert(self.chain[self.write + 1 + i].is_reset());
        }
        lemma_items_none(spare);
    }

    /// Making room keeps the chain consistent and the items as they are.
    pub proof fn lemma_prepared(self, len: nat)
        requires
            self.wf(),
            self.accepts(len),
        ensures
            self.prepared(len).chain_wf(),
            self.prepared(len).is_ready(len),
            self.prepared(len).pending() == self.pending(),
            forall|i: int|
                0 < i < self.prepared(len).write ==> (
                #[trigger] self.prepared(len).chain[i]).items.len() > 0,
    {
        let next = self.prepared(len);
        let fresh = BlockState::<'a>::fresh(BLOCK_LEN as nat);
        let write = self.write as int;
        let at = self.next_fit(len) as int;
        BlockState::<'a>::lemma_fresh(BLOCK_LEN as nat);
        lemma_one_odd_size(self.chain);
        if self.chain.len() == 0 {
            assert(!self.has_room(len));
            lemma_one_odd_size_alone(next.chain);
            lemma_items_none(next.chain);
        } else if !self.is_ready(len) {
            lemma_first_fit(self.chain, self.write + 1, len);
            if at >= self.chain.len() {
                assert(!self.has_room(len));
            }
            assert forall|i: int| 0 <= i < next.chain.len() implies {
                &&& (#[trigger] next.chain[i]).wf()
                &&& i > write ==> next.chain[i].is_reset()
                &&& i <= write ==> next.chain[i] == self.chain[i]
            } by {
                if i > write {
                    if at < self.chain.len() {
                        let from = if i == write + 1 {
                            at
                        } else if i <= at {
                            i - 1
                        } else {
                            i
                        };
                        assert(next.chain[i] == self.chain[from]);
                        assert(self.chain[from].is_reset());
                    } else if i > write + 1 {
                        assert(next.chain[i] == self.chain[i - 1]);
                        assert(self.chain[i - 1].is_reset());
                    }
                } else {
                    assert(next.chain[i] == self.chain[i]);
                }
            }
            let front = self.chain.take(write + 1);
            let spare = next.chain.skip(write + 1);
            assert(next.chain.take(write + 1) =~= front);
            assert forall|i: int| 0 <= i < spare.len() implies (
            #[trigger] spare[i]).items.len() == 0 by {
                assert(next.chain[write + 1 + i].is_reset());
            }
            lemma_items_none(spare);
            lemma_items_add(front, spare);
            assert(next.chain =~= front + spare);
            self.lemma_spare();
            lemma_items_add(front, self.chain.skip(write + 1));
            assert(self.chain =~= front + self.chain.skip(write + 1));
            assert forall|i: int| 0 < i < next.write implies (
            #[trigger] next.chain[i]).items.len() > 0 by {
                assert(self.chain[i].items.len() > 0);
            }
            assert forall|i: int|
                0 <= i < next.chain.len() && (#[trigger] next.chain[i]).items.len() == 0 && !(i
                    == 0 && next.pumping) implies next.chain[i].is_reset() by {
                if i <= write {
                    assert(self.chain[i].items.len() == 0);
                }
            }
        }
    }

    /// Posting an item keeps the state consistent and puts the item behind all others.
    pub proof fn lemma_posted(self, item: QueuedItem<'a>)
        requires
            self.wf(),
            queueable(item),
            self.accepts(item.size()),
        ensures
            self.posted(item).wf(),
            self.posted(item).pending() == self.pending().push(item),
            self.posted(item).pumping == self.pumping,
    {
        let ready = self.prepared(item.size());
        let next = self.posted(item);
        let at = ready.write as int;
        self.lemma_prepared(item.size());
        let block = ready.chain[at];
        block.lemma_with_item(item);
        lemma_one_odd_size(ready.chain);
        assert forall|i: int| 0 <= i < next.chain.len() implies (
        #[trigger] next.chain[i]).wf() by {
            if i != at {
                assert(ready.chain[i].wf());
            }
        }
        assert forall|i: int| next.write < i < next.chain.len() implies (
        #[trigger] next.chain[i]).is_reset() by {
            assert(ready.chain[i].is_reset());
        }
        assert forall|i: int|
            0 <= i < next.chain.len() && (#[trigger] next.chain[i]).items.len() == 0 && !(i == 0
                && next.pumping) implies next.chain[i].is_reset() by {
            assert(ready.chain[i].items.len() == 0);
        }
        assert forall|i: int| 0 < i <= next.write implies (
        #[trigger] next.chain[i]).items.len() > 0 by {
            if i < at {
                assert(ready.chain[i].items.len() > 0);
            }
        }
        lemma_items_at(ready.chain, at);
        lemma_items_at(next.chain, at);
        assert(next.chain.take(at) =~= ready.chain.take(at));
        assert(next.chain.skip(at + 1) =~= ready.chain.skip(at + 1));
        ready.lemma_spare();
        assert(next.pending() =~= self.pending().push(item));
    }

    /// Moving an empty block from the front to the back keeps the state consistent and the
    /// items as they are.
    pub proof fn lemma_rotated(self)
        requires
            self.wf(),
            self.first_is_spent(),
            !self.pumping,
        ensures
            self.rotated().wf(),
            self.rotated().pending() == self.pending(),
            self.rotated().chain[0].items.len() > 0,
    {
        let next = self.rotated();
        let front = seq![self.chain[0]];
        let back = self.chain.drop_first();
        lemma_one_odd_size(self.chain);
        assert(self.chain[0].items.len() == 0);
        lemma_items_none(front);
        lemma_items_add(front, back);
        lemma_items_add(back, front);
        assert(self.chain =~= front + back);
        assert(next.chain =~= back + front);
        assert(next.pending() =~= self.pending());
        assert forall|i: int| 0 <= i < next.chain.len() implies {
            &&& (#[trigger] next.chain[i]).wf()
            &&& next.write < i ==> next.chain[i].is_reset()
            &&& next.chain[i].items.len() == 0 ==> next.chain[i].is_reset()
            &&& i <= next.write ==> next.chain[i].items.len() > 0
        } by {
            if i < back.len() {
                assert(next.chain[i] == self.chain[i + 1]);
            } else {
                assert(next.chain[i] == self.chain[0]);
            }
        }
    }

    /// The next item lies at the beginning of the first block, or of the second if the first
    /// one is spent.
    pub proof fn lemma_front(self)
        requires
            self.wf(),
            !self.pumping,
            self.pending().len() > 0,
        ensures
            self.fronted().wf(),
            !self.fronted().pumping,
            self.fronted().pending() == self.pending(),
            self.fronted().chain.len() == self.chain.len(),
            self.fronted().chain[0].items.len() > 0,
            self.fronted().chain[0].items[0] == self.pending()[0],
    {
        self.lemma_nothing_pending();
        if self.first_is_spent() {
            self.lemma_rotated();
        }
        let front = self.fronted();
        lemma_items_at(front.chain, 0);
        assert(front.chain.take(0) =~= Seq::<BlockState<'a>>::empty());
    }

    /// Taking the next item out keeps the state consistent and leaves the other items.
    pub proof fn lemma_begun(self)
        requires
            self.wf(),
            !self.pumping,
            self.pending().len() > 0,
        ensures
            self.begun().wf(),
            self.begun().pumping,
            self.begun().pending() == self.pending().drop_first(),
            self.pending()[0].runnable(),
    {
        let front = self.fronted();
        let next = self.begun();
        self.lemma_front();
        let block = front.chain[0];
        assert(block.wf());
        block.lemma_without_first();
        lemma_one_odd_size(front.chain);
        assert forall|i: int| 0 <= i < next.chain.len() implies {
            &&& (#[trigger] next.chain[i]).wf()
            &&& next.write < i ==> next.chain[i].is_reset()
            &&& next.chain[i].items.len() == 0 && !(i == 0 && next.pumping)
                ==> next.chain[i].is_reset()
            &&& 0 < i <= next.write ==> next.chain[i].items.len() > 0
        } by {
            if i > 0 {
                assert(next.chain[i] == front.chain[i]);
            }
        }
        lemma_items_at(front.chain, 0);
        lemma_items_at(next.chain, 0);
        assert(next.chain.take(0) =~= front.chain.take(0));
        assert(next.chain.skip(1) =~= front.chain.skip(1));
        assert(front.chain.take(0) =~= Seq::<BlockState<'a>>::empty());
        assert(next.pending() =~= self.pending().drop_first());
    }

    /// Giving the bytes of the executed item back keeps the state consistent and the items as
    /// they are.
    pub proof fn lemma_finished(self)
        requires
            self.wf(),
            self.pumping,
        ensures
            self.finished().wf(),
            !self.finished().pumping,
            self.finished().pending() == self.pending(),
            self.finished().pending().len() > 0 <==> self.write > 0
                || self.chain[0].items.len() > 0,
    {
        let next = self.first_settled();
        let block = self.chain[0];
        assert(block.wf());
        block.lemma_settled();
        lemma_one_odd_size(self.chain);
        assert forall|i: int| 0 <= i < next.chain.len() implies {
            &&& (#[trigger] next.chain[i]).wf()
            &&& next.write < i ==> next.chain[i].is_reset()
            &&& next.chain[i].items.len() == 0 ==> next.chain[i].is_reset()
            &&& 0 < i <= next.write ==> next.chain[i].items.len() > 0
        } by {
            if i > 0 {
                assert(next.chain[i] == self.chain[i]);
            }
        }
        lemma_items_at(self.chain, 0);
        lemma_items_at(next.chain, 0);
        assert(next.chain.take(0) =~= self.chain.take(0));
        assert(next.chain.skip(1) =~= self.chain.skip(1));
        if self.first_is_spent() {
            next.lemma_rotated();
        }
        self.finished().lemma_nothing_pending();
        next.lemma_nothing_pending();
    }

    /// Executing the next item keeps the state consistent and leaves the other items.
    pub proof fn lemma_stepped(self)
        requires
            self.wf(),
            !self.pumping,
        ensures
            self.stepped().wf(),
            !self.stepped().pumping,
            self.pending().len() > 0 ==> self.stepped().pending() == self.pending().drop_first(),
    {
        if self.pending().len() > 0 {
            self.lemma_begun();
            self.begun().lemma_finished();
        }
    }

    /// Executing the `count` next items leaves the others.
    pub proof fn lemma_stepped_times(self, count: nat)
        requires
            self.wf(),
            !self.pumping,
            count <= self.pending().len(),
        ensures
            self.stepped_times(count).wf(),
            !self.stepped_times(count).pumping,
            self.stepped_times(count).pending() == self.pending().skip(count as int),
        decreases count,
    {
        if count > 0 {
            let before = self.stepped_times((count - 1) as nat);
            self.lemma_stepped_times((count - 1) as nat);
            before.lemma_stepped();
            assert(before.pending().drop_first() =~= self.pending().skip(count as int));
        } else {
            assert(self.pending().skip(0) =~= self.pending());
        }
    }

    /// How often each event is reported while an item of `len` bytes is posted.
    pub proof fn lemma_post_counts(self, len: nat)
        ensures
            StatEvent::Enqueue.count(self.post_events(len)) == 1,
            StatEvent::Execute.count(self.post_events(len)) == 0,
            StatEvent::ReadRollover.count(self.post_events(len)) == 0,
            StatEvent::WriteRollover.count(self.post_events(len)) == if self.chain.len() == 0
                || self.is_ready(len) {
                0nat
            } else {
                1nat
            },
            StatEvent::BlockAllocate.count(self.post_events(len)) == if self.chain.len() == 0 || (
            !self.is_ready(len) && self.next_fit(len) >= self.chain.len()) {
                1nat
            } else {
                0nat
            },
    {
        let events = self.prepare_events(len);
        assert(self.post_events(len).drop_last() =~= events);
        assert(self.post_events(len).last() == StatEvent::Enqueue);
        if events.len() > 0 {
            let first = events.drop_last();
            if first.len() > 0 {
                assert(first.drop_last() =~= Seq::<StatEvent>::empty());
            }
        }
        reveal_with_fuel(StatEvent::count, 4);
    }

    /// The record stays balanced when an item is posted.
    pub proof fn lemma_post_balanced(self, item: QueuedItem<'a>, log: Seq<StatEvent>)
        requires
            self.wf(),
            queueable(item),
            self.accepts(item.size()),
            self.balanced(log),
        ensures
            self.posted(item).balanced(log + self.post_events(item.size())),
            StatEvent::Execute.count(log + self.post_events(item.size()))
                == StatEvent::Execute.count(log),
    {
        let events = self.post_events(item.size());
        self.lemma_posted(item);
        self.lemma_post_counts(item.size());
        if self.chain.len() > 0 {
            lemma_first_fit(self.chain, self.write + 1, item.size());
        }
        StatEvent::Enqueue.lemma_count_add(log, events);
        StatEvent::Execute.lemma_count_add(log, events);
        StatEvent::BlockAllocate.lemma_count_add(log, events);
        StatEvent::WriteRollover.lemma_count_add(log, events);
        StatEvent::ReadRollover.lemma_count_add(log, events);
    }

    /// The record stays balanced when the next item is taken out.
    pub proof fn lemma_begin_balanced(self, log: Seq<StatEvent>)
        requires
            self.wf(),
            !self.pumping,
            self.balanced(log),
        ensures
            self.begun().balanced(log + self.begin_events()),
            StatEvent::Execute.count(log + self.begin_events()) == StatEvent::Execute.count(log),
    {
        self.lemma_nothing_pending();
        assert forall|event: StatEvent| #[trigger]
            event.count(log + self.begin_events()) == event.count(log) + event.count(
                self.begin_events(),
            ) by {
            event.lemma_count_add(log, self.begin_events());
        }
        reveal_with_fuel(StatEvent::count, 2);
        if self.pending().len() > 0 {
            self.lemma_begun();
            self.lemma_front();
        }
    }

    /// The record stays balanced when the item that was taken out has been executed.
    pub proof fn lemma_finish_balanced(self, log: Seq<StatEvent>)
        requires
            self.wf(),
            self.pumping,
            self.balanced(log),
        ensures
            self.finished().balanced(log + self.finish_events()),
            StatEvent::Execute.count(log + self.finish_events()) == StatEvent::Execute.count(log)
                + 1,
    {
        self.lemma_finished();
        assert forall|event: StatEvent| #[trigger]
            event.count(log + self.finish_events()) == event.count(log) + event.count(
                self.finish_events(),
            ) by {
            event.lemma_count_add(log, self.finish_events());
        }
        reveal_with_fuel(StatEvent::count, 3);
    }
}

} // verus!
