//! What holds of the library as a whole.
use crate::block::{
    self, BlockState, BLOCK_HEADER_LEN, BLOCK_LEN, ITEM_HEADER_LEN, MAX_ITEM_LEN,
};
use crate::item::{DynamicWorkItem, QueuedItem, WorkItem};
use crate::state::{self, QueueState};
use crate::stats::StatEvent;
use vstd::prelude::*;

verus! {

/// A closure is a work item: it may be executed when it may be called, and what holds once it
/// has been executed is what holds once it has been called.
pub proof fn law_closure_is_work_item<F: FnOnce()>(f: F)
    ensures
        f.runnable() == call_requires(f, ()),
        f.completed() == call_ensures(f, (), ()),
{
}

/// Erasing the type of a closure makes an item that has not been executed yet, and that may be
/// executed when the closure may be called, with the same outcome.
pub proof fn law_dynamic_closure<F: FnOnce()>(f: F)
    ensures
        !f.dynamic().dispatched(),
        f.dynamic().runnable() == call_requires(f, ()),
        f.dynamic().completed() == call_ensures(f, (), ()),
{
    broadcast use crate::item::WorkItemWrapper::lemma_holding;

}

/// Rounding up gives the least multiple of the item header's length that is not below `len`.
pub proof fn law_aligned_is_least(len: nat, multiple: nat)
    requires
        multiple % (ITEM_HEADER_LEN as nat) == 0,
        len <= multiple,
    ensures
        block::aligned(len) % (ITEM_HEADER_LEN as nat) == 0,
        len <= block::aligned(len) <= multiple,
{
    block::lemma_aligned_least(len, multiple);
}

/// Items are laid out without gaps: each one starts where the one before it ends, behind the
/// block's header and inside the block, on a multiple of the item header's length.
pub proof fn law_no_gaps(block: BlockState, i: int)
    requires
        block.wf(),
        0 <= i < block.items.len(),
    ensures
        block.offset(0) == block.beg,
        block.offset(i + 1) == block.offset(i) + block.items[i].size(),
        block.offset(block.items.len() as int) == block.end,
        BLOCK_HEADER_LEN <= block.offset(i) < block.offset(i + 1) <= block.size,
        block.offset(i) % (ITEM_HEADER_LEN as nat) == 0,
    decreases i,
{
    let items = block.items;
    assert(items.take(i + 1).drop_last() =~= items.take(i));
    assert(items.take(0) =~= Seq::<QueuedItem>::empty());
    assert(items.take(items.len() as int) =~= items);
    lemma_total_take(items, i + 1);
    assert(items[i].size() > 0);
    if i > 0 {
        law_no_gaps(block, i - 1);
        block::lemma_aligned(block.offset(i - 1), items[i - 1].size());
    }
}

/// Part of the items take up no more than all of them.
proof fn lemma_total_take(items: Seq<QueuedItem>, count: int)
    requires
        0 <= count <= items.len(),
    ensures
        block::total(items.take(count)) <= block::total(items),
    decreases items.len() - count,
{
    if count < items.len() {
        assert(items.take(count + 1).drop_last() =~= items.take(count));
        lemma_total_take(items, count + 1);
    } else {
        assert(items.take(count) =~= items);
    }
}

/// Posting items puts them behind those that are waiting, in the order in which they are
/// posted, whether or not an item is being executed.
pub proof fn law_posting_appends<'a>(queue: QueueState<'a>, items: Seq<QueuedItem<'a>>)
    requires
        queue.wf(),
        forall|i: int| 0 <= i < items.len() ==> state::queueable(#[trigger] items[i]),
        queue.accepts_all(items),
    ensures
        queue.posted_all(items).wf(),
        queue.posted_all(items).pending() == queue.pending() + items,
        queue.posted_all(items).pumping == queue.pumping,
    decreases items.len(),
{
    if items.len() > 0 {
        law_posting_appends(queue, items.drop_last());
        assert(state::queueable(items[items.len() - 1]));
        queue.posted_all(items.drop_last()).lemma_posted(items.last());
    }
    assert(queue.posted_all(items).pending() =~= queue.pending() + items);
}

/// Every queue has, or can get, room for an item that fits into a block that is allocated on
/// demand.
pub proof fn law_small_items_are_accepted<'a, F>(queue: QueueState<'a>)
    requires
        vstd::layout::size_of::<Option<F>>() + ITEM_HEADER_LEN <= MAX_ITEM_LEN,
    ensures
        queue.accepts(block::footprint::<F>()),
{
    // what a block has behind its header is a multiple of the item header's length
    assert((MAX_ITEM_LEN as nat) % (ITEM_HEADER_LEN as nat) == 0) by {
        if usize::BITS == 64 {
            assert(ITEM_HEADER_LEN == 32);
        } else {
            assert(ITEM_HEADER_LEN == 16);
        }
    }
    block::lemma_aligned_least(
        ITEM_HEADER_LEN as nat + vstd::layout::size_of::<Option<F>>(),
        MAX_ITEM_LEN as nat,
    );
}

/// Every queue has, or can get, room for items that each fit into a block that is allocated on
/// demand, one after the other.
pub proof fn law_small_items_are_all_accepted<'a>(
    queue: QueueState<'a>,
    items: Seq<QueuedItem<'a>>,
)
    requires
        forall|i: int|
            0 <= i < items.len() ==> BLOCK_HEADER_LEN + (#[trigger] items[i]).size() <= BLOCK_LEN,
    ensures
        queue.accepts_all(items),
    decreases items.len(),
{
    if items.len() > 0 {
        law_small_items_are_all_accepted(queue, items.drop_last());
        assert(BLOCK_HEADER_LEN + items[items.len() - 1].size() <= BLOCK_LEN);
    }
}

/// First in, first out: once `count` items have been executed, those that remain are those
/// that were waiting and those that were posted, in this order, without the first `count`.
pub proof fn law_first_in_first_out<'a>(
    queue: QueueState<'a>,
    items: Seq<QueuedItem<'a>>,
    count: nat,
)
    requires
        queue.wf(),
        !queue.pumping,
        forall|i: int| 0 <= i < items.len() ==> state::queueable(#[trigger] items[i]),
        queue.accepts_all(items),
        count <= queue.pending().len() + items.len(),
    ensures
        queue.posted_all(items).stepped_times(count).wf(),
        queue.posted_all(items).stepped_times(count).pending() == (queue.pending() + items).skip(
            count as int,
        ),
{
    law_posting_appends(queue, items);
    queue.posted_all(items).lemma_stepped_times(count);
}

/// An item that is being executed may post further items: they go behind those that are
/// waiting, and are executed when their turn comes.
pub proof fn law_post_while_running<'a>(queue: QueueState<'a>, items: Seq<QueuedItem<'a>>)
    requires
        queue.wf(),
        !queue.pumping,
        queue.pending().len() > 0,
        forall|i: int| 0 <= i < items.len() ==> state::queueable(#[trigger] items[i]),
        queue.begun().accepts_all(items),
    ensures
        queue.begun().wf(),
        queue.begun().posted_all(items).wf(),
        queue.begun().posted_all(items).finished().wf(),
        !queue.begun().posted_all(items).finished().pumping,
        queue.begun().posted_all(items).finished().pending() == queue.pending().drop_first()
            + items,
{
    queue.lemma_begun();
    law_posting_appends(queue.begun(), items);
    queue.begun().posted_all(items).lemma_finished();
}

/// Executing everything that is waiting leaves all blocks, empty and written from their
/// beginning, with the first one to be written to next.
pub proof fn law_pumping_empties<'a>(queue: QueueState<'a>)
    requires
        queue.wf(),
        !queue.pumping,
    ensures
        queue.stepped_times(queue.pending().len()).wf(),
        queue.stepped_times(queue.pending().len()).pending().len() == 0,
        queue.stepped_times(queue.pending().len()).rewound(),
        queue.stepped_times(queue.pending().len()).chain.len() == queue.chain.len(),
{
    let count = queue.pending().len();
    queue.lemma_stepped_times(count);
    lemma_steps_keep_blocks(queue, count, 0);
    lemma_rewound(queue.stepped_times(count));
}

/// A queue in which nothing is waiting or being executed starts over.
pub proof fn lemma_rewound<'a>(queue: QueueState<'a>)
    requires
        queue.wf(),
        !queue.pumping,
        queue.pending().len() == 0,
    ensures
        queue.rewound(),
{
    queue.lemma_nothing_pending();
    assert forall|i: int| 0 <= i < queue.chain.len() implies (
    #[trigger] queue.chain[i]).is_reset() by {
        if i == 0 {
            assert(queue.chain[0].items.len() == 0);
        }
    }
}

/// Once nothing is waiting or being executed, as many items have been executed as were
/// enqueued, and the read block has moved as often as the write block.
pub proof fn law_all_accounted_for<'a>(queue: QueueState<'a>, log: Seq<StatEvent>)
    requires
        queue.wf(),
        queue.balanced(log),
        !queue.pumping,
        queue.pending().len() == 0,
    ensures
        StatEvent::Enqueue.count(log) == StatEvent::Execute.count(log),
        StatEvent::WriteRollover.count(log) == StatEvent::ReadRollover.count(log),
{
    lemma_rewound(queue);
}

/// Over any history, the write block and the read block have moved, and blocks have been
/// allocated, at most once for each item that was enqueued.
///
/// With [`law_search_is_short`] this bounds the work of queue management: each move is preceded
/// by one search.
pub proof fn law_amortized_constant<'a>(queue: QueueState<'a>, log: Seq<StatEvent>)
    requires
        queue.wf(),
        queue.balanced(log),
    ensures
        StatEvent::WriteRollover.count(log) <= StatEvent::Enqueue.count(log),
        StatEvent::ReadRollover.count(log) <= StatEvent::Enqueue.count(log),
        StatEvent::BlockAllocate.count(log) <= StatEvent::Enqueue.count(log),
{
}

/// The search for a block that has room for an item looks at two spare blocks at most, if the
/// item fits into a block that is allocated on demand: all but one block are such. For a larger
/// item, which only a larger initial buffer can hold, all spare blocks are looked at until that
/// one is found, and this is not bounded here.
pub proof fn law_search_is_short<'a>(queue: QueueState<'a>, len: nat)
    requires
        queue.wf(),
        queue.chain.len() > 0,
        BLOCK_HEADER_LEN + len <= BLOCK_LEN,
    ensures
        queue.write + 1 <= queue.next_fit(len) <= queue.write + 2,
{
    let behind = queue.write as int + 1;
    state::lemma_first_fit(queue.chain, queue.write + 1, len);
    if queue.next_fit(len) > behind + 1 {
        assert(queue.chain[behind].is_reset());
        assert(queue.chain[behind + 1].is_reset());
        assert(queue.chain[behind].room() < len);
        assert(queue.chain[behind + 1].room() < len);
        reveal(state::one_odd_size);
    }
}

/// One push moves the write block by one at most, and reports the move.
pub proof fn law_one_rollover_per_push<'a>(queue: QueueState<'a>, len: nat)
    requires
        queue.wf(),
    ensures
        queue.write <= queue.prepared(len).write <= queue.write + 1,
        StatEvent::WriteRollover.count(queue.post_events(len)) == queue.prepared(len).write
            - queue.write,
        StatEvent::ReadRollover.count(queue.post_events(len)) == 0,
{
    queue.lemma_post_counts(len);
}

/// Dispatching an item reports one execution, and one move of the read block at most, but for
/// one more if there was an empty block in front. It reports nothing if nothing is waiting.
pub proof fn law_events_of_a_dispatch<'a>(queue: QueueState<'a>)
    requires
        queue.wf(),
        !queue.pumping,
    ensures
        queue.pending().len() == 0 ==> queue.step_events().len() == 0,
        queue.pending().len() > 0 ==> {
            &&& StatEvent::Execute.count(queue.step_events()) == 1
            &&& StatEvent::ReadRollover.count(queue.step_events()) <= if queue.first_is_spent() {
                2nat
            } else {
                1nat
            }
            &&& StatEvent::Enqueue.count(queue.step_events()) == 0
            &&& StatEvent::WriteRollover.count(queue.step_events()) == 0
            &&& StatEvent::BlockAllocate.count(queue.step_events()) == 0
        },
{
    if queue.pending().len() > 0 {
        let begin = queue.begin_events();
        let finish = queue.begun().finish_events();
        StatEvent::Execute.lemma_count_add(begin, finish);
        StatEvent::ReadRollover.lemma_count_add(begin, finish);
        StatEvent::Enqueue.lemma_count_add(begin, finish);
        StatEvent::WriteRollover.lemma_count_add(begin, finish);
        StatEvent::BlockAllocate.lemma_count_add(begin, finish);
        reveal_with_fuel(StatEvent::count, 3);
    }
}

/// Moving the first block to the back loses no block, adds none and changes none, and leaves
/// the block that is written to the same.
pub proof fn law_rotation<'a>(queue: QueueState<'a>)
    requires
        0 < queue.write < queue.chain.len(),
    ensures
        queue.without_front().with_back(queue.chain[0]) == queue.rotated(),
        queue.rotated().chain == queue.chain.skip(1) + queue.chain.take(1),
        queue.rotated().chain.to_multiset() == queue.chain.to_multiset(),
        queue.rotated().chain[queue.rotated().write as int] == queue.chain[queue.write as int],
        queue.rotated().pumping == queue.pumping,
{
    let front = queue.chain.take(1);
    let back = queue.chain.skip(1);
    assert(queue.rotated().chain =~= back + front);
    assert(queue.chain =~= front + back);
    vstd::seq_lib::lemma_multiset_commutative(front, back);
    vstd::seq_lib::lemma_multiset_commutative(back, front);
    assert((back + front).to_multiset() =~= (front + back).to_multiset());
}

/// Posting an item allocates a block exactly when no block, from the write block on, has room
/// for the item, and then only one; executing items neither allocates nor gives up a block.
pub proof fn law_allocates_only_when_full<'a>(queue: QueueState<'a>, item: QueuedItem<'a>)
    requires
        queue.wf(),
    ensures
        queue.posted(item).chain.len() == queue.chain.len() + if queue.has_room(item.size()) {
            0nat
        } else {
            1nat
        },
        StatEvent::BlockAllocate.count(queue.post_events(item.size())) == if queue.has_room(
            item.size(),
        ) {
            0nat
        } else {
            1nat
        },
        !queue.pumping ==> queue.begun().chain.len() == queue.chain.len(),
        queue.pumping ==> queue.finished().chain.len() == queue.chain.len(),
{
    let len = item.size();
    queue.lemma_post_counts(len);
    if queue.chain.len() > 0 {
        lemma_room(queue, len);
    }
    if !queue.pumping && queue.pending().len() > 0 {
        queue.lemma_front();
    }
}

/// There is room in the write block, or in a block behind it, or nowhere.
proof fn lemma_room<'a>(queue: QueueState<'a>, len: nat)
    requires
        queue.wf(),
        queue.chain.len() > 0,
    ensures
        queue.has_room(len) <==> queue.is_ready(len) || queue.next_fit(len) < queue.chain.len(),
        queue.write < queue.next_fit(len) <= queue.chain.len(),
{
    let at = queue.next_fit(len);
    state::lemma_first_fit(queue.chain, queue.write + 1, len);
    if queue.is_ready(len) {
        assert(queue.chain[queue.write as int].room() >= len);
    } else if at < queue.chain.len() {
        assert(queue.chain[at as int].room() >= len);
    } else if queue.has_room(len) {
        let i = choose|i: int|
            queue.write <= i < queue.chain.len() && (#[trigger] queue.chain[i]).room() >= len;
        assert(queue.chain[i].room() < len);
    }
}

/// The number of blocks in `chain` that have room for `len` bytes when they are empty.
pub open spec fn large_enough<'a>(chain: Seq<BlockState<'a>>, len: nat) -> nat
    decreases chain.len(),
{
    if chain.len() == 0 {
        0
    } else {
        large_enough(chain.drop_last(), len) + if BLOCK_HEADER_LEN + len <= chain.last().size {
            1nat
        } else {
            0nat
        }
    }
}

/// A block that is not large enough is not counted.
proof fn lemma_large_enough<'a>(chain: Seq<BlockState<'a>>, from: nat, len: nat)
    requires
        from <= chain.len(),
        forall|i: int|
            from <= i < chain.len() ==> (#[trigger] chain[i]).size < BLOCK_HEADER_LEN + len,
    ensures
        large_enough(chain, len) <= from,
    decreases chain.len(),
{
    if chain.len() > from {
        assert(chain[chain.len() - 1].size < BLOCK_HEADER_LEN + len);
        assert forall|i: int| from <= i < chain.drop_last().len() implies (
        #[trigger] chain.drop_last()[i]).size < BLOCK_HEADER_LEN + len by {
            assert(chain[i].size < BLOCK_HEADER_LEN + len);
        }
        lemma_large_enough(chain.drop_last(), from, len);
    } else if chain.len() > 0 {
        lemma_large_enough(chain.drop_last(), (from - 1) as nat, len);
    }
}

/// The write block is not further from the first one than there are items waiting.
proof fn lemma_write_bounded<'a>(chain: Seq<BlockState<'a>>, write: nat)
    requires
        write < chain.len(),
        forall|i: int| 0 < i <= write ==> (#[trigger] chain[i]).items.len() > 0,
    ensures
        write <= state::items_in(chain.take(write as int + 1)).len(),
    decreases write,
{
    let front = chain.take(write as int + 1);
    if write > 0 {
        assert(front.drop_last() =~= chain.take(write as int));
        assert(chain[write as int].items.len() > 0);
        lemma_write_bounded(chain, (write - 1) as nat);
    }
}

/// Allocation comes to an end, whatever the load: a queue that has two more blocks of
/// sufficient size than items waiting does not allocate.
pub proof fn law_enough_blocks_do_not_grow<'a>(queue: QueueState<'a>, item: QueuedItem<'a>)
    requires
        queue.wf(),
        large_enough(queue.chain, item.size()) >= queue.pending().len() + 2,
    ensures
        queue.posted(item).chain.len() == queue.chain.len(),
        StatEvent::BlockAllocate.count(queue.post_events(item.size())) == 0,
{
    let len = item.size();
    law_allocates_only_when_full(queue, item);
    lemma_large_enough(queue.chain, queue.chain.len(), len);
    assert(queue.chain.len() > 0);
    let write = queue.write as int;
    lemma_write_bounded(queue.chain, queue.write);
    assert(queue.chain =~= queue.chain.take(write + 1) + queue.chain.skip(write + 1));
    state::lemma_items_add(queue.chain.take(write + 1), queue.chain.skip(write + 1));
    if !queue.has_room(len) {
        assert forall|i: int| write + 1 <= i < queue.chain.len() implies (
        #[trigger] queue.chain[i]).size < BLOCK_HEADER_LEN + len by {
            assert(queue.chain[i].is_reset());
            assert(queue.chain[i].room() < len);
        }
        lemma_large_enough(queue.chain, queue.write + 1, len);
    }
}

/// Executing items keeps the number of blocks, and the size of blocks that all have the same.
proof fn lemma_steps_keep_blocks<'a>(queue: QueueState<'a>, count: nat, size: nat)
    requires
        queue.wf(),
        !queue.pumping,
        count <= queue.pending().len(),
    ensures
        queue.stepped_times(count).chain.len() == queue.chain.len(),
        queue.blocks_have_size(size) ==> queue.stepped_times(count).blocks_have_size(size),
    decreases count,
{
    if count > 0 {
        let before = queue.stepped_times((count - 1) as nat);
        lemma_steps_keep_blocks(queue, (count - 1) as nat, size);
        queue.lemma_stepped_times((count - 1) as nat);
        before.lemma_front();
        let front = before.fronted();
        let begun = before.begun();
        let settled = begun.first_settled();
        let after = begun.finished();
        if before.blocks_have_size(size) {
            lemma_rotation_keeps_size(before, size);
            assert forall|i: int| 0 <= i < settled.chain.len() implies (
            #[trigger] settled.chain[i]).size == size by {
                assert(front.chain[i].size == size);
            }
            lemma_rotation_keeps_size(settled, size);
        }
    }
}

/// Moving the first block to the back keeps the size of blocks that all have the same.
proof fn lemma_rotation_keeps_size<'a>(queue: QueueState<'a>, size: nat)
    requires
        queue.blocks_have_size(size),
    ensures
        queue.chain.len() > 0 ==> queue.rotated().blocks_have_size(size),
{
    if queue.chain.len() > 0 {
        let next = queue.rotated();
        assert forall|i: int| 0 <= i < next.chain.len() implies (#[trigger] next.chain[i]).size
            == size by {
            if i + 1 < queue.chain.len() {
                assert(next.chain[i] == queue.chain[i + 1]);
            } else {
                assert(next.chain[i] == queue.chain[0]);
            }
        }
    }
}

/// In a chain of blocks of the usual size, an item goes into the write block if it has room, or
/// else into the one behind it, which is the next one of the chain, or a new one.
proof fn lemma_usual_place<'a>(queue: QueueState<'a>, len: nat)
    requires
        queue.wf(),
        queue.blocks_have_size(BLOCK_LEN as nat),
        queue.accepts(len),
    ensures
        BLOCK_HEADER_LEN + len <= BLOCK_LEN,
        queue.prepared(len).blocks_have_size(BLOCK_LEN as nat),
        queue.chain.len() > 0 && !queue.is_ready(len) ==> queue.next_fit(len) == queue.write + 1,
        queue.prepared(len).chain == if queue.chain.len() == 0 || (!queue.is_ready(len)
            && queue.write + 1 == queue.chain.len()) {
            queue.chain.push(BlockState::fresh(BLOCK_LEN as nat))
        } else {
            queue.chain
        },
{
    let next = queue.prepared(len);
    let write = queue.write as int;
    if queue.has_room(len) {
        let i = choose|i: int|
            queue.write <= i < queue.chain.len() && (#[trigger] queue.chain[i]).room() >= len;
        assert(queue.chain[i].wf());
        assert(queue.chain[i].size == BLOCK_LEN);
    }
    if queue.chain.len() > 0 && !queue.is_ready(len) {
        if write + 1 < queue.chain.len() {
            assert(queue.chain[write + 1].is_reset());
            assert(queue.chain[write + 1].size == BLOCK_LEN);
        }
        state::lemma_first_fit_is(queue.chain, queue.write + 1, len, queue.write + 1);
    }
    assert(next.chain =~= if queue.chain.len() == 0 || (!queue.is_ready(len) && queue.write + 1
        == queue.chain.len()) {
        queue.chain.push(BlockState::fresh(BLOCK_LEN as nat))
    } else {
        queue.chain
    });
    assert forall|i: int| 0 <= i < next.chain.len() implies (#[trigger] next.chain[i]).size
        == BLOCK_LEN by {
        if i < queue.chain.len() {
            assert(queue.chain[i].size == BLOCK_LEN);
        }
    }
}

/// Posting items keeps all blocks at the usual size.
proof fn lemma_size_kept<'a>(queue: QueueState<'a>, items: Seq<QueuedItem<'a>>)
    requires
        queue.wf(),
        queue.blocks_have_size(BLOCK_LEN as nat),
        forall|i: int| 0 <= i < items.len() ==> state::queueable(#[trigger] items[i]),
        queue.accepts_all(items),
    ensures
        queue.posted_all(items).blocks_have_size(BLOCK_LEN as nat),
    decreases items.len(),
{
    if items.len() > 0 {
        let sooner = items.drop_last();
        let item = items.last();
        let before = queue.posted_all(sooner);
        let after = queue.posted_all(items);
        law_posting_appends(queue, sooner);
        lemma_size_kept(queue, sooner);
        lemma_usual_place(before, item.size());
        assert forall|i: int| 0 <= i < after.chain.len() implies (#[trigger] after.chain[i]).size
            == BLOCK_LEN by {
            assert(before.prepared(item.size()).chain[i].size == BLOCK_LEN);
        }
    }
}

/// Two queues with blocks of the usual size that start over take items of the same sizes in the
/// same way, if the second has at least as many blocks as the first ends up with.
proof fn lemma_same_course<'a>(
    first: QueueState<'a>,
    items: Seq<QueuedItem<'a>>,
    second: QueueState<'a>,
    again: Seq<QueuedItem<'a>>,
)
    requires
        first.wf(),
        second.wf(),
        first.rewound(),
        second.rewound(),
        first.blocks_have_size(BLOCK_LEN as nat),
        second.blocks_have_size(BLOCK_LEN as nat),
        forall|i: int| 0 <= i < items.len() ==> state::queueable(#[trigger] items[i]),
        forall|i: int| 0 <= i < again.len() ==> state::queueable(#[trigger] again[i]),
        again.len() == items.len(),
        forall|i: int| 0 <= i < items.len() ==> (#[trigger] again[i]).size() == items[i].size(),
        first.accepts_all(items),
        first.posted_all(items).chain.len() <= second.chain.len(),
    ensures
        second.accepts_all(again),
        second.posted_all(again).chain.len() == second.chain.len(),
        StatEvent::BlockAllocate.count(second.post_all_events(again)) == 0,
        second.posted_all(again).write == first.posted_all(items).write,
        forall|i: int|
            0 <= i <= first.posted_all(items).write && i < first.posted_all(items).chain.len()
                ==> (#[trigger] first.posted_all(items).chain[i]).end == second.posted_all(
                again,
            ).chain[i].end,
        first.posted_all(items).chain.len() == 0 ==> second.posted_all(again) == second,
    decreases items.len(),
{
    if items.len() > 0 {
        let sooner = items.drop_last();
        let sooner_again = again.drop_last();
        let item = items.last();
        let other = again.last();
        let len = item.size();
        assert(again[items.len() - 1].size() == len);
        let a = first.posted_all(sooner);
        let b = second.posted_all(sooner_again);
        let c = first.posted_all(items);
        let d = second.posted_all(again);
        law_posting_appends(first, sooner);
        lemma_size_kept(first, sooner);
        law_allocates_only_when_full(a, item);
        lemma_same_course(first, sooner, second, sooner_again);
        law_posting_appends(second, sooner_again);
        lemma_size_kept(second, sooner_again);
        lemma_usual_place(a, len);
        lemma_usual_place(b, len);
        b.lemma_post_counts(len);
        StatEvent::BlockAllocate.lemma_count_add(
            second.post_all_events(sooner_again),
            b.post_events(len),
        );
        let w = a.write as int;
        if a.chain.len() == 0 {
            assert(b.chain[0].is_reset());
            assert(b.chain[0].size == BLOCK_LEN);
        } else {
            assert(a.chain[w].end == b.chain[w].end);
            assert(a.chain[w].size == BLOCK_LEN);
            assert(b.chain[w].size == BLOCK_LEN);
        }
        assert(c.write == d.write);
        assert forall|i: int| 0 <= i <= c.write && i < c.chain.len() implies (
        #[trigger] c.chain[i]).end == d.chain[i].end by {
            if i <= a.write && i < a.chain.len() {
                assert(a.chain[i].end == b.chain[i].end);
            } else {
                assert(b.chain[i].is_reset());
                if i < a.chain.len() {
                    assert(a.chain[i].is_reset());
                }
            }
        }
    } else {
        assert forall|i: int| 0 <= i <= first.write && i < first.chain.len() implies (
        #[trigger] first.chain[i]).end == second.chain[i].end by {
            assert(second.chain[i].is_reset());
        }
    }
}

/// A warm queue does not allocate: once items have been posted to a queue in which nothing was
/// waiting, and everything has been executed, posting as many items of the same sizes allocates
/// no block. This is so of a queue whose blocks were all allocated on demand.
pub proof fn law_warm_queue_does_not_allocate<'a>(
    queue: QueueState<'a>,
    items: Seq<QueuedItem<'a>>,
    again: Seq<QueuedItem<'a>>,
)
    requires
        queue.wf(),
        !queue.pumping,
        queue.pending().len() == 0,
        queue.blocks_have_size(BLOCK_LEN as nat),
        forall|i: int| 0 <= i < items.len() ==> state::queueable(#[trigger] items[i]),
        forall|i: int| 0 <= i < again.len() ==> state::queueable(#[trigger] again[i]),
        again.len() == items.len(),
        forall|i: int| 0 <= i < items.len() ==> (#[trigger] again[i]).size() == items[i].size(),
        queue.accepts_all(items),
    ensures
        ({
            let warm = queue.posted_all(items).stepped_times(items.len());
            &&& warm.wf()
            &&& !warm.pumping
            &&& warm.pending().len() == 0
            &&& warm.blocks_have_size(BLOCK_LEN as nat)
            &&& warm.accepts_all(again)
            &&& StatEvent::BlockAllocate.count(warm.post_all_events(again)) == 0
            &&& warm.posted_all(again).chain.len() == warm.chain.len()
        }),
{
    let full = queue.posted_all(items);
    let warm = full.stepped_times(items.len());
    law_posting_appends(queue, items);
    lemma_rewound(queue);
    lemma_size_kept(queue, items);
    law_pumping_empties(full);
    lemma_steps_keep_blocks(full, items.len(), BLOCK_LEN as nat);
    full.lemma_stepped_times(items.len());
    lemma_same_course(queue, items, warm, again);
}

} // verus!
