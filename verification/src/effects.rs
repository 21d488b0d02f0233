//! What each operation does, field by field: where an item goes, which bytes it takes up, and
//! what is reported, as a relation between the numbers before and after.
use crate::block::{
    self, BlockState, BLOCK_HEADER_LEN, BLOCK_LEN, ITEM_HEADER_LEN, MAX_ITEM_LEN,
};
use crate::item::{DynamicWorkItem, QueuedItem, WorkItem, WorkItemWrapper};
use crate::laws;
use crate::state::{self, QueueState};
use crate::stats::{StatEvent, WorkQueueStats};
use crate::work_queue::{self, AdvancedWorkQueue, BLOCK_ALIGN};
use vstd::prelude::*;

verus! {

/// The lengths that everything else is measured in: headers are four machine words, and a block
/// that is allocated on demand has 4096 bytes.
pub proof fn law_lengths()
    ensures
        BLOCK_LEN == 4096,
        BLOCK_HEADER_LEN == usize::BITS / 2,
        ITEM_HEADER_LEN == usize::BITS / 2,
        MAX_ITEM_LEN == 4096 - usize::BITS / 2,
        BLOCK_ALIGN == 32,
{
}

/// Which work items fit: exactly those whose payload is not longer than what a block that is
/// allocated on demand has behind its header, and not more strictly aligned than items are.
pub proof fn law_what_fits<F>()
    ensures
        block::fits::<F>() <==> vstd::layout::size_of::<Option<F>>() + BLOCK_HEADER_LEN <= BLOCK_LEN
            && vstd::layout::align_of::<Option<F>>() <= ITEM_HEADER_LEN,
{
}

/// A work item takes up its header and its payload, and less than one item header more. Where
/// it ends, another one may start.
pub proof fn law_footprint<F>()
    ensures
        ITEM_HEADER_LEN + vstd::layout::size_of::<Option<F>>() <= block::footprint::<F>()
            < ITEM_HEADER_LEN + vstd::layout::size_of::<Option<F>>() + ITEM_HEADER_LEN,
        block::footprint::<F>() % (ITEM_HEADER_LEN as nat) == 0,
{
    block::lemma_aligned(ITEM_HEADER_LEN as nat + vstd::layout::size_of::<Option<F>>(), 0);
}

/// A larger payload never takes up less, and one that is larger by an item header takes up
/// more by just that.
pub proof fn law_footprint_grows<F, G>()
    ensures
        vstd::layout::size_of::<Option<F>>() <= vstd::layout::size_of::<Option<G>>()
            ==> block::footprint::<F>() <= block::footprint::<G>(),
        vstd::layout::size_of::<Option<F>>() + ITEM_HEADER_LEN == vstd::layout::size_of::<
            Option<G>,
        >() ==> block::footprint::<F>() + ITEM_HEADER_LEN == block::footprint::<G>(),
{
    let unit = ITEM_HEADER_LEN as nat;
    let f = unit + vstd::layout::size_of::<Option<F>>();
    let g = unit + vstd::layout::size_of::<Option<G>>();
    law_footprint::<F>();
    law_footprint::<G>();
    block::lemma_aligned_least(f, block::footprint::<G>());
    block::lemma_aligned(block::footprint::<F>(), unit);
    assert(unit % unit == 0) by {
        block::lemma_aligned(0, 0);
        law_lengths();
    }
    if f + unit == g {
        block::lemma_aligned_least(g, block::footprint::<F>() + unit);
        let less = (block::footprint::<G>() - unit) as nat;
        vstd::arithmetic::div_mod::lemma_mod_sub_multiples_vanish(
            block::footprint::<G>() as int,
            unit as int,
        );
        block::lemma_aligned_least(f, less);
    }
}

/// Every queue takes a work item whose header and payload are no longer than what a block that
/// is allocated on demand has behind its own header, if the item is not too strictly aligned.
pub proof fn law_small_items_go_in<'a, F>(queue: QueueState<'a>)
    requires
        vstd::layout::size_of::<Option<F>>() + ITEM_HEADER_LEN <= MAX_ITEM_LEN,
        vstd::layout::align_of::<Option<F>>() <= ITEM_HEADER_LEN,
    ensures
        block::fits::<F>(),
        queue.accepts(block::footprint::<F>()),
{
    laws::law_small_items_are_accepted::<F>(queue);
}

/// What a queue takes: exactly the items that a new block would hold, and those that end inside
/// the block that is written to, or inside one behind it, when they are put behind what is there.
pub proof fn law_what_is_accepted<'a>(queue: QueueState<'a>, len: nat)
    ensures
        queue.accepts(len) <==> BLOCK_HEADER_LEN + len <= BLOCK_LEN || exists|i: int|
            queue.write <= i < queue.chain.len() && (#[trigger] queue.chain[i]).end + len
                <= queue.chain[i].size,
{
    if queue.has_room(len) {
        let i = choose|i: int|
            queue.write <= i < queue.chain.len() && (#[trigger] queue.chain[i]).room() >= len;
        assert(queue.chain[i].end + len <= queue.chain[i].size);
    }
    if exists|i: int|
        queue.write <= i < queue.chain.len() && (#[trigger] queue.chain[i]).end + len
            <= queue.chain[i].size {
        let i = choose|i: int|
            queue.write <= i < queue.chain.len() && (#[trigger] queue.chain[i]).end + len
                <= queue.chain[i].size;
        assert(queue.chain[i].room() >= len);
    }
}

/// The queued form of a work item takes up its footprint, may be executed when the item may,
/// and has the outcome of the item.
pub proof fn law_queued_form<'a, F: WorkItem<'a>>(f: F)
    requires
        vstd::layout::size_of::<Option<F>>() + BLOCK_HEADER_LEN <= BLOCK_LEN,
    ensures
        ({
            let item = QueuedItem::of(block::footprint::<F>() as usize, f);
            &&& ITEM_HEADER_LEN + vstd::layout::size_of::<Option<F>>() <= item.size() < 2
                * ITEM_HEADER_LEN + vstd::layout::size_of::<Option<F>>()
            &&& item.runnable() == f.runnable()
            &&& item.completed() == f.completed()
            &&& state::queueable(item) <==> f.runnable()
        }),
{
    broadcast use QueuedItem::lemma_of;

    law_footprint::<F>();
}

/// A wrapper holds its item until the item is executed: it may be executed when the item may,
/// and has the outcome of the item.
pub proof fn law_wrapper<'a, T: WorkItem<'a>>(item: T)
    ensures
        !WorkItemWrapper::holding(item).dispatched(),
        WorkItemWrapper::holding(item).runnable() == item.runnable(),
        WorkItemWrapper::holding(item).completed() == item.completed(),
{
    broadcast use WorkItemWrapper::lemma_holding;

}

/// The bytes of items add up.
pub proof fn law_bytes_add_up(items: Seq<QueuedItem>, item: QueuedItem)
    ensures
        block::total(Seq::<QueuedItem>::empty()) == 0,
        block::total(items.push(item)) == block::total(items) + item.size(),
{
    assert(items.push(item).drop_last() =~= items);
}

/// A new block of `size` bytes has them all, written from behind its header, and nothing in it.
pub proof fn law_fresh_block<'a>(size: nat)
    ensures
        ({
            let block = BlockState::<'a>::fresh(size);
            &&& block.size == size
            &&& block.beg == BLOCK_HEADER_LEN
            &&& block.end == BLOCK_HEADER_LEN
            &&& block.items.len() == 0
            &&& block.room() == size - BLOCK_HEADER_LEN
        }),
{
}

/// What is free in a block and what is used add up to its size, whatever is in it.
pub proof fn law_room<'a>(block: BlockState<'a>)
    ensures
        block.end + block.room() == block.size,
        block.is_reset() <==> block.items.len() == 0 && block.end == BLOCK_HEADER_LEN,
{
}

/// An item that is put into a block takes up its bytes behind the others, and nothing else
/// changes.
pub proof fn law_item_in_block<'a>(block: BlockState<'a>, item: QueuedItem<'a>)
    ensures
        ({
            let after = block.with_item(item);
            &&& after.size == block.size
            &&& after.beg == block.beg
            &&& after.end == block.end + item.size()
            &&& after.room() == block.room() - item.size()
            &&& after.items.len() == block.items.len() + 1
            &&& after.items.last() == item
            &&& after.items.drop_last() == block.items
        }),
{
    assert(block.with_item(item).items.drop_last() =~= block.items);
}

/// An item that is taken out of a block is the first one. Its bytes are not free before the
/// block is settled, and they are free then only if nothing is left.
pub proof fn law_item_out_of_block<'a>(block: BlockState<'a>)
    requires
        block.items.len() > 0,
    ensures
        ({
            let after = block.without_first();
            let settled = after.settled();
            &&& after.size == settled.size == block.size
            &&& after.beg == block.beg + block.items[0].size()
            &&& after.end == block.end
            &&& after.room() == block.room()
            &&& seq![block.items[0]] + after.items == block.items
            &&& settled.items == after.items
            &&& if block.items.len() == 1 {
                &&& settled.beg == BLOCK_HEADER_LEN
                &&& settled.end == BLOCK_HEADER_LEN
                &&& settled.room() == block.size - BLOCK_HEADER_LEN
            } else {
                settled.beg == after.beg && settled.end == after.end
            }
        }),
{
    let after = block.without_first();
    assert(seq![block.items[0]] + after.items =~= block.items);
    assert(after.settled().items =~= after.items);
}

/// Putting an item into an empty block and taking it out again gives back what was there.
pub proof fn law_in_and_out<'a>(size: nat, item: QueuedItem<'a>)
    ensures
        BlockState::<'a>::fresh(size).with_item(item).without_first().settled() == BlockState::<
            'a,
        >::fresh(size),
{
    let block = BlockState::<'a>::fresh(size).with_item(item);
    law_item_out_of_block(block);
    assert(block.without_first().settled() =~= BlockState::<'a>::fresh(size));
}

/// A block is consistent exactly when its items lie between its header and its end, and each
/// one is aligned, takes up some bytes and may be executed.
pub proof fn law_consistent_block<'a>(block: BlockState<'a>)
    ensures
        block.wf() <==> {
            &&& BLOCK_HEADER_LEN <= block.beg
            &&& block.beg + block::total(block.items) == block.end
            &&& block.end <= block.size <= usize::MAX
            &&& block.beg % (ITEM_HEADER_LEN as nat) == 0
            &&& forall|i: int|
                0 <= i < block.items.len() ==> {
                    &&& (#[trigger] block.items[i]).runnable()
                    &&& block.items[i].size() > 0
                    &&& block.items[i].size() % (ITEM_HEADER_LEN as nat) == 0
                }
        },
{
}

/// Which sizes a block may have: those that, padded to a multiple of its alignment, do not
/// exceed `isize::MAX`.
pub proof fn law_allocatable(size: nat)
    ensures
        work_queue::allocatable(size) <==> size <= isize::MAX - 31,
{
}

/// A new queue without a buffer has no block; one with a buffer has one block of the size that
/// was asked for, but not less than its header, with nothing in it.
pub proof fn law_capacity<'a>(size: nat)
    ensures
        ({
            let queue = QueueState::<'a>::empty();
            &&& queue.chain.len() == 0
            &&& queue.write == 0
            &&& !queue.pumping
            &&& queue.pending().len() == 0
        }),
        ({
            let queue = QueueState::<'a>::with_buffer(size);
            &&& queue.chain.len() == 1
            &&& size >= BLOCK_HEADER_LEN ==> queue.chain[0].size == size
            &&& size < BLOCK_HEADER_LEN ==> queue.chain[0].size == BLOCK_HEADER_LEN
            &&& queue.chain[0].beg == BLOCK_HEADER_LEN
            &&& queue.chain[0].end == BLOCK_HEADER_LEN
            &&& queue.chain[0].items.len() == 0
            &&& size >= BLOCK_HEADER_LEN ==> queue.chain[0].room() == size - BLOCK_HEADER_LEN
            &&& queue.write == 0
            &&& !queue.pumping
            &&& queue.pending().len() == 0
        }),
{
    state::lemma_items_none(QueueState::<'a>::with_buffer(size).chain);
}

/// What is waiting is what is in the blocks, block by block.
pub proof fn law_waiting<'a>(queue: QueueState<'a>)
    ensures
        queue.chain.len() == 0 ==> queue.pending().len() == 0,
        queue.chain.len() > 0 ==> queue.pending() == (QueueState {
            chain: queue.chain.drop_last(),
            ..queue
        }).pending() + queue.chain.last().items,
{
}

/// The search for a spare block ends at the first one behind the write block inside which an
/// item of `len` bytes would end, or behind the last block.
pub proof fn law_search<'a>(queue: QueueState<'a>, len: nat)
    requires
        queue.write < queue.chain.len(),
    ensures
        queue.write < queue.next_fit(len) <= queue.chain.len(),
        queue.next_fit(len) < queue.chain.len() ==> queue.chain[queue.next_fit(len) as int].end
            + len <= queue.chain[queue.next_fit(len) as int].size,
        forall|i: int|
            queue.write < i < queue.next_fit(len) ==> (#[trigger] queue.chain[i]).end + len
                > queue.chain[i].size,
{
    state::lemma_first_fit(queue.chain, queue.write + 1, len);
    assert forall|i: int| queue.write < i < queue.next_fit(len) implies (
    #[trigger] queue.chain[i]).end + len > queue.chain[i].size by {
        assert(queue.chain[i].room() < len);
    }
}

/// The first item that is posted to a queue without a block gets a new block.
pub proof fn law_post_first<'a>(queue: QueueState<'a>, item: QueuedItem<'a>)
    requires
        queue.chain.len() == 0,
        queue.write == 0,
    ensures
        ({
            let after = queue.posted(item);
            &&& after.chain.len() == 1
            &&& after.chain[0].size == BLOCK_LEN
            &&& after.chain[0].beg == BLOCK_HEADER_LEN
            &&& after.chain[0].end == BLOCK_HEADER_LEN + item.size()
            &&& after.chain[0].items == seq![item]
            &&& after.write == 0
            &&& after.pumping == queue.pumping
        }),
        queue.post_events(item.size()) == seq![StatEvent::BlockAllocate, StatEvent::Enqueue],
{
    assert(queue.posted(item).chain[0].items =~= seq![item]);
    assert(queue.post_events(item.size()) =~= seq![StatEvent::BlockAllocate, StatEvent::Enqueue]);
}

/// An item goes into the block that is written to whenever it ends inside it. No block moves
/// and none is allocated.
pub proof fn law_post_into_write_block<'a>(queue: QueueState<'a>, item: QueuedItem<'a>)
    requires
        queue.write < queue.chain.len(),
        queue.chain[queue.write as int].end + item.size() <= queue.chain[queue.write as int].size,
    ensures
        ({
            let after = queue.posted(item);
            let at = queue.write as int;
            &&& after.write == queue.write
            &&& after.pumping == queue.pumping
            &&& after.chain.len() == queue.chain.len()
            &&& forall|i: int|
                0 <= i < queue.chain.len() && i != at ==> (#[trigger] after.chain[i])
                    == queue.chain[i]
            &&& after.chain[at].size == queue.chain[at].size
            &&& after.chain[at].beg == queue.chain[at].beg
            &&& after.chain[at].end == queue.chain[at].end + item.size()
            &&& after.chain[at].items == queue.chain[at].items.push(item)
        }),
        queue.post_events(item.size()) == seq![StatEvent::Enqueue],
{
    assert(queue.is_ready(item.size()));
    assert(queue.post_events(item.size()) =~= seq![StatEvent::Enqueue]);
}

/// An item that would end outside the block that is written to goes into the first block behind
/// that one inside which it ends. This block becomes the next one and is written to, and the
/// others keep their order.
pub proof fn law_post_into_spare<'a>(queue: QueueState<'a>, item: QueuedItem<'a>, at: int)
    requires
        queue.write < at < queue.chain.len(),
        forall|i: int|
            queue.write <= i < at ==> (#[trigger] queue.chain[i]).end + item.size()
                > queue.chain[i].size,
        queue.chain[at].end + item.size() <= queue.chain[at].size,
    ensures
        ({
            let after = queue.posted(item);
            let next = queue.write as int + 1;
            &&& after.write == next
            &&& after.pumping == queue.pumping
            &&& after.chain.len() == queue.chain.len()
            &&& forall|i: int|
                0 <= i < next || at < i < queue.chain.len() ==> (#[trigger] after.chain[i])
                    == queue.chain[i]
            &&& forall|i: int|
                next < i <= at ==> (#[trigger] after.chain[i]) == queue.chain[i - 1]
            &&& after.chain[next].size == queue.chain[at].size
            &&& after.chain[next].beg == queue.chain[at].beg
            &&& after.chain[next].end == queue.chain[at].end + item.size()
            &&& after.chain[next].items == queue.chain[at].items.push(item)
        }),
        queue.post_events(item.size()) == seq![StatEvent::WriteRollover, StatEvent::Enqueue],
{
    let len = item.size();
    assert(queue.chain[queue.write as int].end + len > queue.chain[queue.write as int].size);
    assert(!queue.is_ready(len));
    assert forall|i: int| queue.write + 1 <= i < at implies (#[trigger] queue.chain[i]).room()
        < len by {
        assert(queue.chain[i].end + len > queue.chain[i].size);
    }
    state::lemma_first_fit_is(queue.chain, queue.write + 1, len, at as nat);
    assert(queue.post_events(len) =~= seq![StatEvent::WriteRollover, StatEvent::Enqueue]);
}

/// An item that would end outside the block that is written to, and outside all blocks behind
/// it, goes into a new block. This block comes directly behind the one that was written to, and
/// is written to.
pub proof fn law_post_into_new_block<'a>(queue: QueueState<'a>, item: QueuedItem<'a>)
    requires
        queue.write < queue.chain.len(),
        forall|i: int|
            queue.write <= i < queue.chain.len() ==> (#[trigger] queue.chain[i]).end + item.size()
                > queue.chain[i].size,
    ensures
        ({
            let after = queue.posted(item);
            let next = queue.write as int + 1;
            &&& after.write == next
            &&& after.pumping == queue.pumping
            &&& after.chain.len() == queue.chain.len() + 1
            &&& forall|i: int| 0 <= i < next ==> (#[trigger] after.chain[i]) == queue.chain[i]
            &&& forall|i: int|
                next < i < after.chain.len() ==> (#[trigger] after.chain[i]) == queue.chain[i - 1]
            &&& after.chain[next].size == BLOCK_LEN
            &&& after.chain[next].beg == BLOCK_HEADER_LEN
            &&& after.chain[next].end == BLOCK_HEADER_LEN + item.size()
            &&& after.chain[next].items == seq![item]
        }),
        queue.post_events(item.size()) == seq![
            StatEvent::BlockAllocate,
            StatEvent::WriteRollover,
            StatEvent::Enqueue,
        ],
{
    let len = item.size();
    let next = queue.write as int + 1;
    assert(queue.chain[queue.write as int].end + len > queue.chain[queue.write as int].size);
    assert(!queue.is_ready(len));
    assert forall|i: int| queue.write + 1 <= i < queue.chain.len() implies (
    #[trigger] queue.chain[i]).room() < len by {
        assert(queue.chain[i].end + len > queue.chain[i].size);
    }
    state::lemma_first_fit_is(queue.chain, queue.write + 1, len, queue.chain.len());
    assert(queue.posted(item).chain[next].items =~= seq![item]);
    assert(queue.post_events(len) =~= seq![
        StatEvent::BlockAllocate,
        StatEvent::WriteRollover,
        StatEvent::Enqueue,
    ]);
}

/// Items are posted one after the other: none changes nothing, and one more is one more post.
pub proof fn law_post_one_by_one<'a>(
    queue: QueueState<'a>,
    items: Seq<QueuedItem<'a>>,
    item: QueuedItem<'a>,
)
    ensures
        queue.posted_all(Seq::empty()) == queue,
        queue.post_all_events(Seq::empty()).len() == 0,
        queue.posted_all(items.push(item)) == queue.posted_all(items).posted(item),
        queue.post_all_events(items.push(item)) == queue.post_all_events(items)
            + queue.posted_all(items).post_events(item.size()),
        queue.accepts_all(Seq::empty()),
        queue.accepts_all(items.push(item)) <==> queue.accepts_all(items) && queue.posted_all(
            items,
        ).accepts(item.size()),
{
    assert(items.push(item).drop_last() =~= items);
}

/// An initial buffer is used up to its last byte: items that together take up no more than what
/// it has behind its header all go into it, side by side, and no block is allocated and none is
/// left behind on the way.
pub proof fn law_initial_buffer_suffices<'a>(size: nat, items: Seq<QueuedItem<'a>>)
    requires
        BLOCK_HEADER_LEN + block::total(items) <= size,
    ensures
        ({
            let before = QueueState::<'a>::with_buffer(size);
            let after = before.posted_all(items);
            let events = before.post_all_events(items);
            &&& before.accepts_all(items)
            &&& after.chain.len() == 1
            &&& after.write == 0
            &&& !after.pumping
            &&& after.chain[0].size == size
            &&& after.chain[0].beg == BLOCK_HEADER_LEN
            &&& after.chain[0].end == BLOCK_HEADER_LEN + block::total(items)
            &&& after.chain[0].items == items
            &&& events.len() == items.len()
            &&& forall|i: int| 0 <= i < items.len() ==> (#[trigger] events[i]) == StatEvent::Enqueue
        }),
    decreases items.len(),
{
    let before = QueueState::<'a>::with_buffer(size);
    law_capacity(size);
    if items.len() > 0 {
        let sooner = items.drop_last();
        let item = items.last();
        law_initial_buffer_suffices(size, sooner);
        law_post_into_write_block(before.posted_all(sooner), item);
        law_what_is_accepted(before.posted_all(sooner), item.size());
        assert(before.posted_all(sooner).chain[0].end + item.size() <= size);
        assert(sooner.push(item) =~= items);
    } else {
        assert(before.chain[0].items =~= items);
    }
}

/// Where items go does not depend on what they are, only on how long they are: of items of the
/// same length, as many go into a block as it has room for behind its header, and then a new
/// block is allocated and written to.
#[verifier::spinoff_prover]
pub proof fn law_uniform_load<'a>(items: Seq<QueuedItem<'a>>, len: nat, per_block: nat)
    requires
        items.len() > 0,
        per_block > 0,
        BLOCK_HEADER_LEN + per_block * len <= BLOCK_LEN,
        BLOCK_HEADER_LEN + (per_block + 1) * len > BLOCK_LEN,
        forall|i: int| 0 <= i < items.len() ==> (#[trigger] items[i]).size() == len,
    ensures
        ({
            let after = QueueState::<'a>::empty().posted_all(items);
            let events = QueueState::<'a>::empty().post_all_events(items);
            &&& after.chain.len() == after.write + 1
            &&& after.write * per_block < items.len() <= (after.write + 1) * per_block
            &&& after.chain[after.write as int].size == BLOCK_LEN
            &&& after.chain[after.write as int].end == BLOCK_HEADER_LEN + (items.len() - after.write
                * per_block) * len
            &&& StatEvent::Enqueue.count(events) == items.len()
            &&& StatEvent::BlockAllocate.count(events) == after.write + 1
            &&& StatEvent::WriteRollover.count(events) == after.write
            &&& StatEvent::Execute.count(events) == 0
            &&& StatEvent::ReadRollover.count(events) == 0
        }),
    decreases items.len(),
{
    let start = QueueState::<'a>::empty();
    let sooner = items.drop_last();
    let item = items.last();
    let before = start.posted_all(sooner);
    let after = start.posted_all(items);
    assert(items[items.len() - 1].size() == len);
    assert(after == before.posted(item));
    lemma_one_more_counted(start, items);
    before.lemma_post_counts(len);
    if sooner.len() == 0 {
        law_post_first(start, item);
        assert(after.write == 0);
        assert(0 * per_block == 0) by (nonlinear_arith);
        assert(1 * per_block == per_block) by (nonlinear_arith);
        assert(1 * len == len) by (nonlinear_arith);
        assert(items.len() - after.write * per_block == 1);
    } else {
        assert forall|i: int| 0 <= i < sooner.len() implies (#[trigger] sooner[i]).size()
            == len by {
            assert(items[i].size() == len);
        }
        law_uniform_load(sooner, len, per_block);
        let w = before.write;
        let used = sooner.len() - w * per_block;
        let block = before.chain[w as int];
        assert(block.end == BLOCK_HEADER_LEN + used * len);
        assert((w + 1) * per_block == w * per_block + per_block) by (nonlinear_arith);
        assert((used + 1) * len == used * len + len) by (nonlinear_arith);
        assert(0 < used <= per_block);
        if used < per_block {
            assert((used + 1) * len <= per_block * len) by (nonlinear_arith)
                requires
                    0 < used < per_block,
            ;
            assert(block.end + item.size() <= block.size);
            law_post_into_write_block(before, item);
            assert(before.is_ready(len));
            assert(after.write == w);
            assert(items.len() - after.write * per_block == used + 1);
        } else {
            assert(used == per_block);
            assert forall|i: int| w <= i < before.chain.len() implies (
            #[trigger] before.chain[i]).end + item.size() > before.chain[i].size by {
                assert(i == w);
            }
            law_post_into_new_block(before, item);
            assert(before.chain[w as int].end + item.size() > before.chain[w as int].size);
            assert(!before.is_ready(len));
            state::lemma_first_fit_is(before.chain, w + 1, len, before.chain.len());
            assert(after.write == w + 1);
            assert((w + 2) * per_block == (w + 1) * per_block + per_block) by (nonlinear_arith);
            assert(1 * len == len) by (nonlinear_arith);
            assert(items.len() - after.write * per_block == 1);
        }
    }
}

/// What the last of several items adds to what is reported.
proof fn lemma_one_more_counted<'a>(queue: QueueState<'a>, items: Seq<QueuedItem<'a>>)
    requires
        items.len() > 0,
    ensures
        forall|event: StatEvent| #[trigger]
            event.count(queue.post_all_events(items)) == event.count(
                queue.post_all_events(items.drop_last()),
            ) + event.count(
                queue.posted_all(items.drop_last()).post_events(items.last().size()),
            ),
{
    let sooner = queue.post_all_events(items.drop_last());
    let last = queue.posted_all(items.drop_last()).post_events(items.last().size());
    assert forall|event: StatEvent| #[trigger]
        event.count(queue.post_all_events(items)) == event.count(sooner) + event.count(last) by {
        event.lemma_count_add(sooner, last);
    }
}

/// The next item is taken out of the first block if there is one in it. Its bytes stay in use,
/// no block moves, and nothing is reported.
pub proof fn law_begin<'a>(queue: QueueState<'a>)
    requires
        queue.chain.len() > 0,
        queue.chain[0].items.len() > 0,
    ensures
        ({
            let after = queue.begun();
            &&& after.pumping
            &&& after.write == queue.write
            &&& after.chain.len() == queue.chain.len()
            &&& forall|i: int|
                0 < i < queue.chain.len() ==> (#[trigger] after.chain[i]) == queue.chain[i]
            &&& after.chain[0].size == queue.chain[0].size
            &&& after.chain[0].beg == queue.chain[0].beg + queue.chain[0].items[0].size()
            &&& after.chain[0].end == queue.chain[0].end
            &&& after.chain[0].items == queue.chain[0].items.drop_first()
        }),
        queue.begin_events().len() == 0,
        queue.pending()[0] == queue.chain[0].items[0],
{
    state::lemma_items_at(queue.chain, 0);
    assert(queue.chain.take(0) =~= Seq::<BlockState<'a>>::empty());
}

/// If the first block is empty and not the one that is written to, it goes behind the others,
/// which is reported, and the next item is taken out of the block behind it.
pub proof fn law_begin_behind_spent<'a>(queue: QueueState<'a>)
    requires
        0 < queue.write < queue.chain.len(),
        queue.chain[0].items.len() == 0,
        queue.chain[1].items.len() > 0,
    ensures
        ({
            let after = queue.begun();
            let last = queue.chain.len() - 1;
            &&& after.pumping
            &&& after.write == queue.write - 1
            &&& after.chain.len() == queue.chain.len()
            &&& after.chain[last] == queue.chain[0]
            &&& forall|i: int| 0 < i < last ==> (#[trigger] after.chain[i]) == queue.chain[i + 1]
            &&& after.chain[0].size == queue.chain[1].size
            &&& after.chain[0].beg == queue.chain[1].beg + queue.chain[1].items[0].size()
            &&& after.chain[0].end == queue.chain[1].end
            &&& after.chain[0].items == queue.chain[1].items.drop_first()
        }),
        queue.begin_events() == seq![StatEvent::ReadRollover],
        queue.pending()[0] == queue.chain[1].items[0],
{
    state::lemma_items_at(queue.chain, 1);
    state::lemma_items_none(queue.chain.take(1));
}

/// If nothing is waiting there is nothing to be taken out, and nothing is reported.
pub proof fn law_begin_nothing<'a>(queue: QueueState<'a>)
    requires
        queue.write == 0,
        forall|i: int| 0 <= i < queue.chain.len() ==> (#[trigger] queue.chain[i]).items.len() == 0,
    ensures
        queue.begun() == queue,
        queue.begin_events().len() == 0,
        queue.stepped() == queue,
        queue.step_events().len() == 0,
{
    state::lemma_items_none(queue.chain);
}

/// Once an item has been executed, its bytes are given back if it was the last one of the first
/// block, and that block goes behind the others, which is reported, if it is not the one that is
/// written to. Nothing else changes.
pub proof fn law_finish<'a>(queue: QueueState<'a>)
    requires
        queue.write < queue.chain.len(),
    ensures
        !queue.finished().pumping,
        queue.finished().chain.len() == queue.chain.len(),
        queue.chain[0].items.len() > 0 ==> {
            &&& queue.finished().chain == queue.chain
            &&& queue.finished().write == queue.write
            &&& queue.finish_events() == seq![StatEvent::Execute]
        },
        queue.chain[0].items.len() == 0 && queue.write == 0 ==> {
            let after = queue.finished();
            &&& after.write == 0
            &&& after.chain[0].size == queue.chain[0].size
            &&& after.chain[0].beg == BLOCK_HEADER_LEN
            &&& after.chain[0].end == BLOCK_HEADER_LEN
            &&& after.chain[0].items.len() == 0
            &&& forall|i: int|
                0 < i < queue.chain.len() ==> (#[trigger] after.chain[i]) == queue.chain[i]
            &&& queue.finish_events() == seq![StatEvent::Execute]
        },
        queue.chain[0].items.len() == 0 && queue.write > 0 ==> {
            let after = queue.finished();
            let last = queue.chain.len() - 1;
            &&& after.write == queue.write - 1
            &&& after.chain[last].size == queue.chain[0].size
            &&& after.chain[last].beg == BLOCK_HEADER_LEN
            &&& after.chain[last].end == BLOCK_HEADER_LEN
            &&& after.chain[last].items.len() == 0
            &&& forall|i: int| 0 <= i < last ==> (#[trigger] after.chain[i]) == queue.chain[i + 1]
            &&& queue.finish_events() == seq![StatEvent::Execute, StatEvent::ReadRollover]
        },
{
    if queue.chain[0].items.len() > 0 {
        assert(queue.finished().chain =~= queue.chain);
    }
}

/// To dispatch an item is to take it out and to finish it, and to dispatch several is to
/// dispatch one after the other.
pub proof fn law_step_by_step<'a>(queue: QueueState<'a>, count: nat)
    ensures
        queue.pending().len() > 0 ==> queue.stepped() == queue.begun().finished(),
        queue.pending().len() > 0 ==> queue.step_events() == queue.begin_events()
            + queue.begun().finish_events(),
        queue.pending().len() == 0 ==> queue.stepped() == queue && queue.step_events().len() == 0,
        queue.stepped_times(0) == queue,
        queue.steps_events(0).len() == 0,
        queue.stepped_times(count + 1) == queue.stepped_times(count).stepped(),
        queue.steps_events(count + 1) == queue.steps_events(count) + queue.stepped_times(
            count,
        ).step_events(),
{
}

/// Executing everything that is waiting reports one execution for each item, and one move of
/// the read block for each block on the way to the one that is written to, and nothing else.
pub proof fn law_pump_reports<'a>(queue: QueueState<'a>)
    requires
        queue.wf(),
        !queue.pumping,
    ensures
        ({
            let events = queue.steps_events(queue.pending().len());
            &&& StatEvent::Execute.count(events) == queue.pending().len()
            &&& StatEvent::ReadRollover.count(events) == queue.write
            &&& events.len() == queue.pending().len() + queue.write
        }),
{
    let count = queue.pending().len();
    lemma_steps_report(queue, count);
    laws::law_pumping_empties(queue);
    law_calls_are_counted(queue.steps_events(count));
}

/// What is reported while items are executed.
proof fn lemma_steps_report<'a>(queue: QueueState<'a>, count: nat)
    requires
        queue.wf(),
        !queue.pumping,
        count <= queue.pending().len(),
    ensures
        ({
            let events = queue.steps_events(count);
            &&& StatEvent::Execute.count(events) == count
            &&& StatEvent::ReadRollover.count(events) + queue.stepped_times(count).write
                == queue.write
            &&& StatEvent::Enqueue.count(events) == 0
            &&& StatEvent::WriteRollover.count(events) == 0
            &&& StatEvent::BlockAllocate.count(events) == 0
        }),
    decreases count,
{
    if count > 0 {
        let less = (count - 1) as nat;
        let before = queue.stepped_times(less);
        let begin = before.begin_events();
        let finish = before.begun().finish_events();
        lemma_steps_report(queue, less);
        queue.lemma_stepped_times(less);
        before.lemma_front();
        before.lemma_nothing_pending();
        assert forall|event: StatEvent| #[trigger]
            event.count(queue.steps_events(count)) == event.count(queue.steps_events(less))
                + event.count(begin) + event.count(finish) by {
            event.lemma_count_add(queue.steps_events(less), before.step_events());
            event.lemma_count_add(begin, finish);
        }
        reveal_with_fuel(StatEvent::count, 3);
    }
}

/// An event is counted as often as it occurs.
pub proof fn law_count(event: StatEvent, log: Seq<StatEvent>, other: StatEvent)
    ensures
        event.count(Seq::empty()) == 0,
        event.count(log.push(other)) == event.count(log) + if other == event {
            1nat
        } else {
            0nat
        },
{
    assert(log.push(other).drop_last() =~= log);
}

/// Each entry of a queue's log stands for one call, of the method that has its name, and no
/// other call has been made: the record of calls, which has one entry for each call, is as long
/// as the log, and agrees with it entry by entry.
pub proof fn law_one_call_for_each_entry<'a, S: WorkQueueStats>(
    queue: &AdvancedWorkQueue<'a, S>,
    i: int,
)
    requires
        queue.wf(),
    ensures
        queue.calls().len() == queue.log().len(),
        0 <= i < queue.log().len() ==> queue.calls()[i] == match queue.log()[i] {
            StatEvent::Enqueue => |s: S| call_ensures(S::enqueue, (&s,), ()),
            StatEvent::Execute => |s: S| call_ensures(S::execute, (&s,), ()),
            StatEvent::BlockAllocate => |s: S| call_ensures(S::block_allocate, (&s,), ()),
            StatEvent::WriteRollover => |s: S| call_ensures(S::write_rollover, (&s,), ()),
            StatEvent::ReadRollover => |s: S| call_ensures(S::read_rollover, (&s,), ()),
        },
{
    if 0 <= i < queue.log().len() {
        assert(queue.calls()[i] == queue.log()[i].as_call::<S>());
        assert(queue.log()[i].as_call::<S>() =~= match queue.log()[i] {
            StatEvent::Enqueue => |s: S| call_ensures(S::enqueue, (&s,), ()),
            StatEvent::Execute => |s: S| call_ensures(S::execute, (&s,), ()),
            StatEvent::BlockAllocate => |s: S| call_ensures(S::block_allocate, (&s,), ()),
            StatEvent::WriteRollover => |s: S| call_ensures(S::write_rollover, (&s,), ()),
            StatEvent::ReadRollover => |s: S| call_ensures(S::read_rollover, (&s,), ()),
        });
    }
}

/// The tracker has been called once for each item that was pushed or executed and once for each
/// rollover and allocation: as often as there are entries in the log, taken together.
pub proof fn law_calls_are_counted(log: Seq<StatEvent>)
    ensures
        StatEvent::Enqueue.count(log) + StatEvent::Execute.count(log)
            + StatEvent::BlockAllocate.count(log) + StatEvent::WriteRollover.count(log)
            + StatEvent::ReadRollover.count(log) == log.len(),
    decreases log.len(),
{
    if log.len() > 0 {
        law_calls_are_counted(log.drop_last());
    }
}

} // verus!
