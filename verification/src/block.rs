//! Blocks: the chunks of storage that queued work items are laid out in, one after the other.
use crate::deque::Deque;
use crate::item::{QueuedItem, WorkItem};
use std::mem::ManuallyDrop;
use vstd::prelude::*;

verus! {

/// The bytes at the start of a block that hold its bookkeeping: four machine words.
pub const BLOCK_HEADER_LEN: usize = 4 * (usize::BITS as usize / 8);

/// The bytes in front of each item that hold its bookkeeping: four machine words. Items start
/// on multiples of this length.
pub const ITEM_HEADER_LEN: usize = 4 * (usize::BITS as usize / 8);

/// The size of a block that is allocated on demand.
pub const BLOCK_LEN: usize = 4096;

/// No larger work item can be queued. A block that is allocated on demand has room for one
/// that is smaller by an item header.
pub const MAX_ITEM_LEN: usize = BLOCK_LEN - BLOCK_HEADER_LEN;

/// `len`, rounded up to a multiple of the item header's length.
pub open spec fn aligned(len: nat) -> nat {
    if len % (ITEM_HEADER_LEN as nat) == 0 {
        len
    } else {
        (len + ITEM_HEADER_LEN - len % (ITEM_HEADER_LEN as nat)) as nat
    }
}

/// The bytes that a work item of type `F` takes up in a block: its header and its payload,
/// padded so that the next item is aligned again.
pub open spec fn footprint<F>() -> nat {
    aligned(ITEM_HEADER_LEN as nat + vstd::layout::size_of::<Option<F>>())
}

/// A work item of type `F` is neither too large nor too strictly aligned to be queued.
pub open spec fn fits<F>() -> bool {
    &&& vstd::layout::size_of::<Option<F>>() <= MAX_ITEM_LEN
    &&& vstd::layout::align_of::<Option<F>>() <= ITEM_HEADER_LEN
}

/// The bytes that `items` take up together.
pub open spec fn total(items: Seq<QueuedItem>) -> nat
    decreases items.len(),
{
    if items.len() == 0 {
        0
    } else {
        total(items.drop_last()) + items.last().size()
    }
}

/// What a block holds.
#[verifier::ext_equal]
pub struct BlockState<'a> {
    /// size of the block including its header
    pub size: nat,
    /// offset from the beginning of the block to the next work item to be executed
    pub beg: nat,
    /// offset to the end of allocated data in the block
    pub end: nat,
    /// the work items from `beg` to `end`
    pub items: Seq<QueuedItem<'a>>,
}

impl<'a> BlockState<'a> {
    /// The items lie side by side, without gaps, from `beg` to `end`, inside the block and
    /// behind its header, each one aligned and ready to be executed.
    pub open spec fn wf(self) -> bool {
        &&& BLOCK_HEADER_LEN <= self.beg <= self.end <= self.size <= usize::MAX
        &&& self.beg % (ITEM_HEADER_LEN as nat) == 0
        &&& self.end == self.beg + total(self.items)
        &&& forall|i: int|
            0 <= i < self.items.len() ==> {
                &&& (#[trigger] self.items[i]).runnable()
                &&& self.items[i].size() > 0
                &&& self.items[i].size() % (ITEM_HEADER_LEN as nat) == 0
            }
    }

    /// A block of `size` bytes that nothing was put into yet.
    pub open spec fn fresh(size: nat) -> Self {
        BlockState {
            size,
            beg: BLOCK_HEADER_LEN as nat,
            end: BLOCK_HEADER_LEN as nat,
            items: Seq::empty(),
        }
    }

    /// The bytes behind the last item.
    pub open spec fn room(self) -> int {
        self.size - self.end
    }

    /// Where the item at index `i` starts; where the last one ends for the index behind it.
    pub open spec fn offset(self, i: int) -> nat {
        self.beg + total(self.items.take(i))
    }

    /// The block is empty and is written from its beginning.
    pub open spec fn is_reset(self) -> bool {
        &&& self.items.len() == 0
        &&& self.end == BLOCK_HEADER_LEN
    }

    /// The block with `item` behind its last one.
    pub open spec fn with_item(self, item: QueuedItem<'a>) -> Self {
        BlockState { end: self.end + item.size(), items: self.items.push(item), ..self }
    }

    /// The block without its first item. The bytes that the item took up are not free yet.
    pub open spec fn without_first(self) -> Self {
        BlockState {
            beg: self.beg + self.items[0].size(),
            items: self.items.drop_first(),
            ..self
        }
    }

    /// The block, written from its beginning again if nothing is left in it.
    pub open spec fn settled(self) -> Self {
        if self.items.len() == 0 {
            BlockState::fresh(self.size)
        } else {
            self
        }
    }
}

/// Taking the first item away takes its bytes away.
pub proof fn lemma_total_drop_first(items: Seq<QueuedItem>)
    requires
        items.len() > 0,
    ensures
        total(items) == items[0].size() + total(items.drop_first()),
    decreases items.len(),
{
    if items.len() > 1 {
        assert(items.drop_last().drop_first() =~= items.drop_first().drop_last());
        lemma_total_drop_first(items.drop_last());
    } else {
        assert(items.drop_last() =~= Seq::<QueuedItem>::empty());
        assert(items.drop_first() =~= Seq::<QueuedItem>::empty());
    }
}

/// `aligned` gives the next multiple of the item header's length.
pub proof fn lemma_aligned_least(len: nat, multiple: nat)
    ensures
        aligned(len) % (ITEM_HEADER_LEN as nat) == 0,
        len <= aligned(len) < len + ITEM_HEADER_LEN,
        multiple % (ITEM_HEADER_LEN as nat) == 0 && len <= multiple ==> aligned(len) <= multiple,
{
    let unit = ITEM_HEADER_LEN as int;
    let count = len as int / unit;
    let over = len as int % unit;
    let other = multiple as int / unit;
    lemma_units();
    vstd::arithmetic::div_mod::lemma_fundamental_div_mod(len as int, unit);
    vstd::arithmetic::div_mod::lemma_fundamental_div_mod(multiple as int, unit);
    vstd::arithmetic::div_mod::lemma_mod_multiples_basic(count + 1, unit);
    assert(unit * count + unit == (count + 1) * unit) by (nonlinear_arith);
    if over != 0 {
        assert(aligned(len) == (count + 1) * unit);
    }
    if multiple % (ITEM_HEADER_LEN as nat) == 0 && len <= multiple && over != 0 {
        assert((count + 1) * unit <= unit * other) by (nonlinear_arith)
            requires
                unit > 0,
                over > 0,
                unit * count + over <= unit * other,
        ;
    }
}

/// The lengths that others are multiples of.
proof fn lemma_units()
    ensures
        ITEM_HEADER_LEN == BLOCK_HEADER_LEN,
        0 < ITEM_HEADER_LEN <= 32,
        (BLOCK_LEN as nat) % (ITEM_HEADER_LEN as nat) == 0,
        (BLOCK_HEADER_LEN as nat) % (ITEM_HEADER_LEN as nat) == 0,
        BLOCK_HEADER_LEN % ITEM_HEADER_LEN == 0,
{
    if usize::BITS == 64 {
        assert(ITEM_HEADER_LEN == 32);
    } else {
        assert(ITEM_HEADER_LEN == 16);
    }
}

/// A work item that can be queued takes up at least its header and at most a whole block.
pub proof fn lemma_footprint<F>()
    requires
        fits::<F>(),
    ensures
        ITEM_HEADER_LEN + vstd::layout::size_of::<Option<F>>() <= footprint::<F>() <= BLOCK_LEN,
        footprint::<F>() < 2 * ITEM_HEADER_LEN + vstd::layout::size_of::<Option<F>>(),
        footprint::<F>() % (ITEM_HEADER_LEN as nat) == 0,
{
    lemma_units();
    lemma_aligned_least(
        ITEM_HEADER_LEN as nat + vstd::layout::size_of::<Option<F>>(),
        BLOCK_LEN as nat,
    );
}

/// Sums of multiples of the item header's length are such multiples, `aligned` gives the next
/// one, and the block header's length is one.
pub proof fn lemma_aligned(a: nat, b: nat)
    ensures
        a % (ITEM_HEADER_LEN as nat) == 0 && b % (ITEM_HEADER_LEN as nat) == 0 ==> (a + b) % (
        ITEM_HEADER_LEN as nat) == 0,
        aligned(a) % (ITEM_HEADER_LEN as nat) == 0,
        a <= aligned(a) < a + ITEM_HEADER_LEN,
        BLOCK_HEADER_LEN % ITEM_HEADER_LEN == 0,
{
    lemma_units();
    lemma_aligned_least(a, 0);
    if a % (ITEM_HEADER_LEN as nat) == 0 && b % (ITEM_HEADER_LEN as nat) == 0 {
        let unit = ITEM_HEADER_LEN as int;
        let x = a as int / unit;
        let y = b as int / unit;
        vstd::arithmetic::div_mod::lemma_fundamental_div_mod(a as int, unit);
        vstd::arithmetic::div_mod::lemma_fundamental_div_mod(b as int, unit);
        vstd::arithmetic::div_mod::lemma_mod_multiples_basic(x + y, unit);
        assert((x + y) * unit == unit * x + unit * y) by (nonlinear_arith);
    }
}

impl<'a> BlockState<'a> {
    /// A fresh block is consistent.
    pub proof fn lemma_fresh(size: nat)
        requires
            BLOCK_HEADER_LEN <= size <= usize::MAX,
        ensures
            BlockState::<'a>::fresh(size).wf(),
    {
        lemma_aligned(0, 0);
        assert(total(BlockState::<'a>::fresh(size).items) == 0);
    }

    /// A block stays consistent when an item is put into it.
    pub proof fn lemma_with_item(self, item: QueuedItem<'a>)
        requires
            self.wf(),
            item.runnable(),
            0 < item.size() <= self.room(),
            item.size() % (ITEM_HEADER_LEN as nat) == 0,
        ensures
            self.with_item(item).wf(),
    {
        assert(self.with_item(item).items.drop_last() =~= self.items);
    }

    /// A block stays consistent when its first item is taken out.
    pub proof fn lemma_without_first(self)
        requires
            self.wf(),
            self.items.len() > 0,
        ensures
            self.without_first().wf(),
    {
        lemma_total_drop_first(self.items);
        lemma_aligned(self.beg, self.items[0].size());
        assert forall|i: int| 0 <= i < self.without_first().items.len() implies {
            &&& (#[trigger] self.without_first().items[i]).runnable()
            &&& self.without_first().items[i].size() > 0
            &&& self.without_first().items[i].size() % (ITEM_HEADER_LEN as nat) == 0
        } by {
            assert(self.items[i + 1].runnable());
        }
    }

    /// A block stays consistent when it is settled, and keeps its items.
    pub proof fn lemma_settled(self)
        requires
            self.wf(),
        ensures
            self.settled().wf(),
            self.settled().items == self.items,
    {
        BlockState::<'a>::lemma_fresh(self.size);
    }
}

/// A block of storage with the work items in it.
///
/// Items leave a block in order to be executed, and in no other way: those that are left when
/// the block goes out of scope are not dropped, so what they borrow need not be there any more.
pub struct Block<'a> {
    size: usize,
    beg: usize,
    end: usize,
    items: Option<ManuallyDrop<Deque<QueuedItem<'a>>>>,
}

impl<'a> View for Block<'a> {
    type V = BlockState<'a>;

    closed spec fn view(&self) -> BlockState<'a> {
        BlockState {
            size: self.size as nat,
            beg: self.beg as nat,
            end: self.end as nat,
            items: match self.items {
                Some(items) => items@@,
                None => Seq::empty(),
            },
        }
    }
}

impl<'a> Block<'a> {
    /// An empty block of `size` bytes, its header included.
    pub fn new(size: usize) -> (block: Self)
        requires
            BLOCK_HEADER_LEN <= size,
        ensures
            block@.wf(),
            block@ == BlockState::<'a>::fresh(size as nat),
            block@.size == size,
            block@.beg == BLOCK_HEADER_LEN,
            block@.end == BLOCK_HEADER_LEN,
            block@.items.len() == 0,
        opens_invariants none
        no_unwind
    {
        proof {
            BlockState::<'a>::lemma_fresh(size as nat);
        }
        Block { size, beg: BLOCK_HEADER_LEN, end: BLOCK_HEADER_LEN, items: None }
    }

    /// The bytes that can still be allocated in the block.
    pub fn free_remaining(&self) -> (free: usize)
        requires
            self@.wf(),
        ensures
            free == self@.room(),
            free == self@.size - self@.end,
    {
        self.size - self.end
    }

    /// returns true if block is empty and write pointer is at beginning
    pub fn is_reset(&self) -> (reset: bool)
        requires
            self@.wf(),
        ensures
            reset == self@.is_reset(),
            reset == (self@.items.len() == 0 && self@.end == BLOCK_HEADER_LEN),
    {
        self.is_drained() && self.end == BLOCK_HEADER_LEN
    }

    /// Nothing is left to be executed in the block.
    pub fn is_drained(&self) -> (drained: bool)
        requires
            self@.wf(),
        ensures
            drained == (self@.items.len() == 0),
    {
        proof {
            if self@.items.len() > 0 {
                lemma_total_drop_first(self@.items);
            }
        }
        self.beg == self.end
    }

    /// Round `len` up to a multiple of the item header's length.
    pub fn align(len: usize) -> (aligned_len: usize)
        requires
            aligned(len as nat) <= usize::MAX,
        ensures
            aligned_len == aligned(len as nat),
            aligned_len % ITEM_HEADER_LEN == 0,
            len <= aligned_len < len + ITEM_HEADER_LEN,
    {
        proof {
            lemma_aligned(len as nat, 0);
        }
        let over: usize = len % ITEM_HEADER_LEN;
        if over != 0 {
            len + (ITEM_HEADER_LEN - over)
        } else {
            len
        }
    }

    /// A work item of type `F` is neither too large nor too strictly aligned to be queued.
    pub fn fits<F>() -> (ok: bool)
        ensures
            ok == fits::<F>(),
            ok == (vstd::layout::size_of::<Option<F>>() <= BLOCK_LEN - BLOCK_HEADER_LEN
                && vstd::layout::align_of::<Option<F>>() <= ITEM_HEADER_LEN),
    {
        core::mem::size_of::<Option<F>>() <= MAX_ITEM_LEN && core::mem::align_of::<Option<F>>()
            <= ITEM_HEADER_LEN
    }

    /// Set `len` bytes at the end of the block apart, and return the offset of the first.
    fn allocate(&mut self, len: usize) -> (offset: usize)
        requires
            old(self)@.end <= old(self)@.size,
            len <= old(self)@.room(),
            len % ITEM_HEADER_LEN == 0,
        ensures
            offset == old(self)@.end,
            final(self)@ == (BlockState { end: old(self)@.end + len as nat, ..old(self)@ }),
    {
        let offset: usize = self.end;
        self.end = self.end + len;
        offset
    }

    /// Take the items out of the block for a moment.
    fn take_items(&mut self) -> (items: Deque<QueuedItem<'a>>)
        ensures
            items@ == old(self)@.items,
            final(self)@ == (BlockState { items: Seq::empty(), ..old(self)@ }),
    {
        match self.items.take() {
            Some(items) => ManuallyDrop::into_inner(items),
            None => Deque::new(),
        }
    }

    /// push a work item into block, which must have room for it
    pub fn push<F: WorkItem<'a>>(&mut self, work_item: Option<F>)
        requires
            old(self)@.wf(),
            vstd::layout::align_of::<Option<F>>() <= ITEM_HEADER_LEN,
            footprint::<F>() <= old(self)@.room(),
            work_item is Some,
            work_item->0.runnable(),
        ensures
            final(self)@.wf(),
            final(self)@ == old(self)@.with_item(
                QueuedItem::of(footprint::<F>() as usize, work_item->0),
            ),
            final(self)@.size == old(self)@.size,
            final(self)@.beg == old(self)@.beg,
            ITEM_HEADER_LEN + vstd::layout::size_of::<Option<F>>() <= final(self)@.end - old(
                self,
            )@.end < 2 * ITEM_HEADER_LEN + vstd::layout::size_of::<Option<F>>(),
            final(self)@.items.len() == old(self)@.items.len() + 1,
            final(self)@.items.drop_last() == old(self)@.items,
            final(self)@.items.last().completed() == work_item->0.completed(),
    {
        broadcast use QueuedItem::lemma_of;

        let alloc_len: usize = Self::align(ITEM_HEADER_LEN + core::mem::size_of::<Option<F>>());
        let _ = self.allocate(alloc_len);
        if let Some(work_item) = work_item {
            let mut items = self.take_items();
            items.push_back(QueuedItem::new(alloc_len, work_item));
            self.items = Some(ManuallyDrop::new(items));
        }
        proof {
            old(self)@.lemma_with_item(QueuedItem::of(alloc_len, work_item->0));
            assert(self@.items.drop_last() =~= old(self)@.items);
        }
    }

    /// Take the next item out of the block in order to execute it. Its bytes are given back by
    /// [`Block::settle`], once it has been executed.
    pub fn take_one(&mut self) -> (item: Option<QueuedItem<'a>>)
        requires
            old(self)@.wf(),
        ensures
            final(self)@.wf(),
            match item {
                Some(item) => {
                    &&& old(self)@.items.len() > 0
                    &&& item == old(self)@.items[0]
                    &&& final(self)@ == old(self)@.without_first()
                    &&& final(self)@.size == old(self)@.size
                    &&& final(self)@.beg == old(self)@.beg + item.size()
                    &&& final(self)@.end == old(self)@.end
                    &&& final(self)@.items == old(self)@.items.drop_first()
                },
                None => {
                    &&& old(self)@.items.len() == 0
                    &&& final(self)@ == old(self)@
                },
            },
    {
        if self.is_drained() {
            return None;
        }
        proof {
            lemma_total_drop_first(self@.items);
            self@.lemma_without_first();
        }
        let mut items = self.take_items();
        let item = items.pop_front();
        self.items = Some(ManuallyDrop::new(items));
        match item {
            Some(item) => {
                self.beg = self.beg + item.footprint();
                assert(self@ =~= old(self)@.without_first());
                Some(item)
            },
            None => None,
        }
    }

    /// Start writing from the beginning of the block again if nothing is left in it; returns
    /// true if that is so.
    pub fn settle(&mut self) -> (empty: bool)
        requires
            old(self)@.wf(),
        ensures
            final(self)@.wf(),
            final(self)@ == old(self)@.settled(),
            final(self)@.size == old(self)@.size,
            final(self)@.items == old(self)@.items,
            empty ==> final(self)@.beg == BLOCK_HEADER_LEN && final(self)@.end
                == BLOCK_HEADER_LEN,
            !empty ==> final(self)@ == old(self)@,
            empty == (old(self)@.items.len() == 0),
    {
        proof {
            self@.lemma_settled();
        }
        if self.is_drained() {
            self.beg = BLOCK_HEADER_LEN;
            self.end = BLOCK_HEADER_LEN;
            assert(self@ =~= old(self)@.settled());
            true
        } else {
            false
        }
    }

    /// execute the next item in the block, returns true if block is empty after
    pub fn exec_one(&mut self) -> (empty: bool)
        requires
            old(self)@.wf(),
        ensures
            final(self)@.wf(),
            empty == (final(self)@.items.len() == 0),
            old(self)@.items.len() == 0 ==> final(self)@ == old(self)@,
            old(self)@.items.len() > 0 ==> {
                &&& old(self)@.items[0].completed()
                &&& final(self)@ == old(self)@.without_first().settled()
                &&& final(self)@.size == old(self)@.size
                &&& final(self)@.items == old(self)@.items.drop_first()
                &&& if old(self)@.items.len() == 1 {
                    final(self)@.beg == BLOCK_HEADER_LEN && final(self)@.end == BLOCK_HEADER_LEN
                } else {
                    final(self)@.beg == old(self)@.beg + old(self)@.items[0].size()
                        && final(self)@.end == old(self)@.end
                }
            },
    {
        match self.take_one() {
            Some(item) => {
                item.execute();
                self.settle()
            },
            None => true,
        }
    }
}

} // verus!
