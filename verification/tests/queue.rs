use single_threaded_work_queue::{
    AdvancedWorkQueue, DynamicWorkItem, NopWorkQueueStats, WorkItem, WorkQueue, WorkQueueStats,
};
use std::cell::{Cell, RefCell};
use std::rc::Rc;

fn invoke<'a>(work_item: impl WorkItem<'a>) {
    work_item.execute()
}

fn invoke_dyn(work_item: &mut dyn DynamicWorkItem) {
    work_item.execute()
}

#[derive(Default)]
struct Stat(Cell<usize>);

impl Stat {
    fn inc(&self) {
        self.0.set(self.0.get() + 1)
    }
    fn get(&self) -> usize {
        self.0.get()
    }
}

#[derive(Default)]
struct Stats {
    enqueued: Stat,
    executed: Stat,
    block_allocates: Stat,
    write_rollovers: Stat,
    read_rollovers: Stat,
}

impl WorkQueueStats for &Stats {
    fn enqueue(&self) {
        self.enqueued.inc()
    }
    fn execute(&self) {
        self.executed.inc()
    }
    fn block_allocate(&self) {
        self.block_allocates.inc()
    }
    fn write_rollover(&self) {
        self.write_rollovers.inc()
    }
    fn read_rollover(&self) {
        self.read_rollovers.inc()
    }
}

struct BigRef<const N: usize> {
    value: Rc<RefCell<i32>>,
    _baggage: [u8; N],
}

impl<const N: usize> BigRef<N> {
    fn new(value: &Rc<RefCell<i32>>) -> Self {
        Self {
            value: value.clone(),
            _baggage: [0; N],
        }
    }
    fn inc(&self) {
        *self.value.borrow_mut() += 1
    }
}

/// Dispatch all items of a queue that the items themselves may push to.
fn pump_shared<S: WorkQueueStats>(que: &RefCell<AdvancedWorkQueue<'_, S>>) {
    loop {
        let next = que.borrow_mut().begin_one();
        match next {
            Some(item) => {
                item.execute();
                que.borrow_mut().finish_one();
            }
            None => return,
        }
    }
}

#[test]
fn static_invoke() {
    let mut value = 1;

    invoke(|| value += 1);

    assert_eq!(value, 2);
}

#[test]
fn dynamic_invoke() {
    let mut value = 1;

    let mut work_item = (|| value += 1).to_dynamic();

    assert!(!work_item.was_dispatched());

    invoke_dyn(&mut work_item);

    assert!(work_item.was_dispatched());

    assert_eq!(value, 2);
}

#[test]
fn pump_empty() {
    let mut que = WorkQueue::new();
    assert!(!que.pump_one());
}

#[test]
fn simplest_que() {
    let value = Rc::new(RefCell::new(1));

    {
        let mut que = WorkQueue::new();

        que.push({
            let value = value.clone();
            move || *value.borrow_mut() += 1
        });

        que.pump();
    }

    assert_eq!(*value.borrow(), 2);
}

#[test]
fn que_with_stats() {
    let stats = Stats::default();
    let value = Rc::new(RefCell::new(0));

    {
        let mut que = AdvancedWorkQueue::with_stats(&stats);

        assert!(que.is_empty());

        for _ in 0..2 {
            que.push({
                let value = value.clone();
                move || *value.borrow_mut() += 1
            });
        }

        assert!(!que.is_empty());

        que.pump();

        assert!(que.is_empty());
    }

    assert_eq!(*value.borrow(), 2);
    assert_eq!(stats.block_allocates.get(), 1);
    assert_eq!(stats.enqueued.get(), 2);
    assert_eq!(stats.executed.get(), 2);
}

#[test]
fn que_multi_block() {
    let stats = Stats::default();
    let value = Rc::new(RefCell::new(0));

    {
        let mut que = AdvancedWorkQueue::with_stats(&stats);

        const BIG: usize = 3072;
        const SMALL: usize = 768;

        assert!(que.is_empty());

        for _ in 0..4 {
            que.push({
                let r = BigRef::<BIG>::new(&value);
                move || r.inc()
            });
        }

        assert!(!que.is_empty());

        for _ in 0..3 {
            que.pump_one();
        }

        assert!(!que.is_empty());

        que.pump_one();

        assert!(que.is_empty());

        for _ in 0..8 {
            que.push({
                let r = BigRef::<SMALL>::new(&value);
                move || r.inc()
            });
        }

        assert!(!que.is_empty());

        que.pump();

        assert!(que.is_empty());
    }

    assert_eq!(*value.borrow(), 12);
    assert_eq!(stats.block_allocates.get(), 4);
    assert_eq!(stats.write_rollovers.get(), 4);
    assert_eq!(stats.read_rollovers.get(), 4);
    assert_eq!(stats.enqueued.get(), 12);
    assert_eq!(stats.executed.get(), 12);
}

#[test]
fn queue_in_queue() {
    let value = RefCell::new(0);

    {
        let stats = Stats::default();
        let que = RefCell::new(AdvancedWorkQueue::with_stats(&stats));

        que.borrow_mut()
            .push(|| que.borrow_mut().push(|| *value.borrow_mut() += 1));

        pump_shared(&que);
    }

    assert_eq!(*value.borrow(), 1);
}

#[test]
fn closures_that_borrow() {
    let value = RefCell::new(0);

    {
        let mut que = WorkQueue::new();

        que.push(|| *value.borrow_mut() += 1);
        que.push(|| *value.borrow_mut() += 1);

        que.pump();
    }

    assert_eq!(*value.borrow(), 2);
}

#[test]
fn items_run_in_the_order_of_pushing() {
    let seen = RefCell::new(Vec::new());
    let mut que = WorkQueue::new();
    let seen_ref = &seen;
    for i in 0..200 {
        que.push(move || seen_ref.borrow_mut().push(i));
    }
    for i in 0..50 {
        assert!(que.pump_one());
        assert_eq!(seen.borrow().len(), i + 1);
    }
    for i in 200..300 {
        que.push(move || seen_ref.borrow_mut().push(i));
    }
    que.pump();
    assert!(que.is_empty());
    assert_eq!(*seen.borrow(), (0..300).collect::<Vec<i32>>());
}

#[test]
fn pump_one_tells_whether_items_remain() {
    let mut que = WorkQueue::default();
    assert!(que.is_empty());
    que.push(|| ());
    que.push(|| ());
    assert!(que.pump_one());
    assert!(!que.is_empty());
    assert!(!que.pump_one());
    assert!(que.is_empty());
    assert!(!que.pump_one());
}

#[test]
fn posted_while_running_goes_to_the_back() {
    let seen = RefCell::new(Vec::new());
    {
        let stats = Stats::default();
        let que = Rc::new(RefCell::new(AdvancedWorkQueue::with_stats(&stats)));
        let seen = &seen;
        que.borrow_mut().push({
            let que = que.clone();
            move || {
                seen.borrow_mut().push(1);
                assert!(que.borrow().is_pumping());
                assert!(!que.borrow().is_empty());
                que.borrow_mut().push(move || seen.borrow_mut().push(3));
            }
        });
        que.borrow_mut().push(move || seen.borrow_mut().push(2));
        pump_shared(&que);
        assert!(!que.borrow().is_pumping());
        assert!(que.borrow().is_empty());
        assert_eq!(stats.enqueued.get(), 3);
        assert_eq!(stats.executed.get(), 3);
    }
    assert_eq!(*seen.borrow(), vec![1, 2, 3]);
}

#[test]
fn the_last_item_can_post_too() {
    let stats = Stats::default();
    let que = Rc::new(RefCell::new(AdvancedWorkQueue::with_stats(&stats)));
    que.borrow_mut().push({
        let que = que.clone();
        move || {
            assert!(que.borrow().is_empty());
            que.borrow_mut().push(|| ());
        }
    });
    let item = que.borrow_mut().begin_one().unwrap();
    item.execute();
    assert!(que.borrow_mut().finish_one());
    assert!(!que.borrow_mut().pump_one());
    assert_eq!(stats.block_allocates.get(), 1);
}

#[test]
fn begin_on_an_empty_queue() {
    let mut que = WorkQueue::new();
    assert!(que.begin_one().is_none());
    assert!(!que.is_pumping());
    que.push(|| ());
    assert!(que.begin_one().is_some());
    assert!(que.is_pumping());
    assert!(que.is_empty());
    assert!(!que.finish_one());
    assert!(!que.is_pumping());
}

#[test]
fn pumping_an_empty_queue_reports_nothing() {
    let stats = Stats::default();
    let mut que = AdvancedWorkQueue::with_stats(&stats);
    que.push(|| ());
    que.pump();
    que.pump();
    assert!(!que.pump_one());
    assert_eq!(stats.executed.get(), 1);
    assert_eq!(stats.read_rollovers.get(), 0);
}

#[test]
fn a_full_block_rolls_over() {
    // an item without captures takes up two headers: 63 fit into a block
    let stats = Stats::default();
    let mut que = AdvancedWorkQueue::with_stats(&stats);
    for _ in 0..63 {
        que.push(|| ());
    }
    assert_eq!(stats.block_allocates.get(), 1);
    assert_eq!(stats.write_rollovers.get(), 0);
    que.push(|| ());
    assert_eq!(stats.block_allocates.get(), 2);
    assert_eq!(stats.write_rollovers.get(), 1);
    que.pump();
    assert_eq!(stats.executed.get(), 64);
    assert_eq!(stats.read_rollovers.get(), 1);
}

#[test]
fn a_warm_queue_does_not_allocate() {
    let stats = Stats::default();
    let mut que = AdvancedWorkQueue::with_stats(&stats);
    for round in 0..5 {
        for i in 0..150 {
            if (i + round) % 2 == 0 {
                que.push(|| ());
            } else {
                que.push(move || assert!(i < 150));
            }
        }
        que.pump();
        assert!(que.is_empty());
        assert_eq!(stats.block_allocates.get(), 3);
        assert_eq!(stats.executed.get(), 150 * (round + 1));
        assert!(stats.write_rollovers.get() <= stats.enqueued.get());
        assert_eq!(stats.read_rollovers.get(), stats.write_rollovers.get());
    }
}

#[test]
fn the_initial_buffer_is_used() {
    let stats = Stats::default();
    let mut que = AdvancedWorkQueue::with_stats_and_capacity(&stats, 160);
    assert!(que.is_empty());
    que.push(|| ());
    que.push(|| ());
    assert_eq!(stats.block_allocates.get(), 0);
    que.push(|| ());
    assert_eq!(stats.block_allocates.get(), 1);
    assert_eq!(stats.write_rollovers.get(), 1);
    que.pump();
    assert_eq!(stats.executed.get(), 3);
    assert_eq!(stats.read_rollovers.get(), 1);
}

#[test]
fn a_tiny_initial_buffer_is_skipped() {
    for size in [0, 10, 32, 64] {
        let stats = Stats::default();
        let value = Cell::new(0);
        let value_ref = &value;
        let mut que = AdvancedWorkQueue::with_stats_and_capacity(&stats, size);
        que.push(move || value_ref.set(7));
        assert_eq!(stats.block_allocates.get(), 1);
        assert_eq!(stats.write_rollovers.get(), 1);
        assert_eq!(stats.read_rollovers.get(), 0);
        assert!(!que.is_empty());
        assert!(!que.pump_one());
        assert_eq!(value.get(), 7);
        assert!(que.is_empty());
        assert_eq!(stats.read_rollovers.get(), 1);
        // the tiny block is spare now, and too small for what follows
        for _ in 0..64 {
            que.push(|| ());
        }
        assert_eq!(stats.block_allocates.get(), 2);
        assert_eq!(stats.write_rollovers.get(), 2);
        que.pump();
        assert_eq!(stats.executed.get(), 65);
        assert_eq!(stats.read_rollovers.get(), 2);
    }
}

#[test]
fn the_largest_item_for_a_block_on_demand() {
    let stats = Stats::default();
    let sum = Cell::new(0usize);
    let mut que = AdvancedWorkQueue::with_stats(&stats);
    // as an option, the closure takes up 8 bytes for the reference and 4024 for the rest
    let largest = [1u8; 4024];
    let sum_ref = &sum;
    que.push(move || sum_ref.set(sum_ref.get() + largest.len()));
    que.push(move || sum_ref.set(sum_ref.get() + largest.len()));
    assert_eq!(stats.block_allocates.get(), 2);
    que.pump();
    assert_eq!(sum.get(), 8048);
}

#[test]
fn a_larger_item_needs_a_larger_initial_buffer() {
    let stats = Stats::default();
    let sum = Cell::new(0usize);
    let sum_ref = &sum;
    // as an option, the closure takes up 8 bytes for the reference and 4056 for the rest
    let largest = [1u8; 4056];
    let item = move || sum_ref.set(sum_ref.get() + largest.len());

    let mut small = AdvancedWorkQueue::with_stats(&stats);
    assert!(small.try_push(item).is_err());
    assert!(small.is_empty());
    assert_eq!(stats.block_allocates.get(), 0);

    let mut large = AdvancedWorkQueue::with_stats_and_capacity(&stats, 8192);
    large.push(item);
    assert!(large.try_push(item).is_err());
    large.pump();
    assert_eq!(sum.get(), 4056);
    assert!(large.try_push(item).is_ok());
    large.pump();
    assert_eq!(sum.get(), 8112);
    assert_eq!(stats.block_allocates.get(), 0);
}

#[test]
fn a_spare_block_that_fits_is_brought_forward() {
    let log = EventLog(RefCell::new(String::new()));
    let mut que = AdvancedWorkQueue::with_stats_and_capacity(&log, 64);
    let big = [0u8; 3000];
    let item = move || assert_eq!(big.len(), 3000);
    que.push(item);
    que.push(item);
    que.pump();
    assert_eq!(*log.0.borrow(), "aweawerxrx");
    log.0.borrow_mut().clear();
    // the small block is next in the chain, and the one behind it fits
    que.push(item);
    que.push(item);
    assert_eq!(*log.0.borrow(), "ewe");
    que.pump();
    assert_eq!(*log.0.borrow(), "ewexrx");
}

#[test]
fn too_large_an_item_is_handed_back() {
    let stats = Stats::default();
    let value = Cell::new(0);
    let value_ref = &value;
    let mut que = AdvancedWorkQueue::with_stats_and_capacity(&stats, 1 << 20);
    let big = [1u8; 4057];
    let rejected = que.try_push(move || value_ref.set(big.len()));
    assert!(que.is_empty());
    assert_eq!(stats.enqueued.get(), 0);
    match rejected {
        Err(f) => f(),
        Ok(()) => panic!("an item of that size does not fit"),
    }
    assert_eq!(value.get(), 4057);
    assert!(que.try_push(|| ()).is_ok());
    assert_eq!(stats.enqueued.get(), 1);

    let mut simple = WorkQueue::with_capacity(4096);
    assert!(simple.try_push(move || value_ref.set(big.len() + 1)).is_err());
    assert!(simple.try_push(move || value_ref.set(1)).is_ok());
    simple.pump();
    assert_eq!(value.get(), 1);
}

#[test]
fn what_a_queue_accepts() {
    let small = AdvancedWorkQueue::<NopWorkQueueStats>::new();
    let large = AdvancedWorkQueue::<NopWorkQueueStats>::with_capacity(8192);
    // an option of such an array takes up a byte more than the array
    assert!(small.accepts::<[u8; 4031]>());
    assert!(!small.accepts::<[u8; 4032]>());
    assert!(large.accepts::<[u8; 4063]>());
    assert!(!large.accepts::<[u8; 4064]>());
    assert!(WorkQueue::new().accepts::<[u8; 4031]>());
    assert!(!WorkQueue::new().accepts::<[u8; 4032]>());
}

#[test]
fn no_item_is_started_while_one_is_running() {
    let seen = RefCell::new(Vec::new());
    let stats = Stats::default();
    let que = RefCell::new(AdvancedWorkQueue::with_stats(&stats));
    que.borrow_mut().push(|| {
        seen.borrow_mut().push(1);
        assert_eq!(que.borrow_mut().try_pump_one(), None);
        assert_eq!(*seen.borrow(), vec![1]);
        assert!(!que.borrow().is_empty());
    });
    que.borrow_mut().push(|| seen.borrow_mut().push(2));
    pump_shared(&que);
    assert_eq!(*seen.borrow(), vec![1, 2]);
    assert_eq!(que.borrow_mut().try_pump_one(), Some(false));
    que.borrow_mut().push(|| ());
    que.borrow_mut().push(|| ());
    assert_eq!(que.borrow_mut().try_pump_one(), Some(true));

    let mut simple = WorkQueue::new();
    simple.push(|| ());
    let item = simple.begin_one().unwrap();
    assert_eq!(simple.try_pump_one(), None);
    item.execute();
    assert!(!simple.finish_one());
    assert_eq!(simple.try_pump_one(), Some(false));
}

#[test]
fn items_that_are_left_are_not_dropped() {
    let value = Rc::new(());
    {
        let mut que = WorkQueue::new();
        for _ in 0..3 {
            let value = value.clone();
            que.push(move || assert!(Rc::strong_count(&value) > 1));
        }
        assert!(que.pump_one());
        // an executed item is
        assert_eq!(Rc::strong_count(&value), 3);
    }
    assert_eq!(Rc::strong_count(&value), 3);
}

#[test]
fn what_an_item_borrows_may_go_before_the_queue() {
    let mut que = WorkQueue::new();
    let value = Cell::new(0);
    que.push(|| value.set(value.get() + 1));
    que.push(|| value.set(value.get() + 1));
    assert!(que.pump_one());
    assert_eq!(value.get(), 1);
}

struct DropCounter<'a>(&'a Cell<i32>);

impl WorkQueueStats for DropCounter<'_> {}

impl Drop for DropCounter<'_> {
    fn drop(&mut self) {
        self.0.set(self.0.get() + 1)
    }
}

#[test]
fn the_tracker_is_dropped_with_the_queue() {
    let drops = Cell::new(0);
    {
        let mut que = AdvancedWorkQueue::with_stats(DropCounter(&drops));
        que.push(|| ());
    }
    assert_eq!(drops.get(), 1);
}

struct Increment<'a>(&'a Cell<i32>);

impl<'a> WorkItem<'a> for Increment<'a> {
    type Dynamic = single_threaded_work_queue::WorkItemWrapper<Self>;
    fn runnable(&self) -> bool {
        true
    }
    fn completed(&self) -> bool {
        true
    }
    fn dynamic(self) -> Self::Dynamic {
        self.to_dynamic()
    }
    fn execute(self) {
        self.0.set(self.0.get() + 1)
    }
    fn to_dynamic(self) -> Self::Dynamic {
        Self::Dynamic::from(self)
    }
}

#[test]
fn a_work_item_of_ones_own() {
    let value = Cell::new(0);
    let mut que = AdvancedWorkQueue::<NopWorkQueueStats>::default();
    que.push(Increment(&value));
    que.push(|| value.set(value.get() + 10));
    que.push(Increment(&value));
    assert!(que.pump_one());
    assert_eq!(value.get(), 1);
    que.pump();
    assert_eq!(value.get(), 12);

    let mut boxed: Box<dyn DynamicWorkItem + '_> = Box::new(Increment(&value).to_dynamic());
    assert!(!boxed.was_dispatched());
    boxed.execute();
    assert!(boxed.was_dispatched());
    assert_eq!(value.get(), 13);
}

#[derive(Default)]
struct OnlyEnqueued(Stat);

impl WorkQueueStats for &OnlyEnqueued {
    fn enqueue(&self) {
        self.0.inc()
    }
}

#[test]
fn a_tracker_may_ignore_events() {
    let tracker = OnlyEnqueued::default();
    let mut que = AdvancedWorkQueue::with_stats(&tracker);
    que.push(|| ());
    que.push(|| ());
    que.pump();
    assert_eq!(tracker.0.get(), 2);
}

struct EventLog(RefCell<String>);

impl WorkQueueStats for &EventLog {
    fn enqueue(&self) {
        self.0.borrow_mut().push('e')
    }
    fn execute(&self) {
        self.0.borrow_mut().push('x')
    }
    fn block_allocate(&self) {
        self.0.borrow_mut().push('a')
    }
    fn write_rollover(&self) {
        self.0.borrow_mut().push('w')
    }
    fn read_rollover(&self) {
        self.0.borrow_mut().push('r')
    }
}

#[test]
fn the_order_of_events() {
    let log = EventLog(RefCell::new(String::new()));
    let mut que = AdvancedWorkQueue::with_stats(&log);
    let big = [0u8; 3000];
    que.push(move || assert_eq!(big.len(), 3000));
    que.push(move || assert_eq!(big.len(), 3000));
    que.pump();
    assert_eq!(*log.0.borrow(), "aeawexrx");
}

#[test]
fn queues_of_no_and_of_some_capacity() {
    let mut plain = AdvancedWorkQueue::<NopWorkQueueStats>::new();
    let mut roomy =
        AdvancedWorkQueue::<NopWorkQueueStats>::with_capacity(1 << 20);
    assert!(plain.is_empty());
    assert!(roomy.is_empty());
    plain.push(|| ());
    roomy.push(|| ());
    assert!(!plain.pump_one());
    assert!(!roomy.pump_one());
}
