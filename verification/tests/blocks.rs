use single_threaded_work_queue::block::{
    BLOCK_HEADER_LEN, BLOCK_LEN, ITEM_HEADER_LEN, MAX_ITEM_LEN,
};
use single_threaded_work_queue::{Block, DynamicWorkItem, WorkItemWrapper};
use std::cell::Cell;

#[test]
fn lengths() {
    assert_eq!(BLOCK_HEADER_LEN, 4 * std::mem::size_of::<usize>());
    assert_eq!(ITEM_HEADER_LEN, 4 * std::mem::size_of::<usize>());
    assert_eq!(BLOCK_LEN, 4096);
    assert_eq!(MAX_ITEM_LEN, BLOCK_LEN - BLOCK_HEADER_LEN);
}

#[test]
fn align_rounds_up() {
    assert_eq!(Block::align(0), 0);
    assert_eq!(Block::align(1), ITEM_HEADER_LEN);
    assert_eq!(Block::align(ITEM_HEADER_LEN), ITEM_HEADER_LEN);
    assert_eq!(Block::align(ITEM_HEADER_LEN + 1), 2 * ITEM_HEADER_LEN);
    assert_eq!(Block::align(3112), 3136);
}

#[test]
fn a_new_block() {
    let block = Block::new(4096);
    assert!(block.is_reset());
    assert!(block.is_drained());
    assert_eq!(block.free_remaining(), 4096 - BLOCK_HEADER_LEN);
    assert_eq!(Block::new(BLOCK_HEADER_LEN).free_remaining(), 0);
}

#[test]
fn executing_the_items_of_a_block() {
    let sum = Cell::new(0);
    let add = |n: i32| {
        let sum = &sum;
        move || sum.set(sum.get() * 10 + n)
    };
    let mut block = Block::new(512);
    let free = block.free_remaining();
    block.push(Some(add(1)));
    block.push(Some(add(2)));
    let len = Block::align(ITEM_HEADER_LEN + std::mem::size_of_val(&Some(add(1))));
    assert_eq!(block.free_remaining(), free - 2 * len);
    assert!(!block.is_reset());
    assert!(!block.exec_one());
    assert_eq!(sum.get(), 1);
    // the bytes of an item are given back once the block is empty
    assert_eq!(block.free_remaining(), free - 2 * len);
    assert!(block.exec_one());
    assert_eq!(sum.get(), 12);
    assert!(block.is_reset());
    assert_eq!(block.free_remaining(), free);
    assert!(block.exec_one());
    assert_eq!(sum.get(), 12);
}

#[test]
fn taking_and_settling() {
    let mut block = Block::new(512);
    assert!(block.take_one().is_none());
    block.push(Some(|| ()));
    let item = block.take_one().unwrap();
    assert!(block.is_drained());
    assert!(!block.is_reset());
    item.execute();
    assert!(block.settle());
    assert!(block.is_reset());
}

#[test]
fn what_fits() {
    assert!(Block::fits::<[u8; 4063]>());
    assert!(!Block::fits::<[u8; 4064]>());
    assert!(Block::fits::<()>());
}

#[test]
fn a_wrapper_runs_its_item_once() {
    let count = Cell::new(0);
    let mut wrapper = WorkItemWrapper::from(|| count.set(count.get() + 1));
    assert!(!wrapper.was_dispatched());
    wrapper.execute();
    assert!(wrapper.was_dispatched());
    assert_eq!(count.get(), 1);
}
