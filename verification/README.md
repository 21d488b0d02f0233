# Single threaded work queue

A low overhead single threaded work queue that can enqueue and execute `FnOnce` closures,
verified with Verus.

```rust
use single_threaded_work_queue::WorkQueue;
use std::cell::RefCell;

let value = RefCell::new(0);

{
    let mut que = WorkQueue::new();

    que.push(|| *value.borrow_mut() += 1);
    que.push(|| *value.borrow_mut() += 1);

    que.pump();
}

assert_eq!(*value.borrow(), 2);
```

The closures need not be `'static`; what they refer to has to be there while items are pushed
and executed. Items that are left when the queue goes out of scope are not dropped.

## Posting from a work item

An item that is being executed may post more work. `pump_one` is made of two steps:
`begin_one` takes the next item out, and `finish_one` accounts for it once it has been
executed. In between the queue is consistent and can be pushed to, so a queue behind a
`RefCell` can be borrowed for each step and is free while the item runs. `app/` holds such a
queue, with methods that take `&self`.

## How it works

Conceptually, the queue is a circular buffer of bytes that items are written into to await
execution. It is made of two layers: a chain of blocks, and the items in each block. The first
block of the chain is read from, a later one is written to, and the ones behind that are spare.
A block that has been read to its end becomes the last spare one, so that a warm queue does not
need new blocks. If the next spare block is too small for an item, the first one that is not is
brought forward. The bytes that an item takes up are accounted for; the item itself is boxed.

A block that is allocated on demand has 4096 bytes. An item that, with its header, does not fit
into one is accepted only while there is room for it in a larger initial buffer; `try_push`
hands it back otherwise.

## Layout

- `src/item.rs`: work items, and their type-erased form
- `src/block.rs`: blocks, and how items are laid out in them
- `src/stats.rs`: statistics, and the record of what was reported
- `src/state.rs`: the mathematical model of a queue
- `src/work_queue.rs`: `AdvancedWorkQueue`, proved against the model
- `src/pump.rs`: dispatching, over the two steps
- `src/lib.rs`: `WorkQueue`
- `src/laws.rs`: what holds of the library as a whole
- `app/`: a queue that can be shared with its own items
