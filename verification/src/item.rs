//! Work items: what can be queued, and the type-erased form in which the queue holds it.
use vstd::prelude::*;
use vstd::std_specs::convert::FromSpecImpl;

verus! {

/// A run once work item.
pub trait WorkItem<'a>: Sized + 'a {
    type Dynamic: DynamicWorkItem;

    /// The item may be executed.
    spec fn runnable(&self) -> bool;

    /// What holds once the item has been executed.
    spec fn completed(&self) -> bool;

    /// The type erasable version of the item.
    spec fn dynamic(self) -> Self::Dynamic;

    /// Execute the work item consuming itself.
    fn execute(self)
        requires
            self.runnable(),
        ensures
            self.completed(),
    ;

    /// Convert the work item into a type erasable version of itself.
    fn to_dynamic(self) -> (item: Self::Dynamic)
        ensures
            item == self.dynamic(),
    ;
}

/// A type-erasable work item that can only be executed once.
///
/// Because a [`WorkItem`] consumes itself on execution, it must be wrapped to
/// be able to be type erasable. See [`WorkItem::to_dynamic`].
pub trait DynamicWorkItem {
    /// The item has been executed.
    spec fn dispatched(&self) -> bool;

    /// The item may be executed: it has not been yet, and its own precondition holds.
    spec fn runnable(&self) -> bool;

    /// What holds once the item has been executed.
    spec fn completed(&self) -> bool;

    /// Execute the work item leaving it in a "dispatched" state.
    fn execute(&mut self)
        requires
            old(self).runnable(),
        ensures
            final(self).dispatched(),
            old(self).completed(),
    ;

    /// Returns if the item has already been dispatched.
    fn was_dispatched(&self) -> (dispatched: bool)
        ensures
            dispatched == self.dispatched(),
    ;
}

/// Every closure without arguments and without a result is a work item.
impl<'a, T> WorkItem<'a> for T where T: FnOnce() -> () + 'a {
    type Dynamic = WorkItemWrapper<T>;

    open spec fn runnable(&self) -> bool {
        call_requires(*self, ())
    }

    open spec fn completed(&self) -> bool {
        call_ensures(*self, (), ())
    }

    open spec fn dynamic(self) -> WorkItemWrapper<T> {
        WorkItemWrapper::holding(self)
    }

    fn execute(self) {
        self();
    }

    fn to_dynamic(self) -> (item: WorkItemWrapper<T>) {
        WorkItemWrapper::from(self)
    }
}

/// A work item that is there until it is executed.
pub struct WorkItemWrapper<T>(Option<T>);

impl<T> WorkItemWrapper<T> {
    /// The wrapped item, while it has not been executed.
    pub closed spec fn payload(self) -> Option<T> {
        self.0
    }

    /// The wrapper around an item that has not been executed.
    pub closed spec fn holding(value: T) -> Self {
        WorkItemWrapper(Some(value))
    }

    /// A fresh wrapper holds its item.
    pub broadcast proof fn lemma_holding(value: T)
        ensures
            (#[trigger] WorkItemWrapper::holding(value)).payload() == Some(value),
    {
    }
}

impl<'a, T: WorkItem<'a>> DynamicWorkItem for WorkItemWrapper<T> {
    open spec fn dispatched(&self) -> bool {
        self.payload() is None
    }

    open spec fn runnable(&self) -> bool {
        self.payload() matches Some(item) && item.runnable()
    }

    open spec fn completed(&self) -> bool {
        self.payload() matches Some(item) && item.completed()
    }

    fn execute(&mut self) {
        self.0.take().unwrap().execute()
    }

    fn was_dispatched(&self) -> (dispatched: bool) {
        self.0.is_none()
    }
}

impl<T> From<T> for WorkItemWrapper<T> {
    fn from(value: T) -> (wrapper: Self) {
        WorkItemWrapper(Some(value))
    }
}

impl<T> FromSpecImpl<T> for WorkItemWrapper<T> {
    open spec fn obeys_from_spec() -> bool {
        true
    }

    open spec fn from_spec(value: T) -> Self {
        WorkItemWrapper::holding(value)
    }
}

/// A work item in the queue, with the number of bytes that it takes up there.
pub struct QueuedItem<'a> {
    size: usize,
    work: Box<dyn DynamicWorkItem + 'a>,
}

impl<'a> QueuedItem<'a> {
    /// The bytes that the item takes up in its block, header and padding included.
    pub closed spec fn size(self) -> nat {
        self.size as nat
    }

    /// The item may be executed.
    pub closed spec fn runnable(self) -> bool {
        self.work.runnable()
    }

    /// What holds once the item has been executed.
    pub closed spec fn completed(self) -> bool {
        self.work.completed()
    }

    /// The queued form of `work_item`, taking up `size` bytes.
    pub closed spec fn of<F: WorkItem<'a>>(size: usize, work_item: F) -> Self {
        QueuedItem { size, work: Box::new(WorkItemWrapper::holding(work_item)) }
    }

    /// The queued form keeps the size, the precondition and the postcondition.
    pub broadcast proof fn lemma_of<F: WorkItem<'a>>(size: usize, work_item: F)
        ensures
            (#[trigger] Self::of(size, work_item)).size() == size,
            Self::of(size, work_item).runnable() == work_item.runnable(),
            Self::of(size, work_item).completed() == work_item.completed(),
    {
        broadcast use WorkItemWrapper::lemma_holding;
    }

    /// Erase the type of a work item.
    pub(crate) fn new<F: WorkItem<'a>>(size: usize, work_item: F) -> (item: Self)
        ensures
            item == Self::of(size, work_item),
    {
        QueuedItem { size, work: Box::new(WorkItemWrapper::from(work_item)) }
    }

    /// The bytes that the item takes up in its block.
    pub(crate) fn footprint(&self) -> (size: usize)
        ensures
            size == self.size(),
    {
        self.size
    }

    /// Execute the work item, and drop what is left of it.
    pub fn execute(self)
        requires
            self.runnable(),
        ensures
            self.completed(),
    {
        let mut work = self.work;
        work.execute();
    }
}

} // verus!
