//! A double-ended queue that holds nothing, not even an empty buffer, until something is put in.
use std::collections::VecDeque;
use vstd::prelude::*;

verus! {

/// A double-ended queue.
pub struct Deque<T>(Option<VecDeque<T>>);

impl<T> View for Deque<T> {
    type V = Seq<T>;

    closed spec fn view(&self) -> Seq<T> {
        match self.0 {
            Some(elements) => elements@,
            None => Seq::empty(),
        }
    }
}

impl<T> Deque<T> {
    /// An empty queue.
    pub fn new() -> (deque: Self)
        ensures
            deque@ == Seq::<T>::empty(),
        opens_invariants none
        no_unwind
    {
        Deque(None)
    }

    /// The number of elements.
    pub fn len(&self) -> (len: usize)
        ensures
            len == self@.len(),
    {
        match &self.0 {
            Some(elements) => elements.len(),
            None => 0,
        }
    }

    /// The element at index `i`.
    pub fn at(&self, i: usize) -> (element: &T)
        requires
            i < self@.len(),
        ensures
            *element == self@[i as int],
    {
        match &self.0 {
            Some(elements) => &elements[i],
            None => vstd::pervasive::unreached(),
        }
    }

    /// Put an element behind the last one.
    pub fn push_back(&mut self, element: T)
        ensures
            final(self)@ == old(self)@.push(element),
    {
        let mut elements = self.take();
        elements.push_back(element);
        self.0 = Some(elements);
    }

    /// Put an element in front of the first one.
    pub fn push_front(&mut self, element: T)
        ensures
            final(self)@ == seq![element] + old(self)@,
    {
        let mut elements = self.take();
        elements.push_front(element);
        self.0 = Some(elements);
    }

    /// Take the first element out.
    pub fn pop_front(&mut self) -> (element: Option<T>)
        ensures
            match element {
                Some(element) => {
                    &&& old(self)@.len() > 0
                    &&& element == old(self)@[0]
                    &&& final(self)@ == old(self)@.drop_first()
                },
                None => {
                    &&& old(self)@.len() == 0
                    &&& final(self)@ == old(self)@
                },
            },
    {
        let mut elements = self.take();
        let element = elements.pop_front();
        self.0 = Some(elements);
        assert(old(self)@.len() > 0 ==> self@ =~= old(self)@.drop_first());
        element
    }

    /// Take the element at index `i` out.
    pub fn remove(&mut self, i: usize) -> (element: Option<T>)
        ensures
            match element {
                Some(element) => {
                    &&& i < old(self)@.len()
                    &&& element == old(self)@[i as int]
                    &&& final(self)@ == old(self)@.remove(i as int)
                },
                None => {
                    &&& i >= old(self)@.len()
                    &&& final(self)@ == old(self)@
                },
            },
    {
        let mut elements = self.take();
        let element = elements.remove(i);
        self.0 = Some(elements);
        assert(i < old(self)@.len() ==> self@ =~= old(self)@.remove(i as int));
        element
    }

    /// Take the buffer out for a moment.
    fn take(&mut self) -> (elements: VecDeque<T>)
        ensures
            elements@ == old(self)@,
    {
        match self.0.take() {
            Some(elements) => elements,
            None => VecDeque::new(),
        }
    }
}

} // verus!
