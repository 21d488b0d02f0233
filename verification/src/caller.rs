//! Calls that are made once each, and recorded.
//!
//! A [`Caller`] holds a value and calls functions on it. It knows nothing else of the value, so
//! it can do nothing with it but what it is handed, and a function that is handed over as
//! `FnOnce` can be called once only: what the record says is what was called, call by call.
use vstd::prelude::*;

verus! {

/// A value, with the record of the functions that were called on it.
#[verifier::reject_recursive_types(S)]
pub struct Caller<S> {
    subject: S,
    calls: Ghost<Seq<spec_fn(S) -> bool>>,
}

impl<S> Caller<S> {
    /// The value.
    pub closed spec fn subject(&self) -> S {
        self.subject
    }

    /// The functions that were called on the value, in order, one entry for each call: what the
    /// function that was called ensures, of any value that it may be called on.
    pub closed spec fn calls(&self) -> Seq<spec_fn(S) -> bool> {
        self.calls@
    }

    /// The record that is spoken of is the one that is kept.
    proof fn law_record_is_kept(&self)
        ensures
            self.calls() == self.calls@,
            self.subject() == self.subject,
    {
    }

    /// A value that nothing was called on yet.
    pub fn new(subject: S) -> (caller: Self)
        ensures
            caller.subject() == subject,
            caller.calls() == Seq::<spec_fn(S) -> bool>::empty(),
        opens_invariants none
        no_unwind
    {
        Caller { subject, calls: Ghost(Seq::empty()) }
    }

    /// Call `f` on the value, once.
    pub fn call<F: FnOnce(&S)>(&mut self, f: F)
        requires
            call_requires(f, (&old(self).subject(),)),
        ensures
            final(self).subject() == old(self).subject(),
            final(self).calls() == old(self).calls().push(|s: S| call_ensures(f, (&s,), ())),
            call_ensures(f, (&old(self).subject(),), ()),
    {
        proof {
            self.calls@ = self.calls@.push(|s: S| call_ensures(f, (&s,), ()));
        }
        f(&self.subject);
    }
}

} // verus!
