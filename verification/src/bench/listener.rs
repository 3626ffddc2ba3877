//! Callbacks, with an account of what they were called with.
use crate::bench::json::{Json, JsonView};
use vstd::prelude::*;

verus! {

/// A function that is told of records as they are made, and the records that it was told of.
/// Nothing but `tell` calls the function.
pub struct Listener<F> {
    function: F,
    heard: Ghost<Seq<JsonView>>,
}

/// Whether `function` may give `r` when it is told of the record `v`.
pub open spec fn replies<R, F: Fn(&Json) -> R>(function: F, v: JsonView, r: R) -> bool {
    exists|j: Json| j.view() == v && #[trigger] call_ensures(function, (&j,), r)
}

/// The calls that were made between two accounts of all calls.
pub open spec fn calls_between(before: Seq<JsonView>, after: Seq<JsonView>) -> Seq<JsonView> {
    after.skip(before.len() as int)
}

impl<F> Listener<F> {
    /// The function that is told of the records.
    pub closed spec fn function(&self) -> F {
        self.function
    }

    /// What the function was called with so far, call by call.
    pub closed spec fn heard(&self) -> Seq<JsonView> {
        self.heard@
    }

    /// A listener that was told of nothing yet.
    pub fn new(function: F) -> (l: Self)
        ensures
            l.function() == function,
            l.heard() == Seq::<JsonView>::empty(),
    {
        Listener { function, heard: Ghost(Seq::empty()) }
    }

    /// Call the function with `record`, once.
    pub fn tell<R>(&mut self, record: &Json) -> (r: R) where F: Fn(&Json) -> R
        requires
            call_requires(old(self).function(), (record,)),
        ensures
            final(self).function() == old(self).function(),
            final(self).heard() == old(self).heard().push(record.view()),
            replies(final(self).function(), record.view(), r),
    {
        let r = (self.function)(record);
        assert(call_ensures(self.function, (record,), r));
        self.heard = Ghost(self.heard@.push(record.view()));
        r
    }
}

} // verus!
