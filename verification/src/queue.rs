//! A holder that pairs a frequency map with the caller's weighing
//! function, remembering whether the weight has been taken.

use std::collections::HashMap;
use vstd::prelude::*;

verus! {

/// The contents and the caller's weighing function over them.
pub struct Queue<F> where F: Fn(HashMap<u32, u32>) -> u32 {
    sort_key: F,
    contents: HashMap<u32, u32>,
    sorted: bool,
}

impl<F: Fn(HashMap<u32, u32>) -> u32> Queue<F> {
    /// The weighing function the queue was built with.
    pub closed spec fn key_spec(self) -> F {
        self.sort_key
    }

    /// What the queue holds.
    pub closed spec fn contents_view(self) -> Map<u32, u32> {
        self.contents@
    }

    /// Whether the weight has been taken since construction.
    pub closed spec fn sorted_spec(self) -> bool {
        self.sorted
    }

    pub fn new(f: F, data: HashMap<u32, u32>) -> (q: Queue<F>)
        ensures
            q.key_spec() == f,
            q.contents_view() == data@,
            !q.sorted_spec(),
    {
        Queue { sort_key: f, contents: data, sorted: false }
    }

    /// Applies the weighing function to a copy of the contents and marks
    /// the queue as weighed; the result is whatever the function promises
    /// of a map with these contents.
    pub fn count(&mut self) -> (c: u32)
        requires
            forall|m: HashMap<u32, u32>|
                m@ == old(self).contents_view() ==> #[trigger] call_requires(
                    old(self).key_spec(),
                    (m,),
                ),
        ensures
            final(self).sorted_spec(),
            final(self).contents_view() == old(self).contents_view(),
            final(self).key_spec() == old(self).key_spec(),
            exists|m: HashMap<u32, u32>|
                m@ == old(self).contents_view() && #[trigger] call_ensures(
                    old(self).key_spec(),
                    (m,),
                    c,
                ),
    {
        self.sorted = true;
        let cloned = self.contents.clone();
        (self.sort_key)(cloned)
    }
}

} // verus!
