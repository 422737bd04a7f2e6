//! The handle registry: a stable-identity store mapping an opaque handle to
//! a stored value.
//!
//! `insert` returns a fresh handle, `remove` and `get` take a handle back.
//! The registry has no ordering semantics of its own; its one job is that a
//! handle denotes exactly one live value, or is dead.  Removal of a dead
//! handle is a silent no-op, so duplicate teardown paths are safe.
//!
//! Identifiers come from a monotone counter, so a removed handle is never
//! reissued, and the identifier order is the insertion order.

use vstd::prelude::*;

use crate::handle::{
    Handle, find_id, has_id, lemma_lookup_at, lemma_lookup_push, lemma_lookup_remove, lookup,
    unique_handles,
};

verus! {

/// A stable-identity store of values keyed by [`Handle`].
pub struct HandleRegistry<V> {
    entries: Vec<(Handle, V)>,
    next_id: u64,
}

impl<V> HandleRegistry<V> {
    /// The live entries, in insertion order.
    pub closed spec fn view(self) -> Seq<(Handle, V)> {
        self.entries@
    }

    /// The identifier the next insertion will use.  Every live handle's
    /// identifier is below it.
    pub closed spec fn next_id_spec(self) -> u64 {
        self.next_id
    }

    /// Well-formed: handles are unique and all below the counter.
    pub open spec fn wf(self) -> bool {
        &&& unique_handles(self@)
        &&& forall|i: int| 0 <= i < self@.len() ==> (#[trigger] self@[i]).0@ < self.next_id_spec()
    }

    /// Is `h` live in this registry?
    pub open spec fn spec_contains(self, h: Handle) -> bool {
        has_id(self@, h)
    }

    /// The value stored under `h` (meaningful when `spec_contains(h)`).
    pub open spec fn spec_value(self, h: Handle) -> V {
        lookup(self@, h)
    }

    /// An empty registry.
    pub fn new() -> (r: Self)
        ensures
            r.wf(),
            r@ == Seq::<(Handle, V)>::empty(),
            r.next_id_spec() == 0,
    {
        HandleRegistry { entries: Vec::new(), next_id: 0 }
    }

    /// Stores `value` and returns a fresh handle for it.
    ///
    /// The handle is unique among all handles this registry ever issued: its
    /// identifier equals the old counter value, which every previously issued
    /// identifier is below.
    pub fn insert(&mut self, value: V) -> (h: Handle)
        requires
            old(self).wf(),
            old(self).next_id_spec() < u64::MAX,
        ensures
            final (self).wf(),
            h@ == old(self).next_id_spec(),
            final (self).next_id_spec() == old(self).next_id_spec() + 1,
            final (self)@ == old(self)@.push((h, value)),
            !old(self).spec_contains(h),
    {
        let h = Handle::from_id(self.next_id);
        self.next_id = self.next_id + 1;
        self.entries.push((h, value));
        proof {
            assert(!has_id(old(self)@, h));
            lemma_lookup_push(old(self)@, h, value);
        }
        h
    }

    /// Is there room for another identifier?
    pub fn has_room(&self) -> (r: bool)
        ensures
            r == (self.next_id_spec() < u64::MAX),
    {
        self.next_id < u64::MAX
    }

    /// The index of `h` in the entry list, if it is live.
    fn position_of(&self, h: Handle) -> (r: Option<usize>)
        ensures
            match r {
                Some(i) => i < self@.len() && self@[i as int].0 == h,
                None => !self.spec_contains(h),
            },
    {
        let n = self.entries.len();
        let mut i: usize = 0;
        while i < n
            invariant
                n == self@.len(),
                i <= n,
                forall|j: int| 0 <= j < i ==> (#[trigger] self@[j]).0 != h,
            decreases n - i,
        {
            if self.entries[i].0 == h {
                return Some(i);
            }
            i = i + 1;
        }
        None
    }

    /// Removes `h` and returns its value; a dead handle is a silent no-op
    /// returning nothing, so removal is idempotent.
    pub fn remove(&mut self, h: Handle) -> (r: Option<V>)
        requires
            old(self).wf(),
        ensures
            final (self).wf(),
            final (self).next_id_spec() == old(self).next_id_spec(),
            old(self).spec_contains(h) ==> {
                &&& r == Some(old(self).spec_value(h))
                &&& final (self)@ == old(self)@.remove(find_id(old(self)@, h))
            },
            !old(self).spec_contains(h) ==> r == None::<V> && *final (self) == *old(self),
    {
        match self.position_of(h) {
            Some(i) => {
                let (_, v) = self.entries.remove(i);
                proof {
                    lemma_lookup_at(old(self)@, h, i as int);
                    lemma_lookup_remove(old(self)@, i as int);
                    old(self)@.remove_ensures(i as int);
                }
                Some(v)
            },
            None => None,
        }
    }

    /// Looks the value of `h` up without removing it.
    pub fn get(&self, h: Handle) -> (r: Option<&V>)
        requires
            self.wf(),
        ensures
            match r {
                Some(v) => self.spec_contains(h) && *v == self.spec_value(h),
                None => !self.spec_contains(h),
            },
    {
        match self.position_of(h) {
            Some(i) => {
                proof {
                    lemma_lookup_at(self@, h, i as int);
                }
                Some(&self.entries[i].1)
            },
            None => None,
        }
    }
}

} // verus!
