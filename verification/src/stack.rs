//! The priority stack: the composition of the handle registry and the
//! priority index that the rest of the system talks to.
//!
//! `insert_prioritized` stores a value under a fresh handle and files the
//! handle by priority; `remove` undoes one insertion and is a silent no-op
//! on a dead handle; `peek_top` returns the value with the greatest
//! priority, ties broken toward the most recent insertion.  The two
//! containers are kept in lock-step: a handle is in the index exactly when
//! it is in the registry.

use vstd::prelude::*;

use crate::handle::{Handle, find_id, has_id, lemma_find_id, lemma_lookup_at};
use crate::index::{PriorityIndex, insertion_point, lemma_insertion_point};
use crate::registry::HandleRegistry;

verus! {

/// A store of prioritized values with stable handles and an O(1)
/// highest-priority query.
pub struct PriorityStack<V> {
    registry: HandleRegistry<V>,
    index: PriorityIndex,
}

impl<V> PriorityStack<V> {
    /// Well-formed: both containers are, they hold the same handles, every
    /// handle is below the issue counter, and within one priority the index
    /// runs in issue (that is, insertion) order.
    pub closed spec fn wf(self) -> bool {
        &&& self.registry.wf()
        &&& self.index.wf()
        &&& forall|h: Handle|
            #[trigger] self.registry.spec_contains(h) ==> self.index.spec_contains(h)
        &&& forall|h: Handle|
            #[trigger] self.index.spec_contains(h) ==> self.registry.spec_contains(h)
        &&& forall|i: int|
            0 <= i < self.index@.len() ==> (#[trigger] self.index@[i]).0@
                < self.registry.next_id_spec()
        &&& forall|i: int, j: int|
            0 <= i < j < self.index@.len() && (#[trigger] self.index@[i]).1 == (
            #[trigger] self.index@[j]).1 ==> self.index@[i].0@ < self.index@[j].0@
    }

    /// Is `h` a live handle of this stack?
    pub closed spec fn spec_contains(self, h: Handle) -> bool {
        self.registry.spec_contains(h)
    }

    /// The value stored under `h` (meaningful when `spec_contains(h)`).
    pub closed spec fn spec_value(self, h: Handle) -> V {
        self.registry.spec_value(h)
    }

    /// The priority stored under `h` (meaningful when `spec_contains(h)`).
    pub closed spec fn spec_priority(self, h: Handle) -> usize {
        self.index.spec_priority(h)
    }

    /// How many requests are live.
    pub closed spec fn spec_len(self) -> nat {
        self.index@.len()
    }

    /// The identifier the next insertion will use.  Identifiers are issued
    /// in increasing order, so they order insertions by recency.
    pub closed spec fn stamp(self) -> u64 {
        self.registry.next_id_spec()
    }

    /// Is there room for another handle?
    pub open spec fn can_issue(self) -> bool {
        self.stamp() < u64::MAX
    }

    /// The handle `peek_top` goes by (meaningful when the stack is
    /// non-empty).
    pub closed spec fn top_of(self) -> Handle {
        self.index@.last().0
    }

    /// `h` beats every live request: any other live request has a strictly
    /// smaller priority, or the same priority and an earlier insertion.
    pub open spec fn is_top(self, h: Handle) -> bool {
        &&& self.spec_contains(h)
        &&& forall|g: Handle|
            #[trigger] self.spec_contains(g) ==> self.spec_priority(g) < self.spec_priority(h) || (
            self.spec_priority(g) == self.spec_priority(h) && g@ <= h@)
    }

    /// An empty stack.
    pub fn new() -> (s: Self)
        ensures
            s.wf(),
            s.spec_len() == 0,
            s.stamp() == 0,
            forall|h: Handle| !(#[trigger] s.spec_contains(h)),
    {
        PriorityStack { registry: HandleRegistry::new(), index: PriorityIndex::new() }
    }

    /// Is there room for another handle?  (The identifier space is 64-bit,
    /// so in practice there always is.)
    pub fn has_room(&self) -> (r: bool)
        ensures
            r == self.can_issue(),
    {
        self.registry.has_room()
    }

    /// Stores `value` with `priority` in both containers and returns the
    /// fresh handle; the handle is newer than every live handle, so among
    /// equal priorities the new request wins.
    pub fn insert_prioritized(&mut self, priority: usize, value: V) -> (h: Handle)
        requires
            old(self).wf(),
            old(self).can_issue(),
        ensures
            final (self).wf(),
            h@ == old(self).stamp(),
            final (self).stamp() == old(self).stamp() + 1,
            !old(self).spec_contains(h),
            forall|g: Handle| #[trigger] old(self).spec_contains(g) ==> g@ < h@,
            final (self).spec_contains(h),
            final (self).spec_priority(h) == priority,
            final (self).spec_value(h) == value,
            forall|g: Handle|
                g != h ==> (#[trigger] final (self).spec_contains(g) <==> old(self).spec_contains(
                    g,
                )),
            forall|g: Handle|
                g != h && #[trigger] old(self).spec_contains(g) ==> final (self).spec_priority(g)
                    == old(self).spec_priority(g) && final (self).spec_value(g) == old(
                self).spec_value(g),
            final (self).spec_len() == old(self).spec_len() + 1,
    {
        proof {
            assert forall|g: Handle| #[trigger] old(self).spec_contains(g) implies g@ < old(
                self,
            ).stamp() by {
                let i = find_id(self.registry@, g);
                lemma_find_id(self.registry@, g);
            }
        }
        let h = self.registry.insert(value);
        proof {
            if self.index.spec_contains(h) {
                let i = find_id(self.index@, h);
                lemma_find_id(self.index@, h);
            }
            crate::handle::lemma_lookup_push(old(self).registry@, h, value);
        }
        self.index.insert(h, priority);
        proof {
            let oreg = old(self).registry@;
            let oidx = old(self).index@;
            let pos = insertion_point(oidx, priority);
            lemma_insertion_point(oidx, priority);
            crate::handle::lemma_lookup_insert(oidx, pos, h, priority);
            oidx.insert_ensures(pos, (h, priority));
            let nidx = self.index@;
            let nreg = self.registry@;
            assert(nidx == oidx.insert(pos, (h, priority)));
            assert(nreg == oreg.push((h, value)));
            assert forall|g: Handle|
                g != h && old(self).spec_contains(g) implies self.spec_priority(g) == old(
                self,
            ).spec_priority(g) && self.spec_value(g) == old(self).spec_value(g) by {
                assert(crate::handle::lookup(oidx.insert(pos, (h, priority)), g) == crate
                    ::handle::lookup(oidx, g));
                assert(crate::handle::lookup(oreg.push((h, value)), g) == crate::handle::lookup(
                    oreg,
                    g,
                ));
            }
            assert forall|g: Handle|
                g != h implies (self.registry.spec_contains(g) <==> old(
                self,
            ).registry.spec_contains(g)) && (self.index.spec_contains(g) <==> old(
                self,
            ).index.spec_contains(g)) by {
                assert(has_id(oidx.insert(pos, (h, priority)), g) == has_id(oidx, g));
                assert(has_id(oreg.push((h, value)), g) == has_id(oreg, g));
            }
            assert(self.registry.spec_contains(h));
            assert(self.index.spec_contains(h));
            assert forall|i: int, j: int|
                0 <= i < j < nidx.len() && (#[trigger] nidx[i]).1 == (
                #[trigger] nidx[j]).1 implies nidx[i].0@ < nidx[j].0@ by {
                let oi: int = if i < pos { i } else { i - 1 };
                let oj: int = if j < pos { j } else { j - 1 };
                if i == pos {
                    assert(nidx[j] == oidx[oj]);
                    assert(oidx[oj].1 > priority);
                } else if j == pos {
                    assert(nidx[i] == oidx[oi]);
                    assert(oidx[oi].1 <= priority);
                    assert(oidx[oi].0@ < old(self).stamp());
                } else {
                    assert(nidx[i] == oidx[oi]);
                    assert(nidx[j] == oidx[oj]);
                }
            }
            assert forall|i: int| 0 <= i < nidx.len() implies (#[trigger] nidx[i]).0@ < self.stamp()
                by {
                let oi: int = if i < pos { i } else { i - 1 };
                if i != pos {
                    assert(nidx[i] == oidx[oi]);
                }
            }
        }
        h
    }

    /// Removes the request under `h` from both containers and returns its
    /// value.  A dead handle — including one already removed — is a silent
    /// no-op returning nothing and leaving the stack untouched, so removal
    /// is idempotent.
    pub fn remove(&mut self, h: Handle) -> (r: Option<V>)
        requires
            old(self).wf(),
        ensures
            final (self).wf(),
            final (self).stamp() == old(self).stamp(),
            old(self).spec_contains(h) ==> {
                &&& r == Some(old(self).spec_value(h))
                &&& !final (self).spec_contains(h)
                &&& final (self).spec_len() == old(self).spec_len() - 1
            },
            !old(self).spec_contains(h) ==> r == None::<V> && *final (self) == *old(self),
            forall|g: Handle|
                g != h ==> (#[trigger] final (self).spec_contains(g) <==> old(self).spec_contains(
                    g,
                )),
            forall|g: Handle|
                g != h && #[trigger] old(self).spec_contains(g) ==> final (self).spec_priority(g)
                    == old(self).spec_priority(g) && final (self).spec_value(g) == old(
                self).spec_value(g),
    {
        let r = self.registry.remove(h);
        proof {
            let oreg = old(self).registry@;
            if old(self).spec_contains(h) {
                let i = find_id(oreg, h);
                lemma_find_id(oreg, h);
                crate::handle::lemma_lookup_remove(oreg, i);
            }
        }
        self.index.remove(h);
        proof {
            let oreg = old(self).registry@;
            let oidx = old(self).index@;
            if old(self).index.spec_contains(h) {
                let i = find_id(oidx, h);
                let k = find_id(oreg, h);
                lemma_find_id(oidx, h);
                lemma_find_id(oreg, h);
                crate::handle::lemma_lookup_remove(oidx, i);
                oidx.remove_ensures(i);
                let nidx = self.index@;
                let nreg = self.registry@;
                assert(nidx == oidx.remove(i));
                assert(nreg == oreg.remove(k));
                assert forall|g: Handle|
                    g != h && old(self).spec_contains(g) implies self.spec_priority(g) == old(
                    self,
                ).spec_priority(g) && self.spec_value(g) == old(self).spec_value(g) by {
                    assert(crate::handle::lookup(oidx.remove(i), g) == crate::handle::lookup(
                        oidx,
                        g,
                    ));
                    assert(crate::handle::lookup(oreg.remove(k), g) == crate::handle::lookup(
                        oreg,
                        g,
                    ));
                }
                assert forall|g: Handle|
                    g != h implies (self.registry.spec_contains(g) <==> old(
                    self,
                ).registry.spec_contains(g)) && (self.index.spec_contains(g) <==> old(
                    self,
                ).index.spec_contains(g)) by {
                    assert(has_id(oidx.remove(i), g) == has_id(oidx, g));
                    assert(has_id(oreg.remove(k), g) == has_id(oreg, g));
                }
                assert(!self.registry.spec_contains(h));
                assert(!self.index.spec_contains(h));
                assert forall|a: int, b: int|
                    0 <= a < b < nidx.len() && (#[trigger] nidx[a]).1 == (
                    #[trigger] nidx[b]).1 implies nidx[a].0@ < nidx[b].0@ by {
                    let oa: int = if a < i { a } else { a + 1 };
                    let ob: int = if b < i { b } else { b + 1 };
                    assert(nidx[a] == oidx[oa]);
                    assert(nidx[b] == oidx[ob]);
                }
                assert forall|a: int| 0 <= a < nidx.len() implies (#[trigger] nidx[a]).0@
                    < self.stamp() by {
                    let oa: int = if a < i { a } else { a + 1 };
                    assert(nidx[a] == oidx[oa]);
                }
            } else {
                if old(self).spec_contains(h) {
                    assert(old(self).index.spec_contains(h));
                }
            }
        }
        r
    }

    /// The value shown to the user: the live request with the greatest
    /// priority, ties broken toward the most recent insertion.  Nothing only
    /// when the stack is completely empty.
    pub fn peek_top(&self) -> (r: Option<&V>)
        requires
            self.wf(),
        ensures
            match r {
                Some(v) => {
                    &&& self.spec_len() > 0
                    &&& self.is_top(self.top_of())
                    &&& *v == self.spec_value(self.top_of())
                },
                None => {
                    &&& self.spec_len() == 0
                    &&& forall|g: Handle| !(#[trigger] self.spec_contains(g))
                },
            },
    {
        match self.index.last() {
            Some(h) => {
                proof {
                    assert(has_id(self.index@, h)) by {
                        assert(self.index@[self.index@.len() - 1].0 == h);
                    }
                    assert(self.index.spec_contains(h));
                    assert(self.spec_contains(h));
                    lemma_top_is_max(*self);
                }
                let r = self.registry.get(h);
                proof {
                    assert(r is Some);
                }
                r
            },
            None => {
                proof {
                    assert forall|g: Handle| !(#[trigger] self.spec_contains(g)) by {
                        if self.index.spec_contains(g) {
                            lemma_find_id(self.index@, g);
                        }
                    }
                }
                None
            },
        }
    }
}

/// A stack holding a live handle is not empty.
pub proof fn lemma_contains_nonempty<V>(s: PriorityStack<V>, h: Handle)
    requires
        s.wf(),
        s.spec_contains(h),
    ensures
        s.spec_len() > 0,
{
    assert(s.index.spec_contains(h));
    lemma_find_id(s.index@, h);
}

/// The top invariant: in a well-formed, non-empty stack, the handle that
/// `peek_top` goes by beats every live request — any other live request has
/// a strictly smaller priority, or the same priority and an earlier
/// insertion.
pub proof fn lemma_top_is_max<V>(s: PriorityStack<V>)
    requires
        s.wf(),
        s.spec_len() > 0,
    ensures
        s.is_top(s.top_of()),
{
    let idx = s.index@;
    let n = idx.len() as int;
    let t = s.top_of();
    assert(idx[n - 1].0 == t);
    lemma_lookup_at(idx, t, n - 1);
    assert(s.index.spec_contains(t));
    assert(s.spec_contains(t));
    assert forall|g: Handle| #[trigger] s.spec_contains(g) implies s.spec_priority(g)
        < s.spec_priority(t) || (s.spec_priority(g) == s.spec_priority(t) && g@ <= t@) by {
        assert(s.index.spec_contains(g));
        let i = find_id(idx, g);
        lemma_find_id(idx, g);
        lemma_lookup_at(idx, g, i);
        if i < n - 1 {
            assert(idx[i].1 <= idx[n - 1].1);
            if idx[i].1 == idx[n - 1].1 {
                assert(idx[i].0@ < idx[n - 1].0@);
            }
        }
    }
}

} // verus!
