//! The priority index: an ordered, duplicate-free sequence of handles, kept
//! sorted by an associated priority key.
//!
//! Insertion preserves the sort and places a new entry *after* every entry
//! whose priority is less than or equal to the new one, so within one
//! priority the sequence runs in insertion order and the last entry of the
//! whole sequence is the highest-priority, most-recently-inserted handle.
//! `last` therefore answers the "top of stack" query in O(1); removal by
//! handle is a linear scan and a silent no-op when the handle is absent.

use vstd::prelude::*;

use crate::handle::{
    Handle, find_id, has_id, lemma_lookup_at, lemma_lookup_insert, lemma_lookup_remove, lookup,
    unique_handles,
};

verus! {

/// Is `s` sorted by priority, ascending?
pub open spec fn sorted_by_priority(s: Seq<(Handle, usize)>) -> bool {
    forall|i: int, j: int| 0 <= i < j < s.len() ==> (#[trigger] s[i]).1 <= (#[trigger] s[j]).1
}

/// The position where an entry of priority `p` is inserted: after every
/// entry of priority at most `p`, before the (in a sorted sequence: trailing)
/// entries of greater priority.
pub open spec fn insertion_point(s: Seq<(Handle, usize)>, p: usize) -> int
    decreases s.len(),
{
    if s.len() == 0 {
        0
    } else if s.last().1 > p {
        insertion_point(s.drop_last(), p)
    } else {
        s.len() as int
    }
}

/// What `insertion_point` gives on a sorted sequence: the split between the
/// entries of priority at most `p` and those of greater priority.
pub proof fn lemma_insertion_point(s: Seq<(Handle, usize)>, p: usize)
    requires
        sorted_by_priority(s),
    ensures
        0 <= insertion_point(s, p) <= s.len(),
        forall|i: int| 0 <= i < insertion_point(s, p) ==> (#[trigger] s[i]).1 <= p,
        forall|i: int| insertion_point(s, p) <= i < s.len() ==> (#[trigger] s[i]).1 > p,
    decreases s.len(),
{
    if s.len() == 0 {
    } else if s.last().1 > p {
        assert(sorted_by_priority(s.drop_last())) by {
            assert(forall|i: int, j: int|
                0 <= i < j < s.len() - 1 ==> (#[trigger] s.drop_last()[i]).1 <= (
                #[trigger] s.drop_last()[j]).1);
        }
        lemma_insertion_point(s.drop_last(), p);
        let pos = insertion_point(s, p);
        assert forall|i: int| pos <= i < s.len() implies (#[trigger] s[i]).1 > p by {
            if i < s.len() - 1 {
                assert(s[i] == s.drop_last()[i]);
            }
        }
        assert forall|i: int| 0 <= i < pos implies (#[trigger] s[i]).1 <= p by {
            assert(s[i] == s.drop_last()[i]);
        }
    } else {
        assert forall|i: int| 0 <= i < s.len() implies (#[trigger] s[i]).1 <= p by {
            if i < s.len() - 1 {
                assert(s[i].1 <= s[s.len() - 1].1);
            }
        }
    }
}

/// A duplicate-free sequence of handles sorted by priority.
pub struct PriorityIndex {
    entries: Vec<(Handle, usize)>,
}

impl PriorityIndex {
    /// The entries, sorted by priority ascending; within one priority, in
    /// insertion order.
    pub closed spec fn view(self) -> Seq<(Handle, usize)> {
        self.entries@
    }

    /// Well-formed: sorted by priority, no handle twice.
    pub open spec fn wf(self) -> bool {
        &&& sorted_by_priority(self@)
        &&& unique_handles(self@)
    }

    /// Is `h` present?
    pub open spec fn spec_contains(self, h: Handle) -> bool {
        has_id(self@, h)
    }

    /// The priority recorded for `h` (meaningful when `spec_contains(h)`).
    pub open spec fn spec_priority(self, h: Handle) -> usize {
        lookup(self@, h)
    }

    /// An empty index.
    pub fn new() -> (r: Self)
        ensures
            r.wf(),
            r@ == Seq::<(Handle, usize)>::empty(),
    {
        PriorityIndex { entries: Vec::new() }
    }

    /// Inserts `h` with priority `p`, keeping the sequence sorted and placing
    /// `h` after every entry of priority at most `p`.  Inserting a handle
    /// that is already present is a programming error, ruled out by contract.
    pub fn insert(&mut self, h: Handle, p: usize)
        requires
            old(self).wf(),
            !old(self).spec_contains(h),
        ensures
            final (self).wf(),
            final (self)@ == old(self)@.insert(insertion_point(old(self)@, p), (h, p)),
    {
        proof {
            lemma_insertion_point(self@, p);
            assert(self@.subrange(0, self@.len() as int) =~= self@);
        }
        let n = self.entries.len();
        let mut i: usize = n;
        while i > 0 && self.entries[i - 1].1 > p
            invariant
                i <= n,
                n == self@.len(),
                insertion_point(self@, p) == insertion_point(self@.subrange(0, i as int), p),
                forall|j: int| i <= j < n ==> (#[trigger] self@[j]).1 > p,
            decreases i,
        {
            proof {
                let pre = self@.subrange(0, i as int);
                assert(pre.last() == self@[i - 1]);
                assert(pre.drop_last() =~= self@.subrange(0, i - 1));
            }
            i = i - 1;
        }
        proof {
            let pre = self@.subrange(0, i as int);
            if i > 0 {
                assert(pre.last() == self@[i - 1]);
                assert(insertion_point(pre, p) == i);
            }
            assert(insertion_point(self@, p) == i);
            lemma_lookup_insert(self@, i as int, h, p);
            self@.insert_ensures(i as int, (h, p));
        }
        self.entries.insert(i, (h, p));
        proof {
            let s = old(self)@;
            let pos = insertion_point(s, p);
            let s2 = s.insert(pos, (h, p));
            s.insert_ensures(pos, (h, p));
            assert forall|a: int, b: int| 0 <= a < b < s2.len() implies (#[trigger] s2[a]).1 <= (
            #[trigger] s2[b]).1 by {
                let oa: int = if a < pos { a } else { a - 1 };
                let ob: int = if b < pos { b } else { b - 1 };
                if a == pos {
                    assert(s2[b] == s[ob]);
                } else if b == pos {
                    assert(s2[a] == s[oa]);
                } else {
                    assert(s2[a] == s[oa]);
                    assert(s2[b] == s[ob]);
                }
            }
        }
    }

    /// The index of `h` in the entry list, if present.
    fn position_of(&self, h: Handle) -> (r: Option<usize>)
        ensures
            match r {
                Some(i) => i < self@.len() && self@[i as int].0 == h,
                None => !self.spec_contains(h),
            },
    {
        let n = self.entries.len();
        let mut i: usize = 0;
        while i < n
            invariant
                n == self@.len(),
                i <= n,
                forall|j: int| 0 <= j < i ==> (#[trigger] self@[j]).0 != h,
            decreases n - i,
        {
            if self.entries[i].0 == h {
                return Some(i);
            }
            i = i + 1;
        }
        None
    }

    /// Removes `h` from the sequence; absent handles are a silent no-op.
    pub fn remove(&mut self, h: Handle)
        requires
            old(self).wf(),
        ensures
            final (self).wf(),
            old(self).spec_contains(h) ==> final (self)@ == old(self)@.remove(
                find_id(old(self)@, h),
            ),
            !old(self).spec_contains(h) ==> *final (self) == *old(self),
    {
        match self.position_of(h) {
            Some(i) => {
                self.entries.remove(i);
                proof {
                    let s = old(self)@;
                    lemma_lookup_at(s, h, i as int);
                    lemma_lookup_remove(s, i as int);
                    s.remove_ensures(i as int);
                    let s2 = s.remove(i as int);
                    assert forall|a: int, b: int|
                        0 <= a < b < s2.len() implies (#[trigger] s2[a]).1 <= (
                    #[trigger] s2[b]).1 by {
                        let oa: int = if a < i { a } else { a + 1 };
                        let ob: int = if b < i { b } else { b + 1 };
                        assert(s2[a] == s[oa]);
                        assert(s2[b] == s[ob]);
                    }
                }
            },
            None => {},
        }
    }

    /// The handle with the greatest priority, ties broken toward the most
    /// recent insertion; nothing when the index is empty.
    pub fn last(&self) -> (r: Option<Handle>)
        ensures
            match r {
                Some(h) => self@.len() > 0 && h == self@.last().0,
                None => self@.len() == 0,
            },
    {
        let n = self.entries.len();
        if n == 0 {
            None
        } else {
            Some(self.entries[n - 1].0)
        }
    }
}

} // verus!
