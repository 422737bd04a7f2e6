//! Stable request handles, and the spec-level vocabulary for sequences of
//! handle-keyed entries.
//!
//! A [`Handle`] is an opaque identifier handed out by the handle registry when
//! a request is inserted.  Identifiers are issued from a monotone counter, so
//! a handle is unique among all handles the registry ever issued and is never
//! reused once removed.  The numeric identifier doubles as an insertion
//! timestamp: of two handles, the one with the greater identifier was issued
//! later.
//!
//! Both the registry and the priority index are, in specification terms,
//! sequences of `(Handle, _)` pairs, so the lookup vocabulary over such
//! sequences (`has_id`, `find_id`, `lookup`, `unique_handles`) lives here,
//! together with the lemmas that say lookups are stable under pushing,
//! inserting and removing entries with other handles.

use vstd::prelude::*;

verus! {

/// An opaque, unique identifier for a stored request.
///
/// `h@` is the numeric identifier; handles issued later have greater `h@`.
#[derive(Clone, Copy, PartialEq, Eq, Structural, Debug)]
pub struct Handle {
    id: u64,
}

impl View for Handle {
    type V = u64;

    closed spec fn view(&self) -> u64 {
        self.id
    }
}

impl Handle {
    /// Wraps a raw identifier.  Only the registry creates handles; everyone
    /// else receives them from it.
    pub(crate) fn from_id(id: u64) -> (h: Handle)
        ensures
            h@ == id,
    {
        Handle { id }
    }
}

/// Does some entry of `s` carry the handle `h`?
pub open spec fn has_id<T>(s: Seq<(Handle, T)>, h: Handle) -> bool {
    exists|i: int| 0 <= i < s.len() && (#[trigger] s[i]).0 == h
}

/// The index of the entry carrying `h` (meaningful when `has_id(s, h)` and
/// the handles of `s` are unique).
pub open spec fn find_id<T>(s: Seq<(Handle, T)>, h: Handle) -> int {
    choose|i: int| 0 <= i < s.len() && (#[trigger] s[i]).0 == h
}

/// The payload stored beside `h` (meaningful under the same conditions).
pub open spec fn lookup<T>(s: Seq<(Handle, T)>, h: Handle) -> T {
    s[find_id(s, h)].1
}

/// No two entries of `s` carry the same handle.
pub open spec fn unique_handles<T>(s: Seq<(Handle, T)>) -> bool {
    forall|i: int, j: int| 0 <= i < j < s.len() ==> (#[trigger] s[i]).0 != (#[trigger] s[j]).0
}

/// `find_id` really finds the handle it was asked for.
pub proof fn lemma_find_id<T>(s: Seq<(Handle, T)>, h: Handle)
    requires
        has_id(s, h),
    ensures
        0 <= find_id(s, h) < s.len(),
        s[find_id(s, h)].0 == h,
{
}

/// With unique handles, an entry observed at index `i` pins down `find_id`
/// and `lookup`.
pub proof fn lemma_lookup_at<T>(s: Seq<(Handle, T)>, h: Handle, i: int)
    requires
        unique_handles(s),
        0 <= i < s.len(),
        s[i].0 == h,
    ensures
        has_id(s, h),
        find_id(s, h) == i,
        lookup(s, h) == s[i].1,
{
    assert(has_id(s, h));
    lemma_find_id(s, h);
}

/// Inserting a fresh entry `(h, t)` at position `pos` leaves every other
/// handle's presence and payload unchanged, and stores `t` under `h`.
pub proof fn lemma_lookup_insert<T>(s: Seq<(Handle, T)>, pos: int, h: Handle, t: T)
    requires
        unique_handles(s),
        !has_id(s, h),
        0 <= pos <= s.len(),
    ensures
        unique_handles(s.insert(pos, (h, t))),
        has_id(s.insert(pos, (h, t)), h),
        lookup(s.insert(pos, (h, t)), h) == t,
        forall|g: Handle| g != h ==> #[trigger] has_id(s.insert(pos, (h, t)), g) == has_id(s, g),
        forall|g: Handle|
            g != h && has_id(s, g) ==> #[trigger] lookup(s.insert(pos, (h, t)), g) == lookup(s, g),
{
    let s2 = s.insert(pos, (h, t));
    s.insert_ensures(pos, (h, t));
    assert forall|i: int, j: int| 0 <= i < j < s2.len() implies (#[trigger] s2[i]).0 != (
    #[trigger] s2[j]).0 by {
        let oi: int = if i < pos { i } else { i - 1 };
        let oj: int = if j < pos { j } else { j - 1 };
        if i == pos {
            assert(s2[j] == s[oj]);
            assert(s[oj].0 != h);
        } else if j == pos {
            assert(s2[i] == s[oi]);
            assert(s[oi].0 != h);
        } else {
            assert(s2[i] == s[oi]);
            assert(s2[j] == s[oj]);
        }
    }
    lemma_lookup_at(s2, h, pos);
    assert forall|g: Handle| g != h implies #[trigger] has_id(s2, g) == has_id(s, g) by {
        if has_id(s, g) {
            let i = find_id(s, g);
            lemma_find_id(s, g);
            let ni: int = if i < pos { i } else { i + 1 };
            assert(s2[ni] == s[i]);
            assert(has_id(s2, g));
        }
        if has_id(s2, g) {
            let i = find_id(s2, g);
            lemma_find_id(s2, g);
            let oi: int = if i < pos { i } else { i - 1 };
            assert(s2[i] == s[oi]);
            assert(has_id(s, g));
        }
    }
    assert forall|g: Handle| g != h && has_id(s, g) implies #[trigger] lookup(s2, g) == lookup(
        s,
        g,
    ) by {
        let i = find_id(s, g);
        lemma_find_id(s, g);
        let ni: int = if i < pos { i } else { i + 1 };
        assert(s2[ni] == s[i]);
        lemma_lookup_at(s2, g, ni);
        lemma_lookup_at(s, g, i);
    }
}

/// Pushing a fresh entry is inserting it at the end.
pub proof fn lemma_lookup_push<T>(s: Seq<(Handle, T)>, h: Handle, t: T)
    requires
        unique_handles(s),
        !has_id(s, h),
    ensures
        unique_handles(s.push((h, t))),
        has_id(s.push((h, t)), h),
        lookup(s.push((h, t)), h) == t,
        forall|g: Handle| g != h ==> #[trigger] has_id(s.push((h, t)), g) == has_id(s, g),
        forall|g: Handle|
            g != h && has_id(s, g) ==> #[trigger] lookup(s.push((h, t)), g) == lookup(s, g),
{
    assert(s.push((h, t)) =~= s.insert(s.len() as int, (h, t)));
    lemma_lookup_insert(s, s.len() as int, h, t);
}

/// Removing the entry at index `i` erases its handle and leaves every other
/// handle's presence and payload unchanged.
pub proof fn lemma_lookup_remove<T>(s: Seq<(Handle, T)>, i: int)
    requires
        unique_handles(s),
        0 <= i < s.len(),
    ensures
        unique_handles(s.remove(i)),
        !has_id(s.remove(i), s[i].0),
        forall|g: Handle| g != s[i].0 ==> #[trigger] has_id(s.remove(i), g) == has_id(s, g),
        forall|g: Handle|
            g != s[i].0 && has_id(s, g) ==> #[trigger] lookup(s.remove(i), g) == lookup(s, g),
{
    let s2 = s.remove(i);
    let h = s[i].0;
    s.remove_ensures(i);
    assert forall|a: int, b: int| 0 <= a < b < s2.len() implies (#[trigger] s2[a]).0 != (
    #[trigger] s2[b]).0 by {
        let oa: int = if a < i { a } else { a + 1 };
        let ob: int = if b < i { b } else { b + 1 };
        assert(s2[a] == s[oa]);
        assert(s2[b] == s[ob]);
    }
    assert forall|a: int| 0 <= a < s2.len() implies (#[trigger] s2[a]).0 != h by {
        let oa: int = if a < i { a } else { a + 1 };
        assert(s2[a] == s[oa]);
    }
    assert forall|g: Handle| g != h implies #[trigger] has_id(s2, g) == has_id(s, g) by {
        if has_id(s, g) {
            let j = find_id(s, g);
            lemma_find_id(s, g);
            let nj: int = if j < i { j } else { j - 1 };
            assert(s2[nj] == s[j]);
            assert(has_id(s2, g));
        }
        if has_id(s2, g) {
            let j = find_id(s2, g);
            lemma_find_id(s2, g);
            let oj: int = if j < i { j } else { j + 1 };
            assert(s2[j] == s[oj]);
            assert(has_id(s, g));
        }
    }
    assert forall|g: Handle| g != h && has_id(s, g) implies #[trigger] lookup(s2, g) == lookup(
        s,
        g,
    ) by {
        let j = find_id(s, g);
        lemma_find_id(s, g);
        let nj: int = if j < i { j } else { j - 1 };
        assert(s2[nj] == s[j]);
        lemma_lookup_at(s2, g, nj);
        lemma_lookup_at(s, g, j);
    }
}

} // verus!
