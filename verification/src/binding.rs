//! The event-to-push/pop binding, with per-widget request tracking and the
//! cursor-sink mirror.
//!
//! A widget (an entity of the host) declares, per interaction tier (hover or
//! click), which icon it wants shown and at which priority.  Four pointer
//! event kinds drive the stack: enter pushes the widget's hover request,
//! exit pops its most recent hover request, press and release do the same at
//! the click tier.  Destroying a widget force-pops everything it still owns.
//! After every change the top of the stack is mirrored into the displayed
//! icon, and each operation reports the icon the host's cursor sink must now
//! show, if it must act at all.
//!
//! Outstanding requests are tracked in one push-ordered journal of
//! `(entity, tier, handle)` records; a widget's per-tier request stack is
//! the journal filtered to that widget and tier, so pops unwind in reverse
//! push order, as nested enters on one widget require.
//!
//! A baseline request at priority zero is installed at initialization and is
//! never owned by any widget, so the stack is never empty and the displayed
//! icon falls back to the baseline icon whenever no widget-driven request is
//! active.

use vstd::prelude::*;

use crate::handle::Handle;
use crate::stack::{PriorityStack, lemma_contains_nonempty, lemma_top_is_max};

verus! {

/// An opaque cursor-icon identifier; the host maps it to a real icon.
#[derive(Clone, Copy, PartialEq, Eq, Structural, Debug)]
pub struct IconId(pub u64);

/// An opaque widget (entity) identifier supplied by the host.
#[derive(Clone, Copy, PartialEq, Eq, Structural, Debug)]
pub struct EntityId(pub u64);

/// The interaction category a request belongs to.  Each tier has its own
/// push/pop stack per widget; all requests share one priority stack for
/// display resolution.
#[derive(Clone, Copy, PartialEq, Eq, Structural, Debug)]
pub enum Tier {
    Hover,
    Click,
}

/// The four pointer event kinds the host delivers, each carrying the target
/// entity.
#[derive(Clone, Copy, PartialEq, Eq, Structural, Debug)]
pub enum PointerEvent {
    Enter(EntityId),
    Exit(EntityId),
    Press(EntityId),
    Release(EntityId),
}

/// A declared icon preference: entity `entity` wants `icon` at `priority`
/// while interacting at `tier`.
#[derive(Clone, Copy)]
struct PrefRec {
    entity: EntityId,
    tier: Tier,
    icon: IconId,
    priority: usize,
}

/// One outstanding request: `entity` owns `handle` at `tier`.
#[derive(Clone, Copy)]
struct OwnedRec {
    entity: EntityId,
    tier: Tier,
    handle: Handle,
}

spec fn rec_matches(r: OwnedRec, e: EntityId, t: Tier) -> bool {
    r.entity == e && r.tier == t
}

/// The handles of the journal entries for `(e, t)`, in push order.
spec fn tier_handles(s: Seq<OwnedRec>, e: EntityId, t: Tier) -> Seq<Handle>
    decreases s.len(),
{
    if s.len() == 0 {
        Seq::empty()
    } else {
        let rest = tier_handles(s.drop_last(), e, t);
        if rec_matches(s.last(), e, t) {
            rest.push(s.last().handle)
        } else {
            rest
        }
    }
}

/// How many journal entries belong to `e`, over both tiers.
spec fn entity_count(s: Seq<OwnedRec>, e: EntityId) -> nat
    decreases s.len(),
{
    if s.len() == 0 {
        0
    } else {
        entity_count(s.drop_last(), e) + if s.last().entity == e {
            1nat
        } else {
            0nat
        }
    }
}

spec fn has_rec(s: Seq<OwnedRec>, h: Handle) -> bool {
    exists|i: int| 0 <= i < s.len() && (#[trigger] s[i]).handle == h
}

spec fn has_rec_for(s: Seq<OwnedRec>, e: EntityId, h: Handle) -> bool {
    exists|i: int| 0 <= i < s.len() && (#[trigger] s[i]).entity == e && s[i].handle == h
}

spec fn unique_rec_handles(s: Seq<OwnedRec>) -> bool {
    forall|i: int, j: int|
        0 <= i < j < s.len() ==> (#[trigger] s[i]).handle != (#[trigger] s[j]).handle
}

proof fn lemma_tier_push(s: Seq<OwnedRec>, r: OwnedRec, e: EntityId, t: Tier)
    ensures
        tier_handles(s.push(r), e, t) == if rec_matches(r, e, t) {
            tier_handles(s, e, t).push(r.handle)
        } else {
            tier_handles(s, e, t)
        },
{
    assert(s.push(r).drop_last() =~= s);
    assert(s.push(r).last() == r);
}

proof fn lemma_tier_add(a: Seq<OwnedRec>, b: Seq<OwnedRec>, e: EntityId, t: Tier)
    ensures
        tier_handles(a + b, e, t) == tier_handles(a, e, t) + tier_handles(b, e, t),
    decreases b.len(),
{
    if b.len() == 0 {
        assert(a + b =~= a);
        assert(tier_handles(b, e, t) =~= Seq::<Handle>::empty());
        assert(tier_handles(a, e, t) + tier_handles(b, e, t) =~= tier_handles(a, e, t));
    } else {
        Seq::drop_last_distributes_over_add(a, b);
        lemma_tier_add(a, b.drop_last(), e, t);
        assert((a + b).last() == b.last());
        if rec_matches(b.last(), e, t) {
            Seq::push_distributes_over_add(
                tier_handles(a, e, t),
                tier_handles(b.drop_last(), e, t),
                b.last().handle,
            );
        }
    }
}

proof fn lemma_count_add(a: Seq<OwnedRec>, b: Seq<OwnedRec>, e: EntityId)
    ensures
        entity_count(a + b, e) == entity_count(a, e) + entity_count(b, e),
    decreases b.len(),
{
    if b.len() == 0 {
        assert(a + b =~= a);
    } else {
        Seq::drop_last_distributes_over_add(a, b);
        lemma_count_add(a, b.drop_last(), e);
        assert((a + b).last() == b.last());
    }
}

proof fn lemma_tier_none(s: Seq<OwnedRec>, e: EntityId, t: Tier)
    requires
        forall|i: int| 0 <= i < s.len() ==> !rec_matches(#[trigger] s[i], e, t),
    ensures
        tier_handles(s, e, t) == Seq::<Handle>::empty(),
    decreases s.len(),
{
    if s.len() > 0 {
        assert(s.last() == s[s.len() - 1]);
        assert(forall|i: int| 0 <= i < s.len() - 1 ==> #[trigger] s.drop_last()[i] == s[i]);
        lemma_tier_none(s.drop_last(), e, t);
    }
}

proof fn lemma_count_none(s: Seq<OwnedRec>, e: EntityId)
    requires
        forall|i: int| 0 <= i < s.len() ==> (#[trigger] s[i]).entity != e,
    ensures
        entity_count(s, e) == 0,
    decreases s.len(),
{
    if s.len() > 0 {
        assert(s.last() == s[s.len() - 1]);
        assert(forall|i: int| 0 <= i < s.len() - 1 ==> #[trigger] s.drop_last()[i] == s[i]);
        lemma_count_none(s.drop_last(), e);
    }
}

/// Splits a journal around index `i`: what each tier view and each entity
/// count looks like with and without the record at `i`.
proof fn lemma_journal_split(s: Seq<OwnedRec>, i: int)
    requires
        0 <= i < s.len(),
    ensures
        forall|e: EntityId, t: Tier|
            #[trigger] tier_handles(s, e, t) == tier_handles(s.subrange(0, i), e, t) + (
            if rec_matches(s[i], e, t) {
                seq![s[i].handle]
            } else {
                Seq::<Handle>::empty()
            }) + tier_handles(s.subrange(i + 1, s.len() as int), e, t),
        forall|e: EntityId, t: Tier|
            #[trigger] tier_handles(s.remove(i), e, t) == tier_handles(s.subrange(0, i), e, t)
                + tier_handles(s.subrange(i + 1, s.len() as int), e, t),
        forall|e: EntityId|
            #[trigger] entity_count(s, e) == entity_count(s.subrange(0, i), e) + (
            if s[i].entity == e {
                1nat
            } else {
                0nat
            }) + entity_count(s.subrange(i + 1, s.len() as int), e),
        forall|e: EntityId|
            #[trigger] entity_count(s.remove(i), e) == entity_count(s.subrange(0, i), e)
                + entity_count(s.subrange(i + 1, s.len() as int), e),
{
    let a = s.subrange(0, i);
    let m = s.subrange(i, i + 1);
    let b = s.subrange(i + 1, s.len() as int);
    assert(s =~= a + m + b);
    assert(s.remove(i) =~= a + b);
    assert(m.len() == 1);
    assert(m[0] == s[i]);
    assert(m.drop_last() =~= Seq::<OwnedRec>::empty());
    assert(m.last() == s[i]);
    assert forall|e: EntityId, t: Tier|
        #[trigger] tier_handles(s, e, t) == tier_handles(a, e, t) + (if rec_matches(s[i], e, t) {
            seq![s[i].handle]
        } else {
            Seq::<Handle>::empty()
        }) + tier_handles(b, e, t) by {
        lemma_tier_add(a + m, b, e, t);
        lemma_tier_add(a, m, e, t);
        assert(tier_handles(m.drop_last(), e, t) =~= Seq::<Handle>::empty());
        if rec_matches(s[i], e, t) {
            assert(tier_handles(m, e, t) =~= seq![s[i].handle]);
        } else {
            assert(tier_handles(m, e, t) =~= Seq::<Handle>::empty());
        }
    }
    assert forall|e: EntityId, t: Tier|
        #[trigger] tier_handles(s.remove(i), e, t) == tier_handles(a, e, t) + tier_handles(
            b,
            e,
            t,
        ) by {
        lemma_tier_add(a, b, e, t);
    }
    assert forall|e: EntityId|
        #[trigger] entity_count(s, e) == entity_count(a, e) + (if s[i].entity == e {
            1nat
        } else {
            0nat
        }) + entity_count(b, e) by {
        lemma_count_add(a + m, b, e);
        lemma_count_add(a, m, e);
        assert(entity_count(m.drop_last(), e) == 0);
    }
    assert forall|e: EntityId|
        #[trigger] entity_count(s.remove(i), e) == entity_count(a, e) + entity_count(b, e) by {
        lemma_count_add(a, b, e);
    }
}

proof fn lemma_tier_contains(s: Seq<OwnedRec>, e: EntityId, t: Tier, h: Handle)
    ensures
        tier_handles(s, e, t).contains(h) <==> exists|i: int|
            0 <= i < s.len() && rec_matches(#[trigger] s[i], e, t) && s[i].handle == h,
    decreases s.len(),
{
    if s.len() > 0 {
        let d = s.drop_last();
        let dh = tier_handles(d, e, t);
        lemma_tier_contains(d, e, t, h);
        assert(forall|i: int| 0 <= i < d.len() ==> #[trigger] d[i] == s[i]);
        assert(s.last() == s[s.len() - 1]);
        if exists|i: int| 0 <= i < s.len() && rec_matches(#[trigger] s[i], e, t) && s[i].handle
            == h {
            let i = choose|i: int|
                0 <= i < s.len() && rec_matches(#[trigger] s[i], e, t) && s[i].handle == h;
            if i < s.len() - 1 {
                assert(d[i] == s[i]);
                assert(dh.contains(h));
                let k = choose|k: int| 0 <= k < dh.len() && dh[k] == h;
                if rec_matches(s.last(), e, t) {
                    assert(tier_handles(s, e, t)[k] == h);
                } else {
                    assert(tier_handles(s, e, t)[k] == h);
                }
                assert(tier_handles(s, e, t).contains(h));
            } else {
                assert(rec_matches(s.last(), e, t));
                let th = dh.push(s.last().handle);
                assert(tier_handles(s, e, t) == th);
                assert(th[th.len() - 1] == h);
                assert(th.contains(h));
            }
        }
        if tier_handles(s, e, t).contains(h) {
            let k = choose|k: int|
                0 <= k < tier_handles(s, e, t).len() && tier_handles(s, e, t)[k] == h;
            if rec_matches(s.last(), e, t) && k == tier_handles(s, e, t).len() - 1 {
                assert(s[s.len() - 1].handle == h);
            } else {
                assert(dh[k] == h);
                assert(dh.contains(h));
                let i = choose|i: int|
                    0 <= i < d.len() && rec_matches(#[trigger] d[i], e, t) && d[i].handle == h;
                assert(s[i] == d[i]);
            }
        }
    }
}

proof fn lemma_count_is_tier_sum(s: Seq<OwnedRec>, e: EntityId)
    ensures
        entity_count(s, e) == tier_handles(s, e, Tier::Hover).len() + tier_handles(
            s,
            e,
            Tier::Click,
        ).len(),
    decreases s.len(),
{
    if s.len() > 0 {
        lemma_count_is_tier_sum(s.drop_last(), e);
    }
}

spec fn pref_matches(r: PrefRec, e: EntityId, t: Tier) -> bool {
    r.entity == e && r.tier == t
}

spec fn has_pref(s: Seq<PrefRec>, e: EntityId, t: Tier) -> bool {
    exists|i: int| 0 <= i < s.len() && pref_matches(#[trigger] s[i], e, t)
}

spec fn pref_index(s: Seq<PrefRec>, e: EntityId, t: Tier) -> int {
    choose|i: int| 0 <= i < s.len() && pref_matches(#[trigger] s[i], e, t)
}

spec fn pref_lookup(s: Seq<PrefRec>, e: EntityId, t: Tier) -> Option<(IconId, usize)> {
    if has_pref(s, e, t) {
        Some((s[pref_index(s, e, t)].icon, s[pref_index(s, e, t)].priority))
    } else {
        None
    }
}

spec fn unique_pref_keys(s: Seq<PrefRec>) -> bool {
    forall|i: int, j: int|
        0 <= i < j < s.len() ==> !((#[trigger] s[i]).entity == (#[trigger] s[j]).entity && s[i].tier
            == s[j].tier)
}

/// With unique keys, an observed match at `i` pins down the lookup.
proof fn lemma_pref_at(s: Seq<PrefRec>, e: EntityId, t: Tier, i: int)
    requires
        unique_pref_keys(s),
        0 <= i < s.len(),
        pref_matches(s[i], e, t),
    ensures
        has_pref(s, e, t),
        pref_index(s, e, t) == i,
        pref_lookup(s, e, t) == Some((s[i].icon, s[i].priority)),
{
    assert(has_pref(s, e, t));
}

/// Removing the record at `i` erases its key and leaves every other key's
/// lookup unchanged.
proof fn lemma_pref_remove(s: Seq<PrefRec>, i: int)
    requires
        unique_pref_keys(s),
        0 <= i < s.len(),
    ensures
        unique_pref_keys(s.remove(i)),
        !has_pref(s.remove(i), s[i].entity, s[i].tier),
        forall|e: EntityId, t: Tier|
            !pref_matches(s[i], e, t) ==> #[trigger] pref_lookup(s.remove(i), e, t) == pref_lookup(
                s,
                e,
                t,
            ),
{
    let s2 = s.remove(i);
    s.remove_ensures(i);
    assert forall|a: int, b: int|
        0 <= a < b < s2.len() implies !((#[trigger] s2[a]).entity == (#[trigger] s2[b]).entity
        && s2[a].tier == s2[b].tier) by {
        let oa: int = if a < i { a } else { a + 1 };
        let ob: int = if b < i { b } else { b + 1 };
        assert(s2[a] == s[oa]);
        assert(s2[b] == s[ob]);
    }
    assert forall|a: int| 0 <= a < s2.len() implies !pref_matches(
        #[trigger] s2[a],
        s[i].entity,
        s[i].tier,
    ) by {
        let oa: int = if a < i { a } else { a + 1 };
        assert(s2[a] == s[oa]);
    }
    assert forall|e: EntityId, t: Tier| !pref_matches(s[i], e, t) implies #[trigger] pref_lookup(
        s2,
        e,
        t,
    ) == pref_lookup(s, e, t) by {
        if has_pref(s, e, t) {
            let j = pref_index(s, e, t);
            let nj: int = if j < i { j } else { j - 1 };
            assert(s2[nj] == s[j]);
            lemma_pref_at(s2, e, t, nj);
        }
        if has_pref(s2, e, t) {
            let j = pref_index(s2, e, t);
            let oj: int = if j < i { j } else { j + 1 };
            assert(s2[j] == s[oj]);
            lemma_pref_at(s, e, t, oj);
        }
    }
}

/// Pushing a record with a fresh key stores its preference and leaves every
/// other key's lookup unchanged.
proof fn lemma_pref_push(s: Seq<PrefRec>, r: PrefRec)
    requires
        unique_pref_keys(s),
        !has_pref(s, r.entity, r.tier),
    ensures
        unique_pref_keys(s.push(r)),
        pref_lookup(s.push(r), r.entity, r.tier) == Some((r.icon, r.priority)),
        forall|e: EntityId, t: Tier|
            !pref_matches(r, e, t) ==> #[trigger] pref_lookup(s.push(r), e, t) == pref_lookup(
                s,
                e,
                t,
            ),
{
    let s2 = s.push(r);
    assert forall|a: int, b: int|
        0 <= a < b < s2.len() implies !((#[trigger] s2[a]).entity == (#[trigger] s2[b]).entity
        && s2[a].tier == s2[b].tier) by {
        if b == s.len() {
            assert(s2[a] == s[a]);
            assert(s2[b] == r);
        } else {
            assert(s2[a] == s[a]);
            assert(s2[b] == s[b]);
        }
    }
    assert(s2[s.len() as int] == r);
    lemma_pref_at(s2, r.entity, r.tier, s.len() as int);
    assert forall|e: EntityId, t: Tier| !pref_matches(r, e, t) implies #[trigger] pref_lookup(
        s2,
        e,
        t,
    ) == pref_lookup(s, e, t) by {
        if has_pref(s, e, t) {
            let j = pref_index(s, e, t);
            assert(s2[j] == s[j]);
            lemma_pref_at(s2, e, t, j);
        }
        if has_pref(s2, e, t) {
            let j = pref_index(s2, e, t);
            assert(j < s.len());
            assert(s2[j] == s[j]);
            lemma_pref_at(s, e, t, j);
        }
    }
}

/// The whole binding layer: the priority stack, the declared preferences,
/// the journal of outstanding requests, the baseline request's handle, and
/// the icon currently mirrored to the cursor sink.
pub struct CursorSystem {
    stack: PriorityStack<IconId>,
    prefs: Vec<PrefRec>,
    owned: Vec<OwnedRec>,
    baseline: Handle,
    shown: IconId,
}

impl CursorSystem {
    /// Is `h` a live request of the shared stack?
    pub closed spec fn live(self, h: Handle) -> bool {
        self.stack.spec_contains(h)
    }

    /// The priority of the live request `h`.
    pub closed spec fn live_priority(self, h: Handle) -> usize {
        self.stack.spec_priority(h)
    }

    /// The icon of the live request `h`.
    pub closed spec fn live_icon(self, h: Handle) -> IconId {
        self.stack.spec_value(h)
    }

    /// The handle of the winning request (meaningful while well-formed: the
    /// stack always holds at least the baseline).
    pub closed spec fn sys_top(self) -> Handle {
        self.stack.top_of()
    }

    /// The icon currently mirrored to the cursor sink.
    pub closed spec fn displayed(self) -> IconId {
        self.shown
    }

    /// The icon of the baseline request installed at initialization.
    pub closed spec fn default_icon(self) -> IconId {
        self.stack.spec_value(self.baseline)
    }

    /// The handles entity `e` has outstanding at tier `t`, oldest first.
    pub closed spec fn owned(self, e: EntityId, t: Tier) -> Seq<Handle> {
        tier_handles(self.owned@, e, t)
    }

    /// How many requests entity `e` has outstanding, over both tiers.
    pub closed spec fn owned_count(self, e: EntityId) -> nat {
        entity_count(self.owned@, e)
    }

    /// How many widget-driven requests are outstanding in all.
    pub closed spec fn outstanding(self) -> nat {
        self.owned@.len()
    }

    /// Does entity `e` own the outstanding request `h`?
    pub closed spec fn owned_by(self, e: EntityId, h: Handle) -> bool {
        has_rec_for(self.owned@, e, h)
    }

    /// The preference entity `e` has declared for tier `t`, if any.
    pub closed spec fn pref(self, e: EntityId, t: Tier) -> Option<(IconId, usize)> {
        pref_lookup(self.prefs@, e, t)
    }

    /// Is there room for another request handle?
    pub closed spec fn can_push(self) -> bool {
        self.stack.can_issue()
    }

    /// `h` beats every live request: any other live request has a strictly
    /// smaller priority, or the same priority and an earlier push.
    pub open spec fn sys_is_top(self, h: Handle) -> bool {
        &&& self.live(h)
        &&& forall|g: Handle|
            #[trigger] self.live(g) ==> self.live_priority(g) < self.live_priority(h) || (
            self.live_priority(g) == self.live_priority(h) && g@ <= h@)
    }

    /// Everything but the sink mirror: the stack is well-formed and holds
    /// the baseline at priority zero; every journal entry is a live,
    /// non-baseline request owned exactly once; every live request is the
    /// baseline or journaled; preference keys are unique.
    spec fn wf_core(self) -> bool {
        &&& self.stack.wf()
        &&& self.stack.spec_len() > 0
        &&& self.stack.spec_contains(self.baseline)
        &&& self.stack.spec_priority(self.baseline) == 0
        &&& forall|i: int|
            0 <= i < self.owned@.len() ==> self.stack.spec_contains(
                (#[trigger] self.owned@[i]).handle,
            )
        &&& forall|i: int| 0 <= i < self.owned@.len() ==> (#[trigger] self.owned@[i]).handle
            != self.baseline
        &&& unique_rec_handles(self.owned@)
        &&& forall|h: Handle|
            #[trigger] self.stack.spec_contains(h) ==> h == self.baseline || has_rec(
                self.owned@,
                h,
            )
        &&& unique_pref_keys(self.prefs@)
    }

    /// Well-formed: the core invariant, and the sink mirror shows the icon
    /// of the winning request.
    pub closed spec fn wf(self) -> bool {
        &&& self.wf_core()
        &&& self.shown == self.stack.spec_value(self.stack.top_of())
    }

    /// Reads the winning icon off the stack.
    fn top_icon(&self) -> (r: IconId)
        requires
            self.stack.wf(),
            self.stack.spec_len() > 0,
        ensures
            r == self.stack.spec_value(self.stack.top_of()),
    {
        match self.stack.peek_top() {
            Some(v) => *v,
            None => vstd::pervasive::unreached(),
        }
    }

    /// Builds the system around a host-chosen default icon: the baseline
    /// request is inserted at priority zero before any widget-driven push
    /// can occur, so the displayed icon is always defined.
    pub fn init(default: IconId) -> (s: Self)
        ensures
            s.wf(),
            s.displayed() == default,
            s.default_icon() == default,
            s.outstanding() == 0,
            s.can_push(),
            forall|e: EntityId, t: Tier| #[trigger] s.pref(e, t) == None::<(IconId, usize)>,
            forall|e: EntityId, t: Tier| #[trigger] s.owned(e, t) == Seq::<Handle>::empty(),
    {
        let mut stack = PriorityStack::<IconId>::new();
        let baseline = stack.insert_prioritized(0, default);
        let sys = CursorSystem {
            stack,
            prefs: Vec::new(),
            owned: Vec::new(),
            baseline,
            shown: default,
        };
        proof {
            lemma_top_is_max(sys.stack);
            let t = sys.stack.top_of();
            assert(sys.stack.spec_contains(t));
            assert(t == baseline);
        }
        sys
    }

    /// The index of the preference record for `(e, t)`, if one exists.
    fn find_pref_index(&self, e: EntityId, t: Tier) -> (r: Option<usize>)
        ensures
            match r {
                Some(i) => i < self.prefs@.len() && pref_matches(self.prefs@[i as int], e, t),
                None => !has_pref(self.prefs@, e, t),
            },
    {
        let n = self.prefs.len();
        let mut i: usize = 0;
        while i < n
            invariant
                n == self.prefs@.len(),
                i <= n,
                forall|j: int| 0 <= j < i ==> !pref_matches(#[trigger] self.prefs@[j], e, t),
            decreases n - i,
        {
            let rec = self.prefs[i];
            if rec.entity == e && rec.tier == t {
                return Some(i);
            }
            i = i + 1;
        }
        None
    }

    /// The preference entity `e` declared for tier `t`, if any.
    fn find_pref(&self, e: EntityId, t: Tier) -> (r: Option<(IconId, usize)>)
        requires
            unique_pref_keys(self.prefs@),
        ensures
            r == self.pref(e, t),
    {
        match self.find_pref_index(e, t) {
            Some(i) => {
                proof {
                    lemma_pref_at(self.prefs@, e, t, i as int);
                }
                let rec = self.prefs[i];
                Some((rec.icon, rec.priority))
            },
            None => None,
        }
    }

    /// Declares — or replaces — the icon preference of entity `e` for tier
    /// `t`: the registration that binds the pointer events to this widget.
    /// Nothing else changes; outstanding requests keep the preference they
    /// were pushed with.
    pub fn register(&mut self, e: EntityId, t: Tier, icon: IconId, priority: usize)
        requires
            old(self).wf(),
        ensures
            final (self).wf(),
            final (self).pref(e, t) == Some((icon, priority)),
            forall|e2: EntityId, t2: Tier|
                !(e2 == e && t2 == t) ==> #[trigger] final (self).pref(e2, t2) == old(self).pref(
                    e2,
                    t2,
                ),
            forall|e2: EntityId, t2: Tier| #[trigger] final (self).owned(e2, t2) == old(
                self,
            ).owned(e2, t2),
            final (self).outstanding() == old(self).outstanding(),
            forall|e2: EntityId| #[trigger] final (self).owned_count(e2) == old(self).owned_count(
                e2,
            ),
            forall|h: Handle| #[trigger] final (self).live(h) == old(self).live(h),
            forall|h: Handle|
                #[trigger] old(self).live(h) ==> final (self).live_priority(h) == old(
                    self,
                ).live_priority(h) && final (self).live_icon(h) == old(self).live_icon(h),
            final (self).displayed() == old(self).displayed(),
            final (self).default_icon() == old(self).default_icon(),
            final (self).can_push() == old(self).can_push(),
    {
        let ghost s0 = self.prefs@;
        let rec = PrefRec { entity: e, tier: t, icon, priority };
        match self.find_pref_index(e, t) {
            Some(i) => {
                proof {
                    lemma_pref_at(s0, e, t, i as int);
                }
                self.prefs.remove(i);
                proof {
                    lemma_pref_remove(s0, i as int);
                }
            },
            None => {},
        }
        let ghost s1 = self.prefs@;
        self.prefs.push(rec);
        proof {
            lemma_pref_push(s1, rec);
            assert(self.pref(e, t) == Some((icon, priority))) by {
                assert(pref_lookup(s1.push(rec), e, t) == Some((rec.icon, rec.priority)));
            }
            assert forall|e2: EntityId, t2: Tier|
                !(e2 == e && t2 == t) implies #[trigger] self.pref(e2, t2) == old(self).pref(
                e2,
                t2,
            ) by {
                assert(!pref_matches(rec, e2, t2));
                assert(pref_lookup(s1.push(rec), e2, t2) == pref_lookup(s1, e2, t2));
                if s1 != s0 {
                    let i = pref_index(s0, e, t);
                    assert(pref_lookup(s0.remove(i), e2, t2) == pref_lookup(s0, e2, t2));
                }
            }
        }
    }

    /// Pushes the request `e` declared for tier `t`, if it declared one.
    fn push_tier(&mut self, e: EntityId, t: Tier) -> (r: Option<IconId>)
        requires
            old(self).wf(),
            old(self).can_push(),
        ensures
            final (self).wf(),
            push_transition(*old(self), *final(self), e, t, r),
    {
        match self.find_pref(e, t) {
            None => None,
            Some((icon, p)) => {
                let ghost s0 = self.owned@;
                let h = self.stack.insert_prioritized(p, icon);
                let rec = OwnedRec { entity: e, tier: t, handle: h };
                self.owned.push(rec);
                proof {
                    assert(self.owned@ == s0.push(rec));
                    assert forall|i: int| 0 <= i < s0.len() implies (#[trigger] s0[i]).handle
                        != h by {
                        assert(old(self).stack.spec_contains(s0[i].handle));
                    }
                    assert(old(self).stack.spec_contains(old(self).baseline));
                    assert(h != self.baseline);
                    assert forall|i: int| 0 <= i < self.owned@.len() implies
                        self.stack.spec_contains((#[trigger] self.owned@[i]).handle) by {
                        if i < s0.len() {
                            assert(self.owned@[i] == s0[i]);
                            assert(old(self).stack.spec_contains(s0[i].handle));
                        } else {
                            assert(self.owned@[i] == rec);
                        }
                    }
                    assert forall|g: Handle| #[trigger] self.stack.spec_contains(g) implies g
                        == self.baseline || has_rec(self.owned@, g) by {
                        if g == h {
                            assert(self.owned@[s0.len() as int].handle == g);
                        } else {
                            assert(old(self).stack.spec_contains(g));
                            if g != old(self).baseline {
                                let i = choose|i: int|
                                    0 <= i < s0.len() && (#[trigger] s0[i]).handle == g;
                                assert(self.owned@[i].handle == g);
                            }
                        }
                    }
                    lemma_contains_nonempty(self.stack, h);
                    lemma_tier_push(s0, rec, e, t);
                    assert(self.owned(e, t) == old(self).owned(e, t).push(h));
                    assert(self.owned(e, t).drop_last() =~= old(self).owned(e, t));
                    assert forall|e2: EntityId, t2: Tier|
                        !(e2 == e && t2 == t) implies #[trigger] self.owned(e2, t2) == old(
                        self,
                    ).owned(e2, t2) by {
                        lemma_tier_push(s0, rec, e2, t2);
                    }
                }
                let prev = self.shown;
                let top = self.top_icon();
                self.shown = top;
                proof {
                    assert forall|e2: EntityId, t2: Tier|
                        !(e2 == e && t2 == t) implies #[trigger] self.owned(e2, t2) == old(
                        self,
                    ).owned(e2, t2) by {
                        lemma_tier_push(s0, rec, e2, t2);
                    }
                }
                if top == prev {
                    None
                } else {
                    Some(top)
                }
            },
        }
    }

    /// A pointer entered entity `e`: push its hover-tier request, if it has
    /// declared one, and report the icon the sink must now show, if the
    /// displayed icon changed.
    pub fn on_enter(&mut self, e: EntityId) -> (r: Option<IconId>)
        requires
            old(self).wf(),
            old(self).can_push(),
        ensures
            final (self).wf(),
            push_transition(*old(self), *final(self), e, Tier::Hover, r),
    {
        self.push_tier(e, Tier::Hover)
    }

    /// A pointer press on entity `e`: push its click-tier request, if it
    /// has declared one, and report the icon the sink must now show, if the
    /// displayed icon changed.
    pub fn on_press(&mut self, e: EntityId) -> (r: Option<IconId>)
        requires
            old(self).wf(),
            old(self).can_push(),
        ensures
            final (self).wf(),
            push_transition(*old(self), *final(self), e, Tier::Click, r),
    {
        self.push_tier(e, Tier::Click)
    }

    /// The index of the most recent journal entry for `(e, t)`, if any.
    fn find_last_rec(&self, e: EntityId, t: Tier) -> (r: Option<usize>)
        ensures
            match r {
                Some(i) => {
                    &&& i < self.owned@.len()
                    &&& rec_matches(self.owned@[i as int], e, t)
                    &&& forall|j: int|
                        i < j < self.owned@.len() ==> !rec_matches(#[trigger] self.owned@[j], e, t)
                },
                None => forall|j: int|
                    0 <= j < self.owned@.len() ==> !rec_matches(#[trigger] self.owned@[j], e, t),
            },
    {
        let n = self.owned.len();
        let mut i: usize = n;
        while i > 0
            invariant
                i <= n,
                n == self.owned@.len(),
                forall|j: int| i <= j < n ==> !rec_matches(#[trigger] self.owned@[j], e, t),
            decreases i,
        {
            let rec = self.owned[i - 1];
            if rec.entity == e && rec.tier == t {
                return Some(i - 1);
            }
            i = i - 1;
        }
        None
    }

    /// Force-removes the journal entry at `i`, together with its request in
    /// the shared stack.  The sink mirror is left untouched; callers
    /// refresh it when they are done removing.
    fn pop_at(&mut self, i: usize)
        requires
            old(self).wf_core(),
            i < old(self).owned@.len(),
        ensures
            final (self).wf_core(),
            final (self).owned@ == old(self).owned@.remove(i as int),
            final (self).prefs@ == old(self).prefs@,
            final (self).baseline == old(self).baseline,
            final (self).shown == old(self).shown,
            old(self).stack.spec_contains(old(self).owned@[i as int].handle),
            !final (self).stack.spec_contains(old(self).owned@[i as int].handle),
            forall|g: Handle|
                g != old(self).owned@[i as int].handle ==> (#[trigger] final (
                self).stack.spec_contains(g) <==> old(self).stack.spec_contains(g)),
            forall|g: Handle|
                g != old(self).owned@[i as int].handle && #[trigger] old(self).stack.spec_contains(
                    g,
                ) ==> final (self).stack.spec_priority(g) == old(self).stack.spec_priority(g)
                    && final (self).stack.spec_value(g) == old(self).stack.spec_value(g),
            final (self).stack.spec_len() + 1 == old(self).stack.spec_len(),
    {
        let rec = self.owned[i];
        let ghost s0 = self.owned@;
        let ghost h = rec.handle;
        self.owned.remove(i);
        self.stack.remove(rec.handle);
        proof {
            assert(self.owned@ == s0.remove(i as int));
            s0.remove_ensures(i as int);
            assert(old(self).stack.spec_contains(h));
            lemma_contains_nonempty(old(self).stack, old(self).baseline);
            assert forall|a: int| 0 <= a < self.owned@.len() implies (#[trigger] self.owned@[a]).handle
                != h by {
                let oa: int = if a < i { a } else { a + 1 };
                assert(self.owned@[a] == s0[oa]);
            }
            assert forall|a: int, b: int|
                0 <= a < b < self.owned@.len() implies (#[trigger] self.owned@[a]).handle != (
            #[trigger] self.owned@[b]).handle by {
                let oa: int = if a < i { a } else { a + 1 };
                let ob: int = if b < i { b } else { b + 1 };
                assert(self.owned@[a] == s0[oa]);
                assert(self.owned@[b] == s0[ob]);
            }
            assert forall|a: int| 0 <= a < self.owned@.len() implies self.stack.spec_contains(
                (#[trigger] self.owned@[a]).handle,
            ) && self.owned@[a].handle != self.baseline by {
                let oa: int = if a < i { a } else { a + 1 };
                assert(self.owned@[a] == s0[oa]);
                assert(old(self).stack.spec_contains(s0[oa].handle));
            }
            assert(self.baseline != h);
            assert(self.stack.spec_contains(self.baseline));
            lemma_contains_nonempty(self.stack, self.baseline);
            assert forall|g: Handle| #[trigger] self.stack.spec_contains(g) implies g
                == self.baseline || has_rec(self.owned@, g) by {
                assert(old(self).stack.spec_contains(g));
                if g != old(self).baseline {
                    let oj = choose|oj: int| 0 <= oj < s0.len() && (#[trigger] s0[oj]).handle == g;
                    assert(oj != i);
                    let nj: int = if oj < i {
                        oj
                    } else {
                        oj - 1
                    };
                    assert(self.owned@[nj] == s0[oj]);
                }
            }
        }
    }

    /// Pops the most recent request `e` has outstanding at tier `t`, if it
    /// has one, and reports the icon the stack now shows; nothing
    /// outstanding is a silent no-op, so a duplicated exit or release is
    /// harmless.
    fn pop_tier(&mut self, e: EntityId, t: Tier) -> (r: Option<IconId>)
        requires
            old(self).wf(),
        ensures
            final (self).wf(),
            pop_transition(*old(self), *final(self), e, t, r),
    {
        match self.find_last_rec(e, t) {
            None => {
                proof {
                    lemma_tier_none(self.owned@, e, t);
                }
                None
            },
            Some(i) => {
                let ghost s0 = self.owned@;
                let ghost h = s0[i as int].handle;
                proof {
                    lemma_journal_split(s0, i as int);
                    let a = s0.subrange(0, i as int);
                    let b = s0.subrange(i + 1, s0.len() as int);
                    assert forall|j: int| 0 <= j < b.len() implies !rec_matches(
                        #[trigger] b[j],
                        e,
                        t,
                    ) by {
                        assert(b[j] == s0[i + 1 + j]);
                    }
                    lemma_tier_none(b, e, t);
                    assert(old(self).owned(e, t) =~= tier_handles(a, e, t).push(h));
                    assert(old(self).owned(e, t).last() == h);
                    assert(old(self).owned(e, t).drop_last() =~= tier_handles(a, e, t));
                }
                self.pop_at(i);
                proof {
                    let a = s0.subrange(0, i as int);
                    let b = s0.subrange(i + 1, s0.len() as int);
                    lemma_tier_none(b, e, t);
                    assert(self.owned(e, t) =~= tier_handles(a, e, t));
                    assert forall|e2: EntityId, t2: Tier|
                        !(e2 == e && t2 == t) implies #[trigger] self.owned(e2, t2) == old(
                        self,
                    ).owned(e2, t2) by {
                        assert(!rec_matches(s0[i as int], e2, t2));
                        assert(tier_handles(s0, e2, t2) == tier_handles(a, e2, t2) + Seq::<
                            Handle,
                        >::empty() + tier_handles(b, e2, t2));
                        assert(tier_handles(s0, e2, t2) =~= tier_handles(a, e2, t2)
                            + tier_handles(b, e2, t2));
                        assert(tier_handles(s0.remove(i as int), e2, t2) == tier_handles(a, e2, t2)
                            + tier_handles(b, e2, t2));
                    }
                }
                let top = self.top_icon();
                self.shown = top;
                proof {
                    let a = s0.subrange(0, i as int);
                    let b = s0.subrange(i + 1, s0.len() as int);
                    lemma_tier_none(b, e, t);
                    assert(self.owned(e, t) =~= tier_handles(a, e, t));
                    assert forall|e2: EntityId, t2: Tier|
                        !(e2 == e && t2 == t) implies #[trigger] self.owned(e2, t2) == old(
                        self,
                    ).owned(e2, t2) by {
                        assert(!rec_matches(s0[i as int], e2, t2));
                        assert(tier_handles(s0, e2, t2) == tier_handles(a, e2, t2) + Seq::<
                            Handle,
                        >::empty() + tier_handles(b, e2, t2));
                        assert(tier_handles(s0, e2, t2) =~= tier_handles(a, e2, t2)
                            + tier_handles(b, e2, t2));
                        assert(tier_handles(s0.remove(i as int), e2, t2) == tier_handles(a, e2, t2)
                            + tier_handles(b, e2, t2));
                    }
                }
                Some(top)
            },
        }
    }

    /// The pointer left entity `e`: pop its most recent hover-tier request
    /// — nested enters unwind in reverse order — and report the icon the
    /// sink must now show.
    pub fn on_exit(&mut self, e: EntityId) -> (r: Option<IconId>)
        requires
            old(self).wf(),
        ensures
            final (self).wf(),
            pop_transition(*old(self), *final(self), e, Tier::Hover, r),
    {
        self.pop_tier(e, Tier::Hover)
    }

    /// A pointer release on entity `e`: pop its most recent click-tier
    /// request and report the icon the sink must now show.
    pub fn on_release(&mut self, e: EntityId) -> (r: Option<IconId>)
        requires
            old(self).wf(),
        ensures
            final (self).wf(),
            pop_transition(*old(self), *final(self), e, Tier::Click, r),
    {
        self.pop_tier(e, Tier::Click)
    }

    /// The index of some journal entry owned by `e`, if any is left.
    fn find_entity_rec(&self, e: EntityId) -> (r: Option<usize>)
        ensures
            match r {
                Some(i) => i < self.owned@.len() && self.owned@[i as int].entity == e,
                None => forall|j: int|
                    0 <= j < self.owned@.len() ==> (#[trigger] self.owned@[j]).entity != e,
            },
    {
        let n = self.owned.len();
        let mut i: usize = 0;
        while i < n
            invariant
                n == self.owned@.len(),
                i <= n,
                forall|j: int| 0 <= j < i ==> (#[trigger] self.owned@[j]).entity != e,
            decreases n - i,
        {
            if self.owned[i].entity == e {
                return Some(i);
            }
            i = i + 1;
        }
        None
    }

    /// Drops every preference record of entity `e`; nothing else changes.
    fn remove_prefs(&mut self, e: EntityId)
        requires
            unique_pref_keys(old(self).prefs@),
        ensures
            unique_pref_keys(final (self).prefs@),
            final (self).stack == old(self).stack,
            final (self).owned@ == old(self).owned@,
            final (self).baseline == old(self).baseline,
            final (self).shown == old(self).shown,
            forall|t: Tier| !has_pref(final (self).prefs@, e, t),
            forall|e2: EntityId, t2: Tier|
                e2 != e ==> #[trigger] pref_lookup(final (self).prefs@, e2, t2) == pref_lookup(
                    old(self).prefs@,
                    e2,
                    t2,
                ),
    {
        let mut i: usize = 0;
        while i < self.prefs.len()
            invariant
                i <= self.prefs@.len(),
                unique_pref_keys(self.prefs@),
                self.stack == old(self).stack,
                self.owned@ == old(self).owned@,
                self.baseline == old(self).baseline,
                self.shown == old(self).shown,
                forall|j: int| 0 <= j < i ==> (#[trigger] self.prefs@[j]).entity != e,
                forall|e2: EntityId, t2: Tier|
                    e2 != e ==> #[trigger] pref_lookup(self.prefs@, e2, t2) == pref_lookup(
                        old(self).prefs@,
                        e2,
                        t2,
                    ),
            decreases self.prefs@.len() - i,
        {
            if self.prefs[i].entity == e {
                let ghost s = self.prefs@;
                self.prefs.remove(i);
                proof {
                    lemma_pref_remove(s, i as int);
                    s.remove_ensures(i as int);
                    assert forall|e2: EntityId, t2: Tier|
                        e2 != e implies #[trigger] pref_lookup(self.prefs@, e2, t2) == pref_lookup(
                        old(self).prefs@,
                        e2,
                        t2,
                    ) by {
                        assert(!pref_matches(s[i as int], e2, t2));
                        assert(pref_lookup(s.remove(i as int), e2, t2) == pref_lookup(s, e2, t2));
                    }
                }
            } else {
                i = i + 1;
            }
        }
        proof {
            assert forall|t: Tier| !has_pref(self.prefs@, e, t) by {
                if has_pref(self.prefs@, e, t) {
                    let j = pref_index(self.prefs@, e, t);
                    assert(0 <= j < self.prefs@.len() && pref_matches(self.prefs@[j], e, t));
                }
            }
        }
    }

    /// Entity `e` is being destroyed: force-pop every request it still owns
    /// at either tier — no dangling request survives, however teardown came
    /// about — drop its declarations, and report the icon the sink must now
    /// show.  Exactly the destroyed widget's requests leave the stack.
    pub fn destroy_entity(&mut self, e: EntityId) -> (r: Option<IconId>)
        requires
            old(self).wf(),
        ensures
            final (self).wf(),
            forall|h: Handle|
                #[trigger] final (self).live(h) <==> (old(self).live(h) && !old(self).owned_by(
                    e,
                    h,
                )),
            forall|h: Handle|
                #[trigger] final (self).live(h) ==> final (self).live_priority(h) == old(
                    self,
                ).live_priority(h) && final (self).live_icon(h) == old(self).live_icon(h),
            forall|t: Tier| #[trigger] final (self).owned(e, t) == Seq::<Handle>::empty(),
            forall|t: Tier| #[trigger] final (self).pref(e, t) == None::<(IconId, usize)>,
            forall|e2: EntityId, t2: Tier|
                e2 != e ==> #[trigger] final (self).owned(e2, t2) == old(self).owned(e2, t2),
            forall|e2: EntityId, t2: Tier|
                e2 != e ==> #[trigger] final (self).pref(e2, t2) == old(self).pref(e2, t2),
            final (self).outstanding() + old(self).owned_count(e) == old(self).outstanding(),
            final (self).owned_count(e) == 0,
            final (self).default_icon() == old(self).default_icon(),
            r == Some(final (self).displayed()),
    {
        loop
            invariant
                self.wf_core(),
                self.prefs@ == old(self).prefs@,
                self.baseline == old(self).baseline,
                forall|g: Handle|
                    #[trigger] self.stack.spec_contains(g) ==> old(self).stack.spec_contains(g),
                forall|g: Handle|
                    old(self).stack.spec_contains(g) && !has_rec_for(old(self).owned@, e, g)
                        ==> #[trigger] self.stack.spec_contains(g),
                forall|g: Handle|
                    has_rec_for(old(self).owned@, e, g) && #[trigger] self.stack.spec_contains(g)
                        ==> has_rec_for(self.owned@, e, g),
                forall|e2: EntityId, g: Handle|
                    #[trigger] has_rec_for(self.owned@, e2, g) ==> has_rec_for(
                        old(self).owned@,
                        e2,
                        g,
                    ),
                forall|g: Handle|
                    #[trigger] self.stack.spec_contains(g) ==> self.stack.spec_priority(g) == old(
                        self,
                    ).stack.spec_priority(g) && self.stack.spec_value(g) == old(
                        self,
                    ).stack.spec_value(g),
                forall|e2: EntityId, t2: Tier|
                    e2 != e ==> #[trigger] tier_handles(self.owned@, e2, t2) == tier_handles(
                        old(self).owned@,
                        e2,
                        t2,
                    ),
                self.owned@.len() + entity_count(old(self).owned@, e) == old(self).owned@.len()
                    + entity_count(self.owned@, e),
                self.stack.spec_value(self.baseline) == old(self).stack.spec_value(
                    old(self).baseline,
                ),
            ensures
                self.wf_core(),
                self.prefs@ == old(self).prefs@,
                self.baseline == old(self).baseline,
                forall|j: int| 0 <= j < self.owned@.len() ==> (#[trigger] self.owned@[j]).entity
                    != e,
                forall|g: Handle|
                    #[trigger] self.stack.spec_contains(g) ==> old(self).stack.spec_contains(g),
                forall|g: Handle|
                    old(self).stack.spec_contains(g) && !has_rec_for(old(self).owned@, e, g)
                        ==> #[trigger] self.stack.spec_contains(g),
                forall|g: Handle|
                    has_rec_for(old(self).owned@, e, g) && #[trigger] self.stack.spec_contains(g)
                        ==> has_rec_for(self.owned@, e, g),
                forall|g: Handle|
                    #[trigger] self.stack.spec_contains(g) ==> self.stack.spec_priority(g) == old(
                        self,
                    ).stack.spec_priority(g) && self.stack.spec_value(g) == old(
                        self,
                    ).stack.spec_value(g),
                forall|e2: EntityId, t2: Tier|
                    e2 != e ==> #[trigger] tier_handles(self.owned@, e2, t2) == tier_handles(
                        old(self).owned@,
                        e2,
                        t2,
                    ),
                self.owned@.len() + entity_count(old(self).owned@, e) == old(self).owned@.len()
                    + entity_count(self.owned@, e),
                self.stack.spec_value(self.baseline) == old(self).stack.spec_value(
                    old(self).baseline,
                ),
            decreases self.owned@.len(),
        {
            match self.find_entity_rec(e) {
                None => {
                    break;
                },
                Some(i) => {
                    let ghost pre = *self;
                    let ghost s1 = self.owned@;
                    let ghost h = s1[i as int].handle;
                    proof {
                        lemma_journal_split(s1, i as int);
                        assert(has_rec_for(s1, e, h)) by {
                            assert(s1[i as int].entity == e && s1[i as int].handle == h);
                        }
                        assert(has_rec_for(old(self).owned@, e, h));
                    }
                    self.pop_at(i);
                    proof {
                        let a = s1.subrange(0, i as int);
                        let b = s1.subrange(i + 1, s1.len() as int);
                        assert(!self.stack.spec_contains(h));
                        assert forall|g: Handle| #[trigger] self.stack.spec_contains(
                            g,
                        ) implies old(self).stack.spec_contains(g) by {
                            assert(pre.stack.spec_contains(g));
                        }
                        assert forall|g: Handle|
                            old(self).stack.spec_contains(g) && !has_rec_for(
                                old(self).owned@,
                                e,
                                g,
                            ) implies #[trigger] self.stack.spec_contains(g) by {
                            assert(pre.stack.spec_contains(g));
                            assert(g != h);
                        }
                        assert forall|g: Handle|
                            #[trigger] self.stack.spec_contains(g) implies self.stack.spec_priority(
                            g,
                        ) == old(self).stack.spec_priority(g) && self.stack.spec_value(g) == old(
                            self,
                        ).stack.spec_value(g) by {
                            assert(pre.stack.spec_contains(g));
                        }
                        assert forall|e2: EntityId, g: Handle|
                            #[trigger] has_rec_for(self.owned@, e2, g) implies has_rec_for(
                            old(self).owned@,
                            e2,
                            g,
                        ) by {
                            let j = choose|j: int|
                                0 <= j < self.owned@.len() && (#[trigger] self.owned@[j]).entity
                                    == e2 && self.owned@[j].handle == g;
                            let oj: int = if j < i {
                                j
                            } else {
                                j + 1
                            };
                            assert(self.owned@[j] == s1[oj]);
                            assert(has_rec_for(s1, e2, g));
                        }
                        assert forall|g: Handle|
                            has_rec_for(old(self).owned@, e, g) && #[trigger] self.stack.spec_contains(
                                g,
                            ) implies has_rec_for(self.owned@, e, g) by {
                            assert(g != h);
                            assert(pre.stack.spec_contains(g));
                            assert(has_rec_for(s1, e, g));
                            let oj = choose|oj: int|
                                0 <= oj < s1.len() && (#[trigger] s1[oj]).entity == e
                                    && s1[oj].handle == g;
                            assert(oj != i);
                            let nj: int = if oj < i {
                                oj
                            } else {
                                oj - 1
                            };
                            assert(self.owned@[nj] == s1[oj]);
                        }
                        assert forall|e2: EntityId, t2: Tier|
                            e2 != e implies #[trigger] tier_handles(self.owned@, e2, t2)
                            == tier_handles(old(self).owned@, e2, t2) by {
                            assert(!rec_matches(s1[i as int], e2, t2));
                            assert(tier_handles(s1, e2, t2) == tier_handles(a, e2, t2) + Seq::<
                                Handle,
                            >::empty() + tier_handles(b, e2, t2));
                            assert(tier_handles(s1, e2, t2) =~= tier_handles(a, e2, t2)
                                + tier_handles(b, e2, t2));
                            assert(tier_handles(self.owned@, e2, t2) == tier_handles(a, e2, t2)
                                + tier_handles(b, e2, t2));
                            assert(tier_handles(s1, e2, t2) == tier_handles(
                                old(self).owned@,
                                e2,
                                t2,
                            ));
                        }
                        assert(pre.stack.spec_contains(pre.baseline));
                        assert(pre.baseline != h);
                        assert(self.stack.spec_value(self.baseline) == old(self).stack.spec_value(
                            old(self).baseline,
                        ));
                        assert(entity_count(self.owned@, e) + 1 == entity_count(s1, e));
                    }
                },
            }
        }
        self.remove_prefs(e);
        let top = self.top_icon();
        self.shown = top;
        proof {
            assert forall|t: Tier| #[trigger] self.owned(e, t) == Seq::<Handle>::empty() by {
                lemma_tier_none(self.owned@, e, t);
            }
            lemma_count_none(self.owned@, e);
            assert forall|h: Handle|
                #[trigger] self.live(h) <==> (old(self).live(h) && !old(self).owned_by(
                    e,
                    h,
                )) by {
                if self.stack.spec_contains(h) {
                    if has_rec_for(old(self).owned@, e, h) {
                        assert(has_rec_for(self.owned@, e, h));
                        let j = choose|j: int|
                            0 <= j < self.owned@.len() && (#[trigger] self.owned@[j]).entity == e
                                && self.owned@[j].handle == h;
                        assert(false);
                    }
                }
            }
        }
        Some(top)
    }

    /// The binding proper: maps the four pointer event kinds onto pushes
    /// and pops — enter pushes at the hover tier, exit pops it, press
    /// pushes at the click tier, release pops it.
    pub fn handle_event(&mut self, ev: PointerEvent) -> (r: Option<IconId>)
        requires
            old(self).wf(),
            match ev {
                PointerEvent::Enter(_) | PointerEvent::Press(_) => old(self).can_push(),
                _ => true,
            },
        ensures
            final (self).wf(),
            match ev {
                PointerEvent::Enter(e) => push_transition(
                    *old(self),
                    *final (self),
                    e,
                    Tier::Hover,
                    r,
                ),
                PointerEvent::Exit(e) => pop_transition(
                    *old(self),
                    *final (self),
                    e,
                    Tier::Hover,
                    r,
                ),
                PointerEvent::Press(e) => push_transition(
                    *old(self),
                    *final (self),
                    e,
                    Tier::Click,
                    r,
                ),
                PointerEvent::Release(e) => pop_transition(
                    *old(self),
                    *final (self),
                    e,
                    Tier::Click,
                    r,
                ),
            },
    {
        match ev {
            PointerEvent::Enter(e) => self.on_enter(e),
            PointerEvent::Exit(e) => self.on_exit(e),
            PointerEvent::Press(e) => self.on_press(e),
            PointerEvent::Release(e) => self.on_release(e),
        }
    }

    /// The icon currently mirrored to the cursor sink.
    pub fn current(&self) -> (r: IconId)
        ensures
            r == self.displayed(),
    {
        self.shown
    }

    /// Is there room for another request handle?  (The identifier space is
    /// 64-bit, so in practice there always is.)
    pub fn has_room(&self) -> (r: bool)
        ensures
            r == self.can_push(),
    {
        self.stack.has_room()
    }
}

/// What a push (enter at the hover tier, press at the click tier) does to
/// the system: if the entity declared no preference for the tier, nothing;
/// otherwise one fresh request with the declared icon and priority is
/// pushed onto the shared stack and appended to the entity's per-tier
/// stack, everything else is untouched, and the sink is told the new icon
/// exactly when the displayed icon changed.
pub open spec fn push_transition(
    pre: CursorSystem,
    post: CursorSystem,
    e: EntityId,
    t: Tier,
    r: Option<IconId>,
) -> bool {
    match pre.pref(e, t) {
        None => post == pre && r == None::<IconId>,
        Some((icon, p)) => {
            &&& post.owned(e, t).len() == pre.owned(e, t).len() + 1
            &&& post.owned(e, t).drop_last() == pre.owned(e, t)
            &&& ({
                let h = post.owned(e, t).last();
                &&& !pre.live(h)
                &&& (forall|g: Handle| #[trigger] pre.live(g) ==> g@ < h@)
                &&& post.live(h)
                &&& post.live_priority(h) == p
                &&& post.live_icon(h) == icon
                &&& (forall|g: Handle| g != h ==> (#[trigger] post.live(g) <==> pre.live(g)))
                &&& (forall|g: Handle|
                    g != h && #[trigger] pre.live(g) ==> post.live_priority(g)
                        == pre.live_priority(g) && post.live_icon(g) == pre.live_icon(g))
            })
            &&& (forall|e2: EntityId, t2: Tier|
                !(e2 == e && t2 == t) ==> #[trigger] post.owned(e2, t2) == pre.owned(e2, t2))
            &&& (forall|e2: EntityId, t2: Tier| #[trigger] post.pref(e2, t2) == pre.pref(e2, t2))
            &&& post.outstanding() == pre.outstanding() + 1
            &&& post.default_icon() == pre.default_icon()
            &&& r == (if post.displayed() == pre.displayed() {
                None::<IconId>
            } else {
                Some(post.displayed())
            })
        },
    }
}

/// What a pop (exit at the hover tier, release at the click tier) does to
/// the system: if the entity has nothing outstanding at the tier, nothing;
/// otherwise its most recently pushed request for the tier — and only that
/// one — is removed from the shared stack and from the entity's per-tier
/// stack, and the sink is told whatever the stack now shows.
pub open spec fn pop_transition(
    pre: CursorSystem,
    post: CursorSystem,
    e: EntityId,
    t: Tier,
    r: Option<IconId>,
) -> bool {
    if pre.owned(e, t).len() == 0 {
        post == pre && r == None::<IconId>
    } else {
        let h = pre.owned(e, t).last();
        &&& post.owned(e, t) == pre.owned(e, t).drop_last()
        &&& pre.live(h)
        &&& !post.live(h)
        &&& (forall|g: Handle| g != h ==> (#[trigger] post.live(g) <==> pre.live(g)))
        &&& (forall|g: Handle|
            g != h && #[trigger] pre.live(g) ==> post.live_priority(g) == pre.live_priority(g)
                && post.live_icon(g) == pre.live_icon(g))
        &&& (forall|e2: EntityId, t2: Tier|
            !(e2 == e && t2 == t) ==> #[trigger] post.owned(e2, t2) == pre.owned(e2, t2))
        &&& (forall|e2: EntityId, t2: Tier| #[trigger] post.pref(e2, t2) == pre.pref(e2, t2))
        &&& post.outstanding() + 1 == pre.outstanding()
        &&& post.default_icon() == pre.default_icon()
        &&& r == Some(post.displayed())
    }
}

/// A widget owns a request exactly when the request appears in one of the
/// widget's two per-tier stacks.
pub proof fn lemma_owned_by_is_tiered(s: CursorSystem, e: EntityId, h: Handle)
    ensures
        s.owned_by(e, h) <==> (s.owned(e, Tier::Hover).contains(h) || s.owned(
            e,
            Tier::Click,
        ).contains(h)),
{
    lemma_tier_contains(s.owned@, e, Tier::Hover, h);
    lemma_tier_contains(s.owned@, e, Tier::Click, h);
}

/// A widget's outstanding-request count is the size of its two per-tier
/// stacks together.
pub proof fn lemma_owned_count_is_tiered(s: CursorSystem, e: EntityId)
    ensures
        s.owned_count(e) == s.owned(e, Tier::Hover).len() + s.owned(e, Tier::Click).len(),
{
    lemma_count_is_tier_sum(s.owned@, e);
}

/// The sink mirror invariant: in a well-formed system the displayed icon is
/// the icon of the winning request — the live request with the greatest
/// priority, ties broken toward the most recent push.
pub proof fn lemma_displayed_is_top(s: CursorSystem)
    requires
        s.wf(),
    ensures
        s.sys_is_top(s.sys_top()),
        s.displayed() == s.live_icon(s.sys_top()),
{
    lemma_top_is_max(s.stack);
    let t = s.stack.top_of();
    assert forall|g: Handle| #[trigger] s.live(g) implies s.live_priority(g) < s.live_priority(
        s.sys_top(),
    ) || (s.live_priority(g) == s.live_priority(s.sys_top()) && g@ <= s.sys_top()@) by {
        assert(s.stack.spec_contains(g));
    }
}

/// Baseline persistence: while no widget-driven request is outstanding, the
/// displayed icon is the initialization-time default.
pub proof fn lemma_baseline_persists(s: CursorSystem)
    requires
        s.wf(),
        s.outstanding() == 0,
    ensures
        s.displayed() == s.default_icon(),
{
    lemma_top_is_max(s.stack);
    let t = s.stack.top_of();
    assert(s.stack.spec_contains(t));
    assert(t == s.baseline);
}

} // verus!
