//! A calendar of events, kept in the order of events and found by identifier.
use crate::event::{
    event_lt, lemma_event_lt_asymmetric, lemma_event_lt_total, lemma_event_lt_transitive, Event,
    EventView,
};
use crate::time::DateTime;
use std::collections::BTreeMap;
use vstd::prelude::*;

verus! {

/// Each event comes strictly before the ones after it, and no two share an
/// identifier.
pub open spec fn sorted_unique(s: Seq<EventView>) -> bool {
    &&& forall|i: int, j: int| 0 <= i < j < s.len() ==> event_lt(#[trigger] s[i], #[trigger] s[j])
    &&& forall|i: int, j: int|
        0 <= i < s.len() && 0 <= j < s.len() && i != j ==> (#[trigger] s[i]).id != (#[trigger] s[j]).id
}

/// Some event of `s` carries the identifier `id`.
pub open spec fn has_id(s: Seq<EventView>, id: u128) -> bool {
    exists|x: EventView| #[trigger] s.contains(x) && x.id == id
}

/// `after` holds `e` and every event of `before` whose identifier differs from `e`'s.
pub open spec fn added(before: Seq<EventView>, e: EventView, after: Seq<EventView>) -> bool {
    forall|x: EventView|
        #[trigger] after.contains(x) <==> (x == e || (before.contains(x) && x.id != e.id))
}

/// The start or the end of `e` lies within `[start, end]`.
pub open spec fn in_window(e: EventView, start: DateTime, end: DateTime) -> bool {
    ||| start.timestamp() <= e.start.timestamp() <= end.timestamp()
    ||| start.timestamp() <= e.end.timestamp() <= end.timestamp()
}

/// [`in_window`] as a predicate, for filtering.
pub open spec fn window(start: DateTime, end: DateTime) -> spec_fn(EventView) -> bool {
    |e: EventView| in_window(e, start, end)
}

/// What the referenced events hold.
pub open spec fn ref_views(r: Seq<&Event>) -> Seq<EventView> {
    r.map_values(|e: &Event| e@)
}

/// The events of a calendar, stored once under their identifiers, with the
/// identifiers listed again in the order of events.
pub struct EventCalendar {
    ids: BTreeMap<u128, Event>,
    order: Vec<u128>,
}

/// The events stored under the identifiers of `order`, in that order.
pub closed spec fn listed(ids: Map<u128, Event>, order: Seq<u128>) -> Seq<EventView> {
    order.map_values(|id: u128| ids[id]@)
}

/// Each identifier of `order` names an event of `ids`, and is listed once;
/// each event of `ids` carries the identifier it is stored under.
closed spec fn listed_wf(ids: Map<u128, Event>, order: Seq<u128>) -> bool {
    &&& forall|k: int| 0 <= k < order.len() ==> ids.contains_key(#[trigger] order[k])
    &&& forall|id: u128| #[trigger] ids.contains_key(id) ==> ids[id]@.id == id
    &&& order.no_duplicates()
}

proof fn lemma_ids_listed(ids: Map<u128, Event>, order: Seq<u128>)
    requires
        listed_wf(ids, order),
    ensures
        listed(ids, order).len() == order.len(),
        forall|k: int| 0 <= k < order.len() ==> (#[trigger] listed(ids, order)[k]).id == order[k],
{
    assert forall|k: int| 0 <= k < order.len() implies (#[trigger] listed(ids, order)[k]).id
        == order[k] by {
        assert(ids.contains_key(order[k]));
    }
}

proof fn lemma_remove_listed(ids: Map<u128, Event>, order: Seq<u128>, i: int)
    requires
        listed_wf(ids, order),
        0 <= i < order.len(),
    ensures
        listed_wf(ids, order.remove(i)),
        listed(ids, order.remove(i)) == listed(ids, order).remove(i),
{
    let o = order.remove(i);
    assert forall|a: int, b: int| 0 <= a < b < o.len() implies o[a] != o[b] by {
        let a0 = if a < i { a } else { a + 1 };
        let b0 = if b < i { b } else { b + 1 };
        assert(o[a] == order[a0]);
        assert(o[b] == order[b0]);
    }
    assert forall|k: int| 0 <= k < o.len() implies ids.contains_key(#[trigger] o[k]) by {
        if k < i {
            assert(o[k] == order[k]);
        } else {
            assert(o[k] == order[k + 1]);
        }
    }
    assert(listed(ids, o) =~= listed(ids, order).remove(i));
}

proof fn lemma_insert_listed(ids: Map<u128, Event>, order: Seq<u128>, j: int, e: Event)
    requires
        listed_wf(ids, order),
        !order.contains(e@.id),
        0 <= j <= order.len(),
    ensures
        listed_wf(ids.insert(e@.id, e), order.insert(j, e@.id)),
        listed(ids.insert(e@.id, e), order.insert(j, e@.id)) == listed(ids, order).insert(j, e@),
{
    let id = e@.id;
    let ids2 = ids.insert(id, e);
    let o = order.insert(j, id);
    assert forall|k: int| 0 <= k < o.len() implies ids2.contains_key(#[trigger] o[k]) by {
        if k < j {
            assert(o[k] == order[k]);
        } else if k > j {
            assert(o[k] == order[k - 1]);
        }
    }
    assert forall|a: int, b: int| 0 <= a < b < o.len() implies o[a] != o[b] by {
        if a == j {
            assert(o[b] == order[b - 1]);
        } else if b == j {
            assert(o[a] == order[a]);
        } else {
            let a1 = if a < j { a } else { a - 1 };
            let b1 = if b < j { b } else { b - 1 };
            assert(o[a] == order[a1]);
            assert(o[b] == order[b1]);
        }
    }
    assert forall|k: int| 0 <= k < o.len() implies #[trigger] listed(ids2, o)[k] == listed(
        ids,
        order,
    ).insert(j, e@)[k] by {
        if k < j {
            assert(o[k] == order[k]);
        } else if k > j {
            assert(o[k] == order[k - 1]);
        }
    }
    assert(listed(ids2, o) =~= listed(ids, order).insert(j, e@));
}

/// After the listed event at `i` goes, its identifier is gone from the list
/// and every other event stays.
proof fn lemma_remove_event(s: Seq<EventView>, i: int)
    requires
        sorted_unique(s),
        0 <= i < s.len(),
    ensures
        sorted_unique(s.remove(i)),
        forall|x: EventView| #[trigger]
            s.remove(i).contains(x) <==> (s.contains(x) && x.id != s[i].id),
{
    let t = s.remove(i);
    assert forall|x: EventView| #[trigger] t.contains(x) <==> (s.contains(x) && x.id != s[i].id) by {
        if t.contains(x) {
            let k = choose|k: int| 0 <= k < t.len() && t[k] == x;
            if k >= i {
                assert(s[k + 1] == x);
            } else {
                assert(s[k] == x);
            }
        }
        if s.contains(x) && x.id != s[i].id {
            let k = choose|k: int| 0 <= k < s.len() && s[k] == x;
            if k < i {
                assert(t[k] == x);
            } else {
                assert(k != i);
                assert(t[k - 1] == x);
            }
        }
    }
    assert forall|a: int, b: int| 0 <= a < b < t.len() implies event_lt(#[trigger] t[a], #[trigger] t[b]) by {
        let a0 = if a < i { a } else { a + 1 };
        let b0 = if b < i { b } else { b + 1 };
        assert(t[a] == s[a0]);
        assert(t[b] == s[b0]);
    }
    assert forall|a: int, b: int| 0 <= a < t.len() && 0 <= b < t.len() && a != b implies (#[trigger] t[a]).id != (#[trigger] t[b]).id by {
        let a0 = if a < i { a } else { a + 1 };
        let b0 = if b < i { b } else { b + 1 };
        assert(t[a] == s[a0]);
        assert(t[b] == s[b0]);
    }
}

/// Inserting `e` where it falls in the order keeps the events sorted.
proof fn lemma_insert_event(s: Seq<EventView>, j: int, e: EventView)
    requires
        sorted_unique(s),
        0 <= j <= s.len(),
        forall|k: int| 0 <= k < j ==> event_lt(#[trigger] s[k], e),
        forall|k: int| j <= k < s.len() ==> event_lt(e, #[trigger] s[k]),
        forall|k: int| 0 <= k < s.len() ==> (#[trigger] s[k]).id != e.id,
    ensures
        sorted_unique(s.insert(j, e)),
        forall|x: EventView| #[trigger] s.insert(j, e).contains(x) <==> (x == e || s.contains(x)),
{
    let t = s.insert(j, e);
    assert forall|a: int, b: int| 0 <= a < b < t.len() implies event_lt(#[trigger] t[a], #[trigger] t[b]) by {
        if b < j {
        } else if b == j {
        } else if a < j {
            lemma_event_lt_transitive(s[a], e, s[b - 1]);
        } else if a == j {
        } else {
        }
    }
    assert forall|x: EventView| #[trigger] t.contains(x) <==> (x == e || s.contains(x)) by {
        if t.contains(x) && x != e {
            let k = choose|k: int| 0 <= k < t.len() && t[k] == x;
            if k < j {
                assert(s[k] == x);
            } else {
                assert(s[k - 1] == x);
            }
        }
        if x == e {
            assert(t[j] == x);
        }
        if s.contains(x) {
            let k = choose|k: int| 0 <= k < s.len() && s[k] == x;
            if k < j {
                assert(t[k] == x);
            } else {
                assert(t[k + 1] == x);
            }
        }
    }
}

/// Every stored identifier is still listed after an event is re-listed.
proof fn lemma_all_listed(
    ids: Map<u128, Event>,
    order0: Seq<u128>,
    order1: Seq<u128>,
    j: int,
    e: Event,
    found: bool,
    i: int,
)
    requires
        forall|id: u128| #[trigger] ids.contains_key(id) ==> order0.contains(id),
        found ==> 0 <= i < order0.len() && order0[i] == e@.id && order1 == order0.remove(i),
        !found ==> order1 == order0,
        0 <= j <= order1.len(),
    ensures
        forall|id: u128| #[trigger] ids.insert(e@.id, e).contains_key(id) ==> order1.insert(j, e@.id).contains(id),
{
    let o = order1.insert(j, e@.id);
    assert forall|id: u128| #[trigger] ids.insert(e@.id, e).contains_key(id) implies o.contains(id) by {
        if id == e@.id {
            assert(o[j] == id);
        } else {
            assert(ids.contains_key(id));
            let k = choose|k: int| 0 <= k < order0.len() && order0[k] == id;
            let k1 = if found && k > i { k - 1 } else { k };
            assert(order1[k1] == id);
            if k1 < j {
                assert(o[k1] == id);
            } else {
                assert(o[k1 + 1] == id);
            }
        }
    }
}

impl View for EventCalendar {
    type V = Seq<EventView>;

    closed spec fn view(&self) -> Seq<EventView> {
        listed(self.ids@, self.order@)
    }
}

impl Default for EventCalendar {
    fn default() -> (r: EventCalendar)
        ensures
            r.wf(),
            r@ == Seq::<EventView>::empty(),
    {
        EventCalendar::new()
    }
}

impl EventCalendar {
    /// Each listed identifier names a stored event, and is listed once; each
    /// stored event carries the identifier it is stored under.
    closed spec fn indexed(&self) -> bool {
        listed_wf(self.ids@, self.order@)
    }

    /// The two views hold the same events, kept in the order of events.
    pub closed spec fn wf(&self) -> bool {
        &&& self.indexed()
        &&& forall|id: u128| #[trigger] self.ids@.contains_key(id) ==> self.order@.contains(id)
        &&& sorted_unique(self@)
    }

    /// An empty calendar.
    pub fn new() -> (r: EventCalendar)
        ensures
            r.wf(),
            r@ == Seq::<EventView>::empty(),
    {
        let r = EventCalendar { ids: BTreeMap::new(), order: Vec::new() };
        assert(r@ =~= Seq::<EventView>::empty());
        r
    }

    /// The `k`-th event in the order of events.
    fn event_at(&self, k: usize) -> (r: &Event)
        requires
            self.indexed(),
            k < self.order@.len(),
        ensures
            r@ == self@[k as int],
    {
        assert(self.ids@.contains_key(self.order@[k as int]));
        self.ids.get(&self.order[k]).unwrap()
    }

    /// Where `event` goes among the listed events, none of which shares its
    /// identifier.
    fn insertion_point(&self, event: &Event) -> (r: usize)
        requires
            self.indexed(),
            sorted_unique(self@),
            forall|k: int| 0 <= k < self@.len() ==> (#[trigger] self@[k]).id != event@.id,
        ensures
            r <= self@.len(),
            forall|k: int| 0 <= k < r ==> event_lt(#[trigger] self@[k], event@),
            forall|k: int| r <= k < self@.len() ==> event_lt(event@, #[trigger] self@[k]),
    {
        let m = self.order.len();
        let mut j: usize = 0;
        while j < m && self.event_at(j).precedes(event)
            invariant
                self.indexed(),
                m == self@.len(),
                j <= m,
                forall|k: int| 0 <= k < j ==> event_lt(#[trigger] self@[k], event@),
            decreases m - j,
        {
            j = j + 1;
        }
        proof {
            let s = self@;
            assert forall|k: int| j <= k < s.len() implies event_lt(event@, #[trigger] s[k]) by {
                lemma_event_lt_total(event@, s[j as int]);
                if k > j {
                    lemma_event_lt_transitive(event@, s[j as int], s[k]);
                }
            }
        }
        j
    }

    /// Adds `event`, replacing any event with the same identifier in both
    /// views; returns whether its identifier was new to the calendar.
    pub fn add_event(&mut self, event: Event) -> (r: bool)
        requires
            old(self).wf(),
        ensures
            final(self).wf(),
            sorted_unique(final(self)@),
            r == !has_id(old(self)@, event@.id),
            added(old(self)@, event@, final(self)@),
    {
        let ghost s0 = self@;
        let ghost order0 = self.order@;
        let id = event.id();
        let n = self.order.len();
        let mut i: usize = 0;
        while i < n && self.order[i] != id
            invariant
                n == self.order@.len(),
                i <= n,
                forall|k: int| 0 <= k < i ==> (#[trigger] self.order@[k]) != id,
            decreases n - i,
        {
            i = i + 1;
        }
        let found = i < n;
        proof {
            lemma_ids_listed(self.ids@, order0);
            if found {
                assert(s0.contains(s0[i as int]));
            } else {
                assert forall|x: EventView| #[trigger] s0.contains(x) implies x.id != id by {
                    let k = choose|k: int| 0 <= k < s0.len() && s0[k] == x;
                    assert(order0[k] != id);
                }
            }
        }
        if found {
            self.order.remove(i);
            proof {
                lemma_remove_listed(self.ids@, order0, i as int);
            }
        }
        let ghost s1 = self@;
        let ghost order1 = self.order@;
        proof {
            lemma_ids_listed(self.ids@, order1);
            if found {
                lemma_remove_event(s0, i as int);
            } else {
                assert(order1 == order0);
                assert(forall|k: int| 0 <= k < order1.len() ==> (#[trigger] order1[k]) != id);
            }
            assert(forall|k: int| 0 <= k < order1.len() ==> (#[trigger] order1[k]) != id);
            assert(!order1.contains(id));
        }
        let j = self.insertion_point(&event);
        let ghost stored = event;
        let ghost ids1 = self.ids@;
        self.order.insert(j, id);
        self.ids.insert(id, event);
        proof {
            lemma_insert_listed(ids1, order1, j as int, stored);
            lemma_insert_event(s1, j as int, stored@);
            lemma_all_listed(ids1, order0, order1, j as int, stored, found, i as int);
        }
        !found
    }

    /// The events whose start or end lies within `[start, end]`, in the order
    /// of events.
    pub fn events_in_range(&self, start: DateTime, end: DateTime) -> (r: Vec<&Event>)
        requires
            self.wf(),
        ensures
            ref_views(r@) == self@.filter(window(start, end)),
            sorted_unique(ref_views(r@)),
    {
        let ghost s = self@;
        let ghost p = window(start, end);
        let mut out: Vec<&Event> = Vec::new();
        let n = self.order.len();
        let lo = start.timestamp_seconds();
        let hi = end.timestamp_seconds();
        let mut i: usize = 0;
        proof {
            assert(s.take(0) =~= Seq::<EventView>::empty());
            reveal(Seq::filter);
            assert(ref_views(out@) =~= s.take(0).filter(p));
        }
        while i < n
            invariant
                n == self.order@.len(),
                s == self@,
                self.wf(),
                p == window(start, end),
                lo == start.timestamp(),
                hi == end.timestamp(),
                i <= n,
                ref_views(out@) == s.take(i as int).filter(p),
            decreases n - i,
        {
            let e = self.event_at(i);
            let st = e.start().timestamp_seconds();
            let en = e.end().timestamp_seconds();
            let keep = (lo <= st && st <= hi) || (lo <= en && en <= hi);
            proof {
                assert(keep == in_window(s[i as int], start, end));
                assert(keep == p(s[i as int]));
                assert(s.take(i as int + 1).drop_last() =~= s.take(i as int));
                assert(s.take(i as int + 1).last() == s[i as int]);
                reveal(Seq::filter);
            }
            if keep {
                out.push(e);
                proof {
                    assert(ref_views(out@) =~= s.take(i as int).filter(p).push(s[i as int]));
                }
            }
            i = i + 1;
        }
        proof {
            assert(s.take(n as int) =~= s);
            lemma_filter_sorted_unique(s, p);
        }
        out
    }

    /// The first event in the order of events, or `None` when the calendar is empty.
    pub fn first_event(&self) -> (r: Option<&Event>)
        requires
            self.wf(),
        ensures
            r is None <==> self@.len() == 0,
            r matches Some(e) ==> e@ == self@[0] && forall|k: int|
                1 <= k < self@.len() ==> event_lt(e@, #[trigger] self@[k]),
    {
        if self.order.len() == 0 {
            None
        } else {
            Some(self.event_at(0))
        }
    }

    /// The event with identifier `id`, if the calendar holds one.
    pub fn get(&self, id: u128) -> (r: Option<&Event>)
        requires
            self.wf(),
        ensures
            r is None <==> !has_id(self@, id),
            r matches Some(e) ==> e@.id == id && self@.contains(e@),
    {
        let r = self.ids.get(&id);
        proof {
            if self.ids@.contains_key(id) {
                assert(self.order@.contains(id));
                let k = choose|k: int| 0 <= k < self.order@.len() && self.order@[k] == id;
                assert(self@[k] == self.ids@[id]@);
                assert(self@.contains(self@[k]));
            } else {
                assert forall|x: EventView| #[trigger] self@.contains(x) implies x.id != id by {
                    let k = choose|k: int| 0 <= k < self@.len() && self@[k] == x;
                    assert(self.ids@.contains_key(self.order@[k]));
                }
            }
        }
        r
    }
}

/// Keeping the events that meet a condition keeps them in order.
pub proof fn lemma_filter_sorted_unique(s: Seq<EventView>, p: spec_fn(EventView) -> bool)
    requires
        sorted_unique(s),
    ensures
        sorted_unique(s.filter(p)),
    decreases s.len(),
{
    reveal(Seq::filter);
    if s.len() > 0 {
        let t = s.drop_last();
        assert(sorted_unique(t));
        lemma_filter_sorted_unique(t, p);
        let f = t.filter(p);
        if p(s.last()) {
            let g = f.push(s.last());
            assert forall|k: int| 0 <= k < f.len() implies event_lt(#[trigger] f[k], s.last())
                && f[k].id != s.last().id by {
                t.lemma_filter_contains_rev(p, f[k]);
                let q = choose|q: int| 0 <= q < t.len() && t[q] == f[k];
                assert(s[q] == f[k]);
            }
            assert(sorted_unique(g));
        }
    }
}

proof fn lemma_same_prefix(s1: Seq<EventView>, s2: Seq<EventView>, i: int)
    requires
        sorted_unique(s1),
        sorted_unique(s2),
        forall|x: EventView| s1.contains(x) <==> s2.contains(x),
        0 <= i <= s1.len(),
        i <= s2.len(),
    ensures
        forall|k: int| 0 <= k < i ==> s1[k] == s2[k],
    decreases i,
{
    if i > 0 {
        let m = i - 1;
        lemma_same_prefix(s1, s2, m);
        if s1[m] != s2[m] {
            assert(s1.contains(s1[m]));
            assert(s2.contains(s2[m]));
            let j1 = choose|j: int| 0 <= j < s2.len() && s2[j] == s1[m];
            let j2 = choose|j: int| 0 <= j < s1.len() && s1[j] == s2[m];
            if j1 < m {
                assert(event_lt(s1[j1], s1[m]));
            } else if j2 < m {
                assert(event_lt(s2[j2], s2[m]));
            } else {
                assert(event_lt(s2[m], s2[j1]));
                assert(event_lt(s1[m], s1[j2]));
                lemma_event_lt_asymmetric(s1[m], s2[m]);
            }
        }
    }
}

/// Two calendars that hold the same events hold them in the same order, so
/// the order of events never depends on the order in which they were added.
pub proof fn lemma_same_events_same_order(s1: Seq<EventView>, s2: Seq<EventView>)
    requires
        sorted_unique(s1),
        sorted_unique(s2),
        forall|x: EventView| s1.contains(x) <==> s2.contains(x),
    ensures
        s1 == s2,
{
    if s1.len() <= s2.len() {
        lemma_same_prefix(s1, s2, s1.len() as int);
        if s1.len() < s2.len() {
            let m = s1.len() as int;
            assert(s2.contains(s2[m]));
            let j = choose|j: int| 0 <= j < s1.len() && s1[j] == s2[m];
            assert(event_lt(s2[j], s2[m]));
        }
    } else {
        lemma_same_prefix(s1, s2, s2.len() as int);
        let m = s2.len() as int;
        assert(s1.contains(s1[m]));
        let j = choose|j: int| 0 <= j < s2.len() && s2[j] == s1[m];
        assert(event_lt(s1[j], s1[m]));
    }
    assert(s1 =~= s2);
}

/// Adding two events with different identifiers in either order leaves the
/// calendar in the same state.
pub proof fn lemma_add_order_irrelevant(
    s: Seq<EventView>,
    a: EventView,
    b: EventView,
    sa: Seq<EventView>,
    sab: Seq<EventView>,
    sb: Seq<EventView>,
    sba: Seq<EventView>,
)
    requires
        a.id != b.id,
        added(s, a, sa),
        added(sa, b, sab),
        added(s, b, sb),
        added(sb, a, sba),
        sorted_unique(sab),
        sorted_unique(sba),
    ensures
        sab == sba,
{
    assert forall|x: EventView| sab.contains(x) <==> sba.contains(x) by {
        assert(sab.contains(x) <==> (x == b || (sa.contains(x) && x.id != b.id)));
        assert(sba.contains(x) <==> (x == a || (sb.contains(x) && x.id != a.id)));
        assert(sa.contains(x) <==> (x == a || (s.contains(x) && x.id != a.id)));
        assert(sb.contains(x) <==> (x == b || (s.contains(x) && x.id != b.id)));
    }
    lemma_same_events_same_order(sab, sba);
}

/// A window that holds the start or end of every event keeps all of them.
pub proof fn lemma_covering_window_keeps_all(s: Seq<EventView>, start: DateTime, end: DateTime)
    requires
        forall|k: int| 0 <= k < s.len() ==> in_window(#[trigger] s[k], start, end),
    ensures
        s.filter(window(start, end)) == s,
    decreases s.len(),
{
    reveal(Seq::filter);
    if s.len() > 0 {
        let t = s.drop_last();
        assert forall|k: int| 0 <= k < t.len() implies in_window(#[trigger] t[k], start, end) by {
            assert(t[k] == s[k]);
        }
        lemma_covering_window_keeps_all(t, start, end);
        assert(in_window(s[s.len() - 1], start, end));
        assert(t.push(s.last()) =~= s);
    }
}

/// Once an event is added, its identifier is present, so adding any event
/// with that identifier again reports it as not new.
pub proof fn lemma_added_id_present(before: Seq<EventView>, e: EventView, after: Seq<EventView>)
    requires
        added(before, e, after),
    ensures
        has_id(after, e.id),
{
    assert(after.contains(e));
}

/// Once an event is added, it is the one event that carries its identifier,
/// so looking that identifier up finds exactly it.
pub proof fn lemma_added_event_found(before: Seq<EventView>, e: EventView, after: Seq<EventView>)
    requires
        added(before, e, after),
        sorted_unique(after),
    ensures
        forall|x: EventView| after.contains(x) && x.id == e.id ==> x == e,
{
    assert forall|x: EventView| after.contains(x) && x.id == e.id implies x == e by {
        assert(after.contains(e));
        let i = choose|k: int| 0 <= k < after.len() && after[k] == e;
        let j = choose|k: int| 0 <= k < after.len() && after[k] == x;
        if i != j {
            assert(after[i].id != after[j].id);
        }
    }
}

} // verus!
