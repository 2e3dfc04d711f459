//! The route ledger: an ordered, key-unique collection of routes plus the
//! taxonomy settings — the whole persisted snapshot. Commands that can
//! change a route's classification (create, edit) re-apply the sort policy;
//! retiring and ticking never do. Commands naming an absent identifier are
//! silent no-ops.

use vstd::prelude::*;
use crate::host::{fresh_route_id, local_midnight_epoch, now_epoch_seconds};
use crate::order::{entries_view, sort_entries, spec_sort, EntryView};
use crate::route::{copy_route, Route, RouteId, RouteView, Tick, TickKind};
use crate::stats::{
    ascent_count, ascents_after, spec_sends_today, spec_sends_total,
};
use crate::taxonomy::{Settings, SettingsView};

verus! {

/// The complete persisted state: every route keyed by its identifier, in
/// display order, plus the three taxonomy catalogs.
pub struct Snapshot {
    pub routes: Vec<(RouteId, Route)>,
    pub settings: Settings,
}

/// The mathematical content of a snapshot.
pub ghost struct SnapshotView {
    pub routes: Seq<EntryView>,
    pub settings: SettingsView,
}

impl View for Snapshot {
    type V = SnapshotView;

    open spec fn view(&self) -> SnapshotView {
        SnapshotView { routes: entries_view(self.routes@), settings: self.settings@ }
    }
}

/// The first position holding `id`, searched from `i` on.
pub open spec fn spec_find_from(rs: Seq<EntryView>, id: RouteId, i: int) -> Option<int>
    decreases rs.len() - i,
{
    if i < 0 || i >= rs.len() {
        None
    } else if rs[i].0 == id {
        Some(i)
    } else {
        spec_find_from(rs, id, i + 1)
    }
}

/// The first position holding `id`, if any.
pub open spec fn spec_find(rs: Seq<EntryView>, id: RouteId) -> Option<int> {
    spec_find_from(rs, id, 0)
}

/// A freshly created route: empty tick history, not retired.
pub open spec fn spec_new_route(
    title: Seq<char>,
    color: Seq<char>,
    section: Seq<char>,
    grade: Seq<char>,
) -> RouteView {
    RouteView { title, color, section, grade, ticks: Seq::empty(), retired: false }
}

/// Keyed insertion: replaces the route at an existing position for `id`,
/// appends otherwise — key uniqueness is preserved either way.
pub open spec fn spec_upsert(rs: Seq<EntryView>, id: RouteId, r: RouteView) -> Seq<EntryView> {
    match spec_find(rs, id) {
        Some(i) => rs.update(i, (id, r)),
        None => rs.push((id, r)),
    }
}

/// What editing does: the four classification fields are overwritten in
/// place, ticks and retirement stay; an absent `id` changes nothing.
pub open spec fn spec_edit(
    rs: Seq<EntryView>,
    id: RouteId,
    title: Seq<char>,
    color: Seq<char>,
    section: Seq<char>,
    grade: Seq<char>,
) -> Seq<EntryView> {
    match spec_find(rs, id) {
        Some(i) => rs.update(
            i,
            (
                id,
                RouteView {
                    title,
                    color,
                    section,
                    grade,
                    ticks: rs[i].1.ticks,
                    retired: rs[i].1.retired,
                },
            ),
        ),
        None => rs,
    }
}

/// What retiring does: the one-way flag is set, everything else stays; an
/// absent `id` changes nothing.
pub open spec fn spec_retire(rs: Seq<EntryView>, id: RouteId) -> Seq<EntryView> {
    match spec_find(rs, id) {
        Some(i) => rs.update(
            i,
            (
                id,
                RouteView {
                    title: rs[i].1.title,
                    color: rs[i].1.color,
                    section: rs[i].1.section,
                    grade: rs[i].1.grade,
                    ticks: rs[i].1.ticks,
                    retired: true,
                },
            ),
        ),
        None => rs,
    }
}

/// What recording a tick does: the tick is appended to the route's history;
/// an absent `id` changes nothing.
pub open spec fn spec_record(rs: Seq<EntryView>, id: RouteId, t: Tick) -> Seq<EntryView> {
    match spec_find(rs, id) {
        Some(i) => rs.update(
            i,
            (
                id,
                RouteView {
                    title: rs[i].1.title,
                    color: rs[i].1.color,
                    section: rs[i].1.section,
                    grade: rs[i].1.grade,
                    ticks: rs[i].1.ticks.push(t),
                    retired: rs[i].1.retired,
                },
            ),
        ),
        None => rs,
    }
}

/// The entries the primary view shows: ledger order, retired routes hidden.
pub open spec fn spec_active(rs: Seq<EntryView>) -> Seq<EntryView> {
    rs.filter(|e: EntryView| !e.1.retired)
}

/// The view of a plain route vector.
pub open spec fn route_seq_view(s: Seq<Route>) -> Seq<RouteView> {
    Seq::new(s.len(), |i: int| s[i]@)
}

/// The routes of the active entries, in order.
pub open spec fn active_routes(rs: Seq<EntryView>) -> Seq<RouteView> {
    spec_active(rs).map_values(|e: EntryView| e.1)
}

/// Every route of the ledger, in order.
pub open spec fn all_routes(rs: Seq<EntryView>) -> Seq<RouteView> {
    rs.map_values(|e: EntryView| e.1)
}

proof fn lemma_active_routes_step(rs: Seq<EntryView>, i: int)
    requires
        0 <= i < rs.len(),
    ensures
        rs[i].1.retired ==> active_routes(rs.subrange(0, i + 1)) == active_routes(
            rs.subrange(0, i),
        ),
        !rs[i].1.retired ==> active_routes(rs.subrange(0, i + 1)) == active_routes(
            rs.subrange(0, i),
        ).push(rs[i].1),
{
    reveal_with_fuel(Seq::filter, 2);
    let s1 = rs.subrange(0, i + 1);
    assert(s1.drop_last() =~= rs.subrange(0, i));
    assert(s1.last() == rs[i]);
    if rs[i].1.retired {
        assert(spec_active(s1) == spec_active(rs.subrange(0, i)));
        assert(active_routes(s1) =~= active_routes(rs.subrange(0, i)));
    } else {
        assert(spec_active(s1) == spec_active(rs.subrange(0, i)).push(rs[i]));
        assert(active_routes(s1) =~= active_routes(rs.subrange(0, i)).push(rs[i].1));
    }
}

impl Snapshot {
    /// The snapshot synthesized at first use: no routes, default catalogs.
    pub fn new_default() -> (s: Snapshot)
        ensures
            s@.routes == Seq::<EntryView>::empty(),
            s@.settings == crate::taxonomy::spec_default_settings(),
    {
        let s = Snapshot { routes: Vec::new(), settings: Settings::default() };
        proof {
            assert(entries_view(s.routes@) =~= Seq::<EntryView>::empty());
        }
        s
    }

    /// The first position holding `id`, if any.
    pub fn find_idx(&self, id: RouteId) -> (r: Option<usize>)
        ensures
            match r {
                Some(i) => spec_find(self@.routes, id) == Some(i as int) && i < self.routes@.len()
                    && self@.routes[i as int].0 == id,
                None => spec_find(self@.routes, id) is None,
            },
    {
        let mut i: usize = 0;
        while i < self.routes.len()
            invariant
                i <= self.routes.len(),
                spec_find(self@.routes, id) == spec_find_from(self@.routes, id, i as int),
            decreases self.routes.len() - i,
        {
            if self.routes[i].0 == id {
                return Some(i);
            }
            i += 1;
        }
        None
    }

    /// Inserts a route under a caller-supplied identifier and re-applies the
    /// sort policy.
    pub fn insert_route(
        &mut self,
        id: RouteId,
        title: String,
        color: String,
        section: String,
        grade: String,
    )
        ensures
            final(self)@.settings == old(self)@.settings,
            final(self)@.routes == spec_sort(
                old(self)@.settings,
                spec_upsert(
                    old(self)@.routes,
                    id,
                    spec_new_route(title@, color@, section@, grade@),
                ),
            ),
    {
        let ghost before = entries_view(self.routes@);
        let ghost rv = spec_new_route(title@, color@, section@, grade@);
        let r = Route { title, color, section, grade, ticks: Vec::new(), retired: false };
        match self.find_idx(id) {
            Some(i) => {
                let ghost vpre = self.routes@;
                self.routes.remove(i);
                self.routes.insert(i, (id, r));
                proof {
                    assert(self.routes@ =~= vpre.update(i as int, (id, r)));
                    assert(entries_view(self.routes@) =~= before.update(i as int, (id, rv)));
                }
            },
            None => {
                self.routes.push((id, r));
                proof {
                    assert(entries_view(self.routes@) =~= before.push((id, rv)));
                }
            },
        }
        sort_entries(&self.settings, &mut self.routes);
    }

    /// Creates a route with a fresh identifier, re-applies the sort policy
    /// and returns the identifier. Whatever identifier the random source
    /// hands back, the resulting ledger is exactly the sorted upsert of the
    /// new route under it.
    pub fn create(
        &mut self,
        title: String,
        color: String,
        section: String,
        grade: String,
    ) -> (id: RouteId)
        ensures
            final(self)@.settings == old(self)@.settings,
            final(self)@.routes == spec_sort(
                old(self)@.settings,
                spec_upsert(
                    old(self)@.routes,
                    id,
                    spec_new_route(title@, color@, section@, grade@),
                ),
            ),
    {
        let id = fresh_route_id();
        self.insert_route(id, title, color, section, grade);
        id
    }

    /// Overwrites the four classification fields of the route holding `id`
    /// and re-applies the sort policy; a no-op when `id` is absent.
    pub fn edit(
        &mut self,
        id: RouteId,
        title: String,
        color: String,
        section: String,
        grade: String,
    )
        ensures
            final(self)@.settings == old(self)@.settings,
            final(self)@.routes == match spec_find(old(self)@.routes, id) {
                Some(_) => spec_sort(
                    old(self)@.settings,
                    spec_edit(old(self)@.routes, id, title@, color@, section@, grade@),
                ),
                None => old(self)@.routes,
            },
    {
        let ghost before = entries_view(self.routes@);
        match self.find_idx(id) {
            Some(i) => {
                let ghost vpre = self.routes@;
                let (_, old_route) = self.routes.remove(i);
                let r = Route {
                    title,
                    color,
                    section,
                    grade,
                    ticks: old_route.ticks,
                    retired: old_route.retired,
                };
                self.routes.insert(i, (id, r));
                proof {
                    assert(entries_view(self.routes@) =~= spec_edit(
                        before,
                        id,
                        title@,
                        color@,
                        section@,
                        grade@,
                    ));
                }
                sort_entries(&self.settings, &mut self.routes);
            },
            None => {},
        }
    }

    /// Sets the one-way retirement flag of the route holding `id`; its
    /// history stays and the ledger order is not re-sorted. A no-op when
    /// `id` is absent.
    pub fn retire(&mut self, id: RouteId)
        ensures
            final(self)@.settings == old(self)@.settings,
            final(self)@.routes == spec_retire(old(self)@.routes, id),
    {
        let ghost before = entries_view(self.routes@);
        match self.find_idx(id) {
            Some(i) => {
                let (_, old_route) = self.routes.remove(i);
                let r = Route {
                    title: old_route.title,
                    color: old_route.color,
                    section: old_route.section,
                    grade: old_route.grade,
                    ticks: old_route.ticks,
                    retired: true,
                };
                self.routes.insert(i, (id, r));
                proof {
                    assert(entries_view(self.routes@) =~= spec_retire(before, id));
                }
            },
            None => {},
        }
    }

    /// Appends a tick with the given kind and timestamp to the route holding
    /// `id`; no re-sort. A no-op when `id` is absent.
    pub fn record_tick(&mut self, id: RouteId, kind: TickKind, timestamp: i64)
        ensures
            final(self)@.settings == old(self)@.settings,
            final(self)@.routes == spec_record(
                old(self)@.routes,
                id,
                Tick { kind, timestamp },
            ),
    {
        let ghost before = entries_view(self.routes@);
        match self.find_idx(id) {
            Some(i) => {
                let (_, mut old_route) = self.routes.remove(i);
                old_route.ticks.push(Tick { kind, timestamp });
                self.routes.insert(i, (id, old_route));
                proof {
                    assert(entries_view(self.routes@) =~= spec_record(
                        before,
                        id,
                        Tick { kind, timestamp },
                    ));
                }
            },
            None => {},
        }
    }

    /// Appends a tick stamped with the current clock time. Whatever instant
    /// the clock reports, the result is exactly that tick recorded.
    pub fn record_tick_now(&mut self, id: RouteId, kind: TickKind)
        ensures
            final(self)@.settings == old(self)@.settings,
            exists|ts: i64|
                final(self)@.routes == spec_record(
                    old(self)@.routes,
                    id,
                    Tick { kind, timestamp: ts },
                ),
    {
        let ts = now_epoch_seconds();
        self.record_tick(id, kind, ts);
    }

    /// The routes of the primary view: ledger order, retired routes hidden.
    pub fn iterate_active(&self) -> (r: Vec<Route>)
        ensures
            route_seq_view(r@) == active_routes(self@.routes),
    {
        let ghost rs = self@.routes;
        let mut out: Vec<Route> = Vec::new();
        let mut i: usize = 0;
        while i < self.routes.len()
            invariant
                i <= self.routes.len(),
                rs == self@.routes,
                route_seq_view(out@) == active_routes(rs.subrange(0, i as int)),
            decreases self.routes.len() - i,
        {
            proof {
                lemma_active_routes_step(rs, i as int);
            }
            if !self.routes[i].1.retired {
                let c = copy_route(&self.routes[i].1);
                out.push(c);
                proof {
                    assert(route_seq_view(out@) =~= active_routes(rs.subrange(0, i as int)).push(
                        rs[i as int].1,
                    ));
                }
            } else {
                proof {
                    assert(route_seq_view(out@) =~= active_routes(rs.subrange(0, i as int)));
                }
            }
            i += 1;
        }
        proof {
            assert(rs.subrange(0, rs.len() as int) =~= rs);
        }
        out
    }

    /// Every route, retired ones included, in ledger order — the domain of
    /// the aggregate statistics.
    pub fn iterate_all(&self) -> (r: Vec<Route>)
        ensures
            route_seq_view(r@) == all_routes(self@.routes),
    {
        let ghost rs = self@.routes;
        let mut out: Vec<Route> = Vec::new();
        let mut i: usize = 0;
        while i < self.routes.len()
            invariant
                i <= self.routes.len(),
                rs == self@.routes,
                route_seq_view(out@) == all_routes(rs.subrange(0, i as int)),
            decreases self.routes.len() - i,
        {
            let c = copy_route(&self.routes[i].1);
            let ghost prev = out@;
            out.push(c);
            proof {
                assert(c@ == rs[i as int].1);
                assert(out@ == prev.push(c));
                assert(route_seq_view(prev).len() == prev.len());
                assert(all_routes(rs.subrange(0, i as int)).len() == i);
                assert(prev.len() == i);
                assert(out@.len() == i + 1);
                assert forall|t: int| 0 <= t < out@.len() implies #[trigger] route_seq_view(out@)[t]
                    == all_routes(rs.subrange(0, i + 1))[t] by {
                    assert(rs.subrange(0, i + 1)[t] == rs[t]);
                    if t < i {
                        assert(out@[t] == prev[t]);
                        assert(route_seq_view(prev)[t] == all_routes(rs.subrange(0, i as int))[t]);
                        assert(rs.subrange(0, i as int)[t] == rs[t]);
                    } else {
                        assert(out@[t] == c);
                    }
                }
                assert(route_seq_view(out@) =~= all_routes(rs.subrange(0, i + 1)));
            }
            i += 1;
        }
        proof {
            assert(rs.subrange(0, rs.len() as int) =~= rs);
        }
        out
    }

    /// The gym-wide aggregate: ascents dated after `midnight` and all
    /// ascents, across every route including retired ones.
    pub fn sends(&self, midnight: i64) -> (r: (u128, u128))
        ensures
            r.0 as int == spec_sends_today(self@.routes, midnight as int),
            r.1 as int == spec_sends_total(self@.routes),
    {
        let ghost rs = self@.routes;
        let mut today: u128 = 0;
        let mut total: u128 = 0;
        let mut i: usize = 0;
        while i < self.routes.len()
            invariant
                i <= self.routes.len(),
                rs == self@.routes,
                today as int == spec_sends_today(rs.subrange(0, i as int), midnight as int),
                total as int == spec_sends_total(rs.subrange(0, i as int)),
                today as int <= i * 0xffff_ffff_ffff_ffff,
                total as int <= i * 0xffff_ffff_ffff_ffff,
            decreases self.routes.len() - i,
        {
            proof {
                assert(rs.subrange(0, i + 1).drop_last() =~= rs.subrange(0, i as int));
                assert(rs.subrange(0, i + 1).last() == rs[i as int]);
                assert(usize::MAX <= 0xffff_ffff_ffff_ffff);
            }
            let td = ascents_after(&self.routes[i].1.ticks, midnight);
            let tt = ascent_count(&self.routes[i].1.ticks);
            today = today + td as u128;
            total = total + tt as u128;
            i += 1;
        }
        proof {
            assert(rs.subrange(0, rs.len() as int) =~= rs);
        }
        (today, total)
    }

    /// The aggregate against the local calendar day's start, when the host
    /// can name one. Whatever instant that is, both counts are exact for it.
    pub fn sends_now(&self) -> (r: Option<(u128, u128)>)
        ensures
            match r {
                Some(p) => p.1 as int == spec_sends_total(self@.routes) && exists|m: i64|
                    p.0 as int == spec_sends_today(self@.routes, m as int),
                None => true,
            },
    {
        match local_midnight_epoch() {
            Some(m) => {
                let p = self.sends(m);
                proof {
                    assert(p.0 as int == spec_sends_today(self@.routes, m as int));
                }
                Some(p)
            },
            None => None,
        }
    }
}

/// Consecutive grouping by section: a route joins the last block when it
/// shares that block's section, and opens a new block otherwise.
pub open spec fn spec_blocks(s: Seq<RouteView>) -> Seq<Seq<RouteView>>
    decreases s.len(),
{
    if s.len() == 0 {
        Seq::empty()
    } else {
        let b = spec_blocks(s.drop_last());
        if b.len() > 0 && b.last().len() > 0 && b.last().last().section == s.last().section {
            b.update(b.len() - 1, b.last().push(s.last()))
        } else {
            b.push(seq![s.last()])
        }
    }
}

/// Every block the grouping produces is nonempty and section-constant, and
/// adjacent blocks carry different sections.
pub proof fn lemma_blocks_shape(s: Seq<RouteView>)
    ensures
        forall|k: int| 0 <= k < spec_blocks(s).len() ==> #[trigger] spec_blocks(s)[k].len() > 0,
        forall|k: int, a: int, b: int|
            0 <= k < spec_blocks(s).len() && 0 <= a < spec_blocks(s)[k].len() && 0 <= b
                < spec_blocks(s)[k].len() ==> #[trigger] spec_blocks(s)[k][a].section == #[trigger] spec_blocks(
                s,
            )[k][b].section,
        forall|k: int|
            0 <= k < spec_blocks(s).len() - 1 ==> #[trigger] spec_blocks(s)[k].last().section
                != spec_blocks(s)[k + 1].first().section,
    decreases s.len(),
{
    if s.len() > 0 {
        lemma_blocks_shape(s.drop_last());
        let b = spec_blocks(s.drop_last());
        let r = spec_blocks(s);
        if b.len() > 0 && b.last().len() > 0 && b.last().last().section == s.last().section {
            let nb = b.last().push(s.last());
            assert(r == b.update(b.len() - 1, nb));
            assert forall|k: int, x: int, y: int|
                0 <= k < r.len() && 0 <= x < r[k].len() && 0 <= y < r[k].len() implies #[trigger] r[k][x].section
                == #[trigger] r[k][y].section by {
                if k == r.len() - 1 {
                    assert(r[k] == nb);
                    assert forall|t: int| 0 <= t < nb.len() implies #[trigger] nb[t].section
                        == s.last().section by {
                        if t < nb.len() - 1 {
                            assert(nb[t] == b.last()[t]);
                            assert(b.last()[t].section == b.last().last().section);
                        }
                    }
                } else {
                    assert(r[k] == b[k]);
                }
            }
            assert forall|k: int| 0 <= k < r.len() - 1 implies #[trigger] r[k].last().section
                != r[k + 1].first().section by {
                if k + 1 == r.len() - 1 {
                    assert(r[k] == b[k]);
                    assert(r[k + 1].first() == b.last().first());
                } else {
                    assert(r[k] == b[k]);
                    assert(r[k + 1] == b[k + 1]);
                }
            }
        } else {
            assert(r == b.push(seq![s.last()]));
            assert forall|k: int, x: int, y: int|
                0 <= k < r.len() && 0 <= x < r[k].len() && 0 <= y < r[k].len() implies #[trigger] r[k][x].section
                == #[trigger] r[k][y].section by {
                if k < r.len() - 1 {
                    assert(r[k] == b[k]);
                }
            }
            assert forall|k: int| 0 <= k < r.len() - 1 implies #[trigger] r[k].last().section
                != r[k + 1].first().section by {
                if k == r.len() - 2 {
                    assert(r[k] == b.last());
                    assert(r[k + 1].first() == s.last());
                } else {
                    assert(r[k] == b[k]);
                    assert(r[k + 1] == b[k + 1]);
                }
            }
        }
    }
}

/// The view of a vector of route blocks.
pub open spec fn blocks_view(bs: Seq<Vec<Route>>) -> Seq<Seq<RouteView>> {
    Seq::new(bs.len(), |k: int| route_seq_view(bs[k]@))
}

impl Snapshot {
    /// The primary view's blocks: the active routes in ledger order,
    /// consecutive routes sharing a section rendered as one block.
    pub fn active_section_blocks(&self) -> (r: Vec<Vec<Route>>)
        ensures
            blocks_view(r@) == spec_blocks(active_routes(self@.routes)),
    {
        let active = self.iterate_active();
        let ghost av = route_seq_view(active@);
        let mut blocks: Vec<Vec<Route>> = Vec::new();
        let mut i: usize = 0;
        while i < active.len()
            invariant
                i <= active.len(),
                av == route_seq_view(active@),
                av.len() == active@.len(),
                blocks_view(blocks@) == spec_blocks(av.subrange(0, i as int)),
                forall|k: int| 0 <= k < blocks@.len() ==> #[trigger] blocks@[k]@.len() > 0,
            decreases active.len() - i,
        {
            proof {
                assert(av.subrange(0, i + 1).drop_last() =~= av.subrange(0, i as int));
                assert(av.subrange(0, i + 1).last() == av[i as int]);
                assert(av[i as int] == active@[i as int]@);
            }
            let c = copy_route(&active[i]);
            let n = blocks.len();
            let mut joins = false;
            if n > 0 {
                let lb = &blocks[n - 1];
                proof {
                    assert(blocks@[n - 1]@.len() > 0);
                    assert(blocks_view(blocks@)[n - 1] == route_seq_view(blocks@[n - 1]@));
                }
                if lb[lb.len() - 1].section == c.section {
                    joins = true;
                }
            }
            if joins {
                let ghost bprev = blocks@;
                match blocks.pop() {
                    Some(mut lb) => {
                        let ghost lbprev = lb@;
                        lb.push(c);
                        blocks.push(lb);
                        proof {
                            assert(blocks@.len() == bprev.len());
                            assert forall|k: int| 0 <= k < blocks@.len() implies #[trigger] blocks_view(
                                blocks@,
                            )[k] == spec_blocks(av.subrange(0, i + 1))[k] by {
                                if k < blocks@.len() - 1 {
                                    assert(blocks@[k] == bprev[k]);
                                    assert(blocks_view(bprev)[k] == spec_blocks(
                                        av.subrange(0, i as int),
                                    )[k]);
                                } else {
                                    assert(blocks@[k]@ =~= lbprev.push(c));
                                    assert(route_seq_view(blocks@[k]@) =~= route_seq_view(
                                        lbprev,
                                    ).push(c@));
                                    assert(route_seq_view(lbprev) == blocks_view(bprev)[k]);
                                }
                            }
                            assert(blocks_view(blocks@) =~= spec_blocks(av.subrange(0, i + 1)));
                        }
                    },
                    None => {
                        proof {
                            assert(false);
                        }
                    },
                }
            } else {
                let mut nb: Vec<Route> = Vec::new();
                nb.push(c);
                let ghost bprev = blocks@;
                blocks.push(nb);
                proof {
                    assert forall|k: int| 0 <= k < blocks@.len() implies #[trigger] blocks_view(
                        blocks@,
                    )[k] == spec_blocks(av.subrange(0, i + 1))[k] by {
                        if k < blocks@.len() - 1 {
                            assert(blocks@[k] == bprev[k]);
                            assert(blocks_view(bprev)[k] == spec_blocks(
                                av.subrange(0, i as int),
                            )[k]);
                        } else {
                            assert(route_seq_view(blocks@[k]@) =~= seq![c@]);
                        }
                    }
                    assert(blocks_view(blocks@) =~= spec_blocks(av.subrange(0, i + 1)));
                }
            }
            i += 1;
        }
        proof {
            assert(av.subrange(0, av.len() as int) =~= av);
        }
        blocks
    }
}

proof fn lemma_sends_update_same_ticks(rs: Seq<EntryView>, i: int, e: EntryView, midnight: int)
    requires
        0 <= i < rs.len(),
        e.1.ticks == rs[i].1.ticks,
    ensures
        spec_sends_total(rs.update(i, e)) == spec_sends_total(rs),
        spec_sends_today(rs.update(i, e), midnight) == spec_sends_today(rs, midnight),
    decreases rs.len(),
{
    let u = rs.update(i, e);
    if i == rs.len() - 1 {
        assert(u.drop_last() =~= rs.drop_last());
        assert(u.last() == e);
    } else {
        assert(u.drop_last() =~= rs.drop_last().update(i, e));
        lemma_sends_update_same_ticks(rs.drop_last(), i, e, midnight);
        assert(u.last() == rs.last());
    }
}

/// Retiring a route preserves both aggregate send counts, keeps the route in
/// the full iteration, and removes it from the active iteration alone: the
/// active entries afterwards are exactly the active entries drawn from the
/// ledger with that position's entry dropped.
pub proof fn lemma_retire_preserves_aggregate(rs: Seq<EntryView>, id: RouteId, midnight: int)
    ensures
        spec_sends_total(spec_retire(rs, id)) == spec_sends_total(rs),
        spec_sends_today(spec_retire(rs, id), midnight) == spec_sends_today(rs, midnight),
        spec_retire(rs, id).len() == rs.len(),
        spec_find(rs, id) matches Some(i) ==> spec_active(spec_retire(rs, id)) == spec_active(
            rs.subrange(0, i) + rs.subrange(i + 1, rs.len() as int),
        ),
{
    broadcast use vstd::seq_lib::group_seq_properties;

    match spec_find(rs, id) {
        Some(i) => {
            lemma_find_in_range(rs, id, 0);
            let e = (
                id,
                RouteView {
                    title: rs[i].1.title,
                    color: rs[i].1.color,
                    section: rs[i].1.section,
                    grade: rs[i].1.grade,
                    ticks: rs[i].1.ticks,
                    retired: true,
                },
            );
            lemma_sends_update_same_ticks(rs, i, e, midnight);
            broadcast use Seq::filter_distributes_over_add;

            let a = rs.subrange(0, i);
            let b = rs.subrange(i + 1, rs.len() as int);
            assert(rs.update(i, e) =~= (a + seq![e]) + b);
            assert(spec_active(seq![e]) == Seq::<EntryView>::empty()) by {
                reveal_with_fuel(Seq::filter, 2);
                assert(seq![e].drop_last() =~= Seq::<EntryView>::empty());
            }
            assert(spec_active((a + seq![e]) + b) == spec_active(a + seq![e]) + spec_active(b));
            assert(spec_active(a + seq![e]) == spec_active(a) + spec_active(seq![e]));
            assert(spec_active(a) + spec_active(seq![e]) =~= spec_active(a));
            assert(spec_active(a + b) == spec_active(a) + spec_active(b));
            assert(spec_active(rs.update(i, e)) == spec_active(a + b));
        },
        None => {},
    }
}

proof fn lemma_find_in_range(rs: Seq<EntryView>, id: RouteId, i: int)
    requires
        0 <= i,
    ensures
        spec_find_from(rs, id, i) matches Some(j) ==> i <= j < rs.len() && rs[j].0 == id,
    decreases rs.len() - i,
{
    if i < rs.len() && rs[i].0 != id {
        lemma_find_in_range(rs, id, i + 1);
    }
}

} // verus!
