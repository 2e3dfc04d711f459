//! The sort policy: a deterministic, total, stable order over routes, driven
//! by the taxonomy catalogs. Routes compare by section rank, then color rank,
//! then grade rank, then title (ordinal); remaining ties keep their pre-sort
//! relative order. The policy is re-applied after any operation that can
//! change a route's classification.

use vstd::prelude::*;
use crate::route::{Route, RouteId, RouteView};
use crate::taxonomy::{
    color_rank, grade_rank, section_rank, spec_rank, Settings, SettingsView,
};
use crate::strutil::{
    lemma_str_le_antisym, lemma_str_le_total, lemma_str_le_trans, spec_str_le, str_le,
};

verus! {

/// One ledger entry: an identifier paired with its route.
pub type EntryView = (RouteId, RouteView);

/// The view of a ledger vector.
pub open spec fn entries_view(s: Seq<(RouteId, Route)>) -> Seq<EntryView> {
    Seq::new(s.len(), |i: int| (s[i].0, s[i].1@))
}

/// The full sort key of a route under the given catalogs: the three taxonomy
/// ranks (absent keys rank 0) and the title.
pub ghost struct SortKey {
    pub sec: int,
    pub col: int,
    pub grade: int,
    pub title: Seq<char>,
}

/// The sort key the policy derives for a route.
pub open spec fn spec_sort_key(cfg: SettingsView, r: RouteView) -> SortKey {
    SortKey {
        sec: spec_rank(cfg.sections, r.section),
        col: spec_rank(cfg.colors, r.color),
        grade: spec_rank(cfg.grades, r.grade),
        title: r.title,
    }
}

/// The policy's total preorder on sort keys: section rank, then color rank,
/// then grade rank, then title in ordinal order.
pub open spec fn spec_key_le(a: SortKey, b: SortKey) -> bool {
    if a.sec != b.sec {
        a.sec < b.sec
    } else if a.col != b.col {
        a.col < b.col
    } else if a.grade != b.grade {
        a.grade < b.grade
    } else {
        spec_str_le(a.title, b.title)
    }
}

/// Shorthand: entry `a` sorts at or before entry `b`.
pub open spec fn spec_ent_le(cfg: SettingsView, a: EntryView, b: EntryView) -> bool {
    spec_key_le(spec_sort_key(cfg, a.1), spec_sort_key(cfg, b.1))
}

/// The key order is total.
pub proof fn lemma_key_le_total(a: SortKey, b: SortKey)
    ensures
        spec_key_le(a, b) || spec_key_le(b, a),
{
    lemma_str_le_total(a.title, b.title);
}

/// Keys ordered both ways are equal.
pub proof fn lemma_key_le_antisym(a: SortKey, b: SortKey)
    requires
        spec_key_le(a, b),
        spec_key_le(b, a),
    ensures
        a == b,
{
    lemma_str_le_antisym(a.title, b.title);
}

/// The key order is transitive.
pub proof fn lemma_key_le_trans(a: SortKey, b: SortKey, c: SortKey)
    requires
        spec_key_le(a, b),
        spec_key_le(b, c),
    ensures
        spec_key_le(a, c),
{
    if a.sec == b.sec && b.sec == c.sec && a.col == b.col && b.col == c.col && a.grade == b.grade
        && b.grade == c.grade {
        lemma_str_le_trans(a.title, b.title, c.title);
    }
}

/// Compares two routes under the policy.
pub fn route_le(cfg: &Settings, a: &Route, b: &Route) -> (r: bool)
    ensures
        r == spec_key_le(spec_sort_key(cfg@, a@), spec_sort_key(cfg@, b@)),
{
    let sa = section_rank(&cfg.sections, &a.section);
    let sb = section_rank(&cfg.sections, &b.section);
    if sa != sb {
        return sa < sb;
    }
    let ca = color_rank(&cfg.colors, &a.color);
    let cb = color_rank(&cfg.colors, &b.color);
    if ca != cb {
        return ca < cb;
    }
    let ga = grade_rank(&cfg.grades, &a.grade);
    let gb = grade_rank(&cfg.grades, &b.grade);
    if ga != gb {
        return ga < gb;
    }
    str_le(a.title.as_str(), b.title.as_str())
}

/// The sequence is ordered under the policy.
pub open spec fn spec_sorted(cfg: SettingsView, s: Seq<EntryView>) -> bool {
    forall|i: int, j: int|
        0 <= i < j < s.len() ==> spec_ent_le(cfg, #[trigger] s[i], #[trigger] s[j])
}

/// Stable insertion of `x` into `l`: `x` lands after every entry that sorts
/// at or before it.
pub open spec fn spec_insert(cfg: SettingsView, x: EntryView, l: Seq<EntryView>) -> Seq<EntryView>
    decreases l.len(),
{
    if l.len() == 0 {
        seq![x]
    } else if spec_ent_le(cfg, l.last(), x) {
        l.push(x)
    } else {
        spec_insert(cfg, x, l.drop_last()).push(l.last())
    }
}

/// The sort policy: a stable insertion sort, processing entries in their
/// current order.
pub open spec fn spec_sort(cfg: SettingsView, s: Seq<EntryView>) -> Seq<EntryView>
    decreases s.len(),
{
    if s.len() == 0 {
        s
    } else {
        spec_insert(cfg, s.last(), spec_sort(cfg, s.drop_last()))
    }
}

proof fn lemma_insert_props(cfg: SettingsView, x: EntryView, l: Seq<EntryView>)
    requires
        spec_sorted(cfg, l),
    ensures
        spec_sorted(cfg, spec_insert(cfg, x, l)),
        spec_insert(cfg, x, l).len() == l.len() + 1,
        forall|i: int|
            0 <= i < spec_insert(cfg, x, l).len() ==> spec_insert(cfg, x, l)[i] == x
                || l.contains(#[trigger] spec_insert(cfg, x, l)[i]),
    decreases l.len(),
{
    let r = spec_insert(cfg, x, l);
    if l.len() == 0 {
        assert(r == seq![x]);
    } else if spec_ent_le(cfg, l.last(), x) {
        assert(r == l.push(x));
        assert forall|i: int, j: int| 0 <= i < j < r.len() implies spec_ent_le(
            cfg,
            r[i],
            r[j],
        ) by {
            if j == l.len() {
                if i < l.len() - 1 {
                    assert(spec_ent_le(cfg, l[i], l.last()));
                    lemma_key_le_trans(
                        spec_sort_key(cfg, l[i].1),
                        spec_sort_key(cfg, l.last().1),
                        spec_sort_key(cfg, x.1),
                    );
                }
            }
        }
        assert forall|i: int| 0 <= i < r.len() implies r[i] == x || l.contains(#[trigger] r[i]) by {
            if i < l.len() {
                assert(l[i] == r[i]);
            }
        }
    } else {
        let dl = l.drop_last();
        let m = spec_insert(cfg, x, dl);
        lemma_insert_props(cfg, x, dl);
        assert(r == m.push(l.last()));
        lemma_key_le_total(spec_sort_key(cfg, l.last().1), spec_sort_key(cfg, x.1));
        assert(spec_ent_le(cfg, x, l.last()));
        assert forall|i: int, j: int| 0 <= i < j < r.len() implies spec_ent_le(
            cfg,
            r[i],
            r[j],
        ) by {
            if j == r.len() - 1 {
                // every element of m sorts at or before l.last()
                assert(m[i] == x || dl.contains(m[i]));
                if m[i] == x {
                } else {
                    let t = choose|t: int| 0 <= t < dl.len() && dl[t] == m[i];
                    assert(spec_ent_le(cfg, l[t], l.last()));
                }
            }
        }
        assert forall|i: int| 0 <= i < r.len() implies r[i] == x || l.contains(#[trigger] r[i]) by {
            if i < m.len() {
                if m[i] != x {
                    let t = choose|t: int| 0 <= t < dl.len() && dl[t] == m[i];
                    assert(l[t] == r[i]);
                }
            } else {
                assert(r[i] == l.last());
                assert(l.contains(l.last()));
            }
        }
    }
}

proof fn lemma_insert_multiset(cfg: SettingsView, x: EntryView, l: Seq<EntryView>)
    ensures
        spec_insert(cfg, x, l).to_multiset() == l.to_multiset().insert(x),
    decreases l.len(),
{
    broadcast use vstd::seq_lib::group_to_multiset_ensures;

    let r = spec_insert(cfg, x, l);
    if l.len() == 0 {
        assert(r == Seq::<EntryView>::empty().push(x));
        assert(l.to_multiset() =~= Seq::<EntryView>::empty().to_multiset());
    } else if spec_ent_le(cfg, l.last(), x) {
    } else {
        let dl = l.drop_last();
        lemma_insert_multiset(cfg, x, dl);
        assert(dl.push(l.last()) =~= l);
        assert(r.to_multiset() =~= l.to_multiset().insert(x));
    }
}

proof fn lemma_insert_filter(cfg: SettingsView, x: EntryView, l: Seq<EntryView>, k: SortKey)
    ensures
        ({
            let p = |e: EntryView| spec_sort_key(cfg, e.1) == k;
            if spec_sort_key(cfg, x.1) == k {
                spec_insert(cfg, x, l).filter(p) == l.filter(p).push(x)
            } else {
                spec_insert(cfg, x, l).filter(p) == l.filter(p)
            }
        }),
    decreases l.len(),
{
    reveal(Seq::filter);
    let p = |e: EntryView| spec_sort_key(cfg, e.1) == k;
    let r = spec_insert(cfg, x, l);
    if l.len() == 0 {
        assert(r == seq![x]);
        assert(r.drop_last() =~= Seq::<EntryView>::empty());
        assert(Seq::<EntryView>::empty().filter(p) =~= Seq::<EntryView>::empty());
        assert(l.filter(p) =~= Seq::<EntryView>::empty());
    } else if spec_ent_le(cfg, l.last(), x) {
        assert(r == l.push(x));
        assert(r.drop_last() =~= l);
        assert(r.last() == x);
    } else {
        let dl = l.drop_last();
        let m = spec_insert(cfg, x, dl);
        lemma_insert_filter(cfg, x, dl, k);
        assert(r == m.push(l.last()));
        assert(r.drop_last() =~= m);
        assert(r.last() == l.last());
        if spec_sort_key(cfg, x.1) == k {
            // the passed-over last entry sorts strictly after x, so its key differs
            lemma_key_le_total(spec_sort_key(cfg, l.last().1), spec_sort_key(cfg, x.1));
            if spec_sort_key(cfg, l.last().1) == k {
                assert(spec_ent_le(cfg, l.last(), x));
            }
            assert(!p(l.last()));
            assert(r.filter(p) == m.filter(p));
            assert(l.filter(p) == dl.filter(p));
        } else {
            if p(l.last()) {
                assert(r.filter(p) == m.filter(p).push(l.last()));
                assert(l.filter(p) == dl.filter(p).push(l.last()));
            } else {
                assert(r.filter(p) == m.filter(p));
                assert(l.filter(p) == dl.filter(p));
            }
        }
    }
}

/// What the sort policy guarantees: the result is ordered, it is a
/// permutation of the input, and entries with any one sort key keep their
/// relative order.
pub proof fn lemma_sort_props(cfg: SettingsView, s: Seq<EntryView>)
    ensures
        spec_sorted(cfg, spec_sort(cfg, s)),
        spec_sort(cfg, s).len() == s.len(),
        spec_sort(cfg, s).to_multiset() == s.to_multiset(),
    decreases s.len(),
{
    broadcast use vstd::seq_lib::group_to_multiset_ensures;

    if s.len() == 0 {
    } else {
        let dl = s.drop_last();
        lemma_sort_props(cfg, dl);
        lemma_insert_props(cfg, s.last(), spec_sort(cfg, dl));
        lemma_insert_multiset(cfg, s.last(), spec_sort(cfg, dl));
        assert(dl.push(s.last()) =~= s);
        assert(spec_sort(cfg, s).to_multiset() =~= s.to_multiset());
    }
}

/// Sort stability: for any fixed sort key, the subsequence of entries
/// carrying that key is unchanged by sorting — ties keep their pre-sort
/// relative order.
pub proof fn lemma_sort_stable(cfg: SettingsView, s: Seq<EntryView>, k: SortKey)
    ensures
        spec_sort(cfg, s).filter(|e: EntryView| spec_sort_key(cfg, e.1) == k) == s.filter(
            |e: EntryView| spec_sort_key(cfg, e.1) == k,
        ),
    decreases s.len(),
{
    reveal(Seq::filter);
    let p = |e: EntryView| spec_sort_key(cfg, e.1) == k;
    if s.len() == 0 {
    } else {
        let dl = s.drop_last();
        lemma_sort_stable(cfg, dl, k);
        lemma_insert_filter(cfg, s.last(), spec_sort(cfg, dl), k);
        assert(s.drop_last() =~= dl);
    }
}

/// Sorting an already ordered sequence leaves it unchanged.
pub proof fn lemma_sort_of_sorted(cfg: SettingsView, s: Seq<EntryView>)
    requires
        spec_sorted(cfg, s),
    ensures
        spec_sort(cfg, s) == s,
    decreases s.len(),
{
    if s.len() == 0 {
    } else {
        let dl = s.drop_last();
        assert(spec_sorted(cfg, dl)) by {
            assert forall|i: int, j: int| 0 <= i < j < dl.len() implies spec_ent_le(
                cfg,
                dl[i],
                dl[j],
            ) by {
                assert(spec_ent_le(cfg, s[i], s[j]));
            }
        }
        lemma_sort_of_sorted(cfg, dl);
        if dl.len() == 0 {
            assert(spec_insert(cfg, s.last(), dl) =~= s);
        } else {
            assert(spec_ent_le(cfg, s[dl.len() - 1], s[s.len() - 1]));
            assert(spec_ent_le(cfg, dl.last(), s.last()));
            assert(spec_insert(cfg, s.last(), dl) =~= s);
        }
    }
}

/// Sort idempotence: applying the policy twice yields the same order as
/// applying it once.
pub proof fn lemma_sort_idempotent(cfg: SettingsView, s: Seq<EntryView>)
    ensures
        spec_sort(cfg, spec_sort(cfg, s)) == spec_sort(cfg, s),
{
    lemma_sort_props(cfg, s);
    lemma_sort_of_sorted(cfg, spec_sort(cfg, s));
}

proof fn lemma_insert_middle(cfg: SettingsView, x: EntryView, pre: Seq<EntryView>, j: int)
    requires
        0 <= j <= pre.len(),
        forall|t: int| j <= t < pre.len() ==> !spec_ent_le(cfg, #[trigger] pre[t], x),
        j > 0 ==> spec_ent_le(cfg, pre[j - 1], x),
    ensures
        spec_insert(cfg, x, pre) == pre.subrange(0, j) + seq![x] + pre.subrange(
            j,
            pre.len() as int,
        ),
    decreases pre.len(),
{
    let r = spec_insert(cfg, x, pre);
    if j == pre.len() {
        if pre.len() == 0 {
            assert(r =~= pre.subrange(0, j) + seq![x] + pre.subrange(j, pre.len() as int));
        } else {
            assert(spec_ent_le(cfg, pre.last(), x));
            assert(r == pre.push(x));
            assert(r =~= pre.subrange(0, j) + seq![x] + pre.subrange(j, pre.len() as int));
        }
    } else {
        assert(!spec_ent_le(cfg, pre.last(), x));
        let dl = pre.drop_last();
        lemma_insert_middle(cfg, x, dl, j);
        assert(spec_insert(cfg, x, dl) == dl.subrange(0, j) + seq![x] + dl.subrange(
            j,
            dl.len() as int,
        ));
        assert(dl.subrange(0, j) =~= pre.subrange(0, j));
        assert(r =~= pre.subrange(0, j) + seq![x] + pre.subrange(j, pre.len() as int));
    }
}

/// Applies the sort policy to a ledger vector in place.
pub fn sort_entries(cfg: &Settings, v: &mut Vec<(RouteId, Route)>)
    ensures
        entries_view(final(v)@) == spec_sort(cfg@, entries_view(old(v)@)),
{
    let ghost cfgv = cfg@;
    let ghost orig = entries_view(old(v)@);
    let mut i: usize = 0;
    while i < v.len()
        invariant
            i <= v.len(),
            v@.len() == orig.len(),
            entries_view(v@) == spec_sort(cfgv, orig.subrange(0, i as int)) + orig.subrange(
                i as int,
                orig.len() as int,
            ),
            cfgv == cfg@,
            orig == entries_view(old(v)@),
        decreases v.len() - i,
    {
        let ghost pre = spec_sort(cfgv, orig.subrange(0, i as int));
        proof {
            lemma_sort_props(cfgv, orig.subrange(0, i as int));
            assert(pre.len() == i);
            assert(entries_view(v@)[i as int] == orig[i as int]);
        }
        let ghost vpre = v@;
        let x = v.remove(i);
        let ghost xv = (x.0, x.1@);
        proof {
            assert(xv == orig[i as int]);
            assert(v@ == vpre.remove(i as int));
            assert forall|t: int| 0 <= t < v@.len() implies #[trigger] entries_view(v@)[t] == (pre
                + orig.subrange(i + 1, orig.len() as int))[t] by {
                if t < i {
                    assert(v@[t] == vpre[t]);
                    assert(entries_view(vpre)[t] == pre[t]);
                } else {
                    assert(v@[t] == vpre[t + 1]);
                    assert(entries_view(vpre)[t + 1] == orig[t + 1]);
                }
            }
            assert(entries_view(v@) =~= pre + orig.subrange(i + 1, orig.len() as int));
        }
        let mut j: usize = i;
        while j > 0 && !route_le(cfg, &v[j - 1].1, &x.1)
            invariant
                j <= i,
                i < orig.len(),
                v@.len() == orig.len() - 1,
                cfgv == cfg@,
                pre == spec_sort(cfgv, orig.subrange(0, i as int)),
                pre.len() == i,
                xv == (x.0, x.1@),
                entries_view(v@) == pre + orig.subrange(i + 1, orig.len() as int),
                forall|t: int| j <= t < i ==> !spec_ent_le(cfgv, #[trigger] pre[t], xv),
            decreases j,
        {
            proof {
                assert(entries_view(v@)[j - 1] == pre[j - 1]);
                assert((v@[j - 1].0, v@[j - 1].1@) == pre[j - 1]);
            }
            j -= 1;
        }
        proof {
            if j > 0 {
                assert(entries_view(v@)[j - 1] == pre[j - 1]);
                assert(spec_ent_le(cfgv, pre[j - 1], xv));
            }
            lemma_insert_middle(cfgv, xv, pre, j as int);
        }
        let ghost vmid = v@;
        v.insert(j, x);
        proof {
            assert(v@ == vmid.insert(j as int, x));
            let target = pre.subrange(0, j as int) + seq![xv] + pre.subrange(
                j as int,
                pre.len() as int,
            ) + orig.subrange(i + 1, orig.len() as int);
            assert forall|t: int| 0 <= t < v@.len() implies #[trigger] entries_view(v@)[t]
                == target[t] by {
                if t < j {
                    assert(v@[t] == vmid[t]);
                    assert(entries_view(vmid)[t] == pre[t]);
                } else if t == j {
                    assert(v@[t] == x);
                } else {
                    assert(v@[t] == vmid[t - 1]);
                    assert(entries_view(vmid)[t - 1] == (pre + orig.subrange(
                        i + 1,
                        orig.len() as int,
                    ))[t - 1]);
                }
            }
            assert(entries_view(v@) =~= pre.subrange(0, j as int) + seq![xv] + pre.subrange(
                j as int,
                pre.len() as int,
            ) + orig.subrange(i + 1, orig.len() as int));
            assert(spec_sort(cfgv, orig.subrange(0, i + 1)) == spec_insert(
                cfgv,
                orig[i as int],
                pre,
            )) by {
                assert(orig.subrange(0, i + 1).drop_last() =~= orig.subrange(0, i as int));
                assert(orig.subrange(0, i + 1).last() == orig[i as int]);
            }
            assert(entries_view(v@) =~= spec_sort(cfgv, orig.subrange(0, i + 1)) + orig.subrange(
                i + 1,
                orig.len() as int,
            ));
        }
        i += 1;
    }
    proof {
        assert(orig.subrange(0, orig.len() as int) =~= orig);
        assert(orig.subrange(orig.len() as int, orig.len() as int) =~= Seq::<EntryView>::empty());
        assert(entries_view(v@) =~= spec_sort(cfgv, orig));
    }
}

} // verus!
