//! Routes and their tick history. A route is classified by three taxonomy
//! keys and carries an append-only sequence of dated tick events; retiring a
//! route hides it from the primary view without deleting its history.

use vstd::prelude::*;

verus! {

/// An opaque, globally unique route identifier, assigned at creation and
/// never reused or reassigned.
pub type RouteId = u128;

/// The kind of one recorded tick: a successful ascent or a failed attempt.
#[derive(Clone, Copy, PartialEq, Eq, Structural, Debug)]
pub enum TickKind {
    Ascent,
    Attempt,
}

/// One dated tick event, stamped in epoch seconds. Ticks are never edited or
/// removed once recorded; out-of-order timestamps are tolerated.
#[derive(Clone, Copy, PartialEq, Eq, Structural, Debug)]
pub struct Tick {
    pub kind: TickKind,
    pub timestamp: i64,
}

/// A route: free-text title, three taxonomy keys, its tick history in append
/// order, and the one-way retirement flag.
pub struct Route {
    pub title: String,
    pub color: String,
    pub section: String,
    pub grade: String,
    pub ticks: Vec<Tick>,
    pub retired: bool,
}

/// The mathematical content of a route.
pub ghost struct RouteView {
    pub title: Seq<char>,
    pub color: Seq<char>,
    pub section: Seq<char>,
    pub grade: Seq<char>,
    pub ticks: Seq<Tick>,
    pub retired: bool,
}

impl View for Route {
    type V = RouteView;

    open spec fn view(&self) -> RouteView {
        RouteView {
            title: self.title@,
            color: self.color@,
            section: self.section@,
            grade: self.grade@,
            ticks: self.ticks@,
            retired: self.retired,
        }
    }
}

/// Copies a tick vector element by element.
pub fn copy_ticks(v: &Vec<Tick>) -> (r: Vec<Tick>)
    ensures
        r@ == v@,
{
    let mut r: Vec<Tick> = Vec::new();
    let mut i: usize = 0;
    while i < v.len()
        invariant
            i <= v.len(),
            r@ == v@.subrange(0, i as int),
        decreases v.len() - i,
    {
        r.push(v[i]);
        assert(v@.subrange(0, i + 1 as int) =~= v@.subrange(0, i as int).push(v@[i as int]));
        i += 1;
    }
    assert(v@.subrange(0, v@.len() as int) =~= v@);
    r
}

/// Copies a route, preserving its content exactly.
pub fn copy_route(r: &Route) -> (c: Route)
    ensures
        c@ == r@,
{
    Route {
        title: r.title.clone(),
        color: r.color.clone(),
        section: r.section.clone(),
        grade: r.grade.clone(),
        ticks: copy_ticks(&r.ticks),
        retired: r.retired,
    }
}

} // verus!
