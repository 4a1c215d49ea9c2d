//! Routes through the conversion edges of one item, and their order.
//!
//! Every usable edge is passable both ways: it gives `unit_a` an arc to
//! `unit_b` and `unit_b` an arc back. The arcs that leave a unit are kept in
//! the order in which the edges were recorded. A route names, hop by hop,
//! which of the arcs leaving the unit it stands on it takes.
//!
//! Routes are ordered by length first; among routes of one length, by the
//! first hop at which they part, the earlier arc first.

use vstd::prelude::*;
use crate::records::{ConversionEdge, Ratio};

verus! {

/// One way through an edge: the unit it leads to and the factor it applies.
#[derive(Clone, Copy, Debug, PartialEq, Eq, Structural)]
pub struct Arc {
    pub to: i64,
    pub ratio: Ratio,
}

/// The arcs that one edge gives to `unit`: none if the edge is not usable or
/// does not touch the unit, both if it joins the unit to itself.
pub open spec fn edge_arcs(edge: ConversionEdge, unit: i64) -> Seq<Arc> {
    if !edge.usable() {
        Seq::empty()
    } else {
        let out = if edge.unit_a == unit {
            seq![Arc { to: edge.unit_b, ratio: edge.forward() }]
        } else {
            Seq::empty()
        };
        let back = if edge.unit_b == unit {
            seq![Arc { to: edge.unit_a, ratio: edge.backward() }]
        } else {
            Seq::empty()
        };
        out + back
    }
}

/// The arcs that leave `unit`, edge after edge.
pub open spec fn arcs_from(edges: Seq<ConversionEdge>, unit: i64) -> Seq<Arc>
    decreases edges.len(),
{
    if edges.len() == 0 {
        Seq::empty()
    } else {
        arcs_from(edges.drop_last(), unit) + edge_arcs(edges.last(), unit)
    }
}

/// The unit on which one stands after starting at `from` and taking, hop by
/// hop, the arcs that `picks` names.
pub open spec fn route_end(edges: Seq<ConversionEdge>, from: i64, picks: Seq<int>) -> i64
    decreases picks.len(),
{
    if picks.len() == 0 {
        from
    } else {
        arcs_from(edges, route_end(edges, from, picks.drop_last()))[picks.last()].to
    }
}

/// Each pick names an arc that leaves the unit reached so far.
pub open spec fn is_route(edges: Seq<ConversionEdge>, from: i64, picks: Seq<int>) -> bool
    decreases picks.len(),
{
    picks.len() == 0 || {
        &&& is_route(edges, from, picks.drop_last())
        &&& 0 <= picks.last() < arcs_from(
            edges,
            route_end(edges, from, picks.drop_last()),
        ).len()
    }
}

/// The factors of the arcs taken, in the order of travel.
pub open spec fn route_ratios(edges: Seq<ConversionEdge>, from: i64, picks: Seq<int>) -> Seq<
    Ratio,
>
    decreases picks.len(),
{
    if picks.len() == 0 {
        Seq::empty()
    } else {
        route_ratios(edges, from, picks.drop_last()).push(
            arcs_from(edges, route_end(edges, from, picks.drop_last()))[picks.last()].ratio,
        )
    }
}

/// `picks` is a route from `from` that ends on `to`.
pub open spec fn reaches(edges: Seq<ConversionEdge>, from: i64, to: i64, picks: Seq<int>) -> bool {
    is_route(edges, from, picks) && route_end(edges, from, picks) == to
}

/// Two routes of one length part at hop `k`, and `a` takes the earlier arc there.
pub open spec fn parts_at(a: Seq<int>, b: Seq<int>, k: int) -> bool {
    0 <= k < a.len() && k < b.len() && a.take(k) == b.take(k) && a[k] < b[k]
}

/// `a` comes strictly before `b`: it is shorter, or as long and takes the
/// earlier arc where the two part.
pub open spec fn route_before(a: Seq<int>, b: Seq<int>) -> bool {
    a.len() < b.len() || (a.len() == b.len() && exists|k: int| parts_at(a, b, k))
}

/// `a` is `b` or comes before it.
pub open spec fn route_at_most(a: Seq<int>, b: Seq<int>) -> bool {
    a == b || route_before(a, b)
}

/// `picks` reaches `to`, and no route that reaches `to` comes before it.
pub open spec fn is_first_route(
    edges: Seq<ConversionEdge>,
    from: i64,
    to: i64,
    picks: Seq<int>,
) -> bool {
    &&& reaches(edges, from, to, picks)
    &&& forall|other: Seq<int>| #[trigger]
        reaches(edges, from, to, other) ==> route_at_most(picks, other)
}

/// The first route from `from` to `to`, where there is one.
pub open spec fn first_route(edges: Seq<ConversionEdge>, from: i64, to: i64) -> Seq<int> {
    choose|picks: Seq<int>| is_first_route(edges, from, to, picks)
}

/// Some route of at most `max_hops` hops leads from `from` to `to`.
pub open spec fn reachable_within(
    edges: Seq<ConversionEdge>,
    from: i64,
    to: i64,
    max_hops: nat,
) -> bool {
    exists|picks: Seq<int>| #[trigger]
        reaches(edges, from, to, picks) && picks.len() <= max_hops
}

/// What a conversion from `from` to `to` is: the factors along the first
/// route and its number of hops, if `to` can be reached within `max_hops`.
pub open spec fn conversion_of(
    edges: Seq<ConversionEdge>,
    from: i64,
    to: i64,
    max_hops: nat,
) -> Option<(Seq<Ratio>, nat)> {
    if reachable_within(edges, from, to, max_hops) {
        let picks = first_route(edges, from, to);
        Some((route_ratios(edges, from, picks), picks.len()))
    } else {
        None
    }
}

/// No route comes before itself.
pub proof fn lemma_before_irreflexive(a: Seq<int>)
    ensures
        !route_before(a, a),
{
}

/// What comes before a route comes before all that the route comes before.
pub proof fn lemma_before_transitive(a: Seq<int>, b: Seq<int>, c: Seq<int>)
    requires
        route_before(a, b),
        route_before(b, c),
    ensures
        route_before(a, c),
{
    if a.len() == b.len() && b.len() == c.len() {
        let k1 = choose|k: int| parts_at(a, b, k);
        let k2 = choose|k: int| parts_at(b, c, k);
        if k1 <= k2 {
            assert(b.take(k1) =~= b.take(k2).take(k1));
            assert(c.take(k1) =~= c.take(k2).take(k1));
            if k1 < k2 {
                assert(b[k1] == b.take(k2)[k1]);
                assert(c[k1] == c.take(k2)[k1]);
            }
            assert(parts_at(a, c, k1));
        } else {
            assert(a.take(k2) =~= a.take(k1).take(k2));
            assert(b.take(k2) =~= b.take(k1).take(k2));
            assert(a[k2] == a.take(k1)[k2]);
            assert(b[k2] == b.take(k1)[k2]);
            assert(parts_at(a, c, k2));
        }
    }
}

/// The same of routes that may also be equal.
pub proof fn lemma_at_most_transitive(a: Seq<int>, b: Seq<int>, c: Seq<int>)
    requires
        route_at_most(a, b),
        route_at_most(b, c),
    ensures
        route_at_most(a, c),
{
    if a != b && b != c {
        lemma_before_transitive(a, b, c);
    }
}

/// Of two hops added to one route, the earlier arc gives the earlier route.
pub proof fn lemma_push_later_arc(a: Seq<int>, x: int, y: int)
    requires
        x < y,
    ensures
        route_before(a.push(x), a.push(y)),
{
    let k = a.len() as int;
    assert(a.push(x).take(k) =~= a.push(y).take(k));
    assert(parts_at(a.push(x), a.push(y), k));
}

/// A hop added to each of two routes leaves them in their order.
pub proof fn lemma_push_keeps_order(a: Seq<int>, b: Seq<int>, x: int, y: int)
    requires
        route_before(a, b),
    ensures
        route_before(a.push(x), b.push(y)),
{
    if a.len() == b.len() {
        let k = choose|k: int| parts_at(a, b, k);
        assert(a.push(x).take(k) =~= a.take(k));
        assert(b.push(y).take(k) =~= b.take(k));
        assert(parts_at(a.push(x), b.push(y), k));
    }
}

/// A route comes after each of its proper beginnings.
pub proof fn lemma_beginning_is_before(p: Seq<int>, n: int)
    requires
        0 <= n < p.len(),
    ensures
        route_before(p.take(n), p),
{
}

/// A route of one hop more is a route, ends where the arc leads and has the
/// arc's factor last.
pub proof fn lemma_route_push(edges: Seq<ConversionEdge>, from: i64, walk: Seq<int>, x: int)
    requires
        is_route(edges, from, walk),
        0 <= x < arcs_from(edges, route_end(edges, from, walk)).len(),
    ensures
        is_route(edges, from, walk.push(x)),
        route_end(edges, from, walk.push(x)) == arcs_from(
            edges,
            route_end(edges, from, walk),
        )[x].to,
        route_ratios(edges, from, walk.push(x)) == route_ratios(edges, from, walk).push(
            arcs_from(edges, route_end(edges, from, walk))[x].ratio,
        ),
{
    assert(walk.push(x).drop_last() =~= walk);
}

/// A route has one factor for each hop.
pub proof fn lemma_ratios_len(edges: Seq<ConversionEdge>, from: i64, walk: Seq<int>)
    ensures
        route_ratios(edges, from, walk).len() == walk.len(),
    decreases walk.len(),
{
    if walk.len() > 0 {
        lemma_ratios_len(edges, from, walk.drop_last());
    }
}

/// The beginning of a route is a route, and one hop more of it takes the arc
/// that the route names there.
pub proof fn lemma_route_beginning(edges: Seq<ConversionEdge>, from: i64, picks: Seq<int>, n: int)
    requires
        is_route(edges, from, picks),
        0 <= n <= picks.len(),
    ensures
        is_route(edges, from, picks.take(n)),
        n < picks.len() ==> {
            let here = route_end(edges, from, picks.take(n));
            &&& 0 <= picks[n] < arcs_from(edges, here).len()
            &&& route_end(edges, from, picks.take(n + 1)) == arcs_from(edges, here)[picks[n]].to
        },
    decreases picks.len(),
{
    if n == picks.len() {
        assert(picks.take(n) =~= picks);
    } else {
        if n == picks.len() - 1 {
            assert(picks.take(n) =~= picks.drop_last());
            assert(picks.take(n + 1) =~= picks);
        } else {
            lemma_route_beginning(edges, from, picks.drop_last(), n);
            assert(picks.drop_last().take(n) =~= picks.take(n));
            assert(picks.drop_last().take(n + 1) =~= picks.take(n + 1));
        }
        lemma_route_beginning(edges, from, picks.drop_last(), n);
        assert(picks.drop_last().take(n) =~= picks.take(n));
    }
}

/// The arc a route would take back: from the far end to `from`, with the
/// factor upside down.
pub open spec fn return_arc(from: i64, arc: Arc) -> Arc {
    Arc { to: from, ratio: Ratio { numer: arc.ratio.denom, denom: arc.ratio.numer } }
}

/// Reciprocity of the graph: wherever an arc leads from `unit` to another
/// unit, that unit has an arc back to `unit`, whose factor is the quotient
/// of the same two amounts the other way up.
pub proof fn lemma_arc_returns(edges: Seq<ConversionEdge>, unit: i64, x: int) -> (y: int)
    requires
        0 <= x < arcs_from(edges, unit).len(),
    ensures
        0 <= y < arcs_from(edges, arcs_from(edges, unit)[x].to).len(),
        arcs_from(edges, arcs_from(edges, unit)[x].to)[y] == return_arc(
            unit,
            arcs_from(edges, unit)[x],
        ),
    decreases edges.len(),
{
    let arc = arcs_from(edges, unit)[x];
    let earlier = arcs_from(edges.drop_last(), unit);
    if x < earlier.len() {
        lemma_arc_returns(edges.drop_last(), unit, x)
    } else {
        let edge = edges.last();
        let far = arcs_from(edges.drop_last(), arc.to).len() as int;
        if edge.unit_a == unit && x == earlier.len() {
            if edge.unit_a == edge.unit_b {
                far + 1
            } else {
                far
            }
        } else {
            far
        }
    }
}

/// At most one route is the first.
pub proof fn lemma_first_route_unique(
    edges: Seq<ConversionEdge>,
    from: i64,
    to: i64,
    p: Seq<int>,
    q: Seq<int>,
)
    requires
        is_first_route(edges, from, to, p),
        is_first_route(edges, from, to, q),
    ensures
        p == q,
{
    if p != q {
        assert(route_at_most(p, q));
        assert(route_at_most(q, p));
        lemma_before_transitive(p, q, p);
        lemma_before_irreflexive(p);
    }
}

} // verus!
