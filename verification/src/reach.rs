//! What holds of conversions whatever the edges: a unit converts into
//! itself, a conversion exists exactly when a route within the limit does,
//! raising the limit changes none that exists, what can be reached one way
//! can be reached back in as many hops, and edges that are not usable count
//! for nothing.

use vstd::prelude::*;
use crate::records::{ConversionEdge, Ratio};
use crate::route::{
    arcs_from, conversion_of, edge_arcs, first_route, is_first_route, is_route,
    lemma_arc_returns, lemma_before_transitive, lemma_first_route_unique, parts_at,
    reachable_within, reaches,
    return_arc, route_at_most, route_end, route_ratios,
};

verus! {

/// A route of one hop or more takes an arc of the unit it starts from and is
/// from there on a route from the unit the arc leads to.
pub proof fn lemma_route_front(edges: Seq<ConversionEdge>, from: i64, picks: Seq<int>)
    requires
        picks.len() > 0,
    ensures
        is_route(edges, from, picks) <==> {
            &&& 0 <= picks[0] < arcs_from(edges, from).len()
            &&& is_route(edges, arcs_from(edges, from)[picks[0]].to, picks.drop_first())
        },
        route_end(edges, from, picks) == route_end(
            edges,
            arcs_from(edges, from)[picks[0]].to,
            picks.drop_first(),
        ),
        route_ratios(edges, from, picks) == seq![arcs_from(edges, from)[picks[0]].ratio]
            + route_ratios(edges, arcs_from(edges, from)[picks[0]].to, picks.drop_first()),
    decreases picks.len(),
{
    let next = arcs_from(edges, from)[picks[0]].to;
    if picks.len() == 1 {
        assert(picks.drop_last() =~= Seq::empty());
        assert(picks.drop_first() =~= Seq::empty());
        assert(is_route(edges, from, picks.drop_last()));
        assert(route_end(edges, from, picks.drop_last()) == from);
        assert(route_ratios(edges, from, picks.drop_last()) =~= Seq::empty());
        assert(is_route(edges, next, picks.drop_first()));
        assert(route_end(edges, next, picks.drop_first()) == next);
        assert(route_ratios(edges, next, picks.drop_first()) =~= Seq::empty());
        assert(route_ratios(edges, from, picks) =~= seq![arcs_from(edges, from)[picks[0]].ratio]
            + route_ratios(edges, next, picks.drop_first()));
    } else {
        lemma_route_front(edges, from, picks.drop_last());
        assert(picks.drop_last().drop_first() =~= picks.drop_first().drop_last());
        assert(picks.drop_last()[0] == picks[0]);
        assert(picks.drop_first().last() == picks.last());
        assert(route_ratios(edges, from, picks) =~= seq![arcs_from(edges, from)[picks[0]].ratio]
            + route_ratios(edges, next, picks.drop_first()));
    }
}

/// One route after another is a route, to where the second ends, with the
/// factors of the first and then those of the second.
pub proof fn lemma_route_join(
    edges: Seq<ConversionEdge>,
    from: i64,
    first: Seq<int>,
    second: Seq<int>,
)
    requires
        is_route(edges, from, first),
        is_route(edges, route_end(edges, from, first), second),
    ensures
        is_route(edges, from, first + second),
        route_end(edges, from, first + second) == route_end(
            edges,
            route_end(edges, from, first),
            second,
        ),
        route_ratios(edges, from, first + second) == route_ratios(edges, from, first)
            + route_ratios(edges, route_end(edges, from, first), second),
    decreases second.len(),
{
    if second.len() == 0 {
        assert(first + second =~= first);
        assert(route_ratios(edges, from, first + second) =~= route_ratios(edges, from, first)
            + route_ratios(edges, route_end(edges, from, first), second));
    } else {
        lemma_route_join(edges, from, first, second.drop_last());
        assert((first + second).drop_last() =~= first + second.drop_last());
        assert((first + second).last() == second.last());
        assert(route_ratios(edges, from, first + second) =~= route_ratios(edges, from, first)
            + route_ratios(edges, route_end(edges, from, first), second));
    }
}

/// Arc `x` of `unit` starts a route of `hops` more hops to `to`.
pub open spec fn continues(edges: Seq<ConversionEdge>, unit: i64, to: i64, hops: nat, x: int) -> bool {
    &&& 0 <= x < arcs_from(edges, unit).len()
    &&& exists|rest: Seq<int>| #[trigger]
        reaches(edges, arcs_from(edges, unit)[x].to, to, rest) && rest.len() == hops
}

/// The earliest arc of `unit`, no later than arc `bound`, that starts a route
/// of `hops` more hops to `to`.
proof fn lemma_earliest_arc(edges: Seq<ConversionEdge>, unit: i64, to: i64, hops: nat, bound: int) -> (x:
    int)
    requires
        continues(edges, unit, to, hops, bound),
    ensures
        0 <= x <= bound,
        continues(edges, unit, to, hops, x),
        forall|y: int| 0 <= y < x ==> !continues(edges, unit, to, hops, y),
    decreases bound,
{
    if exists|y: int| 0 <= y < bound && continues(edges, unit, to, hops, y) {
        let y = choose|y: int| 0 <= y < bound && continues(edges, unit, to, hops, y);
        lemma_earliest_arc(edges, unit, to, hops, y)
    } else {
        bound
    }
}

/// Among the routes from `from` to `to` that have as many hops as `some`,
/// the one that comes first.
proof fn lemma_first_of_length(edges: Seq<ConversionEdge>, from: i64, to: i64, some: Seq<int>) -> (p:
    Seq<int>)
    requires
        reaches(edges, from, to, some),
    ensures
        reaches(edges, from, to, p),
        p.len() == some.len(),
        forall|r: Seq<int>| #[trigger]
            reaches(edges, from, to, r) && r.len() == some.len() ==> route_at_most(p, r),
    decreases some.len(),
{
    if some.len() == 0 {
        assert forall|r: Seq<int>| #[trigger]
            reaches(edges, from, to, r) && r.len() == some.len() implies route_at_most(
            some,
            r,
        ) by {
            assert(r =~= some);
        }
        some
    } else {
        let hops = (some.len() - 1) as nat;
        lemma_route_front(edges, from, some);
        assert(reaches(edges, arcs_from(edges, from)[some[0]].to, to, some.drop_first()));
        let x = lemma_earliest_arc(edges, from, to, hops, some[0]);
        let next = arcs_from(edges, from)[x].to;
        let rest = choose|rest: Seq<int>| #[trigger]
            reaches(edges, next, to, rest) && rest.len() == hops;
        let best = lemma_first_of_length(edges, next, to, rest);
        let p = seq![x] + best;
        assert(p.drop_first() =~= best);
        lemma_route_front(edges, from, p);
        assert forall|r: Seq<int>| #[trigger]
            reaches(edges, from, to, r) && r.len() == some.len() implies route_at_most(p, r) by {
            lemma_route_front(edges, from, r);
            let tail = r.drop_first();
            assert(reaches(edges, arcs_from(edges, from)[r[0]].to, to, tail));
            assert(continues(edges, from, to, hops, r[0]));
            if r[0] == x {
                assert(route_at_most(best, tail));
                if best == tail {
                    assert(p =~= r);
                } else {
                    let k = choose|k: int| parts_at(best, tail, k);
                    assert(p.take(k + 1) =~= seq![x] + best.take(k));
                    assert(r.take(k + 1) =~= seq![x] + tail.take(k));
                    assert(parts_at(p, r, k + 1));
                }
            } else {
                assert(p.take(0) =~= r.take(0));
                assert(parts_at(p, r, 0));
            }
        }
        p
    }
}

/// A route from `from` to `to` of the fewest hops, no more than `some` has.
proof fn lemma_fewest_hops(edges: Seq<ConversionEdge>, from: i64, to: i64, some: Seq<int>) -> (p:
    Seq<int>)
    requires
        reaches(edges, from, to, some),
    ensures
        reaches(edges, from, to, p),
        p.len() <= some.len(),
        forall|r: Seq<int>| #[trigger] reaches(edges, from, to, r) ==> p.len() <= r.len(),
    decreases some.len(),
{
    if exists|r: Seq<int>| #[trigger] reaches(edges, from, to, r) && r.len() < some.len() {
        let r = choose|r: Seq<int>| #[trigger]
            reaches(edges, from, to, r) && r.len() < some.len();
        lemma_fewest_hops(edges, from, to, r)
    } else {
        some
    }
}

/// Where a route leads from `from` to `to`, there is a first route, and it
/// has no more hops than any route there.
pub proof fn lemma_first_route_exists(
    edges: Seq<ConversionEdge>,
    from: i64,
    to: i64,
    some: Seq<int>,
)
    requires
        reaches(edges, from, to, some),
    ensures
        is_first_route(edges, from, to, first_route(edges, from, to)),
        first_route(edges, from, to).len() <= some.len(),
{
    let short = lemma_fewest_hops(edges, from, to, some);
    let p = lemma_first_of_length(edges, from, to, short);
    assert forall|r: Seq<int>| #[trigger] reaches(edges, from, to, r) implies route_at_most(
        p,
        r,
    ) by {
        assert(short.len() <= r.len());
    }
    assert(is_first_route(edges, from, to, p));
    assert(route_at_most(first_route(edges, from, to), some));
}

/// A conversion exists exactly when some route within the limit does, and
/// then it follows the first route.
pub proof fn lemma_conversion_exists(edges: Seq<ConversionEdge>, from: i64, to: i64, max_hops: nat)
    ensures
        conversion_of(edges, from, to, max_hops) is Some <==> reachable_within(
            edges,
            from,
            to,
            max_hops,
        ),
        reachable_within(edges, from, to, max_hops) ==> {
            let p = first_route(edges, from, to);
            &&& is_first_route(edges, from, to, p)
            &&& p.len() <= max_hops
            &&& conversion_of(edges, from, to, max_hops) == Some(
                (route_ratios(edges, from, p), p.len()),
            )
        },
{
    if reachable_within(edges, from, to, max_hops) {
        let some = choose|picks: Seq<int>| #[trigger]
            reaches(edges, from, to, picks) && picks.len() <= max_hops;
        lemma_first_route_exists(edges, from, to, some);
    }
}

/// Identity: a unit converts into itself with no hops and no factors,
/// whatever the edges and whatever the limit, zero too.
pub proof fn lemma_identity_conversion(edges: Seq<ConversionEdge>, unit: i64, max_hops: nat)
    ensures
        reachable_within(edges, unit, unit, max_hops),
        is_first_route(edges, unit, unit, Seq::empty()),
        first_route(edges, unit, unit) == Seq::<int>::empty(),
        conversion_of(edges, unit, unit, max_hops) == Some((Seq::<Ratio>::empty(), 0nat)),
{
    let nothing = Seq::<int>::empty();
    assert(reaches(edges, unit, unit, nothing));
    assert forall|other: Seq<int>| #[trigger] reaches(edges, unit, unit, other) implies route_at_most(
        nothing,
        other,
    ) by {
        if other.len() == 0 {
            assert(other =~= nothing);
        }
    }
    assert(is_first_route(edges, unit, unit, nothing));
    lemma_first_route_unique(edges, unit, unit, nothing, first_route(edges, unit, unit));
}

/// The hop limit: a conversion exists exactly when the first route has no
/// more hops than the limit allows, and every limit that allows it gives the
/// same conversion.
pub proof fn lemma_hop_limit(
    edges: Seq<ConversionEdge>,
    from: i64,
    to: i64,
    max_hops: nat,
    other_max: nat,
)
    requires
        is_first_route(edges, from, to, first_route(edges, from, to)),
    ensures
        conversion_of(edges, from, to, max_hops) is Some <==> first_route(edges, from, to).len()
            <= max_hops,
        conversion_of(edges, from, to, max_hops) is Some && conversion_of(
            edges,
            from,
            to,
            other_max,
        ) is Some ==> conversion_of(edges, from, to, max_hops) == conversion_of(
            edges,
            from,
            to,
            other_max,
        ),
{
    let p = first_route(edges, from, to);
    if reachable_within(edges, from, to, max_hops) {
        let some = choose|picks: Seq<int>| #[trigger]
            reaches(edges, from, to, picks) && picks.len() <= max_hops;
        assert(route_at_most(p, some));
    }
    if p.len() <= max_hops {
        assert(reaches(edges, from, to, p));
    }
}

/// The factors of a route taken back: last first, each upside down.
pub open spec fn returned(ratios: Seq<Ratio>) -> Seq<Ratio> {
    Seq::new(
        ratios.len(),
        |i: int|
            Ratio {
                numer: ratios[ratios.len() - 1 - i].denom,
                denom: ratios[ratios.len() - 1 - i].numer,
            },
    )
}

/// Reciprocity of routes: a route has a route back, of as many hops, whose
/// factors are those of the route, last first and each upside down.
pub proof fn lemma_route_returns(edges: Seq<ConversionEdge>, from: i64, picks: Seq<int>) -> (back:
    Seq<int>)
    requires
        is_route(edges, from, picks),
    ensures
        reaches(edges, route_end(edges, from, picks), from, back),
        back.len() == picks.len(),
        route_ratios(edges, route_end(edges, from, picks), back) == returned(
            route_ratios(edges, from, picks),
        ),
    decreases picks.len(),
{
    if picks.len() == 0 {
        assert(route_ratios(edges, from, picks) =~= returned(route_ratios(edges, from, picks)));
        picks
    } else {
        let before = picks.drop_last();
        let mid = route_end(edges, from, before);
        let end = route_end(edges, from, picks);
        let arc = arcs_from(edges, mid)[picks.last()];
        let tail = lemma_route_returns(edges, from, before);
        let y = lemma_arc_returns(edges, mid, picks.last());
        let hop = seq![y];
        assert(hop.drop_last() =~= Seq::<int>::empty());
        assert(is_route(edges, end, hop.drop_last()));
        assert(route_end(edges, end, hop.drop_last()) == end);
        assert(route_ratios(edges, end, hop.drop_last()) =~= Seq::empty());
        assert(is_route(edges, end, hop));
        assert(route_end(edges, end, hop) == mid);
        assert(route_ratios(edges, end, hop) =~= seq![return_arc(mid, arc).ratio]);
        lemma_route_join(edges, end, hop, tail);
        let ratios = route_ratios(edges, from, picks);
        assert(ratios =~= route_ratios(edges, from, before).push(arc.ratio));
        assert(route_ratios(edges, end, hop + tail) =~= returned(ratios)) by {
            let short = route_ratios(edges, from, before);
            assert(route_ratios(edges, mid, tail) == returned(short));
            assert forall|i: int| 0 <= i < ratios.len() implies (seq![return_arc(mid, arc).ratio]
                + returned(short))[i] == returned(ratios)[i] by {
                if i > 0 {
                    assert(returned(short)[i - 1] == Ratio {
                        numer: short[short.len() - 1 - (i - 1)].denom,
                        denom: short[short.len() - 1 - (i - 1)].numer,
                    });
                }
            }
        }
        hop + tail
    }
}

/// Reciprocity of conversions: if one unit converts into another, the other
/// converts into the one, within the same limit and in as many hops.
pub proof fn lemma_conversion_returns(
    edges: Seq<ConversionEdge>,
    from: i64,
    to: i64,
    max_hops: nat,
)
    ensures
        match (
            conversion_of(edges, from, to, max_hops),
            conversion_of(edges, to, from, max_hops),
        ) {
            (Some((_, there)), Some((_, back))) => there == back,
            (None, None) => true,
            _ => false,
        },
{
    lemma_conversion_exists(edges, from, to, max_hops);
    lemma_conversion_exists(edges, to, from, max_hops);
    if reachable_within(edges, from, to, max_hops) {
        let p = first_route(edges, from, to);
        let back = lemma_route_returns(edges, from, p);
        assert(reaches(edges, to, from, back) && back.len() <= max_hops);
        let q = first_route(edges, to, from);
        assert(route_at_most(q, back));
        let forth = lemma_route_returns(edges, to, q);
        assert(route_at_most(p, forth));
    }
    if reachable_within(edges, to, from, max_hops) {
        let q = first_route(edges, to, from);
        let forth = lemma_route_returns(edges, to, q);
        assert(reaches(edges, from, to, forth) && forth.len() <= max_hops);
    }
}

/// Edge lists that give every unit the same arcs give the same routes.
proof fn lemma_same_arcs_same_route(
    edges: Seq<ConversionEdge>,
    others: Seq<ConversionEdge>,
    from: i64,
    picks: Seq<int>,
)
    requires
        forall|u: i64| #[trigger] arcs_from(edges, u) == arcs_from(others, u),
    ensures
        is_route(edges, from, picks) == is_route(others, from, picks),
        route_end(edges, from, picks) == route_end(others, from, picks),
        route_ratios(edges, from, picks) == route_ratios(others, from, picks),
    decreases picks.len(),
{
    if picks.len() > 0 {
        lemma_same_arcs_same_route(edges, others, from, picks.drop_last());
        let mid = route_end(edges, from, picks.drop_last());
        assert(arcs_from(edges, mid) == arcs_from(others, mid));
    }
}

/// Edge lists that give every unit the same arcs give the same conversions.
pub proof fn lemma_same_arcs_same_conversion(
    edges: Seq<ConversionEdge>,
    others: Seq<ConversionEdge>,
    from: i64,
    to: i64,
    max_hops: nat,
)
    requires
        forall|u: i64| #[trigger] arcs_from(edges, u) == arcs_from(others, u),
    ensures
        conversion_of(edges, from, to, max_hops) == conversion_of(others, from, to, max_hops),
{
    assert forall|p: Seq<int>| #[trigger]
        reaches(edges, from, to, p) == reaches(others, from, to, p) by {
        lemma_same_arcs_same_route(edges, others, from, p);
    }
    lemma_conversion_exists(edges, from, to, max_hops);
    lemma_conversion_exists(others, from, to, max_hops);
    if reachable_within(edges, from, to, max_hops) {
        let some = choose|picks: Seq<int>| #[trigger]
            reaches(edges, from, to, picks) && picks.len() <= max_hops;
        assert(reaches(others, from, to, some));
        let p = first_route(edges, from, to);
        let q = first_route(others, from, to);
        assert(reaches(edges, from, to, q));
        assert(route_at_most(p, q));
        assert(reaches(others, from, to, p));
        assert(route_at_most(q, p));
        if p != q {
            lemma_before_transitive(p, q, p);
        }
        lemma_same_arcs_same_route(edges, others, from, p);
    }
    if reachable_within(others, from, to, max_hops) {
        let some = choose|picks: Seq<int>| #[trigger]
            reaches(others, from, to, picks) && picks.len() <= max_hops;
        assert(reaches(edges, from, to, some));
    }
}

/// The edges that count: those with both quantities greater than zero.
pub open spec fn usable_edges(edges: Seq<ConversionEdge>) -> Seq<ConversionEdge> {
    edges.filter(|e: ConversionEdge| e.usable())
}

/// An edge that is not usable gives no unit an arc.
pub proof fn lemma_unusable_edges_give_no_arc(edges: Seq<ConversionEdge>, unit: i64)
    ensures
        arcs_from(usable_edges(edges), unit) == arcs_from(edges, unit),
    decreases edges.len(),
{
    reveal(Seq::filter);
    if edges.len() > 0 {
        lemma_unusable_edges_give_no_arc(edges.drop_last(), unit);
        let usable = |e: ConversionEdge| e.usable();
        if edges.last().usable() {
            assert(usable_edges(edges).drop_last() =~= usable_edges(edges.drop_last()));
        } else {
            assert(edge_arcs(edges.last(), unit) =~= Seq::empty());
            assert(arcs_from(edges, unit) =~= arcs_from(edges.drop_last(), unit));
        }
    }
}

/// Exclusion of edges that are not usable: with them or without them, every
/// conversion is the same. So a conversion that only such an edge could
/// give does not exist.
pub proof fn lemma_unusable_edges_count_for_nothing(
    edges: Seq<ConversionEdge>,
    from: i64,
    to: i64,
    max_hops: nat,
)
    ensures
        conversion_of(usable_edges(edges), from, to, max_hops) == conversion_of(
            edges,
            from,
            to,
            max_hops,
        ),
{
    assert forall|u: i64| #[trigger]
        arcs_from(usable_edges(edges), u) == arcs_from(edges, u) by {
        lemma_unusable_edges_give_no_arc(edges, u);
    }
    lemma_same_arcs_same_conversion(usable_edges(edges), edges, from, to, max_hops);
}

} // verus!
