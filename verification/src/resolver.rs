//! Finding a conversion between two units: a breadth-first search over the
//! conversion graph, limited in hops.

use std::collections::HashSet;
use vstd::prelude::*;
use crate::graph::ConversionGraph;
use crate::reach::lemma_identity_conversion;
use crate::records::{ConversionEdge, Ratio};
use crate::route::{
    arcs_from, conversion_of, first_route, is_first_route, is_route, lemma_arc_returns,
    lemma_at_most_transitive, lemma_before_transitive, lemma_beginning_is_before,
    lemma_first_route_unique, lemma_push_keeps_order, lemma_push_later_arc, lemma_ratios_len,
    lemma_route_beginning, lemma_route_push, reachable_within, reaches, route_at_most,
    route_before, route_end, route_ratios, Arc,
};

verus! {

/// Hop limit used where the caller has no reason for another.
pub const DEFAULT_MAX_HOPS: usize = 6;

/// A conversion found: its factor and its number of hops. The factor is kept
/// as the ratios of the arcs taken, in the order of travel; it is their
/// product, formed from one. No hops and no ratios is the conversion of a
/// unit into itself: the empty product, one.
#[derive(Debug)]
pub struct Conversion {
    pub factor: Vec<Ratio>,
    pub hops: usize,
}

/// A unit the search has reached, with the factors on the way to it.
struct Visit {
    unit: i64,
    factor: Vec<Ratio>,
}

/// `walk` is how the search came to `visit`.
spec fn visit_sound(
    edges: Seq<ConversionEdge>,
    from: i64,
    to: i64,
    max_hops: nat,
    visit: Visit,
    walk: Seq<int>,
) -> bool {
    &&& is_route(edges, from, walk)
    &&& route_end(edges, from, walk) == visit.unit
    &&& visit.factor@ == route_ratios(edges, from, walk)
    &&& walk.len() <= max_hops
    &&& visit.unit != to
}

/// The queue starts with `from`, holds each unit with its walk, and is in the
/// order of its walks.
spec fn queue_sound(
    edges: Seq<ConversionEdge>,
    from: i64,
    to: i64,
    max_hops: nat,
    queue: Seq<Visit>,
    walks: Seq<Seq<int>>,
) -> bool {
    &&& queue.len() == walks.len()
    &&& queue.len() >= 1
    &&& walks[0].len() == 0
    &&& forall|i: int|
        0 <= i < queue.len() ==> #[trigger] visit_sound(
            edges,
            from,
            to,
            max_hops,
            queue[i],
            walks[i],
        )
    &&& forall|i: int, j: int|
        0 <= i < j < queue.len() ==> route_before(#[trigger] walks[i], #[trigger] walks[j])
}

/// Place `m` of the queue holds `unit`, reached no later than by `walk`.
spec fn settles(queue: Seq<Visit>, walks: Seq<Seq<int>>, m: int, unit: i64, walk: Seq<int>) -> bool {
    0 <= m < queue.len() && queue[m].unit == unit && route_at_most(walks[m], walk)
}

/// Arc `x` of the unit at place `i` does not lead to `to`, and the unit it
/// leads to is in the queue, reached no later than through this arc.
spec fn arc_settled(
    edges: Seq<ConversionEdge>,
    to: i64,
    queue: Seq<Visit>,
    walks: Seq<Seq<int>>,
    i: int,
    x: int,
) -> bool {
    let target = arcs_from(edges, queue[i].unit)[x].to;
    target != to && exists|m: int| settles(queue, walks, m, target, walks[i].push(x))
}

/// Every arc before arc `k` of place `head`, of a unit that the hop limit
/// lets the search leave, is settled.
spec fn scanned(
    edges: Seq<ConversionEdge>,
    to: i64,
    max_hops: nat,
    queue: Seq<Visit>,
    walks: Seq<Seq<int>>,
    head: int,
    k: int,
) -> bool {
    forall|i: int, x: int|
        0 <= i < queue.len() && (i < head || (i == head && x < k)) && walks[i].len() < max_hops
            && 0 <= x < arcs_from(edges, queue[i].unit).len() ==> #[trigger] arc_settled(
            edges,
            to,
            queue,
            walks,
            i,
            x,
        )
}

/// Every walk but the empty one comes before `limit`.
spec fn behind(walks: Seq<Seq<int>>, limit: Seq<int>) -> bool {
    forall|m: int|
        0 <= m < walks.len() ==> (#[trigger] walks[m]).len() == 0 || route_before(walks[m], limit)
}

/// Every walk but the empty one comes before whatever the places from `head`
/// on may still add.
spec fn ahead(walks: Seq<Seq<int>>, head: int) -> bool {
    forall|j: int| head <= j < walks.len() ==> behind(walks, #[trigger] walks[j].push(0))
}

/// Place `i` of the queue holds `unit`.
spec fn holds(queue: Seq<Visit>, i: int, unit: i64) -> bool {
    0 <= i < queue.len() && queue[i].unit == unit
}

/// `seen` is the set of the units in the queue, and no unit is in it twice.
spec fn seen_matches(seen: Set<i64>, queue: Seq<Visit>) -> bool {
    &&& seen.finite()
    &&& seen.len() == queue.len()
    &&& forall|u: i64| seen.contains(u) <==> exists|i: int| holds(queue, i, u)
}

/// What holds of a queue holds of the queue with one more visit at its end.
proof fn lemma_queue_grows(
    edges: Seq<ConversionEdge>,
    to: i64,
    max_hops: nat,
    queue: Seq<Visit>,
    walks: Seq<Seq<int>>,
    head: int,
    k: int,
    visit: Visit,
    walk: Seq<int>,
)
    requires
        queue.len() == walks.len(),
        0 <= head < queue.len(),
        scanned(edges, to, max_hops, queue, walks, head, k),
    ensures
        scanned(edges, to, max_hops, queue.push(visit), walks.push(walk), head, k),
{
    let queue2 = queue.push(visit);
    let walks2 = walks.push(walk);
    assert forall|i: int, x: int|
        0 <= i < queue2.len() && (i < head || (i == head && x < k)) && walks2[i].len() < max_hops
            && 0 <= x < arcs_from(edges, queue2[i].unit).len() implies #[trigger] arc_settled(
        edges,
        to,
        queue2,
        walks2,
        i,
        x,
    ) by {
        assert(queue2[i] == queue[i]);
        assert(walks2[i] == walks[i]);
        assert(arc_settled(edges, to, queue, walks, i, x));
        let target = arcs_from(edges, queue[i].unit)[x].to;
        let m = choose|m: int| settles(queue, walks, m, target, walks[i].push(x));
        assert(queue2[m] == queue[m]);
        assert(walks2[m] == walks[m]);
        assert(settles(queue2, walks2, m, target, walks2[i].push(x)));
    }
}

/// The heart of the search's correctness. Take any route `p` to `to`. Every
/// beginning of `p` ends on a unit that the queue holds and that the search
/// reached no later than `p` does; or else the arc that the search is about
/// to try, arc `k` of place `head`, gives a walk no later than `p`.
proof fn lemma_covered(
    edges: Seq<ConversionEdge>,
    from: i64,
    to: i64,
    max_hops: nat,
    queue: Seq<Visit>,
    walks: Seq<Seq<int>>,
    head: int,
    k: int,
    p: Seq<int>,
    n: int,
) -> (m: int)
    requires
        queue_sound(edges, from, to, max_hops, queue, walks),
        0 <= head <= queue.len(),
        scanned(edges, to, max_hops, queue, walks, head, k),
        reaches(edges, from, to, p),
        0 <= n <= p.len(),
        p.len() <= max_hops || (head < queue.len() && walks[head].len() < max_hops),
    ensures
        settles(queue, walks, m, route_end(edges, from, p.take(n)), p.take(n)) || (head
            < queue.len() && route_at_most(walks[head].push(k), p)),
    decreases n,
{
    if n == 0 {
        assert(visit_sound(edges, from, to, max_hops, queue[0], walks[0]));
        assert(walks[0] =~= p.take(0));
        0
    } else {
        let m0 = lemma_covered(edges, from, to, max_hops, queue, walks, head, k, p, n - 1);
        if head < queue.len() && route_at_most(walks[head].push(k), p) {
            0
        } else {
            let short = p.take(n - 1);
            let long = p.take(n);
            let x = p[n - 1];
            lemma_route_beginning(edges, from, p, n - 1);
            assert(long =~= short.push(x));
            assert(visit_sound(edges, from, to, max_hops, queue[m0], walks[m0]));
            // the search's walk to the unit, one hop on, is no later than `long`
            assert(route_at_most(walks[m0].push(x), long)) by {
                if walks[m0] != short {
                    lemma_push_keeps_order(walks[m0], short, x, x);
                }
            }
            if m0 < head || (m0 == head && x < k) {
                assert(walks[m0].len() < max_hops) by {
                    if !(p.len() <= max_hops) {
                        if m0 < head {
                            assert(route_before(walks[m0], walks[head]));
                        }
                    }
                }
                assert(arc_settled(edges, to, queue, walks, m0, x));
                let target = arcs_from(edges, queue[m0].unit)[x].to;
                let m1 = choose|m: int| settles(queue, walks, m, target, walks[m0].push(x));
                lemma_at_most_transitive(walks[m1], walks[m0].push(x), long);
                m1
            } else {
                // the arc has not been tried yet: the arc at hand is no later
                assert(head < queue.len());
                assert(route_at_most(walks[head].push(k), walks[m0].push(x))) by {
                    if m0 == head {
                        if x > k {
                            lemma_push_later_arc(walks[head], k, x);
                        }
                    } else {
                        assert(route_before(walks[head], walks[m0]));
                        lemma_push_keeps_order(walks[head], walks[m0], k, x);
                    }
                }
                assert(route_at_most(long, p)) by {
                    if n < p.len() {
                        lemma_beginning_is_before(p, n);
                    } else {
                        assert(long =~= p);
                    }
                }
                lemma_at_most_transitive(walks[head].push(k), walks[m0].push(x), long);
                lemma_at_most_transitive(walks[head].push(k), long, p);
                0
            }
        }
    }
}

/// The walk through arc `k` of place `head`, if it ends on `to`, is the
/// first route to `to`.
proof fn lemma_found(
    edges: Seq<ConversionEdge>,
    from: i64,
    to: i64,
    max_hops: nat,
    queue: Seq<Visit>,
    walks: Seq<Seq<int>>,
    head: int,
    k: int,
)
    requires
        queue_sound(edges, from, to, max_hops, queue, walks),
        0 <= head < queue.len(),
        scanned(edges, to, max_hops, queue, walks, head, k),
        walks[head].len() < max_hops,
        0 <= k < arcs_from(edges, queue[head].unit).len(),
        arcs_from(edges, queue[head].unit)[k].to == to,
    ensures
        reachable_within(edges, from, to, max_hops),
        is_first_route(edges, from, to, first_route(edges, from, to)),
        conversion_of(edges, from, to, max_hops) == Some(
            (
                route_ratios(edges, from, walks[head]).push(
                    arcs_from(edges, queue[head].unit)[k].ratio,
                ),
                (walks[head].len() + 1) as nat,
            ),
        ),
{
    let found = walks[head].push(k);
    assert(visit_sound(edges, from, to, max_hops, queue[head], walks[head]));
    lemma_route_push(edges, from, walks[head], k);
    assert(reaches(edges, from, to, found));
    assert forall|other: Seq<int>| #[trigger] reaches(edges, from, to, other) implies route_at_most(
        found,
        other,
    ) by {
        let m = lemma_covered(
            edges,
            from,
            to,
            max_hops,
            queue,
            walks,
            head,
            k,
            other,
            other.len() as int,
        );
        assert(other.take(other.len() as int) =~= other);
        if settles(queue, walks, m, to, other) {
            assert(visit_sound(edges, from, to, max_hops, queue[m], walks[m]));
        }
    }
    assert(is_first_route(edges, from, to, found));
    lemma_first_route_unique(edges, from, to, found, first_route(edges, from, to));
}

/// Once every place of the queue is done, no route within the hop limit
/// leads to `to`.
proof fn lemma_exhausted(
    edges: Seq<ConversionEdge>,
    from: i64,
    to: i64,
    max_hops: nat,
    queue: Seq<Visit>,
    walks: Seq<Seq<int>>,
)
    requires
        queue_sound(edges, from, to, max_hops, queue, walks),
        scanned(edges, to, max_hops, queue, walks, queue.len() as int, 0),
    ensures
        conversion_of(edges, from, to, max_hops) is None,
{
    assert forall|p: Seq<int>| #[trigger] reaches(edges, from, to, p) implies p.len()
        > max_hops by {
        if p.len() <= max_hops {
            let m = lemma_covered(
                edges,
                from,
                to,
                max_hops,
                queue,
                walks,
                queue.len() as int,
                0,
                p,
                p.len() as int,
            );
            assert(p.take(p.len() as int) =~= p);
            assert(visit_sound(edges, from, to, max_hops, queue[m], walks[m]));
        }
    }
}

/// The search stands at arc `k` of place `head`, a place that the hop limit
/// lets it leave: all before that arc is settled, and every walk of the
/// queue but the empty one comes before the walk through that arc.
spec fn at_arc(
    edges: Seq<ConversionEdge>,
    from: i64,
    to: i64,
    max_hops: nat,
    queue: Seq<Visit>,
    walks: Seq<Seq<int>>,
    head: int,
    k: int,
) -> bool {
    &&& queue_sound(edges, from, to, max_hops, queue, walks)
    &&& 0 <= head < queue.len()
    &&& walks[head].len() < max_hops
    &&& 0 <= k <= arcs_from(edges, queue[head].unit).len()
    &&& scanned(edges, to, max_hops, queue, walks, head, k)
    &&& behind(walks, walks[head].push(k))
}

/// The search stands before place `head`: all arcs of the places before it
/// are settled, and every walk but the empty one comes before whatever the
/// places from `head` on may add.
spec fn at_place(
    edges: Seq<ConversionEdge>,
    from: i64,
    to: i64,
    max_hops: nat,
    queue: Seq<Visit>,
    walks: Seq<Seq<int>>,
    head: int,
) -> bool {
    &&& queue_sound(edges, from, to, max_hops, queue, walks)
    &&& 0 <= head <= queue.len()
    &&& scanned(edges, to, max_hops, queue, walks, head, 0)
    &&& ahead(walks, head)
}

/// The search starts before the place of `from`, alone in the queue.
proof fn lemma_start(
    edges: Seq<ConversionEdge>,
    from: i64,
    to: i64,
    max_hops: nat,
    queue: Seq<Visit>,
)
    requires
        from != to,
        queue.len() == 1,
        queue[0].unit == from,
        queue[0].factor@.len() == 0,
    ensures
        at_place(edges, from, to, max_hops, queue, seq![Seq::<int>::empty()], 0),
        seen_matches(Set::<i64>::empty().insert(from), queue),
{
    let walks = seq![Seq::<int>::empty()];
    assert(queue[0].factor@ =~= route_ratios(edges, from, walks[0]));
    assert(visit_sound(edges, from, to, max_hops, queue[0], walks[0]));
    assert forall|u: i64|
        Set::<i64>::empty().insert(from).contains(u) <==> exists|i: int| holds(queue, i, u) by {
        if u == from {
            assert(holds(queue, 0, u));
        }
    }
}

/// Before a place that the hop limit lets the search leave, the search
/// stands at the first arc of that place.
proof fn lemma_enter_place(
    edges: Seq<ConversionEdge>,
    from: i64,
    to: i64,
    max_hops: nat,
    queue: Seq<Visit>,
    walks: Seq<Seq<int>>,
    head: int,
)
    requires
        at_place(edges, from, to, max_hops, queue, walks, head),
        head < queue.len(),
        walks[head].len() < max_hops,
    ensures
        at_arc(edges, from, to, max_hops, queue, walks, head, 0),
{
    assert(behind(walks, walks[head].push(0)));
}

/// An arc that leads to a unit already in the queue is settled: the search
/// moves on to the next arc.
proof fn lemma_arc_known(
    edges: Seq<ConversionEdge>,
    from: i64,
    to: i64,
    max_hops: nat,
    queue: Seq<Visit>,
    walks: Seq<Seq<int>>,
    head: int,
    k: int,
    m: int,
)
    requires
        at_arc(edges, from, to, max_hops, queue, walks, head, k),
        k < arcs_from(edges, queue[head].unit).len(),
        holds(queue, m, arcs_from(edges, queue[head].unit)[k].to),
    ensures
        at_arc(edges, from, to, max_hops, queue, walks, head, k + 1),
{
    let here = walks[head];
    let next = here.push(k);
    let target = arcs_from(edges, queue[head].unit)[k].to;
    assert(walks[m].len() == 0 || route_before(walks[m], next));
    assert(settles(queue, walks, m, target, next));
    assert(visit_sound(edges, from, to, max_hops, queue[m], walks[m]));
    assert(arc_settled(edges, to, queue, walks, head, k));
    lemma_push_later_arc(here, k, k + 1);
    assert forall|i: int| 0 <= i < walks.len() implies (#[trigger] walks[i]).len() == 0
        || route_before(walks[i], here.push(k + 1)) by {
        if walks[i].len() != 0 {
            lemma_before_transitive(walks[i], next, here.push(k + 1));
        }
    }
}

/// An arc that leads to a unit not yet in the queue, and not to `to`, is
/// settled by adding the unit at the end of the queue, with the walk through
/// the arc: the search moves on to the next arc.
proof fn lemma_arc_new(
    edges: Seq<ConversionEdge>,
    from: i64,
    to: i64,
    max_hops: nat,
    queue: Seq<Visit>,
    walks: Seq<Seq<int>>,
    head: int,
    k: int,
    visit: Visit,
)
    requires
        at_arc(edges, from, to, max_hops, queue, walks, head, k),
        k < arcs_from(edges, queue[head].unit).len(),
        visit.unit == arcs_from(edges, queue[head].unit)[k].to,
        visit.unit != to,
        visit.factor@ == queue[head].factor@.push(arcs_from(edges, queue[head].unit)[k].ratio),
    ensures
        at_arc(
            edges,
            from,
            to,
            max_hops,
            queue.push(visit),
            walks.push(walks[head].push(k)),
            head,
            k + 1,
        ),
{
    let here = walks[head];
    let next = here.push(k);
    let queue2 = queue.push(visit);
    let walks2 = walks.push(next);
    let last = queue.len() as int;
    assert(visit_sound(edges, from, to, max_hops, queue[head], here));
    lemma_route_push(edges, from, here, k);
    assert forall|i: int| 0 <= i < queue2.len() implies #[trigger] visit_sound(
        edges,
        from,
        to,
        max_hops,
        queue2[i],
        walks2[i],
    ) by {
        if i < last {
            assert(visit_sound(edges, from, to, max_hops, queue[i], walks[i]));
        }
    }
    assert forall|i: int, j: int| 0 <= i < j < queue2.len() implies route_before(
        #[trigger] walks2[i],
        #[trigger] walks2[j],
    ) by {
        if j < last {
            assert(route_before(walks[i], walks[j]));
        } else {
            assert(walks[i].len() == 0 || route_before(walks[i], next));
        }
    }
    lemma_queue_grows(edges, to, max_hops, queue, walks, head, k, visit, next);
    assert(queue2[head] == queue[head]);
    assert(walks2[head] == here);
    assert(settles(queue2, walks2, last, visit.unit, next));
    assert(arc_settled(edges, to, queue2, walks2, head, k));
    lemma_push_later_arc(here, k, k + 1);
    assert forall|i: int| 0 <= i < walks2.len() implies (#[trigger] walks2[i]).len() == 0
        || route_before(walks2[i], here.push(k + 1)) by {
        if i < last && walks[i].len() != 0 {
            lemma_before_transitive(walks[i], next, here.push(k + 1));
        }
    }
}

/// Once all arcs of a place are settled, or the hop limit keeps the search
/// from leaving the place, the search stands before the next place.
proof fn lemma_leave_place(
    edges: Seq<ConversionEdge>,
    from: i64,
    to: i64,
    max_hops: nat,
    queue: Seq<Visit>,
    walks: Seq<Seq<int>>,
    head: int,
)
    requires
        0 <= head < queue.len(),
        at_place(edges, from, to, max_hops, queue, walks, head) && walks[head].len() >= max_hops
            || at_arc(
            edges,
            from,
            to,
            max_hops,
            queue,
            walks,
            head,
            arcs_from(edges, queue[head].unit).len() as int,
        ),
    ensures
        at_place(edges, from, to, max_hops, queue, walks, head + 1),
{
    if walks[head].len() < max_hops {
        let here = walks[head];
        let tried = arcs_from(edges, queue[head].unit).len() as int;
        assert forall|j: int| head + 1 <= j < walks.len() implies behind(
            walks,
            #[trigger] walks[j].push(0),
        ) by {
            assert(route_before(here, walks[j]));
            lemma_push_keeps_order(here, walks[j], tried, 0);
            assert forall|m: int| 0 <= m < walks.len() implies (#[trigger] walks[m]).len() == 0
                || route_before(walks[m], walks[j].push(0)) by {
                if walks[m].len() != 0 {
                    lemma_before_transitive(walks[m], here.push(tried), walks[j].push(0));
                }
            }
        }
    }
}

/// A unit new to the queue is new to the set of the units seen.
proof fn lemma_seen_grows(seen: Set<i64>, queue: Seq<Visit>, visit: Visit)
    requires
        seen_matches(seen, queue),
        !seen.contains(visit.unit),
    ensures
        seen_matches(seen.insert(visit.unit), queue.push(visit)),
{
    let seen2 = seen.insert(visit.unit);
    let queue2 = queue.push(visit);
    assert forall|u: i64| seen2.contains(u) <==> exists|i: int| holds(queue2, i, u) by {
        if seen2.contains(u) {
            if u == visit.unit {
                assert(holds(queue2, queue.len() as int, u));
            } else {
                let i = choose|i: int| holds(queue, i, u);
                assert(holds(queue2, i, u));
            }
        }
        if exists|i: int| holds(queue2, i, u) {
            let i = choose|i: int| holds(queue2, i, u);
            if i < queue.len() {
                assert(holds(queue, i, u));
            }
        }
    }
}

/// A copy of `factor` with `ratio` added at its end.
fn extended(factor: &Vec<Ratio>, ratio: Ratio) -> (longer: Vec<Ratio>)
    ensures
        longer@ == factor@.push(ratio),
{
    let mut longer: Vec<Ratio> = Vec::with_capacity(factor.len());
    let mut i: usize = 0;
    while i < factor.len()
        invariant
            0 <= i <= factor.len(),
            longer@ == factor@.take(i as int),
        decreases factor.len() - i,
    {
        longer.push(factor[i]);
        proof {
            assert(factor@.take(i + 1) =~= factor@.take(i as int).push(factor@[i as int]));
        }
        i = i + 1;
    }
    proof {
        assert(factor@.take(i as int) =~= factor@);
    }
    longer.push(ratio);
    longer
}

/// Finds the conversion from `from_unit` to `to_unit`.
///
/// A unit converts into itself with no hops, whatever the graph and the
/// limit. Otherwise the units are visited breadth first from `from_unit`,
/// the arcs of each in the order of the graph, no unit twice, and no unit
/// that is `max_hops` hops away is left again. The first arc that leads to
/// `to_unit` ends the search. So the conversion found follows a route of the
/// fewest hops, and among those the one that takes the earlier arc where
/// they part; there is none exactly when no route of at most `max_hops` hops
/// exists. The search ends whatever cycles the graph has: the queue holds no
/// unit twice, so no more places than the graph has units, and one.
pub fn resolve(graph: &ConversionGraph, from_unit: i64, to_unit: i64, max_hops: usize) -> (found:
    Option<Conversion>)
    ensures
        from_unit == to_unit ==> found is Some && found->0.factor@.len() == 0 && found->0.hops
            == 0,
        found is Some <==> reachable_within(graph@, from_unit, to_unit, max_hops as nat),
        match found {
            Some(conversion) => {
                &&& conversion_of(graph@, from_unit, to_unit, max_hops as nat) == Some(
                    (conversion.factor@, conversion.hops as nat),
                )
                &&& is_first_route(graph@, from_unit, to_unit, first_route(graph@, from_unit, to_unit))
                &&& conversion.factor@.len() == conversion.hops
                &&& 0 <= conversion.hops <= max_hops
            },
            None => conversion_of(graph@, from_unit, to_unit, max_hops as nat) is None,
        },
{
    if from_unit == to_unit {
        proof {
            lemma_identity_conversion(graph@, from_unit, max_hops as nat);
        }
        return Some(Conversion { factor: Vec::new(), hops: 0 });
    }
    let ghost edges = graph@;
    let ghost limit = max_hops as nat;
    let ghost universe = graph.units().insert(from_unit);
    let units: usize = graph.unit_count();

    let mut queue: Vec<Visit> = Vec::with_capacity(units);
    let mut seen: HashSet<i64> = HashSet::with_capacity(units);
    let ghost mut walks: Seq<Seq<int>> = seq![Seq::empty()];
    queue.push(Visit { unit: from_unit, factor: Vec::new() });
    seen.insert(from_unit);
    proof {
        lemma_start(edges, from_unit, to_unit, limit, queue@);
        assert(seen@ =~= Set::<i64>::empty().insert(from_unit));
    }

    let mut head: usize = 0;
    while head < queue.len()
        invariant
            edges == graph@,
            limit == max_hops as nat,
            from_unit != to_unit,
            universe == graph.units().insert(from_unit),
            universe.finite(),
            forall|u: i64| #[trigger] graph.units().contains(u) <==> arcs_from(edges, u).len() > 0,
            at_place(edges, from_unit, to_unit, limit, queue@, walks, head as int),
            seen_matches(seen@, queue@),
            seen@.subset_of(universe),
        decreases universe.len() - head,
    {
        proof {
            vstd::set_lib::lemma_len_subset(seen@, universe);
            assert(visit_sound(
                edges,
                from_unit,
                to_unit,
                limit,
                queue@[head as int],
                walks[head as int],
            ));
            lemma_ratios_len(edges, from_unit, walks[head as int]);
        }
        let unit: i64 = queue[head].unit;
        let hops: usize = queue[head].factor.len();
        if hops < max_hops {
            proof {
                lemma_enter_place(edges, from_unit, to_unit, limit, queue@, walks, head as int);
            }
            if let Some(arcs) = graph.neighbors(unit) {
                let mut k: usize = 0;
                while k < arcs.len()
                    invariant
                        edges == graph@,
                        limit == max_hops as nat,
                        from_unit != to_unit,
                        universe == graph.units().insert(from_unit),
                        universe.finite(),
                        forall|u: i64|
                            #[trigger] graph.units().contains(u) <==> arcs_from(edges, u).len() > 0,
                        at_arc(edges, from_unit, to_unit, limit, queue@, walks, head as int, k as int),
                        seen_matches(seen@, queue@),
                        seen@.subset_of(universe),
                        unit == queue@[head as int].unit,
                        hops == queue@[head as int].factor@.len(),
                        hops == walks[head as int].len(),
                        arcs@ == arcs_from(edges, unit),
                    decreases arcs.len() - k,
                {
                    let arc: Arc = arcs[k];
                    if !seen.contains(&arc.to) {
                        let factor: Vec<Ratio> = extended(&queue[head].factor, arc.ratio);
                        if arc.to == to_unit {
                            proof {
                                assert(visit_sound(
                                    edges,
                                    from_unit,
                                    to_unit,
                                    limit,
                                    queue@[head as int],
                                    walks[head as int],
                                ));
                                lemma_found(
                                    edges,
                                    from_unit,
                                    to_unit,
                                    limit,
                                    queue@,
                                    walks,
                                    head as int,
                                    k as int,
                                );
                            }
                            return Some(Conversion { factor, hops: hops + 1 });
                        }
                        let visit = Visit { unit: arc.to, factor };
                        proof {
                            lemma_arc_new(
                                edges,
                                from_unit,
                                to_unit,
                                limit,
                                queue@,
                                walks,
                                head as int,
                                k as int,
                                visit,
                            );
                            lemma_seen_grows(seen@, queue@, visit);
                            lemma_arc_returns(edges, unit, k as int);
                            walks = walks.push(walks[head as int].push(k as int));
                        }
                        seen.insert(arc.to);
                        queue.push(visit);
                    } else {
                        proof {
                            let m = choose|i: int| holds(queue@, i, arc.to);
                            lemma_arc_known(
                                edges,
                                from_unit,
                                to_unit,
                                limit,
                                queue@,
                                walks,
                                head as int,
                                k as int,
                                m,
                            );
                        }
                    }
                    k = k + 1;
                }
            }
        }
        proof {
            lemma_leave_place(edges, from_unit, to_unit, limit, queue@, walks, head as int);
        }
        head = head + 1;
    }
    proof {
        lemma_exhausted(edges, from_unit, to_unit, limit, queue@, walks);
    }
    None
}

/// Finds the conversion from `from_unit` to `to_unit` over `edges`: builds
/// their graph and resolves on it. A unit converts into itself without a
/// look at the edges.
pub fn bfs_conversion_factor(
    edges: &Vec<ConversionEdge>,
    from_unit: i64,
    to_unit: i64,
    max_hops: usize,
) -> (found: Option<Conversion>)
    ensures
        from_unit == to_unit ==> found is Some && found->0.factor@.len() == 0 && found->0.hops
            == 0,
        found is Some <==> reachable_within(edges@, from_unit, to_unit, max_hops as nat),
        match found {
            Some(conversion) => {
                &&& conversion_of(edges@, from_unit, to_unit, max_hops as nat) == Some(
                    (conversion.factor@, conversion.hops as nat),
                )
                &&& conversion.factor@.len() == conversion.hops
                &&& 0 <= conversion.hops <= max_hops
            },
            None => conversion_of(edges@, from_unit, to_unit, max_hops as nat) is None,
        },
{
    if from_unit == to_unit {
        proof {
            lemma_identity_conversion(edges@, from_unit, max_hops as nat);
        }
        return Some(Conversion { factor: Vec::new(), hops: 0 });
    }
    let graph = ConversionGraph::build(edges);
    resolve(&graph, from_unit, to_unit, max_hops)
}

} // verus!
