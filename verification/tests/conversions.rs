use foodcost::amount::Amount;
use foodcost::graph::ConversionGraph;
use foodcost::records::{ConversionEdge, Ratio};
use foodcost::resolver::{bfs_conversion_factor, resolve, Conversion, DEFAULT_MAX_HOPS};

const A: i64 = 1;
const B: i64 = 2;
const C: i64 = 3;
const D: i64 = 4;

fn amt(x: f64) -> Amount {
    Amount::from_bits(x.to_bits())
}

fn edge(unit_a: i64, unit_b: i64, qty_a: f64, qty_b: f64) -> ConversionEdge {
    ConversionEdge { item_id: 1, vendor_id: 0, unit_a, unit_b, qty_a: amt(qty_a), qty_b: amt(qty_b) }
}

fn ratio(numer: f64, denom: f64) -> Ratio {
    Ratio { numer: amt(numer), denom: amt(denom) }
}

/// The factor as a number: the product of the ratios, formed from one.
fn value(conversion: &Conversion) -> f64 {
    let mut factor = 1.0f64;
    for r in &conversion.factor {
        factor = factor * (f64::from_bits(r.numer.to_bits()) / f64::from_bits(r.denom.to_bits()));
    }
    factor
}

fn close(x: f64, y: f64) -> bool {
    (x - y).abs() <= 1e-12 * y.abs().max(1.0)
}

/// A chain of `n` edges: unit 100 to 101, 101 to 102, and so on.
fn chain(n: i64) -> Vec<ConversionEdge> {
    let mut edges = Vec::new();
    for i in 0..n {
        edges.push(edge(100 + i, 101 + i, 1.0, 2.0));
    }
    edges
}

#[test]
fn default_limit_is_six() {
    assert_eq!(DEFAULT_MAX_HOPS, 6);
}

#[test]
fn identity_for_a_unit_without_edges() {
    let graph = ConversionGraph::build(&Vec::new());
    let found = resolve(&graph, A, A, DEFAULT_MAX_HOPS).expect("a unit converts into itself");
    assert_eq!(found.hops, 0);
    assert!(found.factor.is_empty());
    assert_eq!(value(&found), 1.0);
}

#[test]
fn identity_whatever_the_limit() {
    let graph = ConversionGraph::build(&vec![edge(A, B, 2.0, 1.0), edge(A, A, 3.0, 1.0)]);
    for max_hops in [0usize, 1, 6, usize::MAX] {
        let found = resolve(&graph, A, A, max_hops).expect("a unit converts into itself");
        assert_eq!(found.hops, 0);
        assert!(found.factor.is_empty());
        let unknown = resolve(&graph, 99, 99, max_hops).expect("a unit converts into itself");
        assert_eq!(unknown.hops, 0);
        assert!(unknown.factor.is_empty());
    }
}

#[test]
fn reciprocity_of_one_edge() {
    let graph = ConversionGraph::build(&vec![edge(A, B, 2.0, 1.0)]);
    let there = resolve(&graph, A, B, 1).expect("one hop");
    assert_eq!(there.hops, 1);
    assert_eq!(there.factor, vec![ratio(1.0, 2.0)]);
    assert_eq!(value(&there), 0.5);
    let back = resolve(&graph, B, A, 1).expect("one hop");
    assert_eq!(back.hops, 1);
    assert_eq!(back.factor, vec![ratio(2.0, 1.0)]);
    assert_eq!(value(&back), 2.0);
    assert!(close(value(&there) * value(&back), 1.0));
    let roomy = resolve(&graph, A, B, DEFAULT_MAX_HOPS).expect("one hop");
    assert_eq!(roomy.factor, vec![ratio(1.0, 2.0)]);
}

#[test]
fn multi_hop_transitivity() {
    let graph = ConversionGraph::build(&vec![edge(A, B, 2.0, 1.0), edge(B, C, 3.0, 1.0)]);
    let found = resolve(&graph, A, C, 2).expect("two hops");
    assert_eq!(found.hops, 2);
    assert_eq!(found.factor, vec![ratio(1.0, 2.0), ratio(1.0, 3.0)]);
    assert!(close(value(&found), 1.0 / 6.0));
    let back = resolve(&graph, C, A, 6).expect("two hops");
    assert_eq!(back.hops, 2);
    assert_eq!(back.factor, vec![ratio(3.0, 1.0), ratio(2.0, 1.0)]);
    assert!(close(value(&back), 6.0));
    assert!(resolve(&graph, A, C, 1).is_none());
}

#[test]
fn hop_limit_boundary() {
    let graph = ConversionGraph::build(&chain(7));
    assert!(resolve(&graph, 100, 107, 6).is_none());
    let found = resolve(&graph, 100, 107, 7).expect("seven hops");
    assert_eq!(found.hops, 7);
    assert_eq!(found.factor.len(), 7);
    assert!(close(value(&found), 128.0));
    let six = resolve(&graph, 100, 106, 6).expect("six hops");
    assert_eq!(six.hops, 6);
    let back = resolve(&graph, 107, 100, 7).expect("seven hops");
    assert_eq!(back.hops, 7);
    assert!(close(value(&back), 1.0 / 128.0));
}

#[test]
fn no_hops_allowed_reaches_nothing_else() {
    let graph = ConversionGraph::build(&vec![edge(A, B, 2.0, 1.0)]);
    assert!(resolve(&graph, A, B, 0).is_none());
}

#[test]
fn edges_that_are_not_usable_are_left_out() {
    for (qty_a, qty_b) in [
        (0.0, 1.0),
        (1.0, 0.0),
        (-0.0, 1.0),
        (-2.0, 1.0),
        (2.0, -1.0),
        (f64::NAN, 1.0),
        (1.0, f64::NAN),
        (f64::NEG_INFINITY, 1.0),
    ] {
        let graph = ConversionGraph::build(&vec![edge(A, B, qty_a, qty_b)]);
        assert!(resolve(&graph, A, B, 6).is_none(), "{:?} to {:?}", qty_a, qty_b);
        assert!(resolve(&graph, B, A, 6).is_none(), "{:?} to {:?}", qty_a, qty_b);
        assert!(graph.neighbors(A).is_none());
        assert!(graph.neighbors(B).is_none());
        assert_eq!(graph.unit_count(), 0);
    }
}

#[test]
fn an_unusable_edge_does_not_hide_a_usable_one() {
    let graph = ConversionGraph::build(
        &vec![edge(A, B, 0.0, 5.0), edge(A, B, 1.0, 4.0), edge(B, C, -1.0, 1.0)],
    );
    let found = resolve(&graph, A, B, 6).expect("one hop");
    assert_eq!(found.factor, vec![ratio(4.0, 1.0)]);
    assert!(resolve(&graph, A, C, 6).is_none());
}

#[test]
fn parallel_edges_are_kept_and_the_first_is_taken() {
    let graph = ConversionGraph::build(&vec![edge(A, B, 1.0, 2.0), edge(A, B, 1.0, 3.0)]);
    let arcs = graph.neighbors(A).expect("two arcs");
    assert_eq!(arcs.len(), 2);
    assert_eq!(arcs[0].to, B);
    assert_eq!(arcs[0].ratio, ratio(2.0, 1.0));
    assert_eq!(arcs[1].ratio, ratio(3.0, 1.0));
    let found = resolve(&graph, A, B, 6).expect("one hop");
    assert_eq!(found.factor, vec![ratio(2.0, 1.0)]);
    let back = resolve(&graph, B, A, 6).expect("one hop");
    assert_eq!(back.factor, vec![ratio(1.0, 2.0)]);
}

#[test]
fn arcs_stand_in_the_order_of_the_edges() {
    let graph = ConversionGraph::build(
        &vec![edge(A, B, 1.0, 2.0), edge(C, A, 1.0, 3.0), edge(A, A, 1.0, 5.0)],
    );
    let arcs = graph.neighbors(A).expect("four arcs");
    assert_eq!(arcs.len(), 4);
    assert_eq!((arcs[0].to, arcs[0].ratio), (B, ratio(2.0, 1.0)));
    assert_eq!((arcs[1].to, arcs[1].ratio), (C, ratio(1.0, 3.0)));
    assert_eq!((arcs[2].to, arcs[2].ratio), (A, ratio(5.0, 1.0)));
    assert_eq!((arcs[3].to, arcs[3].ratio), (A, ratio(1.0, 5.0)));
    assert_eq!(graph.unit_count(), 3);
    assert!(graph.neighbors(D).is_none());
}

#[test]
fn fewest_hops_win_over_edge_order() {
    let graph = ConversionGraph::build(
        &vec![edge(A, B, 1.0, 2.0), edge(B, C, 1.0, 2.0), edge(C, D, 1.0, 2.0), edge(A, D, 1.0, 7.0)],
    );
    let found = resolve(&graph, A, D, 6).expect("one hop");
    assert_eq!(found.hops, 1);
    assert_eq!(found.factor, vec![ratio(7.0, 1.0)]);
}

#[test]
fn among_equal_hops_the_earlier_arc_wins() {
    // two routes of two hops: over B (factor 2 * 3) and over C (factor 5 * 7)
    let over_b_first = ConversionGraph::build(
        &vec![edge(A, B, 1.0, 2.0), edge(A, C, 1.0, 5.0), edge(C, D, 1.0, 7.0), edge(B, D, 1.0, 3.0)],
    );
    let found = resolve(&over_b_first, A, D, 6).expect("two hops");
    assert_eq!(found.hops, 2);
    assert_eq!(found.factor, vec![ratio(2.0, 1.0), ratio(3.0, 1.0)]);
    let over_c_first = ConversionGraph::build(
        &vec![edge(A, C, 1.0, 5.0), edge(A, B, 1.0, 2.0), edge(C, D, 1.0, 7.0), edge(B, D, 1.0, 3.0)],
    );
    let found = resolve(&over_c_first, A, D, 6).expect("two hops");
    assert_eq!(found.factor, vec![ratio(5.0, 1.0), ratio(7.0, 1.0)]);
}

#[test]
fn a_cycle_does_not_keep_the_search_going() {
    let edges = vec![
        edge(A, B, 1.0, 2.0),
        edge(B, C, 1.0, 2.0),
        edge(C, A, 1.0, 2.0),
        edge(A, A, 1.0, 2.0),
        edge(B, A, 1.0, 2.0),
    ];
    let graph = ConversionGraph::build(&edges);
    assert!(resolve(&graph, A, D, 6).is_none());
    assert!(resolve(&graph, A, D, usize::MAX).is_none());
    let found = resolve(&graph, A, C, usize::MAX).expect("one hop, against the third edge");
    assert_eq!(found.hops, 1);
    assert_eq!(found.factor, vec![ratio(1.0, 2.0)]);
}

#[test]
fn a_unit_without_edges_reaches_nothing() {
    let graph = ConversionGraph::build(&vec![edge(A, B, 1.0, 2.0)]);
    assert!(resolve(&graph, D, A, 6).is_none());
    assert!(resolve(&graph, A, D, 6).is_none());
}

#[test]
fn conversion_over_edges_is_resolution_on_their_graph() {
    let edges = vec![edge(A, B, 2.0, 1.0), edge(B, C, 3.0, 1.0), edge(C, D, 0.0, 1.0)];
    let graph = ConversionGraph::build(&edges);
    for from in [A, B, C, D, 9] {
        for to in [A, B, C, D, 9] {
            for max_hops in [0usize, 1, 2, 6] {
                let direct = bfs_conversion_factor(&edges, from, to, max_hops);
                let on_graph = resolve(&graph, from, to, max_hops);
                match (direct, on_graph) {
                    (Some(x), Some(y)) => {
                        assert_eq!(x.hops, y.hops);
                        assert_eq!(x.factor, y.factor);
                    },
                    (None, None) => {},
                    _ => panic!("{} to {} within {}", from, to, max_hops),
                }
            }
        }
    }
}

#[test]
fn what_is_reached_one_way_is_reached_back_in_as_many_hops() {
    let edges = vec![
        edge(A, B, 2.0, 1.0),
        edge(B, C, 3.0, 1.0),
        edge(C, D, 4.0, 1.0),
        edge(A, C, 5.0, 1.0),
    ];
    for from in [A, B, C, D] {
        for to in [A, B, C, D] {
            for max_hops in [0usize, 1, 2, 3] {
                let there = bfs_conversion_factor(&edges, from, to, max_hops);
                let back = bfs_conversion_factor(&edges, to, from, max_hops);
                assert_eq!(there.map(|c| c.hops), back.map(|c| c.hops));
            }
        }
    }
}
