//! The conversion graph of one item: for each unit, the arcs that leave it.

use std::collections::HashMap;
use vstd::prelude::*;
use crate::records::{ConversionEdge, Ratio};
use crate::route::{arcs_from, edge_arcs, Arc};

verus! {

/// Adjacency lists over the units that some usable edge touches.
///
/// `slot` gives each such unit its place in `lists`; a unit without a place
/// has no arcs. The graph remembers, for the proofs only, the edges it was
/// built from: they are its view.
pub struct ConversionGraph {
    slot: HashMap<i64, usize>,
    lists: Vec<Vec<Arc>>,
    edges: Ghost<Seq<ConversionEdge>>,
}

/// The arcs that the lists hold for `unit`.
spec fn listed(slot: Map<i64, usize>, lists: Seq<Vec<Arc>>, unit: i64) -> Seq<Arc> {
    if slot.contains_key(unit) {
        lists[slot[unit] as int]@
    } else {
        Seq::empty()
    }
}

/// Every unit's place exists and holds an arc, and no two units share one.
spec fn slots_sound(slot: Map<i64, usize>, lists: Seq<Vec<Arc>>) -> bool {
    &&& forall|u: i64|
        #[trigger] slot.contains_key(u) ==> slot[u] < lists.len() && lists[slot[u] as int]@.len()
            > 0
    &&& forall|u: i64, v: i64|
        slot.contains_key(u) && slot.contains_key(v) && u != v ==> #[trigger] slot[u]
            != #[trigger] slot[v]
}

/// The lists hold exactly the arcs of `edges`.
spec fn lists_hold(slot: Map<i64, usize>, lists: Seq<Vec<Arc>>, edges: Seq<ConversionEdge>) -> bool {
    forall|u: i64| #[trigger] listed(slot, lists, u) == arcs_from(edges, u)
}

/// Appends `arc` to the arcs of `unit`, giving the unit a place first if it
/// has none.
fn add_arc(slot: &mut HashMap<i64, usize>, lists: &mut Vec<Vec<Arc>>, unit: i64, arc: Arc)
    requires
        slots_sound(old(slot)@, old(lists)@),
    ensures
        slots_sound(final(slot)@, final(lists)@),
        listed(final(slot)@, final(lists)@, unit) == listed(old(slot)@, old(lists)@, unit).push(arc),
        forall|v: i64|
            v != unit ==> #[trigger] listed(final(slot)@, final(lists)@, v) == listed(
                old(slot)@,
                old(lists)@,
                v,
            ),
{
    broadcast use vstd::std_specs::hash::group_hash_axioms;

    let found: Option<usize> = match slot.get(&unit) {
        Some(place) => Some(*place),
        None => None,
    };
    match found {
        Some(place) => {
            lists[place].push(arc);
            assert forall|v: i64| v != unit implies #[trigger] listed(slot@, lists@, v) == listed(
                old(slot)@,
                old(lists)@,
                v,
            ) by {}
        },
        None => {
            let place: usize = lists.len();
            let mut list: Vec<Arc> = Vec::new();
            list.push(arc);
            lists.push(list);
            slot.insert(unit, place);
            assert(listed(slot@, lists@, unit) =~= listed(old(slot)@, old(lists)@, unit).push(arc));
            assert forall|v: i64| v != unit implies #[trigger] listed(slot@, lists@, v) == listed(
                old(slot)@,
                old(lists)@,
                v,
            ) by {}
        },
    }
}

impl ConversionGraph {
    #[verifier::type_invariant]
    spec fn sound(self) -> bool {
        slots_sound(self.slot@, self.lists@) && lists_hold(self.slot@, self.lists@, self.edges@)
    }

    /// The edges the graph was built from.
    pub closed spec fn view(&self) -> Seq<ConversionEdge> {
        self.edges@
    }

    /// Builds the graph of `edges`: each usable edge adds an arc from
    /// `unit_a` to `unit_b` with the factor `qty_b / qty_a`, then one from
    /// `unit_b` to `unit_a` with `qty_a / qty_b`. Edges between the same two
    /// units are all kept. An edge with a quantity that is not greater than
    /// zero adds nothing.
    pub fn build(edges: &Vec<ConversionEdge>) -> (graph: ConversionGraph)
        ensures
            graph@ == edges@,
    {
        let mut slot: HashMap<i64, usize> = HashMap::new();
        let mut lists: Vec<Vec<Arc>> = Vec::new();
        let mut i: usize = 0;
        while i < edges.len()
            invariant
                0 <= i <= edges.len(),
                slots_sound(slot@, lists@),
                lists_hold(slot@, lists@, edges@.take(i as int)),
            decreases edges.len() - i,
        {
            let edge: ConversionEdge = edges[i];
            let ghost before_slot = slot@;
            let ghost before_lists = lists@;
            proof {
                assert(edges@.take(i + 1).drop_last() =~= edges@.take(i as int));
                assert(edges@.take(i + 1).last() == edge);
            }
            if edge.is_usable() {
                let out = Arc {
                    to: edge.unit_b,
                    ratio: Ratio { numer: edge.qty_b, denom: edge.qty_a },
                };
                let back = Arc {
                    to: edge.unit_a,
                    ratio: Ratio { numer: edge.qty_a, denom: edge.qty_b },
                };
                add_arc(&mut slot, &mut lists, edge.unit_a, out);
                let ghost mid_slot = slot@;
                let ghost mid_lists = lists@;
                add_arc(&mut slot, &mut lists, edge.unit_b, back);
                proof {
                    assert forall|u: i64| #[trigger]
                        listed(slot@, lists@, u) == arcs_from(edges@.take(i + 1), u) by {
                        assert(listed(before_slot, before_lists, u) == arcs_from(
                            edges@.take(i as int),
                            u,
                        ));
                        let grown = listed(before_slot, before_lists, u) + edge_arcs(edge, u);
                        if u == edge.unit_a {
                            assert(listed(mid_slot, mid_lists, u) == listed(
                                before_slot,
                                before_lists,
                                u,
                            ).push(out));
                        } else {
                            assert(listed(mid_slot, mid_lists, u) == listed(
                                before_slot,
                                before_lists,
                                u,
                            ));
                        }
                        if u == edge.unit_b {
                            assert(listed(slot@, lists@, u) == listed(mid_slot, mid_lists, u).push(
                                back,
                            ));
                        } else {
                            assert(listed(slot@, lists@, u) == listed(mid_slot, mid_lists, u));
                        }
                        assert(listed(slot@, lists@, u) =~= grown);
                    }
                }
            } else {
                proof {
                    assert forall|u: i64| #[trigger]
                        listed(slot@, lists@, u) == arcs_from(edges@.take(i + 1), u) by {
                        assert(listed(slot@, lists@, u) == arcs_from(edges@.take(i as int), u));
                        assert(arcs_from(edges@.take(i as int), u) + edge_arcs(edge, u)
                            =~= arcs_from(edges@.take(i as int), u));
                    }
                }
            }
            i = i + 1;
        }
        proof {
            assert(edges@.take(i as int) =~= edges@);
        }
        ConversionGraph { slot, lists, edges: Ghost(edges@) }
    }

    /// The units of the graph: those that an arc leaves.
    pub closed spec fn units(&self) -> Set<i64> {
        self.slot@.dom()
    }

    /// The number of units that an arc leaves.
    pub fn unit_count(&self) -> (count: usize)
        ensures
            self.units().finite(),
            count == self.units().len(),
            forall|u: i64| #[trigger] self.units().contains(u) <==> arcs_from(self@, u).len() > 0,
    {
        broadcast use vstd::std_specs::hash::group_hash_axioms;

        proof {
            use_type_invariant(self);
            assert forall|u: i64| #[trigger] self.units().contains(u) <==> arcs_from(
                self@,
                u,
            ).len() > 0 by {
                assert(listed(self.slot@, self.lists@, u) == arcs_from(self.edges@, u));
            }
        }
        self.slot.len()
    }

    /// The arcs that leave `unit`, in the order in which the edges gave them;
    /// `None` where the unit has no arc at all.
    pub fn neighbors(&self, unit: i64) -> (arcs: Option<&Vec<Arc>>)
        ensures
            arcs is Some <==> arcs_from(self@, unit).len() > 0,
            match arcs {
                Some(list) => list@ == arcs_from(self@, unit),
                None => true,
            },
    {
        broadcast use vstd::std_specs::hash::group_hash_axioms;

        proof {
            use_type_invariant(self);
            assert(listed(self.slot@, self.lists@, unit) == arcs_from(self.edges@, unit));
        }
        match self.slot.get(&unit) {
            Some(place) => Some(&self.lists[*place]),
            None => None,
        }
    }
}

} // verus!
