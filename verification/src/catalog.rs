//! The rows of a batch, held in memory, and the reads the engine makes of
//! them. Each read answers from the rows in the order in which they stand.

use vstd::prelude::*;
use crate::amount::Amount;
use crate::records::{ConversionEdge, PriceRecord, PurchaseUnitAssignment, TransactionPrice};
use crate::text::{
    lemma_bytes_total, lemma_bytes_transitive, order_text, text_before, text_same, TextOrder,
};
use vstd::utf8::encode_utf8;

verus! {

/// Everything the engine reads, loaded once for a batch of lines.
#[derive(Clone, Debug)]
pub struct Catalog {
    pub edges: Vec<ConversionEdge>,
    pub prices: Vec<PriceRecord>,
    pub transactions: Vec<TransactionPrice>,
    pub purchase_units: Vec<PurchaseUnitAssignment>,
}

/// The edges of `item_id`, in their order: with a vendor, those of the
/// vendor's scope and of the global scope; without, all of them.
pub open spec fn applicable_edges(
    edges: Seq<ConversionEdge>,
    item_id: i64,
    vendor_id: Option<i64>,
) -> Seq<ConversionEdge> {
    edges.filter(|e: ConversionEdge| e.applies(item_id, vendor_id))
}

/// Row `k` is the current price of the item: no row of the item has a lower
/// vendor, and none before it has the same.
pub open spec fn is_current_price(prices: Seq<PriceRecord>, item_id: i64, k: int) -> bool {
    &&& 0 <= k < prices.len()
    &&& prices[k].item_id == item_id
    &&& forall|j: int|
        0 <= j < prices.len() && (#[trigger] prices[j]).item_id == item_id ==> {
            &&& prices[k].vendor_id <= prices[j].vendor_id
            &&& j < k ==> prices[k].vendor_id < prices[j].vendor_id
        }
}

/// The current price of the item and the vendor who quotes it.
pub open spec fn current_price(prices: Seq<PriceRecord>, item_id: i64) -> Option<(Amount, i64)> {
    if exists|k: int| is_current_price(prices, item_id, k) {
        let k = choose|k: int| is_current_price(prices, item_id, k);
        Some((prices[k].price, prices[k].vendor_id))
    } else {
        None
    }
}

/// `a` was bought later than `b`: at a later date, or at the same date under
/// a higher transaction id.
pub open spec fn later(a: TransactionPrice, b: TransactionPrice) -> bool {
    text_before(b.date@, a.date@) || (text_same(a.date@, b.date@) && b.trans_id < a.trans_id)
}

/// The line is of the item and was paid for.
pub open spec fn is_purchase(line: TransactionPrice, item_id: i64) -> bool {
    line.item_id == item_id && line.price.positive()
}

/// Line `t` is the latest purchase of the item: none is later, and those
/// before it in the rows are earlier.
pub open spec fn is_latest_purchase(
    transactions: Seq<TransactionPrice>,
    item_id: i64,
    t: int,
) -> bool {
    &&& 0 <= t < transactions.len()
    &&& is_purchase(transactions[t], item_id)
    &&& forall|j: int|
        0 <= j < transactions.len() && is_purchase(#[trigger] transactions[j], item_id) ==> {
            &&& !later(transactions[j], transactions[t])
            &&& j < t ==> later(transactions[t], transactions[j])
        }
}

/// What was paid at the latest purchase of the item, and to which vendor.
pub open spec fn latest_transaction_price(
    transactions: Seq<TransactionPrice>,
    item_id: i64,
) -> Option<(Amount, i64)> {
    if exists|t: int| is_latest_purchase(transactions, item_id, t) {
        let t = choose|t: int| is_latest_purchase(transactions, item_id, t);
        Some((transactions[t].price, transactions[t].vendor_id))
    } else {
        None
    }
}

/// Row `k` is the first row of the item, among the default rows if
/// `default_only`, among all rows if not.
pub open spec fn is_first_assignment(
    rows: Seq<PurchaseUnitAssignment>,
    item_id: i64,
    default_only: bool,
    k: int,
) -> bool {
    &&& 0 <= k < rows.len()
    &&& rows[k].item_id == item_id
    &&& default_only ==> rows[k].is_default
    &&& forall|j: int|
        0 <= j < k ==> !((#[trigger] rows[j]).item_id == item_id && (default_only
            ==> rows[j].is_default))
}

/// The unit of the first row of the item, among the default rows or among all.
pub open spec fn first_assignment(
    rows: Seq<PurchaseUnitAssignment>,
    item_id: i64,
    default_only: bool,
) -> Option<i64> {
    if exists|k: int| is_first_assignment(rows, item_id, default_only, k) {
        Some(rows[choose|k: int| is_first_assignment(rows, item_id, default_only, k)].unit_id)
    } else {
        None
    }
}

/// The purchase unit that is flagged default for the item.
pub open spec fn default_purchase_unit(rows: Seq<PurchaseUnitAssignment>, item_id: i64) -> Option<
    i64,
> {
    first_assignment(rows, item_id, true)
}

/// Some purchase unit recorded for the item.
pub open spec fn any_purchase_unit(rows: Seq<PurchaseUnitAssignment>, item_id: i64) -> Option<i64> {
    first_assignment(rows, item_id, false)
}

/// Later is transitive.
pub proof fn lemma_later_transitive(a: TransactionPrice, b: TransactionPrice, c: TransactionPrice)
    requires
        later(a, b),
        later(b, c),
    ensures
        later(a, c),
{
    let x = encode_utf8(a.date@);
    let y = encode_utf8(b.date@);
    let z = encode_utf8(c.date@);
    if text_before(c.date@, b.date@) && text_before(b.date@, a.date@) {
        lemma_bytes_transitive(z, y, x);
    }
}

/// What is later than a line is later than all that are not later than it.
pub proof fn lemma_later_passes(a: TransactionPrice, b: TransactionPrice, c: TransactionPrice)
    requires
        !later(a, b),
        later(c, b),
    ensures
        later(c, a),
{
    let x = encode_utf8(a.date@);
    let y = encode_utf8(b.date@);
    let z = encode_utf8(c.date@);
    lemma_bytes_total(x, y);
    if text_before(a.date@, b.date@) && text_before(b.date@, c.date@) {
        lemma_bytes_transitive(x, y, z);
    }
}

impl Catalog {
    /// The edges that apply to an item: see `applicable_edges`.
    pub fn fetch_edges(&self, item_id: i64, vendor_id: Option<i64>) -> (found: Vec<ConversionEdge>)
        ensures
            found@ == applicable_edges(self.edges@, item_id, vendor_id),
    {
        let ghost applies = |e: ConversionEdge| e.applies(item_id, vendor_id);
        let mut found: Vec<ConversionEdge> = Vec::new();
        let mut i: usize = 0;
        proof {
            reveal(Seq::filter);
            assert(self.edges@.take(0) =~= Seq::empty());
        }
        while i < self.edges.len()
            invariant
                0 <= i <= self.edges.len(),
                applies == |e: ConversionEdge| e.applies(item_id, vendor_id),
                found@ == self.edges@.take(i as int).filter(applies),
            decreases self.edges.len() - i,
        {
            let edge: ConversionEdge = self.edges[i];
            proof {
                reveal(Seq::filter);
                assert(self.edges@.take(i + 1).drop_last() =~= self.edges@.take(i as int));
                assert(self.edges@.take(i + 1).last() == edge);
            }
            if edge.applies_to(item_id, vendor_id) {
                found.push(edge);
            }
            i = i + 1;
        }
        proof {
            assert(self.edges@.take(i as int) =~= self.edges@);
        }
        found
    }

    /// The current price of an item: of the rows of the item, the one with
    /// the lowest vendor id, the first of them if several share it. This is
    /// no lowest price and no newest one.
    pub fn fetch_current_price(&self, item_id: i64) -> (found: Option<(Amount, i64)>)
        ensures
            found == current_price(self.prices@, item_id),
            found is Some <==> exists|j: int|
                0 <= j < self.prices.len() && (#[trigger] self.prices[j]).item_id == item_id,
    {
        let mut best: Option<usize> = None;
        let mut i: usize = 0;
        while i < self.prices.len()
            invariant
                0 <= i <= self.prices.len(),
                match best {
                    Some(k) => is_current_price(self.prices@.take(i as int), item_id, k as int),
                    None => forall|j: int|
                        0 <= j < i ==> (#[trigger] self.prices[j]).item_id != item_id,
                },
            decreases self.prices.len() - i,
        {
            let ghost rows = self.prices@.take(i as int);
            let ghost more = self.prices@.take(i + 1);
            if self.prices[i].item_id == item_id {
                match best {
                    Some(k) => {
                        if self.prices[i].vendor_id < self.prices[k].vendor_id {
                            best = Some(i);
                            proof {
                                assert forall|j: int|
                                    0 <= j < more.len() && (#[trigger] more[j]).item_id
                                        == item_id implies {
                                    &&& more[i as int].vendor_id <= more[j].vendor_id
                                    &&& j < i ==> more[i as int].vendor_id < more[j].vendor_id
                                } by {
                                    if j < i {
                                        assert(rows[j].item_id == item_id);
                                    }
                                }
                            }
                        } else {
                            proof {
                                assert forall|j: int|
                                    0 <= j < more.len() && (#[trigger] more[j]).item_id
                                        == item_id implies {
                                    &&& more[k as int].vendor_id <= more[j].vendor_id
                                    &&& j < k ==> more[k as int].vendor_id < more[j].vendor_id
                                } by {
                                    if j < i {
                                        assert(rows[j].item_id == item_id);
                                    }
                                }
                            }
                        }
                    },
                    None => {
                        best = Some(i);
                    },
                }
            } else {
                proof {
                    match best {
                        Some(k) => {
                            assert forall|j: int|
                                0 <= j < more.len() && (#[trigger] more[j]).item_id
                                    == item_id implies {
                                &&& more[k as int].vendor_id <= more[j].vendor_id
                                &&& j < k ==> more[k as int].vendor_id < more[j].vendor_id
                            } by {
                                if j < i {
                                    assert(rows[j].item_id == item_id);
                                }
                            }
                        },
                        None => {},
                    }
                }
            }
            i = i + 1;
        }
        proof {
            assert(self.prices@.take(i as int) =~= self.prices@);
        }
        match best {
            Some(k) => {
                proof {
                    let chosen = choose|k: int| is_current_price(self.prices@, item_id, k);
                    assert(self.prices@[chosen].item_id == item_id);
                    assert(self.prices@[k as int].item_id == item_id);
                    assert(chosen == k);
                }
                Some((self.prices[k].price, self.prices[k].vendor_id))
            },
            None => {
                proof {
                    assert forall|k: int| !is_current_price(self.prices@, item_id, k) by {
                        if 0 <= k < self.prices.len() {
                            assert(self.prices[k].item_id != item_id);
                        }
                    }
                }
                None
            },
        }
    }

    /// What was last paid for an item: of the lines of the item with a price
    /// greater than zero, the one with the latest date, under the highest
    /// transaction id if several share the date, the first of them if they
    /// share that too. The vendor is of no account.
    pub fn fetch_latest_transaction_price(&self, item_id: i64) -> (found: Option<(Amount, i64)>)
        ensures
            found == latest_transaction_price(self.transactions@, item_id),
            found is Some <==> exists|j: int|
                0 <= j < self.transactions.len() && is_purchase(
                    #[trigger] self.transactions[j],
                    item_id,
                ),
            match found {
                Some((price, _)) => price.positive(),
                None => true,
            },
    {
        let mut best: Option<usize> = None;
        let mut i: usize = 0;
        while i < self.transactions.len()
            invariant
                0 <= i <= self.transactions.len(),
                match best {
                    Some(t) => is_latest_purchase(
                        self.transactions@.take(i as int),
                        item_id,
                        t as int,
                    ),
                    None => forall|j: int|
                        0 <= j < i ==> !is_purchase(#[trigger] self.transactions[j], item_id),
                },
            decreases self.transactions.len() - i,
        {
            let ghost rows = self.transactions@.take(i as int);
            let ghost more = self.transactions@.take(i + 1);
            let line = &self.transactions[i];
            let mut takes: bool = false;
            if line.item_id == item_id && line.price.is_positive() {
                match best {
                    Some(t) => {
                        let held = &self.transactions[t];
                        let order = order_text(held.date.as_str(), line.date.as_str());
                        takes = match order {
                            TextOrder::Before => true,
                            TextOrder::Same => held.trans_id < line.trans_id,
                            TextOrder::After => false,
                        };
                        assert(takes == later(*line, *held));
                    },
                    None => {
                        takes = true;
                    },
                }
            }
            proof {
                match best {
                    Some(t) => {
                        let held = self.transactions@[t as int];
                        if takes {
                            assert forall|j: int|
                                0 <= j < more.len() && is_purchase(
                                    #[trigger] more[j],
                                    item_id,
                                ) implies {
                                &&& !later(more[j], more[i as int])
                                &&& j < i ==> later(more[i as int], more[j])
                            } by {
                                if j < i {
                                    assert(is_purchase(rows[j], item_id));
                                    assert(!later(rows[j], held));
                                    lemma_later_passes(rows[j], held, *line);
                                    if later(rows[j], *line) {
                                        lemma_later_transitive(rows[j], *line, rows[j]);
                                    }
                                }
                            }
                        } else {
                            assert forall|j: int|
                                0 <= j < more.len() && is_purchase(
                                    #[trigger] more[j],
                                    item_id,
                                ) implies {
                                &&& !later(more[j], more[t as int])
                                &&& j < t ==> later(more[t as int], more[j])
                            } by {
                                if j < i {
                                    assert(is_purchase(rows[j], item_id));
                                }
                            }
                        }
                    },
                    None => {},
                }
            }
            if takes {
                best = Some(i);
            }
            i = i + 1;
        }
        proof {
            assert(self.transactions@.take(i as int) =~= self.transactions@);
        }
        match best {
            Some(t) => {
                proof {
                    let rows = self.transactions@;
                    let chosen = choose|t: int| is_latest_purchase(rows, item_id, t);
                    assert(is_purchase(rows[chosen], item_id));
                    assert(is_purchase(rows[t as int], item_id));
                    if chosen < t {
                        assert(later(rows[t as int], rows[chosen]));
                    }
                    if t < chosen {
                        assert(later(rows[chosen], rows[t as int]));
                    }
                    assert(chosen == t);
                }
                Some((self.transactions[t].price, self.transactions[t].vendor_id))
            },
            None => {
                proof {
                    assert forall|t: int| !is_latest_purchase(self.transactions@, item_id, t) by {
                        if 0 <= t < self.transactions.len() {
                            assert(!is_purchase(self.transactions[t], item_id));
                        }
                    }
                }
                None
            },
        }
    }

    /// The unit of the first row of the item, among the default rows if
    /// `default_only`, among all its rows if not.
    fn first_unit(&self, item_id: i64, default_only: bool) -> (found: Option<i64>)
        ensures
            found == first_assignment(self.purchase_units@, item_id, default_only),
            found is Some <==> exists|j: int|
                0 <= j < self.purchase_units.len() && (#[trigger] self.purchase_units[j]).item_id
                    == item_id && (default_only ==> self.purchase_units[j].is_default),
    {
        let mut i: usize = 0;
        while i < self.purchase_units.len()
            invariant
                0 <= i <= self.purchase_units.len(),
                forall|j: int|
                    0 <= j < i ==> !((#[trigger] self.purchase_units[j]).item_id == item_id && (
                    default_only ==> self.purchase_units[j].is_default)),
            decreases self.purchase_units.len() - i,
        {
            let row: PurchaseUnitAssignment = self.purchase_units[i];
            if row.item_id == item_id && (!default_only || row.is_default) {
                proof {
                    let rows = self.purchase_units@;
                    assert(is_first_assignment(rows, item_id, default_only, i as int));
                    let chosen = choose|k: int|
                        is_first_assignment(rows, item_id, default_only, k);
                    if chosen < i {
                        assert(rows[chosen].item_id == item_id);
                    }
                    if i < chosen {
                        assert(rows[i as int].item_id == item_id);
                    }
                    assert(chosen == i);
                }
                return Some(row.unit_id);
            }
            i = i + 1;
        }
        proof {
            assert forall|k: int|
                !is_first_assignment(self.purchase_units@, item_id, default_only, k) by {
                if 0 <= k < self.purchase_units.len() {
                    assert(!(self.purchase_units[k].item_id == item_id && (default_only
                        ==> self.purchase_units[k].is_default)));
                }
            }
        }
        None
    }

    /// The unit flagged default for an item: that of the first such row.
    pub fn fetch_default_purchase_unit(&self, item_id: i64) -> (found: Option<i64>)
        ensures
            found == default_purchase_unit(self.purchase_units@, item_id),
            found is Some <==> exists|j: int|
                0 <= j < self.purchase_units.len() && (#[trigger] self.purchase_units[j]).item_id
                    == item_id && self.purchase_units[j].is_default,
    {
        self.first_unit(item_id, true)
    }

    /// A unit recorded for an item, flagged or not: that of its first row.
    pub fn fetch_any_purchase_unit(&self, item_id: i64) -> (found: Option<i64>)
        ensures
            found == any_purchase_unit(self.purchase_units@, item_id),
            found is Some <==> exists|j: int|
                0 <= j < self.purchase_units.len() && (#[trigger] self.purchase_units[j]).item_id
                    == item_id,
    {
        self.first_unit(item_id, false)
    }
}

} // verus!
