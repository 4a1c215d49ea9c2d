//! The rows the engine reads, and the lines it is asked to cost.
//!
//! Units, items and vendors are opaque keys. Nothing here is ever changed by
//! the engine: it interprets the rows as they stand when it is called.

use vstd::prelude::*;
use crate::amount::Amount;

verus! {

/// Vendor scope of a conversion edge that applies whatever the vendor.
pub const GLOBAL_VENDOR: i64 = 0;

/// A factor between two units, kept as the two amounts whose quotient it is.
#[derive(Clone, Copy, Debug, PartialEq, Eq, Structural)]
pub struct Ratio {
    pub numer: Amount,
    pub denom: Amount,
}

/// "`qty_a` of `unit_a` equals `qty_b` of `unit_b`", for one item, within one
/// vendor scope.
#[derive(Clone, Copy, Debug, PartialEq, Eq, Structural)]
pub struct ConversionEdge {
    pub item_id: i64,
    pub vendor_id: i64,
    pub unit_a: i64,
    pub unit_b: i64,
    pub qty_a: Amount,
    pub qty_b: Amount,
}

impl ConversionEdge {
    /// An edge counts only when both of its quantities are greater than zero.
    pub open spec fn usable(self) -> bool {
        self.qty_a.positive() && self.qty_b.positive()
    }

    /// The edge belongs to `item_id` and, where a vendor is given, to that
    /// vendor's scope or to the global one.
    pub open spec fn applies(self, item_id: i64, vendor_id: Option<i64>) -> bool {
        self.item_id == item_id && match vendor_id {
            Some(v) => self.vendor_id == v || self.vendor_id == GLOBAL_VENDOR,
            None => true,
        }
    }

    /// How many `unit_b` make one `unit_a`.
    pub open spec fn forward(self) -> Ratio {
        Ratio { numer: self.qty_b, denom: self.qty_a }
    }

    /// How many `unit_a` make one `unit_b`: `forward` upside down.
    pub open spec fn backward(self) -> Ratio {
        Ratio { numer: self.qty_a, denom: self.qty_b }
    }

    /// Tests `usable`.
    pub fn is_usable(&self) -> (r: bool)
        ensures
            r == self.usable(),
    {
        self.qty_a.is_positive() && self.qty_b.is_positive()
    }

    /// Tests `applies`.
    pub fn applies_to(&self, item_id: i64, vendor_id: Option<i64>) -> (r: bool)
        ensures
            r == self.applies(item_id, vendor_id),
    {
        self.item_id == item_id && match vendor_id {
            Some(v) => self.vendor_id == v || self.vendor_id == GLOBAL_VENDOR,
            None => true,
        }
    }
}

/// A price that a vendor currently quotes for an item.
#[derive(Clone, Debug)]
pub struct PriceRecord {
    pub item_id: i64,
    pub vendor_id: i64,
    pub price: Amount,
    pub pack: String,
}

/// A line of purchase history: what was paid for an item, when, to whom.
#[derive(Clone, Debug)]
pub struct TransactionPrice {
    pub item_id: i64,
    pub vendor_id: i64,
    pub trans_id: i64,
    pub date: String,
    pub price: Amount,
}

/// A unit in which an item is bought.
#[derive(Clone, Copy, Debug, PartialEq, Eq, Structural)]
pub struct PurchaseUnitAssignment {
    pub item_id: i64,
    pub unit_id: i64,
    pub is_default: bool,
}

/// A quantity of an item, in the unit the recipe names (if it names one).
#[derive(Clone, Copy, Debug, PartialEq, Eq, Structural)]
pub struct RecipeLine {
    pub item_id: i64,
    pub recipe_unit: Option<i64>,
    pub qty: Amount,
}

} // verus!
