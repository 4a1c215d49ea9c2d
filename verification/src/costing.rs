//! Costing recipe lines: which unit an item is bought in, at what price, by
//! which conversion, and so at what cost; or the first reason why not.
//!
//! The engine multiplies nothing. A cost comes out as the product to form:
//! the quantity, the ratios of the conversion in their order, and the price.
//! Whoever holds the numbers forms the conversion factor first, as the
//! product of the ratios taken in order and starting from one, and then
//! quantity times factor times price.

use vstd::prelude::*;
use vstd::string::StringExecFns;
use crate::amount::Amount;
use crate::catalog::{
    any_purchase_unit, applicable_edges, current_price, default_purchase_unit,
    latest_transaction_price, Catalog,
};
use crate::graph::ConversionGraph;
use crate::records::{ConversionEdge, Ratio, RecipeLine};
use crate::resolver::{resolve, Conversion, DEFAULT_MAX_HOPS};
use crate::route::conversion_of;

verus! {

/// Why a line has a cost, or the first thing that keeps it from having one.
#[derive(Clone, Copy, Debug, PartialEq, Eq, Structural)]
pub enum CostStatus {
    /// The quantity is zero or less.
    MissingQty,
    /// The item has no purchase unit.
    MissingPurchaseUnit,
    /// The item has no price.
    MissingPrice,
    /// Nothing leads from the recipe unit to the purchase unit.
    NeedsConversion,
    /// Costed; recipe unit and purchase unit are the same.
    Okay,
    /// Costed through a conversion of this many hops.
    OkWithHops(usize),
}

/// The decimal digit for a number below ten.
pub open spec fn digit(d: nat) -> char {
    if d == 0 {
        '0'
    } else if d == 1 {
        '1'
    } else if d == 2 {
        '2'
    } else if d == 3 {
        '3'
    } else if d == 4 {
        '4'
    } else if d == 5 {
        '5'
    } else if d == 6 {
        '6'
    } else if d == 7 {
        '7'
    } else if d == 8 {
        '8'
    } else {
        '9'
    }
}

/// A number in decimal digits, without leading zeros.
pub open spec fn decimal(n: nat) -> Seq<char>
    decreases n,
{
    if n < 10 {
        seq![digit(n)]
    } else {
        decimal(n / 10).push(digit(n % 10))
    }
}

/// The text of one digit.
fn digit_text(d: usize) -> (text: &'static str)
    requires
        d < 10,
    ensures
        text@ == seq![digit(d as nat)],
{
    proof {
        reveal_strlit("0");
        reveal_strlit("1");
        reveal_strlit("2");
        reveal_strlit("3");
        reveal_strlit("4");
        reveal_strlit("5");
        reveal_strlit("6");
        reveal_strlit("7");
        reveal_strlit("8");
        reveal_strlit("9");
    }
    let text = if d == 0 {
        "0"
    } else if d == 1 {
        "1"
    } else if d == 2 {
        "2"
    } else if d == 3 {
        "3"
    } else if d == 4 {
        "4"
    } else if d == 5 {
        "5"
    } else if d == 6 {
        "6"
    } else if d == 7 {
        "7"
    } else if d == 8 {
        "8"
    } else {
        "9"
    };
    assert(text@ =~= seq![digit(d as nat)]);
    text
}

/// Writes a number in decimal digits.
fn decimal_text(n: usize) -> (text: String)
    ensures
        text@ == decimal(n as nat),
    decreases n,
{
    if n < 10 {
        String::from_str(digit_text(n))
    } else {
        let mut text = decimal_text(n / 10);
        text.append(digit_text(n % 10));
        assert(text@ =~= decimal((n / 10) as nat).push(digit((n % 10) as nat)));
        text
    }
}

impl CostStatus {
    /// The status of a line that has a cost.
    pub open spec fn costed(self) -> bool {
        self is Okay || self is OkWithHops
    }

    /// The status in words, as shown beside a line.
    pub open spec fn wording(self) -> Seq<char> {
        match self {
            CostStatus::MissingQty => "Missing qty"@,
            CostStatus::MissingPurchaseUnit => "Missing purch unit"@,
            CostStatus::MissingPrice => "Missing price"@,
            CostStatus::NeedsConversion => "Needs conversion"@,
            CostStatus::Okay => "OK"@,
            CostStatus::OkWithHops(hops) => "OK ("@ + decimal(hops as nat) + " hops)"@,
        }
    }

    /// Writes the status in words.
    pub fn label(&self) -> (text: String)
        ensures
            text@ == self.wording(),
    {
        match self {
            CostStatus::MissingQty => String::from_str("Missing qty"),
            CostStatus::MissingPurchaseUnit => String::from_str("Missing purch unit"),
            CostStatus::MissingPrice => String::from_str("Missing price"),
            CostStatus::NeedsConversion => String::from_str("Needs conversion"),
            CostStatus::Okay => String::from_str("OK"),
            CostStatus::OkWithHops(hops) => {
                let mut text = String::from_str("OK (");
                let digits = decimal_text(*hops);
                text.append(digits.as_str());
                text.append(" hops)");
                text
            },
        }
    }

    /// Tests `costed`.
    pub fn is_costed(&self) -> (r: bool)
        ensures
            r == self.costed(),
    {
        match self {
            CostStatus::Okay => true,
            CostStatus::OkWithHops(_) => true,
            _ => false,
        }
    }
}

/// An extended cost, as the product to form: `qty`, times the conversion
/// factor that is the product of the ratios in `factor`, times `price`.
#[derive(Debug)]
pub struct ExtendedCost {
    pub qty: Amount,
    pub factor: Vec<Ratio>,
    pub price: Amount,
}

/// What the engine found for one line.
#[derive(Debug)]
pub struct CostLineResult {
    pub purchase_unit: Option<i64>,
    pub price: Option<Amount>,
    pub price_vendor: Option<i64>,
    pub extended_cost: Option<ExtendedCost>,
    pub status: CostStatus,
}

/// What the engine found for a batch: a result for each line, in the order
/// of the lines, and the number of lines without a cost.
#[derive(Debug)]
pub struct FoodCostResult {
    pub lines: Vec<CostLineResult>,
    pub missing_costs: usize,
}

/// An extended cost as a value: quantity, factors, price.
pub struct CostTerms {
    pub qty: Amount,
    pub factor: Seq<Ratio>,
    pub price: Amount,
}

/// A line's result as a value.
pub struct LineOutcome {
    pub purchase_unit: Option<i64>,
    pub price: Option<Amount>,
    pub price_vendor: Option<i64>,
    pub extended_cost: Option<CostTerms>,
    pub status: CostStatus,
}

impl View for ExtendedCost {
    type V = CostTerms;

    open spec fn view(&self) -> CostTerms {
        CostTerms { qty: self.qty, factor: self.factor@, price: self.price }
    }
}

impl View for CostLineResult {
    type V = LineOutcome;

    open spec fn view(&self) -> LineOutcome {
        LineOutcome {
            purchase_unit: self.purchase_unit,
            price: self.price,
            price_vendor: self.price_vendor,
            extended_cost: match self.extended_cost {
                Some(cost) => Some(cost@),
                None => None,
            },
            status: self.status,
        }
    }
}

/// The unit an item is bought in: the one flagged default, else any recorded
/// for it.
pub open spec fn purchase_unit_of(catalog: Catalog, item_id: i64) -> Option<i64> {
    match default_purchase_unit(catalog.purchase_units@, item_id) {
        Some(unit) => Some(unit),
        None => any_purchase_unit(catalog.purchase_units@, item_id),
    }
}

/// The price of an item and the vendor it comes from: the current price if
/// the item has one, else what was last paid; in either case only a price
/// greater than zero. An item whose current price is not greater than zero
/// has no price: what was last paid is looked at only where no current
/// price is on record.
pub open spec fn price_of(catalog: Catalog, item_id: i64) -> Option<(Amount, i64)> {
    match current_price(catalog.prices@, item_id) {
        Some((price, vendor)) => if price.positive() {
            Some((price, vendor))
        } else {
            None
        },
        None => latest_transaction_price(catalog.transactions@, item_id),
    }
}

/// The conversion of a line's unit into the purchase unit: none without a
/// recipe unit; the identity if the two units are the same; else the
/// conversion over the item's edges in the scope of the price's vendor, in
/// at most `DEFAULT_MAX_HOPS` hops.
pub open spec fn line_conversion(
    catalog: Catalog,
    line: RecipeLine,
    purchase_unit: i64,
    vendor_id: i64,
) -> Option<(Seq<Ratio>, nat)> {
    match line.recipe_unit {
        None => None,
        Some(recipe_unit) => if recipe_unit == purchase_unit {
            Some((Seq::empty(), 0nat))
        } else {
            conversion_of(
                applicable_edges(catalog.edges@, line.item_id, Some(vendor_id)),
                recipe_unit,
                purchase_unit,
                DEFAULT_MAX_HOPS as nat,
            )
        },
    }
}

/// The status of a line and its cost. The first of these that holds decides:
/// the quantity is at most zero; the item has no purchase unit; it has no
/// price; its unit does not convert into the purchase unit. If none holds the
/// cost is quantity times conversion factor times price.
pub open spec fn line_cost(catalog: Catalog, line: RecipeLine) -> (CostStatus, Option<CostTerms>) {
    if line.qty.at_most_zero() {
        (CostStatus::MissingQty, None)
    } else {
        match purchase_unit_of(catalog, line.item_id) {
            None => (CostStatus::MissingPurchaseUnit, None),
            Some(purchase_unit) => match price_of(catalog, line.item_id) {
                None => (CostStatus::MissingPrice, None),
                Some((price, vendor)) => match line_conversion(
                    catalog,
                    line,
                    purchase_unit,
                    vendor,
                ) {
                    None => (CostStatus::NeedsConversion, None),
                    Some((factor, hops)) => (
                        if hops == 0 {
                            CostStatus::Okay
                        } else {
                            CostStatus::OkWithHops(hops as usize)
                        },
                        Some(CostTerms { qty: line.qty, factor, price }),
                    ),
                },
            },
        }
    }
}

/// What the engine finds for a line. Purchase unit and price are reported
/// as they resolve, whatever the status.
pub open spec fn evaluation(catalog: Catalog, line: RecipeLine) -> LineOutcome {
    let price = price_of(catalog, line.item_id);
    LineOutcome {
        purchase_unit: purchase_unit_of(catalog, line.item_id),
        price: match price {
            Some((amount, _)) => Some(amount),
            None => None,
        },
        price_vendor: match price {
            Some((_, vendor)) => Some(vendor),
            None => None,
        },
        extended_cost: line_cost(catalog, line).1,
        status: line_cost(catalog, line).0,
    }
}

/// How many of the outcomes have a status other than the two of a costed
/// line.
pub open spec fn missing_count(outcomes: Seq<LineOutcome>) -> nat {
    outcomes.filter(|o: LineOutcome| !o.status.costed()).len()
}

/// The outcomes of a batch, line by line.
pub open spec fn evaluations(catalog: Catalog, lines: Seq<RecipeLine>) -> Seq<LineOutcome> {
    Seq::new(lines.len(), |i: int| evaluation(catalog, lines[i]))
}

/// The views of the results.
pub open spec fn outcomes(results: Seq<CostLineResult>) -> Seq<LineOutcome> {
    Seq::new(results.len(), |i: int| results[i]@)
}

/// Finds the unit in which an item is bought: see `purchase_unit_of`.
pub fn resolve_purchase_unit(catalog: &Catalog, item_id: i64) -> (unit: Option<i64>)
    ensures
        unit == purchase_unit_of(*catalog, item_id),
        unit is Some <==> exists|j: int|
            0 <= j < catalog.purchase_units.len() && (#[trigger] catalog.purchase_units[j]).item_id
                == item_id,
{
    match catalog.fetch_default_purchase_unit(item_id) {
        Some(unit) => Some(unit),
        None => catalog.fetch_any_purchase_unit(item_id),
    }
}

/// Finds the price of an item, and the vendor it comes from: see `price_of`.
pub fn resolve_price(catalog: &Catalog, item_id: i64) -> (found: Option<(Amount, i64)>)
    ensures
        found == price_of(*catalog, item_id),
        match found {
            Some((price, _)) => price.positive(),
            None => true,
        },
{
    match catalog.fetch_current_price(item_id) {
        Some((price, vendor)) => {
            if price.is_positive() {
                Some((price, vendor))
            } else {
                None
            }
        },
        None => catalog.fetch_latest_transaction_price(item_id),
    }
}

/// Costs one line: see `evaluation`. What keeps a line from having a cost is
/// reported in a fixed order, so that a quantity of zero is reported as
/// missing even where unit, price and conversion are missing too, or are all
/// there.
pub fn evaluate(catalog: &Catalog, line: &RecipeLine) -> (result: CostLineResult)
    ensures
        result@ == evaluation(*catalog, *line),
        line.qty.at_most_zero() ==> result.status == CostStatus::MissingQty,
        !line.qty.at_most_zero() && purchase_unit_of(*catalog, line.item_id) is None
            ==> result.status == CostStatus::MissingPurchaseUnit,
        !line.qty.at_most_zero() && purchase_unit_of(*catalog, line.item_id) is Some && price_of(
            *catalog,
            line.item_id,
        ) is None ==> result.status == CostStatus::MissingPrice,
        result.status.costed() <==> result.extended_cost is Some,
        result.status.costed() ==> !line.qty.at_most_zero() && result.purchase_unit is Some
            && result.price is Some,
        result.purchase_unit == purchase_unit_of(*catalog, line.item_id),
{
    let purchase_unit: Option<i64> = resolve_purchase_unit(catalog, line.item_id);
    let priced: Option<(Amount, i64)> = resolve_price(catalog, line.item_id);
    let (price, price_vendor): (Option<Amount>, Option<i64>) = match priced {
        Some((amount, vendor)) => (Some(amount), Some(vendor)),
        None => (None, None),
    };
    let mut status: CostStatus = CostStatus::MissingQty;
    let mut extended_cost: Option<ExtendedCost> = None;
    if !line.qty.is_at_most_zero() {
        match (purchase_unit, priced) {
            (None, _) => {
                status = CostStatus::MissingPurchaseUnit;
            },
            (Some(_), None) => {
                status = CostStatus::MissingPrice;
            },
            (Some(unit), Some((amount, vendor))) => {
                match convert_line(catalog, line, unit, vendor) {
                    None => {
                        status = CostStatus::NeedsConversion;
                    },
                    Some(conversion) => {
                        status = if conversion.hops == 0 {
                            CostStatus::Okay
                        } else {
                            CostStatus::OkWithHops(conversion.hops)
                        };
                        extended_cost = Some(
                            ExtendedCost { qty: line.qty, factor: conversion.factor, price: amount },
                        );
                    },
                }
            },
        }
    }
    CostLineResult { purchase_unit, price, price_vendor, extended_cost, status }
}

/// Converts a line's unit into the purchase unit: see `line_conversion`.
fn convert_line(catalog: &Catalog, line: &RecipeLine, purchase_unit: i64, vendor_id: i64) -> (found:
    Option<Conversion>)
    ensures
        match found {
            Some(conversion) => line_conversion(*catalog, *line, purchase_unit, vendor_id) == Some(
                (conversion.factor@, conversion.hops as nat),
            ) && conversion.hops <= DEFAULT_MAX_HOPS,
            None => line_conversion(*catalog, *line, purchase_unit, vendor_id) is None,
        },
{
    match line.recipe_unit {
        None => None,
        Some(recipe_unit) => {
            if recipe_unit == purchase_unit {
                Some(Conversion { factor: Vec::new(), hops: 0 })
            } else {
                let edges: Vec<ConversionEdge> = catalog.fetch_edges(line.item_id, Some(vendor_id));
                let graph = ConversionGraph::build(&edges);
                resolve(&graph, recipe_unit, purchase_unit, DEFAULT_MAX_HOPS)
            }
        },
    }
}

/// Costs a batch of lines: each line by `evaluate`, in the order given, and
/// the number of lines that have no cost.
pub fn evaluate_all(catalog: &Catalog, lines: &Vec<RecipeLine>) -> (result: FoodCostResult)
    ensures
        outcomes(result.lines@) == evaluations(*catalog, lines@),
        result.lines@.len() == lines@.len(),
        result.missing_costs == missing_count(outcomes(result.lines@)),
        forall|i: int|
            0 <= i < lines.len() ==> ((#[trigger] result.lines[i]).status.costed()
                <==> result.lines[i].extended_cost is Some),
{
    let ghost no_cost = |o: LineOutcome| !o.status.costed();
    let mut results: Vec<CostLineResult> = Vec::new();
    let mut missing: usize = 0;
    let mut i: usize = 0;
    proof {
        reveal(Seq::filter);
        assert(outcomes(results@) =~= Seq::empty());
    }
    while i < lines.len()
        invariant
            0 <= i <= lines.len(),
            no_cost == |o: LineOutcome| !o.status.costed(),
            results@.len() == i,
            outcomes(results@) == evaluations(*catalog, lines@.take(i as int)),
            missing == outcomes(results@).filter(no_cost).len(),
            missing <= i,
            forall|j: int|
                0 <= j < i ==> ((#[trigger] results[j]).status.costed()
                    <==> results[j].extended_cost is Some),
        decreases lines.len() - i,
    {
        let result = evaluate(catalog, &lines[i]);
        let ghost before = outcomes(results@);
        let costed: bool = result.extended_cost.is_some();
        results.push(result);
        if !costed {
            missing = missing + 1;
        }
        proof {
            reveal(Seq::filter);
            let after = outcomes(results@);
            assert(after.drop_last() =~= before);
            assert(after.last() == results@[i as int]@);
            assert(after =~= evaluations(*catalog, lines@.take(i + 1))) by {
                assert forall|j: int| 0 <= j < after.len() implies after[j] == evaluations(
                    *catalog,
                    lines@.take(i + 1),
                )[j] by {
                    if j < i {
                        assert(after[j] == before[j]);
                        assert(before[j] == evaluations(*catalog, lines@.take(i as int))[j]);
                    }
                }
            }
        }
        i = i + 1;
    }
    proof {
        assert(lines@.take(i as int) =~= lines@);
    }
    FoodCostResult { lines: results, missing_costs: missing }
}

} // verus!
