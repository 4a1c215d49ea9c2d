use foodcost::amount::Amount;
use foodcost::catalog::Catalog;
use foodcost::costing::{resolve_price, resolve_purchase_unit};
use foodcost::records::{
    ConversionEdge, PriceRecord, PurchaseUnitAssignment, TransactionPrice, GLOBAL_VENDOR,
};
use foodcost::text::{order_bytes, order_text, TextOrder};

fn amt(x: f64) -> Amount {
    Amount::from_bits(x.to_bits())
}

fn empty() -> Catalog {
    Catalog { edges: vec![], prices: vec![], transactions: vec![], purchase_units: vec![] }
}

fn edge(item_id: i64, vendor_id: i64, unit_a: i64, unit_b: i64) -> ConversionEdge {
    ConversionEdge { item_id, vendor_id, unit_a, unit_b, qty_a: amt(1.0), qty_b: amt(2.0) }
}

fn price(item_id: i64, vendor_id: i64, price: f64) -> PriceRecord {
    PriceRecord { item_id, vendor_id, price: amt(price), pack: String::from("cs") }
}

fn paid(item_id: i64, vendor_id: i64, trans_id: i64, date: &str, price: f64) -> TransactionPrice {
    TransactionPrice { item_id, vendor_id, trans_id, date: String::from(date), price: amt(price) }
}

fn unit(item_id: i64, unit_id: i64, is_default: bool) -> PurchaseUnitAssignment {
    PurchaseUnitAssignment { item_id, unit_id, is_default }
}

#[test]
fn global_scope_is_vendor_zero() {
    assert_eq!(GLOBAL_VENDOR, 0);
}

#[test]
fn edges_of_a_vendor_and_of_the_global_scope() {
    let mut catalog = empty();
    catalog.edges = vec![
        edge(100, 7, 1, 2),
        edge(100, 0, 2, 3),
        edge(100, 8, 3, 4),
        edge(200, 7, 4, 5),
        edge(100, 7, 5, 6),
    ];
    let found = catalog.fetch_edges(100, Some(7));
    assert_eq!(found, vec![edge(100, 7, 1, 2), edge(100, 0, 2, 3), edge(100, 7, 5, 6)]);
    let global_only = catalog.fetch_edges(100, Some(0));
    assert_eq!(global_only, vec![edge(100, 0, 2, 3)]);
    let other = catalog.fetch_edges(100, Some(9));
    assert_eq!(other, vec![edge(100, 0, 2, 3)]);
}

#[test]
fn edges_of_every_scope_without_a_vendor() {
    let mut catalog = empty();
    catalog.edges = vec![edge(100, 7, 1, 2), edge(200, 0, 2, 3), edge(100, 8, 3, 4), edge(100, 0, 4, 5)];
    let found = catalog.fetch_edges(100, None);
    assert_eq!(found, vec![edge(100, 7, 1, 2), edge(100, 8, 3, 4), edge(100, 0, 4, 5)]);
    assert!(catalog.fetch_edges(300, None).is_empty());
    assert!(empty().fetch_edges(100, Some(7)).is_empty());
}

#[test]
fn edge_tests() {
    let e = ConversionEdge { item_id: 1, vendor_id: 7, unit_a: 1, unit_b: 2, qty_a: amt(1.0), qty_b: amt(0.0) };
    assert!(!e.is_usable());
    assert!(edge(1, 7, 1, 2).is_usable());
    assert!(e.applies_to(1, None));
    assert!(e.applies_to(1, Some(7)));
    assert!(!e.applies_to(1, Some(8)));
    assert!(!e.applies_to(2, Some(7)));
    assert!(edge(1, 0, 1, 2).applies_to(1, Some(8)));
}

#[test]
fn current_price_is_that_of_the_lowest_vendor() {
    let mut catalog = empty();
    catalog.prices = vec![
        price(100, 9, 1.0),
        price(200, 1, 2.0),
        price(100, 3, 50.0),
        price(100, 5, 0.5),
        price(100, 3, 60.0),
    ];
    assert_eq!(catalog.fetch_current_price(100), Some((amt(50.0), 3)));
    assert_eq!(catalog.fetch_current_price(200), Some((amt(2.0), 1)));
    assert_eq!(catalog.fetch_current_price(300), None);
    assert_eq!(resolve_price(&catalog, 100), Some((amt(50.0), 3)));
}

#[test]
fn vendor_ids_below_zero_come_first() {
    let mut catalog = empty();
    catalog.prices = vec![price(100, 0, 1.0), price(100, -4, 2.0), price(100, i64::MIN, 3.0)];
    assert_eq!(catalog.fetch_current_price(100), Some((amt(3.0), i64::MIN)));
}

#[test]
fn latest_purchase_by_date_then_by_id() {
    let mut catalog = empty();
    catalog.transactions = vec![
        paid(100, 1, 10, "2024-01-05", 90.0),
        paid(100, 2, 11, "2024-03-01", 110.0),
        paid(100, 3, 12, "2024-02-01", 100.0),
        paid(200, 4, 99, "2025-01-01", 1.0),
    ];
    assert_eq!(catalog.fetch_latest_transaction_price(100), Some((amt(110.0), 2)));
    catalog.transactions.push(paid(100, 5, 13, "2024-03-01", 120.0));
    assert_eq!(catalog.fetch_latest_transaction_price(100), Some((amt(120.0), 5)));
    catalog.transactions.push(paid(100, 6, 2, "2024-03-01", 130.0));
    assert_eq!(catalog.fetch_latest_transaction_price(100), Some((amt(120.0), 5)));
    catalog.transactions.push(paid(100, 7, 13, "2024-03-01", 140.0));
    assert_eq!(catalog.fetch_latest_transaction_price(100), Some((amt(120.0), 5)));
    assert_eq!(catalog.fetch_latest_transaction_price(300), None);
}

#[test]
fn purchases_without_a_price_above_zero_do_not_count() {
    let mut catalog = empty();
    catalog.transactions = vec![
        paid(100, 1, 10, "2024-01-05", 90.0),
        paid(100, 2, 11, "2024-03-01", 0.0),
        paid(100, 3, 12, "2024-04-01", -5.0),
        paid(100, 4, 13, "2024-05-01", f64::NAN),
    ];
    assert_eq!(catalog.fetch_latest_transaction_price(100), Some((amt(90.0), 1)));
    catalog.transactions.remove(0);
    assert_eq!(catalog.fetch_latest_transaction_price(100), None);
    assert_eq!(resolve_price(&catalog, 100), None);
}

#[test]
fn dates_are_compared_as_text() {
    let mut catalog = empty();
    catalog.transactions = vec![
        paid(100, 1, 1, "9/1/2023", 1.0),
        paid(100, 2, 2, "10/1/2024", 2.0),
        paid(100, 3, 3, "", 3.0),
    ];
    assert_eq!(catalog.fetch_latest_transaction_price(100), Some((amt(1.0), 1)));
}

#[test]
fn price_falls_back_on_the_latest_purchase() {
    let mut catalog = empty();
    catalog.transactions = vec![
        paid(100, 4, 1, "2024-01-01", 95.0),
        paid(100, 6, 2, "2024-06-01", 110.0),
        paid(100, 5, 3, "2024-02-01", 99.0),
    ];
    assert_eq!(resolve_price(&catalog, 100), Some((amt(110.0), 6)));
    catalog.prices = vec![price(100, 2, 120.0)];
    assert_eq!(resolve_price(&catalog, 100), Some((amt(120.0), 2)));
}

#[test]
fn a_current_price_that_is_not_above_zero_is_no_price() {
    let mut catalog = empty();
    catalog.transactions = vec![paid(100, 6, 2, "2024-06-01", 110.0)];
    for p in [0.0, -0.0, -3.0, f64::NAN] {
        catalog.prices = vec![price(100, 2, p), price(100, 3, 5.0)];
        assert_eq!(catalog.fetch_current_price(100), Some((amt(p), 2)));
        assert_eq!(resolve_price(&catalog, 100), None, "for {:?}", p);
    }
}

#[test]
fn default_purchase_unit_comes_first() {
    let mut catalog = empty();
    catalog.purchase_units = vec![
        unit(100, 1, false),
        unit(200, 2, true),
        unit(100, 3, true),
        unit(100, 4, true),
    ];
    assert_eq!(catalog.fetch_default_purchase_unit(100), Some(3));
    assert_eq!(catalog.fetch_any_purchase_unit(100), Some(1));
    assert_eq!(resolve_purchase_unit(&catalog, 100), Some(3));
    assert_eq!(resolve_purchase_unit(&catalog, 200), Some(2));
}

#[test]
fn any_purchase_unit_where_none_is_default() {
    let mut catalog = empty();
    catalog.purchase_units = vec![unit(200, 2, true), unit(100, 5, false), unit(100, 6, false)];
    assert_eq!(catalog.fetch_default_purchase_unit(100), None);
    assert_eq!(catalog.fetch_any_purchase_unit(100), Some(5));
    assert_eq!(resolve_purchase_unit(&catalog, 100), Some(5));
}

#[test]
fn no_purchase_unit_at_all() {
    let mut catalog = empty();
    catalog.purchase_units = vec![unit(200, 2, true)];
    assert_eq!(catalog.fetch_default_purchase_unit(100), None);
    assert_eq!(catalog.fetch_any_purchase_unit(100), None);
    assert_eq!(resolve_purchase_unit(&catalog, 100), None);
    assert_eq!(resolve_purchase_unit(&empty(), 100), None);
}

#[test]
fn text_order_is_byte_order() {
    assert_eq!(order_text("", ""), TextOrder::Same);
    assert_eq!(order_text("", "a"), TextOrder::Before);
    assert_eq!(order_text("a", ""), TextOrder::After);
    assert_eq!(order_text("2024-01-05", "2024-01-05"), TextOrder::Same);
    assert_eq!(order_text("2024-01-05", "2024-01-15"), TextOrder::Before);
    assert_eq!(order_text("2024-02-01", "2024-01-31"), TextOrder::After);
    assert_eq!(order_text("2024", "2024-01"), TextOrder::Before);
    assert_eq!(order_text("Z", "a"), TextOrder::Before);
    assert_eq!(order_text("\u{e9}", "z"), TextOrder::After);
    assert_eq!(order_text("\u{ffff}", "\u{10000}"), TextOrder::Before);
    assert_eq!(order_bytes(&[1, 2, 3], &[1, 2, 4]), TextOrder::Before);
    assert_eq!(order_bytes(&[1, 2, 3], &[1, 2]), TextOrder::After);
    assert_eq!(order_bytes(&[0xFF], &[0x00, 0xFF]), TextOrder::After);
}

#[test]
fn text_order_agrees_with_the_order_of_std() {
    let texts = ["", "a", "ab", "b", "2024-01-05", "2024-1-5", "10/1/2024", "9/1/2023", "\u{e9}t\u{e9}"];
    for a in texts {
        for b in texts {
            let expected = match a.as_bytes().cmp(b.as_bytes()) {
                std::cmp::Ordering::Less => TextOrder::Before,
                std::cmp::Ordering::Equal => TextOrder::Same,
                std::cmp::Ordering::Greater => TextOrder::After,
            };
            assert_eq!(order_text(a, b), expected, "{:?} and {:?}", a, b);
        }
    }
}
