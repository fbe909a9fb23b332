//! Comparing live books with a node snapshot.

use order_book_server::coin::Coin;
use order_book_server::multi_book::Snapshots;
use order_book_server::order::{Address, InnerL4Order, Px, Side, Sz};
use order_book_server::order_book::{find_order, OrderBook, Snapshot};
use order_book_server::validation::{validate_snapshot_consistency, SnapshotMismatch};

fn order(oid: u64, side: Side) -> InnerL4Order {
    InnerL4Order {
        user: Address::new([0; 20]),
        coin: Coin::new("ETH"),
        side,
        limit_px: Px::new(100),
        sz: Sz::new(1),
        oid,
        timestamp: 100,
        trigger_condition: "N/A".into(),
        is_trigger: false,
        trigger_px: "0.0".into(),
        is_position_tpsl: false,
        reduce_only: false,
        order_type: "Limit".into(),
        tif: Some("Gtc".into()),
        cloid: None,
    }
}

fn book(orders: Vec<InnerL4Order>) -> Snapshot<InnerL4Order> {
    let mut book = OrderBook::new();
    for order in orders {
        book.add_order(order);
    }
    book.to_snapshot()
}

fn snapshot(orders: Vec<InnerL4Order>) -> Snapshots {
    Snapshots::new(vec![(Coin::new("ETH"), book(orders))])
}

fn error_of(received: &Snapshots, expected: &Snapshots) -> String {
    validate_snapshot_consistency(received, expected, false).unwrap_err().message()
}

#[test]
fn matching_snapshots_pass() {
    let orders = vec![order(1, Side::Bid), order(2, Side::Bid)];
    assert!(validate_snapshot_consistency(&snapshot(orders.clone()), &snapshot(orders), false).is_ok());
}

#[test]
fn trailing_missing_and_extra_orders_fail_on_both_sides() {
    for side in [Side::Bid, Side::Ask] {
        for prefix_len in [0, 1] {
            let orders = vec![order(1, side), order(2, side)];
            let prefix = orders[..prefix_len].to_vec();
            let missing = error_of(&snapshot(prefix.clone()), &snapshot(orders.clone()));
            assert!(missing.contains(&format!("side: {side:?}, index: {prefix_len}")), "{missing}");
            assert!(missing.contains(&format!("expected_count: 2, received_count: {prefix_len}")), "{missing}");
            assert!(missing.contains("received: None"), "{missing}");
            let extra = error_of(&snapshot(orders), &snapshot(prefix));
            assert!(extra.contains(&format!("expected_count: {prefix_len}, received_count: 2")), "{extra}");
            assert!(extra.contains("expected: None"), "{extra}");
        }
    }
}

#[test]
fn missing_order_diagnostic_looks_up_the_other_order_by_id() {
    let expected = snapshot(vec![order(1, Side::Bid), order(2, Side::Bid)]);
    let received = snapshot(vec![order(2, Side::Bid)]);
    let error = error_of(&received, &expected);
    assert!(error.contains("expected_oid_in_received_book: None"), "{error}");
    assert!(error.contains("received_oid_in_expected_book: Some((Bid, 1,"), "{error}");
}

#[test]
fn misplaced_order_diagnostic_shows_its_actual_position() {
    let expected = snapshot(vec![order(1, Side::Bid), order(2, Side::Bid)]);
    let mut misplaced = order(1, Side::Bid);
    misplaced.limit_px = Px::new(99);
    let received = snapshot(vec![misplaced, order(2, Side::Bid)]);
    let error = error_of(&received, &expected);
    assert!(error.contains("expected_oid_in_received_book: Some((Bid, 1,"), "{error}");
    assert!(error.contains("received_oid_in_expected_book: Some((Bid, 1,"), "{error}");
}

#[test]
fn metadata_mismatch_still_fails() {
    let expected = snapshot(vec![order(1, Side::Bid)]);
    let mut changed = order(1, Side::Bid);
    changed.timestamp += 1;
    let error = error_of(&snapshot(vec![changed]), &expected);
    assert!(error.contains("Orders do not match"), "{error}");
    assert!(error.contains("expected_oid_in_received_book: Some((Bid, 0,"), "{error}");
}

#[test]
fn the_whole_diagnostic_is_spelled_out() {
    let mut extra = order(7, Side::Ask);
    extra.user = Address::new([0xAB; 20]);
    extra.cloid = Some("a\"b".into());
    let error = error_of(&snapshot(vec![extra]), &snapshot(vec![]));
    let shown = format!(
        "InnerL4Order {{ user: 0x{}, coin: Coin(\"ETH\"), side: Ask, limit_px: Px(100), sz: Sz(1), oid: 7, \
         timestamp: 100, trigger_condition: \"N/A\", is_trigger: false, trigger_px: \"0.0\", \
         is_position_tpsl: false, reduce_only: false, order_type: \"Limit\", tif: Some(\"Gtc\"), \
         cloid: Some(\"a\\\"b\") }}",
        "ab".repeat(20)
    );
    assert_eq!(
        error,
        format!(
            "Orders do not match, coin: ETH, side: Ask, index: 0, expected_count: 0, received_count: 1, \
             expected: None, received: Some({shown}), expected_oid_in_received_book: None, \
             received_oid_in_expected_book: None"
        )
    );
}

#[test]
fn every_field_of_an_order_is_compared() {
    let expected = snapshot(vec![order(1, Side::Bid)]);
    let changes: Vec<fn(&mut InnerL4Order)> = vec![
        |o| o.user = Address::new([1; 20]),
        |o| o.coin = Coin::new("BTC"),
        |o| o.sz = Sz::new(2),
        |o| o.limit_px = Px::new(101),
        |o| o.trigger_condition = "x".into(),
        |o| o.is_trigger = true,
        |o| o.trigger_px = "1.0".into(),
        |o| o.is_position_tpsl = true,
        |o| o.reduce_only = true,
        |o| o.order_type = "Market".into(),
        |o| o.tif = None,
        |o| o.cloid = Some("0x1".into()),
    ];
    for change in changes {
        let mut changed = order(1, Side::Bid);
        change(&mut changed);
        let received = snapshot(vec![changed]);
        assert!(validate_snapshot_consistency(&received, &expected, false).is_err());
    }
}

#[test]
fn missing_and_unexpected_books_are_told_apart() {
    let none = Snapshots::new(vec![]);
    let full = snapshot(vec![order(1, Side::Bid)]);
    assert_eq!(error_of(&full, &none), "Missing ETH book");
    assert_eq!(error_of(&none, &full), "Extra orderbooks detected");
    assert!(matches!(
        validate_snapshot_consistency(&none, &full, false),
        Err(SnapshotMismatch::Extra)
    ));
    // A live book without orders needs no counterpart, but an expected one without orders does.
    let empty = snapshot(vec![]);
    assert!(validate_snapshot_consistency(&empty, &none, false).is_ok());
    assert_eq!(error_of(&none, &empty), "Extra orderbooks detected");
}

#[test]
fn spot_books_are_passed_over_only_when_ignored() {
    let none = Snapshots::new(vec![]);
    for coin in ["@107", "PURR/USDC"] {
        let spot = Snapshots::new(vec![(Coin::new(coin), book(vec![order(1, Side::Bid)]))]);
        assert!(validate_snapshot_consistency(&spot, &none, true).is_ok());
        assert!(validate_snapshot_consistency(&none, &spot, true).is_ok());
        assert_eq!(error_of(&spot, &none), format!("Missing {coin} book"));
        assert_eq!(error_of(&none, &spot), "Extra orderbooks detected");
    }
    let perp = Snapshots::new(vec![(Coin::new("PURR"), book(vec![order(1, Side::Bid)]))]);
    assert!(validate_snapshot_consistency(&perp, &none, true).is_err());
}

#[test]
fn of_two_books_of_one_coin_the_later_counts() {
    let twice = Snapshots::new(vec![
        (Coin::new("ETH"), book(vec![order(1, Side::Bid)])),
        (Coin::new("ETH"), book(vec![order(2, Side::Bid)])),
    ]);
    assert_eq!(twice.len(), 1);
    assert!(validate_snapshot_consistency(&twice, &snapshot(vec![order(2, Side::Bid)]), false).is_ok());
}

#[test]
fn orders_are_found_by_number_bids_first() {
    let held = book(vec![order(1, Side::Bid), order(2, Side::Bid), order(3, Side::Ask), order(1, Side::Ask)]);
    let (side, index, found) = find_order(&held, 2).unwrap();
    assert_eq!((side, index, found.oid()), (Side::Bid, 1, 2));
    let (side, index, _) = find_order(&held, 1).unwrap();
    assert_eq!((side, index), (Side::Bid, 0));
    let (side, index, _) = find_order(&held, 3).unwrap();
    assert_eq!((side, index), (Side::Ask, 0));
    assert!(find_order(&held, 4).is_none());
}
