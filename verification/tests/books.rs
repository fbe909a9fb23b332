//! Books, aggregations and the listening task.

use order_book_server::coin::Coin;
use order_book_server::coin_map::CoinMap;
use order_book_server::levels::{book_l2_snapshots, compute_l2_snapshots};
use order_book_server::listen::{FileChange, ListenAction, ListenEvent, ListenLoop};
use order_book_server::multi_book::{OrderBooks, Snapshots};
use order_book_server::node_data::{Batch, BatchQueue, EventSource};
use order_book_server::order::{Address, InnerL4Order, Px, Side, Sz};
use order_book_server::order_book::{OrderBook, Snapshot};
use order_book_server::rounding::{bucket_of, L2SnapshotParams};
use order_book_server::text::{amount_text, decimal_text, option_decimal_text};

fn order(coin: &str, oid: u64, side: Side, px: u64, sz: u64) -> InnerL4Order {
    InnerL4Order {
        user: Address::new([0; 20]),
        coin: Coin::new(coin),
        side,
        limit_px: Px::new(px),
        sz: Sz::new(sz),
        oid,
        timestamp: 100,
        trigger_condition: "N/A".into(),
        is_trigger: false,
        trigger_px: "0.0".into(),
        is_position_tpsl: false,
        reduce_only: false,
        order_type: "Limit".into(),
        tif: None,
        cloid: None,
    }
}

fn oids(orders: &[InnerL4Order]) -> Vec<u64> {
    orders.iter().map(|o| o.oid()).collect()
}

#[test]
fn books_keep_price_then_time_order() {
    let mut book = OrderBook::new();
    for (oid, side, px) in [
        (1, Side::Bid, 10),
        (2, Side::Bid, 12),
        (3, Side::Bid, 10),
        (4, Side::Ask, 15),
        (5, Side::Ask, 14),
        (6, Side::Ask, 15),
    ] {
        book.add_order(order("ETH", oid, side, px, 1));
    }
    let snapshot = book.to_snapshot();
    assert_eq!(oids(&snapshot.bids), [2, 1, 3]);
    assert_eq!(oids(&snapshot.asks), [5, 4, 6]);

    assert!(book.modify_sz(1, Sz::new(9)));
    assert!(!book.modify_sz(99, Sz::new(9)));
    assert!(book.cancel_order(2));
    assert!(!book.cancel_order(2));
    let snapshot = book.to_snapshot();
    assert_eq!(oids(&snapshot.bids), [1, 3]);
    assert_eq!(snapshot.bids[0].sz, Sz::new(9));

    let again = OrderBook::from_snapshot(&snapshot, true).to_snapshot();
    assert_eq!(oids(&again.bids), [1, 3]);
    assert_eq!(oids(&again.asks), [5, 4, 6]);
}

#[test]
fn trigger_orders_of_a_snapshot_can_be_left_out() {
    let mut trigger = order("ETH", 2, Side::Bid, 11, 1);
    trigger.is_trigger = true;
    let snapshot = Snapshot::new(vec![trigger, order("ETH", 1, Side::Bid, 10, 1)], vec![]);
    assert_eq!(oids(&OrderBook::from_snapshot(&snapshot, true).to_snapshot().bids), [1]);
    assert_eq!(oids(&OrderBook::from_snapshot(&snapshot, false).to_snapshot().bids), [2, 1]);
}

#[test]
fn books_of_all_coins() {
    let mut books = OrderBooks::new();
    books.add_order(order("ETH", 1, Side::Bid, 10, 1));
    books.add_order(order("BTC", 2, Side::Ask, 20, 1));
    assert!(!books.cancel_order(2, &Coin::new("ETH")));
    assert!(!books.cancel_order(2, &Coin::new("SOL")));
    assert!(books.modify_sz(2, &Coin::new("BTC"), Sz::new(5)));
    assert!(!books.modify_sz(2, &Coin::new("SOL"), Sz::new(5)));
    let snapshots = books.to_snapshots();
    assert_eq!(snapshots.get("BTC").unwrap().asks[0].sz, Sz::new(5));
    assert!(books.cancel_order(2, &Coin::new("BTC")));
    // A book that was emptied is still there.
    assert_eq!(books.to_snapshots().len(), 2);
    assert_eq!(OrderBooks::from_snapshots(&snapshots, true).to_snapshots().len(), 2);
}

#[test]
fn prices_are_rounded_away_from_the_other_side() {
    let five = L2SnapshotParams::new(Some(5), None);
    assert_eq!(bucket_of(123_456_789, Side::Bid, five), 123_450_000);
    assert_eq!(bucket_of(123_456_789, Side::Ask, five), 123_460_000);
    assert_eq!(bucket_of(123_450_000, Side::Ask, five), 123_450_000);
    let two = L2SnapshotParams::new(Some(2), None);
    assert_eq!(bucket_of(123_456_789, Side::Bid, two), 120_000_000);
    assert_eq!(bucket_of(999_999, Side::Ask, two), 1_000_000);
    let by_five = L2SnapshotParams::new(Some(5), Some(5));
    assert_eq!(bucket_of(123_489_999, Side::Bid, by_five), 123_450_000);
    assert_eq!(bucket_of(123_456_789, Side::Ask, by_five), 123_500_000);
    let by_two = L2SnapshotParams::new(Some(5), Some(2));
    assert_eq!(bucket_of(123_456_789, Side::Bid, by_two), 123_440_000);
    assert_eq!(bucket_of(77, Side::Bid, five), 77);
    assert_eq!(bucket_of(123_456_789, Side::Bid, L2SnapshotParams::new(None, None)), 123_456_789);
}

#[test]
fn multiples_of_five_do_not_come_from_multiples_of_two() {
    let by_two = L2SnapshotParams::new(Some(5), Some(2));
    let by_five = L2SnapshotParams::new(Some(5), Some(5));
    let direct = bucket_of(12_345, Side::Bid, by_five);
    let through = bucket_of(bucket_of(12_345, Side::Bid, by_two), Side::Bid, by_five);
    assert_eq!((direct, through), (12_345, 12_340));
}

#[test]
fn aggregations_sum_up_orders_by_price() {
    let mut books = OrderBooks::new();
    for (oid, side, px, sz) in [
        (1, Side::Bid, 12_345_600, 1),
        (2, Side::Bid, 12_345_600, 2),
        (3, Side::Bid, 12_345_100, 4),
        (4, Side::Bid, 12_344_000, 8),
        (5, Side::Ask, 12_346_100, 16),
        (6, Side::Ask, 12_350_000, 32),
    ] {
        books.add_order(order("ETH", oid, side, px, sz));
    }
    books.add_order(order("BTC", 7, Side::Ask, 5, 3));
    let l2 = compute_l2_snapshots(&books);
    assert_eq!(l2.as_ref().len(), 2);
    let levels = |n_sig_figs, mantissa, ask: bool| {
        let s = l2.get("ETH", L2SnapshotParams::new(n_sig_figs, mantissa)).unwrap();
        let side = if ask { &s.asks } else { &s.bids };
        side.iter().map(|l| (l.px, l.sz, l.n)).collect::<Vec<_>>()
    };
    assert_eq!(levels(None, None, false), [(12_345_600, 3, 2), (12_345_100, 4, 1), (12_344_000, 8, 1)]);
    assert_eq!(levels(Some(5), None, false), [(12_345_000, 7, 3), (12_344_000, 8, 1)]);
    assert_eq!(levels(Some(5), Some(2), false), [(12_344_000, 15, 4)]);
    assert_eq!(levels(Some(5), Some(5), false), [(12_345_000, 7, 3), (12_340_000, 8, 1)]);
    assert_eq!(levels(Some(4), None, false), [(12_340_000, 15, 4)]);
    assert_eq!(levels(Some(5), None, true), [(12_347_000, 16, 1), (12_350_000, 32, 1)]);
    assert_eq!(levels(Some(2), None, true), [(13_000_000, 48, 2)]);
    let btc = l2.get("BTC", L2SnapshotParams::new(Some(3), None)).unwrap();
    assert_eq!((btc.asks[0].px, btc.asks[0].sz, btc.bids.len()), (5, 3, 0));
    assert!(l2.get("ETH", L2SnapshotParams::new(Some(6), None)).is_none());
    assert!(l2.get("SOL", L2SnapshotParams::new(None, None)).is_none());
    assert_eq!(book_l2_snapshots(&OrderBook::new()).len(), 7);
}

#[test]
fn queues_only_let_higher_blocks_in() {
    let mut queue: BatchQueue<u8> = BatchQueue::new();
    assert!(queue.front().is_none());
    assert!(queue.push(Batch::new(0, 5, vec![1])));
    assert!(!queue.push(Batch::new(0, 5, vec![2])));
    assert!(!queue.push(Batch::new(0, 4, vec![3])));
    assert!(queue.push(Batch::new(0, 9, vec![4])));
    assert_eq!(queue.front().unwrap().block_number(), 5);
    assert_eq!(queue.pop_front().unwrap().events, [1]);
    assert_eq!(queue.pop_front().unwrap().block_number(), 9);
    assert!(queue.pop_front().is_none());
    // What was let in is remembered after it left.
    assert!(!queue.push(Batch::new(0, 9, vec![5])));
}

#[test]
fn snapshots_of_no_books() {
    let none = Snapshots::new(vec![]);
    assert_eq!(none.len(), 0);
    assert!(none.get("ETH").is_none());
    assert_eq!(compute_l2_snapshots(&OrderBooks::from_snapshots(&none, true)).as_ref().len(), 0);
}

fn change() -> FileChange {
    FileChange {
        created: false,
        modified: true,
        in_order_statuses: false,
        in_fills: false,
        in_order_diffs: false,
        is_file: true,
    }
}

fn failure(event: ListenEvent) -> String {
    match ListenLoop::new().step(event) {
        ListenAction::Fail(e) => e,
        other => panic!("{other:?}"),
    }
}

#[test]
fn file_changes_go_to_their_streams() {
    let mut task = ListenLoop::new();
    for (c, expected) in [
        (FileChange { in_order_statuses: true, ..change() }, EventSource::OrderStatuses),
        (FileChange { in_fills: true, ..change() }, EventSource::Fills),
        (FileChange { in_order_diffs: true, ..change() }, EventSource::OrderDiffs),
    ] {
        assert!(matches!(task.step(ListenEvent::Changed(c)),
            ListenAction::Update { source, created: false } if source == expected));
        let c = FileChange { created: true, modified: false, ..c };
        assert!(matches!(task.step(ListenEvent::Changed(c)),
            ListenAction::Update { source, created: true } if source == expected));
        let c = FileChange { created: false, ..c };
        assert!(matches!(task.step(ListenEvent::Changed(c)), ListenAction::Wait));
        let c = FileChange { modified: true, is_file: false, ..c };
        assert!(matches!(task.step(ListenEvent::Changed(c)), ListenAction::Wait));
    }
    assert!(matches!(task.step(ListenEvent::Changed(change())), ListenAction::Wait));
}

#[test]
fn the_listening_task_ends_with_these_errors() {
    assert_eq!(failure(ListenEvent::WatcherFailed("x".into())), "Watcher error: x");
    assert_eq!(failure(ListenEvent::WatcherClosed), "Channel closed.");
    for (source, start) in [
        (EventSource::OrderStatuses, "Order status processing error"),
        (EventSource::Fills, "Fill update processing error"),
        (EventSource::OrderDiffs, "Book diff processing error"),
    ] {
        assert_eq!(failure(ListenEvent::UpdateFailed(source, "x".into())), format!("{start}: x"));
    }
    assert_eq!(failure(ListenEvent::Fetched(Err("x".into()))), "Abci state reading error: x");
    assert_eq!(failure(ListenEvent::FetchDropped), "Snapshot fetch task sender dropped");
    assert_eq!(failure(ListenEvent::Idle), "Stream has fallen behind (hl-node failed?)");
    // A silent node is noticed while a snapshot is being fetched, too.
    let mut task = ListenLoop::new();
    task.step(ListenEvent::Tick);
    assert!(matches!(task.step(ListenEvent::Idle), ListenAction::Fail(_)));
}

#[test]
fn one_fetch_at_a_time() {
    let mut task = ListenLoop::new();
    assert!(matches!(task.step(ListenEvent::Tick), ListenAction::Fetch));
    assert!(matches!(task.step(ListenEvent::Tick), ListenAction::Wait));
    assert!(matches!(task.step(ListenEvent::Changed(change())), ListenAction::Wait));
    assert!(matches!(task.step(ListenEvent::Tick), ListenAction::Wait));
    assert!(matches!(task.step(ListenEvent::Fetched(Ok(()))), ListenAction::Wait));
    assert!(matches!(task.step(ListenEvent::Tick), ListenAction::Fetch));
}

#[test]
fn numbers_in_words() {
    assert_eq!(decimal_text(0), "0");
    assert_eq!(decimal_text(u64::MAX), "18446744073709551615");
    assert_eq!(option_decimal_text(Some(70)), "Some(70)");
    assert_eq!(option_decimal_text(None), "None");
}

#[test]
fn amounts_are_decimal_fractions() {
    assert_eq!(amount_text(0), "0.0");
    assert_eq!(amount_text(1), "0.00000001");
    assert_eq!(amount_text(11_390_000), "0.1139");
    assert_eq!(amount_text(100_000_000), "1.0");
    assert_eq!(amount_text(215_360_000_000), "2153.6");
    assert_eq!(amount_text(1_010_000_010), "10.1000001");
    assert_eq!(amount_text(u128::MAX), "3402823669209384634633746074317.68211455");
}

#[test]
fn maps_keep_the_order_of_their_keys() {
    let mut map: CoinMap<u8> = CoinMap::new();
    for (i, coin) in ["ETH", "BTC", "SOL", "HYPE"].iter().enumerate() {
        map.insert(coin.to_string(), i as u8);
    }
    assert_eq!(map.remove("BTC"), Some(1));
    assert_eq!(map.remove("BTC"), None);
    map.insert("ETH".to_string(), 9);
    let walk: Vec<(&str, u8)> = map.entries().iter().map(|(coin, v)| (coin.as_str(), *v)).collect();
    assert_eq!(walk, [("ETH", 9), ("SOL", 2), ("HYPE", 3)]);
}
