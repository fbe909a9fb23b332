//! The listener: following files, pairing batches, replacing books.

use order_book_server::coin::Coin;
use order_book_server::listener::{
    FileStep, InternalMessage, OrderBookListener, ProcessError, Record, ReplaceOutcome,
};
use order_book_server::multi_book::Snapshots;
use order_book_server::node_data::{
    Batch, EventBatch, EventSource, Fill, NodeDataFill, NodeDataOrderDiff, NodeDataOrderStatus, OrderDiff,
};
use order_book_server::order::{Address, InnerL4Order, Px, Side, Sz};
use order_book_server::order_book::Snapshot;
use order_book_server::snapshot_check::{
    begin_snapshot_fetch, compare_with_snapshot, conclude_comparison, fetch_and_validate_snapshot,
    receive_snapshot, validate_or_replace_snapshot, Comparison, FetchOutcome, SnapshotStep,
};
use order_book_server::state::{ApplyError, OrderBookState, TimedSnapshots};
use order_book_server::tail::split_lines;
use std::collections::VecDeque;

fn empty_batch(height: u64) -> String {
    format!(
        "{{\"local_time\":\"2026-09-09T01:26:47\",\"block_time\":\"2026-09-09T01:26:46\",\"block_number\":{height},\"events\":[]}}\n"
    )
}

/// Parses a line of a stream whose batches are empty.
fn record(line: &str, source: EventSource) -> Record {
    let parsed = match serde_json::from_str::<serde_json::Value>(line) {
        Err(err) => Err(err.to_string()),
        Ok(value) => {
            let height = value["block_number"].as_u64().unwrap();
            Ok(match source {
                EventSource::Fills => EventBatch::Fills(Batch::new(0, height, vec![])),
                EventSource::OrderStatuses => EventBatch::Orders(Batch::new(0, height, vec![])),
                EventSource::OrderDiffs => EventBatch::BookDiffs(Batch::new(0, height, vec![])),
            })
        }
    };
    Record { line: line.to_string(), parsed }
}

fn process(listener: &mut OrderBookListener, source: EventSource, lines: Vec<Vec<u8>>) -> Result<(), String> {
    let records = lines.into_iter().map(|l| record(&String::from_utf8(l).unwrap(), source)).collect();
    listener.process_data(records, source).map_err(|e| e.message())
}

/// Reads on in a file with these contents.
fn read_on(listener: &mut OrderBookListener, source: EventSource, file: &str) -> Result<(), String> {
    let at = listener.file_position(source).unwrap() as usize;
    let lines = listener.on_file_modification(source, &file.as_bytes()[at..]);
    process(listener, source, lines)
}

/// Turns from an old file to a new one.
fn rotate(
    listener: &mut OrderBookListener,
    source: EventSource,
    old: &str,
    new: &str,
    name: &str,
) -> Result<(), String> {
    if listener.is_reading(source) {
        read_on(listener, source, old)?;
    }
    listener.on_file_creation(source, old.len() as u64, name).map_err(|e| e.message())?;
    read_on(listener, source, new)
}

#[test]
fn append_and_rotation_preserve_order_batches() {
    let mut listener = OrderBookListener::new(false, true);
    let first = empty_batch(100);
    let second = empty_batch(101);
    let third = empty_batch(102);

    for source in [EventSource::OrderStatuses, EventSource::OrderDiffs] {
        let mut file = format!("{first}{}", &second[..30]);
        rotate(&mut listener, source, "", &file, "1").unwrap();
        assert_eq!(listener.file_position(source).unwrap(), first.len() as u64);

        // Repeated notifications before the writer finishes must not consume the partial row.
        read_on(&mut listener, source, &file).unwrap();
        file.push_str(&second[30..]);
        read_on(&mut listener, source, &file).unwrap();

        rotate(&mut listener, source, &file, &third, "2").unwrap();
    }

    for expected_height in 100..=102 {
        let (statuses, diffs) = listener.pop_cache().unwrap();
        assert_eq!(statuses.block_number(), expected_height);
        assert_eq!(diffs.block_number(), expected_height);
    }
    assert!(listener.pop_cache().is_none());
}

#[test]
fn rotation_rejects_unfinished_record() {
    let mut listener = OrderBookListener::new(false, true);
    let old = "{\"block_number\":";
    rotate(&mut listener, EventSource::OrderStatuses, "", old, "old").unwrap();

    let err = rotate(&mut listener, EventSource::OrderStatuses, old, &empty_batch(102), "new").unwrap_err();
    assert!(err.contains("Incomplete OrderStatuses line"));
    assert_eq!(err, "Incomplete OrderStatuses line when rotating to new");
    assert_eq!(listener.file_position(EventSource::OrderStatuses), Some(0));
}

#[test]
fn malformed_complete_records_return_errors_without_panicking() {
    let mut listener = OrderBookListener::new(false, true);
    for data in ["{\n".to_string(), format!("{}中\n", "x".repeat(99))] {
        let lines = split_lines(data.as_bytes());
        let err = process(&mut listener, EventSource::OrderStatuses, lines).unwrap_err();
        assert!(err.contains("deserialization error"));
    }
}

fn order(oid: u64) -> InnerL4Order {
    InnerL4Order {
        user: Address::new([0; 20]),
        coin: Coin::new("ETH"),
        side: Side::Bid,
        limit_px: Px::new(215_360_000_000),
        sz: Sz::new(11_390_000),
        oid,
        timestamp: 1788919049596,
        trigger_condition: "N/A".into(),
        is_trigger: false,
        trigger_px: "0.0".into(),
        is_position_tpsl: false,
        reduce_only: false,
        order_type: "Limit".into(),
        tif: Some("Gtc".into()),
        cloid: None,
    }
}

fn book_snapshot(oids: &[u64]) -> Snapshots {
    let orders = oids.iter().map(|&oid| order(oid)).collect();
    Snapshots::new(vec![(Coin::new("ETH"), Snapshot::new(orders, vec![]))])
}

const BLOCK_TIME: u64 = 1788919049000;

fn new_order_batches(height: u64, oid: u64) -> (Batch<NodeDataOrderStatus>, Batch<NodeDataOrderDiff>) {
    let status = NodeDataOrderStatus { time: BLOCK_TIME, status: "open".into(), order: order(oid) };
    let diff = NodeDataOrderDiff {
        user: Address::new([0; 20]),
        oid,
        coin: Coin::new("ETH"),
        px: Px::new(215_360_000_000),
        raw_book_diff: OrderDiff::New { sz: Sz::new(11_390_000) },
    };
    (Batch::new(BLOCK_TIME, height, vec![status]), Batch::new(BLOCK_TIME, height, vec![diff]))
}

fn receive_new_order(listener: &mut OrderBookListener, height: u64, oid: u64) {
    let (statuses, diffs) = new_order_batches(height, oid);
    listener.receive_batch(EventBatch::Orders(statuses)).unwrap();
    listener.receive_batch(EventBatch::BookDiffs(diffs)).unwrap();
}

fn assert_orders(snapshot: &TimedSnapshots, height: u64, oids: &[u64]) {
    assert_eq!(snapshot.height, height);
    let book = snapshot.snapshot.get("ETH").unwrap();
    assert_eq!(book.bids.iter().map(|order| order.oid).collect::<Vec<_>>(), oids);
    assert!(book.asks.is_empty());
}

/// A listener with live books; nothing has been told yet.
fn live(streaming: bool, oids: &[u64], height: u64) -> OrderBookListener {
    let mut listener = OrderBookListener::new(streaming, true);
    let outcome = listener.replace_from_snapshot(book_snapshot(oids), height, 1, VecDeque::new());
    assert_eq!(outcome, ReplaceOutcome::Ready);
    listener.take_messages();
    listener
}

#[test]
fn mismatch_replaces_old_orders_and_replays_updates_across_validation() {
    let mut listener = live(true, &[1, 2], 100);
    listener.begin_caching();
    let state_at_snapshot = listener.clone_state().unwrap();
    receive_new_order(&mut listener, 101, 3);
    let cache = listener.drain_cache();
    // This update arrives after the validation has drained its initial cache.
    receive_new_order(&mut listener, 102, 4);
    // Preserve an unpaired row until its diff arrives after the reset.
    let (statuses, diffs) = new_order_batches(103, 5);
    listener.receive_batch(EventBatch::Orders(statuses)).unwrap();

    let outcome = validate_or_replace_snapshot(&mut listener, state_at_snapshot, book_snapshot(&[2]), cache, true);
    assert!(matches!(outcome, Some((_, ReplaceOutcome::Ready))));

    assert_orders(&listener.compute_snapshot().unwrap(), 102, &[2, 3, 4]);
    listener.receive_batch(EventBatch::BookDiffs(diffs)).unwrap();
    assert_orders(&listener.compute_snapshot().unwrap(), 103, &[2, 3, 4, 5]);
    let mut messages = listener.take_messages().into_iter();
    for expected_height in [101, 102] {
        let msg = messages.next().unwrap();
        assert!(matches!(msg, InternalMessage::L4BookUpdates { diff_batch, .. }
            if diff_batch.block_number() == expected_height));
    }
    let Some(InternalMessage::BookReset { snapshot, l2_snapshots }) = messages.next() else {
        panic!("Expected a full snapshot between the old and new updates");
    };
    assert_orders(&snapshot, 102, &[2, 3, 4]);
    assert!(l2_snapshots.as_ref().contains("ETH"));
    let msg = messages.next().unwrap();
    assert!(matches!(msg, InternalMessage::L4BookUpdates { diff_batch, .. }
        if diff_batch.block_number() == 103));
    assert!(messages.next().is_none());
}

#[test]
fn matching_snapshot_leaves_newer_live_orders_intact() {
    let mut listener = live(true, &[1], 100);
    listener.begin_caching();
    let state_at_snapshot = listener.clone_state().unwrap();
    receive_new_order(&mut listener, 101, 2);
    let cache = listener.drain_cache();

    let outcome = validate_or_replace_snapshot(&mut listener, state_at_snapshot, book_snapshot(&[1]), cache, true);
    assert!(outcome.is_none());

    assert_orders(&listener.compute_snapshot().unwrap(), 101, &[1, 2]);
    let mut messages = listener.take_messages().into_iter();
    assert!(matches!(messages.next().unwrap(), InternalMessage::L4BookUpdates { .. }));
    assert!(messages.next().is_none());
}

#[test]
fn failed_replay_discards_old_book_and_recovers_on_a_later_snapshot() {
    let mut listener = live(false, &[1], 102);
    let cache = VecDeque::from([new_order_batches(102, 3)]); // Block 101 is missing.
    let outcome = listener.replace_from_snapshot(book_snapshot(&[2]), 100, 1, cache);
    assert_eq!(outcome, ReplaceOutcome::ReplayFailed(ApplyError::BlockGap { expected: 101, got: 102 }));
    assert!(!listener.is_ready());
    assert!(listener.compute_snapshot().is_none());

    receive_new_order(&mut listener, 103, 4);
    listener.init_from_snapshot(book_snapshot(&[2, 3]), 102);
    assert_orders(&listener.compute_snapshot().unwrap(), 103, &[2, 3, 4]);
}

#[test]
fn replacement_cannot_silently_roll_back_the_live_height() {
    let mut listener = live(false, &[1], 102);
    let outcome = listener.replace_from_snapshot(book_snapshot(&[2]), 100, 1, VecDeque::new());
    assert_eq!(outcome, ReplaceOutcome::BehindLive { previous: 102 });
    assert!(!listener.is_ready());
}

#[test]
fn earliest_common_block_is_popped_and_orphans_are_dropped() {
    let mut listener = OrderBookListener::new(false, true);
    for height in [100, 102, 103] {
        listener.receive_batch(EventBatch::Orders(Batch::new(0, height, vec![]))).unwrap();
    }
    for height in [101, 102, 104] {
        listener.receive_batch(EventBatch::BookDiffs(Batch::new(0, height, vec![]))).unwrap();
    }
    // A block number that is not above the last one is not let in.
    listener.receive_batch(EventBatch::BookDiffs(Batch::new(0, 103, vec![]))).unwrap();
    let (statuses, diffs) = listener.pop_cache().unwrap();
    assert_eq!((statuses.block_number(), diffs.block_number()), (102, 102));
    assert!(listener.pop_cache().is_none());
    listener.receive_batch(EventBatch::Orders(Batch::new(0, 104, vec![]))).unwrap();
    assert_eq!(listener.pop_cache().unwrap().0.block_number(), 104);
}

#[test]
fn a_block_gap_clears_the_books_and_a_bad_line_keeps_them() {
    let mut listener = live(true, &[1], 100);
    let err = listener
        .process_data(
            vec![Record { line: "x".repeat(150), parsed: Err("expected value".into()) }],
            EventSource::OrderDiffs,
        )
        .unwrap_err();
    assert_eq!(
        err.message(),
        format!(
            "OrderDiffs deserialization error expected value, height: Some(100), line: \"{}\"",
            "x".repeat(100)
        )
    );
    assert!(listener.is_ready());

    let records = |source| vec![record(empty_batch(103).trim_end(), source)];
    listener.process_data(records(EventSource::OrderStatuses), EventSource::OrderStatuses).unwrap();
    let err = listener.process_data(records(EventSource::OrderDiffs), EventSource::OrderDiffs).unwrap_err();
    assert!(matches!(err, ProcessError::Apply(ApplyError::BlockGap { expected: 101, got: 103 })));
    assert_eq!(err.message(), "Expecting block 101, got block 103");
    assert!(!listener.is_ready());
    assert!(listener.universe().is_empty());
}

#[test]
fn bad_lines_are_quoted_and_the_missing_height_is_shown() {
    let mut listener = OrderBookListener::new(false, true);
    let records = vec![Record { line: "a\"\tb".into(), parsed: Err("bad".into()) }];
    let err = listener.process_data(records, EventSource::Fills).unwrap_err();
    assert_eq!(err.message(), "Fills deserialization error bad, height: None, line: \"a\\\"\\tb\"");
}

fn fill_batch(height: u64) -> Batch<NodeDataFill> {
    let fill = Fill {
        coin: "ETH".into(),
        px: "2000.0".into(),
        sz: "1.0".into(),
        side: Side::Bid,
        time: 1,
        start_position: "0.0".into(),
        dir: "Open Long".into(),
        closed_pnl: "0.0".into(),
        hash: "0x123".into(),
        oid: 1,
        crossed: true,
        fee: "0.0".into(),
        tid: 1,
        fee_token: "USDC".into(),
    };
    Batch::new(0, height, vec![NodeDataFill(Address::new([0; 20]), fill)])
}

#[test]
fn fills_of_a_block_are_told_once_even_without_books() {
    let mut listener = OrderBookListener::new(true, true);
    for height in [7, 7, 3, 8, 8, 7] {
        listener.receive_batch(EventBatch::Fills(fill_batch(height))).unwrap();
    }
    let heights: Vec<u64> = listener
        .take_messages()
        .iter()
        .map(|m| match m {
            InternalMessage::Fills { batch } => batch.block_number(),
            _ => unreachable!(),
        })
        .collect();
    assert_eq!(heights, [7, 8]);
    assert!(listener.take_messages().is_empty());
}

#[test]
fn aggregations_are_told_once_for_each_height() {
    let mut listener = live(true, &[1], 100);
    // The reset has told of the aggregations of this height.
    listener.process_data(vec![], EventSource::Fills).unwrap();
    assert!(listener.take_messages().is_empty());

    receive_new_order(&mut listener, 101, 2);
    listener.process_data(vec![], EventSource::Fills).unwrap();
    listener.process_data(vec![], EventSource::Fills).unwrap();
    let messages = listener.take_messages();
    assert_eq!(messages.len(), 2);
    assert!(matches!(&messages[0], InternalMessage::L4BookUpdates { .. }));
    assert!(matches!(&messages[1], InternalMessage::Snapshot { time, height: 101, .. } if *time == BLOCK_TIME));
}

#[test]
fn without_connections_nothing_is_kept_to_be_sent() {
    let mut listener = live(false, &[1], 100);
    receive_new_order(&mut listener, 101, 2);
    listener.process_data(vec![], EventSource::Fills).unwrap();
    assert!(listener.take_messages().is_empty());
    assert!(listener.l2_snapshots(true).is_none());
}

#[test]
fn replaying_the_collected_pairs_gives_the_live_books() {
    let mut listener = live(false, &[1], 100);
    let mut state = begin_snapshot_fetch(&mut listener).unwrap();
    receive_new_order(&mut listener, 101, 2);
    receive_new_order(&mut listener, 102, 3);
    for (statuses, diffs) in listener.take_cache() {
        state.apply_updates(&statuses, &diffs).unwrap();
    }
    assert_orders(&state.compute_snapshot(), 102, &[1, 2, 3]);
    assert_orders(&listener.compute_snapshot().unwrap(), 102, &[1, 2, 3]);
    receive_new_order(&mut listener, 103, 4);
    assert!(listener.take_cache().is_empty());
}

#[test]
fn fetched_snapshots_are_compared_at_their_height() {
    // The first snapshot becomes the books.
    let mut listener = OrderBookListener::new(true, true);
    let state = begin_snapshot_fetch(&mut listener);
    assert!(state.is_none());
    let outcome = fetch_and_validate_snapshot(&mut listener, state, book_snapshot(&[1]), 100, true).unwrap();
    assert!(matches!(outcome, FetchOutcome::Initialized(ReplaceOutcome::Ready)));

    // A later one that agrees changes nothing.
    let state = begin_snapshot_fetch(&mut listener);
    receive_new_order(&mut listener, 101, 2);
    receive_new_order(&mut listener, 102, 3);
    let outcome = fetch_and_validate_snapshot(&mut listener, state, book_snapshot(&[1, 2]), 101, true).unwrap();
    assert!(matches!(outcome, FetchOutcome::Matched));
    assert_orders(&listener.compute_snapshot().unwrap(), 102, &[1, 2, 3]);

    // One that the collected blocks do not reach is left alone, and so is one that lags.
    let state = begin_snapshot_fetch(&mut listener);
    let outcome = fetch_and_validate_snapshot(&mut listener, state, book_snapshot(&[9]), 200, true).unwrap();
    assert!(matches!(outcome, FetchOutcome::NotEnough));
    let state = begin_snapshot_fetch(&mut listener);
    let outcome = fetch_and_validate_snapshot(&mut listener, state, book_snapshot(&[9]), 50, true).unwrap();
    assert!(matches!(outcome, FetchOutcome::Lags { stored: 102 }));
    assert_orders(&listener.compute_snapshot().unwrap(), 102, &[1, 2, 3]);

    // One that differs replaces the books, with the later blocks on top.
    let state = begin_snapshot_fetch(&mut listener);
    receive_new_order(&mut listener, 103, 4);
    receive_new_order(&mut listener, 104, 5);
    let outcome = fetch_and_validate_snapshot(&mut listener, state, book_snapshot(&[8]), 103, true).unwrap();
    assert!(matches!(outcome, FetchOutcome::Replaced(_, ReplaceOutcome::Ready)));
    assert_orders(&listener.compute_snapshot().unwrap(), 104, &[8, 5]);
}

#[test]
fn states_refuse_what_does_not_fit() {
    let mut state = OrderBookState::from_snapshot(book_snapshot(&[1]), 100, 1, true, true);
    // A block at or below the height is passed over.
    let (statuses, diffs) = new_order_batches(100, 2);
    state.apply_updates(&statuses, &diffs).unwrap();
    assert_orders(&state.compute_snapshot(), 100, &[1]);

    let no_statuses = Batch::new(0, 101, vec![]);
    let diff = |oid, coin: &str, raw_book_diff| NodeDataOrderDiff {
        user: Address::new([0; 20]),
        oid,
        coin: Coin::new(coin),
        px: Px::new(1),
        raw_book_diff,
    };
    let err = state
        .apply_updates(&no_statuses, &Batch::new(0, 101, vec![diff(5, "ETH", OrderDiff::New { sz: Sz::new(1) })]))
        .unwrap_err();
    assert_eq!(err, ApplyError::MissingStatus { oid: 5 });
    assert_eq!(err.message(), "Unable to find order opening status 5");
    let err =
        state.apply_updates(&no_statuses, &Batch::new(0, 101, vec![diff(6, "ETH", OrderDiff::Remove)])).unwrap_err();
    assert_eq!(err, ApplyError::MissingOrder { oid: 6 });
    assert_eq!(err.message(), "Unable to find order on the book 6");

    // Spot changes are passed over, sizes change in place, orders leave.
    let update = OrderDiff::Update { orig_sz: Sz::new(11_390_000), new_sz: Sz::new(7) };
    state
        .apply_updates(
            &no_statuses,
            &Batch::new(9, 101, vec![diff(6, "@1", OrderDiff::Remove), diff(1, "ETH", update)]),
        )
        .unwrap();
    let snapshot = state.compute_snapshot();
    assert_eq!((snapshot.height, snapshot.snapshot.get("ETH").unwrap().bids[0].sz), (101, Sz::new(7)));
    state
        .apply_updates(&Batch::new(0, 102, vec![]), &Batch::new(0, 102, vec![diff(1, "ETH", OrderDiff::Remove)]))
        .unwrap();
    assert_orders(&state.compute_snapshot(), 102, &[]);
    assert_eq!(state.compute_universe(), ["ETH"]);
}

#[test]
fn trigger_orders_enter_when_triggered() {
    let mut state = OrderBookState::from_snapshot(book_snapshot(&[]), 100, 1, true, true);
    let (mut statuses, diffs) = new_order_batches(101, 2);
    statuses.events[0].order.is_trigger = true;
    assert_eq!(
        state.apply_updates(&statuses, &diffs).unwrap_err(),
        ApplyError::MissingStatus { oid: 2 }
    );
    statuses.events[0].status = "triggered".into();
    state.apply_updates(&statuses, &diffs).unwrap();
    assert_orders(&state.compute_snapshot(), 101, &[2]);
}

#[test]
fn files_are_tracked_from_their_last_finished_line() {
    let mut listener = OrderBookListener::new(false, true);
    let source = EventSource::Fills;
    assert_eq!(listener.process_update(true, source), FileStep::Rotate);
    assert_eq!(listener.process_update(false, source), FileStep::TrackFromEnd);
    // A tail without a line end says nothing unless it is the whole file.
    assert!(!listener.track_existing(source, 10, b"abc"));
    assert!(!listener.is_reading(source));
    assert!(listener.track_existing(source, 10, b"abc\nde"));
    assert_eq!(listener.file_position(source), Some(14));
    assert!(listener.track_existing(source, 0, b"abc"));
    assert_eq!(listener.file_position(source), Some(0));
    assert_eq!(listener.process_update(false, source), FileStep::ReadOn);
    assert!(!listener.is_reading(EventSource::OrderDiffs));
}

#[test]
fn lines_end_at_newlines_and_empty_ones_are_left_out() {
    let lines = split_lines(b"one\r\n\ntwo\n");
    assert_eq!(lines, [b"one".to_vec(), b"two".to_vec()]);
    let mut listener = OrderBookListener::new(false, true);
    listener.on_file_creation(EventSource::Fills, 0, "f").unwrap();
    assert_eq!(listener.on_file_modification(EventSource::Fills, b"x\ny\nz"), [b"x".to_vec(), b"y".to_vec()]);
    assert_eq!(listener.file_position(EventSource::Fills), Some(4));
    assert_eq!(listener.on_file_modification(EventSource::Fills, b"z!\n"), [b"z!".to_vec()]);
    assert_eq!(listener.file_position(EventSource::Fills), Some(7));
}

#[test]
fn following_the_messages_gives_the_live_books() {
    let mut listener = live(true, &[1], 100);
    let mut client = OrderBookState::from_snapshot(book_snapshot(&[1]), 100, 1, true, true);
    receive_new_order(&mut listener, 101, 2);
    listener.process_data(vec![], EventSource::OrderDiffs).unwrap();
    let (statuses, diffs) = new_order_batches(103, 5);
    listener.receive_batch(EventBatch::Orders(statuses)).unwrap();
    listener.replace_from_snapshot(book_snapshot(&[7]), 105, 9, VecDeque::new());
    // A block that the new books already hold changes neither side.
    listener.receive_batch(EventBatch::BookDiffs(diffs)).unwrap();
    receive_new_order(&mut listener, 106, 8);
    for message in listener.take_messages() {
        match message {
            InternalMessage::BookReset { snapshot, .. } => {
                client = OrderBookState::from_snapshot(snapshot.snapshot, snapshot.height, snapshot.time, true, true);
            }
            InternalMessage::L4BookUpdates { diff_batch, status_batch } => {
                client.apply_updates(&status_batch, &diff_batch).unwrap();
            }
            _ => {}
        }
    }
    assert_orders(&client.compute_snapshot(), 106, &[7, 8]);
    assert_orders(&listener.compute_snapshot().unwrap(), 106, &[7, 8]);
}

#[test]
fn a_growing_file_gives_each_line_once() {
    let whole = "alpha\nbeta\r\n\ngamma\ndelta";
    let expected: Vec<Vec<u8>> = ["alpha", "beta", "gamma"].iter().map(|l| l.as_bytes().to_vec()).collect();
    for step in 1..=whole.len() {
        let mut listener = OrderBookListener::new(false, true);
        listener.on_file_creation(EventSource::Fills, 0, "f").unwrap();
        let mut lines = Vec::new();
        let mut len = 0;
        while len < whole.len() {
            len = whole.len().min(len + step);
            let at = listener.file_position(EventSource::Fills).unwrap() as usize;
            lines.extend(listener.on_file_modification(EventSource::Fills, &whole.as_bytes()[at..len]));
        }
        assert_eq!(lines, expected);
    }
}

#[test]
fn comparisons_are_made_apart_from_the_live_books() {
    let mut listener = live(false, &[1], 100);
    let state = begin_snapshot_fetch(&mut listener).unwrap();
    receive_new_order(&mut listener, 101, 2);
    receive_new_order(&mut listener, 102, 3);
    let cache = listener.drain_cache();
    let comparison = compare_with_snapshot(state, cache, book_snapshot(&[9]), 101, true).unwrap();
    let Comparison::Differs(divergence) = &comparison else { panic!("Expected a difference") };
    assert_eq!((divergence.height, divergence.rest.len()), (101, 1));
    // A block that was applied while the comparison was made is replayed, too.
    receive_new_order(&mut listener, 103, 4);
    let outcome = conclude_comparison(&mut listener, comparison);
    assert!(matches!(outcome, FetchOutcome::Replaced(_, ReplaceOutcome::Ready)));
    assert_orders(&listener.compute_snapshot().unwrap(), 103, &[9, 3, 4]);

    assert!(matches!(conclude_comparison(&mut listener, Comparison::Matched), FetchOutcome::Matched));
    assert!(matches!(conclude_comparison(&mut listener, Comparison::NotEnough), FetchOutcome::NotEnough));
    assert!(matches!(
        conclude_comparison(&mut listener, Comparison::Lags { stored: 7 }),
        FetchOutcome::Lags { stored: 7 }
    ));
    assert_orders(&listener.compute_snapshot().unwrap(), 103, &[9, 3, 4]);

    // A collected block that does not fit is the error.
    let state = listener.clone_state().unwrap();
    let gap = VecDeque::from([new_order_batches(110, 5)]);
    assert!(matches!(
        compare_with_snapshot(state, gap, book_snapshot(&[9]), 105, true),
        Err(ApplyError::BlockGap { expected: 104, got: 110 })
    ));
}

#[test]
fn a_rotation_can_be_checked_beforehand() {
    let mut listener = OrderBookListener::new(false, true);
    assert!(listener.check_rotation(EventSource::Fills, 9, "f").is_ok());
    listener.on_file_creation(EventSource::Fills, 0, "f").unwrap();
    listener.on_file_modification(EventSource::Fills, b"abc\nde");
    let err = listener.check_rotation(EventSource::Fills, 6, "g").unwrap_err();
    assert_eq!(err.message(), "Incomplete Fills line when rotating to g");
    assert!(listener.check_rotation(EventSource::Fills, 4, "g").is_ok());
    assert_eq!(listener.file_position(EventSource::Fills), Some(4));
}

#[test]
fn received_snapshots_start_the_books_or_a_comparison() {
    let mut listener = OrderBookListener::new(false, true);
    let state = begin_snapshot_fetch(&mut listener);
    let step = receive_snapshot(&mut listener, state, book_snapshot(&[1]), 100);
    assert!(matches!(step, SnapshotStep::Initialized(ReplaceOutcome::Ready)));
    assert_orders(&listener.compute_snapshot().unwrap(), 100, &[1]);

    let state = begin_snapshot_fetch(&mut listener);
    receive_new_order(&mut listener, 101, 2);
    let step = receive_snapshot(&mut listener, state, book_snapshot(&[7]), 101);
    let SnapshotStep::Compare { state, cache, expected } = step else { panic!("Expected a comparison") };
    assert_eq!((state.height(), cache.len(), expected.len()), (100, 1, 1));
    // The live books are as they were, and collecting goes on.
    assert_orders(&listener.compute_snapshot().unwrap(), 101, &[1, 2]);
    receive_new_order(&mut listener, 102, 3);
    assert_eq!(listener.take_cache().len(), 1);
}
