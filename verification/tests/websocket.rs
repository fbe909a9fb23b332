//! Trades, book updates and connections.

use order_book_server::book_updates::coin_to_book_updates;
use order_book_server::coin::Coin;
use order_book_server::listener::{InternalMessage, OrderBookListener};
use order_book_server::multi_book::Snapshots;
use order_book_server::node_data::{
    Batch, EventBatch, Fill, NodeDataFill, NodeDataOrderDiff, NodeDataOrderStatus, OrderDiff,
};
use order_book_server::order::{Address, InnerL4Order, Px, Side, Sz};
use order_book_server::order_book::Snapshot;
use order_book_server::responses::{l4_snapshot_response, new_universe, L4Book, ServerResponse};
use order_book_server::session::{ClientFrame, Request, Session, SessionStep};
use order_book_server::state::TimedSnapshots;
use order_book_server::subscription::{ClientMessage, Subscription, SubscriptionManager};
use order_book_server::trades::{coin_to_trades, Trade};

fn fill(coin: &str, tid: u64, side: Side, crossed: bool, user: Address) -> NodeDataFill {
    NodeDataFill(
        user,
        Fill {
            coin: coin.into(),
            tid,
            side,
            crossed,
            px: "2000.0".into(),
            sz: "1.0".into(),
            time: 1788919049596,
            start_position: "0.0".into(),
            dir: "Open Long".into(),
            closed_pnl: "0.0".into(),
            hash: "0x123".into(),
            oid: tid,
            fee: "0.0".into(),
            fee_token: "USDC".into(),
        },
    )
}

fn fill_batch(fills: Vec<NodeDataFill>) -> Batch<NodeDataFill> {
    Batch::new(1788919049000, 100, fills)
}

fn coins(names: &[&str]) -> Vec<String> {
    names.iter().map(|c| c.to_string()).collect()
}

fn zero() -> Address {
    Address::new([0; 20])
}

fn assert_trade(trade: &Trade, tid: u64, side: Side, users: [Address; 2]) {
    assert_eq!((trade.tid, trade.side, trade.users), (tid, side, users));
    assert_eq!((trade.coin.as_str(), trade.px.as_str(), trade.sz.as_str()), ("ETH", "2000.0", "1.0"));
    assert_eq!((trade.time, trade.hash.as_str()), (1788919049596, "0x123"));
}

#[test]
fn trades_pair_interleaved_fills_and_preserve_first_seen_order() {
    let buyer = Address::new([1; 20]);
    let seller = Address::new([2; 20]);
    let batch = fill_batch(vec![
        fill("ETH", 1, Side::Bid, true, buyer),
        fill("ETH", 2, Side::Bid, false, buyer),
        fill("ETH", 2, Side::Ask, true, seller),
        fill("ETH", 1, Side::Ask, false, seller),
    ]);
    let trades = coin_to_trades(&batch, &coins(&["ETH"]));
    let trades = trades.get("ETH").unwrap();
    assert_eq!(trades.len(), 2);
    assert_trade(&trades[0], 1, Side::Bid, [buyer, seller]);
    assert_trade(&trades[1], 2, Side::Ask, [buyer, seller]);
}

#[test]
fn trades_with_the_same_id_on_different_coins_are_separate() {
    let buyer = Address::new([1; 20]);
    let seller = Address::new([2; 20]);
    let batch = fill_batch(vec![
        fill("ETH", 1, Side::Ask, false, seller),
        fill("BTC", 1, Side::Bid, false, buyer),
        fill("ETH", 1, Side::Bid, true, buyer),
        fill("BTC", 1, Side::Ask, true, seller),
    ]);
    let trades = coin_to_trades(&batch, &coins(&["ETH", "BTC"]));
    assert_eq!(trades.len(), 2);
    for coin in ["ETH", "BTC"] {
        assert_eq!(trades.get(coin).unwrap().len(), 1);
        let trade = &trades.get(coin).unwrap()[0];
        assert_eq!(trade.coin, coin);
        assert_eq!(trade.users, [buyer, seller]);
    }
}

#[test]
fn invalid_fill_groups_do_not_drop_valid_trades_or_panic() {
    let user = zero();
    let batch = fill_batch(vec![
        fill("ETH", 1, Side::Ask, true, user),
        fill("ETH", 2, Side::Bid, true, user),
        fill("ETH", 3, Side::Ask, true, user),
        fill("ETH", 3, Side::Ask, false, user),
        fill("ETH", 4, Side::Bid, true, user),
        fill("ETH", 4, Side::Bid, false, user),
        fill("ETH", 5, Side::Ask, true, user),
        fill("ETH", 5, Side::Bid, false, user),
        fill("ETH", 5, Side::Ask, true, user),
        fill("ETH", 6, Side::Ask, true, user),
        fill("ETH", 6, Side::Bid, false, user),
    ]);
    let trades = coin_to_trades(&batch, &coins(&["ETH"]));
    assert_eq!(trades.get("ETH").unwrap().len(), 1);
    assert_eq!(trades.get("ETH").unwrap()[0].tid, 6);
    assert_eq!(coin_to_trades(&fill_batch(vec![]), &coins(&["ETH"])).len(), 0);
}

#[test]
fn trades_only_process_subscribed_non_outcome_coins() {
    let user = zero();
    let mut fills = vec![
        fill("#33290", 481212882673789, Side::Ask, true, user),
        fill("#33291", 583392906092948, Side::Ask, true, user),
        fill("#44690", 532792333879334, Side::Ask, true, user),
        fill("#44691", 771181182710302, Side::Ask, false, user),
    ];
    for fill in &mut fills[..2] {
        fill.1.dir = "Merge Outcome".to_string();
    }
    for fill in &mut fills[2..] {
        fill.1.dir = "Sell".to_string();
    }
    for coin in ["BTC", "ETH", "@123", "PURR/USDC", "#10"] {
        fills.push(fill(coin, 1, Side::Bid, true, user));
        fills.push(fill(coin, 1, Side::Ask, false, user));
    }
    let batch = fill_batch(fills);
    let wanted = coins(&["BTC", "@123", "PURR/USDC", "#10", "#33290", "#33291", "#44690", "#44691"]);
    let trades = coin_to_trades(&batch, &wanted);
    assert_eq!(trades.len(), 3);
    for coin in ["BTC", "@123", "PURR/USDC"] {
        assert_eq!(trades.get(coin).unwrap().len(), 1);
    }
    assert_eq!(coin_to_trades(&batch, &vec![]).len(), 0);
}

fn order(coin: &str, oid: u64, side: Side, px: u64) -> InnerL4Order {
    InnerL4Order {
        user: zero(),
        coin: Coin::new(coin),
        side,
        limit_px: Px::new(px),
        sz: Sz::new(11_390_000),
        oid,
        timestamp: 1788919049596,
        trigger_condition: "N/A".into(),
        is_trigger: false,
        trigger_px: "0.0".into(),
        is_position_tpsl: false,
        reduce_only: false,
        order_type: "Limit".into(),
        tif: Some("Gtc".into()),
        cloid: None,
    }
}

const ETH_PX: u64 = 215_360_000_000;

fn eth_book() -> Snapshot<InnerL4Order> {
    Snapshot::new(vec![order("ETH", 2, Side::Bid, ETH_PX)], vec![])
}

#[test]
fn l4_reset_sends_a_full_snapshot_and_clears_removed_coins() {
    let orders = Snapshots::new(vec![(Coin::new("ETH"), eth_book())]);
    let snapshot = TimedSnapshots { height: 102, time: 1788919049596, snapshot: orders };
    let ServerResponse::L4Book(L4Book::Snapshot { coin, time, height, levels }) =
        l4_snapshot_response("ETH", &snapshot)
    else {
        panic!("Expected a full book");
    };
    assert_eq!(coin, "ETH");
    assert_eq!(height, 102);
    assert_eq!(time, snapshot.time);
    assert_eq!(levels.bids[0].oid, 2);

    let removed = TimedSnapshots { snapshot: Snapshots::new(vec![]), ..snapshot };
    let ServerResponse::L4Book(L4Book::Snapshot { coin, levels, .. }) = l4_snapshot_response("ETH", &removed)
    else {
        panic!("Expected a full book");
    };
    assert_eq!(coin, "ETH");
    assert!(levels.bids.is_empty() && levels.asks.is_empty());
}

fn diff(coin: &str, oid: u64) -> NodeDataOrderDiff {
    NodeDataOrderDiff {
        user: zero(),
        oid,
        coin: Coin::new(coin),
        px: Px::new(ETH_PX),
        raw_book_diff: OrderDiff::New { sz: Sz::new(11_390_000) },
    }
}

fn status(coin: &str, oid: u64) -> NodeDataOrderStatus {
    NodeDataOrderStatus { time: 5, status: "open".into(), order: order(coin, oid, Side::Bid, ETH_PX) }
}

#[test]
fn book_updates_are_split_by_coin_in_order() {
    let diffs = Batch::new(77, 9, vec![diff("ETH", 1), diff("BTC", 2), diff("ETH", 3)]);
    let statuses = Batch::new(78, 9, vec![status("SOL", 4), status("ETH", 1)]);
    let updates = coin_to_book_updates(&diffs, &statuses);
    assert_eq!(updates.len(), 3);
    let eth = updates.get("ETH").unwrap();
    assert_eq!((eth.time, eth.height), (77, 9));
    assert_eq!(eth.book_diffs.iter().map(|d| d.oid).collect::<Vec<_>>(), [1, 3]);
    assert_eq!(eth.order_statuses.iter().map(|s| s.order.oid).collect::<Vec<_>>(), [1]);
    assert!(updates.get("BTC").unwrap().order_statuses.is_empty());
    assert!(updates.get("SOL").unwrap().book_diffs.is_empty());
}

fn live(books: Vec<(&str, Snapshot<InnerL4Order>)>) -> OrderBookListener {
    let mut listener = OrderBookListener::new(true, true);
    let books = books.into_iter().map(|(c, b)| (Coin::new(c), b)).collect();
    listener.init_from_snapshot(Snapshots::new(books), 100);
    listener
}

fn l2(coin: &str, n_sig_figs: Option<u32>, n_levels: Option<usize>, mantissa: Option<u64>) -> Subscription {
    Subscription::L2Book { coin: coin.into(), n_sig_figs, n_levels, mantissa }
}

fn l4(coin: &str) -> Subscription {
    Subscription::L4Book { coin: coin.into() }
}

fn trades_of(coin: &str) -> Subscription {
    Subscription::Trades { coin: coin.into() }
}

fn ask(session: &mut Session, listener: &OrderBookListener, message: ClientMessage) -> Vec<ServerResponse> {
    let frame = ClientFrame::Text {
        text: "{}".into(),
        request: Some(Request { message, rendered: "SUB".into() }),
    };
    match session.on_frame(frame, listener) {
        SessionStep::Reply(replies) => replies,
        SessionStep::End => panic!("the connection ended"),
    }
}

fn subscribe(session: &mut Session, listener: &OrderBookListener, subscription: Subscription) -> Vec<ServerResponse> {
    ask(session, listener, ClientMessage::Subscribe { subscription })
}

fn unsubscribe(session: &mut Session, listener: &OrderBookListener, subscription: Subscription) -> Vec<ServerResponse> {
    ask(session, listener, ClientMessage::Unsubscribe { subscription })
}

fn error_text(replies: &[ServerResponse]) -> &str {
    assert_eq!(replies.len(), 1);
    match &replies[0] {
        ServerResponse::Error(e) => e,
        _ => panic!("Expected an error"),
    }
}

#[test]
fn connections_need_live_books() {
    let listener = OrderBookListener::new(true, true);
    let Err(ServerResponse::Error(e)) = Session::open(&listener, true) else {
        panic!("Expected an error");
    };
    assert_eq!(e, "Order book not ready for streaming (waiting for snapshot)");
    assert!(Session::open(&live(vec![]), true).is_ok());
}

#[test]
fn requests_are_confirmed_or_refused() {
    let listener = live(vec![("ETH", eth_book())]);
    let mut session = Session::open(&listener, true).ok().unwrap();
    assert_eq!(error_text(&subscribe(&mut session, &listener, trades_of("BTC"))), "Invalid subscription: SUB");
    assert_eq!(error_text(&unsubscribe(&mut session, &listener, trades_of("ETH"))), "Already unsubscribed: SUB");
    let replies = subscribe(&mut session, &listener, trades_of("ETH"));
    assert_eq!(replies.len(), 1);
    assert!(matches!(
        &replies[0],
        ServerResponse::SubscriptionResponse(ClientMessage::Subscribe { subscription: Subscription::Trades { coin } })
            if coin == "ETH"
    ));
    assert_eq!(error_text(&subscribe(&mut session, &listener, trades_of("ETH"))), "Already subscribed: SUB");
    let replies = unsubscribe(&mut session, &listener, trades_of("ETH"));
    assert!(matches!(
        &replies[..],
        [ServerResponse::SubscriptionResponse(ClientMessage::Unsubscribe { .. })]
    ));
    assert_eq!(error_text(&unsubscribe(&mut session, &listener, trades_of("ETH"))), "Already unsubscribed: SUB");
}

#[test]
fn order_streams_begin_with_the_full_book() {
    let listener = live(vec![("ETH", eth_book())]);
    let mut session = Session::open(&listener, true).ok().unwrap();
    let replies = subscribe(&mut session, &listener, l4("ETH"));
    assert!(matches!(
        &replies[..],
        [
            ServerResponse::SubscriptionResponse(_),
            ServerResponse::L4Book(L4Book::Snapshot { height: 100, levels, .. })
        ] if levels.bids.len() == 1 && levels.bids[0].oid == 2
    ));
    // Without live books the subscription is taken back.
    let gone = OrderBookListener::new(true, true);
    let mut session = Session::open(&listener, true).ok().unwrap();
    for _ in 0..2 {
        assert_eq!(
            error_text(&subscribe(&mut session, &gone, l4("ETH"))),
            "Unable to grab order book snapshot: Snapshot Failed"
        );
    }
    assert_eq!(subscribe(&mut session, &listener, l4("ETH")).len(), 2);
}

#[test]
fn other_frames() {
    let listener = live(vec![]);
    let mut session = Session::open(&listener, true).ok().unwrap();
    let bad = ClientFrame::Text { text: "hello".into(), request: None };
    let SessionStep::Reply(replies) = session.on_frame(bad, &listener) else { panic!("the connection ended") };
    assert_eq!(error_text(&replies), "Error parsing JSON into valid websocket request: hello");
    let SessionStep::Reply(replies) = session.on_frame(ClientFrame::Other, &listener) else {
        panic!("the connection ended")
    };
    assert!(replies.is_empty());
    for frame in [ClientFrame::Garbled, ClientFrame::Close, ClientFrame::Gone] {
        assert!(matches!(session.on_frame(frame, &listener), SessionStep::End));
    }
}

#[test]
fn what_can_be_asked_for() {
    let universe = coins(&["ETH"]);
    let ok = [
        l2("ETH", None, None, None),
        l2("ETH", None, Some(0), None),
        l2("ETH", None, Some(100), None),
        l2("ETH", Some(2), None, None),
        l2("ETH", Some(5), Some(20), None),
        l2("ETH", Some(5), None, Some(2)),
        l2("ETH", Some(5), None, Some(5)),
        l4("ETH"),
        trades_of("ETH"),
    ];
    for subscription in ok {
        assert!(subscription.validate(&universe), "{subscription:?}");
        assert!(!subscription.validate(&coins(&["BTC"])), "{subscription:?}");
    }
    let bad = [
        l2("ETH", None, Some(101), None),
        l2("ETH", Some(1), None, None),
        l2("ETH", Some(6), None, None),
        l2("ETH", Some(4), None, Some(5)),
        l2("ETH", Some(5), None, Some(1)),
        l2("ETH", None, None, Some(5)),
        l4(""),
    ];
    for subscription in bad {
        assert!(!subscription.validate(&universe), "{subscription:?}");
    }
}

#[test]
fn subscriptions_are_kept_once() {
    let mut manager = SubscriptionManager::new();
    assert!(manager.subscribe(l4("ETH")));
    assert!(manager.subscribe(l2("ETH", None, None, None)));
    assert!(manager.subscribe(l2("ETH", Some(5), None, None)));
    assert!(manager.subscribe(trades_of("ETH")));
    assert!(!manager.subscribe(l2("ETH", Some(5), None, None)));
    assert_eq!(manager.subscriptions().len(), 4);
    assert!(manager.unsubscribe(l2("ETH", None, None, None)));
    assert!(!manager.unsubscribe(l2("ETH", None, None, None)));
    assert_eq!(manager.subscriptions().len(), 3);
    assert!(matches!(&manager.subscriptions()[1], Subscription::L2Book { n_sig_figs: Some(5), .. }));
}

#[test]
fn book_streams_follow_the_listener() {
    let mut listener = live(vec![("ETH", eth_book())]);
    let mut session = Session::open(&listener, true).ok().unwrap();
    listener.take_messages();
    subscribe(&mut session, &listener, l2("ETH", None, None, None));
    subscribe(&mut session, &listener, l4("ETH"));
    subscribe(&mut session, &listener, trades_of("ETH"));

    listener.receive_batch(EventBatch::Orders(Batch::new(9, 101, vec![status("ETH", 3)]))).unwrap();
    listener
        .receive_batch(EventBatch::BookDiffs(Batch::new(9, 101, vec![diff("ETH", 3)])))
        .unwrap();
    listener
        .process_data(vec![], order_book_server::node_data::EventSource::OrderDiffs)
        .unwrap();
    listener
        .receive_batch(EventBatch::Fills(fill_batch(vec![
            fill("ETH", 6, Side::Ask, true, zero()),
            fill("ETH", 6, Side::Bid, false, zero()),
        ])))
        .unwrap();
    let sent: Vec<ServerResponse> =
        listener.take_messages().iter().flat_map(|m| session.on_message(m)).collect();
    assert_eq!(sent.len(), 3);
    assert!(matches!(
        &sent[0],
        ServerResponse::L4Book(L4Book::Updates(u)) if u.height == 101 && u.book_diffs.len() == 1
    ));
    let ServerResponse::L2Book(book) = &sent[1] else { panic!("Expected levels") };
    assert_eq!((book.coin.as_str(), book.time, book.height), ("ETH", 9, 101));
    assert_eq!(book.levels.bids.len(), 1);
    let level = &book.levels.bids[0];
    assert_eq!((level.px, level.sz, level.n), (ETH_PX as u128, 2 * 11_390_000, 2));
    assert!(matches!(
        &sent[2],
        ServerResponse::Trades { block_number: 100, fills } if fills.len() == 1 && fills[0].tid == 6
    ));
}

#[test]
fn every_book_subscriber_is_served_after_a_reset() {
    let mut listener = live(vec![("ETH", eth_book()), ("BTC", eth_book())]);
    let mut session = Session::open(&listener, true).ok().unwrap();
    for subscription in
        [l2("ETH", None, None, None), l2("BTC", Some(2), None, None), l4("ETH"), l4("BTC"), trades_of("ETH")]
    {
        subscribe(&mut session, &listener, subscription);
    }
    listener.take_messages();
    let btc = Snapshots::new(vec![(Coin::new("BTC"), eth_book())]);
    listener.replace_from_snapshot(btc, 105, 7, std::collections::VecDeque::new());
    let messages = listener.take_messages();
    assert_eq!(messages.len(), 1);
    let InternalMessage::BookReset { l2_snapshots, .. } = &messages[0] else { panic!("Expected a reset") };
    assert_eq!(new_universe(l2_snapshots, true), ["BTC"]);
    let sent = session.on_message(&messages[0]);
    assert_eq!(sent.len(), 4);
    assert!(matches!(&sent[0], ServerResponse::L2Book(b)
        if b.coin == "ETH" && b.levels.bids.is_empty() && b.levels.asks.is_empty() && b.height == 105));
    assert!(matches!(&sent[1], ServerResponse::L2Book(b) if b.coin == "BTC" && b.levels.bids.len() == 1));
    assert!(matches!(&sent[2], ServerResponse::L4Book(L4Book::Snapshot { coin, levels, .. })
        if coin == "ETH" && levels.bids.is_empty()));
    assert!(matches!(&sent[3], ServerResponse::L4Book(L4Book::Snapshot { coin, levels, time: 7, .. })
        if coin == "BTC" && levels.bids.len() == 1));
    // The coin that is gone can no longer be asked for.
    assert_eq!(
        error_text(&subscribe(&mut session, &listener, l2("ETH", Some(3), None, None))),
        "Invalid subscription: SUB"
    );
}

#[test]
fn ignored_spot_coins_leave_the_universe() {
    let listener = live(vec![("ETH", eth_book()), ("@5", eth_book()), ("PURR/USDC", eth_book())]);
    let mut state = listener.clone_state().unwrap();
    assert!(state.l2_snapshots(false).is_none());
    let books = Snapshots::new(vec![(Coin::new("ETH"), eth_book()), (Coin::new("@5"), eth_book())]);
    let mut state = order_book_server::state::OrderBookState::from_snapshot(books, 1, 1, true, false);
    let (_, _, levels) = state.l2_snapshots(false).unwrap();
    assert_eq!(new_universe(&levels, true), ["ETH"]);
    assert_eq!(new_universe(&levels, false), ["ETH", "@5"]);
}

#[test]
fn the_number_of_levels_is_what_was_asked_for() {
    let bids = (1..=150u64).rev().map(|px| order("ETH", px, Side::Bid, px * 1_000_000)).collect();
    let listener = live(vec![("ETH", Snapshot::new(bids, vec![]))]);
    for (asked, got) in [(None, 20), (Some(0), 0), (Some(7), 7), (Some(100), 100)] {
        let mut session = Session::open(&listener, true).ok().unwrap();
        assert_eq!(subscribe(&mut session, &listener, l2("ETH", None, asked, None)).len(), 1);
        let mut listener = listener.clone_state().unwrap();
        // A copy of the books that have been told of keeps that mark.
        assert!(listener.l2_snapshots(true).is_none());
        let snapshot = listener.compute_snapshot();
        let mut again = order_book_server::state::OrderBookState::from_snapshot(snapshot.snapshot, 100, 0, true, true);
        let (time, height, l2_snapshots) = again.l2_snapshots(true).unwrap();
        let sent = session.on_message(&InternalMessage::Snapshot { l2_snapshots, time, height });
        let ServerResponse::L2Book(book) = &sent[0] else { panic!("Expected levels") };
        assert_eq!(book.levels.bids.len(), got);
        if got > 0 {
            assert_eq!(book.levels.bids[0].px, 150_000_000);
        }
    }
}

#[test]
fn trades_of_a_coin_do_not_depend_on_other_subscriptions() {
    let batch = fill_batch(vec![
        fill("BTC", 9, Side::Bid, true, zero()),
        fill("ETH", 2, Side::Bid, true, zero()),
        fill("BTC", 2, Side::Ask, true, zero()),
        fill("ETH", 1, Side::Ask, false, zero()),
        fill("BTC", 9, Side::Ask, false, zero()),
        fill("ETH", 2, Side::Ask, false, zero()),
        fill("ETH", 1, Side::Bid, false, zero()),
    ]);
    for wanted in [coins(&["ETH"]), coins(&["BTC", "ETH"]), coins(&["ETH", "SOL", "ETH"])] {
        let trades = coin_to_trades(&batch, &wanted);
        let eth = trades.get("ETH").unwrap();
        assert_eq!(eth.iter().map(|t| t.tid).collect::<Vec<_>>(), [2, 1]);
        // Neither order crossed the book: the buyer's side is shown.
        assert_eq!(eth[1].side, Side::Bid);
    }
}

#[test]
fn a_client_keeps_the_book_by_snapshots_and_updates() {
    let mut listener = live(vec![("ETH", eth_book()), ("BTC", eth_book())]);
    let mut session = Session::open(&listener, true).ok().unwrap();
    listener.take_messages();
    let replies = subscribe(&mut session, &listener, l4("ETH"));
    let ServerResponse::L4Book(L4Book::Snapshot { height, time, levels, .. }) = &replies[1] else {
        panic!("Expected a full book");
    };
    let kept = Snapshots::new(vec![(Coin::new("ETH"), levels.copy())]);
    let mut client = order_book_server::state::OrderBookState::from_snapshot(kept, *height, *time, true, true);

    let leave = NodeDataOrderDiff { raw_book_diff: OrderDiff::Remove, ..diff("ETH", 2) };
    let shrink = NodeDataOrderDiff {
        raw_book_diff: OrderDiff::Update { orig_sz: Sz::new(11_390_000), new_sz: Sz::new(5) },
        ..diff("ETH", 3)
    };
    let blocks = [
        (vec![status("BTC", 8), status("ETH", 3)], vec![diff("ETH", 3), diff("BTC", 8)]),
        (vec![], vec![NodeDataOrderDiff { raw_book_diff: OrderDiff::Remove, ..diff("BTC", 8) }]),
        (vec![status("ETH", 4)], vec![leave, diff("ETH", 4), shrink]),
    ];
    for (i, (statuses, diffs)) in blocks.into_iter().enumerate() {
        let height = 101 + i as u64;
        listener.receive_batch(EventBatch::Orders(Batch::new(1, height, statuses))).unwrap();
        listener.receive_batch(EventBatch::BookDiffs(Batch::new(1, height, diffs))).unwrap();
        let mut own = (vec![], vec![]);
        for message in listener.take_messages() {
            for response in session.on_message(&message) {
                let ServerResponse::L4Book(L4Book::Updates(u)) = response else { panic!("Expected updates") };
                assert_eq!(u.height, height);
                own = (u.order_statuses, u.book_diffs);
            }
        }
        client.apply_updates(&Batch::new(1, height, own.0), &Batch::new(1, height, own.1)).unwrap();
        let now = |t: TimedSnapshots| {
            t.snapshot.get("ETH").unwrap().bids.iter().map(|o| (o.oid, o.sz.0)).collect::<Vec<_>>()
        };
        assert_eq!(now(client.compute_snapshot()), now(listener.compute_snapshot().unwrap()));
    }
    let book = client.compute_snapshot();
    let bids = &book.snapshot.get("ETH").unwrap().bids;
    assert_eq!(bids.iter().map(|o| (o.oid, o.sz.0)).collect::<Vec<_>>(), [(3, 5), (4, 11_390_000)]);
}

#[test]
fn trades_of_a_coin_depend_on_its_own_fills_alone() {
    let own = [fill("ETH", 1, Side::Ask, true, zero()), fill("ETH", 1, Side::Bid, false, zero())];
    let alone = fill_batch(own.to_vec());
    let crowded = fill_batch(vec![
        fill("BTC", 1, Side::Bid, true, zero()),
        own[0].clone(),
        fill("SOL", 1, Side::Ask, true, zero()),
        fill("BTC", 1, Side::Bid, true, zero()),
        own[1].clone(),
    ]);
    let a = coin_to_trades(&alone, &coins(&["ETH"]));
    let b = coin_to_trades(&crowded, &coins(&["SOL", "ETH", "BTC"]));
    assert_eq!((a.len(), b.len()), (1, 1));
    assert_eq!(format!("{:?}", a.get("ETH")), format!("{:?}", b.get("ETH")));
}

#[test]
fn a_client_stays_in_step_through_resets_and_repeated_blocks() {
    let mut listener = live(vec![("ETH", eth_book())]);
    let mut session = Session::open(&listener, true).ok().unwrap();
    listener.take_messages();
    subscribe(&mut session, &listener, l4("ETH"));
    let mut client = listener.clone_state().unwrap();
    let block = |listener: &mut OrderBookListener, height: u64, oid: u64| {
        listener.receive_batch(EventBatch::Orders(Batch::new(1, height, vec![status("ETH", oid)]))).unwrap();
        listener.receive_batch(EventBatch::BookDiffs(Batch::new(1, height, vec![diff("ETH", oid)]))).unwrap();
    };
    block(&mut listener, 101, 3);
    // The other half of this block arrives after the books were replaced by later ones.
    listener.receive_batch(EventBatch::Orders(Batch::new(1, 103, vec![status("ETH", 4)]))).unwrap();
    let renewed = Snapshots::new(vec![(Coin::new("ETH"), eth_book())]);
    listener.replace_from_snapshot(renewed, 105, 1, std::collections::VecDeque::new());
    listener.receive_batch(EventBatch::BookDiffs(Batch::new(1, 103, vec![diff("ETH", 4)]))).unwrap();
    block(&mut listener, 106, 5);

    let mut heights = vec![];
    for message in listener.take_messages() {
        for response in session.on_message(&message) {
            let ServerResponse::L4Book(book) = response else { panic!("Expected a book") };
            match book {
                L4Book::Snapshot { time, height, levels, .. } => {
                    heights.push(height);
                    let kept = Snapshots::new(vec![(Coin::new("ETH"), levels)]);
                    client = order_book_server::state::OrderBookState::from_snapshot(kept, height, time, true, true);
                }
                L4Book::Updates(u) => {
                    heights.push(u.height);
                    let statuses = Batch::new(u.time, u.height, u.order_statuses);
                    client.apply_updates(&statuses, &Batch::new(u.time, u.height, u.book_diffs)).unwrap();
                }
            }
        }
    }
    assert_eq!(heights, [101, 105, 103, 106]);
    let oids = |t: TimedSnapshots| t.snapshot.get("ETH").unwrap().bids.iter().map(|o| o.oid).collect::<Vec<_>>();
    assert_eq!(oids(client.compute_snapshot()), [2, 5]);
    assert_eq!(oids(listener.compute_snapshot().unwrap()), [2, 5]);
}
