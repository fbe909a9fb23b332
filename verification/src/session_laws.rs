//! What holds of every connection.

use vstd::prelude::*;

use crate::book_updates::{
    followed_book, law_named_coins_get_updates, law_updates_are_all_that_names_the_coin,
    law_updates_keep_a_book_in_step, orders_keep_their_coin,
};
use crate::coin::is_spot_symbol;
use crate::levels::{l2_model, l2_of, law_offered_aggregations_are_kept, truncated, LevelsModel};
use crate::listener::{timed, EventModel, ListenerModel, MessageModel, OrderBookListener, RecordModel};
use crate::listener_laws::{
    followed, law_replacement_settles_the_queues, law_repeated_blocks_are_old,
    law_reset_brings_subscribers_into_step, settled,
};
use crate::multi_book::book_or_empty;
use crate::node_data::{
    BatchModel, DiffModel, EventSource, NodeDataFill, NodeDataOrderDiff, NodeDataOrderStatus, PairModel, StatusModel,
};
use crate::order_book::{BookModel, BooksModel};
use crate::responses::{
    full_book, immediate_snapshot, level_count, levels_response, live_books, reset_response, universe_of,
    L2BookModel, L4BookModel, ResponseModel,
};
use crate::rounding::L2SnapshotParams;
use crate::session::SessionModel;
use crate::state::{applied, law_height_advances_by_one, StateModel, TimedModel};
use crate::subscription::{
    law_unsubscribe_takes_out_one, without, ClientMessageModel, SubscriptionModel, DEFAULT_LEVELS, MAX_LEVELS,
};
use crate::trades::{coin_trades, law_trades_depend_on_the_coins_fills_alone, trades_given};

verus! {

/// A request that is not confirmed changes nothing, and is answered with one error.
pub proof fn law_refused_request_changes_nothing(
    s: SessionModel,
    message: ClientMessageModel,
    rendered: Seq<char>,
    live: Option<TimedModel>,
)
    ensures
        ({
            let (after, replies) = s.requested(message, rendered, live);
            &&& replies.len() > 0
            &&& replies[0] == ResponseModel::SubscriptionResponse(message) || {
                &&& after == s
                &&& replies.len() == 1
                &&& replies[0] is Error
            }
        }),
{
}

/// When a request is confirmed: it is valid, a new subscription was not there and can begin,
/// and one that is taken back was there. Afterwards it is there, or not, accordingly.
pub proof fn law_confirmed_request_takes_effect(
    s: SessionModel,
    message: ClientMessageModel,
    rendered: Seq<char>,
    live: Option<TimedModel>,
)
    requires
        s.wf(),
    ensures
        ({
            let subscription = message.subscription();
            let (after, replies) = s.requested(message, rendered, live);
            &&& after.wf()
            &&& replies[0] is SubscriptionResponse <==> {
                &&& subscription.is_valid(s.universe)
                &&& match message {
                    ClientMessageModel::Subscribe { .. } => !s.subscriptions.contains(subscription)
                        && immediate_snapshot(subscription, live) is Ok,
                    ClientMessageModel::Unsubscribe { .. } => s.subscriptions.contains(subscription),
                }
            }
            &&& replies[0] is SubscriptionResponse ==> (after.subscriptions.contains(subscription)
                <==> message is Subscribe)
            &&& forall|other: SubscriptionModel|
                other != subscription ==> (#[trigger] after.subscriptions.contains(other)
                    <==> s.subscriptions.contains(other))
        }),
{
    let subscription = message.subscription();
    let subs = s.subscriptions;
    let (after, replies) = s.requested(message, rendered, live);
    law_unsubscribe_takes_out_one(subs, subscription);
    let more = subs.push(subscription);
    assert(more[subs.len() as int] == subscription);
    assert(more.contains(subscription));
    assert forall|other: SubscriptionModel| other != subscription implies (#[trigger] more.contains(other)
        <==> subs.contains(other)) by {
        if subs.contains(other) {
            let i = subs.index_of(other);
            assert(more[i] == other);
        }
        if more.contains(other) {
            let i = more.index_of(other);
            assert(subs[i] == other);
        }
    }
    let less = without(subs, subscription);
    assert forall|i: int| 0 <= i < less.len() implies (#[trigger] less[i]).is_offered() by {
        assert(less.contains(less[i]));
        if less[i] != subscription {
            assert(subs.contains(less[i]));
        }
        let j = subs.index_of(less[i]);
        assert(subs[j].is_offered());
    }
}

/// Taking a subscription back right after it was confirmed leaves the connection as it was.
pub proof fn law_unsubscribing_undoes_subscribing(
    s: SessionModel,
    subscription: SubscriptionModel,
    rendered: Seq<char>,
    live: Option<TimedModel>,
    later: Option<TimedModel>,
)
    requires
        s.wf(),
        s.requested(ClientMessageModel::Subscribe { subscription }, rendered, live).1[0] is SubscriptionResponse,
    ensures
        ({
            let (joined, _) = s.requested(ClientMessageModel::Subscribe { subscription }, rendered, live);
            let left = joined.requested(ClientMessageModel::Unsubscribe { subscription }, rendered, later);
            left.0 == s
        }),
{
    crate::subscription::law_unsubscribe_undoes_subscribe(s.subscriptions, subscription);
    let more = s.subscriptions.push(subscription);
    assert(more[s.subscriptions.len() as int] == subscription);
}

/// A stream that goes order by order begins with all of the book.
pub proof fn law_l4_stream_begins_with_the_full_book(
    s: SessionModel,
    coin: Seq<char>,
    rendered: Seq<char>,
    live: TimedModel,
)
    requires
        s.universe.contains(coin),
        live.books.contains_key(coin),
        !s.subscriptions.contains(SubscriptionModel::L4Book { coin }),
    ensures
        ({
            let subscription = SubscriptionModel::L4Book { coin };
            let message = ClientMessageModel::Subscribe { subscription };
            s.requested(message, rendered, Some(live)).1 == seq![
                ResponseModel::SubscriptionResponse(message),
                full_book(coin, live),
            ]
        }),
{
}

/// A subscription to a summed-up book that was found valid gets, of each new aggregation of
/// books that hold its coin, the first levels of the aggregation it asked for.
pub proof fn law_l2_stream_is_the_aggregated_book(
    books: BooksModel,
    coin: Seq<char>,
    n_sig_figs: Option<u32>,
    n_levels: Option<usize>,
    mantissa: Option<u64>,
    time: u64,
    height: u64,
)
    requires
        books.contains_key(coin),
        (SubscriptionModel::L2Book { coin, n_sig_figs, n_levels, mantissa }).is_offered(),
    ensures
        ({
            let levels = truncated(
                l2_of(books[coin], L2SnapshotParams { n_sig_figs, mantissa }),
                level_count(n_levels),
            );
            &&& levels_response(
                SubscriptionModel::L2Book { coin, n_sig_figs, n_levels, mantissa },
                l2_model(books),
                time,
                height,
            ) == Some(ResponseModel::L2Book(L2BookModel { coin, time, height, levels }))
            &&& levels.bids.len() <= MAX_LEVELS
            &&& levels.asks.len() <= MAX_LEVELS
            &&& n_levels is None ==> levels.bids.len() <= DEFAULT_LEVELS && levels.asks.len() <= DEFAULT_LEVELS
        }),
{
    law_offered_aggregations_are_kept(books, coin, L2SnapshotParams { n_sig_figs, mantissa });
}

/// After the books were rebuilt every subscriber to a book gets a fresh one, of the new books,
/// and a coin that is no longer there is cleared.
pub proof fn law_reset_serves_every_book(
    subscription: SubscriptionModel,
    snapshot: TimedModel,
    ignore_spot: bool,
)
    requires
        subscription.is_offered(),
    ensures
        ({
            let r = reset_response(subscription, snapshot, l2_model(snapshot.books), ignore_spot);
            match subscription {
                SubscriptionModel::Trades { coin } => r is None,
                SubscriptionModel::L4Book { coin } => {
                    &&& r == Some(full_book(coin, snapshot))
                    &&& !snapshot.books.contains_key(coin) ==> book_or_empty(snapshot.books, coin)
                        == BookModel::empty()
                },
                SubscriptionModel::L2Book { coin, n_sig_figs, n_levels, mantissa } => {
                    r == Some(
                        ResponseModel::L2Book(
                            L2BookModel {
                                coin,
                                time: snapshot.time,
                                height: snapshot.height,
                                levels: if universe_of(l2_model(snapshot.books), ignore_spot).contains(coin) {
                                    truncated(
                                        l2_of(snapshot.books[coin], L2SnapshotParams { n_sig_figs, mantissa }),
                                        level_count(n_levels),
                                    )
                                } else {
                                    LevelsModel::empty()
                                },
                            },
                        ),
                    )
                },
            }
        }),
{
    if let SubscriptionModel::L2Book { coin, n_sig_figs, n_levels, mantissa } = subscription {
        if snapshot.books.contains_key(coin) {
            law_l2_stream_is_the_aggregated_book(
                snapshot.books,
                coin,
                n_sig_figs,
                n_levels,
                mantissa,
                snapshot.time,
                snapshot.height,
            );
        }
    }
}

/// A coin's book as a client keeps it, with the height it is of.
pub struct ClientBook {
    pub height: u64,
    pub book: BookModel,
}

/// What a client keeps after a response or none: all of a book replaces it, updates above its
/// height change it, and others are passed over.
pub open spec fn kept(
    client: ClientBook,
    coin: Seq<char>,
    response: Option<ResponseModel>,
    ignore_spot: bool,
) -> ClientBook {
    match response {
        Some(ResponseModel::L4Book(L4BookModel::Snapshot { height, levels, .. })) => ClientBook {
            height,
            book: levels,
        },
        Some(ResponseModel::L4Book(L4BookModel::Updates(u))) => if u.height > client.height {
            ClientBook { height: u.height, book: followed_book(client.book, coin, u, ignore_spot) }
        } else {
            client
        },
        _ => client,
    }
}

/// A client who has a coin's book, replaces it by each full book that is sent and applies the
/// updates that are sent, has the coin's live book after every message: each reset, each block
/// that the live books took on, each one that the client already has, and whatever else there
/// is. A block's orders must each be on one coin. By [`law_repeated_blocks_are_old`] a block is
/// the next one or no higher than the last reset.
///
/// [`law_repeated_blocks_are_old`]: crate::listener_laws::law_repeated_blocks_are_old
pub proof fn law_l4_clients_stay_in_step(
    s: SessionModel,
    live: StateModel,
    client: ClientBook,
    m: MessageModel,
    coin: Seq<char>,
)
    requires
        client.book == book_or_empty(live.books, coin),
        client.height <= live.height,
        m matches MessageModel::L4BookUpdates { diff_batch, status_batch } ==> {
            &&& status_batch.block_number == diff_batch.block_number
            &&& status_batch.block_number <= client.height || {
                &&& status_batch.block_number == live.height + 1
                &&& applied(live, status_batch, diff_batch).1 is None
                &&& orders_keep_their_coin(status_batch.events, diff_batch.events)
            }
        },
    ensures
        ({
            let after = kept(client, coin, s.told(SubscriptionModel::L4Book { coin }, m), live.ignore_spot);
            &&& after.book == book_or_empty(followed(live, m).books, coin)
            &&& after.height <= followed(live, m).height
        }),
{
    if let MessageModel::L4BookUpdates { diff_batch, status_batch } = m {
        if status_batch.block_number > client.height {
            law_updates_keep_a_book_in_step(live.books, diff_batch, status_batch, coin, live.ignore_spot);
        }
    }
}

/// What a client keeps after several messages.
pub open spec fn kept_all(
    s: SessionModel,
    client: ClientBook,
    coin: Seq<char>,
    messages: Seq<MessageModel>,
    ignore_spot: bool,
) -> ClientBook
    decreases messages.len(),
{
    if messages.len() == 0 {
        client
    } else {
        kept(
            kept_all(s, client, coin, messages.drop_last(), ignore_spot),
            coin,
            s.told(SubscriptionModel::L4Book { coin }, messages.last()),
            ignore_spot,
        )
    }
}

/// Whether a client who has got all messages that are to be sent has the live book of a coin. The
/// client is no lower than the last replacement of the books, at the height `floor`.
pub open spec fn in_step(
    s: SessionModel,
    m: ListenerModel,
    client: ClientBook,
    coin: Seq<char>,
    floor: u64,
) -> bool {
    &&& m.state is Some
    &&& m.outbox is Some
    &&& settled(m, floor)
    &&& ({
        let live = m.state->0;
        let now = kept_all(s, client, coin, m.outbox->0, live.ignore_spot);
        &&& now.book == book_or_empty(live.books, coin)
        &&& floor <= now.height <= live.height
    })
}

/// Whether the block that a batch completes, if it does, has each of its orders on one coin.
pub open spec fn next_block_keeps_coins(m: ListenerModel, batch: EventModel) -> bool {
    m.taking(batch).popped().0 matches Some((statuses, diffs)) ==> orders_keep_their_coin(
        statuses.events,
        diffs.events,
    )
}

/// Whatever batch the listener receives, a client who was in step with the live books is in step
/// afterwards.
pub proof fn law_l4_client_over_a_run(
    s: SessionModel,
    m: ListenerModel,
    client: ClientBook,
    coin: Seq<char>,
    floor: u64,
    batch: EventModel,
)
    requires
        in_step(s, m, client, coin, floor),
        m.received(batch).1 is None,
        next_block_keeps_coins(m, batch),
    ensures
        in_step(s, m.received(batch).0, client, coin, floor),
{
    let live = m.state->0;
    let taken = m.taking(batch);
    let after = m.received(batch).0;
    law_repeated_blocks_are_old(m, batch, floor);
    let now = kept_all(s, client, coin, m.outbox->0, live.ignore_spot);
    assert(kept_all(s, client, coin, taken.outbox->0, live.ignore_spot) == now) by {
        if taken.outbox->0 != m.outbox->0 {
            assert(taken.outbox->0.drop_last() =~= m.outbox->0);
        }
    }
    if let Some((statuses, diffs)) = taken.popped().0 {
        let message = MessageModel::L4BookUpdates { diff_batch: diffs, status_batch: statuses };
        law_height_advances_by_one(live, statuses, diffs);
        law_l4_clients_stay_in_step(s, live, now, message, coin);
        assert(after.outbox->0.drop_last() =~= taken.outbox->0);
        assert(after.outbox->0.last() == message);
    }
}

/// Whether every block that records complete has each of its orders on one coin.
pub open spec fn blocks_keep_coins(m: ListenerModel, records: Seq<RecordModel>) -> bool
    decreases records.len(),
{
    records.len() > 0 ==> (records[0].parsed matches Ok(batch) ==> {
        &&& next_block_keeps_coins(m, batch)
        &&& blocks_keep_coins(m.received(batch).0, records.drop_first())
    })
}

/// Over any number of records that are processed without error, a client who was in step with the
/// live books is in step afterwards.
pub proof fn law_l4_client_over_records(
    s: SessionModel,
    m: ListenerModel,
    client: ClientBook,
    coin: Seq<char>,
    floor: u64,
    records: Seq<RecordModel>,
    source: EventSource,
)
    requires
        in_step(s, m, client, coin, floor),
        m.processed(records, source).1 is None,
        blocks_keep_coins(m, records),
    ensures
        in_step(s, m.processed(records, source).0, client, coin, floor),
    decreases records.len(),
{
    if records.len() == 0 {
        if !m.state->0.snapped {
            assert(m.having_told_levels().outbox->0.drop_last() =~= m.outbox->0);
        }
    } else if let Ok(batch) = records[0].parsed {
        law_l4_client_over_a_run(s, m, client, coin, floor, batch);
        law_l4_client_over_records(
            s,
            m.received(batch).0,
            client,
            coin,
            floor,
            records.drop_first(),
            source,
        );
    }
}

/// When the books are replaced every client comes into step with the new ones, whatever it had.
pub proof fn law_l4_client_after_a_replacement(
    s: SessionModel,
    m: ListenerModel,
    client: ClientBook,
    coin: Seq<char>,
    snapshot: BooksModel,
    height: u64,
    time: u64,
    cache: Seq<PairModel>,
)
    requires
        m.outbox is Some,
        m.queues_in_order(),
    ensures
        ({
            let after = m.replaced(snapshot, height, time, cache);
            after.state is Some ==> in_step(s, after, client, coin, after.state->0.height)
        }),
{
    let after = m.replaced(snapshot, height, time, cache);
    let start = StateModel { ignore_spot: m.ignore_spot, ..after.state->0 };
    law_replacement_settles_the_queues(m, snapshot, height, time, cache);
    law_reset_brings_subscribers_into_step(m, snapshot, height, time, cache, start);
}

/// A client who is sent the full book while no message is waiting begins in step.
pub proof fn law_l4_client_begins_in_step(
    s: SessionModel,
    m: ListenerModel,
    client: ClientBook,
    coin: Seq<char>,
    floor: u64,
)
    requires
        m.state is Some,
        m.outbox == Some(Seq::<MessageModel>::empty()),
        settled(m, floor),
    ensures
        in_step(
            s,
            m,
            kept(client, coin, Some(full_book(coin, timed(m.state->0))), m.state->0.ignore_spot),
            coin,
            floor,
        ),
{
}

/// Sending what is waiting leaves a client in step.
pub proof fn law_sending_keeps_clients_in_step(
    s: SessionModel,
    m: ListenerModel,
    client: ClientBook,
    coin: Seq<char>,
    floor: u64,
)
    requires
        in_step(s, m, client, coin, floor),
    ensures
        in_step(
            s,
            ListenerModel { outbox: Some(Seq::empty()), ..m },
            kept_all(s, client, coin, m.outbox->0, m.state->0.ignore_spot),
            coin,
            floor,
        ),
{
}

/// A subscriber to a coin's trades gets exactly the coin's trades of each block, whatever else
/// the connection has subscribed to.
pub proof fn law_trades_stream(s: SessionModel, coin: Seq<char>, batch: BatchModel<NodeDataFill>)
    requires
        s.subscriptions.contains(SubscriptionModel::Trades { coin }),
    ensures
        ({
            let trades = coin_trades(batch.events, set![coin], coin);
            s.told(SubscriptionModel::Trades { coin }, MessageModel::Fills { batch }) == (if trades.len() > 0 {
                Some(ResponseModel::Trades { block_number: batch.block_number, fills: trades })
            } else {
                None
            })
        }),
{
    law_trades_depend_on_the_coins_fills_alone(
        batch.events,
        batch.events,
        s.trade_coins(),
        set![coin],
        coin,
    );
}

/// All of a coin's book is its bids and its asks, with the height and the time of the books; of a coin
/// without a book it is empty.
pub proof fn law_full_book_is_both_sides(coin: Seq<char>, snapshot: TimedModel)
    ensures
        full_book(coin, snapshot) matches ResponseModel::L4Book(L4BookModel::Snapshot {
            coin: named,
            time,
            height,
            levels,
        }) && {
            &&& named == coin
            &&& time == snapshot.time
            &&& height == snapshot.height
            &&& snapshot.books.contains_key(coin) ==> levels.bids == snapshot.books[coin].bids && levels.asks
                == snapshot.books[coin].asks
            &&& !snapshot.books.contains_key(coin) ==> levels.bids.len() == 0 && levels.asks.len() == 0
        },
{
}

/// Whether a list is the beginning of another one, of a given length or all of it.
pub open spec fn is_start_of<T>(sent: Seq<T>, all: Seq<T>, n: nat) -> bool {
    &&& sent.is_prefix_of(all)
    &&& sent.len() == all.len() || sent.len() == n
    &&& sent.len() <= n
}

/// A subscriber to a summed-up book gets, of new aggregations, the beginning of both sides of the one
/// that was asked for, as many levels as were asked for or twenty, with their height and time, and
/// nothing if there is no book of the coin.
pub proof fn law_l2_stream_is_the_beginning_of_both_sides(
    books: BooksModel,
    coin: Seq<char>,
    n_sig_figs: Option<u32>,
    n_levels: Option<usize>,
    mantissa: Option<u64>,
    time: u64,
    height: u64,
)
    requires
        (SubscriptionModel::L2Book { coin, n_sig_figs, n_levels, mantissa }).is_offered(),
    ensures
        ({
            let all = l2_of(books[coin], L2SnapshotParams { n_sig_figs, mantissa });
            let n: nat = match n_levels {
                Some(n) => n as nat,
                None => 20,
            };
            match levels_response(
                SubscriptionModel::L2Book { coin, n_sig_figs, n_levels, mantissa },
                l2_model(books),
                time,
                height,
            ) {
                Some(ResponseModel::L2Book(b)) => {
                    &&& books.contains_key(coin)
                    &&& b.coin == coin
                    &&& b.time == time
                    &&& b.height == height
                    &&& is_start_of(b.levels.bids, all.bids, n)
                    &&& is_start_of(b.levels.asks, all.asks, n)
                },
                Some(_) => false,
                None => !books.contains_key(coin),
            }
        }),
{
    if books.contains_key(coin) {
        law_offered_aggregations_are_kept(books, coin, L2SnapshotParams { n_sig_figs, mantissa });
    }
}

/// What can be asked for after new aggregations: exactly the coins that have a book, but for the spot
/// pairs if spot is ignored. A block's updates and its fills change nothing of that, and no message
/// changes the subscriptions.
pub proof fn law_coins_to_ask_for_follow_the_books(
    s: SessionModel,
    m: MessageModel,
    books: BooksModel,
    coin: Seq<char>,
)
    ensures
        universe_of(l2_model(books), s.ignore_spot).contains(coin) <==> books.contains_key(coin) && !(s.ignore_spot
            && is_spot_symbol(coin)),
        s.after(m).subscriptions == s.subscriptions,
        s.after(m).ignore_spot == s.ignore_spot,
        match m {
            MessageModel::Snapshot { l2_snapshots, .. } => s.after(m).universe == universe_of(
                l2_snapshots,
                s.ignore_spot,
            ),
            MessageModel::BookReset { l2_snapshots, .. } => s.after(m).universe == universe_of(
                l2_snapshots,
                s.ignore_spot,
            ),
            _ => s.after(m) == s,
        },
{
}

/// A subscriber to a book order by order gets of a block everything that names the coin, in the block's
/// order, and nothing if nothing does.
pub proof fn law_l4_stream_is_all_that_names_the_coin(
    s: SessionModel,
    coin: Seq<char>,
    diff_batch: DiffModel,
    status_batch: StatusModel,
)
    ensures
        ({
            let named = (exists|i: int|
                0 <= i < diff_batch.events.len() && (#[trigger] diff_batch.events[i]).coin@ == coin) || (exists|
                i: int,
            |
                0 <= i < status_batch.events.len() && (#[trigger] status_batch.events[i]).order.coin@ == coin);
            match s.told(
                SubscriptionModel::L4Book { coin },
                MessageModel::L4BookUpdates { diff_batch, status_batch },
            ) {
                Some(ResponseModel::L4Book(L4BookModel::Updates(u))) => {
                    &&& named
                    &&& u.time == diff_batch.block_time
                    &&& u.height == diff_batch.block_number
                    &&& u.book_diffs == diff_batch.events.filter(|d: NodeDataOrderDiff| d.coin@ == coin)
                    &&& u.order_statuses == status_batch.events.filter(
                        |x: NodeDataOrderStatus| x.order.coin@ == coin,
                    )
                },
                Some(_) => false,
                None => !named,
            }
        }),
{
    law_updates_are_all_that_names_the_coin(diff_batch, status_batch, coin);
    law_named_coins_get_updates(diff_batch, status_batch, coin);
}

/// A subscriber to a coin's trades gets the trades that a block gives for the coin, with the number of
/// the block, and nothing if it gives none. The coins that trades are made for are those whose trades
/// are subscribed to.
pub proof fn law_trades_sent_are_those_given(s: SessionModel, coin: Seq<char>, batch: BatchModel<NodeDataFill>)
    ensures
        s.trade_coins().contains(coin) <==> s.subscriptions.contains(SubscriptionModel::Trades { coin }),
        ({
            let given = trades_given(batch.events, s.trade_coins(), coin);
            match s.told(SubscriptionModel::Trades { coin }, MessageModel::Fills { batch }) {
                Some(ResponseModel::Trades { block_number, fills }) => {
                    &&& block_number == batch.block_number
                    &&& fills == given
                },
                Some(_) => false,
                None => given.len() == 0,
            }
        }),
{
}

/// Which messages a subscription gets something of: summed-up books of aggregations and resets, books
/// order by order of blocks and resets, and trades of fills.
pub proof fn law_each_stream_has_its_messages(s: SessionModel, subscription: SubscriptionModel, m: MessageModel)
    ensures
        s.told(subscription, m) matches Some(r) ==> match m {
            MessageModel::Snapshot { .. } => subscription is L2Book && r is L2Book,
            MessageModel::BookReset { .. } => (subscription is L2Book && r is L2Book) || (subscription is L4Book && (
            r matches ResponseModel::L4Book(b) && b is Snapshot)),
            MessageModel::Fills { .. } => subscription is Trades && r is Trades,
            MessageModel::L4BookUpdates { .. } => subscription is L4Book && (r matches ResponseModel::L4Book(b)
                && b is Updates),
        },
        match m {
            MessageModel::BookReset { snapshot, .. } => subscription matches SubscriptionModel::L4Book { coin }
                ==> s.told(subscription, m) == Some(full_book(coin, snapshot)),
            _ => true,
        },
{
}

/// What is sent of a message is what each subscription gets of it, one response each, in the order in
/// which they were made; those that get nothing are passed over.
pub proof fn law_every_subscription_is_served_in_order(s: SessionModel, m: MessageModel)
    ensures
        s.told_all(m) == s.subscriptions.filter(|x: SubscriptionModel| s.told(x, m) is Some).map_values(
            |x: SubscriptionModel| s.told(x, m)->0,
        ),
{
    lemma_served(s, m, s.subscriptions.len() as int);
    assert(s.subscriptions.take(s.subscriptions.len() as int) =~= s.subscriptions);
}

proof fn lemma_served(s: SessionModel, m: MessageModel, n: int)
    requires
        0 <= n <= s.subscriptions.len(),
    ensures
        s.told_first(n, m) == s.subscriptions.take(n).filter(|x: SubscriptionModel| s.told(x, m) is Some).map_values(
            |x: SubscriptionModel| s.told(x, m)->0,
        ),
    decreases n,
{
    reveal(Seq::filter);
    let p = |x: SubscriptionModel| s.told(x, m) is Some;
    let f = |x: SubscriptionModel| s.told(x, m)->0;
    let t = s.subscriptions.take(n);
    if n > 0 {
        lemma_served(s, m, n - 1);
        assert(t.drop_last() =~= s.subscriptions.take(n - 1));
        assert(t.last() == s.subscriptions[n - 1]);
        let before = t.drop_last().filter(p);
        if p(t.last()) {
            assert(t.filter(p) =~= before.push(t.last()));
            assert(before.push(t.last()).map_values(f) =~= before.map_values(f).push(f(t.last())));
        } else {
            assert(t.filter(p) =~= before);
        }
        assert(s.told_first(n, m) =~= t.filter(p).map_values(f));
    } else {
        assert(t.filter(p).map_values(f) =~= Seq::empty());
    }
}

/// How a request is answered. One that is not valid, asks for what is there already or takes back what
/// is not there is refused with words that say so and show it; so is a stream order by order whose book
/// is not there. Any other is confirmed: a new subscription comes behind the others, and its stream
/// begins with the book if it is one order by order; one that is taken back leaves the others in order.
pub proof fn law_requests_are_answered(
    s: SessionModel,
    subscription: SubscriptionModel,
    rendered: Seq<char>,
    live: Option<TimedModel>,
)
    ensures
        ({
            let message = ClientMessageModel::Subscribe { subscription };
            let (after, replies) = s.requested(message, rendered, live);
            if !subscription.is_valid(s.universe) {
                after == s && replies == seq![ResponseModel::Error("Invalid subscription: "@ + rendered)]
            } else if s.subscriptions.contains(subscription) {
                after == s && replies == seq![ResponseModel::Error("Already subscribed: "@ + rendered)]
            } else {
                match subscription {
                    SubscriptionModel::L4Book { coin } => if live is Some && live->0.books.contains_key(coin) {
                        &&& after == SessionModel { subscriptions: s.subscriptions.push(subscription), ..s }
                        &&& replies == seq![ResponseModel::SubscriptionResponse(message), full_book(coin, live->0)]
                    } else {
                        &&& after == s
                        &&& replies == seq![
                            ResponseModel::Error("Unable to grab order book snapshot: "@ + "Snapshot Failed"@),
                        ]
                    },
                    _ => {
                        &&& after == SessionModel { subscriptions: s.subscriptions.push(subscription), ..s }
                        &&& replies == seq![ResponseModel::SubscriptionResponse(message)]
                    },
                }
            }
        }),
        ({
            let message = ClientMessageModel::Unsubscribe { subscription };
            let (after, replies) = s.requested(message, rendered, live);
            if !subscription.is_valid(s.universe) {
                after == s && replies == seq![ResponseModel::Error("Invalid subscription: "@ + rendered)]
            } else if s.subscriptions.contains(subscription) {
                &&& replies == seq![ResponseModel::SubscriptionResponse(message)]
                &&& s.subscriptions.no_duplicates() ==> after == SessionModel {
                    subscriptions: s.subscriptions.remove(s.subscriptions.index_of(subscription)),
                    ..s
                }
            } else {
                after == s && replies == seq![ResponseModel::Error("Already unsubscribed: "@ + rendered)]
            }
        }),
{
}

/// The live books that streams begin with are those of the listener, with their height and time.
pub proof fn law_live_books_are_the_listeners(listener: OrderBookListener)
    ensures
        match listener@.state {
            Some(st) => live_books(listener) matches Some(t) && t.books == st.books && t.height == st.height && t.time
                == st.time,
            None => live_books(listener) is None,
        },
{
}

} // verus!
