//! What a connection is told: the answers and the data of each stream.

use vstd::prelude::*;
use vstd::string::*;

use crate::book_updates::{updates_view, L4BookUpdates, UpdatesModel};
use crate::coin::{is_ignored, spot_symbol, symbols};
use crate::coin_map::CoinMap;
use crate::levels::{l2_entry, truncated, InnerLevel, L2Model, L2Snapshots, LevelsModel};
use crate::listener::{timed, OrderBookListener};
use crate::multi_book::book_or_empty;
use crate::order::InnerL4Order;
use crate::order_book::{BookModel, Sides, Snapshot};
use crate::rounding::L2SnapshotParams;
use crate::state::{TimedModel, TimedSnapshots};
use crate::subscription::{
    ClientMessage, ClientMessageModel, Subscription, SubscriptionModel, DEFAULT_LEVELS,
};
use crate::trades::{trade_lists_view, trades_view, Trade, TradeModel};

verus! {

/// A book summed up by price, as it is sent.
pub struct L2Book {
    pub coin: String,
    pub time: u64,
    pub height: u64,
    pub levels: Snapshot<InnerLevel>,
}

pub struct L2BookModel {
    pub coin: Seq<char>,
    pub time: u64,
    pub height: u64,
    pub levels: LevelsModel,
}

impl View for L2Book {
    type V = L2BookModel;

    open spec fn view(&self) -> L2BookModel {
        L2BookModel { coin: self.coin@, time: self.time, height: self.height, levels: self.levels@ }
    }
}

impl L2Book {
    pub fn from_l2_snapshot(coin: String, levels: Snapshot<InnerLevel>, time: u64, height: u64) -> (r: Self)
        ensures
            r@ == (L2BookModel { coin: coin@, time, height, levels: levels@ }),
    {
        L2Book { coin, time, height, levels }
    }
}

/// A book order by order, as it is sent: all of it, or what a block changed.
pub enum L4Book {
    Snapshot { coin: String, time: u64, height: u64, levels: Snapshot<InnerL4Order> },
    Updates(L4BookUpdates),
}

pub enum L4BookModel {
    Snapshot { coin: Seq<char>, time: u64, height: u64, levels: BookModel },
    Updates(UpdatesModel),
}

impl View for L4Book {
    type V = L4BookModel;

    open spec fn view(&self) -> L4BookModel {
        match *self {
            L4Book::Snapshot { coin, time, height, levels } => L4BookModel::Snapshot {
                coin: coin@,
                time,
                height,
                levels: levels@,
            },
            L4Book::Updates(u) => L4BookModel::Updates(u@),
        }
    }
}

/// What is sent to a client.
pub enum ServerResponse {
    SubscriptionResponse(ClientMessage),
    L2Book(L2Book),
    L4Book(L4Book),
    Trades { block_number: u64, fills: Vec<Trade> },
    Error(String),
}

pub enum ResponseModel {
    SubscriptionResponse(ClientMessageModel),
    L2Book(L2BookModel),
    L4Book(L4BookModel),
    Trades { block_number: u64, fills: Seq<TradeModel> },
    Error(Seq<char>),
}

impl View for ServerResponse {
    type V = ResponseModel;

    open spec fn view(&self) -> ResponseModel {
        match *self {
            ServerResponse::SubscriptionResponse(m) => ResponseModel::SubscriptionResponse(m@),
            ServerResponse::L2Book(b) => ResponseModel::L2Book(b@),
            ServerResponse::L4Book(b) => ResponseModel::L4Book(b@),
            ServerResponse::Trades { block_number, fills } => ResponseModel::Trades {
                block_number,
                fills: trades_view(fills@),
            },
            ServerResponse::Error(e) => ResponseModel::Error(e@),
        }
    }
}

pub open spec fn responses_view(s: Seq<ServerResponse>) -> Seq<ResponseModel> {
    Seq::new(s.len(), |i: int| s[i]@)
}

/// A response or none, by its contents.
pub open spec fn response_view(r: Option<ServerResponse>) -> Option<ResponseModel> {
    match r {
        Some(x) => Some(x@),
        None => None,
    }
}

/// All of a coin's book; a coin that has none gets an empty one.
pub open spec fn full_book(coin: Seq<char>, snapshot: TimedModel) -> ResponseModel {
    ResponseModel::L4Book(
        L4BookModel::Snapshot {
            coin,
            time: snapshot.time,
            height: snapshot.height,
            levels: book_or_empty(snapshot.books, coin),
        },
    )
}

/// All of a coin's book, as a response.
pub fn l4_snapshot_response(coin: &str, snapshot: &TimedSnapshots) -> (r: ServerResponse)
    requires
        snapshot.wf(),
    ensures
        r@ == full_book(coin@, snapshot@),
{
    let levels = match snapshot.snapshot.get(coin) {
        Some(book) => book.copy(),
        None => empty_orders(),
    };
    ServerResponse::L4Book(
        L4Book::Snapshot { coin: coin.to_owned(), time: snapshot.time, height: snapshot.height, levels },
    )
}

fn empty_orders() -> (r: Snapshot<InnerL4Order>)
    ensures
        r@ == (BookModel::empty()),
{
    let r = Snapshot { bids: Vec::new(), asks: Vec::new() };
    assert(r@.bids =~= Seq::empty());
    assert(r@.asks =~= Seq::empty());
    r
}

fn empty_levels() -> (r: Snapshot<InnerLevel>)
    ensures
        r@ == (LevelsModel::empty()),
{
    let r = Snapshot { bids: Vec::new(), asks: Vec::new() };
    assert(r@.bids =~= Seq::empty());
    assert(r@.asks =~= Seq::empty());
    r
}

/// The coins that a client can ask for: those that have a book, without the ignored ones.
pub open spec fn universe_of(l2_snapshots: L2Model, ignore_spot: bool) -> Set<Seq<char>> {
    Set::new(|c: Seq<char>| l2_snapshots.contains_key(c) && !is_ignored(c, ignore_spot))
}

/// The coins that a client can ask for.
pub fn new_universe(l2_snapshots: &L2Snapshots, ignore_spot: bool) -> (r: Vec<String>)
    requires
        l2_snapshots.wf(),
    ensures
        symbols(r@) == universe_of(l2_snapshots@, ignore_spot),
{
    let lists = l2_snapshots.as_ref();
    let ghost keys = lists.keys();
    proof {
        lists.lemma_keys();
    }
    let mut r: Vec<String> = Vec::new();
    let mut i: usize = 0;
    while i < lists.len()
        invariant
            i <= keys.len(),
            keys == lists.keys(),
            lists.wf(),
            forall|j: int| 0 <= j < keys.len() ==> lists@.contains_key(#[trigger] keys[j]),
            forall|j: int|
                0 <= j < r@.len() ==> lists@.contains_key(#[trigger] r@[j]@) && !is_ignored(
                    r@[j]@,
                    ignore_spot,
                ),
            forall|j: int|
                0 <= j < i && !is_ignored(#[trigger] keys[j], ignore_spot) ==> symbols(r@).contains(keys[j]),
        decreases keys.len() - i,
    {
        let coin = lists.key(i);
        if !(ignore_spot && spot_symbol(coin.as_str())) {
            let ghost before = r@;
            r.push(coin.clone());
            proof {
                assert(r@[before.len() as int]@ == keys[i as int]);
                assert forall|k: Seq<char>| symbols(before).contains(k) implies symbols(r@).contains(k) by {
                    let j = choose|j: int| 0 <= j < before.len() && #[trigger] before[j]@ == k;
                    assert(r@[j]@ == k);
                }
            }
        }
        i = i + 1;
    }
    proof {
        let wanted = universe_of(l2_snapshots@, ignore_spot);
        assert forall|k: Seq<char>| wanted.contains(k) implies #[trigger] symbols(r@).contains(k) by {
            assert(lists@.contains_key(k));
            assert(keys.contains(k));
            let j = keys.index_of(k);
            assert(keys[j] == k);
        }
        assert forall|k: Seq<char>| #[trigger] symbols(r@).contains(k) implies wanted.contains(k) by {
            let j = choose|j: int| 0 <= j < r@.len() && #[trigger] r@[j]@ == k;
            assert(lists@.contains_key(r@[j]@));
        }
        assert(symbols(r@) =~= wanted);
    }
    r
}

/// How many levels are sent.
pub open spec fn level_count(n_levels: Option<usize>) -> usize {
    match n_levels {
        Some(n) => n,
        None => DEFAULT_LEVELS,
    }
}

/// What a subscription gets of new aggregations: the first levels of the one it asks for.
pub open spec fn levels_response(
    subscription: SubscriptionModel,
    l2_snapshots: L2Model,
    time: u64,
    height: u64,
) -> Option<ResponseModel> {
    match subscription {
        SubscriptionModel::L2Book { coin, n_sig_figs, n_levels, mantissa } => {
            if !l2_snapshots.contains_key(coin) {
                None
            } else {
                match l2_entry(l2_snapshots[coin], L2SnapshotParams { n_sig_figs, mantissa }) {
                    Some(levels) => Some(
                        ResponseModel::L2Book(
                            L2BookModel {
                                coin,
                                time,
                                height,
                                levels: truncated(levels, level_count(n_levels)),
                            },
                        ),
                    ),
                    None => None,
                }
            }
        },
        _ => None,
    }
}

/// What a subscription gets of new aggregations.
pub fn ws_data_from_snapshot(
    subscription: &Subscription,
    l2_snapshots: &L2Snapshots,
    time: u64,
    height: u64,
) -> (r: Option<ServerResponse>)
    requires
        l2_snapshots.wf(),
    ensures
        response_view(r) == levels_response(subscription@, l2_snapshots@, time, height),
{
    if let Subscription::L2Book { coin, n_sig_figs, n_levels, mantissa } = subscription {
        if let Some(levels) = l2_snapshots.get(coin.as_str(), L2SnapshotParams::new(*n_sig_figs, *mantissa)) {
            let n: usize = match *n_levels {
                Some(n) => n,
                None => DEFAULT_LEVELS,
            };
            let book = L2Book::from_l2_snapshot(coin.clone(), levels.truncate(n), time, height);
            return Some(ServerResponse::L2Book(book));
        }
    }
    None
}

/// What a subscription gets when all books begin anew. Whoever has a book of a coin that is no
/// longer there gets an empty one.
pub open spec fn reset_response(
    subscription: SubscriptionModel,
    snapshot: TimedModel,
    l2_snapshots: L2Model,
    ignore_spot: bool,
) -> Option<ResponseModel> {
    match subscription {
        SubscriptionModel::L4Book { coin } => Some(full_book(coin, snapshot)),
        SubscriptionModel::L2Book { coin, .. } => if universe_of(l2_snapshots, ignore_spot).contains(coin) {
            levels_response(subscription, l2_snapshots, snapshot.time, snapshot.height)
        } else {
            Some(
                ResponseModel::L2Book(
                    L2BookModel {
                        coin,
                        time: snapshot.time,
                        height: snapshot.height,
                        levels: Sides::empty(),
                    },
                ),
            )
        },
        SubscriptionModel::Trades { coin } => None,
    }
}

/// What a subscription gets when all books begin anew.
pub fn ws_data_from_reset(
    subscription: &Subscription,
    snapshot: &TimedSnapshots,
    l2_snapshots: &L2Snapshots,
    ignore_spot: bool,
) -> (r: Option<ServerResponse>)
    requires
        snapshot.wf(),
        l2_snapshots.wf(),
    ensures
        response_view(r) == reset_response(subscription@, snapshot@, l2_snapshots@, ignore_spot),
{
    match subscription {
        Subscription::L4Book { coin } => Some(l4_snapshot_response(coin.as_str(), snapshot)),
        Subscription::L2Book { coin, .. } => {
            let ignored = ignore_spot && spot_symbol(coin.as_str());
            if l2_snapshots.as_ref().contains(coin.as_str()) && !ignored {
                ws_data_from_snapshot(subscription, l2_snapshots, snapshot.time, snapshot.height)
            } else {
                let book = L2Book::from_l2_snapshot(
                    coin.clone(),
                    empty_levels(),
                    snapshot.time,
                    snapshot.height,
                );
                Some(ServerResponse::L2Book(book))
            }
        },
        Subscription::Trades { .. } => None,
    }
}

/// What a subscription gets of a block's updates.
pub open spec fn updates_response(
    subscription: SubscriptionModel,
    updates: Map<Seq<char>, UpdatesModel>,
) -> Option<ResponseModel> {
    match subscription {
        SubscriptionModel::L4Book { coin } => if updates.contains_key(coin) {
            Some(ResponseModel::L4Book(L4BookModel::Updates(updates[coin])))
        } else {
            None
        },
        _ => None,
    }
}

/// What a subscription gets of a block's updates; they are taken out.
pub fn ws_data_from_book_updates(subscription: &Subscription, book_updates: &mut CoinMap<L4BookUpdates>) -> (r:
    Option<ServerResponse>)
    requires
        old(book_updates).wf(),
    ensures
        final(book_updates).wf(),
        response_view(r) == updates_response(subscription@, updates_view(old(book_updates)@)),
        updates_view(final(book_updates)@) == (match subscription@ {
            SubscriptionModel::L4Book { coin } => updates_view(old(book_updates)@).remove(coin),
            _ => updates_view(old(book_updates)@),
        }),
{
    if let Subscription::L4Book { coin } = subscription {
        let taken = book_updates.remove(coin.as_str());
        assert(updates_view(book_updates@) =~= updates_view(old(book_updates)@).remove(coin@));
        if let Some(updates) = taken {
            return Some(ServerResponse::L4Book(L4Book::Updates(updates)));
        }
    }
    None
}

/// What a subscription gets of a block's trades.
pub open spec fn trades_response(
    subscription: SubscriptionModel,
    trades: Map<Seq<char>, Seq<TradeModel>>,
    block_number: u64,
) -> Option<ResponseModel> {
    match subscription {
        SubscriptionModel::Trades { coin } => if trades.contains_key(coin) {
            Some(ResponseModel::Trades { block_number, fills: trades[coin] })
        } else {
            None
        },
        _ => None,
    }
}

/// What a subscription gets of a block's trades; they are taken out.
pub fn ws_data_from_trades(
    subscription: &Subscription,
    trades: &mut CoinMap<Vec<Trade>>,
    block_number: u64,
) -> (r: Option<ServerResponse>)
    requires
        old(trades).wf(),
    ensures
        final(trades).wf(),
        response_view(r) == trades_response(subscription@, trade_lists_view(old(trades)@), block_number),
        trade_lists_view(final(trades)@) == (match subscription@ {
            SubscriptionModel::Trades { coin } => trade_lists_view(old(trades)@).remove(coin),
            _ => trade_lists_view(old(trades)@),
        }),
{
    if let Subscription::Trades { coin } = subscription {
        let taken = trades.remove(coin.as_str());
        assert(trade_lists_view(trades@) =~= trade_lists_view(old(trades)@).remove(coin@));
        if let Some(fills) = taken {
            return Some(ServerResponse::Trades { block_number, fills });
        }
    }
    None
}

/// There was no book to begin a stream with.
#[derive(Debug, Clone, Copy, PartialEq, Eq, Structural)]
pub struct SnapshotFailed;

impl SnapshotFailed {
    /// The error in words.
    pub fn message(&self) -> (r: String)
        ensures
            r@ == "Snapshot Failed"@,
    {
        "Snapshot Failed".to_owned()
    }
}

/// What a stream begins with: one that goes order by order with all of the coin's book, which
/// must be there, and the others with nothing.
pub open spec fn immediate_snapshot(subscription: SubscriptionModel, live: Option<TimedModel>) -> Result<
    Option<ResponseModel>,
    SnapshotFailed,
> {
    match subscription {
        SubscriptionModel::L4Book { coin } => if live is Some && live->0.books.contains_key(coin) {
            Ok(Some(full_book(coin, live->0)))
        } else {
            Err(SnapshotFailed)
        },
        _ => Ok(None),
    }
}

/// The live books of a listener with their block and time.
pub open spec fn live_books(listener: OrderBookListener) -> Option<TimedModel> {
    match listener@.state {
        Some(st) => Some(timed(st)),
        None => None,
    }
}

impl Subscription {
    /// What a stream begins with.
    pub fn handle_immediate_snapshot(&self, listener: &OrderBookListener) -> (r: Result<
        Option<ServerResponse>,
        SnapshotFailed,
    >)
        requires
            listener.wf(),
        ensures
            match r {
                Ok(x) => immediate_snapshot(self@, live_books(*listener)) == Ok::<_, SnapshotFailed>(
                    response_view(x),
                ),
                Err(e) => immediate_snapshot(self@, live_books(*listener)) == Err::<
                    Option<ResponseModel>,
                    _,
                >(e),
            },
    {
        if let Subscription::L4Book { coin } = self {
            if let Some(snapshot) = listener.compute_snapshot() {
                if snapshot.snapshot.get(coin.as_str()).is_some() {
                    return Ok(Some(l4_snapshot_response(coin.as_str(), &snapshot)));
                }
            }
            return Err(SnapshotFailed);
        }
        Ok(None)
    }
}

} // verus!
