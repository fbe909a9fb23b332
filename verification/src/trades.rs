//! Pairing the two sides of each trade.

use vstd::prelude::*;
use vstd::string::*;

use crate::coin::{contains_symbol, is_outcome_symbol, outcome_symbol, symbols};
use crate::coin_map::CoinMap;
use crate::node_data::{Batch, NodeDataFill};
use crate::order::{Address, Side};

verus! {

/// A trade: what both sides share, which side crossed the book, and who bought and who sold.
#[derive(Debug)]
pub struct Trade {
    pub coin: String,
    pub side: Side,
    pub px: String,
    pub sz: String,
    pub hash: String,
    pub time: u64,
    pub tid: u64,
    pub users: [Address; 2],
}

#[verifier::ext_equal]
pub struct TradeModel {
    pub coin: Seq<char>,
    pub side: Side,
    pub px: Seq<char>,
    pub sz: Seq<char>,
    pub hash: Seq<char>,
    pub time: u64,
    pub tid: u64,
    pub users: Seq<Address>,
}

impl View for Trade {
    type V = TradeModel;

    open spec fn view(&self) -> TradeModel {
        TradeModel {
            coin: self.coin@,
            side: self.side,
            px: self.px@,
            sz: self.sz@,
            hash: self.hash@,
            time: self.time,
            tid: self.tid,
            users: self.users@,
        }
    }
}

pub open spec fn trades_view(s: Seq<Trade>) -> Seq<TradeModel> {
    Seq::new(s.len(), |i: int| s[i]@)
}

/// The trade that the fill of the seller and that of the buyer make up. The side is that of
/// the taker: the seller's if the seller's order crossed the book, else the buyer's.
pub open spec fn trade_of(ask: NodeDataFill, bid: NodeDataFill) -> TradeModel {
    TradeModel {
        coin: ask.1.coin@,
        side: if ask.1.crossed {
            Side::Ask
        } else {
            Side::Bid
        },
        px: ask.1.px@,
        sz: ask.1.sz@,
        hash: ask.1.hash@,
        time: ask.1.time,
        tid: ask.1.tid,
        users: seq![bid.0, ask.0],
    }
}

/// The trade that fills make up: there is one if they are two, on different sides.
pub open spec fn trade_from(fills: Seq<NodeDataFill>) -> Option<TradeModel> {
    if fills.len() != 2 || fills[0].1.side == fills[1].1.side {
        None
    } else if fills[0].1.side == Side::Ask {
        Some(trade_of(fills[0], fills[1]))
    } else {
        Some(trade_of(fills[1], fills[0]))
    }
}

fn make_trade(ask: &NodeDataFill, bid: &NodeDataFill) -> (r: Trade)
    ensures
        r@ == trade_of(*ask, *bid),
{
    let side = if ask.1.crossed {
        Side::Ask
    } else {
        Side::Bid
    };
    let r = Trade {
        coin: ask.1.coin.clone(),
        side,
        px: ask.1.px.clone(),
        sz: ask.1.sz.clone(),
        hash: ask.1.hash.clone(),
        time: ask.1.time,
        tid: ask.1.tid,
        users: [bid.0, ask.0],
    };
    assert(r@.users =~= seq![bid.0, ask.0]);
    r
}

impl Trade {
    /// The trade that fills make up, if they are the two sides of one.
    pub fn from_fills(fills: &Vec<NodeDataFill>) -> (r: Option<Trade>)
        ensures
            match r {
                Some(t) => trade_from(fills@) == Some(t@),
                None => trade_from(fills@) is None,
            },
    {
        if fills.len() != 2 {
            return None;
        }
        match (fills[0].1.side, fills[1].1.side) {
            (Side::Ask, Side::Bid) => Some(make_trade(&fills[0], &fills[1])),
            (Side::Bid, Side::Ask) => Some(make_trade(&fills[1], &fills[0])),
            _ => None,
        }
    }
}

/// What the two sides of a trade have in common and no other fill of the block has.
pub type TradeKey = (Seq<char>, u64);

pub open spec fn trade_key(f: NodeDataFill) -> TradeKey {
    (f.1.coin@, f.1.tid)
}

/// Whether a fill counts: its coin is asked for and is no outcome market.
pub open spec fn is_wanted(f: NodeDataFill, coins: Set<Seq<char>>) -> bool {
    !is_outcome_symbol(f.1.coin@) && coins.contains(f.1.coin@)
}

/// The fills that count, in order.
pub open spec fn wanted(fills: Seq<NodeDataFill>, coins: Set<Seq<char>>) -> Seq<NodeDataFill>
    decreases fills.len(),
{
    if fills.len() == 0 {
        Seq::empty()
    } else if is_wanted(fills.last(), coins) {
        wanted(fills.drop_last(), coins).push(fills.last())
    } else {
        wanted(fills.drop_last(), coins)
    }
}

/// The trades that fills belong to, in the order in which each is first seen.
pub open spec fn trade_keys(fills: Seq<NodeDataFill>) -> Seq<TradeKey>
    decreases fills.len(),
{
    if fills.len() == 0 {
        Seq::empty()
    } else {
        let before = trade_keys(fills.drop_last());
        if before.contains(trade_key(fills.last())) {
            before
        } else {
            before.push(trade_key(fills.last()))
        }
    }
}

/// The fills of one trade, in order.
pub open spec fn fills_of(fills: Seq<NodeDataFill>, key: TradeKey) -> Seq<NodeDataFill>
    decreases fills.len(),
{
    if fills.len() == 0 {
        Seq::empty()
    } else if trade_key(fills.last()) == key {
        fills_of(fills.drop_last(), key).push(fills.last())
    } else {
        fills_of(fills.drop_last(), key)
    }
}

/// The trades of a coin among some keys, in their order. A key whose fills are not the two
/// sides of a trade gives none.
pub open spec fn listed_trades(fills: Seq<NodeDataFill>, keys: Seq<TradeKey>, coin: Seq<char>) -> Seq<
    TradeModel,
>
    decreases keys.len(),
{
    if keys.len() == 0 {
        Seq::empty()
    } else {
        let before = listed_trades(fills, keys.drop_last(), coin);
        match trade_from(fills_of(fills, keys.last())) {
            Some(t) => if keys.last().0 == coin {
                before.push(t)
            } else {
                before
            },
            None => before,
        }
    }
}

/// The trades of a coin in a block, in the order in which each is first seen.
pub open spec fn coin_trades(fills: Seq<NodeDataFill>, coins: Set<Seq<char>>, coin: Seq<char>) -> Seq<
    TradeModel,
> {
    let w = wanted(fills, coins);
    listed_trades(w, trade_keys(w), coin)
}

/// The trades of a block by coin; coins without any are not there.
pub open spec fn trades_by_coin(fills: Seq<NodeDataFill>, coins: Set<Seq<char>>) -> Map<
    Seq<char>,
    Seq<TradeModel>,
> {
    Map::new(
        |c: Seq<char>| coin_trades(fills, coins, c).len() > 0,
        |c: Seq<char>| coin_trades(fills, coins, c),
    )
}

/// The values of a map of lists of trades by their contents.
pub open spec fn trade_lists_view(m: Map<Seq<char>, Vec<Trade>>) -> Map<Seq<char>, Seq<TradeModel>> {
    Map::new(|c: Seq<char>| m.contains_key(c), |c: Seq<char>| trades_view(m[c]@))
}

/// Every fill of a group has the group's key, and a group with a key of the list is not empty.
proof fn lemma_fills_of(fills: Seq<NodeDataFill>, key: TradeKey)
    ensures
        forall|i: int|
            0 <= i < fills_of(fills, key).len() ==> trade_key(#[trigger] fills_of(fills, key)[i]) == key,
        trade_keys(fills).contains(key) <==> fills_of(fills, key).len() > 0,
    decreases fills.len(),
{
    if fills.len() > 0 {
        let t = fills.drop_last();
        let last = trade_key(fills.last());
        lemma_fills_of(t, key);
        let before = trade_keys(t);
        if !before.contains(last) {
            let now = before.push(last);
            assert(now[before.len() as int] == last);
            if before.contains(key) {
                let i = before.index_of(key);
                assert(now[i] == key);
            }
            if now.contains(key) && key != last {
                let i = now.index_of(key);
                assert(before[i] == key);
            }
        }
    }
}

/// The keys are distinct.
proof fn lemma_trade_keys(fills: Seq<NodeDataFill>)
    ensures
        trade_keys(fills).no_duplicates(),
    decreases fills.len(),
{
    if fills.len() > 0 {
        lemma_trade_keys(fills.drop_last());
    }
}

/// One more fill changes one group: that of its key.
proof fn lemma_groups_step(fills: Seq<NodeDataFill>, f: NodeDataFill)
    ensures
        ({
            let more = fills.push(f);
            let key = trade_key(f);
            &&& fills_of(more, key) == fills_of(fills, key).push(f)
            &&& forall|k: TradeKey| k != key ==> #[trigger] fills_of(more, k) == fills_of(fills, k)
            &&& trade_keys(more) == (if trade_keys(fills).contains(key) {
                trade_keys(fills)
            } else {
                trade_keys(fills).push(key)
            })
        }),
{
    let more = fills.push(f);
    assert(more.drop_last() =~= fills);
    assert(more.last() == f);
}

/// The fills collected so far, one group to a trade.
spec fn grouped_by_trade(groups: Seq<Vec<NodeDataFill>>, fills: Seq<NodeDataFill>) -> bool {
    let keys = trade_keys(fills);
    &&& groups.len() == keys.len()
    &&& forall|i: int| 0 <= i < groups.len() ==> (#[trigger] groups[i])@ == fills_of(fills, keys[i])
}

fn find_group(groups: &Vec<Vec<NodeDataFill>>, fill: &NodeDataFill, fills: Ghost<Seq<NodeDataFill>>) -> (r: Option<
    usize,
>)
    requires
        grouped_by_trade(groups@, fills@),
    ensures
        match r {
            Some(i) => i < groups@.len() && trade_keys(fills@)[i as int] == trade_key(*fill),
            None => !trade_keys(fills@).contains(trade_key(*fill)),
        },
{
    let ghost keys = trade_keys(fills@);
    let mut i: usize = 0;
    while i < groups.len()
        invariant
            i <= groups@.len(),
            keys == trade_keys(fills@),
            grouped_by_trade(groups@, fills@),
            forall|j: int| 0 <= j < i ==> keys[j] != trade_key(*fill),
        decreases groups@.len() - i,
    {
        proof {
            lemma_fills_of(fills@, keys[i as int]);
            assert(keys.contains(keys[i as int]));
            assert(groups@[i as int]@ == fills_of(fills@, keys[i as int]));
            assert(trade_key(fills_of(fills@, keys[i as int])[0]) == keys[i as int]);
        }
        let first = &groups[i][0];
        if first.1.tid == fill.1.tid && first.1.coin == fill.1.coin {
            return Some(i);
        }
        i = i + 1;
    }
    None
}

/// Groups the fills that count by the trade they belong to, in the order in which each trade is
/// first seen. The two sides of a trade need not be adjacent.
fn group_fills(events: &Vec<NodeDataFill>, coins: &Vec<String>) -> (r: Vec<Vec<NodeDataFill>>)
    ensures
        grouped_by_trade(r@, wanted(events@, symbols(coins@))),
{
    let ghost set = symbols(coins@);
    let mut groups: Vec<Vec<NodeDataFill>> = Vec::new();
    let mut i: usize = 0;
    while i < events.len()
        invariant
            i <= events@.len(),
            set == symbols(coins@),
            grouped_by_trade(groups@, wanted(events@.take(i as int), set)),
        decreases events@.len() - i,
    {
        let fill = &events[i];
        let ghost seen = wanted(events@.take(i as int), set);
        assert(events@.take(i + 1).drop_last() =~= events@.take(i as int));
        if !outcome_symbol(fill.1.coin.as_str()) && contains_symbol(coins, fill.1.coin.as_str()) {
            proof {
                lemma_groups_step(seen, *fill);
            }
            let ghost before = groups@;
            let ghost keys = trade_keys(seen);
            match find_group(&groups, fill, Ghost(seen)) {
                Some(g) => {
                    let copy = fill.clone();
                    groups[g].push(copy);
                    proof {
                        lemma_trade_keys(seen);
                        assert(keys.contains(keys[g as int]));
                        assert forall|j: int| 0 <= j < groups@.len() implies (#[trigger] groups@[j])@ == fills_of(
                            seen.push(*fill),
                            trade_keys(seen.push(*fill))[j],
                        ) by {
                            if j != g {
                                assert(groups@[j] == before[j]);
                                assert(keys[j] != keys[g as int]);
                            }
                        }
                    }
                },
                None => {
                    let mut group: Vec<NodeDataFill> = Vec::new();
                    group.push(fill.clone());
                    groups.push(group);
                    proof {
                        lemma_fills_of(seen, trade_key(*fill));
                        assert(fills_of(seen, trade_key(*fill)) =~= Seq::empty());
                        assert forall|j: int| 0 <= j < groups@.len() implies (#[trigger] groups@[j])@ == fills_of(
                            seen.push(*fill),
                            trade_keys(seen.push(*fill))[j],
                        ) by {
                            if j < before.len() {
                                assert(groups@[j] == before[j]);
                                assert(keys[j] != trade_key(*fill));
                            } else {
                                assert(groups@[j]@ =~= Seq::empty().push(*fill));
                            }
                        }
                    }
                },
            }
        }
        i = i + 1;
    }
    assert(events@.take(i as int) =~= events@);
    groups
}

/// The trades of a block by coin: of the coins that are asked for, outcome markets left out.
/// Trades come in the order in which each is first seen; fills that are not the two sides of a
/// trade are passed over.
pub fn coin_to_trades(batch: &Batch<NodeDataFill>, coins: &Vec<String>) -> (r: CoinMap<Vec<Trade>>)
    ensures
        r.wf(),
        trade_lists_view(r@) == trades_by_coin(batch@.events, symbols(coins@)),
{
    let groups = group_fills(&batch.events, coins);
    let ghost fills = wanted(batch.events@, symbols(coins@));
    let ghost keys = trade_keys(fills);
    let mut trades: CoinMap<Vec<Trade>> = CoinMap::new();
    let mut i: usize = 0;
    while i < groups.len()
        invariant
            i <= groups@.len(),
            trades.wf(),
            keys == trade_keys(fills),
            grouped_by_trade(groups@, fills),
            forall|c: Seq<char>| #[trigger]
                trades@.contains_key(c) <==> listed_trades(fills, keys.take(i as int), c).len() > 0,
            forall|c: Seq<char>| #[trigger]
                trades@.contains_key(c) ==> trades_view(trades@[c]@) == listed_trades(
                    fills,
                    keys.take(i as int),
                    c,
                ),
        decreases groups@.len() - i,
    {
        let ghost key = keys[i as int];
        let ghost before = trades@;
        proof {
            assert(keys.take(i + 1).drop_last() =~= keys.take(i as int));
            assert(keys.take(i + 1).last() == key);
            lemma_fills_of(fills, key);
            assert(groups@[i as int]@ == fills_of(fills, key));
        }
        if let Some(trade) = Trade::from_fills(&groups[i]) {
            let ghost t = trade@;
            proof {
                let g = fills_of(fills, key);
                assert(trade_key(g[0]) == key);
                assert(trade_key(g[1]) == key);
                assert(t.coin == key.0);
            }
            let coin = trade.coin.clone();
            match trades.position(coin.as_str()) {
                Some(p) => {
                    let list = trades.value_mut(p);
                    let ghost old_list = list@;
                    list.push(trade);
                    assert(trades_view(old_list.push(trade)) =~= trades_view(old_list).push(t));
                },
                None => {
                    let mut list: Vec<Trade> = Vec::new();
                    list.push(trade);
                    trades.insert(coin, list);
                    assert(!before.contains_key(key.0));
                    assert(listed_trades(fills, keys.take(i as int), key.0) =~= Seq::empty());
                    assert(trades_view(list@) =~= Seq::empty().push(t));
                },
            }
            assert forall|c: Seq<char>| #[trigger]
                trades@.contains_key(c) <==> listed_trades(fills, keys.take(i + 1), c).len() > 0 by {
                assert(before.contains_key(c) <==> listed_trades(fills, keys.take(i as int), c).len() > 0);
            }
            assert forall|c: Seq<char>| #[trigger] trades@.contains_key(c) implies trades_view(trades@[c]@)
                == listed_trades(fills, keys.take(i + 1), c) by {
                if c != key.0 {
                    assert(before.contains_key(c));
                }
            }
        } else {
            assert forall|c: Seq<char>| #[trigger]
                trades@.contains_key(c) <==> listed_trades(fills, keys.take(i + 1), c).len() > 0 by {
                assert(before.contains_key(c) <==> listed_trades(fills, keys.take(i as int), c).len() > 0);
            }
        }
        i = i + 1;
    }
    proof {
        assert(keys.take(i as int) =~= keys);
        assert forall|c: Seq<char>| #[trigger]
            trade_lists_view(trades@).contains_key(c) <==> trades_by_coin(
                batch@.events,
                symbols(coins@),
            ).contains_key(c) by {
            assert(trades@.contains_key(c) <==> listed_trades(fills, keys, c).len() > 0);
        }
        assert(trade_lists_view(trades@) =~= trades_by_coin(batch@.events, symbols(coins@)));
    }
    trades
}

proof fn lemma_wanted(fills: Seq<NodeDataFill>, coins: Set<Seq<char>>)
    ensures
        forall|i: int|
            0 <= i < wanted(fills, coins).len() ==> is_wanted(#[trigger] wanted(fills, coins)[i], coins),
    decreases fills.len(),
{
    if fills.len() > 0 {
        let before = wanted(fills.drop_last(), coins);
        lemma_wanted(fills.drop_last(), coins);
        assert forall|i: int| 0 <= i < wanted(fills, coins).len() implies is_wanted(
            #[trigger] wanted(fills, coins)[i],
            coins,
        ) by {
            if i < before.len() {
                assert(wanted(fills, coins)[i] == before[i]);
            }
        }
    }
}

/// What the list of a coin's trades holds: the trades of some of the keys, in their order.
proof fn lemma_listed(fills: Seq<NodeDataFill>, keys: Seq<TradeKey>, coin: Seq<char>)
    requires
        keys.no_duplicates(),
    ensures
        ({
            let ts = listed_trades(fills, keys, coin);
            &&& forall|i: int|
                0 <= i < ts.len() ==> keys.contains((coin, (#[trigger] ts[i]).tid)) && trade_from(
                    fills_of(fills, (coin, ts[i].tid)),
                ) == Some(ts[i])
            &&& forall|i: int, j: int|
                0 <= i < j < ts.len() ==> keys.index_of((coin, (#[trigger] ts[i]).tid)) < keys.index_of(
                    (coin, (#[trigger] ts[j]).tid),
                )
            &&& forall|k: int|
                0 <= k < keys.len() && (#[trigger] keys[k]).0 == coin && trade_from(
                    fills_of(fills, keys[k]),
                ) is Some ==> ts.contains(trade_from(fills_of(fills, keys[k]))->0)
        }),
    decreases keys.len(),
{
    if keys.len() > 0 {
        let rest = keys.drop_last();
        let n = rest.len() as int;
        assert(rest.no_duplicates()) by {
            assert forall|a: int, b: int| 0 <= a < n && 0 <= b < n && a != b implies rest[a] != rest[b] by {
                assert(keys[a] != keys[b]);
            }
        }
        lemma_listed(fills, rest, coin);
        let before = listed_trades(fills, rest, coin);
        let ts = listed_trades(fills, keys, coin);
        let last = keys.last();
        lemma_fills_of(fills, last);
        if let Some(t) = trade_from(fills_of(fills, last)) {
            let g = fills_of(fills, last);
            assert(trade_key(g[0]) == last && trade_key(g[1]) == last);
            assert(t.tid == last.1 && t.coin == last.0);
        }
        assert forall|x: TradeKey| rest.contains(x) implies #[trigger] keys.contains(x) && keys.index_of(x)
            == rest.index_of(x) && 0 <= rest.index_of(x) < n by {
            let a = rest.index_of(x);
            assert(keys[a] == x);
            assert(keys.contains(x));
            let b = keys.index_of(x);
            assert(keys[a] == keys[b]);
        }
        assert(keys[n] == last);
        assert(keys.contains(last) && keys.index_of(last) == n);
        assert forall|i: int| 0 <= i < ts.len() implies keys.contains((coin, (#[trigger] ts[i]).tid))
            && trade_from(fills_of(fills, (coin, ts[i].tid))) == Some(ts[i]) by {
            if i < before.len() {
                assert(ts[i] == before[i]);
            }
        }
        assert forall|i: int, j: int| 0 <= i < j < ts.len() implies keys.index_of(
            (coin, (#[trigger] ts[i]).tid),
        ) < keys.index_of((coin, (#[trigger] ts[j]).tid)) by {
            assert(ts[i] == before[i]);
            assert(rest.contains((coin, before[i].tid)));
            if j < before.len() {
                assert(ts[j] == before[j]);
                assert(rest.contains((coin, before[j].tid)));
            }
        }
        assert forall|k: int|
            0 <= k < keys.len() && (#[trigger] keys[k]).0 == coin && trade_from(
                fills_of(fills, keys[k]),
            ) is Some implies ts.contains(trade_from(fills_of(fills, keys[k]))->0) by {
            if k < n {
                assert(rest[k] == keys[k]);
                let t = trade_from(fills_of(fills, keys[k]))->0;
                assert(before.contains(t));
                let i = before.index_of(t);
                assert(ts[i] == t);
            } else {
                assert(ts[ts.len() - 1] == trade_from(fills_of(fills, keys[k]))->0);
            }
        }
    }
}

/// Two fills on different sides that are all the block has of a trade make up a trade of their
/// coin, wherever they stand in the block and whatever else is in it; and there are no others.
pub proof fn law_trades_are_the_paired_fills(
    fills: Seq<NodeDataFill>,
    coins: Set<Seq<char>>,
    coin: Seq<char>,
)
    ensures
        ({
            let w = wanted(fills, coins);
            let ts = coin_trades(fills, coins, coin);
            &&& forall|i: int|
                0 <= i < ts.len() ==> trade_from(fills_of(w, (coin, (#[trigger] ts[i]).tid))) == Some(ts[i])
            &&& forall|tid: u64|
                trade_from(#[trigger] fills_of(w, (coin, tid))) is Some ==> ts.contains(
                    trade_from(fills_of(w, (coin, tid)))->0,
                )
        }),
{
    let w = wanted(fills, coins);
    let keys = trade_keys(w);
    lemma_trade_keys(w);
    lemma_listed(w, keys, coin);
    let ts = coin_trades(fills, coins, coin);
    assert forall|tid: u64|
        trade_from(#[trigger] fills_of(w, (coin, tid))) is Some implies ts.contains(
        trade_from(fills_of(w, (coin, tid)))->0,
    ) by {
        lemma_fills_of(w, (coin, tid));
        let k = keys.index_of((coin, tid));
        assert(keys[k] == (coin, tid));
    }
}

/// A coin's trades come in the order in which a fill of each is first seen.
pub proof fn law_trades_keep_first_seen_order(
    fills: Seq<NodeDataFill>,
    coins: Set<Seq<char>>,
    coin: Seq<char>,
)
    ensures
        ({
            let keys = trade_keys(wanted(fills, coins));
            let ts = coin_trades(fills, coins, coin);
            forall|i: int, j: int|
                0 <= i < j < ts.len() ==> keys.index_of((coin, (#[trigger] ts[i]).tid)) < keys.index_of(
                    (coin, (#[trigger] ts[j]).tid),
                )
        }),
{
    lemma_trade_keys(wanted(fills, coins));
    lemma_listed(wanted(fills, coins), trade_keys(wanted(fills, coins)), coin);
}

/// Only coins that are asked for and are no outcome markets have trades.
pub proof fn law_only_wanted_coins_trade(fills: Seq<NodeDataFill>, coins: Set<Seq<char>>, coin: Seq<char>)
    ensures
        trades_by_coin(fills, coins).contains_key(coin) ==> coins.contains(coin) && !is_outcome_symbol(coin),
{
    let w = wanted(fills, coins);
    let ts = coin_trades(fills, coins, coin);
    if ts.len() > 0 {
        lemma_wanted(fills, coins);
        law_trades_are_the_paired_fills(fills, coins, coin);
        let key = (coin, ts[0].tid);
        lemma_fills_of(w, key);
        let g = fills_of(w, key);
        assert(trade_key(g[0]) == key);
        lemma_part_of(w, key);
        assert(w.contains(g[0]));
    }
}

proof fn lemma_part_of(fills: Seq<NodeDataFill>, key: TradeKey)
    ensures
        forall|i: int| 0 <= i < fills_of(fills, key).len() ==> fills.contains(#[trigger] fills_of(fills, key)[i]),
    decreases fills.len(),
{
    if fills.len() > 0 {
        let t = fills.drop_last();
        lemma_part_of(t, key);
        assert forall|i: int| 0 <= i < fills_of(fills, key).len() implies fills.contains(
            #[trigger] fills_of(fills, key)[i],
        ) by {
            let f = fills_of(fills, key)[i];
            if i < fills_of(t, key).len() {
                assert(f == fills_of(t, key)[i]);
                let a = t.index_of(f);
                assert(fills[a] == f);
            } else {
                assert(fills[fills.len() - 1] == f);
            }
        }
    }
}

/// The keys of one coin, in order.
spec fn keys_on(keys: Seq<TradeKey>, coin: Seq<char>) -> Seq<TradeKey>
    decreases keys.len(),
{
    if keys.len() == 0 {
        Seq::empty()
    } else if keys.last().0 == coin {
        keys_on(keys.drop_last(), coin).push(keys.last())
    } else {
        keys_on(keys.drop_last(), coin)
    }
}

proof fn lemma_keys_on(keys: Seq<TradeKey>, coin: Seq<char>)
    ensures
        forall|t: u64| #[trigger] keys_on(keys, coin).contains((coin, t)) <==> keys.contains((coin, t)),
    decreases keys.len(),
{
    if keys.len() > 0 {
        let rest = keys.drop_last();
        lemma_keys_on(rest, coin);
        let a = keys_on(rest, coin);
        let b = keys_on(keys, coin);
        assert forall|t: u64| #[trigger] b.contains((coin, t)) <==> keys.contains((coin, t)) by {
            let x = (coin, t);
            assert(a.contains(x) <==> rest.contains(x));
            if b.contains(x) {
                let i = b.index_of(x);
                if i < a.len() {
                    assert(a[i] == x);
                    let j = rest.index_of(x);
                    assert(keys[j] == x);
                } else {
                    assert(keys[keys.len() - 1] == x);
                }
            }
            if keys.contains(x) {
                let j = keys.index_of(x);
                if j < rest.len() {
                    assert(rest[j] == x);
                    let i = a.index_of(x);
                    assert(b[i] == x);
                } else {
                    assert(b[b.len() - 1] == x);
                }
            }
        }
    }
}

proof fn lemma_listed_on(fills: Seq<NodeDataFill>, keys: Seq<TradeKey>, coin: Seq<char>)
    ensures
        listed_trades(fills, keys, coin) == listed_trades(fills, keys_on(keys, coin), coin),
    decreases keys.len(),
{
    if keys.len() > 0 {
        lemma_listed_on(fills, keys.drop_last(), coin);
        if keys.last().0 == coin {
            assert(keys_on(keys, coin).drop_last() =~= keys_on(keys.drop_last(), coin));
        }
    }
}

proof fn lemma_narrowed(fills: Seq<NodeDataFill>, coins: Set<Seq<char>>, coin: Seq<char>)
    requires
        coins.contains(coin),
    ensures
        ({
            let w = wanted(fills, coins);
            let n = wanted(fills, set![coin]);
            &&& keys_on(trade_keys(w), coin) == trade_keys(n)
            &&& forall|t: u64| #[trigger] fills_of(w, (coin, t)) == fills_of(n, (coin, t))
        }),
    decreases fills.len(),
{
    if fills.len() > 0 {
        let rest = fills.drop_last();
        let f = fills.last();
        lemma_narrowed(rest, coins, coin);
        let w = wanted(rest, coins);
        let n = wanted(rest, set![coin]);
        if is_wanted(f, coins) {
            lemma_groups_step(w, f);
            lemma_keys_on(trade_keys(w), coin);
            if f.1.coin@ == coin {
                lemma_groups_step(n, f);
                assert(trade_key(f) == (coin, f.1.tid));
                assert(trade_keys(n).contains((coin, f.1.tid)) <==> trade_keys(w).contains((coin, f.1.tid)));
                if !trade_keys(w).contains(trade_key(f)) {
                    assert(trade_keys(w.push(f)).drop_last() =~= trade_keys(w));
                }
                assert forall|t: u64| #[trigger] fills_of(w.push(f), (coin, t)) == fills_of(n.push(f), (coin, t)) by {
                    assert(fills_of(w, (coin, t)) == fills_of(n, (coin, t)));
                }
            } else {
                if !trade_keys(w).contains(trade_key(f)) {
                    assert(trade_keys(w.push(f)).drop_last() =~= trade_keys(w));
                }
            }
        }
    }
}

proof fn lemma_same_fills(a: Seq<NodeDataFill>, b: Seq<NodeDataFill>, keys: Seq<TradeKey>, coin: Seq<char>)
    requires
        forall|t: u64| #[trigger] fills_of(a, (coin, t)) == fills_of(b, (coin, t)),
    ensures
        listed_trades(a, keys_on(keys, coin), coin) == listed_trades(b, keys_on(keys, coin), coin),
    decreases keys.len(),
{
    if keys.len() > 0 {
        lemma_same_fills(a, b, keys.drop_last(), coin);
        if keys.last().0 == coin {
            assert(keys_on(keys, coin).drop_last() =~= keys_on(keys.drop_last(), coin));
            assert(fills_of(a, (coin, keys.last().1)) == fills_of(b, (coin, keys.last().1)));
        }
    }
}

proof fn lemma_only_one_coin(fills: Seq<NodeDataFill>, coins: Set<Seq<char>>, coin: Seq<char>)
    requires
        coins.contains(coin),
    ensures
        coin_trades(fills, coins, coin) == coin_trades(fills, set![coin], coin),
{
    let w = wanted(fills, coins);
    let n = wanted(fills, set![coin]);
    lemma_narrowed(fills, coins, coin);
    lemma_listed_on(w, trade_keys(w), coin);
    lemma_same_fills(w, n, trade_keys(w), coin);
}

/// The fills of one coin, in order.
pub open spec fn fills_on(fills: Seq<NodeDataFill>, coin: Seq<char>) -> Seq<NodeDataFill>
    decreases fills.len(),
{
    if fills.len() == 0 {
        Seq::empty()
    } else if fills.last().1.coin@ == coin {
        fills_on(fills.drop_last(), coin).push(fills.last())
    } else {
        fills_on(fills.drop_last(), coin)
    }
}

proof fn lemma_wanted_of_one(fills: Seq<NodeDataFill>, coin: Seq<char>)
    ensures
        wanted(fills, set![coin]) == (if is_outcome_symbol(coin) {
            Seq::empty()
        } else {
            fills_on(fills, coin)
        }),
    decreases fills.len(),
{
    if fills.len() > 0 {
        lemma_wanted_of_one(fills.drop_last(), coin);
    }
}

/// What a subscriber gets of a coin depends on the fills of that coin alone: two blocks with the
/// same fills of it, whatever else they hold and whatever else is asked for, give the same trades
/// of it.
pub proof fn law_trades_depend_on_the_coins_fills_alone(
    a: Seq<NodeDataFill>,
    b: Seq<NodeDataFill>,
    s: Set<Seq<char>>,
    t: Set<Seq<char>>,
    coin: Seq<char>,
)
    requires
        s.contains(coin),
        t.contains(coin),
        fills_on(a, coin) == fills_on(b, coin),
    ensures
        coin_trades(a, s, coin) == coin_trades(b, t, coin),
        trades_by_coin(a, s).contains_key(coin) <==> trades_by_coin(b, t).contains_key(coin),
        trades_by_coin(a, s).contains_key(coin) ==> trades_by_coin(a, s)[coin] == trades_by_coin(b, t)[coin],
{
    lemma_only_one_coin(a, s, coin);
    lemma_only_one_coin(b, t, coin);
    lemma_wanted_of_one(a, coin);
    lemma_wanted_of_one(b, coin);
}

/// Whether a trade is that of a seller's and a buyer's fill: the buyer is named first and the seller
/// second, the side is the seller's exactly if the seller's order crossed the book, and the rest is
/// what the seller's fill says.
pub open spec fn is_trade_of(t: TradeModel, ask: NodeDataFill, bid: NodeDataFill) -> bool {
    &&& t.users.len() == 2
    &&& t.users[0] == bid.0
    &&& t.users[1] == ask.0
    &&& t.side == Side::Ask <==> ask.1.crossed
    &&& t.coin == ask.1.coin@
    &&& t.tid == ask.1.tid
    &&& t.px == ask.1.px@
    &&& t.sz == ask.1.sz@
    &&& t.hash == ask.1.hash@
    &&& t.time == ask.1.time
}

/// Any two fills on different sides make up a trade in which the account of the buyer's fill comes
/// first and that of the seller's second, whichever fill comes first and whatever else they say;
/// the side is the seller's exactly if the seller's fill crossed.
pub proof fn law_buyer_comes_first(ask: NodeDataFill, bid: NodeDataFill)
    requires
        ask.1.side == Side::Ask,
        bid.1.side == Side::Bid,
    ensures
        trade_from(seq![ask, bid]) matches Some(t) && is_trade_of(t, ask, bid),
        trade_from(seq![bid, ask]) matches Some(t) && is_trade_of(t, ask, bid),
{
}

/// Fills that are not two, or are on one side, make up no trade.
pub proof fn law_only_two_sides_make_a_trade(fills: Seq<NodeDataFill>)
    ensures
        trade_from(fills) is Some <==> {
            &&& fills.len() == 2
            &&& fills[0].1.side != fills[1].1.side
        },
{
}

/// Whether a fill is of a trade.
pub open spec fn is_fill_of(f: NodeDataFill, coin: Seq<char>, tid: u64) -> bool {
    f.1.coin@ == coin && f.1.tid == tid
}

/// Whether a block has exactly two fills of a trade, the seller's at `a` and the buyer's at `b`.
pub open spec fn two_sides(fills: Seq<NodeDataFill>, coin: Seq<char>, tid: u64, a: int, b: int) -> bool {
    &&& 0 <= a < fills.len()
    &&& 0 <= b < fills.len()
    &&& is_fill_of(fills[a], coin, tid) && fills[a].1.side == Side::Ask
    &&& is_fill_of(fills[b], coin, tid) && fills[b].1.side == Side::Bid
    &&& forall|k: int| 0 <= k < fills.len() && is_fill_of(#[trigger] fills[k], coin, tid) ==> k == a || k == b
}

/// The trades of a coin that a block gives, none if the coin is not there.
pub open spec fn trades_given(fills: Seq<NodeDataFill>, coins: Set<Seq<char>>, coin: Seq<char>) -> Seq<
    TradeModel,
> {
    if trades_by_coin(fills, coins).contains_key(coin) {
        trades_by_coin(fills, coins)[coin]
    } else {
        Seq::empty()
    }
}

proof fn lemma_wanted_fills_of(fills: Seq<NodeDataFill>, coins: Set<Seq<char>>, key: TradeKey)
    ensures
        fills_of(wanted(fills, coins), key) == (if coins.contains(key.0) && !is_outcome_symbol(key.0) {
            fills_of(fills, key)
        } else {
            Seq::empty()
        }),
    decreases fills.len(),
{
    if fills.len() > 0 {
        lemma_wanted_fills_of(fills.drop_last(), coins, key);
        let w = wanted(fills.drop_last(), coins);
        if is_wanted(fills.last(), coins) {
            assert(w.push(fills.last()).drop_last() =~= w);
        }
    }
}

/// Whether a trade has a fill at a place other than two given ones.
spec fn has_a_third(fills: Seq<NodeDataFill>, key: TradeKey, x: int, y: int) -> bool {
    exists|k: int| 0 <= k < fills.len() && trade_key(#[trigger] fills[k]) == key && k != x && k != y
}

/// The places of the fills of a trade, as long as they are two at most.
proof fn lemma_places(fills: Seq<NodeDataFill>, key: TradeKey) -> (r: (int, int))
    ensures
        ({
            let g = fills_of(fills, key);
            &&& g.len() == 0 ==> forall|k: int| 0 <= k < fills.len() ==> trade_key(#[trigger] fills[k]) != key
            &&& g.len() == 1 ==> {
                &&& 0 <= r.0 < fills.len()
                &&& fills[r.0] == g[0]
                &&& trade_key(fills[r.0]) == key
                &&& forall|k: int| 0 <= k < fills.len() && trade_key(#[trigger] fills[k]) == key ==> k == r.0
            }
            &&& g.len() == 2 ==> {
                &&& 0 <= r.0 < r.1 < fills.len()
                &&& fills[r.0] == g[0]
                &&& fills[r.1] == g[1]
                &&& trade_key(fills[r.0]) == key
                &&& trade_key(fills[r.1]) == key
                &&& forall|k: int|
                    0 <= k < fills.len() && trade_key(#[trigger] fills[k]) == key ==> k == r.0 || k == r.1
            }
            &&& g.len() >= 3 ==> forall|x: int, y: int| #[trigger] has_a_third(fills, key, x, y)
        }),
    decreases fills.len(),
{
    if fills.len() == 0 {
        (0, 0)
    } else {
        let t = fills.drop_last();
        let (a, b) = lemma_places(t, key);
        let n = t.len() as int;
        let h = fills_of(t, key);
        let g = fills_of(fills, key);
        assert forall|k: int| 0 <= k < n implies #[trigger] t[k] == fills[k] by {}
        assert(fills[n] == fills.last());
        assert forall|k: int| 0 <= k < n implies trade_key(#[trigger] fills[k]) == trade_key(t[k]) by {}
        if g.len() >= 3 {
            assert forall|x: int, y: int| #[trigger] has_a_third(fills, key, x, y) by {
                if h.len() >= 3 {
                    assert(has_a_third(t, key, x, y));
                    let k = choose|k: int|
                        0 <= k < t.len() && trade_key(#[trigger] t[k]) == key && k != x && k != y;
                    assert(trade_key(fills[k]) == key);
                } else {
                    assert(h.len() == 2);
                    assert(trade_key(fills[a]) == key && trade_key(fills[b]) == key && trade_key(fills[n]) == key);
                    assert(a != b && a != n && b != n);
                }
            }
        }
        if trade_key(fills.last()) == key {
            if h.len() == 0 {
                (n, n)
            } else {
                (a, n)
            }
        } else {
            (a, b)
        }
    }
}

/// The trades of a block are exactly the pairs of fills of one trade: each trade that is given is
/// that of the only two fills that the block has of it, one on each side, and each such pair of a
/// coin that is asked for and is no outcome market is given. Where they stand in the block and what
/// else it holds does not matter.
pub proof fn law_block_gives_the_trades_of_its_pairs(
    fills: Seq<NodeDataFill>,
    coins: Set<Seq<char>>,
    coin: Seq<char>,
)
    ensures
        ({
            let ts = trades_given(fills, coins, coin);
            &&& forall|i: int|
                0 <= i < ts.len() ==> exists|a: int, b: int| #[trigger]
                    two_sides(fills, coin, (#[trigger] ts[i]).tid, a, b) && is_trade_of(
                        ts[i],
                        fills[a],
                        fills[b],
                    )
            &&& coins.contains(coin) && !(coin.len() > 0 && coin[0] == '#') ==> forall|
                tid: u64,
                a: int,
                b: int,
            | #[trigger]
                two_sides(fills, coin, tid, a, b) ==> exists|i: int|
                    0 <= i < ts.len() && (#[trigger] ts[i]).tid == tid
            &&& ts.len() > 0 ==> coins.contains(coin) && !(coin.len() > 0 && coin[0] == '#')
        }),
{
    let ts = coin_trades(fills, coins, coin);
    assert(trades_given(fills, coins, coin) =~= ts);
    let w = wanted(fills, coins);
    law_trades_are_the_paired_fills(fills, coins, coin);
    law_only_wanted_coins_trade(fills, coins, coin);
    assert forall|i: int| 0 <= i < ts.len() implies exists|a: int, b: int| #[trigger]
        two_sides(fills, coin, (#[trigger] ts[i]).tid, a, b) && is_trade_of(ts[i], fills[a], fills[b]) by {
        let key = (coin, ts[i].tid);
        lemma_wanted_fills_of(fills, coins, key);
        let (a, b) = lemma_places(fills, key);
        let g = fills_of(fills, key);
        assert(trade_from(g) == Some(ts[i]));
        assert forall|k: int| 0 <= k < fills.len() && is_fill_of(#[trigger] fills[k], coin, ts[i].tid) implies k
            == a || k == b by {
            assert(trade_key(fills[k]) == key);
        }
        assert(trade_key(fills[a]) == key && trade_key(fills[b]) == key);
        if g[0].1.side == Side::Ask {
            assert(two_sides(fills, coin, ts[i].tid, a, b));
        } else {
            assert(two_sides(fills, coin, ts[i].tid, b, a));
        }
    }
    if coins.contains(coin) && !(coin.len() > 0 && coin[0] == '#') {
        assert forall|tid: u64, a: int, b: int| #[trigger]
            two_sides(fills, coin, tid, a, b) implies exists|i: int|
            0 <= i < ts.len() && (#[trigger] ts[i]).tid == tid by {
            let key = (coin, tid);
            lemma_wanted_fills_of(fills, coins, key);
            let (x, y) = lemma_places(fills, key);
            let g = fills_of(fills, key);
            assert(trade_key(fills[a]) == key && trade_key(fills[b]) == key);
            if g.len() >= 3 {
                assert(has_a_third(fills, key, a, b));
                let k = choose|k: int|
                    0 <= k < fills.len() && trade_key(#[trigger] fills[k]) == key && k != a && k != b;
                assert(is_fill_of(fills[k], coin, tid));
            }
            assert(g.len() == 2);
            assert(trade_from(fills_of(w, (coin, tid))) is Some);
            let t = trade_from(g)->0;
            assert(ts.contains(t));
            let i = ts.index_of(t);
            assert(ts[i].tid == tid);
        }
    }
}

proof fn lemma_keys_first_seen(fills: Seq<NodeDataFill>, coins: Set<Seq<char>>, x: int, y: int)
    requires
        0 <= x < y < trade_keys(wanted(fills, coins)).len(),
    ensures
        ({
            let keys = trade_keys(wanted(fills, coins));
            exists|a: int|
                0 <= a < fills.len() && trade_key(#[trigger] fills[a]) == keys[x] && forall|b: int|
                    0 <= b < fills.len() && trade_key(#[trigger] fills[b]) == keys[y] ==> a < b
        }),
    decreases fills.len(),
{
    let keys = trade_keys(wanted(fills, coins));
    let t = fills.drop_last();
    let n = t.len() as int;
    let w = wanted(t, coins);
    let before = trade_keys(w);
    if is_wanted(fills.last(), coins) {
        assert(w.push(fills.last()).drop_last() =~= w);
    }
    assert(fills[n] == fills.last());
    assert(keys[x] == before[x]);
    if y < before.len() {
        lemma_keys_first_seen(t, coins, x, y);
        let a = choose|a: int|
            0 <= a < t.len() && trade_key(#[trigger] t[a]) == before[x] && forall|b: int|
                0 <= b < t.len() && trade_key(#[trigger] t[b]) == before[y] ==> a < b;
        assert(fills[a] == t[a]);
        assert forall|b: int| 0 <= b < fills.len() && trade_key(#[trigger] fills[b]) == keys[y] implies a < b by {
            if b < n {
                assert(t[b] == fills[b]);
            }
        }
    } else {
        lemma_key_has_a_fill(t, coins, x);
        let a = choose|a: int| 0 <= a < t.len() && trade_key(#[trigger] t[a]) == before[x];
        assert(fills[a] == t[a]);
        assert forall|b: int| 0 <= b < fills.len() && trade_key(#[trigger] fills[b]) == keys[y] implies a < b by {
            if b < n {
                assert(t[b] == fills[b]);
                lemma_wanted_fill_has_a_key(t, coins, b);
            }
        }
    }
}

proof fn lemma_key_has_a_fill(fills: Seq<NodeDataFill>, coins: Set<Seq<char>>, x: int)
    requires
        0 <= x < trade_keys(wanted(fills, coins)).len(),
    ensures
        exists|a: int|
            0 <= a < fills.len() && trade_key(#[trigger] fills[a]) == trade_keys(wanted(fills, coins))[x],
    decreases fills.len(),
{
    if fills.len() > 0 {
        let t = fills.drop_last();
        let w = wanted(t, coins);
        if is_wanted(fills.last(), coins) {
            assert(w.push(fills.last()).drop_last() =~= w);
        }
        assert(fills[t.len() as int] == fills.last());
        if x < trade_keys(w).len() {
            lemma_key_has_a_fill(t, coins, x);
            let a = choose|a: int| 0 <= a < t.len() && trade_key(#[trigger] t[a]) == trade_keys(w)[x];
            assert(fills[a] == t[a]);
        }
    }
}

proof fn lemma_wanted_fill_has_a_key(fills: Seq<NodeDataFill>, coins: Set<Seq<char>>, b: int)
    requires
        0 <= b < fills.len(),
        is_wanted(fills[b], coins),
    ensures
        trade_keys(wanted(fills, coins)).contains(trade_key(fills[b])),
    decreases fills.len(),
{
    let t = fills.drop_last();
    let w = wanted(t, coins);
    let key = trade_key(fills[b]);
    if is_wanted(fills.last(), coins) {
        assert(w.push(fills.last()).drop_last() =~= w);
    }
    let before = trade_keys(w);
    let keys = trade_keys(wanted(fills, coins));
    if b < t.len() {
        assert(t[b] == fills[b]);
        lemma_wanted_fill_has_a_key(t, coins, b);
        let i = before.index_of(key);
        assert(keys[i] == key);
    } else if !before.contains(key) {
        assert(keys[before.len() as int] == key);
    }
}

/// The trades of a coin come in the order in which each is first seen in the block, none twice: of
/// two trades the earlier one has a fill in front of every fill of the later one.
pub proof fn law_earlier_trades_are_seen_earlier(
    fills: Seq<NodeDataFill>,
    coins: Set<Seq<char>>,
    coin: Seq<char>,
    i: int,
    j: int,
)
    requires
        0 <= i < j < trades_given(fills, coins, coin).len(),
    ensures
        ({
            let ts = trades_given(fills, coins, coin);
            exists|a: int|
                0 <= a < fills.len() && is_fill_of(#[trigger] fills[a], coin, ts[i].tid) && forall|b: int|
                    0 <= b < fills.len() && is_fill_of(#[trigger] fills[b], coin, ts[j].tid) ==> a < b
        }),
{
    let ts = coin_trades(fills, coins, coin);
    let w = wanted(fills, coins);
    let keys = trade_keys(w);
    lemma_trade_keys(w);
    lemma_listed(w, keys, coin);
    law_trades_keep_first_seen_order(fills, coins, coin);
    let ki = (coin, ts[i].tid);
    let kj = (coin, ts[j].tid);
    assert(keys.contains(ki) && keys.contains(kj));
    let x = keys.index_of(ki);
    let y = keys.index_of(kj);
    assert(x < y);
    lemma_keys_first_seen(fills, coins, x, y);
    let a = choose|a: int|
        0 <= a < fills.len() && trade_key(#[trigger] fills[a]) == keys[x] && forall|b: int|
            0 <= b < fills.len() && trade_key(#[trigger] fills[b]) == keys[y] ==> a < b;
    assert(is_fill_of(fills[a], coin, ts[i].tid));
    assert forall|b: int| 0 <= b < fills.len() && is_fill_of(#[trigger] fills[b], coin, ts[j].tid) implies a < b by {
        assert(trade_key(fills[b]) == keys[y]);
    }
}

} // verus!
