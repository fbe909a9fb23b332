//! A block's changes coin by coin.

use vstd::prelude::*;
use vstd::string::*;

use crate::coin::is_ignored;
use crate::coin_map::CoinMap;
use crate::multi_book::{book_or_empty, books_with_order, books_with_size, books_without_order};
use crate::node_data::{
    opens_order, DiffBatch, DiffModel, NodeDataOrderDiff, NodeDataOrderStatus, OrderDiff, StatusBatch, StatusModel,
};
use crate::order::{Oid, OrderModel};
use crate::order_book::{resized, BookModel, BooksModel};
use crate::state::{changed_books, opened_orders};

verus! {

/// What a block changed on one coin's book.
#[derive(Debug)]
pub struct L4BookUpdates {
    pub time: u64,
    pub height: u64,
    pub order_statuses: Vec<NodeDataOrderStatus>,
    pub book_diffs: Vec<NodeDataOrderDiff>,
}

#[verifier::ext_equal]
pub struct UpdatesModel {
    pub time: u64,
    pub height: u64,
    pub order_statuses: Seq<NodeDataOrderStatus>,
    pub book_diffs: Seq<NodeDataOrderDiff>,
}

impl View for L4BookUpdates {
    type V = UpdatesModel;

    open spec fn view(&self) -> UpdatesModel {
        UpdatesModel {
            time: self.time,
            height: self.height,
            order_statuses: self.order_statuses@,
            book_diffs: self.book_diffs@,
        }
    }
}

impl L4BookUpdates {
    pub fn new(time: u64, height: u64) -> (r: Self)
        ensures
            r@ == (UpdatesModel { time, height, order_statuses: Seq::empty(), book_diffs: Seq::empty() }),
    {
        L4BookUpdates { time, height, order_statuses: Vec::new(), book_diffs: Vec::new() }
    }
}

/// The changes of one coin's book, in order.
pub open spec fn diffs_on(s: Seq<NodeDataOrderDiff>, coin: Seq<char>) -> Seq<NodeDataOrderDiff>
    decreases s.len(),
{
    if s.len() == 0 {
        Seq::empty()
    } else if s.last().coin@ == coin {
        diffs_on(s.drop_last(), coin).push(s.last())
    } else {
        diffs_on(s.drop_last(), coin)
    }
}

/// The reports on one coin's orders, in order.
pub open spec fn statuses_on(s: Seq<NodeDataOrderStatus>, coin: Seq<char>) -> Seq<NodeDataOrderStatus>
    decreases s.len(),
{
    if s.len() == 0 {
        Seq::empty()
    } else if s.last().order.coin@ == coin {
        statuses_on(s.drop_last(), coin).push(s.last())
    } else {
        statuses_on(s.drop_last(), coin)
    }
}

/// Changes and reports by coin; coins without any are not there.
pub open spec fn updates_by_coin(
    time: u64,
    height: u64,
    diffs: Seq<NodeDataOrderDiff>,
    statuses: Seq<NodeDataOrderStatus>,
) -> Map<Seq<char>, UpdatesModel> {
    Map::new(
        |c: Seq<char>| diffs_on(diffs, c).len() > 0 || statuses_on(statuses, c).len() > 0,
        |c: Seq<char>|
            UpdatesModel {
                time,
                height,
                order_statuses: statuses_on(statuses, c),
                book_diffs: diffs_on(diffs, c),
            },
    )
}

/// A block's two batches by coin. Time and height are those of the changes.
pub open spec fn book_updates(diff_batch: DiffModel, status_batch: StatusModel) -> Map<
    Seq<char>,
    UpdatesModel,
> {
    updates_by_coin(
        diff_batch.block_time,
        diff_batch.block_number,
        diff_batch.events,
        status_batch.events,
    )
}

/// The values of a map of updates by their contents.
pub open spec fn updates_view(m: Map<Seq<char>, L4BookUpdates>) -> Map<Seq<char>, UpdatesModel> {
    Map::new(|c: Seq<char>| m.contains_key(c), |c: Seq<char>| m[c]@)
}

/// Where the updates of a coin are; opens them if need be.
fn entry(updates: &mut CoinMap<L4BookUpdates>, coin: &str, time: u64, height: u64) -> (i: usize)
    requires
        old(updates).wf(),
    ensures
        final(updates).wf(),
        i < final(updates).keys().len(),
        final(updates).keys()[i as int] == coin@,
        final(updates)@.contains_key(coin@),
        updates_view(final(updates)@) == (if old(updates)@.contains_key(coin@) {
            updates_view(old(updates)@)
        } else {
            updates_view(old(updates)@).insert(
                coin@,
                UpdatesModel { time, height, order_statuses: Seq::empty(), book_diffs: Seq::empty() },
            )
        }),
{
    match updates.position(coin) {
        Some(i) => i,
        None => {
            let i: usize = updates.len();
            updates.insert(coin.to_owned(), L4BookUpdates::new(time, height));
            assert(updates_view(updates@) =~= updates_view(old(updates)@).insert(
                coin@,
                UpdatesModel { time, height, order_statuses: Seq::empty(), book_diffs: Seq::empty() },
            ));
            i
        },
    }
}

/// A block's changes and reports by coin.
pub fn coin_to_book_updates(diff_batch: &DiffBatch, status_batch: &StatusBatch) -> (r: CoinMap<L4BookUpdates>)
    ensures
        r.wf(),
        updates_view(r@) == book_updates(diff_batch@, status_batch@),
{
    let time: u64 = diff_batch.block_time();
    let height: u64 = diff_batch.block_number();
    let diffs = &diff_batch.events;
    let statuses = &status_batch.events;
    let mut updates: CoinMap<L4BookUpdates> = CoinMap::new();
    let ghost none = Seq::<NodeDataOrderStatus>::empty();
    let mut i: usize = 0;
    assert(updates_view(updates@) =~= updates_by_coin(time, height, diffs@.take(0), none));
    while i < diffs.len()
        invariant
            i <= diffs@.len(),
            updates.wf(),
            none.len() == 0,
            updates_view(updates@) == updates_by_coin(time, height, diffs@.take(i as int), none),
        decreases diffs@.len() - i,
    {
        let diff = diffs[i].clone();
        let ghost before = updates_view(updates@);
        let ghost coin = diff.coin@;
        assert(diffs@.take(i + 1).drop_last() =~= diffs@.take(i as int));
        let at: usize = entry(&mut updates, diff.coin.0.as_str(), time, height);
        let ghost mid = updates@;
        let ghost opened = updates_view(mid);
        updates.value_mut(at).book_diffs.push(diff);
        proof {
            assert(before.contains_key(coin) <==> diffs_on(diffs@.take(i as int), coin).len() > 0
                || statuses_on(none, coin).len() > 0);
            assert(opened[coin].book_diffs =~= diffs_on(diffs@.take(i as int), coin));
            assert(opened[coin].order_statuses =~= statuses_on(none, coin));
            assert forall|c: Seq<char>| c != coin implies #[trigger] updates@.contains_key(c)
                == before.contains_key(c) by {
                assert(updates@.contains_key(c) == opened.contains_key(c));
            }
            assert forall|c: Seq<char>| c != coin && before.contains_key(c) implies #[trigger] updates@[c]@
                == before[c] by {
                assert(opened.contains_key(c) && opened[c] == before[c]);
                assert(mid.contains_key(c) && mid[c]@ == opened[c]);
            }
            assert(updates_view(updates@) =~= updates_by_coin(time, height, diffs@.take(i + 1), none));
        }
        i = i + 1;
    }
    assert(diffs@.take(i as int) =~= diffs@);
    let mut j: usize = 0;
    assert(statuses@.take(0) =~= none);
    while j < statuses.len()
        invariant
            j <= statuses@.len(),
            updates.wf(),
            updates_view(updates@) == updates_by_coin(time, height, diffs@, statuses@.take(j as int)),
        decreases statuses@.len() - j,
    {
        let status = statuses[j].clone();
        let ghost before = updates_view(updates@);
        let ghost coin = status.order.coin@;
        assert(statuses@.take(j + 1).drop_last() =~= statuses@.take(j as int));
        let at: usize = entry(&mut updates, status.order.coin.0.as_str(), time, height);
        let ghost mid = updates@;
        let ghost opened = updates_view(mid);
        updates.value_mut(at).order_statuses.push(status);
        proof {
            assert(before.contains_key(coin) <==> diffs_on(diffs@, coin).len() > 0 || statuses_on(
                statuses@.take(j as int),
                coin,
            ).len() > 0);
            assert(opened[coin].book_diffs =~= diffs_on(diffs@, coin));
            assert(opened[coin].order_statuses =~= statuses_on(statuses@.take(j as int), coin));
            assert forall|c: Seq<char>| c != coin implies #[trigger] updates@.contains_key(c)
                == before.contains_key(c) by {
                assert(updates@.contains_key(c) == opened.contains_key(c));
            }
            assert forall|c: Seq<char>| c != coin && before.contains_key(c) implies #[trigger] updates@[c]@
                == before[c] by {
                assert(opened.contains_key(c) && opened[c] == before[c]);
                assert(mid.contains_key(c) && mid[c]@ == opened[c]);
            }
            assert(updates_view(updates@) =~= updates_by_coin(time, height, diffs@, statuses@.take(j + 1)));
        }
        j = j + 1;
    }
    assert(statuses@.take(j as int) =~= statuses@);
    updates
}

/// The book that a client keeps of one coin, after one more block's updates on that coin.
pub open spec fn followed_book(
    book: BookModel,
    coin: Seq<char>,
    updates: UpdatesModel,
    ignore_spot: bool,
) -> BookModel {
    book_or_empty(
        changed_books(
            Map::<Seq<char>, BookModel>::empty().insert(coin, book),
            opened_orders(updates.order_statuses),
            updates.book_diffs,
            ignore_spot,
        ).0,
        coin,
    )
}

proof fn lemma_diffs_on_front(s: Seq<NodeDataOrderDiff>, coin: Seq<char>)
    requires
        s.len() > 0,
    ensures
        diffs_on(s, coin) == (if s[0].coin@ == coin {
            seq![s[0]] + diffs_on(s.drop_first(), coin)
        } else {
            diffs_on(s.drop_first(), coin)
        }),
    decreases s.len(),
{
    if s.len() == 1 {
        assert(s.drop_last() =~= Seq::empty());
        assert(s.drop_first() =~= Seq::empty());
        assert(diffs_on(s.drop_last(), coin) =~= Seq::empty());
        assert(diffs_on(s, coin) =~= (if s[0].coin@ == coin {
            seq![s[0]]
        } else {
            Seq::empty()
        }));
    } else {
        let t = s.drop_last();
        lemma_diffs_on_front(t, coin);
        assert(t.drop_first() =~= s.drop_first().drop_last());
        assert(s.drop_first().last() == s.last());
        assert(t[0] == s[0]);
        assert(diffs_on(s, coin) =~= (if s[0].coin@ == coin {
            seq![s[0]] + diffs_on(s.drop_first(), coin)
        } else {
            diffs_on(s.drop_first(), coin)
        }));
    }
}

/// Reports of other coins do not matter to an order that is only reported on one coin.
proof fn lemma_opened_on(s: Seq<NodeDataOrderStatus>, coin: Seq<char>, oid: Oid)
    requires
        forall|i: int| 0 <= i < s.len() && (#[trigger] s[i]).order.oid == oid ==> s[i].order.coin@ == coin,
    ensures
        opened_orders(s).contains_key(oid) == opened_orders(statuses_on(s, coin)).contains_key(oid),
        opened_orders(s).contains_key(oid) ==> opened_orders(s)[oid] == opened_orders(
            statuses_on(s, coin),
        )[oid],
    decreases s.len(),
{
    if s.len() > 0 {
        let t = s.drop_last();
        assert forall|i: int| 0 <= i < t.len() && (#[trigger] t[i]).order.oid == oid implies t[i].order.coin@
            == coin by {
            assert(t[i] == s[i]);
        }
        lemma_opened_on(t, coin, oid);
        assert(s[s.len() - 1] == s.last());
        if s.last().order.coin@ == coin {
            assert(statuses_on(s, coin).drop_last() =~= statuses_on(t, coin));
        }
    }
}

/// An opened order was reported.
proof fn lemma_opened_was_reported(s: Seq<NodeDataOrderStatus>, oid: Oid)
    requires
        opened_orders(s).contains_key(oid),
    ensures
        exists|i: int|
            0 <= i < s.len() && (#[trigger] s[i]).order.oid == oid && opened_orders(s)[oid] == s[i].order@,
    decreases s.len(),
{
    if s.len() > 0 {
        let t = s.drop_last();
        if opens_order(s.last()) && s.last().order.oid == oid {
            assert(s[s.len() - 1].order.oid == oid);
        } else {
            lemma_opened_was_reported(t, oid);
            let i = choose|i: int|
                0 <= i < t.len() && (#[trigger] t[i]).order.oid == oid && opened_orders(t)[oid] == t[i].order@;
            assert(s[i] == t[i]);
        }
    }
}

/// Opened orders are on the coins that the changes name.
spec fn coins_agree(opened: Map<Oid, OrderModel>, diffs: Seq<NodeDataOrderDiff>) -> bool {
    forall|j: int|
        0 <= j < diffs.len() && opened.contains_key((#[trigger] diffs[j]).oid) ==> opened[diffs[j].oid].coin
            == diffs[j].coin@
}

/// For the changes on one coin, the orders that opened on it are as good as all of them.
spec fn serves(
    part: Map<Oid, OrderModel>,
    opened: Map<Oid, OrderModel>,
    diffs: Seq<NodeDataOrderDiff>,
    coin: Seq<char>,
) -> bool {
    forall|j: int|
        0 <= j < diffs.len() && (#[trigger] diffs[j]).coin@ == coin ==> {
            &&& part.contains_key(diffs[j].oid) == opened.contains_key(diffs[j].oid)
            &&& opened.contains_key(diffs[j].oid) ==> part[diffs[j].oid] == opened[diffs[j].oid]
        }
}

proof fn lemma_follow(
    books: BooksModel,
    one: BooksModel,
    opened: Map<Oid, OrderModel>,
    part: Map<Oid, OrderModel>,
    diffs: Seq<NodeDataOrderDiff>,
    coin: Seq<char>,
    ignore_spot: bool,
)
    requires
        one.contains_key(coin),
        one[coin] == book_or_empty(books, coin),
        coins_agree(opened, diffs),
        serves(part, opened, diffs, coin),
        changed_books(books, opened, diffs, ignore_spot).1 is None,
    ensures
        ({
            let full = changed_books(books, opened, diffs, ignore_spot);
            let own = changed_books(one, part, diffs_on(diffs, coin), ignore_spot);
            &&& own.1 is None
            &&& own.0.contains_key(coin)
            &&& own.0[coin] == book_or_empty(full.0, coin)
        }),
    decreases diffs.len(),
{
    if diffs.len() > 0 {
        let d = diffs[0];
        let rest = diffs.drop_first();
        let mine = diffs_on(diffs, coin);
        lemma_diffs_on_front(diffs, coin);
        assert forall|j: int| 0 <= j < rest.len() implies #[trigger] rest[j] == diffs[j + 1] by {}
        if d.coin@ == coin {
            assert(mine[0] == d);
            assert(mine.drop_first() =~= diffs_on(rest, coin));
        }
        assert(coins_agree(opened, rest));
        assert(serves(part, opened, rest, coin));
        if is_ignored(d.coin@, ignore_spot) {
            lemma_follow(books, one, opened, part, rest, coin, ignore_spot);
        } else {
            match d.raw_book_diff {
                OrderDiff::New { sz } => {
                    let o = resized(opened[d.oid], sz);
                    assert(o.coin == d.coin@);
                    let less = opened.remove(d.oid);
                    let next = books_with_order(books, o);
                    assert(coins_agree(less, rest));
                    if d.coin@ == coin {
                        assert(part[d.oid] == opened[d.oid]);
                        assert(serves(part.remove(d.oid), less, rest, coin));
                        lemma_follow(
                            next,
                            books_with_order(one, o),
                            less,
                            part.remove(d.oid),
                            rest,
                            coin,
                            ignore_spot,
                        );
                    } else {
                        assert forall|j: int| 0 <= j < rest.len() && (#[trigger] rest[j]).coin@
                            == coin implies rest[j].oid != d.oid by {
                            assert(rest[j] == diffs[j + 1]);
                        }
                        assert(serves(part, less, rest, coin));
                        lemma_follow(next, one, less, part, rest, coin, ignore_spot);
                    }
                },
                OrderDiff::Update { orig_sz, new_sz } => {
                    let next = books_with_size(books, d.coin@, d.oid, new_sz);
                    if d.coin@ == coin {
                        lemma_follow(
                            next,
                            books_with_size(one, coin, d.oid, new_sz),
                            opened,
                            part,
                            rest,
                            coin,
                            ignore_spot,
                        );
                    } else {
                        lemma_follow(next, one, opened, part, rest, coin, ignore_spot);
                    }
                },
                OrderDiff::Remove => {
                    let next = books_without_order(books, d.coin@, d.oid);
                    if d.coin@ == coin {
                        lemma_follow(
                            next,
                            books_without_order(one, coin, d.oid),
                            opened,
                            part,
                            rest,
                            coin,
                            ignore_spot,
                        );
                    } else {
                        lemma_follow(next, one, opened, part, rest, coin, ignore_spot);
                    }
                },
            }
        }
    }
}

/// Whether reports and changes of the same order name the same coin.
pub open spec fn orders_keep_their_coin(
    statuses: Seq<NodeDataOrderStatus>,
    diffs: Seq<NodeDataOrderDiff>,
) -> bool {
    forall|i: int, j: int|
        0 <= i < statuses.len() && 0 <= j < diffs.len() && (#[trigger] statuses[i]).order.oid == (
        #[trigger] diffs[j]).oid ==> statuses[i].order.coin@ == diffs[j].coin@
}

/// A client who holds the book of a coin and applies the updates that are sent for that coin
/// holds the live book of that coin again; a coin for which none are sent did not change.
pub proof fn law_updates_keep_a_book_in_step(
    books: BooksModel,
    diff_batch: DiffModel,
    status_batch: StatusModel,
    coin: Seq<char>,
    ignore_spot: bool,
)
    requires
        orders_keep_their_coin(status_batch.events, diff_batch.events),
        changed_books(books, opened_orders(status_batch.events), diff_batch.events, ignore_spot).1 is None,
    ensures
        ({
            let after = changed_books(
                books,
                opened_orders(status_batch.events),
                diff_batch.events,
                ignore_spot,
            ).0;
            let sent = book_updates(diff_batch, status_batch);
            book_or_empty(after, coin) == (if sent.contains_key(coin) {
                followed_book(book_or_empty(books, coin), coin, sent[coin], ignore_spot)
            } else {
                book_or_empty(books, coin)
            })
        }),
{
    let statuses = status_batch.events;
    let diffs = diff_batch.events;
    let opened = opened_orders(statuses);
    let part = opened_orders(statuses_on(statuses, coin));
    assert forall|j: int| 0 <= j < diffs.len() && opened.contains_key(
        (#[trigger] diffs[j]).oid,
    ) implies opened[diffs[j].oid].coin == diffs[j].coin@ by {
        lemma_opened_was_reported(statuses, diffs[j].oid);
    }
    assert forall|j: int| 0 <= j < diffs.len() && (#[trigger] diffs[j]).coin@ == coin implies part.contains_key(
        diffs[j].oid,
    ) == opened.contains_key(diffs[j].oid) && (opened.contains_key(diffs[j].oid) ==> part[diffs[j].oid]
        == opened[diffs[j].oid]) by {
        lemma_opened_on(statuses, coin, diffs[j].oid);
    }
    let one = Map::<Seq<char>, BookModel>::empty().insert(coin, book_or_empty(books, coin));
    lemma_follow(books, one, opened, part, diffs, coin, ignore_spot);
}

proof fn lemma_ignored_changes(
    books: BooksModel,
    opened: Map<Oid, OrderModel>,
    diffs: Seq<NodeDataOrderDiff>,
    ignore_spot: bool,
)
    requires
        forall|i: int| 0 <= i < diffs.len() ==> is_ignored((#[trigger] diffs[i]).coin@, ignore_spot),
    ensures
        changed_books(books, opened, diffs, ignore_spot).0 == books,
    decreases diffs.len(),
{
    if diffs.len() > 0 {
        let rest = diffs.drop_first();
        assert forall|i: int| 0 <= i < rest.len() implies is_ignored((#[trigger] rest[i]).coin@, ignore_spot) by {
            assert(rest[i] == diffs[i + 1]);
        }
        assert(is_ignored(diffs[0].coin@, ignore_spot));
        lemma_ignored_changes(books, opened, rest, ignore_spot);
    }
}

proof fn lemma_diffs_on_coin(s: Seq<NodeDataOrderDiff>, coin: Seq<char>)
    ensures
        forall|i: int| 0 <= i < diffs_on(s, coin).len() ==> (#[trigger] diffs_on(s, coin)[i]).coin@ == coin,
    decreases s.len(),
{
    if s.len() > 0 {
        lemma_diffs_on_coin(s.drop_last(), coin);
        let before = diffs_on(s.drop_last(), coin);
        assert forall|i: int| 0 <= i < diffs_on(s, coin).len() implies (#[trigger] diffs_on(s, coin)[i]).coin@
            == coin by {
            if i < before.len() {
                assert(diffs_on(s, coin)[i] == before[i]);
            }
        }
    }
}

/// While spot is ignored no block changes the book of a spot pair.
pub proof fn law_ignored_books_never_change(
    books: BooksModel,
    diff_batch: DiffModel,
    status_batch: StatusModel,
    coin: Seq<char>,
    ignore_spot: bool,
)
    requires
        is_ignored(coin, ignore_spot),
        orders_keep_their_coin(status_batch.events, diff_batch.events),
        changed_books(books, opened_orders(status_batch.events), diff_batch.events, ignore_spot).1 is None,
    ensures
        book_or_empty(
            changed_books(books, opened_orders(status_batch.events), diff_batch.events, ignore_spot).0,
            coin,
        ) == book_or_empty(books, coin),
{
    law_updates_keep_a_book_in_step(books, diff_batch, status_batch, coin, ignore_spot);
    lemma_diffs_on_coin(diff_batch.events, coin);
    lemma_ignored_changes(
        Map::<Seq<char>, BookModel>::empty().insert(coin, book_or_empty(books, coin)),
        opened_orders(statuses_on(status_batch.events, coin)),
        diffs_on(diff_batch.events, coin),
        ignore_spot,
    );
}

proof fn lemma_on_is_filter(diffs: Seq<NodeDataOrderDiff>, statuses: Seq<NodeDataOrderStatus>, coin: Seq<char>)
    ensures
        diffs_on(diffs, coin) == diffs.filter(|d: NodeDataOrderDiff| d.coin@ == coin),
        statuses_on(statuses, coin) == statuses.filter(|s: NodeDataOrderStatus| s.order.coin@ == coin),
    decreases diffs.len() + statuses.len(),
{
    reveal(Seq::filter);
    if diffs.len() > 0 {
        lemma_on_is_filter(diffs.drop_last(), statuses, coin);
    } else if statuses.len() > 0 {
        lemma_on_is_filter(diffs, statuses.drop_last(), coin);
    }
    if diffs.len() > 0 && statuses.len() > 0 {
        lemma_on_is_filter(diffs, statuses.drop_last(), coin);
    }
}

/// What is sent of a block for a coin: every change that names the coin, and every report on an
/// order of the coin, whatever the report says, as often and in the order in which the block has
/// them, and nothing else; with the time and the number of the block of the changes.
pub proof fn law_updates_are_all_that_names_the_coin(
    diff_batch: DiffModel,
    status_batch: StatusModel,
    coin: Seq<char>,
)
    ensures
        ({
            let sent = book_updates(diff_batch, status_batch);
            &&& sent.contains_key(coin) ==> {
                &&& sent[coin].book_diffs == diff_batch.events.filter(
                    |d: NodeDataOrderDiff| d.coin@ == coin,
                )
                &&& sent[coin].order_statuses == status_batch.events.filter(
                    |s: NodeDataOrderStatus| s.order.coin@ == coin,
                )
                &&& sent[coin].time == diff_batch.block_time
                &&& sent[coin].height == diff_batch.block_number
            }
        }),
{
    lemma_on_is_filter(diff_batch.events, status_batch.events, coin);
}

/// A coin gets updates of a block exactly if some change of the block names it or some report of
/// the block is on an order of it, whatever the report says.
pub proof fn law_named_coins_get_updates(diff_batch: DiffModel, status_batch: StatusModel, coin: Seq<char>)
    ensures
        book_updates(diff_batch, status_batch).contains_key(coin) <==> (exists|i: int|
            0 <= i < diff_batch.events.len() && (#[trigger] diff_batch.events[i]).coin@ == coin) || (exists|i: int|
            0 <= i < status_batch.events.len() && (#[trigger] status_batch.events[i]).order.coin@ == coin),
{
    let diffs = diff_batch.events;
    let statuses = status_batch.events;
    lemma_on_is_filter(diffs, statuses, coin);
    let p = |d: NodeDataOrderDiff| d.coin@ == coin;
    let q = |s: NodeDataOrderStatus| s.order.coin@ == coin;
    lemma_filter_some(diffs, p);
    lemma_filter_some(statuses, q);
    if exists|i: int| 0 <= i < diffs.len() && p(#[trigger] diffs[i]) {
        let i = choose|i: int| 0 <= i < diffs.len() && p(#[trigger] diffs[i]);
        assert(diffs[i].coin@ == coin);
    }
    if exists|i: int| 0 <= i < diffs.len() && (#[trigger] diffs[i]).coin@ == coin {
        let i = choose|i: int| 0 <= i < diffs.len() && (#[trigger] diffs[i]).coin@ == coin;
        assert(p(diffs[i]));
    }
    if exists|i: int| 0 <= i < statuses.len() && q(#[trigger] statuses[i]) {
        let i = choose|i: int| 0 <= i < statuses.len() && q(#[trigger] statuses[i]);
        assert(statuses[i].order.coin@ == coin);
    }
    if exists|i: int| 0 <= i < statuses.len() && (#[trigger] statuses[i]).order.coin@ == coin {
        let i = choose|i: int| 0 <= i < statuses.len() && (#[trigger] statuses[i]).order.coin@ == coin;
        assert(q(statuses[i]));
    }
}

proof fn lemma_filter_some<T>(s: Seq<T>, p: spec_fn(T) -> bool)
    ensures
        s.filter(p).len() > 0 <==> exists|i: int| 0 <= i < s.len() && p(#[trigger] s[i]),
    decreases s.len(),
{
    reveal(Seq::filter);
    if s.len() > 0 {
        let t = s.drop_last();
        lemma_filter_some(t, p);
        assert(s[s.len() - 1] == s.last());
        if exists|i: int| 0 <= i < t.len() && p(#[trigger] t[i]) {
            let i = choose|i: int| 0 <= i < t.len() && p(#[trigger] t[i]);
            assert(s[i] == t[i]);
        }
        if exists|i: int| 0 <= i < s.len() && p(#[trigger] s[i]) {
            let i = choose|i: int| 0 <= i < s.len() && p(#[trigger] s[i]);
            if i < t.len() {
                assert(t[i] == s[i]);
            }
        }
    }
}

} // verus!
