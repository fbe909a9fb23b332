//! The books of all coins.

use vstd::prelude::*;
use vstd::string::*;

use crate::coin::Coin;
use crate::coin_map::CoinMap;
use crate::order::{InnerL4Order, Oid, OrderModel, Side, Sz};
use crate::order_book::{
    book_from, book_in_order, copies, law_adding_keeps_order, law_book_from_snapshot_is_in_order,
    law_book_holds_the_snapshots_orders, law_cancelling_keeps_order, law_new_order_takes_its_place,
    law_orders_are_located, law_resizing_keeps_order, law_snapshot_round_trip, located, none_with, values_view,
    with_order, with_size, without_order, BookModel, BooksModel, OrderBook, Sides, Snapshot,
};

verus! {

/// Snapshots of the books of several coins.
pub struct Snapshots {
    books: CoinMap<Snapshot<InnerL4Order>>,
}

impl View for Snapshots {
    type V = BooksModel;

    closed spec fn view(&self) -> BooksModel {
        values_view(self.books@)
    }
}

/// The map that a list of coins and books stands for; of two books of one coin the later counts.
pub open spec fn listed_books(s: Seq<(Coin, Snapshot<InnerL4Order>)>) -> BooksModel
    decreases s.len(),
{
    if s.len() == 0 {
        Map::empty()
    } else {
        listed_books(s.drop_last()).insert(s.last().0@, s.last().1@)
    }
}

impl Snapshots {
    pub closed spec fn wf(&self) -> bool {
        self.books.wf()
    }

    /// The coins in the order in which a walk meets them.
    pub closed spec fn coins(&self) -> Seq<Seq<char>> {
        self.books.keys()
    }

    /// The walk meets each coin once and no other.
    pub proof fn lemma_coins(&self)
        requires
            self.wf(),
        ensures
            forall|i: int| 0 <= i < self.coins().len() ==> self@.contains_key(#[trigger] self.coins()[i]),
            forall|k: Seq<char>| #[trigger] self@.contains_key(k) ==> self.coins().contains(k),
            self.coins().no_duplicates(),
    {
        self.books.lemma_keys();
    }

    /// Snapshots from a list; of two books of one coin the later counts.
    pub fn new(list: Vec<(Coin, Snapshot<InnerL4Order>)>) -> (r: Self)
        ensures
            r.wf(),
            r@ == listed_books(list@),
    {
        let mut books: CoinMap<Snapshot<InnerL4Order>> = CoinMap::new();
        let mut i: usize = 0;
        assert(values_view(books@) =~= listed_books(list@.take(0)));
        while i < list.len()
            invariant
                i <= list@.len(),
                books.wf(),
                values_view(books@) == listed_books(list@.take(i as int)),
            decreases list@.len() - i,
        {
            let ghost before = books@;
            assert(list@.take(i + 1).drop_last() =~= list@.take(i as int));
            let book = list[i].1.copy();
            books.insert(list[i].0.value(), book);
            assert(values_view(books@) =~= values_view(before).insert(list@[i as int].0@, list@[i as int].1@));
            i = i + 1;
        }
        assert(list@.take(i as int) =~= list@);
        Snapshots { books }
    }

    pub(crate) fn from_books(books: CoinMap<Snapshot<InnerL4Order>>) -> (r: Self)
        requires
            books.wf(),
        ensures
            r.wf(),
            r@ == values_view(books@),
            r.coins() == books.keys(),
    {
        Snapshots { books }
    }

    pub fn len(&self) -> (n: usize)
        requires
            self.wf(),
        ensures
            n == self.coins().len(),
    {
        self.books.len()
    }

    pub fn coin(&self, i: usize) -> (r: &String)
        requires
            i < self.coins().len(),
        ensures
            r@ == self.coins()[i as int],
    {
        self.books.key(i)
    }

    pub fn book(&self, i: usize) -> (r: &Snapshot<InnerL4Order>)
        requires
            self.wf(),
            i < self.coins().len(),
        ensures
            r@ == self@[self.coins()[i as int]],
    {
        self.books.value(i)
    }

    pub fn get(&self, coin: &str) -> (r: Option<&Snapshot<InnerL4Order>>)
        requires
            self.wf(),
        ensures
            match r {
                Some(book) => self@.contains_key(coin@) && book@ == self@[coin@],
                None => !self@.contains_key(coin@),
            },
    {
        self.books.get(coin)
    }
}

/// The books that snapshots describe.
pub open spec fn books_from(snapshots: BooksModel, ignore_triggers: bool) -> BooksModel {
    Map::new(
        |k: Seq<char>| snapshots.contains_key(k),
        |k: Seq<char>| book_from(snapshots[k], ignore_triggers),
    )
}

/// The book of a coin, empty if there is none yet.
pub open spec fn book_or_empty(books: BooksModel, coin: Seq<char>) -> BookModel {
    if books.contains_key(coin) {
        books[coin]
    } else {
        Sides::empty()
    }
}

/// The books with one more order, on the book of its coin.
pub open spec fn books_with_order(books: BooksModel, o: OrderModel) -> BooksModel {
    books.insert(o.coin, with_order(book_or_empty(books, o.coin), o))
}

/// Whether a coin's book holds an order.
pub open spec fn books_hold(books: BooksModel, coin: Seq<char>, oid: Oid) -> bool {
    books.contains_key(coin) && located(books[coin], oid).is_some()
}

pub open spec fn books_without_order(books: BooksModel, coin: Seq<char>, oid: Oid) -> BooksModel {
    if books_hold(books, coin, oid) {
        books.insert(coin, without_order(books[coin], oid))
    } else {
        books
    }
}

pub open spec fn books_with_size(books: BooksModel, coin: Seq<char>, oid: Oid, sz: Sz) -> BooksModel {
    if books_hold(books, coin, oid) {
        books.insert(coin, with_size(books[coin], oid, sz))
    } else {
        books
    }
}

/// The resting orders of all coins.
pub struct OrderBooks {
    books: CoinMap<OrderBook>,
}

impl View for OrderBooks {
    type V = BooksModel;

    closed spec fn view(&self) -> BooksModel {
        values_view(self.books@)
    }
}

impl OrderBooks {
    pub closed spec fn wf(&self) -> bool {
        self.books.wf()
    }

    pub fn new() -> (r: Self)
        ensures
            r.wf(),
            r@ == Map::<Seq<char>, BookModel>::empty(),
    {
        let r = OrderBooks { books: CoinMap::new() };
        assert(r@ =~= Map::<Seq<char>, BookModel>::empty());
        r
    }

    pub fn as_ref(&self) -> (r: &CoinMap<OrderBook>)
        requires
            self.wf(),
        ensures
            r.wf(),
            values_view(r@) == self@,
    {
        &self.books
    }

    /// Puts an order on the book of its coin, opening that book if need be.
    pub fn add_order(&mut self, order: InnerL4Order)
        requires
            old(self).wf(),
        ensures
            final(self).wf(),
            final(self)@ == books_with_order(old(self)@, order@),
    {
        let coin = order.coin.value();
        match self.books.position(coin.as_str()) {
            Some(i) => {
                self.books.value_mut(i).add_order(order);
            },
            None => {
                let mut book = OrderBook::new();
                book.add_order(order);
                self.books.insert(coin, book);
            },
        }
        assert(self@ =~= books_with_order(old(self)@, order@));
    }

    /// Takes an order off the book of a coin, and says whether it was there.
    pub fn cancel_order(&mut self, oid: Oid, coin: &Coin) -> (r: bool)
        requires
            old(self).wf(),
        ensures
            final(self).wf(),
            r == books_hold(old(self)@, coin@, oid),
            final(self)@ == books_without_order(old(self)@, coin@, oid),
    {
        match self.books.position(coin.0.as_str()) {
            Some(i) => {
                let found = self.books.value_mut(i).cancel_order(oid);
                assert(self@ =~= books_without_order(old(self)@, coin@, oid));
                found
            },
            None => false,
        }
    }

    /// Gives an order on the book of a coin another size, and says whether it was there.
    pub fn modify_sz(&mut self, oid: Oid, coin: &Coin, sz: Sz) -> (r: bool)
        requires
            old(self).wf(),
        ensures
            final(self).wf(),
            r == books_hold(old(self)@, coin@, oid),
            final(self)@ == books_with_size(old(self)@, coin@, oid, sz),
    {
        match self.books.position(coin.0.as_str()) {
            Some(i) => {
                let found = self.books.value_mut(i).modify_sz(oid, sz);
                assert(self@ =~= books_with_size(old(self)@, coin@, oid, sz));
                found
            },
            None => false,
        }
    }

    pub fn from_snapshots(snapshots: &Snapshots, ignore_triggers: bool) -> (r: Self)
        requires
            snapshots.wf(),
        ensures
            r.wf(),
            r@ == books_from(snapshots@, ignore_triggers),
    {
        let mut books: CoinMap<OrderBook> = CoinMap::new();
        let ghost coins = snapshots.coins();
        proof {
            snapshots.lemma_coins();
        }
        let mut i: usize = 0;
        while i < snapshots.len()
            invariant
                i <= coins.len(),
                coins == snapshots.coins(),
                snapshots.wf(),
                books.wf(),
                forall|k: Seq<char>| #[trigger] books@.contains_key(k) ==> snapshots@.contains_key(k)
                    && books@[k]@ == book_from(snapshots@[k], ignore_triggers),
                forall|j: int| 0 <= j < i ==> books@.contains_key(#[trigger] coins[j]),
            decreases coins.len() - i,
        {
            proof {
                snapshots.lemma_coins();
            }
            let book = OrderBook::from_snapshot(snapshots.book(i), ignore_triggers);
            books.insert(snapshots.coin(i).clone(), book);
            i = i + 1;
        }
        let r = OrderBooks { books };
        assert forall|k: Seq<char>| snapshots@.contains_key(k) implies #[trigger] books@.contains_key(k) by {
            assert(coins.contains(k));
        }
        assert(r@ =~= books_from(snapshots@, ignore_triggers));
        r
    }

    pub fn to_snapshots(&self) -> (r: Snapshots)
        requires
            self.wf(),
        ensures
            r.wf(),
            r@ == self@,
    {
        let mut books: CoinMap<Snapshot<InnerL4Order>> = CoinMap::new();
        let ghost coins = self.books.keys();
        proof {
            self.books.lemma_keys();
        }
        let mut i: usize = 0;
        while i < self.books.len()
            invariant
                i <= coins.len(),
                coins == self.books.keys(),
                self.books.wf(),
                books.wf(),
                forall|k: Seq<char>| #[trigger] books@.contains_key(k) ==> self@.contains_key(k)
                    && books@[k]@ == self@[k],
                forall|j: int| 0 <= j < i ==> books@.contains_key(#[trigger] coins[j]),
            decreases coins.len() - i,
        {
            let book = self.books.value(i).to_snapshot();
            books.insert(self.books.key(i).clone(), book);
            i = i + 1;
        }
        assert forall|k: Seq<char>| self@.contains_key(k) implies #[trigger] books@.contains_key(k) by {
            assert(coins.contains(k));
        }
        assert(values_view(books@) =~= self@);
        Snapshots::from_books(books)
    }

    pub(crate) fn copy(&self) -> (r: Self)
        requires
            self.wf(),
        ensures
            r.wf(),
            r@ == self@,
    {
        let mut books: CoinMap<OrderBook> = CoinMap::new();
        let ghost coins = self.books.keys();
        proof {
            self.books.lemma_keys();
        }
        let mut i: usize = 0;
        while i < self.books.len()
            invariant
                i <= coins.len(),
                coins == self.books.keys(),
                self.books.wf(),
                books.wf(),
                forall|k: Seq<char>| #[trigger] books@.contains_key(k) ==> self@.contains_key(k)
                    && books@[k]@ == self@[k],
                forall|j: int| 0 <= j < i ==> books@.contains_key(#[trigger] coins[j]),
            decreases coins.len() - i,
        {
            let book = self.books.value(i).copy();
            books.insert(self.books.key(i).clone(), book);
            i = i + 1;
        }
        assert forall|k: Seq<char>| self@.contains_key(k) implies #[trigger] books@.contains_key(k) by {
            assert(coins.contains(k));
        }
        let r = OrderBooks { books };
        assert(r@ =~= self@);
        r
    }
}

/// Every book has its best price first.
pub open spec fn all_in_order(books: BooksModel) -> bool {
    forall|k: Seq<char>| #[trigger] books.contains_key(k) ==> book_in_order(books[k])
}

/// Whatever snapshots hold, the books made from them have their best price first.
pub proof fn law_books_from_snapshots_are_in_order(snapshots: BooksModel, ignore_triggers: bool)
    ensures
        all_in_order(books_from(snapshots, ignore_triggers)),
{
    assert forall|k: Seq<char>| #[trigger]
        books_from(snapshots, ignore_triggers).contains_key(k) implies book_in_order(
        books_from(snapshots, ignore_triggers)[k],
    ) by {
        law_book_from_snapshot_is_in_order(snapshots[k], ignore_triggers);
    }
}

/// Adding, cancelling and resizing keep the best price first on every book.
pub proof fn law_changes_keep_order(books: BooksModel, o: OrderModel, coin: Seq<char>, oid: Oid, sz: Sz)
    requires
        all_in_order(books),
    ensures
        all_in_order(books_with_order(books, o)),
        all_in_order(books_without_order(books, coin, oid)),
        all_in_order(books_with_size(books, coin, oid, sz)),
{
    law_adding_keeps_order(book_or_empty(books, o.coin), o);
    if books_hold(books, coin, oid) {
        law_cancelling_keeps_order(books[coin], oid);
        law_resizing_keeps_order(books[coin], oid, sz);
    }
}

/// Books made from snapshots in which every book has its best price first, each order on its own
/// side and none that is to be ignored, are those of the snapshots: the same coins, and for each
/// coin the same bids and the same asks.
pub proof fn law_books_are_those_of_the_snapshots(snapshots: BooksModel, ignore_triggers: bool)
    requires
        forall|k: Seq<char>| #[trigger] snapshots.contains_key(k) ==> plain_book(snapshots[k], ignore_triggers),
    ensures
        ({
            let books = books_from(snapshots, ignore_triggers);
            &&& books.dom() == snapshots.dom()
            &&& forall|k: Seq<char>| #[trigger]
                snapshots.contains_key(k) ==> books[k].bids == snapshots[k].bids && books[k].asks
                    == snapshots[k].asks
            &&& books == snapshots
        }),
{
    let books = books_from(snapshots, ignore_triggers);
    assert forall|k: Seq<char>| #[trigger] snapshots.contains_key(k) implies books[k] == snapshots[k] by {
        assert(plain_book(snapshots[k], ignore_triggers));
        law_snapshot_round_trip(snapshots[k], ignore_triggers);
    }
    assert(books =~= snapshots);
}

/// Whether a book has the highest bid and the lowest ask first, each order on its own side, and
/// none that would be left out.
pub open spec fn plain_book(book: BookModel, ignore_triggers: bool) -> bool {
    &&& forall|i: int, j: int|
        0 <= i < j < book.bids.len() ==> (#[trigger] book.bids[i]).limit_px.0 >= (#[trigger] book.bids[j]).limit_px.0
    &&& forall|i: int, j: int|
        0 <= i < j < book.asks.len() ==> (#[trigger] book.asks[i]).limit_px.0 <= (#[trigger] book.asks[j]).limit_px.0
    &&& forall|i: int|
        0 <= i < book.bids.len() ==> (#[trigger] book.bids[i]).side == Side::Bid && !(ignore_triggers
            && book.bids[i].is_trigger)
    &&& forall|i: int|
        0 <= i < book.asks.len() ==> (#[trigger] book.asks[i]).side == Side::Ask && !(ignore_triggers
            && book.asks[i].is_trigger)
}

/// Whatever snapshots hold, there is a book for each of their coins and for no other, and on each
/// of its sides it holds the orders of that coin's snapshot that are of that side, as often as they
/// are given.
pub proof fn law_books_hold_the_snapshots_orders(
    snapshots: BooksModel,
    ignore_triggers: bool,
    coin: Seq<char>,
    o: OrderModel,
)
    ensures
        ({
            let books = books_from(snapshots, ignore_triggers);
            let given = if ignore_triggers && o.is_trigger {
                0
            } else {
                copies(snapshots[coin].bids, o) + copies(snapshots[coin].asks, o)
            };
            &&& books.contains_key(coin) <==> snapshots.contains_key(coin)
            &&& snapshots.contains_key(coin) ==> match o.side {
                Side::Bid => copies(books[coin].bids, o) == given && copies(books[coin].asks, o) == 0,
                Side::Ask => copies(books[coin].asks, o) == given && copies(books[coin].bids, o) == 0,
            }
        }),
{
    law_book_holds_the_snapshots_orders(snapshots[coin], ignore_triggers, o);
}

/// Snapshots from a list hold the coins of the list and no other, and of each coin the book that
/// the list gives last.
pub proof fn law_listed_books_are_the_last_given(
    list: Seq<(Coin, Snapshot<InnerL4Order>)>,
    coin: Seq<char>,
    i: int,
)
    ensures
        listed_books(list).contains_key(coin) <==> exists|j: int|
            0 <= j < list.len() && (#[trigger] list[j]).0@ == coin,
        0 <= i < list.len() && list[i].0@ == coin && (forall|j: int|
            i < j < list.len() ==> (#[trigger] list[j]).0@ != coin) ==> listed_books(list)[coin] == list[i].1@,
    decreases list.len(),
{
    if list.len() > 0 {
        let t = list.drop_last();
        law_listed_books_are_the_last_given(t, coin, i);
        assert(list[list.len() - 1] == list.last());
        if list.last().0@ != coin {
            if listed_books(t).contains_key(coin) {
                let j = choose|j: int| 0 <= j < t.len() && (#[trigger] t[j]).0@ == coin;
                assert(list[j].0@ == coin);
            }
            if exists|j: int| 0 <= j < list.len() && (#[trigger] list[j]).0@ == coin {
                let j = choose|j: int| 0 <= j < list.len() && (#[trigger] list[j]).0@ == coin;
                assert(t[j].0@ == coin);
            }
            if 0 <= i < list.len() && list[i].0@ == coin && (forall|j: int|
                i < j < list.len() ==> (#[trigger] list[j]).0@ != coin) {
                assert(t[i] == list[i]);
                assert forall|j: int| i < j < t.len() implies (#[trigger] t[j]).0@ != coin by {
                    assert(list[j].0@ != coin);
                }
            }
        } else if 0 <= i < list.len() - 1 {
            assert(list[list.len() - 1].0@ == coin);
        }
    }
}

/// A change of one order concerns the book of its coin alone: every other coin has the book it had, or
/// none. A new order makes a book where there is none; cancelling or resizing an order that no book of
/// the coin holds changes nothing.
pub proof fn law_a_change_concerns_one_coin(
    books: BooksModel,
    o: OrderModel,
    coin: Seq<char>,
    oid: Oid,
    sz: Sz,
    k: Seq<char>,
)
    ensures
        books_with_order(books, o).contains_key(o.coin),
        books.contains_key(o.coin) ==> books_with_order(books, o)[o.coin] == with_order(books[o.coin], o),
        !books.contains_key(o.coin) ==> {
            let made = books_with_order(books, o)[o.coin];
            match o.side {
                Side::Bid => made.bids == seq![o] && made.asks.len() == 0,
                Side::Ask => made.asks == seq![o] && made.bids.len() == 0,
            }
        },
        k != o.coin ==> {
            &&& books_with_order(books, o).contains_key(k) == books.contains_key(k)
            &&& books.contains_key(k) ==> books_with_order(books, o)[k] == books[k]
        },
        books_hold(books, coin, oid) <==> books.contains_key(coin) && !(none_with(books[coin].bids, oid) && none_with(
            books[coin].asks,
            oid,
        )),
        !books_hold(books, coin, oid) ==> books_without_order(books, coin, oid) == books && books_with_size(
            books,
            coin,
            oid,
            sz,
        ) == books,
        books_without_order(books, coin, oid).dom() == books.dom(),
        books_with_size(books, coin, oid, sz).dom() == books.dom(),
        k != coin && books.contains_key(k) ==> books_without_order(books, coin, oid)[k] == books[k]
            && books_with_size(books, coin, oid, sz)[k] == books[k],
        books_hold(books, coin, oid) ==> books_without_order(books, coin, oid)[coin] == without_order(
            books[coin],
            oid,
        ) && books_with_size(books, coin, oid, sz)[coin] == with_size(books[coin], oid, sz),
{
    if books.contains_key(coin) {
        law_orders_are_located(books[coin], oid);
    }
    let empty = BookModel { bids: Seq::empty(), asks: Seq::empty() };
    law_new_order_takes_its_place(empty, o);
    let made = with_order(empty, o);
    if !books.contains_key(o.coin) {
        assert(book_or_empty(books, o.coin) == empty);
        match o.side {
            Side::Bid => {
                assert(made.bids =~= seq![o]);
            },
            Side::Ask => {
                assert(made.asks =~= seq![o]);
            },
        }
    }
    assert(books_without_order(books, coin, oid).dom() =~= books.dom());
    assert(books_with_size(books, coin, oid, sz).dom() =~= books.dom());
}

} // verus!
