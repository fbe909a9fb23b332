//! Books of resting orders, one to a coin, and snapshots of them.

use vstd::prelude::*;

use crate::order::{InnerL4Order, Oid, OrderModel, Px, Side, Sz};

verus! {

/// Two lists, the bids and the asks, best price first.
#[derive(Debug)]
pub struct Snapshot<O> {
    pub bids: Vec<O>,
    pub asks: Vec<O>,
}

/// Two lists by their contents.
pub struct Sides<M> {
    pub bids: Seq<M>,
    pub asks: Seq<M>,
}

/// The orders of one book by their contents.
pub type BookModel = Sides<OrderModel>;

/// The books of all coins by their contents.
pub type BooksModel = Map<Seq<char>, BookModel>;

impl<M> Sides<M> {
    pub open spec fn on(self, side: Side) -> Seq<M> {
        match side {
            Side::Bid => self.bids,
            Side::Ask => self.asks,
        }
    }

    pub open spec fn empty() -> Sides<M> {
        Sides { bids: Seq::empty(), asks: Seq::empty() }
    }

    /// The same with another list on one side.
    pub open spec fn with(self, side: Side, s: Seq<M>) -> Sides<M> {
        match side {
            Side::Bid => Sides { bids: s, asks: self.asks },
            Side::Ask => Sides { bids: self.bids, asks: s },
        }
    }
}

/// The models of a sequence of values.
pub open spec fn each_view<O: View>(s: Seq<O>) -> Seq<O::V> {
    Seq::new(s.len(), |i: int| s[i]@)
}

/// The models of the values of a map.
pub open spec fn values_view<V: View>(m: Map<Seq<char>, V>) -> Map<Seq<char>, V::V> {
    Map::new(|k: Seq<char>| m.contains_key(k), |k: Seq<char>| m[k]@)
}

impl<O: View> View for Snapshot<O> {
    type V = Sides<O::V>;

    open spec fn view(&self) -> Sides<O::V> {
        Sides { bids: each_view(self.bids@), asks: each_view(self.asks@) }
    }
}

impl<O> Snapshot<O> {
    pub fn new(bids: Vec<O>, asks: Vec<O>) -> (r: Self)
        ensures
            r.bids@ == bids@,
            r.asks@ == asks@,
    {
        Snapshot { bids, asks }
    }

    pub(crate) fn on(&self, side: Side) -> (r: &Vec<O>)
        ensures
            r@ == (match side {
                Side::Bid => self.bids@,
                Side::Ask => self.asks@,
            }),
    {
        match side {
            Side::Bid => &self.bids,
            Side::Ask => &self.asks,
        }
    }
}

pub(crate) fn copy_orders(v: &Vec<InnerL4Order>) -> (r: Vec<InnerL4Order>)
    ensures
        r@ == v@,
{
    let r = v.clone();
    assert(r@ =~= v@);
    r
}

impl Snapshot<InnerL4Order> {
    /// A copy.
    pub fn copy(&self) -> (r: Self)
        ensures
            r@ == self@,
    {
        Snapshot { bids: copy_orders(&self.bids), asks: copy_orders(&self.asks) }
    }
}

/// The first place of an order with this number.
pub open spec fn place_of(s: Seq<OrderModel>, oid: Oid) -> Option<int>
    decreases s.len(),
{
    if s.len() == 0 {
        None
    } else {
        match place_of(s.drop_last(), oid) {
            Some(i) => Some(i),
            None => if s.last().oid == oid {
                Some(s.len() - 1)
            } else {
                None
            },
        }
    }
}

/// [`place_of`] is the least place that holds an order with the number, if any does.
pub proof fn lemma_place_of(s: Seq<OrderModel>, oid: Oid)
    ensures
        match place_of(s, oid) {
            Some(i) => 0 <= i < s.len() && s[i].oid == oid && forall|j: int| 0 <= j < i ==> s[j].oid != oid,
            None => forall|j: int| 0 <= j < s.len() ==> s[j].oid != oid,
        },
    decreases s.len(),
{
    if s.len() > 0 {
        let t = s.drop_last();
        lemma_place_of(t, oid);
        assert(forall|j: int| 0 <= j < t.len() ==> t[j] == s[j]);
    }
}

/// [`place_of`] is determined by being the least such place.
proof fn lemma_place_unique(s: Seq<OrderModel>, oid: Oid, i: int)
    requires
        0 <= i < s.len(),
        s[i].oid == oid,
        forall|j: int| 0 <= j < i ==> s[j].oid != oid,
    ensures
        place_of(s, oid) == Some(i),
{
    lemma_place_of(s, oid);
}

fn find_oid(v: &Vec<InnerL4Order>, oid: Oid) -> (r: Option<usize>)
    ensures
        match r {
            Some(i) => i < v@.len() && place_of(each_view(v@), oid) == Some(i as int),
            None => place_of(each_view(v@), oid) == None::<int>,
        },
{
    let mut i: usize = 0;
    while i < v.len()
        invariant
            i <= v@.len(),
            forall|j: int| 0 <= j < i ==> each_view(v@)[j].oid != oid,
        decreases v@.len() - i,
    {
        if v[i].oid() == oid {
            proof {
                lemma_place_unique(each_view(v@), oid, i as int);
            }
            return Some(i);
        }
        i = i + 1;
    }
    proof {
        lemma_place_of(each_view(v@), oid);
    }
    None
}

/// Where a book holds an order: the bids are looked through before the asks.
pub open spec fn located(book: BookModel, oid: Oid) -> Option<(Side, int)> {
    match place_of(book.bids, oid) {
        Some(i) => Some((Side::Bid, i)),
        None => match place_of(book.asks, oid) {
            Some(i) => Some((Side::Ask, i)),
            None => None,
        },
    }
}

/// An order of a snapshot by its number, with its side and place.
pub fn find_order(book: &Snapshot<InnerL4Order>, oid: Oid) -> (r: Option<(Side, usize, &InnerL4Order)>)
    ensures
        match r {
            Some((side, i, order)) => {
                &&& located(book@, oid) == Some((side, i as int))
                &&& i < book@.on(side).len()
                &&& order@ == book@.on(side)[i as int]
            },
            None => located(book@, oid) == None::<(Side, int)>,
        },
        r matches Some((Side::Bid, i, order)) ==> i < book@.bids.len() && order@ == book@.bids[i as int] && order@.oid
            == oid,
        r matches Some((Side::Ask, i, order)) ==> i < book@.asks.len() && order@ == book@.asks[i as int] && order@.oid
            == oid,
{
    proof {
        law_orders_are_located(book@, oid);
    }
    if let Some(i) = find_oid(&book.bids, oid) {
        return Some((Side::Bid, i, &book.bids[i]));
    }
    if let Some(i) = find_oid(&book.asks, oid) {
        return Some((Side::Ask, i, &book.asks[i]));
    }
    None
}

/// Whether a price stands behind another on a side: a lower bid, a higher ask.
pub open spec fn behind(side: Side, a: Px, b: Px) -> bool {
    match side {
        Side::Bid => a.0 < b.0,
        Side::Ask => a.0 > b.0,
    }
}

/// The place an order with this price takes: in front of the first order whose price stands
/// behind it, so behind every order of its own price.
pub open spec fn entry_place(s: Seq<OrderModel>, side: Side, px: Px) -> int
    decreases s.len(),
{
    if s.len() == 0 {
        0
    } else {
        let i = entry_place(s.drop_last(), side, px);
        if i < s.len() - 1 {
            i
        } else if behind(side, s.last().limit_px, px) {
            s.len() - 1
        } else {
            s.len() as int
        }
    }
}

/// [`entry_place`] is the least place whose order stands behind the price, or the end.
pub proof fn lemma_entry_place(s: Seq<OrderModel>, side: Side, px: Px)
    ensures
        0 <= entry_place(s, side, px) <= s.len(),
        forall|j: int| 0 <= j < entry_place(s, side, px) ==> !behind(side, s[j].limit_px, px),
        entry_place(s, side, px) < s.len() ==> behind(side, s[entry_place(s, side, px)].limit_px, px),
    decreases s.len(),
{
    if s.len() > 0 {
        let t = s.drop_last();
        lemma_entry_place(t, side, px);
        assert(forall|j: int| 0 <= j < t.len() ==> t[j] == s[j]);
    }
}

/// Best price first.
pub open spec fn best_first(s: Seq<OrderModel>, side: Side) -> bool {
    forall|i: int, j: int|
        0 <= i < j < s.len() ==> !behind(side, #[trigger] s[i].limit_px, #[trigger] s[j].limit_px)
}

/// Both sides have their best price first, and every order rests on its own side.
pub open spec fn book_in_order(book: BookModel) -> bool {
    &&& best_first(book.bids, Side::Bid)
    &&& best_first(book.asks, Side::Ask)
    &&& forall|i: int| 0 <= i < book.bids.len() ==> (#[trigger] book.bids[i]).side == Side::Bid
    &&& forall|i: int| 0 <= i < book.asks.len() ==> (#[trigger] book.asks[i]).side == Side::Ask
}

/// A book with one more order.
pub open spec fn with_order(book: BookModel, o: OrderModel) -> BookModel {
    let s = book.on(o.side);
    book.with(o.side, s.insert(entry_place(s, o.side, o.limit_px), o))
}

/// A book without an order.
pub open spec fn without_order(book: BookModel, oid: Oid) -> BookModel {
    match located(book, oid) {
        Some((side, i)) => book.with(side, book.on(side).remove(i)),
        None => book,
    }
}

/// An order with another size.
pub open spec fn resized(o: OrderModel, sz: Sz) -> OrderModel {
    OrderModel { sz, ..o }
}

/// A book in which an order has another size.
pub open spec fn with_size(book: BookModel, oid: Oid, sz: Sz) -> BookModel {
    match located(book, oid) {
        Some((side, i)) => book.with(side, book.on(side).update(i, resized(book.on(side)[i], sz))),
        None => book,
    }
}

/// A book with more orders, added one after the other. Trigger orders that have not been
/// triggered are passed over if they are to be ignored.
pub open spec fn with_orders(book: BookModel, s: Seq<OrderModel>, ignore_triggers: bool) -> BookModel
    decreases s.len(),
{
    if s.len() == 0 {
        book
    } else {
        let b = with_orders(book, s.drop_last(), ignore_triggers);
        if ignore_triggers && s.last().is_trigger {
            b
        } else {
            with_order(b, s.last())
        }
    }
}

/// The book that a snapshot describes.
pub open spec fn book_from(snapshot: BookModel, ignore_triggers: bool) -> BookModel {
    with_orders(with_orders(Sides::empty(), snapshot.bids, ignore_triggers), snapshot.asks, ignore_triggers)
}

/// The resting orders of one coin.
pub struct OrderBook {
    bids: Vec<InnerL4Order>,
    asks: Vec<InnerL4Order>,
}

impl View for OrderBook {
    type V = BookModel;

    closed spec fn view(&self) -> BookModel {
        Sides { bids: each_view(self.bids@), asks: each_view(self.asks@) }
    }
}

fn place_for(v: &Vec<InnerL4Order>, side: Side, px: Px) -> (r: usize)
    ensures
        r <= v@.len(),
        r == entry_place(each_view(v@), side, px),
{
    proof {
        lemma_entry_place(each_view(v@), side, px);
    }
    let mut i: usize = 0;
    while i < v.len()
        invariant
            i <= v@.len(),
            forall|j: int| 0 <= j < i ==> !behind(side, each_view(v@)[j].limit_px, px),
        decreases v@.len() - i,
    {
        let there: Px = v[i].limit_px;
        let stands_behind = match side {
            Side::Bid => there.0 < px.0,
            Side::Ask => there.0 > px.0,
        };
        assert(each_view(v@)[i as int].limit_px == there);
        if stands_behind {
            proof {
                lemma_entry_place(each_view(v@), side, px);
            }
            return i;
        }
        i = i + 1;
    }
    proof {
        lemma_entry_place(each_view(v@), side, px);
    }
    i
}

fn insert_at(v: &mut Vec<InnerL4Order>, i: usize, order: InnerL4Order)
    requires
        i <= old(v)@.len(),
    ensures
        each_view(final(v)@) == each_view(old(v)@).insert(i as int, order@),
{
    v.insert(i, order);
    assert(each_view(v@) =~= each_view(old(v)@).insert(i as int, order@));
}

fn remove_at(v: &mut Vec<InnerL4Order>, i: usize)
    requires
        i < old(v)@.len(),
    ensures
        each_view(final(v)@) == each_view(old(v)@).remove(i as int),
{
    let _ = v.remove(i);
    assert(each_view(v@) =~= each_view(old(v)@).remove(i as int));
}

fn resize_at(v: &mut Vec<InnerL4Order>, i: usize, sz: Sz)
    requires
        i < old(v)@.len(),
    ensures
        each_view(final(v)@) == each_view(old(v)@).update(
            i as int,
            resized(each_view(old(v)@)[i as int], sz),
        ),
{
    v[i].sz = sz;
    assert(each_view(v@) =~= each_view(old(v)@).update(i as int, resized(each_view(old(v)@)[i as int], sz)));
}

impl OrderBook {
    pub fn new() -> (r: Self)
        ensures
            r@ == Sides::<OrderModel>::empty(),
    {
        let r = OrderBook { bids: Vec::new(), asks: Vec::new() };
        assert(r@.bids =~= Seq::empty());
        assert(r@.asks =~= Seq::empty());
        r
    }

    /// Puts an order on its side, behind every order of its price.
    pub fn add_order(&mut self, order: InnerL4Order)
        ensures
            final(self)@ == with_order(old(self)@, order@),
    {
        let side = order.side;
        let px = order.limit_px;
        match side {
            Side::Bid => {
                let i: usize = place_for(&self.bids, side, px);
                insert_at(&mut self.bids, i, order);
            },
            Side::Ask => {
                let i: usize = place_for(&self.asks, side, px);
                insert_at(&mut self.asks, i, order);
            },
        }
    }

    /// Takes an order off the book, and says whether it was there.
    pub fn cancel_order(&mut self, oid: Oid) -> (r: bool)
        ensures
            r == located(old(self)@, oid).is_some(),
            final(self)@ == without_order(old(self)@, oid),
    {
        if let Some(i) = find_oid(&self.bids, oid) {
            remove_at(&mut self.bids, i);
            return true;
        }
        if let Some(i) = find_oid(&self.asks, oid) {
            remove_at(&mut self.asks, i);
            return true;
        }
        false
    }

    /// Gives an order another size, and says whether it was there.
    pub fn modify_sz(&mut self, oid: Oid, sz: Sz) -> (r: bool)
        ensures
            r == located(old(self)@, oid).is_some(),
            final(self)@ == with_size(old(self)@, oid, sz),
    {
        if let Some(i) = find_oid(&self.bids, oid) {
            resize_at(&mut self.bids, i, sz);
            return true;
        }
        if let Some(i) = find_oid(&self.asks, oid) {
            resize_at(&mut self.asks, i, sz);
            return true;
        }
        false
    }

    /// Puts orders on the book one after the other.
    fn add_orders(&mut self, orders: &Vec<InnerL4Order>, ignore_triggers: bool)
        ensures
            final(self)@ == with_orders(old(self)@, each_view(orders@), ignore_triggers),
    {
        let ghost all = each_view(orders@);
        let ghost start = self@;
        let mut i: usize = 0;
        assert(all.take(0).len() == 0);
        while i < orders.len()
            invariant
                i <= orders@.len(),
                all == each_view(orders@),
                self@ == with_orders(start, all.take(i as int), ignore_triggers),
            decreases orders@.len() - i,
        {
            assert(all.take(i + 1).drop_last() =~= all.take(i as int));
            assert(all.take(i + 1).last() == orders@[i as int]@);
            if !(ignore_triggers && orders[i].is_trigger) {
                self.add_order(orders[i].clone());
            }
            i = i + 1;
        }
        assert(all.take(i as int) =~= all);
    }

    pub fn from_snapshot(snapshot: &Snapshot<InnerL4Order>, ignore_triggers: bool) -> (r: Self)
        ensures
            r@ == book_from(snapshot@, ignore_triggers),
    {
        let mut book = OrderBook::new();
        book.add_orders(&snapshot.bids, ignore_triggers);
        book.add_orders(&snapshot.asks, ignore_triggers);
        book
    }

    pub fn to_snapshot(&self) -> (r: Snapshot<InnerL4Order>)
        ensures
            r@ == self@,
    {
        Snapshot { bids: copy_orders(&self.bids), asks: copy_orders(&self.asks) }
    }

    pub(crate) fn copy(&self) -> (r: Self)
        ensures
            r@ == self@,
    {
        OrderBook { bids: copy_orders(&self.bids), asks: copy_orders(&self.asks) }
    }

    /// The orders of one side.
    pub(crate) fn on(&self, side: Side) -> (r: &Vec<InnerL4Order>)
        ensures
            each_view(r@) == self@.on(side),
    {
        match side {
            Side::Bid => &self.bids,
            Side::Ask => &self.asks,
        }
    }
}

/// Adding an order keeps the best price first.
pub proof fn law_adding_keeps_order(book: BookModel, o: OrderModel)
    requires
        book_in_order(book),
    ensures
        book_in_order(with_order(book, o)),
{
    let s = book.on(o.side);
    lemma_entry_place(s, o.side, o.limit_px);
    let p = entry_place(s, o.side, o.limit_px);
    let t = s.insert(p, o);
    assert forall|i: int, j: int| 0 <= i < j < t.len() implies !behind(
        o.side,
        #[trigger] t[i].limit_px,
        #[trigger] t[j].limit_px,
    ) by {
        if i < p && j > p {
            assert(t[i] == s[i] && t[j] == s[j - 1]);
        } else if j < p {
            assert(t[i] == s[i] && t[j] == s[j]);
        } else if i > p {
            assert(t[i] == s[i - 1] && t[j] == s[j - 1]);
        } else if i == p {
            assert(t[j] == s[j - 1]);
            assert(p <= j - 1);
        } else {
            assert(t[i] == s[i]);
        }
    }
}

/// Taking an order off keeps the best price first.
pub proof fn law_cancelling_keeps_order(book: BookModel, oid: Oid)
    requires
        book_in_order(book),
    ensures
        book_in_order(without_order(book, oid)),
{
    lemma_place_of(book.bids, oid);
    lemma_place_of(book.asks, oid);
}

/// Changing a size keeps the best price first.
pub proof fn law_resizing_keeps_order(book: BookModel, oid: Oid, sz: Sz)
    requires
        book_in_order(book),
    ensures
        book_in_order(with_size(book, oid, sz)),
{
    lemma_place_of(book.bids, oid);
    lemma_place_of(book.asks, oid);
}

proof fn lemma_adding_many_keeps_order(book: BookModel, s: Seq<OrderModel>, ignore_triggers: bool)
    requires
        book_in_order(book),
    ensures
        book_in_order(with_orders(book, s, ignore_triggers)),
    decreases s.len(),
{
    if s.len() > 0 {
        lemma_adding_many_keeps_order(book, s.drop_last(), ignore_triggers);
        law_adding_keeps_order(with_orders(book, s.drop_last(), ignore_triggers), s.last());
    }
}

/// Whatever a snapshot holds, the book made from it has its best price first.
pub proof fn law_book_from_snapshot_is_in_order(snapshot: BookModel, ignore_triggers: bool)
    ensures
        book_in_order(book_from(snapshot, ignore_triggers)),
{
    lemma_adding_many_keeps_order(Sides::empty(), snapshot.bids, ignore_triggers);
    lemma_adding_many_keeps_order(
        with_orders(Sides::empty(), snapshot.bids, ignore_triggers),
        snapshot.asks,
        ignore_triggers,
    );
}

/// No order of a list would be passed over.
pub open spec fn none_ignored(s: Seq<OrderModel>, ignore_triggers: bool) -> bool {
    ignore_triggers ==> forall|i: int| 0 <= i < s.len() ==> !(#[trigger] s[i]).is_trigger
}

proof fn lemma_adding_in_order(book: BookModel, s: Seq<OrderModel>, side: Side, ignore_triggers: bool)
    requires
        best_first(s, side),
        forall|i: int| 0 <= i < s.len() ==> (#[trigger] s[i]).side == side,
        none_ignored(s, ignore_triggers),
        book.on(side).len() == 0,
    ensures
        with_orders(book, s, ignore_triggers) == book.with(side, s),
    decreases s.len(),
{
    if s.len() == 0 {
        assert(book.on(side) =~= s);
    } else {
        let t = s.drop_last();
        assert forall|i: int| 0 <= i < t.len() implies (#[trigger] t[i]).side == side by {
            assert(t[i] == s[i]);
        }
        assert(none_ignored(t, ignore_triggers)) by {
            assert forall|i: int| ignore_triggers && 0 <= i < t.len() implies !(#[trigger] t[i]).is_trigger by {
                assert(t[i] == s[i]);
            }
        }
        lemma_adding_in_order(book, t, side, ignore_triggers);
        let o = s[s.len() - 1];
        assert(o.side == side);
        lemma_entry_place(t, side, o.limit_px);
        let p = entry_place(t, side, o.limit_px);
        if p < t.len() {
            assert(t[p] == s[p]);
            assert(behind(side, s[p].limit_px, o.limit_px));
            // a price behind a later one contradicts the order, whichever side it is on
            assert(!behind(side, s[p].limit_px, s[s.len() - 1].limit_px));
        }
        assert(t.insert(p, o) =~= s);
    }
}

/// A book is what its own snapshot describes: taking a snapshot and building a book from it
/// gives the same book back, unless it holds trigger orders that are to be ignored.
pub proof fn law_snapshot_round_trip(book: BookModel, ignore_triggers: bool)
    requires
        book_in_order(book),
        none_ignored(book.bids, ignore_triggers),
        none_ignored(book.asks, ignore_triggers),
    ensures
        book_from(book, ignore_triggers) == book,
{
    lemma_adding_in_order(Sides::empty(), book.bids, Side::Bid, ignore_triggers);
    lemma_adding_in_order(
        Sides::<OrderModel>::empty().with(Side::Bid, book.bids),
        book.asks,
        Side::Ask,
        ignore_triggers,
    );
}

/// A book without trigger orders.
pub open spec fn without_triggers(book: BookModel) -> bool {
    none_ignored(book.bids, true) && none_ignored(book.asks, true)
}

/// Whatever is done to a book without trigger orders leaves it so, unless one is added.
pub proof fn law_changes_bring_no_triggers(book: BookModel, o: OrderModel, oid: Oid, sz: Sz)
    requires
        without_triggers(book),
    ensures
        !o.is_trigger ==> without_triggers(with_order(book, o)),
        without_triggers(without_order(book, oid)),
        without_triggers(with_size(book, oid, sz)),
{
    lemma_place_of(book.bids, oid);
    lemma_place_of(book.asks, oid);
    let s = book.on(o.side);
    lemma_entry_place(s, o.side, o.limit_px);
    let p = entry_place(s, o.side, o.limit_px);
    let t = s.insert(p, o);
    if !o.is_trigger {
        assert forall|i: int| 0 <= i < t.len() implies !(#[trigger] t[i]).is_trigger by {
            if i < p {
                assert(t[i] == s[i]);
            } else if i > p {
                assert(t[i] == s[i - 1]);
            }
        }
    }
}

proof fn lemma_adding_many_brings_no_triggers(book: BookModel, s: Seq<OrderModel>)
    requires
        without_triggers(book),
    ensures
        without_triggers(with_orders(book, s, true)),
    decreases s.len(),
{
    if s.len() > 0 {
        lemma_adding_many_brings_no_triggers(book, s.drop_last());
        law_changes_bring_no_triggers(with_orders(book, s.drop_last(), true), s.last(), 0, Sz(0));
    }
}

/// A book made from a snapshot with trigger orders ignored holds none.
pub proof fn law_ignored_triggers_stay_out(snapshot: BookModel)
    ensures
        without_triggers(book_from(snapshot, true)),
{
    lemma_adding_many_brings_no_triggers(Sides::empty(), snapshot.bids);
    lemma_adding_many_brings_no_triggers(with_orders(Sides::empty(), snapshot.bids, true), snapshot.asks);
}

/// Where a new order goes: into the list of its side, behind every order of its own or a better
/// price up to the first of a worse one. The other side stays as it is.
pub proof fn law_new_order_takes_its_place(book: BookModel, o: OrderModel)
    ensures
        ({
            let after = with_order(book, o);
            match o.side {
                Side::Bid => {
                    &&& after.asks == book.asks
                    &&& exists|p: int|
                        0 <= p <= book.bids.len() && after.bids == #[trigger] book.bids.insert(p, o) && (
                        forall|j: int| 0 <= j < p ==> (#[trigger] book.bids[j]).limit_px.0 >= o.limit_px.0) && (p
                            < book.bids.len() ==> book.bids[p].limit_px.0 < o.limit_px.0)
                },
                Side::Ask => {
                    &&& after.bids == book.bids
                    &&& exists|p: int|
                        0 <= p <= book.asks.len() && after.asks == #[trigger] book.asks.insert(p, o) && (
                        forall|j: int| 0 <= j < p ==> (#[trigger] book.asks[j]).limit_px.0 <= o.limit_px.0) && (p
                            < book.asks.len() ==> book.asks[p].limit_px.0 > o.limit_px.0)
                },
            }
        }),
{
    let s = match o.side {
        Side::Bid => book.bids,
        Side::Ask => book.asks,
    };
    lemma_entry_place(s, o.side, o.limit_px);
    let p = entry_place(s, o.side, o.limit_px);
    assert(s.insert(p, o) == s.insert(p, o));
}

/// Whether a place is the first of a list that holds an order with a number.
pub open spec fn first_with(s: Seq<OrderModel>, oid: Oid, i: int) -> bool {
    &&& 0 <= i < s.len()
    &&& s[i].oid == oid
    &&& forall|j: int| 0 <= j < i ==> (#[trigger] s[j]).oid != oid
}

/// Whether no order of a list has a number.
pub open spec fn none_with(s: Seq<OrderModel>, oid: Oid) -> bool {
    forall|j: int| 0 <= j < s.len() ==> (#[trigger] s[j]).oid != oid
}

/// Taking an order off takes out the first one with its number, bids before asks, and nothing
/// else; the others keep their places.
pub proof fn law_cancelling_takes_out_one_order(book: BookModel, oid: Oid, i: int)
    ensures
        ({
            let after = without_order(book, oid);
            &&& first_with(book.bids, oid, i) ==> after.bids == book.bids.remove(i) && after.asks == book.asks
            &&& none_with(book.bids, oid) && first_with(book.asks, oid, i) ==> after.bids == book.bids
                && after.asks == book.asks.remove(i)
            &&& none_with(book.bids, oid) && none_with(book.asks, oid) ==> after == book
        }),
{
    lemma_place_of(book.bids, oid);
    lemma_place_of(book.asks, oid);
    if first_with(book.bids, oid, i) {
        lemma_place_unique(book.bids, oid, i);
    }
    if first_with(book.asks, oid, i) {
        lemma_place_unique(book.asks, oid, i);
    }
}

/// Changing a size changes that of the first order with the number, bids before asks, and nothing
/// else of it or of the others.
pub proof fn law_resizing_changes_one_size(book: BookModel, oid: Oid, sz: Sz, i: int)
    ensures
        ({
            let after = with_size(book, oid, sz);
            &&& first_with(book.bids, oid, i) ==> after.asks == book.asks && after.bids == book.bids.update(
                i,
                OrderModel { sz, ..book.bids[i] },
            )
            &&& none_with(book.bids, oid) && first_with(book.asks, oid, i) ==> after.bids == book.bids
                && after.asks == book.asks.update(i, OrderModel { sz, ..book.asks[i] })
            &&& none_with(book.bids, oid) && none_with(book.asks, oid) ==> after == book
        }),
{
    lemma_place_of(book.bids, oid);
    lemma_place_of(book.asks, oid);
    if first_with(book.bids, oid, i) {
        lemma_place_unique(book.bids, oid, i);
    }
    if first_with(book.asks, oid, i) {
        lemma_place_unique(book.asks, oid, i);
    }
}

/// An order is found at its first place, bids before asks, and only there.
pub proof fn law_orders_are_located(book: BookModel, oid: Oid)
    ensures
        match located(book, oid) {
            Some((Side::Bid, i)) => first_with(book.bids, oid, i),
            Some((Side::Ask, i)) => none_with(book.bids, oid) && first_with(book.asks, oid, i),
            None => none_with(book.bids, oid) && none_with(book.asks, oid),
        },
{
    lemma_place_of(book.bids, oid);
    lemma_place_of(book.asks, oid);
}

/// How many copies of an order a list holds.
pub open spec fn copies(s: Seq<OrderModel>, o: OrderModel) -> nat
    decreases s.len(),
{
    if s.len() == 0 {
        0
    } else {
        copies(s.drop_last(), o) + if s.last() == o {
            1nat
        } else {
            0
        }
    }
}

proof fn lemma_copies_insert(s: Seq<OrderModel>, p: int, x: OrderModel, o: OrderModel)
    requires
        0 <= p <= s.len(),
    ensures
        copies(s.insert(p, x), o) == copies(s, o) + if x == o {
            1nat
        } else {
            0
        },
    decreases s.len(),
{
    let t = s.insert(p, x);
    if p == s.len() {
        assert(t.drop_last() =~= s);
    } else {
        assert(t.drop_last() =~= s.drop_last().insert(p, x));
        assert(t.last() == s.last());
        lemma_copies_insert(s.drop_last(), p, x, o);
    }
}

proof fn lemma_copies_with_orders(book: BookModel, s: Seq<OrderModel>, ignore_triggers: bool, o: OrderModel)
    ensures
        ({
            let after = with_orders(book, s, ignore_triggers);
            let more = if ignore_triggers && o.is_trigger {
                0
            } else {
                copies(s, o)
            };
            &&& copies(after.bids, o) == copies(book.bids, o) + if o.side == Side::Bid {
                more
            } else {
                0
            }
            &&& copies(after.asks, o) == copies(book.asks, o) + if o.side == Side::Ask {
                more
            } else {
                0
            }
        }),
    decreases s.len(),
{
    if s.len() > 0 {
        lemma_copies_with_orders(book, s.drop_last(), ignore_triggers, o);
        let b = with_orders(book, s.drop_last(), ignore_triggers);
        let x = s.last();
        lemma_entry_place(b.on(x.side), x.side, x.limit_px);
        lemma_copies_insert(b.on(x.side), entry_place(b.on(x.side), x.side, x.limit_px), x, o);
    }
}

/// A book made from a snapshot holds every order of it, as often as the snapshot does, on the side
/// of the order, and no other; trigger orders are left out if they are to be ignored.
pub proof fn law_book_holds_the_snapshots_orders(snapshot: BookModel, ignore_triggers: bool, o: OrderModel)
    ensures
        ({
            let book = book_from(snapshot, ignore_triggers);
            let given = if ignore_triggers && o.is_trigger {
                0
            } else {
                copies(snapshot.bids, o) + copies(snapshot.asks, o)
            };
            match o.side {
                Side::Bid => copies(book.bids, o) == given && copies(book.asks, o) == 0,
                Side::Ask => copies(book.asks, o) == given && copies(book.bids, o) == 0,
            }
        }),
{
    let e = Sides::<OrderModel>::empty();
    lemma_copies_with_orders(e, snapshot.bids, ignore_triggers, o);
    lemma_copies_with_orders(
        with_orders(e, snapshot.bids, ignore_triggers),
        snapshot.asks,
        ignore_triggers,
        o,
    );
}

} // verus!
