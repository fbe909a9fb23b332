//! Aggregated books: orders summed up by price.

use vstd::prelude::*;
use rayon::iter::{IntoParallelRefIterator, ParallelIterator};

use crate::coin_map::{distinct_keys, entries_map, CoinMap};
use crate::multi_book::OrderBooks;
use crate::order::{InnerL4Order, OrderModel, Side};
use crate::order_book::{each_view, values_view, BookModel, BooksModel, OrderBook, Sides, Snapshot};
use crate::rounding::{
    bucket, bucket_of, coarsens, law_coarse_from_fine, law_rounding_keeps_the_order_of_prices, px_limit,
    L2SnapshotParams,
};

verus! {

/// The orders of one price: their total size and their number.
#[derive(Debug, Clone, Copy, PartialEq, Eq, Structural)]
pub struct InnerLevel {
    pub px: u128,
    pub sz: u128,
    pub n: usize,
}

pub struct LevelModel {
    pub px: nat,
    pub sz: nat,
    pub n: nat,
}

impl View for InnerLevel {
    type V = LevelModel;

    open spec fn view(&self) -> LevelModel {
        LevelModel { px: self.px as nat, sz: self.sz as nat, n: self.n as nat }
    }
}

/// The levels of both sides.
pub type LevelsModel = Sides<LevelModel>;

/// Levels with one more at the end, merged into the last one if the price is the same.
pub open spec fn with_level(s: Seq<LevelModel>, l: LevelModel) -> Seq<LevelModel> {
    if s.len() > 0 && s.last().px == l.px {
        s.drop_last().push(LevelModel { px: l.px, sz: s.last().sz + l.sz, n: s.last().n + l.n })
    } else {
        s.push(l)
    }
}

/// A level at the price where an aggregation counts it.
pub open spec fn moved(l: LevelModel, side: Side, params: L2SnapshotParams) -> LevelModel {
    LevelModel { px: bucket(l.px, side, params), ..l }
}

/// The aggregation of a list of levels: neighbours that fall on one price are summed up.
pub open spec fn grouped(s: Seq<LevelModel>, side: Side, params: L2SnapshotParams) -> Seq<LevelModel>
    decreases s.len(),
{
    if s.len() == 0 {
        Seq::empty()
    } else {
        with_level(grouped(s.drop_last(), side, params), moved(s.last(), side, params))
    }
}

/// Each order as a level of its own.
pub open spec fn order_levels(s: Seq<OrderModel>) -> Seq<LevelModel> {
    Seq::new(
        s.len(),
        |i: int| LevelModel { px: s[i].limit_px.0 as nat, sz: s[i].sz.0 as nat, n: 1 },
    )
}

/// The aggregation of a book.
pub open spec fn l2_of(book: BookModel, params: L2SnapshotParams) -> LevelsModel {
    Sides {
        bids: grouped(order_levels(book.bids), Side::Bid, params),
        asks: grouped(order_levels(book.asks), Side::Ask, params),
    }
}

/// The aggregations that are kept of each book.
pub open spec fn l2_variants() -> Seq<L2SnapshotParams> {
    seq![
        L2SnapshotParams { n_sig_figs: None, mantissa: None },
        L2SnapshotParams { n_sig_figs: Some(5), mantissa: None },
        L2SnapshotParams { n_sig_figs: Some(5), mantissa: Some(2) },
        L2SnapshotParams { n_sig_figs: Some(5), mantissa: Some(5) },
        L2SnapshotParams { n_sig_figs: Some(4), mantissa: None },
        L2SnapshotParams { n_sig_figs: Some(3), mantissa: None },
        L2SnapshotParams { n_sig_figs: Some(2), mantissa: None },
    ]
}

/// The kept aggregations of one book, each with its parameters.
pub type L2ListModel = Seq<(L2SnapshotParams, LevelsModel)>;

pub open spec fn l2_list(book: BookModel) -> L2ListModel {
    Seq::new(l2_variants().len(), |i: int| (l2_variants()[i], l2_of(book, l2_variants()[i])))
}

/// The kept aggregations of all books.
pub type L2Model = Map<Seq<char>, L2ListModel>;

pub open spec fn l2_model(books: BooksModel) -> L2Model {
    Map::new(|k: Seq<char>| books.contains_key(k), |k: Seq<char>| l2_list(books[k]))
}

/// The entry of a list with given parameters: the first, if there are several.
pub open spec fn l2_entry(s: L2ListModel, params: L2SnapshotParams) -> Option<LevelsModel>
    decreases s.len(),
{
    if s.len() == 0 {
        None
    } else if s[0].0 == params {
        Some(s[0].1)
    } else {
        l2_entry(s.drop_first(), params)
    }
}

pub type L2List = Vec<(L2SnapshotParams, Snapshot<InnerLevel>)>;

pub open spec fn l2_list_view(s: Seq<(L2SnapshotParams, Snapshot<InnerLevel>)>) -> L2ListModel {
    Seq::new(s.len(), |i: int| (s[i].0, s[i].1@))
}

spec fn total_sz(s: Seq<LevelModel>) -> nat
    decreases s.len(),
{
    if s.len() == 0 {
        0
    } else {
        total_sz(s.drop_last()) + s.last().sz
    }
}

spec fn total_n(s: Seq<LevelModel>) -> nat
    decreases s.len(),
{
    if s.len() == 0 {
        0
    } else {
        total_n(s.drop_last()) + s.last().n
    }
}

/// Prices within the limit, and totals that machine numbers can hold.
spec fn levels_fit(s: Seq<LevelModel>) -> bool {
    &&& forall|i: int| 0 <= i < s.len() ==> (#[trigger] s[i]).px <= px_limit()
    &&& total_sz(s) <= u128::MAX
    &&& total_n(s) <= usize::MAX
}

proof fn lemma_totals_with_level(s: Seq<LevelModel>, l: LevelModel)
    ensures
        total_sz(with_level(s, l)) == total_sz(s) + l.sz,
        total_n(with_level(s, l)) == total_n(s) + l.n,
{
    if s.len() > 0 && s.last().px == l.px {
        let m = LevelModel { px: l.px, sz: s.last().sz + l.sz, n: s.last().n + l.n };
        assert(s.drop_last().push(m).drop_last() =~= s.drop_last());
    } else {
        assert(s.push(l).drop_last() =~= s);
    }
}

proof fn lemma_totals_grouped(s: Seq<LevelModel>, side: Side, params: L2SnapshotParams)
    ensures
        total_sz(grouped(s, side, params)) == total_sz(s),
        total_n(grouped(s, side, params)) == total_n(s),
    decreases s.len(),
{
    if s.len() > 0 {
        lemma_totals_grouped(s.drop_last(), side, params);
        lemma_totals_with_level(grouped(s.drop_last(), side, params), moved(s.last(), side, params));
    }
}

proof fn lemma_totals_prefix(s: Seq<LevelModel>, i: int)
    requires
        0 <= i <= s.len(),
    ensures
        total_sz(s.take(i)) <= total_sz(s),
        total_n(s.take(i)) <= total_n(s),
    decreases s.len(),
{
    if i < s.len() {
        lemma_totals_prefix(s.drop_last(), i);
        assert(s.drop_last().take(i) =~= s.take(i));
    } else {
        assert(s.take(i) =~= s);
    }
}

proof fn lemma_totals_of_orders(s: Seq<OrderModel>)
    ensures
        total_sz(order_levels(s)) <= s.len() * 0xffff_ffff_ffff_ffff,
        total_n(order_levels(s)) == s.len(),
    decreases s.len(),
{
    if s.len() > 0 {
        lemma_totals_of_orders(s.drop_last());
        assert(order_levels(s).drop_last() =~= order_levels(s.drop_last()));
        assert((s.len() - 1) * 0xffff_ffff_ffff_ffff + 0xffff_ffff_ffff_ffff == s.len() * 0xffff_ffff_ffff_ffff);
    }
}

proof fn lemma_orders_fit(s: Seq<OrderModel>)
    requires
        s.len() <= usize::MAX,
    ensures
        levels_fit(order_levels(s)),
{
    lemma_totals_of_orders(s);
    assert(s.len() * 0xffff_ffff_ffff_ffff <= u128::MAX) by (nonlinear_arith)
        requires
            s.len() <= 0xffff_ffff_ffff_ffff,
    ;
    assert(px_limit() == 100000000000000000000) by {
        reveal_with_fuel(crate::rounding::pow10, 21);
    }
}

/// Adding two levels of one price is adding their sum.
proof fn lemma_with_level_twice(s: Seq<LevelModel>, a: LevelModel, b: LevelModel)
    requires
        a.px == b.px,
    ensures
        with_level(with_level(s, a), b) == with_level(
            s,
            (LevelModel { px: a.px, sz: a.sz + b.sz, n: a.n + b.n }),
        ),
{
    let ab = LevelModel { px: a.px, sz: a.sz + b.sz, n: a.n + b.n };
    if s.len() > 0 && s.last().px == a.px {
        let m = LevelModel { px: a.px, sz: s.last().sz + a.sz, n: s.last().n + a.n };
        assert(s.drop_last().push(m).drop_last() =~= s.drop_last());
        assert(with_level(with_level(s, a), b) =~= with_level(s, ab));
    } else {
        assert(s.push(a).drop_last() =~= s);
        assert(with_level(with_level(s, a), b) =~= with_level(s, ab));
    }
}

/// An aggregation of a list can be computed from any finer aggregation of it.
pub proof fn law_coarse_levels_from_fine(
    s: Seq<LevelModel>,
    side: Side,
    fine: L2SnapshotParams,
    coarse: L2SnapshotParams,
)
    requires
        coarsens(fine, coarse),
    ensures
        grouped(grouped(s, side, fine), side, coarse) == grouped(s, side, coarse),
    decreases s.len(),
{
    if s.len() > 0 {
        let t = s.drop_last();
        let x = s.last();
        law_coarse_levels_from_fine(t, side, fine, coarse);
        law_coarse_from_fine(x.px, side, fine, coarse);
        let g = grouped(t, side, fine);
        let x1 = moved(x, side, fine);
        if g.len() > 0 && g.last().px == x1.px {
            let l = g.last();
            let m = LevelModel { px: x1.px, sz: l.sz + x1.sz, n: l.n + x1.n };
            assert(g.drop_last().push(m).drop_last() =~= g.drop_last());
            lemma_with_level_twice(
                grouped(g.drop_last(), side, coarse),
                moved(l, side, coarse),
                moved(x, side, coarse),
            );
        } else {
            assert(g.push(x1).drop_last() =~= g);
        }
    }
}

/// Aggregates a list of levels.
fn group_levels(items: &Vec<InnerLevel>, side: Side, params: L2SnapshotParams) -> (r: Vec<InnerLevel>)
    requires
        params.offered(),
        levels_fit(each_view(items@)),
    ensures
        each_view(r@) == grouped(each_view(items@), side, params),
        levels_fit(each_view(r@)),
{
    let ghost all = each_view(items@);
    let mut levels: Vec<InnerLevel> = Vec::new();
    let mut i: usize = 0;
    assert(each_view(levels@) =~= grouped(all.take(0), side, params));
    while i < items.len()
        invariant
            i <= items@.len(),
            all == each_view(items@),
            params.offered(),
            levels_fit(all),
            each_view(levels@) == grouped(all.take(i as int), side, params),
            forall|j: int| 0 <= j < levels@.len() ==> (#[trigger] levels@[j]).px <= px_limit(),
        decreases items@.len() - i,
    {
        let ghost before = each_view(levels@);
        let ghost mark = all.take(i + 1);
        proof {
            assert(mark.drop_last() =~= all.take(i as int));
            assert(mark.last() == all[i as int]);
            lemma_totals_prefix(all, i + 1);
            lemma_totals_grouped(all.take(i as int), side, params);
            assert(all[i as int] == items@[i as int]@);
        }
        let item: InnerLevel = items[i];
        let px: u128 = bucket_of(item.px, side, params);
        let count: usize = levels.len();
        assert(each_view(levels@).len() == count);
        if count > 0 && levels[count - 1].px == px {
            let last: InnerLevel = levels[count - 1];
            assert(before.last() == last@);
            assert(total_sz(before) == total_sz(before.drop_last()) + last.sz);
            assert(total_n(before) == total_n(before.drop_last()) + last.n);
            let merged = InnerLevel { px, sz: last.sz + item.sz, n: last.n + item.n };
            let _ = levels.pop();
            levels.push(merged);
            assert(each_view(levels@) =~= with_level(before, moved(item@, side, params)));
        } else {
            levels.push(InnerLevel { px, sz: item.sz, n: item.n });
            assert(each_view(levels@) =~= with_level(before, moved(item@, side, params)));
        }
        i = i + 1;
    }
    proof {
        assert(all.take(i as int) =~= all);
        lemma_totals_grouped(all, side, params);
        assert forall|j: int| 0 <= j < each_view(levels@).len() implies (#[trigger] each_view(levels@)[j]).px
            <= px_limit() by {
            assert(levels@[j].px <= px_limit());
        }
    }
    levels
}

/// Each order as a level of its own.
fn levels_from_orders(orders: &Vec<InnerL4Order>) -> (r: Vec<InnerLevel>)
    ensures
        each_view(r@) == order_levels(each_view(orders@)),
        levels_fit(each_view(r@)),
{
    let mut levels: Vec<InnerLevel> = Vec::new();
    let mut i: usize = 0;
    while i < orders.len()
        invariant
            i <= orders@.len(),
            levels@.len() == i,
            forall|j: int| 0 <= j < i ==> (#[trigger] levels@[j])@ == order_levels(each_view(orders@))[j],
        decreases orders@.len() - i,
    {
        levels.push(InnerLevel { px: orders[i].limit_px.0 as u128, sz: orders[i].sz.0 as u128, n: 1 });
        i = i + 1;
    }
    assert(each_view(levels@) =~= order_levels(each_view(orders@)));
    proof {
        assert(orders@.len() == orders.len());
        lemma_orders_fit(each_view(orders@));
    }
    levels
}

spec fn sides_fit(s: LevelsModel) -> bool {
    levels_fit(s.bids) && levels_fit(s.asks)
}

impl Snapshot<InnerLevel> {
    /// A coarser aggregation of levels.
    fn to_l2_snapshot(&self, params: L2SnapshotParams) -> (r: Self)
        requires
            params.offered(),
            sides_fit(self@),
        ensures
            r@.bids == grouped(self@.bids, Side::Bid, params),
            r@.asks == grouped(self@.asks, Side::Ask, params),
            sides_fit(r@),
    {
        Snapshot {
            bids: group_levels(&self.bids, Side::Bid, params),
            asks: group_levels(&self.asks, Side::Ask, params),
        }
    }

    /// The first levels of both sides.
    pub fn truncate(&self, n: usize) -> (r: Self)
        ensures
            r@ == truncated(self@, n),
    {
        Snapshot { bids: first_levels(&self.bids, n), asks: first_levels(&self.asks, n) }
    }
}

/// The first levels of both sides.
pub open spec fn truncated(s: LevelsModel, n: usize) -> LevelsModel {
    Sides {
        bids: if n < s.bids.len() {
            s.bids.take(n as int)
        } else {
            s.bids
        },
        asks: if n < s.asks.len() {
            s.asks.take(n as int)
        } else {
            s.asks
        },
    }
}

fn first_levels(v: &Vec<InnerLevel>, n: usize) -> (r: Vec<InnerLevel>)
    ensures
        each_view(r@) == (if n < v@.len() {
            each_view(v@).take(n as int)
        } else {
            each_view(v@)
        }),
{
    let count: usize = if n < v.len() {
        n
    } else {
        v.len()
    };
    let mut r: Vec<InnerLevel> = Vec::new();
    let mut i: usize = 0;
    while i < count
        invariant
            i <= count <= v@.len(),
            r@ == v@.take(i as int),
        decreases count - i,
    {
        r.push(v[i]);
        assert(r@ =~= v@.take(i + 1));
        i = i + 1;
    }
    assert(each_view(r@) =~= each_view(v@).take(count as int));
    assert(each_view(v@).take(v@.len() as int) =~= each_view(v@));
    r
}

impl OrderBook {
    /// The orders of the book summed up by price.
    fn to_l2_snapshot(&self) -> (r: Snapshot<InnerLevel>)
        ensures
            r@ == l2_of(self@, L2SnapshotParams { n_sig_figs: None, mantissa: None }),
            sides_fit(r@),
    {
        let params = L2SnapshotParams::new(None, None);
        Snapshot {
            bids: group_levels(&levels_from_orders(self.on(Side::Bid)), Side::Bid, params),
            asks: group_levels(&levels_from_orders(self.on(Side::Ask)), Side::Ask, params),
        }
    }
}

/// Adds an aggregation to those of a book, computed from the one `back` places before the end.
fn add_new_snapshot(
    entries: &mut L2List,
    n_sig_figs: Option<u32>,
    mantissa: Option<u64>,
    back: usize,
    Ghost(book): Ghost<BookModel>,
)
    requires
        1 <= back <= old(entries)@.len(),
        coarsens(
            old(entries)@[old(entries)@.len() - back].0,
            L2SnapshotParams { n_sig_figs, mantissa },
        ),
        entries_of(old(entries)@, book),
    ensures
        final(entries)@.len() == old(entries)@.len() + 1,
        forall|i: int| 0 <= i < old(entries)@.len() ==> final(entries)@[i] == old(entries)@[i],
        final(entries)@.last().0 == (L2SnapshotParams { n_sig_figs, mantissa }),
        entries_of(final(entries)@, book),
{
    let params = L2SnapshotParams::new(n_sig_figs, mantissa);
    let at: usize = entries.len() - back;
    let ghost fine = entries@[at as int].0;
    let snapshot = entries[at].1.to_l2_snapshot(params);
    proof {
        law_coarse_levels_from_fine(order_levels(book.bids), Side::Bid, fine, params);
        law_coarse_levels_from_fine(order_levels(book.asks), Side::Ask, fine, params);
    }
    entries.push((params, snapshot));
}

/// Every entry is the aggregation of the book that its parameters say.
spec fn entries_of(s: Seq<(L2SnapshotParams, Snapshot<InnerLevel>)>, book: BookModel) -> bool {
    forall|i: int|
        0 <= i < s.len() ==> (#[trigger] s[i]).1@ == l2_of(book, s[i].0) && sides_fit(s[i].1@)
}

/// The kept aggregations of one book.
pub fn book_l2_snapshots(order_book: &OrderBook) -> (r: L2List)
    ensures
        l2_list_view(r@) == l2_list(order_book@),
{
    let ghost book = order_book@;
    let mut entries: L2List = Vec::new();
    entries.push((L2SnapshotParams::new(None, None), order_book.to_l2_snapshot()));
    add_new_snapshot(&mut entries, Some(5), None, 1, Ghost(book));
    add_new_snapshot(&mut entries, Some(5), Some(2), 1, Ghost(book));
    // the prices of the aggregation by twos are not a superset of those by fives
    add_new_snapshot(&mut entries, Some(5), Some(5), 2, Ghost(book));
    add_new_snapshot(&mut entries, Some(4), None, 1, Ghost(book));
    add_new_snapshot(&mut entries, Some(3), None, 1, Ghost(book));
    add_new_snapshot(&mut entries, Some(2), None, 1, Ghost(book));
    assert(l2_list_view(entries@) =~= l2_list(book));
    entries
}

/// The kept aggregations of one coin's book.
fn coin_l2_snapshots(entry: &(String, OrderBook)) -> (r: (String, L2List))
    ensures
        r.0@ == entry.0@,
        l2_list_view(r.1@) == l2_list(entry.1@),
{
    (entry.0.clone(), book_l2_snapshots(&entry.1))
}

/// `rayon`'s `par_iter().map(..).collect()` over a vector: one result for each element, in the
/// order of the elements, each what the function returned for that element.
#[verifier::external_body]
fn each_in_parallel(entries: &Vec<(String, OrderBook)>) -> (r: Vec<(String, L2List)>)
    ensures
        r@.len() == entries@.len(),
        forall|i: int|
            0 <= i < entries@.len() ==> call_ensures(coin_l2_snapshots, (&entries@[i],), #[trigger] r@[i]),
{
    entries.par_iter().map(|entry| coin_l2_snapshots(entry)).collect()
}

/// The kept aggregations of all books.
pub struct L2Snapshots {
    lists: CoinMap<L2List>,
}

pub open spec fn lists_view(m: Map<Seq<char>, L2List>) -> L2Model {
    Map::new(|k: Seq<char>| m.contains_key(k), |k: Seq<char>| l2_list_view(m[k]@))
}

impl View for L2Snapshots {
    type V = L2Model;

    closed spec fn view(&self) -> L2Model {
        lists_view(self.lists@)
    }
}

impl L2Snapshots {
    pub closed spec fn wf(&self) -> bool {
        self.lists.wf()
    }

    pub fn as_ref(&self) -> (r: &CoinMap<L2List>)
        requires
            self.wf(),
        ensures
            r.wf(),
            lists_view(r@) == self@,
    {
        &self.lists
    }

    /// An aggregation of a coin's book.
    pub fn get(&self, coin: &str, params: L2SnapshotParams) -> (r: Option<&Snapshot<InnerLevel>>)
        requires
            self.wf(),
        ensures
            match r {
                Some(s) => self@.contains_key(coin@) && l2_entry(self@[coin@], params) == Some(s@),
                None => !self@.contains_key(coin@) || l2_entry(self@[coin@], params) == None::<LevelsModel>,
            },
    {
        match self.lists.get(coin) {
            Some(list) => find_entry(list, params),
            None => None,
        }
    }
}

fn find_entry(list: &L2List, params: L2SnapshotParams) -> (r: Option<&Snapshot<InnerLevel>>)
    ensures
        match r {
            Some(s) => l2_entry(l2_list_view(list@), params) == Some(s@),
            None => l2_entry(l2_list_view(list@), params) == None::<LevelsModel>,
        },
{
    let ghost all = l2_list_view(list@);
    let mut i: usize = 0;
    assert(all.skip(0) =~= all);
    while i < list.len()
        invariant
            i <= list@.len(),
            all == l2_list_view(list@),
            l2_entry(all, params) == l2_entry(all.skip(i as int), params),
        decreases list@.len() - i,
    {
        assert(all.skip(i as int)[0] == all[i as int]);
        assert(all.skip(i as int).drop_first() =~= all.skip(i + 1));
        if list[i].0 == params {
            return Some(&list[i].1);
        }
        i = i + 1;
    }
    None
}

/// Aggregates every book in every way that is kept. Each aggregation is that of the book
/// itself, though most are computed from a finer one.
pub fn compute_l2_snapshots(order_books: &OrderBooks) -> (r: L2Snapshots)
    requires
        order_books.wf(),
    ensures
        r.wf(),
        r@ == l2_model(order_books@),
{
    let books = order_books.as_ref();
    let entries = books.entries();
    let lists = each_in_parallel(entries);
    proof {
        assert forall|i: int| 0 <= i < lists@.len() implies (#[trigger] lists@[i]).0@ == entries@[i].0@
            && l2_list_view(lists@[i].1@) == l2_list(entries@[i].1@) by {
            assert(call_ensures(coin_l2_snapshots, (&entries@[i],), lists@[i]));
        }
        assert(distinct_keys(lists@)) by {
            assert forall|i: int, j: int|
                0 <= i < lists@.len() && 0 <= j < lists@.len() && i != j implies #[trigger] lists@[i].0@
                != #[trigger] lists@[j].0@ by {
                assert(entries@[i].0@ != entries@[j].0@);
            }
        }
        lemma_lists(entries@, lists@);
        assert(lists_view(entries_map(lists@)) =~= l2_model(order_books@)) by {
            assert(order_books@ == values_view(entries_map(entries@)));
        }
    }
    L2Snapshots { lists: CoinMap::from_entries(lists) }
}

proof fn lemma_lists(entries: Seq<(String, OrderBook)>, lists: Seq<(String, L2List)>)
    requires
        entries.len() == lists.len(),
        forall|i: int|
            0 <= i < lists.len() ==> (#[trigger] lists[i]).0@ == entries[i].0@ && l2_list_view(lists[i].1@)
                == l2_list(entries[i].1@),
    ensures
        forall|k: Seq<char>| #[trigger]
            entries_map(lists).contains_key(k) <==> entries_map(entries).contains_key(k),
        forall|k: Seq<char>| #[trigger]
            entries_map(lists).contains_key(k) ==> l2_list_view(entries_map(lists)[k]@) == l2_list(
                entries_map(entries)[k]@,
            ),
    decreases entries.len(),
{
    if entries.len() > 0 {
        let e = entries.drop_last();
        let l = lists.drop_last();
        assert forall|i: int| 0 <= i < l.len() implies (#[trigger] l[i]).0@ == e[i].0@ && l2_list_view(l[i].1@)
            == l2_list(e[i].1@) by {
            assert(l[i] == lists[i]);
        }
        lemma_lists(e, l);
        assert(lists[lists.len() - 1].0@ == entries[entries.len() - 1].0@);
        assert forall|k: Seq<char>| #[trigger]
            entries_map(lists).contains_key(k) <==> entries_map(entries).contains_key(k) by {
            assert(entries_map(l).contains_key(k) <==> entries_map(e).contains_key(k));
        }
        assert forall|k: Seq<char>| #[trigger]
            entries_map(lists).contains_key(k) implies l2_list_view(entries_map(lists)[k]@) == l2_list(
            entries_map(entries)[k]@,
        ) by {
            assert(entries_map(l).contains_key(k) <==> entries_map(e).contains_key(k));
        }
    }
}

/// Every aggregation that is offered is kept of every book, and is the aggregation of that book.
pub proof fn law_offered_aggregations_are_kept(books: BooksModel, coin: Seq<char>, params: L2SnapshotParams)
    requires
        books.contains_key(coin),
        params.offered(),
    ensures
        l2_model(books).contains_key(coin),
        l2_entry(l2_model(books)[coin], params) == Some(l2_of(books[coin], params)),
{
    let s = l2_list(books[coin]);
    reveal_with_fuel(l2_entry, 8);
    assert(s.len() == 7);
    assert(s.drop_first()[0] == s[1]);
    let s2 = s.drop_first().drop_first();
    assert(s2[0] == s[2]);
    let s3 = s2.drop_first();
    assert(s3[0] == s[3]);
    let s4 = s3.drop_first();
    assert(s4[0] == s[4]);
    let s5 = s4.drop_first();
    assert(s5[0] == s[5]);
    let s6 = s5.drop_first();
    assert(s6[0] == s[6]);
}

/// The levels that are sent are the first ones: on each side as many as there are or as are asked
/// for, whichever is less, and each of them is the level at its place.
pub proof fn law_first_levels_are_sent(s: LevelsModel, n: usize, i: int)
    ensures
        ({
            let sent = truncated(s, n);
            &&& sent.bids.len() == if n < s.bids.len() {
                n as nat
            } else {
                s.bids.len()
            }
            &&& sent.asks.len() == if n < s.asks.len() {
                n as nat
            } else {
                s.asks.len()
            }
            &&& 0 <= i < sent.bids.len() ==> sent.bids[i] == s.bids[i]
            &&& 0 <= i < sent.asks.len() ==> sent.asks[i] == s.asks[i]
        }),
{
}

/// The total size of the orders that an aggregation counts at a price.
pub open spec fn size_at(s: Seq<OrderModel>, side: Side, params: L2SnapshotParams, px: nat) -> nat
    decreases s.len(),
{
    if s.len() == 0 {
        0
    } else {
        size_at(s.drop_last(), side, params, px) + if bucket(s.last().limit_px.0 as nat, side, params) == px {
            s.last().sz.0 as nat
        } else {
            0
        }
    }
}

/// The number of orders that an aggregation counts at a price.
pub open spec fn count_at(s: Seq<OrderModel>, side: Side, params: L2SnapshotParams, px: nat) -> nat
    decreases s.len(),
{
    if s.len() == 0 {
        0
    } else {
        count_at(s.drop_last(), side, params, px) + if bucket(s.last().limit_px.0 as nat, side, params) == px {
            1nat
        } else {
            0
        }
    }
}

/// Whether a price stands strictly in front of another.
spec fn ahead(side: Side, a: nat, b: nat) -> bool {
    match side {
        Side::Bid => a > b,
        Side::Ask => a < b,
    }
}

/// Whether no order of a list stands in front of an earlier one.
spec fn best_price_first(s: Seq<OrderModel>, side: Side) -> bool {
    forall|i: int, j: int|
        0 <= i < j < s.len() ==> !ahead(
            side,
            (#[trigger] s[j]).limit_px.0 as nat,
            (#[trigger] s[i]).limit_px.0 as nat,
        )
}

/// What the levels of a list are: prices strictly in order, each with the size and the number of the
/// orders counted at it, and one for every price at which an order is counted.
spec fn sums_up(l: Seq<LevelModel>, s: Seq<OrderModel>, side: Side, params: L2SnapshotParams) -> bool {
    &&& forall|i: int, j: int| 0 <= i < j < l.len() ==> ahead(side, (#[trigger] l[i]).px, (#[trigger] l[j]).px)
    &&& forall|i: int|
        0 <= i < l.len() ==> (#[trigger] l[i]).sz == size_at(s, side, params, l[i].px) && l[i].n == count_at(
            s,
            side,
            params,
            l[i].px,
        ) && l[i].n > 0
    &&& forall|k: int|
        0 <= k < s.len() ==> exists|i: int|
            0 <= i < l.len() && (#[trigger] l[i]).px == bucket(
                (#[trigger] s[k]).limit_px.0 as nat,
                side,
                params,
            )
}

proof fn lemma_none_at(s: Seq<OrderModel>, side: Side, params: L2SnapshotParams, px: nat)
    requires
        forall|k: int|
            0 <= k < s.len() ==> bucket((#[trigger] s[k]).limit_px.0 as nat, side, params) != px,
    ensures
        size_at(s, side, params, px) == 0,
        count_at(s, side, params, px) == 0,
    decreases s.len(),
{
    if s.len() > 0 {
        let t = s.drop_last();
        assert forall|k: int| 0 <= k < t.len() implies bucket(
            (#[trigger] t[k]).limit_px.0 as nat,
            side,
            params,
        ) != px by {
            assert(t[k] == s[k]);
        }
        lemma_none_at(t, side, params, px);
        assert(s[s.len() - 1] == s.last());
    }
}

proof fn lemma_levels_sum_up(s: Seq<OrderModel>, side: Side, params: L2SnapshotParams)
    requires
        params.offered(),
        best_price_first(s, side),
    ensures
        sums_up(grouped(order_levels(s), side, params), s, side, params),
    decreases s.len(),
{
    if s.len() > 0 {
        let t = s.drop_last();
        let o = s.last();
        let n = t.len() as int;
        assert forall|i: int, j: int| 0 <= i < j < t.len() implies !ahead(
            side,
            (#[trigger] t[j]).limit_px.0 as nat,
            (#[trigger] t[i]).limit_px.0 as nat,
        ) by {
            assert(t[i] == s[i] && t[j] == s[j]);
        }
        lemma_levels_sum_up(t, side, params);
        assert(order_levels(s).drop_last() =~= order_levels(t));
        let g = grouped(order_levels(t), side, params);
        let l = grouped(order_levels(s), side, params);
        let px = bucket(o.limit_px.0 as nat, side, params);
        assert(order_levels(s).last() == (LevelModel { px: o.limit_px.0 as nat, sz: o.sz.0 as nat, n: 1 }));
        assert(s[n] == o);
        // no level stands behind the new price
        assert forall|i: int| 0 <= i < g.len() implies !ahead(side, px, (#[trigger] g[i]).px) by {
            lemma_level_has_an_order(t, side, params, g[i].px);
            let k = choose|k: int|
                0 <= k < t.len() && bucket((#[trigger] t[k]).limit_px.0 as nat, side, params) == g[i].px;
            assert(t[k] == s[k]);
            match side {
                Side::Bid => law_rounding_keeps_the_order_of_prices(
                    o.limit_px.0 as nat,
                    t[k].limit_px.0 as nat,
                    side,
                    params,
                ),
                Side::Ask => law_rounding_keeps_the_order_of_prices(
                    t[k].limit_px.0 as nat,
                    o.limit_px.0 as nat,
                    side,
                    params,
                ),
            }
        }
        let merges = g.len() > 0 && g.last().px == px;
        let last = (l.len() - 1) as int;
        assert(l[last].px == px);
        assert forall|i: int| 0 <= i < last implies #[trigger] l[i] == g[i] by {}
        assert forall|i: int| 0 <= i < last implies ahead(side, (#[trigger] l[i]).px, px) by {
            if merges {
                assert(g[g.len() - 1] == g.last());
            } else {
                let e = g[g.len() - 1];
                assert(!ahead(side, px, e.px) && e.px != px);
                if i < g.len() - 1 {
                    assert(ahead(side, g[i].px, e.px));
                }
            }
        }
        assert forall|i: int, j: int| 0 <= i < j < l.len() implies ahead(
            side,
            (#[trigger] l[i]).px,
            (#[trigger] l[j]).px,
        ) by {
            if j < last {
                assert(l[i] == g[i] && l[j] == g[j]);
            }
        }
        if !merges {
            assert forall|k: int| 0 <= k < t.len() implies bucket(
                (#[trigger] t[k]).limit_px.0 as nat,
                side,
                params,
            ) != px by {
                let i = choose|i: int|
                    0 <= i < g.len() && (#[trigger] g[i]).px == bucket(t[k].limit_px.0 as nat, side, params);
                assert(l[i] == g[i]);
                assert(ahead(side, l[i].px, px));
            }
            lemma_none_at(t, side, params, px);
        }
        assert forall|i: int| 0 <= i < l.len() implies (#[trigger] l[i]).sz == size_at(s, side, params, l[i].px)
            && l[i].n == count_at(s, side, params, l[i].px) && l[i].n > 0 by {
            if i < last {
                assert(l[i] == g[i]);
                assert(ahead(side, l[i].px, px));
            } else if merges {
                assert(g[g.len() - 1].px == px);
            }
        }
        assert forall|k: int| 0 <= k < s.len() implies exists|i: int|
            0 <= i < l.len() && (#[trigger] l[i]).px == bucket(
                (#[trigger] s[k]).limit_px.0 as nat,
                side,
                params,
            ) by {
            if k < n {
                assert(t[k] == s[k]);
                let i = choose|i: int|
                    0 <= i < g.len() && (#[trigger] g[i]).px == bucket(t[k].limit_px.0 as nat, side, params);
                if i < last {
                    assert(l[i].px == g[i].px);
                } else {
                    assert(l[last].px == px);
                }
            } else {
                assert(l[last].px == px);
            }
        }
    }
}

proof fn lemma_level_has_an_order(s: Seq<OrderModel>, side: Side, params: L2SnapshotParams, px: nat)
    requires
        count_at(s, side, params, px) > 0,
    ensures
        exists|k: int| 0 <= k < s.len() && bucket((#[trigger] s[k]).limit_px.0 as nat, side, params) == px,
{
    if !(exists|k: int| 0 <= k < s.len() && bucket((#[trigger] s[k]).limit_px.0 as nat, side, params) == px) {
        lemma_none_at(s, side, params, px);
    }
}

/// What an aggregation of a book with its best prices first is: on each side the prices run strictly
/// from the best to the worst, each level has the total size and the number of the orders that are
/// counted at its price, and every order is counted.
pub proof fn law_levels_sum_up_the_orders(book: BookModel, params: L2SnapshotParams)
    requires
        params.offered(),
        forall|i: int, j: int|
            0 <= i < j < book.bids.len() ==> (#[trigger] book.bids[i]).limit_px.0 >= (
            #[trigger] book.bids[j]).limit_px.0,
        forall|i: int, j: int|
            0 <= i < j < book.asks.len() ==> (#[trigger] book.asks[i]).limit_px.0 <= (
            #[trigger] book.asks[j]).limit_px.0,
    ensures
        ({
            let bids = l2_of(book, params).bids;
            let asks = l2_of(book, params).asks;
            &&& forall|i: int, j: int| 0 <= i < j < bids.len() ==> (#[trigger] bids[i]).px > (#[trigger] bids[j]).px
            &&& forall|i: int, j: int| 0 <= i < j < asks.len() ==> (#[trigger] asks[i]).px < (#[trigger] asks[j]).px
            &&& forall|i: int|
                0 <= i < bids.len() ==> (#[trigger] bids[i]).sz == size_at(
                    book.bids,
                    Side::Bid,
                    params,
                    bids[i].px,
                ) && bids[i].n == count_at(book.bids, Side::Bid, params, bids[i].px) && bids[i].n > 0
            &&& forall|i: int|
                0 <= i < asks.len() ==> (#[trigger] asks[i]).sz == size_at(
                    book.asks,
                    Side::Ask,
                    params,
                    asks[i].px,
                ) && asks[i].n == count_at(book.asks, Side::Ask, params, asks[i].px) && asks[i].n > 0
            &&& forall|k: int|
                0 <= k < book.bids.len() ==> exists|i: int|
                    0 <= i < bids.len() && (#[trigger] bids[i]).px == bucket(
                        (#[trigger] book.bids[k]).limit_px.0 as nat,
                        Side::Bid,
                        params,
                    )
            &&& forall|k: int|
                0 <= k < book.asks.len() ==> exists|i: int|
                    0 <= i < asks.len() && (#[trigger] asks[i]).px == bucket(
                        (#[trigger] book.asks[k]).limit_px.0 as nat,
                        Side::Ask,
                        params,
                    )
        }),
{
    assert(best_price_first(book.bids, Side::Bid));
    assert(best_price_first(book.asks, Side::Ask));
    lemma_levels_sum_up(book.bids, Side::Bid, params);
    lemma_levels_sum_up(book.asks, Side::Ask, params);
    let bids = l2_of(book, params).bids;
    assert(sums_up(bids, book.bids, Side::Bid, params));
    assert forall|i: int, j: int| 0 <= i < j < bids.len() implies (#[trigger] bids[i]).px > (
    #[trigger] bids[j]).px by {
        assert(ahead(Side::Bid, bids[i].px, bids[j].px));
    }
    assert forall|k: int| 0 <= k < book.bids.len() implies exists|i: int|
        0 <= i < bids.len() && (#[trigger] bids[i]).px == bucket(
            (#[trigger] book.bids[k]).limit_px.0 as nat,
            Side::Bid,
            params,
        ) by {
        let o = book.bids[k];
        let i = choose|i: int|
            0 <= i < bids.len() && (#[trigger] bids[i]).px == bucket(o.limit_px.0 as nat, Side::Bid, params);
        assert(bids[i].px == bucket(o.limit_px.0 as nat, Side::Bid, params));
    }
    let asks = l2_of(book, params).asks;
    assert(sums_up(asks, book.asks, Side::Ask, params));
    assert forall|i: int, j: int| 0 <= i < j < asks.len() implies (#[trigger] asks[i]).px < (
    #[trigger] asks[j]).px by {
        assert(ahead(Side::Ask, asks[i].px, asks[j].px));
    }
    assert forall|k: int| 0 <= k < book.asks.len() implies exists|i: int|
        0 <= i < asks.len() && (#[trigger] asks[i]).px == bucket(
            (#[trigger] book.asks[k]).limit_px.0 as nat,
            Side::Ask,
            params,
        ) by {
        let o = book.asks[k];
        let i = choose|i: int|
            0 <= i < asks.len() && (#[trigger] asks[i]).px == bucket(o.limit_px.0 as nat, Side::Ask, params);
        assert(asks[i].px == bucket(o.limit_px.0 as nat, Side::Ask, params));
    }
}

/// The best price of a side that has orders is the first level that is sent, if any is asked for.
pub proof fn law_best_price_is_sent_first(book: BookModel, params: L2SnapshotParams, n: usize)
    requires
        params.offered(),
        n > 0,
        forall|i: int, j: int|
            0 <= i < j < book.bids.len() ==> (#[trigger] book.bids[i]).limit_px.0 >= (
            #[trigger] book.bids[j]).limit_px.0,
        forall|i: int, j: int|
            0 <= i < j < book.asks.len() ==> (#[trigger] book.asks[i]).limit_px.0 <= (
            #[trigger] book.asks[j]).limit_px.0,
    ensures
        ({
            let sent = truncated(l2_of(book, params), n);
            &&& sent.bids.len() > 0 <==> book.bids.len() > 0
            &&& sent.asks.len() > 0 <==> book.asks.len() > 0
            &&& book.bids.len() > 0 ==> sent.bids[0].px == bucket(
                book.bids[0].limit_px.0 as nat,
                Side::Bid,
                params,
            )
            &&& book.asks.len() > 0 ==> sent.asks[0].px == bucket(
                book.asks[0].limit_px.0 as nat,
                Side::Ask,
                params,
            )
        }),
{
    law_levels_sum_up_the_orders(book, params);
    let all = l2_of(book, params);
    law_first_levels_are_sent(all, n, 0);
    if all.bids.len() > 0 {
        lemma_level_has_an_order(book.bids, Side::Bid, params, all.bids[0].px);
        let k = choose|k: int|
            0 <= k < book.bids.len() && bucket((#[trigger] book.bids[k]).limit_px.0 as nat, Side::Bid, params)
                == all.bids[0].px;
        assert(book.bids[0].limit_px.0 >= book.bids[k].limit_px.0);
        law_rounding_keeps_the_order_of_prices(
            book.bids[k].limit_px.0 as nat,
            book.bids[0].limit_px.0 as nat,
            Side::Bid,
            params,
        );
        let i = choose|i: int|
            0 <= i < all.bids.len() && (#[trigger] all.bids[i]).px == bucket(
                book.bids[0].limit_px.0 as nat,
                Side::Bid,
                params,
            );
        assert(i == 0 || all.bids[0].px > all.bids[i].px);
    } else if book.bids.len() > 0 {
        assert(book.bids[0] == book.bids[0]);
    }
    if all.asks.len() > 0 {
        lemma_level_has_an_order(book.asks, Side::Ask, params, all.asks[0].px);
        let k = choose|k: int|
            0 <= k < book.asks.len() && bucket((#[trigger] book.asks[k]).limit_px.0 as nat, Side::Ask, params)
                == all.asks[0].px;
        assert(book.asks[0].limit_px.0 <= book.asks[k].limit_px.0);
        law_rounding_keeps_the_order_of_prices(
            book.asks[0].limit_px.0 as nat,
            book.asks[k].limit_px.0 as nat,
            Side::Ask,
            params,
        );
        let i = choose|i: int|
            0 <= i < all.asks.len() && (#[trigger] all.asks[i]).px == bucket(
                book.asks[0].limit_px.0 as nat,
                Side::Ask,
                params,
            );
        assert(i == 0 || all.asks[0].px < all.asks[i].px);
    } else if book.asks.len() > 0 {
        assert(book.asks[0] == book.asks[0]);
    }
}

/// Aggregations are kept of the coins that have a book and of no other.
pub proof fn law_aggregated_coins_are_those_with_a_book(books: BooksModel, coin: Seq<char>)
    ensures
        l2_model(books).contains_key(coin) <==> books.contains_key(coin),
{
}

/// A level that is added to a list joins the last one of the aggregation if it is counted at the same
/// price, with both sizes and both numbers of orders summed up, and else stands behind it on its own.
pub proof fn law_a_level_joins_its_price(s: Seq<LevelModel>, l: LevelModel, side: Side, params: L2SnapshotParams)
    ensures
        grouped(Seq::empty(), side, params).len() == 0,
        ({
            let before = grouped(s, side, params);
            let after = grouped(s.push(l), side, params);
            let px = bucket(l.px, side, params);
            if before.len() > 0 && before.last().px == px {
                &&& after.len() == before.len()
                &&& after.drop_last() == before.drop_last()
                &&& after.last().px == px
                &&& after.last().sz == before.last().sz + l.sz
                &&& after.last().n == before.last().n + l.n
            } else {
                &&& after.len() == before.len() + 1
                &&& after.drop_last() == before
                &&& after.last() == LevelModel { px, sz: l.sz, n: l.n }
            }
        }),
{
    assert(s.push(l).drop_last() =~= s);
    let before = grouped(s, side, params);
    let after = grouped(s.push(l), side, params);
    if before.len() > 0 && before.last().px == bucket(l.px, side, params) {
        assert(after.drop_last() =~= before.drop_last());
    } else {
        assert(after.drop_last() =~= before);
    }
}

/// Of each book the aggregations that can be asked for are kept, and no other.
pub proof fn law_kept_aggregations_are_the_offered_ones(books: BooksModel, coin: Seq<char>, params: L2SnapshotParams)
    requires
        books.contains_key(coin),
    ensures
        l2_entry(l2_model(books)[coin], params) is Some <==> match params.n_sig_figs {
            None => params.mantissa is None,
            Some(n) => (2 <= n <= 5 && params.mantissa is None) || (n == 5 && (params.mantissa == Some(2u64)
                || params.mantissa == Some(5u64))),
        },
{
    if params.offered() {
        law_offered_aggregations_are_kept(books, coin, params);
    } else {
        lemma_no_entry(l2_list(books[coin]), params);
    }
}

proof fn lemma_no_entry(s: L2ListModel, params: L2SnapshotParams)
    requires
        forall|i: int| 0 <= i < s.len() ==> (#[trigger] s[i]).0 != params,
    ensures
        l2_entry(s, params) is None,
    decreases s.len(),
{
    if s.len() > 0 {
        let t = s.drop_first();
        assert forall|i: int| 0 <= i < t.len() implies (#[trigger] t[i]).0 != params by {
            assert(t[i] == s[i + 1]);
        }
        lemma_no_entry(t, params);
    }
}

} // verus!
