//! Comparing the live books with a snapshot of the node's.

use vstd::prelude::*;
use vstd::string::*;

use crate::coin::{is_ignored, is_spot_symbol, spot_symbol};
use crate::multi_book::Snapshots;
use crate::order::{order_text, side_name, side_text, InnerL4Order, OrderModel, Side};
use crate::order_book::{
    each_view, find_order, first_with, law_orders_are_located, located, none_with, BookModel, BooksModel, Snapshot,
};
use crate::text::{decimal, decimal_text, option_text, wrap_option};

verus! {

/// The order at a place, if there is one.
pub open spec fn order_at(s: Seq<OrderModel>, i: int) -> Option<OrderModel> {
    if 0 <= i < s.len() {
        Some(s[i])
    } else {
        None
    }
}

/// The first place from `i` on where two lists differ. An order that one list has beyond the
/// end of the other is a difference too.
pub open spec fn difference_from(a: Seq<OrderModel>, b: Seq<OrderModel>, i: int) -> Option<int>
    decreases a.len() + b.len() - i,
{
    if i >= a.len() && i >= b.len() {
        None
    } else if order_at(a, i) != order_at(b, i) {
        Some(i)
    } else {
        difference_from(a, b, i + 1)
    }
}

/// An order and where a book holds it.
pub type PlacedModel = (Side, int, OrderModel);

/// How the live books differ from the expected ones.
pub enum MismatchModel {
    /// At a place of a side the two books of a coin do not hold the same order.
    Orders {
        coin: Seq<char>,
        side: Side,
        index: int,
        expected_count: nat,
        received_count: nat,
        expected: Option<OrderModel>,
        received: Option<OrderModel>,
        expected_oid_in_received_book: Option<PlacedModel>,
        received_oid_in_expected_book: Option<PlacedModel>,
    },
    /// A coin has orders but no expected book.
    Missing { coin: Seq<char> },
    /// A book was expected of a coin that has none.
    Extra,
}

/// Where a book holds the order with the number of another order.
pub open spec fn counterpart(o: Option<OrderModel>, book: BookModel) -> Option<PlacedModel> {
    match o {
        Some(o) => match located(book, o.oid) {
            Some((side, i)) => Some((side, i, book.on(side)[i])),
            None => None,
        },
        None => None,
    }
}

/// The report on a place where two books of a coin differ.
pub open spec fn orders_mismatch(
    coin: Seq<char>,
    received: BookModel,
    expected: BookModel,
    side: Side,
    index: int,
) -> MismatchModel {
    let r = order_at(received.on(side), index);
    let e = order_at(expected.on(side), index);
    MismatchModel::Orders {
        coin,
        side,
        index,
        expected_count: expected.on(side).len(),
        received_count: received.on(side).len(),
        expected: e,
        received: r,
        expected_oid_in_received_book: counterpart(e, received),
        received_oid_in_expected_book: counterpart(r, expected),
    }
}

/// The first difference of two books of a coin: the bids are compared before the asks.
pub open spec fn book_mismatch(coin: Seq<char>, received: BookModel, expected: BookModel) -> Option<
    MismatchModel,
> {
    match difference_from(received.bids, expected.bids, 0) {
        Some(i) => Some(orders_mismatch(coin, received, expected, Side::Bid, i)),
        None => match difference_from(received.asks, expected.asks, 0) {
            Some(i) => Some(orders_mismatch(coin, received, expected, Side::Ask, i)),
            None => None,
        },
    }
}

/// What is wrong with a coin's book.
pub open spec fn coin_mismatch(
    coin: Seq<char>,
    received: BookModel,
    expected: BooksModel,
    ignore_spot: bool,
) -> Option<MismatchModel> {
    if is_ignored(coin, ignore_spot) {
        None
    } else if expected.contains_key(coin) {
        book_mismatch(coin, received, expected[coin])
    } else if received.bids.len() > 0 || received.asks.len() > 0 {
        Some(MismatchModel::Missing { coin })
    } else {
        None
    }
}

/// What is wrong with the first bad coin of a walk, from its place `i` on.
pub open spec fn mismatch_from(
    coins: Seq<Seq<char>>,
    received: BooksModel,
    expected: BooksModel,
    ignore_spot: bool,
    i: int,
) -> Option<MismatchModel>
    decreases coins.len() - i,
{
    if i >= coins.len() {
        None
    } else {
        match coin_mismatch(coins[i], received[coins[i]], expected, ignore_spot) {
            Some(m) => Some(m),
            None => mismatch_from(coins, received, expected, ignore_spot, i + 1),
        }
    }
}

/// Whether a book is expected of a coin that has none.
pub open spec fn has_extra(received: BooksModel, expected: BooksModel, ignore_spot: bool) -> bool {
    exists|k: Seq<char>| #[trigger]
        expected.contains_key(k) && !is_ignored(k, ignore_spot) && !received.contains_key(k)
}

/// What is wrong with the live books, whose coins a walk meets in the order `coins`.
pub open spec fn mismatch(
    coins: Seq<Seq<char>>,
    received: BooksModel,
    expected: BooksModel,
    ignore_spot: bool,
) -> Option<MismatchModel> {
    match mismatch_from(coins, received, expected, ignore_spot, 0) {
        Some(m) => Some(m),
        None => if has_extra(received, expected, ignore_spot) {
            Some(MismatchModel::Extra)
        } else {
            None
        },
    }
}

/// When live books agree with the expected ones: every coin with an expected book holds exactly
/// its orders, a coin without one holds none, and no expected book is missing. Spot coins do
/// not count when they are ignored.
pub open spec fn consistent(received: BooksModel, expected: BooksModel, ignore_spot: bool) -> bool {
    &&& forall|k: Seq<char>| #[trigger]
        received.contains_key(k) && !is_ignored(k, ignore_spot) ==> if expected.contains_key(k) {
            received[k] == expected[k]
        } else {
            received[k].bids.len() == 0 && received[k].asks.len() == 0
        }
    &&& forall|k: Seq<char>| #[trigger]
        expected.contains_key(k) && !is_ignored(k, ignore_spot) ==> received.contains_key(k)
}

/// Whether a list holds the coins of some books, each once.
pub open spec fn walks(coins: Seq<Seq<char>>, books: BooksModel) -> bool {
    &&& coins.no_duplicates()
    &&& forall|i: int| 0 <= i < coins.len() ==> books.contains_key(#[trigger] coins[i])
    &&& forall|k: Seq<char>| #[trigger] books.contains_key(k) ==> coins.contains(k)
}

/// Whether a mismatch is the first one that some walk over the live books meets.
pub open spec fn reports(
    m: MismatchModel,
    received: BooksModel,
    expected: BooksModel,
    ignore_spot: bool,
) -> bool {
    exists|coins: Seq<Seq<char>>| #[trigger]
        walks(coins, received) && mismatch(coins, received, expected, ignore_spot) == Some(m)
}

/// [`difference_from`] finds the least place where two lists differ, if they do.
pub proof fn lemma_difference(a: Seq<OrderModel>, b: Seq<OrderModel>, i: int)
    requires
        0 <= i,
    ensures
        match difference_from(a, b, i) {
            Some(j) => {
                &&& i <= j
                &&& j < a.len() || j < b.len()
                &&& order_at(a, j) != order_at(b, j)
                &&& forall|k: int| i <= k < j ==> order_at(a, k) == #[trigger] order_at(b, k)
            },
            None => forall|k: int| i <= k ==> order_at(a, k) == #[trigger] order_at(b, k),
        },
    decreases a.len() + b.len() - i,
{
    if i < a.len() || i < b.len() {
        if order_at(a, i) == order_at(b, i) {
            lemma_difference(a, b, i + 1);
        }
    }
}

/// Two lists without a difference are the same list.
proof fn lemma_no_difference(a: Seq<OrderModel>, b: Seq<OrderModel>)
    ensures
        difference_from(a, b, 0) is None <==> a == b,
{
    lemma_difference(a, b, 0);
    if difference_from(a, b, 0) is None {
        if a.len() < b.len() {
            assert(order_at(a, a.len() as int) == order_at(b, a.len() as int));
        }
        if b.len() < a.len() {
            assert(order_at(a, b.len() as int) == order_at(b, b.len() as int));
        }
        assert forall|k: int| 0 <= k < a.len() implies a[k] == b[k] by {
            assert(order_at(a, k) == order_at(b, k));
        }
        assert(a =~= b);
    }
}

proof fn lemma_book_mismatch(coin: Seq<char>, received: BookModel, expected: BookModel)
    ensures
        book_mismatch(coin, received, expected) is None <==> received == expected,
{
    lemma_no_difference(received.bids, expected.bids);
    lemma_no_difference(received.asks, expected.asks);
}

proof fn lemma_mismatch_from(
    coins: Seq<Seq<char>>,
    received: BooksModel,
    expected: BooksModel,
    ignore_spot: bool,
    i: int,
)
    requires
        0 <= i <= coins.len(),
    ensures
        mismatch_from(coins, received, expected, ignore_spot, i) is None <==> forall|j: int|
            i <= j < coins.len() ==> coin_mismatch(
                #[trigger] coins[j],
                received[coins[j]],
                expected,
                ignore_spot,
            ) is None,
    decreases coins.len() - i,
{
    if i < coins.len() {
        lemma_mismatch_from(coins, received, expected, ignore_spot, i + 1);
    }
}

/// A mismatch is reported exactly when the books do not agree, in whichever order the coins
/// are walked.
pub proof fn law_mismatch_iff_inconsistent(
    coins: Seq<Seq<char>>,
    received: BooksModel,
    expected: BooksModel,
    ignore_spot: bool,
)
    requires
        walks(coins, received),
    ensures
        mismatch(coins, received, expected, ignore_spot) is None <==> consistent(
            received,
            expected,
            ignore_spot,
        ),
{
    lemma_mismatch_from(coins, received, expected, ignore_spot, 0);
    assert forall|k: Seq<char>| received.contains_key(k) implies (coin_mismatch(
        k,
        received[k],
        expected,
        ignore_spot,
    ) is None <==> (is_ignored(k, ignore_spot) || if expected.contains_key(k) {
        received[k] == expected[k]
    } else {
        received[k].bids.len() == 0 && received[k].asks.len() == 0
    })) by {
        if expected.contains_key(k) {
            lemma_book_mismatch(k, received[k], expected[k]);
        }
    }
    if mismatch(coins, received, expected, ignore_spot) is None {
        assert forall|k: Seq<char>| #[trigger]
            received.contains_key(k) && !is_ignored(k, ignore_spot) implies if expected.contains_key(k) {
            received[k] == expected[k]
        } else {
            received[k].bids.len() == 0 && received[k].asks.len() == 0
        } by {
            assert(coins.contains(k));
            let j = choose|j: int| 0 <= j < coins.len() && coins[j] == k;
            assert(coin_mismatch(coins[j], received[coins[j]], expected, ignore_spot) is None);
        }
    }
}

/// Books agree with themselves.
pub proof fn law_books_agree_with_themselves(books: BooksModel, ignore_spot: bool)
    ensures
        consistent(books, books, ignore_spot),
{
}

/// Agreement with every coin counted is agreement with spot ignored.
pub proof fn law_ignoring_spot_only_weakens(received: BooksModel, expected: BooksModel)
    requires
        consistent(received, expected, false),
    ensures
        consistent(received, expected, true),
{
}

/// An order and where a book holds it.
#[derive(Debug)]
pub struct Placed {
    pub side: Side,
    pub index: usize,
    pub order: InnerL4Order,
}

pub open spec fn placed_view(p: Option<Placed>) -> Option<PlacedModel> {
    match p {
        Some(p) => Some((p.side, p.index as int, p.order@)),
        None => None,
    }
}

pub open spec fn optional_order(o: Option<InnerL4Order>) -> Option<OrderModel> {
    match o {
        Some(o) => Some(o@),
        None => None,
    }
}

/// How the live books differ from the expected ones.
#[derive(Debug)]
pub enum SnapshotMismatch {
    /// At a place of a side the two books of a coin do not hold the same order.
    Orders {
        coin: String,
        side: Side,
        index: usize,
        expected_count: usize,
        received_count: usize,
        expected: Option<InnerL4Order>,
        received: Option<InnerL4Order>,
        expected_oid_in_received_book: Option<Placed>,
        received_oid_in_expected_book: Option<Placed>,
    },
    /// A coin has orders but no expected book.
    Missing { coin: String },
    /// A book was expected of a coin that has none.
    Extra,
}

impl View for SnapshotMismatch {
    type V = MismatchModel;

    open spec fn view(&self) -> MismatchModel {
        match *self {
            SnapshotMismatch::Orders {
                coin,
                side,
                index,
                expected_count,
                received_count,
                expected,
                received,
                expected_oid_in_received_book,
                received_oid_in_expected_book,
            } => MismatchModel::Orders {
                coin: coin@,
                side,
                index: index as int,
                expected_count: expected_count as nat,
                received_count: received_count as nat,
                expected: optional_order(expected),
                received: optional_order(received),
                expected_oid_in_received_book: placed_view(expected_oid_in_received_book),
                received_oid_in_expected_book: placed_view(received_oid_in_expected_book),
            },
            SnapshotMismatch::Missing { coin } => MismatchModel::Missing { coin: coin@ },
            SnapshotMismatch::Extra => MismatchModel::Extra,
        }
    }
}

fn order_copy_at(v: &Vec<InnerL4Order>, i: usize) -> (r: Option<InnerL4Order>)
    ensures
        optional_order(r) == order_at(each_view(v@), i as int),
{
    if i < v.len() {
        Some(v[i].clone())
    } else {
        None
    }
}

/// Whether two lists hold the same at a place.
fn same_at(a: &Vec<InnerL4Order>, b: &Vec<InnerL4Order>, i: usize) -> (r: bool)
    ensures
        r == (order_at(each_view(a@), i as int) == order_at(each_view(b@), i as int)),
{
    if i < a.len() && i < b.len() {
        a[i] == b[i]
    } else {
        i >= a.len() && i >= b.len()
    }
}

fn find_difference(a: &Vec<InnerL4Order>, b: &Vec<InnerL4Order>) -> (r: Option<usize>)
    ensures
        match r {
            Some(i) => difference_from(each_view(a@), each_view(b@), 0) == Some(i as int),
            None => difference_from(each_view(a@), each_view(b@), 0) == None::<int>,
        },
{
    let count: usize = if a.len() < b.len() {
        b.len()
    } else {
        a.len()
    };
    let ghost x = each_view(a@);
    let ghost y = each_view(b@);
    let mut index: usize = 0;
    while index < count
        invariant
            index <= count,
            x == each_view(a@),
            y == each_view(b@),
            count >= x.len(),
            count >= y.len(),
            count == x.len() || count == y.len(),
            difference_from(x, y, 0) == difference_from(x, y, index as int),
        decreases count - index,
    {
        if !same_at(a, b, index) {
            return Some(index);
        }
        index = index + 1;
    }
    None
}

fn find_counterpart(o: &Option<InnerL4Order>, book: &Snapshot<InnerL4Order>) -> (r: Option<Placed>)
    ensures
        placed_view(r) == counterpart(optional_order(*o), book@),
{
    match o {
        Some(o) => match find_order(book, o.oid()) {
            Some((side, index, order)) => Some(Placed { side, index, order: order.clone() }),
            None => None,
        },
        None => None,
    }
}

fn report_orders(
    coin: &String,
    received_book: &Snapshot<InnerL4Order>,
    expected_book: &Snapshot<InnerL4Order>,
    side: Side,
    index: usize,
) -> (r: SnapshotMismatch)
    ensures
        r@ == orders_mismatch(coin@, received_book@, expected_book@, side, index as int),
{
    let received = order_copy_at(received_book.on(side), index);
    let expected = order_copy_at(expected_book.on(side), index);
    let expected_oid_in_received_book = find_counterpart(&expected, received_book);
    let received_oid_in_expected_book = find_counterpart(&received, expected_book);
    SnapshotMismatch::Orders {
        coin: coin.clone(),
        side,
        index,
        expected_count: expected_book.on(side).len(),
        received_count: received_book.on(side).len(),
        expected,
        received,
        expected_oid_in_received_book,
        received_oid_in_expected_book,
    }
}

pub open spec fn optional_mismatch(m: Option<SnapshotMismatch>) -> Option<MismatchModel> {
    match m {
        Some(m) => Some(m@),
        None => None,
    }
}

fn check_coin(
    coin: &String,
    book: &Snapshot<InnerL4Order>,
    expected: &Snapshots,
    ignore_spot: bool,
) -> (r: Option<SnapshotMismatch>)
    requires
        expected.wf(),
    ensures
        optional_mismatch(r) == coin_mismatch(coin@, book@, expected@, ignore_spot),
{
    if ignore_spot && spot_symbol(coin.as_str()) {
        return None;
    }
    match expected.get(coin.as_str()) {
        Some(other) => {
            if let Some(index) = find_difference(&book.bids, &other.bids) {
                return Some(report_orders(coin, book, other, Side::Bid, index));
            }
            if let Some(index) = find_difference(&book.asks, &other.asks) {
                return Some(report_orders(coin, book, other, Side::Ask, index));
            }
            None
        },
        None => {
            if book.bids.len() > 0 || book.asks.len() > 0 {
                Some(SnapshotMismatch::Missing { coin: coin.clone() })
            } else {
                None
            }
        },
    }
}

/// Compares the live books with the expected ones and reports the first difference, in the
/// order in which a walk meets the coins.
pub fn validate_snapshot_consistency(
    snapshot: &Snapshots,
    expected: &Snapshots,
    ignore_spot: bool,
) -> (r: Result<(), SnapshotMismatch>)
    requires
        snapshot.wf(),
        expected.wf(),
    ensures
        match r {
            Ok(()) => {
                &&& mismatch(snapshot.coins(), snapshot@, expected@, ignore_spot) is None
                &&& consistent(snapshot@, expected@, ignore_spot)
            },
            Err(e) => {
                &&& mismatch(snapshot.coins(), snapshot@, expected@, ignore_spot) == Some(e@)
                &&& reports(e@, snapshot@, expected@, ignore_spot)
                &&& !consistent(snapshot@, expected@, ignore_spot)
            },
        },
{
    let ghost coins = snapshot.coins();
    let ghost received = snapshot@;
    let ghost wanted = expected@;
    proof {
        snapshot.lemma_coins();
        assert(walks(coins, received));
        law_mismatch_iff_inconsistent(coins, received, wanted, ignore_spot);
    }
    let mut i: usize = 0;
    while i < snapshot.len()
        invariant
            i <= coins.len(),
            coins == snapshot.coins(),
            received == snapshot@,
            wanted == expected@,
            snapshot.wf(),
            expected.wf(),
            walks(coins, received),
            mismatch(coins, received, wanted, ignore_spot) is None <==> consistent(
                received,
                wanted,
                ignore_spot,
            ),
            mismatch_from(coins, received, wanted, ignore_spot, 0) == mismatch_from(
                coins,
                received,
                wanted,
                ignore_spot,
                i as int,
            ),
        decreases coins.len() - i,
    {
        if let Some(found) = check_coin(snapshot.coin(i), snapshot.book(i), expected, ignore_spot) {
            return Err(found);
        }
        i = i + 1;
    }
    let ghost others = expected.coins();
    let mut j: usize = 0;
    while j < expected.len()
        invariant
            j <= others.len(),
            others == expected.coins(),
            received == snapshot@,
            wanted == expected@,
            snapshot.wf(),
            expected.wf(),
            walks(coins, received),
            mismatch(coins, received, wanted, ignore_spot) is None <==> consistent(
                received,
                wanted,
                ignore_spot,
            ),
            mismatch_from(coins, received, wanted, ignore_spot, 0) is None,
            coins == snapshot.coins(),
            forall|k: int|
                0 <= k < j ==> is_ignored(#[trigger] others[k], ignore_spot) || received.contains_key(others[k]),
        decreases others.len() - j,
    {
        let coin = expected.coin(j);
        if !(ignore_spot && spot_symbol(coin.as_str())) {
            if snapshot.get(coin.as_str()).is_none() {
                proof {
                    expected.lemma_coins();
                    assert(wanted.contains_key(others[j as int]));
                }
                return Err(SnapshotMismatch::Extra);
            }
        }
        j = j + 1;
    }
    proof {
        expected.lemma_coins();
        assert forall|k: Seq<char>| #[trigger]
            wanted.contains_key(k) && !is_ignored(k, ignore_spot) implies received.contains_key(k) by {
            assert(others.contains(k));
            let a = choose|a: int| 0 <= a < others.len() && others[a] == k;
            assert(is_ignored(others[a], ignore_spot) || received.contains_key(others[a]));
        }
    }
    Ok(())
}

/// A placed order as the diagnostics print it.
pub open spec fn placed_text(p: Option<PlacedModel>) -> Seq<char> {
    option_text(
        match p {
            Some((side, i, o)) => Some(
                "("@ + side_text(side) + ", "@ + decimal(i as nat) + ", "@ + order_text(o) + ")"@,
            ),
            None => None,
        },
    )
}

pub open spec fn optional_order_text(o: Option<OrderModel>) -> Seq<char> {
    option_text(
        match o {
            Some(o) => Some(order_text(o)),
            None => None,
        },
    )
}

/// A mismatch in words.
pub open spec fn mismatch_text(m: MismatchModel) -> Seq<char> {
    match m {
        MismatchModel::Orders {
            coin,
            side,
            index,
            expected_count,
            received_count,
            expected,
            received,
            expected_oid_in_received_book,
            received_oid_in_expected_book,
        } => "Orders do not match, coin: "@ + coin + ", side: "@ + side_text(side) + ", index: "@ + decimal(
            index as nat,
        ) + ", expected_count: "@ + decimal(expected_count) + ", received_count: "@ + decimal(received_count)
            + ", expected: "@ + optional_order_text(expected) + ", received: "@ + optional_order_text(received)
            + ", expected_oid_in_received_book: "@ + placed_text(expected_oid_in_received_book)
            + ", received_oid_in_expected_book: "@ + placed_text(received_oid_in_expected_book),
        MismatchModel::Missing { coin } => "Missing "@ + coin + " book"@,
        MismatchModel::Extra => "Extra orderbooks detected"@,
    }
}

fn describe_order(o: &Option<InnerL4Order>) -> (r: String)
    ensures
        r@ == optional_order_text(optional_order(*o)),
{
    match o {
        Some(o) => wrap_option(Some(o.debug_text())),
        None => wrap_option(None),
    }
}

fn describe_placed(p: &Option<Placed>) -> (r: String)
    ensures
        r@ == placed_text(placed_view(*p)),
{
    match p {
        Some(p) => {
            let mut s = "(".to_owned();
            s.append(side_name(p.side).as_str());
            s.append(", ");
            s.append(decimal_text(p.index as u64).as_str());
            s.append(", ");
            s.append(p.order.debug_text().as_str());
            s.append(")");
            wrap_option(Some(s))
        },
        None => wrap_option(None),
    }
}

impl SnapshotMismatch {
    /// The mismatch in words.
    pub fn message(&self) -> (r: String)
        ensures
            r@ == mismatch_text(self@),
    {
        match self {
            SnapshotMismatch::Orders {
                coin,
                side,
                index,
                expected_count,
                received_count,
                expected,
                received,
                expected_oid_in_received_book,
                received_oid_in_expected_book,
            } => {
                let mut s = "Orders do not match, coin: ".to_owned();
                s.append(coin.as_str());
                s.append(", side: ");
                s.append(side_name(*side).as_str());
                s.append(", index: ");
                s.append(decimal_text(*index as u64).as_str());
                s.append(", expected_count: ");
                s.append(decimal_text(*expected_count as u64).as_str());
                s.append(", received_count: ");
                s.append(decimal_text(*received_count as u64).as_str());
                s.append(", expected: ");
                s.append(describe_order(expected).as_str());
                s.append(", received: ");
                s.append(describe_order(received).as_str());
                s.append(", expected_oid_in_received_book: ");
                s.append(describe_placed(expected_oid_in_received_book).as_str());
                s.append(", received_oid_in_expected_book: ");
                s.append(describe_placed(received_oid_in_expected_book).as_str());
                s
            },
            SnapshotMismatch::Missing { coin } => {
                let mut s = "Missing ".to_owned();
                s.append(coin.as_str());
                s.append(" book");
                s
            },
            SnapshotMismatch::Extra => "Extra orderbooks detected".to_owned(),
        }
    }
}

/// Whether a book of a coin counts in a comparison.
pub open spec fn counts(coin: Seq<char>, ignore_spot: bool) -> bool {
    !(ignore_spot && is_spot_symbol(coin))
}

/// Books agree exactly if every coin that counts has, where a book is expected of it, the same bids and
/// the same asks, order by order, and where none is expected no orders, and no expected book of a coin
/// that counts is lacking.
pub proof fn law_books_agree_order_by_order(
    coins: Seq<Seq<char>>,
    received: BooksModel,
    expected: BooksModel,
    ignore_spot: bool,
)
    requires
        walks(coins, received),
    ensures
        mismatch(coins, received, expected, ignore_spot) is None <==> {
            &&& forall|k: Seq<char>|
                #![trigger received.contains_key(k)]
                received.contains_key(k) && counts(k, ignore_spot) && expected.contains_key(k)
                    ==> received[k].bids == expected[k].bids && received[k].asks == expected[k].asks
            &&& forall|k: Seq<char>|
                #![trigger received.contains_key(k)]
                received.contains_key(k) && counts(k, ignore_spot) && !expected.contains_key(k)
                    ==> received[k].bids.len() == 0 && received[k].asks.len() == 0
            &&& forall|k: Seq<char>|
                #![trigger expected.contains_key(k)]
                expected.contains_key(k) && counts(k, ignore_spot) ==> received.contains_key(k)
        },
        consistent(received, expected, ignore_spot) <==> mismatch(coins, received, expected, ignore_spot) is None,
{
    law_mismatch_iff_inconsistent(coins, received, expected, ignore_spot);
}

/// Whether a report names where a book holds the order with the number of another one: its first place,
/// bids before asks, or none.
pub open spec fn names_the_place(p: Option<PlacedModel>, o: Option<OrderModel>, book: BookModel) -> bool {
    match o {
        None => p is None,
        Some(o) => match p {
            Some((Side::Bid, i, held)) => first_with(book.bids, o.oid, i) && held == book.bids[i],
            Some((Side::Ask, i, held)) => none_with(book.bids, o.oid) && first_with(book.asks, o.oid, i) && held
                == book.asks[i],
            None => none_with(book.bids, o.oid) && none_with(book.asks, o.oid),
        },
    }
}

/// Whether a report describes the first place where two lists differ: everything before it is the same,
/// and what it shows is what the lists hold there, or nothing behind their ends.
pub open spec fn shows_first_difference(
    received_list: Seq<OrderModel>,
    expected_list: Seq<OrderModel>,
    index: int,
    received: Option<OrderModel>,
    expected: Option<OrderModel>,
) -> bool {
    &&& 0 <= index
    &&& index <= received_list.len() && index <= expected_list.len()
    &&& received_list.take(index) == expected_list.take(index)
    &&& received == (if index < received_list.len() {
        Some(received_list[index])
    } else {
        None
    })
    &&& expected == (if index < expected_list.len() {
        Some(expected_list[index])
    } else {
        None
    })
    &&& received != expected
}

proof fn lemma_shows_first_difference(a: Seq<OrderModel>, b: Seq<OrderModel>)
    ensures
        difference_from(a, b, 0) matches Some(i) ==> shows_first_difference(a, b, i, order_at(a, i), order_at(b, i)),
{
    lemma_difference(a, b, 0);
    if let Some(i) = difference_from(a, b, 0) {
        if i > a.len() {
            assert(order_at(a, a.len() as int) == order_at(b, a.len() as int));
            assert(order_at(a, i - 1) == order_at(b, i - 1));
        }
        if i > b.len() {
            assert(order_at(a, b.len() as int) == order_at(b, b.len() as int));
            assert(order_at(a, i - 1) == order_at(b, i - 1));
        }
        assert forall|k: int| 0 <= k < i implies a.take(i)[k] == b.take(i)[k] by {
            assert(order_at(a, k) == order_at(b, k));
        }
        assert(a.take(i) =~= b.take(i));
    }
}

proof fn lemma_coin_report(coin: Seq<char>, received: BookModel, expected: BooksModel, ignore_spot: bool)
    ensures
        match coin_mismatch(coin, received, expected, ignore_spot) {
            Some(MismatchModel::Orders {
                coin: named,
                side,
                index,
                expected_count,
                received_count,
                expected: e,
                received: r,
                expected_oid_in_received_book,
                received_oid_in_expected_book,
            }) => {
                &&& named == coin
                &&& counts(coin, ignore_spot)
                &&& expected.contains_key(coin)
                &&& names_the_place(expected_oid_in_received_book, e, received)
                &&& names_the_place(received_oid_in_expected_book, r, expected[coin])
                &&& match side {
                    Side::Bid => {
                        &&& expected_count == expected[coin].bids.len()
                        &&& received_count == received.bids.len()
                        &&& shows_first_difference(received.bids, expected[coin].bids, index, r, e)
                    },
                    Side::Ask => {
                        &&& received.bids == expected[coin].bids
                        &&& expected_count == expected[coin].asks.len()
                        &&& received_count == received.asks.len()
                        &&& shows_first_difference(received.asks, expected[coin].asks, index, r, e)
                    },
                }
            },
            Some(MismatchModel::Missing { coin: named }) => {
                &&& named == coin
                &&& counts(coin, ignore_spot)
                &&& !expected.contains_key(coin)
                &&& received.bids.len() > 0 || received.asks.len() > 0
            },
            Some(MismatchModel::Extra) => false,
            None => true,
        },
{
    if expected.contains_key(coin) {
        let e = expected[coin];
        lemma_shows_first_difference(received.bids, e.bids);
        lemma_shows_first_difference(received.asks, e.asks);
        lemma_no_difference(received.bids, e.bids);
        if let Some(MismatchModel::Orders { expected: x, received: y, .. }) = coin_mismatch(
            coin,
            received,
            expected,
            ignore_spot,
        ) {
            if let Some(o) = x {
                law_orders_are_located(received, o.oid);
            }
            if let Some(o) = y {
                law_orders_are_located(e, o.oid);
            }
        }
    }
}

/// What a report says is so, of the first coin of the walk whose book is wrong: the named coin counts,
/// every coin that is met before it is right, and either it has orders and none are expected, or the
/// report shows the first place where its bids differ, or its asks if the bids do not, with what both
/// books hold there, how many orders they have on that side, and where each of the two orders is in the
/// other book. That a book is lacking is reported only if every coin of the walk is right.
pub proof fn law_report_shows_what_is_wrong(
    coins: Seq<Seq<char>>,
    received: BooksModel,
    expected: BooksModel,
    ignore_spot: bool,
)
    requires
        walks(coins, received),
    ensures
        match mismatch(coins, received, expected, ignore_spot) {
            Some(MismatchModel::Orders {
                coin,
                side,
                index,
                expected_count,
                received_count,
                expected: e,
                received: r,
                expected_oid_in_received_book,
                received_oid_in_expected_book,
            }) => {
                &&& first_wrong(coins, received, expected, ignore_spot, coin)
                &&& expected.contains_key(coin)
                &&& names_the_place(expected_oid_in_received_book, e, received[coin])
                &&& names_the_place(received_oid_in_expected_book, r, expected[coin])
                &&& match side {
                    Side::Bid => {
                        &&& expected_count == expected[coin].bids.len()
                        &&& received_count == received[coin].bids.len()
                        &&& shows_first_difference(received[coin].bids, expected[coin].bids, index, r, e)
                    },
                    Side::Ask => {
                        &&& received[coin].bids == expected[coin].bids
                        &&& expected_count == expected[coin].asks.len()
                        &&& received_count == received[coin].asks.len()
                        &&& shows_first_difference(received[coin].asks, expected[coin].asks, index, r, e)
                    },
                }
            },
            Some(MismatchModel::Missing { coin }) => {
                &&& first_wrong(coins, received, expected, ignore_spot, coin)
                &&& !expected.contains_key(coin)
                &&& received[coin].bids.len() > 0 || received[coin].asks.len() > 0
            },
            Some(MismatchModel::Extra) => {
                &&& forall|j: int| 0 <= j < coins.len() ==> is_right(#[trigger] coins[j], received, expected, ignore_spot)
                &&& exists|k: Seq<char>| #[trigger]
                    expected.contains_key(k) && counts(k, ignore_spot) && !received.contains_key(k)
            },
            None => true,
        },
{
    lemma_report(coins, received, expected, ignore_spot, 0);
}

/// Whether a coin's book is as expected, or does not count.
pub open spec fn is_right(coin: Seq<char>, received: BooksModel, expected: BooksModel, ignore_spot: bool) -> bool {
    counts(coin, ignore_spot) ==> if expected.contains_key(coin) {
        received[coin].bids == expected[coin].bids && received[coin].asks == expected[coin].asks
    } else {
        received[coin].bids.len() == 0 && received[coin].asks.len() == 0
    }
}

/// Whether a coin is the first of a walk whose book is not as expected.
pub open spec fn first_wrong(
    coins: Seq<Seq<char>>,
    received: BooksModel,
    expected: BooksModel,
    ignore_spot: bool,
    coin: Seq<char>,
) -> bool {
    exists|i: int|
        0 <= i < coins.len() && #[trigger] coins[i] == coin && !is_right(coin, received, expected, ignore_spot) && (
        forall|j: int| 0 <= j < i ==> is_right(#[trigger] coins[j], received, expected, ignore_spot))
}

proof fn lemma_report(
    coins: Seq<Seq<char>>,
    received: BooksModel,
    expected: BooksModel,
    ignore_spot: bool,
    from: int,
)
    requires
        0 <= from <= coins.len(),
        forall|j: int| 0 <= j < from ==> is_right(#[trigger] coins[j], received, expected, ignore_spot),
    ensures
        match mismatch_from(coins, received, expected, ignore_spot, from) {
            None => forall|j: int|
                0 <= j < coins.len() ==> is_right(#[trigger] coins[j], received, expected, ignore_spot),
            Some(m) => exists|i: int|
                from <= i < coins.len() && coin_mismatch(
                    #[trigger] coins[i],
                    received[coins[i]],
                    expected,
                    ignore_spot,
                ) == Some(m) && first_wrong(coins, received, expected, ignore_spot, coins[i]),
        },
        mismatch_from(coins, received, expected, ignore_spot, from) matches Some(m) ==> match m {
            MismatchModel::Orders {
                coin,
                side,
                index,
                expected_count,
                received_count,
                expected: e,
                received: r,
                expected_oid_in_received_book,
                received_oid_in_expected_book,
            } => {
                &&& first_wrong(coins, received, expected, ignore_spot, coin)
                &&& expected.contains_key(coin)
                &&& names_the_place(expected_oid_in_received_book, e, received[coin])
                &&& names_the_place(received_oid_in_expected_book, r, expected[coin])
                &&& match side {
                    Side::Bid => {
                        &&& expected_count == expected[coin].bids.len()
                        &&& received_count == received[coin].bids.len()
                        &&& shows_first_difference(received[coin].bids, expected[coin].bids, index, r, e)
                    },
                    Side::Ask => {
                        &&& received[coin].bids == expected[coin].bids
                        &&& expected_count == expected[coin].asks.len()
                        &&& received_count == received[coin].asks.len()
                        &&& shows_first_difference(received[coin].asks, expected[coin].asks, index, r, e)
                    },
                }
            },
            MismatchModel::Missing { coin } => {
                &&& first_wrong(coins, received, expected, ignore_spot, coin)
                &&& !expected.contains_key(coin)
                &&& received[coin].bids.len() > 0 || received[coin].asks.len() > 0
            },
            MismatchModel::Extra => false,
        },
    decreases coins.len() - from,
{
    if from < coins.len() {
        let coin = coins[from];
        lemma_coin_report(coin, received[coin], expected, ignore_spot);
        if expected.contains_key(coin) {
            lemma_book_mismatch(coin, received[coin], expected[coin]);
        }
        if coin_mismatch(coin, received[coin], expected, ignore_spot) is None {
            assert(is_right(coin, received, expected, ignore_spot));
            lemma_report(coins, received, expected, ignore_spot, from + 1);
        } else {
            assert(!is_right(coin, received, expected, ignore_spot));
            assert(first_wrong(coins, received, expected, ignore_spot, coins[from]));
        }
    }
}

/// A mismatch in words: where it is, and of each of the two books what it holds there.
pub proof fn law_mismatch_in_words(m: MismatchModel)
    ensures
        match m {
            MismatchModel::Orders {
                coin,
                side,
                index,
                expected_count,
                received_count,
                expected,
                received,
                expected_oid_in_received_book,
                received_oid_in_expected_book,
            } => {
                let place = "Orders do not match, coin: "@ + coin + ", side: "@ + side_text(side) + ", index: "@
                    + decimal(index as nat);
                let counts = place + ", expected_count: "@ + decimal(expected_count) + ", received_count: "@ + decimal(
                    received_count,
                );
                let orders = counts + ", expected: "@ + (match expected {
                    Some(o) => "Some("@ + order_text(o) + ")"@,
                    None => "None"@,
                }) + ", received: "@ + (match received {
                    Some(o) => "Some("@ + order_text(o) + ")"@,
                    None => "None"@,
                });
                mismatch_text(m) == orders + ", expected_oid_in_received_book: "@ + (
                match expected_oid_in_received_book {
                    Some((s, i, o)) => "Some("@ + ("("@ + side_text(s) + ", "@ + decimal(i as nat) + ", "@ + order_text(
                        o,
                    ) + ")"@) + ")"@,
                    None => "None"@,
                }) + ", received_oid_in_expected_book: "@ + (match received_oid_in_expected_book {
                    Some((s, i, o)) => "Some("@ + ("("@ + side_text(s) + ", "@ + decimal(i as nat) + ", "@ + order_text(
                        o,
                    ) + ")"@) + ")"@,
                    None => "None"@,
                })
            },
            MismatchModel::Missing { coin } => mismatch_text(m) == "Missing "@ + coin + " book"@,
            MismatchModel::Extra => mismatch_text(m) == "Extra orderbooks detected"@,
        },
{
}

} // verus!
