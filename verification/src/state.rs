//! The live books and how a block's batches change them.

use vstd::prelude::*;
use vstd::string::*;
use std::collections::HashMap;

use crate::coin::{is_ignored, is_spot_symbol, symbols};
use crate::levels::{compute_l2_snapshots, l2_model, L2Snapshots};
use crate::multi_book::{
    all_in_order, book_or_empty, books_from, books_hold, books_with_order, books_with_size, books_without_order,
    law_books_are_those_of_the_snapshots, law_books_from_snapshots_are_in_order, law_changes_keep_order,
    plain_book, OrderBooks, Snapshots,
};
use crate::node_data::{
    opens_order, DiffBatch, DiffModel, NodeDataOrderDiff, NodeDataOrderStatus, OrderDiff, PairModel,
    StatusBatch, StatusModel,
};
use crate::order::{Oid, OrderModel, Side, Sz};
use crate::order_book::{
    first_with, law_cancelling_takes_out_one_order, law_changes_bring_no_triggers, law_ignored_triggers_stay_out,
    law_new_order_takes_its_place, law_orders_are_located, law_resizing_changes_one_size, none_with, resized,
    without_triggers, BooksModel,
};
use crate::text::{decimal, decimal_text};

verus! {

broadcast use vstd::std_specs::hash::group_hash_axioms;

/// Books with the block and the time they are of.
pub struct TimedSnapshots {
    pub time: u64,
    pub height: u64,
    pub snapshot: Snapshots,
}

pub struct TimedModel {
    pub time: u64,
    pub height: u64,
    pub books: BooksModel,
}

impl View for TimedSnapshots {
    type V = TimedModel;

    open spec fn view(&self) -> TimedModel {
        TimedModel { time: self.time, height: self.height, books: self.snapshot@ }
    }
}

impl TimedSnapshots {
    pub open spec fn wf(&self) -> bool {
        self.snapshot.wf()
    }
}

/// Why a block's batches could not be applied.
#[derive(Debug, Clone, Copy, PartialEq, Eq, Structural)]
pub enum ApplyError {
    /// A block in between is missing.
    BlockGap { expected: u64, got: u64 },
    /// An order entered the book without a report that it opened.
    MissingStatus { oid: Oid },
    /// An order that is not on the book was changed.
    MissingOrder { oid: Oid },
}

/// An error in words.
pub open spec fn apply_error_text(e: ApplyError) -> Seq<char> {
    match e {
        ApplyError::BlockGap { expected, got } => "Expecting block "@ + decimal(expected as nat) + ", got block "@
            + decimal(got as nat),
        ApplyError::MissingStatus { oid } => "Unable to find order opening status "@ + decimal(oid as nat),
        ApplyError::MissingOrder { oid } => "Unable to find order on the book "@ + decimal(oid as nat),
    }
}

impl ApplyError {
    /// The error in words.
    pub fn message(&self) -> (r: String)
        ensures
            r@ == apply_error_text(*self),
    {
        match self {
            ApplyError::BlockGap { expected, got } => {
                let mut s = "Expecting block ".to_owned();
                s.append(decimal_text(*expected).as_str());
                s.append(", got block ");
                s.append(decimal_text(*got).as_str());
                s
            },
            ApplyError::MissingStatus { oid } => {
                let mut s = "Unable to find order opening status ".to_owned();
                s.append(decimal_text(*oid).as_str());
                s
            },
            ApplyError::MissingOrder { oid } => {
                let mut s = "Unable to find order on the book ".to_owned();
                s.append(decimal_text(*oid).as_str());
                s
            },
        }
    }
}

/// The live books by their contents. `snapped` says that aggregations of this height have been
/// handed out.
pub struct StateModel {
    pub books: BooksModel,
    pub height: u64,
    pub time: u64,
    pub snapped: bool,
    pub ignore_spot: bool,
}

/// The orders that a block reports as opened, by number; the last report of an order counts.
pub open spec fn opened_orders(s: Seq<NodeDataOrderStatus>) -> Map<Oid, OrderModel>
    decreases s.len(),
{
    if s.len() == 0 {
        Map::empty()
    } else if opens_order(s.last()) {
        opened_orders(s.drop_last()).insert(s.last().order.oid, s.last().order@)
    } else {
        opened_orders(s.drop_last())
    }
}

/// The books after a block's changes, one after the other. An order that enters takes what was
/// reported when it opened, and each such report serves once. The first change that does not
/// fit ends it.
pub open spec fn changed_books(
    books: BooksModel,
    opened: Map<Oid, OrderModel>,
    diffs: Seq<NodeDataOrderDiff>,
    ignore_spot: bool,
) -> (BooksModel, Option<ApplyError>)
    decreases diffs.len(),
{
    if diffs.len() == 0 {
        (books, None)
    } else {
        let diff = diffs[0];
        let rest = diffs.drop_first();
        if is_ignored(diff.coin@, ignore_spot) {
            changed_books(books, opened, rest, ignore_spot)
        } else {
            match diff.raw_book_diff {
                OrderDiff::New { sz } => if opened.contains_key(diff.oid) {
                    changed_books(
                        books_with_order(books, resized(opened[diff.oid], sz)),
                        opened.remove(diff.oid),
                        rest,
                        ignore_spot,
                    )
                } else {
                    (books, Some(ApplyError::MissingStatus { oid: diff.oid }))
                },
                OrderDiff::Update { orig_sz, new_sz } => if books_hold(books, diff.coin@, diff.oid) {
                    changed_books(
                        books_with_size(books, diff.coin@, diff.oid, new_sz),
                        opened,
                        rest,
                        ignore_spot,
                    )
                } else {
                    (books, Some(ApplyError::MissingOrder { oid: diff.oid }))
                },
                OrderDiff::Remove => if books_hold(books, diff.coin@, diff.oid) {
                    changed_books(
                        books_without_order(books, diff.coin@, diff.oid),
                        opened,
                        rest,
                        ignore_spot,
                    )
                } else {
                    (books, Some(ApplyError::MissingOrder { oid: diff.oid }))
                },
            }
        }
    }
}

/// The state after a block's two batches. A block at or below the state's height is passed
/// over, and a block above the next one is refused.
pub open spec fn applied(st: StateModel, statuses: StatusModel, diffs: DiffModel) -> (
    StateModel,
    Option<ApplyError>,
) {
    if statuses.block_number <= st.height {
        (st, None)
    } else if statuses.block_number > st.height + 1 {
        (
            st,
            Some(
                ApplyError::BlockGap { expected: (st.height + 1) as u64, got: statuses.block_number },
            ),
        )
    } else {
        let (books, error) = changed_books(
            st.books,
            opened_orders(statuses.events),
            diffs.events,
            st.ignore_spot,
        );
        match error {
            Some(e) => (StateModel { books, ..st }, Some(e)),
            None => (
                StateModel {
                    books,
                    height: statuses.block_number,
                    time: statuses.block_time,
                    snapped: false,
                    ..st
                },
                None,
            ),
        }
    }
}

/// The state after several blocks, up to the first that does not fit.
pub open spec fn replayed(st: StateModel, pairs: Seq<PairModel>) -> (StateModel, Option<ApplyError>)
    decreases pairs.len(),
{
    if pairs.len() == 0 {
        (st, None)
    } else {
        let (next, error) = applied(st, pairs[0].0, pairs[0].1);
        match error {
            Some(e) => (next, Some(e)),
            None => replayed(next, pairs.drop_first()),
        }
    }
}

/// The state that a snapshot of the node gives.
pub open spec fn state_from(
    snapshot: BooksModel,
    height: u64,
    time: u64,
    ignore_triggers: bool,
    ignore_spot: bool,
) -> StateModel {
    StateModel { books: books_from(snapshot, ignore_triggers), height, time, snapped: false, ignore_spot }
}

/// The live books.
pub struct OrderBookState {
    order_book: OrderBooks,
    height: u64,
    time: u64,
    snapped: bool,
    ignore_spot: bool,
}

impl View for OrderBookState {
    type V = StateModel;

    closed spec fn view(&self) -> StateModel {
        StateModel {
            books: self.order_book@,
            height: self.height,
            time: self.time,
            snapped: self.snapped,
            ignore_spot: self.ignore_spot,
        }
    }
}

impl OrderBookState {
    pub closed spec fn wf(&self) -> bool {
        self.order_book.wf()
    }

    pub fn from_snapshot(
        snapshot: Snapshots,
        height: u64,
        time: u64,
        ignore_triggers: bool,
        ignore_spot: bool,
    ) -> (r: Self)
        requires
            snapshot.wf(),
        ensures
            r.wf(),
            r@ == state_from(snapshot@, height, time, ignore_triggers, ignore_spot),
    {
        OrderBookState {
            order_book: OrderBooks::from_snapshots(&snapshot, ignore_triggers),
            height,
            time,
            snapped: false,
            ignore_spot,
        }
    }

    pub fn copy(&self) -> (r: Self)
        requires
            self.wf(),
        ensures
            r.wf(),
            r@ == self@,
    {
        OrderBookState {
            order_book: self.order_book.copy(),
            height: self.height,
            time: self.time,
            snapped: self.snapped,
            ignore_spot: self.ignore_spot,
        }
    }

    pub fn height(&self) -> (r: u64)
        ensures
            r == self@.height,
    {
        self.height
    }

    /// The books as they are now.
    pub fn compute_snapshot(&self) -> (r: TimedSnapshots)
        requires
            self.wf(),
        ensures
            r.wf(),
            r@ == (TimedModel { time: self@.time, height: self@.height, books: self@.books }),
    {
        TimedSnapshots { time: self.time, height: self.height, snapshot: self.order_book.to_snapshots() }
    }

    /// Time, height and aggregations, unless those of this height have been handed out. With
    /// `prevent_future_snaps` they will not be handed out again until the height changes.
    pub fn l2_snapshots(&mut self, prevent_future_snaps: bool) -> (r: Option<(u64, u64, L2Snapshots)>)
        requires
            old(self).wf(),
        ensures
            final(self).wf(),
            match r {
                Some((time, height, l2)) => {
                    &&& !old(self)@.snapped
                    &&& time == old(self)@.time
                    &&& height == old(self)@.height
                    &&& l2.wf()
                    &&& l2@ == l2_model(old(self)@.books)
                },
                None => old(self)@.snapped,
            },
            final(self)@ == (StateModel { snapped: old(self)@.snapped || prevent_future_snaps, ..old(self)@ }),
    {
        if self.snapped {
            None
        } else {
            self.snapped = prevent_future_snaps;
            Some((self.time, self.height, compute_l2_snapshots(&self.order_book)))
        }
    }

    /// The coins that have a book.
    pub fn compute_universe(&self) -> (r: Vec<String>)
        requires
            self.wf(),
        ensures
            symbols(r@) == self@.books.dom(),
    {
        let books = self.order_book.as_ref();
        let ghost keys = books.keys();
        proof {
            books.lemma_keys();
        }
        let mut coins: Vec<String> = Vec::new();
        let mut i: usize = 0;
        while i < books.len()
            invariant
                i <= keys.len(),
                keys == books.keys(),
                books.wf(),
                coins@.len() == i,
                forall|j: int| 0 <= j < i ==> (#[trigger] coins@[j])@ == keys[j],
            decreases keys.len() - i,
        {
            coins.push(books.key(i).clone());
            i = i + 1;
        }
        proof {
            assert forall|k: Seq<char>| symbols(coins@).contains(k) == #[trigger] self@.books.dom().contains(k) by {
                if symbols(coins@).contains(k) {
                    let j = choose|j: int| 0 <= j < coins@.len() && #[trigger] coins@[j]@ == k;
                    assert(books@.contains_key(keys[j]));
                }
                if self@.books.dom().contains(k) {
                    assert(books@.contains_key(k));
                    assert(keys.contains(k));
                    let j = choose|j: int| 0 <= j < keys.len() && keys[j] == k;
                    assert(coins@[j]@ == k);
                }
            }
            assert(symbols(coins@) =~= self@.books.dom());
        }
        coins
    }

    /// Applies a block's two batches. If a change does not fit, the changes before it stay.
    pub fn apply_updates(&mut self, order_statuses: &StatusBatch, order_diffs: &DiffBatch) -> (r: Result<
        (),
        ApplyError,
    >)
        requires
            old(self).wf(),
        ensures
            final(self).wf(),
            final(self)@ == applied(old(self)@, order_statuses@, order_diffs@).0,
            match r {
                Ok(()) => applied(old(self)@, order_statuses@, order_diffs@).1 is None,
                Err(e) => applied(old(self)@, order_statuses@, order_diffs@).1 == Some(e),
            },
    {
        let height: u64 = order_statuses.block_number();
        let time: u64 = order_statuses.block_time();
        if height <= self.height {
            return Ok(());
        }
        if height - self.height > 1 {
            return Err(ApplyError::BlockGap { expected: self.height + 1, got: height });
        }
        let mut opened = index_opened(&order_statuses.events);
        let ghost opened_now = opened_orders(order_statuses.events@);
        let ghost start = self@;
        let ghost all = order_diffs.events@;
        let mut i: usize = 0;
        assert(all.skip(0) =~= all);
        while i < order_diffs.events.len()
            invariant
                i <= order_diffs.events@.len(),
                all == order_diffs.events@,
                self.wf(),
                opens_as(opened@, order_statuses.events@, opened_now),
                self.height == start.height,
                self.time == start.time,
                self.snapped == start.snapped,
                self.ignore_spot == start.ignore_spot,
                changed_books(
                    start.books,
                    opened_orders(order_statuses.events@),
                    all,
                    start.ignore_spot,
                ) == changed_books(self@.books, opened_now, all.skip(i as int), start.ignore_spot),
                start == old(self)@,
                height == start.height + 1,
                height == order_statuses@.block_number,
                order_diffs@.events == all,
            decreases order_diffs.events@.len() - i,
        {
            let diff = &order_diffs.events[i];
            assert(all.skip(i as int)[0] == diff);
            assert(all.skip(i as int).drop_first() =~= all.skip(i + 1));
            let ghost books_now = self@.books;
            if !(self.ignore_spot && diff.coin.is_spot()) {
                match diff.raw_book_diff {
                    OrderDiff::New { sz } => {
                        match opened.remove(&diff.oid) {
                            Some(at) => {
                                let mut order = order_statuses.events[at].order.clone();
                                order.sz = sz;
                                assert(order@ == resized(opened_now[diff.oid], sz));
                                self.order_book.add_order(order);
                                proof {
                                    opened_now = opened_now.remove(diff.oid);
                                }
                            },
                            None => {
                                return Err(ApplyError::MissingStatus { oid: diff.oid });
                            },
                        }
                    },
                    OrderDiff::Update { orig_sz, new_sz } => {
                        if !self.order_book.modify_sz(diff.oid, &diff.coin, new_sz) {
                            return Err(ApplyError::MissingOrder { oid: diff.oid });
                        }
                    },
                    OrderDiff::Remove => {
                        if !self.order_book.cancel_order(diff.oid, &diff.coin) {
                            return Err(ApplyError::MissingOrder { oid: diff.oid });
                        }
                    },
                }
            }
            i = i + 1;
        }
        self.height = height;
        self.time = time;
        self.snapped = false;
        Ok(())
    }
}

/// A map from order numbers to places in a list of reports stands for a map to orders.
spec fn opens_as(m: Map<Oid, usize>, s: Seq<NodeDataOrderStatus>, opened: Map<Oid, OrderModel>) -> bool {
    &&& m.dom() =~= opened.dom()
    &&& forall|oid: Oid| #[trigger]
        m.contains_key(oid) ==> m[oid] < s.len() && s[m[oid] as int].order@ == opened[oid]
}

/// Where a block reports each order that opened.
fn index_opened(statuses: &Vec<NodeDataOrderStatus>) -> (r: HashMap<u64, usize>)
    ensures
        opens_as(r@, statuses@, opened_orders(statuses@)),
{
    let mut m: HashMap<u64, usize> = HashMap::new();
    let mut i: usize = 0;
    while i < statuses.len()
        invariant
            i <= statuses@.len(),
            opens_as(m@, statuses@, opened_orders(statuses@.take(i as int))),
        decreases statuses@.len() - i,
    {
        assert(statuses@.take(i + 1).drop_last() =~= statuses@.take(i as int));
        assert(statuses@.take(i + 1).last() == statuses@[i as int]);
        if statuses[i].is_inserted_into_book() {
            m.insert(statuses[i].order.oid(), i);
        }
        i = i + 1;
    }
    assert(statuses@.take(i as int) =~= statuses@);
    m
}

proof fn lemma_changes_keep_order(
    books: BooksModel,
    opened: Map<Oid, OrderModel>,
    diffs: Seq<NodeDataOrderDiff>,
    ignore_spot: bool,
)
    requires
        all_in_order(books),
    ensures
        all_in_order(changed_books(books, opened, diffs, ignore_spot).0),
    decreases diffs.len(),
{
    if diffs.len() > 0 {
        let diff = diffs[0];
        let rest = diffs.drop_first();
        let sz = match diff.raw_book_diff {
            OrderDiff::New { sz } => sz,
            OrderDiff::Update { orig_sz, new_sz } => new_sz,
            OrderDiff::Remove => Sz(0),
        };
        law_changes_keep_order(books, resized(opened[diff.oid], sz), diff.coin@, diff.oid, sz);
        if is_ignored(diff.coin@, ignore_spot) {
            lemma_changes_keep_order(books, opened, rest, ignore_spot);
        } else {
            match diff.raw_book_diff {
                OrderDiff::New { sz } => {
                    lemma_changes_keep_order(
                        books_with_order(books, resized(opened[diff.oid], sz)),
                        opened.remove(diff.oid),
                        rest,
                        ignore_spot,
                    );
                },
                OrderDiff::Update { orig_sz, new_sz } => {
                    lemma_changes_keep_order(
                        books_with_size(books, diff.coin@, diff.oid, new_sz),
                        opened,
                        rest,
                        ignore_spot,
                    );
                },
                OrderDiff::Remove => {
                    lemma_changes_keep_order(
                        books_without_order(books, diff.coin@, diff.oid),
                        opened,
                        rest,
                        ignore_spot,
                    );
                },
            }
        }
    }
}

/// The best price comes first on every book, from the snapshot on and through every block,
/// also where a block ends with an error.
pub proof fn law_live_books_stay_in_order(st: StateModel, statuses: StatusModel, diffs: DiffModel)
    requires
        all_in_order(st.books),
    ensures
        all_in_order(applied(st, statuses, diffs).0.books),
{
    lemma_changes_keep_order(st.books, opened_orders(statuses.events), diffs.events, st.ignore_spot);
}

/// A state made from a snapshot has the best price first on every book.
pub proof fn law_initial_books_are_in_order(
    snapshot: BooksModel,
    height: u64,
    time: u64,
    ignore_triggers: bool,
    ignore_spot: bool,
)
    ensures
        all_in_order(state_from(snapshot, height, time, ignore_triggers, ignore_spot).books),
{
    law_books_from_snapshots_are_in_order(snapshot, ignore_triggers);
}

/// A block moves the height by one or not at all; it never moves it back.
pub proof fn law_height_advances_by_one(st: StateModel, statuses: StatusModel, diffs: DiffModel)
    ensures
        ({
            let (next, error) = applied(st, statuses, diffs);
            &&& next.height == st.height || next.height == st.height + 1
            &&& next.height == st.height + 1 <==> error is None && statuses.block_number == st.height + 1
            &&& next.ignore_spot == st.ignore_spot
        }),
{
}

/// Replaying blocks never moves the height back.
pub proof fn law_replay_never_rolls_back(st: StateModel, pairs: Seq<PairModel>)
    ensures
        replayed(st, pairs).0.height >= st.height,
        replayed(st, pairs).0.height <= st.height + pairs.len(),
    decreases pairs.len(),
{
    if pairs.len() > 0 {
        let (next, error) = applied(st, pairs[0].0, pairs[0].1);
        if error is None {
            law_replay_never_rolls_back(next, pairs.drop_first());
        }
    }
}

/// Replaying two runs of blocks one after the other is replaying them at once.
pub proof fn law_replay_in_parts(st: StateModel, a: Seq<PairModel>, b: Seq<PairModel>)
    ensures
        replayed(st, a + b) == (match replayed(st, a).1 {
            Some(e) => replayed(st, a),
            None => replayed(replayed(st, a).0, b),
        }),
    decreases a.len(),
{
    if a.len() == 0 {
        assert(a + b =~= b);
    } else {
        let (next, error) = applied(st, a[0].0, a[0].1);
        assert((a + b)[0] == a[0]);
        assert((a + b).drop_first() =~= a.drop_first() + b);
        if error is None {
            law_replay_in_parts(next, a.drop_first(), b);
        }
    }
}

/// Blocks that a state already holds can be replayed without effect.
pub proof fn law_old_blocks_are_passed_over(st: StateModel, pairs: Seq<PairModel>)
    requires
        forall|i: int| 0 <= i < pairs.len() ==> (#[trigger] pairs[i]).0.block_number <= st.height,
    ensures
        replayed(st, pairs) == (st, None::<ApplyError>),
    decreases pairs.len(),
{
    if pairs.len() > 0 {
        let rest = pairs.drop_first();
        assert forall|i: int| 0 <= i < rest.len() implies (#[trigger] rest[i]).0.block_number <= st.height by {
            assert(rest[i] == pairs[i + 1]);
        }
        law_old_blocks_are_passed_over(st, rest);
    }
}

/// No book holds a trigger order.
pub open spec fn all_without_triggers(books: BooksModel) -> bool {
    forall|k: Seq<char>| #[trigger] books.contains_key(k) ==> without_triggers(books[k])
}

proof fn lemma_changes_bring_no_triggers(
    books: BooksModel,
    opened: Map<Oid, OrderModel>,
    diffs: Seq<NodeDataOrderDiff>,
    ignore_spot: bool,
)
    requires
        all_without_triggers(books),
        forall|oid: Oid| #[trigger] opened.contains_key(oid) ==> !opened[oid].is_trigger,
    ensures
        all_without_triggers(changed_books(books, opened, diffs, ignore_spot).0),
    decreases diffs.len(),
{
    if diffs.len() > 0 {
        let diff = diffs[0];
        let rest = diffs.drop_first();
        if is_ignored(diff.coin@, ignore_spot) {
            lemma_changes_bring_no_triggers(books, opened, rest, ignore_spot);
        } else {
            let coin = diff.coin@;
            match diff.raw_book_diff {
                OrderDiff::New { sz } => if opened.contains_key(diff.oid) {
                    let o = resized(opened[diff.oid], sz);
                    law_changes_bring_no_triggers(book_or_empty(books, o.coin), o, diff.oid, sz);
                    lemma_changes_bring_no_triggers(
                        books_with_order(books, o),
                        opened.remove(diff.oid),
                        rest,
                        ignore_spot,
                    );
                },
                OrderDiff::Update { orig_sz, new_sz } => if books_hold(books, coin, diff.oid) {
                    law_changes_bring_no_triggers(books[coin], opened[diff.oid], diff.oid, new_sz);
                    lemma_changes_bring_no_triggers(
                        books_with_size(books, coin, diff.oid, new_sz),
                        opened,
                        rest,
                        ignore_spot,
                    );
                },
                OrderDiff::Remove => if books_hold(books, coin, diff.oid) {
                    law_changes_bring_no_triggers(books[coin], opened[diff.oid], diff.oid, Sz(0));
                    lemma_changes_bring_no_triggers(
                        books_without_order(books, coin, diff.oid),
                        opened,
                        rest,
                        ignore_spot,
                    );
                },
            }
        }
    }
}

proof fn lemma_opened_without_triggers(s: Seq<NodeDataOrderStatus>)
    requires
        forall|i: int| 0 <= i < s.len() && (#[trigger] s[i]).order.is_trigger ==> s[i].status@ != "triggered"@,
    ensures
        forall|oid: Oid| #[trigger]
            opened_orders(s).contains_key(oid) ==> !opened_orders(s)[oid].is_trigger,
    decreases s.len(),
{
    if s.len() > 0 {
        let t = s.drop_last();
        assert forall|i: int| 0 <= i < t.len() && (#[trigger] t[i]).order.is_trigger implies t[i].status@
            != "triggered"@ by {
            assert(t[i] == s[i]);
        }
        lemma_opened_without_triggers(t);
        assert(s[s.len() - 1] == s.last());
    }
}

/// Trigger orders that have not been triggered are never shown: a snapshot brings none into the
/// books, and a block that triggers none brings none in either.
pub proof fn law_untriggered_orders_are_not_shown(
    snapshot: BooksModel,
    st: StateModel,
    statuses: StatusModel,
    diffs: DiffModel,
)
    requires
        all_without_triggers(st.books),
        forall|i: int|
            0 <= i < statuses.events.len() && (#[trigger] statuses.events[i]).order.is_trigger
                ==> statuses.events[i].status@ != "triggered"@,
    ensures
        all_without_triggers(books_from(snapshot, true)),
        all_without_triggers(applied(st, statuses, diffs).0.books),
{
    assert forall|k: Seq<char>| #[trigger] books_from(snapshot, true).contains_key(k) implies without_triggers(
        books_from(snapshot, true)[k],
    ) by {
        law_ignored_triggers_stay_out(snapshot[k]);
    }
    lemma_opened_without_triggers(statuses.events);
    lemma_changes_bring_no_triggers(
        st.books,
        opened_orders(statuses.events),
        diffs.events,
        st.ignore_spot,
    );
}

/// The bids of a coin; none if it has no book.
pub open spec fn bids_of(books: BooksModel, coin: Seq<char>) -> Seq<OrderModel> {
    if books.contains_key(coin) {
        books[coin].bids
    } else {
        Seq::empty()
    }
}

/// The asks of a coin; none if it has no book.
pub open spec fn asks_of(books: BooksModel, coin: Seq<char>) -> Seq<OrderModel> {
    if books.contains_key(coin) {
        books[coin].asks
    } else {
        Seq::empty()
    }
}

/// Whether two sets of books differ in the book of one coin at most.
pub open spec fn same_but_for(a: BooksModel, b: BooksModel, coin: Seq<char>) -> bool {
    forall|k: Seq<char>|
        k != coin ==> (#[trigger] a.contains_key(k) <==> b.contains_key(k)) && (a.contains_key(k) ==> a[k] == b[k])
}

/// Whether a report says that an order entered the market: a plain order that opened, or a trigger
/// order that was triggered.
pub open spec fn reports_entry(s: NodeDataOrderStatus) -> bool {
    (!s.order.is_trigger && s.status@ == "open"@) || (s.order.is_trigger && s.status@ == "triggered"@)
}

/// Whether a report is the last of a block that says that an order entered the market.
pub open spec fn last_entry_report(s: Seq<NodeDataOrderStatus>, oid: Oid, i: int) -> bool {
    &&& 0 <= i < s.len()
    &&& s[i].order.oid == oid
    &&& reports_entry(s[i])
    &&& forall|j: int| i < j < s.len() && (#[trigger] s[j]).order.oid == oid ==> !reports_entry(s[j])
}

/// Whether no report of a block says that an order entered the market.
pub open spec fn no_entry_report(s: Seq<NodeDataOrderStatus>, oid: Oid) -> bool {
    forall|j: int| 0 <= j < s.len() && (#[trigger] s[j]).order.oid == oid ==> !reports_entry(s[j])
}

/// Whether a list is another with one order more, in front of the first worse price and behind all
/// others. `better` says whether a price may stand in front of the order's.
pub open spec fn is_with(
    after: Seq<OrderModel>,
    before: Seq<OrderModel>,
    o: OrderModel,
    better: spec_fn(u64) -> bool,
) -> bool {
    exists|p: int|
        0 <= p <= before.len() && after == #[trigger] before.insert(p, o) && (forall|j: int|
            0 <= j < p ==> better((#[trigger] before[j]).limit_px.0)) && (p < before.len() ==> !better(
            before[p].limit_px.0,
        ))
}

proof fn lemma_opened_last(s: Seq<NodeDataOrderStatus>, oid: Oid, i: int)
    ensures
        last_entry_report(s, oid, i) ==> opened_orders(s).contains_key(oid) && opened_orders(s)[oid] == s[i].order@,
        no_entry_report(s, oid) ==> !opened_orders(s).contains_key(oid),
    decreases s.len(),
{
    if s.len() > 0 {
        let t = s.drop_last();
        lemma_opened_last(t, oid, i);
        assert(s[s.len() - 1] == s.last());
        if last_entry_report(s, oid, i) && i < t.len() {
            assert(t[i] == s[i]);
            assert forall|j: int| i < j < t.len() && (#[trigger] t[j]).order.oid == oid implies !reports_entry(
                t[j],
            ) by {
                assert(t[j] == s[j]);
            }
            assert(!(s.last().order.oid == oid && reports_entry(s[s.len() - 1])));
        }
        if no_entry_report(s, oid) {
            assert forall|j: int| 0 <= j < t.len() && (#[trigger] t[j]).order.oid == oid implies !reports_entry(
                t[j],
            ) by {
                assert(t[j] == s[j]);
            }
        }
    }
}

/// A block whose one change is that an order entered, of which it reports the opening: the order,
/// with the size of the change and else as it was last reported, is on the book of its coin
/// afterwards, on its own side, bid or ask, at the place of its price and behind all orders of the
/// same price. All that was there stays, and no other book changes.
pub proof fn law_new_order_is_on_the_book(st: StateModel, statuses: StatusModel, diffs: DiffModel, sz: Sz, i: int)
    requires
        statuses.block_number == st.height + 1,
        diffs.events.len() == 1,
        diffs.events[0].raw_book_diff == (OrderDiff::New { sz }),
        !is_ignored(diffs.events[0].coin@, st.ignore_spot),
        last_entry_report(statuses.events, diffs.events[0].oid, i),
    ensures
        ({
            let o = OrderModel { sz, ..statuses.events[i].order@ };
            let (next, error) = applied(st, statuses, diffs);
            &&& error is None
            &&& next.books.contains_key(o.coin)
            &&& same_but_for(next.books, st.books, o.coin)
            &&& match o.side {
                Side::Bid => {
                    &&& is_with(
                        next.books[o.coin].bids,
                        bids_of(st.books, o.coin),
                        o,
                        |px: u64| px >= o.limit_px.0,
                    )
                    &&& next.books[o.coin].asks == asks_of(st.books, o.coin)
                },
                Side::Ask => {
                    &&& is_with(
                        next.books[o.coin].asks,
                        asks_of(st.books, o.coin),
                        o,
                        |px: u64| px <= o.limit_px.0,
                    )
                    &&& next.books[o.coin].bids == bids_of(st.books, o.coin)
                },
            }
        }),
{
    let d = diffs.events[0];
    lemma_opened_last(statuses.events, d.oid, i);
    let o = OrderModel { sz, ..statuses.events[i].order@ };
    assert(diffs.events.drop_first() =~= Seq::empty());
    reveal_with_fuel(changed_books, 2);
    let book = book_or_empty(st.books, o.coin);
    assert(book.bids =~= bids_of(st.books, o.coin));
    assert(book.asks =~= asks_of(st.books, o.coin));
    law_new_order_takes_its_place(book, o);
}

/// A block whose one change is that an order entered, and which does not report its opening, is
/// refused and changes nothing.
pub proof fn law_unreported_order_is_refused(st: StateModel, statuses: StatusModel, diffs: DiffModel, sz: Sz)
    requires
        statuses.block_number == st.height + 1,
        diffs.events.len() == 1,
        diffs.events[0].raw_book_diff == (OrderDiff::New { sz }),
        !is_ignored(diffs.events[0].coin@, st.ignore_spot),
        no_entry_report(statuses.events, diffs.events[0].oid),
    ensures
        applied(st, statuses, diffs).0.books == st.books,
        applied(st, statuses, diffs).0.height == st.height,
        applied(st, statuses, diffs).1 == Some(ApplyError::MissingStatus { oid: diffs.events[0].oid }),
{
    lemma_opened_last(statuses.events, diffs.events[0].oid, 0);
}

/// A block whose one change is that an order's size changed: exactly that order has the new size
/// afterwards, and nothing else of it, of its book or of any other changes.
pub proof fn law_update_changes_one_size(
    st: StateModel,
    statuses: StatusModel,
    diffs: DiffModel,
    orig_sz: Sz,
    new_sz: Sz,
    i: int,
)
    requires
        statuses.block_number == st.height + 1,
        diffs.events.len() == 1,
        diffs.events[0].raw_book_diff == (OrderDiff::Update { orig_sz, new_sz }),
        !is_ignored(diffs.events[0].coin@, st.ignore_spot),
    ensures
        ({
            let coin = diffs.events[0].coin@;
            let oid = diffs.events[0].oid;
            let bids = bids_of(st.books, coin);
            let asks = asks_of(st.books, coin);
            let (next, error) = applied(st, statuses, diffs);
            &&& same_but_for(next.books, st.books, coin)
            &&& next.books.contains_key(coin) <==> st.books.contains_key(coin)
            &&& first_with(bids, oid, i) ==> error is None && asks_of(next.books, coin) == asks && bids_of(
                next.books,
                coin,
            ) == bids.update(i, OrderModel { sz: new_sz, ..bids[i] })
            &&& none_with(bids, oid) && first_with(asks, oid, i) ==> error is None && bids_of(next.books, coin)
                == bids && asks_of(next.books, coin) == asks.update(i, OrderModel { sz: new_sz, ..asks[i] })
            &&& none_with(bids, oid) && none_with(asks, oid) ==> next.books == st.books && error == Some(
                ApplyError::MissingOrder { oid },
            )
        }),
{
    let d = diffs.events[0];
    assert(diffs.events.drop_first() =~= Seq::empty());
    reveal_with_fuel(changed_books, 2);
    if st.books.contains_key(d.coin@) {
        law_orders_are_located(st.books[d.coin@], d.oid);
        law_resizing_changes_one_size(st.books[d.coin@], d.oid, new_sz, i);
    }
}

/// A block whose one change is that an order left: exactly that order is gone from its book
/// afterwards, and nothing else changes.
pub proof fn law_remove_takes_out_one_order(st: StateModel, statuses: StatusModel, diffs: DiffModel, i: int)
    requires
        statuses.block_number == st.height + 1,
        diffs.events.len() == 1,
        diffs.events[0].raw_book_diff == OrderDiff::Remove,
        !is_ignored(diffs.events[0].coin@, st.ignore_spot),
    ensures
        ({
            let coin = diffs.events[0].coin@;
            let oid = diffs.events[0].oid;
            let bids = bids_of(st.books, coin);
            let asks = asks_of(st.books, coin);
            let (next, error) = applied(st, statuses, diffs);
            &&& same_but_for(next.books, st.books, coin)
            &&& next.books.contains_key(coin) <==> st.books.contains_key(coin)
            &&& first_with(bids, oid, i) ==> error is None && asks_of(next.books, coin) == asks && bids_of(
                next.books,
                coin,
            ) == bids.remove(i)
            &&& none_with(bids, oid) && first_with(asks, oid, i) ==> error is None && bids_of(next.books, coin)
                == bids && asks_of(next.books, coin) == asks.remove(i)
            &&& none_with(bids, oid) && none_with(asks, oid) ==> next.books == st.books && error == Some(
                ApplyError::MissingOrder { oid },
            )
        }),
{
    let d = diffs.events[0];
    assert(diffs.events.drop_first() =~= Seq::empty());
    reveal_with_fuel(changed_books, 2);
    if st.books.contains_key(d.coin@) {
        law_orders_are_located(st.books[d.coin@], d.oid);
        law_cancelling_takes_out_one_order(st.books[d.coin@], d.oid, i);
    }
}

/// A block without changes, or with changes of spot pairs while spot is ignored alone, leaves the
/// books as they are.
pub proof fn law_ignored_changes_leave_the_books(st: StateModel, statuses: StatusModel, diffs: DiffModel)
    requires
        statuses.block_number == st.height + 1,
        forall|i: int|
            0 <= i < diffs.events.len() ==> st.ignore_spot && is_spot_symbol((#[trigger] diffs.events[i]).coin@),
    ensures
        applied(st, statuses, diffs).0.books == st.books,
        applied(st, statuses, diffs).1 is None,
{
    lemma_ignored_changes(st.books, opened_orders(statuses.events), diffs.events, st.ignore_spot);
}

proof fn lemma_ignored_changes(
    books: BooksModel,
    opened: Map<Oid, OrderModel>,
    diffs: Seq<NodeDataOrderDiff>,
    ignore_spot: bool,
)
    requires
        forall|i: int| 0 <= i < diffs.len() ==> is_ignored((#[trigger] diffs[i]).coin@, ignore_spot),
    ensures
        changed_books(books, opened, diffs, ignore_spot) == (books, None::<ApplyError>),
    decreases diffs.len(),
{
    if diffs.len() > 0 {
        assert(is_ignored(diffs[0].coin@, ignore_spot));
        let rest = diffs.drop_first();
        assert forall|i: int| 0 <= i < rest.len() implies is_ignored((#[trigger] rest[i]).coin@, ignore_spot) by {
            assert(rest[i] == diffs[i + 1]);
        }
        lemma_ignored_changes(books, opened, rest, ignore_spot);
    }
}

/// Whether two maps say the same of every order that some changes bring in.
spec fn same_openings(a: Map<Oid, OrderModel>, b: Map<Oid, OrderModel>, diffs: Seq<NodeDataOrderDiff>) -> bool {
    forall|i: int|
        0 <= i < diffs.len() && (#[trigger] diffs[i]).raw_book_diff is New ==> {
            &&& a.contains_key(diffs[i].oid) == b.contains_key(diffs[i].oid)
            &&& a.contains_key(diffs[i].oid) ==> a[diffs[i].oid] == b[diffs[i].oid]
        }
}

proof fn lemma_same_openings(
    books: BooksModel,
    a: Map<Oid, OrderModel>,
    b: Map<Oid, OrderModel>,
    diffs: Seq<NodeDataOrderDiff>,
    ignore_spot: bool,
)
    requires
        same_openings(a, b, diffs),
    ensures
        changed_books(books, a, diffs, ignore_spot) == changed_books(books, b, diffs, ignore_spot),
    decreases diffs.len(),
{
    if diffs.len() > 0 {
        let d = diffs[0];
        let rest = diffs.drop_first();
        assert forall|i: int| 0 <= i < rest.len() implies #[trigger] rest[i] == diffs[i + 1] by {}
        assert(same_openings(a, b, rest));
        assert(same_openings(a.remove(d.oid), b.remove(d.oid), rest));
        if is_ignored(d.coin@, ignore_spot) {
            lemma_same_openings(books, a, b, rest, ignore_spot);
        } else {
            match d.raw_book_diff {
                OrderDiff::New { sz } => {
                    lemma_same_openings(
                        books_with_order(books, resized(a[d.oid], sz)),
                        a.remove(d.oid),
                        b.remove(d.oid),
                        rest,
                        ignore_spot,
                    );
                },
                OrderDiff::Update { orig_sz, new_sz } => {
                    lemma_same_openings(
                        books_with_size(books, d.coin@, d.oid, new_sz),
                        a,
                        b,
                        rest,
                        ignore_spot,
                    );
                },
                OrderDiff::Remove => {
                    lemma_same_openings(books_without_order(books, d.coin@, d.oid), a, b, rest, ignore_spot);
                },
            }
        }
    }
}

/// The openings that are left after some changes.
spec fn openings_left(opened: Map<Oid, OrderModel>, diffs: Seq<NodeDataOrderDiff>, ignore_spot: bool) -> Map<
    Oid,
    OrderModel,
>
    decreases diffs.len(),
{
    if diffs.len() == 0 {
        opened
    } else if !is_ignored(diffs[0].coin@, ignore_spot) && diffs[0].raw_book_diff is New {
        openings_left(opened.remove(diffs[0].oid), diffs.drop_first(), ignore_spot)
    } else {
        openings_left(opened, diffs.drop_first(), ignore_spot)
    }
}

proof fn lemma_openings_left(opened: Map<Oid, OrderModel>, diffs: Seq<NodeDataOrderDiff>, ignore_spot: bool, oid: Oid)
    ensures
        ({
            let left = openings_left(opened, diffs, ignore_spot);
            let used = exists|i: int|
                0 <= i < diffs.len() && (#[trigger] diffs[i]).oid == oid && diffs[i].raw_book_diff is New
                    && !is_ignored(diffs[i].coin@, ignore_spot);
            &&& used ==> !left.contains_key(oid)
            &&& !used ==> left.contains_key(oid) == opened.contains_key(oid)
            &&& left.contains_key(oid) ==> left[oid] == opened[oid] && opened.contains_key(oid)
        }),
    decreases diffs.len(),
{
    if diffs.len() > 0 {
        let rest = diffs.drop_first();
        let next = if !is_ignored(diffs[0].coin@, ignore_spot) && diffs[0].raw_book_diff is New {
            opened.remove(diffs[0].oid)
        } else {
            opened
        };
        lemma_openings_left(next, rest, ignore_spot, oid);
        assert forall|i: int| 0 <= i < rest.len() implies #[trigger] rest[i] == diffs[i + 1] by {}
        if exists|i: int|
            0 <= i < diffs.len() && (#[trigger] diffs[i]).oid == oid && diffs[i].raw_book_diff is New
                && !is_ignored(diffs[i].coin@, ignore_spot) {
            let i = choose|i: int|
                0 <= i < diffs.len() && (#[trigger] diffs[i]).oid == oid && diffs[i].raw_book_diff is New
                    && !is_ignored(diffs[i].coin@, ignore_spot);
            if i > 0 {
                assert(rest[i - 1].oid == oid);
            }
        }
        if exists|i: int|
            0 <= i < rest.len() && (#[trigger] rest[i]).oid == oid && rest[i].raw_book_diff is New && !is_ignored(
                rest[i].coin@,
                ignore_spot,
            ) {
            let i = choose|i: int|
                0 <= i < rest.len() && (#[trigger] rest[i]).oid == oid && rest[i].raw_book_diff is New
                    && !is_ignored(rest[i].coin@, ignore_spot);
            assert(diffs[i + 1].oid == oid);
        }
    }
}

proof fn lemma_changes_in_parts(
    books: BooksModel,
    opened: Map<Oid, OrderModel>,
    a: Seq<NodeDataOrderDiff>,
    b: Seq<NodeDataOrderDiff>,
    ignore_spot: bool,
)
    ensures
        ({
            let first = changed_books(books, opened, a, ignore_spot);
            changed_books(books, opened, a + b, ignore_spot) == (if first.1 is Some {
                first
            } else {
                changed_books(first.0, openings_left(opened, a, ignore_spot), b, ignore_spot)
            })
        }),
    decreases a.len(),
{
    let ab = a + b;
    if a.len() == 0 {
        assert(ab =~= b);
    } else {
        let d = a[0];
        let rest = a.drop_first();
        assert(ab[0] == d);
        assert(ab.drop_first() =~= rest + b);
        if is_ignored(d.coin@, ignore_spot) {
            lemma_changes_in_parts(books, opened, rest, b, ignore_spot);
        } else {
            match d.raw_book_diff {
                OrderDiff::New { sz } => {
                    lemma_changes_in_parts(
                        books_with_order(books, resized(opened[d.oid], sz)),
                        opened.remove(d.oid),
                        rest,
                        b,
                        ignore_spot,
                    );
                },
                OrderDiff::Update { orig_sz, new_sz } => {
                    lemma_changes_in_parts(
                        books_with_size(books, d.coin@, d.oid, new_sz),
                        opened,
                        rest,
                        b,
                        ignore_spot,
                    );
                },
                OrderDiff::Remove => {
                    lemma_changes_in_parts(
                        books_without_order(books, d.coin@, d.oid),
                        opened,
                        rest,
                        b,
                        ignore_spot,
                    );
                },
            }
        }
    }
}

/// A block's changes take effect one after the other: a block gives the books, and the error, that
/// two blocks give which have the same reports and share its changes, the first ones in the first.
/// No order may enter in both.
pub proof fn law_changes_take_effect_in_order(
    st: StateModel,
    statuses: StatusModel,
    again: StatusModel,
    diffs: DiffModel,
    first: DiffModel,
    second: DiffModel,
)
    requires
        statuses.block_number == st.height + 1,
        again.block_number == st.height + 2,
        again.events == statuses.events,
        diffs.events == first.events + second.events,
        forall|i: int, j: int|
            0 <= i < first.events.len() && 0 <= j < second.events.len() && (
            #[trigger] first.events[i]).raw_book_diff is New && (#[trigger] second.events[j]).raw_book_diff is New
                ==> first.events[i].oid != second.events[j].oid,
    ensures
        ({
            let whole = applied(st, statuses, diffs);
            let (half, error) = applied(st, statuses, first);
            match error {
                Some(e) => whole.0.books == half.books && whole.1 == Some(e),
                None => {
                    let (end, last_error) = applied(half, again, second);
                    whole.0.books == end.books && whole.1 == last_error
                },
            }
        }),
{
    let opened = opened_orders(statuses.events);
    let a = first.events;
    let b = second.events;
    lemma_changes_in_parts(st.books, opened, a, b, st.ignore_spot);
    let left = openings_left(opened, a, st.ignore_spot);
    assert forall|j: int| 0 <= j < b.len() && (#[trigger] b[j]).raw_book_diff is New implies left.contains_key(
        b[j].oid,
    ) == opened.contains_key(b[j].oid) && (left.contains_key(b[j].oid) ==> left[b[j].oid] == opened[b[j].oid]) by {
        lemma_openings_left(opened, a, st.ignore_spot, b[j].oid);
    }
    lemma_same_openings(
        changed_books(st.books, opened, a, st.ignore_spot).0,
        left,
        opened,
        b,
        st.ignore_spot,
    );
}

/// An opening serves once: an order that has entered in a block does not enter in it again.
pub proof fn law_an_opening_serves_once(
    st: StateModel,
    statuses: StatusModel,
    diffs: DiffModel,
    twice: DiffModel,
    i: int,
    d: NodeDataOrderDiff,
)
    requires
        statuses.block_number == st.height + 1,
        applied(st, statuses, diffs).1 is None,
        0 <= i < diffs.events.len(),
        diffs.events[i].raw_book_diff is New,
        !is_ignored(diffs.events[i].coin@, st.ignore_spot),
        d.raw_book_diff is New,
        d.oid == diffs.events[i].oid,
        !is_ignored(d.coin@, st.ignore_spot),
        twice.events == diffs.events.push(d),
    ensures
        applied(st, statuses, twice).1 == Some(ApplyError::MissingStatus { oid: d.oid }),
{
    let opened = opened_orders(statuses.events);
    assert(twice.events =~= diffs.events + seq![d]);
    lemma_changes_in_parts(st.books, opened, diffs.events, seq![d], st.ignore_spot);
    lemma_openings_left(opened, diffs.events, st.ignore_spot, d.oid);
    assert(diffs.events[i].oid == d.oid);
    assert(seq![d][0] == d);
}

/// What a block does beside its changes: the next block that fits gives the books its number and the
/// time of its reports, and aggregations of them are to be told again; a block at or below the
/// height does nothing; a block after a gap, and one with a change that does not fit, is refused,
/// and height and time stay.
pub proof fn law_block_sets_height_and_time(st: StateModel, statuses: StatusModel, diffs: DiffModel)
    ensures
        ({
            let (next, error) = applied(st, statuses, diffs);
            &&& next.ignore_spot == st.ignore_spot
            &&& statuses.block_number <= st.height ==> next == st && error is None
            &&& statuses.block_number > st.height + 1 ==> next == st && error == Some(
                ApplyError::BlockGap { expected: (st.height + 1) as u64, got: statuses.block_number },
            )
            &&& statuses.block_number == st.height + 1 ==> match error {
                None => next.height == st.height + 1 && next.time == statuses.block_time && !next.snapped,
                Some(e) => next.height == st.height && next.time == st.time && !(e is BlockGap),
            }
        }),
{
    lemma_no_gap_inside(st.books, opened_orders(statuses.events), diffs.events, st.ignore_spot);
}

proof fn lemma_no_gap_inside(
    books: BooksModel,
    opened: Map<Oid, OrderModel>,
    diffs: Seq<NodeDataOrderDiff>,
    ignore_spot: bool,
)
    ensures
        changed_books(books, opened, diffs, ignore_spot).1 matches Some(e) ==> !(e is BlockGap),
    decreases diffs.len(),
{
    if diffs.len() > 0 {
        let d = diffs[0];
        let rest = diffs.drop_first();
        if is_ignored(d.coin@, ignore_spot) {
            lemma_no_gap_inside(books, opened, rest, ignore_spot);
        } else {
            match d.raw_book_diff {
                OrderDiff::New { sz } => {
                    lemma_no_gap_inside(
                        books_with_order(books, resized(opened[d.oid], sz)),
                        opened.remove(d.oid),
                        rest,
                        ignore_spot,
                    );
                },
                OrderDiff::Update { orig_sz, new_sz } => {
                    lemma_no_gap_inside(
                        books_with_size(books, d.coin@, d.oid, new_sz),
                        opened,
                        rest,
                        ignore_spot,
                    );
                },
                OrderDiff::Remove => {
                    lemma_no_gap_inside(
                        books_without_order(books, d.coin@, d.oid),
                        opened,
                        rest,
                        ignore_spot,
                    );
                },
            }
        }
    }
}

/// Replaying no block changes nothing, and replaying one is applying it. With
/// [`law_replay_in_parts`] that fixes every replay.
pub proof fn law_replaying_one_block(st: StateModel, pair: PairModel)
    ensures
        replayed(st, Seq::<PairModel>::empty()) == (st, None::<ApplyError>),
        replayed(st, seq![pair]) == applied(st, pair.0, pair.1),
{
    assert(seq![pair].drop_first() =~= Seq::<PairModel>::empty());
    assert(seq![pair][0] == pair);
    reveal_with_fuel(replayed, 2);
}

/// The state made from a snapshot has the height and the time that are given, and if every book of
/// the snapshot has its best price first, each order on its own side and none that is to be left out,
/// it holds exactly the snapshot's coins and for each exactly its bids and its asks.
pub proof fn law_state_is_that_of_the_snapshot(
    snapshot: BooksModel,
    height: u64,
    time: u64,
    ignore_triggers: bool,
    ignore_spot: bool,
)
    requires
        forall|k: Seq<char>| #[trigger] snapshot.contains_key(k) ==> plain_book(snapshot[k], ignore_triggers),
    ensures
        ({
            let st = state_from(snapshot, height, time, ignore_triggers, ignore_spot);
            &&& st.height == height
            &&& st.time == time
            &&& st.ignore_spot == ignore_spot
            &&& !st.snapped
            &&& st.books.dom() == snapshot.dom()
            &&& forall|k: Seq<char>| #[trigger]
                snapshot.contains_key(k) ==> st.books[k].bids == snapshot[k].bids && st.books[k].asks
                    == snapshot[k].asks
            &&& st.books == snapshot
        }),
{
    law_books_are_those_of_the_snapshots(snapshot, ignore_triggers);
}

/// Errors in words, with the numbers that matter: the block that was due and the one that came, or the
/// order that is missing.
pub proof fn law_apply_errors_in_words(expected: u64, got: u64, oid: Oid)
    ensures
        apply_error_text(ApplyError::BlockGap { expected, got }) == "Expecting block "@ + decimal(expected as nat)
            + ", got block "@ + decimal(got as nat),
        apply_error_text(ApplyError::MissingStatus { oid }) == "Unable to find order opening status "@ + decimal(
            oid as nat,
        ),
        apply_error_text(ApplyError::MissingOrder { oid }) == "Unable to find order on the book "@ + decimal(
            oid as nat,
        ),
{
}

} // verus!
