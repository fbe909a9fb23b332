//! What the node writes: batches of events, one batch to a block.

use vstd::prelude::*;
use vstd::string::*;
use std::collections::VecDeque;

use crate::coin::Coin;
use crate::order::{Address, InnerL4Order, Oid, Px, Side, Sz};
use crate::text::same_text;

verus! {

/// The three streams that the node writes.
#[derive(Debug, Clone, Copy, PartialEq, Eq, Structural)]
pub enum EventSource {
    Fills,
    OrderStatuses,
    OrderDiffs,
}

pub open spec fn source_text(source: EventSource) -> Seq<char> {
    match source {
        EventSource::Fills => "Fills"@,
        EventSource::OrderStatuses => "OrderStatuses"@,
        EventSource::OrderDiffs => "OrderDiffs"@,
    }
}

impl EventSource {
    /// The stream's name.
    pub fn name(self) -> (r: String)
        ensures
            r@ == source_text(self),
    {
        match self {
            EventSource::Fills => "Fills".to_owned(),
            EventSource::OrderStatuses => "OrderStatuses".to_owned(),
            EventSource::OrderDiffs => "OrderDiffs".to_owned(),
        }
    }
}

/// The events of one block.
#[derive(Debug)]
pub struct Batch<T> {
    pub block_time: u64,
    pub block_number: u64,
    pub events: Vec<T>,
}

/// A batch by its contents.
pub struct BatchModel<T> {
    pub block_time: u64,
    pub block_number: u64,
    pub events: Seq<T>,
}

impl<T> View for Batch<T> {
    type V = BatchModel<T>;

    open spec fn view(&self) -> BatchModel<T> {
        BatchModel { block_time: self.block_time, block_number: self.block_number, events: self.events@ }
    }
}

impl<T> Batch<T> {
    pub fn new(block_time: u64, block_number: u64, events: Vec<T>) -> (r: Self)
        ensures
            r@ == (BatchModel { block_time, block_number, events: events@ }),
    {
        Batch { block_time, block_number, events }
    }

    pub fn block_number(&self) -> (r: u64)
        ensures
            r == self@.block_number,
    {
        self.block_number
    }

    pub fn block_time(&self) -> (r: u64)
        ensures
            r == self@.block_time,
    {
        self.block_time
    }
}

impl<T: Clone> Clone for Batch<T> {
    fn clone(&self) -> (r: Self)
        ensures
            r.block_time == self.block_time,
            r.block_number == self.block_number,
            r.events@.len() == self.events@.len(),
            forall|i: int| 0 <= i < self.events@.len() ==> cloned::<T>(#[trigger] self.events@[i], r.events@[i]),
    {
        Batch { block_time: self.block_time, block_number: self.block_number, events: self.events.clone() }
    }
}

/// What happened to an order on the book.
#[derive(Debug, Clone, Copy, PartialEq, Eq, Structural)]
pub enum OrderDiff {
    /// It entered the book with this size.
    New { sz: Sz },
    /// Its size changed.
    Update { orig_sz: Sz, new_sz: Sz },
    /// It left the book.
    Remove,
}

/// One change of the book.
#[derive(Debug)]
pub struct NodeDataOrderDiff {
    pub user: Address,
    pub oid: Oid,
    pub coin: Coin,
    pub px: Px,
    pub raw_book_diff: OrderDiff,
}

impl NodeDataOrderDiff {
    pub fn coin(&self) -> (r: &Coin)
        ensures
            *r == self.coin,
    {
        &self.coin
    }
}

impl Clone for NodeDataOrderDiff {
    fn clone(&self) -> (r: Self)
        ensures
            r == *self,
    {
        NodeDataOrderDiff {
            user: self.user,
            oid: self.oid,
            coin: self.coin.clone(),
            px: self.px,
            raw_book_diff: self.raw_book_diff,
        }
    }
}

/// What the node reports of an order.
#[derive(Debug)]
pub struct NodeDataOrderStatus {
    pub time: u64,
    pub status: String,
    pub order: InnerL4Order,
}

impl Clone for NodeDataOrderStatus {
    fn clone(&self) -> (r: Self)
        ensures
            r == *self,
    {
        NodeDataOrderStatus { time: self.time, status: self.status.clone(), order: self.order.clone() }
    }
}

/// Whether a report is of an order that may enter the book: one that opened, or a trigger
/// order that was triggered.
pub open spec fn opens_order(s: NodeDataOrderStatus) -> bool {
    if s.order.is_trigger {
        s.status@ == "triggered"@
    } else {
        s.status@ == "open"@
    }
}

impl NodeDataOrderStatus {
    pub fn is_inserted_into_book(&self) -> (r: bool)
        ensures
            r == opens_order(*self),
    {
        if self.order.is_trigger {
            same_text(self.status.as_str(), "triggered")
        } else {
            same_text(self.status.as_str(), "open")
        }
    }
}

/// One side of a trade. Prices and sizes stay the texts that the node wrote.
#[derive(Debug)]
pub struct Fill {
    pub coin: String,
    pub px: String,
    pub sz: String,
    pub side: Side,
    pub time: u64,
    pub start_position: String,
    pub dir: String,
    pub closed_pnl: String,
    pub hash: String,
    pub oid: Oid,
    pub crossed: bool,
    pub fee: String,
    pub tid: u64,
    pub fee_token: String,
}

impl Clone for Fill {
    fn clone(&self) -> (r: Self)
        ensures
            r == *self,
    {
        Fill {
            coin: self.coin.clone(),
            px: self.px.clone(),
            sz: self.sz.clone(),
            side: self.side,
            time: self.time,
            start_position: self.start_position.clone(),
            dir: self.dir.clone(),
            closed_pnl: self.closed_pnl.clone(),
            hash: self.hash.clone(),
            oid: self.oid,
            crossed: self.crossed,
            fee: self.fee.clone(),
            tid: self.tid,
            fee_token: self.fee_token.clone(),
        }
    }
}

/// A fill and the account it belongs to.
#[derive(Debug)]
pub struct NodeDataFill(pub Address, pub Fill);

impl Clone for NodeDataFill {
    fn clone(&self) -> (r: Self)
        ensures
            r == *self,
    {
        NodeDataFill(self.0, self.1.clone())
    }
}

pub type StatusBatch = Batch<NodeDataOrderStatus>;

pub type DiffBatch = Batch<NodeDataOrderDiff>;

pub type StatusModel = BatchModel<NodeDataOrderStatus>;

pub type DiffModel = BatchModel<NodeDataOrderDiff>;

/// The two batches of one block.
pub type Pair = (StatusBatch, DiffBatch);

pub type PairModel = (StatusModel, DiffModel);

pub open spec fn pair_view(p: Pair) -> PairModel {
    (p.0@, p.1@)
}

pub open spec fn pairs_view(s: Seq<Pair>) -> Seq<PairModel> {
    Seq::new(s.len(), |i: int| pair_view(s[i]))
}

/// A copy of a block's status batch.
pub(crate) fn copy_statuses(b: &StatusBatch) -> (r: StatusBatch)
    ensures
        r@ == b@,
{
    let r = b.clone();
    assert(r.events@ =~= b.events@);
    r
}

/// A copy of a block's diff batch.
pub(crate) fn copy_diffs(b: &DiffBatch) -> (r: DiffBatch)
    ensures
        r@ == b@,
{
    let r = b.clone();
    assert(r.events@ =~= b.events@);
    r
}

/// One batch of any of the three streams.
#[derive(Debug)]
pub enum EventBatch {
    Orders(StatusBatch),
    BookDiffs(DiffBatch),
    Fills(Batch<NodeDataFill>),
}

/// Batches in block order, waiting for their counterparts.
pub struct BatchQueue<T> {
    deque: VecDeque<Batch<T>>,
    last_ts: Option<u64>,
}

/// A queue by its contents: the waiting batches, and the last block number that was let in.
pub struct QueueModel<T> {
    pub batches: Seq<BatchModel<T>>,
    pub last_ts: Option<u64>,
}

/// Block numbers strictly increase.
pub open spec fn increasing<T>(s: Seq<BatchModel<T>>) -> bool {
    forall|i: int, j: int|
        0 <= i < j < s.len() ==> #[trigger] s[i].block_number < #[trigger] s[j].block_number
}

impl<T> QueueModel<T> {
    /// Block numbers strictly increase, and the last batch that waits is the last that was let in.
    pub open spec fn wf(self) -> bool {
        &&& increasing(self.batches)
        &&& self.batches.len() > 0 ==> self.last_ts == Some(self.batches.last().block_number)
    }

    /// Whether a block number is new: above every one that was let in.
    pub open spec fn accepts(self, block_number: u64) -> bool {
        match self.last_ts {
            Some(last) => last < block_number,
            None => true,
        }
    }

    /// The queue after a batch was offered to it.
    pub open spec fn pushed(self, b: BatchModel<T>) -> QueueModel<T> {
        if self.accepts(b.block_number) {
            QueueModel { batches: self.batches.push(b), last_ts: Some(b.block_number) }
        } else {
            self
        }
    }

    /// The queue with other batches waiting.
    pub open spec fn with(self, batches: Seq<BatchModel<T>>) -> QueueModel<T> {
        QueueModel { batches, last_ts: self.last_ts }
    }
}

impl<T> View for BatchQueue<T> {
    type V = QueueModel<T>;

    closed spec fn view(&self) -> QueueModel<T> {
        QueueModel {
            batches: Seq::new(self.deque@.len(), |i: int| self.deque@[i]@),
            last_ts: self.last_ts,
        }
    }
}

impl<T> BatchQueue<T> {
    pub fn new() -> (r: Self)
        ensures
            r@ == (QueueModel::<T> { batches: Seq::empty(), last_ts: None }),
            r@.wf(),
    {
        let r = BatchQueue { deque: VecDeque::new(), last_ts: None };
        assert(r@.batches =~= Seq::empty());
        r
    }

    /// Lets a batch in if its block number is above every one that was let in before, and
    /// says whether it was.
    pub fn push(&mut self, block: Batch<T>) -> (r: bool)
        requires
            old(self)@.wf(),
        ensures
            final(self)@ == old(self)@.pushed(block@),
            final(self)@.wf(),
            r == old(self)@.accepts(block@.block_number),
    {
        if let Some(last_ts) = self.last_ts {
            if last_ts >= block.block_number() {
                return false;
            }
        }
        self.last_ts = Some(block.block_number());
        self.deque.push_back(block);
        assert(self@.batches =~= old(self)@.batches.push(block@));
        true
    }

    /// Takes the batch with the lowest block number out.
    pub fn pop_front(&mut self) -> (r: Option<Batch<T>>)
        requires
            old(self)@.wf(),
        ensures
            final(self)@.wf(),
            match r {
                Some(b) => {
                    &&& old(self)@.batches.len() > 0
                    &&& b@ == old(self)@.batches[0]
                    &&& final(self)@ == old(self)@.with(old(self)@.batches.drop_first())
                },
                None => old(self)@.batches.len() == 0 && final(self)@ == old(self)@,
            },
    {
        let r = self.deque.pop_front();
        proof {
            if r.is_some() {
                assert(self@.batches =~= old(self)@.batches.drop_first());
            } else {
                assert(self@.batches =~= old(self)@.batches);
            }
        }
        r
    }

    /// The batch with the lowest block number.
    pub fn front(&self) -> (r: Option<&Batch<T>>)
        ensures
            match r {
                Some(b) => self@.batches.len() > 0 && b@ == self@.batches[0],
                None => self@.batches.len() == 0,
            },
    {
        if self.deque.len() > 0 {
            Some(&self.deque[0])
        } else {
            None
        }
    }
}

/// A queue takes in a batch, behind all that wait, exactly if its block is above the last one that was
/// taken in, and remembers that block; else it stays as it is.
pub proof fn law_queue_takes_in_later_blocks<T>(q: QueueModel<T>, b: BatchModel<T>)
    ensures
        ({
            let after = q.pushed(b);
            let is_later = q.last_ts is None || q.last_ts->0 < b.block_number;
            &&& q.accepts(b.block_number) <==> is_later
            &&& is_later ==> {
                &&& after.batches.len() == q.batches.len() + 1
                &&& after.batches.drop_last() == q.batches
                &&& after.batches.last() == b
                &&& after.last_ts == Some(b.block_number)
            }
            &&& !is_later ==> after == q
        }),
{
    assert(q.batches.push(b).drop_last() =~= q.batches);
}

/// An order may enter the book by a report exactly if it is a plain order that opened or a trigger order
/// that was triggered.
pub proof fn law_reports_that_open_orders(s: NodeDataOrderStatus)
    ensures
        opens_order(s) ==> s.status@ == "open"@ || s.status@ == "triggered"@,
        s.status@ == "open"@ && !s.order.is_trigger ==> opens_order(s),
        s.status@ == "triggered"@ && s.order.is_trigger ==> opens_order(s),
        s.status@ == "open"@ && s.order.is_trigger ==> !opens_order(s),
        s.status@ == "triggered"@ && !s.order.is_trigger ==> !opens_order(s),
{
    reveal_strlit("open");
    reveal_strlit("triggered");
    assert("open"@.len() == 4 && "triggered"@.len() == 9);
}

/// Letting a queue wait with other batches does not change which blocks it takes in.
pub proof fn law_waiting_batches_are_replaced<T>(q: QueueModel<T>, batches: Seq<BatchModel<T>>, block_number: u64)
    ensures
        q.with(batches).batches == batches,
        q.with(batches).accepts(block_number) == q.accepts(block_number),
{
}

/// The streams by their names.
pub proof fn law_streams_have_names()
    ensures
        source_text(EventSource::Fills) == "Fills"@,
        source_text(EventSource::OrderStatuses) == "OrderStatuses"@,
        source_text(EventSource::OrderDiffs) == "OrderDiffs"@,
{
}

} // verus!
