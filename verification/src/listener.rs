//! The listener: pairs the node's batches, keeps the live books, and says what is to be sent.

use vstd::prelude::*;
use vstd::string::*;
use std::collections::VecDeque;

use crate::coin::symbols;
use crate::levels::{l2_model, L2Model, L2Snapshots};
use crate::multi_book::Snapshots;
use crate::node_data::{
    copy_diffs, copy_statuses, pair_view, pairs_view, source_text, Batch, BatchModel, BatchQueue, DiffBatch,
    DiffModel, EventBatch, EventSource, NodeDataFill, NodeDataOrderDiff, NodeDataOrderStatus, Pair,
    PairModel, QueueModel, StatusBatch, StatusModel,
};
use crate::order_book::BooksModel;
use crate::state::{
    applied, apply_error_text, replayed, state_from, ApplyError, OrderBookState, StateModel, TimedModel,
    TimedSnapshots,
};
use crate::tail::{bytes_view, finished, finished_len, lines_of, split_lines};
use crate::text::{option_decimal, option_decimal_text, quote, quoted};

verus! {

/// What the listener sends to the connections.
pub enum InternalMessage {
    Snapshot { l2_snapshots: L2Snapshots, time: u64, height: u64 },
    BookReset { snapshot: TimedSnapshots, l2_snapshots: L2Snapshots },
    Fills { batch: Batch<NodeDataFill> },
    L4BookUpdates { diff_batch: DiffBatch, status_batch: StatusBatch },
}

pub enum MessageModel {
    Snapshot { l2_snapshots: L2Model, time: u64, height: u64 },
    BookReset { snapshot: TimedModel, l2_snapshots: L2Model },
    Fills { batch: BatchModel<NodeDataFill> },
    L4BookUpdates { diff_batch: DiffModel, status_batch: StatusModel },
}

impl View for InternalMessage {
    type V = MessageModel;

    open spec fn view(&self) -> MessageModel {
        match *self {
            InternalMessage::Snapshot { l2_snapshots, time, height } => MessageModel::Snapshot {
                l2_snapshots: l2_snapshots@,
                time,
                height,
            },
            InternalMessage::BookReset { snapshot, l2_snapshots } => MessageModel::BookReset {
                snapshot: snapshot@,
                l2_snapshots: l2_snapshots@,
            },
            InternalMessage::Fills { batch } => MessageModel::Fills { batch: batch@ },
            InternalMessage::L4BookUpdates { diff_batch, status_batch } => MessageModel::L4BookUpdates {
                diff_batch: diff_batch@,
                status_batch: status_batch@,
            },
        }
    }
}

impl InternalMessage {
    pub open spec fn wf(&self) -> bool {
        match *self {
            InternalMessage::Snapshot { l2_snapshots, time, height } => l2_snapshots.wf(),
            InternalMessage::BookReset { snapshot, l2_snapshots } => snapshot.wf() && l2_snapshots.wf(),
            _ => true,
        }
    }
}

pub open spec fn messages_view(s: Seq<InternalMessage>) -> Seq<MessageModel> {
    Seq::new(s.len(), |i: int| s[i]@)
}

pub open spec fn messages_wf(s: Seq<InternalMessage>) -> bool {
    forall|i: int| 0 <= i < s.len() ==> (#[trigger] s[i]).wf()
}

/// One batch of any of the three streams, by its contents.
pub enum EventModel {
    Orders(StatusModel),
    BookDiffs(DiffModel),
    Fills(BatchModel<NodeDataFill>),
}

impl View for EventBatch {
    type V = EventModel;

    open spec fn view(&self) -> EventModel {
        match *self {
            EventBatch::Orders(b) => EventModel::Orders(b@),
            EventBatch::BookDiffs(b) => EventModel::BookDiffs(b@),
            EventBatch::Fills(b) => EventModel::Fills(b@),
        }
    }
}

/// The listener by its contents. A file is the place up to which it has been read; the cache
/// is there while a snapshot is being fetched; the outbox is there if anyone is to be told.
pub struct ListenerModel {
    pub ignore_spot: bool,
    pub fill_file: Option<u64>,
    pub status_file: Option<u64>,
    pub diff_file: Option<u64>,
    pub state: Option<StateModel>,
    pub last_fill: Option<u64>,
    pub diffs: QueueModel<NodeDataOrderDiff>,
    pub statuses: QueueModel<NodeDataOrderStatus>,
    pub cache: Option<Seq<PairModel>>,
    pub outbox: Option<Seq<MessageModel>>,
}

/// The two queues without the batches in front that have no counterpart: as long as both have
/// a front batch and the block numbers differ, the lower one is dropped.
pub open spec fn synced(diffs: Seq<DiffModel>, statuses: Seq<StatusModel>) -> (
    Seq<DiffModel>,
    Seq<StatusModel>,
)
    decreases diffs.len() + statuses.len(),
{
    if diffs.len() == 0 || statuses.len() == 0 {
        (diffs, statuses)
    } else if diffs[0].block_number < statuses[0].block_number {
        synced(diffs.drop_first(), statuses)
    } else if diffs[0].block_number > statuses[0].block_number {
        synced(diffs, statuses.drop_first())
    } else {
        (diffs, statuses)
    }
}

/// All pairs that the two queues hold, in block order, and what is left of the queues.
pub open spec fn paired(diffs: Seq<DiffModel>, statuses: Seq<StatusModel>) -> (
    Seq<PairModel>,
    Seq<DiffModel>,
    Seq<StatusModel>,
)
    decreases diffs.len() + statuses.len(),
{
    if diffs.len() == 0 || statuses.len() == 0 {
        (Seq::empty(), diffs, statuses)
    } else if diffs[0].block_number < statuses[0].block_number {
        paired(diffs.drop_first(), statuses)
    } else if diffs[0].block_number > statuses[0].block_number {
        paired(diffs, statuses.drop_first())
    } else {
        let (pairs, d, s) = paired(diffs.drop_first(), statuses.drop_first());
        (seq![(statuses[0], diffs[0])] + pairs, d, s)
    }
}

impl ListenerModel {
    /// Both queues are in block order.
    pub open spec fn queues_in_order(self) -> bool {
        self.diffs.wf() && self.statuses.wf()
    }

    /// The listener with other batches waiting.
    pub open spec fn waiting(self, diffs: Seq<DiffModel>, statuses: Seq<StatusModel>) -> ListenerModel {
        ListenerModel { diffs: self.diffs.with(diffs), statuses: self.statuses.with(statuses), ..self }
    }

    /// The earliest pair of batches of one block, and the listener without it.
    pub open spec fn popped(self) -> (Option<PairModel>, ListenerModel) {
        let (d, s) = synced(self.diffs.batches, self.statuses.batches);
        if d.len() > 0 && s.len() > 0 {
            (Some((s[0], d[0])), self.waiting(d.drop_first(), s.drop_first()))
        } else {
            (None, self.waiting(d, s))
        }
    }

    /// The listener with a message in the outbox, if it has one.
    pub open spec fn telling(self, m: MessageModel) -> ListenerModel {
        ListenerModel {
            outbox: match self.outbox {
                Some(s) => Some(s.push(m)),
                None => None,
            },
            ..self
        }
    }

    /// The listener with a pair in the cache, if it is collecting.
    pub open spec fn caching(self, p: PairModel) -> ListenerModel {
        ListenerModel {
            cache: match self.cache {
                Some(s) => Some(s.push(p)),
                None => None,
            },
            ..self
        }
    }

    /// The listener with a batch taken in but no pair looked for. Fills are told if their block
    /// is above every one whose fills were told before.
    pub open spec fn taking(self, batch: EventModel) -> ListenerModel {
        match batch {
            EventModel::Orders(b) => ListenerModel { statuses: self.statuses.pushed(b), ..self },
            EventModel::BookDiffs(b) => ListenerModel { diffs: self.diffs.pushed(b), ..self },
            EventModel::Fills(b) => if self.last_fill is None || self.last_fill->0 < b.block_number {
                ListenerModel { last_fill: Some(b.block_number), ..self }.telling(
                    MessageModel::Fills { batch: b },
                )
            } else {
                self
            },
        }
    }

    /// The listener after a batch. With live books the earliest pair is applied to them, kept in
    /// the cache and told. A pair that does not fit is neither kept nor told.
    pub open spec fn received(self, batch: EventModel) -> (ListenerModel, Option<ApplyError>) {
        let taken = self.taking(batch);
        match taken.state {
            None => (taken, None),
            Some(st) => {
                let (pair, rest) = taken.popped();
                match pair {
                    None => (rest, None),
                    Some((statuses, diffs)) => {
                        let (next, error) = applied(st, statuses, diffs);
                        let with_next = ListenerModel { state: Some(next), ..rest };
                        match error {
                            Some(e) => (with_next, Some(e)),
                            None => (
                                with_next.caching((statuses, diffs)).telling(
                                    MessageModel::L4BookUpdates { diff_batch: diffs, status_batch: statuses },
                                ),
                                None,
                            ),
                        }
                    },
                }
            },
        }
    }

    /// The listener after it told of the aggregations of this height, unless it had before.
    pub open spec fn having_told_levels(self) -> ListenerModel {
        match self.state {
            Some(st) => if st.snapped {
                self
            } else {
                ListenerModel { state: Some(StateModel { snapped: true, ..st }), ..self }.telling(
                    MessageModel::Snapshot {
                        l2_snapshots: l2_model(st.books),
                        time: st.time,
                        height: st.height,
                    },
                )
            },
            None => self,
        }
    }

    /// The listener after it told of all its books anew. Without an outbox nothing happens.
    pub open spec fn having_told_reset(self) -> ListenerModel {
        match (self.outbox, self.state) {
            (Some(_), Some(st)) => if st.snapped {
                self
            } else {
                ListenerModel { state: Some(StateModel { snapped: true, ..st }), ..self }.telling(
                    MessageModel::BookReset {
                        snapshot: TimedModel { time: st.time, height: st.height, books: st.books },
                        l2_snapshots: l2_model(st.books),
                    },
                )
            },
            _ => self,
        }
    }

    /// The books rebuilt from a snapshot: the blocks of the cache and every pair that waits in
    /// the queues, replayed on it.
    pub open spec fn rebuilt(
        self,
        snapshot: BooksModel,
        height: u64,
        time: u64,
        cache: Seq<PairModel>,
    ) -> (StateModel, Option<ApplyError>) {
        replayed(
            state_from(snapshot, height, time, true, self.ignore_spot),
            cache + paired(self.diffs.batches, self.statuses.batches).0,
        )
    }

    /// The listener after its books were replaced by those of a snapshot. If the replay fails,
    /// or does not reach the height that was live before, there are no live books.
    pub open spec fn replaced(
        self,
        snapshot: BooksModel,
        height: u64,
        time: u64,
        cache: Seq<PairModel>,
    ) -> ListenerModel {
        let (_, d, s) = paired(self.diffs.batches, self.statuses.batches);
        let cleared = ListenerModel { state: None, ..self.waiting(d, s) };
        let (st, error) = self.rebuilt(snapshot, height, time, cache);
        if error is Some || (self.state is Some && st.height < self.state->0.height) {
            cleared
        } else {
            ListenerModel { state: Some(st), ..cleared }.having_told_reset()
        }
    }

    /// How far the file of a stream has been read.
    pub open spec fn file(self, source: EventSource) -> Option<u64> {
        match source {
            EventSource::Fills => self.fill_file,
            EventSource::OrderStatuses => self.status_file,
            EventSource::OrderDiffs => self.diff_file,
        }
    }

    pub open spec fn with_file(self, source: EventSource, at: Option<u64>) -> ListenerModel {
        match source {
            EventSource::Fills => ListenerModel { fill_file: at, ..self },
            EventSource::OrderStatuses => ListenerModel { status_file: at, ..self },
            EventSource::OrderDiffs => ListenerModel { diff_file: at, ..self },
        }
    }

    /// The listener after records of a stream, up to the first bad one.
    pub open spec fn processed(self, records: Seq<RecordModel>, source: EventSource) -> (
        ListenerModel,
        Option<ProcessErrorModel>,
    )
        decreases records.len(),
    {
        if records.len() == 0 {
            (self.having_told_levels(), None)
        } else {
            match records[0].parsed {
                Err(error) => (
                    self,
                    Some(
                        ProcessErrorModel::Deserialization {
                            source,
                            error,
                            height: match self.state {
                                Some(st) => Some(st.height),
                                None => None,
                            },
                            line: line_start(records[0].line),
                        },
                    ),
                ),
                Ok(batch) => {
                    let (next, error) = self.received(batch);
                    match error {
                        Some(e) => (
                            ListenerModel { state: None, ..next },
                            Some(ProcessErrorModel::Apply(e)),
                        ),
                        None => next.processed(records.drop_first(), source),
                    }
                },
            }
        }
    }
}

/// How much of a bad line is shown.
pub open spec fn line_start(line: Seq<char>) -> Seq<char> {
    if line.len() <= 100 {
        line
    } else {
        line.take(100)
    }
}

/// A line of a stream and what it was parsed into, or why it could not be.
pub struct Record {
    pub line: String,
    pub parsed: Result<EventBatch, String>,
}

pub struct RecordModel {
    pub line: Seq<char>,
    pub parsed: Result<EventModel, Seq<char>>,
}

impl View for Record {
    type V = RecordModel;

    open spec fn view(&self) -> RecordModel {
        RecordModel {
            line: self.line@,
            parsed: match self.parsed {
                Ok(b) => Ok(b@),
                Err(e) => Err(e@),
            },
        }
    }
}

pub open spec fn records_view(s: Seq<Record>) -> Seq<RecordModel> {
    Seq::new(s.len(), |i: int| s[i]@)
}

/// Why records could not be processed.
#[derive(Debug)]
pub enum ProcessError {
    Deserialization { source: EventSource, error: String, height: Option<u64>, line: String },
    Apply(ApplyError),
}

pub enum ProcessErrorModel {
    Deserialization { source: EventSource, error: Seq<char>, height: Option<u64>, line: Seq<char> },
    Apply(ApplyError),
}

impl View for ProcessError {
    type V = ProcessErrorModel;

    open spec fn view(&self) -> ProcessErrorModel {
        match *self {
            ProcessError::Deserialization { source, error, height, line } => ProcessErrorModel::Deserialization {
                source,
                error: error@,
                height,
                line: line@,
            },
            ProcessError::Apply(e) => ProcessErrorModel::Apply(e),
        }
    }
}

/// An error in words.
pub open spec fn process_error_text(e: ProcessErrorModel) -> Seq<char> {
    match e {
        ProcessErrorModel::Deserialization { source, error, height, line } => source_text(source)
            + " deserialization error "@ + error + ", height: "@ + option_decimal(height) + ", line: "@
            + quoted(line),
        ProcessErrorModel::Apply(e) => apply_error_text(e),
    }
}

impl ProcessError {
    /// The error in words.
    pub fn message(&self) -> (r: String)
        ensures
            r@ == process_error_text(self@),
    {
        match self {
            ProcessError::Deserialization { source, error, height, line } => {
                let mut s = source.name();
                s.append(" deserialization error ");
                s.append(error.as_str());
                s.append(", height: ");
                s.append(option_decimal_text(*height).as_str());
                s.append(", line: ");
                s.append(quote(line.as_str()).as_str());
                s
            },
            ProcessError::Apply(e) => e.message(),
        }
    }
}

/// The listener.
pub struct OrderBookListener {
    ignore_spot: bool,
    fill_status_file: Option<u64>,
    order_status_file: Option<u64>,
    order_diff_file: Option<u64>,
    order_book_state: Option<OrderBookState>,
    last_fill: Option<u64>,
    order_diff_cache: BatchQueue<NodeDataOrderDiff>,
    order_status_cache: BatchQueue<NodeDataOrderStatus>,
    fetched_snapshot_cache: Option<VecDeque<Pair>>,
    internal_messages: Option<Vec<InternalMessage>>,
}

impl View for OrderBookListener {
    type V = ListenerModel;

    closed spec fn view(&self) -> ListenerModel {
        ListenerModel {
            ignore_spot: self.ignore_spot,
            fill_file: self.fill_status_file,
            status_file: self.order_status_file,
            diff_file: self.order_diff_file,
            state: match self.order_book_state {
                Some(st) => Some(st@),
                None => None,
            },
            last_fill: self.last_fill,
            diffs: self.order_diff_cache@,
            statuses: self.order_status_cache@,
            cache: match self.fetched_snapshot_cache {
                Some(c) => Some(pairs_view(c@)),
                None => None,
            },
            outbox: match self.internal_messages {
                Some(m) => Some(messages_view(m@)),
                None => None,
            },
        }
    }
}

impl OrderBookListener {
    pub closed spec fn wf(&self) -> bool {
        &&& self.order_book_state matches Some(st) ==> st.wf()
        &&& self.internal_messages matches Some(m) ==> messages_wf(m@)
        &&& self.order_diff_cache@.wf()
        &&& self.order_status_cache@.wf()
    }

    /// A listener without books. With `streaming` it keeps messages for the connections.
    pub fn new(streaming: bool, ignore_spot: bool) -> (r: Self)
        ensures
            r.wf(),
            r@ == (ListenerModel {
                ignore_spot,
                fill_file: None,
                status_file: None,
                diff_file: None,
                state: None,
                last_fill: None,
                diffs: QueueModel { batches: Seq::empty(), last_ts: None },
                statuses: QueueModel { batches: Seq::empty(), last_ts: None },
                cache: None,
                outbox: if streaming {
                    Some(Seq::empty())
                } else {
                    None
                },
            }),
    {
        let internal_messages: Option<Vec<InternalMessage>> = if streaming {
            Some(Vec::new())
        } else {
            None
        };
        let r = OrderBookListener {
            ignore_spot,
            fill_status_file: None,
            order_status_file: None,
            order_diff_file: None,
            order_book_state: None,
            last_fill: None,
            order_diff_cache: BatchQueue::new(),
            order_status_cache: BatchQueue::new(),
            fetched_snapshot_cache: None,
            internal_messages,
        };
        assert(streaming ==> r@.outbox->0 =~= Seq::empty());
        r
    }

    /// A copy of the live books, if there are any.
    pub fn clone_state(&self) -> (r: Option<OrderBookState>)
        requires
            self.wf(),
        ensures
            match r {
                Some(st) => st.wf() && self@.state == Some(st@),
                None => self@.state is None,
            },
    {
        match &self.order_book_state {
            Some(st) => Some(st.copy()),
            None => None,
        }
    }

    /// Whether there are live books.
    pub fn is_ready(&self) -> (r: bool)
        ensures
            r == self@.state is Some,
    {
        self.order_book_state.is_some()
    }

    /// The coins that have a live book.
    pub fn universe(&self) -> (r: Vec<String>)
        requires
            self.wf(),
        ensures
            symbols(r@) == (match self@.state {
                Some(st) => st.books.dom(),
                None => Set::empty(),
            }),
    {
        match &self.order_book_state {
            Some(st) => st.compute_universe(),
            None => {
                let none: Vec<String> = Vec::new();
                assert(symbols(none@) =~= Set::empty());
                none
            },
        }
    }

    /// Takes the messages that are to be sent.
    pub fn take_messages(&mut self) -> (r: Vec<InternalMessage>)
        requires
            old(self).wf(),
        ensures
            final(self).wf(),
            messages_wf(r@),
            messages_view(r@) == (match old(self)@.outbox {
                Some(s) => s,
                None => Seq::empty(),
            }),
            final(self)@ == (ListenerModel {
                outbox: match old(self)@.outbox {
                    Some(s) => Some(Seq::empty()),
                    None => None,
                },
                ..old(self)@
            }),
    {
        match self.internal_messages.take() {
            Some(m) => {
                self.internal_messages = Some(Vec::new());
                assert(self@.outbox->0 =~= Seq::empty());
                m
            },
            None => {
                let none: Vec<InternalMessage> = Vec::new();
                assert(messages_view(none@) =~= Seq::empty());
                none
            },
        }
    }

    /// Pops the earliest pair of batches of one block, and drops batches that can no longer
    /// have a counterpart.
    pub fn pop_cache(&mut self) -> (r: Option<Pair>)
        requires
            old(self).wf(),
        ensures
            final(self).wf(),
            match r {
                Some(p) => old(self)@.popped().0 == Some(pair_view(p)),
                None => old(self)@.popped().0 is None,
            },
            final(self)@ == old(self)@.popped().1,
    {
        let ghost start = self@;
        assert(start == start.waiting(start.diffs.batches, start.statuses.batches));
        loop
            invariant
                self.wf(),
                start == old(self)@,
                self@ == start.waiting(self@.diffs.batches, self@.statuses.batches),
                synced(start.diffs.batches, start.statuses.batches) == synced(
                    self@.diffs.batches,
                    self@.statuses.batches,
                ),
            decreases self@.diffs.batches.len() + self@.statuses.batches.len(),
        {
            let (diff_number, status_number): (u64, u64) = match (
                self.order_diff_cache.front(),
                self.order_status_cache.front(),
            ) {
                (Some(t), Some(s)) => (t.block_number(), s.block_number()),
                _ => {
                    return None;
                },
            };
            if diff_number < status_number {
                let _ = self.order_diff_cache.pop_front();
            } else if diff_number > status_number {
                let _ = self.order_status_cache.pop_front();
            } else {
                match (self.order_status_cache.pop_front(), self.order_diff_cache.pop_front()) {
                    (Some(s), Some(d)) => {
                        return Some((s, d));
                    },
                    _ => {
                        assert(false);
                        return None;
                    },
                }
            }
        }
    }

    /// Puts a message into the outbox, if there is one.
    fn tell(&mut self, message: InternalMessage)
        requires
            old(self).wf(),
            message.wf(),
        ensures
            final(self).wf(),
            final(self)@ == old(self)@.telling(message@),
    {
        if let Some(mut messages) = self.internal_messages.take() {
            let ghost before = messages@;
            messages.push(message);
            assert(messages_view(messages@) =~= messages_view(before).push(message@));
            self.internal_messages = Some(messages);
        }
    }

    /// Takes a batch in. With live books, applies the earliest pair to them.
    pub fn receive_batch(&mut self, updates: EventBatch) -> (r: Result<(), ApplyError>)
        requires
            old(self).wf(),
        ensures
            final(self).wf(),
            final(self)@ == old(self)@.received(updates@).0,
            match r {
                Ok(()) => old(self)@.received(updates@).1 is None,
                Err(e) => old(self)@.received(updates@).1 == Some(e),
            },
    {
        match updates {
            EventBatch::Orders(batch) => {
                let _ = self.order_status_cache.push(batch);
            },
            EventBatch::BookDiffs(batch) => {
                let _ = self.order_diff_cache.push(batch);
            },
            EventBatch::Fills(batch) => {
                let is_new = match self.last_fill {
                    Some(height) => height < batch.block_number(),
                    None => true,
                };
                if is_new {
                    self.last_fill = Some(batch.block_number());
                    self.tell(InternalMessage::Fills { batch });
                }
            },
        }
        assert(self@ == old(self)@.taking(updates@));
        if self.is_ready() {
            if let Some((order_statuses, order_diffs)) = self.pop_cache() {
                if let Some(mut book) = self.order_book_state.take() {
                    let outcome = book.apply_updates(&order_statuses, &order_diffs);
                    self.order_book_state = Some(book);
                    if let Err(e) = outcome {
                        return Err(e);
                    }
                }
                if let Some(mut cache) = self.fetched_snapshot_cache.take() {
                    let ghost before = cache@;
                    cache.push_back((copy_statuses(&order_statuses), copy_diffs(&order_diffs)));
                    assert(pairs_view(cache@) =~= pairs_view(before).push((order_statuses@, order_diffs@)));
                    self.fetched_snapshot_cache = Some(cache);
                }
                self.tell(
                    InternalMessage::L4BookUpdates { diff_batch: order_diffs, status_batch: order_statuses },
                );
            }
        }
        Ok(())
    }

    /// Starts to collect the pairs that are applied.
    pub fn begin_caching(&mut self)
        requires
            old(self).wf(),
        ensures
            final(self).wf(),
            final(self)@ == (ListenerModel { cache: Some(Seq::empty()), ..old(self)@ }),
    {
        self.fetched_snapshot_cache = Some(VecDeque::new());
        assert(self@.cache->0 =~= Seq::empty());
    }

    /// Takes the collected pairs and goes on collecting.
    pub fn drain_cache(&mut self) -> (r: VecDeque<Pair>)
        requires
            old(self).wf(),
        ensures
            final(self).wf(),
            pairs_view(r@) == cached(old(self)@),
            final(self)@ == (ListenerModel {
                cache: match old(self)@.cache {
                    Some(c) => Some(Seq::empty()),
                    None => None,
                },
                ..old(self)@
            }),
    {
        match self.fetched_snapshot_cache.take() {
            Some(cache) => {
                self.fetched_snapshot_cache = Some(VecDeque::new());
                assert(self@.cache->0 =~= Seq::empty());
                cache
            },
            None => {
                let none: VecDeque<Pair> = VecDeque::new();
                assert(pairs_view(none@) =~= Seq::empty());
                none
            },
        }
    }

    /// Takes the collected pairs and stops collecting.
    pub fn take_cache(&mut self) -> (r: VecDeque<Pair>)
        requires
            old(self).wf(),
        ensures
            final(self).wf(),
            pairs_view(r@) == cached(old(self)@),
            final(self)@ == (ListenerModel { cache: None, ..old(self)@ }),
    {
        match self.fetched_snapshot_cache.take() {
            Some(cache) => cache,
            None => {
                let none: VecDeque<Pair> = VecDeque::new();
                assert(pairs_view(none@) =~= Seq::empty());
                none
            },
        }
    }

    /// Makes a snapshot of the node the first live books.
    pub fn init_from_snapshot(&mut self, snapshot: Snapshots, height: u64) -> (r: ReplaceOutcome)
        requires
            old(self).wf(),
            snapshot.wf(),
        ensures
            final(self).wf(),
            final(self)@ == old(self)@.replaced(snapshot@, height, 0, Seq::empty()),
            outcome_fits(r, old(self)@, snapshot@, height, 0, Seq::empty()),
    {
        let none: VecDeque<Pair> = VecDeque::new();
        assert(pairs_view(none@) =~= Seq::empty());
        self.replace_from_snapshot(snapshot, height, 0, none)
    }

    /// Appends every pair that waits in the queues to a list; batches without a counterpart
    /// keep waiting.
    fn collect_pairs(&mut self, cache: &mut VecDeque<Pair>)
        requires
            old(self).wf(),
        ensures
            final(self).wf(),
            ({
                let (pairs, d, s) = paired(old(self)@.diffs.batches, old(self)@.statuses.batches);
                &&& pairs_view(final(cache)@) == pairs_view(old(cache)@) + pairs
                &&& final(self)@ == old(self)@.waiting(d, s)
            }),
    {
        let ghost start = self@;
        let ghost first = pairs_view(cache@);
        let ghost all = paired(start.diffs.batches, start.statuses.batches);
        assert(first + all.0 =~= pairs_view(cache@) + paired(self@.diffs.batches, self@.statuses.batches).0);
        loop
            invariant
                self.wf(),
                start == old(self)@,
                first == pairs_view(old(cache)@),
                all == paired(start.diffs.batches, start.statuses.batches),
                self@ == start.waiting(self@.diffs.batches, self@.statuses.batches),
                first + all.0 == pairs_view(cache@) + paired(
                    self@.diffs.batches,
                    self@.statuses.batches,
                ).0,
                all.1 == paired(self@.diffs.batches, self@.statuses.batches).1,
                all.2 == paired(self@.diffs.batches, self@.statuses.batches).2,
            decreases self@.diffs.batches.len() + self@.statuses.batches.len(),
        {
            let ghost now = self@;
            let ghost pairs = pairs_view(cache@);
            proof {
                lemma_paired_step(now.diffs.batches, now.statuses.batches);
            }
            match self.pop_cache() {
                Some(pair) => {
                    cache.push_back(pair);
                    assert(pairs_view(cache@) =~= pairs.push(pair_view(pair)));
                    let ghost rest = paired(self@.diffs.batches, self@.statuses.batches).0;
                    assert(pairs.push(pair_view(pair)) + rest =~= pairs + (seq![pair_view(pair)] + rest));
                },
                None => {
                    assert(pairs_view(cache@) =~= first + all.0);
                    return ;
                },
            }
        }
    }

    /// Replaces the live books by those of a snapshot, with the blocks of `cache` and the pairs
    /// that wait in the queues replayed on them.
    pub fn replace_from_snapshot(
        &mut self,
        snapshot: Snapshots,
        height: u64,
        time: u64,
        cache: VecDeque<Pair>,
    ) -> (r: ReplaceOutcome)
        requires
            old(self).wf(),
            snapshot.wf(),
        ensures
            final(self).wf(),
            final(self)@ == old(self)@.replaced(snapshot@, height, time, pairs_view(cache@)),
            outcome_fits(r, old(self)@, snapshot@, height, time, pairs_view(cache@)),
    {
        let previous_height: Option<u64> = match self.order_book_state.take() {
            Some(st) => Some(st.height()),
            None => None,
        };
        let ghost cleared = self@;
        let mut new_order_book = OrderBookState::from_snapshot(snapshot, height, time, true, self.ignore_spot);
        let mut pairs = cache;
        self.collect_pairs(&mut pairs);
        let ghost all = pairs_view(pairs@);
        let ghost start = new_order_book@;
        let mut i: usize = 0;
        assert(all.skip(0) =~= all);
        while i < pairs.len()
            invariant
                i <= pairs@.len(),
                all == pairs_view(pairs@),
                new_order_book.wf(),
                replayed(start, all) == replayed(new_order_book@, all.skip(i as int)),
                replayed(start, all) == old(self)@.rebuilt(snapshot@, height, time, pairs_view(cache@)),
                self.wf(),
                self@.state is None,
                old(self)@.replaced(snapshot@, height, time, pairs_view(cache@)) == (if replayed(
                    start,
                    all,
                ).1 is Some || (old(self)@.state is Some && replayed(start, all).0.height
                    < old(self)@.state->0.height) {
                    self@
                } else {
                    ListenerModel { state: Some(replayed(start, all).0), ..self@ }.having_told_reset()
                }),
                match previous_height {
                    Some(h) => old(self)@.state is Some && old(self)@.state->0.height == h,
                    None => old(self)@.state is None,
                },
            decreases pairs@.len() - i,
        {
            let ghost here = new_order_book@;
            assert(all.skip(i as int)[0] == pair_view(pairs@[i as int]));
            assert(all.skip(i as int).drop_first() =~= all.skip(i + 1));
            if let Err(e) = new_order_book.apply_updates(&pairs[i].0, &pairs[i].1) {
                return ReplaceOutcome::ReplayFailed(e);
            }
            i = i + 1;
        }
        assert(all.skip(i as int) =~= Seq::empty());
        if let Some(previous) = previous_height {
            if new_order_book.height() < previous {
                return ReplaceOutcome::BehindLive { previous };
            }
        }
        self.order_book_state = Some(new_order_book);
        self.send_book_reset();
        ReplaceOutcome::Ready
    }

    /// Tells of all live books anew.
    fn send_book_reset(&mut self)
        requires
            old(self).wf(),
        ensures
            final(self).wf(),
            final(self)@ == old(self)@.having_told_reset(),
    {
        if self.internal_messages.is_some() {
            if let Some(mut book) = self.order_book_state.take() {
                let snapshot = book.compute_snapshot();
                let levels = book.l2_snapshots(true);
                self.order_book_state = Some(book);
                if let Some((_, _, l2_snapshots)) = levels {
                    self.tell(InternalMessage::BookReset { snapshot, l2_snapshots });
                }
            }
        }
    }

    /// The live books as they are now.
    pub fn compute_snapshot(&self) -> (r: Option<TimedSnapshots>)
        requires
            self.wf(),
        ensures
            match r {
                Some(t) => {
                    &&& t.wf()
                    &&& self@.state is Some
                    &&& t@ == timed(self@.state->0)
                },
                None => self@.state is None,
            },
    {
        match &self.order_book_state {
            Some(st) => Some(st.compute_snapshot()),
            None => None,
        }
    }

    /// Aggregations of the live books, unless those of this height have been handed out.
    pub fn l2_snapshots(&mut self, prevent_future_snaps: bool) -> (r: Option<(u64, u64, L2Snapshots)>)
        requires
            old(self).wf(),
        ensures
            final(self).wf(),
            match r {
                Some((time, height, l2)) => {
                    &&& old(self)@.state is Some
                    &&& !old(self)@.state->0.snapped
                    &&& time == old(self)@.state->0.time
                    &&& height == old(self)@.state->0.height
                    &&& l2.wf()
                    &&& l2@ == l2_model(old(self)@.state->0.books)
                },
                None => old(self)@.state is None || old(self)@.state->0.snapped,
            },
            final(self)@ == (ListenerModel {
                state: match old(self)@.state {
                    Some(st) => Some(StateModel { snapped: st.snapped || prevent_future_snaps, ..st }),
                    None => None,
                },
                ..old(self)@
            }),
    {
        match self.order_book_state.take() {
            Some(mut book) => {
                let r = book.l2_snapshots(prevent_future_snaps);
                self.order_book_state = Some(book);
                r
            },
            None => None,
        }
    }

    /// Processes parsed records of a stream and then tells of the aggregations of the new
    /// height. A line that could not be parsed ends it, and so does a block that does not fit;
    /// the latter takes the live books away.
    pub fn process_data(&mut self, records: Vec<Record>, source: EventSource) -> (r: Result<(), ProcessError>)
        requires
            old(self).wf(),
        ensures
            final(self).wf(),
            final(self)@ == old(self)@.processed(records_view(records@), source).0,
            match r {
                Ok(()) => old(self)@.processed(records_view(records@), source).1 is None,
                Err(e) => old(self)@.processed(records_view(records@), source).1 == Some(e@),
            },
    {
        let ghost all = records_view(records@);
        let ghost start = self@;
        assert(all.skip(0) =~= all);
        for record in it: records
            invariant
                self.wf(),
                start == old(self)@,
                all == records_view(it.seq()),
                start.processed(all, source) == self@.processed(all.skip(it.index() as int), source),
        {
            let ghost i = it.index() as int;
            assert(all.skip(i)[0] == record@);
            assert(all.skip(i).drop_first() =~= all.skip(i + 1));
            match record.parsed {
                Err(error) => {
                    let height: Option<u64> = match &self.order_book_state {
                        Some(st) => Some(st.height()),
                        None => None,
                    };
                    return Err(
                        ProcessError::Deserialization { source, error, height, line: shorten(&record.line) },
                    );
                },
                Ok(event_batch) => {
                    if let Err(e) = self.receive_batch(event_batch) {
                        self.order_book_state = None;
                        return Err(ProcessError::Apply(e));
                    }
                },
            }
        }
        assert(all.skip(all.len() as int) =~= Seq::empty());
        if let Some((time, height, l2_snapshots)) = self.l2_snapshots(true) {
            self.tell(InternalMessage::Snapshot { l2_snapshots, time, height });
        }
        Ok(())
    }
}

/// What a change of a file asks for.
#[derive(Debug, Clone, Copy, PartialEq, Eq, Structural)]
pub enum FileStep {
    /// Finish the file that is being read, and read the new one from its start.
    Rotate,
    /// Read on in the file that is being read.
    ReadOn,
    /// Nothing was being read: skip what the file holds up to its last finished line, and
    /// follow it from there.
    TrackFromEnd,
}

/// A new file was begun while the last line of the old one was unfinished.
#[derive(Debug)]
pub struct IncompleteLine {
    pub source: EventSource,
    pub new_file: String,
}

/// The error in words.
pub open spec fn incomplete_line_text(source: EventSource, new_file: Seq<char>) -> Seq<char> {
    "Incomplete "@ + source_text(source) + " line when rotating to "@ + new_file
}

impl IncompleteLine {
    /// The error in words.
    pub fn message(&self) -> (r: String)
        ensures
            r@ == incomplete_line_text(self.source, self.new_file@),
    {
        let mut s = "Incomplete ".to_owned();
        s.append(self.source.name().as_str());
        s.append(" line when rotating to ");
        s.append(self.new_file.as_str());
        s
    }
}

impl OrderBookListener {
    /// What a change of a stream's file asks for.
    pub fn process_update(&self, created: bool, source: EventSource) -> (r: FileStep)
        ensures
            r == (if created {
                FileStep::Rotate
            } else if self@.file(source) is Some {
                FileStep::ReadOn
            } else {
                FileStep::TrackFromEnd
            }),
    {
        if created {
            FileStep::Rotate
        } else if self.is_reading(source) {
            FileStep::ReadOn
        } else {
            FileStep::TrackFromEnd
        }
    }

    /// Whether a file of a stream is being read.
    pub fn is_reading(&self, source: EventSource) -> (r: bool)
        ensures
            r == self@.file(source) is Some,
    {
        self.file_position(source).is_some()
    }

    /// How far the file of a stream has been read.
    pub fn file_position(&self, source: EventSource) -> (r: Option<u64>)
        ensures
            r == self@.file(source),
    {
        match source {
            EventSource::Fills => self.fill_status_file,
            EventSource::OrderStatuses => self.order_status_file,
            EventSource::OrderDiffs => self.order_diff_file,
        }
    }

    fn file_mut(&mut self, source: EventSource) -> (r: &mut Option<u64>)
        ensures
            *r == old(self)@.file(source),
            final(self)@ == old(self)@.with_file(source, *final(r)),
            old(self).wf() ==> final(self).wf(),
    {
        match source {
            EventSource::Fills => &mut self.fill_status_file,
            EventSource::OrderStatuses => &mut self.order_status_file,
            EventSource::OrderDiffs => &mut self.order_diff_file,
        }
    }

    /// Reads on: `unread` is what the file holds from the place reached on. The finished lines
    /// are handed out, without the empty ones; an unfinished one stays for later.
    pub fn on_file_modification(&mut self, source: EventSource, unread: &[u8]) -> (r: Vec<Vec<u8>>)
        requires
            old(self).wf(),
            old(self)@.file(source) is Some,
            old(self)@.file(source)->0 + unread@.len() <= u64::MAX,
        ensures
            final(self).wf(),
            bytes_view(r@) == lines_of(unread@.take(finished(unread@) as int)),
            final(self)@ == old(self)@.with_file(
                source,
                Some((old(self)@.file(source)->0 + finished(unread@)) as u64),
            ),
    {
        let n: usize = finished_len(unread);
        let lines = split_lines(vstd::slice::slice_subrange(unread, 0, n));
        assert(unread@.subrange(0, n as int) =~= unread@.take(n as int));
        if let Some(at) = self.file_position(source) {
            *self.file_mut(source) = Some(at + n as u64);
        }
        lines
    }

    /// Whether a stream can turn to a new file. `old_len` is the length of the file that was being
    /// read, all of whose finished lines have been read; more must not be left of it.
    pub fn check_rotation(&self, source: EventSource, old_len: u64, new_file: &str) -> (r: Result<
        (),
        IncompleteLine,
    >)
        ensures
            match r {
                Ok(()) => self@.file(source) is None || self@.file(source)->0 >= old_len,
                Err(e) => {
                    &&& self@.file(source) is Some
                    &&& self@.file(source)->0 < old_len
                    &&& e.source == source
                    &&& e.new_file@ == new_file@
                },
            },
    {
        if let Some(at) = self.file_position(source) {
            if at < old_len {
                return Err(IncompleteLine { source, new_file: new_file.to_owned() });
            }
        }
        Ok(())
    }

    /// Turns to a new file of a stream. `old_len` is the length of the file that was being read,
    /// all of whose finished lines have been read. If more is left of it the listener stays as it
    /// is.
    pub fn on_file_creation(&mut self, source: EventSource, old_len: u64, new_file: &str) -> (r: Result<
        (),
        IncompleteLine,
    >)
        requires
            old(self).wf(),
        ensures
            final(self).wf(),
            match r {
                Ok(()) => {
                    &&& old(self)@.file(source) is None || old(self)@.file(source)->0 >= old_len
                    &&& final(self)@ == old(self)@.with_file(source, Some(0))
                },
                Err(e) => {
                    &&& old(self)@.file(source) is Some
                    &&& old(self)@.file(source)->0 < old_len
                    &&& e.source == source
                    &&& e.new_file@ == new_file@
                    &&& final(self)@ == old(self)@
                },
            },
    {
        if let Err(e) = self.check_rotation(source, old_len, new_file) {
            return Err(e);
        }
        *self.file_mut(source) = Some(0);
        Ok(())
    }

    /// Follows a file from its last finished line on. `tail` is what the file holds from `offset`
    /// on. If no line ends in it, and the file has more before it, a longer tail is needed and
    /// the listener stays as it is.
    pub fn track_existing(&mut self, source: EventSource, offset: u64, tail: &[u8]) -> (r: bool)
        requires
            old(self).wf(),
            offset + tail@.len() <= u64::MAX,
        ensures
            final(self).wf(),
            r == (offset == 0 || finished(tail@) > 0),
            final(self)@ == (if r {
                old(self)@.with_file(source, Some((offset + finished(tail@)) as u64))
            } else {
                old(self)@
            }),
    {
        let n: usize = finished_len(tail);
        if offset == 0 || n > 0 {
            *self.file_mut(source) = Some(offset + n as u64);
            true
        } else {
            false
        }
    }

    /// The queues of a listener are in block order.
    pub proof fn law_queues_are_in_order(&self)
        requires
            self.wf(),
        ensures
            self@.queues_in_order(),
    {
    }
}

fn shorten(line: &String) -> (r: String)
    ensures
        r@ == line_start(line@),
{
    let s: &str = line.as_str();
    if s.unicode_len() <= 100 {
        s.to_owned()
    } else {
        s.substring_char(0, 100).to_owned()
    }
}

/// The pairs that have been collected.
pub open spec fn cached(m: ListenerModel) -> Seq<PairModel> {
    match m.cache {
        Some(c) => c,
        None => Seq::empty(),
    }
}

/// The books with their block and time.
pub open spec fn timed(st: StateModel) -> TimedModel {
    TimedModel { time: st.time, height: st.height, books: st.books }
}

/// What came of replacing the live books.
#[derive(Debug, Clone, Copy, PartialEq, Eq, Structural)]
pub enum ReplaceOutcome {
    /// The new books are live.
    Ready,
    /// A block did not fit; there are no live books.
    ReplayFailed(ApplyError),
    /// The replay did not reach the height that was live before; there are no live books.
    BehindLive { previous: u64 },
}

/// Which outcome belongs to which replacement.
pub open spec fn outcome_fits(
    r: ReplaceOutcome,
    m: ListenerModel,
    snapshot: BooksModel,
    height: u64,
    time: u64,
    cache: Seq<PairModel>,
) -> bool {
    let (st, error) = m.rebuilt(snapshot, height, time, cache);
    match error {
        Some(e) => r == ReplaceOutcome::ReplayFailed(e),
        None => if m.state is Some && st.height < m.state->0.height {
            r == ReplaceOutcome::BehindLive { previous: m.state->0.height }
        } else {
            r == ReplaceOutcome::Ready
        },
    }
}

/// The pairs of the queues are the earliest one and those of the rest.
proof fn lemma_paired_step(diffs: Seq<DiffModel>, statuses: Seq<StatusModel>)
    ensures
        ({
            let (d, s) = synced(diffs, statuses);
            &&& d.len() + s.len() <= diffs.len() + statuses.len()
            &&& if d.len() > 0 && s.len() > 0 {
                let rest = paired(d.drop_first(), s.drop_first());
                paired(diffs, statuses) == (seq![(s[0], d[0])] + rest.0, rest.1, rest.2)
            } else {
                paired(diffs, statuses) == (Seq::<PairModel>::empty(), d, s)
            }
        }),
    decreases diffs.len() + statuses.len(),
{
    if diffs.len() == 0 || statuses.len() == 0 {
    } else if diffs[0].block_number < statuses[0].block_number {
        lemma_paired_step(diffs.drop_first(), statuses);
    } else if diffs[0].block_number > statuses[0].block_number {
        lemma_paired_step(diffs, statuses.drop_first());
    }
}

} // verus!
