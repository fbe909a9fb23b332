//! What holds of the listener as a whole.

use vstd::prelude::*;

use crate::levels::{l2_model, L2Model};
use crate::listener::{
    incomplete_line_text, outcome_fits, paired, process_error_text, synced, EventModel, ListenerModel, MessageModel,
    ProcessErrorModel, RecordModel, ReplaceOutcome,
};
use crate::node_data::{
    increasing, source_text, BatchModel, DiffModel, EventSource, NodeDataFill, PairModel, QueueModel, StatusModel,
};
use crate::multi_book::plain_book;
use crate::order_book::BooksModel;
use crate::state::{
    applied, apply_error_text, law_height_advances_by_one, law_replay_in_parts, law_replay_never_rolls_back,
    law_state_is_that_of_the_snapshot, replayed, state_from, ApplyError, StateModel, TimedModel,
};
use crate::text::{option_decimal, quoted};

verus! {

/// Whether a queue holds a batch of a block.
pub open spec fn holds_block<T>(s: Seq<BatchModel<T>>, n: u64) -> bool {
    exists|i: int| 0 <= i < s.len() && (#[trigger] s[i]).block_number == n
}

proof fn lemma_holds_tail<T>(s: Seq<BatchModel<T>>, n: u64)
    requires
        s.len() > 0,
    ensures
        holds_block(s, n) <==> s[0].block_number == n || holds_block(s.drop_first(), n),
{
    let t = s.drop_first();
    if holds_block(s, n) && s[0].block_number != n {
        let i = choose|i: int| 0 <= i < s.len() && (#[trigger] s[i]).block_number == n;
        assert(t[i - 1].block_number == n);
    }
    if holds_block(t, n) {
        let i = choose|i: int| 0 <= i < t.len() && (#[trigger] t[i]).block_number == n;
        assert(s[i + 1].block_number == n);
    }
}

proof fn lemma_increasing_tail<T>(s: Seq<BatchModel<T>>)
    requires
        increasing(s),
        s.len() > 0,
    ensures
        increasing(s.drop_first()),
        forall|n: u64| #[trigger] holds_block(s.drop_first(), n) ==> n > s[0].block_number,
        forall|n: u64| #[trigger] holds_block(s, n) ==> n >= s[0].block_number,
{
    let t = s.drop_first();
    assert forall|i: int, j: int| 0 <= i < j < t.len() implies #[trigger] t[i].block_number
        < #[trigger] t[j].block_number by {
        assert(t[i] == s[i + 1] && t[j] == s[j + 1]);
    }
    assert forall|n: u64| #[trigger] holds_block(t, n) implies n > s[0].block_number by {
        let i = choose|i: int| 0 <= i < t.len() && (#[trigger] t[i]).block_number == n;
        assert(t[i] == s[i + 1]);
    }
    assert forall|n: u64| #[trigger] holds_block(s, n) implies n >= s[0].block_number by {
        lemma_holds_tail(s, n);
    }
}

/// Dropping batches without a counterpart keeps every block that both queues hold.
proof fn lemma_synced(diffs: Seq<DiffModel>, statuses: Seq<StatusModel>)
    requires
        increasing(diffs),
        increasing(statuses),
    ensures
        ({
            let (d, s) = synced(diffs, statuses);
            &&& increasing(d)
            &&& increasing(s)
            &&& d.len() <= diffs.len()
            &&& s.len() <= statuses.len()
            &&& d == diffs.skip(diffs.len() - d.len())
            &&& s == statuses.skip(statuses.len() - s.len())
            &&& d.len() > 0 && s.len() > 0 ==> d[0].block_number == s[0].block_number
            &&& forall|n: u64|
                #![trigger holds_block(diffs, n)]
                holds_block(diffs, n) && holds_block(statuses, n) <==> holds_block(d, n) && holds_block(s, n)
        }),
    decreases diffs.len() + statuses.len(),
{
    let (d, s) = synced(diffs, statuses);
    if diffs.len() == 0 || statuses.len() == 0 {
        assert(diffs.skip(0) =~= diffs);
        assert(statuses.skip(0) =~= statuses);
    } else if diffs[0].block_number < statuses[0].block_number {
        lemma_increasing_tail(diffs);
        lemma_increasing_tail(statuses);
        let t = diffs.drop_first();
        lemma_synced(t, statuses);
        assert(t.skip(t.len() - d.len()) =~= diffs.skip(diffs.len() - d.len()));
        assert forall|n: u64|
            #![trigger holds_block(diffs, n)]
            holds_block(diffs, n) && holds_block(statuses, n) <==> holds_block(d, n) && holds_block(s, n) by {
            lemma_holds_tail(diffs, n);
            assert(holds_block(t, n) && holds_block(statuses, n) <==> holds_block(d, n) && holds_block(s, n));
        }
    } else if diffs[0].block_number > statuses[0].block_number {
        lemma_increasing_tail(diffs);
        lemma_increasing_tail(statuses);
        let t = statuses.drop_first();
        lemma_synced(diffs, t);
        assert(t.skip(t.len() - s.len()) =~= statuses.skip(statuses.len() - s.len()));
        assert forall|n: u64|
            #![trigger holds_block(diffs, n)]
            holds_block(diffs, n) && holds_block(statuses, n) <==> holds_block(d, n) && holds_block(s, n) by {
            lemma_holds_tail(statuses, n);
            assert(holds_block(diffs, n) && holds_block(t, n) <==> holds_block(d, n) && holds_block(s, n));
        }
    } else {
        assert(diffs.skip(0) =~= diffs);
        assert(statuses.skip(0) =~= statuses);
    }
}

/// The pair that is popped is that of the earliest block that both queues hold, and there is
/// one exactly if they hold a block in common. Every other common block stays in both queues.
pub proof fn law_popped_pair_is_the_earliest(m: ListenerModel)
    requires
        m.queues_in_order(),
    ensures
        ({
            let (pair, rest) = m.popped();
            &&& rest.queues_in_order()
            &&& match pair {
                Some((statuses, diffs)) => {
                    &&& statuses.block_number == diffs.block_number
                    &&& m.statuses.batches.contains(statuses)
                    &&& m.diffs.batches.contains(diffs)
                    &&& forall|n: u64|
                        #![trigger holds_block(m.diffs.batches, n)]
                        holds_block(m.diffs.batches, n) && holds_block(m.statuses.batches, n) ==> n
                            >= statuses.block_number
                    &&& forall|n: u64|
                        #![trigger holds_block(m.diffs.batches, n)]
                        holds_block(m.diffs.batches, n) && holds_block(m.statuses.batches, n) && n
                            != statuses.block_number ==> holds_block(rest.diffs.batches, n) && holds_block(
                            rest.statuses.batches,
                            n,
                        )
                },
                None => forall|n: u64|
                    !(#[trigger] holds_block(m.diffs.batches, n) && holds_block(m.statuses.batches, n)),
            }
        }),
{
    let diffs = m.diffs.batches;
    let statuses = m.statuses.batches;
    lemma_synced(diffs, statuses);
    let (d, s) = synced(diffs, statuses);
    if d.len() > 0 && s.len() > 0 {
        lemma_increasing_tail(d);
        lemma_increasing_tail(s);
        assert(diffs[diffs.len() - d.len()] == d[0]);
        assert(statuses[statuses.len() - s.len()] == s[0]);
        assert forall|n: u64|
            #![trigger holds_block(m.diffs.batches, n)]
            holds_block(m.diffs.batches, n) && holds_block(m.statuses.batches, n) && n
                != s[0].block_number implies holds_block(d.drop_first(), n) && holds_block(s.drop_first(), n) by {
            lemma_holds_tail(d, n);
            lemma_holds_tail(s, n);
        }
        if d.len() > 1 {
            assert(d.drop_first().last() == diffs.last());
        }
        if s.len() > 1 {
            assert(s.drop_first().last() == statuses.last());
        }
    } else {
        if d.len() > 0 {
            assert(d.last() == diffs.last());
        }
        if s.len() > 0 {
            assert(s.last() == statuses.last());
        }
        assert forall|n: u64|
            !(#[trigger] holds_block(m.diffs.batches, n) && holds_block(m.statuses.batches, n)) by {
            assert(!(holds_block(d, n) && holds_block(s, n)));
        }
    }
}

/// A batch that was dropped could not have found its counterpart later: the other queue lets
/// no block in that is not above the last one it let in.
pub proof fn law_no_batch_is_let_in_twice<T>(q: QueueModel<T>, b: BatchModel<T>)
    requires
        q.wf(),
    ensures
        q.pushed(b).wf(),
        q.accepts(b.block_number) ==> !holds_block(q.batches, b.block_number),
        !q.pushed(b).accepts(b.block_number),
{
    if q.accepts(b.block_number) && holds_block(q.batches, b.block_number) {
        let i = choose|i: int| 0 <= i < q.batches.len() && (#[trigger] q.batches[i]).block_number
            == b.block_number;
        assert(q.batches[i].block_number <= q.batches.last().block_number);
    }
}

/// Both queues stay in block order, whatever the listener receives.
pub proof fn law_queues_stay_in_order(m: ListenerModel, batch: EventModel)
    requires
        m.queues_in_order(),
    ensures
        m.taking(batch).queues_in_order(),
        m.received(batch).0.queues_in_order(),
{
    law_popped_pair_is_the_earliest(m.taking(batch));
}

/// All pairs of the queues: each block that both hold, once, in block order.
pub proof fn law_all_pairs_in_block_order(diffs: Seq<DiffModel>, statuses: Seq<StatusModel>)
    requires
        increasing(diffs),
        increasing(statuses),
    ensures
        ({
            let (pairs, d, s) = paired(diffs, statuses);
            &&& forall|i: int| 0 <= i < pairs.len() ==> (#[trigger] pairs[i]).0.block_number
                == pairs[i].1.block_number
            &&& forall|i: int, j: int|
                0 <= i < j < pairs.len() ==> #[trigger] pairs[i].0.block_number
                    < #[trigger] pairs[j].0.block_number
            &&& forall|i: int|
                0 <= i < pairs.len() ==> statuses.contains((#[trigger] pairs[i]).0) && diffs.contains(
                    pairs[i].1,
                )
            &&& forall|n: u64|
                #![trigger holds_block(diffs, n)]
                holds_block(diffs, n) && holds_block(statuses, n) <==> exists|i: int|
                    0 <= i < pairs.len() && (#[trigger] pairs[i]).0.block_number == n
            &&& d.len() == 0 || s.len() == 0
        }),
    decreases diffs.len() + statuses.len(),
{
    let (pairs, d, s) = paired(diffs, statuses);
    if diffs.len() == 0 || statuses.len() == 0 {
    } else {
        lemma_increasing_tail(diffs);
        lemma_increasing_tail(statuses);
        let dt = diffs.drop_first();
        let st = statuses.drop_first();
        assert(forall|x: DiffModel| dt.contains(x) ==> diffs.contains(x)) by {
            assert forall|x: DiffModel| dt.contains(x) implies diffs.contains(x) by {
                let i = choose|i: int| 0 <= i < dt.len() && dt[i] == x;
                assert(diffs[i + 1] == x);
            }
        }
        assert(forall|x: StatusModel| st.contains(x) ==> statuses.contains(x)) by {
            assert forall|x: StatusModel| st.contains(x) implies statuses.contains(x) by {
                let i = choose|i: int| 0 <= i < st.len() && st[i] == x;
                assert(statuses[i + 1] == x);
            }
        }
        if diffs[0].block_number < statuses[0].block_number {
            law_all_pairs_in_block_order(dt, statuses);
            assert forall|n: u64|
                #![trigger holds_block(diffs, n)]
                holds_block(diffs, n) && holds_block(statuses, n) <==> exists|i: int|
                    0 <= i < pairs.len() && (#[trigger] pairs[i]).0.block_number == n by {
                lemma_holds_tail(diffs, n);
                assert(holds_block(dt, n) && holds_block(statuses, n) <==> exists|i: int|
                    0 <= i < pairs.len() && (#[trigger] pairs[i]).0.block_number == n);
            }
        } else if diffs[0].block_number > statuses[0].block_number {
            law_all_pairs_in_block_order(diffs, st);
            assert forall|n: u64|
                #![trigger holds_block(diffs, n)]
                holds_block(diffs, n) && holds_block(statuses, n) <==> exists|i: int|
                    0 <= i < pairs.len() && (#[trigger] pairs[i]).0.block_number == n by {
                lemma_holds_tail(statuses, n);
                assert(holds_block(diffs, n) && holds_block(st, n) <==> exists|i: int|
                    0 <= i < pairs.len() && (#[trigger] pairs[i]).0.block_number == n);
            }
        } else {
            law_all_pairs_in_block_order(dt, st);
            let rest = paired(dt, st).0;
            let b = statuses[0].block_number;
            assert(pairs[0] == (statuses[0], diffs[0]));
            assert forall|i: int| 0 <= i < rest.len() implies (#[trigger] rest[i]).0.block_number > b by {
                let n = rest[i].0.block_number;
                assert(holds_block(dt, n));
            }
            assert forall|i: int| 0 <= i < pairs.len() implies (#[trigger] pairs[i]).0.block_number
                == pairs[i].1.block_number && statuses.contains(pairs[i].0) && diffs.contains(pairs[i].1) by {
                if i > 0 {
                    assert(pairs[i] == rest[i - 1]);
                } else {
                    assert(statuses.contains(statuses[0]) && diffs.contains(diffs[0]));
                }
            }
            assert forall|i: int, j: int| 0 <= i < j < pairs.len() implies #[trigger] pairs[i].0.block_number
                < #[trigger] pairs[j].0.block_number by {
                assert(pairs[j] == rest[j - 1]);
                if i > 0 {
                    assert(pairs[i] == rest[i - 1]);
                }
            }
            assert forall|n: u64|
                #![trigger holds_block(diffs, n)]
                holds_block(diffs, n) && holds_block(statuses, n) <==> exists|i: int|
                    0 <= i < pairs.len() && (#[trigger] pairs[i]).0.block_number == n by {
                lemma_holds_tail(diffs, n);
                lemma_holds_tail(statuses, n);
                let lhs = holds_block(diffs, n) && holds_block(statuses, n);
                assert(holds_block(dt, n) && holds_block(st, n) <==> exists|i: int|
                    0 <= i < rest.len() && (#[trigger] rest[i]).0.block_number == n);
                if lhs {
                    if n == b {
                        assert(pairs[0].0.block_number == n);
                    } else {
                        let i = choose|i: int| 0 <= i < rest.len() && (#[trigger] rest[i]).0.block_number == n;
                        assert(pairs[i + 1] == rest[i]);
                        assert(pairs[i + 1].0.block_number == n);
                    }
                }
                if exists|i: int| 0 <= i < pairs.len() && (#[trigger] pairs[i]).0.block_number == n {
                    let i = choose|i: int| 0 <= i < pairs.len() && (#[trigger] pairs[i]).0.block_number == n;
                    if i > 0 {
                        assert(pairs[i] == rest[i - 1]);
                        assert(rest[i - 1].0.block_number == n);
                    }
                }
            }
        }
    }
}

/// Replacing the books never moves the live height back.
pub proof fn law_replacement_never_rolls_back(
    m: ListenerModel,
    snapshot: BooksModel,
    height: u64,
    time: u64,
    cache: Seq<PairModel>,
)
    ensures
        ({
            let after = m.replaced(snapshot, height, time, cache);
            after.state is Some ==> {
                &&& after.state->0.height >= height
                &&& m.state is Some ==> after.state->0.height >= m.state->0.height
            }
        }),
{
    law_replay_never_rolls_back(
        state_from(snapshot, height, time, true, m.ignore_spot),
        cache + paired(m.diffs.batches, m.statuses.batches).0,
    );
}

/// A replacement that fails leaves no books, and a later snapshot that reaches the waiting
/// blocks brings them back: without live books nothing but the replay itself decides.
pub proof fn law_recovery_needs_only_a_replay(
    m: ListenerModel,
    snapshot: BooksModel,
    height: u64,
    time: u64,
    cache: Seq<PairModel>,
)
    requires
        m.state is None,
    ensures
        m.replaced(snapshot, height, time, cache).state is Some <==> m.rebuilt(
            snapshot,
            height,
            time,
            cache,
        ).1 is None,
{
}

/// Two states with the same books at the same block.
pub open spec fn same_books(a: StateModel, b: StateModel) -> bool {
    &&& a.books == b.books
    &&& a.height == b.height
    &&& a.time == b.time
    &&& a.ignore_spot == b.ignore_spot
}

/// What a subscriber who follows the messages holds after one more of them: a reset replaces
/// the books, a block's batches change them.
pub open spec fn followed(client: StateModel, m: MessageModel) -> StateModel {
    match m {
        MessageModel::BookReset { snapshot, l2_snapshots } => StateModel {
            books: snapshot.books,
            height: snapshot.height,
            time: snapshot.time,
            ..client
        },
        MessageModel::L4BookUpdates { diff_batch, status_batch } => applied(client, status_batch, diff_batch).0,
        _ => client,
    }
}

/// What a subscriber holds after several messages.
pub open spec fn followed_all(client: StateModel, s: Seq<MessageModel>) -> StateModel
    decreases s.len(),
{
    if s.len() == 0 {
        client
    } else {
        followed(followed_all(client, s.drop_last()), s.last())
    }
}

proof fn lemma_same_books_apply(a: StateModel, b: StateModel, statuses: StatusModel, diffs: DiffModel)
    requires
        same_books(a, b),
    ensures
        same_books(applied(a, statuses, diffs).0, applied(b, statuses, diffs).0),
        applied(a, statuses, diffs).1 == applied(b, statuses, diffs).1,
{
}

/// A subscriber who holds the live books and follows the messages still holds them after the
/// listener received a batch.
pub proof fn law_subscribers_stay_in_step(m: ListenerModel, batch: EventModel, client: StateModel)
    requires
        m.outbox is Some,
        m.state is Some,
        m.received(batch).1 is None,
        same_books(followed_all(client, m.outbox->0), m.state->0),
    ensures
        m.received(batch).0.outbox is Some,
        m.received(batch).0.state is Some,
        same_books(followed_all(client, m.received(batch).0.outbox->0), m.received(batch).0.state->0),
{
    let taken = m.taking(batch);
    let before = followed_all(client, m.outbox->0);
    let held = followed_all(client, taken.outbox->0);
    assert(held == before) by {
        if taken.outbox->0 != m.outbox->0 {
            assert(taken.outbox->0.drop_last() =~= m.outbox->0);
        }
    }
    let (pair, rest) = taken.popped();
    if let Some((statuses, diffs)) = pair {
        lemma_same_books_apply(held, m.state->0, statuses, diffs);
        let after = m.received(batch).0;
        assert(after.outbox->0.drop_last() =~= taken.outbox->0);
    }
}

/// A replacement of the books brings every subscriber into step, whatever they held before:
/// the reset comes after all messages on the old books.
pub proof fn law_reset_brings_subscribers_into_step(
    m: ListenerModel,
    snapshot: BooksModel,
    height: u64,
    time: u64,
    cache: Seq<PairModel>,
    client: StateModel,
)
    requires
        m.outbox is Some,
        client.ignore_spot == m.ignore_spot,
    ensures
        ({
            let after = m.replaced(snapshot, height, time, cache);
            &&& after.outbox is Some
            &&& after.state is Some ==> {
                &&& after.outbox->0.len() == m.outbox->0.len() + 1
                &&& after.outbox->0.drop_last() == m.outbox->0
                &&& after.outbox->0.last() is BookReset
                &&& same_books(followed_all(client, after.outbox->0), after.state->0)
            }
            &&& after.state is None ==> after.outbox == m.outbox
        }),
{
    let after = m.replaced(snapshot, height, time, cache);
    lemma_replay_keeps(
        state_from(snapshot, height, time, true, m.ignore_spot),
        cache + paired(m.diffs.batches, m.statuses.batches).0,
    );
    if after.state is Some {
        assert(after.outbox->0.drop_last() =~= m.outbox->0);
        lemma_followed_keeps(client, m.outbox->0);
    }
}

proof fn lemma_replay_keeps(st: StateModel, pairs: Seq<PairModel>)
    ensures
        replayed(st, pairs).0.ignore_spot == st.ignore_spot,
        !st.snapped ==> !replayed(st, pairs).0.snapped,
    decreases pairs.len(),
{
    if pairs.len() > 0 {
        lemma_replay_keeps(applied(st, pairs[0].0, pairs[0].1).0, pairs.drop_first());
    }
}

proof fn lemma_followed_keeps(client: StateModel, s: Seq<MessageModel>)
    ensures
        followed_all(client, s).ignore_spot == client.ignore_spot,
    decreases s.len(),
{
    if s.len() > 0 {
        lemma_followed_keeps(client, s.drop_last());
    }
}

/// The pairs collected since a fetch began are exactly what leads from the books at that time
/// to the live ones.
pub open spec fn cache_leads_from(m: ListenerModel, start: StateModel) -> bool {
    &&& m.cache is Some
    &&& m.state is Some
    &&& replayed(start, m.cache->0).1 is None
    &&& same_books(replayed(start, m.cache->0).0, m.state->0)
}

/// From the start of a fetch on, the collected pairs lead from the books at that time to the
/// live ones, whatever is received: what the validation replays is what was applied.
pub proof fn law_cache_leads_to_the_live_books(m: ListenerModel, start: StateModel, batch: EventModel)
    requires
        m.received(batch).1 is None,
    ensures
        m.state == Some(start) && m.cache == Some(Seq::<PairModel>::empty()) ==> cache_leads_from(m, start),
        cache_leads_from(m, start) ==> cache_leads_from(m.received(batch).0, start),
{
    if cache_leads_from(m, start) {
        let taken = m.taking(batch);
        let (pair, rest) = taken.popped();
        if let Some((statuses, diffs)) = pair {
            let c = m.cache->0;
            let one = seq![(statuses, diffs)];
            law_replay_in_parts(start, c, one);
            assert(c.push((statuses, diffs)) =~= c + one);
            lemma_same_books_apply(replayed(start, c).0, m.state->0, statuses, diffs);
            let mid = replayed(start, c).0;
            assert(one.drop_first() =~= Seq::<PairModel>::empty());
            assert(one[0] == (statuses, diffs));
            assert(replayed(mid, one) == applied(mid, statuses, diffs)) by {
                reveal_with_fuel(replayed, 2);
            }
        }
    }
}

/// The fills of a block are told once: after a batch of fills was taken in, one of the same or
/// an earlier block changes nothing.
pub proof fn law_fills_of_a_block_are_told_once(
    m: ListenerModel,
    b: BatchModel<NodeDataFill>,
    c: BatchModel<NodeDataFill>,
)
    requires
        c.block_number <= b.block_number,
    ensures
        m.taking(EventModel::Fills(b)).taking(EventModel::Fills(c)) == m.taking(EventModel::Fills(b)),
{
}

/// The fills of a block above every earlier one are told, with or without live books.
pub proof fn law_fills_of_a_new_block_are_told(m: ListenerModel, b: BatchModel<NodeDataFill>)
    requires
        m.outbox is Some,
        m.last_fill matches Some(last) ==> last < b.block_number,
    ensures
        m.taking(EventModel::Fills(b)).outbox == Some(m.outbox->0.push(MessageModel::Fills { batch: b })),
        m.taking(EventModel::Fills(b)).last_fill == Some(b.block_number),
{
}

/// The aggregations of a height are told once: telling again changes nothing until a block is
/// applied.
pub proof fn law_levels_are_told_once(m: ListenerModel)
    ensures
        m.having_told_levels().having_told_levels() == m.having_told_levels(),
{
}

/// A block that does not fit, met while records are processed, takes the live books away; a
/// line that cannot be parsed leaves them.
pub proof fn law_bad_block_clears_the_books(m: ListenerModel, records: Seq<RecordModel>, source: EventSource)
    ensures
        match m.processed(records, source).1 {
            Some(ProcessErrorModel::Apply(e)) => m.processed(records, source).0.state is None,
            Some(ProcessErrorModel::Deserialization { source: _, error, height, line }) => m.processed(
                records,
                source,
            ).0.state is Some <==> m.state is Some,
            None => m.processed(records, source).0.state is Some <==> m.state is Some,
        },
    decreases records.len(),
{
    if records.len() > 0 {
        if let Ok(batch) = records[0].parsed {
            let (next, error) = m.received(batch);
            if error is None {
                law_bad_block_clears_the_books(next, records.drop_first(), source);
            }
        }
    }
}

/// A subscriber who is in step stays so over any number of records: the aggregations that are
/// told at the end change nothing of the books.
pub proof fn law_subscribers_stay_in_step_over_records(
    m: ListenerModel,
    records: Seq<RecordModel>,
    source: EventSource,
    client: StateModel,
)
    requires
        m.outbox is Some,
        m.state is Some,
        m.processed(records, source).1 is None,
        same_books(followed_all(client, m.outbox->0), m.state->0),
    ensures
        m.processed(records, source).0.outbox is Some,
        m.processed(records, source).0.state is Some,
        same_books(
            followed_all(client, m.processed(records, source).0.outbox->0),
            m.processed(records, source).0.state->0,
        ),
    decreases records.len(),
{
    if records.len() == 0 {
        let after = m.having_told_levels();
        if !m.state->0.snapped {
            assert(after.outbox->0.drop_last() =~= m.outbox->0);
        }
    } else if let Ok(batch) = records[0].parsed {
        law_subscribers_stay_in_step(m, batch, client);
        law_subscribers_stay_in_step_over_records(
            m.received(batch).0,
            records.drop_first(),
            source,
            client,
        );
    }
}

/// The aggregations that a subscriber holds after one more message.
pub open spec fn followed_levels(client: L2Model, m: MessageModel) -> L2Model {
    match m {
        MessageModel::Snapshot { l2_snapshots, time, height } => l2_snapshots,
        MessageModel::BookReset { snapshot, l2_snapshots } => l2_snapshots,
        _ => client,
    }
}

/// The aggregations that a subscriber holds after several messages.
pub open spec fn followed_levels_all(client: L2Model, s: Seq<MessageModel>) -> L2Model
    decreases s.len(),
{
    if s.len() == 0 {
        client
    } else {
        followed_levels(followed_levels_all(client, s.drop_last()), s.last())
    }
}

/// If the aggregations of the live height have been told, a subscriber holds those of the live
/// books.
pub open spec fn levels_in_step(m: ListenerModel, client: L2Model) -> bool {
    &&& m.outbox is Some
    &&& m.state is Some && m.state->0.snapped ==> followed_levels_all(client, m.outbox->0) == l2_model(
        m.state->0.books,
    )
}

proof fn lemma_levels_after_batch(m: ListenerModel, batch: EventModel, client: L2Model)
    requires
        levels_in_step(m, client),
        m.received(batch).1 is None,
    ensures
        levels_in_step(m.received(batch).0, client),
{
    let taken = m.taking(batch);
    assert(followed_levels_all(client, taken.outbox->0) == followed_levels_all(client, m.outbox->0)) by {
        if taken.outbox->0 != m.outbox->0 {
            assert(taken.outbox->0.drop_last() =~= m.outbox->0);
        }
    }
    if taken.state is Some && taken.popped().0 is Some {
        assert(m.received(batch).0.outbox->0.drop_last() =~= taken.outbox->0);
    }
}

/// Once records have been processed without error, a subscriber to aggregations holds those of
/// the live books.
pub proof fn law_levels_follow_the_live_books(
    m: ListenerModel,
    records: Seq<RecordModel>,
    source: EventSource,
    client: L2Model,
)
    requires
        levels_in_step(m, client),
        m.processed(records, source).1 is None,
    ensures
        ({
            let after = m.processed(records, source).0;
            &&& levels_in_step(after, client)
            &&& after.state is Some ==> followed_levels_all(client, after.outbox->0) == l2_model(
                after.state->0.books,
            )
        }),
    decreases records.len(),
{
    if records.len() == 0 {
        if m.state is Some && !m.state->0.snapped {
            assert(m.having_told_levels().outbox->0.drop_last() =~= m.outbox->0);
        }
    } else if let Ok(batch) = records[0].parsed {
        lemma_levels_after_batch(m, batch, client);
        law_levels_follow_the_live_books(m.received(batch).0, records.drop_first(), source, client);
    }
}

/// Once the books have been replaced, a subscriber to aggregations holds those of the new books,
/// whatever they held before.
pub proof fn law_reset_renews_levels(
    m: ListenerModel,
    snapshot: BooksModel,
    height: u64,
    time: u64,
    cache: Seq<PairModel>,
    client: L2Model,
)
    requires
        m.outbox is Some,
    ensures
        ({
            let after = m.replaced(snapshot, height, time, cache);
            after.state is Some ==> {
                &&& levels_in_step(after, client)
                &&& followed_levels_all(client, after.outbox->0) == l2_model(after.state->0.books)
            }
        }),
{
    let after = m.replaced(snapshot, height, time, cache);
    lemma_replay_keeps(
        state_from(snapshot, height, time, true, m.ignore_spot),
        cache + paired(m.diffs.batches, m.statuses.batches).0,
    );
    if after.state is Some {
        assert(after.outbox->0.drop_last() =~= m.outbox->0);
    }
}

/// Whether a queue holds and lets in only blocks above a height.
pub open spec fn above<T>(q: QueueModel<T>, height: u64) -> bool {
    &&& q.last_ts matches Some(last) && last >= height
    &&& forall|i: int| 0 <= i < q.batches.len() ==> (#[trigger] q.batches[i]).block_number > height
}

/// What holds of the queues since the books were last replaced, at the height `floor`: once
/// a block was applied, only later ones are left.
pub open spec fn settled(m: ListenerModel, floor: u64) -> bool {
    &&& m.queues_in_order()
    &&& m.state matches Some(st) ==> {
        &&& floor <= st.height
        &&& st.height > floor ==> above(m.diffs, st.height) && above(m.statuses, st.height)
    }
}

proof fn lemma_pushed_above<T>(q: QueueModel<T>, b: BatchModel<T>, height: u64)
    requires
        above(q, height),
    ensures
        above(q.pushed(b), height),
{
    let p = q.pushed(b);
    assert forall|i: int| 0 <= i < p.batches.len() implies (#[trigger] p.batches[i]).block_number > height by {
        if i < q.batches.len() {
            assert(p.batches[i] == q.batches[i]);
        }
    }
}

proof fn lemma_popped_above<T>(q: QueueModel<T>, rest: Seq<BatchModel<T>>, number: u64)
    requires
        q.wf(),
        0 < rest.len() <= q.batches.len(),
        rest == q.batches.skip(q.batches.len() - rest.len()),
        rest[0].block_number == number,
    ensures
        above(q.with(rest.drop_first()), number),
{
    let k = q.batches.len() - rest.len();
    assert(q.batches[k] == rest[0]);
    assert(q.batches[q.batches.len() - 1] == q.batches.last());
    let left = rest.drop_first();
    assert forall|i: int| 0 <= i < left.len() implies (#[trigger] left[i]).block_number > number by {
        assert(left[i] == q.batches[k + i + 1]);
    }
}

proof fn lemma_taking_settled(m: ListenerModel, batch: EventModel, floor: u64)
    requires
        settled(m, floor),
    ensures
        settled(m.taking(batch), floor),
        m.taking(batch).state == m.state,
{
    law_queues_stay_in_order(m, batch);
    if let Some(st) = m.state {
        if st.height > floor {
            match batch {
                EventModel::Orders(b) => lemma_pushed_above(m.statuses, b, st.height),
                EventModel::BookDiffs(b) => lemma_pushed_above(m.diffs, b, st.height),
                EventModel::Fills(b) => {},
            }
        }
    }
}

/// What popping leaves of settled queues.
proof fn lemma_popped_settled(m: ListenerModel, floor: u64)
    requires
        settled(m, floor),
        m.state is Some,
    ensures
        ({
            let height = m.state->0.height;
            let (pair, rest) = m.popped();
            &&& rest.queues_in_order()
            &&& match pair {
                Some((statuses, diffs)) => {
                    &&& statuses.block_number == diffs.block_number
                    &&& height > floor ==> statuses.block_number > height
                    &&& above(rest.diffs, statuses.block_number)
                    &&& above(rest.statuses, statuses.block_number)
                },
                None => height > floor ==> above(rest.diffs, height) && above(rest.statuses, height),
            }
        }),
{
    let height = m.state->0.height;
    let d0 = m.diffs.batches;
    let s0 = m.statuses.batches;
    let (d, s) = synced(d0, s0);
    assert(m.popped().1.queues_in_order()) by {
        law_popped_pair_is_the_earliest(m);
    }
    assert(d.len() <= d0.len() && s.len() <= s0.len() && d == d0.skip(d0.len() - d.len()) && s == s0.skip(
        s0.len() - s.len(),
    ) && (d.len() > 0 && s.len() > 0 ==> d[0].block_number == s[0].block_number)) by {
        lemma_synced(d0, s0);
    }
    if d.len() > 0 && s.len() > 0 {
        assert(s0[s0.len() - s.len()] == s[0]);
        lemma_popped_above(m.diffs, d, s[0].block_number);
        lemma_popped_above(m.statuses, s, s[0].block_number);
    } else if height > floor {
        assert forall|i: int| 0 <= i < d.len() implies (#[trigger] d[i]).block_number > height by {
            assert(d[i] == d0[d0.len() - d.len() + i]);
        }
        assert forall|i: int| 0 <= i < s.len() implies (#[trigger] s[i]).block_number > height by {
            assert(s[i] == s0[s0.len() - s.len() + i]);
        }
    }
}

/// Of the blocks that are told, only those at or below the height of the last replacement can be
/// ones that the live books already hold; every other one is the next block.
pub proof fn law_repeated_blocks_are_old(m: ListenerModel, batch: EventModel, floor: u64)
    requires
        settled(m, floor),
        m.received(batch).1 is None,
    ensures
        settled(m.received(batch).0, floor),
        m.state is Some ==> (m.taking(batch).popped().0 matches Some((statuses, diffs)) ==> {
            &&& statuses.block_number == diffs.block_number
            &&& statuses.block_number <= floor || statuses.block_number == m.state->0.height + 1
        }),
{
    let taken = m.taking(batch);
    lemma_taking_settled(m, batch, floor);
    if let Some(st) = m.state {
        lemma_popped_settled(taken, floor);
        if let Some((statuses, diffs)) = taken.popped().0 {
            law_height_advances_by_one(st, statuses, diffs);
            assert(statuses.block_number <= st.height + 1);
        }
    }
}

/// A replacement settles the queues anew, at the height of the new books.
pub proof fn law_replacement_settles_the_queues(
    m: ListenerModel,
    snapshot: BooksModel,
    height: u64,
    time: u64,
    cache: Seq<PairModel>,
)
    requires
        m.queues_in_order(),
    ensures
        ({
            let after = m.replaced(snapshot, height, time, cache);
            &&& after.queues_in_order()
            &&& after.state is Some ==> settled(after, after.state->0.height)
        }),
{
    lemma_paired_keeps_order(m.diffs.batches, m.statuses.batches);
    let (_, d, s) = paired(m.diffs.batches, m.statuses.batches);
    if d.len() > 0 {
        assert(d.last() == m.diffs.batches.last());
    }
    if s.len() > 0 {
        assert(s.last() == m.statuses.batches.last());
    }
}

proof fn lemma_paired_keeps_order(diffs: Seq<DiffModel>, statuses: Seq<StatusModel>)
    requires
        increasing(diffs),
        increasing(statuses),
    ensures
        ({
            let (_, d, s) = paired(diffs, statuses);
            &&& increasing(d)
            &&& increasing(s)
            &&& d.len() <= diffs.len()
            &&& s.len() <= statuses.len()
            &&& d.len() > 0 ==> d.last() == diffs.last()
            &&& s.len() > 0 ==> s.last() == statuses.last()
        }),
    decreases diffs.len() + statuses.len(),
{
    if diffs.len() > 0 && statuses.len() > 0 {
        lemma_increasing_tail(diffs);
        lemma_increasing_tail(statuses);
        if diffs[0].block_number < statuses[0].block_number {
            lemma_paired_keeps_order(diffs.drop_first(), statuses);
        } else if diffs[0].block_number > statuses[0].block_number {
            lemma_paired_keeps_order(diffs, statuses.drop_first());
        } else {
            lemma_paired_keeps_order(diffs.drop_first(), statuses.drop_first());
        }
    }
}

/// Whether a queue holds a batch of a block above another.
pub open spec fn overtaken<T>(s: Seq<BatchModel<T>>, n: u64) -> bool {
    exists|i: int| 0 <= i < s.len() && n < (#[trigger] s[i]).block_number
}

/// Whether a queue holds a batch of a block or of one above it.
pub open spec fn reached<T>(s: Seq<BatchModel<T>>, n: u64) -> bool {
    exists|i: int| 0 <= i < s.len() && n <= (#[trigger] s[i]).block_number
}

/// Whether a number is below that of the last batch of a queue.
spec fn below_last<T>(n: u64, s: Seq<BatchModel<T>>) -> bool {
    s.len() > 0 && n < s.last().block_number
}

/// Whether a number is at most that of the last batch of a queue.
spec fn upto_last<T>(n: u64, s: Seq<BatchModel<T>>) -> bool {
    s.len() > 0 && n <= s.last().block_number
}

proof fn lemma_overtaken<T>(s: Seq<BatchModel<T>>)
    requires
        increasing(s),
    ensures
        forall|n: u64| #[trigger] overtaken(s, n) <==> below_last(n, s),
        forall|n: u64| #[trigger] reached(s, n) <==> upto_last(n, s),
{
    assert forall|n: u64| #[trigger] overtaken(s, n) <==> below_last(n, s) by {
        if below_last(n, s) {
            assert(s[s.len() - 1].block_number > n);
        }
    }
    assert forall|n: u64| #[trigger] reached(s, n) <==> upto_last(n, s) by {
        if upto_last(n, s) {
            assert(s[s.len() - 1].block_number >= n);
        }
    }
}

proof fn lemma_synced_cut(diffs: Seq<DiffModel>, statuses: Seq<StatusModel>)
    requires
        increasing(diffs),
        increasing(statuses),
    ensures
        ({
            let (d, s) = synced(diffs, statuses);
            let k = diffs.len() - d.len();
            let l = statuses.len() - s.len();
            if d.len() > 0 && s.len() > 0 {
                true
            } else {
                &&& forall|i: int| #![trigger diffs[i]]
                    0 <= i < diffs.len() ==> (i < k <==> below_last(diffs[i].block_number, statuses))
                &&& forall|i: int| #![trigger statuses[i]]
                    0 <= i < statuses.len() ==> (i < l <==> below_last(statuses[i].block_number, diffs))
            }
        }),
    decreases diffs.len() + statuses.len(),
{
    let (d, s) = synced(diffs, statuses);
    let k = diffs.len() - d.len();
    let l = statuses.len() - s.len();
    if diffs.len() > 0 && statuses.len() > 0 && !(d.len() > 0 && s.len() > 0) {
        lemma_increasing_tail(diffs);
        lemma_increasing_tail(statuses);
        assert(diffs[0].block_number <= diffs.last().block_number);
        assert(statuses[0].block_number <= statuses.last().block_number);
        if diffs[0].block_number < statuses[0].block_number {
            let t = diffs.drop_first();
            lemma_synced_cut(t, statuses);
            lemma_synced(t, statuses);
            assert forall|i: int| #![trigger diffs[i]] 0 <= i < diffs.len() implies (i < k <==> below_last(
                diffs[i].block_number,
                statuses,
            )) by {
                if i > 0 {
                    assert(t[i - 1] == diffs[i]);
                }
            }
            assert forall|i: int| #![trigger statuses[i]] 0 <= i < statuses.len() implies (i < l <==> below_last(
                statuses[i].block_number,
                diffs,
            )) by {
                assert(statuses[0].block_number <= statuses[i].block_number);
                assert(i < l <==> below_last(statuses[i].block_number, t));
                if t.len() > 0 {
                    assert(t.last() == diffs.last());
                }
            }
        } else if diffs[0].block_number > statuses[0].block_number {
            let t = statuses.drop_first();
            lemma_synced_cut(diffs, t);
            lemma_synced(diffs, t);
            assert forall|i: int| #![trigger statuses[i]] 0 <= i < statuses.len() implies (i < l <==> below_last(
                statuses[i].block_number,
                diffs,
            )) by {
                if i > 0 {
                    assert(t[i - 1] == statuses[i]);
                }
            }
            assert forall|i: int| #![trigger diffs[i]] 0 <= i < diffs.len() implies (i < k <==> below_last(
                diffs[i].block_number,
                statuses,
            )) by {
                assert(diffs[0].block_number <= diffs[i].block_number);
                assert(i < k <==> below_last(diffs[i].block_number, t));
                if t.len() > 0 {
                    assert(t.last() == statuses.last());
                }
            }
        }
    }
}

/// Popping takes nothing but batches from the front of the two queues. With a pair these are the
/// batches up to its block, the last of which make the pair; without one they are those that the other
/// queue has overtaken. Everything else of the listener stays as it is.
pub proof fn law_popping_takes_from_the_front(m: ListenerModel)
    requires
        m.queues_in_order(),
    ensures
        ({
            let (pair, rest) = m.popped();
            let k = m.diffs.batches.len() - rest.diffs.batches.len();
            let l = m.statuses.batches.len() - rest.statuses.batches.len();
            &&& 0 <= k <= m.diffs.batches.len()
            &&& 0 <= l <= m.statuses.batches.len()
            &&& rest == ListenerModel {
                diffs: QueueModel { batches: m.diffs.batches.skip(k), last_ts: m.diffs.last_ts },
                statuses: QueueModel { batches: m.statuses.batches.skip(l), last_ts: m.statuses.last_ts },
                ..m
            }
            &&& match pair {
                Some((status_batch, diff_batch)) => {
                    &&& k > 0
                    &&& l > 0
                    &&& diff_batch == m.diffs.batches[k - 1]
                    &&& status_batch == m.statuses.batches[l - 1]
                    &&& forall|i: int| #![trigger m.diffs.batches[i]]
                        0 <= i < m.diffs.batches.len() ==> (i < k <==> m.diffs.batches[i].block_number
                            <= diff_batch.block_number)
                    &&& forall|i: int| #![trigger m.statuses.batches[i]]
                        0 <= i < m.statuses.batches.len() ==> (i < l <==> m.statuses.batches[i].block_number
                            <= status_batch.block_number)
                },
                None => {
                    &&& forall|i: int| #![trigger m.diffs.batches[i]]
                        0 <= i < m.diffs.batches.len() ==> (i < k <==> overtaken(
                            m.statuses.batches,
                            m.diffs.batches[i].block_number,
                        ))
                    &&& forall|i: int| #![trigger m.statuses.batches[i]]
                        0 <= i < m.statuses.batches.len() ==> (i < l <==> overtaken(
                            m.diffs.batches,
                            m.statuses.batches[i].block_number,
                        ))
                },
            }
        }),
{
    let diffs = m.diffs.batches;
    let statuses = m.statuses.batches;
    lemma_synced(diffs, statuses);
    lemma_synced_cut(diffs, statuses);
    lemma_overtaken(diffs);
    lemma_overtaken(statuses);
    let (d, s) = synced(diffs, statuses);
    let (pair, rest) = m.popped();
    let k = diffs.len() - rest.diffs.batches.len();
    let l = statuses.len() - rest.statuses.batches.len();
    if d.len() > 0 && s.len() > 0 {
        assert(d.drop_first() =~= diffs.skip(k));
        assert(s.drop_first() =~= statuses.skip(l));
        assert(d[0] == diffs[k - 1]);
        assert(s[0] == statuses[l - 1]);
    }
}

/// What a batch does at first: reports and changes wait in the queue of their stream, and nothing else
/// of the listener changes; fills touch no queue.
pub proof fn law_batches_wait_in_their_queue(
    m: ListenerModel,
    statuses: StatusModel,
    diffs: DiffModel,
    fills: BatchModel<NodeDataFill>,
)
    ensures
        m.taking(EventModel::Orders(statuses)) == (ListenerModel { statuses: m.statuses.pushed(statuses), ..m }),
        m.taking(EventModel::BookDiffs(diffs)) == (ListenerModel { diffs: m.diffs.pushed(diffs), ..m }),
        ({
            let after = m.taking(EventModel::Fills(fills));
            &&& after == ListenerModel { last_fill: after.last_fill, outbox: after.outbox, ..m }
            &&& m.outbox is None ==> after.outbox is None
            &&& m.last_fill is Some && m.last_fill->0 >= fills.block_number ==> after == m
        }),
{
}

/// The two halves of a block make it, whichever comes first: the first one changes no books and tells
/// nothing, and with the second one the block is applied to the live books, collected and told, unless
/// it does not fit.
pub proof fn law_two_halves_make_a_block(m: ListenerModel, st: StateModel, statuses: StatusModel, diffs: DiffModel)
    requires
        m.state == Some(st),
        m.diffs.batches.len() == 0,
        m.statuses.batches.len() == 0,
        statuses.block_number == diffs.block_number,
        m.diffs.last_ts matches Some(last) ==> last < diffs.block_number,
        m.statuses.last_ts matches Some(last) ==> last < statuses.block_number,
    ensures
        ({
            let first = m.received(EventModel::Orders(statuses));
            let second = first.0.received(EventModel::BookDiffs(diffs));
            &&& first.1 is None
            &&& first.0 == ListenerModel { statuses: first.0.statuses, ..m }
            &&& block_is_made(m, second.0, second.1, st, statuses, diffs)
        }),
        ({
            let first = m.received(EventModel::BookDiffs(diffs));
            let second = first.0.received(EventModel::Orders(statuses));
            &&& first.1 is None
            &&& first.0 == ListenerModel { diffs: first.0.diffs, ..m }
            &&& block_is_made(m, second.0, second.1, st, statuses, diffs)
        }),
{
    let a = m.received(EventModel::Orders(statuses)).0;
    let b = m.received(EventModel::BookDiffs(diffs)).0;
    let ta = a.taking(EventModel::BookDiffs(diffs));
    let tb = b.taking(EventModel::Orders(statuses));
    assert(synced(m.diffs.batches, m.statuses.batches.push(statuses)) == (
        m.diffs.batches,
        m.statuses.batches.push(statuses),
    ));
    assert(synced(m.diffs.batches.push(diffs), m.statuses.batches) == (
        m.diffs.batches.push(diffs),
        m.statuses.batches,
    ));
    assert(m.diffs.with(m.diffs.batches) == m.diffs);
    assert(m.statuses.with(m.statuses.batches) == m.statuses);
    assert(ta.diffs.batches =~= seq![diffs]);
    assert(ta.statuses.batches =~= seq![statuses]);
    assert(tb.diffs.batches =~= seq![diffs]);
    assert(tb.statuses.batches =~= seq![statuses]);
    assert(seq![diffs].drop_first() =~= Seq::empty());
    assert(seq![statuses].drop_first() =~= Seq::empty());
    assert(seq![diffs][0] == diffs);
    assert(seq![statuses][0] == statuses);
}

/// Whether a listener is another one with a block applied, collected and told, or with a block that did
/// not fit.
pub open spec fn block_is_made(
    before: ListenerModel,
    after: ListenerModel,
    error: Option<ApplyError>,
    st: StateModel,
    statuses: StatusModel,
    diffs: DiffModel,
) -> bool {
    let told = MessageModel::L4BookUpdates { diff_batch: diffs, status_batch: statuses };
    &&& error == applied(st, statuses, diffs).1
    &&& after.state == Some(applied(st, statuses, diffs).0)
    &&& after.diffs.batches.len() == 0
    &&& after.statuses.batches.len() == 0
    &&& after.diffs.last_ts == Some(diffs.block_number)
    &&& after.statuses.last_ts == Some(statuses.block_number)
    &&& after == ListenerModel {
        state: after.state,
        diffs: after.diffs,
        statuses: after.statuses,
        cache: after.cache,
        outbox: after.outbox,
        ..before
    }
    &&& match before.outbox {
        Some(s) => after.outbox == Some(
            if error is None {
                s.push(told)
            } else {
                s
            },
        ),
        None => after.outbox is None,
    }
    &&& match before.cache {
        Some(s) => after.cache == Some(
            if error is None {
                s.push((statuses, diffs))
            } else {
                s
            },
        ),
        None => after.cache is None,
    }
}

/// Whatever is received, at most one block is put to use, and it is the one that is popped once the
/// batch waits; without live books none is.
pub proof fn law_one_block_is_put_to_use(m: ListenerModel, batch: EventModel)
    ensures
        ({
            let taken = m.taking(batch);
            let (after, error) = m.received(batch);
            match m.state {
                None => after == taken && error is None,
                Some(st) => match taken.popped().0 {
                    None => after == taken.popped().1 && error is None,
                    Some((statuses, diffs)) => {
                        let rest = taken.popped().1;
                        &&& error == applied(st, statuses, diffs).1
                        &&& after.state == Some(applied(st, statuses, diffs).0)
                        &&& after.diffs == rest.diffs
                        &&& after.statuses == rest.statuses
                        &&& after.last_fill == taken.last_fill
                        &&& after.fill_file == m.fill_file
                        &&& after.status_file == m.status_file
                        &&& after.diff_file == m.diff_file
                        &&& after.ignore_spot == m.ignore_spot
                        &&& after.outbox is Some <==> m.outbox is Some
                        &&& after.cache is Some <==> m.cache is Some
                        &&& error is Some ==> after.outbox == taken.outbox && after.cache == m.cache
                        &&& error is None && m.outbox is Some ==> after.outbox->0 == taken.outbox->0.push(
                            MessageModel::L4BookUpdates { diff_batch: diffs, status_batch: statuses },
                        )
                        &&& error is None && m.cache is Some ==> after.cache->0 == m.cache->0.push((statuses, diffs))
                    },
                },
            }
        }),
{
}

/// The aggregations of the live books are told with their height and time if they were not yet, and
/// nothing but that they have been is changed by it. A reset tells the books themselves as well.
pub proof fn law_levels_told_are_those_of_the_books(m: ListenerModel, st: StateModel, s: Seq<MessageModel>)
    requires
        m.state == Some(st),
        m.outbox == Some(s),
    ensures
        st.snapped ==> m.having_told_levels() == m && m.having_told_reset() == m,
        !st.snapped ==> {
            &&& m.having_told_levels() == ListenerModel {
                state: Some(StateModel { snapped: true, ..st }),
                outbox: Some(
                    s.push(
                        MessageModel::Snapshot {
                            l2_snapshots: l2_model(st.books),
                            time: st.time,
                            height: st.height,
                        },
                    ),
                ),
                ..m
            }
            &&& m.having_told_reset() == ListenerModel {
                state: Some(StateModel { snapped: true, ..st }),
                outbox: Some(
                    s.push(
                        MessageModel::BookReset {
                            snapshot: TimedModel { time: st.time, height: st.height, books: st.books },
                            l2_snapshots: l2_model(st.books),
                        },
                    ),
                ),
                ..m
            }
        },
{
}

proof fn lemma_paired_skips(diffs: Seq<DiffModel>, statuses: Seq<StatusModel>)
    ensures
        ({
            let (pairs, d, s) = paired(diffs, statuses);
            &&& d.len() <= diffs.len()
            &&& s.len() <= statuses.len()
            &&& d == diffs.skip(diffs.len() - d.len())
            &&& s == statuses.skip(statuses.len() - s.len())
        }),
    decreases diffs.len() + statuses.len(),
{
    let (pairs, d, s) = paired(diffs, statuses);
    if diffs.len() == 0 || statuses.len() == 0 {
        assert(diffs.skip(0) =~= diffs);
        assert(statuses.skip(0) =~= statuses);
    } else {
        let dt = diffs.drop_first();
        let st = statuses.drop_first();
        if diffs[0].block_number < statuses[0].block_number {
            lemma_paired_skips(dt, statuses);
        } else if diffs[0].block_number > statuses[0].block_number {
            lemma_paired_skips(diffs, st);
        } else {
            lemma_paired_skips(dt, st);
        }
        assert(d.len() <= dt.len() ==> dt.skip(dt.len() - d.len()) =~= diffs.skip(diffs.len() - d.len()));
        assert(s.len() <= st.len() ==> st.skip(st.len() - s.len()) =~= statuses.skip(statuses.len() - s.len()));
    }
}

/// How many batches of a queue are at most at the last block of another one.
spec fn is_cut<T, U>(q: Seq<BatchModel<T>>, other: Seq<BatchModel<U>>, k: int) -> bool {
    forall|i: int| #![trigger q[i]] 0 <= i < q.len() ==> (i < k <==> upto_last(q[i].block_number, other))
}

proof fn lemma_cut_behind_first<T, U>(q: Seq<BatchModel<T>>, other: Seq<BatchModel<U>>, k: int)
    requires
        q.len() > 0,
        k >= 1,
        upto_last(q[0].block_number, other),
        is_cut(q.drop_first(), other, k - 1),
    ensures
        is_cut(q, other, k),
{
    assert forall|i: int| #![trigger q[i]] 0 <= i < q.len() implies (i < k <==> upto_last(
        q[i].block_number,
        other,
    )) by {
        if i > 0 {
            assert(q.drop_first()[i - 1] == q[i]);
        }
    }
}

proof fn lemma_cut_of_tail<T, U>(q: Seq<BatchModel<T>>, other: Seq<BatchModel<U>>, k: int)
    requires
        other.len() > 0,
        forall|i: int| 0 <= i < q.len() ==> other[0].block_number < (#[trigger] q[i]).block_number,
        is_cut(q, other.drop_first(), k),
    ensures
        is_cut(q, other, k),
{
    let t = other.drop_first();
    assert forall|i: int| #![trigger q[i]] 0 <= i < q.len() implies (i < k <==> upto_last(
        q[i].block_number,
        other,
    )) by {
        if t.len() > 0 {
            assert(t.last() == other.last());
        } else {
            assert(other.last() == other[0]);
        }
        assert(i < k <==> upto_last(q[i].block_number, t));
    }
}

proof fn lemma_paired_cut(diffs: Seq<DiffModel>, statuses: Seq<StatusModel>)
    requires
        increasing(diffs),
        increasing(statuses),
    ensures
        ({
            let (pairs, d, s) = paired(diffs, statuses);
            &&& is_cut(diffs, statuses, diffs.len() - d.len())
            &&& is_cut(statuses, diffs, statuses.len() - s.len())
        }),
    decreases diffs.len() + statuses.len(),
{
    let (pairs, d, s) = paired(diffs, statuses);
    let k = diffs.len() - d.len();
    let l = statuses.len() - s.len();
    if diffs.len() > 0 && statuses.len() > 0 {
        lemma_increasing_tail(diffs);
        lemma_increasing_tail(statuses);
        let dt = diffs.drop_first();
        let st = statuses.drop_first();
        assert(diffs[0].block_number <= diffs[diffs.len() - 1].block_number);
        assert(statuses[0].block_number <= statuses[statuses.len() - 1].block_number);
        assert forall|i: int| 0 <= i < dt.len() implies diffs[0].block_number < (#[trigger] dt[i]).block_number by {
            assert(dt[i] == diffs[i + 1]);
        }
        assert forall|i: int| 0 <= i < st.len() implies statuses[0].block_number < (
        #[trigger] st[i]).block_number by {
            assert(st[i] == statuses[i + 1]);
        }
        if diffs[0].block_number < statuses[0].block_number {
            lemma_paired_skips(dt, statuses);
            lemma_paired_cut(dt, statuses);
            lemma_cut_behind_first(diffs, statuses, k);
            assert forall|i: int| 0 <= i < statuses.len() implies diffs[0].block_number < (
            #[trigger] statuses[i]).block_number by {
            }
            lemma_cut_of_tail(statuses, diffs, l);
        } else if diffs[0].block_number > statuses[0].block_number {
            lemma_paired_skips(diffs, st);
            lemma_paired_cut(diffs, st);
            lemma_cut_behind_first(statuses, diffs, l);
            assert forall|i: int| 0 <= i < diffs.len() implies statuses[0].block_number < (
            #[trigger] diffs[i]).block_number by {
            }
            lemma_cut_of_tail(diffs, statuses, k);
        } else {
            lemma_paired_skips(dt, st);
            lemma_paired_cut(dt, st);
            lemma_cut_of_tail(dt, statuses, k - 1);
            lemma_cut_of_tail(st, diffs, l - 1);
            lemma_cut_behind_first(diffs, statuses, k);
            lemma_cut_behind_first(statuses, diffs, l);
        }
    }
}

/// Replacing the books takes from each queue the batches that the other one has reached, and no others.
/// It touches neither the files, the fills nor the collected blocks. If books come of it, they are those
/// that replaying the given blocks and then the waiting pairs on the snapshot gives.
pub proof fn law_replacement_is_a_replay(
    m: ListenerModel,
    snapshot: BooksModel,
    height: u64,
    time: u64,
    cache: Seq<PairModel>,
)
    requires
        m.queues_in_order(),
    ensures
        ({
            let after = m.replaced(snapshot, height, time, cache);
            let pairs = paired(m.diffs.batches, m.statuses.batches).0;
            let (st, error) = replayed(state_from(snapshot, height, time, true, m.ignore_spot), cache + pairs);
            let k = m.diffs.batches.len() - after.diffs.batches.len();
            let l = m.statuses.batches.len() - after.statuses.batches.len();
            &&& after == ListenerModel {
                state: after.state,
                outbox: after.outbox,
                diffs: QueueModel { batches: m.diffs.batches.skip(k), last_ts: m.diffs.last_ts },
                statuses: QueueModel { batches: m.statuses.batches.skip(l), last_ts: m.statuses.last_ts },
                ..m
            }
            &&& forall|i: int| #![trigger m.diffs.batches[i]]
                0 <= i < m.diffs.batches.len() ==> (i < k <==> reached(
                    m.statuses.batches,
                    m.diffs.batches[i].block_number,
                ))
            &&& forall|i: int| #![trigger m.statuses.batches[i]]
                0 <= i < m.statuses.batches.len() ==> (i < l <==> reached(
                    m.diffs.batches,
                    m.statuses.batches[i].block_number,
                ))
            &&& after.state is None <==> error is Some || (m.state is Some && st.height < m.state->0.height)
            &&& after.state is None ==> after.outbox == m.outbox
            &&& after.state is Some ==> {
                &&& after.state->0.books == st.books
                &&& after.state->0.height == st.height
                &&& after.state->0.time == st.time
                &&& after.state->0.ignore_spot == m.ignore_spot
                &&& after.state->0.snapped <==> m.outbox is Some
                &&& match m.outbox {
                    None => after.outbox is None,
                    Some(s) => after.outbox == Some(
                        s.push(
                            MessageModel::BookReset {
                                snapshot: TimedModel { time: st.time, height: st.height, books: st.books },
                                l2_snapshots: l2_model(st.books),
                            },
                        ),
                    ),
                }
            }
        }),
{
    lemma_paired_skips(m.diffs.batches, m.statuses.batches);
    lemma_paired_cut(m.diffs.batches, m.statuses.batches);
    lemma_overtaken(m.diffs.batches);
    lemma_overtaken(m.statuses.batches);
    lemma_replay_keeps(
        state_from(snapshot, height, time, true, m.ignore_spot),
        cache + paired(m.diffs.batches, m.statuses.batches).0,
    );
}

/// The first snapshot becomes the books: if there are none and no pair waits, the live books are then the
/// snapshot's, coin by coin and side by side, at its height, and the connections are told of them.
pub proof fn law_first_snapshot_becomes_the_books(m: ListenerModel, snapshot: BooksModel, height: u64, time: u64)
    requires
        m.queues_in_order(),
        m.state is None,
        m.diffs.batches.len() == 0 || m.statuses.batches.len() == 0,
        forall|k: Seq<char>| #[trigger] snapshot.contains_key(k) ==> plain_book(snapshot[k], true),
    ensures
        ({
            let after = m.replaced(snapshot, height, time, Seq::empty());
            &&& after.state is Some
            &&& after.state->0.books == snapshot
            &&& after.state->0.height == height
            &&& after.state->0.time == time
            &&& after.diffs == m.diffs
            &&& after.statuses == m.statuses
            &&& m.outbox matches Some(s) ==> after.outbox == Some(
                s.push(
                    MessageModel::BookReset {
                        snapshot: TimedModel { time, height, books: snapshot },
                        l2_snapshots: l2_model(snapshot),
                    },
                ),
            )
        }),
{
    law_replacement_is_a_replay(m, snapshot, height, time, Seq::empty());
    law_state_is_that_of_the_snapshot(snapshot, height, time, true, m.ignore_spot);
    let pairs = paired(m.diffs.batches, m.statuses.batches).0;
    assert(Seq::<PairModel>::empty() + pairs =~= Seq::<PairModel>::empty());
}

/// Records are processed one after the other. A line that cannot be parsed ends it, with the listener as
/// it was and an error that tells the stream, what was wrong, the live height and at most the first
/// hundred characters of the line. A block that does not fit ends it too, without live books. Behind the
/// last record the aggregations are told.
pub proof fn law_records_one_by_one(m: ListenerModel, records: Seq<RecordModel>, source: EventSource)
    ensures
        records.len() == 0 ==> m.processed(records, source) == (m.having_told_levels(), None::<ProcessErrorModel>),
        records.len() > 0 ==> match records[0].parsed {
            Err(e) => {
                &&& m.processed(records, source).0 == m
                &&& m.processed(records, source).1 matches Some(ProcessErrorModel::Deserialization {
                    source: named,
                    error,
                    height,
                    line,
                })
                &&& named == source
                &&& error == e
                &&& height is Some <==> m.state is Some
                &&& height is Some ==> height->0 == m.state->0.height
                &&& line.len() <= 100
                &&& line.len() < 100 ==> line.len() == records[0].line.len()
                &&& line.is_prefix_of(records[0].line)
            },
            Ok(batch) => match m.received(batch).1 {
                Some(e) => m.processed(records, source) == (
                    ListenerModel { state: None, ..m.received(batch).0 },
                    Some(ProcessErrorModel::Apply(e)),
                ),
                None => m.processed(records, source) == m.received(batch).0.processed(records.skip(1), source),
            },
        },
{
    if records.len() > 0 {
        assert(records.skip(1) =~= records.drop_first());
    }
}

/// Each stream has a file of its own: moving on in one leaves the others, and all else, where they are.
pub proof fn law_files_are_kept_apart(m: ListenerModel, at: Option<u64>)
    ensures
        m.file(EventSource::Fills) == m.fill_file,
        m.file(EventSource::OrderStatuses) == m.status_file,
        m.file(EventSource::OrderDiffs) == m.diff_file,
        m.with_file(EventSource::Fills, at) == (ListenerModel { fill_file: at, ..m }),
        m.with_file(EventSource::OrderStatuses, at) == (ListenerModel { status_file: at, ..m }),
        m.with_file(EventSource::OrderDiffs, at) == (ListenerModel { diff_file: at, ..m }),
{
}

/// What a replacement reports: that the new books are live exactly if there are live books afterwards;
/// that a block did not fit, with what is wrong with it; or that the replay ended below the height that
/// was live, with that height.
pub proof fn law_replacement_reports_what_came_of_it(
    r: ReplaceOutcome,
    m: ListenerModel,
    snapshot: BooksModel,
    height: u64,
    time: u64,
    cache: Seq<PairModel>,
)
    requires
        outcome_fits(r, m, snapshot, height, time, cache),
    ensures
        ({
            let (st, error) = replayed(
                state_from(snapshot, height, time, true, m.ignore_spot),
                cache + paired(m.diffs.batches, m.statuses.batches).0,
            );
            &&& r is Ready <==> m.replaced(snapshot, height, time, cache).state is Some
            &&& r matches ReplaceOutcome::ReplayFailed(e) ==> error == Some(e)
            &&& r matches ReplaceOutcome::BehindLive { previous } ==> {
                &&& error is None
                &&& m.state is Some
                &&& m.state->0.height == previous
                &&& st.height < previous
            }
        }),
{
}

/// Errors in words: a line that cannot be parsed with its stream, what was wrong, the height and the
/// line; a block that does not fit with what is wrong with it; and a line that is not finished when its
/// file ends with its stream and the next file.
pub proof fn law_errors_of_records_in_words(
    source: EventSource,
    error: Seq<char>,
    height: Option<u64>,
    line: Seq<char>,
    e: ApplyError,
)
    ensures
        process_error_text(ProcessErrorModel::Deserialization { source, error, height, line }) == source_text(source)
            + " deserialization error "@ + error + ", height: "@ + option_decimal(height) + ", line: "@ + quoted(line),
        process_error_text(ProcessErrorModel::Apply(e)) == apply_error_text(e),
        incomplete_line_text(source, line) == "Incomplete "@ + source_text(source) + " line when rotating to "@ + line,
{
}

} // verus!
