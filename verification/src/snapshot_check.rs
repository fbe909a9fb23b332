//! Checking the live books against a snapshot that was fetched from the node.

use vstd::prelude::*;
use std::collections::VecDeque;

use crate::listener::{cached, outcome_fits, paired, ListenerModel, OrderBookListener, ReplaceOutcome};
use crate::multi_book::Snapshots;
use crate::node_data::{pairs_view, Pair, PairModel};
use crate::order_book::BooksModel;
use crate::state::{
    applied, law_height_advances_by_one, law_replay_in_parts, law_replay_never_rolls_back, replayed, state_from,
    ApplyError, OrderBookState, StateModel, TimedSnapshots,
};
use crate::validation::{consistent, reports, validate_snapshot_consistency, SnapshotMismatch};

verus! {

/// What came of bringing stored books to the height of a snapshot.
pub enum Alignment {
    /// They are at that height; the remaining blocks are above it.
    Aligned { state: OrderBookState, rest: VecDeque<Pair> },
    /// The collected blocks do not reach that height.
    NotEnough,
    /// The books were above that height to begin with.
    Lags { stored: u64 },
}

pub enum AlignmentModel {
    Aligned { state: StateModel, rest: Seq<PairModel> },
    NotEnough,
    Lags { stored: u64 },
    Failed(ApplyError),
}

/// Stored books brought to a height by the collected blocks, one after the other, and no
/// further.
pub open spec fn aligned(st: StateModel, pairs: Seq<PairModel>, height: u64) -> AlignmentModel
    decreases pairs.len(),
{
    if st.height < height {
        if pairs.len() == 0 {
            AlignmentModel::NotEnough
        } else {
            let (next, error) = applied(st, pairs[0].0, pairs[0].1);
            match error {
                Some(e) => AlignmentModel::Failed(e),
                None => aligned(next, pairs.drop_first(), height),
            }
        }
    } else if st.height > height {
        AlignmentModel::Lags { stored: st.height }
    } else {
        AlignmentModel::Aligned { state: st, rest: pairs }
    }
}

pub open spec fn alignment_view(r: Result<Alignment, ApplyError>) -> AlignmentModel {
    match r {
        Ok(Alignment::Aligned { state, rest }) => AlignmentModel::Aligned {
            state: state@,
            rest: pairs_view(rest@),
        },
        Ok(Alignment::NotEnough) => AlignmentModel::NotEnough,
        Ok(Alignment::Lags { stored }) => AlignmentModel::Lags { stored },
        Err(e) => AlignmentModel::Failed(e),
    }
}

/// Brings stored books to the height of a snapshot.
pub fn align_state(state: OrderBookState, cache: VecDeque<Pair>, height: u64) -> (r: Result<
    Alignment,
    ApplyError,
>)
    requires
        state.wf(),
    ensures
        alignment_view(r) == aligned(state@, pairs_view(cache@), height),
        r matches Ok(Alignment::Aligned { state, rest }) ==> state.wf(),
{
    let mut now = state;
    let mut rest = cache;
    while now.height() < height
        invariant
            now.wf(),
            aligned(state@, pairs_view(cache@), height) == aligned(now@, pairs_view(rest@), height),
        decreases rest@.len(),
    {
        let ghost before = pairs_view(rest@);
        match rest.pop_front() {
            Some((order_statuses, order_diffs)) => {
                assert(pairs_view(rest@) =~= before.drop_first());
                assert(before[0] == (order_statuses@, order_diffs@));
                if let Err(e) = now.apply_updates(&order_statuses, &order_diffs) {
                    return Err(e);
                }
            },
            None => {
                return Ok(Alignment::NotEnough);
            },
        }
    }
    if now.height() > height {
        return Ok(Alignment::Lags { stored: now.height() });
    }
    Ok(Alignment::Aligned { state: now, rest })
}

/// Compares stored books with a snapshot of the same height.
pub fn check_stored(state: &OrderBookState, expected: &Snapshots, ignore_spot: bool) -> (r: (
    TimedSnapshots,
    Result<(), SnapshotMismatch>,
))
    requires
        state.wf(),
        expected.wf(),
    ensures
        r.0.wf(),
        r.0.height == state@.height,
        r.0.time == state@.time,
        r.0.snapshot@ == state@.books,
        match r.1 {
            Ok(()) => consistent(state@.books, expected@, ignore_spot),
            Err(e) => {
                &&& !consistent(state@.books, expected@, ignore_spot)
                &&& reports(e@, state@.books, expected@, ignore_spot)
            },
        },
{
    let stored = state.compute_snapshot();
    let outcome = validate_snapshot_consistency(&stored.snapshot, expected, ignore_spot);
    (stored, outcome)
}

/// The listener after its books were found to differ from a snapshot: they are replaced by the
/// snapshot with the blocks collected before and since replayed on it.
pub open spec fn recovered(
    m: ListenerModel,
    expected: BooksModel,
    height: u64,
    time: u64,
    cache: Seq<PairModel>,
) -> ListenerModel {
    ListenerModel { cache: None, ..m }.replaced(expected, height, time, cache + cached(m))
}

/// Replaces live books that differ from a snapshot. `cache` holds the blocks above the snapshot
/// that were collected before the comparison; those collected since are added to them.
pub fn replace_divergent(
    listener: &mut OrderBookListener,
    expected: Snapshots,
    height: u64,
    time: u64,
    cache: VecDeque<Pair>,
) -> (r: ReplaceOutcome)
    requires
        old(listener).wf(),
        expected.wf(),
    ensures
        final(listener).wf(),
        final(listener)@ == recovered(old(listener)@, expected@, height, time, pairs_view(cache@)),
        outcome_fits(
            r,
            old(listener)@,
            expected@,
            height,
            time,
            pairs_view(cache@) + cached(old(listener)@),
        ),
{
    let mut all = cache;
    let mut since = listener.take_cache();
    let ghost a = all@;
    let ghost b = since@;
    all.append(&mut since);
    assert(pairs_view(all@) =~= pairs_view(a) + pairs_view(b));
    listener.replace_from_snapshot(expected, height, time, all)
}

/// The listener after its books were compared with a snapshot: as it was if they agree.
pub open spec fn validated(
    m: ListenerModel,
    stored: StateModel,
    expected: BooksModel,
    cache: Seq<PairModel>,
    ignore_spot: bool,
) -> ListenerModel {
    if consistent(stored.books, expected, ignore_spot) {
        m
    } else {
        recovered(m, expected, stored.height, stored.time, cache)
    }
}

/// Compares stored books with a snapshot of the same height and, if they differ, replaces the
/// live ones. Says what came of that, or nothing if they agree.
pub fn validate_or_replace_snapshot(
    listener: &mut OrderBookListener,
    state: OrderBookState,
    expected_snapshot: Snapshots,
    cache: VecDeque<Pair>,
    ignore_spot: bool,
) -> (r: Option<(SnapshotMismatch, ReplaceOutcome)>)
    requires
        old(listener).wf(),
        state.wf(),
        expected_snapshot.wf(),
    ensures
        final(listener).wf(),
        final(listener)@ == validated(
            old(listener)@,
            state@,
            expected_snapshot@,
            pairs_view(cache@),
            ignore_spot,
        ),
        match r {
            None => consistent(state@.books, expected_snapshot@, ignore_spot),
            Some((e, outcome)) => {
                &&& !consistent(state@.books, expected_snapshot@, ignore_spot)
                &&& reports(e@, state@.books, expected_snapshot@, ignore_spot)
                &&& outcome_fits(
                    outcome,
                    old(listener)@,
                    expected_snapshot@,
                    state@.height,
                    state@.time,
                    pairs_view(cache@) + cached(old(listener)@),
                )
            },
        },
{
    let (stored_snapshot, outcome) = check_stored(&state, &expected_snapshot, ignore_spot);
    match outcome {
        Ok(()) => None,
        Err(e) => {
            let replaced = replace_divergent(
                listener,
                expected_snapshot,
                stored_snapshot.height,
                stored_snapshot.time,
                cache,
            );
            Some((e, replaced))
        },
    }
}

/// What came of a fetched snapshot.
pub enum FetchOutcome {
    /// There were no books; the snapshot was taken as the first ones.
    Initialized(ReplaceOutcome),
    /// The books could not be brought to the height of the snapshot: the collected blocks do not
    /// reach it.
    NotEnough,
    /// The books could not be brought to the height of the snapshot: they were above it.
    Lags { stored: u64 },
    /// The books agree with the snapshot.
    Matched,
    /// The books differed from the snapshot and were replaced.
    Replaced(SnapshotMismatch, ReplaceOutcome),
}

/// The listener after a snapshot arrived, and whether that is an error. `state` are the books at
/// the time when the snapshot was asked for.
pub open spec fn fetched(
    m: ListenerModel,
    state: Option<StateModel>,
    expected: BooksModel,
    height: u64,
    ignore_spot: bool,
) -> (ListenerModel, Option<ApplyError>) {
    match state {
        None => (m.replaced(expected, height, 0, Seq::empty()), None),
        Some(st) => {
            let drained = ListenerModel {
                cache: match m.cache {
                    Some(c) => Some(Seq::empty()),
                    None => None,
                },
                ..m
            };
            match aligned(st, cached(m), height) {
                AlignmentModel::Failed(e) => (drained, Some(e)),
                AlignmentModel::NotEnough => (drained, None),
                AlignmentModel::Lags { stored } => (drained, None),
                AlignmentModel::Aligned { state: at, rest } => (
                    validated(drained, at, expected, rest, ignore_spot),
                    None,
                ),
            }
        },
    }
}

/// Stored books differ from a snapshot: how they do, the snapshot, the height and the time of the
/// stored books, and the collected blocks above that height.
pub struct Divergence {
    pub mismatch: SnapshotMismatch,
    pub expected: Snapshots,
    pub height: u64,
    pub time: u64,
    pub rest: VecDeque<Pair>,
}

/// What came of comparing stored books with a snapshot.
pub enum Comparison {
    /// The collected blocks do not reach the height of the snapshot.
    NotEnough,
    /// The books were above that height to begin with.
    Lags { stored: u64 },
    /// The books agree with the snapshot.
    Matched,
    /// The books differ from the snapshot.
    Differs(Divergence),
}

/// Brings stored books to the height of a snapshot and compares them with it. The live books are
/// not needed for that and can change meanwhile.
pub fn compare_with_snapshot(
    state: OrderBookState,
    cache: VecDeque<Pair>,
    expected_snapshot: Snapshots,
    height: u64,
    ignore_spot: bool,
) -> (r: Result<Comparison, ApplyError>)
    requires
        state.wf(),
        expected_snapshot.wf(),
    ensures
        ({
            let reached = aligned(state@, pairs_view(cache@), height);
            match r {
                Err(e) => reached == AlignmentModel::Failed(e),
                Ok(Comparison::NotEnough) => reached is NotEnough,
                Ok(Comparison::Lags { stored }) => reached == (AlignmentModel::Lags { stored }),
                Ok(Comparison::Matched) => {
                    &&& reached matches AlignmentModel::Aligned { state: at, rest }
                    &&& consistent(at.books, expected_snapshot@, ignore_spot)
                },
                Ok(Comparison::Differs(d)) => {
                    &&& reached matches AlignmentModel::Aligned { state: at, rest }
                    &&& !consistent(at.books, expected_snapshot@, ignore_spot)
                    &&& reports(d.mismatch@, at.books, expected_snapshot@, ignore_spot)
                    &&& d.expected == expected_snapshot
                    &&& d.height == at.height
                    &&& d.time == at.time
                    &&& pairs_view(d.rest@) == rest
                },
            }
        }),
{
    match align_state(state, cache, height) {
        Err(e) => Err(e),
        Ok(Alignment::NotEnough) => Ok(Comparison::NotEnough),
        Ok(Alignment::Lags { stored }) => Ok(Comparison::Lags { stored }),
        Ok(Alignment::Aligned { state, rest }) => {
            let (stored, outcome) = check_stored(&state, &expected_snapshot, ignore_spot);
            match outcome {
                Ok(()) => Ok(Comparison::Matched),
                Err(mismatch) => Ok(
                    Comparison::Differs(
                        Divergence {
                            mismatch,
                            expected: expected_snapshot,
                            height: stored.height,
                            time: stored.time,
                            rest,
                        },
                    ),
                ),
            }
        },
    }
}

/// Draws the consequence of a comparison: live books that differ are replaced, with every block
/// collected since replayed as well.
pub fn conclude_comparison(listener: &mut OrderBookListener, comparison: Comparison) -> (r: FetchOutcome)
    requires
        old(listener).wf(),
        comparison matches Comparison::Differs(d) ==> d.expected.wf(),
    ensures
        final(listener).wf(),
        match comparison {
            Comparison::NotEnough => r is NotEnough && final(listener)@ == old(listener)@,
            Comparison::Lags { stored } => r == (FetchOutcome::Lags { stored }) && final(listener)@
                == old(listener)@,
            Comparison::Matched => r is Matched && final(listener)@ == old(listener)@,
            Comparison::Differs(d) => {
                &&& final(listener)@ == recovered(
                    old(listener)@,
                    d.expected@,
                    d.height,
                    d.time,
                    pairs_view(d.rest@),
                )
                &&& r matches FetchOutcome::Replaced(mismatch, outcome)
                &&& mismatch == d.mismatch
                &&& outcome_fits(
                    outcome,
                    old(listener)@,
                    d.expected@,
                    d.height,
                    d.time,
                    pairs_view(d.rest@) + cached(old(listener)@),
                )
            },
        },
{
    match comparison {
        Comparison::NotEnough => FetchOutcome::NotEnough,
        Comparison::Lags { stored } => FetchOutcome::Lags { stored },
        Comparison::Matched => FetchOutcome::Matched,
        Comparison::Differs(d) => {
            let outcome = replace_divergent(listener, d.expected, d.height, d.time, d.rest);
            FetchOutcome::Replaced(d.mismatch, outcome)
        },
    }
}

/// Starts a fetch: the pairs applied from now on are collected, and the books as they are now
/// are kept for the comparison.
pub fn begin_snapshot_fetch(listener: &mut OrderBookListener) -> (r: Option<OrderBookState>)
    requires
        old(listener).wf(),
    ensures
        final(listener).wf(),
        final(listener)@ == (ListenerModel { cache: Some(Seq::empty()), ..old(listener)@ }),
        match r {
            Some(st) => st.wf() && old(listener)@.state == Some(st@),
            None => old(listener)@.state is None,
        },
{
    listener.begin_caching();
    listener.clone_state()
}

/// What is to be done about a snapshot that was fetched.
pub enum SnapshotStep {
    /// Nothing more: there were no books, and the snapshot was taken as the first ones.
    Initialized(ReplaceOutcome),
    /// The books as they were when it was asked for are to be compared with it, with the blocks
    /// collected since.
    Compare { state: OrderBookState, cache: VecDeque<Pair>, expected: Snapshots },
}

/// Takes in a snapshot that was fetched. Without books at the time when it was asked for it becomes
/// the first ones; else what was collected since is handed out for the comparison.
pub fn receive_snapshot(
    listener: &mut OrderBookListener,
    state: Option<OrderBookState>,
    expected_snapshot: Snapshots,
    height: u64,
) -> (r: SnapshotStep)
    requires
        old(listener).wf(),
        expected_snapshot.wf(),
    ensures
        final(listener).wf(),
        match r {
            SnapshotStep::Initialized(outcome) => {
                &&& state is None
                &&& final(listener)@ == old(listener)@.replaced(expected_snapshot@, height, 0, Seq::empty())
                &&& outcome_fits(outcome, old(listener)@, expected_snapshot@, height, 0, Seq::empty())
            },
            SnapshotStep::Compare { state: stored, cache, expected } => {
                &&& state == Some(stored)
                &&& pairs_view(cache@) == cached(old(listener)@)
                &&& expected == expected_snapshot
                &&& final(listener)@ == (ListenerModel {
                    cache: match old(listener)@.cache {
                        Some(c) => Some(Seq::empty()),
                        None => None,
                    },
                    ..old(listener)@
                })
            },
        },
{
    match state {
        Some(state) => {
            let cache = listener.drain_cache();
            SnapshotStep::Compare { state, cache, expected: expected_snapshot }
        },
        None => SnapshotStep::Initialized(listener.init_from_snapshot(expected_snapshot, height)),
    }
}

/// Makes use of a snapshot that was fetched: it becomes the first books, or the books are
/// compared with it and replaced if they differ. A snapshot that cannot be compared is left for
/// the next one.
pub fn fetch_and_validate_snapshot(
    listener: &mut OrderBookListener,
    state: Option<OrderBookState>,
    expected_snapshot: Snapshots,
    height: u64,
    ignore_spot: bool,
) -> (r: Result<FetchOutcome, ApplyError>)
    requires
        old(listener).wf(),
        state matches Some(st) ==> st.wf(),
        expected_snapshot.wf(),
    ensures
        final(listener).wf(),
        ({
            let st = match state {
                Some(st) => Some(st@),
                None => None,
            };
            let (after, error) = fetched(old(listener)@, st, expected_snapshot@, height, ignore_spot);
            &&& final(listener)@ == after
            &&& match r {
                Ok(_) => error is None,
                Err(e) => error == Some(e),
            }
        }),
        match r {
            Ok(FetchOutcome::Initialized(outcome)) => {
                &&& state is None
                &&& outcome_fits(outcome, old(listener)@, expected_snapshot@, height, 0, Seq::empty())
            },
            Ok(FetchOutcome::NotEnough) => {
                &&& state is Some
                &&& aligned(state->0@, cached(old(listener)@), height) is NotEnough
            },
            Ok(FetchOutcome::Lags { stored }) => {
                &&& state is Some
                &&& aligned(state->0@, cached(old(listener)@), height) == (AlignmentModel::Lags { stored })
            },
            Ok(FetchOutcome::Matched) => {
                &&& state is Some
                &&& aligned(state->0@, cached(old(listener)@), height) matches AlignmentModel::Aligned {
                    state: at,
                    rest,
                }
                &&& consistent(at.books, expected_snapshot@, ignore_spot)
            },
            Ok(FetchOutcome::Replaced(e, outcome)) => {
                &&& state is Some
                &&& aligned(state->0@, cached(old(listener)@), height) matches AlignmentModel::Aligned {
                    state: at,
                    rest,
                }
                &&& !consistent(at.books, expected_snapshot@, ignore_spot)
                &&& reports(e@, at.books, expected_snapshot@, ignore_spot)
                &&& outcome_fits(outcome, old(listener)@, expected_snapshot@, at.height, at.time, rest)
            },
            Err(e) => state is Some,
        },
{
    match receive_snapshot(listener, state, expected_snapshot, height) {
        SnapshotStep::Compare { state, cache, expected } => {
            let ghost drained = listener@;
            match compare_with_snapshot(state, cache, expected, height, ignore_spot) {
                Err(e) => Err(e),
                Ok(comparison) => {
                    proof {
                        if let Comparison::Differs(d) = &comparison {
                            assert(pairs_view(d.rest@) + cached(drained) =~= pairs_view(d.rest@));
                        }
                    }
                    Ok(conclude_comparison(listener, comparison))
                },
            }
        },
        SnapshotStep::Initialized(outcome) => Ok(FetchOutcome::Initialized(outcome)),
    }
}

/// What a comparison is made of: if stored books can be brought to a height, they are what
/// replaying some of the collected blocks gives, at exactly that height, and the others are
/// left over in order.
pub proof fn law_alignment_replays_a_prefix(st: StateModel, pairs: Seq<PairModel>, height: u64)
    ensures
        aligned(st, pairs, height) matches AlignmentModel::Aligned { state, rest } ==> {
            &&& state.height == height
            &&& rest.len() <= pairs.len()
            &&& rest == pairs.skip(pairs.len() - rest.len())
            &&& replayed(st, pairs.take(pairs.len() - rest.len())) == (state, None::<ApplyError>)
        },
    decreases pairs.len(),
{
    if st.height < height && pairs.len() > 0 {
        let (next, error) = applied(st, pairs[0].0, pairs[0].1);
        if error is None {
            let tail = pairs.drop_first();
            law_alignment_replays_a_prefix(next, tail, height);
            if let AlignmentModel::Aligned { state, rest } = aligned(st, pairs, height) {
                let n = pairs.len() - rest.len();
                assert(tail.skip(tail.len() - rest.len()) =~= pairs.skip(n));
                let p = pairs.take(n);
                assert(p[0] == pairs[0]);
                assert(p.drop_first() =~= tail.take(tail.len() - rest.len()));
            }
        }
    } else if st.height == height {
        assert(pairs.skip(0) =~= pairs);
        assert(pairs.take(0) =~= Seq::<PairModel>::empty());
    }
}

/// Books that agree with a snapshot stay as they are, with every block that was applied since.
pub proof fn law_matching_snapshot_changes_nothing(
    m: ListenerModel,
    stored: StateModel,
    expected: BooksModel,
    cache: Seq<PairModel>,
    ignore_spot: bool,
)
    requires
        consistent(stored.books, expected, ignore_spot),
    ensures
        validated(m, stored, expected, cache, ignore_spot) == m,
{
}

/// Books that differ from a snapshot are discarded: afterwards either there are none, or they
/// are the snapshot's with the collected blocks and the waiting pairs replayed on it, at no
/// lower height than before.
pub proof fn law_mismatch_discards_the_old_books(
    m: ListenerModel,
    stored: StateModel,
    expected: BooksModel,
    cache: Seq<PairModel>,
    ignore_spot: bool,
)
    requires
        !consistent(stored.books, expected, ignore_spot),
    ensures
        ({
            let after = validated(m, stored, expected, cache, ignore_spot);
            let (st, error) = m.rebuilt(expected, stored.height, stored.time, cache + cached(m));
            &&& after.cache is None
            &&& after.state is Some <==> error is None && (m.state is Some ==> st.height >= m.state->0.height)
            &&& after.state is Some ==> {
                &&& after.state->0.books == st.books
                &&& after.state->0.height == st.height
                &&& after.state->0.time == st.time
            }
        }),
{
}

proof fn lemma_same_heights(a: StateModel, b: StateModel, pairs: Seq<PairModel>)
    requires
        a.height == b.height,
        replayed(a, pairs).1 is None,
        replayed(b, pairs).1 is None,
    ensures
        replayed(a, pairs).0.height == replayed(b, pairs).0.height,
    decreases pairs.len(),
{
    if pairs.len() > 0 {
        lemma_same_heights(
            applied(a, pairs[0].0, pairs[0].1).0,
            applied(b, pairs[0].0, pairs[0].1).0,
            pairs.drop_first(),
        );
    }
}

/// A replacement can always catch up: if the blocks collected before and during a comparison are
/// what led to the live books, then books rebuilt from the snapshot, if every block fits, are no
/// lower than the live ones.
pub proof fn law_rebuild_catches_up(
    m: ListenerModel,
    start: StateModel,
    drained: Seq<PairModel>,
    expected: BooksModel,
    height: u64,
    ignore_spot: bool,
)
    requires
        m.state is Some,
        replayed(start, drained + cached(m)).1 is None,
        replayed(start, drained + cached(m)).0.height == m.state->0.height,
    ensures
        aligned(start, drained, height) matches AlignmentModel::Aligned { state, rest } ==> {
            let (st, error) = m.rebuilt(expected, state.height, state.time, rest + cached(m));
            error is None ==> {
                &&& st.height >= m.state->0.height
                &&& validated(m, state, expected, rest, ignore_spot).state is Some
            }
        },
{
    if let AlignmentModel::Aligned { state, rest } = aligned(start, drained, height) {
        law_alignment_replays_a_prefix(start, drained, height);
        let later = cached(m);
        let prefix = drained.take(drained.len() - rest.len());
        assert(drained + later =~= prefix + (rest + later));
        law_replay_in_parts(start, prefix, rest + later);
        let fresh = state_from(expected, state.height, state.time, true, m.ignore_spot);
        let waiting = paired(m.diffs.batches, m.statuses.batches).0;
        law_replay_in_parts(fresh, rest + later, waiting);
        let (st, error) = m.rebuilt(expected, state.height, state.time, rest + later);
        if error is None {
            lemma_same_heights(state, fresh, rest + later);
            law_replay_never_rolls_back(replayed(fresh, rest + later).0, waiting);
        }
    }
}

/// Only a collected block that does not fit is an error: a snapshot that differs, lags or is out
/// of reach is not, nor is a replacement that fails.
pub proof fn law_a_mismatch_is_no_error(
    m: ListenerModel,
    state: Option<StateModel>,
    expected: BooksModel,
    height: u64,
    ignore_spot: bool,
)
    ensures
        fetched(m, state, expected, height, ignore_spot).1 is Some ==> state is Some && aligned(
            state->0,
            cached(m),
            height,
        ) is Failed,
{
}

/// When stored books cannot be brought to a height: they lag exactly if they were above it to begin with;
/// there is not enough only if all collected blocks fit and do not reach it; and they fail only if a
/// collected block does not fit, with what is wrong with it, before the height is reached.
pub proof fn law_when_books_cannot_be_compared(st: StateModel, pairs: Seq<PairModel>, height: u64)
    ensures
        aligned(st, pairs, height) is Lags <==> st.height > height,
        match aligned(st, pairs, height) {
            AlignmentModel::Lags { stored } => stored == st.height,
            AlignmentModel::NotEnough => {
                &&& replayed(st, pairs).1 is None
                &&& replayed(st, pairs).0.height < height
            },
            AlignmentModel::Failed(e) => exists|n: int|
                0 <= n < pairs.len() && (#[trigger] replayed(st, pairs.take(n))).1 is None && replayed(
                    st,
                    pairs.take(n),
                ).0.height < height && applied(replayed(st, pairs.take(n)).0, pairs[n].0, pairs[n].1).1 == Some(e),
            AlignmentModel::Aligned { .. } => true,
        },
    decreases pairs.len(),
{
    if st.height < height && pairs.len() > 0 {
        let (next, error) = applied(st, pairs[0].0, pairs[0].1);
        law_height_advances_by_one(st, pairs[0].0, pairs[0].1);
        let tail = pairs.drop_first();
        if error is None {
            law_when_books_cannot_be_compared(next, tail, height);
            if let AlignmentModel::Failed(e) = aligned(st, pairs, height) {
                let n = choose|n: int|
                    0 <= n < tail.len() && (#[trigger] replayed(next, tail.take(n))).1 is None && replayed(
                        next,
                        tail.take(n),
                    ).0.height < height && applied(replayed(next, tail.take(n)).0, tail[n].0, tail[n].1).1 == Some(e);
                let p = pairs.take(n + 1);
                assert(p.drop_first() =~= tail.take(n));
                assert(p[0] == pairs[0]);
                assert(replayed(st, p) == replayed(next, tail.take(n)));
                assert(pairs[n + 1] == tail[n]);
            }
        } else {
            assert(pairs.take(0) =~= Seq::<PairModel>::empty());
            assert(replayed(st, pairs.take(0)) == (st, None::<ApplyError>));
        }
    }
}

/// What becomes of the live books when a snapshot arrives. Without books when it was asked for it becomes
/// the first ones. With books that cannot be brought to its height they stay as they are, and so they do
/// if those brought to its height agree with it, order by order; either way the blocks collected so far
/// are let go. Books that differ are rebuilt from the snapshot, at the height and the time of the stored
/// ones, with the collected blocks above that height.
pub proof fn law_what_a_snapshot_leads_to(
    m: ListenerModel,
    state: Option<StateModel>,
    expected: BooksModel,
    height: u64,
    ignore_spot: bool,
)
    ensures
        ({
            let (after, error) = fetched(m, state, expected, height, ignore_spot);
            let kept = ListenerModel {
                cache: if m.cache is Some {
                    Some(Seq::empty())
                } else {
                    None
                },
                ..m
            };
            let collected = if m.cache is Some {
                m.cache->0
            } else {
                Seq::empty()
            };
            match state {
                None => after == m.replaced(expected, height, 0, Seq::empty()) && error is None,
                Some(st) => match aligned(st, collected, height) {
                    AlignmentModel::Aligned { state: at, rest } => {
                        &&& error is None
                        &&& consistent(at.books, expected, ignore_spot) ==> after == kept
                        &&& !consistent(at.books, expected, ignore_spot) ==> after == ListenerModel {
                            cache: None,
                            ..m
                        }.replaced(expected, at.height, at.time, rest)
                    },
                    AlignmentModel::Failed(e) => after == kept && error == Some(e),
                    _ => after == kept && error is None,
                },
            }
        }),
{
    if let Some(st) = state {
        if let AlignmentModel::Aligned { state: at, rest } = aligned(st, cached(m), height) {
            assert(rest + Seq::<PairModel>::empty() =~= rest);
        }
    }
}

/// Books that differ from a snapshot are replaced by it at the height and the time of the stored ones,
/// with the blocks that were collected before the comparison and then those collected since.
pub proof fn law_divergent_books_are_rebuilt(
    m: ListenerModel,
    stored: StateModel,
    expected: BooksModel,
    before: Seq<PairModel>,
    since: Seq<PairModel>,
    ignore_spot: bool,
)
    requires
        !consistent(stored.books, expected, ignore_spot),
        m.cache == Some(since) || (m.cache is None && since.len() == 0),
    ensures
        validated(m, stored, expected, before, ignore_spot) == recovered(
            m,
            expected,
            stored.height,
            stored.time,
            before,
        ),
        validated(m, stored, expected, before, ignore_spot) == (ListenerModel { cache: None, ..m }).replaced(
            expected,
            stored.height,
            stored.time,
            before + since,
        ),
{
    assert(cached(m) =~= since);
}

} // verus!
