//! What the listening task does next, whatever happens.

use vstd::prelude::*;
use vstd::string::*;

use crate::node_data::EventSource;

verus! {

/// The program that writes the files.
pub const HL_NODE: &'static str = "hl-node";

/// How long the node may write nothing, in seconds.
pub const IDLE_SECONDS: u64 = 5;

/// A change of a file: what kind of change it was, below which streams' directories the file
/// lies, and whether it is a regular file.
#[derive(Debug, Clone, Copy, PartialEq, Eq, Structural)]
pub struct FileChange {
    pub created: bool,
    pub modified: bool,
    pub in_order_statuses: bool,
    pub in_fills: bool,
    pub in_order_diffs: bool,
    pub is_file: bool,
}

/// Something that the listening task waits for.
pub enum ListenEvent {
    /// A file was changed.
    Changed(FileChange),
    /// The watcher reported an error.
    WatcherFailed(String),
    /// The watcher is gone.
    WatcherClosed,
    /// A change of a file of a stream could not be processed.
    UpdateFailed(EventSource, String),
    /// A snapshot fetch ended.
    Fetched(Result<(), String>),
    /// The fetching task is gone.
    FetchDropped,
    /// It is time for a snapshot.
    Tick,
    /// No file was changed for [`IDLE_SECONDS`].
    Idle,
}

pub enum ListenEventModel {
    Changed(FileChange),
    WatcherFailed(Seq<char>),
    WatcherClosed,
    UpdateFailed(EventSource, Seq<char>),
    Fetched(Result<(), Seq<char>>),
    FetchDropped,
    Tick,
    Idle,
}

impl View for ListenEvent {
    type V = ListenEventModel;

    open spec fn view(&self) -> ListenEventModel {
        match *self {
            ListenEvent::Changed(c) => ListenEventModel::Changed(c),
            ListenEvent::WatcherFailed(e) => ListenEventModel::WatcherFailed(e@),
            ListenEvent::WatcherClosed => ListenEventModel::WatcherClosed,
            ListenEvent::UpdateFailed(source, e) => ListenEventModel::UpdateFailed(source, e@),
            ListenEvent::Fetched(r) => ListenEventModel::Fetched(
                match r {
                    Ok(()) => Ok(()),
                    Err(e) => Err(e@),
                },
            ),
            ListenEvent::FetchDropped => ListenEventModel::FetchDropped,
            ListenEvent::Tick => ListenEventModel::Tick,
            ListenEvent::Idle => ListenEventModel::Idle,
        }
    }
}

/// What the listening task does.
#[derive(Debug)]
pub enum ListenAction {
    /// Wait for the next event.
    Wait,
    /// Process a change of a stream's file.
    Update { source: EventSource, created: bool },
    /// Fetch a snapshot.
    Fetch,
    /// End with an error.
    Fail(String),
}

pub enum ListenActionModel {
    Wait,
    Update { source: EventSource, created: bool },
    Fetch,
    Fail(Seq<char>),
}

impl View for ListenAction {
    type V = ListenActionModel;

    open spec fn view(&self) -> ListenActionModel {
        match *self {
            ListenAction::Wait => ListenActionModel::Wait,
            ListenAction::Update { source, created } => ListenActionModel::Update { source, created },
            ListenAction::Fetch => ListenActionModel::Fetch,
            ListenAction::Fail(e) => ListenActionModel::Fail(e@),
        }
    }
}

/// The stream that a changed file belongs to. Files that were neither created nor modified,
/// and what is no regular file, belong to none.
pub open spec fn changed_stream(c: FileChange) -> Option<EventSource> {
    if !(c.created || c.modified) || !c.is_file {
        None
    } else if c.in_order_statuses {
        Some(EventSource::OrderStatuses)
    } else if c.in_fills {
        Some(EventSource::Fills)
    } else if c.in_order_diffs {
        Some(EventSource::OrderDiffs)
    } else {
        None
    }
}

/// How the error of a stream's file begins.
pub open spec fn update_error_start(source: EventSource) -> Seq<char> {
    match source {
        EventSource::OrderStatuses => "Order status processing error: "@,
        EventSource::Fills => "Fill update processing error: "@,
        EventSource::OrderDiffs => "Book diff processing error: "@,
    }
}

/// Whether a fetch is under way after an event, and what is done about the event.
pub open spec fn listened(fetching: bool, event: ListenEventModel) -> (bool, ListenActionModel) {
    match event {
        ListenEventModel::Changed(c) => (
            fetching,
            match changed_stream(c) {
                Some(source) => ListenActionModel::Update { source, created: c.created },
                None => ListenActionModel::Wait,
            },
        ),
        ListenEventModel::WatcherFailed(e) => (fetching, ListenActionModel::Fail("Watcher error: "@ + e)),
        ListenEventModel::WatcherClosed => (fetching, ListenActionModel::Fail("Channel closed."@)),
        ListenEventModel::UpdateFailed(source, e) => (
            fetching,
            ListenActionModel::Fail(update_error_start(source) + e),
        ),
        ListenEventModel::Fetched(Ok(())) => (false, ListenActionModel::Wait),
        ListenEventModel::Fetched(Err(e)) => (
            false,
            ListenActionModel::Fail("Abci state reading error: "@ + e),
        ),
        ListenEventModel::FetchDropped => (
            false,
            ListenActionModel::Fail("Snapshot fetch task sender dropped"@),
        ),
        ListenEventModel::Tick => (
            true,
            if fetching {
                ListenActionModel::Wait
            } else {
                ListenActionModel::Fetch
            },
        ),
        ListenEventModel::Idle => (
            fetching,
            ListenActionModel::Fail("Stream has fallen behind ("@ + HL_NODE@ + " failed?)"@),
        ),
    }
}

/// The decisions of the listening task.
pub struct ListenLoop {
    snapshot_fetch_in_progress: bool,
}

fn joined(start: &str, rest: &str) -> (r: String)
    ensures
        r@ == start@ + rest@,
{
    let mut s = start.to_owned();
    s.append(rest);
    s
}

impl ListenLoop {
    /// Whether a fetch is under way.
    pub closed spec fn fetching(&self) -> bool {
        self.snapshot_fetch_in_progress
    }

    pub fn new() -> (r: Self)
        ensures
            !r.fetching(),
    {
        ListenLoop { snapshot_fetch_in_progress: false }
    }

    /// What is done about an event.
    pub fn step(&mut self, event: ListenEvent) -> (r: ListenAction)
        ensures
            (final(self).fetching(), r@) == listened(old(self).fetching(), event@),
    {
        match event {
            ListenEvent::Changed(c) => match change_source(c) {
                Some(source) => ListenAction::Update { source, created: c.created },
                None => ListenAction::Wait,
            },
            ListenEvent::WatcherFailed(e) => ListenAction::Fail(joined("Watcher error: ", e.as_str())),
            ListenEvent::WatcherClosed => ListenAction::Fail("Channel closed.".to_owned()),
            ListenEvent::UpdateFailed(source, e) => {
                let start = match source {
                    EventSource::OrderStatuses => "Order status processing error: ",
                    EventSource::Fills => "Fill update processing error: ",
                    EventSource::OrderDiffs => "Book diff processing error: ",
                };
                ListenAction::Fail(joined(start, e.as_str()))
            },
            ListenEvent::Fetched(outcome) => {
                self.snapshot_fetch_in_progress = false;
                match outcome {
                    Ok(()) => ListenAction::Wait,
                    Err(e) => ListenAction::Fail(joined("Abci state reading error: ", e.as_str())),
                }
            },
            ListenEvent::FetchDropped => {
                self.snapshot_fetch_in_progress = false;
                ListenAction::Fail("Snapshot fetch task sender dropped".to_owned())
            },
            ListenEvent::Tick => {
                if self.snapshot_fetch_in_progress {
                    ListenAction::Wait
                } else {
                    self.snapshot_fetch_in_progress = true;
                    ListenAction::Fetch
                }
            },
            ListenEvent::Idle => {
                let mut s = joined("Stream has fallen behind (", HL_NODE);
                s.append(" failed?)");
                ListenAction::Fail(s)
            },
        }
    }
}

/// The stream that a changed file belongs to.
pub fn change_source(c: FileChange) -> (r: Option<EventSource>)
    ensures
        r == changed_stream(c),
{
    if !(c.created || c.modified) || !c.is_file {
        None
    } else if c.in_order_statuses {
        Some(EventSource::OrderStatuses)
    } else if c.in_fills {
        Some(EventSource::Fills)
    } else if c.in_order_diffs {
        Some(EventSource::OrderDiffs)
    } else {
        None
    }
}

/// Whether a fetch is under way after several events.
pub open spec fn fetching_after(fetching: bool, events: Seq<ListenEventModel>) -> bool
    decreases events.len(),
{
    if events.len() == 0 {
        fetching
    } else {
        listened(fetching_after(fetching, events.drop_last()), events.last()).0
    }
}

/// How many fetches were started.
pub open spec fn fetches_started(fetching: bool, events: Seq<ListenEventModel>) -> nat
    decreases events.len(),
{
    if events.len() == 0 {
        0
    } else {
        fetches_started(fetching, events.drop_last()) + if listened(
            fetching_after(fetching, events.drop_last()),
            events.last(),
        ).1 is Fetch {
            1nat
        } else {
            0
        }
    }
}

/// How many fetches ended.
pub open spec fn fetches_ended(events: Seq<ListenEventModel>) -> nat
    decreases events.len(),
{
    if events.len() == 0 {
        0
    } else {
        fetches_ended(events.drop_last()) + if events.last() is Fetched || events.last() is FetchDropped {
            1nat
        } else {
            0
        }
    }
}

/// At most one fetch is under way at a time: whatever happens, no more than one fetch was
/// started beyond those that ended.
pub proof fn law_one_fetch_at_a_time(events: Seq<ListenEventModel>)
    ensures
        fetches_started(false, events) + (if fetching_after(false, events) {
            0nat
        } else {
            1
        }) <= fetches_ended(events) + 1,
    decreases events.len(),
{
    if events.len() > 0 {
        law_one_fetch_at_a_time(events.drop_last());
    }
}

/// A silent node always ends the task, with or without live books and whatever happened before.
pub proof fn law_silence_ends_the_task(events: Seq<ListenEventModel>)
    ensures
        listened(fetching_after(false, events), ListenEventModel::Idle).1 == ListenActionModel::Fail(
            "Stream has fallen behind ("@ + HL_NODE@ + " failed?)"@,
        ),
{
}

/// After a fetch that ended well the next tick fetches again.
pub proof fn law_fetching_goes_on(fetching: bool)
    ensures
        ({
            let (after, action) = listened(fetching, ListenEventModel::Fetched(Ok(())));
            &&& action is Wait
            &&& listened(after, ListenEventModel::Tick) == (true, ListenActionModel::Fetch)
        }),
{
}

/// What each event leads to. A created or modified regular file below a stream's directory is processed
/// as a file of that stream; nothing else about files does anything. Every failure ends the task with
/// what went wrong, a tick starts a fetch unless one is under way, and the end of a fetch, well or not,
/// makes room for the next.
pub proof fn law_what_events_lead_to(fetching: bool, c: FileChange, source: EventSource, e: Seq<char>)
    ensures
        ({
            let relevant = c.is_file && (c.created || c.modified);
            let (after, action) = listened(fetching, ListenEventModel::Changed(c));
            &&& after == fetching
            &&& action is Update <==> relevant && (c.in_order_statuses || c.in_fills || c.in_order_diffs)
            &&& !(action is Update) ==> action is Wait
            &&& relevant && c.in_order_statuses ==> action == (ListenActionModel::Update {
                source: EventSource::OrderStatuses,
                created: c.created,
            })
            &&& relevant && !c.in_order_statuses && c.in_fills ==> action == (ListenActionModel::Update {
                source: EventSource::Fills,
                created: c.created,
            })
            &&& relevant && !c.in_order_statuses && !c.in_fills && c.in_order_diffs ==> action == (
            ListenActionModel::Update { source: EventSource::OrderDiffs, created: c.created })
        }),
        listened(fetching, ListenEventModel::WatcherFailed(e)) == (
            fetching,
            ListenActionModel::Fail("Watcher error: "@ + e),
        ),
        listened(fetching, ListenEventModel::WatcherClosed) == (fetching, ListenActionModel::Fail("Channel closed."@)),
        listened(fetching, ListenEventModel::UpdateFailed(EventSource::OrderStatuses, e)) == (
            fetching,
            ListenActionModel::Fail("Order status processing error: "@ + e),
        ),
        listened(fetching, ListenEventModel::UpdateFailed(EventSource::Fills, e)) == (
            fetching,
            ListenActionModel::Fail("Fill update processing error: "@ + e),
        ),
        listened(fetching, ListenEventModel::UpdateFailed(EventSource::OrderDiffs, e)) == (
            fetching,
            ListenActionModel::Fail("Book diff processing error: "@ + e),
        ),
        listened(fetching, ListenEventModel::Fetched(Err(e))) == (
            false,
            ListenActionModel::Fail("Abci state reading error: "@ + e),
        ),
        listened(fetching, ListenEventModel::Fetched(Ok(()))) == (false, ListenActionModel::Wait),
        listened(fetching, ListenEventModel::FetchDropped) == (
            false,
            ListenActionModel::Fail("Snapshot fetch task sender dropped"@),
        ),
        listened(fetching, ListenEventModel::Tick).0,
        listened(fetching, ListenEventModel::Tick).1 is Fetch <==> !fetching,
        listened(fetching, ListenEventModel::Tick).1 is Wait <==> fetching,
{
}

} // verus!
