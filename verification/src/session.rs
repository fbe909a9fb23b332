//! One connection: what it has subscribed to, and what it is told.

use vstd::prelude::*;
use vstd::string::*;

use crate::book_updates::{book_updates, coin_to_book_updates, updates_view};
use crate::coin::symbols;
use crate::coin_map::CoinMap;
use crate::listener::{InternalMessage, MessageModel, OrderBookListener};
use crate::responses::{
    immediate_snapshot, levels_response, live_books, new_universe, reset_response, response_view, responses_view,
    trades_response, universe_of, updates_response, ws_data_from_book_updates, ws_data_from_reset,
    ws_data_from_snapshot, ws_data_from_trades, ResponseModel, ServerResponse,
};
use crate::state::TimedModel;
use crate::subscription::{
    law_unsubscribe_takes_out_one, law_unsubscribe_undoes_subscribe, subscriptions_view, without, ClientMessage,
    ClientMessageModel, Subscription, SubscriptionManager, SubscriptionModel,
};
use crate::trades::{coin_to_trades, trade_lists_view, trades_by_coin};

verus! {

/// A connection by its contents: its subscriptions, and the coins it can ask for.
pub struct SessionModel {
    pub subscriptions: Seq<SubscriptionModel>,
    pub universe: Set<Seq<char>>,
    pub ignore_spot: bool,
}

impl SessionModel {
    /// No subscription occurs twice, and each is one that is offered.
    pub open spec fn wf(self) -> bool {
        &&& self.subscriptions.no_duplicates()
        &&& forall|i: int|
            0 <= i < self.subscriptions.len() ==> (#[trigger] self.subscriptions[i]).is_offered()
    }

    /// The coins whose trades are subscribed to.
    pub open spec fn trade_coins(self) -> Set<Seq<char>> {
        Set::new(|c: Seq<char>| self.subscriptions.contains(SubscriptionModel::Trades { coin: c }))
    }

    /// What a subscription gets of a message.
    pub open spec fn told(self, subscription: SubscriptionModel, m: MessageModel) -> Option<ResponseModel> {
        match m {
            MessageModel::Snapshot { l2_snapshots, time, height } => levels_response(
                subscription,
                l2_snapshots,
                time,
                height,
            ),
            MessageModel::BookReset { snapshot, l2_snapshots } => reset_response(
                subscription,
                snapshot,
                l2_snapshots,
                self.ignore_spot,
            ),
            MessageModel::Fills { batch } => trades_response(
                subscription,
                trades_by_coin(batch.events, self.trade_coins()),
                batch.block_number,
            ),
            MessageModel::L4BookUpdates { diff_batch, status_batch } => updates_response(
                subscription,
                book_updates(diff_batch, status_batch),
            ),
        }
    }

    /// What the first subscriptions get of a message, in their order.
    pub open spec fn told_first(self, n: int, m: MessageModel) -> Seq<ResponseModel>
        decreases n,
    {
        if n <= 0 {
            Seq::empty()
        } else {
            match self.told(self.subscriptions[n - 1], m) {
                Some(r) => self.told_first(n - 1, m).push(r),
                None => self.told_first(n - 1, m),
            }
        }
    }

    /// What the connection gets of a message.
    pub open spec fn told_all(self, m: MessageModel) -> Seq<ResponseModel> {
        self.told_first(self.subscriptions.len() as int, m)
    }

    /// The connection after a message: aggregations and resets renew what it can ask for.
    pub open spec fn after(self, m: MessageModel) -> SessionModel {
        match m {
            MessageModel::Snapshot { l2_snapshots, time, height } => SessionModel {
                universe: universe_of(l2_snapshots, self.ignore_spot),
                ..self
            },
            MessageModel::BookReset { snapshot, l2_snapshots } => SessionModel {
                universe: universe_of(l2_snapshots, self.ignore_spot),
                ..self
            },
            _ => self,
        }
    }

    pub open spec fn with(self, subscriptions: Seq<SubscriptionModel>) -> SessionModel {
        SessionModel { subscriptions, ..self }
    }

    /// The connection after a request of the client, and the answers. `rendered` is the request
    /// as it is shown in errors.
    pub open spec fn requested(
        self,
        message: ClientMessageModel,
        rendered: Seq<char>,
        live: Option<TimedModel>,
    ) -> (SessionModel, Seq<ResponseModel>) {
        let subscription = message.subscription();
        let confirmed = ResponseModel::SubscriptionResponse(message);
        if !subscription.is_valid(self.universe) {
            (self, seq![ResponseModel::Error("Invalid subscription: "@ + rendered)])
        } else {
            match message {
                ClientMessageModel::Subscribe { .. } => if self.subscriptions.contains(subscription) {
                    (self, seq![ResponseModel::Error("Already subscribed: "@ + rendered)])
                } else {
                    match immediate_snapshot(subscription, live) {
                        Err(_) => (
                            self,
                            seq![
                                ResponseModel::Error(
                                    "Unable to grab order book snapshot: "@ + "Snapshot Failed"@,
                                ),
                            ],
                        ),
                        Ok(Some(first)) => (
                            self.with(self.subscriptions.push(subscription)),
                            seq![confirmed, first],
                        ),
                        Ok(None) => (self.with(self.subscriptions.push(subscription)), seq![confirmed]),
                    }
                },
                ClientMessageModel::Unsubscribe { .. } => if self.subscriptions.contains(subscription) {
                    (self.with(without(self.subscriptions, subscription)), seq![confirmed])
                } else {
                    (self, seq![ResponseModel::Error("Already unsubscribed: "@ + rendered)])
                },
            }
        }
    }
}

/// A request of a client, and how it is shown in errors.
pub struct Request {
    pub message: ClientMessage,
    pub rendered: String,
}

/// What comes from a client.
pub enum ClientFrame {
    /// A text, and the request it was parsed into, if it could be.
    Text { text: String, request: Option<Request> },
    /// A text frame that holds no text.
    Garbled,
    /// The client says goodbye.
    Close,
    /// Any other frame.
    Other,
    /// The connection is gone.
    Gone,
}

/// What is done about it.
pub enum SessionStep {
    /// These are sent, in order.
    Reply(Vec<ServerResponse>),
    /// The connection ends.
    End,
}

/// One connection.
pub struct Session {
    manager: SubscriptionManager,
    universe: Vec<String>,
    ignore_spot: bool,
}

impl View for Session {
    type V = SessionModel;

    closed spec fn view(&self) -> SessionModel {
        SessionModel {
            subscriptions: self.manager@,
            universe: symbols(self.universe@),
            ignore_spot: self.ignore_spot,
        }
    }
}

fn error_response(start: &str, rest: &str) -> (r: Vec<ServerResponse>)
    ensures
        responses_view(r@) == seq![ResponseModel::Error(start@ + rest@)],
{
    let mut s = start.to_owned();
    s.append(rest);
    let mut r: Vec<ServerResponse> = Vec::new();
    r.push(ServerResponse::Error(s));
    assert(responses_view(r@) =~= seq![ResponseModel::Error(start@ + rest@)]);
    r
}

fn push_response(r: &mut Vec<ServerResponse>, x: Option<ServerResponse>)
    ensures
        responses_view(final(r)@) == (match response_view(x) {
            Some(m) => responses_view(old(r)@).push(m),
            None => responses_view(old(r)@),
        }),
{
    if let Some(x) = x {
        r.push(x);
        assert(responses_view(r@) =~= responses_view(old(r)@).push(x@));
    }
}

impl Session {
    pub closed spec fn wf(&self) -> bool {
        self.manager.wf() && self@.wf()
    }

    /// The subscriptions of a connection are distinct and offered.
    pub proof fn law_subscriptions_are_distinct_and_offered(&self)
        requires
            self.wf(),
        ensures
            self@.wf(),
    {
    }

    /// Opens a connection, which needs live books.
    pub fn open(listener: &OrderBookListener, ignore_spot: bool) -> (r: Result<Session, ServerResponse>)
        requires
            listener.wf(),
        ensures
            match r {
                Ok(session) => {
                    &&& session.wf()
                    &&& listener@.state is Some
                    &&& session@ == (SessionModel {
                        subscriptions: Seq::empty(),
                        universe: listener@.state->0.books.dom(),
                        ignore_spot,
                    })
                },
                Err(e) => {
                    &&& listener@.state is None
                    &&& e@ == ResponseModel::Error(
                        "Order book not ready for streaming (waiting for snapshot)"@,
                    )
                },
            },
    {
        let universe = listener.universe();
        if !listener.is_ready() {
            return Err(
                ServerResponse::Error(
                    "Order book not ready for streaming (waiting for snapshot)".to_owned(),
                ),
            );
        }
        Ok(Session { manager: SubscriptionManager::new(), universe, ignore_spot })
    }

    /// The coins whose trades are subscribed to.
    fn trade_coins(&self) -> (r: Vec<String>)
        ensures
            symbols(r@) == self@.trade_coins(),
    {
        let subscriptions = self.manager.subscriptions();
        let ghost subs = self.manager@;
        let mut r: Vec<String> = Vec::new();
        let mut i: usize = 0;
        while i < subscriptions.len()
            invariant
                i <= subscriptions@.len(),
                subs == subscriptions_view(subscriptions@),
                forall|j: int|
                    0 <= j < r@.len() ==> subs.contains(SubscriptionModel::Trades { coin: #[trigger] r@[j]@ }),
                forall|j: int|
                    0 <= j < i && (#[trigger] subs[j]) is Trades ==> symbols(r@).contains(subs[j].coin()),
            decreases subscriptions@.len() - i,
        {
            assert(subs[i as int] == subscriptions@[i as int]@);
            if let Subscription::Trades { coin } = &subscriptions[i] {
                let ghost before = r@;
                r.push(coin.clone());
                proof {
                    assert(r@[before.len() as int]@ == coin@);
                    assert forall|k: Seq<char>| symbols(before).contains(k) implies symbols(r@).contains(k) by {
                        let j = choose|j: int| 0 <= j < before.len() && #[trigger] before[j]@ == k;
                        assert(r@[j]@ == k);
                    }
                }
            }
            i = i + 1;
        }
        proof {
            let wanted = self@.trade_coins();
            assert forall|k: Seq<char>| wanted.contains(k) implies #[trigger] symbols(r@).contains(k) by {
                let j = subs.index_of(SubscriptionModel::Trades { coin: k });
                assert(subs[j] is Trades && subs[j].coin() == k);
            }
            assert forall|k: Seq<char>| #[trigger] symbols(r@).contains(k) implies wanted.contains(k) by {
                let j = choose|j: int| 0 <= j < r@.len() && #[trigger] r@[j]@ == k;
                assert(subs.contains(SubscriptionModel::Trades { coin: r@[j]@ }));
            }
            assert(symbols(r@) =~= wanted);
        }
        r
    }

    /// What is sent when the listener tells of something.
    pub fn on_message(&mut self, message: &InternalMessage) -> (r: Vec<ServerResponse>)
        requires
            old(self).wf(),
            message.wf(),
        ensures
            final(self).wf(),
            final(self)@ == old(self)@.after(message@),
            responses_view(r@) == old(self)@.told_all(message@),
    {
        let ghost m = message@;
        let ghost before = self@;
        match message {
            InternalMessage::Snapshot { l2_snapshots, .. } => {
                self.universe = new_universe(l2_snapshots, self.ignore_spot);
            },
            InternalMessage::BookReset { l2_snapshots, .. } => {
                self.universe = new_universe(l2_snapshots, self.ignore_spot);
            },
            _ => {},
        }
        let mut trades = match message {
            InternalMessage::Fills { batch } => coin_to_trades(batch, &self.trade_coins()),
            _ => CoinMap::new(),
        };
        let mut updates = match message {
            InternalMessage::L4BookUpdates { diff_batch, status_batch } => coin_to_book_updates(
                diff_batch,
                status_batch,
            ),
            _ => CoinMap::new(),
        };
        let subscriptions = self.manager.subscriptions();
        let ghost subs = self.manager@;
        let ghost all_trades = trade_lists_view(trades@);
        let ghost all_updates = updates_view(updates@);
        let mut r: Vec<ServerResponse> = Vec::new();
        let mut i: usize = 0;
        assert(responses_view(r@) =~= Seq::empty());
        assert(self@.trade_coins() =~= before.trade_coins());
        while i < subscriptions.len()
            invariant
                i <= subscriptions@.len(),
                subs == subscriptions_view(subscriptions@),
                subs == before.subscriptions,
                subs.no_duplicates(),
                m == message@,
                message.wf(),
                self@ == before.after(m),
                trades.wf(),
                updates.wf(),
                responses_view(r@) == before.told_first(i as int, m),
                m matches MessageModel::Fills { batch } ==> all_trades == trades_by_coin(
                    batch.events,
                    before.trade_coins(),
                ),
                m matches MessageModel::L4BookUpdates { diff_batch, status_batch } ==> all_updates
                    == book_updates(diff_batch, status_batch),
                forall|j: int|
                    i <= j < subs.len() ==> trades_response(
                        #[trigger] subs[j],
                        trade_lists_view(trades@),
                        0,
                    ) == trades_response(subs[j], all_trades, 0),
                forall|j: int|
                    i <= j < subs.len() ==> updates_response(#[trigger] subs[j], updates_view(updates@))
                        == updates_response(subs[j], all_updates),
            decreases subscriptions@.len() - i,
        {
            let subscription = &subscriptions[i];
            let ghost trades_before = trade_lists_view(trades@);
            let ghost updates_before = updates_view(updates@);
            assert(subs[i as int] == subscription@);
            let response = match message {
                InternalMessage::Snapshot { l2_snapshots, time, height } => ws_data_from_snapshot(
                    subscription,
                    l2_snapshots,
                    *time,
                    *height,
                ),
                InternalMessage::BookReset { snapshot, l2_snapshots } => ws_data_from_reset(
                    subscription,
                    snapshot,
                    l2_snapshots,
                    self.ignore_spot,
                ),
                InternalMessage::Fills { batch } => ws_data_from_trades(
                    subscription,
                    &mut trades,
                    batch.block_number(),
                ),
                InternalMessage::L4BookUpdates { .. } => ws_data_from_book_updates(subscription, &mut updates),
            };
            proof {
                assert(response_view(response) == before.told(subs[i as int], m));
                assert forall|j: int| i + 1 <= j < subs.len() implies trades_response(
                    #[trigger] subs[j],
                    trade_lists_view(trades@),
                    0,
                ) == trades_response(subs[j], all_trades, 0) by {
                    assert(subs[j] != subs[i as int]);
                    assert(trades_response(subs[j], trades_before, 0) == trades_response(
                        subs[j],
                        all_trades,
                        0,
                    ));
                }
                assert forall|j: int| i + 1 <= j < subs.len() implies updates_response(
                    #[trigger] subs[j],
                    updates_view(updates@),
                ) == updates_response(subs[j], all_updates) by {
                    assert(subs[j] != subs[i as int]);
                    assert(updates_response(subs[j], updates_before) == updates_response(
                        subs[j],
                        all_updates,
                    ));
                }
            }
            push_response(&mut r, response);
            i = i + 1;
        }
        r
    }

    /// Answers a request of the client.
    pub fn receive_client_message(&mut self, request: Request, listener: &OrderBookListener) -> (r: Vec<
        ServerResponse,
    >)
        requires
            old(self).wf(),
            listener.wf(),
        ensures
            final(self).wf(),
            (final(self)@, responses_view(r@)) == old(self)@.requested(
                request.message@,
                request.rendered@,
                live_books(*listener),
            ),
    {
        let ghost subs = self@.subscriptions;
        let Request { message, rendered } = request;
        let subscription = message.subscription().clone();
        let ghost wanted = subscription@;
        if !subscription.validate(&self.universe) {
            return error_response("Invalid subscription: ", rendered.as_str());
        }
        let mut replies: Vec<ServerResponse> = Vec::new();
        match &message {
            ClientMessage::Subscribe { .. } => {
                if !self.manager.subscribe(subscription.clone()) {
                    return error_response("Already subscribed: ", rendered.as_str());
                }
                match subscription.handle_immediate_snapshot(listener) {
                    Err(e) => {
                        let _ = self.manager.unsubscribe(subscription);
                        proof {
                            law_unsubscribe_undoes_subscribe(subs, wanted);
                        }
                        return error_response("Unable to grab order book snapshot: ", e.message().as_str());
                    },
                    Ok(first) => {
                        push_response(&mut replies, Some(ServerResponse::SubscriptionResponse(message)));
                        push_response(&mut replies, first);
                        assert(responses_view(replies@) =~= old(self)@.requested(
                            request.message@,
                            rendered@,
                            live_books(*listener),
                        ).1);
                    },
                }
            },
            ClientMessage::Unsubscribe { .. } => {
                proof {
                    law_unsubscribe_takes_out_one(subs, wanted);
                }
                if !self.manager.unsubscribe(subscription) {
                    return error_response("Already unsubscribed: ", rendered.as_str());
                }
                push_response(&mut replies, Some(ServerResponse::SubscriptionResponse(message)));
                assert(responses_view(replies@) =~= seq![
                    ResponseModel::SubscriptionResponse(request.message@),
                ]);
                proof {
                    let now = without(subs, wanted);
                    assert forall|i: int| 0 <= i < now.len() implies (#[trigger] now[i]).is_offered() by {
                        assert(now.contains(now[i]));
                        assert(subs.contains(now[i]));
                        let j = subs.index_of(now[i]);
                        assert(subs[j].is_offered());
                    }
                }
            },
        }
        replies
    }

    /// What is done about a frame of the client.
    pub fn on_frame(&mut self, frame: ClientFrame, listener: &OrderBookListener) -> (r: SessionStep)
        requires
            old(self).wf(),
            listener.wf(),
        ensures
            final(self).wf(),
            match frame {
                ClientFrame::Text { text, request: Some(request) } => {
                    &&& r matches SessionStep::Reply(replies)
                    &&& (final(self)@, responses_view(replies@)) == old(self)@.requested(
                        request.message@,
                        request.rendered@,
                        live_books(*listener),
                    )
                },
                ClientFrame::Text { text, request: None } => {
                    &&& final(self)@ == old(self)@
                    &&& r matches SessionStep::Reply(replies)
                    &&& responses_view(replies@) == seq![
                        ResponseModel::Error("Error parsing JSON into valid websocket request: "@ + text@),
                    ]
                },
                ClientFrame::Other => {
                    &&& final(self)@ == old(self)@
                    &&& r matches SessionStep::Reply(replies)
                    &&& replies@.len() == 0
                },
                ClientFrame::Garbled | ClientFrame::Close | ClientFrame::Gone => {
                    &&& final(self)@ == old(self)@
                    &&& r is End
                },
            },
    {
        match frame {
            ClientFrame::Text { text, request } => match request {
                Some(request) => SessionStep::Reply(self.receive_client_message(request, listener)),
                None => SessionStep::Reply(
                    error_response("Error parsing JSON into valid websocket request: ", text.as_str()),
                ),
            },
            ClientFrame::Other => SessionStep::Reply(Vec::new()),
            ClientFrame::Garbled => SessionStep::End,
            ClientFrame::Close => SessionStep::End,
            ClientFrame::Gone => SessionStep::End,
        }
    }
}

} // verus!
