//! What a client can ask for, and which of it a connection has.

use vstd::prelude::*;
use vstd::string::*;

use crate::coin::{contains_symbol, symbols};
use crate::rounding::L2SnapshotParams;
use crate::text::same_text;

verus! {

/// How many levels a client gets who does not say.
pub const DEFAULT_LEVELS: usize = 20;

/// How many levels a client can ask for.
pub const MAX_LEVELS: usize = 100;

/// A stream that a client can ask for.
#[derive(Debug)]
pub enum Subscription {
    /// The trades of a coin.
    Trades { coin: String },
    /// The book of a coin, summed up by price.
    L2Book { coin: String, n_sig_figs: Option<u32>, n_levels: Option<usize>, mantissa: Option<u64> },
    /// The book of a coin, order by order.
    L4Book { coin: String },
}

pub enum SubscriptionModel {
    Trades { coin: Seq<char> },
    L2Book { coin: Seq<char>, n_sig_figs: Option<u32>, n_levels: Option<usize>, mantissa: Option<u64> },
    L4Book { coin: Seq<char> },
}

impl View for Subscription {
    type V = SubscriptionModel;

    open spec fn view(&self) -> SubscriptionModel {
        match *self {
            Subscription::Trades { coin } => SubscriptionModel::Trades { coin: coin@ },
            Subscription::L2Book { coin, n_sig_figs, n_levels, mantissa } => SubscriptionModel::L2Book {
                coin: coin@,
                n_sig_figs,
                n_levels,
                mantissa,
            },
            Subscription::L4Book { coin } => SubscriptionModel::L4Book { coin: coin@ },
        }
    }
}

impl Clone for Subscription {
    fn clone(&self) -> (r: Self)
        ensures
            r == *self,
    {
        match self {
            Subscription::Trades { coin } => Subscription::Trades { coin: coin.clone() },
            Subscription::L2Book { coin, n_sig_figs, n_levels, mantissa } => Subscription::L2Book {
                coin: coin.clone(),
                n_sig_figs: *n_sig_figs,
                n_levels: *n_levels,
                mantissa: *mantissa,
            },
            Subscription::L4Book { coin } => Subscription::L4Book { coin: coin.clone() },
        }
    }
}

impl SubscriptionModel {
    pub open spec fn coin(self) -> Seq<char> {
        match self {
            SubscriptionModel::Trades { coin } => coin,
            SubscriptionModel::L2Book { coin, .. } => coin,
            SubscriptionModel::L4Book { coin } => coin,
        }
    }

    /// Whether what is asked for is offered, whatever the coin.
    pub open spec fn is_offered(self) -> bool {
        match self {
            SubscriptionModel::L2Book { coin, n_sig_figs, n_levels, mantissa } => {
                &&& n_levels matches Some(n) ==> n <= MAX_LEVELS
                &&& (L2SnapshotParams { n_sig_figs, mantissa }).offered()
            },
            _ => true,
        }
    }

    /// Whether what is asked for is offered for a coin that there is.
    pub open spec fn is_valid(self, universe: Set<Seq<char>>) -> bool {
        universe.contains(self.coin()) && self.is_offered()
    }
}

impl Subscription {
    /// Whether what is asked for is offered for a coin that there is.
    pub fn validate(&self, universe: &Vec<String>) -> (r: bool)
        ensures
            r == self@.is_valid(symbols(universe@)),
    {
        match self {
            Subscription::Trades { coin } => contains_symbol(universe, coin.as_str()),
            Subscription::L4Book { coin } => contains_symbol(universe, coin.as_str()),
            Subscription::L2Book { coin, n_sig_figs, n_levels, mantissa } => {
                if !contains_symbol(universe, coin.as_str()) {
                    return false;
                }
                if let Some(n) = *n_levels {
                    if n > MAX_LEVELS {
                        return false;
                    }
                }
                match (*n_sig_figs, *mantissa) {
                    (None, None) => true,
                    (Some(n), None) => 2 <= n && n <= 5,
                    (Some(n), Some(m)) => n == 5 && (m == 2 || m == 5),
                    (None, Some(_)) => false,
                }
            },
        }
    }

    /// Whether two requests ask for the same.
    pub fn same(&self, other: &Subscription) -> (r: bool)
        ensures
            r == (self@ == other@),
    {
        match (self, other) {
            (Subscription::Trades { coin: a }, Subscription::Trades { coin: b }) => same_text(
                a.as_str(),
                b.as_str(),
            ),
            (Subscription::L4Book { coin: a }, Subscription::L4Book { coin: b }) => same_text(
                a.as_str(),
                b.as_str(),
            ),
            (
                Subscription::L2Book { coin: a, n_sig_figs: f1, n_levels: l1, mantissa: m1 },
                Subscription::L2Book { coin: b, n_sig_figs: f2, n_levels: l2, mantissa: m2 },
            ) => same_text(a.as_str(), b.as_str()) && *f1 == *f2 && *l1 == *l2 && *m1 == *m2,
            _ => false,
        }
    }
}

/// What a client sends.
#[derive(Debug)]
pub enum ClientMessage {
    Subscribe { subscription: Subscription },
    Unsubscribe { subscription: Subscription },
}

pub enum ClientMessageModel {
    Subscribe { subscription: SubscriptionModel },
    Unsubscribe { subscription: SubscriptionModel },
}

impl View for ClientMessage {
    type V = ClientMessageModel;

    open spec fn view(&self) -> ClientMessageModel {
        match *self {
            ClientMessage::Subscribe { subscription } => ClientMessageModel::Subscribe {
                subscription: subscription@,
            },
            ClientMessage::Unsubscribe { subscription } => ClientMessageModel::Unsubscribe {
                subscription: subscription@,
            },
        }
    }
}

impl ClientMessageModel {
    pub open spec fn subscription(self) -> SubscriptionModel {
        match self {
            ClientMessageModel::Subscribe { subscription } => subscription,
            ClientMessageModel::Unsubscribe { subscription } => subscription,
        }
    }
}

impl ClientMessage {
    /// What the message is about.
    pub fn subscription(&self) -> (r: &Subscription)
        ensures
            r@ == self@.subscription(),
    {
        match self {
            ClientMessage::Subscribe { subscription } => subscription,
            ClientMessage::Unsubscribe { subscription } => subscription,
        }
    }
}

/// The subscriptions of one connection, none of them twice, in the order in which they came.
pub struct SubscriptionManager {
    subscriptions: Vec<Subscription>,
}

pub open spec fn subscriptions_view(s: Seq<Subscription>) -> Seq<SubscriptionModel> {
    Seq::new(s.len(), |i: int| s[i]@)
}

/// A list without an element that occurs at most once; the others keep their order.
pub open spec fn without<T>(s: Seq<T>, x: T) -> Seq<T> {
    if s.contains(x) {
        s.remove(s.index_of(x))
    } else {
        s
    }
}

impl View for SubscriptionManager {
    type V = Seq<SubscriptionModel>;

    closed spec fn view(&self) -> Seq<SubscriptionModel> {
        subscriptions_view(self.subscriptions@)
    }
}

impl SubscriptionManager {
    pub closed spec fn wf(&self) -> bool {
        self@.no_duplicates()
    }

    pub fn new() -> (r: Self)
        ensures
            r.wf(),
            r@ == Seq::<SubscriptionModel>::empty(),
    {
        let r = SubscriptionManager { subscriptions: Vec::new() };
        assert(r@ =~= Seq::<SubscriptionModel>::empty());
        r
    }

    pub fn subscriptions(&self) -> (r: &Vec<Subscription>)
        ensures
            subscriptions_view(r@) == self@,
    {
        &self.subscriptions
    }

    fn position(&self, subscription: &Subscription) -> (r: Option<usize>)
        ensures
            match r {
                Some(i) => i < self@.len() && self@[i as int] == subscription@,
                None => !self@.contains(subscription@),
            },
    {
        let mut i: usize = 0;
        while i < self.subscriptions.len()
            invariant
                i <= self.subscriptions@.len(),
                forall|j: int| 0 <= j < i ==> self@[j] != subscription@,
            decreases self.subscriptions@.len() - i,
        {
            if self.subscriptions[i].same(subscription) {
                return Some(i);
            }
            i = i + 1;
        }
        None
    }

    /// Adds a subscription, and says whether it was not there yet.
    pub fn subscribe(&mut self, subscription: Subscription) -> (r: bool)
        requires
            old(self).wf(),
        ensures
            final(self).wf(),
            r == !old(self)@.contains(subscription@),
            final(self)@ == (if r {
                old(self)@.push(subscription@)
            } else {
                old(self)@
            }),
    {
        if self.position(&subscription).is_some() {
            false
        } else {
            self.subscriptions.push(subscription);
            assert(self@ =~= old(self)@.push(subscription@));
            true
        }
    }

    /// Takes a subscription out, and says whether it was there.
    pub fn unsubscribe(&mut self, subscription: Subscription) -> (r: bool)
        requires
            old(self).wf(),
        ensures
            final(self).wf(),
            r == old(self)@.contains(subscription@),
            final(self)@ == without(old(self)@, subscription@),
    {
        match self.position(&subscription) {
            Some(i) => {
                let _ = self.subscriptions.remove(i);
                proof {
                    let s = old(self)@;
                    assert(s[i as int] == subscription@);
                    assert(s.index_of(subscription@) == i);
                    assert(self@ =~= s.remove(i as int));
                }
                true
            },
            None => false,
        }
    }
}

/// Taking back a new subscription leaves the connection as it was.
pub proof fn law_unsubscribe_undoes_subscribe(s: Seq<SubscriptionModel>, x: SubscriptionModel)
    requires
        s.no_duplicates(),
        !s.contains(x),
    ensures
        without(s.push(x), x) == s,
        !without(s.push(x), x).contains(x),
{
    let t = s.push(x);
    assert(t[s.len() as int] == x);
    let i = t.index_of(x);
    assert(t.contains(x));
    assert(i == s.len()) by {
        if i < s.len() {
            assert(s[i] == x);
        }
    }
    assert(t.remove(i) =~= s);
}

/// After a subscription was taken out it is not there, and every other one still is.
pub proof fn law_unsubscribe_takes_out_one(s: Seq<SubscriptionModel>, x: SubscriptionModel)
    requires
        s.no_duplicates(),
    ensures
        !without(s, x).contains(x),
        without(s, x).no_duplicates(),
        forall|y: SubscriptionModel| y != x ==> (#[trigger] without(s, x).contains(y) <==> s.contains(y)),
{
    let t = without(s, x);
    if s.contains(x) {
        let i = s.index_of(x);
        assert forall|y: SubscriptionModel| y != x implies (#[trigger] t.contains(y) <==> s.contains(y)) by {
            if s.contains(y) {
                let j = s.index_of(y);
                assert(t[if j < i {
                    j
                } else {
                    j - 1
                }] == y);
            }
            if t.contains(y) {
                let j = t.index_of(y);
                assert(s[if j < i {
                    j
                } else {
                    j + 1
                }] == y);
            }
        }
    }
}

/// What can be asked for: any stream of a coin that there is, with at most a hundred levels, at the prices
/// themselves or rounded to two to five significant figures, with five figures also to multiples of two
/// or of five.
pub proof fn law_what_can_be_asked_for(
    universe: Set<Seq<char>>,
    coin: Seq<char>,
    n_sig_figs: Option<u32>,
    n_levels: Option<usize>,
    mantissa: Option<u64>,
)
    ensures
        (SubscriptionModel::Trades { coin }).is_valid(universe) <==> universe.contains(coin),
        (SubscriptionModel::L4Book { coin }).is_valid(universe) <==> universe.contains(coin),
        (SubscriptionModel::L2Book { coin, n_sig_figs, n_levels, mantissa }).is_valid(universe) <==> {
            &&& universe.contains(coin)
            &&& n_levels is None || n_levels->0 <= 100
            &&& match n_sig_figs {
                None => mantissa is None,
                Some(n) => (2 <= n <= 5 && mantissa is None) || (n == 5 && (mantissa == Some(2u64) || mantissa
                    == Some(5u64))),
            }
        },
        DEFAULT_LEVELS == 20,
{
}

} // verus!
