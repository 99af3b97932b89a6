//! Interest filters, the per-connection session decisions, and the registry
//! that routes each trade and candle update to the connections that asked
//! for it.

use vstd::prelude::*;

use std::collections::HashMap;

use crate::kline::KLine;
use crate::time_interval::{interval_label, interval_named, TimeInterval};
use crate::transaction::Transaction;

verus! {

broadcast use vstd::std_specs::hash::group_hash_axioms;

/// One interest filter of a connection.
#[derive(Debug, Clone)]
pub enum SubscriptionType {
    /// Trades of any of the listed tokens.
    Transactions { tokens: Vec<String> },
    /// Candle updates of one token under one granularity label.
    KLines { token: String, interval: String },
    /// Every trade.
    AllTransactions,
}

/// The value of a filter.
pub enum SubView {
    Transactions(Seq<Seq<char>>),
    KLines(Seq<char>, Seq<char>),
    AllTransactions,
}

pub open spec fn strings_view(v: Seq<String>) -> Seq<Seq<char>> {
    v.map_values(|s: String| s@)
}

impl View for SubscriptionType {
    type V = SubView;

    open spec fn view(&self) -> SubView {
        match self {
            SubscriptionType::Transactions { tokens } => SubView::Transactions(strings_view(tokens@)),
            SubscriptionType::KLines { token, interval } => SubView::KLines(token@, interval@),
            SubscriptionType::AllTransactions => SubView::AllTransactions,
        }
    }
}

/// The values of a list of filters.
pub open spec fn subs_view(v: Seq<SubscriptionType>) -> Seq<SubView> {
    v.map_values(|s: SubscriptionType| s@)
}

/// Whether filter `s` lets a trade of `token` through.
pub open spec fn passes_transaction(s: SubView, token: Seq<char>) -> bool {
    match s {
        SubView::AllTransactions => true,
        SubView::Transactions(tokens) => tokens.contains(token),
        SubView::KLines(_, _) => false,
    }
}

/// Whether filter `s` lets a candle of `token` under the granularity labelled
/// `label` through.
pub open spec fn passes_kline(s: SubView, token: Seq<char>, label: Seq<char>) -> bool {
    s == SubView::KLines(token, label)
}

/// Whether any of `subs` lets a trade of `token` through.
pub open spec fn wants_transaction(subs: Seq<SubView>, token: Seq<char>) -> bool {
    exists|i: int| #![trigger subs[i]] 0 <= i < subs.len() && passes_transaction(subs[i], token)
}

/// Whether any of `subs` lets a candle of `token` under `iv` through.
pub open spec fn wants_kline(subs: Seq<SubView>, token: Seq<char>, iv: TimeInterval) -> bool {
    exists|i: int|
        #![trigger subs[i]]
        0 <= i < subs.len() && passes_kline(subs[i], token, interval_label(iv))
}

/// Whether any of `subs` lets the event through: a trade of `token` when
/// `candle` is `None`, else a candle of `token` under that granularity.
pub open spec fn wants_event(subs: Seq<SubView>, token: Seq<char>, candle: Option<TimeInterval>) -> bool {
    match candle {
        None => wants_transaction(subs, token),
        Some(iv) => wants_kline(subs, token, iv),
    }
}

/// Whether a filter may be registered: a candle filter must name a known
/// granularity.
pub open spec fn valid_filter(s: SubView) -> bool {
    match s {
        SubView::KLines(_, label) => interval_named(label) is Some,
        _ => true,
    }
}

/// Whether two filters are the same filter. A token-list filter holds a set
/// of tokens: order and repeats in the list do not matter.
pub open spec fn same_filter(a: SubView, b: SubView) -> bool {
    match (a, b) {
        (SubView::AllTransactions, SubView::AllTransactions) => true,
        (SubView::Transactions(x), SubView::Transactions(y)) => x.to_set() == y.to_set(),
        (SubView::KLines(t1, l1), SubView::KLines(t2, l2)) => t1 == t2 && l1 == l2,
        _ => false,
    }
}

/// `subs` without the filters that are the same filter as `f`, in their
/// order.
pub open spec fn without(subs: Seq<SubView>, f: SubView) -> Seq<SubView> {
    subs.filter(|s: SubView| !same_filter(s, f))
}

/// Whether every string of `a` is, by its characters, among those of `b`.
fn strings_within(a: &Vec<String>, b: &Vec<String>) -> (r: bool)
    ensures
        r == (forall|x: Seq<char>| strings_view(a@).contains(x) ==> strings_view(b@).contains(x)),
{
    let mut i: usize = 0;
    while i < a.len()
        invariant
            0 <= i <= a@.len(),
            forall|j: int| #![trigger a@[j]] 0 <= j < i ==> strings_view(b@).contains(a@[j]@),
        decreases a@.len() - i,
    {
        if !lists_token(b, &a[i]) {
            proof {
                assert(strings_view(a@)[i as int] == a@[i as int]@);
                assert(strings_view(a@).contains(a@[i as int]@));
            }
            return false;
        }
        i = i + 1;
    }
    proof {
        assert forall|x: Seq<char>| strings_view(a@).contains(x) implies strings_view(b@).contains(x) by {
            let j = choose|j: int| 0 <= j < strings_view(a@).len() && strings_view(a@)[j] == x;
            assert(a@[j]@ == x);
        }
    }
    true
}

/// Whether two lists of strings hold the same set of strings.
fn same_token_set(a: &Vec<String>, b: &Vec<String>) -> (r: bool)
    ensures
        r == (strings_view(a@).to_set() == strings_view(b@).to_set()),
{
    let ab = strings_within(a, b);
    let ba = strings_within(b, a);
    proof {
        if ab && ba {
            assert(strings_view(a@).to_set() =~= strings_view(b@).to_set());
        }
        if strings_view(a@).to_set() == strings_view(b@).to_set() {
            assert forall|x: Seq<char>| strings_view(a@).contains(x) implies strings_view(b@).contains(x) by {
                assert(strings_view(a@).to_set().contains(x));
            }
            assert forall|x: Seq<char>| strings_view(b@).contains(x) implies strings_view(a@).contains(x) by {
                assert(strings_view(b@).to_set().contains(x));
            }
        }
    }
    ab && ba
}

/// A copy of a filter.
pub fn copy_subscription(s: &SubscriptionType) -> (r: SubscriptionType)
    ensures
        r@ == s@,
{
    match s {
        SubscriptionType::Transactions { tokens } => {
            let mut copy: Vec<String> = Vec::new();
            let mut i: usize = 0;
            while i < tokens.len()
                invariant
                    0 <= i <= tokens@.len(),
                    copy@.len() == i,
                    forall|j: int| #![trigger copy@[j]] 0 <= j < i ==> copy@[j]@ == tokens@[j]@,
                decreases tokens@.len() - i,
            {
                copy.push(tokens[i].clone());
                i = i + 1;
            }
            proof {
                assert(strings_view(copy@) =~= strings_view(tokens@));
            }
            SubscriptionType::Transactions { tokens: copy }
        },
        SubscriptionType::KLines { token, interval } => SubscriptionType::KLines {
            token: token.clone(),
            interval: interval.clone(),
        },
        SubscriptionType::AllTransactions => SubscriptionType::AllTransactions,
    }
}

/// Whether two filters are the same filter (see `same_filter`).
pub fn subscription_matches(a: &SubscriptionType, b: &SubscriptionType) -> (r: bool)
    ensures
        r == same_filter(a@, b@),
{
    match (a, b) {
        (SubscriptionType::AllTransactions, SubscriptionType::AllTransactions) => true,
        (
            SubscriptionType::Transactions { tokens: tokens_a },
            SubscriptionType::Transactions { tokens: tokens_b },
        ) => same_token_set(tokens_a, tokens_b),
        (
            SubscriptionType::KLines { token: token_a, interval: interval_a },
            SubscriptionType::KLines { token: token_b, interval: interval_b },
        ) => *token_a == *token_b && *interval_a == *interval_b,
        _ => false,
    }
}

/// Whether one of `tokens` holds the characters of `token`.
fn lists_token(tokens: &Vec<String>, token: &String) -> (r: bool)
    ensures
        r == strings_view(tokens@).contains(token@),
{
    let mut i: usize = 0;
    while i < tokens.len()
        invariant
            0 <= i <= tokens@.len(),
            forall|j: int| #![trigger tokens@[j]] 0 <= j < i ==> tokens@[j]@ != token@,
        decreases tokens@.len() - i,
    {
        if tokens[i] == *token {
            proof {
                assert(strings_view(tokens@)[i as int] == token@);
            }
            return true;
        }
        i = i + 1;
    }
    proof {
        assert forall|j: int| 0 <= j < strings_view(tokens@).len() implies strings_view(
            tokens@,
        )[j] != token@ by {
            assert(tokens@[j]@ != token@);
        }
    }
    false
}

/// Whether any of `subs` lets a trade of `token` through.
pub fn accepts_transaction(subs: &Vec<SubscriptionType>, token: &String) -> (r: bool)
    ensures
        r == wants_transaction(subs_view(subs@), token@),
{
    let ghost sv = subs_view(subs@);
    let mut i: usize = 0;
    while i < subs.len()
        invariant
            0 <= i <= subs@.len(),
            sv == subs_view(subs@),
            forall|j: int| #![trigger sv[j]] 0 <= j < i ==> !passes_transaction(sv[j], token@),
        decreases subs@.len() - i,
    {
        let hit = match &subs[i] {
            SubscriptionType::AllTransactions => true,
            SubscriptionType::Transactions { tokens } => lists_token(tokens, token),
            SubscriptionType::KLines { .. } => false,
        };
        if hit {
            proof {
                assert(passes_transaction(sv[i as int], token@));
            }
            return true;
        }
        i = i + 1;
    }
    false
}

/// Whether any of `subs` lets a candle of `token` under `interval` through.
pub fn accepts_kline(subs: &Vec<SubscriptionType>, token: &String, interval: TimeInterval) -> (r:
    bool)
    ensures
        r == wants_kline(subs_view(subs@), token@, interval),
{
    let ghost sv = subs_view(subs@);
    let label = interval.as_str();
    let mut i: usize = 0;
    while i < subs.len()
        invariant
            0 <= i <= subs@.len(),
            sv == subs_view(subs@),
            label@ == interval_label(interval),
            forall|j: int|
                #![trigger sv[j]]
                0 <= j < i ==> !passes_kline(sv[j], token@, interval_label(interval)),
        decreases subs@.len() - i,
    {
        let hit = match &subs[i] {
            SubscriptionType::KLines { token: t, interval: l } => *t == *token && crate::time_interval::str_eq(
                l.as_str(),
                label,
            ),
            _ => false,
        };
        if hit {
            proof {
                assert(passes_kline(sv[i as int], token@, interval_label(interval)));
            }
            return true;
        }
        i = i + 1;
    }
    false
}

/// `subs` without the filters that are the same filter as `f`, in their
/// order.
pub fn retain_unmatched(subs: Vec<SubscriptionType>, f: &SubscriptionType) -> (r: Vec<
    SubscriptionType,
>)
    ensures
        subs_view(r@) == without(subs_view(subs@), f@),
{
    let ghost orig = subs@;
    let mut rest = subs;
    let mut out: Vec<SubscriptionType> = Vec::new();
    while rest.len() > 0
        invariant
            rest@.len() <= orig.len(),
            rest@ == orig.subrange(orig.len() - rest@.len(), orig.len() as int),
            subs_view(out@) == without(
                subs_view(orig.subrange(0, orig.len() - rest@.len())),
                f@,
            ),
        decreases rest@.len(),
    {
        let ghost k = orig.len() - rest@.len();
        let x = rest.remove(0);
        proof {
            assert(x == orig[k]);
            assert(rest@ =~= orig.subrange(k + 1, orig.len() as int));
            let pre = subs_view(orig.subrange(0, k + 1));
            assert(pre.drop_last() =~= subs_view(orig.subrange(0, k)));
            assert(pre.last() == x@);
            reveal(Seq::filter);
        }
        if !subscription_matches(&x, f) {
            let ghost before = out@;
            out.push(x);
            proof {
                assert(subs_view(out@) =~= subs_view(before).push(orig[k]@));
            }
        }
    }
    proof {
        assert(orig.subrange(0, orig.len() as int) =~= orig);
    }
    out
}

/// A message from a client.
#[derive(Debug)]
pub enum ClientMessage {
    Subscribe { subscription: SubscriptionType },
    Unsubscribe { subscription: SubscriptionType },
    Ping,
}

/// A message to a client.
#[derive(Debug)]
pub enum ServerMessage {
    Transaction { data: Transaction },
    KLine { data: KLine },
    Subscribed { subscription: SubscriptionType },
    Unsubscribed { subscription: SubscriptionType },
    Pong,
    Error { message: String },
}

/// How often a session pings its client, in seconds.
pub const HEARTBEAT_INTERVAL_SECS: u64 = 5;

/// How long a client may stay silent before its session ends, in seconds.
pub const CLIENT_TIMEOUT_SECS: u64 = 10;

/// Whether a client silent for `elapsed_millis` milliseconds has timed out.
pub fn is_timed_out(elapsed_millis: u64) -> (r: bool)
    ensures
        r == (elapsed_millis > CLIENT_TIMEOUT_SECS * 1000),
{
    elapsed_millis > CLIENT_TIMEOUT_SECS * 1000
}

/// The message that rejects a candle filter with an unknown granularity.
pub open spec fn invalid_filter_message(label: Seq<char>) -> Seq<char> {
    "Invalid interval: "@ + label
}

/// Relies on uuid::Uuid::new_v4, read through `as_u128`: a random
/// identifier. Nothing is promised of its value.
#[verifier::external_body]
fn new_connection_id() -> u128 {
    uuid::Uuid::new_v4().as_u128()
}

/// One connection's own view of its filters, and the decisions it takes on
/// what its client sends and on what is routed to it.
pub struct WsSession {
    id: u128,
    subscriptions: Vec<SubscriptionType>,
}

impl WsSession {
    /// The connection's filters, in the order they were added.
    pub closed spec fn filters(self) -> Seq<SubView> {
        subs_view(self.subscriptions@)
    }

    pub closed spec fn spec_id(self) -> u128 {
        self.id
    }

    /// A session with no filter.
    pub fn new(id: u128) -> (r: WsSession)
        ensures
            r.spec_id() == id,
            r.filters() == Seq::<SubView>::empty(),
    {
        let r = WsSession { id, subscriptions: Vec::new() };
        proof {
            assert(r.filters() =~= Seq::<SubView>::empty());
        }
        r
    }

    /// A session with no filter, under a freshly drawn random identifier.
    pub fn open() -> (r: WsSession)
        ensures
            r.filters() == Seq::<SubView>::empty(),
    {
        WsSession::new(new_connection_id())
    }

    /// The connection's identifier.
    pub fn id(&self) -> (r: u128)
        ensures
            r == self.spec_id(),
    {
        self.id
    }

    /// Adds a filter after checking it: a candle filter must name a known
    /// granularity. Answers with a confirmation, or with an error and no
    /// change.
    pub fn handle_subscribe(&mut self, subscription: SubscriptionType) -> (r: ServerMessage)
        ensures
            final(self).spec_id() == old(self).spec_id(),
            valid_filter(subscription@) ==> final(self).filters() == old(self).filters().push(
                subscription@,
            ) && (match r {
                ServerMessage::Subscribed { subscription: s } => s@ == subscription@,
                _ => false,
            }),
            !valid_filter(subscription@) ==> final(self).filters() == old(self).filters() && (
            match (r, subscription@) {
                (ServerMessage::Error { message }, SubView::KLines(_, label)) => message@
                    == invalid_filter_message(label),
                _ => false,
            }),
    {
        if let SubscriptionType::KLines { interval, .. } = &subscription {
            if TimeInterval::parse(interval.as_str()).is_err() {
                let mut message = String::from_str("Invalid interval: ");
                message.append(interval.as_str());
                return ServerMessage::Error { message };
            }
        }
        let ghost before = self.subscriptions@;
        let copy = copy_subscription(&subscription);
        self.subscriptions.push(subscription);
        proof {
            assert(subs_view(self.subscriptions@) =~= subs_view(before).push(
                self.subscriptions@[before.len() as int]@,
            ));
        }
        ServerMessage::Subscribed { subscription: copy }
    }

    /// Drops every filter that is the same filter as `subscription` and
    /// confirms.
    pub fn handle_unsubscribe(&mut self, subscription: SubscriptionType) -> (r: ServerMessage)
        ensures
            final(self).spec_id() == old(self).spec_id(),
            final(self).filters() == without(old(self).filters(), subscription@),
            match r {
                ServerMessage::Unsubscribed { subscription: s } => s@ == subscription@,
                _ => false,
            },
    {
        let mut subs: Vec<SubscriptionType> = Vec::new();
        std::mem::swap(&mut subs, &mut self.subscriptions);
        self.subscriptions = retain_unmatched(subs, &subscription);
        ServerMessage::Unsubscribed { subscription }
    }

    /// Subscribes this connection: checks the filter as `handle_subscribe`
    /// does, and when it is accepted adds it both to this session and to the
    /// session's entry in `manager`.
    pub fn subscribe<A>(&mut self, manager: &mut WsManager<A>, subscription: SubscriptionType) -> (r:
        ServerMessage)
        ensures
            final(self).spec_id() == old(self).spec_id(),
            final(manager).handles() == old(manager).handles(),
            valid_filter(subscription@) ==> final(self).filters() == old(self).filters().push(
                subscription@,
            ) && final(manager).filters() == (if old(manager).filters().contains_key(
                old(self).spec_id(),
            ) {
                old(manager).filters().insert(
                    old(self).spec_id(),
                    old(manager).filters()[old(self).spec_id()].push(subscription@),
                )
            } else {
                old(manager).filters()
            }) && (match r {
                ServerMessage::Subscribed { subscription: s } => s@ == subscription@,
                _ => false,
            }),
            !valid_filter(subscription@) ==> final(self).filters() == old(self).filters()
                && final(manager).filters() == old(manager).filters() && (match (
                r,
                subscription@,
            ) {
                (ServerMessage::Error { message }, SubView::KLines(_, label)) => message@
                    == invalid_filter_message(label),
                _ => false,
            }),
    {
        let registered = copy_subscription(&subscription);
        let r = self.handle_subscribe(subscription);
        if let ServerMessage::Subscribed { .. } = &r {
            manager.add_subscription(self.id, registered);
        }
        r
    }

    /// Unsubscribes this connection: drops every filter that is the same
    /// filter as `subscription`, from this session and from the session's
    /// entry in `manager`, and confirms.
    pub fn unsubscribe<A>(&mut self, manager: &mut WsManager<A>, subscription: SubscriptionType) -> (r:
        ServerMessage)
        ensures
            final(self).spec_id() == old(self).spec_id(),
            final(manager).handles() == old(manager).handles(),
            final(self).filters() == without(old(self).filters(), subscription@),
            final(manager).filters() == (if old(manager).filters().contains_key(old(self).spec_id()) {
                old(manager).filters().insert(
                    old(self).spec_id(),
                    without(old(manager).filters()[old(self).spec_id()], subscription@),
                )
            } else {
                old(manager).filters()
            }),
            match r {
                ServerMessage::Unsubscribed { subscription: s } => s@ == subscription@,
                _ => false,
            },
    {
        manager.remove_subscription(self.id, &subscription);
        self.handle_unsubscribe(subscription)
    }

    /// Acts on one message of the client and gives the answer to send back.
    pub fn handle_message(&mut self, msg: ClientMessage) -> (r: ServerMessage)
        ensures
            final(self).spec_id() == old(self).spec_id(),
            match msg {
                ClientMessage::Subscribe { subscription } => (valid_filter(subscription@)
                    ==> final(self).filters() == old(self).filters().push(subscription@) && (
                match r {
                    ServerMessage::Subscribed { subscription: s } => s@ == subscription@,
                    _ => false,
                })) && (!valid_filter(subscription@) ==> final(self).filters() == old(
                    self,
                ).filters() && (match (r, subscription@) {
                    (ServerMessage::Error { message }, SubView::KLines(_, label)) => message@
                        == invalid_filter_message(label),
                    _ => false,
                })),
                ClientMessage::Unsubscribe { subscription } => final(self).filters() == without(
                    old(self).filters(),
                    subscription@,
                ) && (match r {
                    ServerMessage::Unsubscribed { subscription: s } => s@ == subscription@,
                    _ => false,
                }),
                ClientMessage::Ping => final(self).filters() == old(self).filters() && r is Pong,
            },
    {
        match msg {
            ClientMessage::Subscribe { subscription } => self.handle_subscribe(subscription),
            ClientMessage::Unsubscribe { subscription } => self.handle_unsubscribe(subscription),
            ClientMessage::Ping => ServerMessage::Pong,
        }
    }

    /// Whether one of this connection's filters lets the trade through.
    pub fn wants_transaction(&self, transaction: &Transaction) -> (r: bool)
        ensures
            r == wants_transaction(self.filters(), transaction.token@),
    {
        accepts_transaction(&self.subscriptions, &transaction.token)
    }

    /// Whether one of this connection's filters lets the candle through.
    pub fn wants_kline(&self, kline: &KLine) -> (r: bool)
        ensures
            r == wants_kline(self.filters(), kline.token@, kline.interval),
    {
        accepts_kline(&self.subscriptions, &kline.token, kline.interval)
    }
}

/// The keys of a map, each once.
fn live_ids<A>(m: &HashMap<u128, A>) -> (r: Vec<u128>)
    ensures
        r@.to_set() == m@.dom(),
        r@.no_duplicates(),
{
    let mut out: Vec<u128> = Vec::new();
    for id in it: m.keys()
        invariant
            out@.len() == it.index(),
            forall|j: int| 0 <= j < it.index() ==> out@[j] == *it.seq()[j],
            it.seq().unref().to_set() == m@.dom(),
            it.seq().no_duplicates(),
            it.index() == it.seq().len() ==> out@ =~= it.seq().unref(),
    {
        out.push(*id);
    }
    out
}

/// The registry of live connections and their filters. `A` is the handle
/// through which a connection's events are delivered.
pub struct WsManager<A> {
    sessions: HashMap<u128, A>,
    subscriptions: HashMap<u128, Vec<SubscriptionType>>,
}

impl<A> WsManager<A> {
    /// The delivery handle of each live connection.
    pub closed spec fn handles(self) -> Map<u128, A> {
        self.sessions@
    }

    /// The connections with a delivery handle.
    pub open spec fn live(self) -> Set<u128> {
        self.handles().dom()
    }

    /// Each registered connection's filters.
    pub closed spec fn filters(self) -> Map<u128, Seq<SubView>> {
        self.subscriptions@.map_values(|v: Vec<SubscriptionType>| subs_view(v@))
    }

    /// An empty registry.
    pub fn new() -> (r: WsManager<A>)
        ensures
            r.handles().dom() == Set::<u128>::empty(),
            r.live() == Set::<u128>::empty(),
            r.filters().dom() == Set::<u128>::empty(),
    {
        let r = WsManager { sessions: HashMap::new(), subscriptions: HashMap::new() };
        proof {
            assert(r.live() =~= Set::<u128>::empty());
            assert(r.filters().dom() =~= Set::<u128>::empty());
        }
        r
    }

    /// Registers a connection with no filter.
    pub fn add_session(&mut self, session_id: u128)
        ensures
            final(self).handles() == old(self).handles(),
            final(self).filters() == old(self).filters().insert(session_id, Seq::empty()),
    {
        let empty: Vec<SubscriptionType> = Vec::new();
        proof {
            assert(subs_view(empty@) =~= Seq::<SubView>::empty());
        }
        self.subscriptions.insert(session_id, empty);
        proof {
            assert(self.filters() =~= old(self).filters().insert(session_id, Seq::empty()));
        }
    }

    /// Purges a connection: it loses its delivery handle and its filters.
    pub fn remove_session(&mut self, session_id: u128)
        ensures
            final(self).handles() == old(self).handles().remove(session_id),
            final(self).filters() == old(self).filters().remove(session_id),
    {
        self.sessions.remove(&session_id);
        self.subscriptions.remove(&session_id);
        proof {
            assert(self.filters() =~= old(self).filters().remove(session_id));
        }
    }

    /// Attaches the delivery handle of a connection, replacing an earlier one.
    pub fn set_session_addr(&mut self, session_id: u128, addr: A)
        ensures
            final(self).handles() == old(self).handles().insert(session_id, addr),
            final(self).filters() == old(self).filters(),
    {
        self.sessions.insert(session_id, addr);
    }

    /// The delivery handle of a live connection.
    pub fn session_addr(&self, session_id: u128) -> (r: Option<&A>)
        ensures
            match r {
                Some(a) => self.handles().contains_key(session_id) && *a == self.handles()[session_id],
                None => !self.handles().contains_key(session_id),
            },
    {
        self.sessions.get(&session_id)
    }

    /// Appends a filter to a registered connection's list; duplicates are
    /// kept. An unregistered connection is left as it is.
    pub fn add_subscription(&mut self, session_id: u128, subscription: SubscriptionType)
        ensures
            final(self).handles() == old(self).handles(),
            final(self).filters() == (if old(self).filters().contains_key(session_id) {
                old(self).filters().insert(
                    session_id,
                    old(self).filters()[session_id].push(subscription@),
                )
            } else {
                old(self).filters()
            }),
    {
        if let Some(subs) = self.subscriptions.remove(&session_id) {
            let mut subs = subs;
            let ghost before = subs@;
            subs.push(subscription);
            self.subscriptions.insert(session_id, subs);
            proof {
                assert(subs_view(subs@) =~= subs_view(before).push(subs@[before.len() as int]@));
                assert(self.filters() =~= old(self).filters().insert(
                    session_id,
                    old(self).filters()[session_id].push(subscription@),
                ));
            }
        } else {
            proof {
                assert(self.filters() =~= old(self).filters());
            }
        }
    }

    /// Drops every filter of a registered connection that is the same filter
    /// as `subscription`.
    pub fn remove_subscription(&mut self, session_id: u128, subscription: &SubscriptionType)
        ensures
            final(self).handles() == old(self).handles(),
            final(self).filters() == (if old(self).filters().contains_key(session_id) {
                old(self).filters().insert(
                    session_id,
                    without(old(self).filters()[session_id], subscription@),
                )
            } else {
                old(self).filters()
            }),
    {
        if let Some(subs) = self.subscriptions.remove(&session_id) {
            let kept = retain_unmatched(subs, subscription);
            self.subscriptions.insert(session_id, kept);
            proof {
                assert(self.filters() =~= old(self).filters().insert(
                    session_id,
                    without(old(self).filters()[session_id], subscription@),
                ));
            }
        } else {
            proof {
                assert(self.filters() =~= old(self).filters());
            }
        }
    }

    /// The live connections that have a filter letting the trade through,
    /// each once.
    pub fn broadcast_transaction(&self, transaction: &Transaction) -> (r: Vec<u128>)
        ensures
            forall|i: int|
                #![trigger r@[i]]
                0 <= i < r@.len() ==> self.live().contains(r@[i]) && self.filters().contains_key(
                    r@[i],
                ) && wants_transaction(self.filters()[r@[i]], transaction.token@),
            forall|x: u128|
                #![trigger self.live().contains(x)]
                self.live().contains(x) && self.filters().contains_key(x) && wants_transaction(
                    self.filters()[x],
                    transaction.token@,
                ) ==> r@.contains(x),
            r@.no_duplicates(),
    {
        self.recipients(&transaction.token, None)
    }

    /// The live connections that have a filter letting the candle through,
    /// each once.
    pub fn broadcast_kline(&self, kline: &KLine) -> (r: Vec<u128>)
        ensures
            forall|i: int|
                #![trigger r@[i]]
                0 <= i < r@.len() ==> self.live().contains(r@[i]) && self.filters().contains_key(
                    r@[i],
                ) && wants_kline(self.filters()[r@[i]], kline.token@, kline.interval),
            forall|x: u128|
                #![trigger self.live().contains(x)]
                self.live().contains(x) && self.filters().contains_key(x) && wants_kline(
                    self.filters()[x],
                    kline.token@,
                    kline.interval,
                ) ==> r@.contains(x),
            r@.no_duplicates(),
    {
        self.recipients(&kline.token, Some(kline.interval))
    }

    /// The live connections that have a filter letting the event through,
    /// each once.
    fn recipients(&self, token: &String, candle: Option<TimeInterval>) -> (r: Vec<u128>)
        ensures
            forall|i: int|
                #![trigger r@[i]]
                0 <= i < r@.len() ==> self.live().contains(r@[i]) && self.filters().contains_key(
                    r@[i],
                ) && wants_event(self.filters()[r@[i]], token@, candle),
            forall|x: u128|
                #![trigger self.live().contains(x)]
                self.live().contains(x) && self.filters().contains_key(x) && wants_event(self.filters()[x], token@, candle) ==> r@.contains(x),
            r@.no_duplicates(),
    {
        let ids = live_ids(&self.sessions);
        let mut out: Vec<u128> = Vec::new();
        let mut i: usize = 0;
        while i < ids.len()
            invariant
                0 <= i <= ids@.len(),
                ids@.to_set() == self.live(),
                forall|a: int, b: int|
                    #![trigger ids@[a], ids@[b]]
                    0 <= a < b < ids@.len() ==> ids@[a] != ids@[b],
                forall|t: int|
                    #![trigger out@[t]]
                    0 <= t < out@.len() ==> self.live().contains(out@[t]) && self.filters().contains_key(
                        out@[t],
                    ) && wants_event(self.filters()[out@[t]], token@, candle),
                forall|t: int| #![trigger out@[t]] 0 <= t < out@.len() ==> exists|j: int| 0 <= j < i && ids@[j] == out@[t],
                forall|j: int|
                    #![trigger ids@[j]]
                    0 <= j < i && self.filters().contains_key(ids@[j]) && wants_event(self.filters()[ids@[j]], token@, candle) ==> out@.contains(ids@[j]),
                out@.no_duplicates(),
            decreases ids@.len() - i,
        {
            let id = ids[i];
            proof {
                assert(ids@.to_set().contains(id));
            }
            match self.subscriptions.get(&id) {
                Some(subs) => {
                    let hit = match candle {
                        None => accepts_transaction(subs, token),
                        Some(iv) => accepts_kline(subs, token, iv),
                    };
                    if hit {
                        let ghost before = out@;
                        out.push(id);
                        proof {
                            assert(out@[before.len() as int] == id);
                            assert forall|t: int| #![trigger out@[t]] 0 <= t < before.len() implies out@[t] != id by {
                                let j = choose|j: int| 0 <= j < i && ids@[j] == before[t];
                                assert(ids@[j] != ids@[i as int]);
                            }
                            assert forall|j: int|
                                #![trigger ids@[j]]
                                0 <= j < i + 1 && self.filters().contains_key(ids@[j]) && wants_event(self.filters()[ids@[j]], token@, candle) implies out@.contains(ids@[j]) by {
                                if j < i {
                                    let t = choose|t: int| 0 <= t < before.len() && before[t] == ids@[j];
                                    assert(out@[t] == before[t]);
                                } else {
                                    assert(out@[before.len() as int] == id);
                                }
                            }
                            assert forall|t: int| #![trigger out@[t]] 0 <= t < out@.len() implies exists|j: int| 0 <= j < i + 1 && ids@[j] == out@[t] by {
                                if t < before.len() {
                                    assert(out@[t] == before[t]);
                                } else {
                                    assert(ids@[i as int] == out@[t]);
                                }
                            }
                            assert forall|t: int| #![trigger out@[t]] 0 <= t < out@.len() implies self.live().contains(out@[t]) && self.filters().contains_key(
                                out@[t],
                            ) && wants_event(self.filters()[out@[t]], token@, candle) by {
                                if t < before.len() {
                                    assert(out@[t] == before[t]);
                                } else {
                                    assert(self.subscriptions@.contains_key(id));
                                    assert(self.filters()[id] == subs_view(subs@));
                                }
                            }
                        }
                    }
                },
                None => {},
            }
            i = i + 1;
        }
        proof {
            assert forall|x: u128|
                #![trigger self.live().contains(x)]
                self.live().contains(x) && self.filters().contains_key(x) && wants_event(self.filters()[x], token@, candle) implies out@.contains(x) by {
                assert(ids@.to_set().contains(x));
                let j = choose|j: int| 0 <= j < ids@.len() && ids@[j] == x;
                assert(ids@[j] == x);
            }
        }
        out
    }

    /// The number of live connections.
    pub fn session_count(&self) -> (r: usize)
        ensures
            r == self.live().len(),
    {
        self.sessions.len()
    }
}

impl<A> Default for WsManager<A> {
    fn default() -> (r: WsManager<A>)
        ensures
            r.handles().dom() == Set::<u128>::empty(),
            r.live() == Set::<u128>::empty(),
            r.filters().dom() == Set::<u128>::empty(),
    {
        WsManager::new()
    }
}

/// Filters isolate connections: one whose only filter is the candle stream
/// of `t0` under `iv0` is routed no trade, and a candle only of `t0` under
/// `iv0`; one with no filter is routed nothing.
pub proof fn lemma_subscription_isolation(
    t0: Seq<char>,
    iv0: TimeInterval,
    token: Seq<char>,
    iv: TimeInterval,
)
    ensures
        !wants_transaction(seq![SubView::KLines(t0, interval_label(iv0))], token),
        wants_kline(seq![SubView::KLines(t0, interval_label(iv0))], token, iv) <==> (token == t0
            && iv == iv0),
        !wants_transaction(Seq::<SubView>::empty(), token),
        !wants_kline(Seq::<SubView>::empty(), token, iv),
{
    let one = seq![SubView::KLines(t0, interval_label(iv0))];
    reveal_strlit("1s");
    reveal_strlit("1m");
    reveal_strlit("5m");
    reveal_strlit("15m");
    reveal_strlit("1h");
    if token == t0 && iv == iv0 {
        assert(passes_kline(one[0], token, interval_label(iv)));
    }
    if wants_kline(one, token, iv) {
        assert(one[0] == SubView::KLines(token, interval_label(iv)));
        assert(interval_label(iv) == interval_label(iv0));
        assert(interval_label(iv).len() == interval_label(iv0).len());
        assert(interval_label(iv)[0] == interval_label(iv0)[0]);
        if interval_label(iv).len() > 1 {
            assert(interval_label(iv)[1] == interval_label(iv0)[1]);
        }
    }
}

} // verus!
