//! Subscription router built on the topic matcher.
//!
//! [`TopicRouter`] maps MQTT subscription patterns to caller-supplied payloads
//! `T`, assigns each a [`SubscriptionId`], and resolves all payloads whose
//! pattern matches a delivered topic. It also tracks the distinct broker
//! subscriptions (with their effective `QoS`) so callers know when to
//! subscribe or unsubscribe on the wire.
use std::collections::HashMap;

use vstd::prelude::*;
use vstd::std_specs::iter::IteratorSpec;

use crate::qos::{qos_level, QoS};
use crate::text::{append_chars, decimal, decimal_string, owned_string, string_eq};
use crate::topic_match::TopicPath;
use crate::topic_matcher::{
    derefs, lemma_collect_routes, lemma_find_by_path, matcher_error_message, route, route_matches, updated_ok, Key, Len,
    MatcherErrorView, TopicMatcherError, TopicMatcherNode,
};
use crate::topic_pattern_item::{pattern_error_message, PatternErrorView, TopicPatternError};
use crate::topic_pattern_path::{items_view, mqtt_text, PatternView, TopicPatternPath};

verus! {

broadcast use vstd::std_specs::hash::group_hash_axioms;

/// Errors that can occur during topic routing operations.
#[derive(Debug, Clone, PartialEq, Eq)]
pub enum TopicRouterError {
    /// Topic pattern validation failed.
    InvalidPattern(TopicPatternError),
    /// Topic matching operation failed.
    MatchingFailed(TopicMatcherError),
    /// Subscription with the given id was not found.
    SubscriptionNotFound {
        /// The subscription id that could not be found.
        id: SubscriptionId,
    },
    /// Topic is invalid for routing operations.
    InvalidRoutingTopic {
        /// The topic that was rejected.
        topic: String,
        /// Why the topic is invalid for routing.
        reason: String,
    },
    /// Internal state corruption detected.
    InternalStateCorrupted {
        /// Description of the detected inconsistency.
        details: String,
    },
}

/// The mathematical content of a [`TopicRouterError`].
pub enum RouterErrorView {
    InvalidPattern(PatternErrorView),
    MatchingFailed(MatcherErrorView),
    SubscriptionNotFound(usize),
    InvalidRoutingTopic(Seq<char>, Seq<char>),
    InternalStateCorrupted(Seq<char>),
}

impl View for TopicRouterError {
    type V = RouterErrorView;

    open spec fn view(&self) -> RouterErrorView {
        match self {
            TopicRouterError::InvalidPattern(e) => RouterErrorView::InvalidPattern(e@),
            TopicRouterError::MatchingFailed(e) => RouterErrorView::MatchingFailed(e@),
            TopicRouterError::SubscriptionNotFound { id } => RouterErrorView::SubscriptionNotFound(id@),
            TopicRouterError::InvalidRoutingTopic { topic, reason } => RouterErrorView::InvalidRoutingTopic(
                topic@,
                reason@,
            ),
            TopicRouterError::InternalStateCorrupted { details } => RouterErrorView::InternalStateCorrupted(
                details@,
            ),
        }
    }
}

impl TopicRouterError {
    /// Creates a `SubscriptionNotFound` error.
    pub fn subscription_not_found(id: SubscriptionId) -> (e: Self)
        ensures
            e@ == RouterErrorView::SubscriptionNotFound(id@),
    {
        TopicRouterError::SubscriptionNotFound { id }
    }

    /// Creates an `InvalidRoutingTopic` error.
    pub fn invalid_routing_topic(topic: String, reason: String) -> (e: Self)
        ensures
            e@ == RouterErrorView::InvalidRoutingTopic(topic@, reason@),
    {
        TopicRouterError::InvalidRoutingTopic { topic, reason }
    }

    /// Creates an `InternalStateCorrupted` error.
    pub fn internal_state_corrupted(details: String) -> (e: Self)
        ensures
            e@ == RouterErrorView::InternalStateCorrupted(details@),
    {
        TopicRouterError::InternalStateCorrupted { details }
    }

    /// Human-readable description of the error.
    pub fn message(&self) -> (s: String)
        ensures
            s@ == router_error_message(self@),
    {
        let mut s = String::new();
        match self {
            TopicRouterError::InvalidPattern(e) => {
                append_chars(&mut s, "Invalid topic pattern: ");
                let m = e.message();
                append_chars(&mut s, m.as_str());
            },
            TopicRouterError::MatchingFailed(e) => {
                append_chars(&mut s, "Topic matching failed: ");
                let m = e.message();
                append_chars(&mut s, m.as_str());
            },
            TopicRouterError::SubscriptionNotFound { id } => {
                append_chars(&mut s, "Subscription ");
                let m = id.to_string();
                append_chars(&mut s, m.as_str());
                append_chars(&mut s, " not found");
            },
            TopicRouterError::InvalidRoutingTopic { topic, reason } => {
                append_chars(&mut s, "Topic '");
                append_chars(&mut s, topic.as_str());
                append_chars(&mut s, "' is invalid for routing: ");
                append_chars(&mut s, reason.as_str());
            },
            TopicRouterError::InternalStateCorrupted { details } => {
                append_chars(&mut s, "Internal routing state corrupted: ");
                append_chars(&mut s, details.as_str());
            },
        }
        s
    }
}

/// The text of [`TopicRouterError::message`].
pub open spec fn router_error_message(e: RouterErrorView) -> Seq<char> {
    match e {
        RouterErrorView::InvalidPattern(p) => "Invalid topic pattern: "@ + pattern_error_message(p),
        RouterErrorView::MatchingFailed(m) => "Topic matching failed: "@ + matcher_error_message(m),
        RouterErrorView::SubscriptionNotFound(id) => "Subscription "@ + subscription_id_text(id)
            + " not found"@,
        RouterErrorView::InvalidRoutingTopic(t, r) => "Topic '"@ + t + "' is invalid for routing: "@
            + r,
        RouterErrorView::InternalStateCorrupted(d) => "Internal routing state corrupted: "@ + d,
    }
}

impl From<TopicPatternError> for TopicRouterError {
    fn from(e: TopicPatternError) -> (r: TopicRouterError) {
        TopicRouterError::InvalidPattern(e)
    }
}

impl vstd::std_specs::convert::FromSpecImpl<TopicPatternError> for TopicRouterError {
    open spec fn obeys_from_spec() -> bool {
        true
    }

    open spec fn from_spec(v: TopicPatternError) -> TopicRouterError {
        TopicRouterError::InvalidPattern(v)
    }
}

impl From<TopicMatcherError> for TopicRouterError {
    fn from(e: TopicMatcherError) -> (r: TopicRouterError) {
        TopicRouterError::MatchingFailed(e)
    }
}

impl vstd::std_specs::convert::FromSpecImpl<TopicMatcherError> for TopicRouterError {
    open spec fn obeys_from_spec() -> bool {
        true
    }

    open spec fn from_spec(v: TopicMatcherError) -> TopicRouterError {
        TopicRouterError::MatchingFailed(v)
    }
}

/// A subscription identifier, handed out by [`TopicRouter::add_subscription`].
#[derive(Debug, Clone, Copy, PartialEq, Eq, Structural, Hash)]
pub struct SubscriptionId(usize);

impl View for SubscriptionId {
    type V = usize;

    closed spec fn view(&self) -> usize {
        self.0
    }
}

/// The text of [`SubscriptionId::to_string`].
pub open spec fn subscription_id_text(id: usize) -> Seq<char> {
    "SubscriptionId("@ + decimal(id as nat) + ")"@
}

impl SubscriptionId {
    /// Two ids with the same number are the same id.
    pub proof fn lemma_view_injective(a: SubscriptionId, b: SubscriptionId)
        ensures
            a@ == b@ <==> a == b,
    {
    }

    /// `SubscriptionId(n)`, as `Display` shows it.
    pub fn to_string(&self) -> (s: String)
        ensures
            s@ == subscription_id_text(self@),
    {
        let mut s = owned_string("SubscriptionId(");
        let n = decimal_string(self.0);
        append_chars(&mut s, n.as_str());
        append_chars(&mut s, ")");
        s
    }
}

/// Broker action needed after removing a local subscription.
#[derive(Debug, Clone)]
pub enum UnsubscribeAction {
    /// The effective broker subscription did not change.
    NoBrokerAction {
        /// The topic pattern that still has local subscribers.
        topic: TopicPatternPath,
    },
    /// No local subscribers remain for this topic pattern.
    Unsubscribe {
        /// The topic pattern to unsubscribe from on the broker.
        topic: TopicPatternPath,
    },
    /// Local subscribers remain, but their maximum requested `QoS` is lower.
    Resubscribe {
        /// The topic pattern to resubscribe to on the broker.
        topic: TopicPatternPath,
        /// The new maximum `QoS` requested by remaining local subscribers.
        qos: QoS,
    },
}

/// The route under which the subscriptions of a pattern are stored: that of
/// its items with the bound values put in.
pub open spec fn pattern_route(p: PatternView) -> Seq<Key> {
    route(p.effective_items())
}

/// Subscription `j` is registered and shares route `r`.
pub open spec fn on_route(subs: Map<usize, (TopicPatternPath, QoS)>, r: Seq<Key>, j: usize) -> bool {
    subs.contains_key(j) && pattern_route(subs[j].0@) == r
}

/// `q` is the highest `QoS` among the subscriptions on route `r`.
pub open spec fn is_max_qos(subs: Map<usize, (TopicPatternPath, QoS)>, r: Seq<Key>, q: QoS) -> bool {
    &&& exists|j: usize| #[trigger] on_route(subs, r, j) && subs[j].1 == q
    &&& forall|j: usize| #[trigger] on_route(subs, r, j) ==> qos_level(subs[j].1) <= qos_level(q)
}

/// The mathematical content of a [`TopicRouter`].
pub struct RouterView<T> {
    /// Registered subscriptions by id: pattern and requested `QoS`.
    pub subscriptions: Map<usize, (TopicPatternPath, QoS)>,
    /// Payloads by subscription id.
    pub payloads: Map<usize, T>,
    /// How many ids have been handed out since creation or cleanup.
    pub issued: nat,
}

/// Routes MQTT topics to subscription payloads.
pub struct TopicRouter<T> {
    topic_matcher: TopicMatcherNode<HashMap<usize, T>>,
    subscriptions: HashMap<usize, (TopicPatternPath, QoS)>,
    next_id: usize,
}

/// The tables of the matcher and the registered subscriptions agree: every
/// table is non-empty, holds exactly the ids registered on its route, and
/// every id is below `next`.
spec fn tables_agree<T>(
    m: Map<Seq<Key>, HashMap<usize, T>>,
    subs: Map<usize, (TopicPatternPath, QoS)>,
    next: nat,
) -> bool {
    &&& forall|r: Seq<Key>| #[trigger] m.contains_key(r) ==> !m[r]@.is_empty()
    &&& forall|r: Seq<Key>, id: usize|
        m.contains_key(r) && #[trigger] m[r]@.contains_key(id) ==> on_route(subs, r, id)
    &&& forall|id: usize| #[trigger]
        subs.contains_key(id) ==> m.contains_key(pattern_route(subs[id].0@)) && m[pattern_route(
            subs[id].0@,
        )]@.contains_key(id) && id < next
}

impl<T> View for TopicRouter<T> {
    type V = RouterView<T>;

    closed spec fn view(&self) -> RouterView<T> {
        RouterView {
            subscriptions: self.subscriptions@,
            payloads: Map::new(
                |id: usize| self.subscriptions@.contains_key(id),
                |id: usize| self.topic_matcher@[pattern_route(self.subscriptions@[id].0@)]@[id],
            ),
            issued: self.next_id as nat,
        }
    }
}

impl<T> TopicRouter<T> {
    /// The router's internal structures are consistent.
    pub closed spec fn wf(&self) -> bool {
        &&& self.topic_matcher.wf()
        &&& self.topic_matcher.pruned()
        &&& tables_agree(self.topic_matcher@, self.subscriptions@, self.next_id as nat)
    }
}

/// The highest `QoS` among the subscriptions whose ids a table holds.
fn max_qos_in<T>(subscriptions: &HashMap<usize, (TopicPatternPath, QoS)>, table: &HashMap<usize, T>) -> (r:
    Option<QoS>)
    requires
        forall|k: usize| #[trigger] table@.contains_key(k) ==> subscriptions@.contains_key(k),
    ensures
        r is None <==> table@.is_empty(),
        match r {
            Some(q) => (exists|k: usize| #[trigger] table@.contains_key(k) && subscriptions@[k].1 == q)
                && forall|k: usize| #[trigger]
                table@.contains_key(k) ==> qos_level(subscriptions@[k].1) <= qos_level(q),
            None => true,
        },
{
    let ghost s = table.iter().remaining();
    let ghost mut n: int = 0;
    let mut best: Option<QoS> = None;
    for kv in it: table.iter()
        invariant
            it.seq() == s,
            s == table.iter().remaining(),
            n == it.index(),
            forall|k: usize| #[trigger] table@.contains_key(k) ==> subscriptions@.contains_key(k),
            forall|i: int|
                0 <= i < n ==> match best {
                    Some(b) => qos_level(subscriptions@[*(#[trigger] s[i]).0].1) <= qos_level(b),
                    None => false,
                },
            match best {
                Some(b) => exists|i: int| 0 <= i < n && subscriptions@[*(#[trigger] s[i]).0].1 == b,
                None => n == 0,
            },
    {
        proof {
            assert(table@.contains_key(*s[n].0));
        }
        let q = subscriptions.get(kv.0).unwrap().1;
        match best {
            Some(b) => {
                if q.level() > b.level() {
                    best = Some(q);
                }
            },
            None => {
                best = Some(q);
            },
        }
        proof {
            n = n + 1;
        }
    }
    proof {
        assert(n == s.len());
        assert forall|k: usize| #[trigger] table@.contains_key(k) implies qos_level(subscriptions@[k].1)
            <= qos_level(best->0) by {
            assert(s.contains((&k, &table@[k])));
            let i = choose|i: int| 0 <= i < s.len() && s[i] == (&k, &table@[k]);
            assert(*s[i].0 == k);
        }
        if best is None {
            if !table@.is_empty() {
                let k = table@.dom().choose();
                assert(table@.contains_key(k));
                assert(s.contains((&k, &table@[k])));
            }
        } else {
            let i = choose|i: int| 0 <= i < n && subscriptions@[*(#[trigger] s[i]).0].1 == best->0;
            assert(table@.contains_key(*s[i].0));
        }
    }
    best
}

/// What [`TopicRouter::unsubscribe`] answers after removing subscription
/// `removed`, with `rest` left registered.
pub open spec fn unsubscribe_outcome(
    rest: Map<usize, (TopicPatternPath, QoS)>,
    removed: (TopicPatternPath, QoS),
    a: UnsubscribeAction,
) -> bool {
    let r = pattern_route(removed.0@);
    match a {
        UnsubscribeAction::Unsubscribe { topic } => topic == removed.0 && !exists|j: usize|
            #[trigger] on_route(rest, r, j),
        UnsubscribeAction::Resubscribe { topic, qos } => topic == removed.0 && is_max_qos(rest, r, qos)
            && qos_level(qos) < qos_level(removed.1),
        UnsubscribeAction::NoBrokerAction { topic } => topic == removed.0 && exists|q: QoS|
            #[trigger] is_max_qos(rest, r, q) && qos_level(q) >= qos_level(removed.1),
    }
}

/// Removing `key` from its table (dropping the table when it empties) keeps
/// the tables in agreement with the remaining subscriptions.
proof fn lemma_removed_agrees<T>(
    m0: Map<Seq<Key>, HashMap<usize, T>>,
    m1: Map<Seq<Key>, HashMap<usize, T>>,
    s0: Map<usize, (TopicPatternPath, QoS)>,
    next: nat,
    key: usize,
    v: HashMap<usize, T>,
)
    requires
        tables_agree(m0, s0, next),
        s0.contains_key(key),
        v@ == m0[pattern_route(s0[key].0@)]@.remove(key),
        updated_ok(m0, m1, pattern_route(s0[key].0@), v),
    ensures
        tables_agree(m1, s0.remove(key), next),
        forall|j: usize|
            #[trigger] on_route(s0.remove(key), pattern_route(s0[key].0@), j) <==> (m1.contains_key(
                pattern_route(s0[key].0@),
            ) && m1[pattern_route(s0[key].0@)]@.contains_key(j)),
        m1.contains_key(pattern_route(s0[key].0@)) ==> m1[pattern_route(s0[key].0@)] == v,
        forall|id: usize| #[trigger]
            s0.remove(key).contains_key(id) ==> m1[pattern_route(s0[id].0@)]@[id] == m0[pattern_route(
                s0[id].0@,
            )]@[id],
{
    let p = pattern_route(s0[key].0@);
    let s1 = s0.remove(key);
    assert(m0.contains_key(p));
    assert forall|q: Seq<Key>| q != p && #[trigger] m0.contains_key(q) implies m1.contains_key(q)
        && m1[q] == m0[q] by {
        assert(!m0[q]@.is_empty());
    }
    assert forall|r: Seq<Key>, id: usize|
        m1.contains_key(r) && #[trigger] m1[r]@.contains_key(id) implies on_route(s1, r, id) by {
        if r == p {
            assert(m0[p]@.contains_key(id));
        } else {
            assert(m0.contains_key(r));
            assert(m0[r]@.contains_key(id));
            assert(on_route(s0, r, id));
        }
    }
    assert forall|id: usize| #[trigger] s1.contains_key(id) implies m1.contains_key(
        pattern_route(s1[id].0@),
    ) && m1[pattern_route(s1[id].0@)]@.contains_key(id) && id < next by {
        assert(s0.contains_key(id));
        if pattern_route(s0[id].0@) == p {
            assert(v@.contains_key(id));
        }
    }
    assert forall|j: usize| #[trigger] on_route(s1, p, j) <==> (m1.contains_key(p) && m1[p]@.contains_key(
        j,
    )) by {
        if on_route(s1, p, j) {
            assert(s0.contains_key(j));
            assert(v@.contains_key(j));
        }
        if m1.contains_key(p) && m1[p]@.contains_key(j) {
            assert(m0[p]@.contains_key(j));
        }
    }
    assert forall|id: usize| #[trigger] s1.contains_key(id) implies m1[pattern_route(s0[id].0@)]@[id]
        == m0[pattern_route(s0[id].0@)]@[id] by {
        assert(s0.contains_key(id));
        if pattern_route(s0[id].0@) == p {
            assert(v@.contains_key(id));
        }
    }
}

impl<T> TopicRouter<T> {
    /// Creates an empty router with no subscriptions.
    pub fn new() -> (r: Self)
        ensures
            r.wf(),
            r@.subscriptions == Map::<usize, (TopicPatternPath, QoS)>::empty(),
            r@.payloads == Map::<usize, T>::empty(),
            r@.issued == 0,
    {
        let r = TopicRouter {
            topic_matcher: TopicMatcherNode::new(),
            subscriptions: HashMap::new(),
            next_id: 0,
        };
        assert(r@.payloads =~= Map::<usize, T>::empty());
        r
    }

    /// Registers a subscription for `topic` with the given `qos` and payload.
    ///
    /// Returns `(needs_subscribe, id)`: `needs_subscribe` is `true` when no
    /// subscription on the same route asked for this `QoS` or more, so the
    /// caller must (re)subscribe on the broker.
    pub fn add_subscription(&mut self, topic: TopicPatternPath, qos: QoS, subscription: T) -> (r: (
        bool,
        SubscriptionId,
    ))
        requires
            old(self).wf(),
            old(self)@.issued < usize::MAX,
        ensures
            final(self).wf(),
            r.1@ == old(self)@.issued,
            !old(self)@.subscriptions.contains_key(r.1@),
            final(self)@.issued == old(self)@.issued + 1,
            final(self)@.subscriptions == old(self)@.subscriptions.insert(r.1@, (topic, qos)),
            final(self)@.payloads == old(self)@.payloads.insert(r.1@, subscription),
            r.0 == !exists|j: usize|
                #[trigger] on_route(old(self)@.subscriptions, pattern_route(topic@), j) && qos_level(
                    old(self)@.subscriptions[j].1,
                ) >= qos_level(qos),
    {
        let ghost m0 = self.topic_matcher@;
        let ghost s0 = self.subscriptions@;
        let ghost v0 = self@;
        let ghost p = pattern_route(topic@);
        let id_num = self.next_id;
        let table = self.topic_matcher.get_or_create_subscription_table(&topic);
        let ghost t0 = *table;
        proof {
            if !m0.contains_key(p) {
                assert(t0@ == Map::<usize, T>::empty());
            }
            assert forall|k: usize| #[trigger] t0@.contains_key(k) implies on_route(s0, p, k) by {
                assert(m0.contains_key(p));
            }
        }
        let max = max_qos_in(&self.subscriptions, table);
        let needs_subscribe = match max {
            Some(m) => qos.level() > m.level(),
            None => true,
        };
        proof {
            if exists|j: usize| #[trigger] on_route(s0, p, j) && qos_level(s0[j].1) >= qos_level(qos) {
                let j = choose|j: usize| #[trigger] on_route(s0, p, j) && qos_level(s0[j].1) >= qos_level(qos);
                assert(m0.contains_key(p));
                assert(t0@.contains_key(j));
                assert(max is Some);
                assert(qos_level(s0[j].1) <= qos_level(max->0));
                assert(!needs_subscribe);
            }
            if !needs_subscribe {
                let k = choose|k: usize| #[trigger] t0@.contains_key(k) && s0[k].1 == max->0;
                assert(on_route(s0, p, k));
                assert(qos_level(s0[k].1) >= qos_level(qos));
                assert(exists|j: usize| #[trigger] on_route(s0, p, j) && qos_level(s0[j].1) >= qos_level(qos));
            }
            assert(needs_subscribe == !exists|j: usize| #[trigger] on_route(s0, p, j) && qos_level(s0[j].1) >= qos_level(qos));
        }
        self.next_id = self.next_id.wrapping_add(1);
        table.insert(id_num, subscription);
        self.subscriptions.insert(id_num, (topic, qos));
        proof {
            let m1 = self.topic_matcher@;
            let s1 = self.subscriptions@;
            assert(!s0.contains_key(id_num));
            assert(m1 == m0.insert(p, m1[p]));
            assert(m1[p]@ == t0@.insert(id_num, subscription));
            assert forall|r: Seq<Key>, id: usize|
                m1.contains_key(r) && #[trigger] m1[r]@.contains_key(id) implies on_route(s1, r, id) by {
                if r == p {
                    if id != id_num {
                        assert(t0@.contains_key(id));
                        assert(on_route(s0, p, id));
                    }
                } else {
                    assert(on_route(s0, r, id));
                }
            }
            assert forall|id: usize| #[trigger] s1.contains_key(id) implies m1.contains_key(
                pattern_route(s1[id].0@),
            ) && m1[pattern_route(s1[id].0@)]@.contains_key(id) && id < self.next_id by {
                if id != id_num {
                    assert(s0.contains_key(id));
                    if pattern_route(s0[id].0@) == p {
                        assert(t0@.contains_key(id));
                    }
                }
            }
            assert(self@.payloads =~= v0.payloads.insert(id_num, subscription)) by {
                assert forall|id: usize| #[trigger] self@.payloads.contains_key(id) implies self@.payloads[id]
                    == v0.payloads.insert(id_num, subscription)[id] by {
                    if id != id_num {
                        assert(s0.contains_key(id));
                        if pattern_route(s0[id].0@) == p {
                            assert(t0@.contains_key(id));
                        }
                    }
                }
            }
        }
        assert(s0 == old(self)@.subscriptions);
        assert(p == pattern_route(topic@));
        (needs_subscribe, SubscriptionId(id_num))
    }

    /// The `(pattern, qos)` registered for a subscription id.
    pub fn get_topic_by_id(&self, id: &SubscriptionId) -> (r: Result<&(TopicPatternPath, QoS), TopicRouterError>)
        ensures
            match r {
                Ok(e) => self@.subscriptions.contains_key(id@) && *e == self@.subscriptions[id@],
                Err(e) => !self@.subscriptions.contains_key(id@) && e@ == RouterErrorView::SubscriptionNotFound(
                    id@,
                ),
            },
    {
        match self.subscriptions.get(&id.0) {
            Some(e) => Ok(e),
            None => Err(TopicRouterError::subscription_not_found(*id)),
        }
    }

    /// Drops every subscription and restarts the id counter.
    pub fn cleanup(&mut self)
        ensures
            final(self).wf(),
            final(self)@.subscriptions == Map::<usize, (TopicPatternPath, QoS)>::empty(),
            final(self)@.payloads == Map::<usize, T>::empty(),
            final(self)@.issued == 0,
    {
        self.topic_matcher = TopicMatcherNode::new();
        self.subscriptions.clear();
        self.next_id = 0;
        assert(self@.payloads =~= Map::<usize, T>::empty());
    }
}

impl<T> TopicRouter<T> {
    /// Removes the subscription identified by `id` and tells what the broker
    /// subscription for its pattern needs now; fails when `id` is unknown.
    pub fn unsubscribe(&mut self, id: &SubscriptionId) -> (r: Result<UnsubscribeAction, TopicRouterError>)
        requires
            old(self).wf(),
        ensures
            final(self).wf(),
            final(self)@.issued == old(self)@.issued,
            !old(self)@.subscriptions.contains_key(id@) ==> r is Err && r->Err_0@
                == RouterErrorView::SubscriptionNotFound(id@) && final(self)@ == old(self)@,
            old(self)@.subscriptions.contains_key(id@) ==> r is Ok && final(self)@.subscriptions == old(
                self,
            )@.subscriptions.remove(id@) && final(self)@.payloads == old(self)@.payloads.remove(id@)
                && unsubscribe_outcome(
                final(self)@.subscriptions,
                old(self)@.subscriptions[id@],
                r->Ok_0,
            ),
    {
        let key = id.0;
        let ghost m0 = self.topic_matcher@;
        let ghost s0 = self.subscriptions@;
        let ghost v0 = self@;
        let removed = self.subscriptions.remove(&key);
        let (topic_pattern, removed_qos) = match removed {
            Some(entry) => entry,
            None => {
                assert(self.subscriptions@ =~= s0);
                return Err(TopicRouterError::subscription_not_found(*id));
            },
        };
        let ghost s1 = self.subscriptions@;
        assert(s1 == s0.remove(key));
        let ghost p = pattern_route(topic_pattern@);
        let resolved = topic_pattern.resolve_bound_segments();
        proof {
            assert(m0.contains_key(p));
        }
        let remove_id = move |table: &mut HashMap<usize, T>|
            ensures
                final(table)@ == old(table)@.remove(key),
            {
                table.remove(&key);
            };
        let res = self.topic_matcher.update_node(resolved.as_slice(), remove_id);
        match res {
            Ok(_) => {},
            Err(e) => {
                proof {
                    assert(false);
                }
                return Err(TopicRouterError::MatchingFailed(e));
            },
        }
        let ghost m1 = self.topic_matcher@;
        proof {
            let x = choose|x: &mut HashMap<usize, T>|
                *x == m0[p] && #[trigger] call_ensures(remove_id, (x,), ()) && updated_ok(
                    m0,
                    m1,
                    p,
                    *final(x),
                );
            lemma_removed_agrees(m0, m1, s0, self.next_id as nat, key, *final(x));
        }
        proof {
            assert(self@.payloads =~= v0.payloads.remove(key));
        }
        let found = self.topic_matcher.find_payload(resolved.as_slice());
        let r = match found {
            None => {
                proof {
                    assert(!exists|j: usize| #[trigger] on_route(s1, p, j));
                }
                Ok(UnsubscribeAction::Unsubscribe { topic: topic_pattern })
            },
            Some(table) => {
                proof {
                    assert forall|k: usize| #[trigger] table@.contains_key(k) implies s1.contains_key(k) by {
                        assert(on_route(s1, p, k));
                    }
                }
                match max_qos_in(&self.subscriptions, table) {
                    Some(q) => {
                        proof {
                            let k = choose|k: usize| #[trigger] table@.contains_key(k) && s1[k].1 == q;
                            assert(on_route(s1, p, k));
                            assert forall|j: usize| #[trigger] on_route(s1, p, j) implies qos_level(s1[j].1)
                                <= qos_level(q) by {
                                assert(table@.contains_key(j));
                            }
                            assert(is_max_qos(s1, p, q));
                        }
                        if q.level() < removed_qos.level() {
                            Ok(UnsubscribeAction::Resubscribe { topic: topic_pattern, qos: q })
                        } else {
                            Ok(UnsubscribeAction::NoBrokerAction { topic: topic_pattern })
                        }
                    },
                    None => {
                        proof {
                            assert(false);
                        }
                        let mut details = owned_string(
                            "Topic matcher reported non-empty state but no subscribers remained for topic ",
                        );
                        let t = topic_pattern.to_string();
                        append_chars(&mut details, t.as_str());
                        Err(TopicRouterError::internal_state_corrupted(details))
                    },
                }
            },
        };
        r
    }
}

/// Entry `e` of [`TopicRouter::get_subscribers`] is registered subscription
/// `e.0`, with its pattern, `QoS` and payload, and its pattern matches
/// topic levels `t`.
pub open spec fn subscriber_entry<T>(
    v: RouterView<T>,
    t: Seq<Seq<char>>,
    e: (SubscriptionId, &(TopicPatternPath, QoS), &T),
) -> bool {
    &&& v.subscriptions.contains_key(e.0@)
    &&& *e.1 == v.subscriptions[e.0@]
    &&& *e.2 == v.payloads[e.0@]
    &&& route_matches(pattern_route(v.subscriptions[e.0@].0@), t)
}

impl<T> TopicRouter<T> {
    /// Every subscription whose pattern matches `topic`, each once, as
    /// `(id, (pattern, qos), payload)`, in no particular order.
    pub fn get_subscribers<'a>(&'a self, topic: &TopicPath) -> (r: Vec<
        (SubscriptionId, &'a (TopicPatternPath, QoS), &'a T),
    >)
        requires
            self.wf(),
        ensures
            forall|i: int|
                0 <= i < r.len() ==> #[trigger] subscriber_entry(
                    self@,
                    topic.segments.deep_view(),
                    r@[i],
                ),
            forall|i: int, j: int| 0 <= i < j < r.len() ==> (#[trigger] r@[i]).0 != (#[trigger] r@[j]).0,
            forall|id: usize|
                #[trigger] self@.subscriptions.contains_key(id) && route_matches(
                    pattern_route(self@.subscriptions[id].0@),
                    topic.segments.deep_view(),
                ) ==> exists|i: int| 0 <= i < r.len() && (#[trigger] r@[i]).0@ == id,
    {
        let ghost t = topic.segments.deep_view();
        let ghost m = self.topic_matcher@;
        let ghost subs = self.subscriptions@;
        let tables = self.topic_matcher.find_by_path(topic);
        let ghost cr = self.topic_matcher.collect_routes(t);
        proof {
            lemma_collect_routes(self.topic_matcher, t);
            assert forall|k: int| 0 <= k < tables.len() implies m.contains_key(#[trigger] cr[k]) && m[cr[k]]
                == *tables@[k] && route_matches(cr[k], t) by {
                assert(derefs(tables@)[k] == *tables@[k]);
            }
        }
        let mut result: Vec<(SubscriptionId, &'a (TopicPatternPath, QoS), &'a T)> = Vec::new();
        let ghost mut owner: Seq<int> = Seq::empty();
        let mut i: usize = 0;
        while i < tables.len()
            invariant
                i <= tables.len(),
                self.wf(),
                m == self.topic_matcher@,
                subs == self.subscriptions@,
                cr.len() == tables.len(),
                cr.no_duplicates(),
                forall|k: int| 0 <= k < tables.len() ==> m.contains_key(#[trigger] cr[k]) && m[cr[k]]
                    == *tables@[k] && route_matches(cr[k], t),
                owner.len() == result.len(),
                forall|x: int| 0 <= x < result.len() ==> #[trigger] subscriber_entry(self@, t, result@[x]),
                forall|x: int|
                    0 <= x < result.len() ==> 0 <= #[trigger] owner[x] < i && pattern_route(
                        subs[result@[x].0@].0@,
                    ) == cr[owner[x]],
                forall|x: int, y: int|
                    0 <= x < y < result.len() ==> (#[trigger] result@[x]).0 != (#[trigger] result@[y]).0,
                forall|k: int, id: usize|
                    0 <= k < i && #[trigger] tables@[k]@.contains_key(id) ==> exists|x: int|
                        0 <= x < result.len() && (#[trigger] result@[x]).0@ == id,
            decreases tables.len() - i,
        {
            let table: &'a HashMap<usize, T> = tables[i];
            let ghost ri = cr[i as int];
            let ghost start = result.len() as int;
            let ghost s = table.iter().remaining();
            let ghost mut n: int = 0;
            proof {
                assert(m.contains_key(ri) && m[ri] == *table);
            }
            for kv in it: table.iter()
                invariant
                    it.seq() == s,
                    s == table.iter().remaining(),
                    s.no_duplicates(),
                    n == it.index(),
                    0 <= start,
                    result.len() == start + n,
                    owner.len() == result.len(),
                    self.wf(),
                    m == self.topic_matcher@,
                    subs == self.subscriptions@,
                    m.contains_key(ri),
                    m[ri] == *table,
                    route_matches(ri, t),
                    i < tables.len(),
                    ri == cr[i as int],
                    cr.len() == tables.len(),
                    cr.no_duplicates(),
                    forall|k: int| 0 <= k < tables.len() ==> m.contains_key(#[trigger] cr[k]) && m[cr[k]]
                        == *tables@[k] && route_matches(cr[k], t),
                    forall|x: int| 0 <= x < result.len() ==> #[trigger] subscriber_entry(self@, t, result@[x]),
                    forall|x: int|
                        0 <= x < result.len() ==> 0 <= #[trigger] owner[x] <= i && pattern_route(
                            subs[result@[x].0@].0@,
                        ) == cr[owner[x]] && (x < start ==> owner[x] < i) && (x >= start ==> owner[x]
                            == i),
                    forall|q: int| 0 <= q < n ==> (#[trigger] result@[start + q]).0@ == *s[q].0,
                    forall|x: int, y: int|
                        0 <= x < y < result.len() ==> (#[trigger] result@[x]).0 != (#[trigger] result@[y]).0,
                    forall|k: int, id: usize|
                        0 <= k < i && #[trigger] tables@[k]@.contains_key(id) ==> exists|x: int|
                            0 <= x < result.len() && (#[trigger] result@[x]).0@ == id,
            {
                let key = *kv.0;
                proof {
                    assert(table@.contains_key(*s[n].0) && table@[*s[n].0] == *s[n].1);
                    assert(m[ri]@.contains_key(key));
                    assert(on_route(subs, ri, key));
                }
                let entry = self.subscriptions.get(&key).unwrap();
                let ghost before = result@;
                let ghost before_owner = owner;
                result.push((SubscriptionId(key), entry, kv.1));
                proof {
                    owner = owner.push(i as int);
                    let e = result@[result.len() - 1];
                    assert(e.0@ == key);
                    assert(subscriber_entry(self@, t, e));
                    assert forall|x: int| 0 <= x < result.len() - 1 implies (#[trigger] result@[x]).0@ != key by {
                        assert(result@[x] == before[x]);
                        if x < start {
                            assert(before_owner[x] < i);
                            assert(cr[before_owner[x]] != cr[i as int]);
                        } else {
                            let q = x - start;
                            assert(before[start + q].0@ == *s[q].0);
                            assert(s[q] != s[n]);
                            assert(table@[*s[q].0] == *s[q].1);
                        }
                    }
                    assert forall|x: int, y: int| 0 <= x < y < result.len() implies (#[trigger] result@[x]).0
                        != (#[trigger] result@[y]).0 by {
                        if y == result.len() - 1 {
                            assert(result@[x].0@ != key);
                        } else {
                            assert(result@[x] == before[x] && result@[y] == before[y]);
                        }
                    }
                    assert forall|k: int, id: usize| 0 <= k < i && #[trigger] tables@[k]@.contains_key(id) implies exists|x: int|
                        0 <= x < result.len() && (#[trigger] result@[x]).0@ == id by {
                        let x = choose|x: int| 0 <= x < before.len() && (#[trigger] before[x]).0@ == id;
                        assert(result@[x] == before[x]);
                    }
                    assert forall|x: int| 0 <= x < result.len() implies 0 <= #[trigger] owner[x] <= i && pattern_route(
                        subs[result@[x].0@].0@,
                    ) == cr[owner[x]] && (x < start ==> owner[x] < i) && (x >= start ==> owner[x] == i) by {
                        if x < result.len() - 1 {
                            assert(result@[x] == before[x]);
                            assert(owner[x] == before_owner[x]);
                        }
                    }
                    assert forall|x: int| 0 <= x < result.len() implies #[trigger] subscriber_entry(self@, t, result@[x]) by {
                        if x < result.len() - 1 {
                            assert(result@[x] == before[x]);
                        }
                    }
                    assert forall|q: int| 0 <= q < n + 1 implies (#[trigger] result@[start + q]).0@ == *s[q].0 by {
                        if q < n {
                            assert(result@[start + q] == before[start + q]);
                        }
                    }
                    n = n + 1;
                }
            }
            proof {
                assert(n == s.len());
                assert forall|id: usize| #[trigger] tables@[i as int]@.contains_key(id) implies exists|x: int|
                    0 <= x < result.len() && (#[trigger] result@[x]).0@ == id by {
                    assert(s.contains((&id, &table@[id])));
                    let q = choose|q: int| 0 <= q < s.len() && s[q] == (&id, &table@[id]);
                    assert(result@[start + q].0@ == id);
                }
            }
            i += 1;
        }
        proof {
            assert forall|id: usize|
                #[trigger] self@.subscriptions.contains_key(id) && route_matches(
                    pattern_route(self@.subscriptions[id].0@),
                    t,
                ) implies exists|x: int| 0 <= x < result.len() && (#[trigger] result@[x]).0@ == id by {
                let p = pattern_route(subs[id].0@);
                assert(m.contains_key(p) && m[p]@.contains_key(id));
                lemma_find_by_path(self.topic_matcher, t, m[p]);
                assert(self.topic_matcher.collect(t).contains(m[p]));
                let k = choose|k: int| 0 <= k < self.topic_matcher.collect(t).len() && self.topic_matcher.collect(t)[k] == m[p];
                assert(derefs(tables@)[k] == *tables@[k]);
                assert(tables@[k]@.contains_key(id));
            }
        }
        result
    }
}

/// The broker filter of subscription `id`: its MQTT pattern with the bound
/// values put in.
pub open spec fn broker_filter(subs: Map<usize, (TopicPatternPath, QoS)>, id: usize) -> Seq<char> {
    mqtt_text(subs[id].0@.effective_items())
}

/// `text` is the broker filter of some registered subscription.
pub open spec fn is_broker_filter(subs: Map<usize, (TopicPatternPath, QoS)>, text: Seq<char>) -> bool {
    exists|id: usize| #[trigger] subs.contains_key(id) && broker_filter(subs, id) == text
}

/// `q` is the highest `QoS` among the subscriptions whose broker filter is
/// `text`.
pub open spec fn is_max_filter_qos(subs: Map<usize, (TopicPatternPath, QoS)>, text: Seq<char>, q: QoS) -> bool {
    &&& exists|id: usize| #[trigger] subs.contains_key(id) && broker_filter(subs, id) == text && subs[id].1 == q
    &&& forall|id: usize|
        #[trigger] subs.contains_key(id) && broker_filter(subs, id) == text ==> qos_level(subs[id].1)
            <= qos_level(q)
}

/// Position of the entry whose text is `s`.
fn position_of_text(v: &Vec<(String, QoS)>, s: &String) -> (r: Option<usize>)
    ensures
        match r {
            Some(i) => i < v.len() && v@[i as int].0@ == s@,
            None => forall|i: int| 0 <= i < v.len() ==> (#[trigger] v@[i]).0@ != s@,
        },
{
    let mut i: usize = 0;
    while i < v.len()
        invariant
            i <= v.len(),
            forall|j: int| 0 <= j < i ==> (#[trigger] v@[j]).0@ != s@,
        decreases v.len() - i,
    {
        if string_eq(&v[i].0, s) {
            return Some(i);
        }
        i += 1;
    }
    None
}

/// Whether some string of `v` is `s`.
fn holds_text(v: &Vec<String>, s: &String) -> (r: bool)
    ensures
        r == exists|i: int| 0 <= i < v.len() && (#[trigger] v@[i])@ == s@,
{
    let mut i: usize = 0;
    while i < v.len()
        invariant
            i <= v.len(),
            forall|j: int| 0 <= j < i ==> (#[trigger] v@[j])@ != s@,
        decreases v.len() - i,
    {
        if string_eq(&v[i], s) {
            return true;
        }
        i += 1;
    }
    false
}

impl<T> TopicRouter<T> {
    /// Every active subscription as `(pattern, qos)`, once per subscription
    /// (patterns are not deduplicated), in no particular order.
    pub fn get_active_subscriptions(&self) -> (r: Vec<&(TopicPatternPath, QoS)>)
        ensures
            exists|ks: Seq<usize>|
                #![trigger ks.to_set()]
                ks.len() == r.len() && ks.no_duplicates() && ks.to_set() == self@.subscriptions.dom()
                    && forall|i: int| 0 <= i < r.len() ==> *(#[trigger] r@[i]) == self@.subscriptions[ks[i]],
    {
        let ghost subs = self.subscriptions@;
        let ghost s = self.subscriptions.iter().remaining();
        let ghost mut n: int = 0;
        let mut result: Vec<&(TopicPatternPath, QoS)> = Vec::new();
        for kv in it: self.subscriptions.iter()
            invariant
                it.seq() == s,
                s == self.subscriptions.iter().remaining(),
                n == it.index(),
                result.len() == n,
                forall|i: int| 0 <= i < n ==> (#[trigger] result@[i]) == s[i].1,
        {
            result.push(kv.1);
            proof {
                n = n + 1;
            }
        }
        proof {
            let ks = s.map_values(|e: (&usize, &(TopicPatternPath, QoS))| *e.0);
            assert(n == s.len());
            assert(s.no_duplicates());
            assert forall|i: int| 0 <= i < result.len() implies *(#[trigger] result@[i]) == subs[ks[i]] by {
                assert(subs.contains_key(*s[i].0) && subs[*s[i].0] == *s[i].1);
            }
            assert forall|i: int, j: int| 0 <= i < ks.len() && 0 <= j < ks.len() && i != j implies ks[i]
                != ks[j] by {
                assert(subs.contains_key(*s[i].0) && subs[*s[i].0] == *s[i].1);
                assert(subs.contains_key(*s[j].0) && subs[*s[j].0] == *s[j].1);
                assert(s[i] != s[j]);
            }
            assert forall|k: usize| ks.to_set().contains(k) <==> subs.dom().contains(k) by {
                if subs.dom().contains(k) {
                    assert(s.contains((&k, &subs[k])));
                    let i = choose|i: int| 0 <= i < s.len() && s[i] == (&k, &subs[k]);
                    assert(ks[i] == k);
                }
                if ks.to_set().contains(k) {
                    let i = choose|i: int| 0 <= i < ks.len() && ks[i] == k;
                    assert(subs.contains_key(*s[i].0));
                }
            }
            assert(ks.to_set() =~= subs.dom());
        }
        result
    }

    /// The distinct broker filters of the active subscriptions.
    pub fn get_topics_for_unsubscribe(&self) -> (r: Vec<String>)
        ensures
            forall|i: int, j: int| 0 <= i < j < r.len() ==> (#[trigger] r@[i])@ != (#[trigger] r@[j])@,
            forall|i: int| 0 <= i < r.len() ==> is_broker_filter(self@.subscriptions, (#[trigger] r@[i])@),
            forall|id: usize|
                #[trigger] self@.subscriptions.contains_key(id) ==> exists|i: int|
                    0 <= i < r.len() && (#[trigger] r@[i])@ == broker_filter(self@.subscriptions, id),
    {
        let ghost subs = self.subscriptions@;
        let ghost s = self.subscriptions.iter().remaining();
        let ghost mut n: int = 0;
        let ghost mut origin: Seq<int> = Seq::empty();
        let ghost mut slot: Seq<int> = Seq::empty();
        let mut result: Vec<String> = Vec::new();
        for kv in it: self.subscriptions.iter()
            invariant
                it.seq() == s,
                s == self.subscriptions.iter().remaining(),
                subs == self.subscriptions@,
                n == it.index(),
                origin.len() == result.len(),
                slot.len() == n,
                forall|i: int, j: int| 0 <= i < j < result.len() ==> (#[trigger] result@[i])@ != (
                #[trigger] result@[j])@,
                forall|i: int|
                    0 <= i < result.len() ==> 0 <= #[trigger] origin[i] < n && broker_filter(
                        subs,
                        *s[origin[i]].0,
                    ) == result@[i]@,
                forall|q: int|
                    0 <= q < n ==> 0 <= #[trigger] slot[q] < result.len() && result@[slot[q]]@
                        == broker_filter(subs, *s[q].0),
        {
            let ghost before = result@;
            proof {
                assert(subs.contains_key(*s[n].0) && subs[*s[n].0] == *s[n].1);
            }
            let text = kv.1.0.mqtt_pattern();
            if !holds_text(&result, &text) {
                result.push(text);
                proof {
                    origin = origin.push(n);
                    slot = slot.push(before.len() as int);
                }
            } else {
                proof {
                    let i = choose|i: int| 0 <= i < before.len() && (#[trigger] before[i])@ == text@;
                    slot = slot.push(i);
                }
            }
            proof {
                assert forall|i: int, j: int| 0 <= i < j < result.len() implies (#[trigger] result@[i])@ != (
                #[trigger] result@[j])@ by {
                    if j == before.len() {
                        assert(result@[i] == before[i]);
                    } else {
                        assert(result@[i] == before[i] && result@[j] == before[j]);
                    }
                }
                assert forall|i: int| 0 <= i < result.len() implies 0 <= #[trigger] origin[i] < n + 1
                    && broker_filter(subs, *s[origin[i]].0) == result@[i]@ by {
                    if i < before.len() {
                        assert(result@[i] == before[i]);
                    }
                }
                assert forall|q: int| 0 <= q < n + 1 implies 0 <= #[trigger] slot[q] < result.len()
                    && result@[slot[q]]@ == broker_filter(subs, *s[q].0) by {
                    if slot[q] < before.len() {
                        assert(result@[slot[q]] == before[slot[q]]);
                    }
                }
                n = n + 1;
            }
        }
        proof {
            assert(n == s.len());
            assert(subs == self@.subscriptions);
            assert forall|i: int| 0 <= i < result.len() implies is_broker_filter(
                self@.subscriptions,
                (#[trigger] result@[i])@,
            ) by {
                let q = origin[i];
                assert(self@.subscriptions.contains_key(*s[q].0));
            }
            assert forall|id: usize| #[trigger] subs.contains_key(id) implies exists|i: int|
                0 <= i < result.len() && (#[trigger] result@[i])@ == broker_filter(subs, id) by {
                assert(s.contains((&id, &subs[id])));
                let q = choose|q: int| 0 <= q < s.len() && s[q] == (&id, &subs[id]);
                assert(*s[q].0 == id);
                assert(result@[slot[q]]@ == broker_filter(subs, id));
            }
        }
        result
    }
}

impl<T> TopicRouter<T> {
    /// The distinct broker filters of the active subscriptions, each with the
    /// highest `QoS` asked for it.
    pub fn get_topics_for_resubscribe(&self) -> (r: Vec<(String, QoS)>)
        ensures
            forall|i: int, j: int| 0 <= i < j < r.len() ==> (#[trigger] r@[i]).0@ != (#[trigger] r@[j]).0@,
            forall|i: int|
                0 <= i < r.len() ==> is_max_filter_qos(self@.subscriptions, (#[trigger] r@[i]).0@, r@[i].1),
            forall|id: usize|
                #[trigger] self@.subscriptions.contains_key(id) ==> exists|i: int|
                    0 <= i < r.len() && (#[trigger] r@[i]).0@ == broker_filter(self@.subscriptions, id),
    {
        let ghost subs = self.subscriptions@;
        let ghost s = self.subscriptions.iter().remaining();
        let ghost mut n: int = 0;
        let ghost mut origin: Seq<int> = Seq::empty();
        let ghost mut slot: Seq<int> = Seq::empty();
        let mut result: Vec<(String, QoS)> = Vec::new();
        for kv in it: self.subscriptions.iter()
            invariant
                it.seq() == s,
                s == self.subscriptions.iter().remaining(),
                subs == self.subscriptions@,
                n == it.index(),
                origin.len() == result.len(),
                slot.len() == n,
                forall|i: int, j: int|
                    0 <= i < j < result.len() ==> (#[trigger] result@[i]).0@ != (#[trigger] result@[j]).0@,
                forall|i: int|
                    0 <= i < result.len() ==> 0 <= #[trigger] origin[i] < n && broker_filter(
                        subs,
                        *s[origin[i]].0,
                    ) == result@[i].0@ && (*s[origin[i]].1).1 == result@[i].1,
                forall|q: int|
                    0 <= q < n ==> 0 <= #[trigger] slot[q] < result.len() && result@[slot[q]].0@
                        == broker_filter(subs, *s[q].0) && qos_level((*s[q].1).1) <= qos_level(
                        result@[slot[q]].1,
                    ),
        {
            let ghost before = result@;
            let ghost before_origin = origin;
            proof {
                assert(subs.contains_key(*s[n].0) && subs[*s[n].0] == *s[n].1);
            }
            let text = kv.1.0.mqtt_pattern();
            let qos = kv.1.1;
            match position_of_text(&result, &text) {
                Some(j) => {
                    if qos.level() > result[j].1.level() {
                        result.set(j, (text, qos));
                        proof {
                            origin = origin.update(j as int, n);
                        }
                    }
                    proof {
                        slot = slot.push(j as int);
                    }
                },
                None => {
                    result.push((text, qos));
                    proof {
                        origin = origin.push(n);
                        slot = slot.push(before.len() as int);
                    }
                },
            }
            proof {
                assert forall|i: int| 0 <= i < result.len() && i < before.len() implies #[trigger] result@[i].0@
                    == before[i].0@ by {}
                assert forall|i: int, j: int| 0 <= i < j < result.len() implies (#[trigger] result@[i]).0@
                    != (#[trigger] result@[j]).0@ by {
                    if j >= before.len() {
                        assert(result@[i].0@ == before[i].0@);
                    } else {
                        assert(result@[i].0@ == before[i].0@ && result@[j].0@ == before[j].0@);
                    }
                }
                assert forall|i: int| 0 <= i < result.len() implies 0 <= #[trigger] origin[i] < n + 1
                    && broker_filter(subs, *s[origin[i]].0) == result@[i].0@ && (*s[origin[i]].1).1
                    == result@[i].1 by {
                    if i < before.len() && origin[i] != n {
                        assert(origin[i] == before_origin[i]);
                        assert(result@[i] == before[i]);
                    }
                }
                assert forall|q: int| 0 <= q < n + 1 implies 0 <= #[trigger] slot[q] < result.len()
                    && result@[slot[q]].0@ == broker_filter(subs, *s[q].0) && qos_level((*s[q].1).1)
                    <= qos_level(result@[slot[q]].1) by {
                    if q < n && slot[q] < before.len() {
                        assert(result@[slot[q]].0@ == before[slot[q]].0@);
                        assert(qos_level(before[slot[q]].1) <= qos_level(result@[slot[q]].1));
                    }
                }
                n = n + 1;
            }
        }
        proof {
            assert(n == s.len());
            assert(subs == self@.subscriptions);
            assert forall|id: usize| #[trigger] subs.contains_key(id) implies exists|i: int|
                0 <= i < result.len() && (#[trigger] result@[i]).0@ == broker_filter(subs, id) by {
                assert(s.contains((&id, &subs[id])));
                let q = choose|q: int| 0 <= q < s.len() && s[q] == (&id, &subs[id]);
                assert(*s[q].0 == id);
                assert(result@[slot[q]].0@ == broker_filter(subs, id));
            }
            assert forall|i: int| 0 <= i < result.len() implies is_max_filter_qos(
                subs,
                (#[trigger] result@[i]).0@,
                result@[i].1,
            ) by {
                let q0 = origin[i];
                assert(subs.contains_key(*s[q0].0) && subs[*s[q0].0] == *s[q0].1);
                assert forall|id: usize| #[trigger] subs.contains_key(id) && broker_filter(subs, id)
                    == result@[i].0@ implies qos_level(subs[id].1) <= qos_level(result@[i].1) by {
                    assert(s.contains((&id, &subs[id])));
                    let q = choose|q: int| 0 <= q < s.len() && s[q] == (&id, &subs[id]);
                    assert(*s[q].0 == id);
                    let k = slot[q];
                    assert(result@[k].0@ == broker_filter(subs, id));
                    if k != i {
                        if k < i {
                            assert(result@[k].0@ != result@[i].0@);
                        } else {
                            assert(result@[i].0@ != result@[k].0@);
                        }
                    }
                }
            }
        }
        result
    }
}

impl<T> Default for TopicRouter<T> {
    /// An empty router.
    fn default() -> (r: Self)
        ensures
            r.wf(),
            r@.subscriptions == Map::<usize, (TopicPatternPath, QoS)>::empty(),
            r@.payloads == Map::<usize, T>::empty(),
            r@.issued == 0,
    {
        Self::new()
    }
}

/// Adding a subscription and then unsubscribing the id it was given leaves
/// the registered subscriptions and payloads as they were before.
pub proof fn lemma_add_then_unsubscribe<T>(
    before: RouterView<T>,
    added: RouterView<T>,
    after: RouterView<T>,
    id: usize,
    entry: (TopicPatternPath, QoS),
    payload: T,
)
    requires
        before.payloads.dom() == before.subscriptions.dom(),
        !before.subscriptions.contains_key(id),
        added.subscriptions == before.subscriptions.insert(id, entry),
        added.payloads == before.payloads.insert(id, payload),
        after.subscriptions == added.subscriptions.remove(id),
        after.payloads == added.payloads.remove(id),
    ensures
        after.subscriptions == before.subscriptions,
        after.payloads == before.payloads,
{
    assert(after.subscriptions =~= before.subscriptions);
    assert(!before.payloads.contains_key(id));
    assert(after.payloads =~= before.payloads);
}

/// In every router the payloads are kept for exactly the registered ids.
pub proof fn lemma_payloads_follow_subscriptions<T>(r: TopicRouter<T>)
    ensures
        r@.payloads.dom() == r@.subscriptions.dom(),
{
    assert(r@.payloads.dom() =~= r@.subscriptions.dom());
}

/// The broker filter of an active subscription entry.
pub open spec fn entry_filter(e: (TopicPatternPath, QoS)) -> Seq<char> {
    mqtt_text(e.0@.effective_items())
}

/// Some active entry has broker filter `e.0` and `QoS` `e.1`.
pub open spec fn active_has(active: Seq<(TopicPatternPath, QoS)>, e: (Seq<char>, QoS)) -> bool {
    exists|j: int| 0 <= j < active.len() && entry_filter(#[trigger] active[j]) == e.0 && active[j].1 == e.1
}

/// `id` is a registered subscription.
pub open spec fn registered(subs: Map<usize, (TopicPatternPath, QoS)>, id: usize) -> bool {
    subs.contains_key(id)
}

/// The three subscription queries agree: the topics to unsubscribe and the
/// topics to resubscribe are the same set of broker filters, the filters of
/// the active subscriptions, and the `QoS` given for each filter to
/// resubscribe is the highest among the active subscriptions on it.
pub proof fn lemma_subscription_queries_agree(
    subs: Map<usize, (TopicPatternPath, QoS)>,
    unsub: Seq<Seq<char>>,
    resub: Seq<(Seq<char>, QoS)>,
    active: Seq<(TopicPatternPath, QoS)>,
)
    requires
        forall|i: int| 0 <= i < unsub.len() ==> is_broker_filter(subs, #[trigger] unsub[i]),
        forall|id: usize|
            #[trigger] registered(subs, id) ==> exists|i: int|
                0 <= i < unsub.len() && #[trigger] unsub[i] == broker_filter(subs, id),
        forall|i: int| 0 <= i < resub.len() ==> is_max_filter_qos(subs, (#[trigger] resub[i]).0, resub[i].1),
        forall|id: usize|
            #[trigger] registered(subs, id) ==> exists|i: int|
                0 <= i < resub.len() && (#[trigger] resub[i]).0 == broker_filter(subs, id),
        exists|ks: Seq<usize>|
            #![trigger ks.to_set()]
            ks.len() == active.len() && ks.to_set() == subs.dom() && forall|j: int|
                0 <= j < active.len() ==> #[trigger] active[j] == subs[ks[j]],
    ensures
        forall|t: Seq<char>|
            #![trigger unsub.contains(t)]
            unsub.contains(t) <==> exists|i: int| 0 <= i < resub.len() && (#[trigger] resub[i]).0 == t,
        forall|t: Seq<char>|
            #![trigger unsub.contains(t)]
            unsub.contains(t) <==> exists|j: int| 0 <= j < active.len() && entry_filter(#[trigger] active[j]) == t,
        forall|i: int, j: int|
            0 <= i < resub.len() && 0 <= j < active.len() && entry_filter(#[trigger] active[j]) == (
            #[trigger] resub[i]).0 ==> qos_level(active[j].1) <= qos_level(resub[i].1),
        forall|i: int|
            0 <= i < resub.len() ==> #[trigger] active_has(active, resub[i]),
{
    let ks = choose|ks: Seq<usize>|
        #![trigger ks.to_set()]
        ks.len() == active.len() && ks.to_set() == subs.dom() && forall|j: int|
            0 <= j < active.len() ==> #[trigger] active[j] == subs[ks[j]];
    lemma_active_ids(subs, active, ks);
    assert forall|t: Seq<char>| #![trigger unsub.contains(t)] unsub.contains(t) <==> exists|i: int|
        0 <= i < resub.len() && (#[trigger] resub[i]).0 == t by {
        lemma_unsub_resub_one(subs, unsub, resub, t);
    }
    assert forall|t: Seq<char>| #![trigger unsub.contains(t)] unsub.contains(t) <==> exists|j: int|
        0 <= j < active.len() && entry_filter(#[trigger] active[j]) == t by {
        lemma_unsub_active_one(subs, unsub, active, ks, t);
    }
    assert forall|i: int, j: int|
        0 <= i < resub.len() && 0 <= j < active.len() && entry_filter(#[trigger] active[j]) == (
        #[trigger] resub[i]).0 implies qos_level(active[j].1) <= qos_level(resub[i].1) by {
        assert(is_max_filter_qos(subs, resub[i].0, resub[i].1));
        assert(subs.contains_key(ks[j]) && active[j] == subs[ks[j]]);
    }
    assert forall|i: int| 0 <= i < resub.len() implies #[trigger] active_has(active, resub[i]) by {
        lemma_resub_active_one(subs, resub, active, ks, i);
    }
}

proof fn lemma_active_ids(
    subs: Map<usize, (TopicPatternPath, QoS)>,
    active: Seq<(TopicPatternPath, QoS)>,
    ks: Seq<usize>,
)
    requires
        ks.len() == active.len(),
        ks.to_set() == subs.dom(),
        forall|j: int| 0 <= j < active.len() ==> #[trigger] active[j] == subs[ks[j]],
    ensures
        forall|j: int|
            0 <= j < active.len() ==> subs.contains_key(#[trigger] ks[j]) && active[j] == subs[ks[j]]
                && entry_filter(active[j]) == broker_filter(subs, ks[j]),
        forall|id: usize| #[trigger] registered(subs, id) ==> exists|j: int| 0 <= j < active.len() && ks[j] == id,
{
    assert forall|j: int| 0 <= j < active.len() implies subs.contains_key(#[trigger] ks[j]) && active[j]
        == subs[ks[j]] && entry_filter(active[j]) == broker_filter(subs, ks[j]) by {
        assert(ks.to_set().contains(ks[j]));
    }
    assert forall|id: usize| #[trigger] registered(subs, id) implies exists|j: int|
        0 <= j < active.len() && ks[j] == id by {
        assert(ks.to_set().contains(id));
    }
}

proof fn lemma_unsub_resub_one(
    subs: Map<usize, (TopicPatternPath, QoS)>,
    unsub: Seq<Seq<char>>,
    resub: Seq<(Seq<char>, QoS)>,
    t: Seq<char>,
)
    requires
        forall|i: int| 0 <= i < unsub.len() ==> is_broker_filter(subs, #[trigger] unsub[i]),
        forall|id: usize|
            #[trigger] registered(subs, id) ==> exists|i: int|
                0 <= i < unsub.len() && #[trigger] unsub[i] == broker_filter(subs, id),
        forall|i: int| 0 <= i < resub.len() ==> is_max_filter_qos(subs, (#[trigger] resub[i]).0, resub[i].1),
        forall|id: usize|
            #[trigger] registered(subs, id) ==> exists|i: int|
                0 <= i < resub.len() && (#[trigger] resub[i]).0 == broker_filter(subs, id),
    ensures
        unsub.contains(t) <==> exists|i: int| 0 <= i < resub.len() && (#[trigger] resub[i]).0 == t,
{
    if unsub.contains(t) {
        let k = choose|k: int| 0 <= k < unsub.len() && unsub[k] == t;
        assert(is_broker_filter(subs, unsub[k]));
        let id = choose|id: usize| #[trigger] subs.contains_key(id) && broker_filter(subs, id) == t;
        assert(registered(subs, id));
    }
    if exists|i: int| 0 <= i < resub.len() && (#[trigger] resub[i]).0 == t {
        let i = choose|i: int| 0 <= i < resub.len() && (#[trigger] resub[i]).0 == t;
        assert(is_max_filter_qos(subs, resub[i].0, resub[i].1));
        let id = choose|id: usize|
            #[trigger] subs.contains_key(id) && broker_filter(subs, id) == t && subs[id].1 == resub[i].1;
        assert(registered(subs, id));
        let k = choose|k: int| 0 <= k < unsub.len() && #[trigger] unsub[k] == broker_filter(subs, id);
        assert(unsub[k] == t);
    }
}

proof fn lemma_unsub_active_one(
    subs: Map<usize, (TopicPatternPath, QoS)>,
    unsub: Seq<Seq<char>>,
    active: Seq<(TopicPatternPath, QoS)>,
    ks: Seq<usize>,
    t: Seq<char>,
)
    requires
        forall|i: int| 0 <= i < unsub.len() ==> is_broker_filter(subs, #[trigger] unsub[i]),
        forall|id: usize|
            #[trigger] registered(subs, id) ==> exists|i: int|
                0 <= i < unsub.len() && #[trigger] unsub[i] == broker_filter(subs, id),
        ks.len() == active.len(),
        forall|j: int|
            0 <= j < active.len() ==> subs.contains_key(#[trigger] ks[j]) && active[j] == subs[ks[j]]
                && entry_filter(active[j]) == broker_filter(subs, ks[j]),
        forall|id: usize| #[trigger] registered(subs, id) ==> exists|j: int| 0 <= j < active.len() && ks[j] == id,
    ensures
        unsub.contains(t) <==> exists|j: int| 0 <= j < active.len() && entry_filter(#[trigger] active[j]) == t,
{
    if unsub.contains(t) {
        let k = choose|k: int| 0 <= k < unsub.len() && unsub[k] == t;
        assert(is_broker_filter(subs, unsub[k]));
        let id = choose|id: usize| #[trigger] subs.contains_key(id) && broker_filter(subs, id) == t;
        assert(registered(subs, id));
        let j = choose|j: int| 0 <= j < active.len() && ks[j] == id;
        assert(subs.contains_key(ks[j]));
        assert(entry_filter(active[j]) == t);
    }
    if exists|j: int| 0 <= j < active.len() && entry_filter(#[trigger] active[j]) == t {
        let j = choose|j: int| 0 <= j < active.len() && entry_filter(#[trigger] active[j]) == t;
        assert(registered(subs, ks[j]));
        let k = choose|k: int| 0 <= k < unsub.len() && #[trigger] unsub[k] == broker_filter(subs, ks[j]);
        assert(unsub[k] == t);
    }
}

proof fn lemma_resub_active_one(
    subs: Map<usize, (TopicPatternPath, QoS)>,
    resub: Seq<(Seq<char>, QoS)>,
    active: Seq<(TopicPatternPath, QoS)>,
    ks: Seq<usize>,
    i: int,
)
    requires
        0 <= i < resub.len(),
        is_max_filter_qos(subs, resub[i].0, resub[i].1),
        ks.len() == active.len(),
        forall|j: int|
            0 <= j < active.len() ==> subs.contains_key(#[trigger] ks[j]) && active[j] == subs[ks[j]]
                && entry_filter(active[j]) == broker_filter(subs, ks[j]),
        forall|id: usize| #[trigger] registered(subs, id) ==> exists|j: int| 0 <= j < active.len() && ks[j] == id,
    ensures
        active_has(active, resub[i]),
{
    let id = choose|id: usize|
        #[trigger] subs.contains_key(id) && broker_filter(subs, id) == resub[i].0 && subs[id].1 == resub[i].1;
    assert(registered(subs, id));
    let j = choose|j: int| 0 <= j < active.len() && ks[j] == id;
    assert(subs.contains_key(ks[j]));
    assert(entry_filter(active[j]) == resub[i].0);
}

/// Unsubscribing one id keeps every other registered id, with the same
/// pattern, `QoS` and payload.
pub proof fn lemma_unsubscribe_keeps_others<T>(
    before: RouterView<T>,
    after: RouterView<T>,
    removed: usize,
    kept: usize,
)
    requires
        removed != kept,
        before.subscriptions.contains_key(kept),
        after.subscriptions == before.subscriptions.remove(removed),
        after.payloads == before.payloads.remove(removed),
    ensures
        after.subscriptions.contains_key(kept),
        after.subscriptions[kept] == before.subscriptions[kept],
        after.payloads.contains_key(kept) == before.payloads.contains_key(kept),
        before.payloads.contains_key(kept) ==> after.payloads[kept] == before.payloads[kept],
{
}

} // verus!
