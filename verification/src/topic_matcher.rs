//! Prefix-tree topic matcher.
//!
//! [`TopicMatcherNode`] is a trie keyed by pattern levels that stores a
//! payload `T` per subscription pattern (literals, `+` and `#` wildcards) and
//! resolves all payloads whose pattern matches a concrete topic. The [`Len`]
//! trait lets a node prune payload containers that have become empty.
use std::collections::{HashMap, HashSet};

use vstd::prelude::*;
use vstd::std_specs::hash::{spec_hash_map_len, spec_hash_set_len};

use crate::text::{copy_string, decimal};
use crate::topic_match::TopicPath;
use crate::topic_pattern_item::{ItemView, TopicPatternItem};
use crate::topic_pattern_path::{
    first_where, hash_misplaced, items_view, lemma_first_where, lemma_first_where_is,
    lemma_first_where_none, template_text, PatternView, TopicPatternPath,
};

verus! {

/// Errors that can occur during topic matching operations.
#[derive(Debug, Clone, PartialEq, Eq)]
pub enum TopicMatcherError {
    /// The topic path is empty.
    EmptyTopicPath,
    /// A level of the path is invalid, or holds no subscription.
    InvalidSegment {
        /// The offending level.
        segment: String,
        /// Its position.
        position: usize,
    },
    /// The topic path is not acceptable text.
    InvalidUtf8 {
        /// What is wrong with it.
        details: String,
    },
}

/// The mathematical content of a [`TopicMatcherError`].
pub enum MatcherErrorView {
    EmptyTopicPath,
    InvalidSegment(Seq<char>, int),
    InvalidUtf8(Seq<char>),
}

impl View for TopicMatcherError {
    type V = MatcherErrorView;

    open spec fn view(&self) -> MatcherErrorView {
        match self {
            TopicMatcherError::EmptyTopicPath => MatcherErrorView::EmptyTopicPath,
            TopicMatcherError::InvalidSegment { segment, position } => MatcherErrorView::InvalidSegment(
                segment@,
                *position as int,
            ),
            TopicMatcherError::InvalidUtf8 { details } => MatcherErrorView::InvalidUtf8(details@),
        }
    }
}

impl TopicMatcherError {
    /// Creates an `InvalidSegment` error.
    pub fn invalid_segment(segment: String, position: usize) -> (e: Self)
        ensures
            e@ == MatcherErrorView::InvalidSegment(segment@, position as int),
    {
        TopicMatcherError::InvalidSegment { segment, position }
    }

    /// Creates an `InvalidUtf8` error.
    pub fn invalid_utf8(details: String) -> (e: Self)
        ensures
            e@ == MatcherErrorView::InvalidUtf8(details@),
    {
        TopicMatcherError::InvalidUtf8 { details }
    }

    /// Human-readable description of the error.
    pub fn message(&self) -> (s: String)
        ensures
            s@ == matcher_error_message(self@),
    {
        let mut s = String::new();
        match self {
            TopicMatcherError::EmptyTopicPath => {
                s.append("Topic path cannot be empty for matching");
            },
            TopicMatcherError::InvalidSegment { segment, position } => {
                s.append("Invalid topic segment '");
                s.append(segment.as_str());
                s.append("' at position ");
                let p = crate::text::decimal_string(*position);
                s.append(p.as_str());
            },
            TopicMatcherError::InvalidUtf8 { details } => {
                s.append("Topic path contains invalid UTF-8: ");
                s.append(details.as_str());
            },
        }
        s
    }
}

/// The text of [`TopicMatcherError::message`].
pub open spec fn matcher_error_message(e: MatcherErrorView) -> Seq<char> {
    match e {
        MatcherErrorView::EmptyTopicPath => "Topic path cannot be empty for matching"@,
        MatcherErrorView::InvalidSegment(s, p) => "Invalid topic segment '"@ + s + "' at position "@
            + decimal(p as nat),
        MatcherErrorView::InvalidUtf8(d) => "Topic path contains invalid UTF-8: "@ + d,
    }
}

/// Payload containers whose emptiness a node can observe.
pub trait Len {
    /// Number of elements, as the container counts them.
    spec fn spec_len(&self) -> nat;

    /// The container holds nothing.
    spec fn spec_is_empty(&self) -> bool;

    /// Number of elements currently held.
    fn len(&self) -> (n: usize)
        ensures
            n == self.spec_len(),
    ;

    /// `true` when the container holds no elements.
    fn is_empty(&self) -> (b: bool)
        ensures
            b == self.spec_is_empty(),
    ;
}

impl<K> Len for HashSet<K> {
    open spec fn spec_len(&self) -> nat {
        spec_hash_set_len(self) as nat
    }

    open spec fn spec_is_empty(&self) -> bool {
        self@.is_empty()
    }

    fn len(&self) -> (n: usize) {
        HashSet::len(self)
    }

    fn is_empty(&self) -> (b: bool) {
        HashSet::is_empty(self)
    }
}

impl<K, V> Len for HashMap<K, V> {
    open spec fn spec_len(&self) -> nat {
        spec_hash_map_len(self) as nat
    }

    open spec fn spec_is_empty(&self) -> bool {
        self@.is_empty()
    }

    fn len(&self) -> (n: usize) {
        HashMap::len(self)
    }

    fn is_empty(&self) -> (b: bool) {
        HashMap::is_empty(self)
    }
}

/// One step of a stored route: a literal level, `+` or `#`.
pub enum Key {
    Lit(Seq<char>),
    Plus,
    Hash,
}

pub open spec fn item_key(i: ItemView) -> Key {
    match i {
        ItemView::Lit(s) => Key::Lit(s),
        ItemView::Plus(_) => Key::Plus,
        ItemView::Hash(_) => Key::Hash,
    }
}

/// The route under which a pattern's payload is stored: one key per item,
/// ending at the first `#`.
pub open spec fn route(items: Seq<ItemView>) -> Seq<Key>
    decreases items.len(),
{
    if items.len() == 0 {
        Seq::empty()
    } else {
        match items[0] {
            ItemView::Hash(_) => seq![Key::Hash],
            _ => seq![item_key(items[0])] + route(items.drop_first()),
        }
    }
}

/// Does a stored route match the topic levels (MQTT filter semantics)?
pub open spec fn route_matches(r: Seq<Key>, topic: Seq<Seq<char>>) -> bool
    decreases r.len(),
{
    if r.len() == 0 {
        topic.len() == 0
    } else {
        match r[0] {
            Key::Lit(e) => topic.len() > 0 && topic[0] == e && route_matches(r.drop_first(), topic.drop_first()),
            Key::Plus => topic.len() > 0 && route_matches(r.drop_first(), topic.drop_first()),
            Key::Hash => r.len() == 1,
        }
    }
}

/// Node in the topic matching tree.
#[derive(Debug)]
pub struct TopicMatcherNode<T> {
    /// Data for a pattern ending at this node.
    exact_match_data: Option<T>,
    /// Children for literal next levels, at most one per literal.
    exact_children: Vec<(String, TopicMatcherNode<T>)>,
    /// Child for a `+` next level.
    single_level_wildcard_node: Option<Box<TopicMatcherNode<T>>>,
    /// Data for a pattern ending with `#` after this node.
    multi_level_wildcard_data: Option<T>,
}

/// Position of the child for literal `k`.
pub open spec fn child_index<T>(ch: Seq<(String, TopicMatcherNode<T>)>, k: Seq<char>) -> Option<int>
    decreases ch.len(),
{
    if ch.len() == 0 {
        None
    } else {
        match child_index(ch.drop_last(), k) {
            Some(i) => Some(i),
            None => if ch.last().0@ == k {
                Some(ch.len() - 1)
            } else {
                None
            },
        }
    }
}

/// No literal occurs twice among the children.
pub open spec fn keys_distinct<T>(ch: Seq<(String, TopicMatcherNode<T>)>) -> bool {
    forall|i: int, j: int| 0 <= i < j < ch.len() ==> (#[trigger] ch[i]).0@ != (#[trigger] ch[j]).0@
}

pub open spec fn opt_seq<T>(o: Option<T>) -> Seq<T> {
    match o {
        Some(x) => seq![x],
        None => Seq::empty(),
    }
}

/// Every route of `rs`, with `k` put in front.
pub open spec fn prefixed(k: Key, rs: Seq<Seq<Key>>) -> Seq<Seq<Key>> {
    rs.map_values(|q: Seq<Key>| seq![k] + q)
}

impl<T> TopicMatcherNode<T> {
    /// The payload stored under route `p`.
    pub closed spec fn lookup(&self, p: Seq<Key>) -> Option<T>
        decreases p.len(),
    {
        if p.len() == 0 {
            self.exact_match_data
        } else {
            match p[0] {
                Key::Hash => if p.len() == 1 {
                    self.multi_level_wildcard_data
                } else {
                    None
                },
                Key::Plus => match self.single_level_wildcard_node {
                    Some(b) => b.lookup(p.drop_first()),
                    None => None,
                },
                Key::Lit(k) => match child_index(self.exact_children@, k) {
                    Some(j) => self.exact_children@[j].1.lookup(p.drop_first()),
                    None => None,
                },
            }
        }
    }

    /// The payloads matching topic levels `t`, in the order the tree is walked.
    pub closed spec fn collect(&self, t: Seq<Seq<char>>) -> Seq<T>
        decreases t.len(),
    {
        if t.len() == 0 {
            opt_seq(self.exact_match_data) + opt_seq(self.multi_level_wildcard_data)
        } else {
            let rest = t.drop_first();
            let from_exact = match child_index(self.exact_children@, t[0]) {
                Some(j) => self.exact_children@[j].1.collect(rest),
                None => Seq::empty(),
            };
            let from_plus = match self.single_level_wildcard_node {
                Some(b) => b.collect(rest),
                None => Seq::empty(),
            };
            from_exact + from_plus + opt_seq(self.multi_level_wildcard_data)
        }
    }

    /// The routes whose payloads [`Self::collect`] gathers, in the same order.
    pub closed spec fn collect_routes(&self, t: Seq<Seq<char>>) -> Seq<Seq<Key>>
        decreases t.len(),
    {
        let hash_route: Seq<Seq<Key>> = if self.multi_level_wildcard_data is Some {
            seq![seq![Key::Hash]]
        } else {
            Seq::empty()
        };
        if t.len() == 0 {
            let exact_route: Seq<Seq<Key>> = if self.exact_match_data is Some {
                seq![Seq::<Key>::empty()]
            } else {
                Seq::empty()
            };
            exact_route + hash_route
        } else {
            let rest = t.drop_first();
            let from_exact = match child_index(self.exact_children@, t[0]) {
                Some(j) => prefixed(Key::Lit(t[0]), self.exact_children@[j].1.collect_routes(rest)),
                None => Seq::empty(),
            };
            let from_plus = match self.single_level_wildcard_node {
                Some(b) => prefixed(Key::Plus, b.collect_routes(rest)),
                None => Seq::empty(),
            };
            from_exact + from_plus + hash_route
        }
    }

    /// Children carry distinct literals, throughout the tree.
    pub closed spec fn wf(&self) -> bool
        decreases self,
    {
        &&& keys_distinct(self.exact_children@)
        &&& forall|i: int|
            0 <= i < self.exact_children@.len() ==> (#[trigger] self.exact_children@[i]).1.wf()
        &&& match self.single_level_wildcard_node {
            Some(b) => b.wf(),
            None => true,
        }
    }

    /// A node with nothing stored and no children.
    pub closed spec fn bare(&self) -> bool {
        &&& self.exact_match_data is None
        &&& self.exact_children@.len() == 0
        &&& self.single_level_wildcard_node is None
        &&& self.multi_level_wildcard_data is None
    }

    /// No node below this one is bare: empty subtrees are pruned.
    pub closed spec fn pruned(&self) -> bool
        decreases self,
    {
        &&& forall|i: int|
            0 <= i < self.exact_children@.len() ==> !(#[trigger] self.exact_children@[i]).1.bare()
                && self.exact_children@[i].1.pruned()
        &&& match self.single_level_wildcard_node {
            Some(b) => !b.bare() && b.pruned(),
            None => true,
        }
    }
}

/// The map holds only payloads stored at the node itself (routes `[]` and
/// `[#]`), and all of them are empty.
pub open spec fn holds_only_empty_root<T: Len>(m: Map<Seq<Key>, T>) -> bool {
    forall|p: Seq<Key>|
        #[trigger] m.contains_key(p) ==> (p.len() == 0 || p == seq![Key::Hash]) && m[p].spec_is_empty()
}

/// A pruned node that is not bare stores a payload somewhere below it.
proof fn lemma_pruned_stores<T>(n: TopicMatcherNode<T>)
    requires
        n.wf(),
        n.pruned(),
        !n.bare(),
    ensures
        exists|p: Seq<Key>| #[trigger] n.lookup(p) is Some,
    decreases n,
{
    if n.exact_match_data is Some {
        assert(n.lookup(Seq::<Key>::empty()) is Some);
    } else if n.multi_level_wildcard_data is Some {
        let p = seq![Key::Hash];
        assert(p.len() == 1 && p[0] == Key::Hash);
        assert(n.lookup(p) is Some);
    } else if n.exact_children@.len() > 0 {
        let ch = n.exact_children@;
        let c = ch[0].1;
        assert(!c.bare() && c.pruned() && c.wf());
        lemma_pruned_stores(c);
        let q = choose|q: Seq<Key>| #[trigger] c.lookup(q) is Some;
        let p = seq![Key::Lit(ch[0].0@)] + q;
        assert(p.drop_first() =~= q);
        assert(p[0] == Key::Lit(ch[0].0@));
        lemma_child_index_is(ch, ch[0].0@, 0);
        assert(n.lookup(p) is Some);
    } else {
        let b = *n.single_level_wildcard_node->0;
        lemma_pruned_stores(b);
        let q = choose|q: Seq<Key>| #[trigger] b.lookup(q) is Some;
        let p = seq![Key::Plus] + q;
        assert(p.drop_first() =~= q);
        assert(p[0] == Key::Plus);
        assert(n.lookup(p) is Some);
    }
}

/// In a pruned tree a node counts as empty exactly when it stores nothing
/// but empty payloads, and those only at its own level.
pub proof fn lemma_empty_iff_holds_only_empty_root<T: Len>(n: TopicMatcherNode<T>)
    requires
        n.wf(),
        n.pruned(),
    ensures
        n.spec_is_empty() == holds_only_empty_root(n@),
{
    if n.spec_is_empty() {
        assert forall|p: Seq<Key>| #[trigger] n@.contains_key(p) implies (p.len() == 0 || p == seq![
            Key::Hash,
        ]) && n@[p].spec_is_empty() by {
            lemma_empty_node_lookup(n, p);
            if p.len() > 0 {
                match p[0] {
                    Key::Lit(k) => {
                        lemma_child_index_none(n.exact_children@, k);
                    },
                    Key::Hash => {
                        assert(p =~= seq![Key::Hash]);
                    },
                    Key::Plus => {},
                }
            }
        }
    }
    if holds_only_empty_root(n@) {
        if n.exact_children@.len() > 0 {
            let ch = n.exact_children@;
            let c = ch[0].1;
            lemma_pruned_stores(c);
            let q = choose|q: Seq<Key>| #[trigger] c.lookup(q) is Some;
            let p = seq![Key::Lit(ch[0].0@)] + q;
            assert(p.drop_first() =~= q);
            assert(p[0] == Key::Lit(ch[0].0@));
            lemma_child_index_is(ch, ch[0].0@, 0);
            assert(n@.contains_key(p));
            assert(p != seq![Key::Hash]) by {
                assert(seq![Key::Hash][0] == Key::Hash);
            }
        }
        if n.single_level_wildcard_node is Some {
            let b = *n.single_level_wildcard_node->0;
            lemma_pruned_stores(b);
            let q = choose|q: Seq<Key>| #[trigger] b.lookup(q) is Some;
            let p = seq![Key::Plus] + q;
            assert(p.drop_first() =~= q);
            assert(p[0] == Key::Plus);
            assert(n@.contains_key(p));
            assert(p != seq![Key::Hash]) by {
                assert(seq![Key::Hash][0] == Key::Hash);
            }
        }
        if n.exact_match_data is Some {
            assert(n@.contains_key(Seq::<Key>::empty()));
        }
        if n.multi_level_wildcard_data is Some {
            let p = seq![Key::Hash];
            assert(p.len() == 1 && p[0] == Key::Hash);
            assert(n@.contains_key(p));
        }
    }
}

impl<T> View for TopicMatcherNode<T> {
    type V = Map<Seq<Key>, T>;

    closed spec fn view(&self) -> Map<Seq<Key>, T> {
        Map::new(|p: Seq<Key>| self.lookup(p) is Some, |p: Seq<Key>| self.lookup(p)->0)
    }
}

impl<T: Len> TopicMatcherNode<T> {
    /// The node holds no payload (or only empty ones) and has no children.
    pub closed spec fn spec_is_empty(&self) -> bool {
        &&& match self.exact_match_data {
            Some(d) => d.spec_is_empty(),
            None => true,
        }
        &&& self.exact_children@.len() == 0
        &&& self.single_level_wildcard_node is None
        &&& match self.multi_level_wildcard_data {
            Some(d) => d.spec_is_empty(),
            None => true,
        }
    }
}

proof fn lemma_bare_lookup<T>(n: TopicMatcherNode<T>, p: Seq<Key>)
    requires
        n.bare(),
    ensures
        n.lookup(p) is None,
{
    if p.len() > 0 {
        match p[0] {
            Key::Lit(k) => {
                lemma_first_where(0, |i: int| n.exact_children@[i].0@ == k);
            },
            _ => {},
        }
    }
}

impl<T: Default + Len> TopicMatcherNode<T> {
    /// Creates an empty node.
    pub fn new() -> (n: Self)
        ensures
            n@ == Map::<Seq<Key>, T>::empty(),
            n.bare(),
            n.wf(),
            n.pruned(),
    {
        let n = TopicMatcherNode {
            exact_match_data: None,
            exact_children: Vec::new(),
            single_level_wildcard_node: None,
            multi_level_wildcard_data: None,
        };
        proof {
            assert forall|p: Seq<Key>| n.lookup(p) is None by {
                lemma_bare_lookup(n, p);
            }
            assert(n@ =~= Map::<Seq<Key>, T>::empty());
        }
        n
    }

    /// `true` when this node holds no payload (or only empty ones) and has no
    /// children.
    pub fn is_empty(&self) -> (r: bool)
        ensures
            r == self.spec_is_empty(),
            self.wf() && self.pruned() ==> r == holds_only_empty_root(self@),
    {
        proof {
            if self.wf() && self.pruned() {
                lemma_empty_iff_holds_only_empty_root(*self);
            }
        }
        let exact_empty = match &self.exact_match_data {
            Some(d) => d.is_empty(),
            None => true,
        };
        let hash_empty = match &self.multi_level_wildcard_data {
            Some(d) => d.is_empty(),
            None => true,
        };
        exact_empty && self.exact_children.len() == 0 && self.single_level_wildcard_node.is_none()
            && hash_empty
    }
}


pub(crate) proof fn lemma_first_where_agrees(n: int, p1: spec_fn(int) -> bool, p2: spec_fn(int) -> bool)
    requires
        forall|i: int| 0 <= i < n ==> #[trigger] p1(i) == p2(i),
    ensures
        first_where(n, p1) == first_where(n, p2),
    decreases n,
{
    if n > 0 {
        lemma_first_where_agrees(n - 1, p1, p2);
    }
}

proof fn lemma_child_index<T>(ch: Seq<(String, TopicMatcherNode<T>)>, k: Seq<char>)
    ensures
        match child_index(ch, k) {
            Some(i) => 0 <= i < ch.len() && ch[i].0@ == k && forall|m: int|
                0 <= m < i ==> (#[trigger] ch[m]).0@ != k,
            None => forall|m: int| 0 <= m < ch.len() ==> (#[trigger] ch[m]).0@ != k,
        },
    decreases ch.len(),
{
    if ch.len() > 0 {
        lemma_child_index(ch.drop_last(), k);
        assert forall|m: int| 0 <= m < ch.len() - 1 implies ch.drop_last()[m] == ch[m] by {}
    }
}

proof fn lemma_child_index_is<T>(ch: Seq<(String, TopicMatcherNode<T>)>, k: Seq<char>, i: int)
    requires
        0 <= i < ch.len(),
        ch[i].0@ == k,
        forall|m: int| 0 <= m < i ==> (#[trigger] ch[m]).0@ != k,
    ensures
        child_index(ch, k) == Some(i),
{
    lemma_child_index(ch, k);
    match child_index(ch, k) {
        Some(j) => {
            if j < i {
                assert(ch[j].0@ != k);
            } else if j > i {
                assert(ch[i].0@ != k);
            }
        },
        None => {
            assert(ch[i].0@ != k);
        },
    }
}

proof fn lemma_child_index_none<T>(ch: Seq<(String, TopicMatcherNode<T>)>, k: Seq<char>)
    requires
        forall|m: int| 0 <= m < ch.len() ==> (#[trigger] ch[m]).0@ != k,
    ensures
        child_index(ch, k) is None,
{
    lemma_child_index(ch, k);
    match child_index(ch, k) {
        Some(j) => {
            assert(ch[j].0@ != k);
        },
        None => {},
    }
}

/// Two child lists with the same keys find the same child for every literal.
proof fn lemma_child_index_keys<T>(
    c1: Seq<(String, TopicMatcherNode<T>)>,
    c2: Seq<(String, TopicMatcherNode<T>)>,
    k: Seq<char>,
)
    requires
        c1.len() == c2.len(),
        forall|i: int| 0 <= i < c1.len() ==> (#[trigger] c1[i]).0@ == c2[i].0@,
    ensures
        child_index(c1, k) == child_index(c2, k),
{
    lemma_child_index(c1, k);
    match child_index(c1, k) {
        Some(i) => {
            assert forall|m: int| 0 <= m < i implies (#[trigger] c2[m]).0@ != k by {
                assert(c1[m].0@ == c2[m].0@);
            }
            assert(c1[i].0@ == c2[i].0@);
            lemma_child_index_is(c2, k, i);
        },
        None => {
            assert forall|m: int| 0 <= m < c2.len() implies (#[trigger] c2[m]).0@ != k by {
                assert(c1[m].0@ == c2[m].0@);
            }
            lemma_child_index_none(c2, k);
        },
    }
}

/// Replacing the payloads of a node changes only the routes that end there.
proof fn lemma_fields_replaced<T>(a: TopicMatcherNode<T>)
    ensures
        forall|b: TopicMatcherNode<T>, q: Seq<Key>|
            b.exact_children == a.exact_children && b.single_level_wildcard_node
                == a.single_level_wildcard_node ==> #[trigger] b.lookup(q) == if q.len() == 0 {
                b.exact_match_data
            } else if q == seq![Key::Hash] {
                b.multi_level_wildcard_data
            } else {
                a.lookup(q)
            },
        forall|b: TopicMatcherNode<T>|
            b.exact_children == a.exact_children && b.single_level_wildcard_node
                == a.single_level_wildcard_node ==> #[trigger] b.wf() == a.wf(),
{
    assert forall|b: TopicMatcherNode<T>, q: Seq<Key>|
        b.exact_children == a.exact_children && b.single_level_wildcard_node
            == a.single_level_wildcard_node implies #[trigger] b.lookup(q) == if q.len() == 0 {
        b.exact_match_data
    } else if q == seq![Key::Hash] {
        b.multi_level_wildcard_data
    } else {
        a.lookup(q)
    } by {
        if q.len() > 0 && q[0] == Key::Hash && q.len() == 1 {
            assert(q =~= seq![Key::Hash]);
        }
    }
}

/// `b` is `a` with only the subtree of child `j` replaced.
spec fn child_replaced<T>(a: TopicMatcherNode<T>, b: TopicMatcherNode<T>, j: int) -> bool {
    &&& b.exact_match_data == a.exact_match_data
    &&& b.single_level_wildcard_node == a.single_level_wildcard_node
    &&& b.multi_level_wildcard_data == a.multi_level_wildcard_data
    &&& b.exact_children@.len() == a.exact_children@.len()
    &&& b.exact_children@[j].0 == a.exact_children@[j].0
    &&& forall|m: int|
        0 <= m < a.exact_children@.len() && m != j ==> #[trigger] b.exact_children@[m]
            == a.exact_children@[m]
}

/// Replacing the subtree of child `j` (literal `s`) changes only the routes
/// through it.
proof fn lemma_child_replaced<T>(a: TopicMatcherNode<T>, j: int, s: Seq<char>)
    requires
        0 <= j < a.exact_children@.len(),
        a.exact_children@[j].0@ == s,
        child_index(a.exact_children@, s) == Some(j),
    ensures
        forall|b: TopicMatcherNode<T>, q: Seq<Key>|
            child_replaced(a, b, j) ==> #[trigger] b.lookup(q) == if q.len() > 0 && q[0] == Key::Lit(
                s,
            ) {
                b.exact_children@[j].1.lookup(q.drop_first())
            } else {
                a.lookup(q)
            },
        forall|b: TopicMatcherNode<T>|
            child_replaced(a, b, j) && a.wf() && b.exact_children@[j].1.wf() ==> #[trigger] b.wf(),
{
    assert forall|b: TopicMatcherNode<T>, q: Seq<Key>| child_replaced(a, b, j) implies #[trigger] b.lookup(
        q,
    ) == if q.len() > 0 && q[0] == Key::Lit(s) {
        b.exact_children@[j].1.lookup(q.drop_first())
    } else {
        a.lookup(q)
    } by {
        if q.len() > 0 {
            if let Key::Lit(k) = q[0] {
                let ca = a.exact_children@;
                let cb = b.exact_children@;
                assert forall|i: int| 0 <= i < ca.len() implies (#[trigger] ca[i]).0@ == cb[i].0@ by {
                    if i != j {
                        assert(cb[i] == ca[i]);
                    }
                }
                lemma_child_index_keys(ca, cb, k);
                if k != s {
                    lemma_child_index(ca, k);
                    match child_index(ca, k) {
                        Some(m) => {
                            assert(m != j);
                            assert(cb[m] == ca[m]);
                        },
                        None => {},
                    }
                }
            }
        }
    }
    assert forall|b: TopicMatcherNode<T>|
        child_replaced(a, b, j) && a.wf() && b.exact_children@[j].1.wf() implies #[trigger] b.wf() by {
        let ca = a.exact_children@;
        let cb = b.exact_children@;
        assert forall|x: int, y: int| 0 <= x < y < cb.len() implies (#[trigger] cb[x]).0@ != (
        #[trigger] cb[y]).0@ by {
            assert(cb[x].0 == ca[x].0 && cb[y].0 == ca[y].0);
            assert(ca[x].0@ != ca[y].0@);
        }
        assert forall|x: int| 0 <= x < cb.len() implies (#[trigger] cb[x]).1.wf() by {
            if x != j {
                assert(cb[x] == ca[x]);
            }
        }
    }
}

/// Replacing child `j` by a pruned, non-bare subtree gives a pruned node, when
/// the other children and the `+` child are pruned and not bare.
proof fn lemma_child_replaced_pruned<T>(a: TopicMatcherNode<T>, j: int)
    requires
        0 <= j < a.exact_children@.len(),
        forall|m: int|
            0 <= m < a.exact_children@.len() && m != j ==> !(#[trigger] a.exact_children@[m]).1.bare()
                && a.exact_children@[m].1.pruned(),
        match a.single_level_wildcard_node {
            Some(b) => !b.bare() && b.pruned(),
            None => true,
        },
    ensures
        forall|b: TopicMatcherNode<T>|
            child_replaced(a, b, j) && !b.exact_children@[j].1.bare() && b.exact_children@[j].1.pruned()
                ==> #[trigger] b.pruned(),
{
    assert forall|b: TopicMatcherNode<T>|
        child_replaced(a, b, j) && !b.exact_children@[j].1.bare() && b.exact_children@[j].1.pruned()
            implies #[trigger] b.pruned() by {
        assert forall|i: int| 0 <= i < b.exact_children@.len() implies !(
        #[trigger] b.exact_children@[i]).1.bare() && b.exact_children@[i].1.pruned() by {
            if i != j {
                assert(b.exact_children@[i] == a.exact_children@[i]);
            }
        }
    }
}

/// The route of the items from `i` on.
pub open spec fn route_from(items: Seq<ItemView>, i: int) -> Seq<Key> {
    route(items.subrange(i, items.len() as int))
}

proof fn lemma_route_from_step(items: Seq<ItemView>, i: int)
    requires
        0 <= i <= items.len(),
    ensures
        i == items.len() ==> route_from(items, i) == Seq::<Key>::empty(),
        i < items.len() ==> route_from(items, i) == (match items[i] {
            ItemView::Hash(_) => seq![Key::Hash],
            _ => seq![item_key(items[i])] + route_from(items, i + 1),
        }),
{
    let sub = items.subrange(i, items.len() as int);
    if i < items.len() {
        assert(sub.drop_first() =~= items.subrange(i + 1, items.len() as int));
        assert(sub[0] == items[i]);
    } else {
        assert(sub.len() == 0);
    }
}

impl<T: Default + Len> TopicMatcherNode<T> {
    /// Finds the child for literal `s`, adding an empty one when missing.
    fn child_for(&mut self, s: &String) -> (j: usize)
        requires
            old(self).wf(),
        ensures
            final(self).wf(),
            j < final(self).exact_children@.len(),
            final(self).exact_children@[j as int].0@ == s@,
            child_index(final(self).exact_children@, s@) == Some(j as int),
            final(self).exact_match_data == old(self).exact_match_data,
            final(self).single_level_wildcard_node == old(self).single_level_wildcard_node,
            final(self).multi_level_wildcard_data == old(self).multi_level_wildcard_data,
            forall|q: Seq<Key>| #[trigger] final(self).lookup(q) == old(self).lookup(q),
            j < old(self).exact_children@.len() ==> final(self).exact_children@ == old(
                self,
            ).exact_children@,
            j >= old(self).exact_children@.len() ==> final(self).exact_children@[j as int].1.bare()
                && j == old(self).exact_children@.len() && final(self).exact_children@.drop_last()
                == old(self).exact_children@,
    {
        let ghost ch = self.exact_children@;
        let n = self.exact_children.len();
        let mut j: usize = 0;
        while j < n
            invariant
                j <= n == self.exact_children@.len(),
                ch == self.exact_children@,
                *self == *old(self),
                self.wf(),
                forall|m: int| 0 <= m < j ==> (#[trigger] ch[m]).0@ != s@,
            decreases n - j,
        {
            if crate::text::string_eq(&self.exact_children[j].0, s) {
                proof {
                    lemma_child_index_is(ch, s@, j as int);
                }
                return j;
            }
            j += 1;
        }
        let child = Self::new();
        self.exact_children.push((copy_string(s), child));
        proof {
            let nc = self.exact_children@;
            assert(nc[n as int].0@ == s@);
            assert forall|m: int| 0 <= m < n implies (#[trigger] nc[m]).0@ != s@ by {
                assert(nc[m] == ch[m]);
            }
            lemma_child_index_is(nc, s@, n as int);
            assert forall|q: Seq<Key>| #[trigger] self.lookup(q) == old(self).lookup(q) by {
                if q.len() > 0 {
                    if let Key::Lit(k) = q[0] {
                        lemma_child_index(ch, k);
                        if k == s@ {
                            lemma_child_index_none(ch, k);
                            lemma_bare_lookup(nc[n as int].1, q.drop_first());
                        } else {
                            match child_index(ch, k) {
                                Some(m) => {
                                    assert forall|x: int| 0 <= x < m implies (#[trigger] nc[x]).0@ != k by {
                                        assert(nc[x] == ch[x]);
                                    }
                                    assert(nc[m] == ch[m]);
                                    lemma_child_index_is(nc, k, m);
                                },
                                None => {
                                    assert forall|x: int| 0 <= x < nc.len() implies (#[trigger] nc[x]).0@ != k by {
                                        if x < n {
                                            assert(nc[x] == ch[x]);
                                        }
                                    }
                                    lemma_child_index_none(nc, k);
                                },
                            }
                        }
                    }
                }
            }
            assert(self.exact_children@.drop_last() =~= ch);
            assert forall|x: int, y: int| 0 <= x < y < nc.len() implies (#[trigger] nc[x]).0@ != (
            #[trigger] nc[y]).0@ by {
                if y < n {
                    assert(nc[x] == ch[x] && nc[y] == ch[y]);
                } else {
                    assert(nc[x] == ch[x]);
                }
            }
            assert forall|x: int| 0 <= x < nc.len() implies (#[trigger] nc[x]).1.wf() by {
                if x < n {
                    assert(nc[x] == ch[x]);
                }
            }
        }
        n
    }

    /// The payload slot for a pattern ending at this node.
    fn exact_slot(&mut self) -> (r: &mut T)
        requires
            old(self).wf(),
        ensures
            final(self).wf(),
            old(self).pruned() ==> final(self).pruned(),
            !final(self).bare(),
            old(self).exact_match_data is Some ==> *r == old(self).exact_match_data->0,
            old(self).exact_match_data is None ==> call_ensures(T::default, (), *r),
            forall|q: Seq<Key>| #[trigger]
                final(self).lookup(q) == if q.len() == 0 {
                    Some(*final(r))
                } else {
                    old(self).lookup(q)
                },
    {
        proof {
            lemma_fields_replaced(*self);
        }
        let d = T::default();
        self.exact_match_data.get_or_insert(d)
    }

    /// The payload slot for a pattern ending with `#` after this node.
    fn hash_slot(&mut self) -> (r: &mut T)
        requires
            old(self).wf(),
        ensures
            final(self).wf(),
            old(self).pruned() ==> final(self).pruned(),
            !final(self).bare(),
            old(self).multi_level_wildcard_data is Some ==> *r == old(
                self,
            ).multi_level_wildcard_data->0,
            old(self).multi_level_wildcard_data is None ==> call_ensures(T::default, (), *r),
            forall|q: Seq<Key>| #[trigger]
                final(self).lookup(q) == if q == seq![Key::Hash] {
                    Some(*final(r))
                } else {
                    old(self).lookup(q)
                },
    {
        proof {
            lemma_fields_replaced(*self);
        }
        let d = T::default();
        self.multi_level_wildcard_data.get_or_insert(d)
    }

    /// The payload slot under literal `s` followed by the route of `items[i..]`.
    #[verifier::rlimit(60)]
    fn literal_slot(&mut self, s: &String, items: &Vec<TopicPatternItem>, i: usize) -> (r: &mut T)
        requires
            i <= items.len(),
            old(self).wf(),
        ensures
            final(self).wf(),
            old(self).pruned() ==> final(self).pruned(),
            !final(self).bare(),
            old(self).lookup(seq![Key::Lit(s@)] + route_from(items_view(items@), i as int)) is Some
                ==> *r == old(self).lookup(
                seq![Key::Lit(s@)] + route_from(items_view(items@), i as int),
            )->0,
            old(self).lookup(seq![Key::Lit(s@)] + route_from(items_view(items@), i as int)) is None
                ==> call_ensures(T::default, (), *r),
            forall|q: Seq<Key>| #[trigger]
                final(self).lookup(q) == if q == seq![Key::Lit(s@)] + route_from(
                    items_view(items@),
                    i as int,
                ) {
                    Some(*final(r))
                } else {
                    old(self).lookup(q)
                },
        decreases items.len() - i, 1nat,
    {
        let ghost p = seq![Key::Lit(s@)] + route_from(items_view(items@), i as int);
        let ghost before = *self;
        let j = self.child_for(s);
        let ghost mid = *self;
        proof {
            if before.pruned() {
                assert forall|m: int|
                    0 <= m < mid.exact_children@.len() && m != j implies !(
                    #[trigger] mid.exact_children@[m]).1.bare() && mid.exact_children@[m].1.pruned() by {
                    if j >= before.exact_children@.len() {
                        assert(mid.exact_children@.drop_last()[m] == mid.exact_children@[m]);
                    }
                    assert(mid.exact_children@[m] == before.exact_children@[m]);
                }
                lemma_child_replaced_pruned(mid, j as int);
                assert(mid.exact_children@[j as int].1.pruned()) by {
                    if j < before.exact_children@.len() {
                        assert(mid.exact_children@ == before.exact_children@);
                    }
                }
            }
            lemma_child_replaced(mid, j as int, s@);
            assert(p.drop_first() =~= route_from(items_view(items@), i as int));
            assert(mid.lookup(p) == mid.exact_children@[j as int].1.lookup(p.drop_first()));
            assert forall|q: Seq<Key>| q.len() > 0 && q[0] == Key::Lit(s@) implies (q == p) == (
            q.drop_first() == p.drop_first()) by {
                if q.drop_first() == p.drop_first() {
                    assert(q =~= p);
                }
            }
        }
        let child = &mut self.exact_children[j].1;
        child.table_at(items, i)
    }

    /// The payload slot under `+` followed by the route of `items[i..]`.
    fn plus_slot(&mut self, items: &Vec<TopicPatternItem>, i: usize) -> (r: &mut T)
        requires
            i <= items.len(),
            old(self).wf(),
        ensures
            final(self).wf(),
            old(self).pruned() ==> final(self).pruned(),
            !final(self).bare(),
            old(self).lookup(seq![Key::Plus] + route_from(items_view(items@), i as int)) is Some
                ==> *r == old(self).lookup(
                seq![Key::Plus] + route_from(items_view(items@), i as int),
            )->0,
            old(self).lookup(seq![Key::Plus] + route_from(items_view(items@), i as int)) is None
                ==> call_ensures(T::default, (), *r),
            forall|q: Seq<Key>| #[trigger]
                final(self).lookup(q) == if q == seq![Key::Plus] + route_from(
                    items_view(items@),
                    i as int,
                ) {
                    Some(*final(r))
                } else {
                    old(self).lookup(q)
                },
        decreases items.len() - i, 1nat,
    {
        let ghost p = seq![Key::Plus] + route_from(items_view(items@), i as int);
        if self.single_level_wildcard_node.is_none() {
            let fresh = Self::new();
            proof {
                assert forall|q: Seq<Key>| #[trigger] fresh.lookup(q) is None by {
                    lemma_bare_lookup(fresh, q);
                }
            }
            self.single_level_wildcard_node = Some(Box::new(fresh));
        }
        let ghost mid = *self;
        proof {
            lemma_plus_replaced(mid);
            assert(p.drop_first() =~= route_from(items_view(items@), i as int));
            assert forall|q: Seq<Key>| q.len() > 0 && q[0] == Key::Plus implies (q == p) == (
            q.drop_first() == p.drop_first()) by {
                if q.drop_first() == p.drop_first() {
                    assert(q =~= p);
                }
            }
        }
        let b = self.single_level_wildcard_node.as_mut().unwrap();
        b.table_at(items, i)
    }

    /// The payload slot for the route of `items[i..]`, created (with a default
    /// payload) when missing.
    fn table_at(&mut self, items: &Vec<TopicPatternItem>, i: usize) -> (r: &mut T)
        requires
            i <= items.len(),
            old(self).wf(),
        ensures
            final(self).wf(),
            old(self).pruned() ==> final(self).pruned(),
            !final(self).bare(),
            old(self).lookup(route_from(items_view(items@), i as int)) is Some ==> *r == old(
                self,
            ).lookup(route_from(items_view(items@), i as int))->0,
            old(self).lookup(route_from(items_view(items@), i as int)) is None ==> call_ensures(
                T::default,
                (),
                *r,
            ),
            forall|q: Seq<Key>| #[trigger]
                final(self).lookup(q) == if q == route_from(items_view(items@), i as int) {
                    Some(*final(r))
                } else {
                    old(self).lookup(q)
                },
        decreases items.len() - i, 0nat,
    {
        let ghost iv = items_view(items@);
        proof {
            lemma_route_from_step(iv, i as int);
        }
        if i == items.len() {
            proof {
                assert forall|q: Seq<Key>| (q.len() == 0) == (q == route_from(iv, i as int)) by {
                    if q.len() == 0 {
                        assert(q =~= route_from(iv, i as int));
                    }
                }
            }
            return self.exact_slot();
        }
        match &items[i] {
            TopicPatternItem::Str(s) => {
                assert(iv[i as int] == ItemView::Lit(s@));
                self.literal_slot(s, items, i + 1)
            },
            TopicPatternItem::Plus(_) => {
                assert(iv[i as int] is Plus);
                self.plus_slot(items, i + 1)
            },
            TopicPatternItem::Hash(_) => {
                assert(iv[i as int] is Hash);
                self.hash_slot()
            },
        }
    }
}

/// Replacing the `+` subtree changes only the routes through it.
proof fn lemma_plus_replaced<T>(a: TopicMatcherNode<T>)
    requires
        a.single_level_wildcard_node is Some,
    ensures
        forall|b: TopicMatcherNode<T>, q: Seq<Key>|
            b.exact_match_data == a.exact_match_data && b.exact_children == a.exact_children
                && b.multi_level_wildcard_data == a.multi_level_wildcard_data
                && b.single_level_wildcard_node is Some ==> #[trigger] b.lookup(q) == if q.len() > 0
                && q[0] == Key::Plus {
                b.single_level_wildcard_node->0.lookup(q.drop_first())
            } else {
                a.lookup(q)
            },
        forall|b: TopicMatcherNode<T>|
            b.exact_children == a.exact_children && b.single_level_wildcard_node is Some && a.wf()
                && b.single_level_wildcard_node->0.wf() ==> #[trigger] b.wf(),
{
}


pub open spec fn derefs<T>(s: Seq<&T>) -> Seq<T> {
    s.map_values(|r: &T| *r)
}

impl<T: Default + Len> TopicMatcherNode<T> {
    /// The payload stored for the pattern (bound values put in), created with
    /// a default payload when missing.
    pub fn get_or_create_subscription_table(&mut self, topic_path: &TopicPatternPath) -> (r: &mut T)
        requires
            old(self).wf(),
        ensures
            final(self).wf(),
            old(self).pruned() ==> final(self).pruned(),
            old(self)@.contains_key(route(topic_path@.effective_items())) ==> *r == old(
                self,
            )@[route(topic_path@.effective_items())],
            !old(self)@.contains_key(route(topic_path@.effective_items())) ==> call_ensures(
                T::default,
                (),
                *r,
            ),
            final(self)@ == old(self)@.insert(route(topic_path@.effective_items()), *final(r)),
    {
        let segs = topic_path.resolve_bound_segments();
        proof {
            assert(items_view(segs@).subrange(0, segs@.len() as int) =~= items_view(segs@));
        }
        self.table_at(&segs, 0)
    }

    /// The position of the child for literal `s`.
    fn find_child(&self, s: &String) -> (r: Option<usize>)
        ensures
            match r {
                Some(j) => child_index(self.exact_children@, s@) == Some(j as int),
                None => child_index(self.exact_children@, s@) is None,
            },
    {
        let n = self.exact_children.len();
        let mut j: usize = 0;
        while j < n
            invariant
                j <= n == self.exact_children@.len(),
                forall|m: int| 0 <= m < j ==> (#[trigger] self.exact_children@[m]).0@ != s@,
            decreases n - j,
        {
            if crate::text::string_eq(&self.exact_children[j].0, s) {
                proof {
                    lemma_child_index_is(self.exact_children@, s@, j as int);
                }
                return Some(j);
            }
            j += 1;
        }
        proof {
            lemma_child_index_none(self.exact_children@, s@);
        }
        None
    }

    fn collect_matching_subscriptions<'a>(
        &'a self,
        topic: &Vec<String>,
        i: usize,
        matching_data: &mut Vec<&'a T>,
    )
        requires
            i <= topic.len(),
        ensures
            derefs(final(matching_data)@) == derefs(old(matching_data)@) + self.collect(
                topic.deep_view().subrange(i as int, topic.len() as int),
            ),
        decreases topic.len() - i,
    {
        let ghost t = topic.deep_view().subrange(i as int, topic.len() as int);
        let ghost start = derefs(matching_data@);
        if i == topic.len() {
            match &self.exact_match_data {
                Some(d) => matching_data.push(d),
                None => {},
            }
            match &self.multi_level_wildcard_data {
                Some(d) => matching_data.push(d),
                None => {},
            }
            assert(derefs(matching_data@) =~= start + self.collect(t));
            return;
        }
        let ghost rest = topic.deep_view().subrange(i + 1, topic.len() as int);
        assert(t.drop_first() =~= rest);
        assert(t[0] == topic[i as int]@);
        let ghost fe = match child_index(self.exact_children@, t[0]) {
            Some(j) => self.exact_children@[j].1.collect(rest),
            None => Seq::<T>::empty(),
        };
        let ghost fp = match &self.single_level_wildcard_node {
            Some(b) => b.collect(rest),
            None => Seq::<T>::empty(),
        };
        assert(self.collect(t) == fe + fp + opt_seq(self.multi_level_wildcard_data));
        match self.find_child(&topic[i]) {
            Some(j) => {
                proof {
                    lemma_child_index(self.exact_children@, topic[i as int]@);
                }
                self.exact_children[j].1.collect_matching_subscriptions(topic, i + 1, matching_data);
            },
            None => {},
        }
        assert(derefs(matching_data@) =~= start + fe);
        match &self.single_level_wildcard_node {
            Some(b) => b.collect_matching_subscriptions(topic, i + 1, matching_data),
            None => {},
        }
        assert(derefs(matching_data@) =~= start + fe + fp);
        let ghost before_hash = matching_data@;
        match &self.multi_level_wildcard_data {
            Some(d) => {
                matching_data.push(d);
                assert(derefs(matching_data@) =~= derefs(before_hash).push(*d));
            },
            None => {},
        }
        assert(derefs(matching_data@) =~= start + self.collect(t));
    }

    /// The payloads whose pattern matches the topic (see [`lemma_find_by_path`]).
    pub fn find_by_path<'a>(&'a self, topic: &TopicPath) -> (r: Vec<&'a T>)
        ensures
            derefs(r@) == self.collect(topic.segments.deep_view()),
            exists|rs: Seq<Seq<Key>>|
                #![trigger rs.no_duplicates()]
                rs.len() == r.len() && rs.no_duplicates() && (forall|i: int|
                    0 <= i < r.len() ==> self@.contains_key(#[trigger] rs[i]) && self@[rs[i]] == *r@[i]
                        && route_matches(rs[i], topic.segments.deep_view())) && (forall|p: Seq<Key>|
                    #[trigger] self@.contains_key(p) && route_matches(p, topic.segments.deep_view())
                        ==> rs.contains(p)),
    {
        let mut matching_subscribers: Vec<&'a T> = Vec::new();
        self.collect_matching_subscriptions(&topic.segments, 0, &mut matching_subscribers);
        assert(topic.segments.deep_view().subrange(0, topic.segments.len() as int)
            =~= topic.segments.deep_view());
        assert(derefs(Seq::<&'a T>::empty()) =~= Seq::<T>::empty());
        proof {
            let t = topic.segments.deep_view();
            let rs = self.collect_routes(t);
            lemma_collect_routes(*self, t);
            assert forall|i: int| 0 <= i < matching_subscribers.len() implies self@.contains_key(#[trigger] rs[i])
                && self@[rs[i]] == *matching_subscribers@[i] && route_matches(rs[i], t) by {
                assert(derefs(matching_subscribers@)[i] == *matching_subscribers@[i]);
                assert(self.lookup(rs[i]) == Some(self.collect(t)[i]) && route_matches(rs[i], t));
            }
            assert forall|p: Seq<Key>| #[trigger] self@.contains_key(p) && route_matches(p, t) implies rs.contains(p) by {
                lemma_collect_routes_complete(*self, t, p);
            }
            assert(rs.no_duplicates());
        }
        matching_subscribers
    }
}


proof fn lemma_concat_contains<T>(a: Seq<T>, b: Seq<T>, v: T)
    ensures
        (a + b).contains(v) <==> a.contains(v) || b.contains(v),
{
    if (a + b).contains(v) {
        let i = choose|i: int| 0 <= i < (a + b).len() && (a + b)[i] == v;
        if i < a.len() {
            assert(a[i] == v);
        } else {
            assert(b[i - a.len()] == v);
        }
    }
    if a.contains(v) {
        let i = choose|i: int| 0 <= i < a.len() && a[i] == v;
        assert((a + b)[i] == v);
    }
    if b.contains(v) {
        let i = choose|i: int| 0 <= i < b.len() && b[i] == v;
        assert((a + b)[a.len() + i] == v);
    }
}

proof fn lemma_opt_seq_contains<T>(o: Option<T>, v: T)
    ensures
        opt_seq(o).contains(v) <==> o == Some(v),
{
    if o == Some(v) {
        assert(opt_seq(o)[0] == v);
    }
}

/// Every payload that the walk for topic `t` collects is stored under a route
/// that matches `t`.
proof fn lemma_collect_sound<T>(node: TopicMatcherNode<T>, t: Seq<Seq<char>>, v: T)
    requires
        node.collect(t).contains(v),
    ensures
        exists|p: Seq<Key>| #[trigger] node.lookup(p) == Some(v) && route_matches(p, t),
    decreases t.len(),
{
    if t.len() == 0 {
        lemma_concat_contains(opt_seq(node.exact_match_data), opt_seq(node.multi_level_wildcard_data), v);
        lemma_opt_seq_contains(node.exact_match_data, v);
        lemma_opt_seq_contains(node.multi_level_wildcard_data, v);
        if node.exact_match_data == Some(v) {
            let p = Seq::<Key>::empty();
            assert(node.lookup(p) == Some(v) && route_matches(p, t));
        } else {
            let p = seq![Key::Hash];
            assert(node.lookup(p) == Some(v) && route_matches(p, t));
        }
    } else {
        let rest = t.drop_first();
        let fe = match child_index(node.exact_children@, t[0]) {
            Some(j) => node.exact_children@[j].1.collect(rest),
            None => Seq::<T>::empty(),
        };
        let fp = match node.single_level_wildcard_node {
            Some(b) => b.collect(rest),
            None => Seq::<T>::empty(),
        };
        let fh = opt_seq(node.multi_level_wildcard_data);
        assert(node.collect(t) == fe + fp + fh);
        lemma_concat_contains(fe + fp, fh, v);
        lemma_concat_contains(fe, fp, v);
        lemma_opt_seq_contains(node.multi_level_wildcard_data, v);
        if fe.contains(v) {
            let j = child_index(node.exact_children@, t[0])->0;
            let c = node.exact_children@[j].1;
            lemma_collect_sound(c, rest, v);
            let q = choose|q: Seq<Key>| #[trigger] c.lookup(q) == Some(v) && route_matches(q, rest);
            let p = seq![Key::Lit(t[0])] + q;
            assert(p.drop_first() =~= q);
            assert(node.lookup(p) == Some(v) && route_matches(p, t));
        } else if fp.contains(v) {
            let c = *node.single_level_wildcard_node->0;
            lemma_collect_sound(c, rest, v);
            let q = choose|q: Seq<Key>| #[trigger] c.lookup(q) == Some(v) && route_matches(q, rest);
            let p = seq![Key::Plus] + q;
            assert(p.drop_first() =~= q);
            assert(node.lookup(p) == Some(v) && route_matches(p, t));
        } else {
            let p = seq![Key::Hash];
            assert(node.lookup(p) == Some(v) && route_matches(p, t));
        }
    }
}

/// Every payload stored under a route that matches topic `t` is collected by
/// the walk for `t`.
proof fn lemma_collect_complete<T>(node: TopicMatcherNode<T>, t: Seq<Seq<char>>, p: Seq<Key>, v: T)
    requires
        node.lookup(p) == Some(v),
        route_matches(p, t),
    ensures
        node.collect(t).contains(v),
    decreases t.len(),
{
    if t.len() == 0 {
        lemma_concat_contains(opt_seq(node.exact_match_data), opt_seq(node.multi_level_wildcard_data), v);
        lemma_opt_seq_contains(node.exact_match_data, v);
        lemma_opt_seq_contains(node.multi_level_wildcard_data, v);
    } else {
        let rest = t.drop_first();
        let fe = match child_index(node.exact_children@, t[0]) {
            Some(j) => node.exact_children@[j].1.collect(rest),
            None => Seq::<T>::empty(),
        };
        let fp = match node.single_level_wildcard_node {
            Some(b) => b.collect(rest),
            None => Seq::<T>::empty(),
        };
        let fh = opt_seq(node.multi_level_wildcard_data);
        assert(node.collect(t) == fe + fp + fh);
        lemma_concat_contains(fe + fp, fh, v);
        lemma_concat_contains(fe, fp, v);
        lemma_opt_seq_contains(node.multi_level_wildcard_data, v);
        match p[0] {
            Key::Lit(k) => {
                let j = child_index(node.exact_children@, k)->0;
                lemma_collect_complete(node.exact_children@[j].1, rest, p.drop_first(), v);
            },
            Key::Plus => {
                lemma_collect_complete(*node.single_level_wildcard_node->0, rest, p.drop_first(), v);
            },
            Key::Hash => {},
        }
    }
}

/// A payload is found for a topic exactly when some stored pattern that
/// matches the topic holds it.
pub proof fn lemma_find_by_path<T>(node: TopicMatcherNode<T>, topic: Seq<Seq<char>>, v: T)
    ensures
        node.collect(topic).contains(v) <==> exists|p: Seq<Key>|
            #![trigger node@[p]]
            node@.contains_key(p) && node@[p] == v && route_matches(p, topic),
{
    if node.collect(topic).contains(v) {
        lemma_collect_sound(node, topic, v);
        let p = choose|p: Seq<Key>| #[trigger] node.lookup(p) == Some(v) && route_matches(p, topic);
        assert(node@.contains_key(p) && node@[p] == v);
    }
    if exists|p: Seq<Key>|
        #![trigger node@[p]]
        node@.contains_key(p) && node@[p] == v && route_matches(p, topic) {
        let p = choose|p: Seq<Key>|
            #![trigger node@[p]]
            node@.contains_key(p) && node@[p] == v && route_matches(p, topic);
        lemma_collect_complete(node, topic, p, v);
    }
}


proof fn lemma_prefixed<T>(node: TopicMatcherNode<T>, k: Key, rs: Seq<Seq<Key>>, vs: Seq<T>, t: Seq<Seq<char>>)
    requires
        rs.len() == vs.len(),
        rs.no_duplicates(),
        forall|i: int|
            0 <= i < rs.len() ==> node.lookup(#[trigger] rs[i]) == Some(vs[i]) && route_matches(
                rs[i],
                t,
            ),
    ensures
        prefixed(k, rs).len() == vs.len(),
        prefixed(k, rs).no_duplicates(),
        forall|i: int|
            0 <= i < rs.len() ==> (#[trigger] prefixed(k, rs)[i]) == seq![k] + rs[i] && (seq![k]
                + rs[i]).drop_first() == rs[i] && (seq![k] + rs[i])[0] == k,
{
    let ps = prefixed(k, rs);
    assert forall|i: int| 0 <= i < rs.len() implies (#[trigger] ps[i]) == seq![k] + rs[i] && (seq![k]
        + rs[i]).drop_first() == rs[i] && (seq![k] + rs[i])[0] == k by {
        assert((seq![k] + rs[i]).drop_first() =~= rs[i]);
    }
    assert forall|i: int, j: int| 0 <= i < ps.len() && 0 <= j < ps.len() && i != j implies ps[i]
        != ps[j] by {
        if ps[i] == ps[j] {
            assert(ps[i].drop_first() == ps[j].drop_first());
            assert((seq![k] + rs[i]).drop_first() =~= rs[i]);
            assert((seq![k] + rs[j]).drop_first() =~= rs[j]);
        }
    }
}

/// Every stored route that matches topic `t` is among the routes that the
/// walk for `t` visits.
proof fn lemma_collect_routes_complete<T>(node: TopicMatcherNode<T>, t: Seq<Seq<char>>, p: Seq<Key>)
    requires
        node.lookup(p) is Some,
        route_matches(p, t),
    ensures
        node.collect_routes(t).contains(p),
    decreases t.len(),
{
    let hr: Seq<Seq<Key>> = if node.multi_level_wildcard_data is Some {
        seq![seq![Key::Hash]]
    } else {
        Seq::empty()
    };
    if p.len() == 1 && p[0] == Key::Hash {
        assert(p =~= seq![Key::Hash]);
        assert(hr[0] == p);
    }
    if t.len() == 0 {
        let er: Seq<Seq<Key>> = if node.exact_match_data is Some {
            seq![Seq::<Key>::empty()]
        } else {
            Seq::empty()
        };
        assert(node.collect_routes(t) == er + hr);
        lemma_concat_contains(er, hr, p);
        if p.len() == 0 {
            assert(p =~= Seq::<Key>::empty());
            assert(er[0] == p);
        }
    } else {
        let rest = t.drop_first();
        let fe = match child_index(node.exact_children@, t[0]) {
            Some(j) => prefixed(Key::Lit(t[0]), node.exact_children@[j].1.collect_routes(rest)),
            None => Seq::<Seq<Key>>::empty(),
        };
        let fp = match node.single_level_wildcard_node {
            Some(b) => prefixed(Key::Plus, b.collect_routes(rest)),
            None => Seq::<Seq<Key>>::empty(),
        };
        assert(node.collect_routes(t) == fe + fp + hr);
        lemma_concat_contains(fe + fp, hr, p);
        lemma_concat_contains(fe, fp, p);
        assert(p =~= seq![p[0]] + p.drop_first());
        match p[0] {
            Key::Lit(k) => {
                let j = child_index(node.exact_children@, k)->0;
                let rs = node.exact_children@[j].1.collect_routes(rest);
                lemma_collect_routes_complete(node.exact_children@[j].1, rest, p.drop_first());
                let i = choose|i: int| 0 <= i < rs.len() && rs[i] == p.drop_first();
                assert(fe[i] == seq![Key::Lit(k)] + rs[i]);
            },
            Key::Plus => {
                let b = *node.single_level_wildcard_node->0;
                let rs = b.collect_routes(rest);
                lemma_collect_routes_complete(b, rest, p.drop_first());
                let i = choose|i: int| 0 <= i < rs.len() && rs[i] == p.drop_first();
                assert(fp[i] == seq![Key::Plus] + rs[i]);
            },
            Key::Hash => {},
        }
    }
}

/// The routes of [`TopicMatcherNode::collect_routes`] are distinct, match the
/// topic, and hold, in order, the payloads that `collect` gathers.
pub(crate) proof fn lemma_collect_routes<T>(node: TopicMatcherNode<T>, t: Seq<Seq<char>>)
    ensures
        node.collect_routes(t).len() == node.collect(t).len(),
        node.collect_routes(t).no_duplicates(),
        forall|i: int|
            0 <= i < node.collect(t).len() ==> node.lookup(#[trigger] node.collect_routes(t)[i]) == Some(
                node.collect(t)[i],
            ) && route_matches(node.collect_routes(t)[i], t),
        forall|i: int|
            0 <= i < node.collect(t).len() ==> node@.contains_key(#[trigger] node.collect_routes(t)[i])
                && node@[node.collect_routes(t)[i]] == node.collect(t)[i],
    decreases t.len(),
{
    let cr = node.collect_routes(t);
    let cv = node.collect(t);
    let hr: Seq<Seq<Key>> = if node.multi_level_wildcard_data is Some {
        seq![seq![Key::Hash]]
    } else {
        Seq::empty()
    };
    let hv = opt_seq(node.multi_level_wildcard_data);
    let h = seq![Key::Hash];
    assert(h.len() == 1 && h[0] == Key::Hash);
    assert(route_matches(h, t));
    assert(node.lookup(h) == node.multi_level_wildcard_data);
    if t.len() == 0 {
        let er: Seq<Seq<Key>> = if node.exact_match_data is Some {
            seq![Seq::<Key>::empty()]
        } else {
            Seq::empty()
        };
        let ev = opt_seq(node.exact_match_data);
        assert(cr == er + hr);
        assert(cv == ev + hv);
        assert forall|i: int| 0 <= i < cv.len() implies node.lookup(#[trigger] cr[i]) == Some(cv[i])
            && route_matches(cr[i], t) by {
            if i < er.len() {
                assert(cr[i] == er[i]);
                assert(cv[i] == ev[i]);
            } else {
                assert(cr[i] == hr[i - er.len()]);
                assert(cv[i] == hv[i - ev.len()]);
            }
        }
        assert forall|i: int, j: int| 0 <= i < cr.len() && 0 <= j < cr.len() && i != j implies cr[i]
            != cr[j] by {
            if er.len() == 1 && hr.len() == 1 {
                assert(cr[0] == Seq::<Key>::empty());
                assert(cr[1] == h);
            }
        }
    } else {
        let rest = t.drop_first();
        let (er, ev) = match child_index(node.exact_children@, t[0]) {
            Some(j) => (
                prefixed(Key::Lit(t[0]), node.exact_children@[j].1.collect_routes(rest)),
                node.exact_children@[j].1.collect(rest),
            ),
            None => (Seq::<Seq<Key>>::empty(), Seq::<T>::empty()),
        };
        let (pr, pv) = match node.single_level_wildcard_node {
            Some(b) => (prefixed(Key::Plus, b.collect_routes(rest)), b.collect(rest)),
            None => (Seq::<Seq<Key>>::empty(), Seq::<T>::empty()),
        };
        assert(cr == er + pr + hr);
        assert(cv == ev + pv + hv);
        match child_index(node.exact_children@, t[0]) {
            Some(j) => {
                let c = node.exact_children@[j].1;
                lemma_collect_routes(c, rest);
                assert forall|i: int| 0 <= i < c.collect_routes(rest).len() implies node.lookup(
                    seq![Key::Lit(t[0])] + #[trigger] c.collect_routes(rest)[i],
                ) == c.lookup(c.collect_routes(rest)[i]) && (route_matches(
                    seq![Key::Lit(t[0])] + c.collect_routes(rest)[i],
                    t,
                ) == route_matches(c.collect_routes(rest)[i], rest)) by {
                    let q = seq![Key::Lit(t[0])] + c.collect_routes(rest)[i];
                    assert(q.drop_first() =~= c.collect_routes(rest)[i]);
                    assert(q[0] == Key::Lit(t[0]));
                }
                lemma_prefixed(c, Key::Lit(t[0]), c.collect_routes(rest), c.collect(rest), rest);
            },
            None => {},
        }
        match node.single_level_wildcard_node {
            Some(b) => {
                lemma_collect_routes(*b, rest);
                assert forall|i: int| 0 <= i < b.collect_routes(rest).len() implies node.lookup(
                    seq![Key::Plus] + #[trigger] b.collect_routes(rest)[i],
                ) == b.lookup(b.collect_routes(rest)[i]) && (route_matches(
                    seq![Key::Plus] + b.collect_routes(rest)[i],
                    t,
                ) == route_matches(b.collect_routes(rest)[i], rest)) by {
                    let q = seq![Key::Plus] + b.collect_routes(rest)[i];
                    assert(q.drop_first() =~= b.collect_routes(rest)[i]);
                    assert(q[0] == Key::Plus);
                }
                lemma_prefixed(*b, Key::Plus, b.collect_routes(rest), b.collect(rest), rest);
            },
            None => {},
        }
        assert(er.len() == ev.len());
        assert(pr.len() == pv.len());
        assert forall|i: int| 0 <= i < er.len() implies (#[trigger] er[i])[0] is Lit by {}
        assert forall|i: int| 0 <= i < pr.len() implies (#[trigger] pr[i])[0] is Plus by {}
        assert forall|i: int| 0 <= i < cv.len() implies node.lookup(#[trigger] cr[i]) == Some(cv[i])
            && route_matches(cr[i], t) by {
            if i < er.len() {
                assert(cr[i] == er[i]);
                assert(cv[i] == ev[i]);
            } else if i < er.len() + pr.len() {
                assert(cr[i] == pr[i - er.len()]);
                assert(cv[i] == pv[i - ev.len()]);
            } else {
                assert(cr[i] == hr[i - er.len() - pr.len()]);
                assert(cv[i] == hv[i - ev.len() - pv.len()]);
            }
        }
        assert forall|i: int, j: int| 0 <= i < cr.len() && 0 <= j < cr.len() && i != j implies cr[i]
            != cr[j] by {
            let gi: int = if i < er.len() { 0 } else if i < er.len() + pr.len() { 1 } else { 2 };
            let gj: int = if j < er.len() { 0 } else if j < er.len() + pr.len() { 1 } else { 2 };
            if gi == 0 {
                assert(cr[i] == er[i]);
            } else if gi == 1 {
                assert(cr[i] == pr[i - er.len()]);
            } else {
                assert(cr[i] == h);
            }
            if gj == 0 {
                assert(cr[j] == er[j]);
            } else if gj == 1 {
                assert(cr[j] == pr[j - er.len()]);
            } else {
                assert(cr[j] == h);
            }
            if gi == gj && gi == 2 {
                assert(hr.len() <= 1);
            }
        }
    }
}

impl<T> TopicMatcherNode<T> {
    /// The level reported when route `p` holds no payload.
    pub closed spec fn missing_segment(&self, p: Seq<Key>) -> Seq<char>
        decreases p.len(),
    {
        if p.len() == 0 {
            "no_data_for_empty_path"@
        } else {
            match p[0] {
                Key::Hash => "#"@,
                Key::Plus => match self.single_level_wildcard_node {
                    Some(b) => b.missing_segment(p.drop_first()),
                    None => "+"@,
                },
                Key::Lit(k) => match child_index(self.exact_children@, k) {
                    Some(j) => self.exact_children@[j].1.missing_segment(p.drop_first()),
                    None => k,
                },
            }
        }
    }
}

/// `b` is `a` after the payload under `p` became `v`: `v` is kept unless it is
/// empty, and elsewhere only entries with empty payloads may have gone.
pub open spec fn updated_ok<T: Len>(a: Map<Seq<Key>, T>, b: Map<Seq<Key>, T>, p: Seq<Key>, v: T) -> bool {
    &&& b.contains_key(p) == !v.spec_is_empty()
    &&& !v.spec_is_empty() ==> b[p] == v
    &&& forall|q: Seq<Key>|
        q != p && #[trigger] b.contains_key(q) ==> a.contains_key(q) && b[q] == a[q]
    &&& forall|q: Seq<Key>|
        q != p && #[trigger] a.contains_key(q) && !b.contains_key(q) ==> a[q].spec_is_empty()
}

spec fn lookups_updated<T: Len>(a: TopicMatcherNode<T>, b: TopicMatcherNode<T>, p: Seq<Key>, v: T) -> bool {
    &&& b.lookup(p) == if v.spec_is_empty() {
        None::<T>
    } else {
        Some(v)
    }
    &&& forall|q: Seq<Key>|
        q != p ==> (#[trigger] b.lookup(q) == a.lookup(q) || (b.lookup(q) is None && a.lookup(q) is Some
            && a.lookup(q)->0.spec_is_empty()))
}

proof fn lemma_lookups_updated_view<T: Len>(a: TopicMatcherNode<T>, b: TopicMatcherNode<T>, p: Seq<Key>, v: T)
    requires
        lookups_updated(a, b, p, v),
    ensures
        updated_ok(a@, b@, p, v),
{
    assert forall|q: Seq<Key>| q != p && #[trigger] b@.contains_key(q) implies a@.contains_key(q)
        && b@[q] == a@[q] by {
        assert(b.lookup(q) == a.lookup(q) || (b.lookup(q) is None));
    }
    assert forall|q: Seq<Key>| q != p && #[trigger] a@.contains_key(q) && !b@.contains_key(q) implies a@[
        q].spec_is_empty() by {
        assert(b.lookup(q) == a.lookup(q) || (b.lookup(q) is None && a.lookup(q)->0.spec_is_empty()));
    }
}

/// In an empty node every stored payload is empty.
proof fn lemma_empty_node_lookup<T: Len>(n: TopicMatcherNode<T>, q: Seq<Key>)
    requires
        n.spec_is_empty(),
    ensures
        n.lookup(q) is None || n.lookup(q)->0.spec_is_empty(),
{
    if q.len() > 0 {
        if let Key::Lit(k) = q[0] {
            lemma_child_index_none(n.exact_children@, k);
        }
    }
}

proof fn lemma_child_index_remove<T>(ch: Seq<(String, TopicMatcherNode<T>)>, j: int, k: Seq<char>)
    requires
        0 <= j < ch.len(),
        ch[j].0@ != k,
    ensures
        match (child_index(ch, k), child_index(ch.remove(j), k)) {
            (Some(x), Some(y)) => 0 <= y < ch.remove(j).len() && ch[x] == ch.remove(j)[y],
            (None, None) => true,
            _ => false,
        },
{
    let r = ch.remove(j);
    lemma_child_index(ch, k);
    match child_index(ch, k) {
        Some(x) => {
            if x < j {
                assert forall|m: int| 0 <= m < x implies (#[trigger] r[m]).0@ != k by {
                    assert(r[m] == ch[m]);
                }
                assert(r[x] == ch[x]);
                lemma_child_index_is(r, k, x);
            } else {
                assert(x > j);
                assert forall|m: int| 0 <= m < x - 1 implies (#[trigger] r[m]).0@ != k by {
                    if m < j {
                        assert(r[m] == ch[m]);
                    } else {
                        assert(r[m] == ch[m + 1]);
                    }
                }
                assert(r[x - 1] == ch[x]);
                lemma_child_index_is(r, k, x - 1);
            }
        },
        None => {
            assert forall|m: int| 0 <= m < r.len() implies (#[trigger] r[m]).0@ != k by {
                if m < j {
                    assert(r[m] == ch[m]);
                } else {
                    assert(r[m] == ch[m + 1]);
                }
            }
            lemma_child_index_none(r, k);
        },
    }
}

/// Updating through child `j` (literal `s`) updates the route under `s`.
proof fn lemma_update_through_child<T: Len>(
    a: TopicMatcherNode<T>,
    b: TopicMatcherNode<T>,
    j: int,
    s: Seq<char>,
    pr: Seq<Key>,
    v: T,
)
    requires
        0 <= j < a.exact_children@.len(),
        a.exact_children@[j].0@ == s,
        child_index(a.exact_children@, s) == Some(j),
        child_replaced(a, b, j),
        lookups_updated(a.exact_children@[j].1, b.exact_children@[j].1, pr, v),
        a.wf(),
        b.exact_children@[j].1.wf(),
    ensures
        lookups_updated(a, b, seq![Key::Lit(s)] + pr, v),
        b.wf(),
{
    lemma_child_replaced(a, j, s);
    let p = seq![Key::Lit(s)] + pr;
    assert(p.drop_first() =~= pr);
    assert(b.lookup(p) == b.exact_children@[j].1.lookup(pr));
    assert forall|q: Seq<Key>| q != p implies (#[trigger] b.lookup(q) == a.lookup(q) || (b.lookup(q) is None
        && a.lookup(q) is Some && a.lookup(q)->0.spec_is_empty())) by {
        if q.len() > 0 && q[0] == Key::Lit(s) {
            if q.drop_first() == pr {
                assert(q =~= p);
            }
            assert(a.lookup(q) == a.exact_children@[j].1.lookup(q.drop_first()));
            assert(b.lookup(q) == b.exact_children@[j].1.lookup(q.drop_first()));
        }
    }
}

/// A failed update through child `j` leaves the routes as they were.
proof fn lemma_unchanged_through_child<T: Len>(
    a: TopicMatcherNode<T>,
    b: TopicMatcherNode<T>,
    j: int,
    s: Seq<char>,
)
    requires
        0 <= j < a.exact_children@.len(),
        a.exact_children@[j].0@ == s,
        child_index(a.exact_children@, s) == Some(j),
        child_replaced(a, b, j),
        forall|q: Seq<Key>| #[trigger] b.exact_children@[j].1.lookup(q) == a.exact_children@[j].1.lookup(q),
        a.wf(),
        b.exact_children@[j].1.wf(),
    ensures
        forall|q: Seq<Key>| #[trigger] b.lookup(q) == a.lookup(q),
        b.wf(),
{
    lemma_child_replaced(a, j, s);
    assert forall|q: Seq<Key>| #[trigger] b.lookup(q) == a.lookup(q) by {
        if q.len() > 0 && q[0] == Key::Lit(s) {
            assert(a.lookup(q) == a.exact_children@[j].1.lookup(q.drop_first()));
            assert(b.lookup(q) == b.exact_children@[j].1.lookup(q.drop_first()));
        }
    }
}

/// The route `[s] + pr` goes through child `j`.
proof fn lemma_literal_route<T>(a: TopicMatcherNode<T>, j: int, s: Seq<char>, pr: Seq<Key>)
    requires
        child_index(a.exact_children@, s) == Some(j),
    ensures
        a.lookup(seq![Key::Lit(s)] + pr) == a.exact_children@[j].1.lookup(pr),
        a.missing_segment(seq![Key::Lit(s)] + pr) == a.exact_children@[j].1.missing_segment(pr),
{
    let p = seq![Key::Lit(s)] + pr;
    assert(p.drop_first() =~= pr);
    assert(p[0] == Key::Lit(s));
}

/// Updating through child `j` and then dropping it (it became empty).
proof fn lemma_update_child_removed<T: Len>(
    a: TopicMatcherNode<T>,
    b: TopicMatcherNode<T>,
    c2: TopicMatcherNode<T>,
    j: int,
    s: Seq<char>,
    pr: Seq<Key>,
    v: T,
)
    requires
        a.wf(),
        0 <= j < a.exact_children@.len(),
        a.exact_children@[j].0@ == s,
        child_index(a.exact_children@, s) == Some(j),
        b.exact_match_data == a.exact_match_data,
        b.single_level_wildcard_node == a.single_level_wildcard_node,
        b.multi_level_wildcard_data == a.multi_level_wildcard_data,
        b.exact_children@ == a.exact_children@.remove(j),
        lookups_updated(a.exact_children@[j].1, c2, pr, v),
        c2.spec_is_empty(),
    ensures
        lookups_updated(a, b, seq![Key::Lit(s)] + pr, v),
        b.wf(),
{
    let p = seq![Key::Lit(s)] + pr;
    let ca = a.exact_children@;
    let cb = b.exact_children@;
    assert(p.drop_first() =~= pr);
    assert forall|m: int| 0 <= m < cb.len() implies (#[trigger] cb[m]).0@ != s by {
        if m < j {
            assert(cb[m] == ca[m]);
            assert(ca[m].0@ != ca[j].0@);
        } else {
            assert(cb[m] == ca[m + 1]);
            assert(ca[j].0@ != ca[m + 1].0@);
        }
    }
    lemma_child_index_none(cb, s);
    lemma_empty_node_lookup(c2, pr);
    assert forall|q: Seq<Key>| q != p implies (#[trigger] b.lookup(q) == a.lookup(q) || (b.lookup(q) is None
        && a.lookup(q) is Some && a.lookup(q)->0.spec_is_empty())) by {
        if q.len() > 0 {
            if let Key::Lit(k) = q[0] {
                if k == s {
                    if q.drop_first() == pr {
                        assert(q =~= p);
                    }
                    lemma_empty_node_lookup(c2, q.drop_first());
                    assert(a.lookup(q) == ca[j].1.lookup(q.drop_first()));
                } else {
                    lemma_child_index_remove(ca, j, k);
                }
            }
        }
    }
    assert forall|x: int, y: int| 0 <= x < y < cb.len() implies (#[trigger] cb[x]).0@ != (
    #[trigger] cb[y]).0@ by {
        let x2 = if x < j { x } else { x + 1 };
        let y2 = if y < j { y } else { y + 1 };
        assert(cb[x] == ca[x2] && cb[y] == ca[y2]);
        assert(ca[x2].0@ != ca[y2].0@);
    }
    assert forall|x: int| 0 <= x < cb.len() implies (#[trigger] cb[x]).1.wf() by {
        if x < j {
            assert(cb[x] == ca[x]);
        } else {
            assert(cb[x] == ca[x + 1]);
        }
    }
}

/// Updating through the `+` child.
proof fn lemma_update_through_plus<T: Len>(
    a: TopicMatcherNode<T>,
    b: TopicMatcherNode<T>,
    pr: Seq<Key>,
    v: T,
)
    requires
        a.single_level_wildcard_node is Some,
        b.single_level_wildcard_node is Some,
        b.exact_match_data == a.exact_match_data,
        b.exact_children == a.exact_children,
        b.multi_level_wildcard_data == a.multi_level_wildcard_data,
        lookups_updated(*a.single_level_wildcard_node->0, *b.single_level_wildcard_node->0, pr, v),
    ensures
        lookups_updated(a, b, seq![Key::Plus] + pr, v),
{
    let p = seq![Key::Plus] + pr;
    assert(p.drop_first() =~= pr);
    assert forall|q: Seq<Key>| q != p implies (#[trigger] b.lookup(q) == a.lookup(q) || (b.lookup(q) is None
        && a.lookup(q) is Some && a.lookup(q)->0.spec_is_empty())) by {
        if q.len() > 0 && q[0] == Key::Plus {
            if q.drop_first() == pr {
                assert(q =~= p);
            }
            assert(a.lookup(q) == (*a.single_level_wildcard_node->0).lookup(q.drop_first()));
            assert(b.lookup(q) == (*b.single_level_wildcard_node->0).lookup(q.drop_first()));
        } else if q.len() > 0 {
            match q[0] {
                Key::Lit(k) => {
                    assert(b.lookup(q) == a.lookup(q));
                },
                _ => {},
            }
        }
    }
}

/// Updating through the `+` child and then dropping it (it became empty).
proof fn lemma_update_plus_removed<T: Len>(
    a: TopicMatcherNode<T>,
    b: TopicMatcherNode<T>,
    c2: TopicMatcherNode<T>,
    pr: Seq<Key>,
    v: T,
)
    requires
        a.single_level_wildcard_node is Some,
        b.single_level_wildcard_node is None,
        b.exact_match_data == a.exact_match_data,
        b.exact_children == a.exact_children,
        b.multi_level_wildcard_data == a.multi_level_wildcard_data,
        lookups_updated(*a.single_level_wildcard_node->0, c2, pr, v),
        c2.spec_is_empty(),
    ensures
        lookups_updated(a, b, seq![Key::Plus] + pr, v),
{
    let p = seq![Key::Plus] + pr;
    assert(p.drop_first() =~= pr);
    lemma_empty_node_lookup(c2, pr);
    assert forall|q: Seq<Key>| q != p implies (#[trigger] b.lookup(q) == a.lookup(q) || (b.lookup(q) is None
        && a.lookup(q) is Some && a.lookup(q)->0.spec_is_empty())) by {
        if q.len() > 0 && q[0] == Key::Plus {
            if q.drop_first() == pr {
                assert(q =~= p);
            }
            lemma_empty_node_lookup(c2, q.drop_first());
        }
    }
}

/// Replacing child `j` by a pruned, non-bare subtree keeps the node pruned.
proof fn lemma_pruned_child_replaced<T>(a: TopicMatcherNode<T>, b: TopicMatcherNode<T>, j: int)
    requires
        0 <= j < a.exact_children@.len(),
        child_replaced(a, b, j),
        a.pruned(),
        !b.exact_children@[j].1.bare(),
        b.exact_children@[j].1.pruned(),
    ensures
        b.pruned(),
{
    assert forall|i: int| 0 <= i < b.exact_children@.len() implies !(#[trigger] b.exact_children@[i]).1.bare()
        && b.exact_children@[i].1.pruned() by {
        if i != j {
            assert(b.exact_children@[i] == a.exact_children@[i]);
        }
    }
}

/// Dropping child `j` keeps the node pruned.
proof fn lemma_pruned_child_removed<T>(a: TopicMatcherNode<T>, b: TopicMatcherNode<T>, j: int)
    requires
        0 <= j < a.exact_children@.len(),
        a.pruned(),
        b.exact_children@ == a.exact_children@.remove(j),
        b.single_level_wildcard_node == a.single_level_wildcard_node,
    ensures
        b.pruned(),
{
    assert forall|i: int| 0 <= i < b.exact_children@.len() implies !(#[trigger] b.exact_children@[i]).1.bare()
        && b.exact_children@[i].1.pruned() by {
        if i < j {
            assert(b.exact_children@[i] == a.exact_children@[i]);
        } else {
            assert(b.exact_children@[i] == a.exact_children@[i + 1]);
        }
    }
}

/// A pruned, non-bare subtree whose routes are unchanged is still not bare.
proof fn lemma_still_not_bare<T>(c1: TopicMatcherNode<T>, c2: TopicMatcherNode<T>)
    requires
        c1.wf(),
        c1.pruned(),
        !c1.bare(),
        forall|q: Seq<Key>| #[trigger] c2.lookup(q) == c1.lookup(q),
    ensures
        !c2.bare(),
{
    lemma_pruned_stores(c1);
    let q = choose|q: Seq<Key>| #[trigger] c1.lookup(q) is Some;
    if c2.bare() {
        lemma_bare_lookup(c2, q);
    }
}

/// Calls `f` on `x`.
fn apply_update<T, F: FnOnce(&mut T)>(x: &mut T, f: F)
    requires
        forall|a: &mut T| #[trigger] f.requires((a,)),
    ensures
        exists|r: &mut T| *r == *old(x) && *final(r) == *final(x) && #[trigger] f.ensures((r,), ()),
{
    f(x)
}


impl<T: Default + Len> TopicMatcherNode<T> {
    /// Applies `f` to the payload of a pattern ending at this node.
    fn update_exact<F: FnOnce(&mut T)>(&mut self, f: F) -> (r: Result<bool, TopicMatcherError>)
        requires
            old(self).wf(),
            forall|a: &mut T| #[trigger] f.requires((a,)),
        ensures
            final(self).wf(),
            old(self).pruned() ==> final(self).pruned(),
            match r {
                Err(e) => old(self).lookup(Seq::<Key>::empty()) is None && (forall|q: Seq<Key>|
                    #[trigger] final(self).lookup(q) == old(self).lookup(q)) && e@
                    == MatcherErrorView::InvalidSegment(
                    old(self).missing_segment(Seq::<Key>::empty()),
                    0,
                ),
                Ok(b) => old(self).lookup(Seq::<Key>::empty()) is Some && b == final(self).spec_is_empty()
                    && exists|a: &mut T|
                    *a == old(self).lookup(Seq::<Key>::empty())->0 && #[trigger] f.ensures((a,), ())
                        && lookups_updated(*old(self), *final(self), Seq::<Key>::empty(), *final(a)),
            },
    {
        proof {
            lemma_fields_replaced(*self);
        }
        let ghost before = *self;
        match &mut self.exact_match_data {
            Some(data) => {
                apply_update(data, f);
            },
            None => {
                proof {
                    reveal_strlit("no_data_for_empty_path");
                }
                return Err(
                    TopicMatcherError::invalid_segment(crate::text::owned_string("no_data_for_empty_path"), 0),
                );
            },
        }
        let ghost newv = self.exact_match_data->0;
        let emptied = match &self.exact_match_data {
            Some(d) => d.is_empty(),
            None => false,
        };
        if emptied {
            self.exact_match_data = None;
        }
        proof {
            let a = choose|a: &mut T| *a == before.exact_match_data->0 && *final(a) == newv && #[trigger] f.ensures((a,), ());
            assert forall|q: Seq<Key>| q != Seq::<Key>::empty() implies (#[trigger] self.lookup(q) == before.lookup(q)) by {
                if q.len() == 0 {
                    assert(q =~= Seq::<Key>::empty());
                }
                if q == seq![Key::Hash] {
                    assert(q.len() == 1 && q[0] == Key::Hash);
                    assert(before.lookup(q) == before.multi_level_wildcard_data);
                    assert(self.multi_level_wildcard_data == before.multi_level_wildcard_data);
                }
            }
            assert(self.lookup(Seq::<Key>::empty()) == self.exact_match_data);
            assert(lookups_updated(before, *self, Seq::<Key>::empty(), *final(a)));
        }
        Ok(self.is_empty())
    }
}


impl<T: Default + Len> TopicMatcherNode<T> {
    /// Applies `f` to the payload of a pattern ending with `#` after this node.
    fn update_hash<F: FnOnce(&mut T)>(&mut self, f: F) -> (r: Result<bool, TopicMatcherError>)
        requires
            old(self).wf(),
            forall|a: &mut T| #[trigger] f.requires((a,)),
        ensures
            final(self).wf(),
            old(self).pruned() ==> final(self).pruned(),
            match r {
                Err(e) => old(self).lookup(seq![Key::Hash]) is None && (forall|q: Seq<Key>|
                    #[trigger] final(self).lookup(q) == old(self).lookup(q)) && e@
                    == MatcherErrorView::InvalidSegment(old(self).missing_segment(seq![Key::Hash]), 0),
                Ok(now_empty) => old(self).lookup(seq![Key::Hash]) is Some && now_empty == final(self).spec_is_empty() && exists|x: &mut T|
                    *x == old(self).lookup(seq![Key::Hash])->0 && #[trigger] f.ensures((x,), ())
                        && lookups_updated(*old(self), *final(self), seq![Key::Hash], *final(x)),
            },
    {
        proof {
            lemma_fields_replaced(*self);
        }
        let ghost before = *self;
        let ghost p = seq![Key::Hash];
        match &mut self.multi_level_wildcard_data {
            Some(data) => {
                apply_update(data, f);
            },
            None => {
                proof {
                    reveal_strlit("#");
                }
                return Err(TopicMatcherError::invalid_segment(crate::text::owned_string("#"), 0));
            },
        }
        let ghost newv = self.multi_level_wildcard_data->0;
        let emptied = match &self.multi_level_wildcard_data {
            Some(d) => d.is_empty(),
            None => false,
        };
        if emptied {
            self.multi_level_wildcard_data = None;
        }
        proof {
            let a = choose|a: &mut T|
                *a == before.multi_level_wildcard_data->0 && *final(a) == newv && #[trigger] f.ensures(
                    (a,),
                    (),
                );
            assert forall|q: Seq<Key>| q != p implies (#[trigger] self.lookup(q) == before.lookup(q)) by {
                if q.len() == 0 {
                    assert(self.lookup(q) == self.exact_match_data);
                }
            }
            assert(self.lookup(p) == self.multi_level_wildcard_data);
            assert(lookups_updated(before, *self, p, *final(a)));
        }
        Ok(self.is_empty())
    }

    /// Applies `f` to the payload under literal `s` and the route of `items[i..]`.
    #[verifier::rlimit(100)]
    fn update_literal<F: FnOnce(&mut T)>(
        &mut self,
        s: &String,
        items: &[TopicPatternItem],
        i: usize,
        f: F,
    ) -> (r: Result<bool, TopicMatcherError>)
        requires
            i <= items.len(),
            old(self).wf(),
            forall|a: &mut T| #[trigger] f.requires((a,)),
        ensures
            final(self).wf(),
            old(self).pruned() ==> final(self).pruned(),
            match r {
                Err(e) => old(self).lookup(seq![Key::Lit(s@)] + route_from(items_view(items@), i as int)) is None && (forall|q: Seq<Key>|
                    #[trigger] final(self).lookup(q) == old(self).lookup(q)) && e@
                    == MatcherErrorView::InvalidSegment(old(self).missing_segment(seq![Key::Lit(s@)] + route_from(items_view(items@), i as int)), 0),
                Ok(now_empty) => old(self).lookup(seq![Key::Lit(s@)] + route_from(items_view(items@), i as int)) is Some && now_empty == final(self).spec_is_empty() && exists|x: &mut T|
                    *x == old(self).lookup(seq![Key::Lit(s@)] + route_from(items_view(items@), i as int))->0 && #[trigger] f.ensures((x,), ())
                        && lookups_updated(*old(self), *final(self), seq![Key::Lit(s@)] + route_from(items_view(items@), i as int), *final(x)),
            },
        decreases items.len() - i, 1nat,
    {
        let ghost before = *self;
        let ghost pr = route_from(items_view(items@), i as int);
        let ghost p = seq![Key::Lit(s@)] + pr;
        let j = match self.find_child(s) {
            Some(j) => j,
            None => {
                proof {
                    assert(p.drop_first() =~= pr);
                    assert(p[0] == Key::Lit(s@));
                }
                return Err(TopicMatcherError::invalid_segment(copy_string(s), 0));
            },
        };
        proof {
            lemma_child_index(before.exact_children@, s@);
            lemma_literal_route(before, j as int, s@, pr);
        }
        let res = self.exact_children[j].1.update_at(items, i, f);
        let ghost c2 = self.exact_children@[j as int].1;
        let ghost c1 = before.exact_children@[j as int].1;
        proof {
            assert(child_replaced(before, *self, j as int));
        }
        match res {
            Err(e) => {
                proof {
                    lemma_unchanged_through_child(before, *self, j as int, s@);
                    if before.pruned() {
                        lemma_still_not_bare(c1, c2);
                        lemma_pruned_child_replaced(before, *self, j as int);
                    }
                }
                Err(e)
            },
            Ok(true) => {
                let ghost mid = *self;
                let _ = self.exact_children.remove(j);
                proof {
                    assert(self.exact_children@ =~= before.exact_children@.remove(j as int)) by {
                        assert forall|m: int| 0 <= m < self.exact_children@.len() implies #[trigger] self.exact_children@[m]
                            == before.exact_children@.remove(j as int)[m] by {
                            if m < j {
                                assert(mid.exact_children@[m] == before.exact_children@[m]);
                            } else {
                                assert(mid.exact_children@[m + 1] == before.exact_children@[m + 1]);
                            }
                        }
                    }
                    let x = choose|x: &mut T|
                        *x == c1.lookup(pr)->0 && #[trigger] f.ensures((x,), ()) && lookups_updated(
                            c1,
                            c2,
                            pr,
                            *final(x),
                        );
                    lemma_update_child_removed(before, *self, c2, j as int, s@, pr, *final(x));
                    if before.pruned() {
                        lemma_pruned_child_removed(before, *self, j as int);
                    }
                }
                Ok(self.is_empty())
            },
            Ok(false) => {
                proof {
                    let x = choose|x: &mut T|
                        *x == c1.lookup(pr)->0 && #[trigger] f.ensures((x,), ()) && lookups_updated(
                            c1,
                            c2,
                            pr,
                            *final(x),
                        );
                    lemma_update_through_child(before, *self, j as int, s@, pr, *final(x));
                    if before.pruned() {
                        lemma_pruned_child_replaced(before, *self, j as int);
                    }
                }
                Ok(false)
            },
        }
    }

    /// Applies `f` to the payload under `+` and the route of `items[i..]`.
    fn update_plus<F: FnOnce(&mut T)>(&mut self, items: &[TopicPatternItem], i: usize, f: F) -> (r:
        Result<bool, TopicMatcherError>)
        requires
            i <= items.len(),
            old(self).wf(),
            forall|a: &mut T| #[trigger] f.requires((a,)),
        ensures
            final(self).wf(),
            old(self).pruned() ==> final(self).pruned(),
            match r {
                Err(e) => old(self).lookup(seq![Key::Plus] + route_from(items_view(items@), i as int)) is None && (forall|q: Seq<Key>|
                    #[trigger] final(self).lookup(q) == old(self).lookup(q)) && e@
                    == MatcherErrorView::InvalidSegment(old(self).missing_segment(seq![Key::Plus] + route_from(items_view(items@), i as int)), 0),
                Ok(now_empty) => old(self).lookup(seq![Key::Plus] + route_from(items_view(items@), i as int)) is Some && now_empty == final(self).spec_is_empty() && exists|x: &mut T|
                    *x == old(self).lookup(seq![Key::Plus] + route_from(items_view(items@), i as int))->0 && #[trigger] f.ensures((x,), ())
                        && lookups_updated(*old(self), *final(self), seq![Key::Plus] + route_from(items_view(items@), i as int), *final(x)),
            },
        decreases items.len() - i, 1nat,
    {
        let ghost before = *self;
        let ghost pr = route_from(items_view(items@), i as int);
        let ghost p = seq![Key::Plus] + pr;
        proof {
            assert(p.drop_first() =~= pr);
            assert(p[0] == Key::Plus);
        }
        let res = match &mut self.single_level_wildcard_node {
            Some(b) => b.update_at(items, i, f),
            None => {
                proof {
                    reveal_strlit("+");
                }
                return Err(TopicMatcherError::invalid_segment(crate::text::owned_string("+"), 0));
            },
        };
        let ghost c2 = *self.single_level_wildcard_node->0;
        let ghost c1 = *before.single_level_wildcard_node->0;
        proof {
            assert(before.lookup(p) == c1.lookup(pr));
            assert(before.missing_segment(p) == c1.missing_segment(pr));
        }
        match res {
            Err(e) => {
                proof {
                    assert forall|q: Seq<Key>| #[trigger] self.lookup(q) == before.lookup(q) by {
                        if q.len() > 0 && q[0] == Key::Plus {
                            assert(before.lookup(q) == c1.lookup(q.drop_first()));
                            assert(self.lookup(q) == c2.lookup(q.drop_first()));
                        } else if q.len() > 0 {
                            match q[0] {
                                Key::Lit(k) => {
                                    assert(self.lookup(q) == before.lookup(q));
                                },
                                _ => {},
                            }
                        }
                    }
                    if before.pruned() {
                        lemma_still_not_bare(c1, c2);
                    }
                }
                Err(e)
            },
            Ok(true) => {
                self.single_level_wildcard_node = None;
                proof {
                    let x = choose|x: &mut T|
                        *x == c1.lookup(pr)->0 && #[trigger] f.ensures((x,), ()) && lookups_updated(
                            c1,
                            c2,
                            pr,
                            *final(x),
                        );
                    lemma_update_plus_removed(before, *self, c2, pr, *final(x));
                }
                Ok(self.is_empty())
            },
            Ok(false) => {
                proof {
                    let x = choose|x: &mut T|
                        *x == c1.lookup(pr)->0 && #[trigger] f.ensures((x,), ()) && lookups_updated(
                            c1,
                            c2,
                            pr,
                            *final(x),
                        );
                    lemma_update_through_plus(before, *self, pr, *final(x));
                }
                Ok(false)
            },
        }
    }

    /// Applies `f` to the payload under the route of `items[i..]`.
    fn update_at<F: FnOnce(&mut T)>(&mut self, items: &[TopicPatternItem], i: usize, f: F) -> (r:
        Result<bool, TopicMatcherError>)
        requires
            i <= items.len(),
            old(self).wf(),
            forall|a: &mut T| #[trigger] f.requires((a,)),
        ensures
            final(self).wf(),
            old(self).pruned() ==> final(self).pruned(),
            match r {
                Err(e) => old(self).lookup(route_from(items_view(items@), i as int)) is None && (forall|q: Seq<Key>|
                    #[trigger] final(self).lookup(q) == old(self).lookup(q)) && e@
                    == MatcherErrorView::InvalidSegment(old(self).missing_segment(route_from(items_view(items@), i as int)), 0),
                Ok(now_empty) => old(self).lookup(route_from(items_view(items@), i as int)) is Some && now_empty == final(self).spec_is_empty() && exists|x: &mut T|
                    *x == old(self).lookup(route_from(items_view(items@), i as int))->0 && #[trigger] f.ensures((x,), ())
                        && lookups_updated(*old(self), *final(self), route_from(items_view(items@), i as int), *final(x)),
            },
        decreases items.len() - i, 0nat,
    {
        let ghost iv = items_view(items@);
        proof {
            lemma_route_from_step(iv, i as int);
        }
        if i == items.len() {
            return self.update_exact(f);
        }
        match &items[i] {
            TopicPatternItem::Str(s) => {
                assert(iv[i as int] == ItemView::Lit(s@));
                self.update_literal(s, items, i + 1, f)
            },
            TopicPatternItem::Plus(_) => {
                assert(iv[i as int] is Plus);
                self.update_plus(items, i + 1, f)
            },
            TopicPatternItem::Hash(_) => {
                assert(iv[i as int] is Hash);
                self.update_hash(f)
            },
        }
    }
}


impl<T: Default + Len> TopicMatcherNode<T> {
    /// Applies `f` to the payload stored for the pattern `topic_path`, drops
    /// the payload when `f` leaves it empty, and prunes the nodes that become
    /// empty on the way back (a pruned tree stays pruned). Returns whether
    /// this node is now empty, which in a pruned tree means that it stores
    /// nothing but empty payloads at its own level, or an error naming the
    /// first level under which nothing is stored.
    pub fn update_node<F: FnOnce(&mut T)>(&mut self, topic_path: &[TopicPatternItem], f: F) -> (r:
        Result<bool, TopicMatcherError>)
        requires
            old(self).wf(),
            forall|a: &mut T| #[trigger] f.requires((a,)),
        ensures
            final(self).wf(),
            old(self).pruned() ==> final(self).pruned(),
            r matches Ok(now_empty) ==> (old(self).pruned() ==> now_empty == holds_only_empty_root(
                final(self)@,
            )),
            match r {
                Err(e) => !old(self)@.contains_key(route(items_view(topic_path@))) && final(self)@ == old(
                    self,
                )@ && e@ == MatcherErrorView::InvalidSegment(
                    old(self).missing_segment(route(items_view(topic_path@))),
                    0,
                ),
                Ok(now_empty) => old(self)@.contains_key(route(items_view(topic_path@))) && now_empty
                    == final(self).spec_is_empty() && exists|x: &mut T|
                    *x == old(self)@[route(items_view(topic_path@))] && #[trigger] f.ensures((x,), ())
                        && updated_ok(
                        old(self)@,
                        final(self)@,
                        route(items_view(topic_path@)),
                        *final(x),
                    ),
            },
    {
        let ghost before = *self;
        let ghost p = route(items_view(topic_path@));
        proof {
            assert(items_view(topic_path@).subrange(0, topic_path@.len() as int) =~= items_view(
                topic_path@,
            ));
        }
        let r = self.update_at(topic_path, 0, f);
        proof {
            match r {
                Err(_) => {
                    assert(self@ =~= before@);
                },
                Ok(_) => {
                    let x = choose|x: &mut T|
                        *x == before.lookup(p)->0 && #[trigger] f.ensures((x,), ()) && lookups_updated(
                            before,
                            *self,
                            p,
                            *final(x),
                        );
                    lemma_lookups_updated_view(before, *self, p, *final(x));
                    assert(before@[p] == before.lookup(p)->0);
                    if before.pruned() {
                        lemma_empty_iff_holds_only_empty_root(*self);
                    }
                },
            }
        }
        r
    }
}

impl<T: Default + Len> TopicMatcherNode<T> {
    /// The payload stored under the route of `items[i..]`.
    fn payload_at(&self, items: &[TopicPatternItem], i: usize) -> (r: Option<&T>)
        requires
            i <= items.len(),
        ensures
            match r {
                Some(t) => self.lookup(route_from(items_view(items@), i as int)) == Some(*t),
                None => self.lookup(route_from(items_view(items@), i as int)) is None,
            },
        decreases items.len() - i,
    {
        let ghost iv = items_view(items@);
        proof {
            lemma_route_from_step(iv, i as int);
        }
        if i == items.len() {
            return match &self.exact_match_data {
                Some(d) => Some(d),
                None => None,
            };
        }
        let ghost pr = route_from(iv, i + 1);
        match &items[i] {
            TopicPatternItem::Str(s) => {
                assert(iv[i as int] == ItemView::Lit(s@));
                let ghost p = seq![Key::Lit(s@)] + pr;
                assert(p.drop_first() =~= pr);
                assert(p[0] == Key::Lit(s@));
                match self.find_child(s) {
                    Some(j) => {
                        proof {
                            lemma_child_index(self.exact_children@, s@);
                        }
                        self.exact_children[j].1.payload_at(items, i + 1)
                    },
                    None => None,
                }
            },
            TopicPatternItem::Plus(_) => {
                assert(iv[i as int] is Plus);
                let ghost p = seq![Key::Plus] + pr;
                assert(p.drop_first() =~= pr);
                assert(p[0] == Key::Plus);
                match &self.single_level_wildcard_node {
                    Some(b) => b.payload_at(items, i + 1),
                    None => None,
                }
            },
            TopicPatternItem::Hash(_) => {
                assert(iv[i as int] is Hash);
                match &self.multi_level_wildcard_data {
                    Some(d) => Some(d),
                    None => None,
                }
            },
        }
    }

    /// The payload stored for the pattern items, if any.
    pub(crate) fn find_payload(&self, topic_path: &[TopicPatternItem]) -> (r: Option<&T>)
        ensures
            match r {
                Some(t) => self@.contains_key(route(items_view(topic_path@))) && *t == self@[route(
                    items_view(topic_path@),
                )],
                None => !self@.contains_key(route(items_view(topic_path@))),
            },
    {
        proof {
            assert(items_view(topic_path@).subrange(0, topic_path@.len() as int) =~= items_view(
                topic_path@,
            ));
        }
        self.payload_at(topic_path, 0)
    }
}

/// The anonymous pattern items of a stored route: literals stay, `+` and
/// `#` become unnamed wildcards.
pub open spec fn route_items(r: Seq<Key>) -> Seq<ItemView> {
    r.map_values(
        |k: Key|
            match k {
                Key::Lit(s) => ItemView::Lit(s),
                Key::Plus => ItemView::Plus(None),
                Key::Hash => ItemView::Hash(None),
            },
    )
}

/// Entry `e` of [`TopicMatcherNode::collect_active_subscriptions`] is the
/// anonymous pattern with `items` and the payload `v`.
pub open spec fn active_entry<T>(e: (TopicPatternPath, &T), items: Seq<ItemView>, v: T) -> bool {
    &&& e.0@ == PatternView { template: template_text(items), items: items, bindings: None }
    &&& *e.1 == v
}

/// Route `p` starts in the part of a node that the walk has covered once it
/// has done the first `j` literal children.
spec fn walked<T>(n: TopicMatcherNode<T>, p: Seq<Key>, j: int) -> bool {
    ||| p.len() == 0
    ||| p == seq![Key::Hash]
    ||| p[0] == Key::Plus
    ||| exists|m: int| 0 <= m < j && p[0] == Key::Lit(#[trigger] n.exact_children@[m].0@)
}

proof fn lemma_route_items_prefixed(k: Key, q: Seq<Key>)
    ensures
        route_items(seq![k] + q) == route_items(seq![k]) + route_items(q),
{
    assert(route_items(seq![k] + q) =~= route_items(seq![k]) + route_items(q));
}

proof fn lemma_prefixed_distinct(k: Key, rs: Seq<Seq<Key>>)
    requires
        rs.no_duplicates(),
    ensures
        prefixed(k, rs).len() == rs.len(),
        prefixed(k, rs).no_duplicates(),
        forall|i: int|
            0 <= i < rs.len() ==> (#[trigger] prefixed(k, rs)[i]) == seq![k] + rs[i] && (seq![k]
                + rs[i]).drop_first() == rs[i] && (seq![k] + rs[i])[0] == k && (seq![k] + rs[i]).len() > 0,
        forall|q: Seq<Key>| #[trigger] prefixed(k, rs).contains(q) <==> (q.len() > 0 && q[0] == k && rs.contains(q.drop_first())),
{
    let ps = prefixed(k, rs);
    assert forall|i: int| 0 <= i < rs.len() implies (#[trigger] ps[i]) == seq![k] + rs[i] && (seq![k]
        + rs[i]).drop_first() == rs[i] && (seq![k] + rs[i])[0] == k && (seq![k] + rs[i]).len() > 0 by {
        assert((seq![k] + rs[i]).drop_first() =~= rs[i]);
    }
    assert forall|i: int, j: int| 0 <= i < ps.len() && 0 <= j < ps.len() && i != j implies ps[i]
        != ps[j] by {
        if ps[i] == ps[j] {
            assert((seq![k] + rs[i]).drop_first() =~= rs[i]);
            assert((seq![k] + rs[j]).drop_first() =~= rs[j]);
        }
    }
    assert forall|q: Seq<Key>| #[trigger] ps.contains(q) implies q.len() > 0 && q[0] == k && rs.contains(q.drop_first()) by {
        let i = choose|i: int| 0 <= i < ps.len() && ps[i] == q;
        assert(ps[i] == seq![k] + rs[i]);
        assert((seq![k] + rs[i]).drop_first() =~= rs[i]);
        assert(q.drop_first() == rs[i]);
        assert(rs.contains(rs[i]));
    }
    assert forall|q: Seq<Key>| q.len() > 0 && q[0] == k && rs.contains(q.drop_first()) implies #[trigger] ps.contains(q) by {
        let i = choose|i: int| 0 <= i < rs.len() && rs[i] == q.drop_first();
        assert(seq![k] + rs[i] =~= q);
        assert(ps[i] == q);
    }
}

/// Where the routes of a well-formed node are stored.
proof fn lemma_view_parts<T>(n: TopicMatcherNode<T>)
    requires
        n.wf(),
    ensures
        n.lookup(Seq::<Key>::empty()) == n.exact_match_data,
        n.lookup(seq![Key::Hash]) == n.multi_level_wildcard_data,
        forall|q: Seq<Key>| #[trigger]
            n.lookup(seq![Key::Plus] + q) == match n.single_level_wildcard_node {
                Some(b) => b.lookup(q),
                None => None,
            },
        forall|m: int, q: Seq<Key>|
            0 <= m < n.exact_children@.len() ==> #[trigger] n.lookup(
                seq![Key::Lit(n.exact_children@[m].0@)] + q,
            ) == (#[trigger] n.exact_children@[m]).1.lookup(q),
        forall|p: Seq<Key>| #[trigger] n.lookup(p) is Some ==> walked(n, p, n.exact_children@.len() as int),
{
    let h = seq![Key::Hash];
    assert(h.len() == 1 && h[0] == Key::Hash);
    assert forall|q: Seq<Key>| #[trigger]
        n.lookup(seq![Key::Plus] + q) == match n.single_level_wildcard_node {
            Some(b) => b.lookup(q),
            None => None,
        } by {
        assert((seq![Key::Plus] + q).drop_first() =~= q);
    }
    assert forall|m: int, q: Seq<Key>|
        0 <= m < n.exact_children@.len() implies #[trigger] n.lookup(
            seq![Key::Lit(n.exact_children@[m].0@)] + q,
        ) == (#[trigger] n.exact_children@[m]).1.lookup(q) by {
        let k = n.exact_children@[m].0@;
        assert((seq![Key::Lit(k)] + q).drop_first() =~= q);
        lemma_child_index_is(n.exact_children@, k, m);
    }
    assert forall|p: Seq<Key>| #[trigger] n.lookup(p) is Some implies walked(n, p, n.exact_children@.len() as int) by {
        if p.len() > 0 {
            match p[0] {
                Key::Hash => {
                    assert(p =~= h);
                },
                Key::Lit(k) => {
                    lemma_child_index(n.exact_children@, k);
                    let m = child_index(n.exact_children@, k)->0;
                    assert(p[0] == Key::Lit(n.exact_children@[m].0@));
                },
                _ => {},
            }
        }
    }
}

impl<T: Default + Len> TopicMatcherNode<T> {
    /// Appends, for every stored route, the anonymous pattern of `prefix`
    /// followed by the route, with its payload; returns the routes in the
    /// order their entries were appended.
    #[verifier::rlimit(60)]
    fn active_into<'a>(
        &'a self,
        prefix: &mut Vec<TopicPatternItem>,
        result: &mut Vec<(TopicPatternPath, &'a T)>,
    ) -> (ks: Ghost<Seq<Seq<Key>>>)
        requires
            self.wf(),
            forall|i: int| 0 <= i < old(prefix)@.len() ==> !(#[trigger] old(prefix)@[i]@ is Hash),
        ensures
            final(prefix)@ == old(prefix)@,
            final(result)@.len() == old(result)@.len() + ks@.len(),
            forall|i: int| 0 <= i < old(result)@.len() ==> #[trigger] final(result)@[i] == old(result)@[i],
            ks@.no_duplicates(),
            forall|p: Seq<Key>| #[trigger] ks@.contains(p) <==> self.lookup(p) is Some,
            forall|i: int|
                0 <= i < ks@.len() ==> #[trigger] active_entry(
                    final(result)@[old(result)@.len() + i],
                    items_view(old(prefix)@) + route_items(ks@[i]),
                    self.lookup(ks@[i])->0,
                ),
        decreases self,
    {
        let ghost pre = prefix@;
        let ghost r0 = result@;
        let ghost mut ks: Seq<Seq<Key>> = Seq::empty();
        let ghost e = Seq::<Key>::empty();
        let ghost h = seq![Key::Hash];
        proof {
            lemma_view_parts(*self);
            assert(h.len() == 1 && h[0] == Key::Hash);
            assert(route_items(e) =~= Seq::<ItemView>::empty());
            assert(items_view(pre) + route_items(e) =~= items_view(pre));
        }
        match &self.exact_match_data {
            Some(d) => {
                proof {
                    assert forall|i: int| 0 <= i < items_view(prefix@).len() - 1 implies !(#[trigger] items_view(prefix@)[i] is Hash) by {
                        assert(!(prefix@[i]@ is Hash));
                    }
                }
                let p = TopicPatternPath::new_from_segments(prefix.as_slice()).unwrap();
                result.push((p, d));
                proof {
                    ks = ks.push(e);
                }
            },
            None => {},
        }
        let ghost r1 = result@;
        let ghost ks1 = ks;
        match &self.multi_level_wildcard_data {
            Some(d) => {
                prefix.push(TopicPatternItem::Hash(None));
                proof {
                    assert forall|i: int| 0 <= i < items_view(prefix@).len() - 1 implies !(#[trigger] items_view(prefix@)[i] is Hash) by {
                        assert(prefix@[i] == pre[i]);
                        assert(!(pre[i]@ is Hash));
                    }
                    assert(route_items(h) =~= seq![ItemView::Hash(None)]);
                    assert(items_view(prefix@) =~= items_view(pre) + route_items(h));
                }
                let p = TopicPatternPath::new_from_segments(prefix.as_slice()).unwrap();
                result.push((p, d));
                let _ = prefix.pop();
                proof {
                    assert(prefix@ =~= pre);
                    ks = ks.push(h);
                }
            },
            None => {},
        }
        proof {
            assert forall|i: int| 0 <= i < ks.len() implies #[trigger] active_entry(
                result@[r0.len() + i],
                items_view(pre) + route_items(ks[i]),
                self.lookup(ks[i])->0,
            ) by {
                if i < ks1.len() {
                    assert(result@[r0.len() + i] == r1[r0.len() + i]);
                }
            }
            assert forall|p: Seq<Key>| #[trigger] ks.contains(p) <==> (self.lookup(p) is Some && (p.len() == 0 || p == h)) by {
                if p.len() == 0 {
                    assert(p =~= e);
                }
                if ks.contains(p) {
                    let i = choose|i: int| 0 <= i < ks.len() && ks[i] == p;
                    if i < ks1.len() {
                        assert(ks1[i] == e);
                    }
                }
                if self.lookup(p) is Some && p == h {
                    assert(ks[ks.len() - 1] == h);
                }
                if self.lookup(p) is Some && p.len() == 0 {
                    assert(ks[0] == e);
                }
            }
        }
        let ghost r2 = result@;
        let ghost ks2 = ks;
        match &self.single_level_wildcard_node {
            Some(b) => {
                prefix.push(TopicPatternItem::Plus(None));
                let ghost pre2 = prefix@;
                proof {
                    assert forall|i: int| 0 <= i < prefix@.len() implies !(#[trigger] prefix@[i]@ is Hash) by {
                        if i < pre.len() {
                            assert(prefix@[i] == pre[i]);
                        }
                    }
                }
                let sub = b.active_into(prefix, result);
                let _ = prefix.pop();
                proof {
                    assert(prefix@ =~= pre);
                    lemma_prefixed_distinct(Key::Plus, sub@);
                    let ps = prefixed(Key::Plus, sub@);
                    ks = ks + ps;
                    assert forall|i: int| 0 <= i < ks.len() implies #[trigger] active_entry(
                        result@[r0.len() + i],
                        items_view(pre) + route_items(ks[i]),
                        self.lookup(ks[i])->0,
                    ) by {
                        if i < ks2.len() {
                            assert(result@[r0.len() + i] == r2[r0.len() + i]);
                            assert(ks[i] == ks2[i]);
                        } else {
                            let i2 = i - ks2.len();
                            let q = sub@[i2];
                            assert(active_entry(
                                result@[r2.len() + i2],
                                items_view(pre2) + route_items(sub@[i2]),
                                (**b).lookup(sub@[i2])->0,
                            ));
                            assert(self.lookup(seq![Key::Plus] + q) == (**b).lookup(q));
                            assert(ks[i] == ps[i - ks2.len()]);
                            lemma_route_items_prefixed(Key::Plus, q);
                            assert(route_items(seq![Key::Plus]) =~= seq![ItemView::Plus(None)]);
                            assert(items_view(pre2) =~= items_view(pre) + route_items(seq![Key::Plus]));
                            assert(items_view(pre2) + route_items(q) =~= items_view(pre) + route_items(seq![Key::Plus] + q));
                            assert(r2.len() == r0.len() + ks2.len());
                        }
                    }
                    assert forall|x: int, y: int| 0 <= x < ks.len() && 0 <= y < ks.len() && x != y implies ks[x] != ks[y] by {
                        if x >= ks2.len() && y >= ks2.len() {
                            assert(ks[x] == ps[x - ks2.len()] && ks[y] == ps[y - ks2.len()]);
                        } else if x < ks2.len() && y < ks2.len() {
                            assert(ks[x] == ks2[x] && ks[y] == ks2[y]);
                        } else if x < ks2.len() {
                            assert(ks2.contains(ks[x]));
                            assert(ks[y] == ps[y - ks2.len()]);
                            assert(ks[y][0] == Key::Plus);
                        } else {
                            assert(ks2.contains(ks[y]));
                            assert(ks[x] == ps[x - ks2.len()]);
                            assert(ks[x][0] == Key::Plus);
                        }
                    }
                    assert forall|p: Seq<Key>| #[trigger] ks.contains(p) <==> (self.lookup(p) is Some && (p.len() == 0 || p == h || p[0] == Key::Plus)) by {
                        if p.len() > 0 && p[0] == Key::Plus {
                            assert(seq![Key::Plus] + p.drop_first() =~= p);
                        }
                        if ks.contains(p) {
                            let i = choose|i: int| 0 <= i < ks.len() && ks[i] == p;
                            if i < ks2.len() {
                                assert(ks2.contains(p));
                            } else {
                                assert(ps.contains(p));
                            }
                        }
                        if self.lookup(p) is Some && (p.len() == 0 || p == h) {
                            assert(ks2.contains(p));
                            let i = choose|i: int| 0 <= i < ks2.len() && ks2[i] == p;
                            assert(ks[i] == p);
                        }
                        if self.lookup(p) is Some && p.len() > 0 && p[0] == Key::Plus {
                            assert(ps.contains(p));
                            let i = choose|i: int| 0 <= i < ps.len() && ps[i] == p;
                            assert(ks[ks2.len() + i] == p);
                        }
                    }
                }
            },
            None => {
                proof {
                    assert forall|p: Seq<Key>| #[trigger] ks.contains(p) <==> (self.lookup(p) is Some && (p.len() == 0 || p == h || p[0] == Key::Plus)) by {
                        if p.len() > 0 && p[0] == Key::Plus {
                            assert(seq![Key::Plus] + p.drop_first() =~= p);
                        }
                    }
                }
            },
        }
        let mut j: usize = 0;
        while j < self.exact_children.len()
            invariant
                j <= self.exact_children@.len(),
                self.wf(),
                prefix@ == pre,
                forall|i: int| 0 <= i < pre.len() ==> !(#[trigger] pre[i]@ is Hash),
                h == seq![Key::Hash],
                result@.len() == r0.len() + ks.len(),
                forall|i: int| 0 <= i < r0.len() ==> #[trigger] result@[i] == r0[i],
                ks.no_duplicates(),
                forall|p: Seq<Key>| #[trigger] ks.contains(p) <==> (self.lookup(p) is Some && walked(*self, p, j as int)),
                forall|i: int|
                    0 <= i < ks.len() ==> #[trigger] active_entry(
                        result@[r0.len() + i],
                        items_view(pre) + route_items(ks[i]),
                        self.lookup(ks[i])->0,
                    ),
            decreases self.exact_children@.len() - j,
        {
            let ghost k = self.exact_children@[j as int].0@;
            let ghost rj = result@;
            let ghost ksj = ks;
            prefix.push(TopicPatternItem::Str(copy_string(&self.exact_children[j].0)));
            let ghost prej = prefix@;
            proof {
                assert forall|i: int| 0 <= i < prefix@.len() implies !(#[trigger] prefix@[i]@ is Hash) by {
                    if i < pre.len() {
                        assert(prefix@[i] == pre[i]);
                    }
                }
                assert(self.exact_children@[j as int].1.wf());
            }
            let sub = self.exact_children[j].1.active_into(prefix, result);
            let _ = prefix.pop();
            proof {
                lemma_view_parts(*self);
                let c = self.exact_children@[j as int].1;
                assert(prefix@ =~= pre);
                lemma_prefixed_distinct(Key::Lit(k), sub@);
                let ps = prefixed(Key::Lit(k), sub@);
                ks = ks + ps;
                assert forall|q: Seq<Key>| #[trigger] self.lookup(seq![Key::Lit(k)] + q) == c.lookup(q) by {
                    assert(self.lookup(seq![Key::Lit(self.exact_children@[j as int].0@)] + q) == self.exact_children@[j as int].1.lookup(q));
                }
                assert forall|i: int| 0 <= i < ks.len() implies #[trigger] active_entry(
                    result@[r0.len() + i],
                    items_view(pre) + route_items(ks[i]),
                    self.lookup(ks[i])->0,
                ) by {
                    if i < ksj.len() {
                        assert(result@[r0.len() + i] == rj[r0.len() + i]);
                        assert(ks[i] == ksj[i]);
                    } else {
                        let i2 = i - ksj.len();
                        let q = sub@[i2];
                        assert(active_entry(
                            result@[rj.len() + i2],
                            items_view(prej) + route_items(sub@[i2]),
                            c.lookup(sub@[i2])->0,
                        ));
                        assert(ks[i] == ps[i - ksj.len()]);
                        assert(self.lookup(seq![Key::Lit(k)] + q) == c.lookup(q));
                        lemma_route_items_prefixed(Key::Lit(k), q);
                        assert(route_items(seq![Key::Lit(k)]) =~= seq![ItemView::Lit(k)]);
                        assert(items_view(prej) =~= items_view(pre) + route_items(seq![Key::Lit(k)]));
                        assert(items_view(prej) + route_items(q) =~= items_view(pre) + route_items(seq![Key::Lit(k)] + q));
                    }
                }
                assert forall|x: int, y: int| 0 <= x < ks.len() && 0 <= y < ks.len() && x != y implies ks[x] != ks[y] by {
                    if x >= ksj.len() && y >= ksj.len() {
                        assert(ks[x] == ps[x - ksj.len()] && ks[y] == ps[y - ksj.len()]);
                    } else if x < ksj.len() && y < ksj.len() {
                        assert(ks[x] == ksj[x] && ks[y] == ksj[y]);
                    } else {
                        let (o, nw) = if x < ksj.len() { (x, y) } else { (y, x) };
                        assert(ksj.contains(ks[o]));
                        assert(ks[o] == ksj[o]);
                        assert(ks[nw] == ps[nw - ksj.len()]);
                        assert(ks[nw][0] == Key::Lit(k));
                        assert(walked(*self, ks[o], j as int));
                        if ks[o].len() > 0 && ks[o][0] != Key::Plus && ks[o] != h {
                            let m = choose|m: int| 0 <= m < j && ks[o][0] == Key::Lit(#[trigger] self.exact_children@[m].0@);
                            assert(keys_distinct(self.exact_children@));
                            assert(self.exact_children@[m].0@ != self.exact_children@[j as int].0@);
                        }
                        if ks[o] == h {
                            assert(h[0] == Key::Hash);
                        }
                    }
                }
                assert forall|p: Seq<Key>| #[trigger] ks.contains(p) <==> (self.lookup(p) is Some && walked(*self, p, j + 1)) by {
                    if p.len() > 0 && p[0] == Key::Lit(k) {
                        assert(seq![Key::Lit(k)] + p.drop_first() =~= p);
                    }
                    if ks.contains(p) {
                        let i = choose|i: int| 0 <= i < ks.len() && ks[i] == p;
                        if i < ksj.len() {
                            assert(ksj.contains(p));
                            if walked(*self, p, j as int) && p.len() > 0 && p[0] != Key::Plus && p != h {
                                let m = choose|m: int| 0 <= m < j && p[0] == Key::Lit(#[trigger] self.exact_children@[m].0@);
                                assert(0 <= m < j + 1);
                            }
                        } else {
                            assert(ps.contains(p));
                            assert(p[0] == Key::Lit(self.exact_children@[j as int].0@));
                        }
                    }
                    if self.lookup(p) is Some && walked(*self, p, j + 1) {
                        if p.len() > 0 && p[0] == Key::Lit(k) {
                            assert(ps.contains(p));
                            let i = choose|i: int| 0 <= i < ps.len() && ps[i] == p;
                            assert(ks[ksj.len() + i] == p);
                        } else {
                            if p.len() > 0 && p[0] != Key::Plus && p != h {
                                let m = choose|m: int| 0 <= m < j + 1 && p[0] == Key::Lit(#[trigger] self.exact_children@[m].0@);
                                assert(m != j);
                                assert(walked(*self, p, j as int));
                            }
                            assert(walked(*self, p, j as int));
                            assert(ksj.contains(p));
                            let i = choose|i: int| 0 <= i < ksj.len() && ksj[i] == p;
                            assert(ks[i] == p);
                        }
                    }
                }
            }
            j += 1;
        }
        Ghost(ks)
    }

    /// Every stored `(pattern, payload)`, the pattern anonymous (literals,
    /// `+` and `#`), each stored route once, in no particular order.
    pub fn collect_active_subscriptions(&self) -> (r: Vec<(TopicPatternPath, &T)>)
        requires
            self.wf(),
        ensures
            exists|ks: Seq<Seq<Key>>|
                #![trigger ks.no_duplicates()]
                ks.len() == r.len() && ks.no_duplicates() && (forall|p: Seq<Key>| #[trigger] ks.contains(p) <==> self@.contains_key(p))
                    && forall|i: int|
                    0 <= i < r.len() ==> #[trigger] active_entry(r@[i], route_items(ks[i]), self@[ks[i]]),
    {
        let mut result: Vec<(TopicPatternPath, &T)> = Vec::new();
        let mut prefix: Vec<TopicPatternItem> = Vec::new();
        let ghost pre0 = prefix@;
        let ks = self.active_into(&mut prefix, &mut result);
        proof {
            assert forall|i: int| 0 <= i < result.len() implies #[trigger] active_entry(result@[i], route_items(ks@[i]), self@[ks@[i]]) by {
                assert(active_entry(result@[0 + i], items_view(pre0) + route_items(ks@[i]), self.lookup(ks@[i])->0));
                assert(pre0 =~= Seq::<TopicPatternItem>::empty());
                assert(items_view(Seq::<TopicPatternItem>::empty()) + route_items(ks@[i]) =~= route_items(ks@[i]));
                assert(ks@.contains(ks@[i]));
            }
        }
        result
    }
}

impl<T: Default + Len> Default for TopicMatcherNode<T> {
    /// An empty node.
    fn default() -> (n: Self)
        ensures
            n@ == Map::<Seq<Key>, T>::empty(),
            n.wf(),
            n.pruned(),
    {
        Self::new()
    }
}

} // verus!
