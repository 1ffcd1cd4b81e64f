//! Concrete topics and the result of matching one against a pattern.
use std::sync::Arc;

use smallvec::SmallVec;
use vstd::prelude::*;

use crate::text::{
    append_chars, copy_string, decimal, decimal_string, join_levels, owned_string, push_char,
    split_levels, split_to_levels, string_eq,
};

verus! {

/// A concrete MQTT topic, split into its `/`-delimited levels.
#[derive(Debug, Clone)]
pub struct TopicPath {
    /// The full topic string.
    pub path: String,
    /// The topic split on `/`.
    pub segments: Vec<String>,
}

impl TopicPath {
    /// The levels are the split of the path.
    pub open spec fn wf(&self) -> bool {
        self.segments.deep_view() == split_levels(self.path@)
    }

    /// Builds a topic by splitting `path` on `/`.
    pub fn new(path: &str) -> (t: Self)
        ensures
            t.path@ == path@,
            t.wf(),
    {
        let segments = split_to_levels(path);
        let mut p = String::new();
        p.append(path);
        TopicPath { path: p, segments }
    }

    /// The full topic string.
    pub fn path(&self) -> (r: String)
        ensures
            r@ == self.path@,
    {
        copy_string(&self.path)
    }

    /// The topic as text.
    pub fn to_string(&self) -> (r: String)
        ensures
            r@ == self.path@,
    {
        copy_string(&self.path)
    }
}

/// Errors returned when matching a topic against a pattern.
#[derive(Debug, Clone, PartialEq, Eq)]
pub enum TopicMatchError {
    /// The pattern ended while topic levels remained.
    UnexpectedEndOfPattern,
    /// The topic ended while pattern levels remained.
    UnexpectedEndOfTopic,
    /// A `#` wildcard stands before the end of the pattern.
    UnexpectedHashSegment,
    /// A literal level differs from the topic level.
    SegmentMismatch {
        /// The pattern's literal.
        expected: String,
        /// The topic's level.
        found: String,
        /// The level's position.
        position: usize,
    },
    /// A parameter name occurs twice.
    DuplicateParameterName,
}

/// The mathematical content of a [`TopicMatchError`].
pub enum MatchErrorView {
    UnexpectedEndOfPattern,
    UnexpectedEndOfTopic,
    UnexpectedHashSegment,
    SegmentMismatch(Seq<char>, Seq<char>, int),
    DuplicateParameterName,
}

impl View for TopicMatchError {
    type V = MatchErrorView;

    open spec fn view(&self) -> MatchErrorView {
        match self {
            TopicMatchError::UnexpectedEndOfPattern => MatchErrorView::UnexpectedEndOfPattern,
            TopicMatchError::UnexpectedEndOfTopic => MatchErrorView::UnexpectedEndOfTopic,
            TopicMatchError::UnexpectedHashSegment => MatchErrorView::UnexpectedHashSegment,
            TopicMatchError::SegmentMismatch { expected, found, position } =>
                MatchErrorView::SegmentMismatch(expected@, found@, *position as int),
            TopicMatchError::DuplicateParameterName => MatchErrorView::DuplicateParameterName,
        }
    }
}

/// Ranges of levels captured by the wildcards of a pattern, in pattern order.
#[verifier::external_body]
#[derive(Debug)]
pub struct RangeList {
    inner: SmallVec<[(usize, usize); 3]>,
}

/// What a [`RangeList`] holds.
pub uninterp spec fn range_list_entries(l: RangeList) -> Seq<(usize, usize)>;

/// `SmallVec::new`: an empty list.
#[verifier::external_body]
fn range_list_new() -> (l: RangeList)
    ensures
        range_list_entries(l) == Seq::<(usize, usize)>::empty(),
{
    RangeList { inner: SmallVec::new() }
}

/// `SmallVec::push`: appends at the end.
#[verifier::external_body]
fn range_list_push(l: &mut RangeList, x: (usize, usize))
    ensures
        range_list_entries(*final(l)) == range_list_entries(*old(l)).push(x),
{
    l.inner.push(x);
}

/// `SmallVec::len`: the number of entries.
#[verifier::external_body]
fn range_list_len(l: &RangeList) -> (n: usize)
    ensures
        n == range_list_entries(*l).len(),
{
    l.inner.len()
}

/// Indexing a `SmallVec`: the entry at `i`.
#[verifier::external_body]
fn range_list_get(l: &RangeList, i: usize) -> (x: (usize, usize))
    requires
        i < range_list_entries(*l).len(),
    ensures
        x == range_list_entries(*l)[i as int],
{
    l.inner[i]
}

/// Named captures: the name and the range of levels it took.
#[verifier::external_body]
#[derive(Debug)]
pub struct NamedRangeList {
    inner: SmallVec<[(String, usize, usize); 3]>,
}

/// What a [`NamedRangeList`] holds, names taken by their characters.
pub uninterp spec fn named_range_entries(l: NamedRangeList) -> Seq<(Seq<char>, usize, usize)>;

/// `SmallVec::new`: an empty list.
#[verifier::external_body]
fn named_range_list_new() -> (l: NamedRangeList)
    ensures
        named_range_entries(l) == Seq::<(Seq<char>, usize, usize)>::empty(),
{
    NamedRangeList { inner: SmallVec::new() }
}

/// `SmallVec::push`: appends at the end.
#[verifier::external_body]
fn named_range_list_push(l: &mut NamedRangeList, name: String, start: usize, end: usize)
    ensures
        named_range_entries(*final(l)) == named_range_entries(*old(l)).push((name@, start, end)),
{
    l.inner.push((name, start, end));
}

/// `SmallVec::len`: the number of entries.
#[verifier::external_body]
fn named_range_list_len(l: &NamedRangeList) -> (n: usize)
    ensures
        n == named_range_entries(*l).len(),
{
    l.inner.len()
}

/// Indexing a `SmallVec`: the entry at `i`.
#[verifier::external_body]
fn named_range_list_get(l: &NamedRangeList, i: usize) -> (x: &(String, usize, usize))
    requires
        i < named_range_entries(*l).len(),
    ensures
        (x.0@, x.1, x.2) == named_range_entries(*l)[i as int],
{
    &l.inner[i]
}

/// Builders of a match result.
pub struct MatchBuilder {
    pub(crate) params: RangeList,
    pub(crate) named_params: NamedRangeList,
}

impl MatchBuilder {
    pub closed spec fn params_view(&self) -> Seq<(usize, usize)> {
        range_list_entries(self.params)
    }

    pub closed spec fn named_view(&self) -> Seq<(Seq<char>, usize, usize)> {
        named_range_entries(self.named_params)
    }

    pub fn new() -> (b: Self)
        ensures
            b.params_view() == Seq::<(usize, usize)>::empty(),
            b.named_view() == Seq::<(Seq<char>, usize, usize)>::empty(),
    {
        MatchBuilder { params: range_list_new(), named_params: named_range_list_new() }
    }

    pub fn push_param(&mut self, start: usize, end: usize)
        ensures
            final(self).params_view() == old(self).params_view().push((start, end)),
            final(self).named_view() == old(self).named_view(),
    {
        range_list_push(&mut self.params, (start, end));
    }

    pub fn push_named(&mut self, name: String, start: usize, end: usize)
        ensures
            final(self).params_view() == old(self).params_view(),
            final(self).named_view() == old(self).named_view().push((name@, start, end)),
    {
        named_range_list_push(&mut self.named_params, name, start, end);
    }
}

/// The result of matching a [`TopicPath`] against a pattern: the topic and the
/// levels captured by each wildcard.
#[derive(Debug)]
pub struct TopicMatch {
    topic: Arc<TopicPath>,
    params: RangeList,
    named_params: NamedRangeList,
}

/// All ranges lie within `n` levels.
pub open spec fn ranges_within(r: Seq<(usize, usize)>, n: int) -> bool {
    forall|i: int| 0 <= i < r.len() ==> (#[trigger] r[i]).0 <= r[i].1 <= n
}

pub open spec fn named_ranges_within(r: Seq<(Seq<char>, usize, usize)>, n: int) -> bool {
    forall|i: int| 0 <= i < r.len() ==> (#[trigger] r[i]).1 <= r[i].2 <= n
}

/// The text of levels `start..end`, joined with `/`.
pub open spec fn captured_text(segs: Seq<Seq<char>>, start: int, end: int) -> Seq<char> {
    join_levels(segs.subrange(start, end))
}

/// The first named capture called `name`, if any.
pub open spec fn first_named(named: Seq<(Seq<char>, usize, usize)>, name: Seq<char>) -> Option<int>
    decreases named.len(),
{
    if named.len() == 0 {
        None
    } else {
        match first_named(named.drop_last(), name) {
            Some(i) => Some(i),
            None => if named.last().0 == name {
                Some(named.len() - 1)
            } else {
                None
            },
        }
    }
}

proof fn lemma_first_named_props(named: Seq<(Seq<char>, usize, usize)>, name: Seq<char>)
    ensures
        match first_named(named, name) {
            Some(i) => 0 <= i < named.len() && named[i].0 == name && forall|j: int|
                0 <= j < i ==> named[j].0 != name,
            None => forall|j: int| 0 <= j < named.len() ==> named[j].0 != name,
        },
    decreases named.len(),
{
    if named.len() > 0 {
        lemma_first_named_props(named.drop_last(), name);
        assert forall|j: int| 0 <= j < named.len() - 1 implies named.drop_last()[j] == named[j] by {}
    }
}

/// Joins `segs[start..end]` with `/`.
fn join_range(segs: &Vec<String>, start: usize, end: usize) -> (s: String)
    requires
        start <= end <= segs.len(),
    ensures
        s@ == captured_text(segs.deep_view(), start as int, end as int),
{
    let mut s = String::new();
    let mut i = start;
    let ghost all = segs.deep_view();
    while i < end
        invariant
            start <= i <= end <= segs.len(),
            all == segs.deep_view(),
            s@ == join_levels(all.subrange(start as int, i as int)),
        decreases end - i,
    {
        let ghost prev = all.subrange(start as int, i as int);
        if i > start {
            push_char(&mut s, '/');
        }
        s.append(segs[i].as_str());
        i += 1;
        proof {
            let cur = all.subrange(start as int, i as int);
            assert(cur.drop_last() =~= prev);
            assert(cur.last() == segs[i - 1]@);
            if i == start + 1 {
                assert(s@ =~= cur[0]);
            } else {
                assert(s@ =~= join_levels(prev) + seq!['/'] + cur.last());
            }
        }
    }
    s
}

/// The text of [`TopicMatch::to_string`].
pub open spec fn match_text(path: Seq<char>, n: nat) -> Seq<char> {
    "Match("@ + path + ")"@ + if n > 0 {
        " with "@ + decimal(n) + " params"@
    } else {
        Seq::<char>::empty()
    }
}

/// The captured texts, separated by `, `.
pub open spec fn params_text(segs: Seq<Seq<char>>, ps: Seq<(usize, usize)>) -> Seq<char>
    decreases ps.len(),
{
    if ps.len() == 0 {
        Seq::empty()
    } else if ps.len() == 1 {
        captured_text(segs, ps[0].0 as int, ps[0].1 as int)
    } else {
        params_text(segs, ps.drop_last()) + ", "@ + captured_text(segs, ps.last().0 as int, ps.last().1 as int)
    }
}

/// `name: text, ` for every named capture.
pub open spec fn named_params_text(segs: Seq<Seq<char>>, ns: Seq<(Seq<char>, usize, usize)>) -> Seq<char>
    decreases ns.len(),
{
    if ns.len() == 0 {
        Seq::empty()
    } else {
        named_params_text(segs, ns.drop_last()) + ns.last().0 + ": "@ + captured_text(
            segs,
            ns.last().1 as int,
            ns.last().2 as int,
        ) + ", "@
    }
}

/// The text of [`TopicMatch::debug_text`].
pub open spec fn match_debug_text(
    path: Seq<char>,
    segs: Seq<Seq<char>>,
    ps: Seq<(usize, usize)>,
    ns: Seq<(Seq<char>, usize, usize)>,
) -> Seq<char> {
    "TopicMatch { topic: "@ + path + ", params: ["@ + params_text(segs, ps) + "]"@ + if ns.len() > 0 {
        ", named_params: {"@ + named_params_text(segs, ns) + "}"@
    } else {
        Seq::<char>::empty()
    } + " }"@
}

impl TopicMatch {
    #[verifier::type_invariant]
    spec fn inv(self) -> bool {
        &&& ranges_within(range_list_entries(self.params), self.topic.segments.len() as int)
        &&& named_ranges_within(named_range_entries(self.named_params), self.topic.segments.len() as int)
    }

    /// The matched topic.
    pub closed spec fn topic_view(&self) -> TopicPath {
        *self.topic
    }

    /// The captured ranges, in pattern order.
    pub closed spec fn params_view(&self) -> Seq<(usize, usize)> {
        range_list_entries(self.params)
    }

    /// The named captures, in pattern order.
    pub closed spec fn named_view(&self) -> Seq<(Seq<char>, usize, usize)> {
        named_range_entries(self.named_params)
    }

    /// Assembles a match from the captured ranges.
    pub fn from_match_result(topic: Arc<TopicPath>, captures: MatchBuilder) -> (m: Self)
        requires
            ranges_within(captures.params_view(), topic.segments.len() as int),
            named_ranges_within(captures.named_view(), topic.segments.len() as int),
        ensures
            m.topic_view() == *topic,
            m.params_view() == captures.params_view(),
            m.named_view() == captures.named_view(),
    {
        TopicMatch { topic, params: captures.params, named_params: captures.named_params }
    }

    /// The matched topic's levels.
    pub fn path_segments(&self) -> (r: &Vec<String>)
        ensures
            r == self.topic_view().segments,
    {
        &self.topic.segments
    }

    /// The text captured by the wildcard at `index` (in pattern order).
    pub fn get_param(&self, index: usize) -> (r: Option<String>)
        ensures
            match r {
                Some(s) => index < self.params_view().len() && s@ == captured_text(
                    self.topic_view().segments.deep_view(),
                    self.params_view()[index as int].0 as int,
                    self.params_view()[index as int].1 as int,
                ),
                None => index >= self.params_view().len(),
            },
    {
        proof {
            use_type_invariant(self);
        }
        if index < range_list_len(&self.params) {
            let (start, end) = range_list_get(&self.params, index);
            Some(join_range(&self.topic.segments, start, end))
        } else {
            None
        }
    }

    /// The text captured by the named wildcard `name`.
    pub fn get_named_param(&self, name: &str) -> (r: Option<String>)
        ensures
            match first_named(self.named_view(), name@) {
                Some(i) => r is Some && r->0@ == captured_text(
                    self.topic_view().segments.deep_view(),
                    self.named_view()[i].1 as int,
                    self.named_view()[i].2 as int,
                ),
                None => r is None,
            },
    {
        proof {
            use_type_invariant(self);
            lemma_first_named_props(self.named_view(), name@);
        }
        let wanted = owned_string(name);
        let n = named_range_list_len(&self.named_params);
        let mut i: usize = 0;
        while i < n
            invariant
                i <= n == self.named_view().len(),
                wanted@ == name@,
                named_ranges_within(self.named_view(), self.topic_view().segments.len() as int),
                forall|j: int| 0 <= j < i ==> self.named_view()[j].0 != name@,
            decreases n - i,
        {
            let entry = named_range_list_get(&self.named_params, i);
            if string_eq(&entry.0, &wanted) {
                assert(entry.0@ == name@);
                proof {
                    lemma_first_named_props(self.named_view(), name@);
                }
                return Some(join_range(&self.topic.segments, entry.1, entry.2));
            }
            i += 1;
        }
        None
    }

    /// `Match(topic)`, followed by ` with N params` when something was
    /// captured (what `Display` shows).
    pub fn to_string(&self) -> (r: String)
        ensures
            r@ == match_text(self.topic_view().path@, self.params_view().len()),
    {
        let mut s = owned_string("Match(");
        s.append(self.topic.path.as_str());
        s.append(")");
        let n = range_list_len(&self.params);
        if n > 0 {
            s.append(" with ");
            let d = decimal_string(n);
            s.append(d.as_str());
            s.append(" params");
        }
        s
    }

    /// `TopicMatch { topic: T, params: [a, b]` then, when there are named
    /// captures, `, named_params: {n: v, }`, then ` }` (what `Debug` shows).
    pub fn debug_text(&self) -> (r: String)
        ensures
            r@ == match_debug_text(
                self.topic_view().path@,
                self.topic_view().segments.deep_view(),
                self.params_view(),
                self.named_view(),
            ),
    {
        proof {
            use_type_invariant(self);
        }
        let ghost segs = self.topic.segments.deep_view();
        let ghost ps = self.params_view();
        let ghost ns = self.named_view();
        let mut s = owned_string("TopicMatch { topic: ");
        s.append(self.topic.path.as_str());
        s.append(", params: [");
        let n = range_list_len(&self.params);
        let mut i: usize = 0;
        while i < n
            invariant
                i <= n == ps.len(),
                ps == self.params_view(),
                segs == self.topic.segments.deep_view(),
                ranges_within(ps, segs.len() as int),
                s@ == "TopicMatch { topic: "@ + self.topic.path@ + ", params: ["@ + params_text(segs, ps.take(i as int)),
            decreases n - i,
        {
            let (a, b) = range_list_get(&self.params, i);
            let ghost prev = s@;
            if i > 0 {
                s.append(", ");
            }
            let t = join_range(&self.topic.segments, a, b);
            s.append(t.as_str());
            proof {
                assert(ps.take(i + 1).drop_last() =~= ps.take(i as int));
                assert(ps.take(i + 1).last() == ps[i as int]);
            }
            i += 1;
        }
        assert(ps.take(n as int) =~= ps);
        s.append("]");
        let m = named_range_list_len(&self.named_params);
        if m > 0 {
            s.append(", named_params: {");
            let ghost base = s@;
            let mut j: usize = 0;
            while j < m
                invariant
                    j <= m == ns.len(),
                    ns == self.named_view(),
                    segs == self.topic.segments.deep_view(),
                    named_ranges_within(ns, segs.len() as int),
                    s@ == base + named_params_text(segs, ns.take(j as int)),
                decreases m - j,
            {
                let entry = named_range_list_get(&self.named_params, j);
                s.append(entry.0.as_str());
                s.append(": ");
                let t = join_range(&self.topic.segments, entry.1, entry.2);
                s.append(t.as_str());
                s.append(", ");
                proof {
                    assert(ns.take(j + 1).drop_last() =~= ns.take(j as int));
                    assert(ns.take(j + 1).last() == ns[j as int]);
                }
                j += 1;
            }
            assert(ns.take(m as int) =~= ns);
            s.append("}");
        }
        s.append(" }");
        s
    }

    /// The matched topic string.
    pub fn topic_path(&self) -> (r: String)
        ensures
            r@ == self.topic_view().path@,
    {
        copy_string(&self.topic.path)
    }
}

} // verus!
