//! Parsed MQTT topic patterns.
//!
//! [`TopicPatternPath`] holds a validated sequence of [`TopicPatternItem`]
//! levels together with bound parameter values, and renders back to the wire
//! MQTT pattern.
use std::sync::Arc;

use smallvec::SmallVec;
use vstd::prelude::*;
use vstd::std_specs::iter::IteratorSpec;

use crate::cache_strategy::CacheStrategy;
use crate::text::{
    copy_string, decimal, decimal_string, join_levels, lemma_join_split, lemma_split_join, lemma_split_nonempty,
    no_sep_in_levels, owned_string, push_char, split_levels, split_to_levels, str_to_chars,
    string_eq,
};
use crate::topic_match::{
    captured_text, MatchBuilder, MatchErrorView, TopicMatch, TopicMatchError, TopicPath,
};
use crate::topic_pattern_item::{
    item_is_wildcard, item_mqtt_text, item_name, item_template_text, parse_item, parse_item_chars,
    ItemView, PatternErrorView, TopicPatternError, TopicPatternItem, lemma_parse_template_roundtrip,
};

verus! {

/// Errors raised when rendering a topic from a pattern and parameter values.
#[derive(Debug, Clone, PartialEq, Eq)]
pub enum TopicFormatError {
    /// The pattern holds a `#` wildcard, which cannot be rendered.
    HashWildcardNotSupported,
    /// The number of values differs from the number of wildcards.
    ParameterCountMismatch {
        /// Wildcards in the pattern.
        expected: usize,
        /// Values given.
        provided: usize,
    },
}

/// The mathematical content of a [`TopicFormatError`].
pub enum FormatErrorView {
    HashWildcardNotSupported,
    ParameterCountMismatch(int, int),
}

impl View for TopicFormatError {
    type V = FormatErrorView;

    open spec fn view(&self) -> FormatErrorView {
        match self {
            TopicFormatError::HashWildcardNotSupported => FormatErrorView::HashWildcardNotSupported,
            TopicFormatError::ParameterCountMismatch { expected, provided } =>
                FormatErrorView::ParameterCountMismatch(*expected as int, *provided as int),
        }
    }
}

impl TopicFormatError {
    /// Human-readable description of the error.
    pub fn message(&self) -> (s: String)
        ensures
            s@ == format_error_message(self@),
    {
        let mut s = String::new();
        match self {
            TopicFormatError::HashWildcardNotSupported => {
                s.append("Cannot format topic with # wildcard for publishing");
            },
            TopicFormatError::ParameterCountMismatch { expected, provided } => {
                s.append("Parameter count mismatch: expected ");
                let e = decimal_string(*expected);
                s.append(e.as_str());
                s.append(", provided ");
                let p = decimal_string(*provided);
                s.append(p.as_str());
            },
        }
        s
    }
}

/// The text of [`TopicFormatError::message`].
pub open spec fn format_error_message(e: FormatErrorView) -> Seq<char> {
    match e {
        FormatErrorView::HashWildcardNotSupported => "Cannot format topic with # wildcard for publishing"@,
        FormatErrorView::ParameterCountMismatch(a, b) => "Parameter count mismatch: expected "@
            + decimal(a as nat) + ", provided "@ + decimal(b as nat),
    }
}

/// Parameter values bound to the named wildcards of a pattern.
#[verifier::external_body]
#[derive(Debug)]
pub struct BindingList {
    inner: SmallVec<[(String, String); 4]>,
}

/// What a [`BindingList`] holds: `(name, value)` pairs in binding order.
pub uninterp spec fn binding_entries(l: BindingList) -> Seq<(Seq<char>, Seq<char>)>;

/// `SmallVec::new`: an empty list.
#[verifier::external_body]
fn binding_list_new() -> (l: BindingList)
    ensures
        binding_entries(l) == Seq::<(Seq<char>, Seq<char>)>::empty(),
{
    BindingList { inner: SmallVec::new() }
}

/// `SmallVec::push`: appends at the end.
#[verifier::external_body]
fn binding_list_push(l: &mut BindingList, name: String, value: String)
    ensures
        binding_entries(*final(l)) == binding_entries(*old(l)).push((name@, value@)),
{
    l.inner.push((name, value));
}

/// Assigning the value of the entry at `i` (through `IndexMut`).
#[verifier::external_body]
fn binding_list_set_value(l: &mut BindingList, i: usize, value: String)
    requires
        i < binding_entries(*old(l)).len(),
    ensures
        binding_entries(*final(l)) == binding_entries(*old(l)).update(
            i as int,
            (binding_entries(*old(l))[i as int].0, value@),
        ),
{
    l.inner[i].1 = value;
}

/// `SmallVec::len`: the number of entries.
#[verifier::external_body]
fn binding_list_len(l: &BindingList) -> (n: usize)
    ensures
        n == binding_entries(*l).len(),
{
    l.inner.len()
}

/// Indexing a `SmallVec`: the entry at `i`.
#[verifier::external_body]
fn binding_list_get(l: &BindingList, i: usize) -> (x: &(String, String))
    requires
        i < binding_entries(*l).len(),
    ensures
        (x.0@, x.1@) == binding_entries(*l)[i as int],
{
    &l.inner[i]
}

/// `SmallVec::clone`: a list with the same entries.
#[verifier::external_body]
fn binding_list_clone(l: &BindingList) -> (r: BindingList)
    ensures
        binding_entries(r) == binding_entries(*l),
{
    BindingList { inner: l.inner.clone() }
}

impl BindingList {
    /// The entries, `(name, value)`, in binding order.
    pub closed spec fn entries(&self) -> Seq<(Seq<char>, Seq<char>)> {
        binding_entries(*self)
    }

    /// Number of bound parameters.
    pub fn len(&self) -> (n: usize)
        ensures
            n == self.entries().len(),
    {
        binding_list_len(self)
    }

    /// The binding at `i`, if any.
    pub fn get(&self, i: usize) -> (r: Option<&(String, String)>)
        ensures
            match r {
                Some(x) => i < self.entries().len() && (x.0@, x.1@) == self.entries()[i as int],
                None => i >= self.entries().len(),
            },
    {
        if i < binding_list_len(self) {
            Some(binding_list_get(self, i))
        } else {
            None
        }
    }
}

// ---------------------------------------------------------------------------
// Specification of patterns
// ---------------------------------------------------------------------------

/// The first index below `n` where `p` holds.
pub open spec fn first_where(n: int, p: spec_fn(int) -> bool) -> Option<int>
    decreases n,
{
    if n <= 0 {
        None
    } else {
        match first_where(n - 1, p) {
            Some(i) => Some(i),
            None => if p(n - 1) {
                Some(n - 1)
            } else {
                None
            },
        }
    }
}

pub proof fn lemma_first_where(n: int, p: spec_fn(int) -> bool)
    ensures
        match first_where(n, p) {
            Some(i) => 0 <= i < n && p(i) && forall|j: int| 0 <= j < i ==> !(#[trigger] p(j)),
            None => forall|j: int| 0 <= j < n ==> !(#[trigger] p(j)),
        },
    decreases n,
{
    if n > 0 {
        lemma_first_where(n - 1, p);
    }
}

pub proof fn lemma_first_where_is(n: int, p: spec_fn(int) -> bool, i: int)
    requires
        0 <= i < n,
        p(i),
        forall|j: int| 0 <= j < i ==> !(#[trigger] p(j)),
    ensures
        first_where(n, p) == Some(i),
{
    lemma_first_where(n, p);
}

pub proof fn lemma_first_where_none(n: int, p: spec_fn(int) -> bool)
    requires
        forall|j: int| 0 <= j < n ==> !(#[trigger] p(j)),
    ensures
        first_where(n, p) is None,
{
    lemma_first_where(n, p);
}

/// The characters with the Unicode `White_Space` property.
pub open spec fn is_white_space(c: char) -> bool {
    ||| ('\u{9}' <= c && c <= '\u{d}')
    ||| c == ' '
    ||| c == '\u{85}'
    ||| c == '\u{a0}'
    ||| c == '\u{1680}'
    ||| ('\u{2000}' <= c && c <= '\u{200a}')
    ||| c == '\u{2028}'
    ||| c == '\u{2029}'
    ||| c == '\u{202f}'
    ||| c == '\u{205f}'
    ||| c == '\u{3000}'
}

/// Empty, or nothing but white space.
pub open spec fn blank(s: Seq<char>) -> bool {
    forall|i: int| 0 <= i < s.len() ==> is_white_space(#[trigger] s[i])
}

/// The item at `i` carries a name that an earlier item already carries.
pub open spec fn repeated_name_at(items: Seq<ItemView>, i: int) -> bool {
    &&& item_name(items[i]) is Some
    &&& exists|j: int| 0 <= j < i && #[trigger] item_name(items[j]) == item_name(items[i])
}

/// A `#` stands somewhere before the last item.
pub open spec fn hash_misplaced(items: Seq<ItemView>) -> bool {
    exists|i: int| 0 <= i < items.len() - 1 && (#[trigger] items[i]) is Hash
}

/// The items of the levels (when all of them parse).
pub open spec fn parsed_levels(levels: Seq<Seq<char>>) -> Seq<ItemView> {
    Seq::new(levels.len(), |i: int| parse_item(levels[i])->0)
}

/// The outcome of parsing a pattern string.
pub open spec fn pattern_parse(p: Seq<char>) -> Result<Seq<ItemView>, PatternErrorView> {
    if blank(p) {
        Err(PatternErrorView::EmptyTopic)
    } else {
        let levels = split_levels(p);
        match first_where(levels.len() as int, |i: int| parse_item(levels[i]) is None) {
            Some(i) => Err(PatternErrorView::WildcardUsage(levels[i])),
            None => {
                let items = parsed_levels(levels);
                match first_where(items.len() as int, |i: int| repeated_name_at(items, i)) {
                    Some(i) => Err(PatternErrorView::WildcardUsage(item_mqtt_text(items[i]))),
                    None => if hash_misplaced(items) {
                        Err(PatternErrorView::HashPosition(p))
                    } else {
                        Ok(items)
                    },
                }
            },
        }
    }
}

/// The pattern as sent to a broker.
pub open spec fn mqtt_text(items: Seq<ItemView>) -> Seq<char> {
    join_levels(items.map_values(|i: ItemView| item_mqtt_text(i)))
}

/// The pattern as written with named wildcards.
pub open spec fn template_text(items: Seq<ItemView>) -> Seq<char> {
    join_levels(items.map_values(|i: ItemView| item_template_text(i)))
}

pub open spec fn items_view(s: Seq<TopicPatternItem>) -> Seq<ItemView> {
    s.map_values(|i: TopicPatternItem| i@)
}

/// The item is `{name}`.
pub open spec fn is_named_plus(i: ItemView, name: Seq<char>) -> bool {
    i == ItemView::Plus(Some(name))
}

/// Replaces, for each binding in order, the first `{name}` item by the value.
pub open spec fn apply_bindings(items: Seq<ItemView>, bs: Seq<(Seq<char>, Seq<char>)>) -> Seq<ItemView>
    decreases bs.len(),
{
    if bs.len() == 0 {
        items
    } else {
        let prev = apply_bindings(items, bs.drop_last());
        let (n, v) = bs.last();
        match first_where(prev.len() as int, |i: int| is_named_plus(prev[i], n)) {
            Some(i) => prev.update(i, ItemView::Lit(v)),
            None => prev,
        }
    }
}

/// Every binding names a `{name}` wildcard, and no name is bound twice.
pub open spec fn bindings_ok(items: Seq<ItemView>, bs: Seq<(Seq<char>, Seq<char>)>) -> bool {
    &&& forall|k: int| 0 <= k < bs.len() ==> exists|i: int| 0 <= i < items.len() && is_named_plus(
        #[trigger] items[i],
        (#[trigger] bs[k]).0,
    )
    &&& forall|k: int, l: int| 0 <= k < l < bs.len() ==> (#[trigger] bs[k]).0 != (#[trigger] bs[l]).0
}

/// Number of wildcards among the first `n` items.
pub open spec fn wildcards_before(items: Seq<ItemView>, n: int) -> int
    decreases n,
{
    if n <= 0 {
        0
    } else {
        wildcards_before(items, n - 1) + if item_is_wildcard(items[n - 1]) {
            1int
        } else {
            0int
        }
    }
}

/// Some item is a `#`.
pub open spec fn has_hash(items: Seq<ItemView>) -> bool {
    exists|i: int| 0 <= i < items.len() && (#[trigger] items[i]) is Hash
}

/// The levels of a rendered topic: literals as they are, wildcards replaced
/// by the values in order.
pub open spec fn rendered_levels(items: Seq<ItemView>, values: Seq<Seq<char>>) -> Seq<Seq<char>> {
    Seq::new(
        items.len(),
        |i: int|
            match items[i] {
                ItemView::Lit(s) => s,
                _ => values[wildcards_before(items, i)],
            },
    )
}

/// The outcome of rendering a topic from a pattern and values.
pub open spec fn format_result(items: Seq<ItemView>, values: Seq<Seq<char>>) -> Result<
    Seq<char>,
    FormatErrorView,
> {
    if values.len() != wildcards_before(items, items.len() as int) {
        Err(FormatErrorView::ParameterCountMismatch(wildcards_before(items, items.len() as int), values.len() as int))
    } else if has_hash(items) {
        Err(FormatErrorView::HashWildcardNotSupported)
    } else {
        Ok(join_levels(rendered_levels(items, values)))
    }
}

/// Matching a topic against pattern items, from item `i` on; the topic level
/// consumed by item `i` is level `i`.
pub open spec fn match_from(items: Seq<ItemView>, topic: Seq<Seq<char>>, i: int) -> Result<(), MatchErrorView>
    decreases items.len() - i,
{
    if i >= items.len() {
        if i < topic.len() {
            Err(MatchErrorView::UnexpectedEndOfPattern)
        } else {
            Ok(())
        }
    } else {
        match items[i] {
            ItemView::Lit(e) => if i >= topic.len() {
                Err(MatchErrorView::UnexpectedEndOfTopic)
            } else if topic[i] != e {
                Err(MatchErrorView::SegmentMismatch(e, topic[i], i))
            } else {
                match_from(items, topic, i + 1)
            },
            ItemView::Plus(_) => if i >= topic.len() {
                Err(MatchErrorView::UnexpectedEndOfTopic)
            } else {
                match_from(items, topic, i + 1)
            },
            ItemView::Hash(_) => if i < items.len() - 1 {
                Err(MatchErrorView::UnexpectedHashSegment)
            } else {
                Ok(())
            },
        }
    }
}

/// The ranges of topic levels captured by the first `n` items.
pub open spec fn captures(items: Seq<ItemView>, topic_len: int, n: int) -> Seq<(usize, usize)>
    decreases n,
{
    if n <= 0 {
        Seq::empty()
    } else {
        let prev = captures(items, topic_len, n - 1);
        match items[n - 1] {
            ItemView::Lit(_) => prev,
            ItemView::Plus(_) => prev.push(((n - 1) as usize, n as usize)),
            ItemView::Hash(_) => prev.push(((n - 1) as usize, topic_len as usize)),
        }
    }
}

/// The named captures among the first `n` items.
pub open spec fn named_captures(items: Seq<ItemView>, topic_len: int, n: int) -> Seq<
    (Seq<char>, usize, usize),
>
    decreases n,
{
    if n <= 0 {
        Seq::empty()
    } else {
        let prev = named_captures(items, topic_len, n - 1);
        match items[n - 1] {
            ItemView::Plus(Some(name)) => prev.push((name, (n - 1) as usize, n as usize)),
            ItemView::Hash(Some(name)) => prev.push((name, (n - 1) as usize, topic_len as usize)),
            _ => prev,
        }
    }
}

/// The MQTT meaning of a filter: does the pattern match the topic levels?
pub open spec fn topic_matches(items: Seq<ItemView>, topic: Seq<Seq<char>>) -> bool
    decreases items.len(),
{
    if items.len() == 0 {
        topic.len() == 0
    } else {
        match items[0] {
            ItemView::Lit(e) => topic.len() > 0 && topic[0] == e && topic_matches(
                items.drop_first(),
                topic.drop_first(),
            ),
            ItemView::Plus(_) => topic.len() > 0 && topic_matches(items.drop_first(), topic.drop_first()),
            ItemView::Hash(_) => items.len() == 1,
        }
    }
}

/// The wildcard items, in order.
pub open spec fn wildcards_of(items: Seq<ItemView>) -> Seq<ItemView> {
    items.filter(|i: ItemView| item_is_wildcard(i))
}

/// The mathematical content of a [`TopicPatternPath`].
pub struct PatternView {
    pub template: Seq<char>,
    pub items: Seq<ItemView>,
    pub bindings: Option<Seq<(Seq<char>, Seq<char>)>>,
}

impl PatternView {
    /// The items after the bound values are put in.
    pub open spec fn effective_items(self) -> Seq<ItemView> {
        match self.bindings {
            Some(b) => apply_bindings(self.items, b),
            None => self.items,
        }
    }
}

/// Parsed MQTT topic pattern with wildcard support.
#[derive(Debug)]
pub struct TopicPatternPath {
    template_pattern: String,
    mqtt_topic_subscription: String,
    segments: Vec<TopicPatternItem>,
    parameter_bindings: Option<BindingList>,
}

impl View for TopicPatternPath {
    type V = PatternView;

    closed spec fn view(&self) -> PatternView {
        PatternView {
            template: self.template_pattern@,
            items: items_view(self.segments@),
            bindings: match self.parameter_bindings {
                Some(b) => Some(binding_entries(b)),
                None => None,
            },
        }
    }
}

// ---------------------------------------------------------------------------
// Executable helpers
// ---------------------------------------------------------------------------

fn is_white_space_char(c: char) -> (r: bool)
    ensures
        r == is_white_space(c),
{
    ('\u{9}' <= c && c <= '\u{d}') || c == ' ' || c == '\u{85}' || c == '\u{a0}' || c == '\u{1680}'
        || ('\u{2000}' <= c && c <= '\u{200a}') || c == '\u{2028}' || c == '\u{2029}' || c
        == '\u{202f}' || c == '\u{205f}' || c == '\u{3000}'
}

pub(crate) fn is_blank(s: &[char]) -> (r: bool)
    ensures
        r == blank(s@),
{
    let mut i: usize = 0;
    while i < s.len()
        invariant
            i <= s.len(),
            forall|j: int| 0 <= j < i ==> is_white_space(s@[j]),
        decreases s.len() - i,
    {
        if !is_white_space_char(s[i]) {
            return false;
        }
        i += 1;
    }
    true
}

fn copy_items(v: &Vec<TopicPatternItem>) -> (r: Vec<TopicPatternItem>)
    ensures
        items_view(r@) == items_view(v@),
{
    let mut r: Vec<TopicPatternItem> = Vec::new();
    let mut i: usize = 0;
    while i < v.len()
        invariant
            i <= v.len(),
            r@.len() == i,
            forall|j: int| 0 <= j < i ==> (#[trigger] r@[j])@ == v@[j]@,
        decreases v.len() - i,
    {
        r.push(v[i].duplicate());
        i += 1;
    }
    assert(items_view(r@) =~= items_view(v@));
    r
}

/// Joins the broker texts of the items.
fn render_mqtt(items: &[TopicPatternItem]) -> (s: String)
    ensures
        s@ == mqtt_text(items_view(items@)),
{
    let ghost texts = items_view(items@).map_values(|i: ItemView| item_mqtt_text(i));
    let mut s = String::new();
    let mut i: usize = 0;
    while i < items.len()
        invariant
            i <= items.len(),
            texts == items_view(items@).map_values(|i: ItemView| item_mqtt_text(i)),
            s@ == join_levels(texts.take(i as int)),
        decreases items.len() - i,
    {
        let ghost prev = texts.take(i as int);
        if i > 0 {
            push_char(&mut s, '/');
        }
        s.append(items[i].as_str());
        i += 1;
        proof {
            let cur = texts.take(i as int);
            assert(cur.drop_last() =~= prev);
            if i == 1 {
                assert(s@ =~= cur[0]);
            } else {
                assert(s@ =~= join_levels(prev) + seq!['/'] + cur.last());
            }
        }
    }
    assert(texts.take(items.len() as int) =~= texts);
    s
}

/// Joins the template texts of the items.
fn render_template(items: &[TopicPatternItem]) -> (s: String)
    ensures
        s@ == template_text(items_view(items@)),
{
    let ghost texts = items_view(items@).map_values(|i: ItemView| item_template_text(i));
    let mut s = String::new();
    let mut i: usize = 0;
    while i < items.len()
        invariant
            i <= items.len(),
            texts == items_view(items@).map_values(|i: ItemView| item_template_text(i)),
            s@ == join_levels(texts.take(i as int)),
        decreases items.len() - i,
    {
        let ghost prev = texts.take(i as int);
        if i > 0 {
            push_char(&mut s, '/');
        }
        let w = items[i].as_wildcard();
        s.append(w.as_str());
        i += 1;
        proof {
            let cur = texts.take(i as int);
            assert(cur.drop_last() =~= prev);
            if i == 1 {
                assert(s@ =~= cur[0]);
            } else {
                assert(s@ =~= join_levels(prev) + seq!['/'] + cur.last());
            }
        }
    }
    assert(texts.take(items.len() as int) =~= texts);
    s
}

/// Finds a `#` before the last item.
fn find_misplaced_hash(items: &[TopicPatternItem]) -> (r: bool)
    ensures
        r == hash_misplaced(items_view(items@)),
{
    let n = items.len();
    let mut i: usize = 0;
    while n > 0 && i < n - 1
        invariant
            n == items.len(),
            i <= n,
            forall|j: int| 0 <= j < i ==> !(#[trigger] items_view(items@)[j] is Hash),
        decreases n - i,
    {
        if let TopicPatternItem::Hash(_) = &items[i] {
            assert(items_view(items@)[i as int] is Hash);
            return true;
        }
        i += 1;
    }
    false
}

/// Whether two optional names are the same.
fn same_name(a: Option<&String>, b: Option<&String>) -> (r: bool)
    ensures
        r == (match (a, b) {
            (Some(x), Some(y)) => x@ == y@,
            (None, None) => true,
            _ => false,
        }),
{
    match (a, b) {
        (Some(x), Some(y)) => string_eq(x, y),
        (None, None) => true,
        _ => false,
    }
}

/// The first item whose name was already used, if any.
fn find_repeated_name(items: &[TopicPatternItem]) -> (r: Option<usize>)
    ensures
        match r {
            Some(i) => first_where(
                items@.len() as int,
                |k: int| repeated_name_at(items_view(items@), k),
            ) == Some(i as int),
            None => first_where(
                items@.len() as int,
                |k: int| repeated_name_at(items_view(items@), k),
            ) is None,
        },
{
    let ghost iv = items_view(items@);
    let ghost p = |k: int| repeated_name_at(iv, k);
    let mut i: usize = 0;
    while i < items.len()
        invariant
            i <= items.len(),
            iv == items_view(items@),
            p == (|k: int| repeated_name_at(iv, k)),
            forall|k: int| 0 <= k < i ==> !(#[trigger] p(k)),
        decreases items.len() - i,
    {
        let name = items[i].param_name();
        if name.is_some() {
            let mut j: usize = 0;
            while j < i
                invariant
                    j <= i < items.len(),
                    iv == items_view(items@),
                    p == (|k: int| repeated_name_at(iv, k)),
                    forall|k: int| 0 <= k < i ==> !(#[trigger] p(k)),
                    item_name(iv[i as int]) is Some,
                    name is Some && item_name(iv[i as int]) == Some(name->0@),
                    forall|m: int| 0 <= m < j ==> item_name(iv[m]) != item_name(iv[i as int]),
                decreases i - j,
            {
                let other = items[j].param_name();
                if same_name(other, name) {
                    assert(item_name(iv[j as int]) == item_name(iv[i as int]));
                    assert(p(i as int));
                    proof {
                        lemma_first_where_is(items@.len() as int, p, i as int);
                    }
                    return Some(i);
                }
                j += 1;
            }
            assert(!p(i as int));
        } else {
            assert(!p(i as int));
        }
        i += 1;
    }
    proof {
        lemma_first_where_none(items@.len() as int, p);
    }
    None
}

/// The first binding of `name`, if any.
fn find_binding(l: &BindingList, name: &String) -> (r: Option<usize>)
    ensures
        match r {
            Some(k) => k < binding_entries(*l).len() && binding_entries(*l)[k as int].0 == name@ && forall|j: int|
                0 <= j < k ==> (#[trigger] binding_entries(*l)[j]).0 != name@,
            None => forall|j: int|
                0 <= j < binding_entries(*l).len() ==> (#[trigger] binding_entries(*l)[j]).0 != name@,
        },
{
    let ghost bs = binding_entries(*l);
    let n = binding_list_len(l);
    let mut k: usize = 0;
    while k < n
        invariant
            k <= n == bs.len(),
            bs == binding_entries(*l),
            forall|j: int| 0 <= j < k ==> (#[trigger] bs[j]).0 != name@,
        decreases n - k,
    {
        let entry = binding_list_get(l, k);
        if string_eq(&entry.0, name) {
            return Some(k);
        }
        k += 1;
    }
    None
}

/// A named `+` wildcard called `name`.
fn item_is_named_plus(item: &TopicPatternItem, name: &String) -> (r: bool)
    ensures
        r == is_named_plus(item@, name@),
{
    match item {
        TopicPatternItem::Plus(Some(n)) => string_eq(n, name),
        _ => false,
    }
}

/// The first `{name}` item, if any.
fn find_named_plus(items: &Vec<TopicPatternItem>, name: &String) -> (r: Option<usize>)
    ensures
        match r {
            Some(i) => first_where(
                items@.len() as int,
                |k: int| is_named_plus(items_view(items@)[k], name@),
            ) == Some(i as int),
            None => first_where(
                items@.len() as int,
                |k: int| is_named_plus(items_view(items@)[k], name@),
            ) is None,
        },
{
    let ghost p = |k: int| is_named_plus(items_view(items@)[k], name@);
    let mut i: usize = 0;
    while i < items.len()
        invariant
            i <= items.len(),
            p == (|k: int| is_named_plus(items_view(items@)[k], name@)),
            forall|k: int| 0 <= k < i ==> !(#[trigger] p(k)),
        decreases items.len() - i,
    {
        if item_is_named_plus(&items[i], name) {
            proof {
                lemma_first_where_is(items@.len() as int, p, i as int);
            }
            return Some(i);
        }
        i += 1;
    }
    proof {
        lemma_first_where_none(items@.len() as int, p);
    }
    None
}

proof fn lemma_apply_bindings_len(items: Seq<ItemView>, bs: Seq<(Seq<char>, Seq<char>)>)
    ensures
        apply_bindings(items, bs).len() == items.len(),
    decreases bs.len(),
{
    if bs.len() > 0 {
        lemma_apply_bindings_len(items, bs.drop_last());
        let prev = apply_bindings(items, bs.drop_last());
        let n = bs.last().0;
        lemma_first_where(prev.len() as int, |i: int| is_named_plus(prev[i], n));
    }
}

/// Puts the bound values in place of their `{name}` wildcards.
fn apply_bindings_to_segments(segments: &Vec<TopicPatternItem>, bindings: &BindingList) -> (r: Vec<
    TopicPatternItem,
>)
    ensures
        items_view(r@) == apply_bindings(items_view(segments@), binding_entries(*bindings)),
{
    let mut new_segments = copy_items(segments);
    let ghost bs = binding_entries(*bindings);
    let n = binding_list_len(bindings);
    let mut k: usize = 0;
    while k < n
        invariant
            k <= n == bs.len(),
            bs == binding_entries(*bindings),
            items_view(new_segments@) == apply_bindings(items_view(segments@), bs.take(k as int)),
        decreases n - k,
    {
        let entry = binding_list_get(bindings, k);
        let ghost prev = items_view(new_segments@);
        proof {
            assert(bs.take(k + 1).drop_last() =~= bs.take(k as int));
            assert(bs.take(k + 1).last() == bs[k as int]);
        }
        match find_named_plus(&new_segments, &entry.0) {
            Some(pos) => {
                proof {
                    lemma_first_where(prev.len() as int, |i: int| is_named_plus(prev[i], entry.0@));
                }
                new_segments.set(pos, TopicPatternItem::Str(copy_string(&entry.1)));
                assert(items_view(new_segments@) =~= prev.update(pos as int, ItemView::Lit(entry.1@)));
            },
            None => {},
        }
        k += 1;
    }
    assert(bs.take(n as int) =~= bs);
    new_segments
}

proof fn lemma_wildcards_before_step(items: Seq<ItemView>, n: int)
    requires
        0 <= n,
    ensures
        0 <= wildcards_before(items, n) <= n,
    decreases n,
{
    if n > 0 {
        lemma_wildcards_before_step(items, n - 1);
    }
}

impl TopicPatternPath {
    #[verifier::type_invariant]
    spec fn inv(self) -> bool {
        let items = items_view(self.segments@);
        &&& self.mqtt_topic_subscription@ == mqtt_text(items)
        &&& !hash_misplaced(items)
        &&& match self.parameter_bindings {
            Some(b) => bindings_ok(items, binding_entries(b)),
            None => true,
        }
    }

    /// Creates a topic pattern from a string (`sensors/{id}/+/#` syntax).
    pub fn new_from_string(topic_pattern: &str, cache_strategy: CacheStrategy) -> (r: Result<
        Self,
        TopicPatternError,
    >)
        ensures
            match r {
                Ok(p) => pattern_parse(topic_pattern@) == Ok::<Seq<ItemView>, PatternErrorView>(p@.items)
                    && p@.template == topic_pattern@ && p@.bindings is None,
                Err(e) => pattern_parse(topic_pattern@) == Err::<Seq<ItemView>, PatternErrorView>(e@),
            },
    {
        let _ = cache_strategy;
        let chars = str_to_chars(topic_pattern);
        if is_blank(chars.as_slice()) {
            return Err(TopicPatternError::EmptyTopic);
        }
        let levels = split_to_levels(topic_pattern);
        let ghost lv = split_levels(topic_pattern@);
        let ghost bad = |i: int| parse_item(lv[i]) is None;
        let mut segments: Vec<TopicPatternItem> = Vec::new();
        let mut i: usize = 0;
        while i < levels.len()
            invariant
                i <= levels.len(),
                levels.deep_view() == lv,
                lv == split_levels(topic_pattern@),
                bad == (|i: int| parse_item(lv[i]) is None),
                forall|k: int| 0 <= k < i ==> !(#[trigger] bad(k)),
                !blank(topic_pattern@),
                segments@.len() == i,
                forall|j: int| 0 <= j < i ==> (#[trigger] segments@[j])@ == parse_item(lv[j])->0,
            decreases levels.len() - i,
        {
            let level_chars = str_to_chars(levels[i].as_str());
            assert(level_chars@ == lv[i as int]);
            match parse_item_chars(level_chars.as_slice()) {
                Ok(item) => {
                    segments.push(item);
                },
                Err(e) => {
                    proof {
                        lemma_first_where_is(lv.len() as int, bad, i as int);
                    }
                    return Err(e);
                },
            }
            i += 1;
        }
        proof {
            lemma_first_where_none(lv.len() as int, bad);
            assert(items_view(segments@) =~= parsed_levels(lv));
        }
        let ghost items = parsed_levels(lv);
        match find_repeated_name(segments.as_slice()) {
            Some(pos) => {
                proof {
                    lemma_first_where(
                        segments@.len() as int,
                        |k: int| repeated_name_at(items_view(segments@), k),
                    );
                }
                let usage = segments[pos].to_string();
                return Err(TopicPatternError::wildcard_usage(usage));
            },
            None => {},
        }
        if find_misplaced_hash(segments.as_slice()) {
            return Err(TopicPatternError::hash_position(owned_string(topic_pattern)));
        }
        let mqtt = render_mqtt(segments.as_slice());
        let r = TopicPatternPath {
            template_pattern: owned_string(topic_pattern),
            mqtt_topic_subscription: mqtt,
            segments,
            parameter_bindings: None,
        };
        Ok(r)
    }

    /// Creates a topic pattern from items; the template is rebuilt from them.
    pub fn new_from_segments(segments: &[TopicPatternItem]) -> (r: Result<Self, TopicPatternError>)
        ensures
            match r {
                Ok(p) => !hash_misplaced(items_view(segments@)) && p@.items == items_view(segments@)
                    && p@.template == template_text(items_view(segments@)) && p@.bindings is None,
                Err(e) => hash_misplaced(items_view(segments@)) && e@ == PatternErrorView::HashPosition(
                    template_text(items_view(segments@)),
                ),
            },
    {
        let template = render_template(segments);
        if find_misplaced_hash(segments) {
            return Err(TopicPatternError::hash_position(template));
        }
        let mut v: Vec<TopicPatternItem> = Vec::new();
        let mut i: usize = 0;
        while i < segments.len()
            invariant
                i <= segments.len(),
                v@.len() == i,
                forall|j: int| 0 <= j < i ==> (#[trigger] v@[j])@ == segments@[j]@,
            decreases segments.len() - i,
        {
            v.push(segments[i].duplicate());
            i += 1;
        }
        assert(items_view(v@) =~= items_view(segments@));
        let mqtt = render_mqtt(segments);
        Ok(
            TopicPatternPath {
                template_pattern: template,
                mqtt_topic_subscription: mqtt,
                segments: v,
                parameter_bindings: None,
            },
        )
    }

    /// The cache strategy: this build caches nothing.
    pub fn cache_strategy(&self) -> (r: CacheStrategy)
        ensures
            r == CacheStrategy::NoCache,
    {
        CacheStrategy::NoCache
    }

    /// The current parameter bindings, if any.
    pub fn parameter_bindings(&self) -> (r: Option<&BindingList>)
        ensures
            match r {
                Some(b) => self@.bindings == Some(b.entries()),
                None => self@.bindings is None,
            },
    {
        match &self.parameter_bindings {
            Some(b) => Some(b),
            None => None,
        }
    }

    /// The value bound to `param_name`, if any.
    pub fn get_bound_value(&self, param_name: Option<&str>) -> (r: Option<&String>)
        ensures
            match (param_name, self@.bindings) {
                (Some(n), Some(bs)) => match binding_position(bs, n@) {
                    Some(k) => r is Some && r->0@ == bs[k].1,
                    None => r is None,
                },
                _ => r is None,
            },
    {
        let name = match param_name {
            Some(n) => owned_string(n),
            None => return None,
        };
        let bindings = match &self.parameter_bindings {
            Some(b) => b,
            None => return None,
        };
        proof {
            lemma_binding_position(binding_entries(*bindings), name@);
        }
        match find_binding(bindings, &name) {
            Some(k) => Some(&binding_list_get(bindings, k).1),
            None => None,
        }
    }

    /// The MQTT pattern for a broker subscription, bound values put in.
    pub fn mqtt_pattern(&self) -> (r: String)
        ensures
            r@ == mqtt_text(self@.effective_items()),
    {
        proof {
            use_type_invariant(self);
        }
        match &self.parameter_bindings {
            Some(bindings) => {
                let new_segments = apply_bindings_to_segments(&self.segments, bindings);
                render_mqtt(new_segments.as_slice())
            },
            None => copy_string(&self.mqtt_topic_subscription),
        }
    }

    /// The items with bound values put in; unbound wildcards stay.
    pub fn resolve_bound_segments(&self) -> (r: Vec<TopicPatternItem>)
        ensures
            items_view(r@) == self@.effective_items(),
    {
        match &self.parameter_bindings {
            Some(bindings) => apply_bindings_to_segments(&self.segments, bindings),
            None => copy_items(&self.segments),
        }
    }

    /// The items of the pattern, in order.
    pub fn iter(&self) -> (r: std::slice::Iter<'_, TopicPatternItem>)
        ensures
            items_view(r.remaining().unref()) == self@.items,
    {
        let it = self.segments.as_slice().iter();
        proof {
            assert(it.remaining().unref() =~= self.segments@);
        }
        it
    }

    /// The pattern as it was written.
    pub fn topic_pattern(&self) -> (r: String)
        ensures
            r@ == self@.template,
    {
        copy_string(&self.template_pattern)
    }

    /// The pattern as it was written (what `Display` shows).
    pub fn to_string(&self) -> (r: String)
        ensures
            r@ == self@.template,
    {
        copy_string(&self.template_pattern)
    }

    /// `true` when the pattern has no items.
    pub fn is_empty(&self) -> (r: bool)
        ensures
            r == (self@.items.len() == 0),
    {
        self.segments.len() == 0
    }

    /// `true` when the pattern ends with a `#` wildcard.
    pub fn contains_hash(&self) -> (r: bool)
        ensures
            r == (self@.items.len() > 0 && self@.items.last() is Hash),
    {
        let n = self.segments.len();
        if n == 0 {
            return false;
        }
        match &self.segments[n - 1] {
            TopicPatternItem::Hash(_) => true,
            _ => false,
        }
    }

    /// Number of items.
    pub fn len(&self) -> (r: usize)
        ensures
            r == self@.items.len(),
    {
        self.segments.len()
    }

    /// The items.
    pub fn slice(&self) -> (r: &[TopicPatternItem])
        ensures
            items_view(r@) == self@.items,
    {
        self.segments.as_slice()
    }

    /// The items.
    pub fn segments(&self) -> (r: &Vec<TopicPatternItem>)
        ensures
            items_view(r@) == self@.items,
    {
        &self.segments
    }

    /// Renders a topic by putting the values, in order, in place of the
    /// wildcards.
    pub fn format_topic(&self, params: &[&str]) -> (r: Result<String, TopicFormatError>)
        ensures
            match r {
                Ok(s) => format_result(self@.items, params@.map_values(|p: &str| p@)) == Ok::<
                    Seq<char>,
                    FormatErrorView,
                >(s@),
                Err(e) => format_result(self@.items, params@.map_values(|p: &str| p@)) == Err::<
                    Seq<char>,
                    FormatErrorView,
                >(e@),
            },
    {
        let ghost items = self@.items;
        let ghost values = params@.map_values(|p: &str| p@);
        let mut wildcard_count: usize = 0;
        let mut i: usize = 0;
        while i < self.segments.len()
            invariant
                i <= self.segments.len(),
                items == items_view(self.segments@),
                wildcard_count == wildcards_before(items, i as int),
            decreases self.segments.len() - i,
        {
            proof {
                lemma_wildcards_before_step(items, i as int);
            }
            if self.segments[i].is_wildcard() {
                wildcard_count += 1;
            }
            i += 1;
        }
        if params.len() != wildcard_count {
            return Err(
                TopicFormatError::ParameterCountMismatch {
                    expected: wildcard_count,
                    provided: params.len(),
                },
            );
        }
        let ghost levels = rendered_levels(items, values);
        let mut result = String::new();
        let mut param_index: usize = 0;
        let mut i: usize = 0;
        while i < self.segments.len()
            invariant
                i <= self.segments.len(),
                items == items_view(self.segments@),
                values == params@.map_values(|p: &str| p@),
                params.len() == wildcards_before(items, items.len() as int),
                levels == rendered_levels(items, values),
                param_index == wildcards_before(items, i as int),
                forall|j: int| 0 <= j < i ==> !(#[trigger] items[j] is Hash),
                result@ == join_levels(levels.take(i as int)),
            decreases self.segments.len() - i,
        {
            proof {
                lemma_wildcards_before_step(items, i as int);
                lemma_wildcards_mono(items, i as int + 1, items.len() as int);
            }
            let ghost prev = levels.take(i as int);
            if i > 0 {
                push_char(&mut result, '/');
            }
            match &self.segments[i] {
                TopicPatternItem::Str(s) => {
                    result.append(s.as_str());
                },
                TopicPatternItem::Plus(_) => {
                    result.append(params[param_index]);
                    param_index += 1;
                },
                TopicPatternItem::Hash(_) => {
                    assert(has_hash(items));
                    return Err(TopicFormatError::HashWildcardNotSupported);
                },
            }
            i += 1;
            proof {
                let cur = levels.take(i as int);
                assert(cur.drop_last() =~= prev);
                assert(cur.last() == levels[i - 1]);
                if i == 1 {
                    assert(result@ =~= cur[0]);
                } else {
                    assert(result@ =~= join_levels(prev) + seq!['/'] + cur.last());
                }
            }
        }
        assert(!has_hash(items));
        assert(levels.take(items.len() as int) =~= levels);
        Ok(result)
    }

    /// Parses `custom_topic` and accepts it when its wildcards are those of
    /// this pattern (same kinds, order and names); literals may differ.
    pub fn check_pattern_compatibility(&self, custom_topic: &str) -> (r: Result<Self, TopicPatternError>)
        ensures
            match pattern_parse(custom_topic@) {
                Err(e) => r == Err::<Self, TopicPatternError>(r->Err_0) && r->Err_0@ == e,
                Ok(items) => if wildcards_of(self@.items) == wildcards_of(items) {
                    r is Ok && r->Ok_0@.items == items && r->Ok_0@.template == custom_topic@
                        && r->Ok_0@.bindings is None
                } else {
                    r is Err && r->Err_0@ == PatternErrorView::PatternMismatch(
                        self@.template,
                        custom_topic@,
                    )
                },
            },
    {
        let candidate = match TopicPatternPath::new_from_string(custom_topic, CacheStrategy::NoCache) {
            Ok(c) => c,
            Err(e) => return Err(e),
        };
        if same_wildcards(&self.segments, &candidate.segments) {
            Ok(candidate)
        } else {
            Err(
                TopicPatternError::pattern_mismatch(
                    copy_string(&self.template_pattern),
                    copy_string(&candidate.template_pattern),
                ),
            )
        }
    }

    /// A pattern with another cache strategy: without a cache in this build,
    /// a copy of this one.
    pub fn with_cache_strategy(&self, new_cache: CacheStrategy) -> (r: Self)
        ensures
            r@ == self@,
    {
        let _ = new_cache;
        self.duplicate()
    }

    /// A copy with the same content.
    pub fn duplicate(&self) -> (r: Self)
        ensures
            r@ == self@,
    {
        proof {
            use_type_invariant(self);
        }
        TopicPatternPath {
            template_pattern: copy_string(&self.template_pattern),
            mqtt_topic_subscription: copy_string(&self.mqtt_topic_subscription),
            segments: copy_items(&self.segments),
            parameter_bindings: match &self.parameter_bindings {
                Some(b) => Some(binding_list_clone(b)),
                None => None,
            },
        }
    }

    /// Binds `value` to the `{param_name}` wildcard; a second binding of the
    /// same name replaces the value.
    pub fn bind_parameter(self, param_name: &str, value: &str) -> (r: Result<Self, TopicPatternError>)
        ensures
            (exists|i: int| 0 <= i < self@.items.len() && is_named_plus(self@.items[i], param_name@))
                ==> r is Ok && r->Ok_0@.template == self@.template && r->Ok_0@.items == self@.items
                && r->Ok_0@.bindings == Some(bind_entry(self@.bindings, param_name@, value@)),
            !(exists|i: int| 0 <= i < self@.items.len() && is_named_plus(self@.items[i], param_name@))
                ==> r is Err && r->Err_0@ == PatternErrorView::WildcardUsage(
                missing_parameter_message(param_name@, self@.template),
            ),
    {
        proof {
            use_type_invariant(&self);
        }
        let name = owned_string(param_name);
        let found = find_named_plus(&self.segments, &name);
        proof {
            lemma_first_where(
                self.segments@.len() as int,
                |k: int| is_named_plus(items_view(self.segments@)[k], name@),
            );
        }
        if found.is_none() {
            proof {
                let pf = |k: int| is_named_plus(items_view(self.segments@)[k], name@);
                assert forall|i: int| 0 <= i < self@.items.len() implies !is_named_plus(
                    self@.items[i],
                    param_name@,
                ) by {
                    assert(!pf(i));
                }
            }
            let mut msg = String::new();
            msg.append("Parameter '");
            msg.append(param_name);
            msg.append("' not found in pattern '");
            msg.append(self.template_pattern.as_str());
            msg.append("'");
            return Err(TopicPatternError::wildcard_usage(msg));
        }
        let value_s = owned_string(value);
        let ghost old_view = self@;
        let TopicPatternPath { template_pattern, mqtt_topic_subscription, segments, parameter_bindings } =
            self;
        let mut bindings = match parameter_bindings {
            Some(b) => b,
            None => binding_list_new(),
        };
        let ghost old_bs = binding_entries(bindings);
        let ghost items = items_view(segments@);
        let ghost pb = |j: int| old_bs[j].0 == name@;
        proof {
            lemma_first_where(old_bs.len() as int, pb);
            let b = match old_view.bindings {
                Some(b) => b,
                None => Seq::empty(),
            };
            assert(b == old_bs);
            assert((|k: int| b[k].0 == param_name@) =~= pb);
            let pf = |k: int| is_named_plus(items[k], name@);
            lemma_first_where(items.len() as int, pf);
            let w = first_where(items.len() as int, pf)->0;
            assert(is_named_plus(items[w], name@));
            assert(old_view.items[w] == items[w]);
        }
        proof {
            lemma_bound_entries_shape(old_bs, name@, value@);
            assert(bind_entry(old_view.bindings, param_name@, value@) == bound_entries(old_bs, name@, value@));
        }
        match find_binding(&bindings, &name) {
            Some(i) => {
                binding_list_set_value(&mut bindings, i, value_s);
                proof {
                    let nb = binding_entries(bindings);
                    assert forall|k: int| 0 <= k < nb.len() implies exists|m: int|
                        0 <= m < items.len() && is_named_plus(#[trigger] items[m], (#[trigger] nb[k]).0) by {
                        assert(nb[k].0 == old_bs[k].0);
                        assert(old_bs[k] == old_bs[k]);
                    }
                    assert forall|k: int, l: int| 0 <= k < l < nb.len() implies (#[trigger] nb[k]).0
                        != (#[trigger] nb[l]).0 by {
                        assert(nb[k].0 == old_bs[k].0);
                        assert(nb[l].0 == old_bs[l].0);
                        assert(old_bs[k] == old_bs[k] && old_bs[l] == old_bs[l]);
                    }
                }
            },
            None => {
                binding_list_push(&mut bindings, name, value_s);
                proof {
                    let nb = binding_entries(bindings);
                    let pf = |k: int| is_named_plus(items[k], name@);
                    let w = first_where(items.len() as int, pf)->0;
                    assert forall|k: int| 0 <= k < nb.len() implies exists|m: int|
                        0 <= m < items.len() && is_named_plus(#[trigger] items[m], (#[trigger] nb[k]).0) by {
                        if k < old_bs.len() {
                            assert(nb[k] == old_bs[k]);
                        } else {
                            assert(nb[k].0 == name@);
                            assert(is_named_plus(items[w], nb[k].0));
                        }
                    }
                    assert forall|k: int, l: int| 0 <= k < l < nb.len() implies (#[trigger] nb[k]).0
                        != (#[trigger] nb[l]).0 by {
                        assert(nb[k] == old_bs[k]);
                        if l < old_bs.len() {
                            assert(nb[l] == old_bs[l]);
                        } else {
                            assert(!pb(k));
                        }
                    }
                }
            },
        }
        let r = TopicPatternPath {
            template_pattern,
            mqtt_topic_subscription,
            segments,
            parameter_bindings: Some(bindings),
        };
        Ok(r)
    }

    /// Matches a topic against this pattern, capturing the wildcard levels.
    pub fn try_match(&self, topic: Arc<TopicPath>) -> (r: Result<Arc<TopicMatch>, TopicMatchError>)
        ensures
            match r {
                Ok(m) => match_from(self@.items, topic.segments.deep_view(), 0) is Ok && topic_fits(
                    self@.items,
                    topic.segments.deep_view(),
                ) && m.topic_view() == *topic && m.params_view() == captures(
                    self@.items,
                    topic.segments.len() as int,
                    self@.items.len() as int,
                ) && m.named_view() == named_captures(
                    self@.items,
                    topic.segments.len() as int,
                    self@.items.len() as int,
                ),
                Err(e) => match_from(self@.items, topic.segments.deep_view(), 0) == Err::<
                    (),
                    MatchErrorView,
                >(e@) && !topic_fits(self@.items, topic.segments.deep_view()),
            },
    {
        proof {
            lemma_match_iff_fits(self@.items, topic.segments.deep_view());
        }
        let m = self.try_match_internal(topic)?;
        Ok(Arc::new(m))
    }

    /// Matches a topic given as a string.
    pub fn try_match_str(&self, topic: &str) -> (r: Result<Arc<TopicMatch>, TopicMatchError>)
        ensures
            match r {
                Ok(m) => match_from(self@.items, split_levels(topic@), 0) is Ok && topic_fits(
                    self@.items,
                    split_levels(topic@),
                ) && m.topic_view().path@ == topic@ && m.topic_view().segments.deep_view() == split_levels(topic@)
                    && m.params_view() == captures(
                    self@.items,
                    split_levels(topic@).len() as int,
                    self@.items.len() as int,
                ) && m.named_view() == named_captures(
                    self@.items,
                    split_levels(topic@).len() as int,
                    self@.items.len() as int,
                ),
                Err(e) => match_from(self@.items, split_levels(topic@), 0) == Err::<
                    (),
                    MatchErrorView,
                >(e@) && !topic_fits(self@.items, split_levels(topic@)),
            },
    {
        let t = TopicPath::new(topic);
        self.try_match(Arc::new(t))
    }

    fn try_match_internal(&self, topic: Arc<TopicPath>) -> (r: Result<TopicMatch, TopicMatchError>)
        ensures
            match r {
                Ok(m) => match_from(self@.items, topic.segments.deep_view(), 0) is Ok && m.topic_view()
                    == *topic && m.params_view() == captures(
                    self@.items,
                    topic.segments.len() as int,
                    self@.items.len() as int,
                ) && m.named_view() == named_captures(
                    self@.items,
                    topic.segments.len() as int,
                    self@.items.len() as int,
                ),
                Err(e) => match_from(self@.items, topic.segments.deep_view(), 0) == Err::<
                    (),
                    MatchErrorView,
                >(e@),
            },
    {
        let ghost items = self@.items;
        let ghost tv = topic.segments.deep_view();
        let tl = topic.segments.len();
        let n = self.segments.len();
        let mut captured = MatchBuilder::new();
        let mut i: usize = 0;
        while i < n
            invariant
                i <= n == items.len(),
                items == items_view(self.segments@),
                tv == topic.segments.deep_view(),
                tl == tv.len(),
                match_from(items, tv, 0) == match_from(items, tv, i as int),
                captured.params_view() == captures(items, tl as int, i as int),
                captured.named_view() == named_captures(items, tl as int, i as int),
                i <= tl,
                ranges_ok(captured.params_view(), tl as int),
                named_ok(captured.named_view(), tl as int),
            decreases n - i,
        {
            match &self.segments[i] {
                TopicPatternItem::Str(expected) => {
                    if i >= tl {
                        return Err(TopicMatchError::UnexpectedEndOfTopic);
                    }
                    if !string_eq(&topic.segments[i], expected) {
                        return Err(
                            TopicMatchError::SegmentMismatch {
                                expected: copy_string(expected),
                                found: copy_string(&topic.segments[i]),
                                position: i,
                            },
                        );
                    }
                },
                TopicPatternItem::Plus(opt_name) => {
                    if i >= tl {
                        return Err(TopicMatchError::UnexpectedEndOfTopic);
                    }
                    captured.push_param(i, i + 1);
                    match opt_name {
                        Some(name) => {
                            captured.push_named(copy_string(name), i, i + 1);
                        },
                        None => {},
                    }
                },
                TopicPatternItem::Hash(opt_name) => {
                    captured.push_param(i, tl);
                    match opt_name {
                        Some(name) => {
                            captured.push_named(copy_string(name), i, tl);
                        },
                        None => {},
                    }
                    if i + 1 < n {
                        return Err(TopicMatchError::UnexpectedHashSegment);
                    }
                    return Ok(TopicMatch::from_match_result(topic, captured));
                },
            }
            i += 1;
        }
        if i < tl {
            return Err(TopicMatchError::UnexpectedEndOfPattern);
        }
        Ok(TopicMatch::from_match_result(topic, captured))
    }
}

pub open spec fn ranges_ok(r: Seq<(usize, usize)>, n: int) -> bool {
    forall|i: int| 0 <= i < r.len() ==> (#[trigger] r[i]).0 <= r[i].1 <= n
}

pub open spec fn named_ok(r: Seq<(Seq<char>, usize, usize)>, n: int) -> bool {
    forall|i: int| 0 <= i < r.len() ==> (#[trigger] r[i]).1 <= r[i].2 <= n
}

/// The bindings after binding `value` to `name`.
pub open spec fn bind_entry(
    bs: Option<Seq<(Seq<char>, Seq<char>)>>,
    name: Seq<char>,
    value: Seq<char>,
) -> Seq<(Seq<char>, Seq<char>)> {
    bound_entries(
        match bs {
            Some(b) => b,
            None => Seq::empty(),
        },
        name,
        value,
    )
}

/// The bindings `b` with `name` bound to `value`: the value of an existing
/// binding of `name` is replaced, otherwise the binding is appended.
pub open spec fn bound_entries(b: Seq<(Seq<char>, Seq<char>)>, name: Seq<char>, value: Seq<char>) -> Seq<
    (Seq<char>, Seq<char>),
> {
    match binding_position(b, name) {
        Some(k) => b.update(k, (name, value)),
        None => b.push((name, value)),
    }
}

/// The message of the error for an unknown parameter.
pub open spec fn missing_parameter_message(name: Seq<char>, template: Seq<char>) -> Seq<char> {
    "Parameter '"@ + name + "' not found in pattern '"@ + template + "'"@
}

proof fn lemma_wildcards_mono(items: Seq<ItemView>, a: int, b: int)
    requires
        0 <= a <= b,
    ensures
        wildcards_before(items, a) <= wildcards_before(items, b),
    decreases b - a,
{
    if a < b {
        lemma_wildcards_mono(items, a, b - 1);
    }
}

/// The wildcard items of `v`, in order.
fn wildcard_items(v: &Vec<TopicPatternItem>) -> (r: Vec<TopicPatternItem>)
    ensures
        items_view(r@) == wildcards_of(items_view(v@)),
{
    let ghost iv = items_view(v@);
    let mut r: Vec<TopicPatternItem> = Vec::new();
    let mut i: usize = 0;
    while i < v.len()
        invariant
            i <= v.len(),
            iv == items_view(v@),
            items_view(r@) == wildcards_of(iv.take(i as int)),
        decreases v.len() - i,
    {
        proof {
            assert(iv.take(i + 1).drop_last() =~= iv.take(i as int));
            assert(iv.take(i + 1).last() == iv[i as int]);
            reveal_with_fuel(Seq::filter, 1);
        }
        if v[i].is_wildcard() {
            r.push(v[i].duplicate());
            assert(items_view(r@) =~= wildcards_of(iv.take(i as int)).push(iv[i as int]));
        } else {
            assert(items_view(r@) =~= wildcards_of(iv.take(i as int)));
        }
        i += 1;
    }
    assert(iv.take(v.len() as int) =~= iv);
    r
}

/// Item-wise equality of two item lists.
fn items_eq(a: &Vec<TopicPatternItem>, b: &Vec<TopicPatternItem>) -> (r: bool)
    ensures
        r == (items_view(a@) == items_view(b@)),
{
    if a.len() != b.len() {
        assert(items_view(a@).len() != items_view(b@).len());
        return false;
    }
    let mut i: usize = 0;
    while i < a.len()
        invariant
            i <= a.len() == b.len(),
            forall|j: int| 0 <= j < i ==> items_view(a@)[j] == items_view(b@)[j],
        decreases a.len() - i,
    {
        if !item_eq(&a[i], &b[i]) {
            assert(items_view(a@)[i as int] != items_view(b@)[i as int]);
            return false;
        }
        i += 1;
    }
    assert(items_view(a@) =~= items_view(b@));
    true
}

fn opt_string_eq(a: &Option<String>, b: &Option<String>) -> (r: bool)
    ensures
        r == (crate::topic_pattern_item::opt_view(*a) == crate::topic_pattern_item::opt_view(*b)),
{
    match (a, b) {
        (Some(x), Some(y)) => string_eq(x, y),
        (None, None) => true,
        _ => false,
    }
}

fn item_eq(a: &TopicPatternItem, b: &TopicPatternItem) -> (r: bool)
    ensures
        r == (a@ == b@),
{
    match (a, b) {
        (TopicPatternItem::Str(x), TopicPatternItem::Str(y)) => string_eq(x, y),
        (TopicPatternItem::Plus(x), TopicPatternItem::Plus(y)) => opt_string_eq(x, y),
        (TopicPatternItem::Hash(x), TopicPatternItem::Hash(y)) => opt_string_eq(x, y),
        _ => false,
    }
}

fn same_wildcards(a: &Vec<TopicPatternItem>, b: &Vec<TopicPatternItem>) -> (r: bool)
    ensures
        r == (wildcards_of(items_view(a@)) == wildcards_of(items_view(b@))),
{
    let wa = wildcard_items(a);
    let wb = wildcard_items(b);
    items_eq(&wa, &wb)
}

impl Clone for TopicPatternPath {
    /// A copy with the same content.
    fn clone(&self) -> (r: Self)
        ensures
            r@ == self@,
    {
        self.duplicate()
    }
}

impl vstd::std_specs::convert::TryFromSpecImpl<&str> for TopicPatternPath {
    open spec fn obeys_try_from_spec() -> bool {
        false
    }

    open spec fn try_from_spec(v: &str) -> Result<Self, Self::Error> {
        arbitrary()
    }
}

impl TryFrom<&str> for TopicPatternPath {
    type Error = TopicPatternError;

    /// Parses the pattern, as [`TopicPatternPath::new_from_string`] does.
    fn try_from(value: &str) -> (r: Result<Self, Self::Error>)
        ensures
            match r {
                Ok(p) => pattern_parse(value@) == Ok::<Seq<ItemView>, PatternErrorView>(p@.items)
                    && p@.template == value@ && p@.bindings is None,
                Err(e) => pattern_parse(value@) == Err::<Seq<ItemView>, PatternErrorView>(e@),
            },
    {
        Self::new_from_string(value, CacheStrategy::NoCache)
    }
}

impl vstd::std_specs::convert::TryFromSpecImpl<String> for TopicPatternPath {
    open spec fn obeys_try_from_spec() -> bool {
        false
    }

    open spec fn try_from_spec(v: String) -> Result<Self, Self::Error> {
        arbitrary()
    }
}

impl TryFrom<String> for TopicPatternPath {
    type Error = TopicPatternError;

    /// Parses the pattern, as [`TopicPatternPath::new_from_string`] does.
    fn try_from(value: String) -> (r: Result<Self, Self::Error>)
        ensures
            match r {
                Ok(p) => pattern_parse(value@) == Ok::<Seq<ItemView>, PatternErrorView>(p@.items)
                    && p@.template == value@ && p@.bindings is None,
                Err(e) => pattern_parse(value@) == Err::<Seq<ItemView>, PatternErrorView>(e@),
            },
    {
        Self::new_from_string(value.as_str(), CacheStrategy::NoCache)
    }
}

/// No literal item holds a `/`.
pub open spec fn literals_plain(items: Seq<ItemView>) -> bool {
    forall|i: int, j: int|
        0 <= i < items.len() && items[i] is Lit && 0 <= j < items[i]->Lit_0.len() ==> #[trigger] items[i]->Lit_0[j]
            != '/'
}

/// No value holds a `/`.
pub open spec fn values_plain(values: Seq<Seq<char>>) -> bool {
    forall|i: int, j: int| 0 <= i < values.len() && 0 <= j < values[i].len() ==> #[trigger] values[i][j] != '/'
}

proof fn lemma_match_rendered(items: Seq<ItemView>, values: Seq<Seq<char>>, i: int)
    requires
        0 <= i <= items.len(),
        !has_hash(items),
    ensures
        match_from(items, rendered_levels(items, values), i) is Ok,
    decreases items.len() - i,
{
    if i < items.len() {
        lemma_match_rendered(items, values, i + 1);
        assert(!(items[i] is Hash));
    }
}

/// Among the first `m` items, a `+` comes after exactly `k` wildcards.
spec fn numbered_plus(items: Seq<ItemView>, m: int, k: int) -> bool {
    exists|p: int| 0 <= p < m && #[trigger] items[p] is Plus && wildcards_before(items, p) == k
}

proof fn lemma_capture_at(items: Seq<ItemView>, l: int, m: int, p: int)
    requires
        0 <= p < m <= items.len(),
        items[p] is Plus,
        !has_hash(items),
    ensures
        captures(items, l, m).len() == wildcards_before(items, m),
        0 <= wildcards_before(items, p) < captures(items, l, m).len(),
        captures(items, l, m)[wildcards_before(items, p)] == ((p as usize), ((p + 1) as usize)),
    decreases m,
{
    lemma_captures_shape(items, l, m);
    lemma_wildcards_before_step(items, p);
    lemma_wildcards_mono(items, p + 1, m);
    if p < m - 1 {
        lemma_capture_at(items, l, m - 1, p);
        assert(!(items[m - 1] is Hash));
        match items[m - 1] {
            ItemView::Plus(_) => {
                assert(captures(items, l, m) == captures(items, l, m - 1).push(((m - 1) as usize, m as usize)));
            },
            _ => {
                assert(captures(items, l, m) == captures(items, l, m - 1));
            },
        }
    } else {
        lemma_captures_shape(items, l, m - 1);
        assert(captures(items, l, m) == captures(items, l, m - 1).push(((m - 1) as usize, m as usize)));
    }
}

proof fn lemma_captures_shape(items: Seq<ItemView>, l: int, m: int)
    requires
        0 <= m <= items.len(),
        !has_hash(items),
    ensures
        captures(items, l, m).len() == wildcards_before(items, m),
        forall|p: int|
            #![trigger items[p]]
            0 <= p < m && items[p] is Plus ==> captures(items, l, m)[wildcards_before(items, p)] == ((
            p as usize), ((p + 1) as usize)),
        forall|k: int| 0 <= k < wildcards_before(items, m) ==> #[trigger] numbered_plus(items, m, k),
    decreases m,
{
    if m > 0 {
        lemma_captures_shape(items, l, m - 1);
        assert(!(items[m - 1] is Hash));
        let prev = captures(items, l, m - 1);
        assert forall|p: int| 0 <= p < m && (#[trigger] items[p]) is Plus implies captures(items, l, m)[wildcards_before(items, p)]
            == ((p as usize), ((p + 1) as usize)) by {
            if p < m - 1 {
                lemma_wildcards_mono(items, p + 1, m - 1);
                lemma_wildcards_before_step(items, p);
                assert(wildcards_before(items, p + 1) == wildcards_before(items, p) + 1);
                assert(prev.len() == wildcards_before(items, m - 1));
                assert(0 <= wildcards_before(items, p) < prev.len());
                match items[m - 1] {
                    ItemView::Plus(_) => {
                        assert(captures(items, l, m) == prev.push(((m - 1) as usize, m as usize)));
                    },
                    _ => {
                        assert(captures(items, l, m) == prev);
                    },
                }
            } else {
                assert(p == m - 1);
                assert(captures(items, l, m) == prev.push(((m - 1) as usize, m as usize)));
            }
        }
        assert forall|k: int| 0 <= k < wildcards_before(items, m) implies #[trigger] numbered_plus(items, m, k) by {
            if k == wildcards_before(items, m - 1) {
                assert(items[m - 1] is Plus);
            } else {
                assert(numbered_plus(items, m - 1, k));
            }
        }
    }
}

/// The topic levels fit the pattern items (MQTT filter semantics): a
/// trailing `#` takes any number of remaining levels, possibly none; without
/// it the topic has exactly one level per item. Every item before the
/// trailing `#` is a literal equal to its level or a `+`.
pub open spec fn topic_fits(items: Seq<ItemView>, t: Seq<Seq<char>>) -> bool {
    let n = items.len();
    let ends_hash = n > 0 && items[n - 1] is Hash;
    let fixed = if ends_hash { n - 1 } else { n as int };
    &&& if ends_hash { t.len() >= n - 1 } else { t.len() == n }
    &&& forall|k: int| 0 <= k < fixed ==> !(#[trigger] items[k] is Hash)
    &&& forall|k: int| 0 <= k < fixed ==> ((#[trigger] items[k]) matches ItemView::Lit(e) ==> t[k] == e)
}

spec fn fits_from(items: Seq<ItemView>, t: Seq<Seq<char>>, i: int) -> bool {
    let n = items.len();
    let ends_hash = n > 0 && items[n - 1] is Hash;
    let fixed = if ends_hash { n - 1 } else { n as int };
    &&& if ends_hash { t.len() >= n - 1 } else { t.len() == n }
    &&& forall|k: int| i <= k < fixed ==> !(#[trigger] items[k] is Hash)
    &&& forall|k: int| i <= k < fixed ==> ((#[trigger] items[k]) matches ItemView::Lit(e) ==> t[k] == e)
}

proof fn lemma_match_from_fits(items: Seq<ItemView>, t: Seq<Seq<char>>, i: int)
    requires
        0 <= i <= items.len(),
        i <= t.len(),
        i < items.len() || !(items.len() > 0 && items[items.len() - 1] is Hash),
    ensures
        match_from(items, t, i) is Ok <==> fits_from(items, t, i),
    decreases items.len() - i,
{
    let n = items.len();
    if i < n {
        match items[i] {
            ItemView::Hash(_) => {},
            _ => {
                if i < t.len() {
                    lemma_match_from_fits(items, t, i + 1);
                    if fits_from(items, t, i + 1) && (match items[i] {
                        ItemView::Lit(e) => t[i] == e,
                        _ => true,
                    }) {
                        assert(fits_from(items, t, i));
                    }
                    if fits_from(items, t, i) {
                        assert(fits_from(items, t, i + 1));
                    }
                }
            },
        }
    }
}

/// Matching succeeds exactly when the topic levels fit the pattern items.
pub proof fn lemma_match_iff_fits(items: Seq<ItemView>, t: Seq<Seq<char>>)
    ensures
        match_from(items, t, 0) is Ok <==> topic_fits(items, t),
{
    lemma_match_from_fits(items, t, 0);
    assert(fits_from(items, t, 0) == topic_fits(items, t));
}

/// A topic rendered from a pattern and values (none holding a `/`) matches
/// the pattern, and the `k`-th capture gives back the `k`-th value.
pub proof fn lemma_format_then_match(items: Seq<ItemView>, values: Seq<Seq<char>>)
    requires
        1 <= items.len() <= usize::MAX,
        literals_plain(items),
        values_plain(values),
        format_result(items, values) is Ok,
    ensures
        ({
            let topic = split_levels(format_result(items, values)->Ok_0);
            &&& match_from(items, topic, 0) is Ok
            &&& captures(items, topic.len() as int, items.len() as int).len() == values.len()
            &&& forall|k: int|
                0 <= k < values.len() ==> captured_text(
                    topic,
                    (#[trigger] captures(items, topic.len() as int, items.len() as int)[k]).0 as int,
                    captures(items, topic.len() as int, items.len() as int)[k].1 as int,
                ) == values[k]
        }),
{
    let lv = rendered_levels(items, values);
    let n = items.len() as int;
    assert forall|p: int| 0 <= p < n implies 0 <= wildcards_before(items, p) <= p && wildcards_before(items, p)
        <= wildcards_before(items, n) by {
        lemma_wildcards_before_step(items, p);
        lemma_wildcards_mono(items, p, n);
    }
    assert(no_sep_in_levels(lv)) by {
        assert forall|i: int, j: int| 0 <= i < lv.len() && 0 <= j < lv[i].len() implies lv[i][j] != '/' by {
            match items[i] {
                ItemView::Lit(s) => {
                    assert(items[i] is Lit);
                },
                _ => {
                    if item_is_wildcard(items[i]) {
                        lemma_wildcards_mono(items, i + 1, n);
                    }
                    let k = wildcards_before(items, i);
                    assert(values[k] == lv[i]);
                },
            }
        }
    }
    lemma_split_join(lv);
    let topic = split_levels(format_result(items, values)->Ok_0);
    assert(topic == lv);
    assert(topic.len() == n);
    lemma_match_rendered(items, values, 0);
    lemma_captures_shape(items, n, n);
    assert forall|k: int| 0 <= k < values.len() implies captured_text(
        topic,
        (#[trigger] captures(items, topic.len() as int, items.len() as int)[k]).0 as int,
        captures(items, topic.len() as int, items.len() as int)[k].1 as int,
    ) == values[k] by {
        assert(numbered_plus(items, n, k));
        let p = choose|p: int| 0 <= p < n && #[trigger] items[p] is Plus && wildcards_before(items, p) == k;
        assert(items[p] is Plus);
        assert(0 <= p < n);
        assert(wildcards_before(items, p) == k);
        lemma_capture_at(items, n, n, p);
        assert(captures(items, n, n)[k] == ((p as usize), ((p + 1) as usize)));
        assert((p as usize) as int == p && ((p + 1) as usize) as int == p + 1);
        assert(topic.subrange(p, p + 1) =~= seq![lv[p]]);
        assert(lv[p] == values[k]);
    }
}

/// The template of a parsed pattern is the text it was parsed from, so
/// parsing that template again gives the same items.
pub proof fn lemma_template_roundtrip(p: Seq<char>)
    requires
        pattern_parse(p) is Ok,
    ensures
        template_text(pattern_parse(p)->Ok_0) == p,
        pattern_parse(template_text(pattern_parse(p)->Ok_0)) == pattern_parse(p),
{
    let levels = split_levels(p);
    let items = pattern_parse(p)->Ok_0;
    assert(!blank(p));
    assert(first_where(levels.len() as int, |i: int| parse_item(levels[i]) is None) is None);
    lemma_first_where(levels.len() as int, |i: int| parse_item(levels[i]) is None);
    assert(items == parsed_levels(levels));
    let texts = items.map_values(|it: ItemView| item_template_text(it));
    assert forall|i: int| 0 <= i < levels.len() implies #[trigger] texts[i] == levels[i] by {
        assert(!(|i: int| parse_item(levels[i]) is None)(i));
        assert(parse_item(levels[i]) is Some);
        lemma_parse_template_roundtrip(levels[i]);
    }
    assert(texts =~= levels);
    lemma_join_split(p);
}

/// One binding step: the first `{name}` item becomes the literal value.
spec fn bind_step(items: Seq<ItemView>, b: (Seq<char>, Seq<char>)) -> Seq<ItemView> {
    let cur = items;
    let key = b.0;
    match first_where(cur.len() as int, |i: int| is_named_plus(cur[i], key)) {
        Some(i) => cur.update(i, ItemView::Lit(b.1)),
        None => cur,
    }
}

proof fn lemma_bind_steps_commute(items: Seq<ItemView>, x: (Seq<char>, Seq<char>), y: (Seq<char>, Seq<char>))
    requires
        x.0 != y.0,
    ensures
        bind_step(bind_step(items, x), y) == bind_step(bind_step(items, y), x),
{
    let px = |i: int| is_named_plus(items[i], x.0);
    let py = |i: int| is_named_plus(items[i], y.0);
    let n = items.len() as int;
    lemma_first_where(n, px);
    lemma_first_where(n, py);
    let ix = bind_step(items, x);
    let iy = bind_step(items, y);
    let pxy = |i: int| is_named_plus(iy[i], x.0);
    let pyx = |i: int| is_named_plus(ix[i], y.0);
    assert forall|i: int| 0 <= i < n implies #[trigger] pyx(i) == py(i) by {
        match first_where(n, px) {
            Some(k) => {
                if i == k {
                    assert(!py(k));
                }
            },
            None => {},
        }
    }
    assert forall|i: int| 0 <= i < n implies #[trigger] pxy(i) == px(i) by {
        match first_where(n, py) {
            Some(k) => {
                if i == k {
                    assert(!px(k));
                }
            },
            None => {},
        }
    }
    crate::topic_matcher::lemma_first_where_agrees(n, pyx, py);
    crate::topic_matcher::lemma_first_where_agrees(n, pxy, px);
    match (first_where(n, px), first_where(n, py)) {
        (Some(a), Some(b)) => {
            assert(a != b);
            assert(bind_step(ix, y) =~= bind_step(iy, x));
        },
        _ => {},
    }
}

proof fn lemma_apply_bindings_push(items: Seq<ItemView>, bs: Seq<(Seq<char>, Seq<char>)>, x: (Seq<char>, Seq<char>))
    ensures
        apply_bindings(items, bs.push(x)) == bind_step(apply_bindings(items, bs), x),
{
    assert(bs.push(x).drop_last() =~= bs);
}

proof fn lemma_bound_entries_shape(b: Seq<(Seq<char>, Seq<char>)>, name: Seq<char>, value: Seq<char>)
    ensures
        (forall|k: int| 0 <= k < b.len() ==> (#[trigger] b[k]).0 != name) ==> bound_entries(b, name, value)
            == b.push((name, value)),
        forall|k: int|
            0 <= k < b.len() && (#[trigger] b[k]).0 == name && (forall|j: int|
                0 <= j < k ==> (#[trigger] b[j]).0 != name) ==> bound_entries(b, name, value) == b.update(
                k,
                (name, value),
            ),
{
    let f = |k: int| b[k].0 == name;
    lemma_first_where(b.len() as int, f);
    assert((|k: int| b[k].0 == name) =~= f);
    assert forall|k: int|
        0 <= k < b.len() && (#[trigger] b[k]).0 == name && (forall|j: int|
            0 <= j < k ==> (#[trigger] b[j]).0 != name) implies bound_entries(b, name, value) == b.update(
            k,
            (name, value),
        ) by {
        lemma_first_where_is(b.len() as int, f, k);
    }
    if forall|k: int| 0 <= k < b.len() ==> (#[trigger] b[k]).0 != name {
        lemma_first_where_none(b.len() as int, f);
    }
}

/// The position of the first binding of `name` in `b`, if any.
pub open spec fn binding_position(b: Seq<(Seq<char>, Seq<char>)>, name: Seq<char>) -> Option<int> {
    let entries = b;
    let key = name;
    first_where(entries.len() as int, |k: int| entries[k].0 == key)
}

proof fn lemma_binding_position(b: Seq<(Seq<char>, Seq<char>)>, name: Seq<char>)
    ensures
        match binding_position(b, name) {
            Some(k) => 0 <= k < b.len() && b[k].0 == name && forall|j: int|
                0 <= j < k ==> (#[trigger] b[j]).0 != name,
            None => forall|j: int| 0 <= j < b.len() ==> (#[trigger] b[j]).0 != name,
        },
{
    let f = |k: int| b[k].0 == name;
    lemma_first_where(b.len() as int, f);
    assert((|k: int| b[k].0 == name) =~= f);
    assert(binding_position(b, name) == first_where(b.len() as int, f));
    match binding_position(b, name) {
        Some(k) => {
            assert forall|j: int| 0 <= j < k implies (#[trigger] b[j]).0 != name by {
                assert(!f(j));
            }
        },
        None => {
            assert forall|j: int| 0 <= j < b.len() implies (#[trigger] b[j]).0 != name by {
                assert(!f(j));
            }
        },
    }
}

/// Binding two different parameters gives the same effective pattern in
/// either order.
pub proof fn lemma_bind_order_independent(
    p: PatternView,
    a: Seq<char>,
    va: Seq<char>,
    b: Seq<char>,
    vb: Seq<char>,
)
    requires
        a != b,
    ensures
        (PatternView {
            bindings: Some(bind_entry(Some(bind_entry(p.bindings, a, va)), b, vb)),
            ..p
        }).effective_items() == (PatternView {
            bindings: Some(bind_entry(Some(bind_entry(p.bindings, b, vb)), a, va)),
            ..p
        }).effective_items(),
{
    let bs = match p.bindings {
        Some(x) => x,
        None => Seq::empty(),
    };
    let n = bs.len() as int;
    lemma_binding_position(bs, a);
    lemma_binding_position(bs, b);
    lemma_bound_entries_shape(bs, a, va);
    lemma_bound_entries_shape(bs, b, vb);
    let s1 = bound_entries(bs, a, va);
    let s2 = bound_entries(bs, b, vb);
    lemma_bound_entries_shape(s1, b, vb);
    lemma_bound_entries_shape(s2, a, va);
    let ab = bound_entries(s1, b, vb);
    let ba = bound_entries(s2, a, va);
    assert(bind_entry(Some(bind_entry(p.bindings, a, va)), b, vb) == ab);
    assert(bind_entry(Some(bind_entry(p.bindings, b, vb)), a, va) == ba);
    match (binding_position(bs, a), binding_position(bs, b)) {
        (None, None) => {
            assert(s1 == bs.push((a, va)));
            assert(s2 == bs.push((b, vb)));
            assert forall|k: int| 0 <= k < s1.len() implies (#[trigger] s1[k]).0 != b by {
                if k < n {
                    assert(s1[k] == bs[k]);
                }
            }
            assert forall|k: int| 0 <= k < s2.len() implies (#[trigger] s2[k]).0 != a by {
                if k < n {
                    assert(s2[k] == bs[k]);
                }
            }
            assert(ab == bs.push((a, va)).push((b, vb)));
            assert(ba == bs.push((b, vb)).push((a, va)));
            lemma_apply_bindings_push(p.items, bs.push((a, va)), (b, vb));
            lemma_apply_bindings_push(p.items, bs, (a, va));
            lemma_apply_bindings_push(p.items, bs.push((b, vb)), (a, va));
            lemma_apply_bindings_push(p.items, bs, (b, vb));
            lemma_bind_steps_commute(apply_bindings(p.items, bs), (a, va), (b, vb));
        },
        (Some(i), None) => {
            assert(s1 == bs.update(i, (a, va)));
            assert(s2 == bs.push((b, vb)));
            assert forall|k: int| 0 <= k < s1.len() implies (#[trigger] s1[k]).0 != b by {
                assert(k == i || s1[k] == bs[k]);
            }
            assert(s2[i] == bs[i]);
            assert forall|j: int| 0 <= j < i implies (#[trigger] s2[j]).0 != a by {
                assert(s2[j] == bs[j]);
            }
            assert(ab =~= ba);
        },
        (None, Some(j)) => {
            assert(s1 == bs.push((a, va)));
            assert(s2 == bs.update(j, (b, vb)));
            assert forall|k: int| 0 <= k < s2.len() implies (#[trigger] s2[k]).0 != a by {
                assert(k == j || s2[k] == bs[k]);
            }
            assert(s1[j] == bs[j]);
            assert forall|k: int| 0 <= k < j implies (#[trigger] s1[k]).0 != b by {
                assert(s1[k] == bs[k]);
            }
            assert(ab =~= ba);
        },
        (Some(i), Some(j)) => {
            assert(i != j);
            assert(s1 == bs.update(i, (a, va)));
            assert(s2 == bs.update(j, (b, vb)));
            assert(s1[j] == bs[j]);
            assert(s2[i] == bs[i]);
            assert forall|k: int| 0 <= k < j implies (#[trigger] s1[k]).0 != b by {
                assert(k == i || s1[k] == bs[k]);
            }
            assert forall|k: int| 0 <= k < i implies (#[trigger] s2[k]).0 != a by {
                assert(k == j || s2[k] == bs[k]);
            }
            assert(ab =~= ba);
        },
    }
}

} // verus!
