//! One level of a topic pattern: a literal, a `+` or a `#` wildcard, the
//! wildcards optionally named (`{name}` and `{name:#}`).
use vstd::prelude::*;

use crate::text::{append_chars, copy_string, push_char, str_to_chars, string_from_chars};

verus! {

/// Errors raised while parsing or validating a topic pattern.
#[derive(Debug, Clone, PartialEq, Eq)]
pub enum TopicPatternError {
    /// The pattern is empty or only whitespace.
    EmptyTopic,
    /// A wildcard is written wrongly, or a parameter is unknown or repeated.
    WildcardUsage {
        /// The offending text.
        usage: String,
    },
    /// A `#` wildcard stands before the last level.
    HashPosition {
        /// The whole pattern.
        pattern: String,
    },
    /// Two patterns do not carry the same wildcards.
    PatternMismatch {
        /// The reference pattern.
        expected: String,
        /// The candidate pattern.
        found: String,
    },
}

/// The mathematical content of a [`TopicPatternError`].
pub enum PatternErrorView {
    EmptyTopic,
    WildcardUsage(Seq<char>),
    HashPosition(Seq<char>),
    PatternMismatch(Seq<char>, Seq<char>),
}

impl View for TopicPatternError {
    type V = PatternErrorView;

    open spec fn view(&self) -> PatternErrorView {
        match self {
            TopicPatternError::EmptyTopic => PatternErrorView::EmptyTopic,
            TopicPatternError::WildcardUsage { usage } => PatternErrorView::WildcardUsage(usage@),
            TopicPatternError::HashPosition { pattern } => PatternErrorView::HashPosition(pattern@),
            TopicPatternError::PatternMismatch { expected, found } => PatternErrorView::PatternMismatch(
                expected@,
                found@,
            ),
        }
    }
}

impl TopicPatternError {
    /// Creates a `WildcardUsage` error.
    pub fn wildcard_usage(usage: String) -> (e: Self)
        ensures
            e@ == PatternErrorView::WildcardUsage(usage@),
    {
        TopicPatternError::WildcardUsage { usage }
    }

    /// Creates a `HashPosition` error.
    pub fn hash_position(pattern: String) -> (e: Self)
        ensures
            e@ == PatternErrorView::HashPosition(pattern@),
    {
        TopicPatternError::HashPosition { pattern }
    }

    /// Creates a `PatternMismatch` error.
    pub fn pattern_mismatch(expected: String, found: String) -> (e: Self)
        ensures
            e@ == PatternErrorView::PatternMismatch(expected@, found@),
    {
        TopicPatternError::PatternMismatch { expected, found }
    }

    /// Human-readable description of the error.
    pub fn message(&self) -> (s: String)
        ensures
            s@ == pattern_error_message(self@),
    {
        let mut s = String::new();
        match self {
            TopicPatternError::EmptyTopic => {
                s.append("Topic pattern cannot be empty");
            },
            TopicPatternError::WildcardUsage { usage } => {
                s.append("Invalid wildcard usage: ");
                s.append(usage.as_str());
            },
            TopicPatternError::HashPosition { pattern } => {
                s.append("Hash wildcard (#) must be the last segment in pattern: ");
                s.append(pattern.as_str());
            },
            TopicPatternError::PatternMismatch { expected, found } => {
                s.append("Pattern '");
                s.append(found.as_str());
                s.append("' is not compatible with '");
                s.append(expected.as_str());
                s.append("'");
            },
        }
        s
    }
}

/// The text of [`TopicPatternError::message`].
pub open spec fn pattern_error_message(e: PatternErrorView) -> Seq<char> {
    match e {
        PatternErrorView::EmptyTopic => "Topic pattern cannot be empty"@,
        PatternErrorView::WildcardUsage(u) => "Invalid wildcard usage: "@ + u,
        PatternErrorView::HashPosition(p) => "Hash wildcard (#) must be the last segment in pattern: "@ + p,
        PatternErrorView::PatternMismatch(a, b) => "Pattern '"@ + b + "' is not compatible with '"@ + a
            + "'"@,
    }
}

/// One level of a topic pattern.
#[derive(Debug, Clone, PartialEq, Eq, Hash)]
pub enum TopicPatternItem {
    /// A literal level, matched exactly.
    Str(String),
    /// `+` (or `{name}`): exactly one level.
    Plus(Option<String>),
    /// `#` (or `{name:#}`): the remaining levels, possibly none.
    Hash(Option<String>),
}

/// The mathematical content of a [`TopicPatternItem`].
pub enum ItemView {
    Lit(Seq<char>),
    Plus(Option<Seq<char>>),
    Hash(Option<Seq<char>>),
}

pub open spec fn opt_view(o: Option<String>) -> Option<Seq<char>> {
    match o {
        Some(s) => Some(s@),
        None => None,
    }
}

impl View for TopicPatternItem {
    type V = ItemView;

    open spec fn view(&self) -> ItemView {
        match self {
            TopicPatternItem::Str(s) => ItemView::Lit(s@),
            TopicPatternItem::Plus(n) => ItemView::Plus(opt_view(*n)),
            TopicPatternItem::Hash(n) => ItemView::Hash(opt_view(*n)),
        }
    }
}

/// `c` is `+` or `#`.
pub open spec fn is_wildcard_char(c: char) -> bool {
    c == '+' || c == '#'
}

/// Some character of `s` is `+` or `#`.
pub open spec fn has_wildcard_char(s: Seq<char>) -> bool {
    exists|i: int| 0 <= i < s.len() && is_wildcard_char(#[trigger] s[i])
}

/// Some character of `s` is a brace.
pub open spec fn has_brace(s: Seq<char>) -> bool {
    exists|i: int| 0 <= i < s.len() && (#[trigger] s[i] == '{' || s[i] == '}')
}

/// `s` reads `{...}` with no brace inside.
pub open spec fn is_braced(s: Seq<char>) -> bool {
    &&& s.len() >= 2
    &&& s[0] == '{'
    &&& s[s.len() - 1] == '}'
    &&& !has_brace(s.subrange(1, s.len() - 1))
}

/// `inner` ends with the `:#` marker of a named `#` wildcard.
pub open spec fn ends_with_hash_marker(inner: Seq<char>) -> bool {
    inner.len() >= 2 && inner[inner.len() - 2] == ':' && inner[inner.len() - 1] == '#'
}

/// The item that a level of a pattern stands for; `None` when the level is
/// malformed (the error then quotes the level).
pub open spec fn parse_item(s: Seq<char>) -> Option<ItemView> {
    if s == seq!['+'] {
        Some(ItemView::Plus(None))
    } else if s == seq!['#'] {
        Some(ItemView::Hash(None))
    } else if is_braced(s) {
        let inner = s.subrange(1, s.len() - 1);
        if ends_with_hash_marker(inner) {
            let name = inner.subrange(0, inner.len() - 2);
            if name.len() == 0 || has_wildcard_char(name) {
                None
            } else {
                Some(ItemView::Hash(Some(name)))
            }
        } else if inner.len() == 0 || has_wildcard_char(inner) {
            None
        } else {
            Some(ItemView::Plus(Some(inner)))
        }
    } else if has_wildcard_char(s) {
        None
    } else {
        Some(ItemView::Lit(s))
    }
}

/// The level as sent to a broker: wildcards lose their names.
pub open spec fn item_mqtt_text(i: ItemView) -> Seq<char> {
    match i {
        ItemView::Lit(s) => s,
        ItemView::Plus(_) => seq!['+'],
        ItemView::Hash(_) => seq!['#'],
    }
}

/// The level as written in a template: named wildcards keep their braces.
pub open spec fn item_template_text(i: ItemView) -> Seq<char> {
    match i {
        ItemView::Lit(s) => s,
        ItemView::Plus(None) => seq!['+'],
        ItemView::Hash(None) => seq!['#'],
        ItemView::Plus(Some(n)) => seq!['{'] + n + seq!['}'],
        ItemView::Hash(Some(n)) => seq!['{'] + n + seq![':', '#', '}'],
    }
}

pub open spec fn item_is_wildcard(i: ItemView) -> bool {
    !(i is Lit)
}

pub open spec fn item_name(i: ItemView) -> Option<Seq<char>> {
    match i {
        ItemView::Lit(_) => None,
        ItemView::Plus(n) => n,
        ItemView::Hash(n) => n,
    }
}

/// Parsing the template text of a parsed item gives the item back.
pub proof fn lemma_parse_template_roundtrip(s: Seq<char>)
    requires
        parse_item(s) is Some,
    ensures
        item_template_text(parse_item(s)->0) == s,
{
    if s == seq!['+'] || s == seq!['#'] {
    } else if is_braced(s) {
        let inner = s.subrange(1, s.len() - 1);
        if ends_with_hash_marker(inner) {
            let name = inner.subrange(0, inner.len() - 2);
            assert(seq!['{'] + name + seq![':', '#', '}'] =~= s);
        } else {
            assert(seq!['{'] + inner + seq!['}'] =~= s);
        }
    }
}

fn find_wildcard_char(s: &[char], from: usize, to: usize) -> (r: bool)
    requires
        from <= to <= s.len(),
    ensures
        r == has_wildcard_char(s@.subrange(from as int, to as int)),
{
    let mut i = from;
    while i < to
        invariant
            from <= i <= to <= s.len(),
            forall|j: int| from <= j < i ==> !is_wildcard_char(s@[j]),
        decreases to - i,
    {
        if s[i] == '+' || s[i] == '#' {
            assert(s@.subrange(from as int, to as int)[i - from] == s@[i as int]);
            return true;
        }
        i += 1;
    }
    assert forall|j: int| 0 <= j < to - from implies !is_wildcard_char(
        #[trigger] s@.subrange(from as int, to as int)[j],
    ) by {
        assert(s@.subrange(from as int, to as int)[j] == s@[from + j]);
    }
    false
}

fn find_brace(s: &[char], from: usize, to: usize) -> (r: bool)
    requires
        from <= to <= s.len(),
    ensures
        r == has_brace(s@.subrange(from as int, to as int)),
{
    let mut i = from;
    while i < to
        invariant
            from <= i <= to <= s.len(),
            forall|j: int| from <= j < i ==> s@[j] != '{' && s@[j] != '}',
        decreases to - i,
    {
        if s[i] == '{' || s[i] == '}' {
            assert(s@.subrange(from as int, to as int)[i - from] == s@[i as int]);
            return true;
        }
        i += 1;
    }
    assert forall|j: int| 0 <= j < to - from implies !(#[trigger] s@.subrange(
        from as int,
        to as int,
    )[j] == '{' || s@.subrange(from as int, to as int)[j] == '}') by {
        assert(s@.subrange(from as int, to as int)[j] == s@[from + j]);
    }
    false
}

fn sub_string(s: &[char], from: usize, to: usize) -> (r: String)
    requires
        from <= to <= s.len(),
    ensures
        r@ == s@.subrange(from as int, to as int),
{
    let mut r = String::new();
    let mut i = from;
    while i < to
        invariant
            from <= i <= to <= s.len(),
            r@ == s@.subrange(from as int, i as int),
        decreases to - i,
    {
        push_char(&mut r, s[i]);
        i += 1;
        assert(r@ =~= s@.subrange(from as int, i as int));
    }
    r
}

/// Parses one level given as characters.
pub fn parse_item_chars(s: &[char]) -> (r: Result<TopicPatternItem, TopicPatternError>)
    ensures
        match r {
            Ok(item) => parse_item(s@) == Some(item@),
            Err(e) => parse_item(s@) is None && e@ == PatternErrorView::WildcardUsage(s@),
        },
{
    let n = s.len();
    if n == 1 && s[0] == '+' {
        assert(s@ =~= seq!['+']);
        return Ok(TopicPatternItem::Plus(None));
    }
    if n == 1 && s[0] == '#' {
        assert(s@ =~= seq!['#']);
        return Ok(TopicPatternItem::Hash(None));
    }
    assert(s@ != seq!['+'] && s@ != seq!['#']) by {
        if s@ == seq!['+'] || s@ == seq!['#'] {
            assert(s@.len() == 1);
        }
    }
    let braced = n >= 2 && s[0] == '{' && s[n - 1] == '}' && !find_brace(s, 1, n - 1);
    if braced {
        let ghost inner = s@.subrange(1, n - 1);
        if n >= 4 && s[n - 3] == ':' && s[n - 2] == '#' {
            assert(inner[inner.len() - 2] == s@[n - 3]);
            assert(inner[inner.len() - 1] == s@[n - 2]);
            assert(inner.subrange(0, inner.len() - 2) =~= s@.subrange(1, n - 3));
            if n == 4 || find_wildcard_char(s, 1, n - 3) {
                return Err(TopicPatternError::wildcard_usage(string_from_chars(s)));
            }
            return Ok(TopicPatternItem::Hash(Some(sub_string(s, 1, n - 3))));
        }
        assert(!ends_with_hash_marker(inner)) by {
            if ends_with_hash_marker(inner) {
                assert(inner[inner.len() - 2] == s@[n - 3]);
                assert(inner[inner.len() - 1] == s@[n - 2]);
            }
        }
        if n == 2 || find_wildcard_char(s, 1, n - 1) {
            return Err(TopicPatternError::wildcard_usage(string_from_chars(s)));
        }
        return Ok(TopicPatternItem::Plus(Some(sub_string(s, 1, n - 1))));
    }
    if find_wildcard_char(s, 0, n) {
        assert(s@.subrange(0, n as int) =~= s@);
        return Err(TopicPatternError::wildcard_usage(string_from_chars(s)));
    }
    assert(s@.subrange(0, n as int) =~= s@);
    Ok(TopicPatternItem::Str(string_from_chars(s)))
}

/// Copies an optional name.
fn copy_name(n: &Option<String>) -> (r: Option<String>)
    ensures
        opt_view(r) == opt_view(*n),
{
    match n {
        Some(s) => Some(copy_string(s)),
        None => None,
    }
}

impl TopicPatternItem {
    /// Parses one level of a pattern.
    pub fn parse(segment: &str) -> (r: Result<TopicPatternItem, TopicPatternError>)
        ensures
            match r {
                Ok(item) => parse_item(segment@) == Some(item@),
                Err(e) => parse_item(segment@) is None && e@ == PatternErrorView::WildcardUsage(
                    segment@,
                ),
            },
    {
        let chars = str_to_chars(segment);
        parse_item_chars(chars.as_slice())
    }

    /// A copy with the same content.
    pub fn duplicate(&self) -> (r: Self)
        ensures
            r@ == self@,
    {
        match self {
            TopicPatternItem::Str(s) => TopicPatternItem::Str(copy_string(s)),
            TopicPatternItem::Plus(n) => TopicPatternItem::Plus(copy_name(n)),
            TopicPatternItem::Hash(n) => TopicPatternItem::Hash(copy_name(n)),
        }
    }

    /// The level as sent to a broker (`+` and `#` for wildcards).
    pub fn as_str(&self) -> (r: &str)
        ensures
            r@ == item_mqtt_text(self@),
    {
        match self {
            TopicPatternItem::Str(s) => s.as_str(),
            TopicPatternItem::Plus(_) => {
                proof {
                    reveal_strlit("+");
                }
                "+"
            },
            TopicPatternItem::Hash(_) => {
                proof {
                    reveal_strlit("#");
                }
                "#"
            },
        }
    }

    /// The level as written in a template (`{name}`, `{name:#}`).
    pub fn as_wildcard(&self) -> (r: String)
        ensures
            r@ == item_template_text(self@),
    {
        let mut r = String::new();
        match self {
            TopicPatternItem::Str(s) => {
                r.append(s.as_str());
            },
            TopicPatternItem::Plus(None) => {
                push_char(&mut r, '+');
            },
            TopicPatternItem::Hash(None) => {
                push_char(&mut r, '#');
            },
            TopicPatternItem::Plus(Some(n)) => {
                push_char(&mut r, '{');
                r.append(n.as_str());
                push_char(&mut r, '}');
            },
            TopicPatternItem::Hash(Some(n)) => {
                push_char(&mut r, '{');
                r.append(n.as_str());
                push_char(&mut r, ':');
                push_char(&mut r, '#');
                push_char(&mut r, '}');
            },
        }
        assert(r@ =~= item_template_text(self@));
        r
    }

    /// The name of a named wildcard.
    pub fn param_name(&self) -> (r: Option<&String>)
        ensures
            match r {
                Some(n) => item_name(self@) == Some(n@),
                None => item_name(self@) is None,
            },
    {
        match self {
            TopicPatternItem::Str(_) => None,
            TopicPatternItem::Plus(n) => n.as_ref(),
            TopicPatternItem::Hash(n) => n.as_ref(),
        }
    }

    /// `true` for `+` and `#`, named or not.
    pub fn is_wildcard(&self) -> (r: bool)
        ensures
            r == item_is_wildcard(self@),
    {
        match self {
            TopicPatternItem::Str(_) => false,
            _ => true,
        }
    }

    /// The level as sent to a broker, owned.
    pub fn to_string(&self) -> (r: String)
        ensures
            r@ == item_mqtt_text(self@),
    {
        let mut r = String::new();
        r.append(self.as_str());
        r
    }
}

impl vstd::std_specs::convert::TryFromSpecImpl<&str> for TopicPatternItem {
    open spec fn obeys_try_from_spec() -> bool {
        false
    }

    open spec fn try_from_spec(v: &str) -> Result<Self, Self::Error> {
        arbitrary()
    }
}

impl TryFrom<&str> for TopicPatternItem {
    type Error = TopicPatternError;

    /// Parses one level of a pattern, as [`TopicPatternItem::parse`] does.
    fn try_from(value: &str) -> (r: Result<Self, Self::Error>)
        ensures
            match r {
                Ok(item) => parse_item(value@) == Some(item@),
                Err(e) => parse_item(value@) is None && e@ == PatternErrorView::WildcardUsage(value@),
            },
    {
        Self::parse(value)
    }
}

} // verus!
