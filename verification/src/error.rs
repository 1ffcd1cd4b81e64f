//! The composite error type of the topic modules, their result aliases,
//! limits and validation helpers.
use vstd::prelude::*;

use crate::text::append_chars;
use crate::topic_matcher::{matcher_error_message, MatcherErrorView, TopicMatcherError};
use crate::topic_pattern_item::{pattern_error_message, PatternErrorView, TopicPatternError};
use crate::topic_pattern_path::{format_error_message, FormatErrorView, TopicFormatError};
use crate::topic_router::{router_error_message, RouterErrorView, TopicRouterError};

pub mod limits;
pub mod validation;

verus! {

/// Every error that the topic operations can raise.
#[derive(Debug, Clone, PartialEq, Eq)]
pub enum TopicError {
    /// Topic pattern parsing or validation error.
    Pattern(TopicPatternError),
    /// Topic formatting error when substituting parameters.
    Format(TopicFormatError),
    /// Topic matching operation error.
    Matcher(TopicMatcherError),
    /// Topic routing operation error.
    Router(TopicRouterError),
}

/// The mathematical content of a [`TopicError`].
pub enum TopicErrorView {
    Pattern(PatternErrorView),
    Format(FormatErrorView),
    Matcher(MatcherErrorView),
    Router(RouterErrorView),
}

impl View for TopicError {
    type V = TopicErrorView;

    open spec fn view(&self) -> TopicErrorView {
        match self {
            TopicError::Pattern(e) => TopicErrorView::Pattern(e@),
            TopicError::Format(e) => TopicErrorView::Format(e@),
            TopicError::Matcher(e) => TopicErrorView::Matcher(e@),
            TopicError::Router(e) => TopicErrorView::Router(e@),
        }
    }
}

/// The text of [`TopicError::message`].
pub open spec fn topic_error_message(e: TopicErrorView) -> Seq<char> {
    match e {
        TopicErrorView::Pattern(p) => "Topic pattern error: "@ + pattern_error_message(p),
        TopicErrorView::Format(f) => "Topic format error: "@ + format_error_message(f),
        TopicErrorView::Matcher(m) => "Topic matcher error: "@ + matcher_error_message(m),
        TopicErrorView::Router(r) => "Topic router error: "@ + router_error_message(r),
    }
}

impl TopicError {
    /// Human-readable description of the error.
    pub fn message(&self) -> (s: String)
        ensures
            s@ == topic_error_message(self@),
    {
        let mut s = String::new();
        match self {
            TopicError::Pattern(e) => {
                append_chars(&mut s, "Topic pattern error: ");
                let m = e.message();
                append_chars(&mut s, m.as_str());
            },
            TopicError::Format(e) => {
                append_chars(&mut s, "Topic format error: ");
                let m = e.message();
                append_chars(&mut s, m.as_str());
            },
            TopicError::Matcher(e) => {
                append_chars(&mut s, "Topic matcher error: ");
                let m = e.message();
                append_chars(&mut s, m.as_str());
            },
            TopicError::Router(e) => {
                append_chars(&mut s, "Topic router error: ");
                let m = e.message();
                append_chars(&mut s, m.as_str());
            },
        }
        s
    }
}

impl From<TopicPatternError> for TopicError {
    fn from(e: TopicPatternError) -> (r: TopicError) {
        TopicError::Pattern(e)
    }
}

impl vstd::std_specs::convert::FromSpecImpl<TopicPatternError> for TopicError {
    open spec fn obeys_from_spec() -> bool {
        true
    }

    open spec fn from_spec(v: TopicPatternError) -> TopicError {
        TopicError::Pattern(v)
    }
}

impl From<TopicFormatError> for TopicError {
    fn from(e: TopicFormatError) -> (r: TopicError) {
        TopicError::Format(e)
    }
}

impl vstd::std_specs::convert::FromSpecImpl<TopicFormatError> for TopicError {
    open spec fn obeys_from_spec() -> bool {
        true
    }

    open spec fn from_spec(v: TopicFormatError) -> TopicError {
        TopicError::Format(v)
    }
}

impl From<TopicMatcherError> for TopicError {
    fn from(e: TopicMatcherError) -> (r: TopicError) {
        TopicError::Matcher(e)
    }
}

impl vstd::std_specs::convert::FromSpecImpl<TopicMatcherError> for TopicError {
    open spec fn obeys_from_spec() -> bool {
        true
    }

    open spec fn from_spec(v: TopicMatcherError) -> TopicError {
        TopicError::Matcher(v)
    }
}

impl From<TopicRouterError> for TopicError {
    fn from(e: TopicRouterError) -> (r: TopicError) {
        TopicError::Router(e)
    }
}

impl vstd::std_specs::convert::FromSpecImpl<TopicRouterError> for TopicError {
    open spec fn obeys_from_spec() -> bool {
        true
    }

    open spec fn from_spec(v: TopicRouterError) -> TopicError {
        TopicError::Router(v)
    }
}

/// Result of a topic operation.
pub type TopicResult<T> = Result<T, TopicError>;

/// Result of a pattern operation.
pub type PatternResult<T> = Result<T, TopicPatternError>;

/// Result of a matcher operation.
pub type MatcherResult<T> = Result<T, TopicMatcherError>;

/// Result of a router operation.
pub type RouterResult<T> = Result<T, TopicRouterError>;

} // verus!
