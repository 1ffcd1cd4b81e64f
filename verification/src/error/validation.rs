//! Validation of topic paths and subscription patterns against the limits.
use vstd::prelude::*;
use vstd::utf8::is_ascii_chars;

use crate::error::limits::{MAX_SEGMENT_LENGTH, MAX_TOPIC_DEPTH, MAX_TOPIC_LENGTH};
use crate::text::{
    append_chars, copy_string, decimal, decimal_string, owned_string, split_levels, split_to_levels,
    str_to_chars,
};
use crate::topic_matcher::{MatcherErrorView, TopicMatcherError};
use crate::topic_pattern_item::{PatternErrorView, TopicPatternError};
use crate::topic_pattern_path::{
    blank, first_where, is_blank, lemma_first_where_is, lemma_first_where_none,
};

verus! {

/// A level that is too long or holds a NUL character.
pub open spec fn bad_level(l: Seq<char>) -> bool {
    l.len() > MAX_SEGMENT_LENGTH || l.contains('\0')
}

/// The verdict on a topic path with characters `p` and UTF-8 length
/// `byte_len`: the first limit it breaks, in the order they are checked.
pub open spec fn topic_path_verdict(p: Seq<char>, byte_len: nat) -> Result<(), MatcherErrorView> {
    let levels = split_levels(p);
    if p.len() == 0 {
        Err(MatcherErrorView::EmptyTopicPath)
    } else if byte_len > MAX_TOPIC_LENGTH {
        Err(
            MatcherErrorView::InvalidUtf8(
                "Topic path too long: "@ + decimal(byte_len) + " > "@ + decimal(MAX_TOPIC_LENGTH as nat),
            ),
        )
    } else if !is_ascii_chars(p) {
        Err(MatcherErrorView::InvalidUtf8("Non-ASCII characters in topic path"@))
    } else if levels.len() > MAX_TOPIC_DEPTH {
        Err(MatcherErrorView::InvalidSegment("depth-"@ + decimal(levels.len()), 0))
    } else {
        match first_where(levels.len() as int, |i: int| bad_level(levels[i])) {
            Some(i) => if levels[i].len() > MAX_SEGMENT_LENGTH {
                Err(MatcherErrorView::InvalidSegment(levels[i], i))
            } else {
                Err(MatcherErrorView::InvalidSegment("null-byte-in-"@ + levels[i], i))
            },
            None => Ok(()),
        }
    }
}

/// The verdict on a subscription pattern: empty or blank, or too deep.
pub open spec fn pattern_verdict(p: Seq<char>) -> Result<(), PatternErrorView> {
    if blank(p) {
        Err(PatternErrorView::EmptyTopic)
    } else if split_levels(p).len() > MAX_TOPIC_DEPTH {
        Err(
            PatternErrorView::WildcardUsage(
                "Pattern too deep: "@ + decimal(split_levels(p).len()) + " segments > "@ + decimal(
                    MAX_TOPIC_DEPTH as nat,
                ),
            ),
        )
    } else {
        Ok(())
    }
}

fn holds_nul(s: &[char]) -> (r: bool)
    ensures
        r == s@.contains('\0'),
{
    let mut i: usize = 0;
    while i < s.len()
        invariant
            i <= s.len(),
            forall|j: int| 0 <= j < i ==> s@[j] != '\0',
        decreases s.len() - i,
    {
        if s[i] == '\0' {
            assert(s@[i as int] == '\0');
            return true;
        }
        i += 1;
    }
    false
}

/// Checks a topic path against the limits: not empty, at most
/// `MAX_TOPIC_LENGTH` bytes, ASCII, at most `MAX_TOPIC_DEPTH` levels, and
/// every level at most `MAX_SEGMENT_LENGTH` long and free of NUL.
pub fn validate_topic_path(path: &str) -> (r: Result<(), TopicMatcherError>)
    ensures
        match topic_path_verdict(path@, path.len() as nat) {
            Ok(_) => r is Ok,
            Err(v) => r is Err && r->Err_0@ == v,
        },
{
    if path.is_empty() {
        return Err(TopicMatcherError::EmptyTopicPath);
    }
    let n = path.len();
    if n > MAX_TOPIC_LENGTH {
        let mut msg = owned_string("Topic path too long: ");
        let a = decimal_string(n);
        append_chars(&mut msg, a.as_str());
        append_chars(&mut msg, " > ");
        let b = decimal_string(MAX_TOPIC_LENGTH);
        append_chars(&mut msg, b.as_str());
        return Err(TopicMatcherError::invalid_utf8(msg));
    }
    if !path.is_ascii() {
        return Err(TopicMatcherError::invalid_utf8(owned_string("Non-ASCII characters in topic path")));
    }
    let levels = split_to_levels(path);
    let ghost lv = split_levels(path@);
    if levels.len() > MAX_TOPIC_DEPTH {
        let mut msg = owned_string("depth-");
        let a = decimal_string(levels.len());
        append_chars(&mut msg, a.as_str());
        return Err(TopicMatcherError::invalid_segment(msg, 0));
    }
    let ghost bad = |i: int| bad_level(lv[i]);
    let mut i: usize = 0;
    while i < levels.len()
        invariant
            i <= levels.len(),
            levels.deep_view() == lv,
            lv == split_levels(path@),
            path@.len() != 0,
            path.len() <= MAX_TOPIC_LENGTH,
            is_ascii_chars(path@),
            lv.len() <= MAX_TOPIC_DEPTH,
            bad == (|i: int| bad_level(lv[i])),
            forall|k: int| 0 <= k < i ==> !(#[trigger] bad(k)),
        decreases levels.len() - i,
    {
        let chars = str_to_chars(levels[i].as_str());
        assert(chars@ == lv[i as int]);
        if chars.len() > MAX_SEGMENT_LENGTH {
            proof {
                lemma_first_where_is(lv.len() as int, bad, i as int);
            }
            return Err(TopicMatcherError::invalid_segment(copy_string(&levels[i]), i));
        }
        if holds_nul(chars.as_slice()) {
            proof {
                lemma_first_where_is(lv.len() as int, bad, i as int);
            }
            let mut msg = owned_string("null-byte-in-");
            append_chars(&mut msg, levels[i].as_str());
            return Err(TopicMatcherError::invalid_segment(msg, i));
        }
        i += 1;
    }
    proof {
        lemma_first_where_none(lv.len() as int, bad);
    }
    Ok(())
}

/// Checks a subscription pattern: not empty or blank, and at most
/// `MAX_TOPIC_DEPTH` levels.
pub fn validate_pattern_for_subscription(pattern: &str) -> (r: Result<(), TopicPatternError>)
    ensures
        match pattern_verdict(pattern@) {
            Ok(_) => r is Ok,
            Err(v) => r is Err && r->Err_0@ == v,
        },
{
    let chars = str_to_chars(pattern);
    if is_blank(chars.as_slice()) {
        return Err(TopicPatternError::EmptyTopic);
    }
    let levels = split_to_levels(pattern);
    if levels.len() > MAX_TOPIC_DEPTH {
        let mut msg = owned_string("Pattern too deep: ");
        let a = decimal_string(levels.len());
        append_chars(&mut msg, a.as_str());
        append_chars(&mut msg, " segments > ");
        let b = decimal_string(MAX_TOPIC_DEPTH);
        append_chars(&mut msg, b.as_str());
        return Err(TopicPatternError::wildcard_usage(msg));
    }
    Ok(())
}

} // verus!
