//! Topic processing limits.
use vstd::prelude::*;

verus! {

/// Maximum topic nesting depth allowed.
pub const MAX_TOPIC_DEPTH: usize = 32;

/// Maximum length of a single topic level.
pub const MAX_SEGMENT_LENGTH: usize = 256;

/// Maximum total topic path length.
pub const MAX_TOPIC_LENGTH: usize = 1024;

} // verus!
