//! Parsing, matching and routing of MQTT topics and topic patterns.
pub mod cache_strategy;
pub mod error;
pub mod macros;
pub mod qos;
pub mod text;
pub mod topic_match;
pub mod topic_matcher;
pub mod topic_pattern_item;
pub mod topic_pattern_path;
pub mod topic_router;

pub use cache_strategy::CacheStrategy;
pub use error::{limits, validation, MatcherResult, PatternResult, RouterResult, TopicError, TopicResult};
pub use qos::QoS;
pub use topic_match::{TopicMatch, TopicPath};
pub use topic_matcher::TopicMatcherError;
pub use topic_pattern_item::{TopicPatternError, TopicPatternItem};
pub use topic_pattern_path::{TopicFormatError, TopicPatternPath};
pub use topic_router::{SubscriptionId, TopicRouter, TopicRouterError};
