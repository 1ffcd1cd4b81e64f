use std::collections::HashSet;
use std::sync::Arc;

use rumqttc::mqttbytes::QoS as ClientQoS;

use mqtt_topic_engine::error::validation::{validate_pattern_for_subscription, validate_topic_path};
use mqtt_topic_engine::topic_matcher::TopicMatcherNode;
use mqtt_topic_engine::topic_router::UnsubscribeAction;
use mqtt_topic_engine::{
    CacheStrategy, QoS, SubscriptionId, TopicError, TopicFormatError, TopicMatcherError, TopicPath, TopicPatternError,
    TopicPatternItem, TopicPatternPath, TopicRouter, TopicRouterError,
};

fn pattern(p: &str) -> TopicPatternPath {
    TopicPatternPath::new_from_string(p, CacheStrategy::NoCache).unwrap()
}

#[test]
fn qos_levels_and_names() {
    assert_eq!(QoS::AtMostOnce.level(), 0);
    assert_eq!(QoS::AtLeastOnce.level(), 1);
    assert_eq!(QoS::ExactlyOnce.level(), 2);
    assert_eq!(QoS::from_level(1), Some(QoS::AtLeastOnce));
    assert_eq!(QoS::from_level(3), None);
    assert_eq!(QoS::ExactlyOnce.to_string(), "QoS2");
    assert!(QoS::AtMostOnce < QoS::ExactlyOnce);
}

#[test]
fn qos_converts_to_and_from_the_client_type() {
    assert_eq!(QoS::AtMostOnce.to_rumqttc(), ClientQoS::AtMostOnce);
    assert_eq!(QoS::AtLeastOnce.to_rumqttc(), ClientQoS::AtLeastOnce);
    assert_eq!(QoS::ExactlyOnce.to_rumqttc(), ClientQoS::ExactlyOnce);
    assert_eq!(QoS::from(ClientQoS::ExactlyOnce), QoS::ExactlyOnce);
    assert_eq!(QoS::from(ClientQoS::AtMostOnce), QoS::AtMostOnce);
    for q in [QoS::AtMostOnce, QoS::AtLeastOnce, QoS::ExactlyOnce] {
        assert_eq!(QoS::from(q.to_rumqttc()), q);
    }
}

#[test]
fn format_then_match_gives_the_values_back() {
    let p = pattern("sensors/{id}/+/data");
    let topic = p.format_topic(&["7", "kitchen"]).unwrap();
    assert_eq!(topic, "sensors/7/kitchen/data");
    let m = p.try_match_str(&topic).unwrap();
    assert_eq!(m.get_param(0), Some("7".to_string()));
    assert_eq!(m.get_param(1), Some("kitchen".to_string()));
    assert_eq!(m.get_param(2), None);
    assert_eq!(m.get_named_param("id"), Some("7".to_string()));
    assert_eq!(m.get_named_param("room"), None);
    assert_eq!(m.to_string(), "Match(sensors/7/kitchen/data) with 2 params");
    assert_eq!(m.topic_path(), "sensors/7/kitchen/data");
}

#[test]
fn format_topic_errors() {
    let p = pattern("a/+/b/+");
    assert_eq!(
        p.format_topic(&["x"]).unwrap_err(),
        TopicFormatError::ParameterCountMismatch { expected: 2, provided: 1 }
    );
    assert_eq!(
        TopicFormatError::ParameterCountMismatch { expected: 2, provided: 1 }.message(),
        "Parameter count mismatch: expected 2, provided 1"
    );
    let h = pattern("logs/+/#");
    assert_eq!(h.format_topic(&["x", "y"]).unwrap_err(), TopicFormatError::HashWildcardNotSupported);
    assert_eq!(pattern("plain/topic").format_topic(&[]).unwrap(), "plain/topic");
}

#[test]
fn hash_captures_the_remaining_levels() {
    let p = pattern("logs/{service}/{rest:#}");
    let m = p.try_match_str("logs/auth/error/2024").unwrap();
    assert_eq!(m.get_named_param("service"), Some("auth".to_string()));
    assert_eq!(m.get_named_param("rest"), Some("error/2024".to_string()));
    assert!(p.try_match_str("other/auth").is_err());
    assert!(p.try_match(Arc::new(TopicPath::new("logs/auth"))).is_ok());
}

#[test]
fn template_is_rebuilt_from_the_segments() {
    let p = pattern("a/{x}/+/{y:#}");
    let q = TopicPatternPath::new_from_segments(p.slice()).unwrap();
    assert_eq!(q.topic_pattern(), p.topic_pattern());
    assert_eq!(q.mqtt_pattern(), "a/+/+/#");
    let misplaced = vec![TopicPatternItem::Hash(None), TopicPatternItem::Str("x".to_string())];
    assert_eq!(
        TopicPatternPath::new_from_segments(&misplaced).unwrap_err(),
        TopicPatternError::HashPosition { pattern: "#/x".to_string() }
    );
}

#[test]
fn pattern_compatibility() {
    let p = pattern("sensors/{id}/data");
    let q = p.check_pattern_compatibility("devices/{id}/status").unwrap();
    assert_eq!(q.topic_pattern(), "devices/{id}/status");
    assert_eq!(
        p.check_pattern_compatibility("devices/+/status").unwrap_err(),
        TopicPatternError::PatternMismatch {
            expected: "sensors/{id}/data".to_string(),
            found: "devices/+/status".to_string()
        }
    );
    assert_eq!(p.check_pattern_compatibility("").unwrap_err(), TopicPatternError::EmptyTopic);
}

#[test]
fn repeated_parameter_name_is_refused() {
    assert_eq!(
        TopicPatternPath::new_from_string("a/{x}/{x}", CacheStrategy::NoCache).unwrap_err(),
        TopicPatternError::WildcardUsage { usage: "+".to_string() }
    );
}

#[test]
fn pattern_error_messages() {
    assert_eq!(TopicPatternError::EmptyTopic.message(), "Topic pattern cannot be empty");
    assert_eq!(
        TopicPatternError::hash_position("a/#/b".to_string()).message(),
        "Hash wildcard (#) must be the last segment in pattern: a/#/b"
    );
    let e: TopicError = TopicPatternError::EmptyTopic.into();
    assert_eq!(e.message(), "Topic pattern error: Topic pattern cannot be empty");
}

#[test]
fn topic_path_validation() {
    assert!(validate_topic_path("sensors/kitchen").is_ok());
    assert_eq!(validate_topic_path("").unwrap_err(), TopicMatcherError::EmptyTopicPath);
    let deep = vec!["x"; 33].join("/");
    assert_eq!(validate_topic_path(&deep).unwrap_err(), TopicMatcherError::invalid_segment("depth-33".to_string(), 0));
    assert_eq!(
        validate_topic_path("a/b\0c").unwrap_err(),
        TopicMatcherError::invalid_segment("null-byte-in-b\0c".to_string(), 1)
    );
    assert_eq!(
        validate_topic_path("naïve").unwrap_err(),
        TopicMatcherError::invalid_utf8("Non-ASCII characters in topic path".to_string())
    );
    let long = "a".repeat(1025);
    assert_eq!(
        validate_topic_path(&long).unwrap_err().message(),
        "Topic path contains invalid UTF-8: Topic path too long: 1025 > 1024"
    );
    assert!(validate_pattern_for_subscription("sensors/+/#").is_ok());
    assert_eq!(validate_pattern_for_subscription("   ").unwrap_err(), TopicPatternError::EmptyTopic);
}

#[test]
fn matcher_update_of_missing_route_names_the_level() {
    let mut root = TopicMatcherNode::<HashSet<u32>>::new();
    root.get_or_create_subscription_table(&pattern("a/b")).insert(1);
    let err = root.update_node(pattern("a/c").slice(), |s| {
        s.clear();
    });
    assert_eq!(err.unwrap_err(), TopicMatcherError::invalid_segment("c".to_string(), 0));
    assert!(!root.is_empty());
    assert_eq!(root.update_node(pattern("a/b").slice(), |s| {
        s.remove(&1);
    }), Ok(true));
    assert!(root.is_empty());
}

#[test]
fn router_routes_and_reports_broker_actions() {
    let mut router: TopicRouter<&str> = TopicRouter::new();
    let (first, a) = router.add_subscription(pattern("home/+/temp"), QoS::AtMostOnce, "a");
    assert!(first);
    let (again, b) = router.add_subscription(pattern("home/+/temp"), QoS::AtMostOnce, "b");
    assert!(!again);
    let (upgrade, c) = router.add_subscription(pattern("home/+/temp"), QoS::ExactlyOnce, "c");
    assert!(upgrade);
    let (_, d) = router.add_subscription(pattern("home/#"), QoS::AtLeastOnce, "d");
    assert_ne!(a, b);
    assert_eq!(a.to_string(), "SubscriptionId(0)");
    assert_eq!(d.to_string(), "SubscriptionId(3)");

    let subs = router.get_subscribers(&TopicPath::new("home/kitchen/temp"));
    let payloads: HashSet<&str> = subs.iter().map(|(_, _, p)| **p).collect();
    assert_eq!(payloads, ["a", "b", "c", "d"].into_iter().collect());
    assert!(router.get_subscribers(&TopicPath::new("office/kitchen/temp")).is_empty());

    let mut unsub: Vec<String> = router.get_topics_for_unsubscribe();
    unsub.sort();
    assert_eq!(unsub, vec!["home/#".to_string(), "home/+/temp".to_string()]);
    let mut resub = router.get_topics_for_resubscribe();
    resub.sort_by(|x, y| x.0.cmp(&y.0));
    assert_eq!(resub, vec![("home/#".to_string(), QoS::AtLeastOnce), ("home/+/temp".to_string(), QoS::ExactlyOnce)]);
    assert_eq!(router.get_active_subscriptions().len(), 4);

    match router.unsubscribe(&c).unwrap() {
        UnsubscribeAction::Resubscribe { qos, .. } => assert_eq!(qos, QoS::AtMostOnce),
        action => panic!("expected broker resubscribe, got {action:?}"),
    }
    assert_eq!(router.get_topic_by_id(&c).unwrap_err(), TopicRouterError::subscription_not_found(c));
    assert_eq!(
        TopicRouterError::subscription_not_found(c).message(),
        "Subscription SubscriptionId(2) not found"
    );
    assert_eq!(router.get_topic_by_id(&d).unwrap().1, QoS::AtLeastOnce);

    router.cleanup();
    assert!(router.get_active_subscriptions().is_empty());
    assert!(router.get_subscribers(&TopicPath::new("home/kitchen/temp")).is_empty());
    let (fresh, e) = router.add_subscription(pattern("home/#"), QoS::AtMostOnce, "e");
    assert!(fresh);
    assert_eq!(e.to_string(), "SubscriptionId(0)");
    let _: Option<SubscriptionId> = None;
}

#[test]
fn add_then_unsubscribe_restores_the_subscriptions() {
    let mut router = TopicRouter::new();
    let (_, keep) = router.add_subscription(pattern("a/b"), QoS::AtLeastOnce, 1u8);
    let (_, tmp) = router.add_subscription(pattern("a/{x}"), QoS::AtMostOnce, 2u8);
    match router.unsubscribe(&tmp).unwrap() {
        UnsubscribeAction::Unsubscribe { topic } => assert_eq!(topic.mqtt_pattern(), "a/+"),
        action => panic!("expected broker unsubscribe, got {action:?}"),
    }
    assert_eq!(router.get_active_subscriptions().len(), 1);
    assert!(router.get_topic_by_id(&keep).is_ok());
    let subs = router.get_subscribers(&TopicPath::new("a/b"));
    assert_eq!(subs.len(), 1);
    assert_eq!(*subs[0].2, 1u8);
}

#[test]
fn bound_patterns_route_on_their_values() {
    let mut router = TopicRouter::new();
    let bound = pattern("rooms/{room}/temp").bind_parameter("room", "kitchen").unwrap();
    assert_eq!(bound.mqtt_pattern(), "rooms/kitchen/temp");
    let (_, _id) = router.add_subscription(bound, QoS::AtMostOnce, "k");
    assert_eq!(router.get_subscribers(&TopicPath::new("rooms/kitchen/temp")).len(), 1);
    assert!(router.get_subscribers(&TopicPath::new("rooms/hall/temp")).is_empty());
}

#[test]
fn topic_path_splits_levels() {
    let t = TopicPath::new("a//b/");
    assert_eq!(t.segments, vec!["a".to_string(), String::new(), "b".to_string(), String::new()]);
    assert_eq!(t.path(), "a//b/");
    assert_eq!(t.to_string(), "a//b/");
}

#[test]
fn update_node_reports_emptiness_after_pruning() {
    let mut root = TopicMatcherNode::<HashSet<u32>>::new();
    root.get_or_create_subscription_table(&pattern("sensors/temperature")).insert(1);
    root.get_or_create_subscription_table(&pattern("sensors/humidity")).insert(2);
    root.get_or_create_subscription_table(&pattern("home/#")).insert(3);
    let remove = |p: &str, id: u32, root: &mut TopicMatcherNode<HashSet<u32>>| {
        root.update_node(pattern(p).slice(), |s| {
            s.remove(&id);
        })
    };
    assert_eq!(remove("sensors/temperature", 1, &mut root), Ok(false));
    assert_eq!(remove("sensors/humidity", 2, &mut root), Ok(false));
    assert_eq!(remove("home/#", 3, &mut root), Ok(true));
    assert!(root.is_empty());
    assert!(root.collect_active_subscriptions().is_empty());
}

#[test]
fn string_topic_match_captures_its_own_levels() {
    let p = pattern("+/b");
    let m = p.try_match_str("a/b").unwrap();
    assert_eq!(m.get_param(0), Some("a".to_string()));
    assert_eq!(m.path_segments(), &vec!["a".to_string(), "b".to_string()]);
    let h = pattern("sensors/#");
    assert_eq!(h.try_match_str("sensors/a/b/c").unwrap().get_param(0), Some("a/b/c".to_string()));
    assert_eq!(h.try_match_str("sensors/a/b/c").unwrap().get_param(1), None);
    assert_eq!(h.try_match_str("sensors").unwrap().get_param(0), Some(String::new()));
}
