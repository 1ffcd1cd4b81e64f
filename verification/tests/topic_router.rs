use mqtt_topic_engine::topic_router::UnsubscribeAction;
use mqtt_topic_engine::{CacheStrategy, QoS, TopicPatternPath, TopicRouter, TopicRouterError};

fn pattern(value: &str) -> TopicPatternPath {
    TopicPatternPath::new_from_string(value, CacheStrategy::NoCache).unwrap()
}

fn assert_topic(topic: &TopicPatternPath, expected: &str) {
    assert_eq!(topic.mqtt_pattern().as_str(), expected);
}

#[test]
fn unsubscribe_only_subscriber_requires_broker_unsubscribe() {
    let mut router = TopicRouter::new();
    let (_, id) = router.add_subscription(pattern("sensors/+/data"), QoS::AtLeastOnce, "h1");
    match router.unsubscribe(&id).unwrap() {
        UnsubscribeAction::Unsubscribe { topic } => {
            assert_topic(&topic, "sensors/+/data");
        },
        action => panic!("expected broker unsubscribe, got {action:?}"),
    }
}

#[test]
fn unsubscribe_lower_qos_subscriber_keeps_broker_subscription_unchanged() {
    let mut router = TopicRouter::new();
    let (_, high_id) = router.add_subscription(pattern("sensors/+/data"), QoS::ExactlyOnce, "h1");
    let (_, low_id) = router.add_subscription(pattern("sensors/+/data"), QoS::AtMostOnce, "h2");
    match router.unsubscribe(&low_id).unwrap() {
        UnsubscribeAction::NoBrokerAction { topic } => {
            assert_topic(&topic, "sensors/+/data");
        },
        action => panic!("expected no broker action, got {action:?}"),
    }
    assert!(router.get_topic_by_id(&high_id).is_ok());
}

#[test]
fn unsubscribe_only_high_qos_subscriber_requires_broker_downgrade() {
    let mut router = TopicRouter::new();
    let (_, low_id) = router.add_subscription(pattern("sensors/+/data"), QoS::AtMostOnce, "h1");
    let (_, mid_id) = router.add_subscription(pattern("sensors/+/data"), QoS::AtLeastOnce, "h2");
    let (_, high_id) = router.add_subscription(pattern("sensors/+/data"), QoS::ExactlyOnce, "h3");
    match router.unsubscribe(&high_id).unwrap() {
        UnsubscribeAction::Resubscribe { topic, qos } => {
            assert_topic(&topic, "sensors/+/data");
            assert_eq!(qos, QoS::AtLeastOnce);
        },
        action => panic!("expected broker resubscribe, got {action:?}"),
    }
    assert!(router.get_topic_by_id(&low_id).is_ok());
    assert!(router.get_topic_by_id(&mid_id).is_ok());
}

#[test]
fn unsubscribe_one_of_multiple_high_qos_subscribers_keeps_broker_subscription_unchanged() {
    let mut router = TopicRouter::new();
    let (_, high_id_1) = router.add_subscription(pattern("sensors/+/data"), QoS::ExactlyOnce, "h1");
    let (_, high_id_2) = router.add_subscription(pattern("sensors/+/data"), QoS::ExactlyOnce, "h2");
    let (_, low_id) = router.add_subscription(pattern("sensors/+/data"), QoS::AtMostOnce, "h3");
    match router.unsubscribe(&high_id_1).unwrap() {
        UnsubscribeAction::NoBrokerAction { topic } => {
            assert_topic(&topic, "sensors/+/data");
        },
        action => panic!("expected no broker action, got {action:?}"),
    }
    assert!(router.get_topic_by_id(&high_id_2).is_ok());
    assert!(router.get_topic_by_id(&low_id).is_ok());
}

#[test]
fn unsubscribe_unknown_subscription_returns_not_found() {
    let mut router = TopicRouter::new();
    let (_, id) = router.add_subscription(pattern("sensors/+/data"), QoS::AtMostOnce, "h1");
    router.unsubscribe(&id).unwrap();
    assert_eq!(router.unsubscribe(&id).unwrap_err(), TopicRouterError::subscription_not_found(id));
}

#[test]
fn unsubscribe_empty_pattern_while_other_patterns_exist_unsubscribes_removed_pattern() {
    let mut router = TopicRouter::new();
    let (_, removed_id) = router.add_subscription(pattern("sensors/+/data"), QoS::AtMostOnce, "h1");
    let (_, other_id) = router.add_subscription(pattern("alerts/#"), QoS::AtLeastOnce, "h2");
    match router.unsubscribe(&removed_id).unwrap() {
        UnsubscribeAction::Unsubscribe { topic } => {
            assert_topic(&topic, "sensors/+/data");
        },
        action => panic!("expected broker unsubscribe, got {action:?}"),
    }
    assert!(router.get_topic_by_id(&other_id).is_ok());
}
