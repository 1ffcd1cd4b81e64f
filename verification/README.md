# mqtt_topic_engine

Parsing, matching and routing of MQTT topics and topic patterns, written in
Verus: the functions of the library carry contracts that Verus proves. The
exceptions are the small wrappers around outside code (`String::push`, `char`
case conversion, `rumqttc`'s `QoS`, and `smallvec::SmallVec` operations),
marked `#[verifier::external_body]`: their contracts are assumed, and each
one's doc comment says what it claims of the code it calls.

- `src/topic_pattern_item.rs`, `src/topic_pattern_path.rs`: topic patterns
  (`sensors/{id}/+/#`), parameter binding, rendering topics from values and
  matching topics against patterns.
- `src/topic_match.rs`: topic paths and the captures of a match.
- `src/topic_matcher.rs`: the subscription tree, with lookups proved against
  MQTT filter semantics.
- `src/topic_router.rs`: subscriptions by id with their `QoS`, and the broker
  action owed after each unsubscribe.
- `src/qos.rs`, `src/cache_strategy.rs`, `src/error.rs`: `QoS` levels and
  their conversion to the `rumqttc` client type, cache configuration, errors
  and limits.
- `src/macros/`: the decisions of the `mqtt_topic` attribute macro taken on
  plain values (argument checks, struct analysis, naming, generation plans).
- `app/`: ordinary Rust around the library: error types with `Display`,
  build information, and the `syn`/`quote` side of the attribute macro.
- `tests/`: behaviour tests run against the compiled library.
