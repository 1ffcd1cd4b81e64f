[package]
name = "mqtt_topic_engine"
version = "0.1.0"
edition = "2021"
publish = false

[dependencies]
arcstr = "=1.2.0"
smallvec = "=1.16.4"
thiserror = "=2.0.21"
rumqttc = { version = "=0.24.0", default-features = false }
syn = { version = "=2.0.119", features = ["full"] }
quote = "=1.0.47"
proc-macro2 = "=1.0.107"
