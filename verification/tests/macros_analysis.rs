use mqtt_topic_engine::macros::analysis::{
    ErrorSpan, FieldShape, PublisherParamType, StructAnalysisContext, TopicParam, TypeShape,
};
use mqtt_topic_engine::{CacheStrategy, TopicPatternPath};

fn create_topic_pattern(pattern: &str) -> TopicPatternPath {
    TopicPatternPath::new_from_string(pattern, CacheStrategy::NoCache).expect("Invalid test pattern")
}

/// A field whose type is a path ending in `last`.
fn field(name: &str, last: &str) -> FieldShape {
    FieldShape { name: name.to_string(), ty: TypeShape { last_segment: Some(last.to_string()), first_argument: None } }
}

/// A field of type `outer<inner>`.
fn generic_field(name: &str, outer: &str, inner: &str) -> FieldShape {
    FieldShape {
        name: name.to_string(),
        ty: TypeShape { last_segment: Some(outer.to_string()), first_argument: Some(inner.to_string()) },
    }
}

fn find<'a>(params: &'a [TopicParam], name: &str) -> Option<&'a TopicParam> {
    params.iter().find(|p| p.name.as_deref() == Some(name))
}

#[test]
fn test_topic_param_methods() {
    let fields = vec![field("count", "u32")];
    let named_param = TopicParam { name: Some("sensor_id".to_string()), wildcard_index: 0, struct_field: None };
    assert_eq!(named_param.get_publisher_param_name(), "sensor_id");

    let anonymous_param = TopicParam { name: None, wildcard_index: 2, struct_field: None };
    assert_eq!(anonymous_param.get_publisher_param_name(), "wildcard_2");

    let typed_param = TopicParam { name: Some("count".to_string()), wildcard_index: 0, struct_field: Some(0) };
    let param_type = typed_param.get_publisher_param_type(&fields);
    assert_eq!(param_type, PublisherParamType::Field(0));
    assert_eq!(fields[0].ty.last_segment.as_deref(), Some("u32"));

    let untyped_param = TopicParam { name: Some("room".to_string()), wildcard_index: 1, struct_field: None };
    assert_eq!(untyped_param.get_publisher_param_type(&fields), PublisherParamType::Str);

    assert!(!named_param.is_anonymous());
    assert!(anonymous_param.is_anonymous());
    assert!(!named_param.is_struct_field());
    assert!(typed_param.is_struct_field());
}

#[test]
fn test_topic_param_build() {
    struct ParamTestCase {
        pattern: &'static str,
        expected_named: Vec<(&'static str, usize)>,
        expected_total_wildcards: usize,
    }
    let test_cases = vec![
        ParamTestCase {
            pattern: "sensors/{sensor_id}/+/{room}/data",
            expected_named: vec![("sensor_id", 0), ("room", 2)],
            expected_total_wildcards: 3,
        },
        ParamTestCase {
            pattern: "home/+/{device_id}/status/#",
            expected_named: vec![("device_id", 1)],
            expected_total_wildcards: 3,
        },
        ParamTestCase { pattern: "simple/+/topic", expected_named: vec![], expected_total_wildcards: 1 },
        ParamTestCase {
            pattern: "{a}/{b}/{c}",
            expected_named: vec![("a", 0), ("b", 1), ("c", 2)],
            expected_total_wildcards: 3,
        },
    ];
    for (i, test_case) in test_cases.into_iter().enumerate() {
        let pattern = create_topic_pattern(test_case.pattern);
        let params = TopicParam::build_topic_params(&pattern, &[]);
        assert_eq!(
            params.len(),
            test_case.expected_total_wildcards,
            "Test case {}: total wildcard count mismatch for pattern '{}'",
            i,
            test_case.pattern
        );
        let named_params: Vec<_> = params.iter().filter(|p| p.name.is_some()).collect();
        assert_eq!(
            named_params.len(),
            test_case.expected_named.len(),
            "Test case {}: named param count mismatch for pattern '{}'",
            i,
            test_case.pattern
        );
        for (expected_name, expected_index) in test_case.expected_named {
            let found_param = find(&params, expected_name);
            assert!(found_param.is_some(), "Test case {i}: missing parameter '{expected_name}'");
            let param = found_param.unwrap();
            assert_eq!(
                param.wildcard_index, expected_index,
                "Test case {i}: wildcard index mismatch for '{expected_name}'"
            );
        }
    }
}

#[test]
fn test_field_type_mapping() {
    let pattern = create_topic_pattern("sensors/{sensor_id}/{room}/data");
    let fields = vec![field("sensor_id", "u32"), field("room", "String"), field("payload", "f64")];
    let context = StructAnalysisContext::analyze(Some(&fields), &pattern).unwrap();

    let sensor_param = find(&context.topic_params, "sensor_id").unwrap();
    assert!(sensor_param.struct_field.is_some());
    let sensor_type = &fields[sensor_param.struct_field.unwrap()].ty;
    assert_eq!(sensor_type.last_segment.as_deref(), Some("u32"));

    let room_param = find(&context.topic_params, "room").unwrap();
    assert!(room_param.struct_field.is_some());
    let room_type = &fields[room_param.struct_field.unwrap()].ty;
    assert_eq!(room_type.last_segment.as_deref(), Some("String"));
}

#[test]
fn test_named_param_without_struct_field() {
    let pattern = create_topic_pattern("sensors/{sensor_id}/{missing_field}/data");
    let fields = vec![field("sensor_id", "u32"), field("payload", "String")];
    let context = StructAnalysisContext::analyze(Some(&fields), &pattern).unwrap();

    let sensor_param = find(&context.topic_params, "sensor_id").unwrap();
    assert!(sensor_param.struct_field.is_some());

    let missing_param = find(&context.topic_params, "missing_field").unwrap();
    assert!(missing_param.struct_field.is_none());
    assert_eq!(missing_param.get_publisher_param_type(&fields), PublisherParamType::Str);
}

#[test]
fn test_complex_wildcard_patterns() {
    let test_cases = vec![
        ("devices/+/{device_id}/sensors/+/{sensor_type}/#", vec![("device_id", 1), ("sensor_type", 3)], 5),
        ("buildings/{building}/+/floors/{floor}/+/rooms/+", vec![("building", 0), ("floor", 2)], 5),
        ("+/{param1}/+/{param2}/+", vec![("param1", 1), ("param2", 3)], 5),
    ];
    for (pattern_str, expected_named, expected_total) in test_cases {
        let pattern = create_topic_pattern(pattern_str);
        let params = TopicParam::build_topic_params(&pattern, &[]);
        assert_eq!(params.len(), expected_total, "Pattern '{pattern_str}': wrong total wildcard count");
        let named_count = expected_named.len();
        for (expected_name, expected_index) in expected_named {
            let found = find(&params, expected_name).unwrap();
            assert_eq!(
                found.wildcard_index, expected_index,
                "Pattern '{pattern_str}': wrong index for '{expected_name}'"
            );
        }
        let anonymous_count = params.iter().filter(|p| p.is_anonymous()).count();
        assert_eq!(anonymous_count + named_count, expected_total, "Pattern '{pattern_str}': anonymous + named != total");
    }
}

#[test]
fn test_has_special_fields() {
    let pattern = create_topic_pattern("test/{param}");

    let struct1 = vec![field("param", "String")];
    let context1 = StructAnalysisContext::analyze(Some(&struct1), &pattern).unwrap();
    assert!(!context1.has_special_fields());

    let struct2 = vec![field("param", "String"), generic_field("payload", "Vec", "u8")];
    let context2 = StructAnalysisContext::analyze(Some(&struct2), &pattern).unwrap();
    assert!(context2.has_special_fields());

    let struct3 = vec![field("param", "String"), generic_field("topic", "Arc", "TopicMatch")];
    let context3 = StructAnalysisContext::analyze(Some(&struct3), &pattern).unwrap();
    assert!(context3.has_special_fields());

    let struct4 =
        vec![field("param", "String"), field("payload", "String"), generic_field("topic", "Arc", "TopicMatch")];
    let context4 = StructAnalysisContext::analyze(Some(&struct4), &pattern).unwrap();
    assert!(context4.has_special_fields());
}

#[test]
fn test_custom_field_types() {
    let pattern = create_topic_pattern("api/{version}/{user_id}/{category}/{item_id}");
    // The field types as written, beside what the analysis reads of them.
    let written = ["String", "u64", "std :: borrow :: Cow < 'static , str >", "uuid :: Uuid", "serde_json :: Value"];
    let fields = vec![
        field("version", "String"),
        field("user_id", "u64"),
        generic_field("category", "Cow", "str"),
        field("item_id", "Uuid"),
        field("payload", "Value"),
    ];
    let context = StructAnalysisContext::analyze(Some(&fields), &pattern).unwrap();
    let types = [
        ("version", "String"),
        ("user_id", "u64"),
        ("category", "std :: borrow :: Cow < 'static , str >"),
        ("item_id", "uuid :: Uuid"),
    ];
    for (param_name, expected_type) in types {
        let param = find(&context.topic_params, param_name).unwrap();
        assert!(param.struct_field.is_some());
        let actual_type = written[param.struct_field.unwrap()];
        assert_eq!(actual_type, expected_type, "Wrong type for parameter '{param_name}'");
    }
    assert_eq!(context.param_count(), 4);
    assert!(context.payload_field.is_some());
}

#[test]
fn test_publisher_param_generation() {
    let pattern = create_topic_pattern("sensors/+/{device_id}/+/{room}/data");
    let fields = vec![field("device_id", "u32"), field("payload", "f64")];
    let context = StructAnalysisContext::analyze(Some(&fields), &pattern).unwrap();
    assert_eq!(context.param_count(), 4);

    let anonymous_params: Vec<_> = context.topic_params.iter().filter(|p| p.is_anonymous()).collect();
    assert_eq!(anonymous_params.len(), 2);
    assert_eq!(anonymous_params[0].get_publisher_param_name(), "wildcard_0");
    assert_eq!(anonymous_params[1].get_publisher_param_name(), "wildcard_2");

    let device_param = find(&context.topic_params, "device_id").unwrap();
    assert_eq!(device_param.get_publisher_param_name(), "device_id");
    let device_type = device_param.get_publisher_param_type(&fields);
    assert_eq!(device_type, PublisherParamType::Field(0));
    assert_eq!(fields[0].ty.last_segment.as_deref(), Some("u32"));

    let room_param = find(&context.topic_params, "room").unwrap();
    assert_eq!(room_param.get_publisher_param_name(), "room");
    assert_eq!(room_param.get_publisher_param_type(&fields), PublisherParamType::Str);
}

#[test]
fn test_invalid_struct_types() {
    let pattern = create_topic_pattern("test/+");
    // An enum has no named fields.
    let result = StructAnalysisContext::analyze(None, &pattern);
    assert!(result.is_err());
    assert!(result.unwrap_err().message.contains("mqtt_topic can only be applied to structs"));
    // Nor has a tuple struct.
    let result = StructAnalysisContext::analyze(None, &pattern);
    assert!(result.is_err());
    assert!(result.unwrap_err().message.contains("named fields"));
}

#[test]
fn test_struct_analysis_context_utility() {
    let topic_params = vec![
        TopicParam { name: Some("sensor_id".to_string()), wildcard_index: 0, struct_field: Some(1) },
        TopicParam { name: Some("room".to_string()), wildcard_index: 1, struct_field: Some(2) },
    ];
    let context = StructAnalysisContext::from_components(Some(0), true, topic_params);
    assert!(context.payload_field.is_some());
    assert!(context.has_topic_field);
    assert_eq!(context.topic_params.len(), 2);
    assert_eq!(context.param_count(), 2);
    assert!(context.has_special_fields());
    let param_names = context.param_names();
    assert!(param_names.contains(&"sensor_id".to_string()));
    assert!(param_names.contains(&"room".to_string()));
}

#[test]
fn unknown_fields_are_listed_with_the_parameters() {
    let pattern = create_topic_pattern("sensors/{sensor_id}/data");
    let fields = vec![field("sensor_id", "u32"), field("unknown_field", "String")];
    let err = StructAnalysisContext::analyze(Some(&fields), &pattern).unwrap_err();
    assert_eq!(err.span, ErrorSpan::Struct);
    assert_eq!(
        err.message,
        "Unknown fields: [unknown_field]. Allowed fields: 'payload', 'topic', 'meta', and topic parameters: [sensor_id]"
    );
}

#[test]
fn topic_field_of_wrong_type_is_refused_at_its_type() {
    let pattern = create_topic_pattern("sensors/+/data");
    let fields = vec![field("topic", "String")];
    let err = StructAnalysisContext::analyze(Some(&fields), &pattern).unwrap_err();
    assert_eq!(err.span, ErrorSpan::FieldType(0));
    assert_eq!(err.message, "Field 'topic' must be of type Arc<TopicMatch>.");
}

#[test]
fn topic_must_be_shared_and_meta_may_be_owned() {
    let pattern = create_topic_pattern("sensors/+/data");
    let shared = vec![generic_field("topic", "Arc", "TopicMatch"), generic_field("meta", "Arc", "MessageMeta")];
    let context = StructAnalysisContext::analyze(Some(&shared), &pattern).unwrap();
    assert!(context.has_topic_field && context.has_meta_field && !context.meta_field_owned);
    let bare_meta = vec![field("meta", "MessageMeta")];
    let context = StructAnalysisContext::analyze(Some(&bare_meta), &pattern).unwrap();
    assert!(context.has_meta_field && context.meta_field_owned);
    let wrong_meta = vec![field("meta", "String")];
    let err = StructAnalysisContext::analyze(Some(&wrong_meta), &pattern).unwrap_err();
    assert_eq!(err.span, ErrorSpan::FieldType(0));
    assert_eq!(err.message, "Field 'meta' must be of type `MessageMeta` or `Arc<MessageMeta>`.");
    let bare_topic = vec![field("topic", "TopicMatch")];
    let err = StructAnalysisContext::analyze(Some(&bare_topic), &pattern).unwrap_err();
    assert_eq!(err.message, "Field 'topic' must be of type Arc<TopicMatch>.");
}

#[test]
fn test_topic_field_validation() {
    struct TypeTestCase {
        name: &'static str,
        field: FieldShape,
        should_be_valid: bool,
    }
    let test_cases = vec![
        TypeTestCase {
            name: "simple_arc_topic_match",
            field: generic_field("topic", "Arc", "TopicMatch"),
            should_be_valid: true,
        },
        // `std::sync::Arc<mqtt_typed_client_core::topic::topic_match::TopicMatch>`
        TypeTestCase {
            name: "fully_qualified_arc_topic_match",
            field: generic_field("topic", "Arc", "TopicMatch"),
            should_be_valid: true,
        },
        TypeTestCase {
            name: "arc_with_wrong_inner_type",
            field: generic_field("topic", "Arc", "String"),
            should_be_valid: false,
        },
        TypeTestCase { name: "topic_match_without_arc", field: field("topic", "TopicMatch"), should_be_valid: false },
        TypeTestCase {
            name: "vec_with_topic_match",
            field: generic_field("topic", "Vec", "TopicMatch"),
            should_be_valid: false,
        },
        TypeTestCase { name: "primitive_type", field: field("topic", "u32"), should_be_valid: false },
    ];
    for test_case in test_cases {
        let fields = vec![test_case.field];
        let pattern = create_topic_pattern("sensors/+/data");
        let result = StructAnalysisContext::analyze(Some(&fields), &pattern);
        if test_case.should_be_valid {
            assert!(result.is_ok(), "Test '{}': expected success but got error: {:?}", test_case.name, result.err());
            let context = result.unwrap();
            assert!(context.has_topic_field, "Should detect topic field");
        } else {
            assert!(result.is_err(), "Test '{}': expected error but got success", test_case.name);
            let error = result.unwrap_err();
            assert!(
                error.message.contains("must be of type Arc<TopicMatch>"),
                "Test '{}': wrong error message: {}",
                test_case.name,
                error.message
            );
        }
    }
}

enum AnalysisResult {
    Success { param_count: usize, has_payload: bool, has_topic_field: bool, param_names: Vec<&'static str> },
    Error { error_contains: &'static str },
}

struct AnalysisTestCase {
    name: &'static str,
    pattern: &'static str,
    struct_fields: Vec<FieldShape>,
    expected_result: AnalysisResult,
}

fn run_analysis_test(test_case: AnalysisTestCase) {
    let pattern = create_topic_pattern(test_case.pattern);
    let result = StructAnalysisContext::analyze(Some(&test_case.struct_fields), &pattern);
    match test_case.expected_result {
        AnalysisResult::Success { param_count, has_payload, has_topic_field, param_names } => {
            let context = result.unwrap_or_else(|_| panic!("Test '{}' should succeed but failed", test_case.name));
            assert_eq!(context.param_count(), param_count, "Test '{}': param count mismatch", test_case.name);
            assert_eq!(
                context.has_special_fields(),
                has_payload || has_topic_field,
                "Test '{}': special fields mismatch",
                test_case.name
            );
            assert_eq!(context.payload_field.is_some(), has_payload, "Test '{}': payload presence mismatch", test_case.name);
            assert_eq!(context.has_topic_field, has_topic_field, "Test '{}': topic field presence mismatch", test_case.name);
            let actual_names = context.param_names();
            assert_eq!(actual_names.len(), param_names.len(), "Test '{}': param names count mismatch", test_case.name);
            for expected_name in param_names {
                assert!(
                    actual_names.contains(&expected_name.to_string()),
                    "Test '{}': missing parameter '{}'",
                    test_case.name,
                    expected_name
                );
            }
        },
        AnalysisResult::Error { error_contains } => {
            let error = match result {
                Ok(_) => panic!("Test '{}' should fail but succeeded", test_case.name),
                Err(e) => e,
            };
            assert!(
                error.message.contains(error_contains),
                "Test '{}': error message '{}' should contain '{}'",
                test_case.name,
                error.message,
                error_contains
            );
        },
    }
}

#[test]
fn test_comprehensive_analysis() {
    let test_cases = vec![
        AnalysisTestCase {
            name: "basic_sensor_reading",
            pattern: "sensors/{sensor_id}/data",
            struct_fields: vec![field("sensor_id", "u32"), field("payload", "String")],
            expected_result: AnalysisResult::Success {
                param_count: 1,
                has_payload: true,
                has_topic_field: false,
                param_names: vec!["sensor_id"],
            },
        },
        AnalysisTestCase {
            name: "multi_param_with_topic",
            pattern: "sensors/{sensor_id}/{room}/data",
            struct_fields: vec![
                field("sensor_id", "u32"),
                field("room", "String"),
                generic_field("payload", "Vec", "u8"),
                generic_field("topic", "Arc", "TopicMatch"),
            ],
            expected_result: AnalysisResult::Success {
                param_count: 2,
                has_payload: true,
                has_topic_field: true,
                param_names: vec!["sensor_id", "room"],
            },
        },
        AnalysisTestCase {
            name: "no_payload_field",
            pattern: "heartbeat/{service}",
            struct_fields: vec![field("service", "String")],
            expected_result: AnalysisResult::Success {
                param_count: 1,
                has_payload: false,
                has_topic_field: false,
                param_names: vec!["service"],
            },
        },
        AnalysisTestCase {
            name: "empty_struct_anonymous_wildcards",
            pattern: "sensors/+/data",
            struct_fields: vec![],
            expected_result: AnalysisResult::Success {
                param_count: 1,
                has_payload: false,
                has_topic_field: false,
                param_names: vec![],
            },
        },
        AnalysisTestCase {
            name: "unknown_field_error",
            pattern: "sensors/{sensor_id}/data",
            struct_fields: vec![field("sensor_id", "u32"), field("unknown_field", "String")],
            expected_result: AnalysisResult::Error { error_contains: "Unknown fields" },
        },
        AnalysisTestCase {
            name: "invalid_topic_field_type",
            pattern: "sensors/+/data",
            struct_fields: vec![field("topic", "String")],
            expected_result: AnalysisResult::Error { error_contains: "must be of type Arc<TopicMatch>" },
        },
    ];
    for test_case in test_cases {
        run_analysis_test(test_case);
    }
}

#[test]
fn reserved_name_as_wildcard_is_refused() {
    let pattern = create_topic_pattern("sensors/{payload}/data");
    let fields = vec![field("payload", "String")];
    let err = StructAnalysisContext::analyze(Some(&fields), &pattern).unwrap_err();
    assert_eq!(err.span, ErrorSpan::Struct);
    assert!(err.message.starts_with("topic pattern uses `{payload}` as a named wildcard"));
}
