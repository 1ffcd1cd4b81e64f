use mqtt_topic_engine::macros::analysis::{FieldShape, PublisherParamType, StructAnalysisContext, TypeShape};
use mqtt_topic_engine::macros::args::{parse_macro_args, ArgSpan, AssignTarget, MacroArg, MacroArgs};
use mqtt_topic_engine::macros::codegen::{CodeGenerator, FieldAssignment};
use mqtt_topic_engine::{CacheStrategy, TopicPatternPath};

#[derive(Debug, Clone, Copy)]
enum GenerationConfig {
    Both,
    SubscriberOnly,
    PublisherOnly,
}

fn create_topic_pattern(pattern: &str) -> TopicPatternPath {
    TopicPatternPath::new_from_string(pattern, CacheStrategy::NoCache).expect("Invalid test pattern")
}

fn field(name: &str, last: &str) -> FieldShape {
    FieldShape { name: name.to_string(), ty: TypeShape { last_segment: Some(last.to_string()), first_argument: None } }
}

fn generic_field(name: &str, outer: &str, inner: &str) -> FieldShape {
    FieldShape {
        name: name.to_string(),
        ty: TypeShape { last_segment: Some(outer.to_string()), first_argument: Some(inner.to_string()) },
    }
}

fn create_macro_args(pattern: &str, config: GenerationConfig) -> MacroArgs {
    let (generate_subscriber, generate_publisher) = match config {
        GenerationConfig::Both => (true, true),
        GenerationConfig::SubscriberOnly => (true, false),
        GenerationConfig::PublisherOnly => (false, true),
    };
    MacroArgs {
        pattern: create_topic_pattern(pattern),
        generate_subscriber,
        generate_publisher,
        generate_typed_client: true,
        generate_last_will: generate_publisher,
        custom_serializer: None,
    }
}

fn create_generator(fields: &[FieldShape], pattern: &str, config: GenerationConfig) -> CodeGenerator {
    let macro_args = create_macro_args(pattern, config);
    let context = StructAnalysisContext::analyze(Some(fields), &macro_args.pattern).expect("Analysis should succeed");
    CodeGenerator::new(context, macro_args)
}

#[test]
fn test_generator_configuration_modes() {
    let test_cases = vec![
        ("subscriber_only", GenerationConfig::SubscriberOnly, true, false),
        ("publisher_only", GenerationConfig::PublisherOnly, false, true),
        ("both_modes", GenerationConfig::Both, true, true),
    ];
    for (name, config, expected_subscriber, expected_publisher) in test_cases {
        let fields = vec![field("sensor_id", "u32"), field("payload", "String")];
        let generator = create_generator(&fields, "sensors/{sensor_id}/data", config);
        assert_eq!(
            generator.should_generate_subscriber(),
            expected_subscriber,
            "Test '{name}': subscriber generation mismatch"
        );
        assert_eq!(generator.should_generate_publisher(), expected_publisher, "Test '{name}': publisher generation mismatch");
    }
}

#[test]
fn test_generator_info_methods() {
    let test_cases = vec![
        (
            "basic_struct",
            vec![field("sensor_id", "u32"), field("payload", "String")],
            "sensors/{sensor_id}/data",
            1,
            true,
            false,
            vec!["sensor_id"],
        ),
        (
            "full_struct",
            vec![
                field("sensor_id", "u32"),
                field("room", "String"),
                generic_field("payload", "Vec", "u8"),
                generic_field("topic", "Arc", "TopicMatch"),
            ],
            "sensors/{sensor_id}/{room}/data",
            2,
            true,
            true,
            vec!["sensor_id", "room"],
        ),
        ("minimal_struct", vec![field("service", "String")], "heartbeat/{service}", 1, false, false, vec!["service"]),
    ];
    for (name, fields, pattern, expected_count, expected_payload, expected_topic, expected_names) in test_cases {
        let generator = create_generator(&fields, pattern, GenerationConfig::Both);
        assert_eq!(generator.context.topic_params.len(), expected_count, "Test '{name}': param count mismatch");
        assert_eq!(
            generator.context.payload_field.is_some(),
            expected_payload,
            "Test '{name}': payload presence mismatch"
        );
        assert_eq!(generator.context.has_topic_field, expected_topic, "Test '{name}': topic field presence mismatch");
        let actual_names: Vec<&str> =
            generator.context.topic_params.iter().filter_map(|p| p.name.as_ref()).map(|name| name.as_str()).collect();
        assert_eq!(actual_names.len(), expected_names.len(), "Test '{name}': param names count mismatch");
        for expected_name in expected_names {
            assert!(actual_names.contains(&expected_name), "Test '{name}': missing parameter '{expected_name}'");
        }
    }
}

#[test]
fn test_custom_field_types_in_publisher() {
    let fields = vec![
        field("version", "Version"),
        field("user_id", "u64"),
        generic_field("category", "Cow", "str"),
        field("item_id", "Uuid"),
        field("payload", "Value"),
    ];
    let generator =
        create_generator(&fields, "api/{version}/{user_id}/{category}/{item_id}", GenerationConfig::PublisherOnly);
    assert_eq!(generator.context.topic_params.len(), 4);
    let param_names: Vec<&str> =
        generator.context.topic_params.iter().filter_map(|p| p.name.as_ref()).map(|name| name.as_str()).collect();
    assert_eq!(param_names, vec!["version", "user_id", "category", "item_id"]);
}

#[test]
fn test_format_string_generation() {
    let test_cases = vec![
        ("simple_pattern", "sensors/{id}/data", "sensors/{}/data"),
        ("multiple_params", "buildings/{building}/floors/{floor}/rooms/{room}", "buildings/{}/floors/{}/rooms/{}"),
        ("mixed_wildcards", "devices/+/{device_id}/+/status", "devices/{}/{}/{}/status"),
        ("no_params", "static/path/data", "static/path/data"),
        ("only_anonymous", "sensors/+/+/data", "sensors/{}/{}/data"),
    ];
    for (name, pattern, expected_format) in test_cases {
        let fields = vec![field("payload", "String")];
        let generator = create_generator(&fields, pattern, GenerationConfig::PublisherOnly);
        let (format, _) = generator.get_topic_format_and_args();
        assert!(
            format.contains(expected_format),
            "Test '{}': missing format string '{}'\nGenerated: {}",
            name,
            expected_format,
            format
        );
    }
}

#[test]
fn publisher_params_and_format_args_follow_the_wildcards() {
    let fields = vec![field("device_id", "String"), field("count", "u32"), field("payload", "f64")];
    let generator = create_generator(&fields, "devices/+/{device_id}/{count}/status", GenerationConfig::Both);
    let (format, args) = generator.get_topic_format_and_args();
    assert_eq!(format, "devices/{}/{}/{}/status");
    assert_eq!(args, vec!["wildcard_0".to_string(), "device_id".to_string(), "count".to_string()]);
    let params = generator.get_publisher_method_params(&fields);
    assert_eq!(
        params,
        vec![
            ("wildcard_0".to_string(), PublisherParamType::Str),
            ("device_id".to_string(), PublisherParamType::Str),
            ("count".to_string(), PublisherParamType::Field(1)),
        ]
    );
    assert_eq!(generator.subscriber_param_extractions(), vec![("device_id".to_string(), 1), ("count".to_string(), 2)]);
    assert_eq!(
        generator.subscriber_field_assignments(),
        vec![
            FieldAssignment::Param("device_id".to_string()),
            FieldAssignment::Param("count".to_string()),
            FieldAssignment::Payload,
        ]
    );
    assert_eq!(
        generator.for_methods(&fields),
        vec![
            ("for_wildcard_0".to_string(), "wildcard_0".to_string(), PublisherParamType::Str),
            ("for_device_id".to_string(), "device_id".to_string(), PublisherParamType::Str),
            ("for_count".to_string(), "count".to_string(), PublisherParamType::Field(1)),
        ]
    );
    assert_eq!(generator.get_payload_field(), Some(2));
    assert!(generator.should_generate_typed_client());
    assert!(generator.should_generate_last_will());
}

#[test]
fn test_macro_args_validation() {
    struct ValidationTest {
        name: &'static str,
        pattern: &'static str,
        subscriber: bool,
        publisher: bool,
        should_be_valid: bool,
    }
    let test_cases = vec![
        ValidationTest {
            name: "both_modes",
            pattern: "sensors/{sensor_id}/data",
            subscriber: true,
            publisher: true,
            should_be_valid: true,
        },
        ValidationTest {
            name: "subscriber_only",
            pattern: "sensors/{sensor_id}/data",
            subscriber: true,
            publisher: false,
            should_be_valid: true,
        },
        ValidationTest {
            name: "publisher_only",
            pattern: "sensors/{sensor_id}/data",
            subscriber: false,
            publisher: true,
            should_be_valid: true,
        },
        ValidationTest {
            name: "hash_with_subscriber_only",
            pattern: "sensors/{device_id}/#",
            subscriber: true,
            publisher: false,
            should_be_valid: true,
        },
        ValidationTest {
            name: "hash_with_publisher_should_fail",
            pattern: "sensors/{device_id}/#",
            subscriber: false,
            publisher: true,
            should_be_valid: false,
        },
    ];
    for test_case in test_cases {
        let pattern_result = TopicPatternPath::new_from_string(test_case.pattern, CacheStrategy::NoCache);
        if pattern_result.is_err() {
            continue;
        }
        let pattern = pattern_result.unwrap();
        let has_hash = pattern.contains_hash();
        let macro_args = MacroArgs {
            pattern,
            generate_subscriber: test_case.subscriber,
            generate_publisher: test_case.publisher,
            generate_typed_client: true,
            generate_last_will: test_case.publisher,
            custom_serializer: None,
        };
        assert!(
            macro_args.generate_subscriber || macro_args.generate_publisher,
            "Test '{}': at least one mode should be enabled",
            test_case.name
        );
        if test_case.publisher && has_hash {
            assert!(!test_case.should_be_valid, "Test '{}': publisher with hash should be invalid", test_case.name);
        }
    }
}

fn ident(s: &str) -> MacroArg {
    MacroArg::Path(Some(s.to_string()))
}

#[test]
fn test_parse_topic_pattern_validation() {
    let test_cases = vec![
        ("valid_simple", "sensors/{sensor_id}/data", true, None),
        ("valid_complex", "buildings/{building}/floors/{floor}/rooms/{room}", true, None),
        ("valid_with_hash_end", "sensors/{device_id}/#", true, None),
        ("invalid_empty", "", false, Some("Invalid topic pattern")),
        ("invalid_hash_middle", "sensors/#/data", false, Some("Invalid topic pattern")),
        ("invalid_syntax", "sensors/{}/data", false, Some("Invalid topic pattern")),
    ];
    for (name, pattern, should_succeed, error_contains) in test_cases {
        // The subscriber side alone, so that the pattern's own validity decides.
        let result = parse_macro_args(&[MacroArg::Str(pattern.to_string()), ident("subscriber")]);
        if should_succeed {
            assert!(result.is_ok(), "Test '{}': pattern '{}' should be valid", name, pattern);
        } else {
            assert!(result.is_err(), "Test '{}': pattern '{}' should be invalid", name, pattern);
            if let Some(expected_error) = error_contains {
                let error = result.unwrap_err();
                assert!(
                    error.message.contains(expected_error),
                    "Test '{}': error should contain '{}', got '{}'",
                    name,
                    expected_error,
                    error.message
                );
            }
        }
    }
}

#[test]
fn macro_args_modes_and_serializer() {
    let both = parse_macro_args(&[MacroArg::Str("sensors/{id}".to_string())]).unwrap();
    assert!(both.generate_subscriber && both.generate_publisher && both.generate_last_will);
    assert_eq!(both.custom_serializer, None);

    let sub = parse_macro_args(&[
        MacroArg::Str("sensors/{id}/#".to_string()),
        ident("subscriber"),
        MacroArg::Assign { left: AssignTarget::Path { is_serializer: true }, right_is_path: true },
    ])
    .unwrap();
    assert!(sub.generate_subscriber && !sub.generate_publisher && !sub.generate_last_will);
    assert_eq!(sub.custom_serializer, Some(2));

    let hash_pub = parse_macro_args(&[MacroArg::Str("sensors/{id}/#".to_string()), ident("publisher")]).unwrap_err();
    assert_eq!(hash_pub.span, ArgSpan::Arg(0));
    assert!(hash_pub.message.starts_with("Cannot generate publisher methods for patterns with '#' wildcards."));

    let none = parse_macro_args(&[]).unwrap_err();
    assert_eq!(none.span, ArgSpan::CallSite);
    assert_eq!(none.message, "mqtt_topic macro requires at least a topic pattern string");

    let first = parse_macro_args(&[ident("subscriber")]).unwrap_err();
    assert_eq!(first.message, "First argument must be a string literal containing the topic pattern");

    let bad = parse_macro_args(&[MacroArg::Str("a/b".to_string()), ident("listener")]).unwrap_err();
    assert_eq!(bad.span, ArgSpan::Arg(1));
    assert_eq!(bad.message, "Invalid argument. Supported: 'subscriber', 'publisher', or 'serializer = Type'");

    let unknown = parse_macro_args(&[
        MacroArg::Str("a/b".to_string()),
        MacroArg::Assign { left: AssignTarget::Path { is_serializer: false }, right_is_path: true },
    ])
    .unwrap_err();
    assert_eq!(unknown.span, ArgSpan::AssignLeft(1));
    assert_eq!(unknown.message, "Unknown attribute parameter. Only 'serializer' is supported");

    let generic = parse_macro_args(&[
        MacroArg::Str("a/b".to_string()),
        MacroArg::Assign { left: AssignTarget::Path { is_serializer: true }, right_is_path: false },
    ])
    .unwrap_err();
    assert_eq!(generic.span, ArgSpan::AssignRight(1));

    let many = parse_macro_args(&[
        MacroArg::Str("a/b".to_string()),
        ident("subscriber"),
        ident("publisher"),
        ident("subscriber"),
    ])
    .unwrap_err();
    assert_eq!(many.message, "Too many arguments. Only 'subscriber' and 'publisher' flags are allowed");
}

#[test]
fn meta_assignment_records_an_owned_field() {
    let fields = vec![field("payload", "String"), field("meta", "MessageMeta")];
    let generator = create_generator(&fields, "sensors/+/data", GenerationConfig::SubscriberOnly);
    assert_eq!(
        generator.subscriber_field_assignments(),
        vec![FieldAssignment::Payload, FieldAssignment::Meta { owned: true }]
    );
    let fields = vec![generic_field("topic", "Arc", "TopicMatch"), generic_field("meta", "Arc", "MessageMeta")];
    let generator = create_generator(&fields, "sensors/+/data", GenerationConfig::SubscriberOnly);
    assert_eq!(
        generator.subscriber_field_assignments(),
        vec![FieldAssignment::Topic, FieldAssignment::Meta { owned: false }]
    );
}
