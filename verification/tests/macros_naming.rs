use mqtt_topic_engine::macros::naming::{to_snake_case, TypedClientNames};

#[test]
fn test_snake_case_conversion() {
    assert_eq!(to_snake_case("SensorMessage"), "sensor_message");
    assert_eq!(to_snake_case("DeviceAlert"), "device_alert");
    assert_eq!(to_snake_case("HTTPRequest"), "h_t_t_p_request");
    assert_eq!(to_snake_case("Message"), "message");
    assert_eq!(to_snake_case("IOEvent"), "i_o_event");
}

#[test]
fn naming_test_typed_client_names_generation() {
    let names = TypedClientNames::from_struct_name("SensorMessage");
    assert_eq!(names.method_name, "sensor_message");
    assert_eq!(names.client_struct.to_string(), "SensorMessageClient");
    assert_eq!(names.extension_trait.to_string(), "SensorMessageExt");
}

#[test]
fn test_complex_names() {
    let names = TypedClientNames::from_struct_name("DeviceTemperatureAlert");
    assert_eq!(names.method_name, "device_temperature_alert");
    assert_eq!(names.client_struct.to_string(), "DeviceTemperatureAlertClient");
    assert_eq!(names.extension_trait.to_string(), "DeviceTemperatureAlertExt");
}

#[test]
fn codegen_typed_client_test_typed_client_names_generation() {
    let names = TypedClientNames::from_struct_name("SensorMessage");
    assert_eq!(names.method_name, "sensor_message");
    assert_eq!(names.client_struct.to_string(), "SensorMessageClient");
    assert_eq!(names.extension_trait.to_string(), "SensorMessageExt");
}

#[test]
fn snake_case_of_non_ascii_and_digits() {
    // Uppercase letters outside ASCII are lowered too; digits and
    // lowercase letters pass through unchanged.
    assert_eq!(to_snake_case("ÄpfelSaft2"), "äpfel_saft2");
    assert_eq!(to_snake_case(""), "");
    assert_eq!(to_snake_case("already_snake"), "already_snake");
}
