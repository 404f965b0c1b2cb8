use json_editor::json::to_object;
use json_editor::json::value::JsonValueType::{
    JsonTypeBool, JsonTypeNull, JsonTypeNumber, JsonTypeString,
};

#[test]
fn test_to_string_array() {}

#[test]
fn test_to_string_scalars() {
    assert_eq!(to_object("null").unwrap().to_string(), "null");
    assert_eq!(to_object("true").unwrap().to_string(), "true");
    assert_eq!(to_object("false").unwrap().to_string(), "false");
    assert_eq!(to_object("2.5").unwrap().to_string(), "2.5");
    assert_eq!(to_object("\"hi\"").unwrap().to_string(), "\"hi\"");
}

#[test]
fn test_to_string_object_entries() {
    let converted = to_object("{\"one\" : 1, \"two\":2}").unwrap();
    assert_eq!(converted.to_string(), "{\"one\" : 1, \"two\" : 2}\n");
}

#[test]
fn test_accessors() {
    assert_eq!(to_object("true").unwrap().as_bool(), Some(true));
    assert_eq!(to_object("null").unwrap().as_bool(), None);
    assert!(to_object("null").unwrap().is_null());
    assert!(!to_object("1").unwrap().is_null());
    assert_eq!(
        to_object("\"abc\"").unwrap().as_string(),
        Some(&"abc".to_string())
    );
    assert_eq!(to_object("1").unwrap().as_string(), None);
    assert_eq!(to_object("2.5").unwrap().as_number(), Some(&"2.5".to_string()));
    assert_eq!(to_object("true").unwrap().as_number(), None);
    assert_eq!(to_object("[1,2,3]").unwrap().len(), Some(3));
    assert_eq!(to_object("{\"a\":1}").unwrap().len(), Some(1));
    assert_eq!(to_object("null").unwrap().len(), None);
}

#[test]
fn test_value_equality_is_structural() {
    assert_eq!(to_object("1").unwrap(), JsonTypeNumber("1".to_string()));
    assert_ne!(to_object("1").unwrap(), JsonTypeNumber("1.0".to_string()));
    assert_eq!(to_object(" null ").unwrap(), JsonTypeNull);
    assert_ne!(to_object("true").unwrap(), JsonTypeBool(false));
    assert_ne!(
        to_object("\"1\"").unwrap(),
        JsonTypeNumber("1".to_string())
    );
    assert_eq!(to_object("\"1\"").unwrap(), JsonTypeString("1".to_string()));
}
