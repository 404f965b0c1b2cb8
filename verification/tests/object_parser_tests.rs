use json_editor::json::error::Error::EndOfLine;
use json_editor::json::to_object;
use json_editor::json::value::JsonValueType::{
    JsonTypeArray, JsonTypeBool, JsonTypeNumber, JsonTypeObject, JsonTypeString,
};
use json_editor::json::{Array, Object};

#[test]
fn object_parser_tests_test_parse_bool() {
    assert_eq!(to_object("true"), Ok(JsonTypeBool(true)));
    assert_eq!(to_object("false"), Ok(JsonTypeBool(false)));
}

#[test]
fn object_parser_tests_test_parse_array() {
    assert_eq!(to_object("[]"), Ok(JsonTypeArray(Array(Vec::new()))));
    assert_eq!(
        to_object("[true,false]"),
        Ok(JsonTypeArray(Array(vec![JsonTypeBool(true), JsonTypeBool(false)])))
    );
    assert_eq!(to_object("[[]"), Err(EndOfLine));
}

#[test]
fn object_parser_tests_test_json_parse_string() {
    assert_eq!(to_object("\"\""), Ok(JsonTypeString(String::from(""))));
    assert_eq!(to_object("\"test\""), Ok(JsonTypeString(String::from("test"))));
    assert_eq!(to_object("\"test"), Err(EndOfLine));
    assert_eq!(to_object("\"t\\\"est\""), Ok(JsonTypeString(String::from("t\"est"))));
}

#[test]
fn object_parser_tests_test_json_parse_number() {
    assert_eq!(to_object("1"), Ok(JsonTypeNumber(String::from("1"))));
    assert_eq!(to_object("2.5"), Ok(JsonTypeNumber(String::from("2.5"))));
    assert_eq!(to_object("-5.0"), Ok(JsonTypeNumber(String::from("-5.0"))));
}

#[test]
fn object_parser_tests_test_json_parse_object() {
    let pair_1 = ("one".to_string(), JsonTypeNumber(String::from("1")));
    let pair_2 = ("two".to_string(), JsonTypeNumber(String::from("2")));
    assert_eq!(to_object("{}"), Ok(JsonTypeObject(Object(Vec::new()))));
    assert_eq!(
        to_object("{\"one\" : 1}"),
        Ok(JsonTypeObject(Object(Vec::from([pair_1]))))
    );
    let pair_1 = ("one".to_string(), JsonTypeNumber(String::from("1")));
    assert_eq!(
        to_object("{\"one\" : 1, \"two\":2}"),
        Ok(JsonTypeObject(Object(Vec::from([pair_1, pair_2]))))
    );
}

#[test]
fn test_array_value_to_string() {
    {
        let json = r#"[]
"#;

        let converted = to_object(json).unwrap();
        let result = converted.to_string();
        assert_eq!(json, result);
    }
    {
        let json = r#"["one", "two", "three"]
"#;

        let converted = to_object(json).unwrap();
        let result = converted.to_string();
        assert_eq!(json, result);
    }
}

#[test]
fn test_object_value_to_string() {
    {
        let json = r#"{}
"#;

        let converted = to_object(json).unwrap();
        let result = converted.to_string();
        assert_eq!(json, result);
    }
}
