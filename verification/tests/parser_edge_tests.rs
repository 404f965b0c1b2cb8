use json_editor::json::error::Error::{Character, EndOfLine};
use json_editor::json::state::State;
use json_editor::json::to_object;
use json_editor::json::value::JsonValueType::{
    JsonTypeArray, JsonTypeBool, JsonTypeNumber, JsonTypeObject, JsonTypeString,
};
use json_editor::json::{Array, Object};

#[test]
fn test_empty_and_whitespace_inputs() {
    assert_eq!(to_object(""), Err(EndOfLine));
    assert_eq!(to_object("   "), Err(EndOfLine));
    assert_eq!(to_object(" \t\n "), Err(EndOfLine));
}

#[test]
fn test_unexpected_first_character() {
    // no production opens on these, and the number fallback scans nothing
    assert_eq!(to_object("@"), Err(Character(0)));
    assert_eq!(to_object("   @"), Err(Character(3)));
    assert_eq!(to_object("x"), Err(Character(0)));
}

#[test]
fn test_malformed_numbers() {
    // the scan runs past the whole run before the literal is rejected
    assert_eq!(to_object("-"), Err(Character(1)));
    assert_eq!(to_object("1.2.3"), Err(Character(5)));
    assert_eq!(to_object("--5"), Err(Character(3)));
    assert_eq!(to_object("1e"), Err(Character(2)));
    assert_eq!(to_object("."), Err(Character(1)));
}

#[test]
fn test_number_spellings() {
    assert_eq!(to_object(".5"), Ok(JsonTypeNumber(".5".to_string())));
    assert_eq!(to_object("1."), Ok(JsonTypeNumber("1.".to_string())));
    assert_eq!(to_object("1e5"), Ok(JsonTypeNumber("1e5".to_string())));
    assert_eq!(to_object("1E-2"), Ok(JsonTypeNumber("1E-2".to_string())));
    assert_eq!(to_object("-0.5e3"), Ok(JsonTypeNumber("-0.5e3".to_string())));
}

#[test]
fn test_partial_literal_error_position() {
    // "true" fails partway; "false" is then tried where it stopped
    assert_eq!(to_object("tru x"), Err(Character(4)));
    assert_eq!(to_object("nul"), Err(EndOfLine));
}

#[test]
fn test_failed_literal_consumes_prefix() {
    let mut state = State::new("tru x");
    assert_eq!(false, state.read_literal("true"));
    assert_eq!(3, state.cursor());
}

#[test]
fn test_string_escapes() {
    assert_eq!(to_object("\"a\\\\b\""), Ok(JsonTypeString("a\\b".to_string())));
    // an unrecognised escape drops the backslash and keeps the character
    assert_eq!(to_object("\"a\\nb\""), Ok(JsonTypeString("anb".to_string())));
    // whitespace inside a string is data
    assert_eq!(to_object("\" a b \""), Ok(JsonTypeString(" a b ".to_string())));
}

#[test]
fn test_whitespace_between_tokens() {
    assert_eq!(
        to_object(" [ true , false ] "),
        Ok(JsonTypeArray(Array(vec![JsonTypeBool(true), JsonTypeBool(false)])))
    );
    assert_eq!(
        to_object("{ \"a\" : null }"),
        Ok(JsonTypeObject(Object(vec![("a".to_string(), json_editor::json::value::JsonValueType::JsonTypeNull)])))
    );
}

#[test]
fn test_array_delimiter_errors() {
    assert_eq!(to_object("[1;2]"), Err(Character(3)));
    assert_eq!(to_object("[1"), Err(EndOfLine));
}

#[test]
fn test_object_errors() {
    assert_eq!(to_object("{"), Err(EndOfLine));
    // a key that is not a string is rejected where the key parse ended
    assert!(to_object("{1:2}").is_err());
    assert!(to_object("{\"a\" 1}").is_err());
}

#[test]
fn test_duplicate_keys_last_write_wins() {
    assert_eq!(
        to_object("{\"a\":1,\"a\":2}"),
        Ok(JsonTypeObject(Object(vec![(
            "a".to_string(),
            JsonTypeNumber("2".to_string())
        )])))
    );
}

#[test]
fn test_round_trip_without_objects() {
    let v = to_object("[1, \"one\", true, null, [2.5], []]").unwrap();
    let w = to_object(&v.to_string()).unwrap();
    assert_eq!(v, w);

    let v = to_object("2.5").unwrap();
    let w = to_object(&v.to_string()).unwrap();
    assert_eq!(v, w);

    let v = to_object("[[true]]").unwrap();
    let w = to_object(&v.to_string()).unwrap();
    assert_eq!(v, w);
}

#[test]
fn test_nested_containers() {
    assert_eq!(
        to_object("[[true]]"),
        Ok(JsonTypeArray(Array(vec![JsonTypeArray(Array(vec![JsonTypeBool(true)]))])))
    );
    assert_eq!(
        to_object("{\"a\":[1]}"),
        Ok(JsonTypeObject(Object(vec![(
            "a".to_string(),
            JsonTypeArray(Array(vec![JsonTypeNumber("1".to_string())]))
        )])))
    );
}

#[test]
fn test_state_error_kinds() {
    let state = State::new("");
    assert_eq!(state.error(), EndOfLine);
    let state = State::new("x");
    assert_eq!(state.error(), Character(0));
}
