use json_editor::json::error::Error::EndOfLine;
use json_editor::json::state::State;
use json_editor::json::to_object;
use json_editor::json::value::JsonValueType::{
    JsonTypeArray, JsonTypeBool, JsonTypeNumber, JsonTypeObject, JsonTypeString,
};
use json_editor::json::{Array, Object};

#[test]
fn parse_all_test_state_read_char() {
    let mut state_1 = State::new(" te ");
    assert_eq!(true, state_1.read_char('t'));
    assert_eq!(false, state_1.read_char('t'));
    assert_eq!(true, state_1.read_char('e'));
    assert_eq!(false, state_1.read_char('e'));
    assert_eq!(true, state_1.at_end());
}

#[test]
fn parse_all_test_state_read_literal() {
    let mut state_1 = State::new("  true ");
    assert_eq!(true, state_1.read_literal("true"));

    let mut state_2 = State::new("  true ");
    assert_eq!(false, state_2.read_literal("trx"));

    let mut state_3 = State::new("false  true ");
    assert_eq!(true, state_3.read_literal("false"));
    assert_eq!(true, state_3.read_literal("true"));
}

#[test]
fn parse_all_test_state_skip_whitespace() {
    let mut state_1 = State::new("test");
    assert_eq!(false, state_1.skip_whitespace());
    assert_eq!(0, state_1.cursor());
    assert_eq!(false, state_1.at_end());
    assert_eq!(Some('t'), state_1.peek());

    let mut state_2 = State::new("   test");
    assert_eq!(false, state_2.skip_whitespace());
    assert_eq!(3, state_2.cursor());
    assert_eq!(false, state_2.at_end());
    assert_eq!(Some('t'), state_2.peek());

    let mut state_3 = State::new("t    ");
    assert_eq!(Some('t'), state_3.take());
    assert_eq!(true, state_3.skip_whitespace());
    assert_eq!(true, state_3.at_end());
}

#[test]
fn parse_all_test_parse_bool() {
    assert_eq!(to_object("true"), Ok(JsonTypeBool(true)));
    assert_eq!(to_object("false"), Ok(JsonTypeBool(false)));
}

#[test]
fn parse_all_test_parse_array() {
    assert_eq!(to_object("[]"), Ok(JsonTypeArray(Array(Vec::new()))));
    assert_eq!(
        to_object("[true,false]"),
        Ok(JsonTypeArray(Array(vec![JsonTypeBool(true), JsonTypeBool(false)])))
    );
    assert_eq!(to_object("[[]"), Err(EndOfLine));
}

#[test]
fn parse_all_test_json_parse_string() {
    assert_eq!(to_object("\"\""), Ok(JsonTypeString(String::from(""))));
    assert_eq!(to_object("\"test\""), Ok(JsonTypeString(String::from("test"))));
    assert_eq!(to_object("\"test"), Err(EndOfLine));
    assert_eq!(to_object("\"t\\\"est\""), Ok(JsonTypeString(String::from("t\"est"))));
}

#[test]
fn parse_all_test_json_parse_number() {
    assert_eq!(to_object("1"), Ok(JsonTypeNumber(String::from("1"))));
    assert_eq!(to_object("2.5"), Ok(JsonTypeNumber(String::from("2.5"))));
    assert_eq!(to_object("-5.0"), Ok(JsonTypeNumber(String::from("-5.0"))));
}

#[test]
fn parse_all_test_json_parse_object() {
    assert_eq!(to_object("{}"), Ok(JsonTypeObject(Object(Vec::new()))));
    assert_eq!(
        to_object("{\"one\" : 1}"),
        Ok(JsonTypeObject(Object(vec![(
            "one".to_string(),
            JsonTypeNumber(String::from("1"))
        )])))
    );
    assert_eq!(
        to_object("{\"one\" : 1, \"two\":2}"),
        Ok(JsonTypeObject(Object(vec![
            ("one".to_string(), JsonTypeNumber(String::from("1"))),
            ("two".to_string(), JsonTypeNumber(String::from("2"))),
        ])))
    );
}
