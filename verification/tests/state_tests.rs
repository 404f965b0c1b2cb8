use json_editor::json::state::State;

#[test]
fn state_test_state_read_char() {
    let mut state_1 = State::new(" te ");
    assert_eq!(true, state_1.read_char('t'));
    assert_eq!(false, state_1.read_char('t'));
    assert_eq!(true, state_1.read_char('e'));
    assert_eq!(false, state_1.read_char('e'));
    assert_eq!(true, state_1.at_end());
}

#[test]
fn state_test_state_read_literal() {
    let mut state_1 = State::new("  true ");
    assert_eq!(true, state_1.read_literal("true"));

    let mut state_2 = State::new("  true ");
    assert_eq!(false, state_2.read_literal("trx"));

    let mut state_3 = State::new("false  true ");
    assert_eq!(true, state_3.read_literal("false"));
    assert_eq!(true, state_3.read_literal("true"));
}

#[test]
fn state_test_state_skip_whitespace() {
    let mut state_1 = State::new("test");
    assert_eq!(false, state_1.skip_whitespace());
    assert_eq!(0, state_1.cursor());
    assert_eq!(false, state_1.at_end());
    assert_eq!(Some('t'), state_1.peek());

    let mut state_2 = State::new("   test");
    assert_eq!(false, state_2.skip_whitespace());
    assert_eq!(3, state_2.cursor());
    assert_eq!(false, state_2.at_end());
    assert_eq!(Some('t'), state_2.peek());

    let mut state_3 = State::new("t    ");
    assert_eq!(Some('t'), state_3.take());
    assert_eq!(true, state_3.skip_whitespace());
    assert_eq!(true, state_3.at_end());
}
