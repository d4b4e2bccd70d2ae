use json_lexer::Input;

#[test]
fn cursor_walks_ascii_text() {
    let mut input = Input::new(String::from("ab"));
    assert_eq!(input.cur(), Some('a'));
    input.bump();
    assert_eq!(input.cur(), Some('b'));
    input.bump();
    assert_eq!(input.cur(), None);
}

#[test]
fn cursor_walks_multi_byte_characters() {
    let mut input = Input::new(String::from("é✓x"));
    assert_eq!(input.cur(), Some('é'));
    input.bump();
    assert_eq!(input.cur(), Some('✓'));
    input.bump();
    assert_eq!(input.cur(), Some('x'));
    input.bump();
    assert_eq!(input.cur(), None);
}

#[test]
fn empty_text_starts_at_end_of_input() {
    let input = Input::new(String::new());
    assert_eq!(input.cur(), None);
}

#[test]
fn current_character_is_a_pure_read() {
    let input = Input::new(String::from("z"));
    assert_eq!(input.cur(), Some('z'));
    assert_eq!(input.cur(), Some('z'));
}
