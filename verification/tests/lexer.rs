use json_lexer::lexer::tokenize;
use json_lexer::lexer::Lexer;
use json_lexer::Input;
use json_lexer::LexError;
use json_lexer::Token;

fn scan(source: &str) -> Result<Vec<Token>, LexError> {
    tokenize(String::from(source))
}

#[test]
fn literal_fragments_reproduce_values() {
    let tokens = scan("0 0 1.0 null false").unwrap();
    assert_eq!(
        tokens,
        vec![
            Token::NumberLiteral(String::from("0")),
            Token::NumberLiteral(String::from("0")),
            Token::NumberLiteral(String::from("1.0")),
            Token::NullKeyword,
            Token::FalseKeyword,
        ]
    );
    let values: Vec<f64> = tokens
        .iter()
        .filter_map(|t| match t {
            Token::NumberLiteral(text) => Some(text.parse::<f64>().unwrap()),
            _ => None,
        })
        .collect();
    assert_eq!(values, vec![0.0, 0.0, 1.0]);
}

#[test]
fn leading_zero_is_rejected() {
    assert_eq!(scan("01"), Err(LexError::LeadingZero));
    assert_eq!(scan("-00"), Err(LexError::LeadingZero));
    assert_eq!(
        scan("0"),
        Ok(vec![Token::NumberLiteral(String::from("0"))])
    );
    assert_eq!(
        scan("0.5"),
        Ok(vec![Token::NumberLiteral(String::from("0.5"))])
    );
}

#[test]
fn escapes_round_trip() {
    let tokens = scan("\"a\\n\\u0041\"").unwrap();
    assert_eq!(tokens, vec![Token::StringLiteral(String::from("a\nA"))]);
}

#[test]
fn all_simple_escapes_decode() {
    let tokens = scan("\"\\\"\\\\\\/\\b\\f\\n\\r\\t\"").unwrap();
    assert_eq!(
        tokens,
        vec![Token::StringLiteral(String::from(
            "\"\\/\u{0008}\u{000C}\n\r\t"
        ))]
    );
}

#[test]
fn unterminated_string_fails() {
    assert_eq!(scan("\"abc"), Err(LexError::UnclosedStringLiteral));
}

#[test]
fn raw_newline_in_string_fails() {
    assert_eq!(scan("\"a\nb\""), Err(LexError::UnclosedStringLiteral));
}

#[test]
fn whitespace_only_input_is_empty_sequence() {
    assert_eq!(scan("   \t\n"), Ok(vec![]));
    assert_eq!(scan(""), Ok(vec![]));
    assert_eq!(scan("\r \t"), Ok(vec![]));
}

#[test]
fn structural_tokens_come_out_positionally() {
    assert_eq!(
        scan("[{]}:,"),
        Ok(vec![
            Token::OpenBracket,
            Token::OpenBrace,
            Token::CloseBracket,
            Token::CloseBrace,
            Token::Colon,
            Token::Comma,
        ])
    );
}

#[test]
fn rescan_yields_identical_sequence() {
    let source = " {\"k\": [1.5e-3, true, null]} ";
    let first = scan(source);
    let second = scan(source);
    assert_eq!(first, second);
}

#[test]
fn keywords_scan_exactly() {
    assert_eq!(
        scan("true false null"),
        Ok(vec![
            Token::TrueKeyword,
            Token::FalseKeyword,
            Token::NullKeyword,
        ])
    );
}

#[test]
fn keyword_cut_short_fails_with_end_of_input() {
    assert_eq!(scan("tru"), Err(LexError::UnexpectedEndOfInput));
    assert_eq!(scan("nul"), Err(LexError::UnexpectedEndOfInput));
}

#[test]
fn keyword_mismatch_names_the_found_character() {
    assert_eq!(scan("truthy"), Err(LexError::UnexpectedCharacter('t')));
    assert_eq!(scan("fals!"), Err(LexError::UnexpectedCharacter('!')));
}

#[test]
fn lone_surrogate_escape_fails() {
    assert_eq!(scan("\"\\uD800\""), Err(LexError::InvalidEscape));
    assert_eq!(scan("\"\\udfff\""), Err(LexError::InvalidEscape));
}

#[test]
fn bad_escapes_fail() {
    assert_eq!(scan("\"\\x\""), Err(LexError::UnexpectedCharacter('x')));
    assert_eq!(scan("\"\\u12G4\""), Err(LexError::UnexpectedCharacter('G')));
    assert_eq!(scan("\"\\"), Err(LexError::UnexpectedEndOfInput));
    assert_eq!(scan("\"\\u12"), Err(LexError::UnexpectedEndOfInput));
}

#[test]
fn hex_escape_either_case_decodes() {
    assert_eq!(
        scan("\"\\u00e9\\u00E9\""),
        Ok(vec![Token::StringLiteral(String::from("éé"))])
    );
}

#[test]
fn control_character_in_string_fails() {
    assert_eq!(
        scan("\"\u{0001}\""),
        Err(LexError::UnexpectedCharacter('\u{0001}'))
    );
}

#[test]
fn numbers_normalize_exponent_and_plus_sign() {
    assert_eq!(
        scan("-12.5e+3"),
        Ok(vec![Token::NumberLiteral(String::from("-12.5e3"))])
    );
    assert_eq!(
        scan("2E-7"),
        Ok(vec![Token::NumberLiteral(String::from("2e-7"))])
    );
    assert_eq!(
        scan("10"),
        Ok(vec![Token::NumberLiteral(String::from("10"))])
    );
    assert_eq!(
        scan("-0"),
        Ok(vec![Token::NumberLiteral(String::from("-0"))])
    );
    assert_eq!(
        scan("1e5"),
        Ok(vec![Token::NumberLiteral(String::from("1e5"))])
    );
}

#[test]
fn number_with_missing_digits_fails() {
    assert_eq!(scan("-"), Err(LexError::UnexpectedEndOfInput));
    assert_eq!(scan("-x"), Err(LexError::NoDigitsFound));
    assert_eq!(scan("1."), Err(LexError::UnexpectedEndOfInput));
    assert_eq!(scan("1.x"), Err(LexError::NoDigitsFound));
    assert_eq!(scan("1e"), Err(LexError::UnexpectedEndOfInput));
    assert_eq!(scan("1e+"), Err(LexError::UnexpectedEndOfInput));
    assert_eq!(scan("1e-"), Err(LexError::UnexpectedEndOfInput));
    assert_eq!(scan("1ex"), Err(LexError::NoDigitsFound));
}

#[test]
fn stray_character_fails() {
    assert_eq!(scan("@"), Err(LexError::UnexpectedCharacter('@')));
    assert_eq!(scan("é"), Err(LexError::UnexpectedCharacter('é')));
}

#[test]
fn non_ascii_string_content_passes_through() {
    assert_eq!(
        scan("\"héllo✓\""),
        Ok(vec![Token::StringLiteral(String::from("héllo✓"))])
    );
}

#[test]
fn pulling_tokens_one_at_a_time() {
    let mut lexer = Lexer::new(Input::new(String::from(" [true] ")));
    assert_eq!(lexer.next(), Ok(Some(Token::OpenBracket)));
    assert_eq!(lexer.next(), Ok(Some(Token::TrueKeyword)));
    assert_eq!(lexer.next(), Ok(Some(Token::CloseBracket)));
    assert_eq!(lexer.next(), Ok(None));
    assert_eq!(lexer.next(), Ok(None));
}

#[test]
fn read_keyword_consumes_exactly_the_keyword() {
    let mut lexer = Lexer::new(Input::new(String::from("truex")));
    assert_eq!(lexer.read_keyword("true"), Ok(()));
    assert_eq!(lexer.next(), Err(LexError::UnexpectedCharacter('x')));
}

#[test]
fn read_string_returns_decoded_content() {
    let mut lexer = Lexer::new(Input::new(String::from("\"hi\" 1")));
    assert_eq!(lexer.read_string(), Ok(String::from("hi")));
    assert_eq!(
        lexer.next(),
        Ok(Some(Token::NumberLiteral(String::from("1"))))
    );
}

#[test]
fn read_hex_digits_combines_big_endian() {
    let mut lexer = Lexer::new(Input::new(String::from("0041")));
    assert_eq!(lexer.read_hex_digits(), Ok(0x41));
    let mut lexer = Lexer::new(Input::new(String::from("BEef")));
    assert_eq!(lexer.read_hex_digits(), Ok(0xBEEF));
    let mut lexer = Lexer::new(Input::new(String::from("12")));
    assert_eq!(lexer.read_hex_digits(), Err(LexError::UnexpectedEndOfInput));
}

#[test]
fn mixed_document_scans_in_order() {
    let tokens = scan("{\"a\": [1, -2.5, \"b\\u0020c\"], \"t\": true}").unwrap();
    assert_eq!(
        tokens,
        vec![
            Token::OpenBrace,
            Token::StringLiteral(String::from("a")),
            Token::Colon,
            Token::OpenBracket,
            Token::NumberLiteral(String::from("1")),
            Token::Comma,
            Token::NumberLiteral(String::from("-2.5")),
            Token::Comma,
            Token::StringLiteral(String::from("b c")),
            Token::CloseBracket,
            Token::Comma,
            Token::StringLiteral(String::from("t")),
            Token::Colon,
            Token::TrueKeyword,
            Token::CloseBrace,
        ]
    );
}
