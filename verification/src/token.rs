use vstd::prelude::*;

verus! {

/// Mathematical form of a token: string and number payloads are character
/// sequences. String payloads carry the decoded text; number payloads carry
/// the normalized numeric lexeme (exponent marker lowercased, plus sign
/// dropped), ready for numeric conversion by a consumer.
pub enum TokenView {
    OpenBracket,
    CloseBracket,
    OpenBrace,
    CloseBrace,
    Colon,
    Comma,
    TrueKeyword,
    FalseKeyword,
    NullKeyword,
    StringLiteral(Seq<char>),
    NumberLiteral(Seq<char>),
}

/// One indivisible lexical unit of JSON syntax.
///
/// `StringLiteral` holds the decoded text of the literal, escapes resolved.
/// `NumberLiteral` holds the normalized text of the numeric literal; a
/// consumer that wants a machine number converts that text itself.
#[derive(Debug, Clone, PartialEq)]
pub enum Token {
    OpenBracket,
    CloseBracket,
    OpenBrace,
    CloseBrace,
    Colon,
    Comma,
    TrueKeyword,
    FalseKeyword,
    NullKeyword,
    StringLiteral(String),
    NumberLiteral(String),
}

impl View for Token {
    type V = TokenView;

    open spec fn view(&self) -> TokenView {
        match self {
            Token::OpenBracket => TokenView::OpenBracket,
            Token::CloseBracket => TokenView::CloseBracket,
            Token::OpenBrace => TokenView::OpenBrace,
            Token::CloseBrace => TokenView::CloseBrace,
            Token::Colon => TokenView::Colon,
            Token::Comma => TokenView::Comma,
            Token::TrueKeyword => TokenView::TrueKeyword,
            Token::FalseKeyword => TokenView::FalseKeyword,
            Token::NullKeyword => TokenView::NullKeyword,
            Token::StringLiteral(text) => TokenView::StringLiteral(text@),
            Token::NumberLiteral(text) => TokenView::NumberLiteral(text@),
        }
    }
}

/// A grammar violation. Every error is fatal to the current tokenization
/// attempt: scanning performs no recovery and salvages no partial result.
#[derive(Debug, Clone, Copy, PartialEq, Eq)]
pub enum LexError {
    /// A character that no rule of the grammar allows at its position.
    UnexpectedCharacter(char),
    /// The input ended where the grammar still required a character.
    UnexpectedEndOfInput,
    /// A string literal ran into a raw newline or the end of input before
    /// its closing quote.
    UnclosedStringLiteral,
    /// A numeric literal began with `0` immediately followed by a digit.
    LeadingZero,
    /// A digit run began with a character that is no digit where at least
    /// one digit was required.
    NoDigitsFound,
    /// A `\u` escape named a value that is no Unicode scalar value, such as
    /// a lone surrogate half.
    InvalidEscape,
}

} // verus!
