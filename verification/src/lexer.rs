use vstd::prelude::*;

use crate::input::Input;
use crate::token::LexError;
use crate::token::Token;
use crate::token::TokenView;

verus! {

broadcast use crate::input::Input::lemma_wf_bounds;

// ---------------------------------------------------------------------------
// Character classes of the grammar
// ---------------------------------------------------------------------------

/// The four characters the grammar treats as whitespace.
pub open spec fn is_ws_char(c: char) -> bool {
    c == '\t' || c == '\n' || c == '\r' || c == ' '
}

/// An ASCII decimal digit.
pub open spec fn is_digit_char(c: char) -> bool {
    48 <= c as u32 && c as u32 <= 57
}

/// An ASCII hexadecimal digit, either case.
pub open spec fn is_hex_digit_char(c: char) -> bool {
    is_digit_char(c) || (97 <= c as u32 && c as u32 <= 102) || (65 <= c as u32 && c as u32
        <= 70)
}

/// The numeric value of a hexadecimal digit.
pub open spec fn hex_digit_val(c: char) -> int
    recommends
        is_hex_digit_char(c),
{
    if is_digit_char(c) {
        c as u32 - 48
    } else if 97 <= c as u32 {
        c as u32 - 87
    } else {
        c as u32 - 55
    }
}

// ---------------------------------------------------------------------------
// The grammar as spec functions over the character sequence
// ---------------------------------------------------------------------------

/// First position at or after `i` holding no whitespace character.
pub open spec fn spec_skip_ws(s: Seq<char>, i: int) -> int
    recommends
        0 <= i <= s.len(),
    decreases s.len() - i,
        when 0 <= i <= s.len()
{
    if i < s.len() && is_ws_char(s[i]) {
        spec_skip_ws(s, i + 1)
    } else {
        i
    }
}

/// Outcome of matching the characters of `kw` from `j` on against the input
/// from `i` on: the position after the keyword, or the first violation.
pub open spec fn spec_read_keyword(s: Seq<char>, i: int, kw: Seq<char>, j: int) -> Result<
    int,
    LexError,
>
    recommends
        0 <= j <= kw.len(),
    decreases kw.len() - j,
        when 0 <= j <= kw.len()
{
    if j >= kw.len() {
        Ok(i)
    } else if i >= s.len() {
        Err(LexError::UnexpectedEndOfInput)
    } else if s[i] == kw[j] {
        spec_read_keyword(s, i + 1, kw, j + 1)
    } else {
        Err(LexError::UnexpectedCharacter(s[i]))
    }
}

/// Outcome of reading `k` more hexadecimal digits from `i` on, big-endian
/// into the accumulated value `acc`: the combined value and the position
/// after the digits, or the first violation.
pub open spec fn spec_read_hex_digits(s: Seq<char>, i: int, k: nat, acc: int) -> Result<
    (int, int),
    LexError,
>
    decreases k,
{
    if k == 0 {
        Ok((acc, i))
    } else if i >= s.len() {
        Err(LexError::UnexpectedEndOfInput)
    } else if is_hex_digit_char(s[i]) {
        spec_read_hex_digits(s, i + 1, (k - 1) as nat, acc * 16 + hex_digit_val(s[i]))
    } else {
        Err(LexError::UnexpectedCharacter(s[i]))
    }
}

/// A Unicode scalar value: a code point that is no surrogate half.
pub open spec fn is_scalar_value(v: int) -> bool {
    0 <= v <= 0x10FFFF && !(0xD800 <= v <= 0xDFFF)
}

/// Outcome of decoding one escape sequence whose backslash stands at `i`:
/// the character it denotes and the position after the sequence, or the
/// first violation.
pub open spec fn spec_read_escape(s: Seq<char>, i: int) -> Result<(char, int), LexError>
    recommends
        0 <= i < s.len(),
        s[i] == '\\',
{
    let j = i + 1;
    if j >= s.len() {
        Err(LexError::UnexpectedEndOfInput)
    } else {
        let c = s[j];
        if c == '"' || c == '\\' || c == '/' {
            Ok((c, j + 1))
        } else if c == 'b' {
            Ok(('\u{0008}', j + 1))
        } else if c == 'f' {
            Ok(('\u{000C}', j + 1))
        } else if c == 'n' {
            Ok(('\n', j + 1))
        } else if c == 'r' {
            Ok(('\r', j + 1))
        } else if c == 't' {
            Ok(('\t', j + 1))
        } else if c == 'u' {
            match spec_read_hex_digits(s, j + 1, 4, 0) {
                Ok(vp) => if is_scalar_value(vp.0) {
                    Ok(((vp.0 as u32) as char, vp.1))
                } else {
                    Err(LexError::InvalidEscape)
                },
                Err(e) => Err(e),
            }
        } else {
            Err(LexError::UnexpectedCharacter(c))
        }
    }
}

/// Reading `k` hexadecimal digits consumes exactly `k` characters when it
/// succeeds, and stays inside the input.
pub proof fn lemma_hex_digits_advance(s: Seq<char>, i: int, k: nat, acc: int)
    requires
        i <= s.len(),
    ensures
        spec_read_hex_digits(s, i, k, acc) matches Ok(vp) ==> vp.1 == i + k && i + k <= s.len(),
    decreases k,
{
    if k > 0 && i < s.len() && is_hex_digit_char(s[i]) {
        lemma_hex_digits_advance(s, i + 1, (k - 1) as nat, acc * 16 + hex_digit_val(s[i]));
    }
}

/// A successfully decoded escape sequence consumes at least two characters
/// and stays inside the input.
pub proof fn lemma_escape_advance(s: Seq<char>, i: int)
    ensures
        spec_read_escape(s, i) matches Ok(cp) ==> i + 2 <= cp.1 <= s.len(),
{
    if i + 2 <= s.len() {
        lemma_hex_digits_advance(s, i + 2, 4, 0);
    }
}

/// Outcome of scanning string-literal content from `i` on, where `i` stands
/// just after the opening quote: the decoded text and the position after the
/// closing quote, or the first violation.
pub open spec fn spec_read_string(s: Seq<char>, i: int) -> Result<(Seq<char>, int), LexError>
    recommends
        0 <= i <= s.len(),
    decreases s.len() - i,
        when 0 <= i <= s.len()
{
    if i >= s.len() {
        Err(LexError::UnclosedStringLiteral)
    } else if s[i] == '"' {
        Ok((Seq::empty(), i + 1))
    } else if s[i] == '\n' {
        Err(LexError::UnclosedStringLiteral)
    } else if s[i] == '\\' {
        match spec_read_escape(s, i) {
            Ok(cp) => {
                proof {
                    lemma_escape_advance(s, i);
                }
                match spec_read_string(s, cp.1) {
                    Ok(rp) => Ok((seq![cp.0] + rp.0, rp.1)),
                    Err(e) => Err(e),
                }
            },
            Err(e) => Err(e),
        }
    } else if s[i] as u32 >= 32 {
        match spec_read_string(s, i + 1) {
            Ok(rp) => Ok((seq![s[i]] + rp.0, rp.1)),
            Err(e) => Err(e),
        }
    } else {
        Err(LexError::UnexpectedCharacter(s[i]))
    }
}

/// First position at or after `i` holding no decimal digit.
pub open spec fn spec_digit_run_end(s: Seq<char>, i: int) -> int
    recommends
        0 <= i <= s.len(),
    decreases s.len() - i,
        when 0 <= i <= s.len()
{
    if i < s.len() && is_digit_char(s[i]) {
        spec_digit_run_end(s, i + 1)
    } else {
        i
    }
}

/// Outcome of reading a run of one or more decimal digits from `i` on: the
/// digits and the position after them. Zero digits are a violation: the end
/// of input where a digit was required, or a character that is no digit.
pub open spec fn spec_read_digits(s: Seq<char>, i: int) -> Result<(Seq<char>, int), LexError>
    recommends
        0 <= i <= s.len(),
{
    let e = spec_digit_run_end(s, i);
    if e == i {
        if i >= s.len() {
            Err(LexError::UnexpectedEndOfInput)
        } else {
            Err(LexError::NoDigitsFound)
        }
    } else {
        Ok((s.subrange(i, e), e))
    }
}

/// Outcome of reading the integer part of a numeric literal from `i` on: an
/// optional minus sign, then either a single `0` that no digit may follow,
/// or a run of digits.
pub open spec fn spec_read_int(s: Seq<char>, i: int) -> Result<(Seq<char>, int), LexError>
    recommends
        0 <= i <= s.len(),
{
    let j = if i < s.len() && s[i] == '-' {
        i + 1
    } else {
        i
    };
    let sign = if j != i {
        seq!['-']
    } else {
        Seq::<char>::empty()
    };
    if j < s.len() && s[j] == '0' {
        if j + 1 < s.len() && is_digit_char(s[j + 1]) {
            Err(LexError::LeadingZero)
        } else {
            Ok((sign.push('0'), j + 1))
        }
    } else {
        match spec_read_digits(s, j) {
            Ok(dp) => Ok((sign + dp.0, dp.1)),
            Err(e) => Err(e),
        }
    }
}

/// Outcome of reading the optional fractional part from `i` on: a dot
/// followed by one or more digits, or nothing.
pub open spec fn spec_read_frac(s: Seq<char>, i: int) -> Result<(Seq<char>, int), LexError>
    recommends
        0 <= i <= s.len(),
{
    if i < s.len() && s[i] == '.' {
        match spec_read_digits(s, i + 1) {
            Ok(dp) => Ok((seq!['.'] + dp.0, dp.1)),
            Err(e) => Err(e),
        }
    } else {
        Ok((Seq::empty(), i))
    }
}

/// Outcome of reading the optional exponent part from `i` on: `e` or `E`,
/// an optional sign (a plus is dropped, a minus kept), then one or more
/// digits. The marker is normalized to a lowercase `e`.
pub open spec fn spec_read_exp(s: Seq<char>, i: int) -> Result<(Seq<char>, int), LexError>
    recommends
        0 <= i <= s.len(),
{
    if i < s.len() && (s[i] == 'e' || s[i] == 'E') {
        let j = if i + 1 < s.len() && (s[i + 1] == '+' || s[i + 1] == '-') {
            i + 2
        } else {
            i + 1
        };
        let sign = if j == i + 2 && s[i + 1] == '-' {
            seq!['-']
        } else {
            Seq::<char>::empty()
        };
        match spec_read_digits(s, j) {
            Ok(dp) => Ok((seq!['e'] + sign + dp.0, dp.1)),
            Err(e) => Err(e),
        }
    } else {
        Ok((Seq::empty(), i))
    }
}

/// Outcome of reading one whole numeric literal from `i` on: the normalized
/// concatenation of its integer, fractional and exponent parts.
pub open spec fn spec_read_number(s: Seq<char>, i: int) -> Result<(Seq<char>, int), LexError>
    recommends
        0 <= i <= s.len(),
{
    match spec_read_int(s, i) {
        Ok(ip) => match spec_read_frac(s, ip.1) {
            Ok(fp) => match spec_read_exp(s, fp.1) {
                Ok(ep) => Ok((ip.0 + fp.0 + ep.0, ep.1)),
                Err(e) => Err(e),
            },
            Err(e) => Err(e),
        },
        Err(e) => Err(e),
    }
}

/// A character that may start a numeric literal.
pub open spec fn spec_is_number_start(c: char) -> bool {
    c == '-' || is_digit_char(c)
}

/// Outcome of one pull at position `i`: `Ok(None)` when only whitespace
/// remains, otherwise exactly one token and the position after it, or the
/// first violation.
pub open spec fn spec_next(s: Seq<char>, i: int) -> Result<Option<(TokenView, int)>, LexError>
    recommends
        0 <= i <= s.len(),
{
    let j = spec_skip_ws(s, i);
    if j >= s.len() {
        Ok(None)
    } else {
        let c = s[j];
        if c == '[' {
            Ok(Some((TokenView::OpenBracket, j + 1)))
        } else if c == ']' {
            Ok(Some((TokenView::CloseBracket, j + 1)))
        } else if c == '{' {
            Ok(Some((TokenView::OpenBrace, j + 1)))
        } else if c == '}' {
            Ok(Some((TokenView::CloseBrace, j + 1)))
        } else if c == ':' {
            Ok(Some((TokenView::Colon, j + 1)))
        } else if c == ',' {
            Ok(Some((TokenView::Comma, j + 1)))
        } else if c == 't' {
            match spec_read_keyword(s, j, seq!['t', 'r', 'u', 'e'], 0) {
                Ok(p) => Ok(Some((TokenView::TrueKeyword, p))),
                Err(e) => Err(e),
            }
        } else if c == 'f' {
            match spec_read_keyword(s, j, seq!['f', 'a', 'l', 's', 'e'], 0) {
                Ok(p) => Ok(Some((TokenView::FalseKeyword, p))),
                Err(e) => Err(e),
            }
        } else if c == 'n' {
            match spec_read_keyword(s, j, seq!['n', 'u', 'l', 'l'], 0) {
                Ok(p) => Ok(Some((TokenView::NullKeyword, p))),
                Err(e) => Err(e),
            }
        } else if c == '"' {
            match spec_read_string(s, j + 1) {
                Ok(tp) => Ok(Some((TokenView::StringLiteral(tp.0), tp.1))),
                Err(e) => Err(e),
            }
        } else if spec_is_number_start(c) {
            match spec_read_number(s, j) {
                Ok(tp) => Ok(Some((TokenView::NumberLiteral(tp.0), tp.1))),
                Err(e) => Err(e),
            }
        } else {
            Err(LexError::UnexpectedCharacter(c))
        }
    }
}

// ---------------------------------------------------------------------------
// Position bounds of the grammar
// ---------------------------------------------------------------------------

/// Skipping whitespace never moves backwards and never leaves the input.
pub proof fn lemma_skip_ws_bounds(s: Seq<char>, i: int)
    requires
        0 <= i <= s.len(),
    ensures
        i <= spec_skip_ws(s, i) <= s.len(),
    decreases s.len() - i,
{
    if i < s.len() && is_ws_char(s[i]) {
        lemma_skip_ws_bounds(s, i + 1);
    }
}

/// A matched keyword consumes exactly its remaining characters.
pub proof fn lemma_keyword_advance(s: Seq<char>, i: int, kw: Seq<char>, j: int)
    requires
        0 <= j <= kw.len(),
        i <= s.len(),
    ensures
        spec_read_keyword(s, i, kw, j) matches Ok(p) ==> p == i + kw.len() - j && p <= s.len(),
    decreases kw.len() - j,
{
    if j < kw.len() && i < s.len() && s[i] == kw[j] {
        lemma_keyword_advance(s, i + 1, kw, j + 1);
    }
}

/// A successfully scanned string consumes at least its closing quote and
/// stays inside the input.
pub proof fn lemma_string_advance(s: Seq<char>, i: int)
    requires
        0 <= i <= s.len(),
    ensures
        spec_read_string(s, i) matches Ok(rp) ==> i < rp.1 <= s.len(),
    decreases s.len() - i,
{
    if i < s.len() {
        if s[i] == '\\' {
            lemma_escape_advance(s, i);
            if let Ok(cp) = spec_read_escape(s, i) {
                lemma_string_advance(s, cp.1);
            }
        } else if s[i] != '"' && s[i] != '\n' && s[i] as u32 >= 32 {
            lemma_string_advance(s, i + 1);
        }
    }
}

/// A digit run never moves backwards and never leaves the input.
pub proof fn lemma_digit_run_bounds(s: Seq<char>, i: int)
    requires
        0 <= i <= s.len(),
    ensures
        i <= spec_digit_run_end(s, i) <= s.len(),
    decreases s.len() - i,
{
    if i < s.len() && is_digit_char(s[i]) {
        lemma_digit_run_bounds(s, i + 1);
    }
}

/// A successfully scanned numeric literal consumes at least one character
/// and stays inside the input.
pub proof fn lemma_number_advance(s: Seq<char>, i: int)
    requires
        0 <= i <= s.len(),
    ensures
        spec_read_number(s, i) matches Ok(np) ==> i < np.1 <= s.len(),
{
    let j = if i < s.len() && s[i] == '-' {
        i + 1
    } else {
        i
    };
    lemma_digit_run_bounds(s, j);
    if let Ok(ip) = spec_read_int(s, i) {
        if ip.1 < s.len() && s[ip.1] == '.' {
            lemma_digit_run_bounds(s, ip.1 + 1);
        }
        if let Ok(fp) = spec_read_frac(s, ip.1) {
            if fp.1 < s.len() && (s[fp.1] == 'e' || s[fp.1] == 'E') {
                lemma_digit_run_bounds(s, fp.1 + 1);
                if fp.1 + 2 <= s.len() {
                    lemma_digit_run_bounds(s, fp.1 + 2);
                }
            }
        }
    }
}

/// One successful pull that yields a token always advances the scan
/// position, and never moves it outside the input.
pub proof fn lemma_next_advance(s: Seq<char>, i: int)
    requires
        0 <= i <= s.len(),
    ensures
        spec_next(s, i) matches Ok(opt) ==> match opt {
            Some(tp) => i < tp.1 <= s.len(),
            None => true,
        },
{
    lemma_skip_ws_bounds(s, i);
    let j = spec_skip_ws(s, i);
    if j < s.len() {
        lemma_keyword_advance(s, j, seq!['t', 'r', 'u', 'e'], 0);
        lemma_keyword_advance(s, j, seq!['f', 'a', 'l', 's', 'e'], 0);
        lemma_keyword_advance(s, j, seq!['n', 'u', 'l', 'l'], 0);
        if s[j] == '"' {
            lemma_string_advance(s, j + 1);
        }
        lemma_number_advance(s, j);
    }
}

/// Outcome of scanning the whole input from `i` on: every token in order
/// until only whitespace remains, or the first violation.
pub open spec fn spec_tokens_from(s: Seq<char>, i: int) -> Result<Seq<TokenView>, LexError>
    recommends
        0 <= i <= s.len(),
    decreases s.len() - i,
        when 0 <= i <= s.len()
{
    match spec_next(s, i) {
        Ok(opt) => match opt {
            None => Ok(Seq::empty()),
            Some(tp) => {
                proof {
                    lemma_next_advance(s, i);
                }
                match spec_tokens_from(s, tp.1) {
                    Ok(rest) => Ok(seq![tp.0] + rest),
                    Err(e) => Err(e),
                }
            },
        },
        Err(e) => Err(e),
    }
}

// ---------------------------------------------------------------------------
// Wrappers around std functions that vstd gives no specification
// ---------------------------------------------------------------------------

/// Relies on String::push: appends exactly the one character to the text.
#[verifier::external_body]
fn push_char(s: &mut String, c: char)
    ensures
        final(s)@ == old(s)@.push(c),
{
    s.push(c)
}

/// Relies on char::from_u32: returns `Some` exactly when the value is a
/// Unicode scalar value (at most 0x10FFFF and no surrogate half), and the
/// returned character carries that value.
#[verifier::external_body]
fn char_from_u32(v: u32) -> (r: Option<char>)
    ensures
        (r is Some) == is_scalar_value(v as int),
        r matches Some(c) ==> c as u32 == v,
{
    char::from_u32(v)
}

// ---------------------------------------------------------------------------
// The tokenizer
// ---------------------------------------------------------------------------

/// The tokenizer: consumes one reader and produces tokens one at a time.
pub struct Lexer {
    input: Input,
}

impl Lexer {
    /// The characters of the source text under scan.
    pub closed spec fn src(self) -> Seq<char> {
        self.input.src()
    }

    /// The current scan position, counted in characters.
    pub closed spec fn at(self) -> int {
        self.input.at()
    }

    pub closed spec fn wf(self) -> bool {
        self.input.wf()
    }

    pub fn new(input: Input) -> (r: Self)
        requires
            input.wf(),
        ensures
            r.wf(),
            r.src() == input.src(),
            r.at() == input.at(),
    {
        Lexer { input }
    }

    /// Consumes every whitespace character at the scan position.
    #[verifier::loop_isolation(false)]
    pub fn skip_whitespace(&mut self)
        requires
            old(self).wf(),
        ensures
            final(self).wf(),
            final(self).src() == old(self).src(),
            final(self).at() == spec_skip_ws(old(self).src(), old(self).at()),
    {
        loop
            invariant
                self.wf(),
                self.src() == old(self).src(),
                old(self).at() <= self.at() <= self.src().len(),
                spec_skip_ws(self.src(), old(self).at()) == spec_skip_ws(
                    self.src(),
                    self.at(),
                ),
            decreases self.src().len() - self.at(),
        {
            match self.input.cur() {
                Some('\t') | Some('\n') | Some('\r') | Some(' ') => self.input.bump(),
                _ => break,
            }
        }
    }

    /// Matches the input character-for-character against `expected`.
    #[verifier::loop_isolation(false)]
    pub fn read_keyword(&mut self, expected: &str) -> (r: Result<(), LexError>)
        requires
            old(self).wf(),
        ensures
            final(self).wf(),
            final(self).src() == old(self).src(),
            match spec_read_keyword(old(self).src(), old(self).at(), expected@, 0) {
                Ok(p) => r is Ok && final(self).at() == p,
                Err(e) => r == Err::<(), LexError>(e),
            },
    {
        let n = expected.unicode_len();
        let mut j: usize = 0;
        while j < n
            invariant
                self.wf(),
                self.src() == old(self).src(),
                j <= n,
                n == expected@.len(),
                spec_read_keyword(old(self).src(), old(self).at(), expected@, 0)
                    == spec_read_keyword(self.src(), self.at(), expected@, j as int),
            decreases n - j,
        {
            let chr = expected.get_char(j);
            match self.input.cur() {
                Some(c) => {
                    if c == chr {
                        self.input.bump();
                        j = j + 1;
                    } else {
                        return Err(LexError::UnexpectedCharacter(c));
                    }
                },
                None => {
                    return Err(LexError::UnexpectedEndOfInput);
                },
            }
        }
        Ok(())
    }

    /// Reads exactly four hexadecimal digits, combining them big-endian
    /// into one 16-bit code point value.
    #[verifier::loop_isolation(false)]
    pub fn read_hex_digits(&mut self) -> (r: Result<u32, LexError>)
        requires
            old(self).wf(),
        ensures
            final(self).wf(),
            final(self).src() == old(self).src(),
            match spec_read_hex_digits(old(self).src(), old(self).at(), 4, 0) {
                Ok(vp) => r matches Ok(v) && v as int == vp.0 && final(self).at() == vp.1,
                Err(e) => r == Err::<u32, LexError>(e),
            },
    {
        let mut result: u32 = 0;
        let mut k: usize = 0;
        while k < 4
            invariant
                self.wf(),
                self.src() == old(self).src(),
                k <= 4,
                k == 0 ==> result == 0,
                k == 1 ==> result <= 0xF,
                k == 2 ==> result <= 0xFF,
                k == 3 ==> result <= 0xFFF,
                result <= 0xFFFF,
                spec_read_hex_digits(old(self).src(), old(self).at(), 4, 0)
                    == spec_read_hex_digits(
                    self.src(),
                    self.at(),
                    (4 - k) as nat,
                    result as int,
                ),
            decreases 4 - k,
        {
            match self.input.cur() {
                Some(c) => match hex_digit_value(c) {
                    Some(d) => {
                        self.input.bump();
                        result = result * 16 + d;
                        k = k + 1;
                    },
                    None => {
                        return Err(LexError::UnexpectedCharacter(c));
                    },
                },
                None => {
                    return Err(LexError::UnexpectedEndOfInput);
                },
            }
        }
        Ok(result)
    }
    /// Decodes one escape sequence. The scan position must stand on the
    /// backslash that opens it.
    pub fn read_escape(&mut self) -> (r: Result<char, LexError>)
        requires
            old(self).wf(),
            old(self).at() < old(self).src().len(),
            old(self).src()[old(self).at()] == '\\',
        ensures
            final(self).wf(),
            final(self).src() == old(self).src(),
            match spec_read_escape(old(self).src(), old(self).at()) {
                Ok(cp) => r matches Ok(c) && c == cp.0 && final(self).at() == cp.1,
                Err(e) => r == Err::<char, LexError>(e),
            },
    {
        self.input.bump();
        let chr = match self.input.cur() {
            Some(c) => c,
            None => {
                return Err(LexError::UnexpectedEndOfInput);
            },
        };
        match chr {
            '"' | '\\' | '/' => {
                self.input.bump();
                Ok(chr)
            },
            'b' => {
                self.input.bump();
                Ok('\u{0008}')
            },
            'f' => {
                self.input.bump();
                Ok('\u{000C}')
            },
            'n' => {
                self.input.bump();
                Ok('\n')
            },
            'r' => {
                self.input.bump();
                Ok('\r')
            },
            't' => {
                self.input.bump();
                Ok('\t')
            },
            'u' => {
                self.input.bump();
                match self.read_hex_digits() {
                    Ok(v) => match char_from_u32(v) {
                        Some(c) => {
                            proof {
                                vstd::utf8::char_u32_cast(c, v);
                            }
                            Ok(c)
                        },
                        None => Err(LexError::InvalidEscape),
                    },
                    Err(e) => Err(e),
                }
            },
            _ => Err(LexError::UnexpectedCharacter(chr)),
        }
    }

    /// Scans one string literal. The scan position must stand on the
    /// opening quote; the returned text holds the content with every
    /// escape decoded, and the closing quote is consumed.
    #[verifier::loop_isolation(false)]
    pub fn read_string(&mut self) -> (r: Result<String, LexError>)
        requires
            old(self).wf(),
            old(self).at() < old(self).src().len(),
            old(self).src()[old(self).at()] == '"',
        ensures
            final(self).wf(),
            final(self).src() == old(self).src(),
            match spec_read_string(old(self).src(), old(self).at() + 1) {
                Ok(tp) => r matches Ok(text) && text@ == tp.0 && final(self).at() == tp.1,
                Err(e) => r == Err::<String, LexError>(e),
            },
    {
        self.input.bump();
        let mut result = String::new();
        let ghost s: Seq<char> = self.src();
        let ghost start: int = self.at();
        loop
            invariant
                self.wf(),
                self.src() == s,
                start <= self.at() <= s.len(),
                spec_read_string(s, start) == (match spec_read_string(s, self.at()) {
                    Ok(rp) => Ok::<(Seq<char>, int), LexError>((result@ + rp.0, rp.1)),
                    Err(e) => Err(e),
                }),
            decreases s.len() - self.at(),
        {
            match self.input.cur() {
                Some(c) => {
                    if c == '"' {
                        self.input.bump();
                        proof {
                            assert(result@ + Seq::<char>::empty() =~= result@);
                        }
                        return Ok(result);
                    } else if c == '\n' {
                        return Err(LexError::UnclosedStringLiteral);
                    } else if c == '\\' {
                        let ghost i: int = self.at();
                        let ghost acc: Seq<char> = result@;
                        match self.read_escape() {
                            Ok(ec) => {
                                push_char(&mut result, ec);
                                proof {
                                    lemma_escape_advance(s, i);
                                    if let Ok(cp) = spec_read_escape(s, i) {
                                        if let Ok(rp) = spec_read_string(s, cp.1) {
                                            assert(acc + (seq![cp.0] + rp.0) =~= acc.push(
                                                cp.0,
                                            ) + rp.0);
                                        }
                                    }
                                }
                            },
                            Err(e) => {
                                return Err(e);
                            },
                        }
                    } else if c as u32 >= 32 {
                        let ghost i: int = self.at();
                        let ghost acc: Seq<char> = result@;
                        self.input.bump();
                        push_char(&mut result, c);
                        proof {
                            if let Ok(rp) = spec_read_string(s, i + 1) {
                                assert(acc + (seq![c] + rp.0) =~= acc.push(c) + rp.0);
                            }
                        }
                    } else {
                        return Err(LexError::UnexpectedCharacter(c));
                    }
                },
                None => {
                    return Err(LexError::UnclosedStringLiteral);
                },
            }
        }
    }

    /// Reads the integer part of a numeric literal: an optional minus
    /// sign, then a single `0` that no digit may follow, or a digit run.
    pub fn read_int(&mut self) -> (r: Result<String, LexError>)
        requires
            old(self).wf(),
        ensures
            final(self).wf(),
            final(self).src() == old(self).src(),
            match spec_read_int(old(self).src(), old(self).at()) {
                Ok(ip) => r matches Ok(text) && text@ == ip.0 && final(self).at() == ip.1,
                Err(e) => r == Err::<String, LexError>(e),
            },
    {
        let mut result = String::new();
        let minus = match self.input.cur() {
            Some('-') => true,
            _ => false,
        };
        if minus {
            push_char(&mut result, '-');
            self.input.bump();
            proof {
                assert(Seq::<char>::empty().push('-') =~= seq!['-']);
            }
        }
        match self.input.cur() {
            Some('0') => {
                push_char(&mut result, '0');
                self.input.bump();
                if let Some(c) = self.input.cur() {
                    if c as u32 >= 48 && c as u32 <= 57 {
                        return Err(LexError::LeadingZero);
                    }
                }
                Ok(result)
            },
            _ => match self.read_digits(&mut result) {
                Ok(_) => Ok(result),
                Err(e) => Err(e),
            },
        }
    }

    /// Reads the optional fractional part of a numeric literal: a dot
    /// followed by a digit run, or nothing.
    pub fn read_frac(&mut self) -> (r: Result<String, LexError>)
        requires
            old(self).wf(),
        ensures
            final(self).wf(),
            final(self).src() == old(self).src(),
            match spec_read_frac(old(self).src(), old(self).at()) {
                Ok(fp) => r matches Ok(text) && text@ == fp.0 && final(self).at() == fp.1,
                Err(e) => r == Err::<String, LexError>(e),
            },
    {
        let mut result = String::new();
        match self.input.cur() {
            Some('.') => {
                push_char(&mut result, '.');
                self.input.bump();
                proof {
                    assert(Seq::<char>::empty().push('.') =~= seq!['.']);
                }
                match self.read_digits(&mut result) {
                    Ok(_) => Ok(result),
                    Err(e) => Err(e),
                }
            },
            _ => Ok(result),
        }
    }

    /// Reads the optional exponent part of a numeric literal: `e` or `E`,
    /// an optional sign, then a digit run. The marker comes out as a
    /// lowercase `e` and a plus sign is dropped.
    pub fn read_exp(&mut self) -> (r: Result<String, LexError>)
        requires
            old(self).wf(),
        ensures
            final(self).wf(),
            final(self).src() == old(self).src(),
            match spec_read_exp(old(self).src(), old(self).at()) {
                Ok(ep) => r matches Ok(text) && text@ == ep.0 && final(self).at() == ep.1,
                Err(e) => r == Err::<String, LexError>(e),
            },
    {
        let mut result = String::new();
        let marker = match self.input.cur() {
            Some('e') | Some('E') => true,
            _ => false,
        };
        if !marker {
            return Ok(result);
        }
        push_char(&mut result, 'e');
        self.input.bump();
        proof {
            assert(Seq::<char>::empty().push('e') =~= seq!['e'] + Seq::<char>::empty());
        }
        match self.input.cur() {
            Some('+') => self.input.bump(),
            Some('-') => {
                push_char(&mut result, '-');
                self.input.bump();
                proof {
                    assert(Seq::<char>::empty().push('e').push('-') =~= seq!['e']
                        + seq!['-']);
                }
            },
            _ => {},
        }
        match self.read_digits(&mut result) {
            Ok(_) => Ok(result),
            Err(e) => Err(e),
        }
    }

    /// Reads a run of one or more decimal digits into `buffer`. Zero
    /// digits are a violation and leave the buffer and the position alone.
    #[verifier::loop_isolation(false)]
    pub fn read_digits(&mut self, buffer: &mut String) -> (r: Result<(), LexError>)
        requires
            old(self).wf(),
        ensures
            final(self).wf(),
            final(self).src() == old(self).src(),
            match spec_read_digits(old(self).src(), old(self).at()) {
                Ok(dp) => r is Ok && final(buffer)@ == old(buffer)@ + dp.0
                    && final(self).at() == dp.1,
                Err(e) => r == Err::<(), LexError>(e) && final(buffer)@ == old(buffer)@
                    && final(self).at() == old(self).at(),
            },
    {
        let ghost s: Seq<char> = self.src();
        let ghost start: int = self.at();
        let mut found_digits = false;
        loop
            invariant
                self.wf(),
                self.src() == s,
                start <= self.at() <= s.len(),
                found_digits == (self.at() > start),
                buffer@ == old(buffer)@ + s.subrange(start, self.at()),
                spec_digit_run_end(s, start) == spec_digit_run_end(s, self.at()),
            decreases s.len() - self.at(),
        {
            match self.input.cur() {
                Some(c) => {
                    if c as u32 >= 48 && c as u32 <= 57 {
                        let ghost i: int = self.at();
                        self.input.bump();
                        push_char(buffer, c);
                        found_digits = true;
                        proof {
                            assert(s.subrange(start, i + 1) =~= s.subrange(start, i).push(
                                c,
                            ));
                        }
                    } else {
                        break;
                    }
                },
                None => {
                    break;
                },
            }
        }
        if found_digits {
            Ok(())
        } else {
            proof {
                assert(old(buffer)@ + s.subrange(start, start) =~= old(buffer)@);
            }
            match self.input.cur() {
                Some(_) => Err(LexError::NoDigitsFound),
                None => Err(LexError::UnexpectedEndOfInput),
            }
        }
    }

    /// Reads one whole numeric literal: integer part, optional fraction,
    /// optional exponent, concatenated as normalized text.
    pub fn read_number(&mut self) -> (r: Result<String, LexError>)
        requires
            old(self).wf(),
        ensures
            final(self).wf(),
            final(self).src() == old(self).src(),
            match spec_read_number(old(self).src(), old(self).at()) {
                Ok(np) => r matches Ok(text) && text@ == np.0 && final(self).at() == np.1,
                Err(e) => r == Err::<String, LexError>(e),
            },
    {
        let mut text = match self.read_int() {
            Ok(t) => t,
            Err(e) => {
                return Err(e);
            },
        };
        let frac = match self.read_frac() {
            Ok(t) => t,
            Err(e) => {
                return Err(e);
            },
        };
        let exp = match self.read_exp() {
            Ok(t) => t,
            Err(e) => {
                return Err(e);
            },
        };
        text.append(frac.as_str());
        text.append(exp.as_str());
        Ok(text)
    }
    /// Pulls the next token: skips whitespace, then scans exactly one
    /// token. `Ok(None)` is the end of the sequence and distinct from
    /// every error.
    pub fn next(&mut self) -> (r: Result<Option<Token>, LexError>)
        requires
            old(self).wf(),
        ensures
            final(self).wf(),
            final(self).src() == old(self).src(),
            match spec_next(old(self).src(), old(self).at()) {
                Ok(opt) => match opt {
                    Some(tp) => r matches Ok(Some(tok)) && tok@ == tp.0 && final(self).at()
                        == tp.1,
                    None => r == Ok::<Option<Token>, LexError>(None) && final(self).at()
                        == spec_skip_ws(old(self).src(), old(self).at()),
                },
                Err(e) => r == Err::<Option<Token>, LexError>(e),
            },
    {
        self.skip_whitespace();
        let c = match self.input.cur() {
            Some(c) => c,
            None => {
                return Ok(None);
            },
        };
        match c {
            '[' => {
                self.input.bump();
                Ok(Some(Token::OpenBracket))
            },
            ']' => {
                self.input.bump();
                Ok(Some(Token::CloseBracket))
            },
            '{' => {
                self.input.bump();
                Ok(Some(Token::OpenBrace))
            },
            '}' => {
                self.input.bump();
                Ok(Some(Token::CloseBrace))
            },
            ':' => {
                self.input.bump();
                Ok(Some(Token::Colon))
            },
            ',' => {
                self.input.bump();
                Ok(Some(Token::Comma))
            },
            't' => {
                proof {
                    reveal_strlit("true");
                    assert("true"@ =~= seq!['t', 'r', 'u', 'e']);
                }
                match self.read_keyword("true") {
                    Ok(_) => Ok(Some(Token::TrueKeyword)),
                    Err(e) => Err(e),
                }
            },
            'f' => {
                proof {
                    reveal_strlit("false");
                    assert("false"@ =~= seq!['f', 'a', 'l', 's', 'e']);
                }
                match self.read_keyword("false") {
                    Ok(_) => Ok(Some(Token::FalseKeyword)),
                    Err(e) => Err(e),
                }
            },
            'n' => {
                proof {
                    reveal_strlit("null");
                    assert("null"@ =~= seq!['n', 'u', 'l', 'l']);
                }
                match self.read_keyword("null") {
                    Ok(_) => Ok(Some(Token::NullKeyword)),
                    Err(e) => Err(e),
                }
            },
            '"' => match self.read_string() {
                Ok(text) => Ok(Some(Token::StringLiteral(text))),
                Err(e) => Err(e),
            },
            _ => {
                if is_number_start(c) {
                    match self.read_number() {
                        Ok(text) => Ok(Some(Token::NumberLiteral(text))),
                        Err(e) => Err(e),
                    }
                } else {
                    Err(LexError::UnexpectedCharacter(c))
                }
            },
        }
    }
}

/// Whether a character may start a numeric literal: a minus sign or an
/// ASCII digit.
pub fn is_number_start(c: char) -> (r: bool)
    ensures
        r == spec_is_number_start(c),
{
    c == '-' || (c as u32 >= 48 && c as u32 <= 57)
}

/// The mathematical form of a token sequence.
pub open spec fn token_views(ts: Seq<Token>) -> Seq<TokenView> {
    ts.map_values(|t: Token| t@)
}

/// Scans a whole source text into its token sequence, or reports the
/// first grammar violation.
#[verifier::loop_isolation(false)]
pub fn tokenize(source: String) -> (r: Result<Vec<Token>, LexError>)
    ensures
        match spec_tokens_from(source@, 0) {
            Ok(tvs) => r matches Ok(ts) && token_views(ts@) == tvs,
            Err(e) => r == Err::<Vec<Token>, LexError>(e),
        },
{
    let mut lexer = Lexer::new(Input::new(source));
    let mut tokens: Vec<Token> = Vec::new();
    loop
        invariant
            lexer.wf(),
            lexer.src() == source@,
            0 <= lexer.at() <= source@.len(),
            spec_tokens_from(source@, 0) == (match spec_tokens_from(source@, lexer.at()) {
                Ok(rest) => Ok::<Seq<TokenView>, LexError>(token_views(tokens@) + rest),
                Err(e) => Err(e),
            }),
        decreases source@.len() - lexer.at(),
    {
        let ghost i: int = lexer.at();
        let ghost toks: Seq<Token> = tokens@;
        match lexer.next() {
            Ok(Some(tok)) => {
                proof {
                    lemma_next_advance(source@, i);
                }
                tokens.push(tok);
                proof {
                    if let Ok(Some(tp)) = spec_next(source@, i) {
                        assert(token_views(toks.push(tok)) =~= token_views(toks).push(
                            tok@,
                        ));
                        if let Ok(rest) = spec_tokens_from(source@, tp.1) {
                            assert(token_views(toks) + (seq![tp.0] + rest) =~= token_views(
                                toks,
                            ).push(tp.0) + rest);
                        }
                    }
                }
            },
            Ok(None) => {
                proof {
                    assert(token_views(tokens@) + Seq::<TokenView>::empty() =~= token_views(
                        tokens@,
                    ));
                }
                return Ok(tokens);
            },
            Err(e) => {
                return Err(e);
            },
        }
    }
}

// ---------------------------------------------------------------------------
// Laws
// ---------------------------------------------------------------------------

/// Law: scanning is a pure function of the source text. Two scans of equal
/// texts yield equal outcomes; no hidden state can tell them apart.
pub proof fn lemma_tokens_deterministic(s1: Seq<char>, s2: Seq<char>)
    requires
        s1 == s2,
    ensures
        spec_tokens_from(s1, 0) == spec_tokens_from(s2, 0),
{
}

/// Every position of `s` from `i` on holds whitespace, so skipping runs to
/// the end of the input.
proof fn lemma_skip_ws_all(s: Seq<char>, i: int)
    requires
        0 <= i <= s.len(),
        forall|k: int| 0 <= k < s.len() ==> is_ws_char(s[k]),
    ensures
        spec_skip_ws(s, i) == s.len(),
    decreases s.len() - i,
{
    if i < s.len() && is_ws_char(s[i]) {
        lemma_skip_ws_all(s, i + 1);
    }
}

/// Law: a text of whitespace alone yields the empty token sequence, an
/// immediate end rather than an error.
pub proof fn lemma_whitespace_only_is_empty(s: Seq<char>)
    requires
        forall|k: int| 0 <= k < s.len() ==> is_ws_char(s[k]),
    ensures
        spec_tokens_from(s, 0) == Ok::<Seq<TokenView>, LexError>(Seq::<TokenView>::empty()),
{
    lemma_skip_ws_all(s, 0);
}

/// The numeric value of a hexadecimal digit character, either case, or
/// `None` for any other character.
fn hex_digit_value(c: char) -> (r: Option<u32>)
    ensures
        (r is Some) == is_hex_digit_char(c),
        r matches Some(v) ==> v as int == hex_digit_val(c) && v <= 15,
{
    let u = c as u32;
    if 48 <= u && u <= 57 {
        Some(u - 48)
    } else if 97 <= u && u <= 102 {
        Some(u - 87)
    } else if 65 <= u && u <= 70 {
        Some(u - 55)
    } else {
        None
    }
}

} // verus!
