//! The scanning rules as a mathematical model over a sequence of bytes.
//!
//! Everything here is ghost code except the byte classifiers at the top.
//! The executable lexer is proved to compute exactly [`scan`] one token at a
//! time and [`token_stream`] as a whole.

use vstd::prelude::*;
use crate::lexer::lexer::{LexError, SpecToken};

verus! {

// The ASCII codes of the bytes that the scanning rules tell apart.
pub const TAB: u8 = 0x09;
pub const LINE_FEED: u8 = 0x0A;
pub const FORM_FEED: u8 = 0x0C;
pub const CARRIAGE_RETURN: u8 = 0x0D;
pub const BLANK: u8 = 0x20;
pub const LEFT_PAREN: u8 = 0x28;
pub const RIGHT_PAREN: u8 = 0x29;
pub const DIGIT_ZERO: u8 = 0x30;
pub const DIGIT_NINE: u8 = 0x39;
pub const SEMICOLON: u8 = 0x3B;
pub const LESS: u8 = 0x3C;
pub const EQUALS: u8 = 0x3D;
pub const GREATER: u8 = 0x3E;
pub const UPPER_A: u8 = 0x41;
pub const UPPER_Z: u8 = 0x5A;
pub const UNDERSCORE: u8 = 0x5F;
pub const LOWER_A: u8 = 0x61;
pub const LOWER_Z: u8 = 0x7A;
pub const LEFT_BRACE: u8 = 0x7B;
pub const RIGHT_BRACE: u8 = 0x7D;

/// The classes of bytes that form runs in the source text.
pub enum ByteClass {
    /// Blank bytes between tokens.
    Space,
    /// Decimal digits.
    Digit,
    /// Bytes of a word: letters and the underscore.
    Word,
}

/// ASCII whitespace: blank, tab, line feed, form feed, carriage return.
pub open spec fn is_space(b: u8) -> bool {
    b == BLANK || b == TAB || b == LINE_FEED || b == FORM_FEED || b == CARRIAGE_RETURN
}

/// A decimal digit.
pub open spec fn is_digit(b: u8) -> bool {
    DIGIT_ZERO <= b <= DIGIT_NINE
}

/// An ASCII letter of either case.
pub open spec fn is_letter(b: u8) -> bool {
    (UPPER_A <= b <= UPPER_Z) || (LOWER_A <= b <= LOWER_Z)
}

/// A byte of a word: a letter or an underscore. A digit is none, so a word
/// ends where a digit stands.
pub open spec fn is_word_byte(b: u8) -> bool {
    is_letter(b) || b == UNDERSCORE
}

/// A byte that can start a token: punctuation, an operator, a digit, a
/// letter or an underscore. Every byte of a token is one of these.
pub open spec fn starts_token(b: u8) -> bool {
    ||| b == LEFT_BRACE
    ||| b == RIGHT_BRACE
    ||| b == LEFT_PAREN
    ||| b == RIGHT_PAREN
    ||| b == SEMICOLON
    ||| b == EQUALS
    ||| b == LESS
    ||| b == GREATER
    ||| is_digit(b)
    ||| is_word_byte(b)
}

/// A byte that the lexer can read: whitespace or a byte of a token.
pub open spec fn recognized(b: u8) -> bool {
    is_space(b) || starts_token(b)
}

/// Whether the byte belongs to the class.
pub open spec fn in_class(class: ByteClass, b: u8) -> bool {
    match class {
        ByteClass::Space => is_space(b),
        ByteClass::Digit => is_digit(b),
        ByteClass::Word => is_word_byte(b),
    }
}

/// Whether the byte is whitespace.
pub fn byte_is_space(b: u8) -> (r: bool)
    ensures
        r == is_space(b),
{
    b == BLANK || b == TAB || b == LINE_FEED || b == FORM_FEED || b == CARRIAGE_RETURN
}

/// Whether the byte is a decimal digit.
pub fn byte_is_digit(b: u8) -> (r: bool)
    ensures
        r == is_digit(b),
{
    DIGIT_ZERO <= b && b <= DIGIT_NINE
}

/// Whether the byte is a letter or an underscore.
pub fn byte_is_word(b: u8) -> (r: bool)
    ensures
        r == is_word_byte(b),
{
    (UPPER_A <= b && b <= UPPER_Z) || (LOWER_A <= b && b <= LOWER_Z) || b == UNDERSCORE
}

/// The bytes that spell `int`.
pub open spec fn keyword_int() -> Seq<u8> {
    seq![0x69u8, 0x6Eu8, 0x74u8]
}

/// The bytes that spell `return`.
pub open spec fn keyword_return() -> Seq<u8> {
    seq![0x72u8, 0x65u8, 0x74u8, 0x75u8, 0x72u8, 0x6Eu8]
}

/// The bytes that spell `if`.
pub open spec fn keyword_if() -> Seq<u8> {
    seq![0x69u8, 0x66u8]
}

/// The bytes that spell `else`.
pub open spec fn keyword_else() -> Seq<u8> {
    seq![0x65u8, 0x6Cu8, 0x73u8, 0x65u8]
}

/// The text that a run of ASCII bytes spells: one character per byte.
pub open spec fn text_of(bytes: Seq<u8>) -> Seq<char> {
    Seq::new(bytes.len(), |k: int| bytes[k] as char)
}

/// Bytes that are all ASCII.
pub open spec fn all_ascii(bytes: Seq<u8>) -> bool {
    forall|k: int| 0 <= k < bytes.len() ==> #[trigger] bytes[k] < 0x80
}

/// Where the run of bytes of `class` that starts at `i` ends: the first
/// index at or after `i` whose byte is outside the class, or the length.
pub open spec fn run_end(s: Seq<u8>, i: int, class: ByteClass) -> int
    decreases s.len() - i,
{
    if 0 <= i < s.len() && in_class(class, s[i]) {
        run_end(s, i + 1, class)
    } else {
        i
    }
}

/// The token that a word stands for: a keyword where the bytes spell one
/// exactly, letter case included, and an identifier otherwise.
pub open spec fn word_token(word: Seq<u8>) -> SpecToken {
    if word == keyword_int() {
        SpecToken::Int
    } else if word == keyword_return() {
        SpecToken::Return
    } else if word == keyword_if() {
        SpecToken::If
    } else if word == keyword_else() {
        SpecToken::Else
    } else {
        SpecToken::Identifier(text_of(word))
    }
}

/// One scanned token and the index just past its last byte.
pub ghost struct Lexeme {
    pub token: SpecToken,
    pub end: int,
}

/// Where the token at or after `i` starts: after the whitespace at `i`.
pub open spec fn token_start(s: Seq<u8>, i: int) -> int {
    run_end(s, i, ByteClass::Space)
}

/// The token found at a byte that is not whitespace, with its extent.
pub open spec fn token_at(s: Seq<u8>, start: int) -> Result<Lexeme, LexError>
    recommends
        0 <= start < s.len(),
{
    let b = s[start];
    let two = start + 1 < s.len() && s[start + 1] == EQUALS;
    if b == LEFT_BRACE {
        Ok(Lexeme { token: SpecToken::LSquigly, end: start + 1 })
    } else if b == RIGHT_BRACE {
        Ok(Lexeme { token: SpecToken::RSquigly, end: start + 1 })
    } else if b == LEFT_PAREN {
        Ok(Lexeme { token: SpecToken::LPar, end: start + 1 })
    } else if b == RIGHT_PAREN {
        Ok(Lexeme { token: SpecToken::RPar, end: start + 1 })
    } else if b == SEMICOLON {
        Ok(Lexeme { token: SpecToken::Semicolon, end: start + 1 })
    } else if b == EQUALS {
        Ok(Lexeme { token: SpecToken::Equal, end: start + 1 })
    } else if b == LESS {
        if two {
            Ok(Lexeme { token: SpecToken::LEThan, end: start + 2 })
        } else {
            Ok(Lexeme { token: SpecToken::LThan, end: start + 1 })
        }
    } else if b == GREATER {
        if two {
            Ok(Lexeme { token: SpecToken::GEThan, end: start + 2 })
        } else {
            Ok(Lexeme { token: SpecToken::GThan, end: start + 1 })
        }
    } else if is_digit(b) {
        let end = run_end(s, start, ByteClass::Digit);
        Ok(Lexeme { token: SpecToken::IntVal(text_of(s.subrange(start, end))), end })
    } else if is_word_byte(b) {
        let end = run_end(s, start, ByteClass::Word);
        Ok(Lexeme { token: word_token(s.subrange(start, end)), end })
    } else {
        Err(LexError::UnrecognizedCharacter { position: start as usize, byte: b })
    }
}

/// The next token of `s` from index `i` on: whitespace is passed over, the
/// end of the bytes gives the end marker, and a byte that starts no token
/// is an error that names the byte and its index.
pub open spec fn scan(s: Seq<u8>, i: int) -> Result<Lexeme, LexError> {
    let start = token_start(s, i);
    if start >= s.len() {
        Ok(Lexeme { token: SpecToken::EOF, end: start })
    } else {
        token_at(s, start)
    }
}

/// All tokens of `s` from index `i` on, up to and including the end marker,
/// or the first error.
pub open spec fn token_stream(s: Seq<u8>, i: int) -> Result<Seq<SpecToken>, LexError>
    decreases s.len() - i,
    when 0 <= i
    via token_stream_terminates
{
    match scan(s, i) {
        Err(e) => Err(e),
        Ok(lexeme) => {
            if lexeme.token is EOF {
                Ok(seq![lexeme.token])
            } else {
                match token_stream(s, lexeme.end) {
                    Err(e) => Err(e),
                    Ok(rest) => Ok(seq![lexeme.token] + rest),
                }
            }
        },
    }
}

#[via_fn]
proof fn token_stream_terminates(s: Seq<u8>, i: int) {
    lemma_scan_extent(s, i);
}

/// A run never ends before it starts nor past the bytes; every byte in it
/// is of the class, and the byte that ends it, if any, is not.
pub proof fn lemma_run_end(s: Seq<u8>, i: int, class: ByteClass)
    requires
        0 <= i <= s.len(),
    ensures
        i <= run_end(s, i, class) <= s.len(),
        forall|k: int| i <= k < run_end(s, i, class) ==> in_class(class, #[trigger] s[k]),
        run_end(s, i, class) < s.len() ==> !in_class(class, s[run_end(s, i, class)]),
    decreases s.len() - i,
{
    if i < s.len() && in_class(class, s[i]) {
        lemma_run_end(s, i + 1, class);
    }
}

/// A token starts at or after the index scanned from and ends within the
/// bytes; every token but the end marker takes at least one byte.
pub proof fn lemma_scan_extent(s: Seq<u8>, i: int)
    requires
        0 <= i,
    ensures
        i <= token_start(s, i),
        i <= s.len() ==> token_start(s, i) <= s.len(),
        (scan(s, i) matches Ok(lexeme) ==> {
            &&& token_start(s, i) <= lexeme.end
            &&& lexeme.token is EOF <==> token_start(s, i) >= s.len()
            &&& !(lexeme.token is EOF) ==> token_start(s, i) < lexeme.end <= s.len()
        }),
{
    if i <= s.len() {
        lemma_run_end(s, i, ByteClass::Space);
        let start = token_start(s, i);
        if start < s.len() {
            lemma_run_end(s, start, ByteClass::Digit);
            lemma_run_end(s, start, ByteClass::Word);
        }
    }
}

} // verus!
