//! What holds of every token stream, and of keywords written in another
//! letter case.

use vstd::prelude::*;
use vstd::std_specs::cmp::PartialEqSpec;
use crate::lexer::concat::is_word;
use crate::lexer::lexer::{LexError, SpecToken, Token};
use crate::lexer::scan::{
    in_class, is_digit, is_letter, is_word_byte, keyword_else, keyword_if, keyword_int,
    keyword_return, lemma_run_end, lemma_scan_extent, recognized, run_end, scan, starts_token,
    text_of, token_start, token_stream, word_token, ByteClass, LOWER_A, LOWER_Z, UPPER_A, UPPER_Z,
};
use crate::parser::literal::{all_digit_chars, is_digit_char};

verus! {

/// The tokens of a source end with the end marker, and it stands nowhere
/// else among them.
pub proof fn lemma_token_stream_ends_with_marker(s: Seq<u8>, i: int)
    requires
        0 <= i,
        token_stream(s, i) is Ok,
    ensures
        ({
            let tokens = token_stream(s, i)->Ok_0;
            &&& tokens.len() >= 1
            &&& tokens.last() == SpecToken::EOF
            &&& forall|k: int| 0 <= k < tokens.len() - 1 ==> !(#[trigger] tokens[k] is EOF)
        }),
    decreases s.len() - i,
{
    lemma_scan_extent(s, i);
    let lexeme = scan(s, i)->Ok_0;
    if !(lexeme.token is EOF) {
        lemma_token_stream_ends_with_marker(s, lexeme.end);
    }
}

/// A source has at most one token for each byte, and the end marker.
pub proof fn lemma_token_stream_length(s: Seq<u8>, i: int)
    requires
        0 <= i <= s.len(),
        token_stream(s, i) is Ok,
    ensures
        1 <= token_stream(s, i)->Ok_0.len() <= s.len() - i + 1,
    decreases s.len() - i,
{
    lemma_scan_extent(s, i);
    let lexeme = scan(s, i)->Ok_0;
    if !(lexeme.token is EOF) {
        lemma_token_stream_length(s, lexeme.end);
    }
}

/// The text of every literal among the tokens of a source is decimal
/// digits, at least one.
pub proof fn lemma_token_stream_literals(s: Seq<u8>, i: int)
    requires
        0 <= i,
        token_stream(s, i) is Ok,
    ensures
        forall|k: int|
            0 <= k < token_stream(s, i)->Ok_0.len() ==> (#[trigger] token_stream(
                s,
                i,
            )->Ok_0[k] matches SpecToken::IntVal(text) ==> text.len() > 0 && all_digit_chars(
                text,
            )),
    decreases s.len() - i,
{
    lemma_scan_extent(s, i);
    let lexeme = scan(s, i)->Ok_0;
    if !(lexeme.token is EOF) {
        lemma_token_stream_literals(s, lexeme.end);
        let start = token_start(s, i);
        if i <= s.len() && start < s.len() {
            lemma_run_end(s, start, ByteClass::Digit);
            let end = run_end(s, start, ByteClass::Digit);
            let text = text_of(s.subrange(start, end));
            assert forall|k: int| 0 <= k < text.len() implies is_digit_char(
                #[trigger] text[k],
            ) by {
                assert(s.subrange(start, end)[k] == s[start + k]);
            }
        }
    }
}

/// A token can be read exactly where the first byte after the whitespace,
/// if there is one, can start a token. Otherwise the error names that byte
/// and its index. Every byte passed over or read is one that the lexer can
/// read.
pub proof fn lemma_scan_recognized(s: Seq<u8>, i: int)
    requires
        0 <= i <= s.len() <= usize::MAX,
    ensures
        (match scan(s, i) {
            Ok(lexeme) => {
                &&& token_start(s, i) < s.len() ==> starts_token(s[token_start(s, i)])
                &&& forall|k: int| i <= k < lexeme.end ==> recognized(#[trigger] s[k])
            },
            Err(e) => {
                &&& token_start(s, i) < s.len()
                &&& !recognized(s[token_start(s, i)])
                &&& e == (LexError::UnrecognizedCharacter {
                    position: token_start(s, i) as usize,
                    byte: s[token_start(s, i)],
                })
                &&& e.position() == token_start(s, i)
                &&& forall|k: int| i <= k < token_start(s, i) ==> recognized(#[trigger] s[k])
            },
        }),
{
    lemma_run_end(s, i, ByteClass::Space);
    let start = token_start(s, i);
    assert forall|k: int| i <= k < start implies recognized(#[trigger] s[k]) by {
        assert(in_class(ByteClass::Space, s[k]));
    }
    if start < s.len() {
        lemma_run_end(s, start, ByteClass::Digit);
        lemma_run_end(s, start, ByteClass::Word);
        if let Ok(lexeme) = scan(s, i) {
            assert forall|k: int| start <= k < lexeme.end implies recognized(#[trigger] s[k]) by {
                if is_digit(s[start]) {
                    assert(in_class(ByteClass::Digit, s[k]));
                } else if is_word_byte(s[start]) {
                    assert(in_class(ByteClass::Word, s[k]));
                }
            }
        }
    }
}

/// A source has tokens exactly where every byte of it is one that the
/// lexer can read. Otherwise the error names the first byte that is not,
/// and its index.
pub proof fn lemma_token_stream_recognized(s: Seq<u8>, i: int)
    requires
        0 <= i <= s.len() <= usize::MAX,
    ensures
        (match token_stream(s, i) {
            Ok(_) => forall|k: int| i <= k < s.len() ==> recognized(#[trigger] s[k]),
            Err(e) => {
                &&& i <= e.position() < s.len()
                &&& !recognized(s[e.position()])
                &&& e == (LexError::UnrecognizedCharacter {
                    position: e.position() as usize,
                    byte: s[e.position()],
                })
                &&& forall|k: int| i <= k < e.position() ==> recognized(#[trigger] s[k])
            },
        }),
    decreases s.len() - i,
{
    lemma_scan_recognized(s, i);
    lemma_scan_extent(s, i);
    if let Ok(lexeme) = scan(s, i) {
        if !(lexeme.token is EOF) {
            lemma_token_stream_recognized(s, lexeme.end);
        }
    }
}

/// Lexing is a function of the bytes and the index alone: any two token
/// sequences read from the same bytes at the same index have the same
/// length and are equal token by token, in category and in text.
pub proof fn lemma_lexing_is_deterministic(
    bytes: Seq<u8>,
    cursor: int,
    first: Vec<Token>,
    second: Vec<Token>,
)
    requires
        token_stream(bytes, cursor) matches Ok(stream) && stream == first.deep_view(),
        token_stream(bytes, cursor) matches Ok(stream) && stream == second.deep_view(),
    ensures
        first@.len() == second@.len(),
        forall|k: int| 0 <= k < first@.len() ==> (#[trigger] first@[k]).eq_spec(&second@[k]),
{
    assert(first.deep_view().len() == first@.len());
    assert(second.deep_view().len() == second@.len());
    assert forall|k: int| 0 <= k < first@.len() implies (#[trigger] first@[k]).eq_spec(
        &second@[k],
    ) by {
        assert(first.deep_view()[k] == first@[k]@);
        assert(second.deep_view()[k] == second@[k]@);
    }
}

/// The lower-case letter of an upper-case letter; any other byte as it is.
pub open spec fn to_lower(b: u8) -> u8 {
    if UPPER_A <= b <= UPPER_Z {
        (b + 0x20) as u8
    } else {
        b
    }
}

/// Whether two words differ at most in the case of their letters.
pub open spec fn same_ignoring_case(a: Seq<u8>, b: Seq<u8>) -> bool {
    &&& a.len() == b.len()
    &&& forall|k: int| 0 <= k < a.len() ==> to_lower(#[trigger] a[k]) == to_lower(b[k])
}

/// Whether the bytes spell a keyword.
pub open spec fn is_keyword(word: Seq<u8>) -> bool {
    ||| word == keyword_int()
    ||| word == keyword_return()
    ||| word == keyword_if()
    ||| word == keyword_else()
}

/// Keywords match with their letter case: a word that differs from a
/// keyword in the case of a letter, and in nothing else, is an identifier.
pub proof fn lemma_keyword_in_other_case(word: Seq<u8>, keyword: Seq<u8>)
    requires
        is_keyword(keyword),
        same_ignoring_case(word, keyword),
        word != keyword,
    ensures
        is_word(word),
        !is_keyword(word),
        word_token(word) == SpecToken::Identifier(text_of(word)),
{
    assert forall|k: int| 0 <= k < keyword.len() implies LOWER_A <= #[trigger] keyword[k]
        <= LOWER_Z by {}
    assert forall|k: int| 0 <= k < word.len() implies is_letter(
        #[trigger] word[k],
    ) by {
        assert(to_lower(word[k]) == to_lower(keyword[k]));
        assert(LOWER_A <= keyword[k] <= LOWER_Z);
    }
    assert(is_letter(word[0]));
    if is_keyword(word) {
        assert(word.len() == keyword.len());
        assert forall|k: int| 0 <= k < word.len() implies word[k] == keyword[k] by {
            assert(LOWER_A <= word[k] <= LOWER_Z);
            assert(LOWER_A <= keyword[k] <= LOWER_Z);
            assert(to_lower(word[k]) == to_lower(keyword[k]));
        }
        assert(word =~= keyword);
    }
}

} // verus!
