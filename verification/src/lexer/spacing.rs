//! Whitespace and the token stream: how much of it stands between two
//! tokens does not matter, and tokens written out with one blank between
//! them are read back as they were.

use vstd::prelude::*;
use crate::lexer::concat::{
    is_blank, is_digits, is_word, lemma_run_end_is, lemma_scan_digits, lemma_scan_punctuation,
    lemma_scan_relational, lemma_scan_word, lemma_token_stream_blank, lemma_token_stream_first,
    lemma_token_stream_shift, spaced,
};
use crate::lexer::lexer::SpecToken;
use crate::lexer::scan::{
    all_ascii, in_class, is_digit, is_space, is_word_byte, keyword_else, keyword_if, keyword_int,
    keyword_return, lemma_run_end, lemma_scan_extent, run_end, scan, text_of, token_start,
    token_stream, ByteClass, BLANK, EQUALS, GREATER, LEFT_BRACE, LEFT_PAREN, LESS, RIGHT_BRACE,
    RIGHT_PAREN, SEMICOLON,
};
use crate::lexer::stream::{is_keyword, lemma_token_stream_length};

verus! {

/// Scanning from inside whitespace gives what scanning from its end gives.
pub proof fn lemma_token_stream_skips_blank(s: Seq<u8>, i: int, j: int)
    requires
        0 <= i <= j <= s.len(),
        forall|k: int| i <= k < j ==> is_space(#[trigger] s[k]),
    ensures
        token_start(s, i) == token_start(s, j),
        scan(s, i) == scan(s, j),
        token_stream(s, i) == token_stream(s, j),
    decreases j - i,
{
    if i < j {
        assert(is_space(s[i]));
        lemma_token_stream_skips_blank(s, i + 1, j);
    }
}

/// Whitespace at the front of a source adds no token.
pub proof fn lemma_token_stream_leading_blank(gap: Seq<u8>, rest: Seq<u8>)
    requires
        is_blank(gap),
        token_stream(rest, 0) is Ok,
    ensures
        token_stream(gap + rest, 0) == token_stream(rest, 0),
{
    let s = gap + rest;
    assert forall|k: int| 0 <= k < gap.len() implies is_space(#[trigger] s[k]) by {
        assert(s[k] == gap[k]);
    }
    lemma_token_stream_skips_blank(s, 0, gap.len() as int);
    lemma_token_stream_shift(gap, rest, 0);
}

/// Where what follows a source starts with whitespace, the tokens of both
/// together are the tokens of the source, without its end marker, and then
/// the tokens of what follows: no token reaches across the whitespace.
pub proof fn lemma_token_stream_append(pre: Seq<u8>, tail: Seq<u8>, i: int)
    requires
        0 <= i <= pre.len(),
        tail.len() > 0 ==> is_space(tail[0]),
        token_stream(pre, i) is Ok,
        token_stream(tail, 0) is Ok,
    ensures
        (token_stream(pre + tail, i) matches Ok(tokens) && tokens == token_stream(
            pre,
            i,
        )->Ok_0.drop_last() + token_stream(tail, 0)->Ok_0),
    decreases pre.len() - i,
{
    let s = pre + tail;
    let n = pre.len() as int;
    let after = token_stream(tail, 0)->Ok_0;
    lemma_run_end(pre, i, ByteClass::Space);
    lemma_scan_extent(pre, i);
    let a = token_start(pre, i);
    assert forall|k: int| i <= k < a implies is_space(#[trigger] s[k]) by {
        assert(s[k] == pre[k]);
        assert(in_class(ByteClass::Space, pre[k]));
    }
    if a == n {
        lemma_token_stream_skips_blank(s, i, n);
        lemma_token_stream_shift(pre, tail, 0);
        assert(token_stream(pre, i)->Ok_0 =~= seq![SpecToken::EOF]);
        assert(seq![SpecToken::EOF].drop_last() + after =~= after);
    } else {
        assert(s[a] == pre[a]);
        assert forall|k: int| i <= k < a implies in_class(ByteClass::Space, #[trigger] s[k]) by {
            assert(is_space(s[k]));
        }
        lemma_run_end_is(s, i, a, ByteClass::Space);
        if a + 1 < n {
            assert(s[a + 1] == pre[a + 1]);
        } else if tail.len() > 0 {
            assert(s[a + 1] == tail[0]);
        }
        lemma_same_run(pre, tail, a, ByteClass::Digit);
        lemma_same_run(pre, tail, a, ByteClass::Word);
        let d = run_end(pre, a, ByteClass::Digit);
        let w = run_end(pre, a, ByteClass::Word);
        lemma_run_end(pre, a, ByteClass::Digit);
        lemma_run_end(pre, a, ByteClass::Word);
        assert(s.subrange(a, d) =~= pre.subrange(a, d));
        assert(s.subrange(a, w) =~= pre.subrange(a, w));
        assert(scan(s, i) == scan(pre, i));
        let lexeme = scan(pre, i)->Ok_0;
        let before = token_stream(pre, lexeme.end)->Ok_0;
        lemma_token_stream_append(pre, tail, lexeme.end);
        lemma_token_stream_length(pre, lexeme.end);
        let head = seq![lexeme.token];
        assert((head + before).drop_last() + after =~= head + (before.drop_last() + after));
    }
}

/// A run of digits or of word bytes inside a source ends where it ends
/// when whitespace, or nothing, follows the source.
proof fn lemma_same_run(pre: Seq<u8>, tail: Seq<u8>, a: int, class: ByteClass)
    requires
        0 <= a <= pre.len(),
        tail.len() > 0 ==> is_space(tail[0]),
        !(class is Space),
    ensures
        run_end(pre + tail, a, class) == run_end(pre, a, class),
{
    let s = pre + tail;
    let e = run_end(pre, a, class);
    lemma_run_end(pre, a, class);
    assert forall|k: int| a <= k < e implies in_class(class, #[trigger] s[k]) by {
        assert(s[k] == pre[k]);
    }
    if e < pre.len() {
        assert(s[e] == pre[e]);
    } else if tail.len() > 0 {
        assert(s[e] == tail[0]);
    }
    lemma_run_end_is(s, a, e, class);
}

/// How much whitespace stands between two parts of a source does not
/// matter: with any whitespace between them, at least one byte, the tokens
/// are those of the first part, without its end marker, and then those of
/// the second part.
pub proof fn lemma_whitespace_amount_does_not_matter(
    first: Seq<u8>,
    gap: Seq<u8>,
    other_gap: Seq<u8>,
    second: Seq<u8>,
)
    requires
        is_blank(gap),
        is_blank(other_gap),
        gap.len() > 0,
        other_gap.len() > 0,
        token_stream(first, 0) is Ok,
        token_stream(second, 0) is Ok,
    ensures
        token_stream(first + gap + second, 0) == token_stream(first + other_gap + second, 0),
        (token_stream(first + gap + second, 0) matches Ok(tokens) && tokens == token_stream(
            first,
            0,
        )->Ok_0.drop_last() + token_stream(second, 0)->Ok_0),
{
    lemma_token_stream_leading_blank(gap, second);
    lemma_token_stream_leading_blank(other_gap, second);
    assert((gap + second)[0] == gap[0]);
    assert((other_gap + second)[0] == other_gap[0]);
    lemma_token_stream_append(first, gap + second, 0);
    lemma_token_stream_append(first, other_gap + second, 0);
    assert(first + gap + second =~= first + (gap + second));
    assert(first + other_gap + second =~= first + (other_gap + second));
}

/// The bytes of a text of ASCII characters: one byte for each character.
pub open spec fn bytes_of(text: Seq<char>) -> Seq<u8> {
    Seq::new(text.len(), |k: int| text[k] as u8)
}

/// The bytes that spell a token. The end marker has none.
pub open spec fn spelling(token: SpecToken) -> Seq<u8> {
    match token {
        SpecToken::LSquigly => seq![LEFT_BRACE],
        SpecToken::RSquigly => seq![RIGHT_BRACE],
        SpecToken::LPar => seq![LEFT_PAREN],
        SpecToken::RPar => seq![RIGHT_PAREN],
        SpecToken::Semicolon => seq![SEMICOLON],
        SpecToken::Int => keyword_int(),
        SpecToken::Return => keyword_return(),
        SpecToken::If => keyword_if(),
        SpecToken::Else => keyword_else(),
        SpecToken::Equal => seq![EQUALS],
        SpecToken::GThan => seq![GREATER],
        SpecToken::GEThan => seq![GREATER, EQUALS],
        SpecToken::LThan => seq![LESS],
        SpecToken::LEThan => seq![LESS, EQUALS],
        SpecToken::EOF => Seq::empty(),
        SpecToken::Identifier(text) => bytes_of(text),
        SpecToken::IntVal(text) => bytes_of(text),
    }
}

/// A token as the lexer gives it: any token but the end marker, where the
/// text of an identifier is a word that is no keyword and the text of a
/// literal is digits.
pub open spec fn well_spelled(token: SpecToken) -> bool {
    match token {
        SpecToken::EOF => false,
        SpecToken::Identifier(text) => {
            &&& is_word(bytes_of(text))
            &&& !is_keyword(bytes_of(text))
            &&& text_of(bytes_of(text)) == text
        },
        SpecToken::IntVal(text) => is_digits(bytes_of(text)) && text_of(bytes_of(text)) == text,
        _ => true,
    }
}

/// The bytes of the text of ASCII bytes are those bytes.
pub proof fn lemma_bytes_of_text(bytes: Seq<u8>)
    requires
        all_ascii(bytes),
    ensures
        bytes_of(text_of(bytes)) == bytes,
{
    assert forall|k: int| 0 <= k < bytes.len() implies bytes_of(text_of(bytes))[k]
        == bytes[k] by {
        assert(bytes[k] < 0x80);
    }
    assert(bytes_of(text_of(bytes)) =~= bytes);
}

/// Every token that the lexer reads, but the end marker, is well spelled.
pub proof fn lemma_scan_well_spelled(s: Seq<u8>, i: int)
    requires
        0 <= i <= s.len(),
    ensures
        scan(s, i) matches Ok(lexeme) ==> lexeme.token is EOF || well_spelled(lexeme.token),
{
    lemma_run_end(s, i, ByteClass::Space);
    let start = token_start(s, i);
    if start < s.len() {
        let b = s[start];
        if is_digit(b) {
            let end = run_end(s, start, ByteClass::Digit);
            lemma_run_end(s, start, ByteClass::Digit);
            let bytes = s.subrange(start, end);
            assert forall|k: int| 0 <= k < bytes.len() implies is_digit(#[trigger] bytes[k]) by {
                assert(in_class(ByteClass::Digit, s[start + k]));
            }
            assert(in_class(ByteClass::Digit, s[start]));
            lemma_bytes_of_text(bytes);
        } else if is_word_byte(b) {
            let end = run_end(s, start, ByteClass::Word);
            lemma_run_end(s, start, ByteClass::Word);
            let bytes = s.subrange(start, end);
            assert forall|k: int| 0 <= k < bytes.len() implies is_word_byte(
                #[trigger] bytes[k],
            ) by {
                assert(in_class(ByteClass::Word, s[start + k]));
            }
            assert(in_class(ByteClass::Word, s[start]));
            lemma_bytes_of_text(bytes);
        }
    }
}

/// Every token of a source, but the end marker at its end, is well
/// spelled: the tokens of a source can be written out and read back.
pub proof fn lemma_token_stream_well_spelled(s: Seq<u8>, i: int)
    requires
        0 <= i <= s.len(),
        token_stream(s, i) is Ok,
    ensures
        forall|k: int|
            0 <= k < token_stream(s, i)->Ok_0.len() - 1 ==> well_spelled(
                #[trigger] token_stream(s, i)->Ok_0[k],
            ),
    decreases s.len() - i,
{
    lemma_scan_extent(s, i);
    lemma_scan_well_spelled(s, i);
    let lexeme = scan(s, i)->Ok_0;
    if !(lexeme.token is EOF) {
        lemma_token_stream_well_spelled(s, lexeme.end);
        lemma_token_stream_length(s, lexeme.end);
    }
}

/// The tokens written out with one blank between each two of them.
pub open spec fn joined(tokens: Seq<SpecToken>) -> Seq<u8>
    decreases tokens.len(),
{
    if tokens.len() == 0 {
        Seq::empty()
    } else if tokens.len() == 1 {
        spelling(tokens[0])
    } else {
        spelling(tokens[0]) + seq![BLANK] + joined(tokens.drop_first())
    }
}

/// A token at the front of a source is read as itself where whitespace, or
/// nothing, follows it.
pub proof fn lemma_scan_spelling(token: SpecToken, rest: Seq<u8>)
    requires
        well_spelled(token),
        rest.len() > 0 ==> is_space(rest[0]),
    ensures
        (scan(spaced(Seq::empty(), spelling(token), rest), 0) matches Ok(lexeme) && {
            &&& lexeme.token == token
            &&& lexeme.end == spelling(token).len()
        }),
{
    let gap = Seq::<u8>::empty();
    let bytes = spelling(token);
    match token {
        SpecToken::LSquigly => {
            lemma_scan_punctuation(gap, LEFT_BRACE, rest);
        },
        SpecToken::RSquigly => {
            lemma_scan_punctuation(gap, RIGHT_BRACE, rest);
        },
        SpecToken::LPar => {
            lemma_scan_punctuation(gap, LEFT_PAREN, rest);
        },
        SpecToken::RPar => {
            lemma_scan_punctuation(gap, RIGHT_PAREN, rest);
        },
        SpecToken::Semicolon => {
            lemma_scan_punctuation(gap, SEMICOLON, rest);
        },
        SpecToken::Equal => {
            lemma_scan_punctuation(gap, EQUALS, rest);
        },
        SpecToken::GThan | SpecToken::GEThan | SpecToken::LThan | SpecToken::LEThan => {
            assert(bytes.len() == 1 || bytes.len() == 2);
            lemma_scan_relational(gap, bytes, rest);
        },
        SpecToken::Int | SpecToken::Return | SpecToken::If | SpecToken::Else => {
            assert(is_word(bytes));
            lemma_scan_word(gap, bytes, rest);
        },
        SpecToken::Identifier(text) => {
            lemma_scan_word(gap, bytes, rest);
        },
        SpecToken::IntVal(text) => {
            lemma_scan_digits(gap, bytes, rest);
        },
        SpecToken::EOF => {},
    }
}

/// Tokens written out with one blank between each two of them are read
/// back as they were, and then the end marker.
pub proof fn lemma_joined_tokens_lex_back(tokens: Seq<SpecToken>)
    requires
        forall|k: int| 0 <= k < tokens.len() ==> well_spelled(#[trigger] tokens[k]),
    ensures
        (token_stream(joined(tokens), 0) matches Ok(read) && read == tokens + seq![
            SpecToken::EOF,
        ]),
    decreases tokens.len(),
{
    let end = seq![SpecToken::EOF];
    if tokens.len() == 0 {
        lemma_token_stream_blank(Seq::empty());
        assert(tokens + end =~= end);
    } else {
        let token = tokens[0];
        let others = tokens.drop_first();
        let gap = Seq::<u8>::empty();
        assert(well_spelled(token));
        assert forall|k: int| 0 <= k < others.len() implies well_spelled(
            #[trigger] others[k],
        ) by {
            assert(others[k] == tokens[k + 1]);
        }
        lemma_joined_tokens_lex_back(others);
        if tokens.len() == 1 {
            let rest = Seq::<u8>::empty();
            assert(joined(tokens) =~= spaced(gap, spelling(token), rest));
            lemma_token_stream_blank(rest);
            lemma_scan_spelling(token, rest);
            lemma_token_stream_first(gap, spelling(token), rest, token);
            assert(tokens + end =~= seq![token] + end);
        } else {
            let rest = seq![BLANK] + joined(others);
            assert(joined(tokens) =~= spaced(gap, spelling(token), rest));
            assert(rest[0] == BLANK);
            assert(is_blank(seq![BLANK]));
            lemma_token_stream_leading_blank(seq![BLANK], joined(others));
            lemma_scan_spelling(token, rest);
            lemma_token_stream_first(gap, spelling(token), rest, token);
            assert(tokens + end =~= seq![token] + (others + end));
        }
    }
}

} // verus!
