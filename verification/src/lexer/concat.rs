//! How scanning behaves on bytes that are put together from pieces.
//!
//! The lexer only looks forward, so what it reads at an index does not
//! depend on the bytes before it, and a token that follows whitespace
//! at the front of the bytes is read whatever follows it, as long as the
//! next byte cannot continue it.

use vstd::prelude::*;
use crate::lexer::lexer::SpecToken;
use crate::lexer::scan::{
    in_class, is_digit, is_space, is_word_byte, lemma_run_end, lemma_scan_extent, run_end, scan,
    text_of, token_start, token_stream, word_token, ByteClass, EQUALS, GREATER,
    LEFT_BRACE, LEFT_PAREN, LESS, RIGHT_BRACE, RIGHT_PAREN, SEMICOLON,
};

verus! {

/// Bytes that are all whitespace.
pub open spec fn is_blank(gap: Seq<u8>) -> bool {
    forall|k: int| 0 <= k < gap.len() ==> is_space(#[trigger] gap[k])
}

/// Bytes that are one word: letters and underscores, at least one.
pub open spec fn is_word(word: Seq<u8>) -> bool {
    &&& word.len() > 0
    &&& forall|k: int| 0 <= k < word.len() ==> is_word_byte(#[trigger] word[k])
}

/// Bytes that are decimal digits, at least one.
pub open spec fn is_digits(digits: Seq<u8>) -> bool {
    &&& digits.len() > 0
    &&& forall|k: int| 0 <= k < digits.len() ==> is_digit(#[trigger] digits[k])
}

/// The token of a byte that is a token by itself, whatever follows.
pub open spec fn punctuation(b: u8) -> Option<SpecToken> {
    if b == LEFT_BRACE {
        Some(SpecToken::LSquigly)
    } else if b == RIGHT_BRACE {
        Some(SpecToken::RSquigly)
    } else if b == LEFT_PAREN {
        Some(SpecToken::LPar)
    } else if b == RIGHT_PAREN {
        Some(SpecToken::RPar)
    } else if b == SEMICOLON {
        Some(SpecToken::Semicolon)
    } else if b == EQUALS {
        Some(SpecToken::Equal)
    } else {
        None
    }
}

/// The token of the bytes of a relational operator other than `=`.
pub open spec fn relational(op: Seq<u8>) -> Option<SpecToken> {
    if op == seq![LESS] {
        Some(SpecToken::LThan)
    } else if op == seq![LESS, EQUALS] {
        Some(SpecToken::LEThan)
    } else if op == seq![GREATER] {
        Some(SpecToken::GThan)
    } else if op == seq![GREATER, EQUALS] {
        Some(SpecToken::GEThan)
    } else {
        None
    }
}

/// A token's bytes after whitespace and before the rest of the source.
pub open spec fn spaced(gap: Seq<u8>, lexeme: Seq<u8>, rest: Seq<u8>) -> Seq<u8> {
    gap + lexeme + rest
}

/// A run ends at `j` where every byte from `i` up to `j` is of the class
/// and the byte at `j`, if there is one, is not.
pub proof fn lemma_run_end_is(s: Seq<u8>, i: int, j: int, class: ByteClass)
    requires
        0 <= i <= j <= s.len(),
        forall|k: int| i <= k < j ==> in_class(class, #[trigger] s[k]),
        j < s.len() ==> !in_class(class, s[j]),
    ensures
        run_end(s, i, class) == j,
    decreases j - i,
{
    if i < j {
        lemma_run_end_is(s, i + 1, j, class);
    }
}

/// Bytes in front do not change where a run ends, but for their number.
pub proof fn lemma_run_end_shift(pre: Seq<u8>, s: Seq<u8>, i: int, class: ByteClass)
    requires
        0 <= i <= s.len(),
    ensures
        run_end(pre + s, pre.len() + i, class) == pre.len() + run_end(s, i, class),
    decreases s.len() - i,
{
    if i < s.len() {
        assert((pre + s)[pre.len() + i] == s[i]);
        if in_class(class, s[i]) {
            lemma_run_end_shift(pre, s, i + 1, class);
        }
    }
}

/// Bytes in front do not change the token read, but for its position.
pub proof fn lemma_scan_shift(pre: Seq<u8>, s: Seq<u8>, i: int)
    requires
        0 <= i <= s.len(),
        scan(s, i) is Ok,
    ensures
        (scan(pre + s, pre.len() + i) matches Ok(lexeme) && {
            &&& lexeme.token == scan(s, i)->Ok_0.token
            &&& lexeme.end == pre.len() + scan(s, i)->Ok_0.end
        }),
{
    let t = pre + s;
    let n = pre.len() as int;
    lemma_run_end_shift(pre, s, i, ByteClass::Space);
    lemma_run_end(s, i, ByteClass::Space);
    let start = token_start(s, i);
    if start < s.len() {
        assert(t[n + start] == s[start]);
        if start + 1 < s.len() {
            assert(t[n + start + 1] == s[start + 1]);
        }
        lemma_run_end_shift(pre, s, start, ByteClass::Digit);
        lemma_run_end_shift(pre, s, start, ByteClass::Word);
        lemma_run_end(s, start, ByteClass::Digit);
        lemma_run_end(s, start, ByteClass::Word);
        let d = run_end(s, start, ByteClass::Digit);
        let w = run_end(s, start, ByteClass::Word);
        assert(t.subrange(n + start, n + d) =~= s.subrange(start, d));
        assert(t.subrange(n + start, n + w) =~= s.subrange(start, w));
    }
}

/// Bytes in front do not change the tokens read.
pub proof fn lemma_token_stream_shift(pre: Seq<u8>, s: Seq<u8>, i: int)
    requires
        0 <= i <= s.len(),
        token_stream(s, i) is Ok,
    ensures
        token_stream(pre + s, pre.len() + i) == token_stream(s, i),
    decreases s.len() - i,
{
    lemma_scan_shift(pre, s, i);
    lemma_scan_extent(s, i);
    let lexeme = scan(s, i)->Ok_0;
    if !(lexeme.token is EOF) {
        lemma_token_stream_shift(pre, s, lexeme.end);
    }
}

/// After whitespace, a byte that is a token by itself is read as that
/// token.
pub proof fn lemma_scan_punctuation(gap: Seq<u8>, b: u8, rest: Seq<u8>)
    requires
        is_blank(gap),
        punctuation(b) is Some,
    ensures
        (scan(spaced(gap, seq![b], rest), 0) matches Ok(lexeme) && {
            &&& lexeme.token == punctuation(b)->Some_0
            &&& lexeme.end == gap.len() + 1
        }),
{
    let s = spaced(gap, seq![b], rest);
    assert(s[gap.len() as int] == b);
    assert forall|k: int| 0 <= k < gap.len() implies in_class(
        ByteClass::Space,
        #[trigger] s[k],
    ) by {
        assert(s[k] == gap[k]);
    }
    lemma_run_end_is(s, 0, gap.len() as int, ByteClass::Space);
}

/// After whitespace, `<=` and `>=` are read as their tokens, and `<` and
/// `>` where the byte after them, if there is one, is not `=`.
pub proof fn lemma_scan_relational(gap: Seq<u8>, op: Seq<u8>, rest: Seq<u8>)
    requires
        is_blank(gap),
        relational(op) is Some,
        op.len() == 1 && rest.len() > 0 ==> rest[0] != EQUALS,
    ensures
        (scan(spaced(gap, op, rest), 0) matches Ok(lexeme) && {
            &&& lexeme.token == relational(op)->Some_0
            &&& lexeme.end == gap.len() + op.len()
        }),
{
    let s = spaced(gap, op, rest);
    let a = gap.len() as int;
    assert(s[a] == op[0]);
    assert forall|k: int| 0 <= k < a implies in_class(ByteClass::Space, #[trigger] s[k]) by {
        assert(s[k] == gap[k]);
    }
    lemma_run_end_is(s, 0, a, ByteClass::Space);
    if op.len() == 2 {
        assert(s[a + 1] == op[1]);
    } else if rest.len() > 0 {
        assert(s[a + 1] == rest[0]);
    }
}

/// After whitespace, a word is read as its token where the byte after
/// it, if there is one, is neither a letter nor an underscore.
pub proof fn lemma_scan_word(gap: Seq<u8>, word: Seq<u8>, rest: Seq<u8>)
    requires
        is_blank(gap),
        is_word(word),
        rest.len() > 0 ==> !is_word_byte(rest[0]),
    ensures
        (scan(spaced(gap, word, rest), 0) matches Ok(lexeme) && {
            &&& lexeme.token == word_token(word)
            &&& lexeme.end == gap.len() + word.len()
        }),
{
    let s = spaced(gap, word, rest);
    let a = gap.len() as int;
    let e = a + word.len();
    assert(s[a] == word[0]);
    assert forall|k: int| 0 <= k < a implies in_class(ByteClass::Space, #[trigger] s[k]) by {
        assert(s[k] == gap[k]);
    }
    lemma_run_end_is(s, 0, a, ByteClass::Space);
    assert forall|k: int| a <= k < e implies in_class(ByteClass::Word, #[trigger] s[k]) by {
        assert(s[k] == word[k - a]);
    }
    if e < s.len() {
        assert(s[e] == rest[0]);
    }
    lemma_run_end_is(s, a, e, ByteClass::Word);
    assert(s.subrange(a, e) =~= word);
}

/// After whitespace, digits are read as a literal with their text where
/// the byte after them, if there is one, is no digit.
pub proof fn lemma_scan_digits(gap: Seq<u8>, digits: Seq<u8>, rest: Seq<u8>)
    requires
        is_blank(gap),
        is_digits(digits),
        rest.len() > 0 ==> !is_digit(rest[0]),
    ensures
        (scan(spaced(gap, digits, rest), 0) matches Ok(lexeme) && {
            &&& lexeme.token == SpecToken::IntVal(text_of(digits))
            &&& lexeme.end == gap.len() + digits.len()
        }),
{
    let s = spaced(gap, digits, rest);
    let a = gap.len() as int;
    let e = a + digits.len();
    assert(s[a] == digits[0]);
    assert forall|k: int| 0 <= k < a implies in_class(ByteClass::Space, #[trigger] s[k]) by {
        assert(s[k] == gap[k]);
    }
    lemma_run_end_is(s, 0, a, ByteClass::Space);
    assert forall|k: int| a <= k < e implies in_class(ByteClass::Digit, #[trigger] s[k]) by {
        assert(s[k] == digits[k - a]);
    }
    if e < s.len() {
        assert(s[e] == rest[0]);
    }
    lemma_run_end_is(s, a, e, ByteClass::Digit);
    assert(s.subrange(a, e) =~= digits);
}

/// Whitespace alone gives the end marker and nothing else.
pub proof fn lemma_token_stream_blank(gap: Seq<u8>)
    requires
        is_blank(gap),
    ensures
        token_stream(gap, 0) matches Ok(tokens) && tokens == seq![SpecToken::EOF],
{
    assert forall|k: int| 0 <= k < gap.len() implies in_class(
        ByteClass::Space,
        #[trigger] gap[k],
    ) by {}
    lemma_run_end_is(gap, 0, gap.len() as int, ByteClass::Space);
}

/// The tokens of a source are its first token and then the tokens of what
/// follows that token.
pub proof fn lemma_token_stream_first(
    gap: Seq<u8>,
    lexeme: Seq<u8>,
    rest: Seq<u8>,
    token: SpecToken,
)
    requires
        (scan(spaced(gap, lexeme, rest), 0) matches Ok(first) && {
            &&& first.token == token
            &&& first.end == gap.len() + lexeme.len()
        }),
        !(token is EOF),
        token_stream(rest, 0) is Ok,
    ensures
        token_stream(spaced(gap, lexeme, rest), 0) matches Ok(tokens) && tokens == seq![token]
            + token_stream(rest, 0)->Ok_0,
{
    lemma_token_stream_shift(gap + lexeme, rest, 0);
}

/// What is put together from whitespace, a token and more starts with
/// whitespace or with the token's first byte.
pub proof fn lemma_spaced_first(gap: Seq<u8>, lexeme: Seq<u8>, rest: Seq<u8>)
    requires
        is_blank(gap),
        lexeme.len() > 0,
    ensures
        spaced(gap, lexeme, rest).len() > 0,
        is_space(spaced(gap, lexeme, rest)[0]) || spaced(gap, lexeme, rest)[0] == lexeme[0],
{
    let s = spaced(gap, lexeme, rest);
    if gap.len() > 0 {
        assert(s[0] == gap[0]);
    } else {
        assert(s[0] == lexeme[0]);
    }
}

} // verus!
