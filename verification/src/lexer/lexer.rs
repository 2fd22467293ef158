//! Tokens and the lexer that produces them from source text.

use vstd::prelude::*;
use vstd::slice::slice_subrange;
use vstd::utf8::encode_utf8;
use crate::lexer::ascii::ascii_text;
use crate::lexer::scan::{
    byte_is_digit, byte_is_space, byte_is_word, in_class, is_digit, is_word_byte,
    keyword_else, keyword_if, keyword_int, keyword_return, lemma_run_end, lemma_scan_extent,
    recognized, run_end, scan, starts_token, text_of, token_start, token_stream,
    word_token, ByteClass, EQUALS, GREATER, LEFT_BRACE, LEFT_PAREN, LESS, RIGHT_BRACE,
    RIGHT_PAREN, SEMICOLON,
};
use crate::lexer::stream::{lemma_token_stream_ends_with_marker, lemma_token_stream_recognized};

verus! {

/// A lexical unit of the source text.
#[derive(Clone, Debug)]
pub enum Token {
    /// `{`
    LSquigly,
    /// `}`
    RSquigly,
    /// `(`
    LPar,
    /// `)`
    RPar,
    /// `;`
    Semicolon,
    /// `int`
    Int,
    /// `return`
    Return,
    /// `if`
    If,
    /// `else`
    Else,
    /// `=`
    Equal,
    /// `>`
    GThan,
    /// `>=`
    GEThan,
    /// `<`
    LThan,
    /// `<=`
    LEThan,
    /// End of input.
    EOF,
    /// A name, with its text.
    Identifier(String),
    /// An integer literal, with its digits as written.
    IntVal(String),
}

/// What a [`Token`] is mathematically: its category, and for the two
/// categories with a payload the text as a sequence of characters.
pub ghost enum SpecToken {
    LSquigly,
    RSquigly,
    LPar,
    RPar,
    Semicolon,
    Int,
    Return,
    If,
    Else,
    Equal,
    GThan,
    GEThan,
    LThan,
    LEThan,
    EOF,
    Identifier(Seq<char>),
    IntVal(Seq<char>),
}

impl DeepView for Token {
    type V = SpecToken;

    open spec fn deep_view(&self) -> SpecToken {
        self@
    }
}

impl View for Token {
    type V = SpecToken;

    open spec fn view(&self) -> SpecToken {
        match self {
            Token::LSquigly => SpecToken::LSquigly,
            Token::RSquigly => SpecToken::RSquigly,
            Token::LPar => SpecToken::LPar,
            Token::RPar => SpecToken::RPar,
            Token::Semicolon => SpecToken::Semicolon,
            Token::Int => SpecToken::Int,
            Token::Return => SpecToken::Return,
            Token::If => SpecToken::If,
            Token::Else => SpecToken::Else,
            Token::Equal => SpecToken::Equal,
            Token::GThan => SpecToken::GThan,
            Token::GEThan => SpecToken::GEThan,
            Token::LThan => SpecToken::LThan,
            Token::LEThan => SpecToken::LEThan,
            Token::EOF => SpecToken::EOF,
            Token::Identifier(text) => SpecToken::Identifier(text@),
            Token::IntVal(text) => SpecToken::IntVal(text@),
        }
    }
}

impl PartialEq for Token {
    /// Two tokens are equal where they are of one category and, for the
    /// categories with a payload, hold the same text.
    fn eq(&self, other: &Token) -> (r: bool) {
        match (self, other) {
            (Token::LSquigly, Token::LSquigly) => true,
            (Token::RSquigly, Token::RSquigly) => true,
            (Token::LPar, Token::LPar) => true,
            (Token::RPar, Token::RPar) => true,
            (Token::Semicolon, Token::Semicolon) => true,
            (Token::Int, Token::Int) => true,
            (Token::Return, Token::Return) => true,
            (Token::If, Token::If) => true,
            (Token::Else, Token::Else) => true,
            (Token::Equal, Token::Equal) => true,
            (Token::GThan, Token::GThan) => true,
            (Token::GEThan, Token::GEThan) => true,
            (Token::LThan, Token::LThan) => true,
            (Token::LEThan, Token::LEThan) => true,
            (Token::EOF, Token::EOF) => true,
            (Token::Identifier(a), Token::Identifier(b)) => *a == *b,
            (Token::IntVal(a), Token::IntVal(b)) => *a == *b,
            _ => false,
        }
    }
}

impl vstd::std_specs::cmp::PartialEqSpecImpl for Token {
    open spec fn obeys_eq_spec() -> bool {
        true
    }

    open spec fn eq_spec(&self, other: &Token) -> bool {
        self@ == other@
    }
}

/// Why lexing stopped before the end of the input.
#[derive(Clone, Copy, Debug, PartialEq, Eq, Structural)]
pub enum LexError {
    /// The byte at `position` starts no token.
    UnrecognizedCharacter { position: usize, byte: u8 },
}

impl LexError {
    /// The index of the byte at which lexing stopped.
    pub open spec fn position(self) -> int {
        match self {
            LexError::UnrecognizedCharacter { position, .. } => position as int,
        }
    }
}

/// A lexer over the UTF-8 bytes of a source text, with a cursor that only
/// moves forward.
pub struct Lexer {
    position: usize,
    length: usize,
    input: String,
}

/// What a [`Lexer`] is mathematically: the bytes it reads and the index of
/// the next byte to read.
pub ghost struct LexerView {
    pub bytes: Seq<u8>,
    pub cursor: int,
}

impl View for Lexer {
    type V = LexerView;

    closed spec fn view(&self) -> LexerView {
        LexerView { bytes: encode_utf8(self.input@), cursor: self.position as int }
    }
}

/// Whether `word` spells the keyword `int`.
fn spells_int(word: &[u8]) -> (r: bool)
    ensures
        r == (word@ == keyword_int()),
{
    let r = word.len() == 3 && word[0] == 0x69 && word[1] == 0x6E && word[2] == 0x74;
    assert(r == (word@ =~= keyword_int()));
    r
}

/// Whether `word` spells the keyword `return`.
fn spells_return(word: &[u8]) -> (r: bool)
    ensures
        r == (word@ == keyword_return()),
{
    let r = word.len() == 6 && word[0] == 0x72 && word[1] == 0x65 && word[2] == 0x74 && word[3]
        == 0x75 && word[4] == 0x72 && word[5] == 0x6E;
    assert(r == (word@ =~= keyword_return()));
    r
}

/// Whether `word` spells the keyword `if`.
fn spells_if(word: &[u8]) -> (r: bool)
    ensures
        r == (word@ == keyword_if()),
{
    let r = word.len() == 2 && word[0] == 0x69 && word[1] == 0x66;
    assert(r == (word@ =~= keyword_if()));
    r
}

/// Whether `word` spells the keyword `else`.
fn spells_else(word: &[u8]) -> (r: bool)
    ensures
        r == (word@ == keyword_else()),
{
    let r = word.len() == 4 && word[0] == 0x65 && word[1] == 0x6C && word[2] == 0x73 && word[3]
        == 0x65;
    assert(r == (word@ =~= keyword_else()));
    r
}

impl Lexer {
    #[verifier::type_invariant]
    spec fn cursor_in_bounds(self) -> bool {
        self.position <= self.length == encode_utf8(self.input@).len()
    }

    /// A lexer at the start of the UTF-8 bytes of `input`.
    pub fn new(input: String) -> (lexer: Lexer)
        ensures
            lexer@ == (LexerView { bytes: encode_utf8(input@), cursor: 0 }),
    {
        let length: usize = input.as_str().as_bytes().len();
        Lexer { position: 0, length, input }
    }

    /// The byte of the input at index `i`.
    fn byte(&self, i: usize) -> (b: u8)
        requires
            i < self@.bytes.len(),
        ensures
            b == self@.bytes[i as int],
    {
        self.input.as_str().as_bytes()[i]
    }

    /// Moves the cursor one byte on, and not past the end of the input.
    fn read_char(&mut self)
        ensures
            final(self)@.bytes == old(self)@.bytes,
            (final(self)@.cursor == if old(self)@.cursor < old(self)@.bytes.len() {
                old(self)@.cursor + 1
            } else {
                old(self)@.cursor
            }),
    {
        proof {
            use_type_invariant(&*self);
        }
        if self.position < self.length {
            self.position += 1;
        }
    }

    /// The byte after the one at the cursor, if there is one.
    fn peek(&self) -> (next: Option<u8>)
        ensures
            (next == if self@.cursor + 1 < self@.bytes.len() {
                Some(self@.bytes[self@.cursor + 1])
            } else {
                None::<u8>
            }),
    {
        proof {
            use_type_invariant(self);
        }
        if self.position < self.length && self.position + 1 < self.length {
            Some(self.byte(self.position + 1))
        } else {
            None
        }
    }

    /// Moves the cursor past the whitespace it stands on.
    fn skip_whitespace(&mut self)
        ensures
            final(self)@.bytes == old(self)@.bytes,
            final(self)@.cursor == token_start(old(self)@.bytes, old(self)@.cursor),
            final(self)@.cursor <= final(self)@.bytes.len(),
    {
        proof {
            use_type_invariant(&*self);
        }
        while self.position < self.length && byte_is_space(self.byte(self.position))
            invariant
                self.position <= self.length == self@.bytes.len(),
                self@.bytes == old(self)@.bytes,
                token_start(self@.bytes, self.position as int) == token_start(
                    old(self)@.bytes,
                    old(self).position as int,
                ),
            decreases self@.bytes.len() - self.position,
        {
            self.position += 1;
        }
    }

    /// Moves the cursor to the last byte of the run of `class` it stands on.
    fn read_run(&mut self, class: ByteClass)
        requires
            old(self)@.cursor < old(self)@.bytes.len(),
            in_class(class, old(self)@.bytes[old(self)@.cursor]),
        ensures
            final(self)@.bytes == old(self)@.bytes,
            final(self)@.cursor + 1 == run_end(old(self)@.bytes, old(self)@.cursor, class),
            old(self)@.cursor <= final(self)@.cursor < final(self)@.bytes.len(),
    {
        loop
            invariant
                self.position < self@.bytes.len(),
                old(self).position <= self.position,
                self@.bytes == old(self)@.bytes,
                in_class(class, self@.bytes[self.position as int]),
                run_end(self@.bytes, self.position as int, class) == run_end(
                    old(self)@.bytes,
                    old(self).position as int,
                    class,
                ),
            ensures
                self.position < self@.bytes.len(),
                old(self).position <= self.position,
                self@.bytes == old(self)@.bytes,
                self.position + 1 == run_end(
                    old(self)@.bytes,
                    old(self).position as int,
                    class,
                ),
            decreases self@.bytes.len() - self.position,
        {
            let more = match self.peek() {
                Some(next) => match class {
                    ByteClass::Space => byte_is_space(next),
                    ByteClass::Digit => byte_is_digit(next),
                    ByteClass::Word => byte_is_word(next),
                },
                None => false,
            };
            if !more {
                assert(run_end(self@.bytes, self.position as int + 1, class) == self.position
                    + 1);
                break;
            }
            self.read_char();
        }
    }

    /// Reads the digits that start at the cursor and leaves the cursor on
    /// the last of them.
    fn read_int(&mut self) -> (text: String)
        requires
            old(self)@.cursor < old(self)@.bytes.len(),
            is_digit(old(self)@.bytes[old(self)@.cursor]),
        ensures
            final(self)@.bytes == old(self)@.bytes,
            final(self)@.cursor + 1 == run_end(
                old(self)@.bytes,
                old(self)@.cursor,
                ByteClass::Digit,
            ),
            old(self)@.cursor <= final(self)@.cursor < final(self)@.bytes.len(),
            text@ == text_of(
                old(self)@.bytes.subrange(
                    old(self)@.cursor,
                    run_end(old(self)@.bytes, old(self)@.cursor, ByteClass::Digit),
                ),
            ),
    {
        let pos: usize = self.position;
        self.read_run(ByteClass::Digit);
        proof {
            use_type_invariant(&*self);
            lemma_run_end(self@.bytes, pos as int, ByteClass::Digit);
        }
        ascii_text(self.input.as_str(), pos, self.position + 1)
    }

    /// Reads the word that starts at the cursor and leaves the cursor on
    /// its last byte.
    fn read_identifier(&mut self) -> (text: String)
        requires
            old(self)@.cursor < old(self)@.bytes.len(),
            is_word_byte(old(self)@.bytes[old(self)@.cursor]),
        ensures
            final(self)@.bytes == old(self)@.bytes,
            final(self)@.cursor + 1 == run_end(
                old(self)@.bytes,
                old(self)@.cursor,
                ByteClass::Word,
            ),
            old(self)@.cursor <= final(self)@.cursor < final(self)@.bytes.len(),
            text@ == text_of(
                old(self)@.bytes.subrange(
                    old(self)@.cursor,
                    run_end(old(self)@.bytes, old(self)@.cursor, ByteClass::Word),
                ),
            ),
    {
        let pos: usize = self.position;
        self.read_run(ByteClass::Word);
        proof {
            use_type_invariant(&*self);
            lemma_run_end(self@.bytes, pos as int, ByteClass::Word);
        }
        ascii_text(self.input.as_str(), pos, self.position + 1)
    }

    /// The keyword that `word` spells, or the identifier with that `text`.
    fn word_to_token(word: &[u8], text: String) -> (token: Token)
        requires
            text@ == text_of(word@),
        ensures
            token@ == word_token(word@),
    {
        if spells_int(word) {
            Token::Int
        } else if spells_return(word) {
            Token::Return
        } else if spells_if(word) {
            Token::If
        } else if spells_else(word) {
            Token::Else
        } else {
            Token::Identifier(text)
        }
    }

    /// Passes over whitespace and reads one token. At the end of the input
    /// the token is the end marker, again on every later call. A byte that
    /// starts no token is reported with its index, and the cursor stays on
    /// it.
    pub fn try_next_token(&mut self) -> (r: Result<Token, LexError>)
        ensures
            final(self)@.bytes == old(self)@.bytes,
            old(self)@.cursor <= final(self)@.cursor <= final(self)@.bytes.len(),
            (r is Ok <==> {
                let start = token_start(old(self)@.bytes, old(self)@.cursor);
                start < old(self)@.bytes.len() ==> starts_token(old(self)@.bytes[start])
            }),
            (match scan(old(self)@.bytes, old(self)@.cursor) {
                Ok(lexeme) => {
                    &&& r matches Ok(token)
                    &&& token@ == lexeme.token
                    &&& final(self)@.cursor == lexeme.end
                },
                Err(e) => {
                    &&& r == Err::<Token, LexError>(e)
                    &&& final(self)@.cursor == e.position()
                },
            }),
    {
        proof {
            use_type_invariant(&*self);
            lemma_scan_extent(self@.bytes, self.position as int);
        }
        self.skip_whitespace();
        proof {
            use_type_invariant(&*self);
        }
        if self.position >= self.length {
            return Ok(Token::EOF);
        }
        let start: usize = self.position;
        let b: u8 = self.byte(start);
        let token = if b == LEFT_BRACE {
            Token::LSquigly
        } else if b == RIGHT_BRACE {
            Token::RSquigly
        } else if b == LEFT_PAREN {
            Token::LPar
        } else if b == RIGHT_PAREN {
            Token::RPar
        } else if b == SEMICOLON {
            Token::Semicolon
        } else if b == EQUALS {
            Token::Equal
        } else if b == LESS {
            if self.followed_by_equals() {
                self.read_char();
                Token::LEThan
            } else {
                Token::LThan
            }
        } else if b == GREATER {
            if self.followed_by_equals() {
                self.read_char();
                Token::GEThan
            } else {
                Token::GThan
            }
        } else if byte_is_digit(b) {
            Token::IntVal(self.read_int())
        } else if byte_is_word(b) {
            let text = self.read_identifier();
            proof {
                use_type_invariant(&*self);
            }
            let word = slice_subrange(
                self.input.as_str().as_bytes(),
                start,
                self.position + 1,
            );
            Self::word_to_token(word, text)
        } else {
            return Err(LexError::UnrecognizedCharacter { position: start, byte: b });
        };
        self.read_char();
        Ok(token)
    }

    /// Whether the byte after the one at the cursor is `=`.
    fn followed_by_equals(&self) -> (r: bool)
        ensures
            r == (self@.cursor + 1 < self@.bytes.len() && self@.bytes[self@.cursor + 1]
                == EQUALS),
    {
        match self.peek() {
            Some(next) => next == EQUALS,
            None => false,
        }
    }

    /// Passes over whitespace and reads one token, on input in which the
    /// first byte after the whitespace at the cursor, if there is one, can
    /// start a token.
    pub fn next_token(&mut self) -> (token: Token)
        requires
            ({
                let start = token_start(old(self)@.bytes, old(self)@.cursor);
                start < old(self)@.bytes.len() ==> starts_token(old(self)@.bytes[start])
            }),
        ensures
            scan(old(self)@.bytes, old(self)@.cursor) is Ok,
            final(self)@.bytes == old(self)@.bytes,
            old(self)@.cursor <= final(self)@.cursor <= final(self)@.bytes.len(),
            token@ == scan(old(self)@.bytes, old(self)@.cursor)->Ok_0.token,
            final(self)@.cursor == scan(old(self)@.bytes, old(self)@.cursor)->Ok_0.end,
    {
        match self.try_next_token() {
            Ok(token) => token,
            Err(_) => unreached(),
        }
    }

    /// Reads tokens up to and including the end marker, or up to the first
    /// byte that starts no token; the cursor then stays on that byte. There
    /// are tokens exactly where every byte from the cursor on is whitespace
    /// or a byte of a token; the end marker is the last of them and stands
    /// nowhere else.
    pub fn try_tokenize(&mut self) -> (r: Result<Vec<Token>, LexError>)
        ensures
            final(self)@.bytes == old(self)@.bytes,
            old(self)@.cursor <= final(self)@.cursor <= final(self)@.bytes.len(),
            r is Ok <==> forall|k: int|
                old(self)@.cursor <= k < old(self)@.bytes.len() ==> recognized(
                    #[trigger] old(self)@.bytes[k],
                ),
            (r matches Ok(tokens) ==> {
                &&& tokens@.len() >= 1
                &&& tokens@.last()@ == SpecToken::EOF
                &&& forall|k: int| 0 <= k < tokens@.len() - 1 ==> !(#[trigger] tokens@[k]@ is EOF)
            }),
            (match token_stream(old(self)@.bytes, old(self)@.cursor) {
                Ok(stream) => {
                    &&& r matches Ok(tokens)
                    &&& tokens.deep_view() == stream
                    &&& final(self)@.cursor == final(self)@.bytes.len()
                },
                Err(e) => {
                    &&& r == Err::<Vec<Token>, LexError>(e)
                    &&& final(self)@.cursor == e.position()
                },
            }),
    {
        proof {
            use_type_invariant(&*self);
            lemma_token_stream_recognized(self@.bytes, self.position as int);
            if token_stream(self@.bytes, self.position as int) is Ok {
                lemma_token_stream_ends_with_marker(self@.bytes, self.position as int);
            }
        }
        let r = self.read_tokens();
        proof {
            if r is Ok {
                let tokens = r->Ok_0;
                let stream = tokens.deep_view();
                assert(stream.len() == tokens@.len());
                assert(stream.last() == tokens@.last()@);
                assert forall|k: int| 0 <= k < tokens@.len() - 1 implies !(tokens@[k]@ is EOF) by {
                    assert(stream[k] == tokens@[k]@);
                }
            }
        }
        r
    }

    /// The loop of [`Lexer::try_tokenize`]: reads token after token.
    fn read_tokens(&mut self) -> (r: Result<Vec<Token>, LexError>)
        ensures
            final(self)@.bytes == old(self)@.bytes,
            old(self)@.cursor <= final(self)@.cursor <= final(self)@.bytes.len(),
            (match token_stream(old(self)@.bytes, old(self)@.cursor) {
                Ok(stream) => {
                    &&& r matches Ok(tokens)
                    &&& tokens.deep_view() == stream
                    &&& final(self)@.cursor == final(self)@.bytes.len()
                },
                Err(e) => {
                    &&& r == Err::<Vec<Token>, LexError>(e)
                    &&& final(self)@.cursor == e.position()
                },
            }),
    {
        let mut tokens: Vec<Token> = Vec::new();
        loop
            invariant
                self@.bytes == old(self)@.bytes,
                old(self).position <= self.position,
                match token_stream(self@.bytes, self.position as int) {
                    Ok(rest) => token_stream(old(self)@.bytes, old(self).position as int) == Ok::<
                        Seq<SpecToken>,
                        LexError,
                    >(tokens.deep_view() + rest),
                    Err(e) => token_stream(old(self)@.bytes, old(self).position as int) == Err::<
                        Seq<SpecToken>,
                        LexError,
                    >(e),
                },
            decreases self@.bytes.len() - self.position,
        {
            proof {
                use_type_invariant(&*self);
                lemma_scan_extent(self@.bytes, self.position as int);
            }
            let ghost before = tokens.deep_view();
            match self.try_next_token() {
                Err(e) => {
                    return Err(e);
                },
                Ok(token) => {
                    let done = matches!(token, Token::EOF);
                    tokens.push(token);
                    assert(tokens.deep_view() =~= before.push(token@));
                    if done {
                        assert(before.push(token@) =~= before + seq![token@]);
                        return Ok(tokens);
                    }
                    proof {
                        assert forall|rest: Seq<SpecToken>|
                            before + (seq![token@] + rest) == #[trigger] (before.push(token@)
                                + rest) by {
                            assert(before + (seq![token@] + rest) =~= before.push(token@) + rest);
                        }
                    }
                },
            }
        }
    }

    /// Reads tokens up to and including the end marker, on input in which
    /// every byte from the cursor on is whitespace or a byte of a token.
    /// The end marker is the last of the tokens and stands nowhere else.
    pub fn tokenize(&mut self) -> (tokens: Vec<Token>)
        requires
            forall|k: int|
                old(self)@.cursor <= k < old(self)@.bytes.len() ==> recognized(
                    #[trigger] old(self)@.bytes[k],
                ),
        ensures
            token_stream(old(self)@.bytes, old(self)@.cursor) is Ok,
            final(self)@.bytes == old(self)@.bytes,
            tokens@.len() >= 1,
            tokens@.last()@ == SpecToken::EOF,
            forall|k: int| 0 <= k < tokens@.len() - 1 ==> !(#[trigger] tokens@[k]@ is EOF),
            tokens.deep_view() == token_stream(old(self)@.bytes, old(self)@.cursor)->Ok_0,
            final(self)@.cursor == final(self)@.bytes.len(),
    {
        match self.try_tokenize() {
            Ok(tokens) => tokens,
            Err(_) => unreached(),
        }
    }
}

} // verus!
