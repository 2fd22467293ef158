//! From source text to tree: what the lexer and the grammar together make
//! of a function that returns an integer constant.

use vstd::prelude::*;
use crate::lexer::concat::{
    is_blank, is_digits, is_word, lemma_scan_digits, lemma_scan_punctuation, lemma_scan_relational,
    lemma_scan_word, lemma_spaced_first, lemma_token_stream_blank, lemma_token_stream_first,
    relational, spaced,
};
use crate::lexer::lexer::SpecToken;
use crate::lexer::scan::{
    is_digit, keyword_else, keyword_if, keyword_int, keyword_return, text_of, token_stream,
    word_token, EQUALS, LEFT_BRACE, LEFT_PAREN, RIGHT_BRACE, RIGHT_PAREN, SEMICOLON,
};
use crate::lexer::stream::{
    is_keyword, lemma_keyword_in_other_case, lemma_token_stream_ends_with_marker,
    lemma_token_stream_length, lemma_token_stream_literals, same_ignoring_case,
};
use crate::parser::ast::SpecNode;
use crate::parser::grammar::{
    expression_node, expressions, function, function_body, function_node, lemma_program_extent,
    parameter_list, program, program_node, statement, statement_node, statements, with_children,
    Outcome, ParseError, Status,
};
use crate::parser::literal::{
    all_digit_chars, decimal_value, has_sign, is_digit_char, lemma_decimal_value_grows,
    literal_value,
};
use crate::parser::shape::{
    lemma_program_failure, lemma_program_matched_at_marker, lemma_program_stop,
    lemma_program_tokens, outside_grammar,
};

verus! {

/// The source of a function without parameters whose body is one statement
/// of one literal:
///
/// ```text
/// int <name> ( ) { <starter> <digits> ; }
/// ```
///
/// `gaps` holds the whitespace before each of the nine tokens and after
/// the last.
pub open spec fn single_statement_source(
    gaps: Seq<Seq<u8>>,
    name: Seq<u8>,
    starter: Seq<u8>,
    digits: Seq<u8>,
) -> Seq<u8> {
    spaced(
        gaps[0],
        keyword_int(),
        spaced(
            gaps[1],
            name,
            spaced(
                gaps[2],
                seq![LEFT_PAREN],
                spaced(
                    gaps[3],
                    seq![RIGHT_PAREN],
                    spaced(
                        gaps[4],
                        seq![LEFT_BRACE],
                        spaced(
                            gaps[5],
                            starter,
                            spaced(
                                gaps[6],
                                digits,
                                spaced(
                                    gaps[7],
                                    seq![SEMICOLON],
                                    spaced(gaps[8], seq![RIGHT_BRACE], gaps[9]),
                                ),
                            ),
                        ),
                    ),
                ),
            ),
        ),
    )
}

/// The tokens of such a source.
pub open spec fn single_statement_tokens(
    name: Seq<char>,
    starter: SpecToken,
    digits: Seq<char>,
) -> Seq<SpecToken> {
    seq![
        SpecToken::Int,
        SpecToken::Identifier(name),
        SpecToken::LPar,
        SpecToken::RPar,
        SpecToken::LSquigly,
        starter,
        SpecToken::IntVal(digits),
        SpecToken::Semicolon,
        SpecToken::RSquigly,
        SpecToken::EOF,
    ]
}

/// Whitespace that keeps the tokens of such a source apart: any amount
/// between any two tokens, none included, and at least one byte between
/// `int` and the name, which would else be one word.
pub open spec fn separates(gaps: Seq<Seq<u8>>) -> bool {
    &&& gaps.len() == 10
    &&& forall|k: int| 0 <= k < 10 ==> is_blank(#[trigger] gaps[k])
    &&& gaps[1].len() > 0
}

/// The tree of a program of one function called `name` with one `return`
/// statement of one expression of the given value.
pub open spec fn single_return_tree(name: Seq<char>, value: i64) -> SpecNode {
    program_node(seq![function_node(name, seq![statement_node(seq![expression_node(value)])])])
}

/// The tree that a parser which starts from an empty program has after the
/// given outcome.
pub open spec fn tree_after(outcome: Outcome) -> SpecNode {
    with_children(program_node(Seq::empty()), outcome.nodes)
}

/// The text of decimal digits is a literal, and its value is the number
/// that the digits denote where that fits a signed 64-bit integer.
pub proof fn lemma_digits_value(digits: Seq<u8>)
    requires
        is_digits(digits),
    ensures
        (literal_value(text_of(digits)) == if decimal_value(text_of(digits)) <= i64::MAX {
            Some(decimal_value(text_of(digits)) as i64)
        } else {
            None
        }),
{
    let text = text_of(digits);
    assert forall|k: int| 0 <= k < text.len() implies is_digit_char(#[trigger] text[k]) by {
        assert(is_digit(digits[k]));
    }
    assert(is_digit_char(text[0]));
    lemma_decimal_value_grows(text, 0);
}

/// Lexing a source of one function with one statement gives its nine
/// tokens and the end marker, however much whitespace separates them.
pub proof fn lemma_single_statement_lexes(
    gaps: Seq<Seq<u8>>,
    name: Seq<u8>,
    starter: Seq<u8>,
    digits: Seq<u8>,
)
    requires
        separates(gaps),
        is_word(name),
        !is_keyword(name),
        is_word(starter),
        is_digits(digits),
    ensures
        token_stream(single_statement_source(gaps, name, starter, digits), 0) matches Ok(tokens)
            && tokens == single_statement_tokens(
            text_of(name),
            word_token(starter),
            text_of(digits),
        ),
{
    let r9 = gaps[9];
    let r8 = spaced(gaps[8], seq![RIGHT_BRACE], r9);
    let r7 = spaced(gaps[7], seq![SEMICOLON], r8);
    let r6 = spaced(gaps[6], digits, r7);
    let r5 = spaced(gaps[5], starter, r6);
    let r4 = spaced(gaps[4], seq![LEFT_BRACE], r5);
    let r3 = spaced(gaps[3], seq![RIGHT_PAREN], r4);
    let r2 = spaced(gaps[2], seq![LEFT_PAREN], r3);
    let r1 = spaced(gaps[1], name, r2);
    let r0 = spaced(gaps[0], keyword_int(), r1);
    assert(r0 == single_statement_source(gaps, name, starter, digits));
    assert(is_blank(gaps[0]) && is_blank(gaps[1]) && is_blank(gaps[2]) && is_blank(gaps[3])
        && is_blank(gaps[4]));
    assert(is_blank(gaps[5]) && is_blank(gaps[6]) && is_blank(gaps[7]) && is_blank(gaps[8])
        && is_blank(gaps[9]));

    lemma_token_stream_blank(r9);

    lemma_scan_punctuation(gaps[8], RIGHT_BRACE, r9);
    lemma_token_stream_first(gaps[8], seq![RIGHT_BRACE], r9, SpecToken::RSquigly);

    lemma_scan_punctuation(gaps[7], SEMICOLON, r8);
    lemma_token_stream_first(gaps[7], seq![SEMICOLON], r8, SpecToken::Semicolon);

    lemma_spaced_first(gaps[7], seq![SEMICOLON], r8);
    lemma_scan_digits(gaps[6], digits, r7);
    lemma_token_stream_first(gaps[6], digits, r7, SpecToken::IntVal(text_of(digits)));

    lemma_spaced_first(gaps[6], digits, r7);
    assert(is_digit(digits[0]));
    lemma_scan_word(gaps[5], starter, r6);
    lemma_word_token_is_no_marker(starter);
    lemma_token_stream_first(gaps[5], starter, r6, word_token(starter));

    lemma_scan_punctuation(gaps[4], LEFT_BRACE, r5);
    lemma_token_stream_first(gaps[4], seq![LEFT_BRACE], r5, SpecToken::LSquigly);

    lemma_scan_punctuation(gaps[3], RIGHT_PAREN, r4);
    lemma_token_stream_first(gaps[3], seq![RIGHT_PAREN], r4, SpecToken::RPar);

    lemma_scan_punctuation(gaps[2], LEFT_PAREN, r3);
    lemma_token_stream_first(gaps[2], seq![LEFT_PAREN], r3, SpecToken::LPar);

    lemma_spaced_first(gaps[2], seq![LEFT_PAREN], r3);
    lemma_scan_word(gaps[1], name, r2);
    lemma_word_token_is_no_marker(name);
    lemma_token_stream_first(gaps[1], name, r2, word_token(name));

    assert(r1[0] == gaps[1][0]);
    assert(is_word(keyword_int()));
    lemma_scan_word(gaps[0], keyword_int(), r1);
    lemma_token_stream_first(gaps[0], keyword_int(), r1, SpecToken::Int);

    assert(token_stream(r0, 0)->Ok_0 =~= seq![
        SpecToken::Int,
        word_token(name),
        SpecToken::LPar,
        SpecToken::RPar,
        SpecToken::LSquigly,
        word_token(starter),
        SpecToken::IntVal(text_of(digits)),
        SpecToken::Semicolon,
        SpecToken::RSquigly,
        SpecToken::EOF,
    ]);
}

/// A word is never read as the end marker.
pub proof fn lemma_word_token_is_no_marker(word: Seq<u8>)
    ensures
        !(word_token(word) is EOF),
{
}

/// The grammar accepts the tokens of a function with one `return` of one
/// literal, reads all of them and builds the tree of that function.
pub proof fn lemma_single_return_parses(name: Seq<char>, digits: Seq<char>, value: i64)
    requires
        literal_value(digits) == Some(value),
    ensures
        ({
            let outcome = program(single_statement_tokens(name, SpecToken::Return, digits), 0);
            &&& outcome.status == Status::Matched
            &&& outcome.next == 10
            &&& tree_after(outcome) == single_return_tree(name, value)
        }),
{
    let ts = single_statement_tokens(name, SpecToken::Return, digits);
    let functions = seq![function_node(name, seq![statement_node(seq![expression_node(value)])])];
    assert(expressions(ts, 7).status == Status::Matched && expressions(ts, 7).next == 8
        && expressions(ts, 7).nodes =~= Seq::empty());
    assert(expressions(ts, 6).status == Status::Matched && expressions(ts, 6).next == 8
        && expressions(ts, 6).nodes =~= seq![expression_node(value)]);
    assert(statement(ts, 6).nodes =~= seq![statement_node(seq![expression_node(value)])]);
    assert(statements(ts, 8).status == Status::Matched && statements(ts, 8).next == 9
        && statements(ts, 8).nodes =~= Seq::empty());
    assert(statements(ts, 5).status == Status::Matched && statements(ts, 5).next == 9
        && statements(ts, 5).nodes =~= seq![statement_node(seq![expression_node(value)])]);
    assert(parameter_list(ts, 2).status == Status::Matched && parameter_list(ts, 2).next == 4);
    assert(function_body(ts, 4, name).nodes =~= functions);
    assert(function(ts, 2, name).status == Status::Matched && function(ts, 2, name).next == 9);
    assert(program(ts, 9).status == Status::Matched && program(ts, 9).next == 10 && program(
        ts,
        9,
    ).nodes =~= Seq::empty());
    assert(program(ts, 1).status == Status::Matched && program(ts, 1).next == 10 && program(
        ts,
        1,
    ).nodes =~= functions);
    assert(program(ts, 0) == program(ts, 1));
    assert(Seq::<SpecNode>::empty() + functions =~= functions);
}

/// The grammar rejects the tokens of a function whose body starts with a
/// token that is neither `return` nor the closing brace, as soon as it has
/// read that token. No function is built.
pub proof fn lemma_other_starter_is_rejected(
    name: Seq<char>,
    starter: SpecToken,
    digits: Seq<char>,
)
    requires
        starter != SpecToken::Return,
        starter != SpecToken::RSquigly,
    ensures
        ({
            let outcome = program(single_statement_tokens(name, starter, digits), 0);
            &&& outcome.status == Status::Rejected
            &&& outcome.next == 6
            &&& tree_after(outcome) == program_node(Seq::empty())
        }),
{
    let ts = single_statement_tokens(name, starter, digits);
    assert(statements(ts, 5).status == Status::Rejected && statements(ts, 5).next == 6);
    assert(parameter_list(ts, 2).status == Status::Matched && parameter_list(ts, 2).next == 4);
    assert(function_body(ts, 4, name).status == Status::Rejected && function_body(
        ts,
        4,
        name,
    ).next == 6 && function_body(ts, 4, name).nodes =~= Seq::empty());
    assert(program(ts, 1).status == Status::Rejected && program(ts, 1).next == 6 && program(
        ts,
        1,
    ).nodes =~= Seq::empty());
    assert(program(ts, 0) == program(ts, 1));
    assert(Seq::<SpecNode>::empty() + Seq::<SpecNode>::empty() =~= Seq::<SpecNode>::empty());
}

/// A source of the shape `int <name> ( ) { return <digits> ; }`, with any
/// whitespace between its tokens, is lexed and accepted, and its tree is
/// the program of one function called `<name>`, with one `return`
/// statement, with one expression whose value is the number that the
/// digits denote. The name is any word but a keyword, and the number fits a
/// signed 64-bit integer.
pub proof fn lemma_returning_function_is_accepted(
    gaps: Seq<Seq<u8>>,
    name: Seq<u8>,
    digits: Seq<u8>,
)
    requires
        separates(gaps),
        is_word(name),
        !is_keyword(name),
        is_digits(digits),
        decimal_value(text_of(digits)) <= i64::MAX,
    ensures
        (token_stream(single_statement_source(gaps, name, keyword_return(), digits), 0) matches Ok(
            tokens,
        ) && {
            &&& program(tokens, 0).status == Status::Matched
            &&& program(tokens, 0).next == tokens.len()
            &&& tree_after(program(tokens, 0)) == single_return_tree(
                text_of(name),
                decimal_value(text_of(digits)) as i64,
            )
        }),
{
    assert(is_word(keyword_return()));
    lemma_single_statement_lexes(gaps, name, keyword_return(), digits);
    lemma_digits_value(digits);
    lemma_single_return_parses(
        text_of(name),
        text_of(digits),
        decimal_value(text_of(digits)) as i64,
    );
}

/// A source of the same shape in which `return` is written with another
/// letter case is lexed, with an identifier where the keyword would stand,
/// and rejected.
pub proof fn lemma_return_in_other_case_is_rejected(
    gaps: Seq<Seq<u8>>,
    name: Seq<u8>,
    starter: Seq<u8>,
    digits: Seq<u8>,
)
    requires
        separates(gaps),
        is_word(name),
        !is_keyword(name),
        same_ignoring_case(starter, keyword_return()),
        starter != keyword_return(),
        is_digits(digits),
    ensures
        (token_stream(single_statement_source(gaps, name, starter, digits), 0) matches Ok(
            tokens,
        ) && {
            &&& tokens[5] == SpecToken::Identifier(text_of(starter))
            &&& program(tokens, 0).status == Status::Rejected
        }),
{
    lemma_keyword_in_other_case(starter, keyword_return());
    lemma_single_statement_lexes(gaps, name, starter, digits);
    lemma_other_starter_is_rejected(
        text_of(name),
        SpecToken::Identifier(text_of(starter)),
        text_of(digits),
    );
}

/// The token that the lexer has for a relational operator, `if` or `else`.
pub open spec fn unsupported_token(lexeme: Seq<u8>) -> Option<SpecToken> {
    if lexeme == seq![EQUALS] {
        Some(SpecToken::Equal)
    } else if lexeme == keyword_if() {
        Some(SpecToken::If)
    } else if lexeme == keyword_else() {
        Some(SpecToken::Else)
    } else {
        relational(lexeme)
    }
}

/// A relational operator, `if` or `else` that stands alone, with or without
/// whitespace around it, is lexed as its token and the end marker. The
/// token is one that the grammar does not read.
pub proof fn lemma_unsupported_token_lexes_alone(
    gap: Seq<u8>,
    lexeme: Seq<u8>,
    trailing: Seq<u8>,
)
    requires
        is_blank(gap),
        is_blank(trailing),
        unsupported_token(lexeme) is Some,
    ensures
        token_stream(spaced(gap, lexeme, trailing), 0) matches Ok(tokens) && tokens
            == seq![unsupported_token(lexeme)->Some_0, SpecToken::EOF],
        outside_grammar(unsupported_token(lexeme)->Some_0),
{
    let token = unsupported_token(lexeme)->Some_0;
    lemma_token_stream_blank(trailing);
    if lexeme == seq![EQUALS] {
        assert(lexeme[0] == EQUALS);
        lemma_scan_punctuation(gap, EQUALS, trailing);
    } else if lexeme == keyword_if() || lexeme == keyword_else() {
        assert(is_word(lexeme));
        assert(lexeme.len() == 2 || lexeme.len() == 4);
        lemma_scan_word(gap, lexeme, trailing);
    } else {
        lemma_scan_relational(gap, lexeme, trailing);
    }
    lemma_token_stream_first(gap, lexeme, trailing, token);
}

/// A source among whose tokens is a relational operator, `if` or `else` is
/// not accepted.
pub proof fn lemma_unsupported_token_is_not_accepted(source: Seq<u8>, k: int)
    requires
        token_stream(source, 0) is Ok,
        0 <= k < token_stream(source, 0)->Ok_0.len(),
        outside_grammar(token_stream(source, 0)->Ok_0[k]),
    ensures
        program(token_stream(source, 0)->Ok_0, 0).status != Status::Matched,
{
    let tokens = token_stream(source, 0)->Ok_0;
    if program(tokens, 0).status == Status::Matched {
        lemma_token_stream_ends_with_marker(source, 0);
        lemma_program_matched_at_marker(tokens, 0);
        lemma_program_tokens(tokens, 0);
        let last = program(tokens, 0).next - 1;
        assert(tokens[last] is EOF);
        assert(!outside_grammar(tokens[k]));
    }
}

/// On the tokens of a source the analysis fails only on a literal whose
/// digits denote a number above `i64::MAX`: the tokens never run out, and
/// the text of every literal is digits.
pub proof fn lemma_lexed_tokens_fail_on_large_literals_only(source: Seq<u8>)
    requires
        source.len() < usize::MAX,
        token_stream(source, 0) is Ok,
    ensures
        (program(token_stream(source, 0)->Ok_0, 0).status matches Status::Failed(e) ==> {
            &&& e matches ParseError::MalformedIntegerLiteral { index }
            &&& 0 <= index < token_stream(source, 0)->Ok_0.len()
            &&& token_stream(source, 0)->Ok_0[index as int] matches SpecToken::IntVal(text)
            &&& all_digit_chars(text)
            &&& decimal_value(text) > i64::MAX
        }),
{
    let tokens = token_stream(source, 0)->Ok_0;
    lemma_token_stream_ends_with_marker(source, 0);
    lemma_token_stream_literals(source, 0);
    lemma_token_stream_length(source, 0);
    lemma_program_stop(tokens, 0, tokens.len() - 1);
    lemma_program_failure(tokens, 0);
    lemma_program_extent(tokens, 0);
    if let Status::Failed(ParseError::MalformedIntegerLiteral { index }) =
        program(tokens, 0).status {
        let text = tokens[index as int]->IntVal_0;
        assert(!has_sign(text));
        lemma_decimal_value_grows(text, 0);
    }
}

} // verus!
