//! What holds of every outcome of the grammar: the shape of the trees it
//! builds, the tokens it can read, and where it stops.

use vstd::prelude::*;
use crate::lexer::lexer::SpecToken;
use crate::parser::ast::SpecNode;
use crate::parser::grammar::{
    expressions, function, lemma_expressions_extent, lemma_function_extent, lemma_program_extent,
    lemma_statements_extent, parameter_list, program, statement, statements, ParseError, Status,
};
use crate::parser::literal::literal_value;

verus! {

/// An expression is a leaf.
pub open spec fn is_expression(node: SpecNode) -> bool {
    node.node_type is Expression && node.children.len() == 0
}

/// A statement has expressions as its children, at least one.
pub open spec fn is_statement(node: SpecNode) -> bool {
    &&& node.node_type is Statement
    &&& node.children.len() >= 1
    &&& forall|k: int| 0 <= k < node.children.len() ==> is_expression(#[trigger] node.children[k])
}

/// A function has statements as its children, at least one.
pub open spec fn is_function(node: SpecNode) -> bool {
    &&& node.node_type is Function
    &&& node.children.len() >= 1
    &&& forall|k: int| 0 <= k < node.children.len() ==> is_statement(#[trigger] node.children[k])
}

/// A program has functions as its children, and may have none.
pub open spec fn is_program(node: SpecNode) -> bool {
    &&& node.node_type is Program
    &&& forall|k: int| 0 <= k < node.children.len() ==> is_function(#[trigger] node.children[k])
}

/// The tokens that no rule of the grammar reads: the relational operators,
/// `if` and `else`.
pub open spec fn outside_grammar(token: SpecToken) -> bool {
    ||| token is Equal
    ||| token is GThan
    ||| token is GEThan
    ||| token is LThan
    ||| token is LEThan
    ||| token is If
    ||| token is Else
}

/// Every node of a list of expressions is an expression.
pub proof fn lemma_expressions_shape(ts: Seq<SpecToken>, i: int)
    requires
        0 <= i,
    ensures
        forall|k: int|
            0 <= k < expressions(ts, i).nodes.len() ==> is_expression(
                #[trigger] expressions(ts, i).nodes[k],
            ),
    decreases ts.len() - i,
{
    if i < ts.len() {
        if let SpecToken::IntVal(text) = ts[i] {
            if literal_value(text) is Some {
                lemma_expressions_shape(ts, i + 1);
            }
        }
    }
}

/// Every node of a list of statements is a statement with its expressions.
pub proof fn lemma_statements_shape(ts: Seq<SpecToken>, i: int)
    requires
        0 <= i,
    ensures
        forall|k: int|
            0 <= k < statements(ts, i).nodes.len() ==> is_statement(
                #[trigger] statements(ts, i).nodes[k],
            ),
    decreases ts.len() - i,
{
    if i < ts.len() && ts[i] == SpecToken::Return {
        let first = statement(ts, i + 1);
        lemma_expressions_shape(ts, i + 1);
        lemma_expressions_extent(ts, i + 1);
        if first.status == Status::Matched {
            lemma_statements_shape(ts, first.next);
        }
    }
}

/// The node of a function, where it has one, is a function with its
/// statements.
pub proof fn lemma_function_shape(ts: Seq<SpecToken>, i: int, name: Seq<char>)
    requires
        0 <= i,
    ensures
        forall|k: int|
            0 <= k < function(ts, i, name).nodes.len() ==> is_function(
                #[trigger] function(ts, i, name).nodes[k],
            ),
{
    if parameter_list(ts, i).status == Status::Matched {
        lemma_statements_shape(ts, i + 3);
    }
}

/// Every node that the grammar appends to the root is a function with at
/// least one statement, each with at least one expression, however the
/// analysis ended.
pub proof fn lemma_program_shape(ts: Seq<SpecToken>, i: int)
    requires
        0 <= i,
    ensures
        forall|k: int|
            0 <= k < program(ts, i).nodes.len() ==> is_function(#[trigger] program(ts, i).nodes[k]),
    decreases ts.len() - i,
{
    if i < ts.len() {
        match ts[i] {
            SpecToken::Int => {
                lemma_program_shape(ts, i + 1);
            },
            SpecToken::Identifier(name) => {
                let first = function(ts, i + 1, name);
                lemma_function_shape(ts, i + 1, name);
                lemma_function_extent(ts, i + 1, name);
                if first.status == Status::Matched {
                    lemma_program_shape(ts, first.next);
                }
            },
            _ => {},
        }
    }
}

/// A list of expressions that matched holds only literals and its semicolon.
pub proof fn lemma_expressions_tokens(ts: Seq<SpecToken>, i: int)
    requires
        0 <= i,
        expressions(ts, i).status == Status::Matched,
    ensures
        forall|k: int| i <= k < expressions(ts, i).next ==> !outside_grammar(#[trigger] ts[k]),
    decreases ts.len() - i,
{
    if i < ts.len() {
        if let SpecToken::IntVal(text) = ts[i] {
            if literal_value(text) is Some {
                lemma_expressions_tokens(ts, i + 1);
            }
        }
    }
}

/// A list of statements that matched holds no token from outside the
/// grammar.
pub proof fn lemma_statements_tokens(ts: Seq<SpecToken>, i: int)
    requires
        0 <= i,
        statements(ts, i).status == Status::Matched,
    ensures
        forall|k: int| i <= k < statements(ts, i).next ==> !outside_grammar(#[trigger] ts[k]),
    decreases ts.len() - i,
{
    if i < ts.len() && ts[i] == SpecToken::Return {
        let first = statement(ts, i + 1);
        lemma_expressions_extent(ts, i + 1);
        lemma_expressions_tokens(ts, i + 1);
        lemma_statements_tokens(ts, first.next);
    }
}

/// A function that matched holds no token from outside the grammar.
pub proof fn lemma_function_tokens(ts: Seq<SpecToken>, i: int, name: Seq<char>)
    requires
        0 <= i,
        function(ts, i, name).status == Status::Matched,
    ensures
        forall|k: int| i <= k < function(ts, i, name).next ==> !outside_grammar(#[trigger] ts[k]),
{
    lemma_statements_tokens(ts, i + 3);
}

/// A program that matched holds no relational operator, no `if` and no
/// `else` among the tokens read, the end marker included: a program that
/// holds one of them, in a function's body or elsewhere, does not match.
pub proof fn lemma_program_tokens(ts: Seq<SpecToken>, i: int)
    requires
        0 <= i,
        program(ts, i).status == Status::Matched,
    ensures
        forall|k: int| i <= k < program(ts, i).next ==> !outside_grammar(#[trigger] ts[k]),
    decreases ts.len() - i,
{
    if i < ts.len() {
        match ts[i] {
            SpecToken::Int => {
                lemma_program_tokens(ts, i + 1);
            },
            SpecToken::Identifier(name) => {
                let first = function(ts, i + 1, name);
                lemma_function_extent(ts, i + 1, name);
                lemma_function_tokens(ts, i + 1, name);
                lemma_program_tokens(ts, first.next);
            },
            _ => {},
        }
    }
}

/// In a function's body only `return` starts a statement: any other token
/// but the closing brace is rejected as soon as it is read.
pub proof fn lemma_statement_starts_with_return(ts: Seq<SpecToken>, i: int)
    requires
        0 <= i < ts.len(),
        ts[i] != SpecToken::Return,
        ts[i] != SpecToken::RSquigly,
    ensures
        statements(ts, i).status == Status::Rejected,
        statements(ts, i).next == i + 1,
        statements(ts, i).nodes.len() == 0,
{
}

/// With an end marker at `end`, a list of expressions from an index up to
/// `end` stops at or before the marker, and the tokens do not run out.
pub proof fn lemma_expressions_stop(ts: Seq<SpecToken>, i: int, end: int)
    requires
        0 <= i <= end < ts.len(),
        ts[end] == SpecToken::EOF,
    ensures
        expressions(ts, i).next <= end + 1,
        expressions(ts, i).status != Status::Failed(ParseError::MissingEndMarker),
        expressions(ts, i).status == Status::Matched ==> expressions(ts, i).next <= end,
    decreases end - i,
{
    if let SpecToken::IntVal(text) = ts[i] {
        if literal_value(text) is Some {
            lemma_expressions_stop(ts, i + 1, end);
        }
    }
}

/// With an end marker at `end`, a list of statements from an index up to
/// `end` stops at or before the marker, and the tokens do not run out.
pub proof fn lemma_statements_stop(ts: Seq<SpecToken>, i: int, end: int)
    requires
        0 <= i <= end < ts.len(),
        ts[end] == SpecToken::EOF,
    ensures
        statements(ts, i).next <= end + 1,
        statements(ts, i).status != Status::Failed(ParseError::MissingEndMarker),
        statements(ts, i).status == Status::Matched ==> statements(ts, i).next <= end,
    decreases end - i,
{
    if ts[i] == SpecToken::Return {
        let first = statement(ts, i + 1);
        lemma_expressions_stop(ts, i + 1, end);
        lemma_expressions_extent(ts, i + 1);
        if first.status == Status::Matched {
            lemma_statements_stop(ts, first.next, end);
        }
    }
}

/// With an end marker at `end`, a function from an index up to `end` stops
/// at or before the marker, and the tokens do not run out.
pub proof fn lemma_function_stop(ts: Seq<SpecToken>, i: int, end: int, name: Seq<char>)
    requires
        0 <= i <= end < ts.len(),
        ts[end] == SpecToken::EOF,
    ensures
        function(ts, i, name).next <= end + 1,
        function(ts, i, name).status != Status::Failed(ParseError::MissingEndMarker),
        function(ts, i, name).status == Status::Matched ==> function(ts, i, name).next <= end,
{
    if parameter_list(ts, i).status == Status::Matched {
        if ts[i + 2] == SpecToken::LSquigly {
            lemma_statements_stop(ts, i + 3, end);
        }
    }
}

/// With an end marker at `end`, a program from an index up to `end` stops
/// at or before the marker or just after it, and the tokens do not run
/// out: the parser never reads past the first end marker.
pub proof fn lemma_program_stop(ts: Seq<SpecToken>, i: int, end: int)
    requires
        0 <= i <= end < ts.len(),
        ts[end] == SpecToken::EOF,
    ensures
        program(ts, i).next <= end + 1,
        program(ts, i).status != Status::Failed(ParseError::MissingEndMarker),
    decreases end - i,
{
    match ts[i] {
        SpecToken::Int => {
            lemma_program_stop(ts, i + 1, end);
        },
        SpecToken::Identifier(name) => {
            let first = function(ts, i + 1, name);
            lemma_function_stop(ts, i + 1, end, name);
            lemma_function_extent(ts, i + 1, name);
            if first.status == Status::Matched {
                lemma_program_stop(ts, first.next, end);
            }
        },
        _ => {},
    }
}

/// A program that matched stops just after an end marker.
pub proof fn lemma_program_matched_at_marker(ts: Seq<SpecToken>, i: int)
    requires
        0 <= i,
        program(ts, i).status == Status::Matched,
    ensures
        i < program(ts, i).next <= ts.len(),
        ts[program(ts, i).next - 1] == SpecToken::EOF,
    decreases ts.len() - i,
{
    if i < ts.len() {
        match ts[i] {
            SpecToken::Int => {
                lemma_program_matched_at_marker(ts, i + 1);
            },
            SpecToken::Identifier(name) => {
                let first = function(ts, i + 1, name);
                lemma_function_extent(ts, i + 1, name);
                lemma_program_matched_at_marker(ts, first.next);
            },
            _ => {},
        }
    }
}

/// Where a list of expressions failed on a literal, that literal is among
/// the tokens read and has no value.
pub proof fn lemma_expressions_failure(ts: Seq<SpecToken>, i: int)
    requires
        0 <= i,
        ts.len() <= usize::MAX,
    ensures
        (expressions(ts, i).status matches Status::Failed(
            ParseError::MalformedIntegerLiteral { index },
        ) ==> {
            &&& i <= index < expressions(ts, i).next
            &&& ts[index as int] matches SpecToken::IntVal(text)
            &&& literal_value(text) is None
        }),
    decreases ts.len() - i,
{
    if i < ts.len() {
        if let SpecToken::IntVal(text) = ts[i] {
            if literal_value(text) is Some {
                lemma_expressions_failure(ts, i + 1);
            }
        }
    }
}

/// Where a list of statements failed on a literal, that literal is among
/// the tokens read and has no value.
pub proof fn lemma_statements_failure(ts: Seq<SpecToken>, i: int)
    requires
        0 <= i,
        ts.len() <= usize::MAX,
    ensures
        (statements(ts, i).status matches Status::Failed(
            ParseError::MalformedIntegerLiteral { index },
        ) ==> {
            &&& i <= index < statements(ts, i).next
            &&& ts[index as int] matches SpecToken::IntVal(text)
            &&& literal_value(text) is None
        }),
    decreases ts.len() - i,
{
    if i < ts.len() && ts[i] == SpecToken::Return {
        let first = statement(ts, i + 1);
        lemma_expressions_failure(ts, i + 1);
        lemma_expressions_extent(ts, i + 1);
        if first.status == Status::Matched {
            lemma_statements_failure(ts, first.next);
            lemma_statements_extent(ts, first.next);
        }
    }
}

/// Where the analysis failed on a literal, that literal is among the
/// tokens read and has no value.
pub proof fn lemma_program_failure(ts: Seq<SpecToken>, i: int)
    requires
        0 <= i,
        ts.len() <= usize::MAX,
    ensures
        (program(ts, i).status matches Status::Failed(
            ParseError::MalformedIntegerLiteral { index },
        ) ==> {
            &&& i <= index < program(ts, i).next
            &&& ts[index as int] matches SpecToken::IntVal(text)
            &&& literal_value(text) is None
        }),
    decreases ts.len() - i,
{
    if i < ts.len() {
        match ts[i] {
            SpecToken::Int => {
                lemma_program_failure(ts, i + 1);
            },
            SpecToken::Identifier(name) => {
                let first = function(ts, i + 1, name);
                lemma_function_extent(ts, i + 1, name);
                if parameter_list(ts, i + 1).status == Status::Matched {
                    if i + 3 < ts.len() && ts[i + 3] == SpecToken::LSquigly {
                        lemma_statements_failure(ts, i + 4);
                        lemma_statements_extent(ts, i + 4);
                    }
                }
                if first.status == Status::Matched {
                    lemma_program_failure(ts, first.next);
                    lemma_program_extent(ts, first.next);
                }
            },
            _ => {},
        }
    }
}

} // verus!
