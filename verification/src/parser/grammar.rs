//! The grammar as a mathematical model over a sequence of tokens.
//!
//! ```text
//! program    ::= ( "int" | function )* end-marker
//! function   ::= identifier "(" ")" "{" statement+ "}"
//! statement  ::= "return" expression+ ";"
//! expression ::= integer-literal
//! ```
//!
//! Each rule is a function from the tokens and an index to an [`Outcome`]:
//! whether the rule matched, the nodes it built and the index after the
//! last token it read. The first token that a rule cannot take ends the
//! whole analysis; nothing is skipped and nothing is read again.

use vstd::prelude::*;
use crate::lexer::lexer::SpecToken;
use crate::parser::ast::{SpecNode, SpecNodeType};
use crate::parser::literal::literal_value;

verus! {

/// Why the parser stopped without deciding whether the tokens are a program.
#[derive(Clone, Copy, Debug, PartialEq, Eq, Structural)]
pub enum ParseError {
    /// The text of the integer literal at `index` in the tokens is no
    /// literal, or its value does not fit a signed 64-bit integer.
    MalformedIntegerLiteral { index: usize },
    /// The tokens ran out: no end marker stands where the parser stopped.
    MissingEndMarker,
}

/// How a rule ended.
pub ghost enum Status {
    /// The tokens match the rule.
    Matched,
    /// A token stands where the grammar forbids it, or a required part is
    /// empty.
    Rejected,
    /// Nothing was decided, for the reason given.
    Failed(ParseError),
}

/// The result of a rule applied at some index.
pub ghost struct Outcome {
    pub status: Status,
    /// The nodes completed before the rule ended, in source order.
    pub nodes: Seq<SpecNode>,
    /// The index after the last token that the rule read.
    pub next: int,
}

/// The kind name of a `return` statement.
pub open spec fn return_kind() -> Seq<char> {
    "return"@
}

/// The node of an expression of the given value.
pub open spec fn expression_node(value: i64) -> SpecNode {
    SpecNode { node_type: SpecNodeType::Expression(value), children: Seq::empty() }
}

/// The node of a `return` statement with the given expressions.
pub open spec fn statement_node(expressions: Seq<SpecNode>) -> SpecNode {
    SpecNode { node_type: SpecNodeType::Statement(return_kind()), children: expressions }
}

/// The node of the function called `name` with the given statements.
pub open spec fn function_node(name: Seq<char>, statements: Seq<SpecNode>) -> SpecNode {
    SpecNode { node_type: SpecNodeType::Function(name), children: statements }
}

/// The node of a program with the given functions.
pub open spec fn program_node(functions: Seq<SpecNode>) -> SpecNode {
    SpecNode { node_type: SpecNodeType::Program, children: functions }
}

/// The tree with `nodes` appended after its children.
pub open spec fn with_children(tree: SpecNode, nodes: Seq<SpecNode>) -> SpecNode {
    SpecNode { node_type: tree.node_type, children: tree.children + nodes }
}

/// The outcome of running out of tokens at `i`.
pub open spec fn out_of_tokens(i: int) -> Outcome {
    Outcome { status: Status::Failed(ParseError::MissingEndMarker), nodes: Seq::empty(), next: i }
}

/// The outcome of reading, at `i`, a token that the grammar forbids there.
pub open spec fn unexpected_token(i: int) -> Outcome {
    Outcome { status: Status::Rejected, nodes: Seq::empty(), next: i + 1 }
}

/// `expression* ";"` from index `i` on: one node for each literal, in order.
/// A literal without a value ends the analysis as failed.
pub open spec fn expressions(ts: Seq<SpecToken>, i: int) -> Outcome
    decreases ts.len() - i,
    when 0 <= i
{
    if i >= ts.len() {
        out_of_tokens(i)
    } else {
        match ts[i] {
            SpecToken::IntVal(text) => match literal_value(text) {
                Some(value) => {
                    let rest = expressions(ts, i + 1);
                    Outcome {
                        status: rest.status,
                        nodes: seq![expression_node(value)] + rest.nodes,
                        next: rest.next,
                    }
                },
                None => Outcome {
                    status: Status::Failed(
                        ParseError::MalformedIntegerLiteral { index: i as usize },
                    ),
                    nodes: Seq::empty(),
                    next: i + 1,
                },
            },
            SpecToken::Semicolon => Outcome {
                status: Status::Matched,
                nodes: Seq::empty(),
                next: i + 1,
            },
            _ => unexpected_token(i),
        }
    }
}

/// The rest of a statement after its `return`, which stands just before
/// `i`: at least one expression, then the semicolon. Matched, it has one
/// node, the statement.
pub open spec fn statement(ts: Seq<SpecToken>, i: int) -> Outcome {
    let list = expressions(ts, i);
    match list.status {
        Status::Matched => if list.nodes.len() == 0 {
            Outcome { status: Status::Rejected, nodes: Seq::empty(), next: list.next }
        } else {
            Outcome {
                status: Status::Matched,
                nodes: seq![statement_node(list.nodes)],
                next: list.next,
            }
        },
        _ => Outcome { status: list.status, nodes: Seq::empty(), next: list.next },
    }
}

/// `statement* "}"` from index `i` on: one node for each statement.
pub open spec fn statements(ts: Seq<SpecToken>, i: int) -> Outcome
    decreases ts.len() - i,
    when 0 <= i
    via statements_terminates
{
    if i >= ts.len() {
        out_of_tokens(i)
    } else {
        match ts[i] {
            SpecToken::RSquigly => Outcome {
                status: Status::Matched,
                nodes: Seq::empty(),
                next: i + 1,
            },
            SpecToken::Return => {
                let first = statement(ts, i + 1);
                match first.status {
                    Status::Matched => {
                        let rest = statements(ts, first.next);
                        Outcome {
                            status: rest.status,
                            nodes: first.nodes + rest.nodes,
                            next: rest.next,
                        }
                    },
                    _ => first,
                }
            },
            _ => unexpected_token(i),
        }
    }
}

#[via_fn]
proof fn statements_terminates(ts: Seq<SpecToken>, i: int) {
    lemma_expressions_extent(ts, i + 1);
}

/// `"(" ")"` at index `i`: the empty parameter list. It builds no node.
pub open spec fn parameter_list(ts: Seq<SpecToken>, i: int) -> Outcome {
    if i >= ts.len() {
        out_of_tokens(i)
    } else if ts[i] != SpecToken::LPar {
        unexpected_token(i)
    } else if i + 1 >= ts.len() {
        out_of_tokens(i + 1)
    } else if ts[i + 1] != SpecToken::RPar {
        unexpected_token(i + 1)
    } else {
        Outcome { status: Status::Matched, nodes: Seq::empty(), next: i + 2 }
    }
}

/// `"{" statement+ "}"` at index `i`, for the function called `name`.
/// Matched, it has one node, the function.
pub open spec fn function_body(ts: Seq<SpecToken>, i: int, name: Seq<char>) -> Outcome {
    if i >= ts.len() {
        out_of_tokens(i)
    } else if ts[i] != SpecToken::LSquigly {
        unexpected_token(i)
    } else {
        let body = statements(ts, i + 1);
        match body.status {
            Status::Matched => if body.nodes.len() == 0 {
                Outcome { status: Status::Rejected, nodes: Seq::empty(), next: body.next }
            } else {
                Outcome {
                    status: Status::Matched,
                    nodes: seq![function_node(name, body.nodes)],
                    next: body.next,
                }
            },
            _ => Outcome { status: body.status, nodes: Seq::empty(), next: body.next },
        }
    }
}

/// The rest of a function after its name, which stands just before `i`.
pub open spec fn function(ts: Seq<SpecToken>, i: int, name: Seq<char>) -> Outcome {
    let parameters = parameter_list(ts, i);
    match parameters.status {
        Status::Matched => function_body(ts, parameters.next, name),
        _ => parameters,
    }
}

/// The program from index `i` on: functions, each of which may follow
/// any number of `int`, up to the end marker. The nodes are the functions
/// completed before the analysis ended, however it ended.
pub open spec fn program(ts: Seq<SpecToken>, i: int) -> Outcome
    decreases ts.len() - i,
    when 0 <= i
    via program_terminates
{
    if i >= ts.len() {
        out_of_tokens(i)
    } else {
        match ts[i] {
            SpecToken::Int => program(ts, i + 1),
            SpecToken::Identifier(name) => {
                let first = function(ts, i + 1, name);
                match first.status {
                    Status::Matched => {
                        let rest = program(ts, first.next);
                        Outcome {
                            status: rest.status,
                            nodes: first.nodes + rest.nodes,
                            next: rest.next,
                        }
                    },
                    _ => first,
                }
            },
            SpecToken::EOF => Outcome {
                status: Status::Matched,
                nodes: Seq::empty(),
                next: i + 1,
            },
            _ => unexpected_token(i),
        }
    }
}

#[via_fn]
proof fn program_terminates(ts: Seq<SpecToken>, i: int) {
    if i < ts.len() {
        if let SpecToken::Identifier(name) = ts[i] {
            lemma_function_extent(ts, i + 1, name);
        }
    }
}

/// A list of expressions ends within the tokens and, unless the tokens ran
/// out, after at least one token.
pub proof fn lemma_expressions_extent(ts: Seq<SpecToken>, i: int)
    requires
        0 <= i,
    ensures
        i <= expressions(ts, i).next,
        i <= ts.len() ==> expressions(ts, i).next <= ts.len(),
        expressions(ts, i).status != Status::Failed(ParseError::MissingEndMarker) ==> i
            < expressions(ts, i).next,
    decreases ts.len() - i,
{
    if i < ts.len() {
        if let SpecToken::IntVal(text) = ts[i] {
            if literal_value(text) is Some {
                lemma_expressions_extent(ts, i + 1);
            }
        }
    }
}

/// A list of statements ends within the tokens and, unless the tokens ran
/// out, after at least one token.
pub proof fn lemma_statements_extent(ts: Seq<SpecToken>, i: int)
    requires
        0 <= i,
    ensures
        i <= statements(ts, i).next,
        i <= ts.len() ==> statements(ts, i).next <= ts.len(),
        statements(ts, i).status != Status::Failed(ParseError::MissingEndMarker) ==> i
            < statements(ts, i).next,
    decreases ts.len() - i,
{
    if i < ts.len() {
        if ts[i] == SpecToken::Return {
            lemma_expressions_extent(ts, i + 1);
            if statement(ts, i + 1).status == Status::Matched {
                lemma_statements_extent(ts, statement(ts, i + 1).next);
            }
        }
    }
}

/// A function ends within the tokens and, unless the tokens ran out, after
/// at least one token.
pub proof fn lemma_function_extent(ts: Seq<SpecToken>, i: int, name: Seq<char>)
    requires
        0 <= i,
    ensures
        i <= function(ts, i, name).next,
        i <= ts.len() ==> function(ts, i, name).next <= ts.len(),
        function(ts, i, name).status != Status::Failed(ParseError::MissingEndMarker) ==> i
            < function(ts, i, name).next,
{
    if parameter_list(ts, i).status == Status::Matched {
        if i + 2 < ts.len() && ts[i + 2] == SpecToken::LSquigly {
            lemma_statements_extent(ts, i + 3);
        }
    }
}

/// A program ends within the tokens and, unless the tokens ran out, after
/// at least one token.
pub proof fn lemma_program_extent(ts: Seq<SpecToken>, i: int)
    requires
        0 <= i,
    ensures
        i <= program(ts, i).next,
        i <= ts.len() ==> program(ts, i).next <= ts.len(),
        program(ts, i).status != Status::Failed(ParseError::MissingEndMarker) ==> i < program(
            ts,
            i,
        ).next,
    decreases ts.len() - i,
{
    if i < ts.len() {
        match ts[i] {
            SpecToken::Int => {
                lemma_program_extent(ts, i + 1);
            },
            SpecToken::Identifier(name) => {
                lemma_function_extent(ts, i + 1, name);
                if function(ts, i + 1, name).status == Status::Matched {
                    lemma_program_extent(ts, function(ts, i + 1, name).next);
                }
            },
            _ => {},
        }
    }
}

} // verus!
