//! The recursive-descent parser.

use vstd::prelude::*;
use vstd::string::StringExecFns;
use crate::lexer::lexer::{SpecToken, Token};
use crate::parser::ast::{ASTNode, SpecNode, SpecNodeType, SyntaxNodeType, AST};
use crate::parser::grammar::{
    expression_node, expressions, function, function_body, function_node, lemma_expressions_extent,
    lemma_function_extent, lemma_program_extent, parameter_list, program, program_node, statement,
    statement_node, statements, with_children, ParseError, Status,
};
use crate::parser::literal::{literal_value, to_i64};
use crate::parser::shape::{is_program, lemma_program_shape};

verus! {

/// A cursor into a sequence of tokens that only moves forward.
struct TokenCursor<'a> {
    tokens: &'a Vec<Token>,
    position: usize,
}

impl<'a> TokenCursor<'a> {
    #[verifier::type_invariant]
    spec fn in_bounds(self) -> bool {
        self.position <= self.tokens@.len()
    }

    /// Reads the token at the cursor, if there is one, and moves past it.
    fn advance(&mut self) -> (token: Option<&'a Token>)
        ensures
            final(self).tokens == old(self).tokens,
            (match token {
                Some(t) => {
                    &&& old(self).position < old(self).tokens@.len()
                    &&& *t == old(self).tokens@[old(self).position as int]
                    &&& final(self).position == old(self).position + 1
                },
                None => {
                    &&& old(self).position >= old(self).tokens@.len()
                    &&& final(self).position == old(self).position
                },
            }),
    {
        proof {
            use_type_invariant(&*self);
        }
        let tokens: &'a Vec<Token> = self.tokens;
        if self.position < tokens.len() {
            let token = &tokens[self.position];
            self.position += 1;
            Some(token)
        } else {
            None
        }
    }
}

/// A parser over a sequence of tokens, with a cursor that only moves
/// forward and the tree built so far.
pub struct Parser<'a> {
    ast: AST,
    cursor: TokenCursor<'a>,
}

/// What a [`Parser`] is mathematically: the tokens it reads, the index of
/// the next token to read, and the tree built so far.
pub ghost struct ParserView {
    pub tokens: Seq<SpecToken>,
    pub cursor: int,
    pub tree: SpecNode,
}

impl<'a> View for Parser<'a> {
    type V = ParserView;

    closed spec fn view(&self) -> ParserView {
        ParserView {
            tokens: self.cursor.tokens.deep_view(),
            cursor: self.cursor.position as int,
            tree: self.ast@,
        }
    }
}

/// What a call returns for each way a rule can end.
pub open spec fn reported(status: Status) -> Result<bool, ParseError> {
    match status {
        Status::Matched => Ok(true),
        Status::Rejected => Ok(false),
        Status::Failed(e) => Err(e),
    }
}

impl<'a> Parser<'a> {
    /// A parser at the start of `tokens`, with a program without functions
    /// as its tree.
    pub fn new(tokens: &'a Vec<Token>) -> (parser: Self)
        ensures
            parser@ == (ParserView {
                tokens: tokens.deep_view(),
                cursor: 0,
                tree: program_node(Seq::empty()),
            }),
            is_program(parser@.tree),
    {
        Parser { ast: AST::new(), cursor: TokenCursor { tokens, position: 0 } }
    }

    /// The tree built so far.
    pub fn ast(&self) -> (ast: &AST)
        ensures
            ast@ == self@.tree,
    {
        &self.ast
    }

    /// Reads the token at the cursor, if there is one, and moves past it.
    fn advance(&mut self) -> (token: Option<&'a Token>)
        ensures
            final(self)@.tokens == old(self)@.tokens,
            final(self)@.tree == old(self)@.tree,
            (match token {
                Some(t) => {
                    &&& old(self)@.cursor < old(self)@.tokens.len()
                    &&& t@ == old(self)@.tokens[old(self)@.cursor]
                    &&& final(self)@.cursor == old(self)@.cursor + 1
                },
                None => {
                    &&& old(self)@.cursor >= old(self)@.tokens.len()
                    &&& final(self)@.cursor == old(self)@.cursor
                },
            }),
    {
        self.cursor.advance()
    }

    /// Parses the tokens from the cursor on as a program and appends the
    /// functions completed to the root of the tree, whatever the outcome.
    /// Returns whether the tokens are a program, or an error where a
    /// literal has no value or the tokens run out. A tree that is a
    /// program of functions with statements with expressions stays one.
    pub fn try_parse(&mut self) -> (r: Result<bool, ParseError>)
        ensures
            final(self)@.tokens == old(self)@.tokens,
            final(self)@.cursor == program(old(self)@.tokens, old(self)@.cursor).next,
            old(self)@.cursor <= final(self)@.cursor <= final(self)@.tokens.len(),
            final(self)@.tree == with_children(
                old(self)@.tree,
                program(old(self)@.tokens, old(self)@.cursor).nodes,
            ),
            is_program(old(self)@.tree) ==> is_program(final(self)@.tree),
            r == reported(program(old(self)@.tokens, old(self)@.cursor).status),
    {
        proof {
            use_type_invariant(&self.cursor);
            lemma_program_shape(self@.tokens, self@.cursor);
            lemma_program_extent(self@.tokens, self@.cursor);
        }
        self.parse_program()
    }

    /// The top-level loop: passes over `int`, reads a function at each
    /// name, and stops at the end marker or at the first token that fits
    /// neither.
    #[verifier::loop_isolation(false)]
    fn parse_program(&mut self) -> (r: Result<bool, ParseError>)
        ensures
            final(self)@.tokens == old(self)@.tokens,
            final(self)@.cursor == program(old(self)@.tokens, old(self)@.cursor).next,
            final(self)@.tree == with_children(
                old(self)@.tree,
                program(old(self)@.tokens, old(self)@.cursor).nodes,
            ),
            r == reported(program(old(self)@.tokens, old(self)@.cursor).status),
    {
        let ghost ts = self@.tokens;
        let ghost start = self@.cursor;
        let ghost mut done: Seq<SpecNode> = Seq::empty();
        assert(self@.tree.children =~= old(self)@.tree.children + done);
        loop
            invariant
                self@.tokens == ts,
                ts == old(self)@.tokens,
                start == old(self)@.cursor,
                0 <= self@.cursor,
                self@.tree == with_children(old(self)@.tree, done),
                program(ts, start).status == program(ts, self@.cursor).status,
                program(ts, start).next == program(ts, self@.cursor).next,
                program(ts, start).nodes == done + program(ts, self@.cursor).nodes,
            decreases ts.len() - self@.cursor,
        {
            let ghost i = self@.cursor;
            assert(done + Seq::<SpecNode>::empty() =~= done);
            match self.advance() {
                None => {
                    return Err(ParseError::MissingEndMarker);
                },
                Some(Token::Int) => {},
                Some(Token::Identifier(name)) => {
                    match self.get_function_args() {
                        Err(e) => {
                            return Err(e);
                        },
                        Ok((_, false)) => {
                            return Ok(false);
                        },
                        Ok((args, true)) => {
                            match self.parse_function(args, name) {
                                Err(e) => {
                                    return Err(e);
                                },
                                Ok(false) => {
                                    return Ok(false);
                                },
                                Ok(true) => {
                                    proof {
                                        let first = function(ts, i + 1, name@);
                                        let rest = program(ts, first.next);
                                        lemma_function_extent(ts, i + 1, name@);
                                        assert(done + (first.nodes + rest.nodes) =~= (done
                                            + first.nodes) + rest.nodes);
                                        assert(self@.tree.children =~= old(self)@.tree.children
                                            + (done + first.nodes));
                                        done = done + first.nodes;
                                    }
                                },
                            }
                        },
                    }
                },
                Some(Token::EOF) => {
                    return Ok(true);
                },
                Some(_) => {
                    return Ok(false);
                },
            }
        }
    }

    /// Parses the tokens from the cursor on as a program, on tokens for
    /// which neither error occurs, and returns whether they are a program.
    /// The functions completed are appended to the root of the tree,
    /// whatever is returned.
    pub fn parse(&mut self) -> (accepted: bool)
        requires
            !(program(old(self)@.tokens, old(self)@.cursor).status is Failed),
        ensures
            final(self)@.tokens == old(self)@.tokens,
            final(self)@.cursor == program(old(self)@.tokens, old(self)@.cursor).next,
            old(self)@.cursor <= final(self)@.cursor <= final(self)@.tokens.len(),
            final(self)@.tree == with_children(
                old(self)@.tree,
                program(old(self)@.tokens, old(self)@.cursor).nodes,
            ),
            is_program(old(self)@.tree) ==> is_program(final(self)@.tree),
            accepted == (program(old(self)@.tokens, old(self)@.cursor).status is Matched),
    {
        match self.try_parse() {
            Ok(accepted) => accepted,
            Err(_) => unreached(),
        }
    }

    /// Reads the parameter list of a function, which must be empty, and
    /// returns the number of parameters with whether the list is one.
    fn get_function_args(&mut self) -> (r: Result<(u8, bool), ParseError>)
        ensures
            final(self)@.tokens == old(self)@.tokens,
            final(self)@.tree == old(self)@.tree,
            final(self)@.cursor == parameter_list(old(self)@.tokens, old(self)@.cursor).next,
            (match parameter_list(old(self)@.tokens, old(self)@.cursor).status {
                Status::Matched => r == Ok::<(u8, bool), ParseError>((0u8, true)),
                Status::Rejected => r == Ok::<(u8, bool), ParseError>((0u8, false)),
                Status::Failed(e) => r == Err::<(u8, bool), ParseError>(e),
            }),
    {
        match self.advance() {
            None => {
                return Err(ParseError::MissingEndMarker);
            },
            Some(Token::LPar) => {},
            Some(_) => {
                return Ok((0, false));
            },
        }
        match self.advance() {
            None => Err(ParseError::MissingEndMarker),
            Some(Token::RPar) => Ok((0, true)),
            Some(_) => Ok((0, false)),
        }
    }

    /// Reads the body of the function called `name` and, where it has at
    /// least one statement, appends the function to the root of the tree.
    #[verifier::loop_isolation(false)]
    fn parse_function(&mut self, _args: u8, name: &String) -> (r: Result<bool, ParseError>)
        ensures
            final(self)@.tokens == old(self)@.tokens,
            final(self)@.cursor == function_body(
                old(self)@.tokens,
                old(self)@.cursor,
                name@,
            ).next,
            final(self)@.tree == with_children(
                old(self)@.tree,
                function_body(old(self)@.tokens, old(self)@.cursor, name@).nodes,
            ),
            r == reported(function_body(old(self)@.tokens, old(self)@.cursor, name@).status),
    {
        let ghost ts = self@.tokens;
        let ghost start = self@.cursor;
        assert(old(self)@.tree.children + Seq::<SpecNode>::empty() =~= old(self)@.tree.children);
        match self.advance() {
            None => {
                return Err(ParseError::MissingEndMarker);
            },
            Some(Token::LSquigly) => {},
            Some(_) => {
                return Ok(false);
            },
        }
        let mut function_node = ASTNode::new(SyntaxNodeType::Function(name.clone()));
        let mut has_statement = false;
        loop
            invariant
                has_statement == (function_node@.children.len() > 0),
                self@.tokens == ts,
                0 <= self@.cursor,
                self@.tree == old(self)@.tree,
                function_node@.node_type == SpecNodeType::Function(name@),
                statements(ts, start + 1).status == statements(ts, self@.cursor).status,
                statements(ts, start + 1).next == statements(ts, self@.cursor).next,
                statements(ts, start + 1).nodes == function_node@.children + statements(
                    ts,
                    self@.cursor,
                ).nodes,
            decreases ts.len() - self@.cursor,
        {
            let ghost i = self@.cursor;
            let ghost before = function_node@.children;
            match self.advance() {
                None => {
                    return Err(ParseError::MissingEndMarker);
                },
                Some(Token::RSquigly) => {
                    assert(before + Seq::<SpecNode>::empty() =~= before);
                    if !has_statement {
                        return Ok(false);
                    }
                    self.ast.root.add_child(function_node);
                    assert(self@.tree.children =~= old(self)@.tree.children
                        + seq![function_node@]);
                    return Ok(true);
                },
                Some(Token::Return) => {
                    match self.parse_statement(&mut function_node, Token::Return) {
                        Err(e) => {
                            return Err(e);
                        },
                        Ok(false) => {
                            return Ok(false);
                        },
                        Ok(true) => {
                            has_statement = true;
                            proof {
                                let first = statement(ts, i + 1);
                                let rest = statements(ts, first.next);
                                lemma_expressions_extent(ts, i + 1);
                                assert(before + (first.nodes + rest.nodes) =~= (before
                                    + first.nodes) + rest.nodes);
                            }
                        },
                    }
                },
                Some(_) => {
                    return Ok(false);
                },
            }
        }
    }

    /// Reads the rest of a statement after its first token, which says
    /// what kind of statement it is, and, where it has at least one
    /// expression, appends the statement to `function_node`. Only `return`
    /// starts a statement: with another token nothing is read.
    #[verifier::loop_isolation(false)]
    fn parse_statement(&mut self, function_node: &mut ASTNode, expression: Token) -> (r: Result<
        bool,
        ParseError,
    >)
        ensures
            final(self)@.tokens == old(self)@.tokens,
            final(self)@.tree == old(self)@.tree,
            (expression@ != SpecToken::Return ==> {
                &&& r == Ok::<bool, ParseError>(false)
                &&& final(self)@.cursor == old(self)@.cursor
                &&& final(function_node)@ == old(function_node)@
            }),
            (expression@ == SpecToken::Return ==> {
                &&& r == reported(statement(old(self)@.tokens, old(self)@.cursor).status)
                &&& final(self)@.cursor == statement(old(self)@.tokens, old(self)@.cursor).next
                &&& final(function_node)@ == with_children(
                    old(function_node)@,
                    statement(old(self)@.tokens, old(self)@.cursor).nodes,
                )
            }),
    {
        let ghost ts = self@.tokens;
        let ghost start = self@.cursor;
        assert(old(function_node)@.children + Seq::<SpecNode>::empty() =~= old(
            function_node,
        )@.children);
        let statement_string = match expression {
            Token::Return => String::from_str("return"),
            _ => {
                return Ok(false);
            },
        };
        let mut statement_node = ASTNode::new(SyntaxNodeType::Statement(statement_string));
        let mut has_expression = false;
        loop
            invariant
                has_expression == (statement_node@.children.len() > 0),
                self@.tokens == ts,
                0 <= self@.cursor,
                self@.tree == old(self)@.tree,
                *function_node == *old(function_node),
                statement_node@.node_type == SpecNodeType::Statement("return"@),
                expressions(ts, start).status == expressions(ts, self@.cursor).status,
                expressions(ts, start).next == expressions(ts, self@.cursor).next,
                expressions(ts, start).nodes == statement_node@.children + expressions(
                    ts,
                    self@.cursor,
                ).nodes,
            decreases ts.len() - self@.cursor,
        {
            let ghost i = self@.cursor;
            let ghost before = statement_node@.children;
            match self.advance() {
                None => {
                    return Err(ParseError::MissingEndMarker);
                },
                Some(Token::IntVal(value)) => {
                    match self.parse_int(&mut statement_node, value) {
                        Err(e) => {
                            return Err(e);
                        },
                        Ok(_) => {
                            has_expression = true;
                            proof {
                                let node = expression_node(literal_value(value@)->Some_0);
                                let rest = expressions(ts, i + 1);
                                assert(before + (seq![node] + rest.nodes) =~= before.push(node)
                                    + rest.nodes);
                            }
                        },
                    }
                },
                Some(Token::Semicolon) => {
                    assert(before + Seq::<SpecNode>::empty() =~= before);
                    if !has_expression {
                        return Ok(false);
                    }
                    function_node.add_child(statement_node);
                    assert(function_node@.children =~= old(function_node)@.children
                        + seq![statement_node@]);
                    return Ok(true);
                },
                Some(_) => {
                    return Ok(false);
                },
            }
        }
    }

    /// Converts the text of the literal just read to its value and appends
    /// the expression to `statement_node`.
    fn parse_int(&mut self, statement_node: &mut ASTNode, value: &String) -> (r: Result<
        bool,
        ParseError,
    >)
        requires
            old(self)@.cursor >= 1,
        ensures
            *final(self) == *old(self),
            (match literal_value(value@) {
                Some(v) => {
                    &&& r == Ok::<bool, ParseError>(true)
                    &&& final(statement_node)@ == (SpecNode {
                        node_type: old(statement_node)@.node_type,
                        children: old(statement_node)@.children.push(expression_node(v)),
                    })
                },
                None => {
                    &&& r == Err::<bool, ParseError>(
                        ParseError::MalformedIntegerLiteral {
                            index: (old(self)@.cursor - 1) as usize,
                        },
                    )
                    &&& final(statement_node)@ == old(statement_node)@
                },
            }),
    {
        match to_i64(value.as_str()) {
            Some(int_value) => {
                let expression_node = ASTNode::new(SyntaxNodeType::Expression(int_value));
                statement_node.add_child(expression_node);
                Ok(true)
            },
            None => Err(ParseError::MalformedIntegerLiteral { index: self.cursor.position - 1 }),
        }
    }
}

} // verus!
