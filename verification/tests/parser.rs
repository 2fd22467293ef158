use minicc::lexer::lexer::{Lexer, Token};
use minicc::parser::ast::SyntaxNodeType::{Expression, Function, Statement};
use minicc::parser::ast::{ASTNode, AST};
use minicc::parser::grammar::ParseError;
use minicc::parser::parser::Parser;

fn returning(name: &str, values: &[i64]) -> ASTNode {
    let mut statement_node = ASTNode::new(Statement(String::from("return")));
    for value in values {
        statement_node.add_child(ASTNode::new(Expression(*value)));
    }
    let mut function_node = ASTNode::new(Function(String::from(name)));
    function_node.add_child(statement_node);
    function_node
}

fn parses(input: &str) -> bool {
    let mut lexer = Lexer::new(String::from(input));
    let tokens = lexer.tokenize();
    let mut parser = Parser::new(&tokens);
    parser.parse()
}

#[test]
fn parser_test_valid_multi_digit() {
    let input = String::from("int main() {\n    return 100;\n}");
    let mut lexer = Lexer::new(input);
    let tokens = lexer.tokenize();
    let mut parser = Parser::new(&tokens);
    let no_err = parser.parse();
    assert!(no_err);

    let mut ast = AST::new();
    let expression_node = ASTNode::new(Expression(100));
    let mut statement_node = ASTNode::new(Statement(String::from("return")));
    statement_node.add_child(expression_node);
    let mut function_node = ASTNode::new(Function(String::from("main")));
    function_node.add_child(statement_node);
    ast.root.add_child(function_node);

    assert_eq!(&ast, parser.ast());
}

#[test]
fn parser_test_valid_newlines() {
    let input = String::from("\nint\nmain\n(\n)\n{\nreturn\n0\n;\n}");
    let mut lexer = Lexer::new(input);
    let tokens = lexer.tokenize();
    let mut parser = Parser::new(&tokens);
    let no_err = parser.parse();
    assert!(no_err);

    let mut ast = AST::new();
    let expression_node = ASTNode::new(Expression(0));
    let mut statement_node = ASTNode::new(Statement(String::from("return")));
    statement_node.add_child(expression_node);
    let mut function_node = ASTNode::new(Function(String::from("main")));
    function_node.add_child(statement_node);
    ast.root.add_child(function_node);

    assert_eq!(&ast, parser.ast());
}

#[test]
fn parser_test_valid_no_newlines() {
    let input = String::from("int main(){return 0;}");
    let mut lexer = Lexer::new(input);
    let tokens = lexer.tokenize();
    let mut parser = Parser::new(&tokens);
    let no_err = parser.parse();
    assert!(no_err);

    let mut ast = AST::new();
    let expression_node = ASTNode::new(Expression(0));
    let mut statement_node = ASTNode::new(Statement(String::from("return")));
    statement_node.add_child(expression_node);
    let mut function_node = ASTNode::new(Function(String::from("main")));
    function_node.add_child(statement_node);
    ast.root.add_child(function_node);

    assert_eq!(&ast, parser.ast());
}

#[test]
fn parser_test_valid_return_0() {
    let input = String::from("int main() {\n    return 0;\n}");
    let mut lexer = Lexer::new(input);
    let tokens = lexer.tokenize();
    let mut parser = Parser::new(&tokens);
    let no_err = parser.parse();
    assert!(no_err);

    let mut ast = AST::new();
    let expression_node = ASTNode::new(Expression(0));
    let mut statement_node = ASTNode::new(Statement(String::from("return")));
    statement_node.add_child(expression_node);
    let mut function_node = ASTNode::new(Function(String::from("main")));
    function_node.add_child(statement_node);
    ast.root.add_child(function_node);

    assert_eq!(&ast, parser.ast());
}

#[test]
fn parser_test_valid_return_2() {
    let input = String::from("int main() {\n    return 2;\n}");
    let mut lexer = Lexer::new(input);
    let tokens = lexer.tokenize();
    let mut parser = Parser::new(&tokens);
    let no_err = parser.parse();
    assert!(no_err);

    let mut ast = AST::new();
    let expression_node = ASTNode::new(Expression(2));
    let mut statement_node = ASTNode::new(Statement(String::from("return")));
    statement_node.add_child(expression_node);
    let mut function_node = ASTNode::new(Function(String::from("main")));
    function_node.add_child(statement_node);
    ast.root.add_child(function_node);

    assert_eq!(&ast, parser.ast());
}

#[test]
fn parser_test_valid_spaces() {
    let input = String::from("   int   main    (  )  {   return  0 ; }");
    let mut lexer = Lexer::new(input);
    let tokens = lexer.tokenize();
    let mut parser = Parser::new(&tokens);
    let no_err = parser.parse();
    assert!(no_err);

    let mut ast = AST::new();
    let expression_node = ASTNode::new(Expression(0));
    let mut statement_node = ASTNode::new(Statement(String::from("return")));
    statement_node.add_child(expression_node);
    let mut function_node = ASTNode::new(Function(String::from("main")));
    function_node.add_child(statement_node);
    ast.root.add_child(function_node);

    assert_eq!(&ast, parser.ast());
}

#[test]
fn parser_test_invalid_missing_paren() {
    let input = String::from("int main( { return 0; }");
    let mut lexer = Lexer::new(input);
    let tokens = lexer.tokenize();
    let mut parser = Parser::new(&tokens);
    let no_err = parser.parse();
    assert!(!no_err);
}

#[test]
fn parser_test_invalid_missing_retval() {
    let input = String::from("int main() { return ; }");
    let mut lexer = Lexer::new(input);
    let tokens = lexer.tokenize();
    let mut parser = Parser::new(&tokens);
    let no_err = parser.parse();
    assert!(!no_err);
}

#[test]
fn parser_test_invalid_no_brace() {
    let input = String::from("int main() {\n    return 0;\n");
    let mut lexer = Lexer::new(input);
    let tokens = lexer.tokenize();
    let mut parser = Parser::new(&tokens);
    let no_err = parser.parse();
    assert!(!no_err);
}

#[test]
fn parser_test_invalid_no_semicolon() {
    let input = String::from("int main() {\n    return 0\n}");
    let mut lexer = Lexer::new(input);
    let tokens = lexer.tokenize();
    let mut parser = Parser::new(&tokens);
    let no_err = parser.parse();
    assert!(!no_err);
}

#[test]
fn parser_test_invalid_wrong_case() {
    let input = String::from("int main() {\n    RETURN 0;\n}");
    let mut lexer = Lexer::new(input);
    let tokens = lexer.tokenize();
    let mut parser = Parser::new(&tokens);
    let no_err = parser.parse();
    assert!(!no_err);
}

#[test]
fn single_digit_program_gives_its_tree() {
    let mut lexer = Lexer::new(String::from("int main() { return 3; }"));
    let tokens = lexer.tokenize();
    let mut parser = Parser::new(&tokens);
    assert!(parser.parse());

    let mut ast = AST::new();
    ast.root.add_child(returning("main", &[3]));
    assert_eq!(&ast, parser.ast());
}

#[test]
fn multi_digit_program_gives_its_tree() {
    let mut lexer = Lexer::new(String::from("int main() {\n return 135675424;\n}"));
    let tokens = lexer.tokenize();
    let mut parser = Parser::new(&tokens);
    assert!(parser.parse());

    let mut ast = AST::new();
    ast.root.add_child(returning("main", &[135675424]));
    assert_eq!(&ast, parser.ast());
}

#[test]
fn whitespace_between_tokens_does_not_matter() {
    for input in [
        "int main(){return 42;}",
        "int main(){return42;}",
        " int main ( ) { return 42 ; } ",
        "\tint\r\nmain\x0C(\n)\n{\nreturn\t42\n;\n}\n",
        "int      main()      {return      42;}",
    ] {
        let mut lexer = Lexer::new(String::from(input));
        let tokens = lexer.tokenize();
        let mut parser = Parser::new(&tokens);
        assert!(parser.parse(), "input: {:?}", input);

        let mut ast = AST::new();
        ast.root.add_child(returning("main", &[42]));
        assert_eq!(&ast, parser.ast(), "input: {:?}", input);
    }
}

#[test]
fn keyword_in_wrong_case_starts_no_statement() {
    assert!(!parses("int main() { Return 0; }"));
    assert!(!parses("int main() { RETURN 0; }"));
    assert!(!parses("int main() { rETURN 0; }"));
}

#[test]
fn missing_return_keyword_is_rejected() {
    assert!(!parses("int main() { 3; }"));
}

#[test]
fn relational_operators_and_conditionals_are_rejected_in_a_body() {
    for input in [
        "int main() { return 1 < 2; }",
        "int main() { return 1 <= 2; }",
        "int main() { return 1 > 2; }",
        "int main() { return 1 >= 2; }",
        "int main() { return 1 = 2; }",
        "int main() { if return 1; }",
        "int main() { return 1; else }",
        "int main() { < }",
        "int main() { return 1; if }",
    ] {
        assert!(!parses(input), "input: {:?}", input);
    }
}

#[test]
fn literal_right_after_return_needs_no_whitespace() {
    for input in ["int main() {\n    return0;\n}", "int main(){return0;}"] {
        let mut lexer = Lexer::new(String::from(input));
        let tokens = lexer.tokenize();
        let mut parser = Parser::new(&tokens);
        assert!(parser.parse(), "input: {:?}", input);

        let mut ast = AST::new();
        ast.root.add_child(returning("main", &[0]));
        assert_eq!(&ast, parser.ast(), "input: {:?}", input);
    }
}

#[test]
fn digit_after_a_name_is_no_part_of_it() {
    assert!(!parses("int main1() { return 0; }"));
    assert!(!parses("int f2 () { return 0; }"));
}

#[test]
fn word_that_starts_with_a_keyword_is_a_name() {
    let mut lexer = Lexer::new(String::from("intmain() { return 0; }"));
    let tokens = lexer.tokenize();
    let mut parser = Parser::new(&tokens);
    assert!(parser.parse());

    let mut ast = AST::new();
    ast.root.add_child(returning("intmain", &[0]));
    assert_eq!(&ast, parser.ast());
}

#[test]
fn empty_body_is_rejected() {
    assert!(!parses("int main() { }"));
}

#[test]
fn missing_opening_brace_is_rejected() {
    assert!(!parses("int main() return 0; }"));
}

#[test]
fn parameters_are_rejected() {
    assert!(!parses("int main(int a) { return 0; }"));
    assert!(!parses("int main(a) { return 0; }"));
}

#[test]
fn tokens_that_start_no_function_are_rejected() {
    assert!(!parses("return 0;"));
    assert!(!parses("{ return 0; }"));
    assert!(!parses("3"));
    assert!(!parses("int main() { return 0; } }"));
}

#[test]
fn int_is_optional_and_may_repeat() {
    assert!(parses("main() { return 0; }"));
    assert!(parses("int int int main() { return 0; }"));
    assert!(parses("int"));
    assert!(parses(""));
}

#[test]
fn empty_input_gives_an_empty_program() {
    let tokens = vec![Token::EOF];
    let mut parser = Parser::new(&tokens);
    assert!(parser.parse());
    assert_eq!(&AST::new(), parser.ast());
}

#[test]
fn several_functions_and_statements_keep_their_order() {
    let mut lexer = Lexer::new(String::from(
        "int first() { return 1; return 2; } second() { return 3 4 5; }",
    ));
    let tokens = lexer.tokenize();
    let mut parser = Parser::new(&tokens);
    assert!(parser.parse());

    let mut first = returning("first", &[1]);
    let mut second_statement = ASTNode::new(Statement(String::from("return")));
    second_statement.add_child(ASTNode::new(Expression(2)));
    first.add_child(second_statement);

    let mut ast = AST::new();
    ast.root.add_child(first);
    ast.root.add_child(returning("second", &[3, 4, 5]));
    assert_eq!(&ast, parser.ast());
}

#[test]
fn rejection_keeps_the_functions_completed_before_it() {
    let mut lexer = Lexer::new(String::from("int a() { return 1; } int b() { return; }"));
    let tokens = lexer.tokenize();
    let mut parser = Parser::new(&tokens);
    assert!(!parser.parse());

    let mut ast = AST::new();
    ast.root.add_child(returning("a", &[1]));
    assert_eq!(&ast, parser.ast());
}

#[test]
fn parsing_stops_at_the_first_end_marker() {
    let tokens = vec![Token::EOF, Token::If];
    let mut parser = Parser::new(&tokens);
    assert!(parser.parse());
    assert!(!parser.parse());
}

#[test]
fn try_parse_agrees_with_parse() {
    for input in ["int main() { return 7; }", "int main() { 7; }", "int main( { return 0; }"] {
        let mut lexer = Lexer::new(String::from(input));
        let tokens = lexer.tokenize();
        let mut parser = Parser::new(&tokens);
        assert_eq!(parser.try_parse(), Ok(parses(input)), "input: {:?}", input);
    }
}

#[test]
fn literal_out_of_range_is_reported_with_its_index() {
    let mut lexer = Lexer::new(String::from("int main() { return 9223372036854775808; }"));
    let tokens = lexer.tokenize();
    let mut parser = Parser::new(&tokens);
    assert_eq!(
        parser.try_parse(),
        Err(ParseError::MalformedIntegerLiteral { index: 6 })
    );
}

#[test]
fn largest_literal_is_accepted() {
    let mut lexer = Lexer::new(String::from("int main() { return 9223372036854775807; }"));
    let tokens = lexer.tokenize();
    let mut parser = Parser::new(&tokens);
    assert_eq!(parser.try_parse(), Ok(true));

    let mut ast = AST::new();
    ast.root.add_child(returning("main", &[i64::MAX]));
    assert_eq!(&ast, parser.ast());
}

#[test]
fn malformed_literal_is_reported_with_its_index() {
    let tokens = vec![
        Token::Identifier(String::from("f")),
        Token::LPar,
        Token::RPar,
        Token::LSquigly,
        Token::Return,
        Token::IntVal(String::from("1")),
        Token::IntVal(String::from("one")),
        Token::Semicolon,
        Token::RSquigly,
        Token::EOF,
    ];
    let mut parser = Parser::new(&tokens);
    assert_eq!(
        parser.try_parse(),
        Err(ParseError::MalformedIntegerLiteral { index: 6 })
    );
}

#[test]
fn signed_literal_text_has_its_value() {
    let tokens = vec![
        Token::Identifier(String::from("f")),
        Token::LPar,
        Token::RPar,
        Token::LSquigly,
        Token::Return,
        Token::IntVal(String::from("-12")),
        Token::Semicolon,
        Token::RSquigly,
        Token::EOF,
    ];
    let mut parser = Parser::new(&tokens);
    assert_eq!(parser.try_parse(), Ok(true));

    let mut ast = AST::new();
    ast.root.add_child(returning("f", &[-12]));
    assert_eq!(&ast, parser.ast());
}

#[test]
fn tokens_without_end_marker_are_reported() {
    let tokens: Vec<Token> = vec![];
    let mut parser = Parser::new(&tokens);
    assert_eq!(parser.try_parse(), Err(ParseError::MissingEndMarker));

    let tokens = vec![Token::Int, Token::Identifier(String::from("f")), Token::LPar];
    let mut parser = Parser::new(&tokens);
    assert_eq!(parser.try_parse(), Err(ParseError::MissingEndMarker));

    let tokens = vec![
        Token::Identifier(String::from("f")),
        Token::LPar,
        Token::RPar,
        Token::LSquigly,
        Token::Return,
        Token::IntVal(String::from("1")),
    ];
    let mut parser = Parser::new(&tokens);
    assert_eq!(parser.try_parse(), Err(ParseError::MissingEndMarker));
}
