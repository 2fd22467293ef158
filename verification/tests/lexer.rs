use minicc::lexer::lexer::{LexError, Lexer, Token};

#[test]
fn lexer_test_single_digit() {
    let input = "int main() {
                return 3;
            }";

    let mut lex = Lexer::new(String::from(input));
    let tokens = vec![
        Token::Int,
        Token::Identifier(String::from("main")),
        Token::LPar,
        Token::RPar,
        Token::LSquigly,
        Token::Return,
        Token::IntVal(String::from("3")),
        Token::Semicolon,
        Token::RSquigly,
    ];

    for token in tokens {
        let next_token = lex.next_token();
        println!("expected: {:?}, received: {:?}", token, next_token);
        assert_eq!(token, next_token);
    }
}

#[test]
fn lexer_test_multiple_digits() {
    let input = "int main() {
                return 135675424;
            }";

    let mut lex = Lexer::new(String::from(input));
    let tokens = vec![
        Token::Int,
        Token::Identifier(String::from("main")),
        Token::LPar,
        Token::RPar,
        Token::LSquigly,
        Token::Return,
        Token::IntVal(String::from("135675424")),
        Token::Semicolon,
        Token::RSquigly,
    ];

    for token in tokens {
        let next_token = lex.next_token();
        println!("expected: {:?}, received: {:?}", token, next_token);
        assert_eq!(token, next_token);
    }
}

#[test]
fn lexer_test_if_else() {
    let input = "<= > = >= if else";
    let mut lex = Lexer::new(String::from(input));

    let tokens = vec![
        Token::LEThan,
        Token::GThan,
        Token::Equal,
        Token::GEThan,
        Token::If,
        Token::Else,
    ];

    for token in tokens {
        let next_token = lex.next_token();
        println!("expected: {:?}, received: {:?}", token, next_token);
        assert_eq!(token, next_token);
    }
}

fn lex(input: &str) -> Vec<Token> {
    Lexer::new(String::from(input)).tokenize()
}

fn ident(text: &str) -> Token {
    Token::Identifier(String::from(text))
}

fn int_val(text: &str) -> Token {
    Token::IntVal(String::from(text))
}

#[test]
fn tokenize_ends_with_the_end_marker() {
    assert_eq!(
        lex("int main() { return 3; }"),
        vec![
            Token::Int,
            ident("main"),
            Token::LPar,
            Token::RPar,
            Token::LSquigly,
            Token::Return,
            int_val("3"),
            Token::Semicolon,
            Token::RSquigly,
            Token::EOF,
        ]
    );
}

#[test]
fn tokenize_empty_input_is_the_end_marker_alone() {
    assert_eq!(lex(""), vec![Token::EOF]);
    assert_eq!(lex(" \t\r\n\x0C"), vec![Token::EOF]);
}

#[test]
fn end_marker_repeats_after_the_end() {
    let mut lex = Lexer::new(String::from("; "));
    assert_eq!(lex.next_token(), Token::Semicolon);
    assert_eq!(lex.next_token(), Token::EOF);
    assert_eq!(lex.next_token(), Token::EOF);
    assert_eq!(lex.tokenize(), vec![Token::EOF]);
}

#[test]
fn tokenize_continues_from_the_cursor() {
    let mut lex = Lexer::new(String::from("int main ( )"));
    assert_eq!(lex.next_token(), Token::Int);
    assert_eq!(
        lex.tokenize(),
        vec![ident("main"), Token::LPar, Token::RPar, Token::EOF]
    );
}

#[test]
fn relational_operators_in_isolation() {
    assert_eq!(lex("<"), vec![Token::LThan, Token::EOF]);
    assert_eq!(lex("<="), vec![Token::LEThan, Token::EOF]);
    assert_eq!(lex(">"), vec![Token::GThan, Token::EOF]);
    assert_eq!(lex(">="), vec![Token::GEThan, Token::EOF]);
    assert_eq!(lex("="), vec![Token::Equal, Token::EOF]);
}

#[test]
fn relational_operators_take_one_byte_of_lookahead() {
    assert_eq!(lex("<<="), vec![Token::LThan, Token::LEThan, Token::EOF]);
    assert_eq!(lex(">=="), vec![Token::GEThan, Token::Equal, Token::EOF]);
    assert_eq!(lex("< ="), vec![Token::LThan, Token::Equal, Token::EOF]);
    assert_eq!(lex("=<"), vec![Token::Equal, Token::LThan, Token::EOF]);
}

#[test]
fn keywords_in_isolation() {
    assert_eq!(lex("int"), vec![Token::Int, Token::EOF]);
    assert_eq!(lex("return"), vec![Token::Return, Token::EOF]);
    assert_eq!(lex("if"), vec![Token::If, Token::EOF]);
    assert_eq!(lex("else"), vec![Token::Else, Token::EOF]);
}

#[test]
fn keywords_match_case_sensitively() {
    assert_eq!(lex("Return"), vec![ident("Return"), Token::EOF]);
    assert_eq!(lex("RETURN"), vec![ident("RETURN"), Token::EOF]);
    assert_eq!(lex("Int"), vec![ident("Int"), Token::EOF]);
    assert_eq!(lex("IF"), vec![ident("IF"), Token::EOF]);
    assert_eq!(lex("elsE"), vec![ident("elsE"), Token::EOF]);
}

#[test]
fn keywords_match_whole_words_only() {
    assert_eq!(lex("integer"), vec![ident("integer"), Token::EOF]);
    assert_eq!(lex("in"), vec![ident("in"), Token::EOF]);
    assert_eq!(lex("returns"), vec![ident("returns"), Token::EOF]);
    assert_eq!(lex("_if"), vec![ident("_if"), Token::EOF]);
    assert_eq!(lex("else_"), vec![ident("else_"), Token::EOF]);
}

#[test]
fn words_hold_letters_and_underscores() {
    assert_eq!(lex("_a_B"), vec![ident("_a_B"), Token::EOF]);
    assert_eq!(lex("x;"), vec![ident("x"), Token::Semicolon, Token::EOF]);
    assert_eq!(lex("azAZ_"), vec![ident("azAZ_"), Token::EOF]);
    assert_eq!(lex("_"), vec![ident("_"), Token::EOF]);
}

#[test]
fn word_ends_where_a_digit_stands() {
    let mut lex = Lexer::new(String::from("x1"));
    assert_eq!(lex.next_token(), Token::Identifier(String::from("x")));
    assert_eq!(lex.next_token(), Token::IntVal(String::from("1")));
    assert_eq!(lex.next_token(), Token::EOF);
}

#[test]
fn digits_inside_a_word_are_literals_of_their_own() {
    assert_eq!(
        lex("_a1_B2"),
        vec![ident("_a"), int_val("1"), ident("_B"), int_val("2"), Token::EOF]
    );
    assert_eq!(
        lex("azAZ09_"),
        vec![ident("azAZ"), int_val("09"), ident("_"), Token::EOF]
    );
    assert_eq!(lex("x_1"), vec![ident("x_"), int_val("1"), Token::EOF]);
}

#[test]
fn keyword_ends_where_a_digit_stands() {
    assert_eq!(lex("return0"), vec![Token::Return, int_val("0"), Token::EOF]);
    assert_eq!(lex("int3"), vec![Token::Int, int_val("3"), Token::EOF]);
    assert_eq!(
        lex("if1else2"),
        vec![Token::If, int_val("1"), Token::Else, int_val("2"), Token::EOF]
    );
}

#[test]
fn digits_end_where_a_letter_starts() {
    assert_eq!(lex("123abc"), vec![int_val("123"), ident("abc"), Token::EOF]);
    assert_eq!(lex("0 9"), vec![int_val("0"), int_val("9"), Token::EOF]);
}

#[test]
fn literal_text_is_kept_verbatim() {
    assert_eq!(lex("007"), vec![int_val("007"), Token::EOF]);
    assert_eq!(
        lex("99999999999999999999999"),
        vec![int_val("99999999999999999999999"), Token::EOF]
    );
}

#[test]
fn lexing_twice_gives_the_same_tokens() {
    let input = "int main() {\n return 135675424;\n} <= if x_1";
    assert_eq!(lex(input), lex(input));
}

#[test]
fn unrecognized_byte_is_reported_with_its_index() {
    let mut lex = Lexer::new(String::from("int  @ x"));
    assert_eq!(lex.try_next_token(), Ok(Token::Int));
    assert_eq!(
        lex.try_next_token(),
        Err(LexError::UnrecognizedCharacter { position: 5, byte: b'@' })
    );
    assert_eq!(
        lex.try_next_token(),
        Err(LexError::UnrecognizedCharacter { position: 5, byte: b'@' })
    );
}

#[test]
fn try_tokenize_reports_the_first_unrecognized_byte() {
    let mut lex = Lexer::new(String::from("return 1 + 2 - 3;"));
    assert_eq!(
        lex.try_tokenize(),
        Err(LexError::UnrecognizedCharacter { position: 9, byte: b'+' })
    );
}

#[test]
fn try_tokenize_reports_a_byte_outside_ascii() {
    let mut lex = Lexer::new(String::from("a\u{e9}"));
    assert_eq!(
        lex.try_tokenize(),
        Err(LexError::UnrecognizedCharacter { position: 1, byte: 0xC3 })
    );
}

#[test]
fn try_tokenize_reports_a_nul_byte() {
    let mut lex = Lexer::new(String::from("a\0b"));
    assert_eq!(
        lex.try_tokenize(),
        Err(LexError::UnrecognizedCharacter { position: 1, byte: 0 })
    );
}

#[test]
fn try_tokenize_agrees_with_tokenize() {
    let input = "int main() { return 3; }";
    assert_eq!(Lexer::new(String::from(input)).try_tokenize(), Ok(lex(input)));
}

#[test]
fn vertical_tab_is_no_whitespace() {
    let mut lex = Lexer::new(String::from("\x0B"));
    assert_eq!(
        lex.try_next_token(),
        Err(LexError::UnrecognizedCharacter { position: 0, byte: 0x0B })
    );
}

#[test]
fn tokens_are_equal_by_category_and_text() {
    assert_eq!(Token::LPar, Token::LPar);
    assert_ne!(Token::LPar, Token::RPar);
    assert_ne!(Token::LThan, Token::LEThan);
    assert_ne!(Token::Int, ident("int"));
    assert_eq!(ident("main"), ident("main"));
    assert_ne!(ident("main"), ident("Main"));
    assert_ne!(ident("1"), int_val("1"));
    assert_eq!(int_val("01"), int_val("01"));
    assert_ne!(int_val("01"), int_val("1"));
    assert_eq!(Token::EOF.clone(), Token::EOF);
    assert_eq!(ident("x").clone(), ident("x"));
}

#[test]
fn text_outside_ascii_before_a_word_does_not_change_the_word() {
    let mut lex = Lexer::new(String::from("\u{e9}\u{4e2d}abc"));
    assert_eq!(
        lex.try_next_token(),
        Err(LexError::UnrecognizedCharacter { position: 0, byte: 0xC3 })
    );

    let mut lex = Lexer::new(String::from("abc\u{4e2d}"));
    assert_eq!(lex.try_next_token(), Ok(ident("abc")));
    assert_eq!(
        lex.try_next_token(),
        Err(LexError::UnrecognizedCharacter { position: 3, byte: 0xE4 })
    );

    let mut lex = Lexer::new(String::from("12\u{e9}"));
    assert_eq!(lex.try_next_token(), Ok(int_val("12")));
}

#[test]
fn token_at_the_very_end_of_the_input() {
    assert_eq!(lex("x"), vec![ident("x"), Token::EOF]);
    assert_eq!(lex("7"), vec![int_val("7"), Token::EOF]);
    assert_eq!(lex("<"), vec![Token::LThan, Token::EOF]);
    assert_eq!(lex("}"), vec![Token::RSquigly, Token::EOF]);
}

#[test]
fn amount_of_whitespace_between_tokens_does_not_matter() {
    let expected = lex("int main ( ) { return 3 ; } <= if x");
    for input in [
        "int  main  (  )  {  return  3  ;  }  <=  if  x",
        "int\tmain\n(\r)\x0C{ \t\nreturn\n\n3\t;\r\n}\n<=\tif\nx",
        "int main ( ) { return 3 ; }            <= if x",
    ] {
        assert_eq!(lex(input), expected, "input: {:?}", input);
    }
}

#[test]
fn tokens_joined_by_single_blanks_lex_back() {
    let tokens = vec![
        Token::LSquigly,
        Token::RSquigly,
        Token::LPar,
        Token::RPar,
        Token::Semicolon,
        Token::Int,
        Token::Return,
        Token::If,
        Token::Else,
        Token::Equal,
        Token::GThan,
        Token::GEThan,
        Token::LThan,
        Token::LEThan,
        ident("main"),
        ident("_x"),
        int_val("007"),
        int_val("135675424"),
    ];
    let spelled = [
        "{", "}", "(", ")", ";", "int", "return", "if", "else", "=", ">", ">=", "<", "<=", "main",
        "_x", "007", "135675424",
    ];
    let mut expected = tokens;
    expected.push(Token::EOF);
    assert_eq!(lex(&spelled.join(" ")), expected);
}
