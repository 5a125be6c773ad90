use modlem::parser::{Lexer, Token};

#[test]
fn lexer_hello() {
    let hello_world = "Hello World";
    let mut lexer = Lexer::from_str(hello_world);
    let first_token = lexer.next_token().unwrap();
    assert_eq!(first_token, Token::Ident("Hello"));
    let second_token = lexer.next_token().unwrap();
    assert_eq!(second_token, Token::Ident("World"));

    assert!(lexer.next_token().is_none());
}

#[test]
fn lexer_string_literal() {
    let input = "  \" This is a string \" ";
    let mut lexer = Lexer::from_str(input);
    let token = lexer.next_token().unwrap();
    assert_eq!(token, Token::StringLiteral(" This is a string ".to_string()));
    assert!(lexer.next_token().is_none());
}

#[test]
fn lexer_script() {
    let test_input = "Filename=\"test.txt\"";
    let mut lexer = Lexer::from_str(test_input);
    assert_eq!(lexer.next_token().unwrap(), Token::Ident("Filename"));
    assert_eq!(lexer.next_token().unwrap(), Token::Symbol('='));
    assert_eq!(
        lexer.next_token().unwrap(),
        Token::StringLiteral("test.txt".to_string())
    );
    assert!(lexer.next_token().is_none());
}

#[test]
fn lexer_script_with_ws() {
    let test_input = " Filename  =\n \"test.txt\"\n\n";
    let mut lexer = Lexer::from_str(test_input);
    assert_eq!(lexer.next_token().unwrap(), Token::Ident("Filename"));
    assert_eq!(lexer.next_token().unwrap(), Token::Symbol('='));
    assert_eq!(
        lexer.next_token().unwrap(),
        Token::StringLiteral("test.txt".to_string())
    );
    assert!(lexer.next_token().is_none());
}

#[test]
fn lexer_numbers_and_symbols() {
    let mut lexer = Lexer::from_str("frames = (3, -12)");
    assert_eq!(lexer.next_token().unwrap(), Token::Ident("frames"));
    assert_eq!(lexer.next_token().unwrap(), Token::Symbol('='));
    assert_eq!(lexer.next_token().unwrap(), Token::Symbol('('));
    assert_eq!(lexer.next_token().unwrap(), Token::NumericLiteral(3));
    assert_eq!(lexer.next_token().unwrap(), Token::Symbol(','));
    assert_eq!(lexer.next_token().unwrap(), Token::NumericLiteral(-12));
    assert_eq!(lexer.next_token().unwrap(), Token::Symbol(')'));
    assert!(lexer.next_token().is_none());
}

#[test]
fn lexer_peek_and_unget() {
    let mut lexer = Lexer::from_str("Terrain Mask");
    let peeked = lexer.peek_token().unwrap();
    assert_eq!(peeked, Token::Ident("Terrain"));
    assert_eq!(lexer.next_token().unwrap(), Token::Ident("Terrain"));
    assert!(lexer.is_next_ident("Mask"));
    assert!(!lexer.is_next_ident("Terrain"));
    assert_eq!(lexer.next_token().unwrap(), Token::Ident("Mask"));
    assert!(lexer.next_token().is_none());
}

#[test]
fn lexer_expect_helpers() {
    let mut lexer = Lexer::from_str("HeaderFile \"ground0o.dat\" count = 7");
    assert!(lexer.expect_ident("HeaderFile").is_ok());
    assert_eq!(lexer.get_string_literal().unwrap(), "ground0o.dat");
    assert!(lexer.expect_ident("count").is_ok());
    assert!(lexer.expect_symbol('=').is_ok());
    assert_eq!(lexer.get_int_literal().unwrap(), 7);
    assert!(lexer.get_int_literal().is_err());
}

#[test]
fn lexer_saturates_huge_numbers() {
    let mut lexer = Lexer::from_str("99999999999999999999999999");
    assert_eq!(lexer.next_token().unwrap(), Token::NumericLiteral(i64::MAX));
    let mut lexer2 = Lexer::from_str("9223372036854775807");
    assert_eq!(lexer2.next_token().unwrap(), Token::NumericLiteral(i64::MAX));
}

#[test]
fn lexer_unterminated_string_is_an_error() {
    let mut lexer = Lexer::from_str("\"no closing quote");
    assert!(lexer.next_token().is_none());
    let mut lexer2 = Lexer::from_str("\"cut off");
    assert!(lexer2.get_string_literal().is_err());
}

#[test]
fn lexer_bare_minus_is_a_symbol() {
    let mut lexer = Lexer::from_str("a-b");
    assert_eq!(lexer.next_token().unwrap(), Token::Ident("a"));
    assert_eq!(lexer.next_token().unwrap(), Token::Symbol('-'));
    assert_eq!(lexer.next_token().unwrap(), Token::Ident("b"));
    assert!(lexer.next_token().is_none());
}
