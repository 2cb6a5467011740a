use calculator::lexer::Lexer;
use calculator::token::TokenType;

#[test]
fn lexer_base() {
    let mut lexer = Lexer::new("1");
    let token = lexer.get_token();
    assert!(token.is_ok());
    if let Ok(token) = token {
        assert_eq!(token.token_type, TokenType::Number("1".to_string()));
    }
    let token_eof = lexer.get_token();
    if let Ok(token) = token_eof {
        assert_eq!(token.token_type, TokenType::Eof);
    }
}

fn assert_token_eq(lexer: &mut Lexer, token_type: TokenType) {
    let token = lexer.get_token();
    if let Ok(token) = token {
        assert_eq!(token.token_type, token_type);
    }
}

#[test]
fn base_opt() {
    let mut lexer = Lexer::new("1.23 + 1 * ( 2 + 3 ) - 4 / 2.5 + ( 6 / 2)");

    assert_token_eq(&mut lexer, TokenType::Number("1.23".to_string()));
    assert_token_eq(&mut lexer, TokenType::AddOperator);
    assert_token_eq(&mut lexer, TokenType::Number("1".to_string()));
    assert_token_eq(&mut lexer, TokenType::MulOperator);
    assert_token_eq(&mut lexer, TokenType::LeftParen);
    assert_token_eq(&mut lexer, TokenType::Number("2".to_string()));
    assert_token_eq(&mut lexer, TokenType::AddOperator);
    assert_token_eq(&mut lexer, TokenType::Number("3".to_string()));
    assert_token_eq(&mut lexer, TokenType::RightParen);
    assert_token_eq(&mut lexer, TokenType::SubOperator);
    assert_token_eq(&mut lexer, TokenType::Number("4".to_string()));
    assert_token_eq(&mut lexer, TokenType::DivOperator);
    assert_token_eq(&mut lexer, TokenType::Number("2.5".to_string()));
    assert_token_eq(&mut lexer, TokenType::AddOperator);
    assert_token_eq(&mut lexer, TokenType::LeftParen);
    assert_token_eq(&mut lexer, TokenType::Number("6".to_string()));
    assert_token_eq(&mut lexer, TokenType::DivOperator);
    assert_token_eq(&mut lexer, TokenType::Number("2".to_string()));
    assert_token_eq(&mut lexer, TokenType::RightParen);
    assert_token_eq(&mut lexer, TokenType::Eof);
}

#[test]
fn end_marker_idempotent() {
    let mut lexer = Lexer::new("1");
    assert_token_eq(&mut lexer, TokenType::Number("1".to_string()));
    assert_token_eq(&mut lexer, TokenType::Eof);
    assert_token_eq(&mut lexer, TokenType::Eof);
    assert_token_eq(&mut lexer, TokenType::Eof);
}

#[test]
fn second_decimal_point_rejected() {
    let mut lexer = Lexer::new("1.2.3");
    assert_eq!(lexer.get_token(), Err("Syntax error."));
}

#[test]
fn leading_dot_rejected() {
    let mut lexer = Lexer::new(".5");
    assert_eq!(lexer.get_token(), Err("Syntax error."));
}

#[test]
fn unrecognized_character_rejected() {
    let mut lexer = Lexer::new("1 & 2");
    assert_token_eq(&mut lexer, TokenType::Number("1".to_string()));
    assert_eq!(lexer.get_token(), Err("Syntax error."));
}

#[test]
fn whitespace_skipped_before_token() {
    let mut lexer = Lexer::new("  \t 7");
    assert_token_eq(&mut lexer, TokenType::Number("7".to_string()));
    assert_token_eq(&mut lexer, TokenType::Eof);
}

#[test]
fn newline_ends_input_early() {
    let mut lexer = Lexer::new("1\n2");
    assert_token_eq(&mut lexer, TokenType::Number("1".to_string()));
    assert_token_eq(&mut lexer, TokenType::Eof);
    assert_token_eq(&mut lexer, TokenType::Eof);
}

#[test]
fn literal_text_not_normalized() {
    let mut lexer = Lexer::new("2.50 007");
    assert_token_eq(&mut lexer, TokenType::Number("2.50".to_string()));
    assert_token_eq(&mut lexer, TokenType::Number("007".to_string()));
    assert_token_eq(&mut lexer, TokenType::Eof);
}
