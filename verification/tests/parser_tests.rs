use calculator::lexer::Lexer;
use calculator::parser::{BinOp, Expr, ParseError, Parser};
use calculator::token::TokenType;

/// Evaluates a parsed expression tree with 64-bit floating-point arithmetic,
/// as a caller of the library would.
fn eval(expr: &Expr) -> f64 {
    match expr {
        Expr::Literal(text) => text.parse().expect("Failed to parse number"),
        Expr::Negate(inner) => -eval(inner),
        Expr::Binary(op, left, right) => {
            let l = eval(left);
            let r = eval(right);
            match op {
                BinOp::Add => l + r,
                BinOp::Subtract => l - r,
                BinOp::Multiply => l * r,
                BinOp::Divide => l / r,
            }
        }
        Expr::Empty => 0.0,
    }
}

fn parse_value(source: &str) -> f64 {
    let mut parser = Parser::new(source);
    eval(&parser.parse().expect("parse failed"))
}

#[test]
fn parser_base() {
    let mut parser = Parser::new("1+2+3");
    let result = parser.parse();
    assert_eq!(eval(&result.expect("parse failed")), 6.0);
}

#[test]
fn base_2() {
    assert_eq!(parse_value("1 + 2 * 3 + 4"), 11.0);
}

#[test]
fn base_3() {
    assert_eq!(parse_value("1 + 2 * (2 * (3 + 4)) + 6 / 3"), 31.0);
}

#[test]
fn base_4() {
    assert_eq!((parse_value("0.0123 + 4 * 0.25 - 3 / 3.5") * 1000.0).round() / 1000.0, 0.155);
}

#[test]
fn single_leading_token() {
    assert_eq!(parse_value("1"), 1.0);
    let mut lexer = Lexer::new("1");
    let first = lexer.get_token().expect("token expected");
    assert_eq!(first.token_type, TokenType::Number("1".to_string()));
    let next = lexer.get_token().expect("token expected");
    assert_eq!(next.token_type, TokenType::Eof);
}

#[test]
fn unmatched_paren_rejected() {
    let mut parser = Parser::new("(1 + 2");
    assert_eq!(parser.parse(), Err(ParseError::UnbalancedParens));
}

#[test]
fn lexical_error_surfaces_in_parse() {
    let mut parser = Parser::new("1 & 2");
    assert_eq!(parser.parse(), Err(ParseError::TokenizerFailure("Syntax error.")));
}

#[test]
fn malformed_literal_surfaces_in_parse() {
    let mut parser = Parser::new("1.2.3");
    assert_eq!(parser.parse(), Err(ParseError::TokenizerFailure("Syntax error.")));
}

#[test]
fn unary_negation() {
    assert_eq!(parse_value("-3"), -3.0);
    assert_eq!(parse_value("2 * -3"), -6.0);
    assert_eq!(parse_value("-(1 + 2)"), -3.0);
}

#[test]
fn tree_shape_follows_grammar() {
    let mut parser = Parser::new("1 + 2 * 3");
    let expr = parser.parse().expect("parse failed");
    assert_eq!(
        expr,
        Expr::Binary(
            BinOp::Add,
            Box::new(Expr::Literal("1".to_string())),
            Box::new(Expr::Binary(
                BinOp::Multiply,
                Box::new(Expr::Literal("2".to_string())),
                Box::new(Expr::Literal("3".to_string())),
            )),
        )
    );
}

#[test]
fn left_associative_within_level() {
    assert_eq!(parse_value("10 - 4 - 3"), 3.0);
    assert_eq!(parse_value("16 / 4 / 2"), 2.0);
}

#[test]
fn permissive_empty_operand() {
    assert_eq!(parse_value(""), 0.0);
    assert_eq!(parse_value("1 +"), 1.0);
    let mut parser = Parser::new("");
    assert_eq!(parser.parse(), Ok(Expr::Empty));
}
