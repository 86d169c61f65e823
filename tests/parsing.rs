use parsemath::ast::Node;
use parsemath::parser::{parse_expression, Fault, Parser, ParserError};
use parsemath::token::Token;
use parsemath::tokenizer::Tokenizer;

fn value(n: &Node) -> f64 {
    match n {
        Node::Number(s) => s.parse::<f64>().unwrap(),
        Node::Negative(a) => -value(a),
        Node::Add(a, b) => value(a) + value(b),
        Node::Subtract(a, b) => value(a) - value(b),
        Node::Multiply(a, b) => value(a) * value(b),
        Node::Divide(a, b) => value(a) / value(b),
        Node::Caret(a, b) => value(a).powf(value(b)),
    }
}

fn num(s: &str) -> Box<Node> {
    Box::new(Node::Number(s.to_string()))
}

fn eval_str(s: &str) -> f64 {
    value(&parse_expression(s).unwrap())
}

fn leaves(n: &Node) -> usize {
    match n {
        Node::Number(_) => 1,
        Node::Negative(a) => leaves(a),
        Node::Add(a, b)
        | Node::Subtract(a, b)
        | Node::Multiply(a, b)
        | Node::Divide(a, b)
        | Node::Caret(a, b) => leaves(a) + leaves(b),
    }
}

#[test]
fn literal_parses_to_itself() {
    for s in ["42", "3.25", ".5", "7.", "0"] {
        assert_eq!(parse_expression(s).unwrap(), Node::Number(s.to_string()));
    }
    assert_eq!(eval_str("3.25"), 3.25);
    assert_eq!(eval_str(".5"), 0.5);
}

#[test]
fn negated_literal() {
    assert_eq!(parse_expression("-42").unwrap(), Node::Negative(num("42")));
    assert_eq!(eval_str("-2.5"), -2.5);
}

#[test]
fn subtraction_groups_left() {
    let expected = Node::Subtract(Box::new(Node::Subtract(num("10"), num("4"))), num("3"));
    assert_eq!(parse_expression("10-4-3").unwrap(), expected);
    assert_eq!(eval_str("10-4-3"), 3.0);
}

#[test]
fn division_groups_left() {
    assert_eq!(eval_str("64/4/2"), 8.0);
    assert_eq!(eval_str("2*6/3"), 4.0);
    assert_eq!(eval_str("1-2+3"), 2.0);
}

#[test]
fn power_groups_right() {
    let expected = Node::Caret(num("2"), Box::new(Node::Caret(num("3"), num("2"))));
    assert_eq!(parse_expression("2^3^2").unwrap(), expected);
    assert_eq!(eval_str("2^3^2"), 512.0);
    assert_eq!(eval_str("2^3*2"), 16.0);
}

#[test]
fn multiplication_before_addition() {
    assert_eq!(eval_str("2+3*4"), 14.0);
    assert_eq!(eval_str("(2+3)*4"), 20.0);
}

#[test]
fn unary_minus_and_power() {
    let expected = Node::Negative(Box::new(Node::Caret(num("2"), num("2"))));
    assert_eq!(parse_expression("-2^2").unwrap(), expected);
    assert_eq!(eval_str("-2^2"), -4.0);
    assert_eq!(eval_str("2^-1"), 0.5);
    assert_eq!(eval_str("-2*3"), -6.0);
    assert_eq!(eval_str("3--2"), 5.0);
    assert_eq!(eval_str("-2+3"), 1.0);
    let expected = Node::Multiply(Box::new(Node::Negative(num("2"))), num("3"));
    assert_eq!(parse_expression("-2*3").unwrap(), expected);
}

#[test]
fn adjacent_groups_multiply() {
    let expected = Node::Multiply(num("2"), num("3"));
    assert_eq!(parse_expression("(2)(3)").unwrap(), expected);
    assert_eq!(eval_str("(2)(3)"), 6.0);
    assert_eq!(eval_str("(1+1)(2+2)"), 8.0);
}

#[test]
fn adjacent_groups_form_one_operand() {
    let product = Box::new(Node::Multiply(num("2"), num("3")));
    assert_eq!(parse_expression("(2)(3)^2").unwrap(), Node::Caret(product, num("2")));
    assert_eq!(eval_str("(2)(3)^2"), 36.0);
    assert_eq!(eval_str("-(2)(3)"), -6.0);
    assert_eq!(eval_str("(2)(3)*4"), 24.0);
    assert_eq!(parse_expression("(2)(3").unwrap_err().kind(), Fault::InvalidOperator);
}

#[test]
fn malformed_inputs_fail() {
    assert_eq!(parse_expression("2++3").unwrap_err().kind(), Fault::UnableToParse);
    assert_eq!(parse_expression("(2+3").unwrap_err().kind(), Fault::InvalidOperator);
    assert_eq!(parse_expression("2&3").unwrap_err(), ParserError::InvalidCharacter('&'));
    assert_eq!(parse_expression("").unwrap_err().kind(), Fault::InvalidOperator);
    assert_eq!(parse_expression("   ").unwrap_err().kind(), Fault::InvalidOperator);
    assert_eq!(parse_expression("*2").unwrap_err().kind(), Fault::UnableToParse);
}

#[test]
fn malformed_literals_fail() {
    assert_eq!(parse_expression("1.2.3").unwrap_err(), ParserError::InvalidCharacter('.'));
    assert_eq!(parse_expression(".").unwrap_err(), ParserError::InvalidCharacter('.'));
    assert_eq!(parse_expression("1+..").unwrap_err(), ParserError::InvalidCharacter('.'));
}

#[test]
fn error_messages() {
    assert_eq!(
        parse_expression("2++3").unwrap_err(),
        ParserError::UnableToParse("Unable to parse".to_string())
    );
    assert_eq!(
        parse_expression("").unwrap_err(),
        ParserError::InvalidOperator("Invalid Character".to_string())
    );
    assert_eq!(
        parse_expression("(2+3").unwrap_err(),
        ParserError::InvalidOperator("Expected ')' got end of input".to_string())
    );
    assert_eq!(
        parse_expression("(2+3(").unwrap_err(),
        ParserError::InvalidOperator("Expected ')' got '('".to_string())
    );
}

#[test]
fn repeated_parses_agree() {
    let a = parse_expression("1.5*(2-3)^2").unwrap();
    let b = parse_expression("1.5*(2-3)^2").unwrap();
    assert_eq!(a, b);
    assert_eq!(value(&a), value(&b));
    assert_eq!(parse_expression("2&3"), parse_expression("2&3"));
}

#[test]
fn one_leaf_per_literal() {
    let tree = parse_expression("1+2*(3-4)/-5^6").unwrap();
    assert_eq!(leaves(&tree), 6);
    assert_eq!(leaves(&parse_expression("(2)(3)").unwrap()), 2);
}

#[test]
fn trailing_tokens_are_ignored() {
    let expected = Node::Add(num("2"), num("3"));
    assert_eq!(parse_expression("2+3)").unwrap(), expected);
    assert_eq!(parse_expression("2+3)&").unwrap(), expected);
}

#[test]
fn whitespace_is_skipped() {
    assert_eq!(eval_str(" 1 +\t2 * 3 "), 7.0);
}

#[test]
fn division_by_zero_is_not_a_parse_error() {
    assert!(eval_str("1/0").is_infinite());
}

#[test]
fn parser_new_and_parse() {
    let mut p = Parser::new("4*2").unwrap();
    assert_eq!(p.parse().unwrap(), Node::Multiply(num("4"), num("2")));
    assert_eq!(Parser::new("").err().unwrap().kind(), Fault::InvalidOperator);
    assert_eq!(Parser::new("&").err().unwrap(), ParserError::InvalidCharacter('&'));
}

#[test]
fn tokenizer_stream() {
    let mut t = Tokenizer::new("12.5*(3)");
    assert_eq!(t.next(), Some(Ok(Token::Num(0, 4))));
    assert_eq!(t.next(), Some(Ok(Token::Multiply)));
    assert_eq!(t.next(), Some(Ok(Token::LeftParen)));
    assert_eq!(t.next(), Some(Ok(Token::Num(6, 7))));
    assert_eq!(t.next(), Some(Ok(Token::RightParen)));
    assert_eq!(t.next(), Some(Ok(Token::EndOfInput)));
    assert_eq!(t.next(), None);
    assert_eq!(t.literal(0, 4), "12.5".to_string());
}

#[test]
fn token_precedence() {
    assert!(Token::Add.get_oper_prec().level() < Token::Multiply.get_oper_prec().level());
    assert!(Token::Divide.get_oper_prec().level() < Token::Caret.get_oper_prec().level());
    assert_eq!(Token::RightParen.get_oper_prec().level(), 0);
    assert_eq!(Token::EndOfInput.get_oper_prec().level(), 0);
}
