use linear_expr::operation::OperationError::OverflowError;
use linear_expr::parser::ParseError::{
    EmptyExpression, InvalidOperation, MalformedExpression, ParseDigitError,
    UnbalancedParenthesis,
};
use linear_expr::parser::Parser;

#[test]
fn test_examples() {
    let expression = "3a2c4".to_string();
    let parser = Parser::new(expression);
    let result = parser.parse().unwrap();
    assert_eq!(20, result);

    let expression = "32a2d2".to_string();
    let parser = Parser::new(expression);
    let result = parser.parse().unwrap();
    assert_eq!(17, result);

    let expression = "500a10b66c32".to_string();
    let parser = Parser::new(expression);
    let result = parser.parse().unwrap();
    assert_eq!(14208, result);

    let expression = "3ae4c66fb32".to_string();
    let parser = Parser::new(expression);
    let result = parser.parse().unwrap();
    assert_eq!(235, result);

    let expression = "3c4d2aee2a4c41fc4f".to_string();
    let parser = Parser::new(expression);
    let result = parser.parse().unwrap();
    assert_eq!(990, result);
}

#[test]
fn test_redundant_parenthesis() {
    let expression = "e2f".to_string();
    let parser = Parser::new(expression);
    let result = parser.parse().unwrap();
    assert_eq!(2, result);

    let expression = "e2fae3f".to_string();
    let parser = Parser::new(expression);
    let result = parser.parse().unwrap();
    assert_eq!(5, result);
}

#[test]
fn test_malformed() {
    let expression = "3aa2c4".to_string();
    let parser = Parser::new(expression);
    let result = parser.parse();
    assert_eq!(Err(MalformedExpression("a".to_string())), result);
}

#[test]
fn test_unbalanced_parenthesis() {
    let expression = "3aee2fc4".to_string();
    let parser = Parser::new(expression);
    let result = parser.parse();
    assert_eq!(Err(UnbalancedParenthesis("e".to_string())), result);

    let expression = "3aee2fffc4".to_string();
    let parser = Parser::new(expression);
    let result = parser.parse();
    assert_eq!(Err(UnbalancedParenthesis("f".to_string())), result);
}

#[test]
fn test_nested_parenthesis() {
    let expression = "233b3ae4c66fb99ae33ce3a5ff".to_string();
    let parser = Parser::new(expression);
    let result = parser.parse().unwrap();
    assert_eq!(659, result);

    let expression = "eeee5fae3fffcee2fff".to_string();
    let parser = Parser::new(expression);
    let result = parser.parse().unwrap();
    assert_eq!(16, result);
}

#[test]
fn test_overflow() {
    let expression = "99999999999999999999999999c9".to_string();
    let parser = Parser::new(expression);
    let result = parser.parse();
    assert_eq!(
        Err(ParseDigitError(
            "99999999999999999999".to_string(),
            "number too large to fit in target type".to_string()
        )),
        result
    );

    let expression = "9c99999999999999999999999999".to_string();
    let parser = Parser::new(expression);
    let result = parser.parse();
    assert_eq!(Err(InvalidOperation(OverflowError)), result);
}

#[test]
fn test_empty() {
    let expression = "".to_string();
    let parser = Parser::new(expression);
    let result = parser.parse();
    assert_eq!(Err(EmptyExpression), result);
}
