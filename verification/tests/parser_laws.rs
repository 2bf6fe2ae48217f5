use linear_expr::operation::OperationError;
use linear_expr::parser::{ParseError, Parser};

fn parse(expression: &str) -> Result<usize, ParseError> {
    Parser::new(expression.to_string()).parse()
}

#[test]
fn chains_go_from_left_to_right() {
    assert_eq!(Ok(7), parse("7"));
    assert_eq!(Ok(1234567890), parse("1234567890"));
    assert_eq!(Ok(14), parse("2a3a4a5"));
    assert_eq!(Ok(20), parse("2a3c4"));
    assert_eq!(Ok(10), parse("2c3a4"));
    assert_eq!(Ok(3), parse("9b3d2"));
    assert_eq!(Ok(0), parse("9b3b6"));
    assert_eq!(Ok(28), parse("3a25"));
    assert_eq!(Ok(100), parse("1000d10"));
    assert_eq!(Ok(1), parse("10d7"));
}

#[test]
fn leading_zeros_count_for_nothing_but_in_a_divisor() {
    assert_eq!(Ok(7), parse("007"));
    assert_eq!(Ok(8), parse("007a01"));
    assert_eq!(Ok(21), parse("7c03"));
    assert_eq!(Ok(4), parse("7b03"));
    assert_eq!(Ok(2), parse("8d4"));
    assert_eq!(
        Err(ParseError::InvalidOperation(OperationError::OverflowError)),
        parse("8d04")
    );
    assert_eq!(
        Err(ParseError::InvalidOperation(OperationError::OverflowError)),
        parse("8d0")
    );
}

#[test]
fn an_operation_code_at_the_end_is_read_and_left_pending() {
    assert_eq!(Ok(3), parse("3a"));
    assert_eq!(Ok(5), parse("3a2c"));
}

#[test]
fn subtraction_fails_below_zero_at_the_first_digit_that_brings_it_there() {
    assert_eq!(Ok(0), parse("12b12"));
    assert_eq!(
        Err(ParseError::InvalidOperation(OperationError::OverflowError)),
        parse("12b13")
    );
    assert_eq!(
        Err(ParseError::InvalidOperation(OperationError::OverflowError)),
        parse("5b9a20")
    );
}

#[test]
fn the_widest_operand_fits() {
    let widest = usize::MAX.to_string();
    assert_eq!(Ok(usize::MAX), parse(&widest));
    assert_eq!(Ok(usize::MAX), parse(&format!("0a{}", widest)));
    assert_eq!(Ok(usize::MAX), parse(&format!("{}b0", widest)));
    assert_eq!(Ok(1), parse(&format!("{}d{}", widest, widest)));
    assert_eq!(
        Err(ParseError::InvalidOperation(OperationError::OverflowError)),
        parse(&format!("{}a1", widest))
    );
}

#[test]
fn a_first_operand_too_wide_is_a_digit_error() {
    assert_eq!(
        Err(ParseError::ParseDigitError(
            "18446744073709551616".to_string(),
            "number too large to fit in target type".to_string()
        )),
        parse("18446744073709551616")
    );
    assert_eq!(
        Err(ParseError::ParseDigitError(
            "18446744073709551616".to_string(),
            "number too large to fit in target type".to_string()
        )),
        parse("184467440737095516167a1")
    );
    assert_eq!(
        Err(ParseError::ParseDigitError(
            "000000000018446744073709551616".to_string(),
            "number too large to fit in target type".to_string()
        )),
        parse("000000000018446744073709551616")
    );
}

#[test]
fn a_second_operand_too_wide_is_an_operation_error() {
    assert_eq!(
        Err(ParseError::InvalidOperation(
            OperationError::InvalidSecondOperand(
                "18446744073709551616".to_string(),
                "number too large to fit in target type".to_string()
            )
        )),
        parse("0a184467440737095516160")
    );
    assert_eq!(
        Err(ParseError::InvalidOperation(
            OperationError::InvalidSecondOperand(
                "18446744073709551616".to_string(),
                "number too large to fit in target type".to_string()
            )
        )),
        parse("0c18446744073709551616")
    );
    assert_eq!(
        Err(ParseError::InvalidOperation(
            OperationError::InvalidSecondOperand(
                "18446744073709551616".to_string(),
                "number too large to fit in target type".to_string()
            )
        )),
        parse("1a18446744073709551616")
    );
    assert_eq!(
        Err(ParseError::InvalidOperation(OperationError::OverflowError)),
        parse("1a18446744073709551615")
    );
    assert_eq!(
        Err(ParseError::InvalidOperation(OperationError::OverflowError)),
        parse("2c92233720368547758080")
    );
    assert_eq!(
        Err(ParseError::InvalidOperation(OperationError::OverflowError)),
        parse("5b18446744073709551616")
    );
}

#[test]
fn the_digits_that_still_fit_settle_the_error_of_a_wide_second_operand() {
    let invalid = Err(ParseError::InvalidOperation(
        OperationError::InvalidSecondOperand(
            "18446744073709551616".to_string(),
            "number too large to fit in target type".to_string(),
        ),
    ));
    let overflow = Err(ParseError::InvalidOperation(OperationError::OverflowError));
    assert_eq!(invalid, parse("0d18446744073709551616"));
    assert_eq!(invalid, parse("16602069666338596454a18446744073709551616"));
    assert_eq!(overflow, parse("16602069666338596455a18446744073709551616"));
    assert_eq!(invalid, parse("1844674407370955161b18446744073709551616"));
    assert_eq!(overflow, parse("1844674407370955160b18446744073709551616"));
    assert_eq!(invalid, parse("10c18446744073709551616"));
    assert_eq!(overflow, parse("11c18446744073709551616"));
    assert_eq!(invalid, parse("7d18446744073709551616999"));
    assert_eq!(overflow, parse("7d018446744073709551616"));
    assert_eq!(
        Err(ParseError::InvalidOperation(
            OperationError::InvalidSecondOperand(
                "018446744073709551616".to_string(),
                "number too large to fit in target type".to_string(),
            ),
        )),
        parse("7a018446744073709551616")
    );
}

#[test]
fn an_operation_that_overflows_is_an_operation_error() {
    assert_eq!(
        Err(ParseError::InvalidOperation(OperationError::OverflowError)),
        parse("18446744073709551615a1")
    );
    assert_eq!(
        Err(ParseError::InvalidOperation(OperationError::OverflowError)),
        parse("4294967296c4294967296")
    );
    assert_eq!(Ok(18446744065119617025), parse("4294967295c4294967295"));
    assert_eq!(
        Err(ParseError::InvalidOperation(OperationError::OverflowError)),
        parse("3b4")
    );
    assert_eq!(
        Err(ParseError::InvalidOperation(OperationError::OverflowError)),
        parse("3d0")
    );
}

#[test]
fn groups_around_a_whole_expression_change_nothing() {
    assert_eq!(Ok(5), parse("5"));
    assert_eq!(Ok(5), parse("e5f"));
    assert_eq!(Ok(5), parse("ee5ff"));
    assert_eq!(Ok(5), parse("eeeeeeee5ffffffff"));
    assert_eq!(Ok(20), parse("e3a2c4f"));
    assert_eq!(Ok(20), parse("eee3a2c4fff"));
    assert_eq!(
        Err(ParseError::InvalidOperation(OperationError::OverflowError)),
        parse("ee3b4ff")
    );
    assert_eq!(
        Err(ParseError::ParseDigitError(
            "18446744073709551616".to_string(),
            "number too large to fit in target type".to_string()
        )),
        parse("e18446744073709551616f")
    );
    let deep = format!("{}42{}", "e".repeat(500), "f".repeat(500));
    assert_eq!(Ok(42), parse(&deep));
}

#[test]
fn a_group_is_the_second_operand_of_the_operation_before_it() {
    assert_eq!(Ok(267), parse("3ae4c66f"));
    assert_eq!(Ok(235), parse("3ae4c66fb32"));
    assert_eq!(Ok(14), parse("2ce3a4f"));
    assert_eq!(Ok(10), parse("2c3a4"));
    assert_eq!(Ok(2), parse("20de2c5f"));
    assert_eq!(Ok(1), parse("9be2c4f"));
    assert_eq!(Ok(8), parse("9be2c4fc8"));
    assert_eq!(
        Err(ParseError::InvalidOperation(OperationError::OverflowError)),
        parse("7be2c4f")
    );
    assert_eq!(
        Err(ParseError::InvalidOperation(OperationError::OverflowError)),
        parse("7de3b3f")
    );
    assert_eq!(
        Err(ParseError::InvalidOperation(OperationError::OverflowError)),
        parse("7ae3b4fa1")
    );
}

#[test]
fn an_illegal_symbol_is_named() {
    assert_eq!(Err(ParseError::MalformedExpression("a".to_string())), parse("3aa2c4"));
    assert_eq!(Err(ParseError::MalformedExpression("c".to_string())), parse("3ac2"));
    assert_eq!(Err(ParseError::MalformedExpression("d".to_string())), parse("12c34bd"));
    assert_eq!(Err(ParseError::MalformedExpression("b".to_string())), parse("1abefxyz"));
    assert_eq!(Err(ParseError::MalformedExpression("x".to_string())), parse("12x"));
    assert_eq!(Err(ParseError::MalformedExpression("x".to_string())), parse("x"));
    assert_eq!(Err(ParseError::MalformedExpression(" ".to_string())), parse("1 a2"));
    assert_eq!(Err(ParseError::MalformedExpression("+".to_string())), parse("+1"));
    assert_eq!(Err(ParseError::MalformedExpression("-".to_string())), parse("1a-2"));
    assert_eq!(Err(ParseError::MalformedExpression("A".to_string())), parse("3A2"));
    assert_eq!(Err(ParseError::MalformedExpression("\u{00e9}".to_string())), parse("3\u{00e9}"));
    assert_eq!(Err(ParseError::MalformedExpression("f".to_string())), parse("e3af"));
}

#[test]
fn an_error_within_a_group_ends_the_parse() {
    assert_eq!(Err(ParseError::MalformedExpression("x".to_string())), parse("exfa1"));
    assert_eq!(Err(ParseError::MalformedExpression("x".to_string())), parse("1aexfa1"));
    assert_eq!(
        Err(ParseError::InvalidOperation(OperationError::OverflowError)),
        parse("e1b2fa1")
    );
    assert_eq!(
        Err(ParseError::InvalidOperation(OperationError::OverflowError)),
        parse("1be2fa5")
    );
}

#[test]
fn a_surplus_of_group_symbols_is_named_before_anything_is_read() {
    assert_eq!(Err(ParseError::UnbalancedParenthesis("e".to_string())), parse("e"));
    assert_eq!(Err(ParseError::UnbalancedParenthesis("f".to_string())), parse("f"));
    assert_eq!(Err(ParseError::UnbalancedParenthesis("e".to_string())), parse("e1"));
    assert_eq!(Err(ParseError::UnbalancedParenthesis("f".to_string())), parse("1f"));
    assert_eq!(Err(ParseError::UnbalancedParenthesis("e".to_string())), parse("xxe"));
    assert_eq!(Err(ParseError::UnbalancedParenthesis("f".to_string())), parse("1aafzzz"));
    assert_eq!(Err(ParseError::UnbalancedParenthesis("e".to_string())), parse("efefe"));
    assert_eq!(
        Err(ParseError::UnbalancedParenthesis("f".to_string())),
        parse("99999999999999999999999f")
    );
}

#[test]
fn balanced_counts_say_nothing_of_the_order() {
    assert_eq!(
        Err(ParseError::IllegalState(
            "Result not available when closing parenthesis".to_string()
        )),
        parse("fe")
    );
    assert_eq!(Ok(4), parse("3fe4"));
    assert_eq!(Err(ParseError::EmptyExpression), parse("3fe"));
}

#[test]
fn a_group_without_a_value_is_an_illegal_state() {
    assert_eq!(
        Err(ParseError::IllegalState(
            "Result not available when closing parenthesis".to_string()
        )),
        parse("ef")
    );
    assert_eq!(
        Err(ParseError::IllegalState(
            "Result not available when closing parenthesis".to_string()
        )),
        parse("eeff")
    );
    assert_eq!(
        Err(ParseError::IllegalState(
            "Result not available when closing parenthesis".to_string()
        )),
        parse("2ef")
    );
    assert_eq!(
        Err(ParseError::IllegalState(
            "Result not available when closing parenthesis".to_string()
        )),
        parse("2a3ef")
    );
    assert_eq!(
        Err(ParseError::IllegalState(
            "Result not available when closing parenthesis".to_string()
        )),
        parse("3aef")
    );
    assert_eq!(
        Err(ParseError::IllegalState(
            "Result not available when closing parenthesis".to_string()
        )),
        parse("3aeefaf")
    );
}

#[test]
fn an_operation_code_without_an_operand_is_an_illegal_state() {
    assert_eq!(
        Err(ParseError::IllegalState(
            "No previous result and accumulator empty instantiating operation".to_string()
        )),
        parse("a1")
    );
    assert_eq!(
        Err(ParseError::IllegalState(
            "No previous result and accumulator empty instantiating operation".to_string()
        )),
        parse("ea1f")
    );
}

#[test]
fn a_group_starts_without_a_running_result() {
    assert_eq!(
        Err(ParseError::IllegalState(
            "No previous result and accumulator empty instantiating operation".to_string()
        )),
        parse("3ea1f")
    );
    assert_eq!(
        Err(ParseError::IllegalState(
            "No previous result and accumulator empty instantiating operation".to_string()
        )),
        parse("3aec2f")
    );
    assert_eq!(Ok(5), parse("3ae2f"));
    assert_eq!(Ok(2), parse("3e2f"));
}

#[test]
fn the_frames_of_the_top_level_hand_their_value_on() {
    assert_eq!(Ok(16), parse("eeee5fae3fffcee2fff"));
    assert_eq!(Ok(12), parse("ee3ffc4"));
    assert_eq!(Err(ParseError::EmptyExpression), parse("e3ffc4e"));
    assert_eq!(Ok(3), parse("ee3ff"));
}

#[test]
fn a_group_takes_the_place_of_the_operand_before_it() {
    assert_eq!(Ok(3), parse("2e3f"));
    assert_eq!(Ok(7), parse("2e3fa4"));
    assert_eq!(Ok(5), parse("2e3f5"));
}

#[test]
fn the_empty_expression_is_turned_down() {
    assert_eq!(Err(ParseError::EmptyExpression), parse(""));
    assert_eq!(Err(ParseError::EmptyExpression), Parser::new(String::new()).parse());
}

#[test]
fn the_same_expression_parses_alike_every_time() {
    for expression in [
        "3a2c4",
        "3ae4c66fb32",
        "eeee5fae3fffcee2fff",
        "",
        "3aa2c4",
        "3aee2fc4",
        "99999999999999999999999999c9",
        "9c99999999999999999999999999",
        "ef",
    ] {
        let parser = Parser::new(expression.to_string());
        let first = parser.parse();
        let second = parser.parse();
        assert_eq!(first, second);
        let again = Parser::new(expression.to_string()).parse();
        assert_eq!(first, again);
    }
}

#[test]
fn parses_do_not_disturb_one_another() {
    let failing = Parser::new("3aa".to_string());
    let working = Parser::new("3a4".to_string());
    assert_eq!(Ok(7), working.parse());
    assert_eq!(Err(ParseError::MalformedExpression("a".to_string())), failing.parse());
    assert_eq!(Ok(7), working.parse());
    assert_eq!(Err(ParseError::MalformedExpression("a".to_string())), failing.parse());
}
