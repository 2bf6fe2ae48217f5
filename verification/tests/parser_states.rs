use linear_expr::operation::Operation;
use linear_expr::parser::cursor::Cursor;
use linear_expr::parser::{ParseError, Parser, ParserState};

fn transition(state: ParserState, symbol: char, held: &str) -> (Result<ParserState, ParseError>, String) {
    let parser = Parser::new(String::new());
    let mut acc = held.to_string();
    let next = parser.compute_state(state, symbol, &mut acc);
    (next, acc)
}

fn malformed(symbol: char) -> Result<ParserState, ParseError> {
    Err(ParseError::MalformedExpression(symbol.to_string()))
}

#[test]
fn first_operand_row() {
    let state = ParserState::FirstOperand;
    assert_eq!((Ok(ParserState::FirstOperand), "12".to_string()), transition(state, '3', "12"));
    assert_eq!((Ok(ParserState::FirstOperand), "".to_string()), transition(state, '0', ""));
    for code in ['a', 'b', 'c', 'd'] {
        assert_eq!((Ok(ParserState::Operation), "".to_string()), transition(state, code, "12"));
        assert_eq!((Ok(ParserState::Operation), "".to_string()), transition(state, code, ""));
    }
    assert_eq!((Ok(ParserState::FirstOperand), "".to_string()), transition(state, 'e', "12"));
    assert_eq!((Ok(ParserState::CloseParenthesis), "".to_string()), transition(state, 'f', "12"));
    assert_eq!((malformed('g'), "12".to_string()), transition(state, 'g', "12"));
    assert_eq!((malformed(' '), "12".to_string()), transition(state, ' ', "12"));
}

#[test]
fn operation_row() {
    let state = ParserState::Operation;
    assert_eq!((Ok(ParserState::SecondOperand), "".to_string()), transition(state, '7', ""));
    assert_eq!((Ok(ParserState::SecondOperand), "4".to_string()), transition(state, '7', "4"));
    for code in ['a', 'b', 'c', 'd'] {
        assert_eq!((malformed(code), "".to_string()), transition(state, code, ""));
        assert_eq!((Ok(ParserState::Operation), "".to_string()), transition(state, code, "4"));
    }
    assert_eq!((Ok(ParserState::Operation), "".to_string()), transition(state, 'e', ""));
    assert_eq!((Ok(ParserState::Operation), "".to_string()), transition(state, 'e', "4"));
    assert_eq!((malformed('f'), "4".to_string()), transition(state, 'f', "4"));
    assert_eq!((malformed('-'), "".to_string()), transition(state, '-', ""));
}

#[test]
fn second_operand_row() {
    let state = ParserState::SecondOperand;
    assert_eq!((Ok(ParserState::SecondOperand), "12".to_string()), transition(state, '9', "12"));
    for code in ['a', 'b', 'c', 'd'] {
        assert_eq!((Ok(ParserState::Operation), "".to_string()), transition(state, code, "12"));
    }
    assert_eq!((Ok(ParserState::SecondOperand), "".to_string()), transition(state, 'e', "12"));
    assert_eq!((Ok(ParserState::CloseParenthesis), "".to_string()), transition(state, 'f', "12"));
    assert_eq!((malformed('E'), "12".to_string()), transition(state, 'E', "12"));
}

#[test]
fn close_parenthesis_row() {
    let state = ParserState::CloseParenthesis;
    assert_eq!((malformed('1'), "".to_string()), transition(state, '1', ""));
    for code in ['a', 'b', 'c', 'd'] {
        assert_eq!((Ok(ParserState::Operation), "".to_string()), transition(state, code, ""));
    }
    assert_eq!((malformed('e'), "".to_string()), transition(state, 'e', ""));
    assert_eq!((Ok(ParserState::CloseParenthesis), "".to_string()), transition(state, 'f', ""));
    assert_eq!((malformed('z'), "7".to_string()), transition(state, 'z', "7"));
}

#[test]
fn digits_beyond_ascii_are_no_digits() {
    assert_eq!(
        (malformed('\u{0663}'), "1".to_string()),
        transition(ParserState::FirstOperand, '\u{0663}', "1")
    );
    assert_eq!(
        (malformed('/'), "1".to_string()),
        transition(ParserState::FirstOperand, '/', "1")
    );
    assert_eq!(
        (malformed(':'), "1".to_string()),
        transition(ParserState::FirstOperand, ':', "1")
    );
}

#[test]
fn cursor_reads_forward_only() {
    let mut cursor = Cursor::new("3ae");
    assert!(cursor.has_next());
    assert_eq!(Some('3'), cursor.peek());
    assert_eq!(Some('3'), cursor.peek());
    assert_eq!(Some('3'), cursor.next());
    assert_eq!(Some('a'), cursor.next());
    assert_eq!(Some('e'), cursor.peek());
    assert!(cursor.has_next());
    assert_eq!(Some('e'), cursor.next());
    assert!(!cursor.has_next());
    assert_eq!(None, cursor.peek());
    assert_eq!(None, cursor.next());
    assert_eq!(None, cursor.next());
    assert!(!cursor.has_next());
}

#[test]
fn cursor_counts_over_all_symbols() {
    let mut cursor = Cursor::new("eefaefe");
    assert_eq!(4, cursor.count('e'));
    assert_eq!(2, cursor.count('f'));
    assert_eq!(1, cursor.count('a'));
    assert_eq!(0, cursor.count('b'));
    assert_eq!(Some('e'), cursor.next());
    assert_eq!(Some('e'), cursor.next());
    assert_eq!(4, cursor.count('e'));
    assert_eq!(0, Cursor::new("").count('e'));
}

#[test]
fn cursor_reads_characters_not_bytes() {
    let mut cursor = Cursor::new("1\u{00e9}2");
    assert_eq!(Some('1'), cursor.next());
    assert_eq!(Some('\u{00e9}'), cursor.next());
    assert_eq!(Some('2'), cursor.next());
    assert_eq!(None, cursor.next());
}

#[test]
fn a_frame_ends_at_its_group_close() {
    let parser = Parser::new(String::new());
    let mut cursor = Cursor::new("12a3f45");
    assert_eq!(Ok(15), parser.parse_internal(&mut cursor, None));
    assert_eq!(Some('4'), cursor.peek());
    assert_eq!(Ok(45), parser.parse_internal(&mut cursor, Some(15)));
    assert!(!cursor.has_next());
    assert_eq!(Err(ParseError::EmptyExpression), parser.parse_internal(&mut cursor, None));
    assert_eq!(Ok(45), parser.parse_internal(&mut cursor, Some(45)));
}

#[test]
fn a_frame_starts_with_the_result_it_is_handed() {
    let parser = Parser::new(String::new());
    let mut cursor = Cursor::new("c3");
    assert_eq!(Ok(21), parser.parse_internal(&mut cursor, Some(7)));
    let mut cursor = Cursor::new("f");
    assert_eq!(Ok(7), parser.parse_internal(&mut cursor, Some(7)));
    let mut cursor = Cursor::new("f");
    assert_eq!(
        Err(ParseError::IllegalState(
            "Result not available when closing parenthesis".to_string()
        )),
        parser.parse_internal(&mut cursor, None)
    );
    let mut cursor = Cursor::new("c3");
    assert_eq!(
        Err(ParseError::IllegalState(
            "No previous result and accumulator empty instantiating operation".to_string()
        )),
        parser.parse_internal(&mut cursor, None)
    );
}

#[test]
fn a_group_takes_nothing_from_the_frame_that_opens_it() {
    let parser = Parser::new(String::new());
    let mut cursor = Cursor::new("3aef");
    assert_eq!(
        Err(ParseError::IllegalState(
            "Result not available when closing parenthesis".to_string()
        )),
        parser.parse_internal(&mut cursor, None)
    );
    assert!(!cursor.has_next());
    let mut cursor = Cursor::new("ef9");
    assert_eq!(
        Err(ParseError::IllegalState(
            "Result not available when closing parenthesis".to_string()
        )),
        parser.parse_internal(&mut cursor, Some(7))
    );
    assert_eq!(Some('9'), cursor.peek());
    let mut cursor = Cursor::new("e");
    assert_eq!(
        Err(ParseError::EmptyExpression),
        parser.parse_internal(&mut cursor, Some(7))
    );
    let mut cursor = Cursor::new("e4f");
    assert_eq!(Ok(4), parser.parse_internal(&mut cursor, Some(7)));
}

#[test]
fn a_frame_leaves_the_symbol_after_a_group_unread() {
    let parser = Parser::new(String::new());
    let mut cursor = Cursor::new("2ae3f5");
    assert_eq!(Ok(5), parser.parse_internal(&mut cursor, None));
    assert_eq!(Some('5'), cursor.peek());
    let mut cursor = Cursor::new("2ae3fc4");
    assert_eq!(Ok(20), parser.parse_internal(&mut cursor, None));
    assert_eq!(None, cursor.peek());
}

#[test]
fn a_frame_stops_behind_the_symbol_it_turns_down() {
    let parser = Parser::new(String::new());
    let mut cursor = Cursor::new("2ab7");
    assert_eq!(
        Err(ParseError::MalformedExpression("b".to_string())),
        parser.parse_internal(&mut cursor, None)
    );
    assert_eq!(Some('7'), cursor.peek());
}

#[test]
fn errors_show_their_parts() {
    let error = ParseError::UnexpectedSymbol(
        "x".to_string(),
        ParserState::Operation,
        Some(Operation::Add(1)),
    );
    assert_eq!(
        "UnexpectedSymbol(\"x\", Operation, Some(Add(1)))",
        format!("{:?}", error)
    );
    assert_ne!(ParseError::EmptyExpression, error);
    assert_eq!(ParserState::FirstOperand, ParserState::FirstOperand.clone());
    assert_ne!(ParserState::FirstOperand, ParserState::SecondOperand);
}
