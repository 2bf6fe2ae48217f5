//! The parser: a scan over the symbols of an expression, one frame per group.

use vstd::prelude::*;

use crate::operand::{is_ascii_digit, parse_operand};
use crate::operation::codes::{is_operator, OPCODE_CLOSE, OPCODE_OPEN};
use crate::operation::{outcome, Operation, OperationError, OperationFault};
use crate::parser::cursor::Cursor;
use crate::parser::model::{
    accumulator_after, evaluate, first_operand_read, group_closed, group_folded, input_ended,
    lemma_frame_advances, next_state, operation_started, run_frame, run_frames,
    second_operand_applied, step, symbol_text, Frame, FrameEnd, Step,
};

pub mod chain;
pub mod cursor;
pub mod laws;
pub mod model;
pub mod scan;

verus! {

/// Errors that the parsing process can cause
#[derive(Debug, PartialEq)]
pub enum ParseError {
    /// The expression to parse is empty
    EmptyExpression,
    /// There is an error converting an operand from string to unsigned integer (operand, error message)
    ParseDigitError(String, String),
    /// The instantiation or application of an operation failed (`OperationError` for further information)
    InvalidOperation(OperationError),
    /// The expression is not arithmetically correct (invalid character)
    MalformedExpression(String),
    /// The number of parenthesis in the expression does not equal (open/close parenthesis operation code to indicate)
    UnbalancedParenthesis(String),
    /// The parser encountered an unexpected symbol (unexpected character, parser state, current operation)
    UnexpectedSymbol(String, ParserState, Option<Operation>),
    /// The parser ended in an illegal state
    IllegalState(String),
}

/// What a [`ParseError`] says, with its texts as sequences of characters.
pub enum ParseFault {
    /// The expression to parse is empty
    EmptyExpression,
    /// An operand does not fit an unsigned integer (operand, error message)
    ParseDigitError(Seq<char>, Seq<char>),
    /// The instantiation or application of an operation failed
    InvalidOperation(OperationFault),
    /// A symbol is not legal in the state the parser is in (the symbol)
    MalformedExpression(Seq<char>),
    /// The group symbols do not balance (the symbol in excess)
    UnbalancedParenthesis(Seq<char>),
    /// A symbol matched no rule (the symbol, parser state, current operation)
    UnexpectedSymbol(Seq<char>, ParserState, Option<Operation>),
    /// The parser ended in an illegal state (error message)
    IllegalState(Seq<char>),
}

impl View for ParseError {
    type V = ParseFault;

    open spec fn view(&self) -> ParseFault {
        match *self {
            ParseError::EmptyExpression => ParseFault::EmptyExpression,
            ParseError::ParseDigitError(operand, detail) => ParseFault::ParseDigitError(
                operand@,
                detail@,
            ),
            ParseError::InvalidOperation(error) => ParseFault::InvalidOperation(error@),
            ParseError::MalformedExpression(symbol) => ParseFault::MalformedExpression(symbol@),
            ParseError::UnbalancedParenthesis(symbol) => ParseFault::UnbalancedParenthesis(symbol@),
            ParseError::UnexpectedSymbol(symbol, state, operation) => ParseFault::UnexpectedSymbol(
                symbol@,
                state,
                operation,
            ),
            ParseError::IllegalState(detail) => ParseFault::IllegalState(detail@),
        }
    }
}

/// The legal states the parser can go through
#[derive(Debug, Clone, Copy, PartialEq, Eq, Structural)]
pub enum ParserState {
    /// The first operand is expected
    FirstOperand,
    /// An operation code is expected
    Operation,
    /// The second operand is expected
    SecondOperand,
    /// A closing parenthesis is expected
    CloseParenthesis,
}

/// The text of a single symbol.
fn symbol_string(symbol: char) -> (text: String)
    ensures
        text@ == symbol_text(symbol),
{
    let mut text = String::new();
    text.push(symbol);
    text
}

/// The error for a symbol that is not legal in the state the parser is in.
fn malformed(symbol: char) -> (error: ParseError)
    ensures
        error@ == ParseFault::MalformedExpression(symbol_text(symbol)),
{
    ParseError::MalformedExpression(symbol_string(symbol))
}

/// Reads the accumulator anew as the first operand.
fn read_first_operand(acc: &String) -> (r: Result<usize, ParseError>)
    ensures
        outcome(r) == first_operand_read(acc@),
{
    match parse_operand(acc.as_str()) {
        Ok(value) => Ok(value),
        Err(detail) => Err(ParseError::ParseDigitError(acc.clone(), detail)),
    }
}

/// Applies the accumulator, as the second operand, to the pending operation.
fn apply_second_operand(operation: Option<Operation>, acc: &String) -> (r: Result<
    usize,
    ParseError,
>)
    ensures
        outcome(r) == second_operand_applied(operation, acc@),
{
    match operation {
        None => Err(
            ParseError::IllegalState("No operation when evaluating SecondOperand".to_string()),
        ),
        Some(pending) => match pending.apply(acc.clone()) {
            Ok(value) => Ok(value),
            Err(error) => Err(ParseError::InvalidOperation(error)),
        },
    }
}

/// Starts the operation of `code`, on the accumulator where it holds digits and on the
/// running result otherwise.
fn start_operation(code: char, acc: &String, result: Option<usize>) -> (r: Result<
    Operation,
    ParseError,
>)
    ensures
        outcome(r) == operation_started(code, acc@, result),
{
    let started = if acc.as_str().is_empty() {
        match result {
            None => {
                return Err(
                    ParseError::IllegalState(
                        "No previous result and accumulator empty instantiating operation".to_string(),
                    ),
                );
            },
            Some(first_operand) => Operation::from_result(code, first_operand),
        }
    } else {
        Operation::from(code, acc.clone())
    };
    match started {
        Ok(operation) => Ok(operation),
        Err(error) => Err(ParseError::InvalidOperation(error)),
    }
}

/// Hands the value of a group to the frame that opened it: to its pending operation as
/// the second operand, or as its value where no operation is pending.
fn fold_group(operation: Option<Operation>, group: usize) -> (r: Result<usize, ParseError>)
    ensures
        outcome(r) == group_folded(operation, Ok(group)),
{
    match operation {
        None => Ok(group),
        Some(pending) => match pending.apply_result(group) {
            Ok(value) => Ok(value),
            Err(error) => Err(ParseError::InvalidOperation(error)),
        },
    }
}

/// Ends a frame at a group-close symbol.
fn close_group(result: Option<usize>) -> (r: Result<usize, ParseError>)
    ensures
        outcome(r) == group_closed(result),
{
    match result {
        Some(value) => Ok(value),
        None => Err(
            ParseError::IllegalState("Result not available when closing parenthesis".to_string()),
        ),
    }
}

/// The parser structure
pub struct Parser {
    /// The expression to parse
    expression: String,
}

impl View for Parser {
    type V = Seq<char>;

    /// The symbols of the expression.
    closed spec fn view(&self) -> Seq<char> {
        self.expression@
    }
}

/// The parser implementation
impl Parser {
    /// Instantiate a new parser
    /// # Arguments
    ///  - expression: The expression to parse
    /// # Return
    /// A `Parser`
    pub fn new(expression: String) -> (parser: Self)
        ensures
            parser@ == expression@,
    {
        Self { expression }
    }

    /// Parse process
    /// # Return
    /// A `Result` having the expression result if valid, `ParseError` otherwise
    pub fn parse(&self) -> (r: Result<usize, ParseError>)
        ensures
            outcome(r) == evaluate(self@),
    {
        let mut data = Cursor::new(self.expression.as_str());
        let open_brackets = data.count(OPCODE_OPEN);
        let closed_brackets = data.count(OPCODE_CLOSE);
        if open_brackets > closed_brackets {
            Err(ParseError::UnbalancedParenthesis(symbol_string(OPCODE_OPEN)))
        } else if closed_brackets > open_brackets {
            Err(ParseError::UnbalancedParenthesis(symbol_string(OPCODE_CLOSE)))
        } else {
            let mut result: Option<usize> = None;
            while data.has_next()
                invariant
                    data.symbols() == self@,
                    data.position() <= data.symbols().len(),
                    evaluate(self@) == run_frames(self@, data.position(), result),
                decreases data.symbols().len() - data.position(),
            {
                proof {
                    lemma_frame_advances(self@, data.position(), Frame::opening(result));
                }
                match self.parse_internal(&mut data, result) {
                    Ok(res) => {
                        result = Some(res);
                    },
                    Err(error) => {
                        return Err(error);
                    },
                }
            }
            result.ok_or(ParseError::EmptyExpression)
        }
    }

    /// Runs one frame on the symbols that `data` has left, with `result` as the running
    /// result to start from, and leaves `data` where the frame ended. A group within the
    /// frame is a frame of its own, read through the same cursor; it starts with no
    /// running result, whatever this frame's is.
    pub fn parse_internal(&self, data: &mut Cursor, result: Option<usize>) -> (r: Result<
        usize,
        ParseError,
    >)
        ensures
            final(data).symbols() == old(data).symbols(),
            outcome(r) == run_frame(
                old(data).symbols(),
                old(data).position(),
                Frame::opening(result),
            ).outcome,
            final(data).position() == run_frame(
                old(data).symbols(),
                old(data).position(),
                Frame::opening(result),
            ).position,
        decreases old(data).symbols().len() - old(data).position(),
    {
        let ghost symbols = data.symbols();
        let ghost start = data.position();
        let ghost whole = run_frame(symbols, start, Frame::opening(result));
        let mut running = result;
        let mut state = ParserState::FirstOperand;
        let mut operation: Option<Operation> = None;
        let mut acc = String::new();
        loop
            invariant
                symbols == old(data).symbols(),
                start == old(data).position(),
                whole == run_frame(symbols, start, Frame::opening(result)),
                data.symbols() == symbols,
                start <= data.position(),
                whole == run_frame(
                    symbols,
                    data.position(),
                    Frame { state, operation, accumulator: acc@, result: running },
                ),
            ensures
                data.symbols() == symbols,
                whole == (FrameEnd { outcome: input_ended(running), position: data.position() }),
            decreases symbols.len() - data.position(),
        {
            let ghost position = data.position();
            let ghost frame = Frame { state, operation, accumulator: acc@, result: running };
            let symbol = match data.next() {
                Some(symbol) => symbol,
                None => {
                    assert(whole == (FrameEnd { outcome: input_ended(running), position })) by {
                        reveal(run_frame);
                    }
                    break;
                },
            };
            assert(whole == match step(frame, symbol) {
                Step::End(outcome) => FrameEnd { outcome, position: position + 1 },
                Step::Continue(next) => run_frame(symbols, position + 1, next),
                Step::Open(waiting) => whole,
            }) by {
                reveal(run_frame);
            }
            state = match self.compute_state(state, symbol, &mut acc) {
                Ok(next) => next,
                Err(error) => {
                    return Err(error);
                },
            };
            let is_digit = is_ascii_digit(symbol);
            if is_digit && state == ParserState::FirstOperand {
                acc.push(symbol);
                match read_first_operand(&acc) {
                    Ok(value) => {
                        running = Some(value);
                    },
                    Err(error) => {
                        return Err(error);
                    },
                }
            } else if is_digit && state == ParserState::SecondOperand {
                acc.push(symbol);
                match apply_second_operand(operation, &acc) {
                    Ok(value) => {
                        running = Some(value);
                    },
                    Err(error) => {
                        return Err(error);
                    },
                }
            } else if is_operator(symbol) && state == ParserState::Operation {
                match start_operation(symbol, &acc, running) {
                    Ok(pending) => {
                        operation = Some(pending);
                    },
                    Err(error) => {
                        return Err(error);
                    },
                }
                acc.clear();
            } else if symbol == OPCODE_OPEN {
                let ghost waiting = Frame { state, operation, accumulator: acc@, result: running };
                let ghost group = run_frame(symbols, position + 1, Frame::opening(None));
                proof {
                    lemma_frame_advances(symbols, position + 1, Frame::opening(None));
                    assert(step(frame, symbol) == Step::Open(waiting));
                }
                let value = match self.parse_internal(data, None) {
                    Ok(value) => value,
                    Err(error) => {
                        assert(whole == (FrameEnd { outcome: Err(error@), position: group.position }))
                            by {
                            reveal(run_frame);
                        }
                        return Err(error);
                    },
                };
                let value = match fold_group(operation, value) {
                    Ok(value) => value,
                    Err(error) => {
                        assert(whole == (FrameEnd { outcome: Err(error@), position: group.position }))
                            by {
                            reveal(run_frame);
                        }
                        return Err(error);
                    },
                };
                let chained = match data.peek() {
                    Some(following) => is_operator(following),
                    None => false,
                };
                if chained {
                    running = Some(value);
                    state = ParserState::FirstOperand;
                    assert(whole == run_frame(
                        symbols,
                        group.position,
                        Frame { state, operation, accumulator: acc@, result: running },
                    )) by {
                        reveal(run_frame);
                    }
                } else {
                    assert(whole == (FrameEnd { outcome: Ok(value), position: group.position })) by {
                        reveal(run_frame);
                    }
                    return Ok(value);
                }
            } else if symbol == OPCODE_CLOSE && state == ParserState::CloseParenthesis {
                return close_group(running);
            } else {
                return Err(ParseError::UnexpectedSymbol(symbol_string(symbol), state, operation));
            }
        }
        running.ok_or(ParseError::EmptyExpression)
    }

    /// Compute the new state of the parser: the state that `symbol` leads to from `state`,
    /// or the error for a symbol that is not legal there. A legal symbol that is no digit
    /// ends the operand being read, so the accumulator is emptied; on an error it is left
    /// as it was.
    pub fn compute_state(&self, state: ParserState, symbol: char, acc: &mut String) -> (r: Result<
        ParserState,
        ParseError,
    >)
        ensures
            outcome(r) == next_state(state, symbol, old(acc)@),
            final(acc)@ == if r is Ok {
                accumulator_after(symbol, old(acc)@)
            } else {
                old(acc)@
            },
    {
        let is_digit = is_ascii_digit(symbol);
        let next = match state {
            ParserState::FirstOperand | ParserState::SecondOperand => {
                if is_digit || symbol == OPCODE_OPEN {
                    state
                } else if is_operator(symbol) {
                    ParserState::Operation
                } else if symbol == OPCODE_CLOSE {
                    ParserState::CloseParenthesis
                } else {
                    return Err(malformed(symbol));
                }
            },
            ParserState::Operation => {
                if is_digit {
                    ParserState::SecondOperand
                } else if symbol == OPCODE_OPEN || (is_operator(symbol) && !acc.as_str().is_empty()) {
                    ParserState::Operation
                } else {
                    return Err(malformed(symbol));
                }
            },
            ParserState::CloseParenthesis => {
                if is_operator(symbol) {
                    ParserState::Operation
                } else if symbol == OPCODE_CLOSE {
                    ParserState::CloseParenthesis
                } else {
                    return Err(malformed(symbol));
                }
            },
        };
        if !is_digit {
            acc.clear();
        }
        Ok(next)
    }
}

} // verus!
