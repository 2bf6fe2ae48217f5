//! What the parser computes, stated over sequences of symbols.
//!
//! An expression is read by frames. A frame reads symbols one by one; each symbol first
//! takes the frame to its next state, which is where an illegal symbol is turned down,
//! and is then acted upon. A group-open symbol starts a frame of its own on the symbols
//! that follow, and a group-close symbol ends the frame that reads it.

use vstd::prelude::*;

use crate::operand::{is_digit, is_operand_literal, operand_fault_text, operand_value};
use crate::operation::codes::{is_operator_code, OPCODE_CLOSE, OPCODE_OPEN};
use crate::operation::Operation;
use crate::parser::cursor::occurrences;
use crate::parser::{ParseFault, ParserState};

verus! {

/// The text of a single symbol, as errors name it.
pub open spec fn symbol_text(symbol: char) -> Seq<char> {
    seq![symbol]
}

/// The message of the error for a second operand that has no operation to go to.
pub open spec fn missing_operation_text() -> Seq<char> {
    "No operation when evaluating SecondOperand"@
}

/// The message of the error for an operation code that has no first operand.
pub open spec fn missing_operand_text() -> Seq<char> {
    "No previous result and accumulator empty instantiating operation"@
}

/// The message of the error for a group that closes before it has a value.
pub open spec fn missing_result_text() -> Seq<char> {
    "Result not available when closing parenthesis"@
}

/// The state-transition table: the state that `symbol` takes a frame to from `state`, or
/// the error for a symbol that is not legal there. An operation code directly after
/// another one is legal only while the accumulator holds digits.
pub open spec fn next_state(state: ParserState, symbol: char, accumulator: Seq<char>) -> Result<
    ParserState,
    ParseFault,
> {
    let malformed = Err(ParseFault::MalformedExpression(symbol_text(symbol)));
    match state {
        ParserState::FirstOperand | ParserState::SecondOperand => {
            if is_digit(symbol) || symbol == OPCODE_OPEN {
                Ok(state)
            } else if is_operator_code(symbol) {
                Ok(ParserState::Operation)
            } else if symbol == OPCODE_CLOSE {
                Ok(ParserState::CloseParenthesis)
            } else {
                malformed
            }
        },
        ParserState::Operation => {
            if is_digit(symbol) {
                Ok(ParserState::SecondOperand)
            } else if symbol == OPCODE_OPEN || (is_operator_code(symbol) && accumulator.len() > 0) {
                Ok(ParserState::Operation)
            } else {
                malformed
            }
        },
        ParserState::CloseParenthesis => {
            if is_operator_code(symbol) {
                Ok(ParserState::Operation)
            } else if symbol == OPCODE_CLOSE {
                Ok(ParserState::CloseParenthesis)
            } else {
                malformed
            }
        },
    }
}

/// The accumulator after a legal transition on `symbol`: a digit leaves it as it is, any
/// other symbol ends the operand and empties it.
pub open spec fn accumulator_after(symbol: char, accumulator: Seq<char>) -> Seq<char> {
    if is_digit(symbol) {
        accumulator
    } else {
        Seq::empty()
    }
}

/// What one frame holds between two symbols.
pub struct Frame {
    /// The position in the expression's grammar.
    pub state: ParserState,
    /// The operation that waits for its second operand, if any.
    pub operation: Option<Operation>,
    /// The digits read so far of the operand being read.
    pub accumulator: Seq<char>,
    /// The running result: the value most recently computed, if any.
    pub result: Option<usize>,
}

impl Frame {
    /// The frame as it starts, with the running result it is handed.
    pub open spec fn opening(result: Option<usize>) -> Frame {
        Frame {
            state: ParserState::FirstOperand,
            operation: None,
            accumulator: Seq::empty(),
            result,
        }
    }
}

/// How a frame ends: with its value or the error, and the cursor's position then.
pub struct FrameEnd {
    pub outcome: Result<usize, ParseFault>,
    pub position: nat,
}

/// The running result once `text`, the digits read so far of a first operand, is read anew.
pub open spec fn first_operand_read(text: Seq<char>) -> Result<usize, ParseFault> {
    if is_operand_literal(text) {
        Ok(operand_value(text))
    } else {
        Err(ParseFault::ParseDigitError(text, operand_fault_text(text)))
    }
}

/// The running result once `text`, the digits read so far of a second operand, is applied
/// to the pending operation.
pub open spec fn second_operand_applied(operation: Option<Operation>, text: Seq<char>) -> Result<
    usize,
    ParseFault,
> {
    match operation {
        None => Err(ParseFault::IllegalState(missing_operation_text())),
        Some(operation) => match operation.applied_to_text(text) {
            Ok(value) => Ok(value),
            Err(fault) => Err(ParseFault::InvalidOperation(fault)),
        },
    }
}

/// The operation that the code `code` starts. Its first operand is the accumulator where
/// that holds digits, and the running result otherwise.
pub open spec fn operation_started(
    code: char,
    accumulator: Seq<char>,
    result: Option<usize>,
) -> Result<Operation, ParseFault> {
    if accumulator.len() == 0 {
        match result {
            None => Err(ParseFault::IllegalState(missing_operand_text())),
            Some(first_operand) => match Operation::with_code(code, first_operand) {
                Ok(operation) => Ok(operation),
                Err(fault) => Err(ParseFault::InvalidOperation(fault)),
            },
        }
    } else {
        match Operation::with_code_and_text(code, accumulator) {
            Ok(operation) => Ok(operation),
            Err(fault) => Err(ParseFault::InvalidOperation(fault)),
        }
    }
}

/// The value of a group in the frame that opened it: the group's own value where no
/// operation is pending, and else the pending operation applied to it.
pub open spec fn group_folded(operation: Option<Operation>, group: Result<usize, ParseFault>) -> Result<
    usize,
    ParseFault,
> {
    match group {
        Err(fault) => Err(fault),
        Ok(value) => match operation {
            None => Ok(value),
            Some(operation) => match operation.applied(value) {
                Ok(folded) => Ok(folded),
                Err(fault) => Err(ParseFault::InvalidOperation(fault)),
            },
        },
    }
}

/// The value of a frame that a group-close symbol ends.
pub open spec fn group_closed(result: Option<usize>) -> Result<usize, ParseFault> {
    match result {
        Some(value) => Ok(value),
        None => Err(ParseFault::IllegalState(missing_result_text())),
    }
}

/// The value of a frame that runs out of symbols.
pub open spec fn input_ended(result: Option<usize>) -> Result<usize, ParseFault> {
    match result {
        Some(value) => Ok(value),
        None => Err(ParseFault::EmptyExpression),
    }
}

/// What a symbol does to the frame that reads it.
pub enum Step {
    /// The frame goes on to the next symbol, as the frame given here.
    Continue(Frame),
    /// The symbol opens a group. The frame given here waits for the group's value.
    Open(Frame),
    /// The frame ends with this value or error.
    End(Result<usize, ParseFault>),
}

/// Acts on `symbol` in `frame`. The symbol first takes the frame to its next state, and an
/// illegal symbol ends the frame there, before anything else is looked at. Then:
///
/// - a digit of a first operand joins the accumulator, and the accumulator, read anew,
///   is the running result;
/// - a digit of a second operand joins the accumulator, and the pending operation applied
///   to the accumulator is the running result;
/// - an operation code starts a new pending operation;
/// - a group-open symbol opens a group;
/// - a group-close symbol ends the frame with the running result;
/// - anything else ends the frame with an error.
pub open spec fn step(frame: Frame, symbol: char) -> Step {
    match next_state(frame.state, symbol, frame.accumulator) {
        Err(fault) => Step::End(Err(fault)),
        Ok(state) => {
            let accumulator = accumulator_after(symbol, frame.accumulator);
            if is_digit(symbol) && state == ParserState::FirstOperand {
                let text = accumulator.push(symbol);
                match first_operand_read(text) {
                    Err(fault) => Step::End(Err(fault)),
                    Ok(value) => Step::Continue(
                        Frame { state, accumulator: text, result: Some(value), ..frame },
                    ),
                }
            } else if is_digit(symbol) && state == ParserState::SecondOperand {
                let text = accumulator.push(symbol);
                match second_operand_applied(frame.operation, text) {
                    Err(fault) => Step::End(Err(fault)),
                    Ok(value) => Step::Continue(
                        Frame { state, accumulator: text, result: Some(value), ..frame },
                    ),
                }
            } else if is_operator_code(symbol) && state == ParserState::Operation {
                match operation_started(symbol, accumulator, frame.result) {
                    Err(fault) => Step::End(Err(fault)),
                    Ok(operation) => Step::Continue(
                        Frame {
                            state,
                            operation: Some(operation),
                            accumulator: Seq::empty(),
                            ..frame
                        },
                    ),
                }
            } else if symbol == OPCODE_OPEN {
                Step::Open(Frame { state, accumulator, ..frame })
            } else if symbol == OPCODE_CLOSE && state == ParserState::CloseParenthesis {
                Step::End(group_closed(frame.result))
            } else {
                Step::End(
                    Err(ParseFault::UnexpectedSymbol(symbol_text(symbol), state, frame.operation)),
                )
            }
        },
    }
}

/// Runs one frame: reads `symbols` from `position` on, starting from `frame`, until the
/// frame ends.
///
/// A group is a frame of its own. It starts afresh, with no running result: nothing of the
/// frame that opened it goes into it, so a group that closes before it has read an operand
/// has no value. It hands its value back to the frame that opened it. Where an operation
/// code follows the group, that frame goes on, in the state of a first operand and with
/// the value as its running result. Otherwise it ends with the value at once, and leaves
/// the symbol that follows unread.
#[verifier::opaque]
pub open spec fn run_frame(symbols: Seq<char>, position: nat, frame: Frame) -> FrameEnd
    decreases symbols.len() - position,
{
    if position >= symbols.len() {
        FrameEnd { outcome: input_ended(frame.result), position }
    } else {
        let after = position + 1;
        match step(frame, symbols[position as int]) {
            Step::End(outcome) => FrameEnd { outcome, position: after },
            Step::Continue(next) => run_frame(symbols, after, next),
            Step::Open(waiting) => {
                let group = run_frame(symbols, after, Frame::opening(None));
                match group_folded(waiting.operation, group.outcome) {
                    Err(fault) => FrameEnd { outcome: Err(fault), position: group.position },
                    Ok(value) => {
                        if position < group.position < symbols.len() && is_operator_code(
                            symbols[group.position as int],
                        ) {
                            run_frame(
                                symbols,
                                group.position,
                                Frame {
                                    state: ParserState::FirstOperand,
                                    result: Some(value),
                                    ..waiting
                                },
                            )
                        } else {
                            FrameEnd { outcome: Ok(value), position: group.position }
                        }
                    },
                }
            },
        }
    }
}

/// Runs frame after frame from `position` until no symbol is left. Each frame starts with
/// the value of the one before it as its running result, and the last value is the
/// expression's.
pub open spec fn run_frames(symbols: Seq<char>, position: nat, result: Option<usize>) -> Result<
    usize,
    ParseFault,
>
    decreases symbols.len() - position,
{
    if position >= symbols.len() {
        input_ended(result)
    } else {
        let end = run_frame(symbols, position, Frame::opening(result));
        match end.outcome {
            Err(fault) => Err(fault),
            Ok(value) => if position < end.position <= symbols.len() {
                run_frames(symbols, end.position, Some(value))
            } else {
                Ok(value)
            },
        }
    }
}

/// The value of the expression `symbols`, or the error that it is turned down with.
///
/// The group-open and group-close symbols are counted first, over the whole expression,
/// and a surplus of either is reported with the symbol in excess before any symbol is read.
pub open spec fn evaluate(symbols: Seq<char>) -> Result<usize, ParseFault> {
    let opened = occurrences(symbols, OPCODE_OPEN);
    let closed = occurrences(symbols, OPCODE_CLOSE);
    if opened > closed {
        Err(ParseFault::UnbalancedParenthesis(symbol_text(OPCODE_OPEN)))
    } else if closed > opened {
        Err(ParseFault::UnbalancedParenthesis(symbol_text(OPCODE_CLOSE)))
    } else {
        run_frames(symbols, 0, None)
    }
}

/// A frame reads at least one symbol, unless none is left, and never reads past the end.
pub proof fn lemma_frame_advances(symbols: Seq<char>, position: nat, frame: Frame)
    requires
        position <= symbols.len(),
    ensures
        run_frame(symbols, position, frame).position <= symbols.len(),
        position < symbols.len() ==> position < run_frame(symbols, position, frame).position,
        position == symbols.len() ==> run_frame(symbols, position, frame).position == position,
    decreases symbols.len() - position,
{
    reveal(run_frame);
    if position < symbols.len() {
        let after = position + 1;
        match step(frame, symbols[position as int]) {
            Step::End(_) => {},
            Step::Continue(next) => {
                lemma_frame_advances(symbols, after, next);
            },
            Step::Open(waiting) => {
                lemma_frame_advances(symbols, after, Frame::opening(None));
                let group = run_frame(symbols, after, Frame::opening(None));
                if let Ok(value) = group_folded(waiting.operation, group.outcome) {
                    if group.position < symbols.len() {
                        lemma_frame_advances(
                            symbols,
                            group.position,
                            Frame {
                                state: ParserState::FirstOperand,
                                result: Some(value),
                                ..waiting
                            },
                        );
                    }
                }
            },
        }
    }
}

} // verus!
