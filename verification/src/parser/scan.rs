//! Reading a stretch of symbols within a single frame: how a frame's run on the symbols
//! of an expression decomposes into the runs on its parts, and what a run of digits
//! comes to.

use vstd::prelude::*;

use crate::operand::{
    decimal_value, is_digit, is_digit_run, lemma_digit_run_is_unsigned, lemma_leading_digit,
    lemma_one_digit, lemma_shorter_run_is_smaller, operand_fault_text,
};
use crate::operation::{Operation, OperationFault};
use crate::parser::model::{
    first_operand_read, run_frame, second_operand_applied, step, Frame, FrameEnd, Step,
};
use crate::parser::{ParseFault, ParserState};

verus! {

/// Reads `symbols` one after the other in a single frame that starts as `frame`: the frame
/// after the last of them, or how the frame stopped before: at its end, or at the first
/// group that it opened.
pub open spec fn scan(frame: Frame, symbols: Seq<char>) -> Step
    decreases symbols.len(),
{
    if symbols.len() == 0 {
        Step::Continue(frame)
    } else {
        match scan(frame, symbols.drop_last()) {
            Step::Continue(reached) => step(reached, symbols.last()),
            stopped => stopped,
        }
    }
}

/// Scanning a text in two parts: the second part is read in the frame that the first one
/// reached, unless the frame stopped there.
pub proof fn lemma_scan_in_parts(frame: Frame, head: Seq<char>, tail: Seq<char>)
    ensures
        scan(frame, head + tail) == match scan(frame, head) {
            Step::Continue(reached) => scan(reached, tail),
            stopped => stopped,
        },
    decreases tail.len(),
{
    if tail.len() == 0 {
        assert(head + tail == head);
    } else {
        assert((head + tail).drop_last() == head + tail.drop_last());
        assert((head + tail).last() == tail.last());
        lemma_scan_in_parts(frame, head, tail.drop_last());
    }
}

/// A frame that runs on `symbols` from `position` reads the next `count` of them as
/// [`scan`] does: it goes on from the frame that the scan reached, or ends as the scan
/// ended.
pub proof fn lemma_run_scanned(symbols: Seq<char>, position: nat, frame: Frame, count: nat)
    requires
        position + count <= symbols.len(),
    ensures
        match scan(frame, symbols.subrange(position as int, (position + count) as int)) {
            Step::Continue(reached) => run_frame(symbols, position, frame) == run_frame(
                symbols,
                position + count,
                reached,
            ),
            Step::End(outcome) => run_frame(symbols, position, frame).outcome == outcome,
            Step::Open(_) => true,
        },
    decreases count,
{
    let part = symbols.subrange(position as int, (position + count) as int);
    if count > 0 {
        let shorter = (count - 1) as nat;
        assert(part.drop_last() == symbols.subrange(position as int, (position + shorter) as int));
        assert(part.last() == symbols[(position + shorter) as int]);
        lemma_run_scanned(symbols, position, frame, shorter);
        match scan(frame, part.drop_last()) {
            Step::Continue(reached) => {
                reveal(run_frame);
                assert(run_frame(symbols, position + shorter, reached) == match step(
                    reached,
                    symbols[(position + shorter) as int],
                ) {
                    Step::End(outcome) => FrameEnd { outcome, position: position + count },
                    Step::Continue(next) => run_frame(symbols, position + count, next),
                    Step::Open(waiting) => run_frame(symbols, position + shorter, reached),
                });
            },
            _ => {},
        }
    }
}

/// The running result after the digits of a first operand. The accumulator is read anew
/// at every digit, so the first of its beginnings that is no operand decides.
pub open spec fn first_operand_scanned(digits: Seq<char>) -> Result<usize, ParseFault>
    decreases digits.len(),
{
    if digits.len() <= 1 {
        first_operand_read(digits)
    } else {
        match first_operand_scanned(digits.drop_last()) {
            Err(fault) => Err(fault),
            Ok(_) => first_operand_read(digits),
        }
    }
}

/// The running result after the digits of a second operand. The pending operation is
/// applied to the accumulator at every digit, so the first of its beginnings on which
/// that fails decides.
pub open spec fn second_operand_scanned(operation: Operation, digits: Seq<char>) -> Result<
    usize,
    ParseFault,
>
    decreases digits.len(),
{
    if digits.len() <= 1 {
        second_operand_applied(Some(operation), digits)
    } else {
        match second_operand_scanned(operation, digits.drop_last()) {
            Err(fault) => Err(fault),
            Ok(_) => second_operand_applied(Some(operation), digits),
        }
    }
}

/// A frame that expects a first operand and has an empty accumulator reads a run of
/// digits as [`first_operand_scanned`] says, and keeps the digits in its accumulator.
pub proof fn lemma_scan_first_operand(frame: Frame, digits: Seq<char>)
    requires
        frame.state == ParserState::FirstOperand,
        frame.accumulator.len() == 0,
        digits.len() > 0,
        is_digit_run(digits),
    ensures
        scan(frame, digits) == match first_operand_scanned(digits) {
            Ok(value) => Step::Continue(
                Frame { accumulator: digits, result: Some(value), ..frame },
            ),
            Err(fault) => Step::End(Err(fault)),
        },
    decreases digits.len(),
{
    let last = digits.last();
    assert(is_digit(last));
    if digits.len() == 1 {
        assert(scan(frame, digits.drop_last()) == Step::Continue(frame));
        assert(frame.accumulator == Seq::<char>::empty());
        assert(frame.accumulator.push(last) == digits);
    } else {
        assert(is_digit_run(digits.drop_last()));
        lemma_scan_first_operand(frame, digits.drop_last());
        assert(digits.drop_last().push(last) == digits);
    }
}

/// A frame whose operation waits for its second operand reads a run of digits as
/// [`second_operand_scanned`] says, and keeps the digits in its accumulator.
pub proof fn lemma_scan_second_operand(frame: Frame, operation: Operation, digits: Seq<char>)
    requires
        frame.state == ParserState::Operation,
        frame.operation == Some(operation),
        frame.accumulator.len() == 0,
        digits.len() > 0,
        is_digit_run(digits),
    ensures
        scan(frame, digits) == match second_operand_scanned(operation, digits) {
            Ok(value) => Step::Continue(
                Frame {
                    state: ParserState::SecondOperand,
                    accumulator: digits,
                    result: Some(value),
                    ..frame
                },
            ),
            Err(fault) => Step::End(Err(fault)),
        },
    decreases digits.len(),
{
    let last = digits.last();
    assert(is_digit(last));
    if digits.len() == 1 {
        assert(scan(frame, digits.drop_last()) == Step::Continue(frame));
        assert(frame.accumulator == Seq::<char>::empty());
        assert(frame.accumulator.push(last) == digits);
    } else {
        assert(is_digit_run(digits.drop_last()));
        lemma_scan_second_operand(frame, operation, digits.drop_last());
        assert(digits.drop_last().push(last) == digits);
    }
}

/// The shortest beginning of `digits` that denotes more than a `usize` can hold; `digits`
/// itself where there is none.
pub open spec fn shortest_wide_prefix(digits: Seq<char>) -> Seq<char>
    decreases digits.len(),
{
    if digits.len() > 0 && decimal_value(digits.drop_last()) > usize::MAX {
        shortest_wide_prefix(digits.drop_last())
    } else {
        digits
    }
}

/// What the digits of a first operand come to. Where they denote a number that fits, it
/// is the running result. Where they do not, the error is that of a digit run too wide,
/// and it holds the digits up to the first one with which the number no longer fit.
pub proof fn law_first_operand(digits: Seq<char>)
    requires
        digits.len() > 0,
        is_digit_run(digits),
    ensures
        first_operand_scanned(digits) == if decimal_value(digits) <= usize::MAX {
            Ok::<usize, ParseFault>(decimal_value(digits) as usize)
        } else {
            Err::<usize, ParseFault>(
                ParseFault::ParseDigitError(
                    shortest_wide_prefix(digits),
                    operand_fault_text(shortest_wide_prefix(digits)),
                ),
            )
        },
    decreases digits.len(),
{
    lemma_digit_run_is_unsigned(digits);
    if digits.len() == 1 {
        lemma_one_digit(digits);
    } else {
        let shorter = digits.drop_last();
        assert(is_digit_run(shorter));
        law_first_operand(shorter);
        lemma_shorter_run_is_smaller(digits);
    }
}

/// What the digits of a second operand come to where they denote a number that fits: the
/// value of the pending operation on that number, if it has one that fits; for a
/// division, if moreover the digits do not start with a zero, since the operation is
/// applied to that zero before the next digit is read. Otherwise the error is that of an
/// operation that overflowed.
pub proof fn law_second_operand(operation: Operation, digits: Seq<char>)
    requires
        digits.len() > 0,
        is_digit_run(digits),
        decimal_value(digits) <= usize::MAX,
    ensures
        second_operand_scanned(operation, digits) == if operation.defined(
            decimal_value(digits) as usize,
        ) && (operation is Div ==> digits[0] != '0') {
            Ok::<usize, ParseFault>(operation.exact(decimal_value(digits) as usize) as usize)
        } else {
            Err::<usize, ParseFault>(ParseFault::InvalidOperation(OperationFault::OverflowError))
        },
    decreases digits.len(),
{
    lemma_digit_run_is_unsigned(digits);
    lemma_leading_digit(digits);
    assert(is_digit(digits[0]));
    let value = decimal_value(digits) as usize;
    if digits.len() == 1 {
        lemma_one_digit(digits);
    } else {
        let shorter = digits.drop_last();
        let less = decimal_value(shorter) as usize;
        assert(is_digit_run(shorter));
        lemma_shorter_run_is_smaller(digits);
        lemma_leading_digit(shorter);
        law_second_operand(operation, shorter);
        if operation.defined(value) && (operation is Div ==> digits[0] != '0') {
            match operation {
                Operation::Mul(first_operand) => {
                    assert(first_operand * less <= first_operand * value) by (nonlinear_arith)
                        requires
                            less <= value,
                    ;
                    assert(0 <= first_operand * less) by (nonlinear_arith);
                },
                Operation::Div(first_operand) => {
                    assert(less > 0);
                    assert(0 <= first_operand as int / less as int <= first_operand)
                        by (nonlinear_arith)
                        requires
                            less > 0,
                    ;
                },
                _ => {},
            }
            assert(operation.defined(less));
        }
    }
}

/// The longest beginning of `digits` that denotes a number which a `usize` can hold;
/// `digits` itself where the whole of it does.
pub open spec fn longest_fitting_prefix(digits: Seq<char>) -> Seq<char> {
    if decimal_value(digits) > usize::MAX {
        shortest_wide_prefix(digits).drop_last()
    } else {
        digits
    }
}

/// What the digits of a second operand come to where they denote a number too wide for a
/// `usize`. The pending operation is applied to every beginning of the digits in turn, so
/// it is first applied to those that fit. Where it has a value on the longest of them,
/// and, for a division, the digits do not start with a zero, the digit after it ends the
/// parse with the error of an invalid second operand, which holds the digits up to that
/// one. Otherwise the operation failed before, with the error of an operation that
/// overflowed.
pub proof fn law_wide_second_operand(operation: Operation, digits: Seq<char>)
    requires
        digits.len() > 0,
        is_digit_run(digits),
        decimal_value(digits) > usize::MAX,
    ensures
        longest_fitting_prefix(digits).len() > 0,
        decimal_value(longest_fitting_prefix(digits)) <= usize::MAX,
        second_operand_scanned(operation, digits) == if operation.defined(
            decimal_value(longest_fitting_prefix(digits)) as usize,
        ) && (operation is Div ==> digits[0] != '0') {
            Err::<usize, ParseFault>(
                ParseFault::InvalidOperation(
                    OperationFault::InvalidSecondOperand(
                        shortest_wide_prefix(digits),
                        operand_fault_text(shortest_wide_prefix(digits)),
                    ),
                ),
            )
        } else {
            Err::<usize, ParseFault>(ParseFault::InvalidOperation(OperationFault::OverflowError))
        },
    decreases digits.len(),
{
    lemma_digit_run_is_unsigned(digits);
    if digits.len() == 1 {
        lemma_one_digit(digits);
    } else {
        let shorter = digits.drop_last();
        assert(is_digit_run(shorter));
        assert(shorter[0] == digits[0]);
        if decimal_value(shorter) > usize::MAX {
            law_wide_second_operand(operation, shorter);
        } else {
            law_second_operand(operation, shorter);
        }
    }
}

} // verus!
