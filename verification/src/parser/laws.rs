//! Laws of the parser: what [`evaluate`] gives for whole families of expressions.

use vstd::prelude::*;

use crate::operand::{decimal_value, is_digit_run, operand_fault_text};
use crate::operation::codes::{is_operator_code, OPCODE_CLOSE, OPCODE_OPEN};
use crate::operation::{outcome, Operation, OperationFault};
use crate::parser::chain::{
    are_terms, chain_frame, chain_text, chain_value, is_chain, lemma_chain_symbols,
    lemma_error_stays, lemma_scan_chain, lemma_scan_terms, lemma_terms_but_last,
    lemma_terms_symbols, terms_frame, terms_text, terms_value, Term,
};
use crate::parser::cursor::occurrences;
use crate::parser::model::{
    evaluate, group_folded, input_ended, missing_operand_text, missing_operation_text,
    missing_result_text, lemma_frame_advances, next_state, run_frame, run_frames, step,
    symbol_text, Frame, FrameEnd, Step,
};
use crate::parser::scan::{
    first_operand_scanned, law_first_operand, law_second_operand, law_wide_second_operand,
    lemma_run_scanned, longest_fitting_prefix, scan, shortest_wide_prefix,
};
use crate::parser::{ParseError, ParseFault, ParserState};

verus! {

/// The empty expression has no value: it is turned down as empty.
pub proof fn law_empty_expression(symbols: Seq<char>)
    requires
        symbols.len() == 0,
    ensures
        evaluate(symbols) == Err::<usize, ParseFault>(ParseFault::EmptyExpression),
{
    assert(occurrences(symbols, OPCODE_OPEN) == 0);
    assert(occurrences(symbols, OPCODE_CLOSE) == 0);
}

/// An expression with more group-open than group-close symbols is turned down as
/// unbalanced, and the error names the group-open symbol, whatever else the expression
/// holds.
pub proof fn law_surplus_of_opens(symbols: Seq<char>)
    requires
        occurrences(symbols, OPCODE_OPEN) > occurrences(symbols, OPCODE_CLOSE),
    ensures
        evaluate(symbols) == Err::<usize, ParseFault>(
            ParseFault::UnbalancedParenthesis(symbol_text(OPCODE_OPEN)),
        ),
{
}

/// An expression with more group-close than group-open symbols is turned down as
/// unbalanced, and the error names the group-close symbol, whatever else the expression
/// holds.
pub proof fn law_surplus_of_closes(symbols: Seq<char>)
    requires
        occurrences(symbols, OPCODE_CLOSE) > occurrences(symbols, OPCODE_OPEN),
    ensures
        evaluate(symbols) == Err::<usize, ParseFault>(
            ParseFault::UnbalancedParenthesis(symbol_text(OPCODE_CLOSE)),
        ),
{
}

/// Parsing keeps nothing from one parse to the next: two parses of the same expression
/// end alike, with the same value or with the same error and the same texts in it.
pub proof fn law_same_expression_same_outcome(
    symbols: Seq<char>,
    first: Result<usize, ParseError>,
    second: Result<usize, ParseError>,
)
    requires
        outcome(first) == evaluate(symbols),
        outcome(second) == evaluate(symbols),
    ensures
        outcome(first) == outcome(second),
        first is Ok ==> first == second,
{
}

/// A symbol that does not occur in a text occurs there zero times.
pub proof fn lemma_absent_symbol(symbols: Seq<char>, symbol: char)
    requires
        forall|i: int| 0 <= i < symbols.len() ==> symbols[i] != symbol,
    ensures
        occurrences(symbols, symbol) == 0,
    decreases symbols.len(),
{
    if symbols.len() > 0 {
        lemma_absent_symbol(symbols.drop_last(), symbol);
    }
}

/// A symbol occurs in a text of two parts as often as in both parts together.
pub proof fn lemma_occurrences_in_parts(head: Seq<char>, tail: Seq<char>, symbol: char)
    ensures
        occurrences(head + tail, symbol) == occurrences(head, symbol) + occurrences(tail, symbol),
    decreases tail.len(),
{
    if tail.len() == 0 {
        assert(head + tail == head);
    } else {
        assert((head + tail).drop_last() == head + tail.drop_last());
        lemma_occurrences_in_parts(head, tail.drop_last(), symbol);
    }
}

/// A chain holds no group symbol.
pub proof fn lemma_chain_has_no_group(first: Seq<char>, terms: Seq<Term>)
    requires
        is_chain(first, terms),
    ensures
        occurrences(chain_text(first, terms), OPCODE_OPEN) == 0,
        occurrences(chain_text(first, terms), OPCODE_CLOSE) == 0,
{
    lemma_chain_symbols(first, terms);
    lemma_absent_symbol(chain_text(first, terms), OPCODE_OPEN);
    lemma_absent_symbol(chain_text(first, terms), OPCODE_CLOSE);
}

/// A frame that reads all of an expression without stopping before its end gives the
/// expression its value, once the group symbols are known to balance; and so does the
/// error of a frame that stops before.
pub proof fn lemma_single_frame(symbols: Seq<char>)
    requires
        symbols.len() > 0,
        occurrences(symbols, OPCODE_OPEN) == occurrences(symbols, OPCODE_CLOSE),
    ensures
        match scan(Frame::opening(None), symbols) {
            Step::Continue(reached) => evaluate(symbols) == input_ended(reached.result),
            Step::End(outcome) => outcome is Err ==> evaluate(symbols) == outcome,
            Step::Open(_) => true,
        },
{
    let opening = Frame::opening(None);
    lemma_run_scanned(symbols, 0, opening, symbols.len());
    assert(symbols.subrange(0, symbols.len() as int) == symbols);
    lemma_frame_advances(symbols, 0, opening);
    match scan(opening, symbols) {
        Step::Continue(reached) => {
            reveal(run_frame);
            assert(run_frame(symbols, symbols.len(), reached) == FrameEnd {
                outcome: input_ended(reached.result),
                position: symbols.len(),
            });
            assert(run_frames(symbols, symbols.len(), reached.result) == input_ended(
                reached.result,
            ));
        },
        _ => {},
    }
}

/// An expression without groups is evaluated strictly from left to right, with no
/// precedence among the operations: its value is that of the chain it is.
pub proof fn law_left_to_right(first: Seq<char>, terms: Seq<Term>)
    requires
        is_chain(first, terms),
    ensures
        evaluate(chain_text(first, terms)) == chain_value(first, terms),
{
    lemma_chain_symbols(first, terms);
    lemma_chain_has_no_group(first, terms);
    lemma_scan_chain(None, first, terms);
    lemma_single_frame(chain_text(first, terms));
}

/// The first operand of a chain that denotes more than a `usize` can hold ends the parse
/// with the error of a digit run too wide, whatever terms come after it. The error holds
/// the digits up to the first one with which the number no longer fit.
pub proof fn law_wide_first_operand(first: Seq<char>, terms: Seq<Term>)
    requires
        is_chain(first, terms),
        decimal_value(first) > usize::MAX,
    ensures
        evaluate(chain_text(first, terms)) == Err::<usize, ParseFault>(
            ParseFault::ParseDigitError(
                shortest_wide_prefix(first),
                operand_fault_text(shortest_wide_prefix(first)),
            ),
        ),
{
    law_left_to_right(first, terms);
    law_first_operand(first);
    lemma_error_stays(first_operand_scanned(first)->Err_0, terms);
}

/// An operation of a chain that has no value which fits, on an operand which itself does
/// fit, ends the parse with the error of an operation that overflowed: never with that of
/// a digit run too wide. Here `value` is what the chain is worth before its last term, and
/// `operation` is that of the last term.
pub proof fn law_overflowing_operation(
    first: Seq<char>,
    terms: Seq<Term>,
    value: usize,
    operation: Operation,
)
    requires
        is_chain(first, terms),
        terms.len() > 0,
        chain_value(first, terms.drop_last()) == Ok::<usize, ParseFault>(value),
        Operation::with_code(terms.last().code, value) == Ok::<Operation, OperationFault>(
            operation,
        ),
        decimal_value(terms.last().digits) <= usize::MAX,
        !operation.defined(decimal_value(terms.last().digits) as usize),
    ensures
        evaluate(chain_text(first, terms)) == Err::<usize, ParseFault>(
            ParseFault::InvalidOperation(OperationFault::OverflowError),
        ),
{
    law_left_to_right(first, terms);
    lemma_terms_but_last(terms);
    law_second_operand(operation, terms.last().digits);
}

/// An operand of a chain, after the first, that denotes more than a `usize` can hold ends
/// the parse with one of two errors, and which one is settled by the digits that still
/// fit: where the operation has a value on the longest beginning of the digits that fits,
/// and, for a division, the digits do not start with a zero, it is the error of an invalid
/// second operand, which holds the digits up to the first one with which the number no
/// longer fit; otherwise it is the error of an operation that overflowed. It is never the
/// error of a digit run too wide, which is kept for the first operand. Here `value` is
/// what the chain is worth before its last term, and `operation` is that of the last term.
pub proof fn law_wide_later_operand(
    first: Seq<char>,
    terms: Seq<Term>,
    value: usize,
    operation: Operation,
)
    requires
        is_chain(first, terms),
        terms.len() > 0,
        chain_value(first, terms.drop_last()) == Ok::<usize, ParseFault>(value),
        Operation::with_code(terms.last().code, value) == Ok::<Operation, OperationFault>(
            operation,
        ),
        decimal_value(terms.last().digits) > usize::MAX,
    ensures
        evaluate(chain_text(first, terms)) == if operation.defined(
            decimal_value(longest_fitting_prefix(terms.last().digits)) as usize,
        ) && (operation is Div ==> terms.last().digits[0] != '0') {
            Err::<usize, ParseFault>(
                ParseFault::InvalidOperation(
                    OperationFault::InvalidSecondOperand(
                        shortest_wide_prefix(terms.last().digits),
                        operand_fault_text(shortest_wide_prefix(terms.last().digits)),
                    ),
                ),
            )
        } else {
            Err::<usize, ParseFault>(ParseFault::InvalidOperation(OperationFault::OverflowError))
        },
{
    law_left_to_right(first, terms);
    lemma_terms_but_last(terms);
    law_wide_second_operand(operation, terms.last().digits);
}

/// A symbol occurs once more in a text to which it is added, and as often as before in
/// one to which another symbol is added.
pub proof fn lemma_occurrences_with_one_more(symbols: Seq<char>, added: char, symbol: char)
    ensures
        occurrences(symbols.push(added), symbol) == occurrences(symbols, symbol) + if added
            == symbol {
            1nat
        } else {
            0nat
        },
{
    assert(symbols.push(added).drop_last() == symbols);
}

/// A symbol that is not legal where it stands ends the parse, and the error names that
/// very symbol, whatever comes after it. Here `head` is a beginning of the expression
/// that a single frame reads without ending, and `reached` is the frame after it.
pub proof fn law_illegal_symbol(head: Seq<char>, reached: Frame, symbol: char, tail: Seq<char>)
    requires
        scan(Frame::opening(None), head) == Step::Continue(reached),
        next_state(reached.state, symbol, reached.accumulator) is Err,
        occurrences(head.push(symbol) + tail, OPCODE_OPEN) == occurrences(
            head.push(symbol) + tail,
            OPCODE_CLOSE,
        ),
    ensures
        evaluate(head.push(symbol) + tail) == Err::<usize, ParseFault>(
            ParseFault::MalformedExpression(symbol_text(symbol)),
        ),
{
    let symbols = head.push(symbol) + tail;
    let opening = Frame::opening(None);
    lemma_run_scanned(symbols, 0, opening, head.len() + 1);
    assert(symbols.subrange(0, head.len() + 1 as int) == head.push(symbol));
    assert(head.push(symbol).drop_last() == head);
    assert(scan(opening, head.push(symbol)) == step(reached, symbol));
}

/// An operation code that directly follows another one is turned down as malformed, and
/// the error names the second of the two, whatever comes after it.
pub proof fn law_doubled_operator(
    first: Seq<char>,
    terms: Seq<Term>,
    code: char,
    doubled: char,
    tail: Seq<char>,
)
    requires
        is_chain(first, terms),
        chain_value(first, terms) is Ok,
        is_operator_code(code),
        is_operator_code(doubled),
        occurrences(tail, OPCODE_OPEN) == occurrences(tail, OPCODE_CLOSE),
    ensures
        evaluate(chain_text(first, terms).push(code).push(doubled) + tail) == Err::<
            usize,
            ParseFault,
        >(ParseFault::MalformedExpression(symbol_text(doubled))),
{
    let chain = chain_text(first, terms);
    let head = chain.push(code);
    let opening = Frame::opening(None);
    lemma_scan_chain(None, first, terms);
    let reached = chain_frame(None, first, terms);
    assert(head.drop_last() == chain);
    assert(scan(opening, head) == step(reached, code));
    let waiting = step(reached, code)->Continue_0;
    assert(step(reached, code) is Continue);
    assert(waiting.state == ParserState::Operation && waiting.accumulator.len() == 0);
    lemma_chain_has_no_group(first, terms);
    lemma_occurrences_with_one_more(chain, code, OPCODE_OPEN);
    lemma_occurrences_with_one_more(chain, code, OPCODE_CLOSE);
    lemma_occurrences_with_one_more(head, doubled, OPCODE_OPEN);
    lemma_occurrences_with_one_more(head, doubled, OPCODE_CLOSE);
    lemma_occurrences_in_parts(head.push(doubled), tail, OPCODE_OPEN);
    lemma_occurrences_in_parts(head.push(doubled), tail, OPCODE_CLOSE);
    law_illegal_symbol(head, waiting, doubled, tail);
}

/// The text of `count` times the symbol `symbol`.
pub open spec fn repeated(symbol: char, count: nat) -> Seq<char> {
    Seq::new(count, |i: int| symbol)
}

/// The expression `inner` within `depth` groups, one inside the other.
pub open spec fn nested(depth: nat, inner: Seq<char>) -> Seq<char> {
    repeated(OPCODE_OPEN, depth) + inner + repeated(OPCODE_CLOSE, depth)
}

/// A repeated symbol occurs as often as it is repeated, and no other symbol occurs.
pub proof fn lemma_occurrences_of_repeated(repeat: char, count: nat, symbol: char)
    ensures
        occurrences(repeated(repeat, count), symbol) == if repeat == symbol {
            count
        } else {
            0
        },
    decreases count,
{
    if count > 0 {
        assert(repeated(repeat, count).drop_last() == repeated(repeat, (count - 1) as nat));
        lemma_occurrences_of_repeated(repeat, (count - 1) as nat, symbol);
    }
}

/// Frames that have nothing left to read but group-close symbols end one after the
/// other, each with the running result it was handed, which is the expression's value.
pub proof fn lemma_trailing_closes(symbols: Seq<char>, position: nat, value: usize)
    requires
        position <= symbols.len(),
        forall|i: int| position <= i < symbols.len() ==> symbols[i] == OPCODE_CLOSE,
    ensures
        run_frames(symbols, position, Some(value)) == Ok::<usize, ParseFault>(value),
    decreases symbols.len() - position,
{
    if position < symbols.len() {
        let opening = Frame::opening(Some(value));
        assert(run_frame(symbols, position, opening) == FrameEnd {
            outcome: Ok(value),
            position: position + 1,
        }) by {
            reveal(run_frame);
            assert(symbols[position as int] == OPCODE_CLOSE);
        }
        lemma_trailing_closes(symbols, position + 1, value);
    }
}

/// A frame that opens a group at once, with no running result, and finds no operation
/// code behind the group ends as the group ended.
pub proof fn lemma_frame_around_group(symbols: Seq<char>, position: nat)
    requires
        position < symbols.len(),
        symbols[position as int] == OPCODE_OPEN,
        ({
            let group = run_frame(symbols, position + 1, Frame::opening(None));
            group.outcome is Ok && group.position < symbols.len() ==> !is_operator_code(
                symbols[group.position as int],
            )
        }),
    ensures
        run_frame(symbols, position, Frame::opening(None)) == run_frame(
            symbols,
            position + 1,
            Frame::opening(None),
        ),
{
    let opening = Frame::opening(None);
    reveal(run_frame);
    assert(step(opening, OPCODE_OPEN) == Step::Open(opening));
}

/// The frames of groups that are opened one directly after the other all end as the
/// innermost of them ended, if that one ended in front of a group-close symbol or with an
/// error.
pub proof fn lemma_frames_around_groups(symbols: Seq<char>, depth: nat, position: nat)
    requires
        position <= depth < symbols.len(),
        forall|i: int| 0 <= i < depth ==> symbols[i] == OPCODE_OPEN,
        ({
            let innermost = run_frame(symbols, depth, Frame::opening(None));
            innermost.outcome is Ok && innermost.position < symbols.len() ==> symbols[innermost.position as int]
                == OPCODE_CLOSE
        }),
    ensures
        run_frame(symbols, position, Frame::opening(None)) == run_frame(
            symbols,
            depth,
            Frame::opening(None),
        ),
    decreases depth - position,
{
    if position < depth {
        lemma_frames_around_groups(symbols, depth, position + 1);
        lemma_frame_around_group(symbols, position);
    }
}

/// Groups around a whole expression, however many, one inside the other, change nothing:
/// a chain within them has the value that it has alone.
pub proof fn law_groups_are_transparent(depth: nat, first: Seq<char>, terms: Seq<Term>)
    requires
        is_chain(first, terms),
    ensures
        evaluate(nested(depth, chain_text(first, terms))) == chain_value(first, terms),
{
    let chain = chain_text(first, terms);
    let symbols = nested(depth, chain);
    let opens = repeated(OPCODE_OPEN, depth);
    let closes = repeated(OPCODE_CLOSE, depth);
    if depth == 0 {
        assert(symbols == chain);
        law_left_to_right(first, terms);
    } else {
        lemma_chain_symbols(first, terms);
        assert(occurrences(symbols, OPCODE_OPEN) == occurrences(symbols, OPCODE_CLOSE)) by {
            lemma_chain_has_no_group(first, terms);
            lemma_occurrences_in_parts(opens + chain, closes, OPCODE_OPEN);
            lemma_occurrences_in_parts(opens + chain, closes, OPCODE_CLOSE);
            lemma_occurrences_in_parts(opens, chain, OPCODE_OPEN);
            lemma_occurrences_in_parts(opens, chain, OPCODE_CLOSE);
            lemma_occurrences_of_repeated(OPCODE_OPEN, depth, OPCODE_OPEN);
            lemma_occurrences_of_repeated(OPCODE_OPEN, depth, OPCODE_CLOSE);
            lemma_occurrences_of_repeated(OPCODE_CLOSE, depth, OPCODE_OPEN);
            lemma_occurrences_of_repeated(OPCODE_CLOSE, depth, OPCODE_CLOSE);
        }
        let opening = Frame::opening(None);
        let closing = depth + chain.len();
        let innermost = run_frame(symbols, depth, opening);
        assert(symbols.subrange(depth as int, closing as int) == chain);
        assert(symbols[closing as int] == OPCODE_CLOSE);
        lemma_run_scanned(symbols, depth, opening, chain.len());
        lemma_scan_chain(None, first, terms);
        if let Ok(value) = chain_value(first, terms) {
            let reached = chain_frame(None, first, terms);
            assert(run_frame(symbols, closing, reached) == FrameEnd {
                outcome: Ok(value),
                position: closing + 1,
            }) by {
                reveal(run_frame);
            }
            assert(innermost.position < symbols.len() ==> symbols[innermost.position as int]
                == OPCODE_CLOSE);
            lemma_trailing_closes(symbols, closing + 1, value);
        }
        assert(innermost.outcome == chain_value(first, terms));
        lemma_frames_around_groups(symbols, depth, 0);
    }
}

/// A single operand within groups, however many, is worth what it denotes.
pub proof fn law_nested_operand(depth: nat, digits: Seq<char>)
    requires
        digits.len() > 0,
        is_digit_run(digits),
        decimal_value(digits) <= usize::MAX,
    ensures
        evaluate(nested(depth, digits)) == Ok::<usize, ParseFault>(decimal_value(digits) as usize),
{
    let terms = Seq::<Term>::empty();
    assert(chain_text(digits, terms) == digits);
    law_groups_are_transparent(depth, digits, terms);
    law_first_operand(digits);
}

/// The value of `left`, an operation code and a group after it: the group's value is the
/// second operand of the operation of `code` on the value of `left`.
pub open spec fn group_as_operand(
    left: Result<usize, ParseFault>,
    code: char,
    group: Result<usize, ParseFault>,
) -> Result<usize, ParseFault> {
    match left {
        Err(fault) => Err(fault),
        Ok(value) => match Operation::with_code(code, value) {
            Err(fault) => Err(ParseFault::InvalidOperation(fault)),
            Ok(operation) => group_folded(Some(operation), group),
        },
    }
}

/// The symbols of a chain, an operation code, a group that holds a chain, and terms after
/// the group.
pub open spec fn with_group(left: Seq<char>, code: char, group: Seq<char>, after: Seq<char>) -> Seq<
    char,
> {
    left.push(code).push(OPCODE_OPEN) + group.push(OPCODE_CLOSE) + after
}

/// A group is evaluated before it goes into the operation around it: in a chain, an
/// operation code, a group that holds a chain, and terms after the group, the group's
/// value is the second operand of the operation in front of it, and the outcome is the
/// first operand of the terms that follow.
pub proof fn law_group_is_an_operand(
    first: Seq<char>,
    terms: Seq<Term>,
    code: char,
    group_first: Seq<char>,
    group_terms: Seq<Term>,
    after: Seq<Term>,
)
    requires
        is_chain(first, terms),
        is_operator_code(code),
        is_chain(group_first, group_terms),
        are_terms(after),
    ensures
        evaluate(
            with_group(
                chain_text(first, terms),
                code,
                chain_text(group_first, group_terms),
                terms_text(after),
            ),
        ) == terms_value(
            group_as_operand(
                chain_value(first, terms),
                code,
                chain_value(group_first, group_terms),
            ),
            after,
        ),
{
    let left = chain_text(first, terms);
    let group = chain_text(group_first, group_terms);
    let tail = terms_text(after);
    let symbols = with_group(left, code, group, tail);
    let opening = Frame::opening(None);
    let opened = left.len() + 1;
    let inside = opened + 1;
    let closing = inside + group.len();
    let behind = closing + 1;
    let folded = group_as_operand(
        chain_value(first, terms),
        code,
        chain_value(group_first, group_terms),
    );
    lemma_chain_symbols(first, terms);
    lemma_chain_symbols(group_first, group_terms);
    lemma_terms_symbols(after);
    assert(symbols.len() == behind + tail.len());
    assert(symbols[opened as int] == OPCODE_OPEN);
    assert(symbols[closing as int] == OPCODE_CLOSE);
    assert(occurrences(symbols, OPCODE_OPEN) == occurrences(symbols, OPCODE_CLOSE)) by {
        lemma_chain_has_no_group(first, terms);
        lemma_chain_has_no_group(group_first, group_terms);
        lemma_absent_symbol(tail, OPCODE_OPEN);
        lemma_absent_symbol(tail, OPCODE_CLOSE);
        let head = left.push(code).push(OPCODE_OPEN);
        let body = group.push(OPCODE_CLOSE);
        lemma_occurrences_with_one_more(left, code, OPCODE_OPEN);
        lemma_occurrences_with_one_more(left, code, OPCODE_CLOSE);
        lemma_occurrences_with_one_more(left.push(code), OPCODE_OPEN, OPCODE_OPEN);
        lemma_occurrences_with_one_more(left.push(code), OPCODE_OPEN, OPCODE_CLOSE);
        lemma_occurrences_with_one_more(group, OPCODE_CLOSE, OPCODE_OPEN);
        lemma_occurrences_with_one_more(group, OPCODE_CLOSE, OPCODE_CLOSE);
        lemma_occurrences_in_parts(head, body, OPCODE_OPEN);
        lemma_occurrences_in_parts(head, body, OPCODE_CLOSE);
        lemma_occurrences_in_parts(head + body, tail, OPCODE_OPEN);
        lemma_occurrences_in_parts(head + body, tail, OPCODE_CLOSE);
    }
    // The frame reads the chain in front and the operation code.
    lemma_run_scanned(symbols, 0, opening, opened);
    assert(symbols.subrange(0, opened as int) == left.push(code));
    assert(left.push(code).drop_last() == left);
    lemma_scan_chain(None, first, terms);
    lemma_frame_advances(symbols, 0, opening);
    let whole = run_frame(symbols, 0, opening);
    match chain_value(first, terms) {
        Err(fault) => {
            lemma_error_stays(fault, after);
        },
        Ok(value) => {
            let reached = chain_frame(None, first, terms);
            let operation = Operation::with_code(code, value)->Ok_0;
            let waiting = Frame {
                state: ParserState::Operation,
                operation: Some(operation),
                accumulator: Seq::empty(),
                ..reached
            };
            assert(step(reached, code) == Step::Continue(waiting));
            assert(whole == run_frame(symbols, opened, waiting));
            assert(step(waiting, OPCODE_OPEN) == Step::Open(waiting));
            // The group reads the chain that it holds, up to the group-close symbol.
            let start = Frame::opening(None);
            let ended = run_frame(symbols, inside, start);
            lemma_run_scanned(symbols, inside, start, group.len());
            assert(symbols.subrange(inside as int, closing as int) == group);
            lemma_scan_chain(None, group_first, group_terms);
            lemma_frame_advances(symbols, inside, start);
            match chain_value(group_first, group_terms) {
                Err(fault) => {
                    assert(whole.outcome == Err::<usize, ParseFault>(fault)) by {
                        reveal(run_frame);
                    }
                    lemma_error_stays(fault, after);
                },
                Ok(group_value) => {
                    assert(ended == FrameEnd { outcome: Ok(group_value), position: behind }) by {
                        reveal(run_frame);
                    }
                    match group_folded(Some(operation), Ok(group_value)) {
                        Err(fault) => {
                            assert(whole.outcome == Err::<usize, ParseFault>(fault)) by {
                                reveal(run_frame);
                            }
                            lemma_error_stays(fault, after);
                        },
                        Ok(outcome) => {
                            let going_on = Frame {
                                state: ParserState::FirstOperand,
                                result: Some(outcome),
                                ..waiting
                            };
                            if after.len() == 0 {
                                assert(whole == FrameEnd {
                                    outcome: Ok(outcome),
                                    position: behind,
                                }) by {
                                    reveal(run_frame);
                                }
                                assert(run_frames(symbols, behind, Some(outcome)) == Ok::<
                                    usize,
                                    ParseFault,
                                >(outcome));
                            } else {
                                assert(symbols[behind as int] == tail[0]);
                                assert(whole == run_frame(symbols, behind, going_on)) by {
                                    reveal(run_frame);
                                }
                                lemma_run_scanned(symbols, behind, going_on, tail.len());
                                assert(symbols.subrange(behind as int, symbols.len() as int)
                                    == tail);
                                lemma_scan_terms(going_on, outcome, after);
                                if let Ok(last) = terms_value(Ok(outcome), after) {
                                    let finished = terms_frame(going_on, outcome, after);
                                    assert(run_frame(symbols, symbols.len(), finished)
                                        == FrameEnd {
                                        outcome: Ok(last),
                                        position: symbols.len(),
                                    }) by {
                                        reveal(run_frame);
                                    }
                                    assert(run_frames(symbols, symbols.len(), Some(last)) == Ok::<
                                        usize,
                                        ParseFault,
                                    >(last));
                                }
                            }
                        },
                    }
                },
            }
        },
    }
}

/// A group starts afresh: it takes no value from the frame that opens it. So a group that
/// closes at once has no value, whatever running result the frame around it has, and the
/// parse ends with the error of a group closed without a result. Here `head` is a
/// beginning of the expression that a single frame reads without ending, `reached` is the
/// frame after it, and a group may be opened there.
pub proof fn law_empty_group(head: Seq<char>, reached: Frame, tail: Seq<char>)
    requires
        scan(Frame::opening(None), head) == Step::Continue(reached),
        next_state(reached.state, OPCODE_OPEN, reached.accumulator) is Ok,
        occurrences(head.push(OPCODE_OPEN).push(OPCODE_CLOSE) + tail, OPCODE_OPEN) == occurrences(
            head.push(OPCODE_OPEN).push(OPCODE_CLOSE) + tail,
            OPCODE_CLOSE,
        ),
    ensures
        evaluate(head.push(OPCODE_OPEN).push(OPCODE_CLOSE) + tail) == Err::<usize, ParseFault>(
            ParseFault::IllegalState(missing_result_text()),
        ),
{
    let symbols = head.push(OPCODE_OPEN).push(OPCODE_CLOSE) + tail;
    let opening = Frame::opening(None);
    let opened = head.len();
    lemma_run_scanned(symbols, 0, opening, opened);
    assert(symbols.subrange(0, opened as int) == head);
    assert(symbols[opened as int] == OPCODE_OPEN);
    assert(symbols[opened + 1 as int] == OPCODE_CLOSE);
    let group = run_frame(symbols, opened + 1, opening);
    assert(group.outcome == Err::<usize, ParseFault>(
        ParseFault::IllegalState(missing_result_text()),
    )) by {
        reveal(run_frame);
    }
    assert(step(reached, OPCODE_OPEN) is Open);
    assert(run_frame(symbols, opened, reached).outcome == group.outcome) by {
        reveal(run_frame);
    }
}

/// Whether a frame is as the parser keeps its frames: an operation is pending wherever a
/// second operand is expected or being read.
pub open spec fn is_sound(frame: Frame) -> bool {
    frame.state == ParserState::Operation || frame.state == ParserState::SecondOperand
        ==> frame.operation is Some
}

/// Whether `fault` is one of the errors that the parser holds ready for what its states
/// rule out: a symbol that passed the transition and then matched no rule, a second
/// operand without an operation, an operation code that stands for no operation, and a
/// first operand that does not read as a number.
pub open spec fn is_defensive(fault: ParseFault) -> bool {
    ||| fault is UnexpectedSymbol
    ||| fault == ParseFault::IllegalState(missing_operation_text())
    ||| fault matches ParseFault::InvalidOperation(OperationFault::InvalidOperationCode(_))
    ||| fault matches ParseFault::InvalidOperation(OperationFault::InvalidFirstOperand(_, _))
}

/// The three messages of an illegal state differ from one another.
pub proof fn lemma_messages_differ()
    ensures
        missing_operation_text() != missing_operand_text(),
        missing_operation_text() != missing_result_text(),
        missing_operand_text() != missing_result_text(),
{
    reveal_strlit("No operation when evaluating SecondOperand");
    reveal_strlit("No previous result and accumulator empty instantiating operation");
    reveal_strlit("Result not available when closing parenthesis");
    assert(missing_operation_text().len() == 42);
    assert(missing_operand_text().len() == 64);
    assert(missing_result_text().len() == 45);
}

/// A sound frame stays sound from symbol to symbol, and where a symbol ends it with an
/// error, the error is none of the defensive ones.
pub proof fn lemma_step_is_sound(frame: Frame, symbol: char)
    requires
        is_sound(frame),
    ensures
        match step(frame, symbol) {
            Step::Continue(next) => is_sound(next),
            Step::Open(waiting) => is_sound(waiting),
            Step::End(outcome) => outcome matches Err(fault) ==> !is_defensive(fault),
        },
{
    lemma_messages_differ();
}

/// A frame that starts sound never ends with a defensive error.
pub proof fn lemma_frame_is_sound(symbols: Seq<char>, position: nat, frame: Frame)
    requires
        is_sound(frame),
        position <= symbols.len(),
    ensures
        run_frame(symbols, position, frame).outcome matches Err(fault) ==> !is_defensive(fault),
    decreases symbols.len() - position,
{
    reveal(run_frame);
    if position < symbols.len() {
        let after = position + 1;
        lemma_step_is_sound(frame, symbols[position as int]);
        match step(frame, symbols[position as int]) {
            Step::End(_) => {},
            Step::Continue(next) => {
                lemma_frame_is_sound(symbols, after, next);
            },
            Step::Open(waiting) => {
                let opening = Frame::opening(None);
                lemma_frame_is_sound(symbols, after, opening);
                lemma_frame_advances(symbols, after, opening);
                let group = run_frame(symbols, after, opening);
                if let Ok(value) = group_folded(waiting.operation, group.outcome) {
                    if group.position < symbols.len() {
                        lemma_frame_is_sound(
                            symbols,
                            group.position,
                            Frame {
                                state: ParserState::FirstOperand,
                                result: Some(value),
                                ..waiting
                            },
                        );
                    }
                }
            },
        }
    }
}

/// Frame after frame, none ends with a defensive error.
pub proof fn lemma_frames_are_sound(symbols: Seq<char>, position: nat, result: Option<usize>)
    requires
        position <= symbols.len(),
    ensures
        run_frames(symbols, position, result) matches Err(fault) ==> !is_defensive(fault),
    decreases symbols.len() - position,
{
    if position < symbols.len() {
        let opening = Frame::opening(result);
        lemma_frame_is_sound(symbols, position, opening);
        lemma_frame_advances(symbols, position, opening);
        let end = run_frame(symbols, position, opening);
        if let Ok(value) = end.outcome {
            lemma_frames_are_sound(symbols, end.position, Some(value));
        }
    }
}

/// No expression brings out a defensive error: the states of the parser do rule out what
/// those errors stand ready for.
pub proof fn law_no_defensive_error(symbols: Seq<char>)
    ensures
        evaluate(symbols) matches Err(fault) ==> !is_defensive(fault),
{
    lemma_frames_are_sound(symbols, 0, None);
}

} // verus!
