//! Chains: the expressions without groups, and what they are worth.

use vstd::prelude::*;

use crate::operand::{is_digit, is_digit_run};
use crate::operation::codes::is_operator_code;
use crate::operation::Operation;
use crate::parser::model::{step, Frame, Step};
use crate::parser::scan::{
    first_operand_scanned, lemma_scan_first_operand, lemma_scan_in_parts,
    lemma_scan_second_operand, scan, second_operand_scanned,
};
use crate::parser::{ParseFault, ParserState};

verus! {

/// A term that goes on an expression: an operation code and the digits of its operand.
pub struct Term {
    pub code: char,
    pub digits: Seq<char>,
}

/// Whether each of `terms` is well formed: one of the four operation codes, and an
/// operand of one digit or more.
pub open spec fn are_terms(terms: Seq<Term>) -> bool {
    forall|i: int|
        0 <= i < terms.len() ==> {
            &&& is_operator_code(#[trigger] terms[i].code)
            &&& terms[i].digits.len() > 0
            &&& is_digit_run(terms[i].digits)
        }
}

/// The symbols of `terms`, in the order in which they are written.
pub open spec fn terms_text(terms: Seq<Term>) -> Seq<char>
    decreases terms.len(),
{
    if terms.len() == 0 {
        Seq::empty()
    } else {
        terms_text(terms.drop_last()).push(terms.last().code) + terms.last().digits
    }
}

/// The value of `start` with `terms` after it, taken strictly from left to right: the value
/// up to the last term is the first operand of the last term's operation, whatever the
/// operations are. An error, once there, stays.
pub open spec fn terms_value(start: Result<usize, ParseFault>, terms: Seq<Term>) -> Result<
    usize,
    ParseFault,
>
    decreases terms.len(),
{
    if terms.len() == 0 {
        start
    } else {
        match terms_value(start, terms.drop_last()) {
            Err(fault) => Err(fault),
            Ok(value) => match Operation::with_code(terms.last().code, value) {
                Err(fault) => Err(ParseFault::InvalidOperation(fault)),
                Ok(operation) => second_operand_scanned(operation, terms.last().digits),
            },
        }
    }
}

/// The operation that is pending once the last of `terms` is read.
pub open spec fn last_operation(start: Result<usize, ParseFault>, terms: Seq<Term>) -> Option<
    Operation,
>
    recommends
        terms.len() > 0,
{
    match terms_value(start, terms.drop_last()) {
        Ok(value) => match Operation::with_code(terms.last().code, value) {
            Ok(operation) => Some(operation),
            Err(_) => None,
        },
        Err(_) => None,
    }
}

/// The frame that `frame`, with the running result `value`, has become once it has read
/// `terms` to their value.
pub open spec fn terms_frame(frame: Frame, value: usize, terms: Seq<Term>) -> Frame {
    if terms.len() == 0 {
        frame
    } else {
        Frame {
            state: ParserState::SecondOperand,
            operation: last_operation(Ok(value), terms),
            accumulator: terms.last().digits,
            result: match terms_value(Ok(value), terms) {
                Ok(value) => Some(value),
                Err(_) => None,
            },
        }
    }
}

/// All but the last of well-formed terms are well formed, and so is the last.
pub proof fn lemma_terms_but_last(terms: Seq<Term>)
    requires
        are_terms(terms),
        terms.len() > 0,
    ensures
        are_terms(terms.drop_last()),
        is_operator_code(terms.last().code),
        terms.last().digits.len() > 0,
        is_digit_run(terms.last().digits),
{
    let before = terms.drop_last();
    assert forall|i: int| 0 <= i < before.len() implies {
        &&& is_operator_code(#[trigger] before[i].code)
        &&& before[i].digits.len() > 0
        &&& is_digit_run(before[i].digits)
    } by {
        assert(before[i] == terms[i]);
        assert(is_operator_code(terms[i].code));
    }
    assert(is_operator_code(terms[terms.len() - 1].code));
}

/// A frame that has an operand behind it, with the running result `value`, reads terms to
/// their value, or ends with the error that their value is.
pub proof fn lemma_scan_terms(frame: Frame, value: usize, terms: Seq<Term>)
    requires
        frame.state == ParserState::FirstOperand || frame.state == ParserState::SecondOperand,
        frame.result == Some(value),
        are_terms(terms),
    ensures
        scan(frame, terms_text(terms)) == match terms_value(Ok(value), terms) {
            Ok(_) => Step::Continue(terms_frame(frame, value, terms)),
            Err(fault) => Step::End(Err(fault)),
        },
    decreases terms.len(),
{
    if terms.len() > 0 {
        let before = terms.drop_last();
        let code = terms.last().code;
        let digits = terms.last().digits;
        lemma_terms_but_last(terms);
        lemma_scan_terms(frame, value, before);
        let head = terms_text(before);
        lemma_scan_in_parts(frame, head.push(code), digits);
        assert(head.push(code).drop_last() == head);
        if let Ok(reached_value) = terms_value(Ok(value), before) {
            let reached = terms_frame(frame, value, before);
            assert(scan(frame, head.push(code)) == step(reached, code));
            let operation = Operation::with_code(code, reached_value)->Ok_0;
            let waiting = Frame {
                state: ParserState::Operation,
                operation: Some(operation),
                accumulator: Seq::empty(),
                ..reached
            };
            assert(step(reached, code) == Step::Continue(waiting));
            lemma_scan_second_operand(waiting, operation, digits);
        }
    }
}

/// Whether `first` and `terms` make up a chain: an expression without groups, which is an
/// operand of one digit or more with well-formed terms after it.
pub open spec fn is_chain(first: Seq<char>, terms: Seq<Term>) -> bool {
    &&& first.len() > 0
    &&& is_digit_run(first)
    &&& are_terms(terms)
}

/// The symbols of a chain, in the order in which they are written.
pub open spec fn chain_text(first: Seq<char>, terms: Seq<Term>) -> Seq<char> {
    first + terms_text(terms)
}

/// The value of a chain: that of its first operand with the terms after it.
pub open spec fn chain_value(first: Seq<char>, terms: Seq<Term>) -> Result<usize, ParseFault> {
    terms_value(first_operand_scanned(first), terms)
}

/// The frame that has read a chain to its value, having started with the running result
/// `result`.
pub open spec fn chain_frame(result: Option<usize>, first: Seq<char>, terms: Seq<Term>) -> Frame {
    match first_operand_scanned(first) {
        Ok(value) => terms_frame(
            Frame { accumulator: first, result: Some(value), ..Frame::opening(result) },
            value,
            terms,
        ),
        Err(_) => Frame::opening(result),
    }
}

/// An error in front of terms is the value of the whole.
pub proof fn lemma_error_stays(fault: ParseFault, terms: Seq<Term>)
    ensures
        terms_value(Err(fault), terms) == Err::<usize, ParseFault>(fault),
    decreases terms.len(),
{
    if terms.len() > 0 {
        lemma_error_stays(fault, terms.drop_last());
    }
}

/// A frame that starts on a chain reads it to its value, whatever running result the
/// frame was handed, or ends with the error that the chain's value is.
pub proof fn lemma_scan_chain(result: Option<usize>, first: Seq<char>, terms: Seq<Term>)
    requires
        is_chain(first, terms),
    ensures
        scan(Frame::opening(result), chain_text(first, terms)) == match chain_value(first, terms) {
            Ok(_) => Step::Continue(chain_frame(result, first, terms)),
            Err(fault) => Step::End(Err(fault)),
        },
        chain_value(first, terms) is Ok ==> {
            let reached = chain_frame(result, first, terms);
            &&& reached.state == ParserState::FirstOperand || reached.state
                == ParserState::SecondOperand
            &&& reached.result == Some(chain_value(first, terms)->Ok_0)
        },
{
    let opening = Frame::opening(result);
    lemma_scan_first_operand(opening, first);
    lemma_scan_in_parts(opening, first, terms_text(terms));
    match first_operand_scanned(first) {
        Ok(value) => {
            let reached = Frame { accumulator: first, result: Some(value), ..opening };
            lemma_scan_terms(reached, value, terms);
        },
        Err(fault) => {
            lemma_error_stays(fault, terms);
        },
    }
}

/// Every symbol of terms is a digit or an operation code.
pub proof fn lemma_terms_symbols(terms: Seq<Term>)
    requires
        are_terms(terms),
    ensures
        forall|i: int|
            0 <= i < terms_text(terms).len() ==> {
                let symbol = #[trigger] terms_text(terms)[i];
                is_digit(symbol) || is_operator_code(symbol)
            },
        terms.len() > 0 ==> terms_text(terms).len() > 0 && is_operator_code(terms_text(terms)[0]),
    decreases terms.len(),
{
    let text = terms_text(terms);
    if terms.len() > 0 {
        let before = terms.drop_last();
        lemma_terms_but_last(terms);
        lemma_terms_symbols(before);
        let head = terms_text(before);
        assert forall|i: int| 0 <= i < text.len() implies {
            let symbol = #[trigger] text[i];
            is_digit(symbol) || is_operator_code(symbol)
        } by {
            if i < head.len() {
                assert(text[i] == head[i]);
            } else if i == head.len() {
                assert(text[i] == terms.last().code);
            } else {
                assert(text[i] == terms.last().digits[i - head.len() - 1]);
            }
        }
        if before.len() > 0 {
            assert(text[0] == head[0]);
        } else {
            assert(head.len() == 0);
            assert(text[0] == terms.last().code);
        }
    }
}

/// Every symbol of a chain is a digit or an operation code, and the first is a digit.
pub proof fn lemma_chain_symbols(first: Seq<char>, terms: Seq<Term>)
    requires
        is_chain(first, terms),
    ensures
        chain_text(first, terms).len() > 0,
        forall|i: int|
            0 <= i < chain_text(first, terms).len() ==> {
                let symbol = #[trigger] chain_text(first, terms)[i];
                is_digit(symbol) || is_operator_code(symbol)
            },
{
    lemma_terms_symbols(terms);
    let text = chain_text(first, terms);
    assert forall|i: int| 0 <= i < text.len() implies {
        let symbol = #[trigger] text[i];
        is_digit(symbol) || is_operator_code(symbol)
    } by {
        if i < first.len() {
            assert(text[i] == first[i]);
        } else {
            assert(text[i] == terms_text(terms)[i - first.len()]);
        }
    }
}

} // verus!
