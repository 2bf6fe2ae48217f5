//! Operand literals: the texts that denote a non-negative integer, and their values.

use vstd::prelude::*;

verus! {

/// Whether `symbol` is one of the ten ASCII decimal digits.
pub open spec fn is_digit(symbol: char) -> bool {
    '0' <= symbol <= '9'
}

/// The number that the digit `symbol` stands for.
pub open spec fn digit_value(symbol: char) -> nat
    recommends
        is_digit(symbol),
{
    (symbol as int - '0' as int) as nat
}

/// Whether every symbol of `text` is a decimal digit. The empty text is a digit run.
pub open spec fn is_digit_run(text: Seq<char>) -> bool {
    forall|i: int| 0 <= i < text.len() ==> is_digit(#[trigger] text[i])
}

/// The number that a digit run denotes in base ten; zero for the empty run.
pub open spec fn decimal_value(digits: Seq<char>) -> nat
    recommends
        is_digit_run(digits),
    decreases digits.len(),
{
    if digits.len() == 0 {
        0
    } else {
        10 * decimal_value(digits.drop_last()) + digit_value(digits.last())
    }
}

/// The digits of a literal: the text itself, less one leading plus sign if it has one.
pub open spec fn literal_digits(text: Seq<char>) -> Seq<char> {
    if text.len() > 0 && text[0] == '+' {
        text.skip(1)
    } else {
        text
    }
}

/// Whether `text` denotes an operand: an optional plus sign, then at least one digit and
/// nothing but digits, with a value that a `usize` can hold.
pub open spec fn is_operand_literal(text: Seq<char>) -> bool {
    let digits = literal_digits(text);
    &&& digits.len() > 0
    &&& is_digit_run(digits)
    &&& decimal_value(digits) <= usize::MAX
}

/// The operand that the literal `text` denotes.
pub open spec fn operand_value(text: Seq<char>) -> usize
    recommends
        is_operand_literal(text),
{
    decimal_value(literal_digits(text)) as usize
}

/// The message with which the standard library turns `text` down when asked to read it as
/// a `usize`. It depends on `text` alone; its wording is the standard library's.
pub uninterp spec fn operand_fault_text(text: Seq<char>) -> Seq<char>;

/// Reads `text` as a `usize` with `str::parse`, and renders a failure with the `to_string`
/// of the error that `parse` returned.
///
/// Trusted: the contract restates the documentation of `usize::from_str`. The text is
/// accepted exactly when it is an optional `+` followed by one or more ASCII digits whose
/// value fits the type, and the value is then the decimal one. Of a failure it claims only
/// that the message is a function of the text.
#[verifier::external_body]
pub(crate) fn parse_operand(text: &str) -> (r: Result<usize, String>)
    ensures
        match r {
            Ok(value) => is_operand_literal(text@) && value == operand_value(text@),
            Err(detail) => !is_operand_literal(text@) && detail@ == operand_fault_text(text@),
        },
{
    text.parse::<usize>().map_err(|fault| fault.to_string())
}

/// Whether `symbol` is an ASCII decimal digit.
pub fn is_ascii_digit(symbol: char) -> (r: bool)
    ensures
        r == is_digit(symbol),
{
    '0' <= symbol && symbol <= '9'
}

/// A digit run that starts with a digit is its own digits: it has no sign to set aside.
pub proof fn lemma_digit_run_is_unsigned(digits: Seq<char>)
    requires
        is_digit_run(digits),
    ensures
        literal_digits(digits) == digits,
{
    if digits.len() > 0 {
        assert(is_digit(digits[0]));
    }
}

/// Dropping the last digit of a run never gives a larger number.
pub proof fn lemma_shorter_run_is_smaller(digits: Seq<char>)
    requires
        digits.len() > 0,
    ensures
        decimal_value(digits.drop_last()) <= decimal_value(digits),
{
}

/// A run of one digit denotes that digit, which every `usize` can hold.
pub proof fn lemma_one_digit(digits: Seq<char>)
    requires
        digits.len() == 1,
        is_digit_run(digits),
    ensures
        decimal_value(digits) == digit_value(digits[0]),
        decimal_value(digits) <= 9,
        is_operand_literal(digits),
{
    assert(is_digit(digits[0]));
    assert(digits.drop_last().len() == 0);
    assert(decimal_value(digits.drop_last()) == 0);
    lemma_digit_run_is_unsigned(digits);
}

/// A digit run denotes at least what its first digit alone denotes.
pub proof fn lemma_leading_digit(digits: Seq<char>)
    requires
        digits.len() > 0,
        is_digit_run(digits),
    ensures
        decimal_value(digits) >= digit_value(digits[0]),
    decreases digits.len(),
{
    if digits.len() == 1 {
        lemma_one_digit(digits);
    } else {
        lemma_leading_digit(digits.drop_last());
    }
}

} // verus!
