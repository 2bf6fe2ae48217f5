//! A pending binary operation: its kind and its first operand, waiting for the second.

use vstd::prelude::*;

use crate::operand::{is_operand_literal, operand_fault_text, operand_value, parse_operand};
use crate::operation::codes::{OPCODE_ADD, OPCODE_DIV, OPCODE_MUL, OPCODE_SUB};

pub mod codes;

verus! {

/// Errors that the Operation instantiation and application can cause
#[derive(Debug, PartialEq)]
pub enum OperationError {
    /// The first operand is invalid (operand, error message)
    InvalidFirstOperand(String, String),
    /// The second operand is invalid (operand, error message)
    InvalidSecondOperand(String, String),
    /// The operation code is invalid (invalid code)
    InvalidOperationCode(char),
    /// The operation application overflows
    OverflowError,
}

/// What an [`OperationError`] says, with its texts as sequences of characters.
pub enum OperationFault {
    /// The first operand is invalid (operand, error message)
    InvalidFirstOperand(Seq<char>, Seq<char>),
    /// The second operand is invalid (operand, error message)
    InvalidSecondOperand(Seq<char>, Seq<char>),
    /// The operation code is invalid (invalid code)
    InvalidOperationCode(char),
    /// The operation has no value that fits: it overflows, goes below zero or divides by zero
    OverflowError,
}

impl View for OperationError {
    type V = OperationFault;

    open spec fn view(&self) -> OperationFault {
        match *self {
            OperationError::InvalidFirstOperand(operand, detail) => OperationFault::InvalidFirstOperand(
                operand@,
                detail@,
            ),
            OperationError::InvalidSecondOperand(operand, detail) => OperationFault::InvalidSecondOperand(
                operand@,
                detail@,
            ),
            OperationError::InvalidOperationCode(code) => OperationFault::InvalidOperationCode(code),
            OperationError::OverflowError => OperationFault::OverflowError,
        }
    }
}

/// A result with its error seen through the error's view.
pub open spec fn outcome<T, E: View>(r: Result<T, E>) -> Result<T, E::V> {
    match r {
        Ok(value) => Ok(value),
        Err(error) => Err(error@),
    }
}

/// Enumeration of all possible arithmetical operations
#[derive(Debug, Clone, Copy, PartialEq, Eq, Structural)]
pub enum Operation {
    /// Addition (first operand)
    Add(usize),
    /// Subtraction (first operand)
    Sub(usize),
    /// Multiplication (first operand)
    Mul(usize),
    /// Division (first operand)
    Div(usize),
}

impl Operation {
    /// The operation that `code` stands for, on `first_operand`.
    pub open spec fn with_code(code: char, first_operand: usize) -> Result<Operation, OperationFault> {
        if code == OPCODE_ADD {
            Ok(Operation::Add(first_operand))
        } else if code == OPCODE_SUB {
            Ok(Operation::Sub(first_operand))
        } else if code == OPCODE_MUL {
            Ok(Operation::Mul(first_operand))
        } else if code == OPCODE_DIV {
            Ok(Operation::Div(first_operand))
        } else {
            Err(OperationFault::InvalidOperationCode(code))
        }
    }

    /// The operation that `code` stands for, on the operand that `first_operand` denotes.
    /// The operand is read before the code is looked at.
    pub open spec fn with_code_and_text(code: char, first_operand: Seq<char>) -> Result<
        Operation,
        OperationFault,
    > {
        if is_operand_literal(first_operand) {
            Self::with_code(code, operand_value(first_operand))
        } else {
            Err(
                OperationFault::InvalidFirstOperand(
                    first_operand,
                    operand_fault_text(first_operand),
                ),
            )
        }
    }

    /// The exact value of the operation on `second_operand`, as an integer without bounds.
    /// Division rounds toward zero; by zero it has no value, and `exact` is then arbitrary.
    pub open spec fn exact(self, second_operand: usize) -> int {
        match self {
            Operation::Add(first_operand) => first_operand + second_operand,
            Operation::Sub(first_operand) => first_operand - second_operand,
            Operation::Mul(first_operand) => first_operand * second_operand,
            Operation::Div(first_operand) => first_operand as int / second_operand as int,
        }
    }

    /// Whether the operation has a value on `second_operand` that a `usize` can hold: the
    /// exact value is in range, and a division is not by zero.
    pub open spec fn defined(self, second_operand: usize) -> bool {
        &&& 0 <= self.exact(second_operand) <= usize::MAX
        &&& self is Div ==> second_operand != 0
    }

    /// The result of the operation on `second_operand`.
    pub open spec fn applied(self, second_operand: usize) -> Result<usize, OperationFault> {
        if self.defined(second_operand) {
            Ok(self.exact(second_operand) as usize)
        } else {
            Err(OperationFault::OverflowError)
        }
    }

    /// The result of the operation on the operand that `second_operand` denotes.
    pub open spec fn applied_to_text(self, second_operand: Seq<char>) -> Result<
        usize,
        OperationFault,
    > {
        if is_operand_literal(second_operand) {
            self.applied(operand_value(second_operand))
        } else {
            Err(
                OperationFault::InvalidSecondOperand(
                    second_operand,
                    operand_fault_text(second_operand),
                ),
            )
        }
    }

    /// Creates the `Operation` from a code and the first operand
    /// # Arguments
    ///  - code: A char defined as `OPCODE` constant in the `codes` module
    ///  - first_operand: A string to be parsed as first operand of the operation
    /// # Return
    /// A `Result` having an `Operation` if valid, `OperationError` otherwise
    pub fn from(code: char, first_operand: String) -> (r: Result<Self, OperationError>)
        ensures
            outcome(r) == Self::with_code_and_text(code, first_operand@),
    {
        match parse_operand(first_operand.as_str()) {
            Ok(parsed) => Self::from_result(code, parsed),
            Err(detail) => Err(OperationError::InvalidFirstOperand(first_operand, detail)),
        }
    }

    /// Creates the `Operation` from a code and using a previous result as first operand
    /// # Arguments
    ///  - code: A char defined as `OPCODE` constant in the `codes` module
    ///  - first_operand: The previous result
    /// # Return
    /// A `Result` having an `Operation` if valid, `OperationError` otherwise
    pub fn from_result(code: char, first_operand: usize) -> (r: Result<Self, OperationError>)
        ensures
            outcome(r) == Self::with_code(code, first_operand),
    {
        if code == OPCODE_ADD {
            Ok(Operation::Add(first_operand))
        } else if code == OPCODE_SUB {
            Ok(Operation::Sub(first_operand))
        } else if code == OPCODE_MUL {
            Ok(Operation::Mul(first_operand))
        } else if code == OPCODE_DIV {
            Ok(Operation::Div(first_operand))
        } else {
            Err(OperationError::InvalidOperationCode(code))
        }
    }

    /// Applies the `Operation` using a second operand
    /// # Arguments
    ///  - second_operand: A string to be parsed as second operand of the operation
    /// # Return
    /// A `Result` having the arithmetic result of the operation if valid, `OperationError` otherwise
    pub fn apply(&self, second_operand: String) -> (r: Result<usize, OperationError>)
        ensures
            outcome(r) == self.applied_to_text(second_operand@),
    {
        match parse_operand(second_operand.as_str()) {
            Ok(parsed) => self.apply_result(parsed),
            Err(detail) => Err(OperationError::InvalidSecondOperand(second_operand, detail)),
        }
    }

    /// Applies the `Operation` using a previous result as second operand
    /// # Arguments
    ///  - second_operand: The previous result
    /// # Return
    /// A `Result` having the arithmetic result of the operation if valid, `OperationError` otherwise
    pub fn apply_result(&self, second_operand: usize) -> (r: Result<usize, OperationError>)
        ensures
            outcome(r) == self.applied(second_operand),
    {
        let checked = match self {
            Self::Add(first_operand) => first_operand.checked_add(second_operand),
            Self::Sub(first_operand) => first_operand.checked_sub(second_operand),
            Self::Mul(first_operand) => first_operand.checked_mul(second_operand),
            Self::Div(first_operand) => first_operand.checked_div(second_operand),
        };
        checked.ok_or(OperationError::OverflowError)
    }
}

} // verus!
