//! The six letters of the notation that are not digits.

use vstd::prelude::*;

verus! {

/// Operation code for addition
pub const OPCODE_ADD: char = 'a';

/// Operation code for subtraction
pub const OPCODE_SUB: char = 'b';

/// Operation code for multiplication
pub const OPCODE_MUL: char = 'c';

/// Operation code for division
pub const OPCODE_DIV: char = 'd';

/// Operation code for open parenthesis
pub const OPCODE_OPEN: char = 'e';

/// Operation code for closed parenthesis
pub const OPCODE_CLOSE: char = 'f';

/// Whether `symbol` is the code of one of the four arithmetic operations.
pub open spec fn is_operator_code(symbol: char) -> bool {
    symbol == OPCODE_ADD || symbol == OPCODE_SUB || symbol == OPCODE_MUL || symbol == OPCODE_DIV
}

/// Whether `symbol` is the code of one of the four arithmetic operations.
pub fn is_operator(symbol: char) -> (r: bool)
    ensures
        r == is_operator_code(symbol),
{
    symbol == OPCODE_ADD || symbol == OPCODE_SUB || symbol == OPCODE_MUL || symbol == OPCODE_DIV
}

} // verus!
