//! Specifications for the methods of `String` that the parser's accumulator needs and
//! that `vstd` does not specify. They are assumed, not proved.

use vstd::prelude::*;

verus! {

/// `String::push` appends the given character to the end of the string.
pub assume_specification[ String::push ](text: &mut String, symbol: char)
    ensures
        final(text)@ == old(text)@.push(symbol),
;

/// `String::clear` truncates the string, removing all its contents.
pub assume_specification[ String::clear ](text: &mut String)
    ensures
        final(text)@ == Seq::<char>::empty(),
;

} // verus!
