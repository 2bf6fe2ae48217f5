//! The forward-only cursor over the symbols of an expression.

use vstd::prelude::*;

verus! {

/// How often `symbol` occurs in `symbols`.
pub open spec fn occurrences(symbols: Seq<char>, symbol: char) -> nat
    decreases symbols.len(),
{
    if symbols.len() == 0 {
        0
    } else {
        occurrences(symbols.drop_last(), symbol) + if symbols.last() == symbol {
            1nat
        } else {
            0nat
        }
    }
}

/// The symbols of an expression and a position among them. The position only moves
/// forward, one symbol at a time, and every frame of a parse reads through the same cursor.
pub struct Cursor {
    symbols: Vec<char>,
    position: usize,
}

impl Cursor {
    #[verifier::type_invariant]
    spec fn in_bounds(&self) -> bool {
        self.position <= self.symbols.len()
    }

    /// All the symbols, those already read included.
    pub closed spec fn symbols(&self) -> Seq<char> {
        self.symbols@
    }

    /// The number of symbols already read.
    pub closed spec fn position(&self) -> nat {
        self.position as nat
    }

    /// A cursor in front of the first symbol of `expression`.
    pub fn new(expression: &str) -> (cursor: Cursor)
        ensures
            cursor.symbols() == expression@,
            cursor.position() == 0,
    {
        let mut symbols: Vec<char> = Vec::new();
        for symbol in source: expression.chars()
            invariant
                symbols@ == source.seq().take(source.index() as int),
        {
            symbols.push(symbol);
        }
        Cursor { symbols, position: 0 }
    }

    /// Whether a symbol is left to read.
    pub fn has_next(&self) -> (r: bool)
        ensures
            r == (self.position() < self.symbols().len()),
            self.position() <= self.symbols().len(),
    {
        proof {
            use_type_invariant(self);
        }
        self.position < self.symbols.len()
    }

    /// The next symbol, which stays unread; `None` at the end.
    pub fn peek(&self) -> (r: Option<char>)
        ensures
            r == if self.position() < self.symbols().len() {
                Some(self.symbols()[self.position() as int])
            } else {
                None
            },
    {
        if self.position < self.symbols.len() {
            Some(self.symbols[self.position])
        } else {
            None
        }
    }

    /// Reads the next symbol; `None` at the end, where the cursor stays.
    pub fn next(&mut self) -> (r: Option<char>)
        ensures
            final(self).symbols() == old(self).symbols(),
            final(self).position() <= final(self).symbols().len(),
            r == if old(self).position() < old(self).symbols().len() {
                Some(old(self).symbols()[old(self).position() as int])
            } else {
                None
            },
            final(self).position() == if old(self).position() < old(self).symbols().len() {
                old(self).position() + 1
            } else {
                old(self).position()
            },
    {
        proof {
            use_type_invariant(&*self);
        }
        if self.position < self.symbols.len() {
            let symbol = self.symbols[self.position];
            self.position = self.position + 1;
            Some(symbol)
        } else {
            None
        }
    }

    /// How often `symbol` occurs among all the symbols, read or not.
    pub fn count(&self, symbol: char) -> (r: usize)
        ensures
            r == occurrences(self.symbols(), symbol),
    {
        let mut found: usize = 0;
        let mut index: usize = 0;
        while index < self.symbols.len()
            invariant
                index <= self.symbols.len(),
                found <= index,
                found == occurrences(self.symbols@.take(index as int), symbol),
            decreases self.symbols.len() - index,
        {
            assert(self.symbols@.take(index + 1).drop_last() == self.symbols@.take(index as int));
            if self.symbols[index] == symbol {
                found = found + 1;
            }
            index = index + 1;
        }
        assert(self.symbols@.take(index as int) == self.symbols@);
        found
    }
}

} // verus!
