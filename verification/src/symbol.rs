//! Symbols of the input alphabet: 32-bit values with a NULL bottom and an
//! EOF sentinel at the top of the space.

use vstd::prelude::*;

verus! {

/// The code of the NULL symbol, the bottom of the symbol space.
pub const NULL_CODE: u32 = 0;

/// The code of the EOF sentinel, the top of the symbol space.
pub const EOF_CODE: u32 = 0xFFFF_FFFF;

/// An input symbol: a 32-bit value, totally ordered by its code.
///
/// UTF-32 code points embed directly; the value `EOF_CODE` is reserved as the
/// end-of-input sentinel and `NULL_CODE` as the bottom of the space.
#[derive(Clone, Copy, Debug, PartialEq, Eq, Structural)]
pub struct Symbol {
    /// The 32-bit code of the symbol.
    pub value: u32,
}

impl Symbol {
    /// Constructs the symbol with the given code.
    pub fn new(value: u32) -> (r: Symbol)
        ensures
            r.value == value,
    {
        Symbol { value }
    }

    /// The NULL symbol, the least element of the symbol space.
    pub fn null() -> (r: Symbol)
        ensures
            r.value == NULL_CODE,
    {
        Symbol { value: NULL_CODE }
    }

    /// The EOF sentinel, the greatest element of the symbol space.
    pub fn eof_code() -> (r: Symbol)
        ensures
            r.value == EOF_CODE,
    {
        Symbol { value: EOF_CODE }
    }
}

impl Default for Symbol {
    /// The default symbol is NULL.
    fn default() -> (r: Symbol)
        ensures
            r.value == NULL_CODE,
    {
        Symbol { value: NULL_CODE }
    }
}

impl From<u32> for Symbol {
    fn from(value: u32) -> (r: Symbol)
        ensures
            r.value == value,
    {
        Symbol { value }
    }
}

impl vstd::std_specs::convert::FromSpecImpl<u32> for Symbol {
    open spec fn obeys_from_spec() -> bool {
        true
    }

    open spec fn from_spec(value: u32) -> Symbol {
        Symbol { value }
    }
}

impl From<char> for Symbol {
    /// Embeds a UTF-32 code point as a symbol.
    fn from(character: char) -> (r: Symbol)
        ensures
            r.value == character as u32,
    {
        Symbol { value: character as u32 }
    }
}

impl vstd::std_specs::convert::FromSpecImpl<char> for Symbol {
    open spec fn obeys_from_spec() -> bool {
        true
    }

    open spec fn from_spec(character: char) -> Symbol {
        Symbol { value: character as u32 }
    }
}

/// An inclusive range of symbols, `start..=end` by code.
#[derive(Clone, Copy, Debug, PartialEq, Eq, Structural)]
pub struct SymbolRange {
    /// The least symbol of the range.
    pub start: Symbol,
    /// The greatest symbol of the range.
    pub end: Symbol,
}

impl SymbolRange {
    /// Constructs the inclusive range from `start` to `end`.
    pub fn new(start: Symbol, end: Symbol) -> (r: SymbolRange)
        ensures
            r.start == start,
            r.end == end,
    {
        SymbolRange { start, end }
    }

    /// The range holding every symbol with a code in `start..=end`.
    pub fn of_codes(start: u32, end: u32) -> (r: SymbolRange)
        ensures
            r.start.value == start,
            r.end.value == end,
    {
        SymbolRange { start: Symbol { value: start }, end: Symbol { value: end } }
    }

    /// Whether the symbol with code `code` lies in this range.
    pub open spec fn spec_contains(self, code: int) -> bool {
        self.start.value <= code <= self.end.value
    }
}

} // verus!
