use vstd::prelude::*;

use crate::ast::{D, M};

verus! {

/// Every way in which building, reading, parsing or evaluating a value can fail.
#[derive(Debug, Clone, Copy, PartialEq, Eq, Structural)]
pub enum JError {
    /// A position `(i, j)` outside of an `m x n` array.
    OutOfBounds { i: usize, j: usize, m: usize, n: usize },
    /// An array whose storage would exceed `isize::MAX` bytes.
    Layout,
    /// A value that was expected to be `1 x 1`.
    NotAScalar,
    /// A value that was expected to be a row or a column.
    NotASlice,
    /// Operands whose shapes do not agree.
    Length,
    /// `i.` applied to a value that is neither a scalar nor a pair.
    IdotUnsupported { m: usize, n: usize },
    /// A number that does not fit the integer type it is converted to.
    IntConversion,
    /// An addition, multiplication or increment whose result exceeds `u32::MAX`.
    Overflow,
    /// `[/` or `]/` over no items, for which there is no identity value.
    Domain,
    /// An adverb applied to a value of a rank it does not take.
    Rank,
    /// A symbol name that is empty.
    EmptySymbol,
    /// A symbol name that does not start with `a` to `z`.
    SymbolStart,
    /// A symbol name holding a character other than `a` to `z`, `0` to `9` and `_`.
    SymbolChars,
    /// A monadic verb with nothing to its right.
    NoOperand(M),
    /// A dyadic verb or an adverb with nothing to its right.
    NoRhs(D),
    /// A dyadic verb or adverb with nothing to its left.
    NoLhs,
    /// `=:` with nothing to its right.
    AssignNoExpr,
    /// `=:` with no symbol to its left.
    AssignNotVariable,
    /// An adverb without a dyadic verb to its left.
    AdverbNeedsVerb,
    /// A word that is neither a number, a verb, an adverb, `=:`, nor a symbol.
    Unrecognized,
    /// An input line that takes more than the allowed number of parsing steps.
    MaxIterations,
    /// An input line that leaves more than one expression side by side.
    TrailingOperands,
    /// A symbol that names no variable.
    UndefinedSymbol,
    /// An operand, such as an assignment, that has no value.
    NoValue,
}

/// The result of a fallible operation.
pub type R<T> = Result<T, JError>;

} // verus!
