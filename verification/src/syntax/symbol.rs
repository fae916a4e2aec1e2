//! Symbols: lightweight handles into a context's symbol table.

use vstd::prelude::*;

use std::collections::{BTreeMap, BTreeSet};

verus! {

/// A symbol is a lightweight handle — a `u32` index into the context's symbol table.
///
/// Symbols are created by a context's `mk_symbol` and are only meaningful
/// within the context that created them.
#[derive(Clone, Copy, Debug, PartialEq, Eq, Structural, PartialOrd, Ord, Hash)]
pub struct Symbol(pub(crate) u32);

impl View for Symbol {
    type V = u32;

    closed spec fn view(&self) -> u32 {
        self.0
    }
}

impl Symbol {
    /// Return the raw integer index for this symbol.
    pub fn as_u32(self) -> (r: u32)
        ensures
            r == self@,
    {
        self.0
    }

    /// Construct a symbol from a raw index. This is the inverse of [`as_u32`](Self::as_u32).
    ///
    /// The caller must ensure the index refers to a valid symbol in the intended context.
    pub fn from_raw(index: u32) -> (r: Self)
        ensures
            r@ == index,
    {
        Symbol(index)
    }
}

/// A symbol is determined by its index: `from_raw` and `as_u32` are inverse.
pub proof fn lemma_symbol_index(a: Symbol, b: Symbol)
    ensures
        a@ == b@ <==> a == b,
{
}

/// An ordered set of symbols.
pub type SymbolSet = BTreeSet<Symbol>;

/// An ordered map from symbols to values.
pub type SymbolMap<V> = BTreeMap<Symbol, V>;

} // verus!
