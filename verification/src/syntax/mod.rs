//! The expression language: symbols, types, de Bruijn environments and
//! hash-consed expressions.


pub mod context;
pub mod destructure;
pub mod env;
pub mod expr;
pub mod meaning;
pub mod symbol;
pub mod pretty;
pub mod substitution;
pub mod types;


pub use context::{Context, NameAlreadyRegistered};
pub use env::{Env, EnvIter};
pub use expr::{
    ArithCmp, ArithTerm, ArithTermView, ArrTerm, ArrTermView, Atom, Expr, Formula, FormulaView, Proposition, Quantifier,
    Term,
};
pub use symbol::{Symbol, SymbolMap, SymbolSet};
pub use types::{is_subtype, Typ, TypArith, TypArr, TypFo, TypTerm};
