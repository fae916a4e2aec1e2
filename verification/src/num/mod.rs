//! Exact numbers: unbounded integers ([`ZZ`]) and rationals ([`QQ`]).

pub mod arith;
pub mod zz;

pub use zz::ZZ;
pub mod qq;

pub use qq::QQ;
