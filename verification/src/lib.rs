//! Symbolic reasoning kernel: exact arithmetic, sparse linear algebra over
//! rings, and a hash-consed expression language.

pub mod algebra;
pub mod num;
pub mod ring;
pub mod inner;
pub mod matrix;
pub mod mat_laws;
pub mod linear;
pub mod syntax;
