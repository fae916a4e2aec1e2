# srk

Exact rational arithmetic, sparse linear algebra and a hash-consed
expression language for first-order arithmetic, written in Verus: each
operation carries a `requires`/`ensures` contract over a mathematical model,
and Verus proves the code against it.

Layout of `src/`:

- `num/`: arbitrary-precision integers `ZZ` and rationals `QQ` (rationals are
  kept in lowest terms), modelled as `int` and as canonical fractions; the
  big-number work is done by `num-bigint`, `num-integer`, `num-traits` and
  `num-rational` behind small trusted wrappers.
- `algebra.rs`: the `Ring`, `AbelianGroup`, `Semigroup` and lattice
  signatures, with their laws stated over the models.
- `ring.rs`: sparse vectors, modelled as maps from dimensions to nonzero
  coefficients.
- `matrix.rs`: sparse matrices, modelled as maps from row indices to nonzero
  rows.
- `inner.rs`: laws of the sparse inner product (additivity, homogeneity,
  dependence on the keys of the first argument only).
- `linear.rs`, `linear/vector_space.rs`: affine terms, Gaussian elimination,
  null spaces, intersections of row spaces, pushouts and operations on bases.
- `linear/elimination.rs`: Gaussian elimination described through the
  solutions it preserves; the completeness of `solve` and the spanning
  property of `nullspace` are proved from it.
- `linear/universal.rs`: row vectors times matrices read column by column,
  inner products against interlaced vectors, and the universal property of
  `pushout`.
- `syntax/`: symbols, types, de Bruijn environments, the expression context
  (hash-consing arena, symbol table), destructuring views, pretty-printing,
  negation normal form and capture-avoiding substitution.

`app/` holds what stays in ordinary Rust: floating-point approximation,
conversions to the `num` crates' types, and the standard formatting and error
traits on copies of the library's error types.
