//! Exact arithmetic over a prime field, and the dense polynomial ring built
//! on top of it: modular add/subtract/multiply/divide/invert/exponentiate,
//! the extended Euclidean algorithm, fixed algebraic constants for one
//! canonical prime, polynomial ring arithmetic, Euclidean division, point
//! evaluation, Lagrange interpolation, zerofier construction, coefficient
//! scaling, and a colinearity test.

pub mod fields;
pub mod modular;
pub mod number_theory;
pub mod polynomials;
