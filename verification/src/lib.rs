//! A minimal algebraic toolkit for elliptic-curve cryptography over a prime
//! field: modular field arithmetic (`field`) and the short-Weierstrass group
//! law on curve points (`point`), together with the number-theoretic facts
//! (`primality`, `fermat`) that justify inversion by exponentiation.
use vstd::prelude::*;

pub mod fermat;
pub mod field;
pub mod point;
pub mod primality;

verus! {

/// The only two failure conditions in the library: dividing a field element
/// by the additive identity, and building a point from coordinates that do
/// not satisfy the curve equation.
#[derive(Debug, Clone, Copy, PartialEq, Eq, Structural)]
pub enum Error {
    DivisionByZero,
    PointNotOnCurve,
}

} // verus!
