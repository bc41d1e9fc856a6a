//! A trait for types that carry an additive identity at a given modulus.

use vstd::prelude::*;

verus! {

/// Types with a zero value tied to a modulus `q`, and a zero test.
pub trait ZeroQ: Sized {
    fn zero(q: u64) -> Self;

    fn is_zero(&self) -> bool;
}

} // verus!
