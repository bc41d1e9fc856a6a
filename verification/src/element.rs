//! A modular scalar: a value `uint` carried together with its modulus `q`,
//! with arithmetic in the ring of integers modulo `q`.  Binary operations
//! demand matching moduli; subtraction wraps by adding `q`.

use vstd::prelude::*;
use crate::arith::{add_val, mul_val, sub_val};
use crate::zeroq::ZeroQ;

verus! {

#[derive(Clone, Copy, PartialEq, Eq, Structural, Debug)]
pub struct Element {
    pub q: u64,
    pub uint: u64,
}

impl Element {
    /// True when the value is reduced below its modulus.  All operations
    /// return reduced values; constructors accept unreduced ones.
    pub open spec fn reduced(self) -> bool {
        self.uint < self.q
    }

    /// The zero scalar at modulus `q`.
    pub fn new(q: u64) -> (r: Element)
        ensures
            r.q == q,
            r.uint == 0,
    {
        Element { q, uint: 0 }
    }

    /// A scalar from a raw value.  The value is stored as given, without
    /// reduction; callers are expected to pass `uint < q`.
    pub fn from(q: u64, uint: u64) -> (r: Element)
        requires
            q < u64::MAX,
            uint < u64::MAX,
        ensures
            r.q == q,
            r.uint == uint,
    {
        Element { q, uint }
    }

    /// A scalar drawn uniformly from `[0, q)`.
    pub fn gen_uniform_rand(q: u64) -> (r: Element)
        requires
            q >= 1,
        ensures
            r.q == q,
            r.uint < q,
    {
        let mut rng = crate::rng::fresh_rng();
        let v = crate::rng::sample_below(&mut rng, q);
        Element { q, uint: v }
    }

    /// In-place addition; same contract as `+`.
    pub fn add_assign(&mut self, rhs: Element)
        requires
            old(self).q == rhs.q,
            old(self).q >= 1,
        ensures
            final(self).q == old(self).q,
            final(self).uint == add_val(old(self).uint as int, rhs.uint as int, old(self).q as int),
    {
        *self = *self + rhs;
    }

    /// In-place subtraction; same contract as `-`.
    pub fn sub_assign(&mut self, rhs: Element)
        requires
            old(self).q == rhs.q,
            old(self).uint < rhs.uint ==> rhs.uint - old(self).uint <= old(self).q,
        ensures
            final(self).q == old(self).q,
            final(self).uint == sub_val(old(self).uint as int, rhs.uint as int, old(self).q as int),
    {
        *self = *self - rhs;
    }

    /// In-place multiplication; same contract as `*`.
    pub fn mul_assign(&mut self, rhs: Element)
        requires
            old(self).q == rhs.q,
            old(self).q >= 1,
        ensures
            final(self).q == old(self).q,
            final(self).uint == mul_val(old(self).uint as int, rhs.uint as int, old(self).q as int),
    {
        *self = *self * rhs;
    }
}

impl ZeroQ for Element {
    fn zero(q: u64) -> (r: Element)
        ensures
            r.q == q,
            r.uint == 0,
    {
        Element { q, uint: 0 }
    }

    fn is_zero(&self) -> (r: bool)
        ensures
            r == (self.uint == 0),
    {
        self.uint == 0
    }
}

impl std::ops::Add for Element {
    type Output = Element;

    fn add(self, rhs: Element) -> (r: Element) {
        let sum: u128 = self.uint as u128 + rhs.uint as u128;
        let red: u128 = sum % (self.q as u128);
        Element { q: self.q, uint: red as u64 }
    }
}

impl vstd::std_specs::ops::AddSpecImpl for Element {
    open spec fn obeys_add_spec() -> bool {
        true
    }

    open spec fn add_req(self, rhs: Element) -> bool {
        self.q == rhs.q && self.q >= 1
    }

    open spec fn add_spec(self, rhs: Element) -> Element {
        Element { q: self.q, uint: add_val(self.uint as int, rhs.uint as int, self.q as int) as u64 }
    }
}

impl std::ops::Sub for Element {
    type Output = Element;

    fn sub(self, other: Element) -> (r: Element) {
        if self.uint < other.uint {
            let d = other.uint - self.uint;
            Element { q: self.q, uint: self.q - d }
        } else {
            Element { q: self.q, uint: self.uint - other.uint }
        }
    }
}

impl vstd::std_specs::ops::SubSpecImpl for Element {
    open spec fn obeys_sub_spec() -> bool {
        true
    }

    open spec fn sub_req(self, rhs: Element) -> bool {
        self.q == rhs.q && (self.uint < rhs.uint ==> rhs.uint - self.uint <= self.q)
    }

    open spec fn sub_spec(self, rhs: Element) -> Element {
        Element { q: self.q, uint: sub_val(self.uint as int, rhs.uint as int, self.q as int) as u64 }
    }
}

impl std::ops::Mul for Element {
    type Output = Element;

    fn mul(self, rhs: Element) -> (r: Element) {
        assert((self.uint as u128) * (rhs.uint as u128) < u128::MAX) by (nonlinear_arith);
        let prod: u128 = self.uint as u128 * rhs.uint as u128;
        let red: u128 = prod % (self.q as u128);
        Element { q: self.q, uint: red as u64 }
    }
}

impl vstd::std_specs::ops::MulSpecImpl for Element {
    open spec fn obeys_mul_spec() -> bool {
        true
    }

    open spec fn mul_req(self, rhs: Element) -> bool {
        self.q == rhs.q && self.q >= 1
    }

    open spec fn mul_spec(self, rhs: Element) -> Element {
        Element { q: self.q, uint: mul_val(self.uint as int, rhs.uint as int, self.q as int) as u64 }
    }
}

/// The ring laws of the scalar type, stated over the specification
/// functions its operations are contracted to: for reduced `a` and `b`,
/// `(a + b) - b == a` and `a * 1 == a`, and subtraction below zero wraps,
/// `0 - 1 == q - 1`.
pub proof fn lemma_element_laws(a: Element, b: Element)
    requires
        a.q == b.q,
        a.q > 1,
        a.reduced(),
        b.reduced(),
    ensures
        sub_val(add_val(a.uint as int, b.uint as int, a.q as int), b.uint as int, a.q as int)
            == a.uint,
        mul_val(a.uint as int, 1, a.q as int) == a.uint,
        sub_val(0, 1, a.q as int) == a.q - 1,
{
    crate::arith::lemma_element_ring_laws(a.uint as int, b.uint as int, a.q as int);
}

} // verus!
