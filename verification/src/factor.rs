//! A base/exponent pair with its computed power. Ancillary to the search: a
//! demonstration value, kept for completeness.

use vstd::arithmetic::mul::lemma_mul_inequality;
use vstd::prelude::*;

verus! {

/// `b` raised to the power `e`.
pub open spec fn pow_spec(b: nat, e: nat) -> nat
    decreases e,
{
    if e == 0 {
        1
    } else {
        b * pow_spec(b, (e - 1) as nat)
    }
}

proof fn lemma_pow_mono(b: nat, e1: nat, e2: nat)
    requires
        b >= 1,
        e1 <= e2,
    ensures
        pow_spec(b, e1) <= pow_spec(b, e2),
    decreases e2 - e1,
{
    if e1 < e2 {
        lemma_pow_mono(b, e1, (e2 - 1) as nat);
        lemma_mul_inequality(1, b as int, pow_spec(b, (e2 - 1) as nat) as int);
    }
}

/// A base raised to an exponent.
pub struct Factor {
    pub base: u32,
    pub exponent: u32,
}

impl Factor {
    /// Pair a base with an exponent.
    pub fn new(base: u32, exponent: u32) -> (f: Factor)
        ensures
            f.base == base,
            f.exponent == exponent,
    {
        Factor { base, exponent }
    }

    /// The power `base ^ exponent`, which must fit the machine word.
    pub fn value(&self) -> (v: u32)
        requires
            pow_spec(self.base as nat, self.exponent as nat) <= u32::MAX,
        ensures
            v as nat == pow_spec(self.base as nat, self.exponent as nat),
    {
        let mut acc: u32 = 1;
        let mut e: u32 = 0;
        while e < self.exponent
            invariant
                e <= self.exponent,
                acc as nat == pow_spec(self.base as nat, e as nat),
                pow_spec(self.base as nat, self.exponent as nat) <= u32::MAX,
            decreases self.exponent - e,
        {
            proof {
                let b = self.base as nat;
                let a = acc as nat;
                assert(pow_spec(b, (e + 1) as nat) == b * pow_spec(b, e as nat));
                assert(a * b == b * a) by (nonlinear_arith);
                if self.base >= 1 {
                    lemma_pow_mono(b, (e + 1) as nat, self.exponent as nat);
                } else {
                    assert(b * a == 0) by (nonlinear_arith)
                        requires
                            b == 0,
                    {}
                }
                assert(a * b <= u32::MAX);
            }
            acc = acc * self.base;
            e = e + 1;
        }
        acc
    }
}

} // verus!
