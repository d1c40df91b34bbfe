//! Unsigned 256-bit numbers, as far as the chain rules need them.

use vstd::prelude::*;

verus! {

/// Two to the power 128.
pub open spec fn two_128() -> nat {
    u128::MAX as nat + 1
}

/// Two to the power 256.
pub open spec fn two_256() -> nat {
    two_128() * two_128()
}

/// An unsigned 256-bit number in two halves.
#[derive(Clone, Copy, Debug, PartialEq, Eq, Structural)]
pub struct U256 {
    /// The upper 128 bits.
    pub hi: u128,
    /// The lower 128 bits.
    pub lo: u128,
}

impl View for U256 {
    type V = nat;

    open spec fn view(&self) -> nat {
        self.hi as nat * two_128() + self.lo as nat
    }
}

/// Every value of the type is below two to the power 256, and the two halves
/// are determined by the number.
pub proof fn lemma_u256_bounds(a: U256, b: U256)
    ensures
        a@ < two_256(),
        a@ == b@ <==> a == b,
        a@ < b@ <==> (a.hi < b.hi || (a.hi == b.hi && a.lo < b.lo)),
{
    let t = two_128() as int;
    let ah = a.hi as int;
    let bh = b.hi as int;
    assert(ah * t + t <= t * t) by (nonlinear_arith)
        requires
            ah + 1 <= t,
            t > 0,
    ;
    if ah < bh {
        assert(ah * t + t <= bh * t) by (nonlinear_arith)
            requires
                ah + 1 <= bh,
                t > 0,
        ;
    }
    if bh < ah {
        assert(bh * t + t <= ah * t) by (nonlinear_arith)
            requires
                bh + 1 <= ah,
                t > 0,
        ;
    }
}

/// Every number below two to the power 256 is the value of a `U256`.
pub proof fn lemma_u256_exists(n: nat)
    requires
        n < two_256(),
    ensures
        exists|x: U256| x@ == n,
{
    let t = two_128() as int;
    let q = n as int / t;
    let r = n as int % t;
    assert(0 <= q < t && 0 <= r < t && q * t + r == n) by (nonlinear_arith)
        requires
            0 <= n < t * t,
            t > 0,
            q == n as int / t,
            r == n as int % t,
    ;
    let x = U256 { hi: q as u128, lo: r as u128 };
    assert(x@ == n);
}

impl U256 {
    /// The number zero.
    pub fn zero() -> (r: U256)
        ensures
            r@ == 0,
    {
        U256 { hi: 0, lo: 0 }
    }

    /// Whether `self` is at most `other`.
    pub fn le(&self, other: &U256) -> (r: bool)
        ensures
            r == (self@ <= other@),
    {
        proof {
            lemma_u256_bounds(*self, *other);
            lemma_u256_bounds(*other, *self);
        }
        self.hi < other.hi || (self.hi == other.hi && self.lo <= other.lo)
    }

    /// Whether `self` is below `other`.
    pub fn lt(&self, other: &U256) -> (r: bool)
        ensures
            r == (self@ < other@),
    {
        proof {
            lemma_u256_bounds(*self, *other);
        }
        self.hi < other.hi || (self.hi == other.hi && self.lo < other.lo)
    }

    /// The sum of the two numbers, where it is below two to the power 256.
    pub fn checked_add(&self, other: &U256) -> (r: Option<U256>)
        ensures
            r.is_some() <==> self@ + other@ < two_256(),
            r.is_some() ==> r.unwrap()@ == self@ + other@,
    {
        let t = Ghost(two_128() as int);
        let (lo, carry): (u128, u128) = if self.lo <= u128::MAX - other.lo {
            (self.lo + other.lo, 0)
        } else {
            (self.lo - (u128::MAX - other.lo) - 1, 1)
        };
        assert(lo as int + carry as int * t@ == self.lo as int + other.lo as int);
        proof {
            let s = self.hi as int + other.hi as int + carry as int;
            assert(self@ + other@ == s * t@ + lo as int) by (nonlinear_arith)
                requires
                    self@ == self.hi as int * t@ + self.lo as int,
                    other@ == other.hi as int * t@ + other.lo as int,
                    lo as int + carry as int * t@ == self.lo as int + other.lo as int,
                    s == self.hi as int + other.hi as int + carry as int,
            ;
            if s >= t@ {
                assert(s * t@ >= t@ * t@) by (nonlinear_arith)
                    requires
                        s >= t@,
                        t@ > 0,
                ;
            } else {
                assert(s * t@ + t@ <= t@ * t@) by (nonlinear_arith)
                    requires
                        s + 1 <= t@,
                        t@ > 0,
                ;
            }
        }
        if self.hi > u128::MAX - other.hi {
            return None;
        }
        let hi: u128 = self.hi + other.hi;
        if carry == 1 && hi == u128::MAX {
            return None;
        }
        Some(U256 { hi: hi + carry, lo })
    }
}

} // verus!
