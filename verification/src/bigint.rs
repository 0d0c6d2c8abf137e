//! The `BigInt` value type: a sign tribit together with a canonical vector of
//! base-`B` limbs, plus the operations that need no normalization pass.

use vstd::prelude::*;
use crate::digits::{mag_value, limbs_in_range, limbs_trimmed, B};

verus! {

/// The ways an arithmetic operation can fail.
#[derive(Debug, Clone, Copy, PartialEq, Eq, Structural)]
pub enum MpError {
    /// The divisor of a quotient or remainder was zero.
    DivideByZero,
    /// A remainder was requested for a negative modulus.
    NegativeModulus,
    /// A shift amount was negative.
    NegativeShift,
    /// A left shift would exceed the supported magnitude size.
    ShiftOverflow,
}

/// An arbitrary-precision signed integer in sign-magnitude form.
///
/// `mag` stores the magnitude base `B`, least-significant limb first; `sgn`
/// is `-1`, `0` or `+1`.  Canonical form (`wf`) requires every limb in
/// `[0, B)`, no trailing zero limb, and an empty magnitude exactly for zero.
#[derive(Debug, PartialEq, Eq)]
pub struct BigInt {
    pub(crate) mag: Vec<i64>,
    pub(crate) sgn: i64,
}

impl BigInt {
    /// The mathematical integer this value denotes.
    pub open(crate) spec fn value(&self) -> int {
        self.sgn as int * mag_value(self.mag@)
    }

    /// Canonical form: the invariants every public operation preserves.
    pub open(crate) spec fn wf(&self) -> bool {
        &&& (self.sgn == 1 || self.sgn == 0 || self.sgn == -1)
        &&& limbs_in_range(self.mag@)
        &&& limbs_trimmed(self.mag@)
        &&& (self.sgn == 0 <==> self.mag@.len() == 0)
    }

    /// The zero value.
    pub fn zero() -> (r: BigInt)
        ensures
            r.wf(),
            r.value() == 0,
    {
        BigInt { mag: Vec::new(), sgn: 0 }
    }
}

/// A canonical value is zero, positive or negative according to its sign.
pub(crate) proof fn lemma_value_sign(a: &BigInt)
    requires
        a.wf(),
    ensures
        a.sgn == 0 ==> a.value() == 0,
        a.sgn == 1 ==> a.value() >= 1,
        a.sgn == -1 ==> a.value() <= -1,
{
    crate::digits::lemma_mag_value_trimmed_pos(a.mag@);
}

impl BigInt {
    /// Total order: `-1`, `0` or `+1` as `self` is below, equal to, or
    /// above `other`.
    pub fn cmp(&self, other: &BigInt) -> (r: i64)
        requires
            self.wf(),
            other.wf(),
        ensures
            r == 1 || r == 0 || r == -1,
            (r == -1) <==> self.value() < other.value(),
            (r == 0) <==> self.value() == other.value(),
            (r == 1) <==> self.value() > other.value(),
    {
        proof {
            lemma_value_sign(self);
            lemma_value_sign(other);
        }
        if self.sgn != other.sgn {
            if self.sgn < other.sgn {
                return -1;
            }
            return 1;
        }
        if self.sgn == 0 {
            return 0;
        }
        let mc = crate::magops::mag_cmp(&self.mag, &other.mag);
        proof {
            assert(self.sgn == 1 ==> self.value() == mag_value(self.mag@) && other.value()
                == mag_value(other.mag@)) by (nonlinear_arith)
                requires
                    self.value() == self.sgn as int * mag_value(self.mag@),
                    other.value() == other.sgn as int * mag_value(other.mag@),
                    other.sgn == self.sgn,
            ;
            assert(self.sgn == -1 ==> self.value() == -mag_value(self.mag@) && other.value()
                == -mag_value(other.mag@)) by (nonlinear_arith)
                requires
                    self.value() == self.sgn as int * mag_value(self.mag@),
                    other.value() == other.sgn as int * mag_value(other.mag@),
                    other.sgn == self.sgn,
            ;
        }
        if self.sgn == 1 {
            mc
        } else {
            -mc
        }
    }

    /// Value equality.
    pub fn eq_value(&self, other: &BigInt) -> (r: bool)
        requires
            self.wf(),
            other.wf(),
        ensures
            r <==> self.value() == other.value(),
    {
        self.cmp(other) == 0
    }
}

/// Copy a limb vector.
pub(crate) fn mag_copy(v: &Vec<i64>) -> (r: Vec<i64>)
    ensures
        r@ == v@,
{
    let mut r: Vec<i64> = Vec::new();
    let mut i: usize = 0;
    while i < v.len()
        invariant
            i <= v.len(),
            r@ == v@.take(i as int),
        decreases v.len() - i,
    {
        r.push(v[i]);
        proof {
            assert(v@.take(i + 1) =~= v@.take(i as int).push(v@[i as int]));
        }
        i = i + 1;
    }
    proof {
        assert(v@.take(v@.len() as int) =~= v@);
    }
    r
}

/// Negation: flip the sign, keep the magnitude.
pub fn neg(a: &BigInt) -> (r: BigInt)
    requires
        a.wf(),
    ensures
        r.wf(),
        r.value() == -a.value(),
{
    let r = BigInt { mag: mag_copy(&a.mag), sgn: -a.sgn };
    proof {
        let s = a.sgn as int;
        let m = mag_value(a.mag@);
        assert((-s) * m == -(s * m)) by (nonlinear_arith);
    }
    r
}

} // verus!
