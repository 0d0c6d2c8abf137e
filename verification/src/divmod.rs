//! The divisional primitive: quotient and remainder with floor semantics
//! (the remainder takes the divisor's sign), plus the division and remainder
//! front ends.

use vstd::prelude::*;
use vstd::arithmetic::power2::pow2;
use vstd::arithmetic::div_mod::{lemma_div_basics, lemma_fundamental_div_mod_converse};
use crate::bigint::{BigInt, MpError, lemma_value_sign};
use crate::bits::{mag_bit, mag_bits, bit_at, lemma_div_pow2_step, lemma_div_pow2_low};
use crate::digits::{mag_value, limbs_in_range, limbs_trimmed, lemma_mag_value_bound};
use crate::magops::{mag_add, mag_sub, mag_cmp, mag_double_plus};
use crate::normal::finish;

verus! {

/// Floor division: the quotient rounded toward minus infinity.
pub open spec fn div_floor(a: int, b: int) -> int {
    if b > 0 {
        a / b
    } else {
        (-a) / (-b)
    }
}

/// The remainder matching floor division: `a - b * div_floor(a, b)`, which
/// carries the divisor's sign (or is zero).
pub open spec fn mod_floor(a: int, b: int) -> int {
    a - b * div_floor(a, b)
}

/// Binary long division of magnitudes: scans the dividend from its most
/// significant bit, doubling remainder and quotient and subtracting the
/// divisor whenever it fits.
pub(crate) fn mag_divmod(a: &Vec<i64>, b: &Vec<i64>) -> (qr: (Vec<i64>, Vec<i64>))
    requires
        limbs_in_range(a@),
        limbs_trimmed(a@),
        limbs_in_range(b@),
        mag_value(b@) >= 1,
    ensures
        limbs_in_range(qr.0@),
        limbs_in_range(qr.1@),
        mag_value(a@) == mag_value(qr.0@) * mag_value(b@) + mag_value(qr.1@),
        0 <= mag_value(qr.1@) < mag_value(b@),
{
    let ghost va = mag_value(a@);
    let ghost vb = mag_value(b@);
    let n = mag_bits(a);
    let mut q: Vec<i64> = Vec::new();
    let mut r: Vec<i64> = Vec::new();
    let mut i = n;
    proof {
        lemma_mag_value_bound(a@);
        lemma_div_pow2_low(va, n as nat);
        assert(mag_value(q@) * vb == 0) by (nonlinear_arith)
            requires
                mag_value(q@) == 0,
        ;
    }
    while i > 0
        invariant
            0 <= i <= n,
            n <= 62 * a@.len(),
            limbs_in_range(a@),
            va == mag_value(a@),
            vb == mag_value(b@),
            vb >= 1,
            0 <= va,
            limbs_in_range(b@),
            limbs_in_range(q@),
            limbs_in_range(r@),
            mag_value(q@) * vb + mag_value(r@) == va / pow2(i as nat) as int,
            0 <= mag_value(r@) < vb,
        decreases i,
    {
        i = i - 1;
        let bit = mag_bit(a, i);
        let ghost vq = mag_value(q@);
        let ghost vr = mag_value(r@);
        let ghost b_i = bit_at(va, i as nat);
        proof {
            lemma_div_pow2_step(va, i as nat);
        }
        mag_double_plus(&mut r, bit);
        let qbit: bool;
        if mag_cmp(&r, b) >= 0 {
            let nr = mag_sub(&r, b);
            r = nr;
            qbit = true;
        } else {
            qbit = false;
        }
        mag_double_plus(&mut q, qbit);
        proof {
            let ghost qb: int = if qbit {
                1
            } else {
                0
            };
            assert(mag_value(r@) == 2 * vr + b_i - qb * vb);
            assert(mag_value(q@) == 2 * vq + qb);
            assert(mag_value(q@) * vb + mag_value(r@) == 2 * (vq * vb + vr) + b_i)
                by (nonlinear_arith)
                requires
                    mag_value(q@) == 2 * vq + qb,
                    mag_value(r@) == 2 * vr + b_i - qb * vb,
            ;
        }
    }
    proof {
        lemma_div_basics(va);
        assert(pow2(0) == 1) by {
            vstd::arithmetic::power2::lemma2_to64();
        }
    }
    (q, r)
}

/// Quotient and remainder together.  For `b != 0` the pair is the floor
/// division of `a` by `b`: `a == q*b + r` with `r` on the divisor's side of
/// zero.  A zero divisor is the one failure.
pub fn divmod(a: &BigInt, b: &BigInt) -> (res: Result<(BigInt, BigInt), MpError>)
    requires
        a.wf(),
        b.wf(),
    ensures
        match res {
            Err(e) => e == MpError::DivideByZero && b.value() == 0,
            Ok(qr) => {
                &&& b.value() != 0
                &&& qr.0.wf()
                &&& qr.1.wf()
                &&& a.value() == qr.0.value() * b.value() + qr.1.value()
                &&& (b.value() > 0 ==> 0 <= qr.1.value() < b.value())
                &&& (b.value() < 0 ==> b.value() < qr.1.value() <= 0)
                &&& qr.0.value() == div_floor(a.value(), b.value())
                &&& qr.1.value() == mod_floor(a.value(), b.value())
            },
        },
{
    proof {
        lemma_value_sign(a);
        lemma_value_sign(b);
        crate::digits::lemma_mag_value_trimmed_pos(b.mag@);
        crate::digits::lemma_mag_value_trimmed_pos(a.mag@);
    }
    if b.sgn == 0 {
        return Err(MpError::DivideByZero);
    }
    if a.sgn == 0 {
        let q = BigInt::zero();
        let r = BigInt::zero();
        proof {
            lemma_divmod_unique(a.value(), b.value(), 0, 0);
            assert(0 * b.value() == 0) by (nonlinear_arith);
        }
        return Ok((q, r));
    }
    let (qm, rm) = mag_divmod(&a.mag, &b.mag);
    let ghost va = mag_value(a.mag@);
    let ghost vb = mag_value(b.mag@);
    let ghost vq = mag_value(qm@);
    let ghost vr = mag_value(rm@);
    if a.sgn == b.sgn {
        let q = finish(qm, 1);
        let r = finish(rm, a.sgn);
        proof {
            assert(a.value() == q.value() * b.value() + r.value() && (b.value() > 0 ==> 0
                <= r.value() < b.value()) && (b.value() < 0 ==> b.value() < r.value() <= 0))
                by (nonlinear_arith)
                requires
                    va == vq * vb + vr,
                    0 <= vr < vb,
                    a.value() == a.sgn as int * va,
                    b.value() == b.sgn as int * vb,
                    q.value() == vq,
                    r.value() == a.sgn as int * vr,
                    a.sgn == b.sgn,
                    a.sgn == 1 || a.sgn == -1,
            ;
            lemma_divmod_unique(a.value(), b.value(), q.value(), r.value());
        }
        Ok((q, r))
    } else {
        let r0 = finish(rm, 1);
        if r0.sgn == 0 {
            let q = finish(qm, -1);
            let r = BigInt::zero();
            proof {
                lemma_value_sign(&r0);
                assert(a.value() == q.value() * b.value() + r.value() && r.value() == 0)
                    by (nonlinear_arith)
                    requires
                        va == vq * vb + vr,
                        vr == 0,
                        a.value() == a.sgn as int * va,
                        b.value() == b.sgn as int * vb,
                        q.value() == -1 * vq,
                        r.value() == 0,
                        a.sgn as int == -(b.sgn as int),
                        b.sgn == 1 || b.sgn == -1,
                ;
                lemma_divmod_unique(a.value(), b.value(), q.value(), r.value());
            }
            Ok((q, r))
        } else {
            proof {
                lemma_value_sign(&r0);
            }
            let mut one: Vec<i64> = Vec::new();
            one.push(1);
            proof {
                assert(one@.drop_first() =~= Seq::<i64>::empty());
                assert(mag_value(Seq::<i64>::empty()) == 0);
                assert(mag_value(one@) == 1);
            }
            let q = finish(mag_add(&qm, &one), -1);
            let r = finish(mag_sub(&b.mag, &r0.mag), b.sgn);
            proof {
                assert(a.value() == q.value() * b.value() + r.value() && (b.value() > 0 ==> 0
                    <= r.value() < b.value()) && (b.value() < 0 ==> b.value() < r.value() <= 0))
                    by (nonlinear_arith)
                    requires
                        va == vq * vb + vr,
                        0 < vr < vb,
                        a.value() == a.sgn as int * va,
                        b.value() == b.sgn as int * vb,
                        q.value() == -1 * (vq + 1),
                        r.value() == b.sgn as int * (vb - vr),
                        a.sgn as int == -(b.sgn as int),
                        a.sgn == 1 || a.sgn == -1,
                        b.sgn == 1 || b.sgn == -1,
                ;
                lemma_divmod_unique(a.value(), b.value(), q.value(), r.value());
            }
            Ok((q, r))
        }
    }
}

/// The identity `a == q*b + r` with `r` on the divisor's side of zero pins
/// the pair down: it is exactly floor division.
pub proof fn lemma_divmod_unique(a: int, b: int, q: int, r: int)
    requires
        b != 0,
        a == q * b + r,
        b > 0 ==> 0 <= r < b,
        b < 0 ==> b < r <= 0,
    ensures
        q == div_floor(a, b),
        r == mod_floor(a, b),
{
    if b > 0 {
        lemma_fundamental_div_mod_converse(a, b, q, r);
        assert(mod_floor(a, b) == a - b * (a / b));
    } else {
        assert(-a == q * (-b) + (-r)) by (nonlinear_arith)
            requires
                a == q * b + r,
        ;
        lemma_fundamental_div_mod_converse(-a, -b, q, -r);
        assert(q == div_floor(a, b));
    }
    assert(r == a - b * q) by (nonlinear_arith)
        requires
            a == q * b + r,
    ;
    assert(mod_floor(a, b) == a - b * div_floor(a, b));
}

impl BigInt {
    /// The quotient of floor division; fails only on a zero divisor.
    pub fn div(&self, b: &BigInt) -> (res: Result<BigInt, MpError>)
        requires
            self.wf(),
            b.wf(),
        ensures
            match res {
                Err(e) => e == MpError::DivideByZero && b.value() == 0,
                Ok(q) => b.value() != 0 && q.wf() && q.value() == div_floor(
                    self.value(),
                    b.value(),
                ),
            },
    {
        match divmod(self, b) {
            Ok(qr) => Ok(qr.0),
            Err(e) => Err(e),
        }
    }

    /// The remainder for a positive modulus: always in `[0, b)`.  A negative
    /// modulus and a zero modulus fail, each with its own error.
    pub fn rem(&self, b: &BigInt) -> (res: Result<BigInt, MpError>)
        requires
            self.wf(),
            b.wf(),
        ensures
            match res {
                Err(MpError::NegativeModulus) => b.value() < 0,
                Err(MpError::DivideByZero) => b.value() == 0,
                Err(_) => false,
                Ok(r) => {
                    &&& b.value() > 0
                    &&& r.wf()
                    &&& r.value() == self.value() % b.value()
                    &&& 0 <= r.value() < b.value()
                },
            },
    {
        proof {
            lemma_value_sign(b);
        }
        if b.sgn == -1 {
            return Err(MpError::NegativeModulus);
        }
        match divmod(self, b) {
            Ok(qr) => {
                proof {
                    lemma_fundamental_div_mod_converse(
                        self.value(),
                        b.value(),
                        qr.0.value(),
                        qr.1.value(),
                    );
                }
                Ok(qr.1)
            },
            Err(e) => Err(e),
        }
    }
}

} // verus!
