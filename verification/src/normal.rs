//! The normalizer: the one place that turns an over-ranged, possibly
//! negative staging vector of limbs into canonical form.
//!
//! Every arithmetic primitive builds a staging vector whose entries may lie
//! anywhere in the signed word, hands it to [`reduce`] with a candidate sign,
//! and gets back a canonical [`BigInt`] denoting the same integer.

use vstd::prelude::*;
use vstd::arithmetic::div_mod::{lemma_fundamental_div_mod, lemma_mod_division_less_than_divisor};
use crate::bigint::BigInt;
use crate::digits::{mag_value, limbs_in_range, limbs_trimmed, pow_b, B};
use crate::digits::{
    lemma_mag_value_push, lemma_mag_value_update, lemma_mag_value_bound,
    lemma_mag_value_neg_pointwise, lemma_pow_b_pos,
};

verus! {

/// Remove trailing zero limbs; the value is unchanged.
pub(crate) fn trim(mag: &mut Vec<i64>)
    ensures
        final(mag)@ == old(mag)@.take(final(mag)@.len() as int),
        final(mag)@.len() <= old(mag)@.len(),
        mag_value(final(mag)@) == mag_value(old(mag)@),
        limbs_trimmed(final(mag)@),
{
    while mag.len() > 0 && mag[mag.len() - 1] == 0
        invariant
            mag@.len() <= old(mag)@.len(),
            forall|j: int| 0 <= j < mag@.len() ==> mag@[j] == old(mag)@[j],
            mag_value(mag@) == mag_value(old(mag)@),
        decreases mag@.len(),
    {
        let ghost pre = mag@;
        mag.pop();
        proof {
            assert(mag@ =~= pre.drop_last());
            assert(pre =~= mag@.push(0i64));
            lemma_mag_value_push(mag@, 0i64);
        }
    }
    proof {
        assert(mag@ =~= old(mag)@.take(mag@.len() as int));
    }
}

/// One forward carry pass.  Every limb is brought into `[0, B)`; what spills
/// out of the top comes back as `carry`, so that the value satisfies
/// `new + carry * B^len == old`.
pub(crate) fn carry_sweep(mag: &mut Vec<i64>) -> (carry: i64)
    ensures
        final(mag)@.len() == old(mag)@.len(),
        limbs_in_range(final(mag)@),
        mag_value(final(mag)@) + carry * pow_b(old(mag)@.len()) == mag_value(old(mag)@),
        -3 <= carry <= 3,
{
    let n = mag.len();
    let mut carry: i64 = 0;
    let mut i: usize = 0;
    proof {
        assert(mag_value(mag@) + 0 * pow_b(0) == mag_value(old(mag)@));
    }
    while i < n
        invariant
            mag@.len() == n,
            n == old(mag)@.len(),
            0 <= i <= n,
            -3 <= carry <= 3,
            forall|j: int| 0 <= j < i ==> 0 <= #[trigger] mag@[j] < B,
            forall|j: int| i <= j < n ==> mag@[j] == old(mag)@[j],
            mag_value(mag@) + carry * pow_b(i as nat) == mag_value(old(mag)@),
        decreases n - i,
    {
        let ghost m_pre = mag@;
        let ghost c_pre = carry as int;
        let t: i128 = mag[i] as i128 + carry as i128;
        let q: i64;
        let r: i64;
        if t >= 0 {
            let tu = t as u128;
            let qq = tu / (B as u128);
            let rr = tu % (B as u128);
            proof {
                lemma_fundamental_div_mod(tu as int, B as int);
                lemma_mod_division_less_than_divisor(tu as int, B as int);
                assert(tu < 3 * (B as int));
                assert(qq < 3) by (nonlinear_arith)
                    requires
                        tu < 3 * (B as int),
                        B as int > 0,
                        qq == tu as int / B as int,
                        tu as int == B as int * (qq as int) + rr as int,
                        0 <= rr < B,
                ;
            }
            q = qq as i64;
            r = rr as i64;
            proof {
                assert(t as int == q * (B as int) + r);
            }
        } else {
            let tn = (-t) as u128;
            let qq = tn / (B as u128);
            let rr = tn % (B as u128);
            proof {
                lemma_fundamental_div_mod(tn as int, B as int);
                lemma_mod_division_less_than_divisor(tn as int, B as int);
                assert(tn <= 3 * (B as int));
                assert(qq <= 3) by (nonlinear_arith)
                    requires
                        tn <= 3 * (B as int),
                        B as int > 0,
                        tn as int == B as int * (qq as int) + rr as int,
                        0 <= rr < B,
                ;
            }
            if rr == 0 {
                q = -(qq as i64);
                r = 0;
                proof {
                    assert(t as int == q * (B as int) + r) by (nonlinear_arith)
                        requires
                            tn as int == B as int * (qq as int) + 0,
                            t == -(tn as int),
                            q == -(qq as int),
                            r == 0,
                    ;
                }
            } else {
                q = -((qq + 1) as i64);
                r = B - (rr as i64);
                proof {
                    assert(t as int == q * (B as int) + r) by (nonlinear_arith)
                        requires
                            tn as int == B as int * (qq as int) + rr as int,
                            t == -(tn as int),
                            q == -(qq as int) - 1,
                            r == B as int - rr as int,
                    ;
                }
            }
        }
        // here t == q * B + r with 0 <= r < B and -3 <= q <= 3
        mag[i] = r;
        proof {
            lemma_mag_value_update(m_pre, i as int, r);
            let ghost v_orig = mag_value(old(mag)@);
            assert(mag_value(mag@) + q * pow_b((i + 1) as nat) == v_orig) by (nonlinear_arith)
                requires
                    mag_value(mag@) == mag_value(m_pre) + (r - m_pre[i as int]) * pow_b(i as nat),
                    mag_value(m_pre) + c_pre * pow_b(i as nat) == v_orig,
                    pow_b((i + 1) as nat) == B as int * pow_b(i as nat),
                    m_pre[i as int] + c_pre == q * (B as int) + r,
            ;
        }
        carry = q;
        i = i + 1;
    }
    carry
}

/// Negate every limb in place.
pub(crate) fn negate_limbs(mag: &mut Vec<i64>)
    requires
        forall|j: int| 0 <= j < old(mag)@.len() ==> -B < #[trigger] old(mag)@[j] < B,
    ensures
        final(mag)@.len() == old(mag)@.len(),
        forall|j: int| 0 <= j < final(mag)@.len() ==> #[trigger] final(mag)@[j] == -old(mag)@[j],
        mag_value(final(mag)@) == -mag_value(old(mag)@),
{
    let n = mag.len();
    let mut i: usize = 0;
    while i < n
        invariant
            mag@.len() == n,
            n == old(mag)@.len(),
            0 <= i <= n,
            forall|j: int| 0 <= j < old(mag)@.len() ==> -B < #[trigger] old(mag)@[j] < B,
            forall|j: int| 0 <= j < i ==> #[trigger] mag@[j] == -old(mag)@[j],
            forall|j: int| i <= j < n ==> mag@[j] == old(mag)@[j],
        decreases n - i,
    {
        mag[i] = -mag[i];
        i = i + 1;
    }
    proof {
        lemma_mag_value_neg_pointwise(old(mag)@, mag@);
    }
}

/// Assemble a canonical value from in-range limbs and a sign: trim, and force
/// the sign to zero when nothing remains.
pub(crate) fn finish(mag: Vec<i64>, sgn: i64) -> (r: BigInt)
    requires
        limbs_in_range(mag@),
        sgn == 1 || sgn == -1,
    ensures
        r.wf(),
        r.value() == sgn * mag_value(mag@),
{
    let mut m = mag;
    trim(&mut m);
    proof {
        assert(forall|i: int|
            0 <= i < m@.len() ==> 0 <= #[trigger] m@[i] < B);
    }
    if m.len() == 0 {
        let r = BigInt { mag: m, sgn: 0 };
        proof {
            assert(mag_value(m@) == 0);
        }
        r
    } else {
        BigInt { mag: m, sgn }
    }
}

/// The normalizer.  Takes a staging vector whose limbs may be negative or
/// exceed `B` and a candidate sign, and returns the canonical value
/// `sgn * mag_value(mag)`.
pub fn reduce(mag: Vec<i64>, sgn: i64) -> (r: BigInt)
    requires
        sgn == 1 || sgn == -1,
    ensures
        r.wf(),
        r.value() == sgn * mag_value(mag@),
{
    let ghost m0 = mag@;
    let mut m = mag;
    let n = m.len();
    let c = carry_sweep(&mut m);
    if c == 0 {
        finish(m, sgn)
    } else if c > 0 {
        proof {
            lemma_mag_value_push(m@, c);
        }
        m.push(c);
        proof {
            assert(mag_value(m@) == mag_value(m0));
        }
        finish(m, sgn)
    } else {
        // The swept value went negative: the magnitude is
        // -(swept + c * B^n); negate the limbs, append the borrow, sweep
        // once more, and flip the candidate sign.
        let ghost m1 = m@;
        proof {
            assert(forall|j: int| 0 <= j < m1.len() ==> -B < #[trigger] m1[j] < B);
        }
        negate_limbs(&mut m);
        proof {
            lemma_mag_value_push(m@, (-c) as i64);
        }
        m.push(-c);
        let ghost mp = m@;
        proof {
            // value of the pushed vector is exactly -mag_value(m0)
            assert(mag_value(m1) + c * pow_b(n as nat) == mag_value(m0));
            assert(mag_value(mp) == -mag_value(m1) + (-c) * pow_b(n as nat));
            assert(-mag_value(m1) + (-c) * pow_b(n as nat) == -(mag_value(m1) + c * pow_b(
                n as nat,
            ))) by (nonlinear_arith);
            assert(mag_value(mp) == -mag_value(m0));
            // and it lies in [0, B^(n+1))
            lemma_mag_value_bound(m1);
            assert(mag_value(m1) < pow_b(n as nat));
            assert(mag_value(m0) < 0) by (nonlinear_arith)
                requires
                    mag_value(m1) + c * pow_b(n as nat) == mag_value(m0),
                    0 <= mag_value(m1) < pow_b(n as nat),
                    c <= -1,
                    pow_b(n as nat) >= 1,
            ;
            assert(mag_value(mp) < pow_b((n + 1) as nat)) by (nonlinear_arith)
                requires
                    mag_value(mp) == -mag_value(m1) + (-c) * pow_b(n as nat),
                    mag_value(m1) >= 0,
                    -3 <= c <= -1,
                    pow_b(n as nat) >= 1,
                    pow_b((n + 1) as nat) == B as int * pow_b(n as nat),
                    B as int >= 4,
            ;
            lemma_pow_b_pos(n as nat);
        }
        let c2 = carry_sweep(&mut m);
        proof {
            lemma_mag_value_bound(m@);
            assert(c2 == 0) by (nonlinear_arith)
                requires
                    mag_value(m@) + c2 * pow_b((n + 1) as nat) == mag_value(mp),
                    0 <= mag_value(m@) < pow_b((n + 1) as nat),
                    0 <= mag_value(mp) < pow_b((n + 1) as nat),
                    pow_b((n + 1) as nat) >= 1,
            ;
            assert(mag_value(m@) == -mag_value(m0));
        }
        let r = finish(m, -sgn);
        proof {
            assert((-sgn) as int * (-mag_value(m0)) == sgn as int * mag_value(m0))
                by (nonlinear_arith);
        }
        r
    }
}

} // verus!
