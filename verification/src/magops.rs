//! Exact helpers on raw magnitudes: addition, subtraction, comparison,
//! doubling, and scaling by a single limb.  Each keeps every limb in the
//! canonical range and states its effect on the denoted value.

use vstd::prelude::*;
use vstd::arithmetic::div_mod::{lemma_fundamental_div_mod, lemma_mod_division_less_than_divisor};
use crate::digits::{
    mag_value, limbs_in_range, limbs_trimmed, pfx_val, pow_b, B, lemma_mag_value_push,
    lemma_mag_value_update, lemma_mag_value_bound, lemma_pfx_val_zero, lemma_pfx_val_full,
    lemma_pfx_val_succ, lemma_pow_b_increases, lemma_pow_b_pos,
};

verus! {

/// Magnitude addition with a running carry.
pub(crate) fn mag_add(x: &Vec<i64>, y: &Vec<i64>) -> (r: Vec<i64>)
    requires
        limbs_in_range(x@),
        limbs_in_range(y@),
    ensures
        limbs_in_range(r@),
        mag_value(r@) == mag_value(x@) + mag_value(y@),
        r@.len() <= (if x@.len() > y@.len() {
            x@.len()
        } else {
            y@.len()
        }) + 1,
{
    let lx = x.len();
    let ly = y.len();
    let n = if lx > ly {
        lx
    } else {
        ly
    };
    let mut c: Vec<i64> = Vec::new();
    let mut carry: i64 = 0;
    let mut i: usize = 0;
    proof {
        lemma_pfx_val_zero(x@);
        lemma_pfx_val_zero(y@);
    }
    while i < n
        invariant
            0 <= i <= n,
            n >= lx,
            n >= ly,
            lx == x@.len(),
            ly == y@.len(),
            limbs_in_range(x@),
            limbs_in_range(y@),
            c@.len() == i,
            0 <= carry <= 1,
            limbs_in_range(c@),
            mag_value(c@) + carry * pow_b(i as nat) == pfx_val(x@, i as int) + pfx_val(
                y@,
                i as int,
            ),
        decreases n - i,
    {
        let xv: i64 = if i < lx {
            x[i]
        } else {
            0
        };
        let yv: i64 = if i < ly {
            y[i]
        } else {
            0
        };
        let t = xv + yv + carry;
        let limb: i64;
        let nc: i64;
        if t >= B {
            limb = t - B;
            nc = 1;
        } else {
            limb = t;
            nc = 0;
        }
        proof {
            lemma_mag_value_push(c@, limb);
            lemma_pfx_val_succ(x@, i as int);
            lemma_pfx_val_succ(y@, i as int);
            let p = pow_b(i as nat);
            let px = pfx_val(x@, i as int);
            let py = pfx_val(y@, i as int);
            assert(mag_value(c@.push(limb)) + nc * pow_b((i + 1) as nat) == pfx_val(
                x@,
                i + 1,
            ) + pfx_val(y@, i + 1)) by (nonlinear_arith)
                requires
                    mag_value(c@.push(limb)) == mag_value(c@) + limb * p,
                    mag_value(c@) + carry * p == px + py,
                    limb + nc * (B as int) == xv + yv + carry,
                    pow_b((i + 1) as nat) == B as int * p,
                    pfx_val(x@, i + 1) == px + xv * p,
                    pfx_val(y@, i + 1) == py + yv * p,
            ;
        }
        c.push(limb);
        carry = nc;
        i = i + 1;
    }
    proof {
        lemma_pfx_val_full(x@, n as int);
        lemma_pfx_val_full(y@, n as int);
    }
    if carry == 1 {
        proof {
            lemma_mag_value_push(c@, 1i64);
        }
        c.push(1);
    }
    c
}

/// Magnitude subtraction with a running borrow; the minuend must dominate.
pub(crate) fn mag_sub(x: &Vec<i64>, y: &Vec<i64>) -> (r: Vec<i64>)
    requires
        limbs_in_range(x@),
        limbs_in_range(y@),
        mag_value(x@) >= mag_value(y@),
    ensures
        limbs_in_range(r@),
        mag_value(r@) == mag_value(x@) - mag_value(y@),
        r@.len() <= (if x@.len() > y@.len() {
            x@.len()
        } else {
            y@.len()
        }),
{
    let lx = x.len();
    let ly = y.len();
    let n = if lx > ly {
        lx
    } else {
        ly
    };
    let mut c: Vec<i64> = Vec::new();
    let mut borrow: i64 = 0;
    let mut i: usize = 0;
    proof {
        lemma_pfx_val_zero(x@);
        lemma_pfx_val_zero(y@);
    }
    while i < n
        invariant
            0 <= i <= n,
            n >= lx,
            n >= ly,
            n == lx || n == ly,
            lx == x@.len(),
            ly == y@.len(),
            limbs_in_range(x@),
            limbs_in_range(y@),
            c@.len() == i,
            0 <= borrow <= 1,
            limbs_in_range(c@),
            mag_value(c@) - borrow * pow_b(i as nat) == pfx_val(x@, i as int) - pfx_val(
                y@,
                i as int,
            ),
        decreases n - i,
    {
        let xv: i64 = if i < lx {
            x[i]
        } else {
            0
        };
        let yv: i64 = if i < ly {
            y[i]
        } else {
            0
        };
        let t = xv - yv - borrow;
        let limb: i64;
        let nb: i64;
        if t < 0 {
            limb = t + B;
            nb = 1;
        } else {
            limb = t;
            nb = 0;
        }
        proof {
            lemma_mag_value_push(c@, limb);
            lemma_pfx_val_succ(x@, i as int);
            lemma_pfx_val_succ(y@, i as int);
            let p = pow_b(i as nat);
            let px = pfx_val(x@, i as int);
            let py = pfx_val(y@, i as int);
            assert(mag_value(c@.push(limb)) - nb * pow_b((i + 1) as nat) == pfx_val(
                x@,
                i + 1,
            ) - pfx_val(y@, i + 1)) by (nonlinear_arith)
                requires
                    mag_value(c@.push(limb)) == mag_value(c@) + limb * p,
                    mag_value(c@) - borrow * p == px - py,
                    limb - nb * (B as int) == xv - yv - borrow,
                    pow_b((i + 1) as nat) == B as int * p,
                    pfx_val(x@, i + 1) == px + xv * p,
                    pfx_val(y@, i + 1) == py + yv * p,
            ;
        }
        c.push(limb);
        borrow = nb;
        i = i + 1;
    }
    proof {
        lemma_pfx_val_full(x@, n as int);
        lemma_pfx_val_full(y@, n as int);
        lemma_mag_value_bound(c@);
        lemma_pow_b_pos(n as nat);
        assert(borrow == 0) by (nonlinear_arith)
            requires
                mag_value(c@) - borrow * pow_b(n as nat) == mag_value(x@) - mag_value(y@),
                mag_value(x@) - mag_value(y@) >= 0,
                0 <= mag_value(c@) < pow_b(n as nat),
                0 <= borrow <= 1,
                pow_b(n as nat) >= 1,
        ;
    }
    c
}

/// Three-way magnitude comparison: `-1`, `0` or `+1` as the first value is
/// below, equal to, or above the second.
pub(crate) fn mag_cmp(x: &Vec<i64>, y: &Vec<i64>) -> (r: i64)
    requires
        limbs_in_range(x@),
        limbs_in_range(y@),
    ensures
        r == 1 || r == 0 || r == -1,
        (r == 1) <==> mag_value(x@) > mag_value(y@),
        (r == 0) <==> mag_value(x@) == mag_value(y@),
        (r == -1) <==> mag_value(x@) < mag_value(y@),
{
    let lx = x.len();
    let ly = y.len();
    let n = if lx > ly {
        lx
    } else {
        ly
    };
    let mut i: usize = n;
    proof {
        lemma_pfx_val_full(x@, n as int);
        lemma_pfx_val_full(y@, n as int);
    }
    while i > 0
        invariant
            0 <= i <= n,
            n >= lx,
            n >= ly,
            lx == x@.len(),
            ly == y@.len(),
            limbs_in_range(x@),
            limbs_in_range(y@),
            mag_value(x@) - mag_value(y@) == pfx_val(x@, i as int) - pfx_val(y@, i as int),
        decreases i,
    {
        i = i - 1;
        let xv: i64 = if i < lx {
            x[i]
        } else {
            0
        };
        let yv: i64 = if i < ly {
            y[i]
        } else {
            0
        };
        proof {
            lemma_pfx_val_succ(x@, i as int);
            lemma_pfx_val_succ(y@, i as int);
            lemma_pfx_val_bound(x@, i as int);
            lemma_pfx_val_bound(y@, i as int);
        }
        if xv > yv {
            proof {
                let p = pow_b(i as nat);
                assert(mag_value(x@) > mag_value(y@)) by (nonlinear_arith)
                    requires
                        mag_value(x@) - mag_value(y@) == (pfx_val(x@, i as int) + xv * p) - (
                        pfx_val(y@, i as int) + yv * p),
                        xv - yv >= 1,
                        0 <= pfx_val(x@, i as int) < p,
                        0 <= pfx_val(y@, i as int) < p,
                ;
            }
            return 1;
        }
        if xv < yv {
            proof {
                let p = pow_b(i as nat);
                assert(mag_value(x@) < mag_value(y@)) by (nonlinear_arith)
                    requires
                        mag_value(x@) - mag_value(y@) == (pfx_val(x@, i as int) + xv * p) - (
                        pfx_val(y@, i as int) + yv * p),
                        yv - xv >= 1,
                        0 <= pfx_val(x@, i as int) < p,
                        0 <= pfx_val(y@, i as int) < p,
                ;
            }
            return -1;
        }
    }
    proof {
        lemma_pfx_val_zero(x@);
        lemma_pfx_val_zero(y@);
    }
    0
}

/// The magnitude of one.
pub(crate) fn mag_one() -> (r: Vec<i64>)
    ensures
        limbs_in_range(r@),
        limbs_trimmed(r@),
        mag_value(r@) == 1,
        r@.len() == 1,
{
    let mut v: Vec<i64> = Vec::new();
    v.push(1);
    proof {
        assert(v@.drop_first() =~= Seq::<i64>::empty());
        assert(mag_value(Seq::<i64>::empty()) == 0);
        assert(mag_value(v@) == 1);
    }
    v
}

/// A prefix value is bounded by the weight of its end position.
pub(crate) proof fn lemma_pfx_val_bound(s: Seq<i64>, i: int)
    requires
        limbs_in_range(s),
        0 <= i,
    ensures
        0 <= pfx_val(s, i) < pow_b(i as nat),
{
    if i <= s.len() {
        assert(limbs_in_range(s.take(i)));
        lemma_mag_value_bound(s.take(i));
    } else {
        lemma_pfx_val_full(s, i);
        lemma_mag_value_bound(s);
        lemma_pow_b_increases(s.len(), i as nat);
    }
}

/// Double the magnitude in place and add one optional low bit.
pub(crate) fn mag_double_plus(v: &mut Vec<i64>, bit: bool)
    requires
        limbs_in_range(old(v)@),
    ensures
        limbs_in_range(final(v)@),
        mag_value(final(v)@) == 2 * mag_value(old(v)@) + (if bit {
            1int
        } else {
            0int
        }),
        final(v)@.len() <= old(v)@.len() + 1,
        limbs_trimmed(old(v)@) ==> limbs_trimmed(final(v)@),
{
    let n = v.len();
    let b0: i64 = if bit {
        1
    } else {
        0
    };
    let mut carry: i64 = b0;
    let mut i: usize = 0;
    proof {
        lemma_pfx_val_zero(old(v)@);
    }
    while i < n
        invariant
            0 <= i <= n,
            v@.len() == n,
            n == old(v)@.len(),
            0 <= carry <= 1,
            0 <= b0 <= 1,
            limbs_in_range(old(v)@),
            forall|j: int| 0 <= j < i ==> 0 <= #[trigger] v@[j] < B,
            forall|j: int| i <= j < n ==> v@[j] == old(v)@[j],
            mag_value(v@) + carry * pow_b(i as nat) == mag_value(old(v)@) + pfx_val(
                old(v)@,
                i as int,
            ) + b0,
            (i > 0 && carry == 0) ==> v@[i - 1] >= 2 * old(v)@[i - 1],
        decreases n - i,
    {
        let ghost m_pre = v@;
        let ghost c_pre = carry as int;
        let t = 2 * v[i] + carry;
        let limb: i64;
        let nc: i64;
        if t >= B {
            limb = t - B;
            nc = 1;
        } else {
            limb = t;
            nc = 0;
        }
        v[i] = limb;
        proof {
            lemma_mag_value_update(m_pre, i as int, limb);
            lemma_pfx_val_succ(old(v)@, i as int);
            let ghost p = pow_b(i as nat);
            let ghost ov = mag_value(old(v)@);
            let ghost px = pfx_val(old(v)@, i as int);
            let ghost px1 = pfx_val(old(v)@, i + 1);
            let ghost oi = old(v)@[i as int];
            let ghost mv_now = mag_value(v@);
            let ghost mv_pre = mag_value(m_pre);
            assert(mv_now + nc * pow_b((i + 1) as nat) == ov + px1 + b0) by (nonlinear_arith)
                requires
                    mv_now == mv_pre + (limb - oi) * p,
                    mv_pre + c_pre * p == ov + px + b0,
                    limb + nc * (B as int) == 2 * oi + c_pre,
                    pow_b((i + 1) as nat) == B as int * p,
                    px1 == px + oi * p,
            ;
        }
        carry = nc;
        i = i + 1;
    }
    proof {
        lemma_pfx_val_full(old(v)@, n as int);
    }
    if carry == 1 {
        proof {
            lemma_mag_value_push(v@, 1i64);
        }
        v.push(1);
    }
}

/// `value * d + a0`, scaling by one limb with a deferred carry.
pub(crate) fn mag_scale_add(v: &Vec<i64>, d: i64, a0: i64) -> (r: Vec<i64>)
    requires
        limbs_in_range(v@),
        0 <= d < B,
        0 <= a0 < B,
    ensures
        limbs_in_range(r@),
        mag_value(r@) == mag_value(v@) * d + a0,
        r@.len() == v@.len() + 1,
{
    let n = v.len();
    let mut c: Vec<i64> = Vec::new();
    let mut carry: i64 = a0;
    let mut i: usize = 0;
    proof {
        lemma_pfx_val_zero(v@);
        assert(pfx_val(v@, 0) * d == 0) by (nonlinear_arith)
            requires
                pfx_val(v@, 0) == 0,
        ;
    }
    while i < n
        invariant
            0 <= i <= n,
            n == v@.len(),
            limbs_in_range(v@),
            c@.len() == i,
            0 <= carry < B,
            0 <= d < B,
            0 <= a0 < B,
            limbs_in_range(c@),
            mag_value(c@) + carry * pow_b(i as nat) == pfx_val(v@, i as int) * d + a0,
        decreases n - i,
    {
        proof {
            assert(v@[i as int] * d + carry < 0x4000_0000_0000_0000_0000_0000_0000_0000int)
                by (nonlinear_arith)
                requires
                    0 <= v@[i as int] < 0x4000_0000_0000_0000,
                    0 <= d < 0x4000_0000_0000_0000,
                    0 <= carry < 0x4000_0000_0000_0000,
            ;
        }
        let t: u128 = (v[i] as u128) * (d as u128) + (carry as u128);
        let qq = t / (B as u128);
        let rr = t % (B as u128);
        proof {
            lemma_fundamental_div_mod(t as int, B as int);
            lemma_mod_division_less_than_divisor(t as int, B as int);
            assert(t < (B as int) * (B as int)) by (nonlinear_arith)
                requires
                    t == v@[i as int] * d + carry,
                    0 <= v@[i as int] < B,
                    0 <= d < B,
                    0 <= carry < B,
            ;
            assert(qq < B) by (nonlinear_arith)
                requires
                    t as int == B as int * (qq as int) + rr as int,
                    0 <= rr < B,
                    t < (B as int) * (B as int),
                    B as int > 0,
            ;
        }
        let limb = rr as i64;
        let nc = qq as i64;
        proof {
            lemma_mag_value_push(c@, limb);
            lemma_pfx_val_succ(v@, i as int);
            let p = pow_b(i as nat);
            let px = pfx_val(v@, i as int);
            assert(mag_value(c@.push(limb)) + nc * pow_b((i + 1) as nat) == pfx_val(
                v@,
                i + 1,
            ) * d + a0) by (nonlinear_arith)
                requires
                    mag_value(c@.push(limb)) == mag_value(c@) + limb * p,
                    mag_value(c@) + carry * p == px * d + a0,
                    limb + nc * (B as int) == v@[i as int] * d + carry,
                    pow_b((i + 1) as nat) == B as int * p,
                    pfx_val(v@, i + 1) == px + v@[i as int] * p,
            ;
        }
        c.push(limb);
        carry = nc;
        i = i + 1;
    }
    proof {
        lemma_pfx_val_full(v@, n as int);
        lemma_mag_value_push(c@, carry);
    }
    c.push(carry);
    c
}

} // verus!
