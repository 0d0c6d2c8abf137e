//! Shifts.  The shift amount is itself a `BigInt`; negative amounts fail,
//! oversized left shifts fail, oversized right shifts saturate to `0` or
//! `-1` (arithmetic shift).

use vstd::prelude::*;
use vstd::arithmetic::power2::{
    pow2, lemma_pow2_adds, lemma_pow2_pos, lemma_pow2_strictly_increases, lemma2_to64,
    lemma2_to64_rest,
};
use vstd::arithmetic::div_mod::{lemma_fundamental_div_mod, lemma_mod_division_less_than_divisor};
use crate::bigint::{BigInt, MpError, lemma_value_sign};
use crate::bits::{mag_bit, mag_bits, lemma_div_pow2_step, lemma_div_pow2_low, lemma_neg_div};
use crate::digits::{
    mag_value, limbs_in_range, pow_b, B, lemma_mag_value_push, lemma_mag_value_take_succ,
    lemma_mag_value_bound, lemma_mag_value_lower, lemma_pow_b_adds, lemma_pow_b_pow2,
    lemma_pow_b_pos, lemma_mag_value_trimmed_pos,
};
use crate::magops::{mag_add, mag_sub, mag_double_plus, mag_one};
use crate::normal::{finish, trim};

verus! {

/// The largest left-shift amount the library accepts; beyond it the new
/// magnitude would exceed the supported sequence size and the shift fails
/// with `ShiftOverflow`.
pub const SHL_MAX: i64 = 0x3FFF_FFFF;

/// Left shift: `a * 2^n`.
pub fn shl(a: &BigInt, n: &BigInt) -> (res: Result<BigInt, MpError>)
    requires
        a.wf(),
        n.wf(),
    ensures
        match res {
            Err(MpError::NegativeShift) => n.value() < 0,
            Err(MpError::ShiftOverflow) => n.value() > SHL_MAX,
            Err(_) => false,
            Ok(r) => {
                &&& 0 <= n.value() <= SHL_MAX
                &&& r.wf()
                &&& r.value() == a.value() * pow2(n.value() as nat)
            },
        },
{
    proof {
        lemma_value_sign(n);
        lemma_value_sign(a);
    }
    if n.sgn == -1 {
        return Err(MpError::NegativeShift);
    }
    if n.mag.len() > 1 {
        proof {
            lemma_mag_value_lower(n.mag@);
            lemma_pow_b_pos((n.mag@.len() - 1) as nat);
            crate::digits::lemma_pow_b_increases(1, (n.mag@.len() - 1) as nat);
            assert(pow_b(0) == 1);
            assert(pow_b(1) == B);
        }
        return Err(MpError::ShiftOverflow);
    }
    let n0: i64 = if n.mag.len() == 0 {
        0
    } else {
        n.mag[0]
    };
    proof {
        if n.mag@.len() == 1 {
            assert(n.mag@.drop_first() =~= Seq::<i64>::empty());
            assert(mag_value(Seq::<i64>::empty()) == 0);
            assert(mag_value(n.mag@) == n.mag@[0]);
        }
        assert(n.value() == n0);
    }
    if n0 > SHL_MAX {
        return Err(MpError::ShiftOverflow);
    }
    if a.sgn == 0 {
        proof {
            assert(a.value() * pow2(n0 as nat) == 0) by (nonlinear_arith)
                requires
                    a.value() == 0,
            ;
        }
        return Ok(BigInt::zero());
    }
    let nu = n0 as u64;
    let q = (nu / 62) as usize;
    let rb = nu % 62;
    proof {
        lemma_fundamental_div_mod(n0 as int, 62);
        lemma_mod_division_less_than_divisor(n0 as int, 62);
        assert((n0 as int) / 62 <= n0) by (nonlinear_arith)
            requires
                0 <= n0,
                n0 as int == 62 * ((n0 as int) / 62) + ((n0 as int) % 62),
                0 <= (n0 as int) % 62,
        ;
        assert(q as int == (n0 as int) / 62);
        assert(rb as int == (n0 as int) % 62);
    }
    // q zero limbs, then the magnitude, then rb single-bit doublings
    let mut m: Vec<i64> = Vec::new();
    let mut j: usize = 0;
    while j < q
        invariant
            0 <= j <= q,
            m@.len() == j,
            limbs_in_range(m@),
            mag_value(m@) == 0,
            forall|t: int| 0 <= t < j ==> m@[t] == 0,
        decreases q - j,
    {
        proof {
            lemma_mag_value_push(m@, 0i64);
            assert(0 * pow_b(m@.len()) == 0) by (nonlinear_arith);
        }
        m.push(0);
        j = j + 1;
    }
    let la = a.mag.len();
    let mut i: usize = 0;
    proof {
        assert(a.mag@.take(0) =~= Seq::<i64>::empty());
        assert(mag_value(Seq::<i64>::empty()) == 0);
        assert(pow_b(q as nat) * 0 == 0) by (nonlinear_arith);
    }
    while i < la
        invariant
            0 <= i <= la,
            la == a.mag@.len(),
            limbs_in_range(a.mag@),
            m@.len() == q + i,
            limbs_in_range(m@),
            mag_value(m@) == pow_b(q as nat) * mag_value(a.mag@.take(i as int)),
        decreases la - i,
    {
        proof {
            lemma_mag_value_push(m@, a.mag@[i as int]);
            lemma_mag_value_take_succ(a.mag@, i as int);
            lemma_pow_b_adds(q as nat, i as nat);
            let ghost p_q = pow_b(q as nat);
            let ghost p_i = pow_b(i as nat);
            let ghost lv = a.mag@[i as int] as int;
            let ghost base = mag_value(a.mag@.take(i as int));
            assert(p_q * base + lv * (p_q * p_i) == p_q * (base + lv * p_i)) by (nonlinear_arith);
        }
        let limb = a.mag[i];
        m.push(limb);
        i = i + 1;
    }
    proof {
        assert(a.mag@.take(la as int) =~= a.mag@);
    }
    let ghost va = mag_value(a.mag@);
    let mut k: u64 = 0;
    proof {
        lemma2_to64();
        assert(mag_value(m@) * pow2(0) == mag_value(m@)) by (nonlinear_arith)
            requires
                pow2(0) == 1,
        ;
    }
    while k < rb
        invariant
            0 <= k <= rb < 62,
            limbs_in_range(m@),
            mag_value(m@) == (pow_b(q as nat) * va) * pow2(k as nat),
        decreases rb - k,
    {
        mag_double_plus(&mut m, false);
        k = k + 1;
        proof {
            lemma_pow2_adds((k - 1) as nat, 1);
            lemma2_to64();
            let ghost w = pow_b(q as nat) * va;
            assert(2 * (w * pow2((k - 1) as nat)) == w * (pow2((k - 1) as nat) * 2))
                by (nonlinear_arith);
        }
    }
    let r = finish(m, a.sgn);
    proof {
        // B^q * 2^rb == 2^n0
        lemma_pow_b_pow2(q as nat);
        lemma_pow2_adds((62 * q) as nat, rb as nat);
        assert(62 * q + rb == n0);
        let ghost p_q = pow_b(q as nat) as int;
        let ghost p_r = pow2(rb as nat) as int;
        let ghost s = a.sgn as int;
        assert(s * ((p_q * va) * p_r) == (s * va) * (p_q * p_r)) by (nonlinear_arith);
    }
    Ok(r)
}

/// Arithmetic right shift: floor division by `2^n`.  Oversized shifts
/// saturate: non-negative operands go to zero, negative ones to `-1`.
pub fn shr(a: &BigInt, n: &BigInt) -> (res: Result<BigInt, MpError>)
    requires
        a.wf(),
        n.wf(),
    ensures
        match res {
            Err(e) => e == MpError::NegativeShift && n.value() < 0,
            Ok(r) => {
                &&& n.value() >= 0
                &&& r.wf()
                &&& r.value() == a.value() / pow2(n.value() as nat) as int
            },
        },
{
    proof {
        lemma_value_sign(n);
        lemma_value_sign(a);
    }
    if n.sgn == -1 {
        return Err(MpError::NegativeShift);
    }
    if a.sgn == 0 {
        proof {
            lemma_pow2_pos(n.value() as nat);
            vstd::arithmetic::div_mod::lemma_div_basics(pow2(n.value() as nat) as int);
        }
        return Ok(BigInt::zero());
    }
    // The value of the shift amount, when it fits; amounts of three limbs
    // or more exceed every possible bit length.
    let nlen = n.mag.len();
    let ghost vn = n.value();
    let big3: bool = nlen > 2;
    let nv: u128 = if nlen == 0 {
        0
    } else if nlen == 1 {
        n.mag[0] as u128
    } else if nlen == 2 {
        (n.mag[0] as u128) + (n.mag[1] as u128) * (B as u128)
    } else {
        0
    };
    proof {
        if nlen == 1 {
            assert(n.mag@.drop_first() =~= Seq::<i64>::empty());
            assert(mag_value(Seq::<i64>::empty()) == 0);
            assert(vn == nv);
        } else if nlen == 2 {
            assert(n.mag@.drop_first().drop_first() =~= Seq::<i64>::empty());
            assert(mag_value(Seq::<i64>::empty()) == 0);
            assert(mag_value(n.mag@.drop_first()) == n.mag@[1]);
            assert(n.mag@.drop_first()[0] == n.mag@[1]);
            assert(vn == n.mag@[0] + B as int * mag_value(n.mag@.drop_first()));
            assert(nv == n.mag@[0] + (n.mag@[1] as int) * (B as int));
            assert(vn == nv) by (nonlinear_arith)
                requires
                    vn == n.mag@[0] + B as int * (n.mag@[1] as int),
                    nv == n.mag@[0] + (n.mag@[1] as int) * (B as int),
            ;
        } else if nlen > 2 {
            // vn >= B^2 > 2^70 exceeds any bit length
            lemma_mag_value_lower(n.mag@);
            crate::digits::lemma_pow_b_increases(2, (nlen - 1) as nat);
            lemma_pow_b_pow2(2);
        }
    }
    if a.sgn == 1 {
        let al = a.mag.len();
        let abits = mag_bits(&a.mag);
        let ghost va = mag_value(a.mag@);
        if big3 || nv >= abits {
            proof {
                if big3 {
                    lemma_big_amount(vn, abits as nat, al as nat);
                }
                lemma_saturate_nonneg(va, abits as nat, vn as nat);
            }
            return Ok(BigInt::zero());
        }
        let r = shifted_high_bits(&a.mag, abits, nv);
        let out = finish(r, 1);
        Ok(out)
    } else {
        // a < 0: a == -m - 1 with m == |a| - 1, and
        // a >> n == -(m >> n) - 1.
        let one = mag_one();
        proof {
            lemma_mag_value_trimmed_pos(a.mag@);
        }
        let mut m = mag_sub(&a.mag, &one);
        trim(&mut m);
        let ml = m.len();
        let ghost vm = mag_value(m@);
        let mbits = mag_bits(&m);
        let neg_r: Vec<i64>;
        if big3 || nv >= mbits {
            proof {
                if big3 {
                    lemma_big_amount(vn, mbits as nat, ml as nat);
                }
                lemma_saturate_nonneg(vm, mbits as nat, vn as nat);
            }
            neg_r = Vec::new();
        } else {
            neg_r = shifted_high_bits(&m, mbits, nv);
        }
        let rp = mag_add(&neg_r, &one);
        let out = finish(rp, -1);
        proof {
            lemma_pow2_pos(vn as nat);
            lemma_neg_div(vm, pow2(vn as nat) as int);
            assert(a.value() == -vm - 1);
            assert(out.value() == -1 * (vm / pow2(vn as nat) as int + 1));
        }
        Ok(out)
    }
}

/// For `x < 2^bits` and `bits <= n`, `x / 2^n == 0`.
proof fn lemma_saturate_nonneg(x: int, bits: nat, n: nat)
    requires
        0 <= x,
        x < pow2(bits),
        bits <= n,
    ensures
        x / pow2(n) as int == 0,
{
    if n > bits {
        lemma_pow2_strictly_increases(bits, n);
    }
    lemma_div_pow2_low(x, n);
}

/// An amount of at least `2^124` exceeds any feasible bit length.
proof fn lemma_big_amount(vn: int, bits: nat, len: nat)
    requires
        vn >= pow2(124),
        bits <= 62 * len,
        len < 0x1_0000_0000_0000_0000,
    ensures
        bits < vn,
{
    lemma_pow2_adds(64, 6);
    lemma2_to64();
    lemma2_to64_rest();
    lemma_pow2_strictly_increases(70, 124);
}

/// The value of the bits of `v` from position `n` upward, computed most
/// significant bit first; `bits` bounds the magnitude from above.
fn shifted_high_bits(v: &Vec<i64>, bits: u128, n: u128) -> (r: Vec<i64>)
    requires
        limbs_in_range(v@),
        mag_value(v@) < pow2(bits as nat),
        bits <= 62 * v@.len(),
        n < bits,
    ensures
        limbs_in_range(r@),
        mag_value(r@) == mag_value(v@) / pow2(n as nat) as int,
{
    let ghost vv = mag_value(v@);
    let mut r: Vec<i64> = Vec::new();
    let mut i = bits;
    proof {
        lemma_mag_value_bound(v@);
        lemma_div_pow2_low(vv, bits as nat);
    }
    while i > n
        invariant
            n <= i <= bits,
            bits <= 62 * v@.len(),
            limbs_in_range(v@),
            vv == mag_value(v@),
            0 <= vv,
            limbs_in_range(r@),
            mag_value(r@) == vv / pow2(i as nat) as int,
        decreases i,
    {
        i = i - 1;
        let bit = mag_bit(v, i);
        proof {
            lemma_div_pow2_step(vv, i as nat);
        }
        mag_double_plus(&mut r, bit);
    }
    r
}

} // verus!
