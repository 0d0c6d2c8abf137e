//! Bit-level views of a magnitude: the two's-complement bit of an integer,
//! bit extraction from a limb vector, and bit length.

use vstd::prelude::*;
use vstd::arithmetic::power2::{pow2, lemma_pow2_adds, lemma_pow2_pos, lemma2_to64, lemma2_to64_rest};
use vstd::arithmetic::div_mod::{
    lemma_fundamental_div_mod, lemma_fundamental_div_mod_converse, lemma_div_denominator,
    lemma_mod_division_less_than_divisor, lemma_div_basics,
};
use vstd::bits::lemma_u64_shr_is_div;
use crate::digits::{
    mag_value, limbs_in_range, limbs_trimmed, B, lemma_mag_value_split, lemma_mag_value_bound,
    lemma_pow_b_pow2,
};

verus! {

/// Bit `i` of the two's-complement expansion of `x` (0 or 1); for negative
/// `x` the expansion is the usual infinite sign extension.
pub open spec fn bit_at(x: int, i: nat) -> int {
    (x / pow2(i) as int) % 2
}

/// Walking one bit down: the quotient by `2^i` unfolds from the quotient by
/// `2^(i+1)` and bit `i`.
pub proof fn lemma_div_pow2_step(x: int, i: nat)
    ensures
        x / pow2(i) as int == 2 * (x / pow2(i + 1) as int) + bit_at(x, i),
        0 <= bit_at(x, i) <= 1,
{
    lemma_pow2_pos(i);
    lemma_pow2_adds(i, 1);
    lemma2_to64();
    let t = x / pow2(i) as int;
    lemma_div_denominator_general(x, pow2(i) as int, 2);
    assert(x / pow2(i + 1) as int == t / 2);
    lemma_fundamental_div_mod(t, 2);
    lemma_mod_division_less_than_divisor(t, 2);
}

/// `lemma_div_denominator` without the non-negativity restriction on the
/// dividend, for Euclidean division by positive divisors.
pub proof fn lemma_div_denominator_general(x: int, c: int, d: int)
    requires
        0 < c,
        0 < d,
    ensures
        (x / c) / d == x / (c * d),
{
    lemma_fundamental_div_mod(x, c);
    lemma_mod_division_less_than_divisor(x, c);
    let q1 = x / c;
    let r1 = x % c;
    lemma_fundamental_div_mod(q1, d);
    lemma_mod_division_less_than_divisor(q1, d);
    let q2 = q1 / d;
    let r2 = q1 % d;
    // x == q2 * (c * d) + (r2 * c + r1), with the remainder in [0, c*d)
    assert(x == q2 * (c * d) + (r2 * c + r1)) by (nonlinear_arith)
        requires
            x == c * q1 + r1,
            q1 == d * q2 + r2,
    ;
    assert(0 <= r2 * c + r1 < c * d) by (nonlinear_arith)
        requires
            0 <= r1 < c,
            0 <= r2 < d,
    ;
    lemma_fundamental_div_mod_converse(x, c * d, q2, r2 * c + r1);
}

/// A value strictly below `2^n` (and at least 0) shifts to zero.
pub proof fn lemma_div_pow2_low(x: int, n: nat)
    requires
        0 <= x < pow2(n),
    ensures
        x / pow2(n) as int == 0,
{
    lemma_pow2_pos(n);
    lemma_fundamental_div_mod_converse(x, pow2(n) as int, 0, x);
}

/// A negative value no lower than `-2^n` shifts to minus one.
pub proof fn lemma_div_pow2_neg_low(x: int, n: nat)
    requires
        -(pow2(n) as int) <= x < 0,
    ensures
        x / pow2(n) as int == -1,
{
    lemma_pow2_pos(n);
    let p = pow2(n) as int;
    assert(x == (-1) * p + (x + p)) by (nonlinear_arith);
    lemma_fundamental_div_mod_converse(x, p, -1, x + p);
}

/// Dividing `-m-1` by a positive `d` mirrors dividing `m`:
/// the quotient is `-(m/d) - 1` (floor semantics) and the remainder is the
/// complement `d - 1 - m%d`.
pub proof fn lemma_neg_div(m: int, d: int)
    requires
        m >= 0,
        d > 0,
    ensures
        (-m - 1) / d == -(m / d) - 1,
        (-m - 1) % d == d - 1 - (m % d),
{
    lemma_fundamental_div_mod(m, d);
    lemma_mod_division_less_than_divisor(m, d);
    let q = m / d;
    let r = m % d;
    assert(-m - 1 == (-q - 1) * d + (d - 1 - r)) by (nonlinear_arith)
        requires
            m == d * q + r,
    ;
    lemma_fundamental_div_mod_converse(-m - 1, d, -q - 1, d - 1 - r);
}

/// The bits of `-m-1` are the flipped bits of `m`.
pub proof fn lemma_neg_bit(m: int, i: nat)
    requires
        m >= 0,
    ensures
        bit_at(-m - 1, i) == 1 - bit_at(m, i),
        (-m - 1) / pow2(i) as int == -(m / pow2(i) as int) - 1,
{
    lemma_pow2_pos(i);
    lemma_neg_div(m, pow2(i) as int);
    let t = m / pow2(i) as int;
    lemma_fundamental_div_mod(t, 2);
    lemma_mod_division_less_than_divisor(t, 2);
    lemma_neg_div(t, 2);
}

/// Extract bit `i` of a magnitude.
pub(crate) fn mag_bit(v: &Vec<i64>, i: u128) -> (r: bool)
    requires
        limbs_in_range(v@),
        i < 62 * v@.len(),
    ensures
        r == (bit_at(mag_value(v@), i as nat) == 1),
{
    let vl = v.len();
    proof {
        lemma_fundamental_div_mod(i as int, 62);
        lemma_mod_division_less_than_divisor(i as int, 62);
        assert((i as int) / 62 < vl as int) by (nonlinear_arith)
            requires
                i < 62 * (vl as int),
                vl as int == v@.len(),
                (i as int) == 62 * ((i as int) / 62) + ((i as int) % 62),
                0 <= (i as int) % 62 < 62,
        ;
    }
    let k = (i / 62) as usize;
    let sh = (i % 62) as u64;
    proof {
        assert(k as int == (i as int) / 62);
        assert(sh as int == (i as int) % 62);
        assert(i as int == 62 * ((i as int) / 62) + ((i as int) % 62));
    }
    let limb = v[k] as u64;
    let bit = (limb >> sh) & 1;
    proof {
        let x = mag_value(v@);
        let kk = k as int;
        let p62k = pow2((62 * k) as nat) as int;
        let p_sh = pow2(sh as nat) as int;
        lemma_pow2_pos((62 * k) as nat);
        lemma_pow2_pos(sh as nat);
        // Split off the k low limbs: x / 2^(62k) is the value of the suffix.
        lemma_mag_value_split(v@, kk);
        assert(limbs_in_range(v@.take(kk)));
        lemma_mag_value_bound(v@.take(kk));
        lemma_pow_b_pow2(k as nat);
        let lo = mag_value(v@.take(kk));
        let hi = mag_value(v@.skip(kk));
        assert(limbs_in_range(v@.skip(kk)));
        lemma_mag_value_bound(v@.skip(kk));
        assert(x == hi * p62k + lo) by (nonlinear_arith)
            requires
                x == lo + p62k * hi,
        ;
        lemma_fundamental_div_mod_converse(x, p62k, hi, lo);
        assert(x / p62k == hi);
        // Then x / 2^i == hi / 2^sh.
        lemma_pow2_adds((62 * k) as nat, sh as nat);
        lemma_div_denominator_general(x, p62k, p_sh);
        assert(i as int == 62 * k + sh);
        assert(pow2(i as nat) as int == p62k * p_sh);
        assert(x / pow2(i as nat) as int == hi / p_sh);
        // The suffix is its low limb plus B times the rest.
        let rest = mag_value(v@.skip(kk).drop_first());
        assert(v@.skip(kk).len() > 0);
        assert(v@.skip(kk)[0] == v@[kk]);
        assert(hi == v@[kk] + B * rest);
        assert(limbs_in_range(v@.skip(kk).drop_first()));
        lemma_mag_value_bound(v@.skip(kk).drop_first());
        // Divide the low limb by 2^sh.
        let lv = v@[kk] as int;
        lemma_fundamental_div_mod(lv, p_sh);
        lemma_mod_division_less_than_divisor(lv, p_sh);
        let q1 = lv / p_sh;
        let r1 = lv % p_sh;
        // B == 2^sh * 2^(62 - sh), so hi == (q1 + 2^(62-sh) * rest) * 2^sh + r1.
        lemma_pow2_adds(sh as nat, (62 - sh) as nat);
        let p_up = pow2((62 - sh) as nat) as int;
        lemma_pow2_pos((62 - sh) as nat);
        lemma2_to64_rest();
        assert(pow2(62) == 0x4000_0000_0000_0000);
        assert(B == p_sh * p_up);
        assert(hi == (q1 + p_up * rest) * p_sh + r1) by (nonlinear_arith)
            requires
                hi == lv + (p_sh * p_up) * rest,
                lv == p_sh * q1 + r1,
    ;
        assert(q1 + p_up * rest >= 0) by (nonlinear_arith)
            requires
                q1 >= 0,
                p_up >= 1,
                rest >= 0,
        ;
        lemma_fundamental_div_mod_converse(hi, p_sh, q1 + p_up * rest, r1);
        assert(hi / p_sh == q1 + p_up * rest);
        // Modulo 2 the even part drops out: 62 - sh >= 1.
        lemma_pow2_adds(1, (62 - sh - 1) as nat);
        lemma2_to64();
        let half = pow2((62 - sh - 1) as nat) as int;
        assert(p_up == 2 * half);
        assert(p_up * rest == 2 * (half * rest)) by (nonlinear_arith)
            requires
                p_up == 2 * half,
        ;
        vstd::arithmetic::div_mod::lemma_mod_multiples_vanish(half * rest, q1, 2);
        assert((q1 + p_up * rest) % 2 == q1 % 2);
        assert(bit_at(x, i as nat) == q1 % 2);
        // Finally the machine bit equals q1 % 2.
        lemma_u64_shr_is_div(limb, sh);
        assert(limb == lv);
        assert(limb >> sh == lv / p_sh);
        let y = limb >> sh;
        assert((y & 1) == y % 2) by (bit_vector);
    }
    bit == 1
}

/// The bit length of a magnitude: the least `n` with `value < 2^n` (here
/// only the upper bound is stated, which is what the callers need).
pub(crate) fn mag_bits(v: &Vec<i64>) -> (n: u128)
    requires
        limbs_in_range(v@),
        limbs_trimmed(v@),
    ensures
        mag_value(v@) < pow2(n as nat),
        n == 0 ==> mag_value(v@) == 0,
        n <= 62 * v@.len(),
        v@.len() > 0 ==> n >= 1 && mag_value(v@) >= pow2((n - 1) as nat),
{
    proof {
        lemma2_to64();
    }
    if v.len() == 0 {
        return 0;
    }
    let len = v.len();
    let top = v[len - 1] as u64;
    let mut x = top;
    let mut k: u64 = 0;
    proof {
        lemma_div_basics(top as int);
    }
    while x > 0
        invariant
            0 <= k <= 62,
            x as int == top as int / pow2(k as nat) as int,
            top < 0x4000_0000_0000_0000,
            x > 0 ==> k < 62,
            k > 0 ==> top as int / pow2((k - 1) as nat) as int >= 1,
        decreases x,
    {
        x = x / 2;
        k = k + 1;
        proof {
            assert(pow2(k as nat) == pow2((k - 1) as nat) * 2) by {
                lemma_pow2_adds((k - 1) as nat, 1);
                lemma2_to64();
            }
            lemma_pow2_pos((k - 1) as nat);
            lemma_div_denominator_general(top as int, pow2((k - 1) as nat) as int, 2);
            if x > 0 && k == 62 {
                lemma2_to64_rest();
                lemma_div_pow2_low(top as int, 62);
                assert(false);
            }
        }
    }
    proof {
        // loop exit: top / 2^k == 0, hence top < 2^k
        lemma_pow2_pos(k as nat);
        lemma_fundamental_div_mod(top as int, pow2(k as nat) as int);
        lemma_mod_division_less_than_divisor(top as int, pow2(k as nat) as int);
        assert(top < pow2(k as nat)) by (nonlinear_arith)
            requires
                top as int == pow2(k as nat) as int * (top as int / pow2(k as nat) as int) + (
                top as int % pow2(k as nat) as int),
                top as int / pow2(k as nat) as int == 0,
                (top as int % (pow2(k as nat) as int)) < pow2(k as nat) as int,
        ;
        if k == 0 {
            // would mean top == 0, impossible for a trimmed magnitude
            assert(top as int == top as int / pow2(0) as int);
            assert(v@[len - 1] != 0);
            assert(false);
        }
    }
    let n: u128 = 62 * ((len - 1) as u128) + (k as u128);
    proof {
        let ll = len - 1;
        lemma_mag_value_split(v@, ll as int);
        assert(limbs_in_range(v@.take(ll as int)));
        lemma_mag_value_bound(v@.take(ll as int));
        lemma_pow_b_pow2(ll as nat);
        let p = pow2((62 * ll) as nat) as int;
        let lo = mag_value(v@.take(ll as int));
        let hi = mag_value(v@.skip(ll as int));
        assert(v@.skip(ll as int).len() == 1);
        assert(v@.skip(ll as int)[0] == v@[ll as int]);
        assert(mag_value(v@.skip(ll as int).drop_first()) == 0);
        assert(hi == top as int);
        assert(top < pow2(k as nat));
        lemma_pow2_adds((62 * ll) as nat, k as nat);
        // the top limb reaches its leading bit: top >= 2^(k-1)
        let pk1 = pow2((k - 1) as nat) as int;
        lemma_pow2_pos((k - 1) as nat);
        lemma_fundamental_div_mod(top as int, pk1);
        lemma_mod_division_less_than_divisor(top as int, pk1);
        assert(top as int >= pk1) by (nonlinear_arith)
            requires
                top as int == pk1 * (top as int / pk1) + (top as int % (pk1)),
                top as int / pk1 >= 1,
                (top as int % (pk1)) >= 0,
                pk1 >= 1,
        ;
        lemma_pow2_adds((62 * ll) as nat, (k - 1) as nat);
        assert(mag_value(v@) >= pow2((n - 1) as nat)) by (nonlinear_arith)
            requires
                mag_value(v@) == lo + p * hi,
                lo >= 0,
                hi >= pk1,
                pow2((n - 1) as nat) as int == p * pk1,
                p >= 1,
                pk1 >= 1,
        ;
        assert(mag_value(v@) < pow2(n as nat)) by (nonlinear_arith)
            requires
                mag_value(v@) == lo + p * hi,
                0 <= lo < p,
                hi < pow2(k as nat) as int,
                pow2(n as nat) as int == p * pow2(k as nat) as int,
                p >= 1,
        ;
    }
    n
}

} // verus!
