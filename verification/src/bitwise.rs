//! Boolean-bitwise operators with two's-complement semantics on conceptually
//! infinite sign-extended words.
//!
//! The meaning of each operator on unbounded integers is a recursive spec
//! function over the low bit and the arithmetically-shifted rest; the
//! executable operators bridge the sign-magnitude representation to that
//! view bit by bit.

use vstd::prelude::*;
use vstd::math::abs;
use vstd::arithmetic::power2::{pow2, lemma_pow2_adds, lemma_pow2_strictly_increases, lemma2_to64};
use vstd::arithmetic::div_mod::{
    lemma_fundamental_div_mod, lemma_mod_division_less_than_divisor,
    lemma_fundamental_div_mod_converse, lemma_div_basics,
};
use crate::bigint::{BigInt, mag_copy, lemma_value_sign};
use crate::bits::{
    mag_bit, mag_bits, bit_at, lemma_div_pow2_step, lemma_div_pow2_low, lemma_div_pow2_neg_low,
    lemma_neg_bit,
};
use crate::digits::{mag_value, limbs_in_range, lemma_mag_value_bound, lemma_pow_b_pow2};
use crate::magops::{mag_add, mag_sub, mag_double_plus, mag_one};
use crate::normal::{finish, trim};

verus! {

/// Two's-complement AND on unbounded integers.
pub open spec fn int_and(a: int, b: int) -> int
    decreases abs(a) + abs(b),
{
    if a == 0 || b == 0 {
        0
    } else if a == -1 {
        b
    } else if b == -1 {
        a
    } else {
        2 * int_and(a / 2, b / 2) + (a % 2) * (b % 2)
    }
}

/// Two's-complement OR on unbounded integers.
pub open spec fn int_or(a: int, b: int) -> int
    decreases abs(a) + abs(b),
{
    if a == 0 {
        b
    } else if b == 0 {
        a
    } else if a == -1 || b == -1 {
        -1
    } else {
        2 * int_or(a / 2, b / 2) + (if a % 2 == 1 || b % 2 == 1 {
            1int
        } else {
            0int
        })
    }
}

/// Two's-complement XOR on unbounded integers.
pub open spec fn int_xor(a: int, b: int) -> int
    decreases abs(a) + abs(b),
{
    if a == 0 {
        b
    } else if b == 0 {
        a
    } else if a == -1 {
        -b - 1
    } else if b == -1 {
        -a - 1
    } else {
        2 * int_xor(a / 2, b / 2) + (if a % 2 != b % 2 {
            1int
        } else {
            0int
        })
    }
}

/// Halving an integer other than 0 and -1 shrinks its absolute value; and
/// for any integer the half does not grow.
pub proof fn lemma_half_abs(a: int)
    ensures
        a != 0 && a != -1 ==> abs(a / 2) < abs(a),
        abs(a / 2) <= abs(a),
        a == 2 * (a / 2) + a % 2,
        0 <= a % 2 <= 1,
{
    lemma_fundamental_div_mod(a, 2);
    lemma_mod_division_less_than_divisor(a, 2);
}

/// The defining recurrence of AND, valid for every pair.
pub proof fn lemma_int_and_rec(a: int, b: int)
    ensures
        int_and(a, b) == 2 * int_and(a / 2, b / 2) + (a % 2) * (b % 2),
{
    lemma_half_abs(a);
    lemma_half_abs(b);
    if a == 0 || b == 0 {
        if a == 0 {
            assert(a / 2 == 0 && a % 2 == 0);
            assert(int_and(0, b / 2) == 0);
        } else {
            assert(b / 2 == 0 && b % 2 == 0);
            assert(int_and(a / 2, 0) == 0);
            assert((a % 2) * 0 == 0) by (nonlinear_arith);
        }
    } else if a == -1 {
        assert(a / 2 == -1 && a % 2 == 1);
        assert(int_and(-1, b / 2) == b / 2 || (b / 2 == 0 && int_and(-1, b / 2) == 0));
        assert(int_and(-1, b / 2) == b / 2);
        assert(1 * (b % 2) == b % 2) by (nonlinear_arith);
    } else if b == -1 {
        assert(b / 2 == -1 && b % 2 == 1);
        assert(int_and(a / 2, -1) == a / 2);
        assert((a % 2) * 1 == a % 2) by (nonlinear_arith);
    }
}

/// The defining recurrence of OR, valid for every pair.
pub proof fn lemma_int_or_rec(a: int, b: int)
    ensures
        int_or(a, b) == 2 * int_or(a / 2, b / 2) + (if a % 2 == 1 || b % 2 == 1 {
            1int
        } else {
            0int
        }),
{
    lemma_half_abs(a);
    lemma_half_abs(b);
    if a == 0 {
        assert(a / 2 == 0 && a % 2 == 0);
        assert(int_or(0, b / 2) == b / 2);
    } else if b == 0 {
        assert(b / 2 == 0 && b % 2 == 0);
        assert(int_or(a / 2, 0) == a / 2);
    } else if a == -1 {
        assert(a / 2 == -1 && a % 2 == 1);
        assert(int_or(-1, b / 2) == -1);
    } else if b == -1 {
        assert(b / 2 == -1 && b % 2 == 1);
        assert(int_or(a / 2, -1) == -1);
    }
}

/// The defining recurrence of XOR, valid for every pair.
pub proof fn lemma_int_xor_rec(a: int, b: int)
    ensures
        int_xor(a, b) == 2 * int_xor(a / 2, b / 2) + (if a % 2 != b % 2 {
            1int
        } else {
            0int
        }),
{
    lemma_half_abs(a);
    lemma_half_abs(b);
    if a == 0 {
        assert(a / 2 == 0 && a % 2 == 0);
        assert(int_xor(0, b / 2) == b / 2);
    } else if b == 0 {
        assert(b / 2 == 0 && b % 2 == 0);
        assert(int_xor(a / 2, 0) == a / 2);
    } else if a == -1 {
        assert(a / 2 == -1 && a % 2 == 1);
        assert(int_xor(-1, b / 2) == -(b / 2) - 1);
    } else if b == -1 {
        assert(b / 2 == -1 && b % 2 == 1);
        assert(int_xor(a / 2, -1) == -(a / 2) - 1);
    }
}

/// Dispatch over the three operators, so one loop serves all of them.
pub open spec fn int_bitop(op: int, a: int, b: int) -> int {
    if op == 0 {
        int_and(a, b)
    } else if op == 1 {
        int_or(a, b)
    } else {
        int_xor(a, b)
    }
}

/// Bit `i` of a magnitude, reading positions past its end as zero.
fn mag_bit_or0(v: &Vec<i64>, i: u128) -> (r: bool)
    requires
        limbs_in_range(v@),
    ensures
        r == (bit_at(mag_value(v@), i as nat) == 1),
{
    let vl = v.len();
    if i < 62 * (vl as u128) {
        mag_bit(v, i)
    } else {
        proof {
            lemma_mag_value_bound(v@);
            lemma_pow_b_pow2(vl as nat);
            if 62 * vl < i {
                lemma_pow2_strictly_increases((62 * vl) as nat, i as nat);
            }
            lemma_div_pow2_low(mag_value(v@), i as nat);
        }
        false
    }
}

/// The shared bit-serial loop behind AND, OR and XOR: walks both operands'
/// two's-complement bits from just above the top down to bit zero,
/// accumulating the result and its bitwise complement, then fixes the sign
/// by the operator's sign rule.
fn bitop(a: &BigInt, b: &BigInt, op: u8) -> (r: BigInt)
    requires
        a.wf(),
        b.wf(),
        op == 0 || op == 1 || op == 2,
    ensures
        r.wf(),
        r.value() == int_bitop(op as int, a.value(), b.value()),
{
    let one = mag_one();
    proof {
        lemma_value_sign(a);
        lemma_value_sign(b);
        crate::digits::lemma_mag_value_trimmed_pos(a.mag@);
        crate::digits::lemma_mag_value_trimmed_pos(b.mag@);
    }
    let neg_a = a.sgn == -1;
    let neg_b = b.sgn == -1;
    let ma: Vec<i64> = if neg_a {
        let mut t = mag_sub(&a.mag, &one);
        trim(&mut t);
        t
    } else {
        mag_copy(&a.mag)
    };
    let mb: Vec<i64> = if neg_b {
        let mut t = mag_sub(&b.mag, &one);
        trim(&mut t);
        t
    } else {
        mag_copy(&b.mag)
    };
    let ghost ea = mag_value(ma@);
    let ghost eb = mag_value(mb@);
    proof {
        assert(a.value() == (if neg_a {
            -ea - 1
        } else {
            ea
        }));
        assert(b.value() == (if neg_b {
            -eb - 1
        } else {
            eb
        }));
    }
    let bits_a = mag_bits(&ma);
    let bits_b = mag_bits(&mb);
    let top = if bits_a > bits_b {
        bits_a
    } else {
        bits_b
    };
    let n: u128 = top + 1;
    let ghost av = a.value();
    let ghost bv = b.value();
    let ghost sa: int = if neg_a {
        -1int
    } else {
        0int
    };
    let ghost sb: int = if neg_b {
        -1int
    } else {
        0int
    };
    proof {
        lemma_pow2_strictly_increases(bits_a as nat, n as nat);
        lemma_pow2_strictly_increases(bits_b as nat, n as nat);
        if neg_a {
            lemma_div_pow2_neg_low(av, n as nat);
        } else {
            lemma_div_pow2_low(av, n as nat);
        }
        if neg_b {
            lemma_div_pow2_neg_low(bv, n as nat);
        } else {
            lemma_div_pow2_low(bv, n as nat);
        }
        lemma_int_op_signs(sa, sb);
    }
    let negres: bool = if op == 0 {
        neg_a && neg_b
    } else if op == 1 {
        neg_a || neg_b
    } else {
        neg_a != neg_b
    };
    let ghost s_val: int = int_bitop(op as int, sa, sb);
    proof {
        assert(s_val == (if negres {
            -1int
        } else {
            0int
        }));
        lemma2_to64();
        assert(s_val * pow2(0) == s_val) by (nonlinear_arith)
            requires
                pow2(0) == 1,
        ;
    }
    let mut r: Vec<i64> = Vec::new();
    let mut rc: Vec<i64> = Vec::new();
    let mut i = n;
    while i > 0
        invariant
            0 <= i <= n,
            limbs_in_range(ma@),
            limbs_in_range(mb@),
            ea == mag_value(ma@),
            eb == mag_value(mb@),
            av == (if neg_a {
                -ea - 1
            } else {
                ea
            }),
            bv == (if neg_b {
                -eb - 1
            } else {
                eb
            }),
            ea >= 0,
            eb >= 0,
            limbs_in_range(r@),
            limbs_in_range(rc@),
            int_bitop(op as int, av / pow2(i as nat) as int, bv / pow2(i as nat) as int) == s_val
                * pow2((n - i) as nat) + mag_value(r@),
            mag_value(rc@) == pow2((n - i) as nat) - 1 - mag_value(r@),
        decreases i,
    {
        i = i - 1;
        let ghost ahi = av / pow2((i + 1) as nat) as int;
        let ghost bhi = bv / pow2((i + 1) as nat) as int;
        let ghost alo = av / pow2(i as nat) as int;
        let ghost blo = bv / pow2(i as nat) as int;
        let ra = mag_bit_or0(&ma, i);
        let rb = mag_bit_or0(&mb, i);
        let ba = ra != neg_a;
        let bb = rb != neg_b;
        proof {
            lemma_div_pow2_step(av, i as nat);
            lemma_div_pow2_step(bv, i as nat);
            if neg_a {
                lemma_neg_bit(ea, i as nat);
            }
            if neg_b {
                lemma_neg_bit(eb, i as nat);
            }
            assert(bit_at(av, i as nat) == (if ba {
                1int
            } else {
                0int
            }));
            assert(bit_at(bv, i as nat) == (if bb {
                1int
            } else {
                0int
            }));
            // the quotient at i+1 is the half of the quotient at i
            assert(alo == ahi * 2 + bit_at(av, i as nat));
            lemma_fundamental_div_mod_converse(alo, 2, ahi, bit_at(av, i as nat));
            assert(blo == bhi * 2 + bit_at(bv, i as nat));
            lemma_fundamental_div_mod_converse(blo, 2, bhi, bit_at(bv, i as nat));
            assert(alo / 2 == ahi && alo % 2 == bit_at(av, i as nat));
            assert(blo / 2 == bhi && blo % 2 == bit_at(bv, i as nat));
        }
        let cb: bool = if op == 0 {
            ba && bb
        } else if op == 1 {
            ba || bb
        } else {
            ba != bb
        };
        let ghost vr_pre = mag_value(r@);
        mag_double_plus(&mut r, cb);
        mag_double_plus(&mut rc, !cb);
        proof {
            let cbi: int = if cb {
                1
            } else {
                0
            };
            if op == 0 {
                lemma_int_and_rec(alo, blo);
                assert((alo % 2) * (blo % 2) == cbi) by (nonlinear_arith)
                    requires
                        alo % 2 == (if ba {
                            1int
                        } else {
                            0int
                        }),
                        blo % 2 == (if bb {
                            1int
                        } else {
                            0int
                        }),
                        cbi == (if ba && bb {
                            1int
                        } else {
                            0int
                        }),
                ;
            } else if op == 1 {
                lemma_int_or_rec(alo, blo);
            } else {
                lemma_int_xor_rec(alo, blo);
            }
            assert(int_bitop(op as int, alo, blo) == 2 * int_bitop(op as int, ahi, bhi) + cbi);
            lemma_pow2_adds((n - i - 1) as nat, 1);
            lemma2_to64();
            assert(pow2((n - i) as nat) == 2 * pow2((n - i - 1) as nat));
            assert(2 * (s_val * pow2((n - i - 1) as nat)) == s_val * pow2((n - i) as nat))
                by (nonlinear_arith)
                requires
                    pow2((n - i) as nat) == 2 * pow2((n - i - 1) as nat),
            ;
            assert(int_bitop(op as int, ahi, bhi) == s_val * pow2((n - i - 1) as nat) + vr_pre);
        }
    }
    proof {
        lemma_div_basics(av);
        lemma_div_basics(bv);
        lemma2_to64();
        assert(av / pow2(0) as int == av && bv / pow2(0) as int == bv);
    }
    if negres {
        let m = mag_add(&rc, &one);
        let out = finish(m, -1);
        proof {
            assert(out.value() == -1 * (mag_value(rc@) + 1));
        }
        out
    } else {
        let out = finish(r, 1);
        out
    }
}

/// Bitwise AND.
pub fn bitand(a: &BigInt, b: &BigInt) -> (r: BigInt)
    requires
        a.wf(),
        b.wf(),
    ensures
        r.wf(),
        r.value() == int_and(a.value(), b.value()),
{
    bitop(a, b, 0)
}

/// Bitwise OR.
pub fn bitor(a: &BigInt, b: &BigInt) -> (r: BigInt)
    requires
        a.wf(),
        b.wf(),
    ensures
        r.wf(),
        r.value() == int_or(a.value(), b.value()),
{
    bitop(a, b, 1)
}

/// Bitwise XOR.
pub fn bitxor(a: &BigInt, b: &BigInt) -> (r: BigInt)
    requires
        a.wf(),
        b.wf(),
    ensures
        r.wf(),
        r.value() == int_xor(a.value(), b.value()),
{
    bitop(a, b, 2)
}

/// XOR of a value with itself vanishes.
pub proof fn lemma_xor_self(a: int)
    ensures
        int_xor(a, a) == 0,
    decreases abs(a),
{
    if a != 0 && a != -1 {
        lemma_half_abs(a);
        lemma_xor_self(a / 2);
    }
}

/// AND of a value with itself is the value.
pub proof fn lemma_and_self(a: int)
    ensures
        int_and(a, a) == a,
    decreases abs(a),
{
    if a != 0 && a != -1 {
        lemma_half_abs(a);
        lemma_and_self(a / 2);
        assert((a % 2) * (a % 2) == a % 2) by (nonlinear_arith)
            requires
                a % 2 == 0 || a % 2 == 1,
        ;
    }
}

/// OR of a value with itself is the value.
pub proof fn lemma_or_self(a: int)
    ensures
        int_or(a, a) == a,
    decreases abs(a),
{
    if a != 0 && a != -1 {
        lemma_half_abs(a);
        lemma_or_self(a / 2);
    }
}

/// XOR of a value with its complement is all ones.
pub proof fn lemma_xor_not_self(b: int)
    ensures
        int_xor(-b - 1, b) == -1,
        int_xor(b, -b - 1) == -1,
    decreases abs(b),
{
    if b == 0 || b == -1 {
    } else {
        lemma_half_abs(b);
        let nb = -b - 1;
        if b >= 1 {
            crate::bits::lemma_neg_div(b, 2);
            assert(nb / 2 == -(b / 2) - 1 && nb % 2 == 1 - b % 2);
        } else {
            // b <= -2: write b == -m - 1 with m == -b - 1 >= 1
            let m = -b - 1;
            crate::bits::lemma_neg_div(m, 2);
            assert(b / 2 == -(m / 2) - 1 && b % 2 == 1 - m % 2);
        }
        lemma_xor_not_self(b / 2);
        lemma_int_xor_rec(nb, b);
        lemma_int_xor_rec(b, nb);
    }
}

/// XOR is an involution: applying the same mask twice gives the value back.
pub proof fn lemma_xor_cancel(a: int, b: int)
    ensures
        int_xor(int_xor(a, b), b) == a,
    decreases abs(a) + abs(b),
{
    lemma_half_abs(a);
    lemma_half_abs(b);
    if a == 0 {
        lemma_xor_self(b);
        assert(int_xor(0, b) == b);
    } else if a == -1 {
        assert(int_xor(-1, b) == -b - 1 || b == 0);
        if b == 0 {
        } else {
            lemma_xor_not_self(b);
            assert(int_xor(int_xor(-1, b), b) == int_xor(-b - 1, b));
        }
    } else if b == 0 || b == -1 {
    } else {
        lemma_xor_cancel(a / 2, b / 2);
        lemma_int_xor_rec(a, b);
        let c = int_xor(a, b);
        let d: int = if a % 2 != b % 2 {
            1
        } else {
            0
        };
        assert(c == int_xor(a / 2, b / 2) * 2 + d);
        lemma_fundamental_div_mod_converse(c, 2, int_xor(a / 2, b / 2), d);
        assert(c / 2 == int_xor(a / 2, b / 2) && c % 2 == d);
        lemma_int_xor_rec(c, b);
        assert(int_xor(c, b) == 2 * int_xor(c / 2, b / 2) + (if c % 2 != b % 2 {
            1int
        } else {
            0int
        }));
        assert((if c % 2 != b % 2 {
            1int
        } else {
            0int
        }) == a % 2);
    }
}

/// On sign words (0 for non-negative, -1 for negative) the operators follow
/// the sign rules: AND is negative iff both are, OR iff either is, XOR iff
/// exactly one is.
pub proof fn lemma_int_op_signs(sa: int, sb: int)
    requires
        sa == 0 || sa == -1,
        sb == 0 || sb == -1,
    ensures
        int_and(sa, sb) == (if sa == -1 && sb == -1 {
            -1int
        } else {
            0int
        }),
        int_or(sa, sb) == (if sa == -1 || sb == -1 {
            -1int
        } else {
            0int
        }),
        int_xor(sa, sb) == (if (sa == -1) != (sb == -1) {
            -1int
        } else {
            0int
        }),
{
}

} // verus!
