//! The text bridge: decimal and binary parsing and rendering.
//!
//! The grammar of each form and the integer a string denotes are spec
//! functions over character sequences; the parsers and formatters are proved
//! against them, and the round-trip laws tie the two directions together.

use vstd::prelude::*;
use vstd::string::{StrSliceExecFns, StringExecFns};
use vstd::arithmetic::power2::{pow2, lemma_pow2_adds, lemma_pow2_pos, lemma2_to64};
use vstd::arithmetic::div_mod::{
    lemma_fundamental_div_mod, lemma_fundamental_div_mod_converse,
    lemma_mod_division_less_than_divisor, lemma_div_basics,
};
use crate::bigint::{BigInt, mag_copy, lemma_value_sign};
use crate::bits::{mag_bit, mag_bits, bit_at, lemma_div_pow2_step, lemma_div_denominator_general};
use crate::digits::{mag_value, limbs_in_range, limbs_trimmed, B, lemma_mag_value_trimmed_pos};
use crate::magops::{mag_scale_add, mag_double_plus};
use crate::normal::{finish, trim};

verus! {

/// One or more decimal digits.
pub open spec fn is_dec_digits(s: Seq<char>) -> bool {
    s.len() > 0 && forall|i: int| 0 <= i < s.len() ==> 48 <= #[trigger] s[i] as int <= 57
}

/// The number denoted by a digit sequence, most significant digit first.
pub open spec fn dec_digits_value(s: Seq<char>) -> int
    decreases s.len(),
{
    if s.len() == 0 {
        0
    } else {
        dec_digits_value(s.drop_last()) * 10 + (s.last() as int - 48)
    }
}

/// The decimal form: an optional sign, then one or more digits.
pub open spec fn is_dec_string(s: Seq<char>) -> bool {
    if s.len() == 0 {
        false
    } else if s[0] == '-' || s[0] == '+' {
        is_dec_digits(s.skip(1))
    } else {
        is_dec_digits(s)
    }
}

/// The integer a decimal string denotes.
pub open spec fn dec_value(s: Seq<char>) -> int {
    if s.len() > 0 && s[0] == '-' {
        -dec_digits_value(s.skip(1))
    } else if s.len() > 0 && s[0] == '+' {
        dec_digits_value(s.skip(1))
    } else {
        dec_digits_value(s)
    }
}

/// One or more binary digits.
pub open spec fn is_bin_digits(s: Seq<char>) -> bool {
    s.len() > 0 && forall|i: int| 0 <= i < s.len() ==> 48 <= #[trigger] s[i] as int <= 49
}

/// The number denoted by a bit sequence, most significant bit first.
pub open spec fn bin_digits_value(s: Seq<char>) -> int
    decreases s.len(),
{
    if s.len() == 0 {
        0
    } else {
        bin_digits_value(s.drop_last()) * 2 + (s.last() as int - 48)
    }
}

/// The binary form: an optional minus, the prefix `0b`, then binary digits.
pub open spec fn is_bin_string(s: Seq<char>) -> bool {
    if s.len() > 0 && s[0] == '-' {
        s.len() >= 3 && s[1] == '0' && s[2] == 'b' && is_bin_digits(s.skip(3))
    } else {
        s.len() >= 2 && s[0] == '0' && s[1] == 'b' && is_bin_digits(s.skip(2))
    }
}

/// The integer a binary string denotes.
pub open spec fn bin_value(s: Seq<char>) -> int {
    if s.len() > 0 && s[0] == '-' {
        -bin_digits_value(s.skip(3))
    } else {
        bin_digits_value(s.skip(2))
    }
}

/// The character of one decimal digit.
pub open spec fn dec_char(d: int) -> char {
    if d == 0 {
        '0'
    } else if d == 1 {
        '1'
    } else if d == 2 {
        '2'
    } else if d == 3 {
        '3'
    } else if d == 4 {
        '4'
    } else if d == 5 {
        '5'
    } else if d == 6 {
        '6'
    } else if d == 7 {
        '7'
    } else if d == 8 {
        '8'
    } else {
        '9'
    }
}

/// The canonical digit string of a non-negative number: no leading zero,
/// except for zero itself.
pub open spec fn dec_digits_of(m: nat) -> Seq<char>
    decreases m,
{
    if m <= 9 {
        seq![dec_char(m as int)]
    } else {
        dec_digits_of(m / 10).push(dec_char((m % 10) as int))
    }
}

/// The canonical decimal rendering: a minus sign for negatives, then the
/// digits of the magnitude without leading zeros.
pub open spec fn dec_render(v: int) -> Seq<char> {
    if v < 0 {
        seq!['-'] + dec_digits_of((-v) as nat)
    } else {
        dec_digits_of(v as nat)
    }
}

/// The canonical bit string of a non-negative number.
pub open spec fn bin_digits_of(m: nat) -> Seq<char>
    decreases m,
{
    if m <= 1 {
        seq![dec_char(m as int)]
    } else {
        bin_digits_of(m / 2).push(dec_char((m % 2) as int))
    }
}

/// The canonical binary rendering: an optional minus, the `0b` prefix, the
/// bits of the magnitude without leading zeros.
pub open spec fn bin_render(v: int) -> Seq<char> {
    if v < 0 {
        seq!['-', '0', 'b'] + bin_digits_of((-v) as nat)
    } else {
        seq!['0', 'b'] + bin_digits_of(v as nat)
    }
}

/// `10^n`.
pub open spec fn pow10(n: nat) -> int
    decreases n,
{
    if n == 0 {
        1
    } else {
        10 * pow10((n - 1) as nat)
    }
}

/// Divide a magnitude by ten, most significant limb first.
fn mag_div10(v: &Vec<i64>) -> (qr: (Vec<i64>, i64))
    requires
        limbs_in_range(v@),
    ensures
        limbs_in_range(qr.0@),
        qr.0@.len() == v@.len(),
        mag_value(v@) == mag_value(qr.0@) * 10 + qr.1,
        0 <= qr.1 < 10,
{
    let n = v.len();
    let mut q: Vec<i64> = vec![0i64; n];
    let mut rem: i64 = 0;
    let mut i: usize = n;
    proof {
        assert(v@.skip(n as int) =~= Seq::<i64>::empty());
        assert(q@.skip(n as int) =~= Seq::<i64>::empty());
        assert(mag_value(Seq::<i64>::empty()) == 0);
    }
    while i > 0
        invariant
            0 <= i <= n,
            n == v@.len(),
            q@.len() == n,
            limbs_in_range(v@),
            limbs_in_range(q@),
            0 <= rem < 10,
            mag_value(v@.skip(i as int)) == mag_value(q@.skip(i as int)) * 10 + rem,
        decreases i,
    {
        i = i - 1;
        let ghost q_pre = q@;
        let ghost rem_pre = rem as int;
        let cur: u128 = (rem as u128) * (B as u128) + (v[i] as u128);
        let qi = cur / 10;
        let rr = cur % 10;
        proof {
            lemma_fundamental_div_mod(cur as int, 10);
            lemma_mod_division_less_than_divisor(cur as int, 10);
            assert(qi < B) by (nonlinear_arith)
                requires
                    cur as int == 10 * (qi as int) + rr as int,
                    0 <= rr,
                    cur as int == rem_pre * (B as int) + v@[i as int],
                    0 <= rem_pre < 10,
                    0 <= v@[i as int] < B,
            ;
        }
        q[i] = qi as i64;
        rem = rr as i64;
        proof {
            assert(q@.skip(i + 1) =~= q_pre.skip(i + 1));
            assert(q@.skip(i as int)[0] == q@[i as int]);
            assert(q@.skip(i as int).drop_first() =~= q@.skip(i + 1));
            assert(mag_value(q@.skip(i as int)) == qi + B * mag_value(q@.skip(i + 1)));
            assert(v@.skip(i as int)[0] == v@[i as int]);
            assert(v@.skip(i as int).drop_first() =~= v@.skip(i + 1));
            assert(mag_value(v@.skip(i as int)) == v@[i as int] + B * mag_value(v@.skip(i + 1)));
            let ghost vq1 = mag_value(q@.skip(i + 1));
            assert(v@[i as int] + B * (vq1 * 10 + rem_pre) == (qi + B * vq1) * 10 + rem)
                by (nonlinear_arith)
                requires
                    rem_pre * (B as int) + v@[i as int] == 10 * (qi as int) + rem,
            ;
        }
    }
    proof {
        assert(v@.skip(0) =~= v@);
        assert(q@.skip(0) =~= q@);
    }
    (q, rem)
}

/// Append one digit character (`0..=9`) to a string.
fn push_digit(s: &mut String, d: i64)
    requires
        0 <= d <= 9,
    ensures
        final(s)@ == old(s)@.push(dec_char(d as int)),
{
    proof {
        reveal_strlit("0");
        reveal_strlit("1");
        reveal_strlit("2");
        reveal_strlit("3");
        reveal_strlit("4");
        reveal_strlit("5");
        reveal_strlit("6");
        reveal_strlit("7");
        reveal_strlit("8");
        reveal_strlit("9");
    }
    if d == 0 {
        s.append("0");
    } else if d == 1 {
        s.append("1");
    } else if d == 2 {
        s.append("2");
    } else if d == 3 {
        s.append("3");
    } else if d == 4 {
        s.append("4");
    } else if d == 5 {
        s.append("5");
    } else if d == 6 {
        s.append("6");
    } else if d == 7 {
        s.append("7");
    } else if d == 8 {
        s.append("8");
    } else {
        s.append("9");
    }
    proof {
        assert(final(s)@ =~= old(s)@.push(dec_char(d as int)));
    }
}

impl BigInt {
    /// Render in binary: `0b` prefix, most significant bit first, no leading
    /// zeros; zero renders as `0b0` without a sign.
    pub fn to_string_bin(&self) -> (r: String)
        requires
            self.wf(),
        ensures
            r@ == bin_render(self.value()),
    {
        proof {
            lemma_value_sign(self);
            lemma_mag_value_trimmed_pos(self.mag@);
            reveal_strlit("0b");
            reveal_strlit("-0b");
        }
        let mut s = String::new();
        if self.sgn == -1 {
            s.append("-0b");
            proof {
                assert(s@ =~= seq!['-', '0', 'b']);
            }
        } else {
            s.append("0b");
            proof {
                assert(s@ =~= seq!['0', 'b']);
            }
        }
        let ghost prefix = s@;
        if self.mag.len() == 0 {
            push_digit(&mut s, 0);
            proof {
                assert(s@ =~= prefix + bin_digits_of(0));
            }
            return s;
        }
        let ghost mv = mag_value(self.mag@);
        let nb = mag_bits(&self.mag);
        proof {
            // the top bit is one: mv / 2^(nb-1) == 1
            lemma_pow2_adds((nb - 1) as nat, 1);
            lemma2_to64();
            lemma_pow2_pos((nb - 1) as nat);
            assert(mv == 1 * pow2((nb - 1) as nat) + (mv - pow2((nb - 1) as nat)));
            lemma_fundamental_div_mod_converse(
                mv,
                pow2((nb - 1) as nat) as int,
                1,
                mv - pow2((nb - 1) as nat),
            );
            assert(bin_digits_of(1) =~= seq![dec_char(1)]);
        }
        push_digit(&mut s, 1);
        let mut i = nb - 1;
        proof {
            assert(s@ =~= prefix + bin_digits_of((mv / pow2(i as nat) as int) as nat));
        }
        while i > 0
            invariant
                0 <= i <= nb - 1,
                nb <= 62 * self.mag@.len(),
                self.wf(),
                mv == mag_value(self.mag@),
                pow2((nb - 1) as nat) <= mv < pow2(nb as nat),
                s@ == prefix + bin_digits_of((mv / pow2(i as nat) as int) as nat),
            decreases i,
        {
            i = i - 1;
            let bit = mag_bit(&self.mag, i);
            let ghost hi = mv / pow2((i + 1) as nat) as int;
            let ghost lo = mv / pow2(i as nat) as int;
            proof {
                lemma_div_pow2_step(mv, i as nat);
                // hi >= 1 because 2^(i+1) <= 2^(nb-1) <= mv
                if i + 1 < nb - 1 {
                    vstd::arithmetic::power2::lemma_pow2_strictly_increases(
                        (i + 1) as nat,
                        (nb - 1) as nat,
                    );
                }
                lemma_pow2_pos((i + 1) as nat);
                lemma_fundamental_div_mod(mv, pow2((i + 1) as nat) as int);
                lemma_mod_division_less_than_divisor(mv, pow2((i + 1) as nat) as int);
                assert(hi >= 1) by (nonlinear_arith)
                    requires
                        mv == pow2((i + 1) as nat) as int * hi + (mv % (pow2((i + 1) as nat) as int)),
                        (mv % (pow2((i + 1) as nat) as int)) < pow2((i + 1) as nat) as int,
                        mv >= pow2((i + 1) as nat) as int,
                        pow2((i + 1) as nat) >= 1,
                ;
                assert(lo == 2 * hi + bit_at(mv, i as nat));
                assert(lo == hi * 2 + bit_at(mv, i as nat));
                lemma_fundamental_div_mod_converse(lo, 2, hi, bit_at(mv, i as nat));
                assert(lo >= 2);
                assert(bin_digits_of(lo as nat) == bin_digits_of((lo / 2) as nat).push(
                    dec_char(lo % 2),
                ));
            }
            if bit {
                push_digit(&mut s, 1);
            } else {
                push_digit(&mut s, 0);
            }
            proof {
                assert(s@ =~= prefix + bin_digits_of((mv / pow2(i as nat) as int) as nat));
            }
        }
        proof {
            lemma_div_basics(mv);
            lemma2_to64();
            assert(mv / pow2(0) as int == mv);
            if self.sgn == -1 {
                assert(self.value() == -1 * mv);
                assert((-self.value()) as nat == mv as nat);
            } else {
                assert(self.value() == 1 * mv);
            }
        }
        s
    }

    /// Render in decimal: a minus sign for negatives, digits without leading
    /// zeros; zero renders as `0`.
    pub fn to_string_dec(&self) -> (r: String)
        requires
            self.wf(),
        ensures
            r@ == dec_render(self.value()),
    {
        proof {
            lemma_value_sign(self);
            lemma_mag_value_trimmed_pos(self.mag@);
            reveal_strlit("-");
            reveal_strlit("");
        }
        let mut s = String::new();
        if self.sgn == 0 {
            push_digit(&mut s, 0);
            proof {
                assert(s@ =~= dec_digits_of(0));
            }
            return s;
        }
        if self.sgn == -1 {
            s.append("-");
            proof {
                assert(s@ =~= seq!['-']);
            }
        }
        let ghost prefix = s@;
        let ghost mv = mag_value(self.mag@);
        // extract digits, least significant first
        let mut m = mag_copy(&self.mag);
        let mut digs: Vec<i64> = Vec::new();
        proof {
            assert(pow10(0) == 1);
            lemma_div_basics(mv);
        }
        while m.len() > 0
            invariant
                limbs_in_range(m@),
                limbs_trimmed(m@),
                mv == mag_value(self.mag@),
                mv >= 1,
                mag_value(m@) == mv / pow10(digs@.len() as nat),
                mag_value(m@) >= 0,
                forall|j: int|
                    0 <= j < digs@.len() ==> #[trigger] digs@[j] as int == (mv / pow10(
                        j as nat,
                    )) % 10 && 0 <= digs@[j] <= 9,
                digs@.len() > 0 && mag_value(m@) == 0 ==> digs@[digs@.len() - 1] >= 1,
                pow10(digs@.len() as nat) >= 1,
            decreases mag_value(m@),
        {
            proof {
                lemma_mag_value_trimmed_pos(m@);
            }
            let (q0, d) = mag_div10(&m);
            let mut q = q0;
            trim(&mut q);
            let ghost m_pre = mag_value(m@);
            let ghost k = digs@.len() as nat;
            proof {
                assert(m_pre == mag_value(q@) * 10 + d);
                lemma_fundamental_div_mod_converse(m_pre, 10, mag_value(q@), d as int);
                assert(mag_value(q@) == m_pre / 10);
                assert(d as int == m_pre % 10);
                // chain: (mv / 10^k) / 10 == mv / 10^(k+1)
                lemma_pow10_pos(k);
                lemma_div_denominator_general(mv, pow10(k), 10);
                assert(pow10((k + 1) as nat) == pow10(k) * 10) by {
                    lemma_pow10_mul(k);
                }
                assert(mag_value(q@) == mv / pow10((k + 1) as nat));
                assert(mag_value(q@) * 10 < m_pre * 10 ==> true);
                // strict decrease
                assert(mag_value(q@) < m_pre) by (nonlinear_arith)
                    requires
                        m_pre == mag_value(q@) * 10 + d,
                        0 <= d,
                        m_pre >= 1,
                        mag_value(q@) >= 0,
                ;
                lemma_pow10_pos((k + 1) as nat);
            }
            m = q;
            digs.push(d);
        }
        let ghost k_total = digs@.len() as nat;
        proof {
            assert(digs@.len() > 0);
            assert(mv / pow10(k_total) == 0);
        }
        // emit, most significant first
        let mut j = digs.len();
        proof {
            // the leading digit equals mv / 10^(k-1), which is in [1, 9]
            lemma_pow10_pos((k_total - 1) as nat);
            lemma_div_denominator_general(mv, pow10((k_total - 1) as nat), 10);
            lemma_pow10_mul((k_total - 1) as nat);
            lemma_fundamental_div_mod(mv / pow10((k_total - 1) as nat), 10);
            assert(mv / pow10((k_total - 1) as nat) == digs@[k_total - 1]);
            assert(dec_digits_of((mv / pow10((k_total - 1) as nat)) as nat) =~= seq![
                dec_char(digs@[k_total - 1] as int),
            ]);
        }
        push_digit(&mut s, digs[j - 1]);
        j = j - 1;
        proof {
            assert(s@ =~= prefix + dec_digits_of((mv / pow10((j as nat)) as int) as nat));
        }
        while j > 0
            invariant
                0 <= j <= k_total - 1,
                k_total == digs@.len(),
                mv >= 1,
                forall|t: int|
                    0 <= t < digs@.len() ==> #[trigger] digs@[t] as int == (mv / pow10(
                        t as nat,
                    )) % 10 && 0 <= digs@[t] <= 9,
                mv / pow10(k_total) == 0,
                mv / pow10((k_total - 1) as nat) >= 1,
                s@ == prefix + dec_digits_of((mv / pow10(j as nat) as int) as nat),
            decreases j,
        {
            j = j - 1;
            let ghost hi = mv / pow10((j + 1) as nat);
            let ghost lo = mv / pow10(j as nat);
            proof {
                lemma_pow10_pos(j as nat);
                lemma_pow10_pos((j + 1) as nat);
                lemma_div_denominator_general(mv, pow10(j as nat), 10);
                lemma_pow10_mul(j as nat);
                assert(lo / 10 == hi);
                // hi >= 1 by chaining down from the top digit
                lemma_pow10_div_ge_one(mv, (j + 1) as nat, (k_total - 1) as nat);
                lemma_fundamental_div_mod(lo, 10);
                lemma_mod_division_less_than_divisor(lo, 10);
                assert(lo == 10 * hi + lo % 10);
                assert(lo >= 10) by (nonlinear_arith)
                    requires
                        lo == 10 * hi + lo % 10,
                        hi >= 1,
                        lo % 10 >= 0,
                ;
                assert(dec_digits_of(lo as nat) == dec_digits_of((lo / 10) as nat).push(
                    dec_char(lo % 10),
                ));
            }
            push_digit(&mut s, digs[j]);
            proof {
                assert(s@ =~= prefix + dec_digits_of((mv / pow10(j as nat) as int) as nat));
            }
        }
        proof {
            assert(pow10(0) == 1);
            lemma_div_basics(mv);
            if self.sgn == -1 {
                assert(self.value() == -1 * mv);
                assert((-self.value()) as nat == mv as nat);
            } else {
                assert(self.value() == 1 * mv);
            }
        }
        s
    }
}

/// The canonical digit string of `m` is made of digits and reads back as `m`.
pub proof fn lemma_dec_digits_round(m: nat)
    ensures
        is_dec_digits(dec_digits_of(m)),
        dec_digits_value(dec_digits_of(m)) == m,
    decreases m,
{
    if m <= 9 {
        let s = dec_digits_of(m);
        assert(s.drop_last() =~= Seq::<char>::empty());
        assert(dec_digits_value(Seq::<char>::empty()) == 0);
        assert(dec_char(m as int) as int == 48 + m);
        assert(0 * 10 == 0) by (nonlinear_arith);
    } else {
        lemma_dec_digits_round(m / 10);
        lemma_fundamental_div_mod(m as int, 10);
        lemma_mod_division_less_than_divisor(m as int, 10);
        let hi = dec_digits_of(m / 10);
        let c = dec_char((m % 10) as int);
        assert(c as int == 48 + m % 10);
        assert(hi.push(c).drop_last() =~= hi);
        assert(dec_digits_value(hi.push(c)) == dec_digits_value(hi) * 10 + (c as int - 48));
    }
}

/// Rendering in decimal and parsing back is the identity, and the rendering
/// is always a well-formed decimal string.
pub proof fn lemma_dec_round_trip(v: int)
    ensures
        is_dec_string(dec_render(v)),
        dec_value(dec_render(v)) == v,
{
    if v < 0 {
        lemma_dec_digits_round((-v) as nat);
        let s = dec_render(v);
        assert(s[0] == '-');
        assert(s.skip(1) =~= dec_digits_of((-v) as nat));
    } else {
        lemma_dec_digits_round(v as nat);
        let s = dec_render(v);
        assert(48 <= s[0] as int <= 57);
        assert(('-' as int) == 45 && ('+' as int) == 43);
        assert(s[0] != '-' && s[0] != '+');
    }
}

/// The canonical bit string of `m` is made of bits and reads back as `m`.
pub proof fn lemma_bin_digits_round(m: nat)
    ensures
        is_bin_digits(bin_digits_of(m)),
        bin_digits_value(bin_digits_of(m)) == m,
    decreases m,
{
    if m <= 1 {
        let s = bin_digits_of(m);
        assert(s.drop_last() =~= Seq::<char>::empty());
        assert(bin_digits_value(Seq::<char>::empty()) == 0);
        assert(dec_char(m as int) as int == 48 + m);
        assert(0 * 2 == 0) by (nonlinear_arith);
    } else {
        lemma_bin_digits_round(m / 2);
        lemma_fundamental_div_mod(m as int, 2);
        lemma_mod_division_less_than_divisor(m as int, 2);
        let hi = bin_digits_of(m / 2);
        let c = dec_char((m % 2) as int);
        assert(c as int == 48 + m % 2);
        assert(hi.push(c).drop_last() =~= hi);
        assert(bin_digits_value(hi.push(c)) == bin_digits_value(hi) * 2 + (c as int - 48));
    }
}

/// Rendering in binary and parsing back is the identity, and the rendering
/// is always a well-formed binary string.
pub proof fn lemma_bin_round_trip(v: int)
    ensures
        is_bin_string(bin_render(v)),
        bin_value(bin_render(v)) == v,
{
    if v < 0 {
        lemma_bin_digits_round((-v) as nat);
        let s = bin_render(v);
        assert(s[0] == '-');
        assert(s.skip(3) =~= bin_digits_of((-v) as nat));
    } else {
        lemma_bin_digits_round(v as nat);
        let s = bin_render(v);
        assert(s[0] == '0' && s[1] == 'b');
        assert(('-' as int) == 45 && ('0' as int) == 48);
        assert(s[0] != '-');
        assert(s.skip(2) =~= bin_digits_of(v as nat));
    }
}

/// `10^n >= 1`.
pub proof fn lemma_pow10_pos(n: nat)
    ensures
        pow10(n) >= 1,
    decreases n,
{
    if n > 0 {
        lemma_pow10_pos((n - 1) as nat);
    }
}

/// `10^(n+1) == 10^n * 10`.
pub proof fn lemma_pow10_mul(n: nat)
    ensures
        pow10((n + 1) as nat) == pow10(n) * 10,
{
}

/// If dividing by a higher power of ten still leaves at least one, so does
/// dividing by a lower one.
pub proof fn lemma_pow10_div_ge_one(x: int, lo: nat, hi: nat)
    requires
        lo <= hi,
        x >= 0,
        x / pow10(hi) >= 1,
    ensures
        x / pow10(lo) >= 1,
    decreases hi - lo,
{
    if lo < hi {
        lemma_pow10_div_ge_one(x, (lo + 1) as nat, hi);
        lemma_pow10_pos(lo);
        lemma_pow10_pos((lo + 1) as nat);
        lemma_div_denominator_general(x, pow10(lo), 10);
        lemma_pow10_mul(lo);
        let t = x / pow10(lo);
        lemma_fundamental_div_mod(t, 10);
        lemma_mod_division_less_than_divisor(t, 10);
        assert(t >= 1) by (nonlinear_arith)
            requires
                t == 10 * (t / 10) + t % 10,
                t / 10 >= 1,
                t % 10 >= 0,
        ;
    }
}

/// Parse a decimal string.  Leading zeros and an explicit `+` are accepted;
/// the result is canonical.
pub fn build_bigint(val: &str) -> (r: BigInt)
    requires
        is_dec_string(val@),
    ensures
        r.wf(),
        r.value() == dec_value(val@),
{
    let len = val.unicode_len();
    let first = val.get_char(0);
    let neg = first == '-';
    let start: usize = if first == '-' || first == '+' {
        1
    } else {
        0
    };
    let ghost digits = val@.skip(start as int);
    proof {
        if start == 0 {
            assert(val@.skip(0) =~= val@);
        }
        assert(digits.subrange(0, 0) =~= Seq::<char>::empty());
        assert(dec_digits_value(Seq::<char>::empty()) == 0);
    }
    let mut m: Vec<i64> = Vec::new();
    let mut i: usize = start;
    while i < len
        invariant
            start <= i <= len,
            len == val@.len(),
            is_dec_digits(digits),
            digits == val@.skip(start as int),
            start <= 1,
            limbs_in_range(m@),
            mag_value(m@) == dec_digits_value(digits.subrange(0, i - start)),
        decreases len - i,
    {
        let c = val.get_char(i);
        proof {
            assert(digits[i - start] == val@[i as int]);
            assert(48 <= digits[i - start] as int <= 57);
        }
        let d = (c as u32) as i64 - 48;
        let ghost pre = digits.subrange(0, i - start);
        let m2 = mag_scale_add(&m, 10, d);
        m = m2;
        proof {
            assert(digits.subrange(0, i + 1 - start) =~= pre.push(digits[i - start]));
            assert(digits.subrange(0, i + 1 - start).drop_last() =~= pre);
            assert(dec_digits_value(digits.subrange(0, i + 1 - start)) == dec_digits_value(pre) * 10
                + (digits[i - start] as int - 48));
        }
        i = i + 1;
    }
    proof {
        assert(digits.subrange(0, len - start) =~= digits);
    }
    let r = finish(m, if neg {
        -1
    } else {
        1
    });
    r
}

/// Parse a binary string (`0b` prefix, optional leading minus).  The result
/// is canonical.
pub fn build_bigint_bin(val: &str) -> (r: BigInt)
    requires
        is_bin_string(val@),
    ensures
        r.wf(),
        r.value() == bin_value(val@),
{
    let len = val.unicode_len();
    let first = val.get_char(0);
    let neg = first == '-';
    let start: usize = if neg {
        3
    } else {
        2
    };
    let ghost digits = val@.skip(start as int);
    proof {
        assert(digits.subrange(0, 0) =~= Seq::<char>::empty());
        assert(bin_digits_value(Seq::<char>::empty()) == 0);
    }
    let mut m: Vec<i64> = Vec::new();
    let mut i: usize = start;
    while i < len
        invariant
            start <= i <= len,
            len == val@.len(),
            is_bin_digits(digits),
            digits == val@.skip(start as int),
            start <= 3,
            limbs_in_range(m@),
            mag_value(m@) == bin_digits_value(digits.subrange(0, i - start)),
        decreases len - i,
    {
        let c = val.get_char(i);
        proof {
            assert(digits[i - start] == val@[i as int]);
            assert(48 <= digits[i - start] as int <= 49);
        }
        let bit = c == '1';
        let ghost pre = digits.subrange(0, i - start);
        mag_double_plus(&mut m, bit);
        proof {
            assert(digits.subrange(0, i + 1 - start) =~= pre.push(digits[i - start]));
            assert(digits.subrange(0, i + 1 - start).drop_last() =~= pre);
            assert(bin_digits_value(digits.subrange(0, i + 1 - start)) == bin_digits_value(pre) * 2
                + (digits[i - start] as int - 48));
            assert(('1' as int) == 49);
            assert(digits[i - start] as int - 48 == (if bit {
                1int
            } else {
                0int
            }));
        }
        i = i + 1;
    }
    proof {
        assert(digits.subrange(0, len - start) =~= digits);
    }
    let r = finish(m, if neg {
        -1
    } else {
        1
    });
    r
}

} // verus!
