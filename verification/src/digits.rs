//! The mathematical reading of a limb vector, and the facts about it that the
//! rest of the crate leans on.

use vstd::prelude::*;
use vstd::arithmetic::power2::pow2;

verus! {

/// The limb radix: `B = 2^(W-2)` for a 64-bit word `W`, leaving two bits of
/// headroom in a signed word for a carry and a sign during transient
/// computation.
pub const B: i64 = 0x4000_0000_0000_0000;

/// `B^n`, the weight of the limb at index `n`.
pub open spec fn pow_b(n: nat) -> int
    decreases n,
{
    if n == 0 {
        1
    } else {
        B * pow_b((n - 1) as nat)
    }
}

/// The integer denoted by a little-endian limb vector.  The definition makes
/// sense for arbitrary `i64` entries, so it also reads the over-ranged,
/// possibly negative staging vectors that the normalizer consumes.
pub open spec fn mag_value(s: Seq<i64>) -> int
    decreases s.len(),
{
    if s.len() == 0 {
        0
    } else {
        s[0] + B * mag_value(s.drop_first())
    }
}

/// Every limb lies in the canonical range `[0, B)`.
pub open spec fn limbs_in_range(s: Seq<i64>) -> bool {
    forall|i: int| 0 <= i < s.len() ==> 0 <= #[trigger] s[i] < B
}

/// No trailing zero limb: the vector is as short as its value allows.
pub open spec fn limbs_trimmed(s: Seq<i64>) -> bool {
    s.len() == 0 || s[s.len() - 1] != 0
}

pub broadcast proof fn lemma_pow_b_pos(n: nat)
    ensures
        #[trigger] pow_b(n) >= 1,
    decreases n,
{
    if n > 0 {
        lemma_pow_b_pos((n - 1) as nat);
    }
}

/// `B^(m+n) == B^m * B^n`.
pub proof fn lemma_pow_b_adds(m: nat, n: nat)
    ensures
        pow_b((m + n) as nat) == pow_b(m) * pow_b(n),
    decreases m,
{
    if m == 0 {
    } else {
        lemma_pow_b_adds((m - 1) as nat, n);
        assert(pow_b((m + n) as nat) == B * pow_b((m - 1 + n) as nat));
        assert(B * (pow_b((m - 1) as nat) * pow_b(n)) == (B * pow_b((m - 1) as nat)) * pow_b(n))
            by (nonlinear_arith);
    }
}

/// Each limb weight is the matching power of two: `B^n == 2^(62 n)`.
pub proof fn lemma_pow_b_pow2(n: nat)
    ensures
        pow_b(n) == pow2((62 * n) as nat),
    decreases n,
{
    vstd::arithmetic::power2::lemma2_to64_rest();
    if n == 0 {
        vstd::arithmetic::power2::lemma2_to64();
    } else {
        lemma_pow_b_pow2((n - 1) as nat);
        vstd::arithmetic::power2::lemma_pow2_adds(62, (62 * (n - 1)) as nat);
    }
}

/// Appending a limb adds its weighted value.
pub proof fn lemma_mag_value_push(s: Seq<i64>, x: i64)
    ensures
        mag_value(s.push(x)) == mag_value(s) + x * pow_b(s.len()),
    decreases s.len(),
{
    if s.len() == 0 {
        assert(s.push(x).drop_first() =~= Seq::<i64>::empty());
        assert(mag_value(Seq::<i64>::empty()) == 0);
        assert(mag_value(s.push(x)) == x);
        assert(x * pow_b(s.len()) == x) by (nonlinear_arith)
            requires
                pow_b(s.len()) == 1,
        ;
    } else {
        let t = s.drop_first();
        let p = pow_b((s.len() - 1) as nat);
        assert(s.push(x).drop_first() =~= t.push(x));
        lemma_mag_value_push(t, x);
        assert(mag_value(s.push(x)) == s[0] + B * (mag_value(t) + x * p));
        assert(mag_value(s.push(x)) == mag_value(s) + x * pow_b(s.len())) by (nonlinear_arith)
            requires
                mag_value(s.push(x)) == s[0] + B * (mag_value(t) + x * p),
                mag_value(s) == s[0] + B * mag_value(t),
                pow_b(s.len()) == B * p,
        ;
    }
}

/// The value of a one-limb-longer prefix.
pub proof fn lemma_mag_value_take_succ(s: Seq<i64>, i: int)
    requires
        0 <= i < s.len(),
    ensures
        mag_value(s.take(i + 1)) == mag_value(s.take(i)) + s[i] * pow_b(i as nat),
{
    assert(s.take(i + 1) =~= s.take(i).push(s[i]));
    lemma_mag_value_push(s.take(i), s[i]);
}

/// A full vector splits at any index into a low prefix and a weighted suffix.
pub proof fn lemma_mag_value_split(s: Seq<i64>, i: int)
    requires
        0 <= i <= s.len(),
    ensures
        mag_value(s) == mag_value(s.take(i)) + pow_b(i as nat) * mag_value(s.skip(i)),
    decreases i,
{
    if i == 0 {
        assert(s.take(0) =~= Seq::<i64>::empty());
        assert(s.skip(0) =~= s);
    } else {
        lemma_mag_value_split(s, i - 1);
        lemma_mag_value_take_succ(s, i - 1);
        assert(s.skip(i - 1).len() > 0);
        assert(s.skip(i - 1)[0] == s[i - 1]);
        assert(s.skip(i - 1).drop_first() =~= s.skip(i));
        assert(mag_value(s.skip(i - 1)) == s[i - 1] + B * mag_value(s.skip(i)));
        let p = pow_b((i - 1) as nat);
        let v = mag_value(s.skip(i));
        assert(p * (s[i - 1] + B * v) == p * s[i - 1] + p * (B * v)) by (nonlinear_arith);
        assert(p * (B * v) == (p * B) * v) by (nonlinear_arith);
        assert(p * B == B * p) by (nonlinear_arith);
        assert(p * s[i - 1] == s[i - 1] * p) by (nonlinear_arith);
    }
}

/// Rewriting one limb moves the value by the weighted difference.
pub proof fn lemma_mag_value_update(s: Seq<i64>, i: int, x: i64)
    ensures
        0 <= i < s.len() ==> mag_value(s.update(i, x)) == mag_value(s) + (x - s[i]) * pow_b(
            i as nat,
        ),
    decreases s.len(),
{
    if 0 <= i < s.len() {
        if i == 0 {
            assert(s.update(0, x).drop_first() =~= s.drop_first());
        } else {
            assert(s.update(i, x).drop_first() =~= s.drop_first().update(i - 1, x));
            lemma_mag_value_update(s.drop_first(), i - 1, x);
            let d = x - s[i];
            let p = pow_b((i - 1) as nat);
            assert(B * (mag_value(s.drop_first()) + d * p) == B * mag_value(s.drop_first()) + B * (d
                * p));
            assert(B * (d * p) == d * (B * p)) by (nonlinear_arith);
        }
    }
}

/// The limb at index `i`, reading indices past the end as zero.
pub open spec fn limb_or0(s: Seq<i64>, i: int) -> i64 {
    if 0 <= i < s.len() {
        s[i]
    } else {
        0
    }
}

/// The value of the first `i` limbs, where `i` may run past the end.
pub open spec fn pfx_val(s: Seq<i64>, i: int) -> int {
    if i <= s.len() {
        mag_value(s.take(i))
    } else {
        mag_value(s)
    }
}

pub proof fn lemma_pfx_val_zero(s: Seq<i64>)
    ensures
        pfx_val(s, 0) == 0,
{
    assert(s.take(0) =~= Seq::<i64>::empty());
}

pub proof fn lemma_pfx_val_full(s: Seq<i64>, i: int)
    requires
        i >= s.len(),
    ensures
        pfx_val(s, i) == mag_value(s),
{
    if i == s.len() {
        assert(s.take(i) =~= s);
    }
}

/// Extending a prefix by one position adds the weighted limb (or nothing,
/// past the end).
pub proof fn lemma_pfx_val_succ(s: Seq<i64>, i: int)
    requires
        0 <= i,
    ensures
        pfx_val(s, i + 1) == pfx_val(s, i) + limb_or0(s, i) * pow_b(i as nat),
{
    if i < s.len() {
        lemma_mag_value_take_succ(s, i);
    } else {
        lemma_pfx_val_full(s, i);
        lemma_pfx_val_full(s, i + 1);
        let p = pow_b(i as nat);
        assert(0 * p == 0) by (nonlinear_arith);
    }
}

/// `B^m <= B^n` whenever `m <= n`.
pub proof fn lemma_pow_b_increases(m: nat, n: nat)
    requires
        m <= n,
    ensures
        pow_b(m) <= pow_b(n),
    decreases n,
{
    if m < n {
        lemma_pow_b_increases(m, (n - 1) as nat);
        lemma_pow_b_pos((n - 1) as nat);
        let p = pow_b((n - 1) as nat);
        assert(p <= B * p) by (nonlinear_arith)
            requires
                p >= 1,
                B >= 1,
        ;
    }
}

/// Negating every limb negates the value.
pub proof fn lemma_mag_value_neg_pointwise(s: Seq<i64>, t: Seq<i64>)
    requires
        s.len() == t.len(),
        forall|i: int| 0 <= i < s.len() ==> #[trigger] t[i] == -s[i],
    ensures
        mag_value(t) == -mag_value(s),
    decreases s.len(),
{
    if s.len() > 0 {
        assert(t.drop_first().len() == s.drop_first().len());
        assert(forall|i: int|
            0 <= i < s.drop_first().len() ==> #[trigger] t.drop_first()[i] == -s.drop_first()[i]);
        lemma_mag_value_neg_pointwise(s.drop_first(), t.drop_first());
    }
}

/// A vector of canonical limbs denotes a value in `[0, B^len)`.
pub proof fn lemma_mag_value_bound(s: Seq<i64>)
    requires
        limbs_in_range(s),
    ensures
        0 <= mag_value(s) < pow_b(s.len()),
    decreases s.len(),
{
    if s.len() > 0 {
        lemma_mag_value_bound(s.drop_first());
    }
}

/// A canonical vector with a positive top limb denotes at least `B^(len-1)`.
pub proof fn lemma_mag_value_lower(s: Seq<i64>)
    requires
        limbs_in_range(s),
        s.len() > 0,
        s[s.len() - 1] >= 1,
    ensures
        mag_value(s) >= pow_b((s.len() - 1) as nat),
    decreases s.len(),
{
    if s.len() == 1 {
        assert(mag_value(s.drop_first()) == 0);
        assert(mag_value(s) == s[0]);
    } else {
        let t = s.drop_first();
        lemma_mag_value_lower(t);
        let p = pow_b((s.len() - 2) as nat);
        assert(mag_value(s) >= pow_b((s.len() - 1) as nat)) by (nonlinear_arith)
            requires
                mag_value(s) == s[0] + B * mag_value(t),
                s[0] >= 0,
                mag_value(t) >= p,
                pow_b((s.len() - 1) as nat) == B * p,
                B > 0,
        ;
    }
}

/// A trimmed canonical vector is empty exactly when its value is zero, and
/// its value is positive otherwise.
pub proof fn lemma_mag_value_trimmed_pos(s: Seq<i64>)
    requires
        limbs_in_range(s),
        limbs_trimmed(s),
    ensures
        s.len() == 0 ==> mag_value(s) == 0,
        s.len() > 0 ==> mag_value(s) >= 1,
{
    if s.len() > 0 {
        lemma_mag_value_lower(s);
        lemma_pow_b_pos((s.len() - 1) as nat);
    }
}

} // verus!
