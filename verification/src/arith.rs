//! The additive primitive: one signed add/subtract over the staging buffer,
//! normalized by [`crate::normal::reduce`].

use vstd::prelude::*;
use crate::bigint::{BigInt, mag_copy, lemma_value_sign};
use crate::digits::{
    mag_value, limbs_in_range, pfx_val, pow_b, lemma_mag_value_push, lemma_pfx_val_zero,
    lemma_pfx_val_full, lemma_pfx_val_succ,
};
use crate::normal::reduce;

verus! {

/// `a + sgn * b`: the unified additive primitive.  With `sgn == 1` it adds,
/// with `sgn == -1` it subtracts; interior limbs of the staging buffer may go
/// negative and the normalizer sorts them out.
pub fn addsub(a: &BigInt, b: &BigInt, sgn: i64) -> (r: BigInt)
    requires
        a.wf(),
        b.wf(),
        sgn == 1 || sgn == -1,
    ensures
        r.wf(),
        r.value() == a.value() + sgn * b.value(),
{
    proof {
        assert(-1 <= a.sgn as int * b.sgn as int <= 1 && -1 <= (a.sgn as int * b.sgn as int)
            * sgn as int <= 1) by (nonlinear_arith)
            requires
                -1 <= a.sgn as int <= 1,
                -1 <= b.sgn as int <= 1,
                -1 <= sgn as int <= 1,
        ;
    }
    let s = a.sgn * b.sgn * sgn;
    if s == 0 {
        if a.sgn != 0 {
            // b is zero: the result is a itself.
            proof {
                assert(b.sgn == 0) by (nonlinear_arith)
                    requires
                        a.sgn as int * b.sgn as int * sgn as int == 0,
                        a.sgn != 0,
                        sgn != 0,
                ;
                lemma_value_sign(b);
                assert(sgn * b.value() == 0) by (nonlinear_arith)
                    requires
                        b.value() == 0,
                ;
            }
            BigInt { mag: mag_copy(&a.mag), sgn: a.sgn }
        } else {
            // a is zero: the result is b, with its sign flipped by sgn.
            proof {
                lemma_value_sign(a);
                assert((b.sgn * sgn) as int * mag_value(b.mag@) == sgn * (b.sgn as int * mag_value(
                    b.mag@,
                ))) by (nonlinear_arith);
            }
            BigInt { mag: mag_copy(&b.mag), sgn: b.sgn * sgn }
        }
    } else {
        let la = a.mag.len();
        let lb = b.mag.len();
        let n = if la > lb {
            la
        } else {
            lb
        };
        let mut c: Vec<i64> = Vec::new();
        let mut i: usize = 0;
        proof {
            assert((s == 1 || s == -1) && a.sgn != 0 && b.sgn != 0) by (nonlinear_arith)
                requires
                    s == a.sgn as int * b.sgn as int * sgn as int,
                    a.sgn == 1 || a.sgn == 0 || a.sgn == -1,
                    b.sgn == 1 || b.sgn == 0 || b.sgn == -1,
                    sgn == 1 || sgn == -1,
                    s != 0,
            ;
            lemma_pfx_val_zero(a.mag@);
            lemma_pfx_val_zero(b.mag@);
        }
        while i < n
            invariant
                0 <= i <= n,
                n >= la,
                n >= lb,
                la == a.mag@.len(),
                lb == b.mag@.len(),
                s == 1 || s == -1,
                limbs_in_range(a.mag@),
                limbs_in_range(b.mag@),
                c@.len() == i,
                mag_value(c@) == pfx_val(a.mag@, i as int) + s * pfx_val(b.mag@, i as int),
            decreases n - i,
        {
            let xv: i64 = if i < la {
                a.mag[i]
            } else {
                0
            };
            let yv: i64 = if i < lb {
                b.mag[i]
            } else {
                0
            };
            let limb = xv + s * yv;
            proof {
                lemma_mag_value_push(c@, limb);
                lemma_pfx_val_succ(a.mag@, i as int);
                lemma_pfx_val_succ(b.mag@, i as int);
                let ghost p = pow_b(i as nat);
                let ghost pa = pfx_val(a.mag@, i as int);
                let ghost pb = pfx_val(b.mag@, i as int);
                let ghost pa1 = pfx_val(a.mag@, i + 1);
                let ghost pb1 = pfx_val(b.mag@, i + 1);
                assert(mag_value(c@.push(limb)) == pa1 + s * pb1) by (nonlinear_arith)
                    requires
                        mag_value(c@.push(limb)) == mag_value(c@) + limb * p,
                        mag_value(c@) == pa + s * pb,
                        limb == xv + s * yv,
                        pa1 == pa + xv * p,
                        pb1 == pb + yv * p,
                ;
            }
            c.push(limb);
            i = i + 1;
        }
        proof {
            lemma_pfx_val_full(a.mag@, n as int);
            lemma_pfx_val_full(b.mag@, n as int);
        }
        let r = reduce(c, a.sgn);
        proof {
            let ghost va = mag_value(a.mag@);
            let ghost vb = mag_value(b.mag@);
            assert(a.sgn as int * (va + s * vb) == a.sgn as int * va + sgn * (b.sgn as int * vb))
                by (nonlinear_arith)
                requires
                    s == a.sgn as int * b.sgn as int * sgn,
                    a.sgn == 1 || a.sgn == -1,
                    b.sgn == 1 || b.sgn == -1,
                    sgn == 1 || sgn == -1,
            ;
        }
        r
    }
}

/// Addition.
pub fn add(a: &BigInt, b: &BigInt) -> (r: BigInt)
    requires
        a.wf(),
        b.wf(),
    ensures
        r.wf(),
        r.value() == a.value() + b.value(),
{
    addsub(a, b, 1)
}

/// Subtraction.
pub fn sub(a: &BigInt, b: &BigInt) -> (r: BigInt)
    requires
        a.wf(),
        b.wf(),
    ensures
        r.wf(),
        r.value() == a.value() - b.value(),
{
    addsub(a, b, -1)
}

} // verus!
