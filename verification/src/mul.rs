//! The multiplicative primitive: long multiplication, one multiplier limb at
//! a time, most significant first (Horner form), over exact magnitude
//! helpers.

use vstd::prelude::*;
use crate::bigint::{BigInt, lemma_value_sign};
use crate::digits::{mag_value, limbs_in_range, B};
use crate::magops::{mag_add, mag_scale_add};
use crate::normal::finish;

verus! {

/// Multiplication.
pub fn mul(a: &BigInt, b: &BigInt) -> (r: BigInt)
    requires
        a.wf(),
        b.wf(),
    ensures
        r.wf(),
        r.value() == a.value() * b.value(),
{
    if a.sgn == 0 || b.sgn == 0 {
        proof {
            lemma_value_sign(a);
            lemma_value_sign(b);
            assert(a.value() * b.value() == 0) by (nonlinear_arith)
                requires
                    a.value() == 0 || b.value() == 0,
            ;
        }
        return BigInt::zero();
    }
    let ghost va = mag_value(a.mag@);
    let lb = b.mag.len();
    let mut acc: Vec<i64> = Vec::new();
    let mut j = lb;
    proof {
        assert(b.mag@.skip(lb as int) =~= Seq::<i64>::empty());
    }
    while j > 0
        invariant
            0 <= j <= lb,
            lb == b.mag@.len(),
            a.wf(),
            b.wf(),
            va == mag_value(a.mag@),
            limbs_in_range(acc@),
            mag_value(acc@) == va * mag_value(b.mag@.skip(j as int)),
        decreases j,
    {
        j = j - 1;
        let ghost acc_pre = acc@;
        acc.insert(0, 0);
        proof {
            assert(acc@.drop_first() =~= acc_pre);
            assert(acc@[0] == 0);
            assert(mag_value(acc@) == B as int * mag_value(acc_pre));
        }
        let row = mag_scale_add(&a.mag, b.mag[j], 0);
        acc = mag_add(&acc, &row);
        proof {
            assert(b.mag@.skip(j as int).drop_first() =~= b.mag@.skip(j + 1));
            assert(mag_value(b.mag@.skip(j as int)) == b.mag@[j as int] + B as int * mag_value(
                b.mag@.skip(j + 1),
            ));
            let ghost bj = b.mag@[j as int] as int;
            let ghost tail = mag_value(b.mag@.skip(j + 1));
            assert(mag_value(acc@) == va * (bj + B as int * tail)) by (nonlinear_arith)
                requires
                    mag_value(acc@) == B as int * (va * tail) + (va * bj + 0),
            ;
        }
    }
    proof {
        assert(b.mag@.skip(0) =~= b.mag@);
    }
    let ssgn = if a.sgn == b.sgn {
        1i64
    } else {
        -1i64
    };
    let r = finish(acc, ssgn);
    proof {
        let ghost vb = mag_value(b.mag@);
        assert(ssgn as int * (va * vb) == (a.sgn as int * va) * (b.sgn as int * vb))
            by (nonlinear_arith)
            requires
                (a.sgn == 1 || a.sgn == -1) && (b.sgn == 1 || b.sgn == -1),
                ssgn == (if a.sgn as int == b.sgn as int {
                    1int
                } else {
                    -1int
                }),
        ;
    }
    r
}

} // verus!
