// End-to-end scenarios on literal values: large arithmetic, floor-style
// quotients and remainders, two's-complement bitwise results, saturating
// arithmetic right shifts, text round trips, and every error variant.

use mparith::{build_bigint, build_bigint_bin, BigInt, MpError};

fn dec(s: &str) -> BigInt {
    build_bigint(s)
}

fn small(v: i64) -> BigInt {
    if v < 0 {
        mparith::neg(&build_bigint(&(-v).to_string()))
    } else {
        build_bigint(&v.to_string())
    }
}

#[test]
fn large_addition() {
    let a = dec("123456789012345678901234567890");
    let b = dec("987654321098765432109876543210");
    let s = mparith::add(&a, &b);
    assert_eq!("1111111110111111111011111111100", s.to_string_dec());
}

#[test]
fn large_multiplication() {
    // 2^128 * 2^128 == 2^256
    let p128 = dec("340282366920938463463374607431768211456");
    let p256 = mparith::mul(&p128, &p128);
    assert_eq!(
        "115792089237316195423570985008687907853269984665640564039457584007913129639936",
        p256.to_string_dec()
    );
    // and the same value by shifting 1 left 256 places
    let one = dec("1");
    let shifted = mparith::shl(&one, &dec("256")).unwrap();
    assert_eq!(p256, shifted);
}

#[test]
fn divmod_signs() {
    let (q, r) = mparith::divmod(&small(-17), &small(5)).unwrap();
    assert_eq!("-4", q.to_string_dec());
    assert_eq!("3", r.to_string_dec());

    let (q, r) = mparith::divmod(&small(17), &small(-5)).unwrap();
    assert_eq!("-4", q.to_string_dec());
    assert_eq!("-3", r.to_string_dec());

    let (q, r) = mparith::divmod(&small(-17), &small(-5)).unwrap();
    assert_eq!("3", q.to_string_dec());
    assert_eq!("-2", r.to_string_dec());

    let m = small(-17).rem(&small(5)).unwrap();
    assert_eq!("3", m.to_string_dec());
}

#[test]
fn division_identity() {
    // a == q*b + r on a large case
    let a = dec("123456789012345678901234567890123456789");
    let b = dec("-987654321987654321");
    let (q, r) = mparith::divmod(&a, &b).unwrap();
    let back = mparith::add(&mparith::mul(&q, &b), &r);
    assert_eq!(a, back);
}

#[test]
fn shift_left_bits() {
    let a = build_bigint_bin("0b11111111111111111111111111111111");
    let n = build_bigint_bin("0b100");
    let r = mparith::shl(&a, &n).unwrap();
    assert_eq!("0b111111111111111111111111111111110000", r.to_string_bin());
}

#[test]
fn bitand_two_complement() {
    let a = build_bigint_bin("-0b1010");
    let b = build_bigint_bin("0b1111");
    let r = mparith::bitand(&a, &b);
    assert_eq!("0b110", r.to_string_bin());
}

#[test]
fn shift_right_saturation() {
    let minus_one = small(-1);
    let thousand = dec("1000");
    let r = mparith::shr(&minus_one, &thousand).unwrap();
    assert_eq!("-1", r.to_string_dec());

    let one = dec("1");
    let big = mparith::shl(&one, &thousand).unwrap();
    let back = mparith::shr(&big, &thousand).unwrap();
    assert_eq!("1", back.to_string_dec());

    // (2^1000 - 1) >> 1 == 2^999 - 1
    let big_minus = mparith::sub(&big, &one);
    let halved = mparith::shr(&big_minus, &one).unwrap();
    let expect = mparith::sub(&mparith::shl(&one, &dec("999")).unwrap(), &one);
    assert_eq!(expect, halved);
}

#[test]
fn error_variants() {
    let zero = dec("0");
    let one = dec("1");
    let minus_five = small(-5);
    assert_eq!(Err(MpError::DivideByZero), one.div(&zero));
    assert_eq!(true, mparith::divmod(&one, &zero).is_err());
    assert_eq!(Err(MpError::DivideByZero), one.rem(&zero));
    assert_eq!(Err(MpError::NegativeModulus), one.rem(&minus_five));
    assert!(matches!(mparith::shl(&one, &minus_five), Err(MpError::NegativeShift)));
    assert!(matches!(mparith::shr(&one, &minus_five), Err(MpError::NegativeShift)));
    // one past the largest accepted left-shift amount
    let over = mparith::add(&build_bigint(&mparith::SHL_MAX.to_string()), &one);
    assert!(matches!(mparith::shl(&one, &over), Err(MpError::ShiftOverflow)));
    // the largest accepted amount itself succeeds
    let r = mparith::shl(&zero, &build_bigint(&mparith::SHL_MAX.to_string()));
    assert_eq!("0", r.unwrap().to_string_dec());
}

#[test]
fn decimal_round_trip() {
    for s in [
        "0",
        "7",
        "-7",
        "4611686018427387904",
        "-4611686018427387903",
        "123456789012345678901234567890",
        "-999999999999999999999999999999999",
    ] {
        assert_eq!(s, build_bigint(s).to_string_dec());
    }
    // non-canonical inputs parse to the canonical rendering
    assert_eq!("7", build_bigint("+007").to_string_dec());
    assert_eq!("0", build_bigint("-0").to_string_dec());
    assert_eq!("0", build_bigint("-000").to_string_dec());
}

#[test]
fn binary_round_trip() {
    for s in [
        "0b0",
        "0b1",
        "-0b1",
        "0b100000000000000000000000000000000000000000000000000000000000000",
        "-0b11111111111111111111111111111111111111111111111111111111111111",
    ] {
        assert_eq!(s, build_bigint_bin(s).to_string_bin());
    }
    // decimal and binary forms agree
    let a = build_bigint("4611686018427387904");
    assert_eq!(
        "0b100000000000000000000000000000000000000000000000000000000000000",
        a.to_string_bin()
    );
}

#[test]
fn additive_group_instances() {
    let a = dec("123456789123456789123456789");
    let b = small(-987654321);
    let c = dec("31415926535897932384626433832795028841971");
    let zero = dec("0");
    assert_eq!(a, mparith::add(&a, &zero));
    assert_eq!(zero, mparith::add(&a, &mparith::neg(&a)));
    let left = mparith::add(&mparith::add(&a, &b), &c);
    let right = mparith::add(&a, &mparith::add(&b, &c));
    assert_eq!(left, right);
    assert_eq!(mparith::sub(&a, &b), mparith::add(&a, &mparith::neg(&b)));
    assert_eq!(a, mparith::neg(&mparith::neg(&a)));
}

#[test]
fn multiplicative_instances() {
    let a = dec("123456789123456789123456789");
    let b = small(-987654321);
    let c = dec("31415926535897932384626433832795028841971");
    let zero = dec("0");
    let one = dec("1");
    assert_eq!(a, mparith::mul(&a, &one));
    assert_eq!(zero, mparith::mul(&a, &zero));
    assert_eq!(mparith::mul(&a, &b), mparith::mul(&b, &a));
    let left = mparith::mul(&mparith::mul(&a, &b), &c);
    let right = mparith::mul(&a, &mparith::mul(&b, &c));
    assert_eq!(left, right);
    let dist_l = mparith::mul(&a, &mparith::add(&b, &c));
    let dist_r = mparith::add(&mparith::mul(&a, &b), &mparith::mul(&a, &c));
    assert_eq!(dist_l, dist_r);
}

#[test]
fn bitwise_involution_instances() {
    let a = dec("-123456789123456789123456789");
    let b = dec("31415926535897932384626433832795028841971");
    let zero = dec("0");
    assert_eq!(zero, mparith::bitxor(&a, &a));
    assert_eq!(a, mparith::bitxor(&a, &zero));
    assert_eq!(a, mparith::bitand(&a, &a));
    assert_eq!(a, mparith::bitor(&a, &a));
    assert_eq!(a, mparith::bitxor(&mparith::bitxor(&a, &b), &b));
}

#[test]
fn shift_laws_instances() {
    let a = dec("-123456789123456789123456789");
    let one = dec("1");
    // a << n equals a * 2^n
    let n = dec("67");
    let p = mparith::shl(&one, &n).unwrap();
    assert_eq!(mparith::shl(&a, &n).unwrap(), mparith::mul(&a, &p));
    // a >> n equals floor division by 2^n
    let q = mparith::shr(&a, &n).unwrap();
    let (fq, _) = mparith::divmod(&a, &p).unwrap();
    assert_eq!(fq, q);
}

#[test]
fn order_instances() {
    let a = small(-5);
    let b = small(3);
    let c = dec("1000000000000000000000000");
    assert_eq!(-1, a.cmp(&b));
    assert_eq!(1, b.cmp(&a));
    assert_eq!(0, a.cmp(&small(-5)));
    // translation invariance
    let ac = mparith::add(&a, &c);
    let bc = mparith::add(&b, &c);
    assert_eq!(-1, ac.cmp(&bc));
    // transitivity on a chain
    assert_eq!(-1, a.cmp(&c));
}

#[test]
fn wide_values() {
    // (2^500 - 1) * (2^500 + 1) == 2^1000 - 1
    let one = dec("1");
    let p500 = mparith::shl(&one, &dec("500")).unwrap();
    let p1000 = mparith::shl(&one, &dec("1000")).unwrap();
    let prod = mparith::mul(&mparith::sub(&p500, &one), &mparith::add(&p500, &one));
    assert_eq!(mparith::sub(&p1000, &one), prod);
    // a three-hundred-digit value survives a decimal round trip
    let s = p1000.to_string_dec();
    assert_eq!(302, s.len());
    assert_eq!(p1000, build_bigint(&s));
    // and dividing it by itself gives one and no remainder
    let (q, r) = mparith::divmod(&p1000, &p1000).unwrap();
    assert_eq!("1", q.to_string_dec());
    assert_eq!("0", r.to_string_dec());
}

#[test]
fn carry_chains() {
    // additions that ripple a carry through several limbs
    let b62 = dec("4611686018427387904");  // 2^62, one past the top limb value
    let max_limb = mparith::sub(&b62, &dec("1"));
    let x = mparith::add(&mparith::mul(&max_limb, &b62), &max_limb);
    let y = mparith::add(&x, &dec("1"));
    let z = mparith::sub(&y, &dec("1"));
    assert_eq!(x, z);
    assert_eq!("0b11", mparith::add(&build_bigint_bin("0b1"), &build_bigint_bin("0b10")).to_string_bin());
}
