// The operator test suite: parsing, printing, and every arithmetic,
// comparison, shift and bitwise operation on small literal values.

use mparith::{build_bigint, build_bigint_bin};

#[test]
fn bigint_bin_io_test() {
    assert_eq!("0b0", build_bigint_bin("0b0").to_string_bin());
    assert_eq!("0b0", build_bigint_bin("-0b0").to_string_bin());
    assert_eq!("0b101", build_bigint_bin("0b101").to_string_bin());
    assert_eq!("-0b101", build_bigint_bin("-0b101").to_string_bin());
    assert_eq!("0b1", build_bigint_bin("0b0001").to_string_bin());
}

#[test]
fn bigint_add_test() {
    assert_eq!(
        "0b1",
        mparith::add(&build_bigint_bin("0b0"), &build_bigint_bin("0b1")).to_string_bin()
    );
    assert_eq!(
        "0b1",
        mparith::add(&build_bigint_bin("0b1"), &build_bigint_bin("0b0")).to_string_bin()
    );
    assert_eq!(
        "-0b1",
        mparith::add(&build_bigint_bin("0b0"), &build_bigint_bin("-0b1")).to_string_bin()
    );
    assert_eq!(
        "-0b1",
        mparith::add(&build_bigint_bin("-0b1"), &build_bigint_bin("0b0")).to_string_bin()
    );
}

#[test]
fn bigint_sub_test() {
    assert_eq!(
        "-0b1",
        mparith::sub(&build_bigint_bin("0b0"), &build_bigint_bin("0b1")).to_string_bin()
    );
    assert_eq!(
        "0b1",
        mparith::sub(&build_bigint_bin("0b1"), &build_bigint_bin("0b0")).to_string_bin()
    );
    assert_eq!(
        "0b1",
        mparith::sub(&build_bigint_bin("0b0"), &build_bigint_bin("-0b1")).to_string_bin()
    );
    assert_eq!(
        "-0b1",
        mparith::sub(&build_bigint_bin("-0b1"), &build_bigint_bin("0b0")).to_string_bin()
    );
    assert_eq!(
        "0b0",
        mparith::sub(&build_bigint_bin("0b1"), &build_bigint_bin("0b1")).to_string_bin()
    );
    assert_eq!(
        "0b0",
        mparith::sub(&build_bigint_bin("-0b1"), &build_bigint_bin("-0b1")).to_string_bin()
    );
}

#[test]
fn bigint_mul_test() {
    assert_eq!(
        "0b0",
        mparith::mul(&build_bigint_bin("0b0"), &build_bigint_bin("0b1")).to_string_bin()
    );
    assert_eq!(
        "0b0",
        mparith::mul(&build_bigint_bin("0b1"), &build_bigint_bin("0b0")).to_string_bin()
    );
    assert_eq!(
        "-0b1",
        mparith::mul(&build_bigint_bin("0b1"), &build_bigint_bin("-0b1")).to_string_bin()
    );
    assert_eq!(
        "-0b1",
        mparith::mul(&build_bigint_bin("-0b1"), &build_bigint_bin("0b1")).to_string_bin()
    );
    assert_eq!(
        "0b1",
        mparith::mul(&build_bigint_bin("0b1"), &build_bigint_bin("0b1")).to_string_bin()
    );
    assert_eq!(
        "0b1",
        mparith::mul(&build_bigint_bin("-0b1"), &build_bigint_bin("-0b1")).to_string_bin()
    );
}

#[test]
#[should_panic]
fn bigint_div_byzero_test() {
    let _ = build_bigint_bin("0b0").div(&build_bigint_bin("0b0")).unwrap();
}

#[test]
fn bigint_div_test() {
    assert_eq!(
        "0b0",
        build_bigint_bin("0b0").div(&build_bigint_bin("0b1")).unwrap().to_string_bin()
    );
    assert_eq!(
        "0b0",
        build_bigint_bin("0b0").div(&build_bigint_bin("-0b1")).unwrap().to_string_bin()
    );
}

#[test]
#[should_panic]
fn bigint_rem_byzero_test() {
    let _ = build_bigint_bin("0b0").rem(&build_bigint_bin("0b0")).unwrap();
}

#[test]
#[should_panic]
fn bigint_rem_byneg_test() {
    let _ = build_bigint_bin("0b0").rem(&build_bigint_bin("-0b1")).unwrap();
}

#[test]
fn bigint_rem_test() {
    assert_eq!(
        "2",
        build_bigint("17").rem(&build_bigint("5")).unwrap().to_string_dec()
    );
    assert_eq!(
        "3",
        build_bigint("-17").rem(&build_bigint("5")).unwrap().to_string_dec()
    );
    assert_eq!(
        "0",
        build_bigint("20").rem(&build_bigint("5")).unwrap().to_string_dec()
    );
    assert_eq!(
        "0",
        build_bigint("-20").rem(&build_bigint("5")).unwrap().to_string_dec()
    );
}

#[test]
fn bigint_cmp_test() {
    assert_eq!(-1, build_bigint("5").cmp(&build_bigint("7")));
    assert_eq!(1, build_bigint("7").cmp(&build_bigint("5")));
    assert_eq!(0, build_bigint("7").cmp(&build_bigint("7")));
    assert_eq!(-1, build_bigint("-7").cmp(&build_bigint("-5")));
    assert_eq!(-1, build_bigint("-7").cmp(&build_bigint("5")));
    assert_eq!(build_bigint("5"), build_bigint_bin("0b101"));
    assert!(build_bigint("5").eq_value(&build_bigint_bin("0b101")));
}

#[test]
#[should_panic]
fn bigint_shl_byneg_test() {
    let _ = mparith::shl(&build_bigint_bin("0b0"), &build_bigint_bin("-0b1")).unwrap();
}

#[test]
fn bigint_shl_test() {
    assert_eq!(
        "0b0",
        mparith::shl(&build_bigint_bin("0b0"), &build_bigint_bin("0b1"))
            .unwrap()
            .to_string_bin()
    );
    assert_eq!(
        "0b1",
        mparith::shl(&build_bigint_bin("0b1"), &build_bigint_bin("0b0"))
            .unwrap()
            .to_string_bin()
    );
    assert_eq!(
        "0b1000",
        mparith::shl(&build_bigint_bin("0b1"), &build_bigint_bin("0b11"))
            .unwrap()
            .to_string_bin()
    );
    assert_eq!(
        "-0b1000000000000000000000000000000000000000000000000000000000000000000000",
        mparith::shl(&build_bigint_bin("-0b1"), &build_bigint("69"))
            .unwrap()
            .to_string_bin()
    );
}

#[test]
#[should_panic]
fn bigint_shr_byneg_test() {
    let _ = mparith::shr(&build_bigint_bin("0b0"), &build_bigint_bin("-0b1")).unwrap();
}

#[test]
fn bigint_shr_test() {
    assert_eq!(
        "0b0",
        mparith::shr(&build_bigint_bin("0b0"), &build_bigint_bin("0b1"))
            .unwrap()
            .to_string_bin()
    );
    assert_eq!(
        "0b1",
        mparith::shr(&build_bigint_bin("0b1"), &build_bigint_bin("0b0"))
            .unwrap()
            .to_string_bin()
    );
    assert_eq!(
        "0b101",
        mparith::shr(&build_bigint_bin("0b101101"), &build_bigint_bin("0b11"))
            .unwrap()
            .to_string_bin()
    );
    // arithmetic shift of a negative rounds toward minus infinity
    assert_eq!(
        "-0b11",
        mparith::shr(&build_bigint_bin("-0b101"), &build_bigint_bin("0b1"))
            .unwrap()
            .to_string_bin()
    );
}

#[test]
fn bigint_bitand_test() {
    assert_eq!(
        "0b0",
        mparith::bitand(&build_bigint_bin("0b0"), &build_bigint_bin("0b1")).to_string_bin()
    );
    assert_eq!(
        "0b0",
        mparith::bitand(&build_bigint_bin("0b1"), &build_bigint_bin("0b0")).to_string_bin()
    );
    assert_eq!(
        "0b0",
        mparith::bitand(&build_bigint_bin("0b0"), &build_bigint_bin("0b0")).to_string_bin()
    );
    assert_eq!(
        "0b1",
        mparith::bitand(&build_bigint_bin("0b1"), &build_bigint_bin("0b1")).to_string_bin()
    );
    assert_eq!(
        "0b1",
        mparith::bitand(&build_bigint_bin("0b1"), &build_bigint_bin("-0b1")).to_string_bin()
    );
    assert_eq!(
        "0b1",
        mparith::bitand(&build_bigint_bin("-0b1"), &build_bigint_bin("0b1")).to_string_bin()
    );
    assert_eq!(
        "-0b1",
        mparith::bitand(&build_bigint_bin("-0b1"), &build_bigint_bin("-0b1")).to_string_bin()
    );
}

#[test]
fn bigint_bitor_test() {
    assert_eq!(
        "0b1",
        mparith::bitor(&build_bigint_bin("0b0"), &build_bigint_bin("0b1")).to_string_bin()
    );
    assert_eq!(
        "0b1",
        mparith::bitor(&build_bigint_bin("0b1"), &build_bigint_bin("0b0")).to_string_bin()
    );
    assert_eq!(
        "0b0",
        mparith::bitor(&build_bigint_bin("0b0"), &build_bigint_bin("0b0")).to_string_bin()
    );
    assert_eq!(
        "0b1",
        mparith::bitor(&build_bigint_bin("0b1"), &build_bigint_bin("0b1")).to_string_bin()
    );
    assert_eq!(
        "-0b1",
        mparith::bitor(&build_bigint_bin("0b1"), &build_bigint_bin("-0b1")).to_string_bin()
    );
    assert_eq!(
        "-0b1",
        mparith::bitor(&build_bigint_bin("-0b1"), &build_bigint_bin("0b1")).to_string_bin()
    );
    assert_eq!(
        "-0b1",
        mparith::bitor(&build_bigint_bin("-0b1"), &build_bigint_bin("-0b1")).to_string_bin()
    );
}

#[test]
fn bigint_bitxor_test() {
    assert_eq!(
        "0b1",
        mparith::bitxor(&build_bigint_bin("0b0"), &build_bigint_bin("0b1")).to_string_bin()
    );
    assert_eq!(
        "0b1",
        mparith::bitxor(&build_bigint_bin("0b1"), &build_bigint_bin("0b0")).to_string_bin()
    );
    assert_eq!(
        "0b0",
        mparith::bitxor(&build_bigint_bin("0b0"), &build_bigint_bin("0b0")).to_string_bin()
    );
    assert_eq!(
        "0b0",
        mparith::bitxor(&build_bigint_bin("0b1"), &build_bigint_bin("0b1")).to_string_bin()
    );
    assert_eq!(
        "-0b10",
        mparith::bitxor(&build_bigint_bin("0b1"), &build_bigint_bin("-0b1")).to_string_bin()
    );
    assert_eq!(
        "-0b10",
        mparith::bitxor(&build_bigint_bin("-0b1"), &build_bigint_bin("0b1")).to_string_bin()
    );
    assert_eq!(
        "0b0",
        mparith::bitxor(&build_bigint_bin("-0b1"), &build_bigint_bin("-0b1")).to_string_bin()
    );
}

#[test]
fn bigint_neg_test() {
    assert_eq!("0b0", mparith::neg(&build_bigint_bin("0b0")).to_string_bin());
    assert_eq!("-0b101", mparith::neg(&build_bigint_bin("0b101")).to_string_bin());
    assert_eq!("0b101", mparith::neg(&build_bigint_bin("-0b101")).to_string_bin());
}
