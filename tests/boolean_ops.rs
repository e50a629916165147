use ipa_core::boolean_ops::{compare_gt, integer_add, integer_sat_add, integer_sub, multiply, or};
use ipa_core::context::{Context, PrssSeeds, Step};
use ipa_core::ff::SharedField;
use ipa_core::share::{reconstruct_bits, share_bits, truncate_from, SharedBit};

fn ctx() -> Context {
    Context::new(PrssSeeds { h1_h2: 11, h2_h3: 22, h3_h1: 33 }, 4)
        .narrow(Step::ComputeSaturatingSum)
        .set_total_records(1)
}

#[test]
fn semi_honest_add() {
    for (x, y) in [(0xfedc_ba98_7654_3210_u64, 0x8000_0000_0000_1234_u64), (5, 7), (u64::MAX, 1)] {
        let expected = (u128::from(x) + u128::from(y)) % (1 + u128::from(u64::MAX));
        let xs = share_bits(x, 64, 0x1111, 0x2222_3333);
        let ys = share_bits(y, 64, 0x4444_5555, 0x6666);
        let result = u128::from(reconstruct_bits(&integer_add(&ctx(), 0, &xs, &ys)));
        assert_eq!((x, y, result), (x, y, expected));
    }
}

#[test]
fn semi_honest_sat_add() {
    for (x, y) in [(0xfedc_ba98_7654_3210_u64, 0x8000_0000_0000_1234_u64), (5, 7), (u64::MAX, 0)] {
        let x128 = u128::from(x);
        let y128 = u128::from(y);
        let z = 1 + u128::from(u64::MAX);
        let expected = if x128 + y128 > z { z - 1 } else { (x128 + y128) % z };
        let xs = share_bits(x, 64, 0x7777, 0x8888_9999);
        let ys = share_bits(y, 64, 0xaaaa_bbbb, 0xcccc);
        let result = u128::from(reconstruct_bits(&integer_sat_add(&ctx(), 0, &xs, &ys)));
        assert_eq!((x, y, z, result), (x, y, z, expected));
    }
}

#[test]
fn sat_add_saturates_at_all_ones() {
    let xs = share_bits(28, 5, 3, 9);
    let ys = share_bits(7, 3, 5, 1);
    assert_eq!(reconstruct_bits(&integer_sat_add(&ctx(), 0, &xs, &ys)), 31);
    let ys = share_bits(3, 3, 5, 1);
    assert_eq!(reconstruct_bits(&integer_sat_add(&ctx(), 0, &xs, &ys)), 31);
    let ys = share_bits(2, 3, 5, 1);
    assert_eq!(reconstruct_bits(&integer_sat_add(&ctx(), 0, &xs, &ys)), 30);
}

#[test]
fn sub_wraps_below_zero() {
    let xs = share_bits(3, 8, 0x55, 0x0f);
    let ys = share_bits(5, 8, 0x33, 0xf0);
    assert_eq!(reconstruct_bits(&integer_sub(&ctx(), 1, &xs, &ys)), 254);
    assert_eq!(reconstruct_bits(&integer_sub(&ctx(), 1, &ys, &xs)), 2);
    let zero = truncate_from(0, 3);
    let sum = share_bits(28, 5, 1, 2);
    assert_eq!(reconstruct_bits(&integer_sub(&ctx(), 1, &zero, &sum)), 4);
}

#[test]
fn compare_gt_is_strict() {
    let a = share_bits(201, 20, 0x123, 0x456);
    let b = truncate_from(200, 20);
    assert!(compare_gt(&ctx(), 0, &a, &b).reconstruct());
    let c = share_bits(200, 20, 0x789, 0xabc);
    assert!(!compare_gt(&ctx(), 0, &c, &b).reconstruct());
    assert!(!compare_gt(&ctx(), 0, &b, &a).reconstruct());
}

#[test]
fn multiply_and_or_on_bits() {
    for x in [false, true] {
        for y in [false, true] {
            let a = share_bits(x as u64, 1, 1, 0)[0];
            let b = share_bits(y as u64, 1, 0, 1)[0];
            assert_eq!(multiply(&ctx(), 3, &a, &b).reconstruct(), x && y);
            assert_eq!(or(&ctx(), 3, &a, &b).reconstruct(), x || y);
            assert_eq!(a.not().reconstruct(), !x);
        }
    }
    assert!(SharedBit::share_known_value(true).reconstruct());
}

#[test]
fn known_values_have_the_fixed_layout() {
    let one = SharedBit::share_known_value(true);
    assert!(one.h1.left && !one.h1.right);
    assert!(!one.h2.left && !one.h2.right);
    assert!(!one.h3.left && one.h3.right);
    let f = SharedField::share_known_value(9);
    assert_eq!((f.h1.left, f.h1.right, f.h2.left, f.h2.right, f.h3.left, f.h3.right), (9, 0, 0, 0, 0, 9));
}

#[test]
fn same_gate_and_record_draw_the_same_pads() {
    let a = share_bits(1, 1, 5, 6)[0];
    let b = share_bits(1, 1, 7, 2)[0];
    let p = multiply(&ctx(), 4, &a, &b);
    let q = multiply(&ctx(), 4, &a, &b);
    assert_eq!(p, q);
    let other = ctx().narrow(Step::Bit(3));
    assert!(multiply(&other, 4, &a, &b).reconstruct());
    assert!(ctx().is_valid());
}
