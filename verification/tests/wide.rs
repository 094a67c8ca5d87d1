use llm_rag::wide::{mul_wide, square_times, wide_less, Wide};

const TWO_64: u128 = 1 << 64;

#[test]
fn mul_wide_of_small_factors_has_no_high_limb() {
    assert_eq!(mul_wide(6, 7), (0, 42));
    assert_eq!(mul_wide(0, u128::MAX), (0, 0));
    assert_eq!(mul_wide(1, u128::MAX), (0, u128::MAX));
}

#[test]
fn mul_wide_carries_into_the_high_limb() {
    assert_eq!(mul_wide(TWO_64, TWO_64), (1, 0));
    assert_eq!(mul_wide(u128::MAX, 2), (1, u128::MAX - 1));
    assert_eq!(mul_wide(u128::MAX, u128::MAX), (u128::MAX - 1, 1));
}

#[test]
fn mul_wide_agrees_with_native_product_where_it_fits() {
    let a: u128 = 0xdead_beef_0123_4567;
    let b: u128 = 0x0fed_cba9_8765_4321;
    assert_eq!(mul_wide(a, b), (0, a * b));
}

#[test]
fn square_times_of_small_values() {
    let w = square_times(3, 5);
    assert_eq!((w.hi, w.mid, w.lo), (0, 0, 45));
}

#[test]
fn square_times_fills_the_middle_limb() {
    let w = square_times(TWO_64, TWO_64);
    assert_eq!((w.hi, w.mid, w.lo), (0, TWO_64, 0));
}

#[test]
fn square_times_of_the_largest_values() {
    let w = square_times(u128::MAX, u128::MAX);
    assert_eq!((w.hi, w.mid, w.lo), (u128::MAX - 2, 2, u128::MAX));
}

#[test]
fn wide_less_orders_by_the_highest_limb_that_differs() {
    let small = Wide { hi: 0, mid: 5, lo: u128::MAX };
    let large = Wide { hi: 0, mid: 6, lo: 0 };
    let larger = Wide { hi: 1, mid: 0, lo: 0 };
    assert!(wide_less(&small, &large));
    assert!(!wide_less(&large, &small));
    assert!(wide_less(&large, &larger));
    assert!(!wide_less(&larger, &large));
    assert!(!wide_less(&small, &small));
    assert!(wide_less(&Wide { hi: 2, mid: 2, lo: 1 }, &Wide { hi: 2, mid: 2, lo: 2 }));
}
