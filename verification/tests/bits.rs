use rusty_pandas::bits::{is_nan, less, nan_mask, rank_eq, rank_lt, same, valid_mask, INFINITY, NAN, ONE, SIGN_BIT, ZERO};
use rusty_pandas::dispatch::{select, Strategy, LOWER_PAR_BOUND};
use rusty_pandas::order::{compare, higher, lower};
use std::cmp::Ordering;

fn samples() -> Vec<f64> {
    vec![
        0.0,
        -0.0,
        1.0,
        -1.0,
        2.5,
        -2.5,
        f64::MIN_POSITIVE,
        -f64::MIN_POSITIVE,
        5e-324,
        -5e-324,
        f64::MAX,
        f64::MIN,
        f64::INFINITY,
        f64::NEG_INFINITY,
        f64::NAN,
        -f64::NAN,
        f64::from_bits(0x7FF0_0000_0000_0001),
        f64::from_bits(0xFFFF_FFFF_FFFF_FFFF),
    ]
}

#[test]
fn constants_are_the_patterns_of_their_values() {
    assert_eq!(ONE, 1.0f64.to_bits());
    assert_eq!(ZERO, 0.0f64.to_bits());
    assert_eq!(INFINITY, f64::INFINITY.to_bits());
    assert_eq!(SIGN_BIT, (-0.0f64).to_bits());
    assert!(f64::from_bits(NAN).is_nan());
    assert_eq!(NAN, f64::NAN.to_bits());
}

#[test]
fn nan_patterns_are_recognised() {
    for x in samples() {
        assert_eq!(is_nan(x.to_bits()), x.is_nan(), "{x}");
    }
}

#[test]
fn order_and_equality_are_those_of_the_numbers() {
    for x in samples() {
        for y in samples() {
            assert_eq!(less(x.to_bits(), y.to_bits()), x < y, "{x} < {y}");
            assert_eq!(same(x.to_bits(), y.to_bits()), x == y, "{x} == {y}");
            if !x.is_nan() && !y.is_nan() {
                assert_eq!(rank_lt(x.to_bits(), y.to_bits()), x < y);
                assert_eq!(rank_eq(x.to_bits(), y.to_bits()), x == y);
                assert_eq!(Some(compare(x.to_bits(), y.to_bits())), x.partial_cmp(&y));
            }
        }
    }
}

#[test]
fn compare_is_a_total_preorder_on_all_patterns() {
    let all: Vec<u64> = samples().into_iter().map(f64::to_bits).collect();
    for &a in &all {
        assert_eq!(compare(a, a), Ordering::Equal);
        for &b in &all {
            assert_eq!(compare(a, b), compare(b, a).reverse());
            for &c in &all {
                if compare(a, b) != Ordering::Greater && compare(b, c) != Ordering::Greater {
                    assert!(compare(a, c) != Ordering::Greater);
                }
            }
        }
    }
}

#[test]
fn lower_and_higher_prefer_the_second_of_equals() {
    let pz = 0.0f64.to_bits();
    let nz = (-0.0f64).to_bits();
    assert_eq!(lower(pz, nz), nz);
    assert_eq!(lower(nz, pz), pz);
    assert_eq!(higher(pz, nz), nz);
    assert_eq!(higher(nz, pz), pz);
    assert_eq!(lower(1.0f64.to_bits(), 2.0f64.to_bits()), 1.0f64.to_bits());
    assert_eq!(higher(1.0f64.to_bits(), 2.0f64.to_bits()), 2.0f64.to_bits());
}

#[test]
fn selection_is_associative_on_samples() {
    let all: Vec<u64> = samples().into_iter().map(f64::to_bits).collect();
    for &a in &all {
        for &b in &all {
            for &c in &all {
                assert_eq!(lower(lower(a, b), c), lower(a, lower(b, c)));
                assert_eq!(higher(higher(a, b), c), higher(a, higher(b, c)));
            }
        }
    }
}

#[test]
fn masks_are_one_and_zero() {
    assert_eq!(nan_mask(f64::NAN.to_bits()), 1.0f64.to_bits());
    assert_eq!(nan_mask(3.0f64.to_bits()), 0.0f64.to_bits());
    assert_eq!(valid_mask(f64::NAN.to_bits()), 0.0f64.to_bits());
    assert_eq!(valid_mask(3.0f64.to_bits()), 1.0f64.to_bits());
}

#[test]
fn strategy_depends_on_size_alone() {
    assert_eq!(LOWER_PAR_BOUND, 8192);
    assert_eq!(select(0), Strategy::Sequential);
    assert_eq!(select(8191), Strategy::Sequential);
    assert_eq!(select(8192), Strategy::Parallel);
    assert_eq!(select(usize::MAX), Strategy::Parallel);
}
