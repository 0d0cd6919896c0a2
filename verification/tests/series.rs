use rusty_pandas::error::FrameError;
use rusty_pandas::series::Series;

fn series(values: &[f64]) -> Series {
    Series::new(values.iter().map(|x| x.to_bits()).collect())
}

fn floats(s: &Series) -> Vec<f64> {
    s.to_vec().into_iter().map(f64::from_bits).collect()
}

fn add(a: u64, b: u64) -> u64 {
    (f64::from_bits(a) + f64::from_bits(b)).to_bits()
}

fn times(a: u64, b: u64) -> u64 {
    (f64::from_bits(a) * f64::from_bits(b)).to_bits()
}

fn minus(a: u64, b: u64) -> u64 {
    (f64::from_bits(a) - f64::from_bits(b)).to_bits()
}

fn divide(a: u64, n: usize) -> u64 {
    (f64::from_bits(a) / n as f64).to_bits()
}

fn spread(x: u64, mean: u64) -> u64 {
    let d = f64::from_bits(x) - f64::from_bits(mean);
    (d * d).to_bits()
}

fn square(x: u64) -> u64 {
    (f64::from_bits(x) * f64::from_bits(x)).to_bits()
}

fn root(x: u64) -> u64 {
    f64::from_bits(x).sqrt().to_bits()
}

fn midpoint(a: u64, b: u64) -> u64 {
    ((f64::from_bits(a) + f64::from_bits(b)) * 0.5).to_bits()
}

fn render(b: u64) -> String {
    f64::from_bits(b).to_string()
}

fn same_bits(s: &Series, expected: &[f64]) -> bool {
    s.to_vec() == expected.iter().map(|x| x.to_bits()).collect::<Vec<u64>>()
}

#[test]
fn new_size_and_emptiness() {
    let s = series(&[1.0, 2.0, 3.0, 4.0, 5.0]);
    assert_eq!(s.size(), 5);
    assert!(!s.is_empty());
    assert!(!s.is_zero());
    assert!(Series::zero().is_empty());
    assert!(Series::zero().is_zero());
    assert_eq!(Series::zero().size(), 0);
    assert_eq!(floats(&s), vec![1.0, 2.0, 3.0, 4.0, 5.0]);
}

#[test]
fn iloc_gives_the_value_or_fails() {
    let s = series(&[1.0, 2.0, 3.0]);
    assert_eq!(s.iloc(2), Ok(3.0f64.to_bits()));
    assert_eq!(s.iloc(0), Ok(1.0f64.to_bits()));
    assert_eq!(s.iloc(3), Err(FrameError::IndexOutOfRange));
    assert_eq!(Series::zero().iloc(0), Err(FrameError::IndexOutOfRange));
}

#[test]
fn dropna_keeps_present_values_in_order() {
    let s = series(&[1.0, 2.0, f64::NAN, 4.0, f64::NAN]);
    assert_eq!(floats(&s.dropna()), vec![1.0, 2.0, 4.0]);
}

#[test]
fn isna_and_notna_are_masks() {
    let s = series(&[1.0, 2.0, f64::NAN, 4.0, f64::NAN]);
    assert_eq!(floats(&s.isna()), vec![0.0, 0.0, 1.0, 0.0, 1.0]);
    assert_eq!(floats(&s.notna()), vec![1.0, 1.0, 0.0, 1.0, 0.0]);
}

#[test]
fn dropna_then_isna_has_no_true_entry() {
    let s = series(&[f64::NAN, 1.0, -f64::NAN, 0.0, f64::INFINITY, f64::from_bits(0x7FF0_0000_0000_0001)]);
    let mask = s.dropna().isna();
    assert_eq!(mask.size(), 3);
    assert!(floats(&mask).iter().all(|&m| m == 0.0));
    assert!(!s.dropna().has_missing());
    assert!(s.has_missing());
}

#[test]
fn large_series_take_the_parallel_path() {
    let n = 20_000usize;
    let values: Vec<f64> = (0..n).map(|i| if i % 7 == 3 { f64::NAN } else { i as f64 }).collect();
    let s = series(&values);
    let expected: Vec<f64> = values.iter().copied().filter(|x| !x.is_nan()).collect();
    assert_eq!(floats(&s.dropna()), expected);
    let mask: Vec<f64> = values.iter().map(|x| if x.is_nan() { 1.0 } else { 0.0 }).collect();
    assert_eq!(floats(&s.isna()), mask);
    let inverse: Vec<f64> = values.iter().map(|x| if x.is_nan() { 0.0 } else { 1.0 }).collect();
    assert_eq!(floats(&s.notna()), inverse);
    assert_eq!(floats(&s.min()), vec![0.0]);
    assert_eq!(floats(&s.max()), vec![19_999.0]);
}

#[test]
fn both_strategies_give_the_same_masks() {
    let small: Vec<f64> = (0..100).map(|i| if i % 3 == 0 { f64::NAN } else { i as f64 }).collect();
    let mut large = small.clone();
    large.resize(9000, 1.0);
    let a = series(&small);
    let b = series(&large);
    assert_eq!(floats(&a.isna())[..], floats(&b.isna())[..100]);
    assert_eq!(floats(&a.dropna())[..], floats(&b.dropna())[..a.dropna().size()]);
}

#[test]
fn sum_agrees_across_strategies_within_tolerance() {
    let values: Vec<f64> = (0..10_000).map(|i| 0.1 * (i as f64) - 3.0).collect();
    let whole = series(&values);
    let total = floats(&whole.sum(&add))[0];
    let mut by_parts = 0.0;
    for chunk in values.chunks(1000) {
        by_parts += floats(&series(chunk).sum(&add))[0];
    }
    let exact: f64 = values.iter().sum();
    assert!((total - by_parts).abs() < 1e-6 * exact.abs());
    assert!((total - exact).abs() < 1e-6 * exact.abs());
}

#[test]
fn any_finds_a_value() {
    let s = series(&[1.0, 3.0, 7.0, 14.0, 19.0]);
    assert!(s.any(|b: u64| f64::from_bits(b) % 2.0 == 0.0));
    assert!(!s.any(|b: u64| f64::from_bits(b) > 100.0));
    assert!(!Series::zero().any(|_b: u64| true));
}

#[test]
fn sort_orders_the_present_values() {
    let s = series(&[3.0, 1.0, 4.0, 1.0, 5.0, 9.0]);
    assert_eq!(floats(&s.sort()), vec![1.0, 1.0, 3.0, 4.0, 5.0, 9.0]);
    let with_nan = series(&[2.0, f64::NAN, -1.0, f64::INFINITY, f64::NEG_INFINITY]);
    assert_eq!(floats(&with_nan.sort()), vec![f64::NEG_INFINITY, -1.0, 2.0, f64::INFINITY]);
}

#[test]
fn sort_is_stable_for_the_two_zeros() {
    let s = series(&[0.0, 1.0, -0.0, -1.0, 0.0]);
    assert!(same_bits(&s.sort(), &[-1.0, 0.0, -0.0, 0.0, 1.0]));
    let t = series(&[-0.0, 0.0]);
    assert!(same_bits(&t.sort(), &[-0.0, 0.0]));
}

#[test]
fn sort_of_many_values() {
    let n = 50_000u64;
    let values: Vec<f64> = (0..n).map(|i| ((i * 7919) % 10_007) as f64 - 5000.0).collect();
    let mut expected = values.clone();
    expected.sort_by(|a, b| a.partial_cmp(b).unwrap());
    assert_eq!(floats(&series(&values).sort()), expected);
}

#[test]
fn one_to_five_statistics() {
    let s = series(&[1.0, 2.0, 3.0, 4.0, 5.0]);
    assert_eq!(floats(&s.mean(&add, &divide)), vec![3.0]);
    assert_eq!(floats(&s.median(&midpoint)), vec![3.0]);
    assert_eq!(floats(&s.var(&add, &divide, &spread)), vec![2.5]);
    let std = floats(&s.std_dev(&add, &divide, &spread, &root))[0];
    assert!((std - 1.5811).abs() < 1e-4);
    assert_eq!(std, 2.5f64.sqrt());
}

#[test]
fn mean_counts_only_present_values() {
    let s = series(&[1.0, 3.0, 7.0, 14.0, 19.0]);
    assert_eq!(floats(&s.mean(&add, &divide)), vec![8.8]);
    let with_nan = series(&[2.0, f64::NAN, 4.0]);
    assert_eq!(floats(&with_nan.mean(&add, &divide)), vec![3.0]);
}

#[test]
fn statistics_of_nothing_are_empty() {
    for s in [Series::zero(), series(&[f64::NAN, f64::NAN])] {
        assert!(s.mean(&add, &divide).is_empty());
        assert!(s.median(&midpoint).is_empty());
        assert!(s.mode().is_empty());
        assert!(s.var(&add, &divide, &spread).is_empty());
        assert!(s.std_dev(&add, &divide, &spread, &root).is_empty());
        assert!(s.min().is_empty());
        assert!(s.max().is_empty());
        assert_eq!(floats(&s.sum(&add)), vec![0.0]);
        assert_eq!(floats(&s.prod(&times)), vec![1.0]);
    }
}

#[test]
fn median_of_odd_and_even_counts() {
    assert_eq!(floats(&series(&[1.0, 3.0, 7.0, 14.0, 19.0]).median(&midpoint)), vec![7.0]);
    assert_eq!(floats(&series(&[19.0, 1.0, 14.0, 3.0, 7.0]).median(&midpoint)), vec![7.0]);
    assert_eq!(floats(&series(&[4.0, 1.0, 3.0, 2.0]).median(&midpoint)), vec![2.5]);
    assert_eq!(floats(&series(&[1.0, 2.0]).median(&midpoint)), vec![1.5]);
}

#[test]
fn median_of_a_single_present_value_is_that_value() {
    assert_eq!(floats(&series(&[f64::NAN, 6.0, f64::NAN]).median(&midpoint)), vec![6.0]);
    assert_eq!(floats(&series(&[6.0]).median(&midpoint)), vec![6.0]);
}

#[test]
fn median_hands_the_lower_central_value_first() {
    let first = |a: u64, _b: u64| a;
    let second = |_a: u64, b: u64| b;
    let s = series(&[8.0, 2.0, 6.0, 4.0]);
    assert_eq!(floats(&s.median(&first)), vec![4.0]);
    assert_eq!(floats(&s.median(&second)), vec![6.0]);
}

#[test]
fn mode_is_the_longest_run() {
    let s = series(&[1.0, 3.0, 3.0, 7.0, 14.0, 14.0, 19.0, 19.0, 19.0]);
    assert_eq!(floats(&s.mode()), vec![19.0, 19.0, 19.0]);
}

#[test]
fn mode_ties_go_to_the_lowest_value() {
    let s = series(&[14.0, 3.0, 19.0, 3.0, 14.0, 1.0, f64::NAN]);
    assert_eq!(floats(&s.mode()), vec![3.0, 3.0]);
    let distinct = series(&[5.0, 2.0, 9.0]);
    assert_eq!(floats(&distinct.mode()), vec![2.0]);
}

#[test]
fn mode_of_equal_values_is_all_of_them() {
    assert_eq!(floats(&series(&[2.0, 2.0, 2.0]).mode()), vec![2.0, 2.0, 2.0]);
    assert_eq!(floats(&series(&[f64::NAN, 4.0]).mode()), vec![4.0]);
}

#[test]
fn variance_divides_by_count_less_one() {
    let s = series(&[2.0, 4.0, 4.0, 4.0, 5.0, 5.0, 7.0, 9.0]);
    let var = floats(&s.var(&add, &divide, &spread))[0];
    assert!((var - 32.0 / 7.0).abs() < 1e-12);
    let with_nan = series(&[1.0, f64::NAN, 3.0]);
    assert_eq!(floats(&with_nan.var(&add, &divide, &spread)), vec![2.0]);
    assert!(floats(&series(&[4.0]).var(&add, &divide, &spread))[0].is_nan());
}

#[test]
fn min_and_max_skip_missing_values() {
    let s = series(&[1.0, 2.0, 3.0, 4.0, 5.0]);
    assert_eq!(floats(&s.min()), vec![1.0]);
    assert_eq!(floats(&s.max()), vec![5.0]);
    let t = series(&[3.0, f64::NAN, -1.5, 9.0, f64::NEG_INFINITY]);
    assert_eq!(floats(&t.min()), vec![f64::NEG_INFINITY]);
    assert_eq!(floats(&t.max()), vec![9.0]);
    assert_eq!(floats(&series(&[5.0, 7.0]).min()), vec![5.0]);
}

#[test]
fn min_and_max_return_the_later_of_two_zeros() {
    assert!(same_bits(&series(&[0.0, -0.0]).min(), &[-0.0]));
    assert!(same_bits(&series(&[-0.0, 0.0]).min(), &[0.0]));
    assert!(same_bits(&series(&[0.0, -0.0]).max(), &[-0.0]));
    assert!(same_bits(&series(&[-0.0, 0.0]).max(), &[0.0]));
}

#[test]
fn sum_and_product() {
    let s = series(&[1.0, 2.0, 3.0, 4.0, 5.0]);
    assert_eq!(floats(&s.sum(&add)), vec![15.0]);
    assert_eq!(floats(&s.prod(&times)), vec![120.0]);
    let with_nan = series(&[1.5, f64::NAN, 2.5]);
    assert_eq!(floats(&with_nan.sum(&add)), vec![4.0]);
    assert_eq!(floats(&with_nan.prod(&times)), vec![3.75]);
}

#[test]
fn cumsum_is_the_inclusive_prefix_sum() {
    let s = series(&[1.0, 2.0, 3.0, 4.0, 5.0]);
    assert_eq!(floats(&s.cumsum(&add)), vec![1.0, 3.0, 6.0, 10.0, 15.0]);
    assert!(Series::zero().cumsum(&add).is_empty());
    assert_eq!(floats(&series(&[7.0]).cumsum(&add)), vec![7.0]);
}

#[test]
fn cumsum_carries_a_missing_value_onward() {
    let out = floats(&series(&[1.0, f64::NAN, 3.0]).cumsum(&add));
    assert_eq!(out[0], 1.0);
    assert!(out[1].is_nan());
    assert!(out[2].is_nan());
}

#[test]
fn cumsum_of_a_long_series() {
    for n in [511usize, 512, 513, 1024, 1025, 5000] {
        let values: Vec<f64> = (0..n).map(|i| (i % 10) as f64).collect();
        let out = floats(&series(&values).cumsum(&add));
        let mut running = 0.0;
        let expected: Vec<f64> = values.iter().map(|x| { running += x; running }).collect();
        assert_eq!(out, expected, "n = {n}");
        assert_eq!(out[n - 1], floats(&series(&values).sum(&add))[0]);
        assert!(out.windows(2).all(|w| w[0] <= w[1]));
    }
}

#[test]
fn apply_maps_every_value() {
    let s = series(&[1.0, 2.0, 3.0, 4.0, 5.0]);
    assert_eq!(floats(&s.apply(|x: u64| add(x, 5.0f64.to_bits()))), vec![6.0, 7.0, 8.0, 9.0, 10.0]);
    assert_eq!(floats(&s.apply(|x: u64| minus(x, 2.0f64.to_bits()))), vec![-1.0, 0.0, 1.0, 2.0, 3.0]);
    assert_eq!(floats(&s.apply(|x: u64| times(x, 5.0f64.to_bits()))), vec![5.0, 10.0, 15.0, 20.0, 25.0]);
    assert_eq!(
        floats(&s.apply(|x: u64| (f64::from_bits(x) / 2.0).to_bits())),
        vec![0.5, 1.0, 1.5, 2.0, 2.5]
    );
    assert!(floats(&series(&[f64::NAN]).apply(|x: u64| add(x, ONE_BITS)))[0].is_nan());
}

const ONE_BITS: u64 = 0x3FF0_0000_0000_0000;

fn over(a: u64, b: u64) -> u64 {
    (f64::from_bits(a) / f64::from_bits(b)).to_bits()
}

#[test]
fn arithmetic_with_a_scalar() {
    let s = series(&[1.0, 2.0, 3.0, 4.0, 5.0]);
    assert_eq!(floats(&s.plus(5.0f64.to_bits(), &add)), vec![6.0, 7.0, 8.0, 9.0, 10.0]);
    assert_eq!(floats(&s.sub(2.0f64.to_bits(), &minus)), vec![-1.0, 0.0, 1.0, 2.0, 3.0]);
    assert_eq!(floats(&s.mult(5.0f64.to_bits(), &times)), vec![5.0, 10.0, 15.0, 20.0, 25.0]);
    assert_eq!(floats(&s.div(2.0f64.to_bits(), &over)), vec![0.5, 1.0, 1.5, 2.0, 2.5]);
    let with_nan = series(&[1.0, f64::NAN]);
    let out = floats(&with_nan.plus(1.0f64.to_bits(), &add));
    assert_eq!(out[0], 2.0);
    assert!(out[1].is_nan());
    let first = |a: u64, _n: u64| a;
    let second = |_a: u64, n: u64| n;
    assert_eq!(floats(&s.plus(9.0f64.to_bits(), &first)), floats(&s));
    assert_eq!(floats(&s.plus(9.0f64.to_bits(), &second)), vec![9.0; 5]);
}

#[test]
fn vector_sum_and_difference() {
    let a = series(&[1.0, 2.0, 3.0]);
    let b = series(&[4.0, -5.0, 6.0]);
    assert_eq!(floats(&a.vadd(&b, &add).unwrap()), vec![5.0, -3.0, 9.0]);
    assert_eq!(floats(&a.vsub(&b, &minus).unwrap()), vec![-3.0, 7.0, -3.0]);
    assert_eq!(a.vadd(&series(&[1.0]), &add).err(), Some(FrameError::DimensionMismatch));
    assert_eq!(a.vsub(&series(&[]), &minus).err(), Some(FrameError::DimensionMismatch));
    assert!(Series::zero().vadd(&Series::zero(), &add).unwrap().is_empty());
}

#[test]
fn combine_needs_equal_lengths() {
    let a = series(&[1.0, 2.0, 3.0]);
    let b = series(&[4.0, -5.0, 6.0]);
    assert_eq!(floats(&a.combine(&b, add).unwrap()), vec![5.0, -3.0, 9.0]);
    assert_eq!(floats(&a.combine(&b, minus).unwrap()), vec![-3.0, 7.0, -3.0]);
    let short = series(&[1.0]);
    assert_eq!(a.combine(&short, add).err(), Some(FrameError::DimensionMismatch));
    assert_eq!(short.combine(&a, add).err(), Some(FrameError::DimensionMismatch));
}

#[test]
fn dot_product_and_norm() {
    let a = series(&[1.0, 2.0, 3.0]);
    let b = series(&[4.0, -5.0, 6.0]);
    assert_eq!(floats(&a.dot(&b, &times, &add).unwrap()), vec![12.0]);
    assert_eq!(a.dot(&series(&[1.0]), &times, &add).err(), Some(FrameError::DimensionMismatch));
    let c = series(&[2.0, -2.0, 3.0, -4.0]);
    assert_eq!(floats(&c.norm(&add, &square, &root)), vec![33f64.sqrt()]);
}

#[test]
fn slice_clamps_the_end() {
    let s = series(&[1.0, 2.0, 3.0, 4.0, 5.0]);
    assert_eq!(floats(&s.slice(2, 4).unwrap()), vec![3.0, 4.0]);
    assert_eq!(floats(&s.slice(3, 100).unwrap()), vec![4.0, 5.0]);
    assert_eq!(floats(&s.slice(0, 0).unwrap()), Vec::<f64>::new());
    assert_eq!(floats(&s.slice(5, 9).unwrap()), Vec::<f64>::new());
    assert_eq!(s.slice(6, 9).err(), Some(FrameError::IndexOutOfRange));
    assert_eq!(s.slice(3, 2).err(), Some(FrameError::IndexOutOfRange));
}

#[test]
fn join_writes_missing_values_as_nan() {
    let s = series(&[1.0, 2.0, 3.0, 4.0, 5.0]);
    assert_eq!(s.join(", ", &render), "1, 2, 3, 4, 5");
    let t = series(&[1.5, f64::NAN, -2.0]);
    assert_eq!(t.join(",", &render), "1.5,NaN,-2");
    assert_eq!(Series::zero().join(",", &render), "");
    assert_eq!(series(&[7.0]).join(",", &render), "7");
    let never = |_b: u64| String::from("x");
    assert_eq!(series(&[f64::NAN]).join(",", &never), "NaN");
}

#[test]
fn concat_appends() {
    let a = series(&[1.0, 2.0]);
    let b = series(&[3.0]);
    assert_eq!(floats(&a.concat(b)), vec![1.0, 2.0, 3.0]);
}

#[test]
fn clone_keeps_the_values() {
    let a = series(&[1.0, f64::NAN]);
    assert_eq!(a.clone().to_vec(), a.to_vec());
}

#[test]
fn equality_is_that_of_numbers() {
    let a = series(&[1.0, 0.0]);
    assert!(a.equals(&series(&[1.0, -0.0])));
    assert!(!a.equals(&series(&[1.0])));
    assert!(!a.equals(&series(&[1.0, 2.0])));
    let n = series(&[1.0, f64::NAN]);
    assert!(!n.equals(&n));
    assert!(n.same_cells(&n));
    assert!(n.same_cells(&series(&[1.0, -f64::NAN])));
    assert!(!n.same_cells(&series(&[1.0, 2.0])));
    assert!(!n.same_cells(&series(&[f64::NAN, 1.0])));
    assert!(a.same_cells(&series(&[1.0, -0.0])));
}
