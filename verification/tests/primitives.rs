use rusty_pandas::partition::{par_filter, par_partition};
use rusty_pandas::scan::{prefix_sum, SCAN_CUTOFF};
use rusty_pandas::fold::{reduce_by, scan_by, PREFIX_CUTOFF};
use rusty_pandas::split::{enumerate_chars, par_split};

fn reference_scan(xs: &[i32]) -> (Vec<i32>, i32) {
    let mut acc = 0;
    let mut out = Vec::new();
    for x in xs {
        out.push(acc);
        acc += x;
    }
    (out, acc)
}

#[test]
fn prefix_sum_of_nothing() {
    assert_eq!(prefix_sum(&[]), (vec![], 0));
}

#[test]
fn prefix_sum_is_exclusive() {
    assert_eq!(prefix_sum(&[1, 2, 3, 4]), (vec![0, 1, 3, 6], 10));
    assert_eq!(prefix_sum(&[5]), (vec![0], 5));
    assert_eq!(prefix_sum(&[-3, 3, -3]), (vec![0, -3, 0], -3));
}

#[test]
fn prefix_sum_above_the_cutoff() {
    assert_eq!(SCAN_CUTOFF, 8192);
    for n in [8191usize, 8192, 8193, 16384, 16385, 40_001] {
        let xs: Vec<i32> = (0..n).map(|i| (i % 13) as i32 - 4).collect();
        assert_eq!(prefix_sum(&xs), reference_scan(&xs), "n = {n}");
    }
}

#[test]
fn prefix_sums_of_non_negative_input_never_fall() {
    let xs: Vec<i32> = (0..10_000).map(|i| (i % 3) as i32).collect();
    let (pfs, total) = prefix_sum(&xs);
    assert!(pfs.windows(2).all(|w| w[0] <= w[1]));
    assert!(pfs[pfs.len() - 1] <= total);
    assert_eq!(total, xs.iter().sum::<i32>());
}

#[test]
fn scan_by_matches_a_running_total() {
    assert_eq!(PREFIX_CUTOFF, 512);
    let add = |a: u64, b: u64| a.wrapping_add(b);
    for n in [0usize, 1, 2, 511, 512, 513, 1025, 3000] {
        let xs: Vec<u64> = (0..n as u64).map(|i| i * i + 1).collect();
        let (pfs, total) = scan_by(&xs, 0, &add);
        let mut acc = 0u64;
        let mut expected = Vec::new();
        for x in &xs {
            expected.push(acc);
            acc += x;
        }
        assert_eq!(pfs, expected, "n = {n}");
        assert_eq!(total, acc);
    }
}

#[test]
fn scan_by_keeps_the_order_of_the_elements() {
    let concat = |a: u64, b: u64| a * 10 + b;
    let xs: Vec<u64> = vec![1, 2, 3];
    let (pfs, total) = scan_by(&xs, 0, &concat);
    assert_eq!(pfs, vec![0, 1, 12]);
    assert_eq!(total, 123);
}

#[test]
fn reduce_by_combines_in_order() {
    let add = |a: u64, b: u64| a.wrapping_add(b);
    assert_eq!(reduce_by(&vec![], 7, &add), 7);
    assert_eq!(reduce_by(&vec![1, 2, 3], 0, &add), 6);
    let many: Vec<u64> = (0..100_000).collect();
    assert_eq!(reduce_by(&many, 0, &add), 99_999 * 100_000 / 2);
    let last = |_a: u64, b: u64| b;
    assert_eq!(reduce_by(&vec![4, 5, 6], 0, &last), 6);
}

#[test]
fn par_filter_returns_positions_behind_the_kept_elements() {
    let xs: Vec<(usize, char)> = "a,b,,c".chars().enumerate().collect();
    assert_eq!(par_filter(xs.clone(), |e: (usize, char)| e.1 == ','), vec![2, 4, 5]);
    assert_eq!(par_filter(xs.clone(), |_e: (usize, char)| false), Vec::<usize>::new());
    assert_eq!(par_filter(xs, |_e: (usize, char)| true), vec![1, 2, 3, 4, 5, 6]);
    assert_eq!(par_filter(vec![], |_e: (usize, char)| true), Vec::<usize>::new());
}

#[test]
fn par_filter_counts_and_keeps_order() {
    let n = 30_000usize;
    let xs: Vec<(usize, char)> = (0..n).map(|i| (i, if i % 5 == 0 { 'x' } else { 'y' })).collect();
    let out = par_filter(xs.clone(), |e: (usize, char)| e.1 == 'x');
    let expected: Vec<usize> = xs.iter().filter(|e| e.1 == 'x').map(|e| e.0 + 1).collect();
    assert_eq!(out.len(), xs.iter().filter(|e| e.1 == 'x').count());
    assert_eq!(out, expected);
    assert!(out.windows(2).all(|w| w[0] < w[1]));
}

#[test]
fn par_partition_keeps_the_accepted_elements_in_order() {
    let xs: Vec<u64> = (0..50_000).map(|i| (i * 7919) % 1000).collect();
    let even = |x: u64| x % 2 == 0;
    let out = par_partition(&xs, even);
    let expected: Vec<u64> = xs.iter().copied().filter(|x| x % 2 == 0).collect();
    assert_eq!(out.len(), xs.iter().filter(|x| *x % 2 == 0).count());
    assert_eq!(out, expected);
    assert_eq!(par_partition(&xs, |_x: u64| false), Vec::<u64>::new());
    assert_eq!(par_partition(&xs, |_x: u64| true), xs);
    assert_eq!(par_partition(&Vec::<u64>::new(), even), Vec::<u64>::new());
    let with_max = vec![(usize::MAX, 'a'), (3, 'b')];
    assert_eq!(par_partition(&with_max, |e: (usize, char)| e.1 == 'a'), vec![(usize::MAX, 'a')]);
}

#[test]
fn par_filter_uses_the_first_component_not_the_position() {
    let xs = vec![(10usize, 'a'), (3, 'b'), (7, 'a')];
    assert_eq!(par_filter(xs, |e: (usize, char)| e.1 == 'a'), vec![11, 8]);
}

#[test]
fn enumerate_chars_numbers_the_characters() {
    assert_eq!(enumerate_chars("añb"), vec![(0, 'a'), (1, 'ñ'), (2, 'b')]);
    assert_eq!(enumerate_chars(""), vec![]);
}

#[test]
fn par_split_splits_like_split() {
    for text in ["a,b,c", "", ",", ",,", "a,", ",a", "no delimiter", "x,,y", "ä,ö,ü", "日本,語"] {
        let expected: Vec<&str> = text.split(',').collect();
        assert_eq!(par_split(text, ','), expected, "{text:?}");
    }
    assert_eq!(par_split("l1\nl2\n", '\n'), vec!["l1", "l2", ""]);
}

#[test]
fn joining_the_pieces_gives_the_text_back() {
    for text in ["a,b,c", "", ",", ",,", "a,", ",a", "none", "x,,y", "ä,ö"] {
        let pieces = par_split(text, ',');
        assert_eq!(pieces.join(","), text);
        assert!(pieces.iter().all(|p| !p.contains(',')));
    }
}

#[test]
fn par_split_of_a_long_text() {
    let text: String = (0..20_000).map(|i| if i % 11 == 0 { ';' } else { 'z' }).collect();
    let expected: Vec<&str> = text.split(';').collect();
    assert_eq!(par_split(&text, ';'), expected);
}
