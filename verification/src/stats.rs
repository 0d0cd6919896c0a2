//! What the statistics of a series are.
//!
//! Each predicate says when a sequence of values is the result of one
//! operation on another sequence. Where an operation needs arithmetic, the
//! predicate takes the functions that do it and speaks of what they return.

use vstd::prelude::*;
use crate::bits::{eq, has_rank, is_missing, missing_mask, present, rank, ONE, ZERO};
use crate::fold::combines;
use crate::order::{ascending, is_ascending, is_highest_at, is_lowest_at, lemma_ascending_fixed, lemma_ascending_sorts, lemma_filter_all, lemma_filter_none, lemma_upper, upper};
use crate::text::joined;

verus! {

/// Positions `a` up to `b` of `v` are one whole run: values of one rank,
/// with a value of another rank, or none, on either side.
pub open spec fn is_run(v: Seq<u64>, a: int, b: int) -> bool {
    &&& 0 <= a < b <= v.len()
    &&& forall|i: int| a <= i < b ==> rank(#[trigger] v[i]) == rank(v[a])
    &&& (a > 0 ==> rank(v[a - 1]) != rank(v[a]))
    &&& (b < v.len() ==> rank(v[b]) != rank(v[a]))
}

/// Positions `a` up to `b` of `v` are the first of its longest runs.
pub open spec fn is_mode_run(v: Seq<u64>, a: int, b: int) -> bool {
    &&& is_run(v, a, b)
    &&& forall|c: int, d: int| #[trigger] is_run(v, c, d) ==> d - c <= b - a && (c < a ==> d - c < b - a)
}

/// `r` is the minimum of `s`: without any value where `s` has no present
/// value, else the one value of lowest rank among the present values of `s`,
/// the last of them where several share that rank.
pub open spec fn is_min_of(r: Seq<u64>, s: Seq<u64>) -> bool {
    let v = s.filter(present());
    &&& v.len() == 0 ==> r.len() == 0
    &&& v.len() > 0 ==> r.len() == 1 && exists|i: int| is_lowest_at(v, i) && r[0] == v[i]
}

/// `r` is the maximum of `s`: without any value where `s` has no present
/// value, else the one value of highest rank among the present values of `s`,
/// the last of them where several share that rank.
pub open spec fn is_max_of(r: Seq<u64>, s: Seq<u64>) -> bool {
    let v = s.filter(present());
    &&& v.len() == 0 ==> r.len() == 0
    &&& v.len() > 0 ==> r.len() == 1 && exists|i: int| is_highest_at(v, i) && r[0] == v[i]
}

/// `r` is the mode of `s`: without any value where `s` has no present value,
/// else the first of the longest runs of the present values in ascending
/// order.
pub open spec fn is_mode_of(r: Seq<u64>, s: Seq<u64>) -> bool {
    let v = ascending(s.filter(present()));
    &&& v.len() == 0 ==> r.len() == 0
    &&& v.len() > 0 ==> exists|a: int, b: int| is_mode_run(v, a, b) && r == v.subrange(a, b)
}

/// `r` is the median of `s`, given what makes one value of two central ones:
/// without any value where `s` has no present value; else, with the present
/// values in ascending order, the middle one of an odd count, and what
/// `midpoint` returns for the two central ones of an even count.
pub open spec fn is_median_of<F: Fn(u64, u64) -> u64>(midpoint: F, r: Seq<u64>, s: Seq<u64>) -> bool {
    let v = ascending(s.filter(present()));
    let n = v.len() as int;
    &&& n == 0 ==> r.len() == 0
    &&& n % 2 == 1 ==> r == seq![v[n / 2]]
    &&& n > 0 && n % 2 == 0 ==> r.len() == 1 && call_ensures(midpoint, (v[n / 2 - 1], v[n / 2]), r[0])
}

/// How a missing value is written.
pub open spec fn nan_text() -> Seq<char> {
    seq!['N', 'a', 'N']
}

/// `text` is how the value `b` is written, given what writes a present
/// value: a missing value is written `NaN`.
pub open spec fn is_written<F: Fn(u64) -> String>(render: F, b: u64, text: Seq<char>) -> bool {
    if is_missing(b) {
        text == nan_text()
    } else {
        exists|s: String| call_ensures(render, (b,), s) && s@ == text
    }
}

/// `texts` holds, place by place, how the values of `values` are written.
pub open spec fn all_written<F: Fn(u64) -> String>(render: F, values: Seq<u64>, texts: Seq<Seq<char>>) -> bool {
    &&& texts.len() == values.len()
    &&& forall|i: int| 0 <= i < values.len() ==> is_written(render, values[i], #[trigger] texts[i])
}

/// `text` is the values of `values` written out and joined by `token`.
pub open spec fn is_joined<F: Fn(u64) -> String>(render: F, values: Seq<u64>, token: Seq<char>, text: Seq<char>) -> bool {
    exists|texts: Seq<Seq<char>>| all_written(render, values, texts) && text == joined(texts, token)
}

/// `r` is the sum of `s`: the one value that combines the present values of
/// `s` by `add`, starting from zero.
pub open spec fn is_sum_of<A: Fn(u64, u64) -> u64>(add: A, r: Seq<u64>, s: Seq<u64>) -> bool {
    r.len() == 1 && combines(add, ZERO, s.filter(present()), r[0])
}

/// `r` is the product of `s`: the one value that combines the present values
/// of `s` by `times`, starting from one.
pub open spec fn is_prod_of<M: Fn(u64, u64) -> u64>(times: M, r: Seq<u64>, s: Seq<u64>) -> bool {
    r.len() == 1 && combines(times, ONE, s.filter(present()), r[0])
}

/// `m` is the mean of the values `v`, of which there is at least one: what
/// `divide` makes of their sum and their number.
pub open spec fn is_mean_value<A: Fn(u64, u64) -> u64, D: Fn(u64, usize) -> u64>(
    add: A,
    divide: D,
    v: Seq<u64>,
    m: u64,
) -> bool {
    exists|total: u64| combines(add, ZERO, v, total) && call_ensures(divide, (total, v.len() as usize), m)
}

/// `r` is the mean of `s`: without any value where `s` has no present value,
/// else the one value that `divide` makes of the sum of the present values
/// and their number.
pub open spec fn is_mean_of<A: Fn(u64, u64) -> u64, D: Fn(u64, usize) -> u64>(
    add: A,
    divide: D,
    r: Seq<u64>,
    s: Seq<u64>,
) -> bool {
    let v = s.filter(present());
    &&& v.len() == 0 ==> r.len() == 0
    &&& v.len() > 0 ==> r.len() == 1 && is_mean_value(add, divide, v, r[0])
}

/// `out` holds, place by place, what `f` makes of the value of `v` and of
/// `with`.
pub open spec fn each_with<Q: Fn(u64, u64) -> u64>(f: Q, v: Seq<u64>, with: u64, out: Seq<u64>) -> bool {
    &&& out.len() == v.len()
    &&& forall|i: int| 0 <= i < v.len() ==> call_ensures(f, (v[i], with), #[trigger] out[i])
}

/// `out` holds, place by place, what `f` makes of the value of `v`.
pub open spec fn each_of<S: Fn(u64) -> u64>(f: S, v: Seq<u64>, out: Seq<u64>) -> bool {
    &&& out.len() == v.len()
    &&& forall|i: int| 0 <= i < v.len() ==> call_ensures(f, (v[i],), #[trigger] out[i])
}

/// `x` is the sample variance of the values `v`, of which there is at least
/// one: with `mean` their mean and `spread` giving the squared distance of a
/// value from it, what `divide` makes of the sum of these distances and the
/// number of values less one.
pub open spec fn is_var_value<A: Fn(u64, u64) -> u64, D: Fn(u64, usize) -> u64, Q: Fn(u64, u64) -> u64>(
    add: A,
    divide: D,
    spread: Q,
    v: Seq<u64>,
    x: u64,
) -> bool {
    exists|mean: u64, devs: Seq<u64>, total: u64|
        {
            &&& is_mean_value(add, divide, v, mean)
            &&& each_with(spread, v, mean, devs)
            &&& combines(add, ZERO, devs, total)
            &&& call_ensures(divide, (total, (v.len() - 1) as usize), x)
        }
}

/// `r` is the sample variance of `s`: without any value where `s` has no
/// present value, else the one value that is the variance of the present
/// values.
pub open spec fn is_var_of<A: Fn(u64, u64) -> u64, D: Fn(u64, usize) -> u64, Q: Fn(u64, u64) -> u64>(
    add: A,
    divide: D,
    spread: Q,
    r: Seq<u64>,
    s: Seq<u64>,
) -> bool {
    let v = s.filter(present());
    &&& v.len() == 0 ==> r.len() == 0
    &&& v.len() > 0 ==> r.len() == 1 && is_var_value(add, divide, spread, v, r[0])
}

/// `r` is the standard deviation of `s`: without any value where `s` has no
/// present value, else the one value that `root` makes of the variance of
/// the present values.
pub open spec fn is_std_of<
    A: Fn(u64, u64) -> u64,
    D: Fn(u64, usize) -> u64,
    Q: Fn(u64, u64) -> u64,
    R: Fn(u64) -> u64,
>(add: A, divide: D, spread: Q, root: R, r: Seq<u64>, s: Seq<u64>) -> bool {
    let v = s.filter(present());
    &&& v.len() == 0 ==> r.len() == 0
    &&& v.len() > 0 ==> r.len() == 1 && exists|x: u64|
        is_var_value(add, divide, spread, v, x) && call_ensures(root, (x,), r[0])
}

/// `r` is the cumulative sum of `s`: at each place, a value that combines the
/// values of `s` up to and including that place by `add`, starting from
/// zero. No value is left out: from a missing value on, the sums are what
/// `add` makes of it.
pub open spec fn is_cumsum_of<A: Fn(u64, u64) -> u64>(add: A, r: Seq<u64>, s: Seq<u64>) -> bool {
    &&& r.len() == s.len()
    &&& forall|i: int| 0 <= i < s.len() ==> combines(add, ZERO, s.take(i + 1), #[trigger] r[i])
}

/// `r` is the Euclidean norm of `s`: the one value that `root` makes of the
/// sum of what `square` makes of each value of `s`.
pub open spec fn is_norm_of<A: Fn(u64, u64) -> u64, S: Fn(u64) -> u64, R: Fn(u64) -> u64>(
    add: A,
    square: S,
    root: R,
    r: Seq<u64>,
    s: Seq<u64>,
) -> bool {
    r.len() == 1 && exists|squares: Seq<u64>, total: u64|
        each_of(square, s, squares) && combines(add, ZERO, squares, total) && call_ensures(
            root,
            (total,),
            r[0],
        )
}

/// `out` holds, place by place, what `f` makes of the values of `a` and `b`.
pub open spec fn each_pair<M: Fn(u64, u64) -> u64>(f: M, a: Seq<u64>, b: Seq<u64>, out: Seq<u64>) -> bool {
    &&& out.len() == a.len()
    &&& forall|i: int| 0 <= i < a.len() ==> call_ensures(f, (a[i], b[i]), #[trigger] out[i])
}

/// `r` is the dot product of `a` and `b`, which have one length: the one
/// value that is the sum of what `times` makes of the values at each place.
pub open spec fn is_dot_of<M: Fn(u64, u64) -> u64, A: Fn(u64, u64) -> u64>(
    times: M,
    add: A,
    r: Seq<u64>,
    a: Seq<u64>,
    b: Seq<u64>,
) -> bool {
    r.len() == 1 && exists|products: Seq<u64>| each_pair(times, a, b, products) && combines(add, ZERO, products, r[0])
}

/// No value of `s` is missing.
pub open spec fn is_complete(s: Seq<u64>) -> bool {
    forall|i: int| 0 <= i < s.len() ==> !is_missing(#[trigger] s[i])
}

/// Two series are equal as vectors of numbers: they have one length and
/// their values are equal place by place. A missing value equals nothing, so
/// a series that has one equals no series.
pub open spec fn numerically_equal(a: Seq<u64>, b: Seq<u64>) -> bool {
    &&& a.len() == b.len()
    &&& forall|i: int| 0 <= i < a.len() ==> eq(#[trigger] a[i], b[i])
}

/// Two series agree cell by cell: they have one length, and at each place
/// either both values are missing or they are equal as numbers.
pub open spec fn same_cell(a: u64, b: u64) -> bool {
    (is_missing(a) && is_missing(b)) || eq(a, b)
}

/// Two series agree cell by cell, missing values compared by their place.
pub open spec fn cells_agree(a: Seq<u64>, b: Seq<u64>) -> bool {
    &&& a.len() == b.len()
    &&& forall|i: int| 0 <= i < a.len() ==> same_cell(#[trigger] a[i], b[i])
}

/// A stretch of equal ranks that is bounded by other ranks on both sides is a
/// run, and the only run that ends inside it or at its end.
pub proof fn lemma_run_closed(v: Seq<u64>, start: int, end: int)
    requires
        0 <= start < end <= v.len(),
        forall|j: int| start <= j < end ==> rank(#[trigger] v[j]) == rank(v[start]),
        start > 0 ==> rank(v[start - 1]) != rank(v[start]),
        end < v.len() ==> rank(v[end]) != rank(v[end - 1]),
    ensures
        is_run(v, start, end),
        forall|c: int, d: int| #[trigger] is_run(v, c, d) && start < d <= end ==> c == start && d == end,
{
    assert(rank(v[end - 1]) == rank(v[start]));
    assert forall|c: int, d: int| #[trigger] is_run(v, c, d) && start < d <= end implies c == start && d
        == end by {
        assert(rank(v[d - 1]) == rank(v[c]));
        if d < end {
            assert(rank(v[d]) == rank(v[start]));
            assert(rank(v[d - 1]) == rank(v[start]));
        }
        if c > start {
            assert(rank(v[c - 1]) == rank(v[start]));
            assert(rank(v[c]) == rank(v[start]));
        }
        if c < start {
            assert(rank(v[start - 1]) == rank(v[c]));
            assert(rank(v[start]) == rank(v[c]));
        }
    }
}

/// How often the rank `k` occurs in `s`.
pub open spec fn occurrences(s: Seq<u64>, k: int) -> nat {
    s.filter(has_rank(k)).len()
}

/// `k` is the rank that occurs most often in `s`, the lowest such rank where
/// several occur equally often.
pub open spec fn is_mode_rank(s: Seq<u64>, k: int) -> bool {
    &&& occurrences(s, k) > 0
    &&& forall|j: int| #[trigger] occurrences(s, j) <= occurrences(s, k)
    &&& forall|j: int| j < k ==> #[trigger] occurrences(s, j) < occurrences(s, k)
}

/// In an ascending sequence a run holds all the elements of its rank.
pub proof fn lemma_run_is_filter(v: Seq<u64>, a: int, b: int)
    requires
        is_ascending(v),
        is_run(v, a, b),
    ensures
        v.filter(has_rank(rank(v[a]))) == v.subrange(a, b),
{
    let k = rank(v[a]);
    let pred = has_rank(k);
    let left = v.take(a);
    let mid = v.subrange(a, b);
    let right = v.skip(b);
    assert(left + mid + right =~= v);
    Seq::filter_distributes_over_add(left + mid, right, pred);
    Seq::filter_distributes_over_add(left, mid, pred);
    assert forall|i: int| 0 <= i < left.len() implies !pred(#[trigger] left[i]) by {
        assert(rank(v[i]) <= rank(v[a - 1]));
        assert(rank(v[a - 1]) <= rank(v[a]));
    }
    assert forall|i: int| 0 <= i < right.len() implies !pred(#[trigger] right[i]) by {
        assert(rank(v[b]) <= rank(v[b + i]));
        assert(rank(v[a]) <= rank(v[b]));
    }
    assert forall|i: int| 0 <= i < mid.len() implies pred(#[trigger] mid[i]) by {
        assert(rank(v[a + i]) == k);
    }
    lemma_filter_none(left, pred);
    lemma_filter_none(right, pred);
    lemma_filter_all(mid, pred);
    assert(left.filter(pred) + mid.filter(pred) + right.filter(pred) =~= mid);
}

/// In an ascending sequence the elements of a rank that occurs form a run.
pub proof fn lemma_rank_run(v: Seq<u64>, j: int) -> (run: (int, int))
    requires
        is_ascending(v),
        occurrences(v, j) > 0,
    ensures
        is_run(v, run.0, run.1),
        rank(v[run.0]) == j,
        run.1 - run.0 == occurrences(v, j),
{
    let c = upper(v, j - 1);
    let d = upper(v, j);
    lemma_upper(v, j - 1);
    lemma_upper(v, j);
    let f = v.filter(has_rank(j));
    v.lemma_filter_pred(has_rank(j), 0);
    assert(f.contains(f[0]));
    v.lemma_filter_contains_rev(has_rank(j), f[0]);
    let at = choose|at: int| 0 <= at < v.len() && v[at] == f[0];
    assert(rank(v[at]) == j);
    assert(c <= at < d);
    assert forall|i: int| c <= i < d implies rank(#[trigger] v[i]) == j by {}
    if c > 0 {
        assert(rank(v[c - 1]) <= j - 1);
    }
    if d < v.len() {
        assert(rank(v[d]) > j);
    }
    assert(is_run(v, c, d));
    lemma_run_is_filter(v, c, d);
    (c, d)
}

/// The mode is the most frequent value: what [`is_mode_of`] describes by
/// runs of the sorted values are the occurrences, in the order they have in
/// the series, of the rank that occurs most often among the present values,
/// the lowest such rank where several occur equally often.
pub proof fn lemma_mode_is_most_frequent(r: Seq<u64>, s: Seq<u64>)
    requires
        is_mode_of(r, s),
        s.filter(present()).len() > 0,
    ensures
        exists|k: int|
            is_mode_rank(s.filter(present()), k) && r == s.filter(present()).filter(has_rank(k)),
{
    let valid = s.filter(present());
    let v = ascending(valid);
    lemma_ascending_sorts(valid);
    let (a, b) = choose|a: int, b: int| is_mode_run(v, a, b) && r == v.subrange(a, b);
    let k = rank(v[a]);
    lemma_run_is_filter(v, a, b);
    assert(v.filter(has_rank(k)) == valid.filter(has_rank(k)));
    assert forall|j: int| occurrences(valid, j) == occurrences(v, j) by {
        assert(v.filter(has_rank(j)) == valid.filter(has_rank(j)));
    }
    assert(occurrences(valid, k) == b - a);
    assert forall|j: int| #[trigger] occurrences(valid, j) <= occurrences(valid, k) && (j < k ==> occurrences(
        valid,
        j,
    ) < occurrences(valid, k)) by {
        assert(occurrences(valid, j) == occurrences(v, j));
        if occurrences(v, j) > 0 {
            let (c, d) = lemma_rank_run(v, j);
            assert(is_run(v, c, d));
            if j < k {
                if c >= a {
                    assert(rank(v[a]) <= rank(v[c]));
                }
                assert(c < a);
            }
        }
    }
    assert(is_mode_rank(valid, k));
}

/// The median of values that are all present and already in ascending order:
/// the middle one of an odd count, and what `midpoint` returns for the two
/// central ones of an even count.
pub proof fn lemma_median_of_ascending<F: Fn(u64, u64) -> u64>(midpoint: F, r: Seq<u64>, s: Seq<u64>)
    requires
        is_complete(s),
        is_ascending(s),
        is_median_of(midpoint, r, s),
    ensures
        ({
            let n = s.len() as int;
            &&& n % 2 == 1 ==> r == seq![s[n / 2]]
            &&& n > 0 && n % 2 == 0 ==> r.len() == 1 && call_ensures(midpoint, (s[n / 2 - 1], s[n / 2]), r[0])
        }),
{
    lemma_complete_filter(s);
    lemma_ascending_fixed(s);
}

/// The last value of the cumulative sum of a series without missing values
/// is a sum of the series: both combine all its values, in their order.
/// Where the addition is associative and zero its unit, the two are equal.
pub proof fn lemma_cumsum_ends_in_sum<A: Fn(u64, u64) -> u64>(add: A, r: Seq<u64>, s: Seq<u64>)
    requires
        s.len() > 0,
        is_complete(s),
        is_cumsum_of(add, r, s),
    ensures
        is_sum_of(add, seq![r.last()], s),
{
    lemma_complete_filter(s);
    assert(s.take(s.len() as int) =~= s);
    assert(combines(add, ZERO, s.take(s.len() - 1 + 1), r[s.len() - 1]));
}

/// Dropping the missing values of a series that has none changes nothing.
pub proof fn lemma_complete_filter(s: Seq<u64>)
    requires
        is_complete(s),
    ensures
        s.filter(present()) == s,
    decreases s.len(),
{
    reveal(Seq::filter);
    if s.len() > 0 {
        lemma_complete_filter(s.drop_last());
        assert(s.drop_last().push(s.last()) =~= s);
    }
}

/// Once the missing values are dropped, the mask of missing values is zero
/// throughout.
pub proof fn lemma_dropna_leaves_none_missing(s: Seq<u64>)
    ensures
        forall|i: int|
            0 <= i < s.filter(present()).len() ==> !is_missing(#[trigger] s.filter(present())[i])
                && missing_mask(s.filter(present())[i]) == ZERO,
{
    assert forall|i: int| 0 <= i < s.filter(present()).len() implies !is_missing(
        #[trigger] s.filter(present())[i],
    ) && missing_mask(s.filter(present())[i]) == ZERO by {
        s.lemma_filter_pred(present(), i);
    }
}

} // verus!
