//! The work-efficient prefix sum.

use vstd::prelude::*;
use crate::dispatch::par_tabulate;

verus! {

/// The length below which a prefix sum is computed by one pass.
pub const SCAN_CUTOFF: usize = 8192;

/// The sum of the first `k` elements of `xs`.
pub open spec fn sum_to(xs: Seq<i32>, k: int) -> int
    decreases k,
{
    if k <= 0 {
        0
    } else {
        sum_to(xs, k - 1) + xs[k - 1]
    }
}

/// The sum of the elements of `xs` from position `a` up to position `b`.
pub open spec fn range_sum(xs: Seq<i32>, a: int, b: int) -> int {
    sum_to(xs, b) - sum_to(xs, a)
}

/// Every run of consecutive elements of `xs` has a sum that a 32-bit signed
/// integer holds: the prefix sum adds up such runs, and no others.
pub open spec fn sums_fit(xs: Seq<i32>) -> bool {
    forall|a: int, b: int|
        0 <= a <= b <= xs.len() ==> i32::MIN <= #[trigger] range_sum(xs, a, b) <= i32::MAX
}

/// Every prefix of `xs` has a sum that a 32-bit signed integer holds.
pub open spec fn prefixes_fit(xs: Seq<i32>) -> bool {
    forall|k: int| 0 <= k <= xs.len() ==> i32::MIN <= #[trigger] sum_to(xs, k) <= i32::MAX
}

/// The sums that the prefix sum of `xs` forms on its way fit in a 32-bit
/// signed integer: those of the prefixes where `xs` is summed in one pass,
/// and those of all runs of consecutive elements where it is halved.
pub open spec fn scan_fits(xs: Seq<i32>) -> bool {
    if xs.len() < SCAN_CUTOFF {
        prefixes_fit(xs)
    } else {
        sums_fit(xs)
    }
}

/// Where the sums of all runs fit, so do those of the prefixes.
pub proof fn lemma_sums_fit_scan(xs: Seq<i32>)
    requires
        sums_fit(xs),
    ensures
        scan_fits(xs),
{
    assert forall|k: int| 0 <= k <= xs.len() implies i32::MIN <= #[trigger] sum_to(xs, k) <= i32::MAX by {
        assert(range_sum(xs, 0, k) == sum_to(xs, k));
    }
}

/// `pairs` holds the sums of the adjacent pairs of `xs`.
pub open spec fn is_pairing(pairs: Seq<i32>, xs: Seq<i32>) -> bool {
    &&& pairs.len() == xs.len() / 2
    &&& forall|i: int| 0 <= i < pairs.len() ==> #[trigger] pairs[i] == xs[2 * i] + xs[2 * i + 1]
}

/// The first `k` pair sums add up to the first `2 k` elements.
proof fn lemma_pairing_sums(pairs: Seq<i32>, xs: Seq<i32>, k: int)
    requires
        is_pairing(pairs, xs),
        0 <= k <= pairs.len(),
    ensures
        sum_to(pairs, k) == sum_to(xs, 2 * k),
    decreases k,
{
    if k > 0 {
        lemma_pairing_sums(pairs, xs, k - 1);
        assert(pairs[k - 1] == xs[2 * (k - 1)] + xs[2 * (k - 1) + 1]);
        assert(sum_to(xs, 2 * k) == sum_to(xs, 2 * k - 1) + xs[2 * k - 1]);
        assert(sum_to(xs, 2 * k - 1) == sum_to(xs, 2 * k - 2) + xs[2 * k - 2]);
    }
}

/// Where the sums of `xs` fit, so do those of its pair sums.
proof fn lemma_pairing_fits(pairs: Seq<i32>, xs: Seq<i32>)
    requires
        is_pairing(pairs, xs),
        sums_fit(xs),
    ensures
        sums_fit(pairs),
{
    assert forall|a: int, b: int| 0 <= a <= b <= pairs.len() implies i32::MIN <= #[trigger] range_sum(
        pairs,
        a,
        b,
    ) <= i32::MAX by {
        lemma_pairing_sums(pairs, xs, a);
        lemma_pairing_sums(pairs, xs, b);
        assert(range_sum(pairs, a, b) == range_sum(xs, 2 * a, 2 * b));
    }
}

/// The sum of two neighbours is the sum of a run of length two.
proof fn lemma_pair_is_range(xs: Seq<i32>, i: int)
    requires
        0 <= i,
        i + 2 <= xs.len(),
    ensures
        range_sum(xs, i, i + 2) == xs[i] + xs[i + 1],
        range_sum(xs, i, i + 1) == xs[i],
{
    assert(sum_to(xs, i + 2) == sum_to(xs, i + 1) + xs[i + 1]);
    assert(sum_to(xs, i + 1) == sum_to(xs, i) + xs[i]);
}

/// Where no element is negative, the prefix sums never fall: a longer prefix
/// sums to at least as much as a shorter one.
pub proof fn lemma_prefix_sums_non_decreasing(xs: Seq<i32>, i: int, j: int)
    requires
        forall|k: int| 0 <= k < xs.len() ==> #[trigger] xs[k] >= 0,
        0 <= i <= j <= xs.len(),
    ensures
        sum_to(xs, i) <= sum_to(xs, j),
    decreases j - i,
{
    if i < j {
        lemma_prefix_sums_non_decreasing(xs, i, j - 1);
        assert(xs[j - 1] >= 0);
    }
}

/// The exclusive prefix sums of `xs`, and its total: entry `i` of the first
/// is the sum of the elements before position `i`.
///
/// A short input is summed in one pass. A longer one is halved: adjacent
/// elements are summed in pairs, the prefix sums of the pair sums are found by
/// the same method, and each of them yields two entries of the result, its
/// own value at the even position and its value plus the element there at the
/// odd position that follows. An odd element left over at the end takes the
/// running total as its entry and is then added to it.
pub fn prefix_sum(xs: &[i32]) -> (r: (Vec<i32>, i32))
    requires
        scan_fits(xs@),
    ensures
        r.0@.len() == xs@.len(),
        forall|i: int| 0 <= i < xs@.len() ==> #[trigger] r.0@[i] == sum_to(xs@, i),
        r.1 == sum_to(xs@, xs@.len() as int),
    decreases xs@.len(),
{
    let n = xs.len();
    if n < SCAN_CUTOFF {
        let mut pfs: Vec<i32> = Vec::new();
        let mut acc: i32 = 0;
        let mut i: usize = 0;
        while i < n
            invariant
                n == xs@.len(),
                i <= n,
                prefixes_fit(xs@),
                acc == sum_to(xs@, i as int),
                pfs@.len() == i,
                forall|j: int| 0 <= j < i ==> #[trigger] pfs@[j] == sum_to(xs@, j),
            decreases n - i,
        {
            pfs.push(acc);
            proof {
                assert(i32::MIN <= sum_to(xs@, i + 1) <= i32::MAX);
            }
            acc = acc + xs[i];
            i += 1;
        }
        return (pfs, acc);
    }
    let half = n / 2;
    let pairs = par_tabulate(
        half,
        |i: usize| -> (s: i32)
            requires
                sums_fit(xs@),
                2 * i + 1 < xs@.len(),
            ensures
                s == xs@[2 * i] + xs@[2 * i + 1]
            {
                proof {
                    lemma_pair_is_range(xs@, 2 * i);
                }
                xs[2 * i] + xs[2 * i + 1]
            },
    );
    proof {
        assert(is_pairing(pairs@, xs@));
        lemma_pairing_fits(pairs@, xs@);
        lemma_sums_fit_scan(pairs@);
    }
    let (c_prefix, c_sum) = prefix_sum(pairs.as_slice());
    proof {
        assert forall|k: int| 0 <= k <= half implies (if k < half {
            c_prefix@[k]
        } else {
            c_sum
        }) == sum_to(xs@, 2 * k) by {
            lemma_pairing_sums(pairs@, xs@, k);
        }
    }
    let mut pfs = par_tabulate(
        2 * half,
        |k: usize| -> (s: i32)
            requires
                sums_fit(xs@),
                k < xs@.len(),
                k / 2 < c_prefix@.len(),
                c_prefix@[(k / 2) as int] == sum_to(xs@, 2 * (k / 2)),
            ensures
                s == sum_to(xs@, k as int)
            {
                if k % 2 == 0 {
                    c_prefix[k / 2]
                } else {
                    proof {
                        assert(range_sum(xs@, 0, k as int) == sum_to(xs@, k as int));
                    }
                    c_prefix[k / 2] + xs[k - 1]
                }
            },
    );
    let mut total = c_sum;
    proof {
        lemma_pairing_sums(pairs@, xs@, half as int);
        assert(total == sum_to(xs@, 2 * half));
        assert forall|i: int| 0 <= i < 2 * half implies #[trigger] pfs@[i] == sum_to(xs@, i) by {
            let k = i as usize;
            assert(pfs@[k as int] == sum_to(xs@, k as int));
        }
    }
    if n % 2 == 1 {
        pfs.push(total);
        proof {
            assert(range_sum(xs@, 0, n as int) == sum_to(xs@, n as int));
            assert(sum_to(xs@, n as int) == sum_to(xs@, n - 1) + xs@[n - 1]);
        }
        total = total + xs[n - 1];
    }
    (pfs, total)
}

} // verus!
