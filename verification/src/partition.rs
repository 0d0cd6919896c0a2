//! The predicate partition: the elements that meet a predicate, placed by
//! index.
//!
//! The destination of a kept element is the number of kept elements before
//! it, which the prefix sum of the 0/1 mask gives. Kept elements therefore go
//! to distinct places that fill the output without a gap, whatever the order
//! in which the writes are made: no place is written twice, and none is read
//! before it is written.

use vstd::prelude::*;
use crate::dispatch::{nth, par_tabulate};
use crate::scan::{lemma_sums_fit_scan, prefix_sum, range_sum, sum_to, sums_fit};

verus! {

/// The elements of `s` whose verdict is true, in the order they have in `s`.
pub open spec fn kept<T>(s: Seq<T>, verdict: Seq<bool>) -> Seq<T>
    decreases s.len(),
{
    if s.len() == 0 || verdict.len() != s.len() {
        Seq::empty()
    } else if verdict.last() {
        kept(s.drop_last(), verdict.drop_last()).push(s.last())
    } else {
        kept(s.drop_last(), verdict.drop_last())
    }
}

/// The 0/1 mask of a sequence of verdicts.
pub open spec fn mask_of(verdict: Seq<bool>) -> Seq<i32> {
    Seq::new(verdict.len(), |i: int| if verdict[i] { 1i32 } else { 0i32 })
}

/// The sum of a 0/1 mask over any run is between zero and the run's length.
proof fn lemma_mask_sums(verdict: Seq<bool>, a: int, b: int)
    requires
        0 <= a <= b <= verdict.len(),
    ensures
        0 <= range_sum(mask_of(verdict), a, b) <= b - a,
    decreases b - a,
{
    if a < b {
        lemma_mask_sums(verdict, a, b - 1);
        assert(sum_to(mask_of(verdict), b) == sum_to(mask_of(verdict), b - 1) + mask_of(verdict)[b - 1]);
    }
}

/// The sums of a 0/1 mask fit as long as its length does.
proof fn lemma_mask_fits(verdict: Seq<bool>)
    requires
        verdict.len() <= i32::MAX,
    ensures
        sums_fit(mask_of(verdict)),
{
    assert forall|a: int, b: int| 0 <= a <= b <= mask_of(verdict).len() implies i32::MIN
        <= #[trigger] range_sum(mask_of(verdict), a, b) <= i32::MAX by {
        lemma_mask_sums(verdict, a, b);
    }
}

/// The prefix sum of the mask counts the kept elements: among the first `k`
/// elements, as many are kept as the mask sums to.
pub proof fn lemma_kept_len<T>(s: Seq<T>, verdict: Seq<bool>, k: int)
    requires
        verdict.len() == s.len(),
        0 <= k <= s.len(),
    ensures
        kept(s.take(k), verdict.take(k)).len() == sum_to(mask_of(verdict), k),
    decreases k,
{
    if k > 0 {
        lemma_kept_len(s, verdict, k - 1);
        assert(s.take(k).drop_last() =~= s.take(k - 1));
        assert(verdict.take(k).drop_last() =~= verdict.take(k - 1));
    }
}

/// Kept elements have distinct destinations, which rise with their positions
/// and stay below the number of kept elements.
pub proof fn lemma_destinations_distinct(verdict: Seq<bool>, i: int, j: int)
    requires
        0 <= i < j < verdict.len(),
        verdict[i],
        verdict[j],
    ensures
        0 <= sum_to(mask_of(verdict), i) < sum_to(mask_of(verdict), j) < sum_to(
            mask_of(verdict),
            verdict.len() as int,
        ),
{
    let m = mask_of(verdict);
    lemma_mask_sums(verdict, 0, i);
    lemma_mask_sums(verdict, i + 1, j);
    lemma_mask_sums(verdict, j + 1, verdict.len() as int);
    assert(sum_to(m, i + 1) == sum_to(m, i) + m[i]);
    assert(sum_to(m, j + 1) == sum_to(m, j) + m[j]);
}

/// Where each verdict says whether `pred` holds of the element, the kept
/// elements are the elements filtered by `pred`.
pub proof fn lemma_kept_is_filter<T>(s: Seq<T>, verdict: Seq<bool>, pred: spec_fn(T) -> bool)
    requires
        verdict.len() == s.len(),
        forall|i: int| 0 <= i < s.len() ==> verdict[i] == pred(#[trigger] s[i]),
    ensures
        kept(s, verdict) == s.filter(pred),
    decreases s.len(),
{
    reveal(Seq::filter);
    if s.len() > 0 {
        lemma_kept_is_filter(s.drop_last(), verdict.drop_last(), pred);
    }
}

/// Kept elements keep their relative order: of two entries of the result, the
/// earlier one comes from an earlier place of the input.
pub proof fn lemma_kept_in_order<T>(s: Seq<T>, verdict: Seq<bool>, a: int, b: int) -> (at: (int, int))
    requires
        verdict.len() == s.len(),
        0 <= a < b < kept(s, verdict).len(),
    ensures
        0 <= at.0 < at.1 < s.len(),
        verdict[at.0],
        verdict[at.1],
        kept(s, verdict)[a] == s[at.0],
        kept(s, verdict)[b] == s[at.1],
    decreases s.len(),
{
    let rest = kept(s.drop_last(), verdict.drop_last());
    if verdict.last() && b == rest.len() {
        let i = lemma_kept_source(s.drop_last(), verdict.drop_last(), a);
        (i, s.len() - 1)
    } else {
        lemma_kept_in_order(s.drop_last(), verdict.drop_last(), a, b)
    }
}

/// Every entry of the result comes from a place of the input whose verdict is
/// true.
pub proof fn lemma_kept_source<T>(s: Seq<T>, verdict: Seq<bool>, a: int) -> (i: int)
    requires
        verdict.len() == s.len(),
        0 <= a < kept(s, verdict).len(),
    ensures
        0 <= i < s.len(),
        verdict[i],
        kept(s, verdict)[a] == s[i],
    decreases s.len(),
{
    let rest = kept(s.drop_last(), verdict.drop_last());
    if verdict.last() && a == rest.len() {
        s.len() - 1
    } else {
        lemma_kept_source(s.drop_last(), verdict.drop_last(), a)
    }
}

/// The number of verdicts that are true.
pub open spec fn accepted(verdict: Seq<bool>) -> int {
    sum_to(mask_of(verdict), verdict.len() as int)
}

/// `verdict` holds, for each element of `xs`, what `p` returned for it.
pub open spec fn verdicts<T, F: Fn(T) -> bool>(p: F, xs: Seq<T>, verdict: Seq<bool>) -> bool {
    &&& verdict.len() == xs.len()
    &&& forall|i: int| 0 <= i < xs.len() ==> call_ensures(p, (xs[i],), #[trigger] verdict[i])
}

/// The elements of `xs` that `p` accepts, in the order they have in `xs`:
/// as many as `p` accepted, each at the place that the number of accepted
/// elements before it gives.
///
/// The verdicts are computed in parallel; their prefix sum gives each
/// accepted element its place in the output, which has exactly as many
/// places as elements were accepted. Each place is written once.
pub fn par_partition<T: Copy + Send + Sync, F: Fn(T) -> bool + Send + Sync>(xs: &Vec<T>, p: F) -> (r: Vec<T>)
    requires
        xs@.len() <= i32::MAX,
        forall|i: int| 0 <= i < xs@.len() ==> call_requires(p, (#[trigger] xs@[i],)),
    ensures
        exists|verdict: Seq<bool>|
            verdicts(p, xs@, verdict) && r@ == kept(xs@, verdict) && r@.len() == accepted(verdict),
{
    let n = xs.len();
    proof {
        assert forall|i: usize| i < n implies call_requires(p, (nth(xs@, i),)) by {
            assert(xs@[i as int] == nth(xs@, i));
        }
    }
    let mask = par_tabulate(
        n,
        |i: usize| -> (m: i32)
            requires
                xs@.len() > i,
                call_requires(p, (nth(xs@, i),)),
            ensures
                m == 0 || m == 1,
                call_ensures(p, (nth(xs@, i),), m == 1)
            {
                if p(xs[i]) {
                    1
                } else {
                    0
                }
            },
    );
    let ghost verdict = Seq::new(n as nat, |i: int| mask@[i] == 1);
    proof {
        assert forall|i: int| 0 <= i < n implies (mask@[i] == 0 || mask@[i] == 1) && call_ensures(
            p,
            (xs@[i],),
            #[trigger] verdict[i],
        ) by {
            let k = i as usize;
            assert(call_ensures(p, (nth(xs@, k),), mask@[k as int] == 1));
        }
        assert(mask@ =~= mask_of(verdict));
        lemma_mask_fits(verdict);
        lemma_sums_fit_scan(mask_of(verdict));
        assert(verdicts(p, xs@, verdict));
    }
    let (indices, n_filtered) = prefix_sum(mask.as_slice());
    proof {
        lemma_mask_sums(verdict, 0, n as int);
        lemma_kept_len(xs@, verdict, n as int);
        assert(xs@.take(n as int) =~= xs@);
        assert(verdict.take(n as int) =~= verdict);
    }
    let count = n_filtered as usize;
    let mut output: Vec<T> = Vec::new();
    if count == 0 {
        proof {
            assert(kept(xs@, verdict) =~= Seq::<T>::empty());
            assert(mask@ == mask_of(verdict));
            assert(accepted(verdict) == 0);
            assert(verdicts(p, xs@, verdict) && output@ == kept(xs@, verdict) && output@.len() == accepted(verdict));
        }
        return output;
    }
    let filler = xs[0];
    let mut c: usize = 0;
    while c < count
        invariant
            c <= count,
            output@.len() == c,
        decreases count - c,
    {
        output.push(filler);
        c += 1;
    }
    let mut i: usize = 0;
    while i < n
        invariant
            n == xs@.len(),
            i <= n,
            verdict.len() == n,
            mask@ == mask_of(verdict),
            indices@.len() == n,
            forall|j: int| 0 <= j < n ==> #[trigger] indices@[j] == sum_to(mask@, j),
            count == sum_to(mask@, n as int),
            output@.len() == count,
            kept(xs@.take(i as int), verdict.take(i as int)).len() == sum_to(mask@, i as int),
            forall|k: int|
                0 <= k < sum_to(mask@, i as int) ==> #[trigger] output@[k] == kept(
                    xs@.take(i as int),
                    verdict.take(i as int),
                )[k],
        decreases n - i,
    {
        proof {
            lemma_kept_len(xs@, verdict, i + 1);
            assert(xs@.take(i + 1).drop_last() =~= xs@.take(i as int));
            assert(verdict.take(i + 1).drop_last() =~= verdict.take(i as int));
            lemma_mask_sums(verdict, 0, i as int);
            lemma_mask_sums(verdict, i + 1, n as int);
            assert(sum_to(mask@, i + 1) == sum_to(mask@, i as int) + mask@[i as int]);
        }
        if mask[i] == 1 {
            let out_idx = indices[i] as usize;
            output.set(out_idx, xs[i]);
        }
        i += 1;
    }
    proof {
        assert(xs@.take(n as int) =~= xs@);
        assert(verdict.take(n as int) =~= verdict);
        assert(output@ =~= kept(xs@, verdict));
        assert(output@.len() == accepted(verdict));
    }
    output
}

/// For each element of `xs` that `p` accepts, in order, its first component
/// plus one: the position just behind the element, where the first component
/// is its position.
pub fn par_filter<F>(xs: Vec<(usize, char)>, p: F) -> (r: Vec<usize>) where
    F: Fn((usize, char)) -> bool + Send + Sync,

    requires
        xs@.len() <= i32::MAX,
        forall|i: int| 0 <= i < xs@.len() ==> (#[trigger] xs@[i]).0 < usize::MAX,
        forall|i: int| 0 <= i < xs@.len() ==> call_requires(p, (#[trigger] xs@[i],)),
    ensures
        exists|verdict: Seq<bool>|
            {
                &&& verdicts(p, xs@, verdict)
                &&& r@.len() == kept(xs@, verdict).len()
                &&& forall|k: int| 0 <= k < r@.len() ==> #[trigger] r@[k] == kept(xs@, verdict)[k].0 + 1
            },
{
    let found = par_partition(&xs, p);
    proof {
        let verdict = choose|verdict: Seq<bool>|
            verdicts(p, xs@, verdict) && found@ == kept(xs@, verdict) && found@.len() == accepted(verdict);
        assert forall|k: int| 0 <= k < found@.len() implies (#[trigger] found@[k]).0 < usize::MAX by {
            let i = lemma_kept_source(xs@, verdict, k);
        }
    }
    let behind = |k: usize| -> (at: usize)
        requires
            found@.len() > k,
            nth(found@, k).0 < usize::MAX,
        ensures
            at == nth(found@, k).0 + 1
        { found[k].0 + 1 };
    let out = par_tabulate(found.len(), behind);
    proof {
        assert forall|k: int| 0 <= k < out@.len() implies #[trigger] out@[k] == found@[k].0 + 1 by {
            let w = k as usize;
            assert(call_ensures(behind, (w,), out@[w as int]));
        }
    }
    out
}

} // verus!
