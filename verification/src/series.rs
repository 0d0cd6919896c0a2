//! The series: an ordered vector of double-precision values.

use vstd::prelude::*;
use vstd::string::StringExecFns;
use crate::bits::{ONE, ZERO, eq, is_missing, is_nan, missing_mask, nan_mask, present, present_mask, rank, rank_eq, same, valid_mask};
use crate::dispatch::{nth, par_any, par_drop_missing, par_tabulate, select, Strategy};
use crate::error::FrameError;
use crate::fold::{combines, reduce_by, scan_by};
use crate::text::{join_texts, names};
use crate::order::{ascending, higher, is_highest_at, is_lowest_at, lemma_sorted_form_is_ascending, lower, par_highest, par_lowest, par_sort};
use crate::stats::{all_written, cells_agree, each_of, each_pair, each_with, is_complete, is_cumsum_of, is_dot_of, is_joined, is_max_of, is_mean_of, is_mean_value, is_median_of, is_min_of, is_mode_of, is_mode_run, is_norm_of, is_prod_of, is_run, is_std_of, is_sum_of, is_var_of, is_var_value, is_written, lemma_run_closed, nan_text, numerically_equal, same_cell};

verus! {

/// An ordered sequence of double-precision values, each held as its bit
/// pattern. A NaN pattern marks a missing value. A series is never changed:
/// every operation returns a new one.
#[derive(Debug)]
pub struct Series {
    data: Vec<u64>,
}

impl View for Series {
    type V = Seq<u64>;

    /// The values, in order.
    closed spec fn view(&self) -> Seq<u64> {
        self.data@
    }
}

impl Clone for Series {
    fn clone(&self) -> (r: Self)
        ensures
            r@ == self@,
    {
        Series { data: self.data.clone() }
    }
}

impl PartialEq for Series {
    /// Equality as vectors of numbers: see [`Series::equals`].
    fn eq(&self, other: &Self) -> (r: bool) {
        self.equals(other)
    }
}

impl vstd::std_specs::cmp::PartialEqSpecImpl for Series {
    open spec fn obeys_eq_spec() -> bool {
        true
    }

    open spec fn eq_spec(&self, other: &Self) -> bool {
        numerically_equal(self@, other@)
    }
}

impl Series {
    /// A series of the given values.
    pub fn new(data: Vec<u64>) -> (s: Series)
        ensures
            s@ == data@,
    {
        Series { data }
    }

    /// The series without any value: the result of a reduction that had
    /// nothing to reduce.
    pub fn zero() -> (s: Series)
        ensures
            s@.len() == 0,
    {
        Series { data: Vec::new() }
    }

    /// Tells whether this is the series without any value.
    pub fn is_zero(&self) -> (r: bool)
        ensures
            r == (self@.len() == 0),
    {
        self.data.len() == 0
    }

    /// The number of values, missing ones included.
    pub fn size(&self) -> (n: usize)
        ensures
            n == self@.len(),
    {
        self.data.len()
    }

    /// Tells whether the series holds no value at all.
    pub fn is_empty(&self) -> (r: bool)
        ensures
            r == (self@.len() == 0),
    {
        self.size() == 0
    }

    /// The value at `idx`, or `IndexOutOfRange` when the series has no such
    /// position.
    pub fn iloc(&self, idx: usize) -> (r: Result<u64, FrameError>)
        ensures
            idx < self@.len() ==> r == Ok::<u64, FrameError>(self@[idx as int]),
            idx >= self@.len() ==> r == Err::<u64, FrameError>(FrameError::IndexOutOfRange),
    {
        if idx < self.data.len() {
            Ok(self.data[idx])
        } else {
            Err(FrameError::IndexOutOfRange)
        }
    }

    /// The value at a position that the series has.
    pub(crate) fn cell(&self, idx: usize) -> (b: u64)
        requires
            idx < self@.len(),
        ensures
            b == self@[idx as int],
    {
        self.data[idx]
    }

    /// The values as a vector.
    pub fn to_vec(&self) -> (v: Vec<u64>)
        ensures
            v@ == self@,
    {
        self.data.clone()
    }

    /// The present values, in order: every missing value is left out.
    pub fn dropna(&self) -> (r: Series)
        ensures
            r@ == self@.filter(present()),
    {
        match select(self.data.len()) {
            Strategy::Sequential => {
                let mut out: Vec<u64> = Vec::new();
                let n = self.data.len();
                let mut i: usize = 0;
                proof {
                    reveal(Seq::filter);
                    assert(self.data@.take(0) =~= Seq::<u64>::empty());
                }
                while i < n
                    invariant
                        n == self.data@.len(),
                        i <= n,
                        out@ == self.data@.take(i as int).filter(present()),
                    decreases n - i,
                {
                    let b = self.data[i];
                    proof {
                        self.data@.take(i as int).lemma_filter_push(b, present());
                        assert(self.data@.take(i as int).push(b) =~= self.data@.take(i + 1));
                    }
                    if !is_nan(b) {
                        out.push(b);
                    }
                    i += 1;
                }
                proof {
                    assert(self.data@.take(n as int) =~= self.data@);
                }
                Series { data: out }
            },
            Strategy::Parallel => Series { data: par_drop_missing(&self.data) },
        }
    }

    /// The mask of missing values: one where a value is missing, zero where
    /// it is present.
    pub fn isna(&self) -> (r: Series)
        ensures
            r@.len() == self@.len(),
            forall|i: int| 0 <= i < self@.len() ==> r@[i] == missing_mask(self@[i]),
    {
        let n = self.data.len();
        match select(n) {
            Strategy::Sequential => {
                let mut out: Vec<u64> = Vec::new();
                let mut i: usize = 0;
                while i < n
                    invariant
                        n == self.data@.len(),
                        i <= n,
                        out@.len() == i,
                        forall|j: int| 0 <= j < i ==> out@[j] == missing_mask(self.data@[j]),
                    decreases n - i,
                {
                    out.push(nan_mask(self.data[i]));
                    i += 1;
                }
                Series { data: out }
            },
            Strategy::Parallel => {
                let data = &self.data;
                let out = par_tabulate(
                    n,
                    |i: usize| -> (m: u64)
                        requires
                            data@.len() > i,
                        ensures
                            m == missing_mask(nth(data@, i))
                        { nan_mask(data[i]) },
                );
                Series { data: out }
            },
        }
    }

    /// The mask of present values: one where a value is present, zero where
    /// it is missing.
    pub fn notna(&self) -> (r: Series)
        ensures
            r@.len() == self@.len(),
            forall|i: int| 0 <= i < self@.len() ==> r@[i] == present_mask(self@[i]),
    {
        let n = self.data.len();
        match select(n) {
            Strategy::Sequential => {
                let mut out: Vec<u64> = Vec::new();
                let mut i: usize = 0;
                while i < n
                    invariant
                        n == self.data@.len(),
                        i <= n,
                        out@.len() == i,
                        forall|j: int| 0 <= j < i ==> out@[j] == present_mask(self.data@[j]),
                    decreases n - i,
                {
                    out.push(valid_mask(self.data[i]));
                    i += 1;
                }
                Series { data: out }
            },
            Strategy::Parallel => {
                let data = &self.data;
                let out = par_tabulate(
                    n,
                    |i: usize| -> (m: u64)
                        requires
                            data@.len() > i,
                        ensures
                            m == present_mask(nth(data@, i))
                        { valid_mask(data[i]) },
                );
                Series { data: out }
            },
        }
    }

    /// Tells whether `pred` holds of some value. The answer is true only if
    /// `pred` accepted a value of the series, and false only if it refused
    /// every one of them.
    pub fn any<F: Fn(u64) -> bool + Sync + Send>(&self, pred: F) -> (r: bool)
        requires
            forall|i: int| 0 <= i < self@.len() ==> call_requires(pred, (#[trigger] self@[i],)),
        ensures
            r ==> exists|i: int| 0 <= i < self@.len() && call_ensures(pred, (#[trigger] self@[i],), true),
            !r ==> forall|i: int| 0 <= i < self@.len() ==> call_ensures(pred, (#[trigger] self@[i],), false),
    {
        assert(self@ =~= self.data@);
        par_any(&self.data, pred)
    }

    /// Tells whether some value is missing.
    pub fn has_missing(&self) -> (r: bool)
        ensures
            r == !is_complete(self@),
    {
        let mask = self.isna();
        let r = mask.any(|m: u64| -> (b: bool)
            ensures
                b == (m == ONE)
            { m == ONE });
        proof {
            if r {
                let i = choose|i: int| 0 <= i < mask@.len() && mask@[i] == ONE;
                assert(is_missing(self@[i]));
            } else {
                assert forall|i: int| 0 <= i < self@.len() implies !is_missing(#[trigger] self@[i]) by {
                    assert(mask@[i] != ONE);
                }
            }
        }
        r
    }

    /// The lowest present value, as a series of one value; the series without
    /// any value where none is present. Where the two zeros are both lowest,
    /// the later one is returned.
    pub fn min(&self) -> (r: Series)
        ensures
            is_min_of(r@, self@),
    {
        let valid = self.dropna();
        let found = match select(self.data.len()) {
            Strategy::Sequential => {
                let n = valid.data.len();
                if n == 0 {
                    None
                } else {
                    let mut best = valid.data[0];
                    let ghost mut at: int = 0;
                    let mut i: usize = 1;
                    while i < n
                        invariant
                            n == valid.data@.len(),
                            1 <= i <= n,
                            0 <= at < i,
                            best == valid.data@[at],
                            forall|j: int| 0 <= j < i ==> rank(best) <= rank(#[trigger] valid.data@[j]),
                            forall|j: int| at < j < i ==> rank(best) < rank(#[trigger] valid.data@[j]),
                        decreases n - i,
                    {
                        let y = valid.data[i];
                        let next = lower(best, y);
                        proof {
                            if next != best || !(rank(best) < rank(y)) {
                                at = i as int;
                            }
                        }
                        best = next;
                        i += 1;
                    }
                    proof {
                        assert(is_lowest_at(valid.data@, at));
                    }
                    Some(best)
                }
            },
            Strategy::Parallel => par_lowest(&valid.data),
        };
        match found {
            Some(m) => {
                let mut out: Vec<u64> = Vec::new();
                out.push(m);
                Series { data: out }
            },
            None => Series::zero(),
        }
    }

    /// The highest present value, as a series of one value; the series
    /// without any value where none is present. Where the two zeros are both
    /// highest, the later one is returned.
    pub fn max(&self) -> (r: Series)
        ensures
            is_max_of(r@, self@),
    {
        let valid = self.dropna();
        let found = match select(self.data.len()) {
            Strategy::Sequential => {
                let n = valid.data.len();
                if n == 0 {
                    None
                } else {
                    let mut best = valid.data[0];
                    let ghost mut at: int = 0;
                    let mut i: usize = 1;
                    while i < n
                        invariant
                            n == valid.data@.len(),
                            1 <= i <= n,
                            0 <= at < i,
                            best == valid.data@[at],
                            forall|j: int| 0 <= j < i ==> rank(best) >= rank(#[trigger] valid.data@[j]),
                            forall|j: int| at < j < i ==> rank(best) > rank(#[trigger] valid.data@[j]),
                        decreases n - i,
                    {
                        let y = valid.data[i];
                        let next = higher(best, y);
                        proof {
                            if next != best || !(rank(best) > rank(y)) {
                                at = i as int;
                            }
                        }
                        best = next;
                        i += 1;
                    }
                    proof {
                        assert(is_highest_at(valid.data@, at));
                    }
                    Some(best)
                }
            },
            Strategy::Parallel => par_highest(&valid.data),
        };
        match found {
            Some(m) => {
                let mut out: Vec<u64> = Vec::new();
                out.push(m);
                Series { data: out }
            },
            None => Series::zero(),
        }
    }

    /// The median of the present values, as a series of one value; the series
    /// without any value where none is present. With the present values in
    /// ascending order, an odd count gives the middle one; an even count
    /// gives what `midpoint` makes of the two central ones, the lower first.
    pub fn median<F: Fn(u64, u64) -> u64>(&self, midpoint: &F) -> (r: Series)
        requires
            forall|a: u64, b: u64| call_requires(*midpoint, (a, b)),
        ensures
            is_median_of(*midpoint, r@, self@),
    {
        let sorted = self.sort();
        let n = sorted.data.len();
        if n == 0 {
            return Series::zero();
        }
        let m = if n % 2 == 1 {
            sorted.data[n / 2]
        } else {
            midpoint(sorted.data[n / 2 - 1], sorted.data[n / 2])
        };
        let mut out: Vec<u64> = Vec::new();
        out.push(m);
        proof {
            assert(out@ =~= seq![m]);
        }
        Series { data: out }
    }

    /// The mode of the present values: with these in ascending order, the
    /// first of the longest runs of equal values, returned whole. So among
    /// values that occur equally often the lowest wins. The series without
    /// any value where none is present.
    pub fn mode(&self) -> (r: Series)
        ensures
            is_mode_of(r@, self@),
    {
        let sorted = self.sort();
        let n = sorted.data.len();
        if n == 0 {
            return Series::zero();
        }
        let ghost v = sorted.data@;
        let mut start: usize = 0;
        let mut best_start: usize = 0;
        let mut best_end: usize = 0;
        let mut i: usize = 1;
        while i < n
            invariant
                n == sorted.data@.len(),
                v == sorted.data@,
                1 <= i <= n,
                start < i,
                best_start <= best_end <= start,
                start > 0 ==> is_run(v, best_start as int, best_end as int),
                forall|j: int| start <= j < i ==> rank(#[trigger] v[j]) == rank(v[start as int]),
                start > 0 ==> rank(v[start - 1]) != rank(v[start as int]),
                forall|c: int, d: int| #[trigger] is_run(v, c, d) && d <= start ==> d - c <= best_end - best_start && (c
                    < best_start ==> d - c < best_end - best_start),
            decreases n - i,
        {
            if !rank_eq(sorted.data[i - 1], sorted.data[i]) {
                proof {
                    lemma_run_closed(v, start as int, i as int);
                }
                if i - start > best_end - best_start {
                    best_start = start;
                    best_end = i;
                }
                start = i;
            }
            i += 1;
        }
        proof {
            lemma_run_closed(v, start as int, n as int);
        }
        if n - start > best_end - best_start {
            best_start = start;
            best_end = n;
        }
        let mut out: Vec<u64> = Vec::new();
        let mut k: usize = best_start;
        while k < best_end
            invariant
                best_start <= k <= best_end <= n,
                n == sorted.data@.len(),
                out@ == sorted.data@.subrange(best_start as int, k as int),
            decreases best_end - k,
        {
            out.push(sorted.data[k]);
            proof {
                assert(sorted.data@.subrange(best_start as int, k as int).push(sorted.data@[k as int])
                    =~= sorted.data@.subrange(best_start as int, k + 1));
            }
            k += 1;
        }
        proof {
            assert(is_mode_run(v, best_start as int, best_end as int));
        }
        Series { data: out }
    }

    /// The series of what `f` makes of each value, place by place.
    pub fn apply<F: Fn(u64) -> u64 + Sync + Send>(&self, f: F) -> (r: Series)
        requires
            forall|i: int| 0 <= i < self@.len() ==> call_requires(f, (#[trigger] self@[i],)),
        ensures
            r@.len() == self@.len(),
            forall|i: int| 0 <= i < self@.len() ==> call_ensures(f, (self@[i],), #[trigger] r@[i]),
    {
        let data = &self.data;
        proof {
            assert forall|i: usize| i < data@.len() implies call_requires(f, (nth(data@, i),)) by {
                assert(self@[i as int] == nth(data@, i));
            }
        }
        let out = par_tabulate(
            data.len(),
            |i: usize| -> (m: u64)
                requires
                    data@.len() > i,
                    call_requires(f, (nth(data@, i),)),
                ensures
                    call_ensures(f, (nth(data@, i),), m)
                { f(data[i]) },
        );
        Series { data: out }
    }

    /// The series of what `op` makes of each value and `n`, place by place.
    pub(crate) fn with_scalar<F: Fn(u64, u64) -> u64 + Sync + Send>(&self, n: u64, op: &F) -> (r: Series)
        requires
            forall|a: u64, b: u64| call_requires(*op, (a, b)),
        ensures
            each_with(*op, self@, n, r@),
    {
        let data = &self.data;
        let entry_at = |i: usize| -> (m: u64)
            requires
                data@.len() > i,
                forall|a: u64, b: u64| call_requires(*op, (a, b)),
            ensures
                call_ensures(*op, (nth(data@, i), n), m)
            { op(data[i], n) };
        let out = par_tabulate(data.len(), entry_at);
        proof {
            assert forall|i: int| 0 <= i < self@.len() implies call_ensures(*op, (self@[i], n), #[trigger] out@[i]) by {
                let w = i as usize;
                assert(call_ensures(entry_at, (w,), out@[w as int]));
            }
        }
        Series { data: out }
    }

    /// Every value plus `n`: what `add` makes of each value and `n`.
    pub fn plus<F: Fn(u64, u64) -> u64 + Sync + Send>(&self, n: u64, add: &F) -> (r: Series)
        requires
            forall|a: u64, b: u64| call_requires(*add, (a, b)),
        ensures
            each_with(*add, self@, n, r@),
    {
        self.with_scalar(n, add)
    }

    /// Every value minus `n`: what `minus` makes of each value and `n`.
    pub fn sub<F: Fn(u64, u64) -> u64 + Sync + Send>(&self, n: u64, minus: &F) -> (r: Series)
        requires
            forall|a: u64, b: u64| call_requires(*minus, (a, b)),
        ensures
            each_with(*minus, self@, n, r@),
    {
        self.with_scalar(n, minus)
    }

    /// Every value times `n`: what `times` makes of each value and `n`.
    pub fn mult<F: Fn(u64, u64) -> u64 + Sync + Send>(&self, n: u64, times: &F) -> (r: Series)
        requires
            forall|a: u64, b: u64| call_requires(*times, (a, b)),
        ensures
            each_with(*times, self@, n, r@),
    {
        self.with_scalar(n, times)
    }

    /// Every value divided by `n`: what `over` makes of each value and `n`.
    pub fn div<F: Fn(u64, u64) -> u64 + Sync + Send>(&self, n: u64, over: &F) -> (r: Series)
        requires
            forall|a: u64, b: u64| call_requires(*over, (a, b)),
        ensures
            each_with(*over, self@, n, r@),
    {
        self.with_scalar(n, over)
    }

    /// The sum with `other`, place by place, or `DimensionMismatch` when the
    /// two differ in length.
    pub fn vadd<F: Fn(u64, u64) -> u64 + Sync + Send>(&self, other: &Series, add: &F) -> (r: Result<
        Series,
        FrameError,
    >)
        requires
            forall|a: u64, b: u64| call_requires(*add, (a, b)),
        ensures
            self@.len() != other@.len() ==> r == Err::<Series, FrameError>(FrameError::DimensionMismatch),
            self@.len() == other@.len() ==> r.is_ok() && each_pair(*add, self@, other@, r.unwrap()@),
    {
        self.pairwise(other, add)
    }

    /// The difference from `other`, place by place, or `DimensionMismatch`
    /// when the two differ in length.
    pub fn vsub<F: Fn(u64, u64) -> u64 + Sync + Send>(&self, other: &Series, minus: &F) -> (r: Result<
        Series,
        FrameError,
    >)
        requires
            forall|a: u64, b: u64| call_requires(*minus, (a, b)),
        ensures
            self@.len() != other@.len() ==> r == Err::<Series, FrameError>(FrameError::DimensionMismatch),
            self@.len() == other@.len() ==> r.is_ok() && each_pair(*minus, self@, other@, r.unwrap()@),
    {
        self.pairwise(other, minus)
    }

    /// The series of what `f` makes of the two values at each place of this
    /// series and `other`, or `DimensionMismatch` when the two differ in
    /// length.
    fn pairwise<F: Fn(u64, u64) -> u64 + Sync + Send>(&self, other: &Series, f: &F) -> (r: Result<
        Series,
        FrameError,
    >)
        requires
            forall|a: u64, b: u64| call_requires(*f, (a, b)),
        ensures
            self@.len() != other@.len() ==> r == Err::<Series, FrameError>(FrameError::DimensionMismatch),
            self@.len() == other@.len() ==> r.is_ok() && each_pair(*f, self@, other@, r.unwrap()@),
    {
        if self.data.len() != other.data.len() {
            return Err(FrameError::DimensionMismatch);
        }
        let left = &self.data;
        let right = &other.data;
        let entry_at = |i: usize| -> (m: u64)
            requires
                left@.len() > i,
                right@.len() > i,
                forall|a: u64, b: u64| call_requires(*f, (a, b)),
            ensures
                call_ensures(*f, (nth(left@, i), nth(right@, i)), m)
            { f(left[i], right[i]) };
        let out = par_tabulate(left.len(), entry_at);
        proof {
            assert forall|i: int| 0 <= i < self@.len() implies call_ensures(
                *f,
                (self@[i], other@[i]),
                #[trigger] out@[i],
            ) by {
                let w = i as usize;
                assert(call_ensures(entry_at, (w,), out@[w as int]));
            }
        }
        Ok(Series { data: out })
    }

    /// The series of what `f` makes of the two values at each place of this
    /// series and `other`, or `DimensionMismatch` when the two differ in
    /// length.
    pub fn combine<F: Fn(u64, u64) -> u64 + Sync + Send>(&self, other: &Series, f: F) -> (r: Result<
        Series,
        FrameError,
    >)
        requires
            forall|a: u64, b: u64| call_requires(f, (a, b)),
        ensures
            self@.len() != other@.len() ==> r == Err::<Series, FrameError>(FrameError::DimensionMismatch),
            self@.len() == other@.len() ==> r.is_ok() && each_pair(f, self@, other@, r.unwrap()@),
    {
        self.pairwise(other, &f)
    }

    /// The values from position `start` up to, not including, position `end`,
    /// where `end` is first lowered to the size of the series. A `start`
    /// beyond that gives `IndexOutOfRange`.
    pub fn slice(&self, start: usize, end: usize) -> (r: Result<Series, FrameError>)
        ensures
            ({
                let stop = if end <= self@.len() {
                    end as int
                } else {
                    self@.len() as int
                };
                &&& start > stop ==> r == Err::<Series, FrameError>(FrameError::IndexOutOfRange)
                &&& start <= stop ==> r.is_ok() && r.unwrap()@ == self@.subrange(start as int, stop)
            }),
    {
        let stop = if end <= self.data.len() {
            end
        } else {
            self.data.len()
        };
        if start > stop {
            return Err(FrameError::IndexOutOfRange);
        }
        let mut out: Vec<u64> = Vec::new();
        let mut k: usize = start;
        while k < stop
            invariant
                start <= k <= stop <= self.data@.len(),
                out@ == self.data@.subrange(start as int, k as int),
            decreases stop - k,
        {
            out.push(self.data[k]);
            proof {
                assert(self.data@.subrange(start as int, k as int).push(self.data@[k as int])
                    =~= self.data@.subrange(start as int, k + 1));
            }
            k += 1;
        }
        Ok(Series { data: out })
    }

    /// The values of this series followed by those of `other`.
    pub fn concat(self, other: Series) -> (r: Series)
        ensures
            r@ == self@ + other@,
    {
        let mut data = self.data;
        let mut tail = other.data;
        data.append(&mut tail);
        Series { data }
    }

    /// Tells whether this series and `other` are equal as vectors of numbers.
    pub fn equals(&self, other: &Series) -> (r: bool)
        ensures
            r == numerically_equal(self@, other@),
    {
        let n = self.data.len();
        if n != other.data.len() {
            return false;
        }
        let mut i: usize = 0;
        while i < n
            invariant
                n == self.data@.len(),
                n == other.data@.len(),
                i <= n,
                forall|j: int| 0 <= j < i ==> eq(#[trigger] self.data@[j], other.data@[j]),
            decreases n - i,
        {
            if !same(self.data[i], other.data[i]) {
                return false;
            }
            i += 1;
        }
        true
    }

    /// Tells whether this series and `other` agree cell by cell, a missing
    /// value agreeing with a missing value at the same place.
    pub fn same_cells(&self, other: &Series) -> (r: bool)
        ensures
            r == cells_agree(self@, other@),
    {
        let n = self.data.len();
        if n != other.data.len() {
            return false;
        }
        let mut i: usize = 0;
        while i < n
            invariant
                n == self.data@.len(),
                n == other.data@.len(),
                i <= n,
                forall|j: int| 0 <= j < i ==> same_cell(#[trigger] self.data@[j], other.data@[j]),
            decreases n - i,
        {
            let a = self.data[i];
            let b = other.data[i];
            if !((is_nan(a) && is_nan(b)) || same(a, b)) {
                return false;
            }
            i += 1;
        }
        true
    }

    /// The values written out and joined by `token`. A missing value is
    /// written `NaN`; a present one as `render` writes it.
    pub fn join<F: Fn(u64) -> String + Sync + Send>(&self, token: &str, render: &F) -> (r: String)
        requires
            forall|b: u64| call_requires(*render, (b,)),
        ensures
            is_joined(*render, self@, token@, r@),
    {
        let data = &self.data;
        let texts = par_tabulate(
            data.len(),
            |i: usize| -> (t: String)
                requires
                    data@.len() > i,
                    forall|b: u64| call_requires(*render, (b,)),
                ensures
                    is_written(*render, nth(data@, i), t@)
                {
                    if is_nan(data[i]) {
                        proof {
                            reveal_strlit("NaN");
                            assert("NaN"@ =~= nan_text());
                        }
                        String::from_str("NaN")
                    } else {
                        render(data[i])
                    }
                },
        );
        proof {
            let all = names(texts@);
            assert forall|i: int| 0 <= i < self@.len() implies is_written(*render, self@[i], #[trigger] all[i]) by {
                let w = i as usize;
                assert(self@[i] == nth(data@, w));
                assert(is_written(*render, nth(data@, w), texts@[w as int]@));
            }
            assert(all_written(*render, self@, all));
        }
        join_texts(&texts, token)
    }

    /// A series of the one value `b`.
    fn single(b: u64) -> (r: Series)
        ensures
            r@ == seq![b],
    {
        let mut out: Vec<u64> = Vec::new();
        out.push(b);
        proof {
            assert(out@ =~= seq![b]);
        }
        Series { data: out }
    }

    /// The sum of the present values, as a series of one value: zero where
    /// none is present.
    pub fn sum<A: Fn(u64, u64) -> u64 + Sync + Send>(&self, add: &A) -> (r: Series)
        requires
            forall|a: u64, b: u64| call_requires(*add, (a, b)),
        ensures
            is_sum_of(*add, r@, self@),
    {
        let valid = self.dropna();
        Self::single(reduce_by(&valid.data, ZERO, add))
    }

    /// The product of the present values, as a series of one value: one
    /// where none is present.
    pub fn prod<M: Fn(u64, u64) -> u64 + Sync + Send>(&self, times: &M) -> (r: Series)
        requires
            forall|a: u64, b: u64| call_requires(*times, (a, b)),
        ensures
            is_prod_of(*times, r@, self@),
    {
        let valid = self.dropna();
        Self::single(reduce_by(&valid.data, ONE, times))
    }

    /// The mean of values of which there is at least one.
    fn mean_value<A: Fn(u64, u64) -> u64 + Sync + Send, D: Fn(u64, usize) -> u64>(
        v: &Vec<u64>,
        add: &A,
        divide: &D,
    ) -> (m: u64)
        requires
            v@.len() > 0,
            forall|a: u64, b: u64| call_requires(*add, (a, b)),
            forall|a: u64, n: usize| call_requires(*divide, (a, n)),
        ensures
            is_mean_value(*add, *divide, v@, m),
    {
        let total = reduce_by(v, ZERO, add);
        divide(total, v.len())
    }

    /// The mean of the present values, as a series of one value: their sum
    /// divided by their number. Where no value is present nothing is
    /// divided, and the result is the series without any value.
    pub fn mean<A: Fn(u64, u64) -> u64 + Sync + Send, D: Fn(u64, usize) -> u64>(
        &self,
        add: &A,
        divide: &D,
    ) -> (r: Series)
        requires
            forall|a: u64, b: u64| call_requires(*add, (a, b)),
            forall|a: u64, n: usize| call_requires(*divide, (a, n)),
        ensures
            is_mean_of(*add, *divide, r@, self@),
    {
        let valid = self.dropna();
        if valid.data.len() == 0 {
            return Series::zero();
        }
        Self::single(Self::mean_value(&valid.data, add, divide))
    }

    /// The sample variance of values of which there is at least one.
    fn var_value<
        A: Fn(u64, u64) -> u64 + Sync + Send,
        D: Fn(u64, usize) -> u64,
        Q: Fn(u64, u64) -> u64 + Sync + Send,
    >(v: &Vec<u64>, add: &A, divide: &D, spread: &Q) -> (x: u64)
        requires
            v@.len() > 0,
            forall|a: u64, b: u64| call_requires(*add, (a, b)),
            forall|a: u64, n: usize| call_requires(*divide, (a, n)),
            forall|a: u64, b: u64| call_requires(*spread, (a, b)),
        ensures
            is_var_value(*add, *divide, *spread, v@, x),
    {
        let mean = Self::mean_value(v, add, divide);
        let dev_at = |i: usize| -> (d: u64)
            requires
                v@.len() > i,
                forall|a: u64, b: u64| call_requires(*spread, (a, b)),
            ensures
                call_ensures(*spread, (nth(v@, i), mean), d)
            { spread(v[i], mean) };
        let devs = par_tabulate(v.len(), dev_at);
        proof {
            assert forall|i: int| 0 <= i < v@.len() implies call_ensures(
                *spread,
                (v@[i], mean),
                #[trigger] devs@[i],
            ) by {
                let w = i as usize;
                assert(call_ensures(dev_at, (w,), devs@[w as int]));
            }
            assert(each_with(*spread, v@, mean, devs@));
        }
        let total = reduce_by(&devs, ZERO, add);
        divide(total, v.len() - 1)
    }

    /// The sample variance of the present values, as a series of one value:
    /// the sum of their squared distances from their mean, divided by their
    /// number less one. The series without any value where none is present.
    pub fn var<
        A: Fn(u64, u64) -> u64 + Sync + Send,
        D: Fn(u64, usize) -> u64,
        Q: Fn(u64, u64) -> u64 + Sync + Send,
    >(&self, add: &A, divide: &D, spread: &Q) -> (r: Series)
        requires
            forall|a: u64, b: u64| call_requires(*add, (a, b)),
            forall|a: u64, n: usize| call_requires(*divide, (a, n)),
            forall|a: u64, b: u64| call_requires(*spread, (a, b)),
        ensures
            is_var_of(*add, *divide, *spread, r@, self@),
    {
        let valid = self.dropna();
        if valid.data.len() == 0 {
            return Series::zero();
        }
        Self::single(Self::var_value(&valid.data, add, divide, spread))
    }

    /// The standard deviation of the present values, as a series of one
    /// value: the root of their variance. The series without any value where
    /// none is present.
    pub fn std_dev<
        A: Fn(u64, u64) -> u64 + Sync + Send,
        D: Fn(u64, usize) -> u64,
        Q: Fn(u64, u64) -> u64 + Sync + Send,
        R: Fn(u64) -> u64,
    >(&self, add: &A, divide: &D, spread: &Q, root: &R) -> (r: Series)
        requires
            forall|a: u64, b: u64| call_requires(*add, (a, b)),
            forall|a: u64, n: usize| call_requires(*divide, (a, n)),
            forall|a: u64, b: u64| call_requires(*spread, (a, b)),
            forall|a: u64| call_requires(*root, (a,)),
        ensures
            is_std_of(*add, *divide, *spread, *root, r@, self@),
    {
        let valid = self.dropna();
        if valid.data.len() == 0 {
            return Series::zero();
        }
        let variance = Self::var_value(&valid.data, add, divide, spread);
        Self::single(root(variance))
    }

    /// The cumulative sum: at each place the sum of the values up to and
    /// including that place. Missing values are not left out.
    pub fn cumsum<A: Fn(u64, u64) -> u64 + Sync + Send>(&self, add: &A) -> (r: Series)
        requires
            forall|a: u64, b: u64| call_requires(*add, (a, b)),
        ensures
            is_cumsum_of(*add, r@, self@),
    {
        let n = self.data.len();
        let (pfs, total) = scan_by(&self.data, ZERO, add);
        let mut out: Vec<u64> = Vec::new();
        let mut i: usize = 1;
        while i < n
            invariant
                n == self.data@.len(),
                pfs@.len() == n,
                1 <= i,
                i <= n || i == 1,
                out@.len() == i - 1,
                forall|j: int| 0 <= j < i - 1 ==> #[trigger] out@[j] == pfs@[j + 1],
            decreases n - i,
        {
            out.push(pfs[i]);
            i += 1;
        }
        let ghost body = out@;
        if n > 0 {
            out.push(total);
        }
        proof {
            assert(out@.len() == n);
            assert forall|j: int| 0 <= j < n implies combines(
                *add,
                ZERO,
                self.data@.take(j + 1),
                #[trigger] out@[j],
            ) by {
                if j + 1 < n {
                    assert(out@[j] == body[j]);
                    assert(body[j] == pfs@[j + 1]);
                    assert(combines(*add, ZERO, self.data@.take(j + 1), pfs@[j + 1]));
                } else {
                    assert(out@[j] == total);
                    assert(self.data@.take(n as int) =~= self.data@);
                }
            }
        }
        Series { data: out }
    }

    /// The Euclidean norm, as a series of one value: the root of the sum of
    /// the squares of the values.
    pub fn norm<A: Fn(u64, u64) -> u64 + Sync + Send, S: Fn(u64) -> u64 + Sync + Send, R: Fn(u64) -> u64>(
        &self,
        add: &A,
        square: &S,
        root: &R,
    ) -> (r: Series)
        requires
            forall|a: u64, b: u64| call_requires(*add, (a, b)),
            forall|a: u64| call_requires(*square, (a,)),
            forall|a: u64| call_requires(*root, (a,)),
        ensures
            is_norm_of(*add, *square, *root, r@, self@),
    {
        let data = &self.data;
        let square_at = |i: usize| -> (q: u64)
            requires
                data@.len() > i,
                forall|a: u64| call_requires(*square, (a,)),
            ensures
                call_ensures(*square, (nth(data@, i),), q)
            { square(data[i]) };
        let squares = par_tabulate(data.len(), square_at);
        proof {
            assert forall|i: int| 0 <= i < self@.len() implies call_ensures(
                *square,
                (self@[i],),
                #[trigger] squares@[i],
            ) by {
                let w = i as usize;
                assert(call_ensures(square_at, (w,), squares@[w as int]));
            }
            assert(each_of(*square, self@, squares@));
        }
        let total = reduce_by(&squares, ZERO, add);
        Self::single(root(total))
    }

    /// The dot product with `other`, as a series of one value: the sum of the
    /// products of the values at each place; or `DimensionMismatch` when the
    /// two differ in length.
    pub fn dot<M: Fn(u64, u64) -> u64 + Sync + Send, A: Fn(u64, u64) -> u64 + Sync + Send>(
        &self,
        other: &Series,
        times: &M,
        add: &A,
    ) -> (r: Result<Series, FrameError>)
        requires
            forall|a: u64, b: u64| call_requires(*times, (a, b)),
            forall|a: u64, b: u64| call_requires(*add, (a, b)),
        ensures
            self@.len() != other@.len() ==> r == Err::<Series, FrameError>(FrameError::DimensionMismatch),
            self@.len() == other@.len() ==> r.is_ok() && is_dot_of(*times, *add, r.unwrap()@, self@, other@),
    {
        if self.data.len() != other.data.len() {
            return Err(FrameError::DimensionMismatch);
        }
        let left = &self.data;
        let right = &other.data;
        let product_at = |i: usize| -> (p: u64)
            requires
                left@.len() > i,
                right@.len() > i,
                forall|a: u64, b: u64| call_requires(*times, (a, b)),
            ensures
                call_ensures(*times, (nth(left@, i), nth(right@, i)), p)
            { times(left[i], right[i]) };
        let products = par_tabulate(left.len(), product_at);
        proof {
            assert forall|i: int| 0 <= i < self@.len() implies call_ensures(
                *times,
                (self@[i], other@[i]),
                #[trigger] products@[i],
            ) by {
                let w = i as usize;
                assert(call_ensures(product_at, (w,), products@[w as int]));
            }
            assert(each_pair(*times, self@, other@, products@));
        }
        let total = reduce_by(&products, ZERO, add);
        Ok(Self::single(total))
    }

    /// The present values in ascending order. Values that compare equal (the
    /// two zeros) keep the order they have in the series.
    pub fn sort(&self) -> (r: Series)
        ensures
            r@ == ascending(self@.filter(present())),
    {
        let mut sorted = self.dropna().data;
        let ghost before = sorted@;
        par_sort(&mut sorted);
        proof {
            lemma_sorted_form_is_ascending(sorted@, before);
        }
        Series { data: sorted }
    }
}

} // verus!
