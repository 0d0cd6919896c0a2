//! Reductions by an operation that the caller supplies.
//!
//! The library holds values as bit patterns and leaves the arithmetic on
//! them to its caller, who hands in the addition, the multiplication and so
//! on as functions on patterns. Such an operation need not be associative
//! (rounded addition is not), so a reduction is specified up to the way it is
//! bracketed: its result is the value of some expression that combines the
//! elements in their order.

use rayon::iter::{IntoParallelRefIterator, ParallelIterator};
use vstd::prelude::*;
use crate::dispatch::{par_tabulate, select, Strategy};

verus! {

/// The shape of an expression that combines the elements of a sequence in
/// their order.
pub enum Bracketing {
    /// The unit of the operation, standing for no element.
    Unit,
    /// One element.
    Leaf,
    /// The operation applied to two expressions, the left one over the
    /// elements in front.
    Node(Box<Bracketing>, Box<Bracketing>),
}

impl Bracketing {
    /// The number of elements that the expression combines.
    pub open spec fn width(self) -> nat
        decreases self,
    {
        match self {
            Bracketing::Unit => 0,
            Bracketing::Leaf => 1,
            Bracketing::Node(l, r) => l.width() + r.width(),
        }
    }
}

/// `r` is a value of the expression of shape `t` over the elements `s`, where
/// `op` is the operation and `unit` its unit.
pub open spec fn evaluates<F: Fn(u64, u64) -> u64>(op: F, unit: u64, t: Bracketing, s: Seq<u64>, r: u64) -> bool
    decreases t,
{
    match t {
        Bracketing::Unit => s.len() == 0 && r == unit,
        Bracketing::Leaf => s.len() == 1 && r == s[0],
        Bracketing::Node(l, m) => l.width() <= s.len() && exists|a: u64, b: u64|
            #![trigger call_ensures(op, (a, b), r)]
            evaluates(op, unit, *l, s.take(l.width() as int), a) && evaluates(
                op,
                unit,
                *m,
                s.skip(l.width() as int),
                b,
            ) && call_ensures(op, (a, b), r),
    }
}

impl Bracketing {
    /// The unit does not occur in the expression.
    pub open spec fn unit_free(self) -> bool
        decreases self,
    {
        match self {
            Bracketing::Unit => false,
            Bracketing::Leaf => true,
            Bracketing::Node(l, r) => l.unit_free() && r.unit_free(),
        }
    }
}

/// `r` combines the elements of `s` by `op` alone: it is the value of some
/// expression over them, in their order, in which no unit occurs. There is
/// such a value only where `s` has an element.
pub open spec fn combines_strictly<F: Fn(u64, u64) -> u64>(op: F, s: Seq<u64>, r: u64) -> bool {
    exists|t: Bracketing| t.unit_free() && evaluates(op, 0, t, s, r)
}

/// `r` combines the elements of `s` by `op`: it is the value of some
/// expression over them, in their order, in which the unit may occur.
pub open spec fn combines<F: Fn(u64, u64) -> u64>(op: F, unit: u64, s: Seq<u64>, r: u64) -> bool {
    exists|t: Bracketing| evaluates(op, unit, t, s, r)
}

/// An expression combines as many elements as it is wide.
pub proof fn lemma_width<F: Fn(u64, u64) -> u64>(op: F, unit: u64, t: Bracketing, s: Seq<u64>, r: u64)
    requires
        evaluates(op, unit, t, s, r),
    ensures
        t.width() == s.len(),
    decreases t,
{
    match t {
        Bracketing::Node(l, m) => {
            let (a, b) = choose|a: u64, b: u64|
                #![trigger call_ensures(op, (a, b), r)]
                evaluates(op, unit, *l, s.take(l.width() as int), a) && evaluates(
                    op,
                    unit,
                    *m,
                    s.skip(l.width() as int),
                    b,
                ) && call_ensures(op, (a, b), r);
            lemma_width(op, unit, *l, s.take(l.width() as int), a);
            lemma_width(op, unit, *m, s.skip(l.width() as int), b);
        },
        _ => {},
    }
}

/// The unit combines no elements.
pub proof fn lemma_combines_none<F: Fn(u64, u64) -> u64>(op: F, unit: u64)
    ensures
        combines(op, unit, Seq::<u64>::empty(), unit),
{
    assert(evaluates(op, unit, Bracketing::Unit, Seq::<u64>::empty(), unit));
}

/// An element combines itself.
pub proof fn lemma_combines_one<F: Fn(u64, u64) -> u64>(op: F, unit: u64, x: u64)
    ensures
        combines(op, unit, seq![x], x),
{
    assert(evaluates(op, unit, Bracketing::Leaf, seq![x], x));
}

/// What `op` makes of two combinations combines the elements of both.
pub proof fn lemma_combines_both<F: Fn(u64, u64) -> u64>(
    op: F,
    unit: u64,
    s1: Seq<u64>,
    a: u64,
    s2: Seq<u64>,
    b: u64,
    r: u64,
)
    requires
        combines(op, unit, s1, a),
        combines(op, unit, s2, b),
        call_ensures(op, (a, b), r),
    ensures
        combines(op, unit, s1 + s2, r),
{
    let t1 = choose|t: Bracketing| evaluates(op, unit, t, s1, a);
    let t2 = choose|t: Bracketing| evaluates(op, unit, t, s2, b);
    lemma_width(op, unit, t1, s1, a);
    let t = Bracketing::Node(Box::new(t1), Box::new(t2));
    assert((s1 + s2).take(t1.width() as int) =~= s1);
    assert((s1 + s2).skip(t1.width() as int) =~= s2);
    assert(evaluates(op, unit, t, s1 + s2, r));
}

/// What `op` makes of a combination and one more element combines the
/// elements with that one behind them.
pub proof fn lemma_combines_next<F: Fn(u64, u64) -> u64>(op: F, unit: u64, s: Seq<u64>, a: u64, x: u64, r: u64)
    requires
        combines(op, unit, s, a),
        call_ensures(op, (a, x), r),
    ensures
        combines(op, unit, s.push(x), r),
{
    lemma_combines_one(op, unit, x);
    lemma_combines_both(op, unit, s, a, seq![x], x, r);
    assert(s + seq![x] =~= s.push(x));
}

/// `pairs` holds what `op` makes of the adjacent pairs of `xs`.
pub open spec fn pairs_up<F: Fn(u64, u64) -> u64>(op: F, pairs: Seq<u64>, xs: Seq<u64>) -> bool {
    &&& xs.len() == 2 * pairs.len()
    &&& forall|i: int| 0 <= i < pairs.len() ==> call_ensures(op, (xs[2 * i], xs[2 * i + 1]), #[trigger] pairs[i])
}

/// The expression in which every element is replaced by a pair.
pub open spec fn doubled(t: Bracketing) -> Bracketing
    decreases t,
{
    match t {
        Bracketing::Unit => Bracketing::Unit,
        Bracketing::Leaf => Bracketing::Node(Box::new(Bracketing::Leaf), Box::new(Bracketing::Leaf)),
        Bracketing::Node(l, m) => Bracketing::Node(Box::new(doubled(*l)), Box::new(doubled(*m))),
    }
}

/// Doubling an expression doubles its width.
proof fn lemma_doubled_width(t: Bracketing)
    ensures
        doubled(t).width() == 2 * t.width(),
    decreases t,
{
    match t {
        Bracketing::Node(l, m) => {
            lemma_doubled_width(*l);
            lemma_doubled_width(*m);
        },
        _ => {},
    }
}

/// A value of an expression over pairs is a value of the doubled expression
/// over the elements that were paired.
proof fn lemma_doubled<F: Fn(u64, u64) -> u64>(op: F, unit: u64, t: Bracketing, pairs: Seq<u64>, xs: Seq<u64>, r: u64)
    requires
        pairs_up(op, pairs, xs),
        evaluates(op, unit, t, pairs, r),
    ensures
        evaluates(op, unit, doubled(t), xs, r),
    decreases t,
{
    match t {
        Bracketing::Unit => {},
        Bracketing::Leaf => {
            assert(xs.take(1) =~= seq![xs[0]]);
            assert(xs.skip(1) =~= seq![xs[1]]);
            assert(evaluates(op, unit, Bracketing::Leaf, xs.take(1), xs[0]));
            assert(evaluates(op, unit, Bracketing::Leaf, xs.skip(1), xs[1]));
            assert(call_ensures(op, (xs[0], xs[1]), pairs[0]));
        },
        Bracketing::Node(l, m) => {
            let w = l.width() as int;
            let (a, b) = choose|a: u64, b: u64|
                #![trigger call_ensures(op, (a, b), r)]
                evaluates(op, unit, *l, pairs.take(w), a) && evaluates(op, unit, *m, pairs.skip(w), b)
                    && call_ensures(op, (a, b), r);
            lemma_doubled_width(*l);
            assert(pairs_up(op, pairs.take(w), xs.take(2 * w))) by {
                assert forall|i: int| 0 <= i < pairs.take(w).len() implies call_ensures(
                    op,
                    (xs.take(2 * w)[2 * i], xs.take(2 * w)[2 * i + 1]),
                    #[trigger] pairs.take(w)[i],
                ) by {
                    assert(call_ensures(op, (xs[2 * i], xs[2 * i + 1]), pairs[i]));
                }
            }
            assert(pairs_up(op, pairs.skip(w), xs.skip(2 * w))) by {
                assert forall|i: int| 0 <= i < pairs.skip(w).len() implies call_ensures(
                    op,
                    (xs.skip(2 * w)[2 * i], xs.skip(2 * w)[2 * i + 1]),
                    #[trigger] pairs.skip(w)[i],
                ) by {
                    assert(call_ensures(op, (xs[2 * (i + w)], xs[2 * (i + w) + 1]), pairs[i + w]));
                }
            }
            lemma_doubled(op, unit, *l, pairs.take(w), xs.take(2 * w), a);
            lemma_doubled(op, unit, *m, pairs.skip(w), xs.skip(2 * w), b);
        },
    }
}

/// What combines the first `k` pairs combines the first `2 k` elements.
pub proof fn lemma_combines_pairs<F: Fn(u64, u64) -> u64>(
    op: F,
    unit: u64,
    pairs: Seq<u64>,
    xs: Seq<u64>,
    k: int,
    r: u64,
)
    requires
        pairs.len() == xs.len() / 2,
        forall|i: int| 0 <= i < pairs.len() ==> call_ensures(op, (xs[2 * i], xs[2 * i + 1]), #[trigger] pairs[i]),
        0 <= k <= pairs.len(),
        combines(op, unit, pairs.take(k), r),
    ensures
        combines(op, unit, xs.take(2 * k), r),
{
    let t = choose|t: Bracketing| evaluates(op, unit, t, pairs.take(k), r);
    assert(pairs_up(op, pairs.take(k), xs.take(2 * k))) by {
        assert forall|i: int| 0 <= i < pairs.take(k).len() implies call_ensures(
            op,
            (xs.take(2 * k)[2 * i], xs.take(2 * k)[2 * i + 1]),
            #[trigger] pairs.take(k)[i],
        ) by {
            assert(call_ensures(op, (xs[2 * i], xs[2 * i + 1]), pairs[i]));
        }
    }
    lemma_doubled(op, unit, t, pairs.take(k), xs.take(2 * k), r);
}

/// `rayon`'s `reduce` with `unit` as the identity: the result combines the
/// elements in their order. How the combination is bracketed, and where the
/// identity enters it, is left to the scheduler.
#[verifier::external_body]
pub(crate) fn par_reduce<F: Fn(u64, u64) -> u64 + Sync + Send>(v: &Vec<u64>, unit: u64, op: &F) -> (r: u64)
    requires
        forall|a: u64, b: u64| call_requires(*op, (a, b)),
    ensures
        combines(*op, unit, v@, r),
{
    v.par_iter().copied().reduce(|| unit, |a, b| op(a, b))
}

/// `rayon`'s `reduce_with`: nothing for an empty vector, else a value that
/// combines the elements in their order by `op` alone. How the combination is
/// bracketed is left to the scheduler.
#[verifier::external_body]
pub(crate) fn par_reduce_with<F: Fn(u64, u64) -> u64 + Sync + Send>(v: &Vec<u64>, op: &F) -> (r: Option<u64>)
    requires
        forall|a: u64, b: u64| call_requires(*op, (a, b)),
    ensures
        match r {
            Some(m) => combines_strictly(*op, v@, m),
            None => v@.len() == 0,
        },
{
    v.par_iter().copied().reduce_with(|a, b| op(a, b))
}

/// Combines the elements of `v` by `op`: from left to right, starting with
/// the unit, where they are few, and in parallel where they are many.
pub fn reduce_by<F: Fn(u64, u64) -> u64 + Sync + Send>(v: &Vec<u64>, unit: u64, op: &F) -> (r: u64)
    requires
        forall|a: u64, b: u64| call_requires(*op, (a, b)),
    ensures
        combines(*op, unit, v@, r),
{
    match select(v.len()) {
        Strategy::Sequential => {
            let n = v.len();
            let mut acc = unit;
            let mut i: usize = 0;
            proof {
                lemma_combines_none(*op, unit);
                assert(v@.take(0) =~= Seq::<u64>::empty());
            }
            while i < n
                invariant
                    n == v@.len(),
                    i <= n,
                    forall|a: u64, b: u64| call_requires(*op, (a, b)),
                    combines(*op, unit, v@.take(i as int), acc),
                decreases n - i,
            {
                let next = op(acc, v[i]);
                proof {
                    lemma_combines_next(*op, unit, v@.take(i as int), acc, v@[i as int], next);
                    assert(v@.take(i as int).push(v@[i as int]) =~= v@.take(i + 1));
                }
                acc = next;
                i += 1;
            }
            proof {
                assert(v@.take(n as int) =~= v@);
            }
            acc
        },
        Strategy::Parallel => par_reduce(v, unit, op),
    }
}

/// The length below which prefix combinations are computed by one pass.
pub const PREFIX_CUTOFF: usize = 512;

/// The exclusive prefix combinations of `xs` by `op`, and the combination of
/// all of `xs`: entry `i` of the first combines the elements before position
/// `i`.
///
/// This is the work-efficient scan, as [`crate::scan::prefix_sum`] is for
/// integers: a short input is handled in one pass from left to right; a
/// longer one is halved by combining adjacent pairs, scanned, and expanded
/// again.
pub fn scan_by<F: Fn(u64, u64) -> u64 + Sync + Send>(xs: &Vec<u64>, unit: u64, op: &F) -> (r: (Vec<u64>, u64))
    requires
        forall|a: u64, b: u64| call_requires(*op, (a, b)),
    ensures
        r.0@.len() == xs@.len(),
        forall|i: int| 0 <= i < xs@.len() ==> combines(*op, unit, xs@.take(i), #[trigger] r.0@[i]),
        combines(*op, unit, xs@, r.1),
    decreases xs@.len(),
{
    let n = xs.len();
    if n < PREFIX_CUTOFF {
        let mut pfs: Vec<u64> = Vec::new();
        let mut acc = unit;
        let mut i: usize = 0;
        proof {
            lemma_combines_none(*op, unit);
            assert(xs@.take(0) =~= Seq::<u64>::empty());
        }
        while i < n
            invariant
                n == xs@.len(),
                i <= n,
                forall|a: u64, b: u64| call_requires(*op, (a, b)),
                combines(*op, unit, xs@.take(i as int), acc),
                pfs@.len() == i,
                forall|j: int| 0 <= j < i ==> combines(*op, unit, xs@.take(j), #[trigger] pfs@[j]),
            decreases n - i,
        {
            pfs.push(acc);
            let next = op(acc, xs[i]);
            proof {
                lemma_combines_next(*op, unit, xs@.take(i as int), acc, xs@[i as int], next);
                assert(xs@.take(i as int).push(xs@[i as int]) =~= xs@.take(i + 1));
            }
            acc = next;
            i += 1;
        }
        proof {
            assert(xs@.take(n as int) =~= xs@);
        }
        return (pfs, acc);
    }
    let half = n / 2;
    let pair_at = |i: usize| -> (s: u64)
        requires
            2 * i + 1 < xs@.len(),
            forall|a: u64, b: u64| call_requires(*op, (a, b)),
        ensures
            call_ensures(*op, (xs@[2 * i], xs@[2 * i + 1]), s)
        { op(xs[2 * i], xs[2 * i + 1]) };
    let pairs = par_tabulate(half, pair_at);
    proof {
        assert forall|i: int| 0 <= i < pairs@.len() implies call_ensures(
            *op,
            (xs@[2 * i], xs@[2 * i + 1]),
            #[trigger] pairs@[i],
        ) by {
            let w = i as usize;
            assert(call_ensures(pair_at, (w,), pairs@[w as int]));
        }
    }
    let (c_prefix, c_sum) = scan_by(&pairs, unit, op);
    proof {
        assert forall|k: int| 0 <= k < half implies combines(
            *op,
            unit,
            xs@.take(2 * k),
            #[trigger] c_prefix@[k],
        ) by {
            lemma_combines_pairs(*op, unit, pairs@, xs@, k, c_prefix@[k]);
        }
        assert(pairs@.take(half as int) =~= pairs@);
        lemma_combines_pairs(*op, unit, pairs@, xs@, half as int, c_sum);
    }
    let entry_at = |k: usize| -> (s: u64)
        requires
            0 < xs@.len() - k,
            k / 2 < c_prefix@.len(),
            forall|a: u64, b: u64| call_requires(*op, (a, b)),
        ensures
            k % 2 == 0 ==> s == c_prefix@[(k / 2) as int],
            k % 2 == 1 ==> call_ensures(*op, (c_prefix@[(k / 2) as int], xs@[k - 1]), s)
        {
            if k % 2 == 0 {
                c_prefix[k / 2]
            } else {
                op(c_prefix[k / 2], xs[k - 1])
            }
        };
    let mut pfs = par_tabulate(2 * half, entry_at);
    proof {
        assert forall|i: int| 0 <= i < 2 * half implies combines(*op, unit, xs@.take(i), #[trigger] pfs@[i]) by {
            let k = i as usize;
            assert(call_ensures(entry_at, (k,), pfs@[k as int]));
            assert(combines(*op, unit, xs@.take(2 * (i / 2)), c_prefix@[i / 2]));
            if i % 2 == 1 {
                lemma_combines_next(*op, unit, xs@.take(i - 1), c_prefix@[i / 2], xs@[i - 1], pfs@[i]);
                assert(xs@.take(i - 1).push(xs@[i - 1]) =~= xs@.take(i));
            }
        }
    }
    let mut total = c_sum;
    if n % 2 == 1 {
        pfs.push(total);
        let last = op(total, xs[n - 1]);
        proof {
            lemma_combines_next(*op, unit, xs@.take(n - 1), total, xs@[n - 1], last);
            assert(xs@.take(n - 1).push(xs@[n - 1]) =~= xs@);
        }
        total = last;
    } else {
        proof {
            assert(xs@.take(2 * half) =~= xs@);
        }
    }
    (pfs, total)
}

} // verus!
