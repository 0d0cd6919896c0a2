//! Ascending order of bit patterns, and the stable sort that establishes it.

use std::cmp::Ordering;
use rayon::slice::ParallelSliceMut;
use vstd::prelude::*;
use crate::bits::{has_rank, rank, rank_lt};
use crate::fold::{evaluates, par_reduce_with, Bracketing};

verus! {

/// No element is followed by one of lower rank.
pub open spec fn is_ascending(s: Seq<u64>) -> bool {
    forall|i: int, j: int| 0 <= i < j < s.len() ==> rank(s[i]) <= rank(s[j])
}

/// For every rank, the elements of that rank are the same in `t` and in `s`,
/// and stand in the same order. So `t` holds what `s` holds, and elements
/// that compare equal have kept their places relative to each other.
pub open spec fn same_rank_order(t: Seq<u64>, s: Seq<u64>) -> bool {
    forall|k: int| #[trigger] t.filter(has_rank(k)) == s.filter(has_rank(k))
}

/// `t` is `s` sorted ascending by a stable sort.
pub open spec fn is_sorted_form(t: Seq<u64>, s: Seq<u64>) -> bool {
    &&& t.len() == s.len()
    &&& is_ascending(t)
    &&& same_rank_order(t, s)
}

/// The elements of `s` in ascending order, equal ones in the order they have
/// in `s`. By [`lemma_sorted_form_unique`] this is the only sorted form of `s`.
pub open spec fn ascending(s: Seq<u64>) -> Seq<u64> {
    choose|t: Seq<u64>| is_sorted_form(t, s)
}

/// Some element of a non-empty filter result stands in the filtered sequence
/// and meets the predicate.
proof fn lemma_filter_witness(s: Seq<u64>, k: int) -> (j: int)
    requires
        s.filter(has_rank(k)).len() > 0,
    ensures
        0 <= j < s.len(),
        rank(s[j]) == k,
{
    let f = s.filter(has_rank(k));
    s.lemma_filter_pred(has_rank(k), 0);
    assert(f.contains(f[0]));
    s.lemma_filter_contains_rev(has_rank(k), f[0]);
    let j = choose|j: int| 0 <= j < s.len() && s[j] == f[0];
    j
}

/// Two ascending sequences of one length that agree, rank by rank, on their
/// elements and the order of these are the same sequence.
pub proof fn lemma_ascending_unique(t1: Seq<u64>, t2: Seq<u64>)
    requires
        t1.len() == t2.len(),
        is_ascending(t1),
        is_ascending(t2),
        same_rank_order(t1, t2),
    ensures
        t1 == t2,
    decreases t1.len(),
{
    if t1.len() == 0 {
        assert(t1 =~= t2);
    } else {
        let a = t1.last();
        let b = t2.last();
        let ka = rank(a);
        let kb = rank(b);
        let n = t1.len() as int;
        // The last element of each sequence also occurs, by rank, in the other.
        t1.lemma_filter_contains(has_rank(ka), n - 1);
        assert(t1.filter(has_rank(ka)) == t2.filter(has_rank(ka)));
        let j2 = lemma_filter_witness(t2, ka);
        t2.lemma_filter_contains(has_rank(kb), n - 1);
        assert(t1.filter(has_rank(kb)) == t2.filter(has_rank(kb)));
        let j1 = lemma_filter_witness(t1, kb);
        assert(ka == kb);
        let r1 = t1.drop_last();
        let r2 = t2.drop_last();
        assert(t1 =~= r1.push(a));
        assert(t2 =~= r2.push(b));
        assert forall|k: int| #[trigger] r1.filter(has_rank(k)) == r2.filter(has_rank(k)) by {
            r1.lemma_filter_push(a, has_rank(k));
            r2.lemma_filter_push(b, has_rank(k));
            assert(t1.filter(has_rank(k)) == t2.filter(has_rank(k)));
            if k == ka {
                let f1 = r1.filter(has_rank(k));
                let f2 = r2.filter(has_rank(k));
                assert(f1.push(a) == f2.push(b));
                assert(f1 =~= f1.push(a).drop_last());
                assert(f2 =~= f2.push(b).drop_last());
            }
        }
        assert(t1.filter(has_rank(ka)) == t2.filter(has_rank(ka)));
        r1.lemma_filter_push(a, has_rank(ka));
        r2.lemma_filter_push(b, has_rank(ka));
        assert(r1.filter(has_rank(ka)).push(a).last() == a);
        assert(r2.filter(has_rank(ka)).push(b).last() == b);
        assert(a == b);
        lemma_ascending_unique(r1, r2);
    }
}

/// A sequence has at most one sorted form.
pub proof fn lemma_sorted_form_unique(t1: Seq<u64>, t2: Seq<u64>, s: Seq<u64>)
    requires
        is_sorted_form(t1, s),
        is_sorted_form(t2, s),
    ensures
        t1 == t2,
{
    assert forall|k: int| #[trigger] t1.filter(has_rank(k)) == t2.filter(has_rank(k)) by {
        assert(t1.filter(has_rank(k)) == s.filter(has_rank(k)));
        assert(t2.filter(has_rank(k)) == s.filter(has_rank(k)));
    }
    lemma_ascending_unique(t1, t2);
}

/// Whatever is a sorted form of `s` is [`ascending`]`(s)`.
pub proof fn lemma_sorted_form_is_ascending(t: Seq<u64>, s: Seq<u64>)
    requires
        is_sorted_form(t, s),
    ensures
        t == ascending(s),
{
    lemma_sorted_form_unique(t, ascending(s), s);
}

/// An ascending sequence is its own sorted form.
pub proof fn lemma_ascending_fixed(s: Seq<u64>)
    requires
        is_ascending(s),
    ensures
        ascending(s) == s,
{
    assert(is_sorted_form(s, s));
    lemma_sorted_form_is_ascending(s, s);
}

/// The number of leading elements of `t` whose rank is at most `r`, where `t`
/// is ascending: the length of `t` without its trailing elements of higher
/// rank.
pub open spec fn upper(t: Seq<u64>, r: int) -> int
    decreases t.len(),
{
    if t.len() == 0 {
        0
    } else if rank(t.last()) <= r {
        t.len() as int
    } else {
        upper(t.drop_last(), r)
    }
}

/// In an ascending sequence the elements of rank at most `r` stand in front
/// of position [`upper`], and those of higher rank from there on.
pub proof fn lemma_upper(t: Seq<u64>, r: int)
    requires
        is_ascending(t),
    ensures
        0 <= upper(t, r) <= t.len(),
        forall|i: int| 0 <= i < upper(t, r) ==> rank(#[trigger] t[i]) <= r,
        forall|i: int| upper(t, r) <= i < t.len() ==> rank(#[trigger] t[i]) > r,
    decreases t.len(),
{
    if t.len() > 0 && rank(t.last()) > r {
        let front = t.drop_last();
        assert(is_ascending(front)) by {
            assert forall|i: int, j: int| 0 <= i < j < front.len() implies rank(front[i]) <= rank(front[j]) by {
                assert(rank(t[i]) <= rank(t[j]));
            }
        }
        lemma_upper(front, r);
        assert forall|i: int| 0 <= i < upper(t, r) implies rank(#[trigger] t[i]) <= r by {
            assert(rank(front[i]) <= r);
        }
        assert forall|i: int| upper(t, r) <= i < t.len() implies rank(#[trigger] t[i]) > r by {
            if i < front.len() {
                assert(rank(front[i]) > r);
            }
        }
    } else if t.len() > 0 {
        assert forall|i: int| 0 <= i < upper(t, r) implies rank(#[trigger] t[i]) <= r by {
            if i < t.len() - 1 {
                assert(rank(t[i]) <= rank(t[t.len() - 1]));
            }
        }
    }
}

/// A sequence of which every element meets a predicate is left whole by the
/// filter for it.
pub proof fn lemma_filter_all(s: Seq<u64>, pred: spec_fn(u64) -> bool)
    requires
        forall|i: int| 0 <= i < s.len() ==> pred(#[trigger] s[i]),
    ensures
        s.filter(pred) == s,
    decreases s.len(),
{
    reveal(Seq::filter);
    if s.len() > 0 {
        lemma_filter_all(s.drop_last(), pred);
        assert(s.drop_last().push(s.last()) =~= s);
    }
}

/// A sequence of which no element meets a predicate is emptied by the filter
/// for it.
pub proof fn lemma_filter_none(s: Seq<u64>, pred: spec_fn(u64) -> bool)
    requires
        forall|i: int| 0 <= i < s.len() ==> !pred(#[trigger] s[i]),
    ensures
        s.filter(pred) == Seq::<u64>::empty(),
    decreases s.len(),
{
    reveal(Seq::filter);
    if s.len() > 0 {
        lemma_filter_none(s.drop_last(), pred);
    }
}

/// Every sequence has a sorted form: the elements can be put in ascending
/// order without changing the order of those that compare equal.
pub proof fn lemma_sorted_form_exists(s: Seq<u64>) -> (t: Seq<u64>)
    ensures
        is_sorted_form(t, s),
    decreases s.len(),
{
    if s.len() == 0 {
        assert forall|k: int| #[trigger] s.filter(has_rank(k)) == s.filter(has_rank(k)) by {}
        s
    } else {
        let x = s.last();
        let front = s.drop_last();
        let base = lemma_sorted_form_exists(front);
        let p = upper(base, rank(x));
        lemma_upper(base, rank(x));
        let left = base.take(p);
        let right = base.skip(p);
        let t = left.push(x) + right;
        assert(left + right =~= base);
        assert(s =~= front.push(x));
        assert(is_ascending(t)) by {
            assert forall|i: int, j: int| 0 <= i < j < t.len() implies rank(t[i]) <= rank(t[j]) by {
                if j < p {
                    assert(rank(base[i]) <= rank(base[j]));
                } else if j == p {
                    assert(rank(base[i]) <= rank(x));
                } else if i < p {
                    assert(rank(base[i]) <= rank(x));
                    assert(rank(base[j - 1]) > rank(x));
                } else if i == p {
                    assert(rank(base[j - 1]) > rank(x));
                } else {
                    assert(rank(base[i - 1]) <= rank(base[j - 1]));
                }
            }
        }
        assert forall|k: int| #[trigger] t.filter(has_rank(k)) == s.filter(has_rank(k)) by {
            let pred = has_rank(k);
            assert(base.filter(pred) == front.filter(pred));
            front.lemma_filter_push(x, pred);
            Seq::filter_distributes_over_add(left, right, pred);
            Seq::filter_distributes_over_add(left.push(x), right, pred);
            left.lemma_filter_push(x, pred);
            if k == rank(x) {
                assert forall|i: int| 0 <= i < right.len() implies !pred(#[trigger] right[i]) by {
                    assert(rank(base[p + i]) > rank(x));
                }
                lemma_filter_none(right, pred);
                assert(left.filter(pred) + right.filter(pred) =~= left.filter(pred));
                assert(left.filter(pred).push(x) + right.filter(pred) =~= left.filter(pred).push(x));
            } else {
                assert(!pred(x));
            }
        }
        t
    }
}

/// [`ascending`] is a sorted form: it is ascending, and it holds the elements
/// of the sequence, equal ones in the order they have there.
pub proof fn lemma_ascending_sorts(s: Seq<u64>)
    ensures
        is_sorted_form(ascending(s), s),
{
    let t = lemma_sorted_form_exists(s);
}

/// Position `i` holds the lowest rank of `s`, and no later position does.
pub open spec fn is_lowest_at(s: Seq<u64>, i: int) -> bool {
    &&& 0 <= i < s.len()
    &&& forall|j: int| 0 <= j < s.len() ==> rank(s[i]) <= rank(#[trigger] s[j])
    &&& forall|j: int| i < j < s.len() ==> rank(s[i]) < rank(#[trigger] s[j])
}

/// Position `i` holds the highest rank of `s`, and no later position does.
pub open spec fn is_highest_at(s: Seq<u64>, i: int) -> bool {
    &&& 0 <= i < s.len()
    &&& forall|j: int| 0 <= j < s.len() ==> rank(s[i]) >= rank(#[trigger] s[j])
    &&& forall|j: int| i < j < s.len() ==> rank(s[i]) > rank(#[trigger] s[j])
}

/// What [`lower`] returns: the first argument only where it is strictly
/// lower.
pub open spec fn lower_of(a: u64, b: u64) -> u64 {
    if rank(a) < rank(b) {
        a
    } else {
        b
    }
}

/// What [`higher`] returns: the first argument only where it is strictly
/// higher.
pub open spec fn higher_of(a: u64, b: u64) -> u64 {
    if rank(a) > rank(b) {
        a
    } else {
        b
    }
}

/// The lower of two patterns; of two that compare equal, the second.
pub fn lower(a: u64, b: u64) -> (m: u64)
    ensures
        m == lower_of(a, b),
{
    if rank_lt(a, b) {
        a
    } else {
        b
    }
}

/// The higher of two patterns; of two that compare equal, the second.
pub fn higher(a: u64, b: u64) -> (m: u64)
    ensures
        m == higher_of(a, b),
{
    if rank_lt(b, a) {
        a
    } else {
        b
    }
}

/// Taking the lower, or the higher, of two patterns is associative: a
/// reduction by either gives one result however it is bracketed.
pub proof fn lemma_selection_associative(a: u64, b: u64, c: u64)
    ensures
        lower_of(lower_of(a, b), c) == lower_of(a, lower_of(b, c)),
        higher_of(higher_of(a, b), c) == higher_of(a, higher_of(b, c)),
{
}

/// Orders two patterns by rank.
pub fn compare(a: u64, b: u64) -> (o: Ordering)
    ensures
        o == Ordering::Less <==> rank(a) < rank(b),
        o == Ordering::Greater <==> rank(a) > rank(b),
        o == Ordering::Equal <==> rank(a) == rank(b),
{
    if rank_lt(a, b) {
        Ordering::Less
    } else if rank_lt(b, a) {
        Ordering::Greater
    } else {
        Ordering::Equal
    }
}

/// `rayon`'s `par_sort_by` with [`compare`] as the comparator: a stable sort,
/// so afterwards the vector is ascending, and for each rank it holds the
/// elements that it held before, in the order they had.
#[verifier::external_body]
pub(crate) fn par_sort(v: &mut Vec<u64>)
    ensures
        is_sorted_form(final(v)@, old(v)@),
{
    v.par_sort_by(|a, b| compare(*a, *b));
}

/// Whatever combines elements by taking the lower of two is the element of
/// lowest rank, the last of them where several share that rank: so it is
/// however the combination is bracketed.
pub proof fn lemma_lowest_of_bracketing<F: Fn(u64, u64) -> u64>(op: F, t: Bracketing, s: Seq<u64>, m: u64) -> (i: int)
    requires
        forall|a: u64, b: u64, c: u64| call_ensures(op, (a, b), c) ==> c == lower_of(a, b),
        t.unit_free(),
        evaluates(op, 0, t, s, m),
    ensures
        is_lowest_at(s, i),
        m == s[i],
    decreases t,
{
    match t {
        Bracketing::Unit => 0,
        Bracketing::Leaf => 0,
        Bracketing::Node(l, r) => {
            let w = l.width() as int;
            let (a, b) = choose|a: u64, b: u64|
                #![trigger call_ensures(op, (a, b), m)]
                evaluates(op, 0, *l, s.take(w), a) && evaluates(op, 0, *r, s.skip(w), b) && call_ensures(
                    op,
                    (a, b),
                    m,
                );
            let i1 = lemma_lowest_of_bracketing(op, *l, s.take(w), a);
            let i2 = lemma_lowest_of_bracketing(op, *r, s.skip(w), b);
            assert(m == lower_of(a, b));
            let i = if rank(a) < rank(b) {
                i1
            } else {
                w + i2
            };
            assert forall|j: int| 0 <= j < s.len() implies rank(s[i]) <= rank(#[trigger] s[j]) by {
                if j < w {
                    assert(rank(a) <= rank(s.take(w)[j]));
                } else {
                    assert(rank(b) <= rank(s.skip(w)[j - w]));
                }
            }
            assert forall|j: int| i < j < s.len() implies rank(s[i]) < rank(#[trigger] s[j]) by {
                if j < w {
                    assert(rank(a) < rank(s.take(w)[j]));
                } else if rank(a) < rank(b) {
                    assert(rank(b) <= rank(s.skip(w)[j - w]));
                } else {
                    assert(rank(b) < rank(s.skip(w)[j - w]));
                }
            }
            i
        },
    }
}

/// Whatever combines elements by taking the higher of two is the element of
/// highest rank, the last of them where several share that rank.
pub proof fn lemma_highest_of_bracketing<F: Fn(u64, u64) -> u64>(op: F, t: Bracketing, s: Seq<u64>, m: u64) -> (i: int)
    requires
        forall|a: u64, b: u64, c: u64| call_ensures(op, (a, b), c) ==> c == higher_of(a, b),
        t.unit_free(),
        evaluates(op, 0, t, s, m),
    ensures
        is_highest_at(s, i),
        m == s[i],
    decreases t,
{
    match t {
        Bracketing::Unit => 0,
        Bracketing::Leaf => 0,
        Bracketing::Node(l, r) => {
            let w = l.width() as int;
            let (a, b) = choose|a: u64, b: u64|
                #![trigger call_ensures(op, (a, b), m)]
                evaluates(op, 0, *l, s.take(w), a) && evaluates(op, 0, *r, s.skip(w), b) && call_ensures(
                    op,
                    (a, b),
                    m,
                );
            let i1 = lemma_highest_of_bracketing(op, *l, s.take(w), a);
            let i2 = lemma_highest_of_bracketing(op, *r, s.skip(w), b);
            assert(m == higher_of(a, b));
            let i = if rank(a) > rank(b) {
                i1
            } else {
                w + i2
            };
            assert forall|j: int| 0 <= j < s.len() implies rank(s[i]) >= rank(#[trigger] s[j]) by {
                if j < w {
                    assert(rank(a) >= rank(s.take(w)[j]));
                } else {
                    assert(rank(b) >= rank(s.skip(w)[j - w]));
                }
            }
            assert forall|j: int| i < j < s.len() implies rank(s[i]) > rank(#[trigger] s[j]) by {
                if j < w {
                    assert(rank(a) > rank(s.take(w)[j]));
                } else if rank(a) > rank(b) {
                    assert(rank(b) >= rank(s.skip(w)[j - w]));
                } else {
                    assert(rank(b) > rank(s.skip(w)[j - w]));
                }
            }
            i
        },
    }
}

/// The element of lowest rank, the last of them where several share that
/// rank, found by a parallel reduction; nothing for an empty vector.
pub(crate) fn par_lowest(v: &Vec<u64>) -> (r: Option<u64>)
    ensures
        match r {
            Some(m) => exists|i: int| is_lowest_at(v@, i) && m == v@[i],
            None => v@.len() == 0,
        },
{
    let pick = |a: u64, b: u64| -> (m: u64)
        ensures
            m == lower_of(a, b)
        { lower(a, b) };
    let r = par_reduce_with(v, &pick);
    proof {
        if let Some(m) = r {
            let t = choose|t: Bracketing| t.unit_free() && evaluates(pick, 0, t, v@, m);
            let i = lemma_lowest_of_bracketing(pick, t, v@, m);
        }
    }
    r
}

/// The element of highest rank, the last of them where several share that
/// rank, found by a parallel reduction; nothing for an empty vector.
pub(crate) fn par_highest(v: &Vec<u64>) -> (r: Option<u64>)
    ensures
        match r {
            Some(m) => exists|i: int| is_highest_at(v@, i) && m == v@[i],
            None => v@.len() == 0,
        },
{
    let pick = |a: u64, b: u64| -> (m: u64)
        ensures
            m == higher_of(a, b)
        { higher(a, b) };
    let r = par_reduce_with(v, &pick);
    proof {
        if let Some(m) = r {
            let t = choose|t: Bracketing| t.unit_free() && evaluates(pick, 0, t, v@, m);
            let i = lemma_highest_of_bracketing(pick, t, v@, m);
        }
    }
    r
}

} // verus!
