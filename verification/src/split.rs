//! Splitting a string at a delimiter, by way of the predicate partition.

use vstd::prelude::*;
use vstd::string::StrSliceExecFns;
use crate::dispatch::{nth, par_tabulate};
use crate::partition::{kept, par_filter};
use crate::text::{free_of, joined};

verus! {

/// The pieces of `s` between the occurrences of `d`: one more piece than `s`
/// has occurrences, none of which holds a `d`. Read from left to right, a
/// `d` opens a new, empty piece, and any other character joins the piece that
/// is open.
pub open spec fn split_on(s: Seq<char>, d: char) -> Seq<Seq<char>>
    decreases s.len(),
{
    if s.len() == 0 {
        seq![Seq::<char>::empty()]
    } else if s.last() == d {
        split_on(s.drop_last(), d).push(Seq::<char>::empty())
    } else {
        let before = split_on(s.drop_last(), d);
        before.drop_last().push(before.last().push(s.last()))
    }
}

/// The positions just behind each occurrence of `d` in `s`, ascending.
pub open spec fn cut_points(s: Seq<char>, d: char) -> Seq<int>
    decreases s.len(),
{
    if s.len() == 0 {
        Seq::<int>::empty()
    } else if s.last() == d {
        cut_points(s.drop_last(), d).push(s.len() as int)
    } else {
        cut_points(s.drop_last(), d)
    }
}

/// Where piece `j` of a string with the given cut points begins.
pub open spec fn piece_start(cuts: Seq<int>, j: int) -> int {
    if j == 0 {
        0
    } else {
        cuts[j - 1]
    }
}

/// Where piece `j` of a string of length `len` with the given cut points
/// ends: just before the delimiter that closes it, or at the end.
pub open spec fn piece_end(cuts: Seq<int>, len: int, j: int) -> int {
    if j < cuts.len() {
        cuts[j] - 1
    } else {
        len
    }
}

/// The characters of `s`, each with its position.
pub open spec fn enumerated(s: Seq<char>) -> Seq<(usize, char)> {
    Seq::new(s.len(), |i: int| (i as usize, s[i]))
}

/// For each position of `s`, whether it holds `d`.
pub open spec fn hits(s: Seq<char>, d: char) -> Seq<bool> {
    Seq::new(s.len(), |i: int| s[i] == d)
}

/// Cut points lie within the string and rise strictly.
proof fn lemma_cut_points_bounds(s: Seq<char>, d: char)
    ensures
        cut_points(s, d).len() <= s.len(),
        forall|j: int| 0 <= j < cut_points(s, d).len() ==> 0 < #[trigger] cut_points(s, d)[j] <= s.len(),
        forall|i: int, j: int|
            0 <= i < j < cut_points(s, d).len() ==> cut_points(s, d)[i] < cut_points(s, d)[j],
    decreases s.len(),
{
    if s.len() > 0 {
        lemma_cut_points_bounds(s.drop_last(), d);
    }
}

/// The pieces of a string are its stretches between the cut points.
proof fn lemma_pieces(s: Seq<char>, d: char)
    ensures
        split_on(s, d).len() == cut_points(s, d).len() + 1,
        forall|j: int|
            0 <= j <= cut_points(s, d).len() ==> #[trigger] split_on(s, d)[j] == s.subrange(
                piece_start(cut_points(s, d), j),
                piece_end(cut_points(s, d), s.len() as int, j),
            ),
    decreases s.len(),
{
    let cuts = cut_points(s, d);
    let pieces = split_on(s, d);
    let n = s.len() as int;
    lemma_cut_points_bounds(s, d);
    if s.len() == 0 {
        assert(pieces[0] =~= s.subrange(0, 0));
    } else {
        let rest = s.drop_last();
        let rcuts = cut_points(rest, d);
        let rpieces = split_on(rest, d);
        lemma_pieces(rest, d);
        lemma_cut_points_bounds(rest, d);
        assert forall|j: int| 0 <= j <= cuts.len() implies #[trigger] pieces[j] == s.subrange(
            piece_start(cuts, j),
            piece_end(cuts, n, j),
        ) by {
            if s.last() == d {
                if j < rcuts.len() {
                    assert(pieces[j] == rpieces[j]);
                    assert(rest.subrange(piece_start(rcuts, j), piece_end(rcuts, n - 1, j)) =~= s.subrange(
                        piece_start(cuts, j),
                        piece_end(cuts, n, j),
                    ));
                } else if j == rcuts.len() {
                    assert(pieces[j] == rpieces[j]);
                    assert(rest.subrange(piece_start(rcuts, j), piece_end(rcuts, n - 1, j)) =~= s.subrange(
                        piece_start(cuts, j),
                        piece_end(cuts, n, j),
                    ));
                } else {
                    assert(pieces[j] =~= s.subrange(n, n));
                }
            } else {
                if j < rcuts.len() {
                    assert(pieces[j] == rpieces[j]);
                    assert(rest.subrange(piece_start(rcuts, j), piece_end(rcuts, n - 1, j)) =~= s.subrange(
                        piece_start(cuts, j),
                        piece_end(cuts, n, j),
                    ));
                } else {
                    assert(pieces[j] == rpieces[j].push(s.last()));
                    assert(rest.subrange(piece_start(rcuts, j), n - 1).push(s.last()) =~= s.subrange(
                        piece_start(cuts, j),
                        n,
                    ));
                }
            }
        }
    }
}

/// No piece is longer than the string.
pub proof fn lemma_piece_len(s: Seq<char>, d: char, j: int)
    requires
        0 <= j < split_on(s, d).len(),
    ensures
        split_on(s, d)[j].len() <= s.len(),
{
    lemma_pieces(s, d);
    lemma_cut_points_bounds(s, d);
}

/// There is always at least one piece.
pub proof fn lemma_split_nonempty(s: Seq<char>, d: char)
    ensures
        split_on(s, d).len() >= 1,
    decreases s.len(),
{
    if s.len() > 0 {
        lemma_split_nonempty(s.drop_last(), d);
    }
}

/// Characters other than the delimiter, put behind a string, lengthen its
/// last piece.
pub proof fn lemma_split_append(x: Seq<char>, y: Seq<char>, d: char)
    requires
        free_of(y, d),
    ensures
        split_on(x + y, d) == split_on(x, d).drop_last().push(split_on(x, d).last() + y),
    decreases y.len(),
{
    let q = split_on(x, d);
    lemma_split_nonempty(x, d);
    if y.len() == 0 {
        assert(x + y =~= x);
        assert(q.last() + y =~= q.last());
        assert(q.drop_last().push(q.last()) =~= q);
    } else {
        let rest = y.drop_last();
        let c = y.last();
        assert(free_of(rest, d)) by {
            assert forall|i: int| 0 <= i < rest.len() implies #[trigger] rest[i] != d by {
                assert(y[i] != d);
            }
        }
        lemma_split_append(x, rest, d);
        assert((x + y).drop_last() =~= x + rest);
        assert((x + y).last() == c);
        assert(y[y.len() - 1] != d);
        let p = split_on(x + rest, d);
        assert(p.drop_last() =~= q.drop_last());
        assert((q.last() + rest).push(c) =~= q.last() + y);
    }
}

/// The pieces of a string, joined by the delimiter, give the string back.
pub proof fn lemma_join_split(s: Seq<char>, d: char)
    ensures
        joined(split_on(s, d), seq![d]) == s,
    decreases s.len(),
{
    if s.len() == 0 {
        assert(joined(seq![Seq::<char>::empty()], seq![d]) =~= s);
    } else {
        let front = s.drop_last();
        let p = split_on(front, d);
        lemma_join_split(front, d);
        lemma_split_nonempty(front, d);
        if s.last() == d {
            let q = p.push(Seq::<char>::empty());
            assert(q.drop_last() =~= p);
            assert(joined(q, seq![d]) =~= front + seq![d]);
            assert(front + seq![d] =~= s);
        } else {
            let q = p.drop_last().push(p.last().push(s.last()));
            if p.len() == 1 {
                assert(joined(p, seq![d]) == p[0]);
                assert(joined(q, seq![d]) =~= front.push(s.last()));
            } else {
                assert(q.drop_last() =~= p.drop_last());
                assert(joined(q, seq![d]) =~= joined(p.drop_last(), seq![d]) + seq![d] + p.last().push(s.last()));
                assert(joined(p, seq![d]) =~= joined(p.drop_last(), seq![d]) + seq![d] + p.last());
                assert(joined(q, seq![d]) =~= front.push(s.last()));
            }
            assert(front.push(s.last()) =~= s);
        }
    }
}

/// No piece of a string holds the delimiter.
pub proof fn lemma_pieces_free(s: Seq<char>, d: char)
    ensures
        forall|j: int| 0 <= j < split_on(s, d).len() ==> free_of(#[trigger] split_on(s, d)[j], d),
    decreases s.len(),
{
    if s.len() > 0 {
        lemma_pieces_free(s.drop_last(), d);
        lemma_split_nonempty(s.drop_last(), d);
        let p = split_on(s.drop_last(), d);
        assert forall|j: int| 0 <= j < split_on(s, d).len() implies free_of(#[trigger] split_on(s, d)[j], d) by {
            if j < p.len() - 1 {
                assert(free_of(p[j], d));
            } else if s.last() != d {
                assert(free_of(p[p.len() - 1], d));
            } else if j == p.len() - 1 {
                assert(free_of(p[j], d));
            }
        }
    }
}

/// A string without the delimiter is its own single piece.
pub proof fn lemma_split_free(s: Seq<char>, d: char)
    requires
        free_of(s, d),
    ensures
        split_on(s, d) == seq![s],
{
    let e = Seq::<char>::empty();
    lemma_split_append(e, s, d);
    assert(e + s =~= s);
    assert(split_on(e, d) == seq![e]);
    assert(seq![e].drop_last().push(seq![e].last() + s) =~= seq![s]);
}

/// The partition of the enumerated characters by "is the delimiter" yields
/// the cut points.
proof fn lemma_kept_cut_points(s: Seq<char>, d: char)
    requires
        s.len() < usize::MAX,
    ensures
        kept(enumerated(s), hits(s, d)).len() == cut_points(s, d).len(),
        forall|k: int|
            0 <= k < cut_points(s, d).len() ==> (#[trigger] kept(enumerated(s), hits(s, d))[k]).0 + 1
                == cut_points(s, d)[k],
    decreases s.len(),
{
    if s.len() > 0 {
        lemma_kept_cut_points(s.drop_last(), d);
        assert(enumerated(s).drop_last() =~= enumerated(s.drop_last()));
        assert(hits(s, d).drop_last() =~= hits(s.drop_last(), d));
    }
}

/// The characters of `s`, each with its position.
pub fn enumerate_chars(s: &str) -> (v: Vec<(usize, char)>)
    ensures
        v@ == enumerated(s@),
{
    let mut out: Vec<(usize, char)> = Vec::new();
    for c in it: s.chars()
        invariant
            it.seq() == s@,
            out@.len() == it.index(),
            forall|j: int| 0 <= j < out@.len() ==> #[trigger] out@[j] == (j as usize, s@[j]),
    {
        let at = out.len();
        out.push((at, c));
    }
    proof {
        assert(out@ =~= enumerated(s@));
    }
    out
}

/// The pieces of `st_buf` between the occurrences of `split_char`.
///
/// The occurrences are located by [`par_filter`] over the enumerated
/// characters. With a zero in front and the length plus one behind, the
/// positions it returns bound the pieces: each piece runs from one bound up
/// to the character before the next bound's predecessor.
pub fn par_split<'a>(st_buf: &'a str, split_char: char) -> (r: Vec<&'a str>)
    requires
        st_buf@.len() < i32::MAX,
    ensures
        r@.len() == split_on(st_buf@, split_char).len(),
        forall|j: int| 0 <= j < r@.len() ==> (#[trigger] r@[j])@ == split_on(st_buf@, split_char)[j],
        forall|j: int| 0 <= j < r@.len() ==> free_of((#[trigger] r@[j])@, split_char),
        joined(Seq::new(r@.len(), |j: int| r@[j]@), seq![split_char]) == st_buf@,
{
    proof {
        lemma_join_split(st_buf@, split_char);
        lemma_pieces_free(st_buf@, split_char);
    }
    let enumed = enumerate_chars(st_buf);
    let len = enumed.len();
    let ghost s = st_buf@;
    let ghost cuts = cut_points(s, split_char);
    let found = par_filter(
        enumed,
        |elt: (usize, char)| -> (b: bool)
            ensures
                b == (elt.1 == split_char)
            { elt.1 == split_char },
    );
    proof {
        let verdict = choose|verdict: Seq<bool>|
            {
                &&& verdict.len() == enumerated(s).len()
                &&& forall|i: int|
                    0 <= i < enumerated(s).len() ==> #[trigger] verdict[i] == (enumerated(s)[i].1 == split_char)
                &&& found@.len() == kept(enumerated(s), verdict).len()
                &&& forall|k: int|
                    0 <= k < found@.len() ==> #[trigger] found@[k] == kept(enumerated(s), verdict)[k].0 + 1
            };
        assert(verdict.len() == s.len());
        assert(verdict =~= hits(s, split_char));
        lemma_kept_cut_points(s, split_char);
        lemma_cut_points_bounds(s, split_char);
        lemma_pieces(s, split_char);
    }
    let mut indices: Vec<usize> = Vec::new();
    indices.push(0);
    let mut k: usize = 0;
    while k < found.len()
        invariant
            k <= found@.len(),
            indices@.len() == k + 1,
            indices@[0] == 0,
            forall|j: int| 0 <= j < k ==> #[trigger] indices@[j + 1] == found@[j],
        decreases found@.len() - k,
    {
        indices.push(found[k]);
        k += 1;
    }
    indices.push(len + 1);
    let bounds = &indices;
    let ascii = st_buf.is_ascii();
    let piece_at = |w: usize| -> (piece: &'a str)
        requires
            w + 1 < bounds@.len(),
            nth(bounds@, w) <= nth(bounds@, (w + 1) as usize) - 1 <= st_buf@.len(),
            ascii ==> vstd::string::is_ascii(st_buf),
        ensures
            piece@ == st_buf@.subrange(nth(bounds@, w) as int, nth(bounds@, (w + 1) as usize) - 1)
        {
            if ascii {
                st_buf.substring_ascii(bounds[w], bounds[w + 1] - 1)
            } else {
                st_buf.substring_char(bounds[w], bounds[w + 1] - 1)
            }
        };
    proof {
        assert forall|w: usize| w < found@.len() + 1 implies call_requires(piece_at, (w,)) by {
            if w > 0 {
                assert(bounds@[(w - 1) + 1] == found@[w - 1]);
            }
            if w < found@.len() {
                assert(bounds@[w + 1] == found@[w as int]);
                assert(found@[w as int] == cuts[w as int]);
            }
            assert(w + 1 < bounds@.len());
            assert(nth(bounds@, w) == piece_start(cuts, w as int));
            assert(nth(bounds@, (w + 1) as usize) - 1 == piece_end(cuts, s.len() as int, w as int));
        }
    }
    let pieces = par_tabulate(found.len() + 1, piece_at);
    proof {
        assert forall|j: int| 0 <= j < pieces@.len() implies (#[trigger] pieces@[j])@ == split_on(
            s,
            split_char,
        )[j] by {
            let w = j as usize;
            assert(call_ensures(piece_at, (w,), pieces@[w as int]));
            if w > 0 {
                assert(bounds@[(w - 1) + 1] == found@[w - 1]);
            }
            if w < found@.len() {
                assert(bounds@[w + 1] == found@[w as int]);
            }
        }
        assert(Seq::new(pieces@.len(), |j: int| pieces@[j]@) =~= split_on(s, split_char));
    }
    pieces
}

} // verus!
