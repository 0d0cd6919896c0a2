//! What a table is, apart from how it is held in memory.

use vstd::prelude::*;
use crate::error::FrameError;
use crate::partition::{kept, lemma_kept_is_filter};
use crate::series::Series;
use crate::stats::{each_with, cells_agree, is_complete, is_cumsum_of, is_max_of, is_mean_of, is_median_of, is_min_of, is_mode_of, is_prod_of, is_std_of, is_sum_of, is_var_of, numerically_equal};
use crate::text::{decimal, names};

verus! {

/// What a table is: its column names and its columns. The rows are derived:
/// they are the transpose of the columns.
pub struct Table {
    pub header: Seq<Seq<char>>,
    pub columns: Seq<Seq<u64>>,
}

impl Table {
    /// The rows of the table.
    pub open spec fn rows(self) -> Seq<Seq<u64>> {
        transposed(self.columns)
    }

    /// The number of cells: rows times columns.
    pub open spec fn size(self) -> nat {
        self.rows().len() * self.columns.len()
    }

    /// The series along an axis: the columns for axis 0, the rows for any
    /// other.
    pub open spec fn along(self, axis: usize) -> Seq<Seq<u64>> {
        if axis == 0 {
            self.columns
        } else {
            self.rows()
        }
    }

    /// The header of a table that an operation along `axis` makes of the
    /// columns `cols`: this table's header for axis 0, the default names,
    /// one for each column, for any other.
    pub open spec fn header_along(self, axis: usize, cols: Seq<Seq<u64>>) -> Seq<Seq<char>> {
        if axis == 0 {
            self.header
        } else {
            default_header(cols.len())
        }
    }

    /// The table without what holds a missing value. Along axis 0 it keeps
    /// the columns that are complete, each with its name. Along any other
    /// axis it keeps the header and every column, and of each column the
    /// values at the positions of the rows that are complete.
    pub open spec fn without_missing(self, axis: usize) -> Table {
        if axis == 0 {
            let flags = complete_flags(self.columns);
            Table { header: kept(self.header, flags), columns: kept(self.columns, flags) }
        } else {
            Table {
                header: self.header,
                columns: columns_from(self.rows().filter(complete()), self.columns.len()),
            }
        }
    }
}

/// For each sequence of a list, whether it holds no missing value.
pub open spec fn complete_flags(list: Seq<Seq<u64>>) -> Seq<bool> {
    Seq::new(list.len(), |i: int| is_complete(list[i]))
}

/// The columns of a list of rows of the given width: column `j` holds the
/// value at position `j` of every row. Without a row, the columns are empty.
pub open spec fn columns_from(rows: Seq<Seq<u64>>, width: nat) -> Seq<Seq<u64>> {
    Seq::new(width, |j: int| Seq::new(rows.len(), |i: int| rows[i][j]))
}

/// The width of a list of rows: the length of the first, and zero where
/// there is none.
pub open spec fn row_width(rows: Seq<Seq<u64>>) -> nat {
    if rows.len() > 0 {
        rows[0].len()
    } else {
        0
    }
}

/// The rows of the columns made from rows of one width are those rows, where
/// the width is not zero.
pub proof fn lemma_columns_from_rows(rows: Seq<Seq<u64>>, width: nat)
    requires
        width > 0,
        forall|i: int| 0 <= i < rows.len() ==> (#[trigger] rows[i]).len() == width,
    ensures
        transposed(columns_from(rows, width)) == rows,
        rectangular(columns_from(rows, width)),
{
    let cols = columns_from(rows, width);
    let back = transposed(cols);
    assert(back.len() == rows.len());
    assert forall|i: int| 0 <= i < rows.len() implies #[trigger] back[i] == rows[i] by {
        assert(back[i].len() == width);
        assert(back[i] =~= rows[i]);
    }
    assert(back =~= rows);
}

/// Where there is a row, the columns made from the rows are their transpose.
pub proof fn lemma_columns_from_transposed(rows: Seq<Seq<u64>>)
    requires
        rows.len() > 0,
    ensures
        columns_from(rows, rows[0].len()) == transposed(rows),
{
    assert(columns_from(rows, rows[0].len()) =~= transposed(rows));
}

/// Along axis 0 the table without missing values holds the complete columns;
/// along any other axis its rows are the complete rows.
pub proof fn lemma_without_missing(t: Table, axis: usize)
    requires
        rectangular(t.columns),
    ensures
        axis == 0 ==> t.without_missing(axis).columns == t.columns.filter(complete()),
        axis != 0 ==> t.without_missing(axis).rows() == t.rows().filter(complete()),
        axis != 0 ==> t.without_missing(axis).columns.len() == t.columns.len(),
        rectangular(t.without_missing(axis).columns),
{
    if axis == 0 {
        lemma_kept_is_filter(t.columns, complete_flags(t.columns), complete());
        lemma_filter_rectangular(t.columns, complete());
    } else {
        let rows = t.rows();
        let keep = rows.filter(complete());
        let width = t.columns.len();
        if width > 0 {
            assert forall|i: int| 0 <= i < keep.len() implies (#[trigger] keep[i]).len() == width by {
                assert(keep.contains(keep[i]));
                rows.lemma_filter_contains_rev(complete(), keep[i]);
                let a = choose|a: int| 0 <= a < rows.len() && rows[a] == keep[i];
                assert(rows[a].len() == width);
            }
            lemma_columns_from_rows(keep, width);
        } else {
            assert(rows.len() == 0);
            reveal(Seq::filter);
            assert(keep.len() == 0);
            assert(transposed(columns_from(keep, width)) =~= keep);
        }
    }
}

/// The values of each series of a list.
pub open spec fn views(list: Seq<Series>) -> Seq<Seq<u64>> {
    Seq::new(list.len(), |i: int| list[i]@)
}

/// No column is shorter than the first: every row that the first column
/// calls for can be filled.
pub open spec fn fits(cols: Seq<Seq<u64>>) -> bool {
    forall|j: int| 0 <= j < cols.len() ==> (#[trigger] cols[j]).len() >= cols[0].len()
}

/// All columns have one length.
pub open spec fn rectangular(cols: Seq<Seq<u64>>) -> bool {
    forall|j: int| 0 <= j < cols.len() ==> (#[trigger] cols[j]).len() == cols[0].len()
}

/// The transpose of a list of columns: as many rows as the first column has
/// values, row `i` holding the value at position `i` of every column. No
/// columns give no rows.
pub open spec fn transposed(cols: Seq<Seq<u64>>) -> Seq<Seq<u64>> {
    if cols.len() == 0 {
        Seq::empty()
    } else {
        Seq::new(cols[0].len(), |i: int| Seq::new(cols.len(), |j: int| cols[j][i]))
    }
}

/// Transposing twice gives back a rectangular list of columns that has at
/// least one column and at least one row.
pub proof fn lemma_transpose_involution(cols: Seq<Seq<u64>>)
    requires
        cols.len() > 0,
        cols[0].len() > 0,
        rectangular(cols),
    ensures
        transposed(transposed(cols)) == cols,
{
    let rows = transposed(cols);
    assert(rows.len() > 0);
    assert(rows[0].len() == cols.len());
    let back = transposed(rows);
    assert(back.len() == cols.len());
    assert forall|j: int| 0 <= j < cols.len() implies #[trigger] back[j] == cols[j] by {
        assert(back[j].len() == rows.len());
        assert(cols[j].len() == cols[0].len());
        assert forall|i: int| 0 <= i < cols[j].len() implies back[j][i] == cols[j][i] by {
            assert(rows[i][j] == cols[j][i]);
        }
        assert(back[j] =~= cols[j]);
    }
    assert(back =~= cols);
}

/// The rows of columns of which none is shorter than the first have one
/// length.
pub proof fn lemma_transpose_rectangular(cols: Seq<Seq<u64>>)
    requires
        fits(cols),
    ensures
        rectangular(transposed(cols)),
        fits(transposed(cols)),
{
}

/// The column names that a table gets when none are given: the positions
/// `0`, `1`, … written in decimal.
pub open spec fn default_header(len: nat) -> Seq<Seq<char>> {
    Seq::new(len, |i: int| decimal(i as nat))
}

/// What putting columns and a header together gives: a table where the
/// columns have one length and the header has one name for each column;
/// `IndexOutOfRange` where some column is shorter than the first; and
/// `DimensionMismatch` where none is shorter but some is longer, or where the
/// names are not as many as the columns.
pub open spec fn assembled(cols: Seq<Seq<u64>>, header: Seq<Seq<char>>) -> Result<Table, FrameError> {
    if !fits(cols) {
        Err(FrameError::IndexOutOfRange)
    } else if !rectangular(cols) {
        Err(FrameError::DimensionMismatch)
    } else if header.len() != cols.len() {
        Err(FrameError::DimensionMismatch)
    } else {
        Ok(Table { header, columns: cols })
    }
}

/// The names given for a header, if any are.
pub open spec fn given_names(given: Option<Vec<String>>) -> Option<Seq<Seq<char>>> {
    match given {
        Some(h) => Some(names(h@)),
        None => None,
    }
}

/// The header of a new table: the names given, or else the default names,
/// one for each column.
pub open spec fn header_for(given: Option<Vec<String>>, cols: Seq<Seq<u64>>) -> Seq<Seq<char>> {
    match given {
        Some(h) => names(h@),
        None => default_header(cols.len()),
    }
}

/// What putting rows and a header together gives. Rows of one length make a
/// table whose columns hold the values of the rows: under the names given,
/// as many columns as there are names; without names, as many as the rows
/// are wide, under the default names. Where some row is shorter than the
/// first this is `IndexOutOfRange`; where none is shorter but some is
/// longer, or where the rows are not as wide as the names are many,
/// `DimensionMismatch`.
pub open spec fn rows_table(rows: Seq<Seq<u64>>, given: Option<Seq<Seq<char>>>) -> Result<Table, FrameError> {
    if !fits(rows) {
        Err(FrameError::IndexOutOfRange)
    } else if !rectangular(rows) {
        Err(FrameError::DimensionMismatch)
    } else {
        match given {
            Some(h) => if rows.len() > 0 && rows[0].len() != h.len() {
                Err(FrameError::DimensionMismatch)
            } else {
                Ok(Table { header: h, columns: columns_from(rows, h.len()) })
            },
            None => Ok(
                Table { header: default_header(row_width(rows)), columns: columns_from(rows, row_width(rows)) },
            ),
        }
    }
}

/// What putting rows and a header together gives: see [`rows_table`].
pub open spec fn assembled_rows(rows: Seq<Seq<u64>>, given: Option<Vec<String>>) -> Result<Table, FrameError> {
    rows_table(rows, given_names(given))
}

/// The predicate "has no missing value", as a value to filter by.
pub open spec fn complete() -> spec_fn(Seq<u64>) -> bool {
    |s: Seq<u64>| is_complete(s)
}

/// Position `i` is that of the first entry of `header` that equals `name`.
pub open spec fn is_first_named(header: Seq<Seq<char>>, name: Seq<char>, i: int) -> bool {
    &&& 0 <= i < header.len()
    &&& header[i] == name
    &&& forall|j: int| 0 <= j < i ==> #[trigger] header[j] != name
}

/// `out` holds, place by place, a sequence that stands in the relation `rel`
/// to the sequence of `src`.
pub open spec fn each(out: Seq<Seq<u64>>, src: Seq<Seq<u64>>, rel: spec_fn(Seq<u64>, Seq<u64>) -> bool) -> bool {
    &&& out.len() == src.len()
    &&& forall|i: int| 0 <= i < src.len() ==> rel(#[trigger] out[i], src[i])
}

/// The relation of a minimum to its series.
pub open spec fn min_rel() -> spec_fn(Seq<u64>, Seq<u64>) -> bool {
    |r: Seq<u64>, s: Seq<u64>| is_min_of(r, s)
}

/// The relation of a maximum to its series.
pub open spec fn max_rel() -> spec_fn(Seq<u64>, Seq<u64>) -> bool {
    |r: Seq<u64>, s: Seq<u64>| is_max_of(r, s)
}

/// The relation of a mode to its series.
pub open spec fn mode_rel() -> spec_fn(Seq<u64>, Seq<u64>) -> bool {
    |r: Seq<u64>, s: Seq<u64>| is_mode_of(r, s)
}

/// The relation of a median to its series, given what makes one value of two
/// central ones.
pub open spec fn median_rel<F: Fn(u64, u64) -> u64>(midpoint: F) -> spec_fn(Seq<u64>, Seq<u64>) -> bool {
    |r: Seq<u64>, s: Seq<u64>| is_median_of(midpoint, r, s)
}

/// The relation of a series to the one of which every value was combined
/// with `n` by `op`.
pub open spec fn scalar_rel<F: Fn(u64, u64) -> u64>(op: F, n: u64) -> spec_fn(Seq<u64>, Seq<u64>) -> bool {
    |r: Seq<u64>, s: Seq<u64>| each_with(op, s, n, r)
}

/// The relation of a sum to its series.
pub open spec fn sum_rel<A: Fn(u64, u64) -> u64>(add: A) -> spec_fn(Seq<u64>, Seq<u64>) -> bool {
    |r: Seq<u64>, s: Seq<u64>| is_sum_of(add, r, s)
}

/// The relation of a product to its series.
pub open spec fn prod_rel<M: Fn(u64, u64) -> u64>(times: M) -> spec_fn(Seq<u64>, Seq<u64>) -> bool {
    |r: Seq<u64>, s: Seq<u64>| is_prod_of(times, r, s)
}

/// The relation of a cumulative sum to its series.
pub open spec fn cumsum_rel<A: Fn(u64, u64) -> u64>(add: A) -> spec_fn(Seq<u64>, Seq<u64>) -> bool {
    |r: Seq<u64>, s: Seq<u64>| is_cumsum_of(add, r, s)
}

/// The relation of a mean to its series.
pub open spec fn mean_rel<A: Fn(u64, u64) -> u64, D: Fn(u64, usize) -> u64>(add: A, divide: D) -> spec_fn(
    Seq<u64>,
    Seq<u64>,
) -> bool {
    |r: Seq<u64>, s: Seq<u64>| is_mean_of(add, divide, r, s)
}

/// The relation of a sample variance to its series.
pub open spec fn var_rel<A: Fn(u64, u64) -> u64, D: Fn(u64, usize) -> u64, Q: Fn(u64, u64) -> u64>(
    add: A,
    divide: D,
    spread: Q,
) -> spec_fn(Seq<u64>, Seq<u64>) -> bool {
    |r: Seq<u64>, s: Seq<u64>| is_var_of(add, divide, spread, r, s)
}

/// The relation of a standard deviation to its series.
pub open spec fn std_rel<
    A: Fn(u64, u64) -> u64,
    D: Fn(u64, usize) -> u64,
    Q: Fn(u64, u64) -> u64,
    R: Fn(u64) -> u64,
>(add: A, divide: D, spread: Q, root: R) -> spec_fn(Seq<u64>, Seq<u64>) -> bool {
    |r: Seq<u64>, s: Seq<u64>| is_std_of(add, divide, spread, root, r, s)
}

/// Two tables are equal: they have as many columns, the same header, and
/// columns that are equal as vectors of numbers. A table that holds a missing
/// value equals no table.
pub open spec fn tables_equal(a: Table, b: Table) -> bool {
    &&& a.columns.len() == b.columns.len()
    &&& a.header == b.header
    &&& forall|j: int| 0 <= j < a.columns.len() ==> numerically_equal(#[trigger] a.columns[j], b.columns[j])
}

/// Two tables agree cell by cell: they have as many columns, the same
/// header, and at each place of each column either two missing values or two
/// values that are equal as numbers.
pub open spec fn tables_agree(a: Table, b: Table) -> bool {
    &&& a.columns.len() == b.columns.len()
    &&& a.header == b.header
    &&& forall|j: int| 0 <= j < a.columns.len() ==> cells_agree(#[trigger] a.columns[j], b.columns[j])
}

/// The first `n` values of `s`, or all of them where it has fewer.
pub open spec fn first_n(s: Seq<u64>, n: nat) -> Seq<u64> {
    if n <= s.len() {
        s.subrange(0, n as int)
    } else {
        s
    }
}

/// The last `n` values of `s`, which has that many.
pub open spec fn last_n(s: Seq<u64>, n: nat) -> Seq<u64> {
    s.subrange(s.len() - n, s.len() as int)
}

/// Whatever is filtered out of sequences of one length has one length.
pub proof fn lemma_filter_rectangular(cols: Seq<Seq<u64>>, pred: spec_fn(Seq<u64>) -> bool)
    requires
        rectangular(cols),
    ensures
        rectangular(cols.filter(pred)),
{
    let f = cols.filter(pred);
    assert forall|j: int| 0 <= j < f.len() implies (#[trigger] f[j]).len() == f[0].len() by {
        assert(f.contains(f[j]));
        assert(f.contains(f[0]));
        cols.lemma_filter_contains_rev(pred, f[j]);
        cols.lemma_filter_contains_rev(pred, f[0]);
        let a = choose|a: int| 0 <= a < cols.len() && cols[a] == f[j];
        let b = choose|b: int| 0 <= b < cols.len() && cols[b] == f[0];
        assert(cols[a].len() == cols[0].len());
        assert(cols[b].len() == cols[0].len());
    }
}

} // verus!
