//! The table: named columns of one length, with their transposed view.

use vstd::prelude::*;
use vstd::string::StringExecFns;
use crate::dispatch::{nth, par_tabulate, select, Strategy};
use crate::error::FrameError;
use crate::partition::kept;
use crate::table::{assembled, assembled_rows, columns_from, complete, complete_flags, lemma_columns_from_transposed, lemma_without_missing, cumsum_rel, default_header, each, first_n, fits, header_for, is_first_named, tables_agree, tables_equal, last_n, lemma_filter_rectangular, lemma_transpose_rectangular, max_rel, mean_rel, median_rel, min_rel, mode_rel, prod_rel, scalar_rel, rectangular, std_rel, sum_rel, transposed, var_rel, views, Table};
use crate::text::{decimal, decimal_string, names};
use crate::series::Series;
use crate::stats::{each_with, cells_agree, is_complete, is_cumsum_of, is_max_of, is_mean_of, is_median_of, is_min_of, is_mode_of, is_prod_of, is_std_of, is_sum_of, is_var_of, numerically_equal};

verus! {

/// The default names of `len` columns.
pub fn gen_default_header(len: usize) -> (h: Vec<String>)
    ensures
        names(h@) == default_header(len as nat),
{
    let h = par_tabulate(
        len,
        |x: usize| -> (s: String)
            ensures
                s@ == decimal(x as nat)
            { decimal_string(x) },
    );
    proof {
        assert(names(h@) =~= default_header(len as nat));
    }
    h
}

/// Transposes a list of series: the rows of a list of columns.
///
/// There are as many rows as the first column has values. A column that is
/// shorter than the first leaves a row without a value at its position, which
/// is `IndexOutOfRange`.
pub fn transpose(mat: &Vec<Series>) -> (r: Result<Vec<Series>, FrameError>)
    ensures
        !fits(views(mat@)) ==> r == Err::<Vec<Series>, FrameError>(FrameError::IndexOutOfRange),
        fits(views(mat@)) ==> r.is_ok() && views(r.unwrap()@) == transposed(views(mat@)),
{
    let n_cols = mat.len();
    if n_cols == 0 {
        proof {
            assert(views(Seq::<Series>::empty()) =~= transposed(views(mat@)));
        }
        return Ok(Vec::new());
    }
    let n_rows = mat[0].size();
    let mut j: usize = 0;
    while j < n_cols
        invariant
            n_cols == mat@.len(),
            n_cols > 0,
            n_rows == mat@[0]@.len(),
            j <= n_cols,
            forall|k: int| 0 <= k < j ==> (#[trigger] mat@[k])@.len() >= n_rows,
        decreases n_cols - j,
    {
        if mat[j].size() < n_rows {
            proof {
                assert(views(mat@)[j as int].len() < views(mat@)[0].len());
            }
            return Err(FrameError::IndexOutOfRange);
        }
        j += 1;
    }
    proof {
        assert forall|k: int| 0 <= k < views(mat@).len() implies (#[trigger] views(mat@)[k]).len() >= views(
            mat@,
        )[0].len() by {
            assert(mat@[k]@.len() >= n_rows);
        }
    }
    let rows = par_tabulate(
        n_rows,
        |i: usize| -> (row: Series)
            requires
                forall|k: int| 0 <= k < mat@.len() ==> (#[trigger] mat@[k])@.len() > i,
            ensures
                row@.len() == mat@.len(),
                forall|k: int| 0 <= k < mat@.len() ==> #[trigger] row@[k] == mat@[k]@[i as int]
            {
                let cells = par_tabulate(
                    mat.len(),
                    |c: usize| -> (b: u64)
                        requires
                            mat@.len() > c,
                            nth(mat@, c)@.len() > i,
                        ensures
                            b == nth(mat@, c)@[i as int]
                        { mat[c].cell(i) },
                );
                Series::new(cells)
            },
    );
    proof {
        let want = transposed(views(mat@));
        assert(views(rows@).len() == want.len());
        assert forall|i: int| 0 <= i < want.len() implies #[trigger] views(rows@)[i] == want[i] by {
            let k = i as usize;
            assert(rows@[k as int]@.len() == mat@.len());
            assert(rows@[i]@ =~= want[i]);
        }
        assert(views(rows@) =~= want);
    }
    Ok(rows)
}

/// What a fallible table operation returned, the table taken by its view.
pub open spec fn outcome(r: Result<DataFrame, FrameError>) -> Result<Table, FrameError> {
    match r {
        Ok(df) => Ok(df@),
        Err(e) => Err(e),
    }
}

/// `out` holds, place by place, what `op` returns for the series of `src`.
pub open spec fn reduced<F: Fn(&Series) -> Series>(op: F, src: Seq<Series>, out: Seq<Series>) -> bool {
    &&& out.len() == src.len()
    &&& forall|i: int| 0 <= i < src.len() ==> call_ensures(op, (&src[i],), #[trigger] out[i])
}

/// A copy of a list of names.
fn clone_names(h: &Vec<String>) -> (r: Vec<String>)
    ensures
        names(r@) == names(h@),
{
    let mut out: Vec<String> = Vec::new();
    let mut i: usize = 0;
    while i < h.len()
        invariant
            i <= h@.len(),
            out@.len() == i,
            forall|j: int| 0 <= j < i ==> (#[trigger] out@[j])@ == h@[j]@,
        decreases h@.len() - i,
    {
        out.push(h[i].clone());
        i += 1;
    }
    proof {
        assert(names(out@) =~= names(h@));
    }
    out
}

/// Tells whether two lists hold the same names.
fn same_names(a: &Vec<String>, b: &Vec<String>) -> (r: bool)
    ensures
        r == (names(a@) == names(b@)),
{
    if a.len() != b.len() {
        proof {
            assert(names(a@).len() != names(b@).len());
        }
        return false;
    }
    let n = a.len();
    let mut i: usize = 0;
    while i < n
        invariant
            n == a@.len(),
            n == b@.len(),
            i <= n,
            forall|k: int| 0 <= k < i ==> (#[trigger] a@[k])@ == b@[k]@,
        decreases n - i,
    {
        if a[i] != b[i] {
            proof {
                assert(names(a@)[i as int] != names(b@)[i as int]);
            }
            return false;
        }
        i += 1;
    }
    proof {
        assert(names(a@) =~= names(b@));
    }
    true
}

/// A copy of a list of series.
fn clone_series(list: &Vec<Series>) -> (r: Vec<Series>)
    ensures
        views(r@) == views(list@),
{
    let out = par_tabulate(
        list.len(),
        |i: usize| -> (s: Series)
            requires
                list@.len() > i,
            ensures
                s@ == nth(list@, i)@
            { list[i].clone() },
    );
    proof {
        assert(views(out@) =~= views(list@));
    }
    out
}

/// A named collection of series of one length, the columns, together with
/// the same values by rows. A table is never changed: every operation
/// returns a new one, whose rows are computed from its columns.
#[derive(Debug)]
pub struct DataFrame {
    header_row: Vec<String>,
    cols: Vec<Series>,
    rows: Vec<Series>,
}

impl View for DataFrame {
    type V = Table;

    /// The column names and the columns.
    closed spec fn view(&self) -> Table {
        Table { header: names(self.header_row@), columns: views(self.cols@) }
    }
}

impl PartialEq for DataFrame {
    /// Equality of tables: see [`DataFrame::equals`].
    fn eq(&self, other: &Self) -> (r: bool) {
        self.equals(other)
    }
}

impl vstd::std_specs::cmp::PartialEqSpecImpl for DataFrame {
    open spec fn obeys_eq_spec() -> bool {
        true
    }

    open spec fn eq_spec(&self, other: &Self) -> bool {
        tables_equal(self@, other@)
    }
}

impl DataFrame {
    /// There is one name for each column, the columns have one length, and
    /// the rows are their transpose.
    #[verifier::type_invariant]
    spec fn well_formed(self) -> bool {
        &&& self.header_row@.len() == self.cols@.len()
        &&& rectangular(views(self.cols@))
        &&& views(self.rows@) == transposed(views(self.cols@))
    }

    /// The columns, as the series that operations along axis 0 are handed.
    pub closed spec fn column_series(&self) -> Seq<Series> {
        self.cols@
    }

    /// The rows, as the series that operations along the other axis are
    /// handed.
    pub closed spec fn row_series(&self) -> Seq<Series> {
        self.rows@
    }

    /// The series along an axis: the columns for axis 0, the rows for any
    /// other.
    pub open spec fn axis_series(&self, axis: usize) -> Seq<Series> {
        if axis == 0 {
            self.column_series()
        } else {
            self.row_series()
        }
    }

    /// Puts together columns of one length and as many names.
    fn assemble(data: Vec<Series>, header_row: Option<Vec<String>>) -> (df: DataFrame)
        requires
            rectangular(views(data@)),
            header_for(header_row, views(data@)).len() == data@.len(),
        ensures
            df@ == (Table { header: header_for(header_row, views(data@)), columns: views(data@) }),
    {
        let header = match header_row {
            Some(h) => h,
            None => gen_default_header(data.len()),
        };
        match transpose(&data) {
            Ok(rows) => DataFrame { header_row: header, cols: data, rows },
            Err(_) => vstd::pervasive::unreached(),
        }
    }

    /// Tells how columns fail to have one length, if they do.
    fn check_shape(data: &Vec<Series>) -> (r: Result<(), FrameError>)
        ensures
            !fits(views(data@)) ==> r == Err::<(), FrameError>(FrameError::IndexOutOfRange),
            fits(views(data@)) && !rectangular(views(data@)) ==> r == Err::<(), FrameError>(
                FrameError::DimensionMismatch,
            ),
            rectangular(views(data@)) ==> r.is_ok(),
    {
        let n = data.len();
        if n == 0 {
            return Ok(());
        }
        let first = data[0].size();
        let mut longer = false;
        let mut j: usize = 0;
        while j < n
            invariant
                n == data@.len(),
                n > 0,
                first == data@[0]@.len(),
                j <= n,
                forall|k: int| 0 <= k < j ==> (#[trigger] data@[k])@.len() >= first,
                longer == exists|k: int| 0 <= k < j && (#[trigger] data@[k])@.len() > first,
            decreases n - j,
        {
            let len = data[j].size();
            if len < first {
                proof {
                    assert(views(data@)[j as int].len() < views(data@)[0].len());
                }
                return Err(FrameError::IndexOutOfRange);
            }
            if len > first {
                longer = true;
            }
            j += 1;
        }
        proof {
            assert forall|k: int| 0 <= k < views(data@).len() implies (#[trigger] views(data@)[k]).len()
                >= views(data@)[0].len() by {
                assert(data@[k]@.len() >= first);
            }
            if longer {
                let k = choose|k: int| 0 <= k < n && (#[trigger] data@[k])@.len() > first;
                assert(views(data@)[k].len() > views(data@)[0].len());
            } else {
                assert forall|k: int| 0 <= k < views(data@).len() implies (#[trigger] views(data@)[k]).len()
                    == views(data@)[0].len() by {
                    assert(data@[k]@.len() >= first);
                    assert(!(data@[k]@.len() > first));
                }
            }
        }
        if longer {
            Err(FrameError::DimensionMismatch)
        } else {
            Ok(())
        }
    }

    /// A table of the given columns. Its header holds the names given, or
    /// else the positions `0`, `1`, … of the columns. Columns that are not of
    /// one length make no table: the result is `IndexOutOfRange` where a
    /// column is shorter than the first, and `DimensionMismatch` where none
    /// is shorter but one is longer. Names that are not as many as the
    /// columns make no table either: that is `DimensionMismatch`.
    pub fn new(data: Vec<Series>, header_row: Option<Vec<String>>) -> (r: Result<DataFrame, FrameError>)
        ensures
            outcome(r) == assembled(views(data@), header_for(header_row, views(data@))),
    {
        match Self::check_shape(&data) {
            Err(e) => Err(e),
            Ok(_) => {
                let named = match &header_row {
                    Some(h) => h.len() == data.len(),
                    None => true,
                };
                if named {
                    Ok(Self::assemble(data, header_row))
                } else {
                    Err(FrameError::DimensionMismatch)
                }
            },
        }
    }

    /// Columns without a value, as many as asked for.
    fn empty_columns(width: usize) -> (r: Vec<Series>)
        ensures
            views(r@) == columns_from(Seq::<Seq<u64>>::empty(), width as nat),
    {
        let mut out: Vec<Series> = Vec::new();
        let mut j: usize = 0;
        while j < width
            invariant
                j <= width,
                out@.len() == j,
                forall|k: int| 0 <= k < j ==> (#[trigger] out@[k])@.len() == 0,
            decreases width - j,
        {
            out.push(Series::zero());
            j += 1;
        }
        proof {
            let want = columns_from(Seq::<Seq<u64>>::empty(), width as nat);
            assert forall|k: int| 0 <= k < width implies #[trigger] views(out@)[k] == want[k] by {
                assert(out@[k]@ =~= want[k]);
            }
            assert(views(out@) =~= want);
        }
        out
    }

    /// A table of the given rows: its columns hold the values of the rows.
    /// Under the names given it has as many columns as there are names, also
    /// where there is no row; without names it has as many as the rows are
    /// wide, under the default names. Rows that are not of one length make no
    /// table: the result is `IndexOutOfRange` where a row is shorter than the
    /// first, and `DimensionMismatch` where none is shorter but one is
    /// longer, or where the rows are not as wide as the names are many.
    pub fn from_rows(rows: Vec<Series>, header_row: Option<Vec<String>>) -> (r: Result<DataFrame, FrameError>)
        ensures
            outcome(r) == assembled_rows(views(rows@), header_row),
    {
        match Self::check_shape(&rows) {
            Err(e) => {
                return Err(e);
            },
            Ok(_) => {},
        }
        let width = match &header_row {
            Some(h) => h.len(),
            None => if rows.len() > 0 {
                rows[0].size()
            } else {
                0
            },
        };
        if rows.len() > 0 && rows[0].size() != width {
            return Err(FrameError::DimensionMismatch);
        }
        let cols = if rows.len() > 0 {
            match transpose(&rows) {
                Ok(cols) => {
                    proof {
                        lemma_transpose_rectangular(views(rows@));
                        lemma_columns_from_transposed(views(rows@));
                    }
                    cols
                },
                Err(_) => vstd::pervasive::unreached(),
            }
        } else {
            proof {
                assert(views(rows@) =~= Seq::<Seq<u64>>::empty());
            }
            Self::empty_columns(width)
        };
        proof {
            assert(views(cols@).len() == width);
        }
        Ok(Self::assemble(cols, header_row))
    }

    /// The row at position `row`, or `IndexOutOfRange` when the table has no
    /// such row.
    pub fn irow(&self, row: usize) -> (r: Result<Series, FrameError>)
        ensures
            row < self@.rows().len() ==> r.is_ok() && r.unwrap()@ == self@.rows()[row as int],
            row >= self@.rows().len() ==> r == Err::<Series, FrameError>(FrameError::IndexOutOfRange),
    {
        proof {
            use_type_invariant(self);
        }
        if row < self.rows.len() {
            assert(views(self.rows@)[row as int] == self.rows@[row as int]@);
            Ok(self.rows[row].clone())
        } else {
            Err(FrameError::IndexOutOfRange)
        }
    }

    /// The column at position `col`, or `IndexOutOfRange` when the table has
    /// no such column.
    pub fn icol(&self, col: usize) -> (r: Result<Series, FrameError>)
        ensures
            col < self@.columns.len() ==> r.is_ok() && r.unwrap()@ == self@.columns[col as int],
            col >= self@.columns.len() ==> r == Err::<Series, FrameError>(FrameError::IndexOutOfRange),
    {
        if col < self.cols.len() {
            Ok(self.cols[col].clone())
        } else {
            Err(FrameError::IndexOutOfRange)
        }
    }

    /// The column whose name is `col_name`: the column at the position of the
    /// first such name in the header. There is none where the header lacks
    /// the name.
    pub fn loc_col(&self, col_name: &str) -> (r: Option<Series>)
        ensures
            match r {
                Some(s) => exists|i: int|
                    is_first_named(self@.header, col_name@, i) && i < self@.columns.len() && s@
                        == self@.columns[i],
                None => forall|i: int| 0 <= i < self@.header.len() ==> self@.header[i] != col_name@,
            },
    {
        proof {
            use_type_invariant(self);
        }
        let wanted = String::from_str(col_name);
        let n = self.header_row.len();
        let mut i: usize = 0;
        while i < n
            invariant
                n == self.header_row@.len(),
                n == self.cols@.len(),
                i <= n,
                wanted@ == col_name@,
                forall|j: int| 0 <= j < i ==> #[trigger] self@.header[j] != col_name@,
            decreases n - i,
        {
            if self.header_row[i] == wanted {
                proof {
                    assert(self@.header[i as int] == col_name@);
                    assert(is_first_named(self@.header, col_name@, i as int));
                }
                let found = self.cols[i].clone();
                proof {
                    assert(self@.columns[i as int] == self.cols@[i as int]@);
                }
                return Some(found);
            }
            proof {
                assert(self@.header[i as int] != col_name@);
            }
            i += 1;
        }
        None
    }

    /// The number of columns, which is the number of names.
    pub fn size(&self) -> (n: usize)
        ensures
            n == self@.columns.len(),
            n == self@.header.len(),
    {
        proof {
            use_type_invariant(self);
        }
        self.cols.len()
    }

    /// The number of cells, rows times columns, where a `usize` holds it.
    pub fn cells(&self) -> (n: Option<usize>)
        ensures
            self@.size() <= usize::MAX ==> n == Some(self@.size() as usize),
            self@.size() > usize::MAX ==> n.is_none(),
    {
        proof {
            use_type_invariant(self);
        }
        self.rows.len().checked_mul(self.cols.len())
    }

    /// The table without the columns (axis 0) or the rows (any other axis)
    /// that hold a missing value. A column leaves with its name; a row leaves
    /// every column, and the header stays as it is.
    pub fn dropna(&self, axis: usize) -> (r: DataFrame)
        ensures
            r@ == self@.without_missing(axis),
            axis == 0 ==> r@.columns == self@.columns.filter(complete()),
            axis != 0 ==> r@.rows() == self@.rows().filter(complete()),
    {
        proof {
            use_type_invariant(self);
            lemma_without_missing(self@, axis);
        }
        if axis == 0 {
            self.drop_columns()
        } else {
            self.drop_rows()
        }
    }

    /// For each series of a list, whether it holds a missing value.
    fn gaps(src: &Vec<Series>) -> (r: Vec<bool>)
        ensures
            r@.len() == src@.len(),
            forall|i: int| 0 <= i < src@.len() ==> #[trigger] r@[i] == !is_complete(src@[i]@),
    {
        let found = par_tabulate(
            src.len(),
            |i: usize| -> (b: bool)
                requires
                    src@.len() > i,
                ensures
                    b == !is_complete(nth(src@, i)@)
                { src[i].has_missing() },
        );
        proof {
            assert forall|i: int| 0 <= i < src@.len() implies #[trigger] found@[i] == !is_complete(src@[i]@) by {
                let w = i as usize;
                assert(found@[w as int] == !is_complete(nth(src@, w)@));
            }
        }
        found
    }

    /// The table of the complete columns, each under its name.
    fn drop_columns(&self) -> (r: DataFrame)
        ensures
            r@ == self@.without_missing(0),
    {
        proof {
            use_type_invariant(self);
            lemma_without_missing(self@, 0);
        }
        let n = self.cols.len();
        let drop = Self::gaps(&self.cols);
        let ghost flags = complete_flags(self@.columns);
        let mut data: Vec<Series> = Vec::new();
        let mut header: Vec<String> = Vec::new();
        let mut i: usize = 0;
        proof {
            assert(views(data@) =~= kept(self@.columns.take(0), flags.take(0)));
            assert(names(header@) =~= kept(self@.header.take(0), flags.take(0)));
        }
        while i < n
            invariant
                n == self.cols@.len(),
                n == self.header_row@.len(),
                drop@.len() == n,
                i <= n,
                flags == complete_flags(self@.columns),
                forall|k: int| 0 <= k < n ==> #[trigger] drop@[k] == !is_complete(self.cols@[k]@),
                data@.len() == header@.len(),
                views(data@) == kept(self@.columns.take(i as int), flags.take(i as int)),
                names(header@) == kept(self@.header.take(i as int), flags.take(i as int)),
            decreases n - i,
        {
            proof {
                assert(self@.columns.take(i + 1).drop_last() =~= self@.columns.take(i as int));
                assert(self@.header.take(i + 1).drop_last() =~= self@.header.take(i as int));
                assert(flags.take(i + 1).drop_last() =~= flags.take(i as int));
                assert(flags.take(i + 1).last() == is_complete(self.cols@[i as int]@));
                assert(self@.columns.take(i + 1).last() == self.cols@[i as int]@);
                assert(self@.header.take(i + 1).last() == self.header_row@[i as int]@);
            }
            if !drop[i] {
                let ghost cols_before = views(data@);
                let ghost names_before = names(header@);
                data.push(self.cols[i].clone());
                header.push(self.header_row[i].clone());
                proof {
                    assert(views(data@) =~= cols_before.push(self.cols@[i as int]@));
                    assert(names(header@) =~= names_before.push(self.header_row@[i as int]@));
                }
            }
            i += 1;
        }
        proof {
            assert(self@.columns.take(n as int) =~= self@.columns);
            assert(self@.header.take(n as int) =~= self@.header);
            assert(flags.take(n as int) =~= flags);
        }
        Self::assemble(data, Some(header))
    }

    /// The table of the complete rows, under the same header.
    fn drop_rows(&self) -> (r: DataFrame)
        ensures
            r@ == self@.without_missing(1),
    {
        proof {
            use_type_invariant(self);
            lemma_without_missing(self@, 1);
        }
        let n = self.rows.len();
        let width = self.cols.len();
        let drop = Self::gaps(&self.rows);
        let mut keep: Vec<Series> = Vec::new();
        let mut i: usize = 0;
        proof {
            reveal(Seq::filter);
            assert(views(self.rows@).take(0) =~= Seq::<Seq<u64>>::empty());
            assert(views(keep@) =~= Seq::<Seq<u64>>::empty());
        }
        while i < n
            invariant
                n == self.rows@.len(),
                drop@.len() == n,
                i <= n,
                forall|k: int| 0 <= k < n ==> #[trigger] drop@[k] == !is_complete(self.rows@[k]@),
                views(keep@) == views(self.rows@).take(i as int).filter(complete()),
            decreases n - i,
        {
            proof {
                views(self.rows@).take(i as int).lemma_filter_push(self.rows@[i as int]@, complete());
                assert(views(self.rows@).take(i as int).push(self.rows@[i as int]@) =~= views(self.rows@).take(
                    i + 1,
                ));
            }
            if !drop[i] {
                let ghost before = views(keep@);
                keep.push(self.rows[i].clone());
                proof {
                    assert(views(keep@) =~= before.push(self.rows@[i as int]@));
                }
            }
            i += 1;
        }
        proof {
            assert(views(self.rows@).take(n as int) =~= views(self.rows@));
            lemma_transpose_rectangular(views(self.cols@));
            lemma_filter_rectangular(views(self.rows@), complete());
        }
        let cols = if keep.len() > 0 {
            match transpose(&keep) {
                Ok(cols) => {
                    proof {
                        let rows = views(self.rows@);
                        let kept_rows = views(keep@);
                        assert(kept_rows.contains(kept_rows[0]));
                        rows.lemma_filter_contains_rev(complete(), kept_rows[0]);
                        let a = choose|a: int| 0 <= a < rows.len() && rows[a] == kept_rows[0];
                        assert(rows[a].len() == width);
                        lemma_columns_from_transposed(kept_rows);
                        lemma_transpose_rectangular(kept_rows);
                    }
                    cols
                },
                Err(_) => vstd::pervasive::unreached(),
            }
        } else {
            proof {
                assert(views(keep@) =~= Seq::<Seq<u64>>::empty());
            }
            Self::empty_columns(width)
        };
        Self::assemble(cols, Some(clone_names(&self.header_row)))
    }

    /// The same as [`DataFrame::dropna`].
    pub fn dropnull(&self, axis: usize) -> (r: DataFrame)
        ensures
            r@ == self@.without_missing(axis),
            axis == 0 ==> r@.columns == self@.columns.filter(complete()),
            axis != 0 ==> r@.rows() == self@.rows().filter(complete()),
    {
        self.dropna(axis)
    }

    /// The table of what `op` returns for each column (axis 0) or each row
    /// (any other axis). The results become the columns of the new table,
    /// under this table's header for axis 0 and under the default names for
    /// any other axis. Results that are not of one length make no table: see
    /// [`assembled`].
    pub fn reduce<F>(&self, axis: usize, op: F) -> (r: Result<DataFrame, FrameError>) where
        F: Fn(&Series) -> Series + Send + Sync,

        requires
            forall|i: int|
                0 <= i < self.axis_series(axis).len() ==> call_requires(
                    op,
                    (&#[trigger] self.axis_series(axis)[i],),
                ),
        ensures
            views(self.axis_series(axis)) == self@.along(axis),
            exists|out: Seq<Series>|
                reduced(op, self.axis_series(axis), out) && outcome(r) == assembled(
                    views(out),
                    self@.header_along(axis, views(out)),
                ),
    {
        proof {
            use_type_invariant(self);
        }
        let src = if axis == 0 {
            &self.cols
        } else {
            &self.rows
        };
        let n = src.len();
        let results = match select(n) {
            Strategy::Sequential => {
                let mut out: Vec<Series> = Vec::new();
                let mut i: usize = 0;
                while i < n
                    invariant
                        n == src@.len(),
                        i <= n,
                        out@.len() == i,
                        src@ == self.axis_series(axis),
                        forall|k: int|
                            0 <= k < self.axis_series(axis).len() ==> call_requires(
                                op,
                                (&#[trigger] self.axis_series(axis)[k],),
                            ),
                        forall|k: int| 0 <= k < i ==> call_ensures(op, (&src@[k],), #[trigger] out@[k]),
                    decreases n - i,
                {
                    let one = op(&src[i]);
                    out.push(one);
                    i += 1;
                }
                out
            },
            Strategy::Parallel => {
                proof {
                    assert forall|i: usize| i < n implies call_requires(op, (&nth(src@, i),)) by {
                        assert(self.axis_series(axis)[i as int] == nth(src@, i));
                    }
                }
                par_tabulate(
                    n,
                    |i: usize| -> (s: Series)
                        requires
                            src@.len() > i,
                            call_requires(op, (&nth(src@, i),)),
                        ensures
                            call_ensures(op, (&nth(src@, i),), s)
                        { op(&src[i]) },
                )
            },
        };
        proof {
            assert forall|k: int| 0 <= k < src@.len() implies call_ensures(
                op,
                (&src@[k],),
                #[trigger] results@[k],
            ) by {
                let w = k as usize;
                assert(src@[k] == nth(src@, w));
            }
            assert(reduced(op, self.axis_series(axis), results@));
        }
        let header = if axis == 0 {
            Some(clone_names(&self.header_row))
        } else {
            None
        };
        Self::new(results, header)
    }

    /// [`DataFrame::reduce`] by an operation whose results stand in the
    /// relation `rel` to the series they are made of.
    fn reduce_each<F>(&self, axis: usize, op: F, rel: Ghost<spec_fn(Seq<u64>, Seq<u64>) -> bool>) -> (r: Result<
        DataFrame,
        FrameError,
    >) where F: Fn(&Series) -> Series + Send + Sync
        requires
            forall|s: &Series| call_requires(op, (s,)),
            forall|s: &Series, m: Series| call_ensures(op, (s,), m) ==> rel@(m@, s@),
        ensures
            exists|out: Seq<Seq<u64>>|
                each(out, self@.along(axis), rel@) && outcome(r) == assembled(
                    out,
                    self@.header_along(axis, out),
                ),
    {
        let r = self.reduce(axis, op);
        proof {
            let src = self.axis_series(axis);
            let out = choose|out: Seq<Series>|
                reduced(op, src, out) && outcome(r) == assembled(
                    views(out),
                    self@.header_along(axis, views(out)),
                );
            assert(each(views(out), self@.along(axis), rel@)) by {
                assert forall|i: int| 0 <= i < src.len() implies rel@(
                    #[trigger] views(out)[i],
                    self@.along(axis)[i],
                ) by {
                    assert(call_ensures(op, (&src[i],), out[i]));
                    assert(views(src)[i] == src[i]@);
                }
            }
        }
        r
    }

    /// The table that a reduction made, where its results are known to have
    /// one length.
    fn certain(r: Result<DataFrame, FrameError>) -> (df: DataFrame)
        requires
            r.is_ok(),
        ensures
            r == Ok::<DataFrame, FrameError>(df),
    {
        match r {
            Ok(df) => df,
            Err(_) => vstd::pervasive::unreached(),
        }
    }

    /// The table of the sum of each column (axis 0) or each row (any other
    /// axis).
    pub fn sum<A: Fn(u64, u64) -> u64 + Sync + Send>(&self, axis: usize, add: &A) -> (r: DataFrame)
        requires
            forall|a: u64, b: u64| call_requires(*add, (a, b)),
        ensures
            each(r@.columns, self@.along(axis), sum_rel(*add)),
            r@.header == self@.header_along(axis, r@.columns),
    {
        proof {
            use_type_invariant(self);
        }
        let r = self.reduce_each(
            axis,
            |s: &Series| -> (m: Series)
                requires
                    forall|a: u64, b: u64| call_requires(*add, (a, b)),
                ensures
                    is_sum_of(*add, m@, s@)
                { s.sum(add) },
            Ghost(sum_rel(*add)),
        );
        proof {
            let out = choose|out: Seq<Seq<u64>>|
                each(out, self@.along(axis), sum_rel(*add)) && outcome(r) == assembled(
                    out,
                    self@.header_along(axis, out),
                );
            assert forall|j: int| 0 <= j < out.len() implies (#[trigger] out[j]).len() == out[0].len() by {
                let rel = sum_rel(*add);
                assert(rel(out[j], self@.along(axis)[j]));
                assert(rel(out[0], self@.along(axis)[0]));
            }
            assert(self@.header_along(axis, out).len() == out.len());
        }
        Self::certain(r)
    }

    /// The table of the product of each column (axis 0) or each row (any
    /// other axis).
    pub fn prod<M: Fn(u64, u64) -> u64 + Sync + Send>(&self, axis: usize, times: &M) -> (r: DataFrame)
        requires
            forall|a: u64, b: u64| call_requires(*times, (a, b)),
        ensures
            each(r@.columns, self@.along(axis), prod_rel(*times)),
            r@.header == self@.header_along(axis, r@.columns),
    {
        proof {
            use_type_invariant(self);
        }
        let r = self.reduce_each(
            axis,
            |s: &Series| -> (m: Series)
                requires
                    forall|a: u64, b: u64| call_requires(*times, (a, b)),
                ensures
                    is_prod_of(*times, m@, s@)
                { s.prod(times) },
            Ghost(prod_rel(*times)),
        );
        proof {
            let out = choose|out: Seq<Seq<u64>>|
                each(out, self@.along(axis), prod_rel(*times)) && outcome(r) == assembled(
                    out,
                    self@.header_along(axis, out),
                );
            assert forall|j: int| 0 <= j < out.len() implies (#[trigger] out[j]).len() == out[0].len() by {
                let rel = prod_rel(*times);
                assert(rel(out[j], self@.along(axis)[j]));
                assert(rel(out[0], self@.along(axis)[0]));
            }
            assert(self@.header_along(axis, out).len() == out.len());
        }
        Self::certain(r)
    }

    /// The table of the cumulative sum of each column (axis 0) or each row
    /// (any other axis).
    pub fn cumsum<A: Fn(u64, u64) -> u64 + Sync + Send>(&self, axis: usize, add: &A) -> (r: DataFrame)
        requires
            forall|a: u64, b: u64| call_requires(*add, (a, b)),
        ensures
            each(r@.columns, self@.along(axis), cumsum_rel(*add)),
            r@.header == self@.header_along(axis, r@.columns),
    {
        proof {
            use_type_invariant(self);
            lemma_transpose_rectangular(self@.columns);
        }
        let r = self.reduce_each(
            axis,
            |s: &Series| -> (m: Series)
                requires
                    forall|a: u64, b: u64| call_requires(*add, (a, b)),
                ensures
                    is_cumsum_of(*add, m@, s@)
                { s.cumsum(add) },
            Ghost(cumsum_rel(*add)),
        );
        proof {
            let src = self@.along(axis);
            let out = choose|out: Seq<Seq<u64>>|
                each(out, src, cumsum_rel(*add)) && outcome(r) == assembled(out, self@.header_along(axis, out));
            assert forall|j: int| 0 <= j < out.len() implies (#[trigger] out[j]).len() == out[0].len() by {
                let rel = cumsum_rel(*add);
                assert(rel(out[j], src[j]));
                assert(rel(out[0], src[0]));
                assert(src[j].len() == src[0].len());
            }
            assert(self@.header_along(axis, out).len() == out.len());
        }
        Self::certain(r)
    }

    /// The table of the mean of each column (axis 0) or each row (any other
    /// axis).
    pub fn mean<A: Fn(u64, u64) -> u64 + Sync + Send, D: Fn(u64, usize) -> u64 + Sync + Send>(
        &self,
        axis: usize,
        add: &A,
        divide: &D,
    ) -> (r: Result<DataFrame, FrameError>)
        requires
            forall|a: u64, b: u64| call_requires(*add, (a, b)),
            forall|a: u64, n: usize| call_requires(*divide, (a, n)),
        ensures
            exists|out: Seq<Seq<u64>>|
                each(out, self@.along(axis), mean_rel(*add, *divide)) && outcome(r) == assembled(
                    out,
                    self@.header_along(axis, out),
                ),
    {
        self.reduce_each(
            axis,
            |s: &Series| -> (m: Series)
                requires
                    forall|a: u64, b: u64| call_requires(*add, (a, b)),
                    forall|a: u64, n: usize| call_requires(*divide, (a, n)),
                ensures
                    is_mean_of(*add, *divide, m@, s@)
                { s.mean(add, divide) },
            Ghost(mean_rel(*add, *divide)),
        )
    }

    /// The table of the sample variance of each column (axis 0) or each row
    /// (any other axis) of the table without missing values along that axis:
    /// see [`DataFrame::dropna`].
    pub fn var<
        A: Fn(u64, u64) -> u64 + Sync + Send,
        D: Fn(u64, usize) -> u64 + Sync + Send,
        Q: Fn(u64, u64) -> u64 + Sync + Send,
    >(&self, axis: usize, add: &A, divide: &D, spread: &Q) -> (r: Result<DataFrame, FrameError>)
        requires
            forall|a: u64, b: u64| call_requires(*add, (a, b)),
            forall|a: u64, n: usize| call_requires(*divide, (a, n)),
            forall|a: u64, b: u64| call_requires(*spread, (a, b)),
        ensures
            exists|out: Seq<Seq<u64>>|
                each(out, self@.without_missing(axis).along(axis), var_rel(*add, *divide, *spread)) && outcome(r)
                    == assembled(out, self@.without_missing(axis).header_along(axis, out)),
    {
        let valid = self.dropna(axis);
        valid.reduce_each(
            axis,
            |s: &Series| -> (m: Series)
                requires
                    forall|a: u64, b: u64| call_requires(*add, (a, b)),
                    forall|a: u64, n: usize| call_requires(*divide, (a, n)),
                    forall|a: u64, b: u64| call_requires(*spread, (a, b)),
                ensures
                    is_var_of(*add, *divide, *spread, m@, s@)
                { s.var(add, divide, spread) },
            Ghost(var_rel(*add, *divide, *spread)),
        )
    }

    /// The table of the standard deviation of each column (axis 0) or each
    /// row (any other axis) of the table without missing values along that
    /// axis: see [`DataFrame::dropna`].
    pub fn std_dev<
        A: Fn(u64, u64) -> u64 + Sync + Send,
        D: Fn(u64, usize) -> u64 + Sync + Send,
        Q: Fn(u64, u64) -> u64 + Sync + Send,
        R: Fn(u64) -> u64 + Sync + Send,
    >(&self, axis: usize, add: &A, divide: &D, spread: &Q, root: &R) -> (r: Result<DataFrame, FrameError>)
        requires
            forall|a: u64, b: u64| call_requires(*add, (a, b)),
            forall|a: u64, n: usize| call_requires(*divide, (a, n)),
            forall|a: u64, b: u64| call_requires(*spread, (a, b)),
            forall|a: u64| call_requires(*root, (a,)),
        ensures
            exists|out: Seq<Seq<u64>>|
                each(out, self@.without_missing(axis).along(axis), std_rel(*add, *divide, *spread, *root))
                    && outcome(r) == assembled(out, self@.without_missing(axis).header_along(axis, out)),
    {
        let valid = self.dropna(axis);
        valid.reduce_each(
            axis,
            |s: &Series| -> (m: Series)
                requires
                    forall|a: u64, b: u64| call_requires(*add, (a, b)),
                    forall|a: u64, n: usize| call_requires(*divide, (a, n)),
                    forall|a: u64, b: u64| call_requires(*spread, (a, b)),
                    forall|a: u64| call_requires(*root, (a,)),
                ensures
                    is_std_of(*add, *divide, *spread, *root, m@, s@)
                { s.std_dev(add, divide, spread, root) },
            Ghost(std_rel(*add, *divide, *spread, *root)),
        )
    }

    /// The table of the minimum of each column (axis 0) or each row (any
    /// other axis).
    pub fn min(&self, axis: usize) -> (r: Result<DataFrame, FrameError>)
        ensures
            exists|out: Seq<Seq<u64>>|
                each(out, self@.along(axis), min_rel()) && outcome(r) == assembled(
                    out,
                    self@.header_along(axis, out),
                ),
    {
        self.reduce_each(
            axis,
            |s: &Series| -> (m: Series)
                ensures
                    is_min_of(m@, s@)
                { s.min() },
            Ghost(min_rel()),
        )
    }

    /// The table of the maximum of each column (axis 0) or each row (any
    /// other axis).
    pub fn max(&self, axis: usize) -> (r: Result<DataFrame, FrameError>)
        ensures
            exists|out: Seq<Seq<u64>>|
                each(out, self@.along(axis), max_rel()) && outcome(r) == assembled(
                    out,
                    self@.header_along(axis, out),
                ),
    {
        self.reduce_each(
            axis,
            |s: &Series| -> (m: Series)
                ensures
                    is_max_of(m@, s@)
                { s.max() },
            Ghost(max_rel()),
        )
    }

    /// The table of the mode of each column (axis 0) or each row (any other
    /// axis).
    pub fn mode(&self, axis: usize) -> (r: Result<DataFrame, FrameError>)
        ensures
            exists|out: Seq<Seq<u64>>|
                each(out, self@.along(axis), mode_rel()) && outcome(r) == assembled(
                    out,
                    self@.header_along(axis, out),
                ),
    {
        self.reduce_each(
            axis,
            |s: &Series| -> (m: Series)
                ensures
                    is_mode_of(m@, s@)
                { s.mode() },
            Ghost(mode_rel()),
        )
    }

    /// The table of the median of each column (axis 0) or each row (any
    /// other axis), where `midpoint` makes one value of two central ones.
    pub fn median<F: Fn(u64, u64) -> u64 + Send + Sync>(&self, axis: usize, midpoint: &F) -> (r: Result<
        DataFrame,
        FrameError,
    >)
        requires
            forall|a: u64, b: u64| call_requires(*midpoint, (a, b)),
        ensures
            exists|out: Seq<Seq<u64>>|
                each(out, self@.along(axis), median_rel(*midpoint)) && outcome(r) == assembled(
                    out,
                    self@.header_along(axis, out),
                ),
    {
        self.reduce_each(
            axis,
            |s: &Series| -> (m: Series)
                requires
                    forall|a: u64, b: u64| call_requires(*midpoint, (a, b)),
                ensures
                    is_median_of(*midpoint, m@, s@)
                { s.median(midpoint) },
            Ghost(median_rel(*midpoint)),
        )
    }

    /// The table of what `f` makes of each value, place by place, under the
    /// same header.
    pub fn apply<F: Fn(u64) -> u64 + Sync + Send>(&self, f: F) -> (r: DataFrame)
        requires
            forall|b: u64| call_requires(f, (b,)),
        ensures
            r@.header == self@.header,
            r@.columns.len() == self@.columns.len(),
            forall|j: int|
                0 <= j < self@.columns.len() ==> (#[trigger] r@.columns[j]).len() == self@.columns[j].len(),
            forall|j: int, i: int|
                0 <= j < self@.columns.len() && 0 <= i < self@.columns[j].len() ==> call_ensures(
                    f,
                    (self@.columns[j][i],),
                    #[trigger] r@.columns[j][i],
                ),
    {
        proof {
            use_type_invariant(self);
        }
        let cols = &self.cols;
        let applied = par_tabulate(
            cols.len(),
            |j: usize| -> (s: Series)
                requires
                    cols@.len() > j,
                    forall|b: u64| call_requires(f, (b,)),
                ensures
                    s@.len() == nth(cols@, j)@.len(),
                    forall|i: int|
                        0 <= i < s@.len() ==> call_ensures(f, (nth(cols@, j)@[i],), #[trigger] s@[i])
                {
                    let column = &cols[j];
                    let cells = par_tabulate(
                        column.size(),
                        |i: usize| -> (b: u64)
                            requires
                                column@.len() > i,
                                forall|b: u64| call_requires(f, (b,)),
                            ensures
                                call_ensures(f, (nth(column@, i),), b)
                            { f(column.cell(i)) },
                    );
                    proof {
                        assert forall|i: int| 0 <= i < cells@.len() implies call_ensures(
                            f,
                            (column@[i],),
                            #[trigger] cells@[i],
                        ) by {
                            let w = i as usize;
                            assert(column@[i] == nth(column@, w));
                        }
                    }
                    Series::new(cells)
                },
        );
        proof {
            assert forall|j: int| 0 <= j < cols@.len() implies (#[trigger] views(applied@)[j]).len() == views(
                cols@,
            )[j].len() && (forall|i: int|
                0 <= i < views(cols@)[j].len() ==> call_ensures(
                    f,
                    (views(cols@)[j][i],),
                    #[trigger] views(applied@)[j][i],
                )) by {
                let w = j as usize;
                assert(nth(cols@, w) == cols@[j]);
                assert(applied@[w as int]@.len() == cols@[j]@.len());
            }
            assert forall|j: int| 0 <= j < views(applied@).len() implies (#[trigger] views(applied@)[j]).len()
                == views(applied@)[0].len() by {
                assert(views(cols@)[j].len() == views(cols@)[0].len());
                assert(views(applied@)[0].len() == views(cols@)[0].len());
            }
        }
        Self::assemble(applied, Some(clone_names(&self.header_row)))
    }

    /// The table of what `op` makes of each value and `n`, under the same
    /// header.
    fn with_scalar<F: Fn(u64, u64) -> u64 + Sync + Send>(&self, n: u64, op: &F) -> (r: DataFrame)
        requires
            forall|a: u64, b: u64| call_requires(*op, (a, b)),
        ensures
            r@.header == self@.header,
            each(r@.columns, self@.columns, scalar_rel(*op, n)),
    {
        proof {
            use_type_invariant(self);
        }
        let cols = &self.cols;
        let column_at = |j: usize| -> (s: Series)
            requires
                cols@.len() > j,
                forall|a: u64, b: u64| call_requires(*op, (a, b)),
            ensures
                each_with(*op, nth(cols@, j)@, n, s@)
            { cols[j].with_scalar(n, op) };
        let applied = par_tabulate(cols.len(), column_at);
        proof {
            let rel = scalar_rel(*op, n);
            assert forall|j: int| 0 <= j < cols@.len() implies rel(#[trigger] views(applied@)[j], views(cols@)[j]) by {
                let w = j as usize;
                assert(call_ensures(column_at, (w,), applied@[w as int]));
            }
            assert forall|j: int| 0 <= j < views(applied@).len() implies (#[trigger] views(applied@)[j]).len()
                == views(applied@)[0].len() by {
                assert(rel(views(applied@)[j], views(cols@)[j]));
                assert(rel(views(applied@)[0], views(cols@)[0]));
                assert(views(cols@)[j].len() == views(cols@)[0].len());
            }
        }
        Self::assemble(applied, Some(clone_names(&self.header_row)))
    }

    /// Every value plus `n`: what `add` makes of each value and `n`.
    pub fn plus<F: Fn(u64, u64) -> u64 + Sync + Send>(&self, n: u64, add: &F) -> (r: DataFrame)
        requires
            forall|a: u64, b: u64| call_requires(*add, (a, b)),
        ensures
            r@.header == self@.header,
            each(r@.columns, self@.columns, scalar_rel(*add, n)),
    {
        self.with_scalar(n, add)
    }

    /// Every value minus `n`: what `minus` makes of each value and `n`.
    pub fn sub<F: Fn(u64, u64) -> u64 + Sync + Send>(&self, n: u64, minus: &F) -> (r: DataFrame)
        requires
            forall|a: u64, b: u64| call_requires(*minus, (a, b)),
        ensures
            r@.header == self@.header,
            each(r@.columns, self@.columns, scalar_rel(*minus, n)),
    {
        self.with_scalar(n, minus)
    }

    /// Every value times `n`: what `times` makes of each value and `n`.
    pub fn mult<F: Fn(u64, u64) -> u64 + Sync + Send>(&self, n: u64, times: &F) -> (r: DataFrame)
        requires
            forall|a: u64, b: u64| call_requires(*times, (a, b)),
        ensures
            r@.header == self@.header,
            each(r@.columns, self@.columns, scalar_rel(*times, n)),
    {
        self.with_scalar(n, times)
    }

    /// Every value divided by `n`: what `over` makes of each value and `n`.
    pub fn div<F: Fn(u64, u64) -> u64 + Sync + Send>(&self, n: u64, over: &F) -> (r: DataFrame)
        requires
            forall|a: u64, b: u64| call_requires(*over, (a, b)),
        ensures
            r@.header == self@.header,
            each(r@.columns, self@.columns, scalar_rel(*over, n)),
    {
        self.with_scalar(n, over)
    }

    /// A table of the same names and values.
    pub fn copy(&self) -> (r: DataFrame)
        ensures
            r@ == self@,
    {
        proof {
            use_type_invariant(self);
        }
        let data_copy = clone_series(&self.cols);
        let header_copy = clone_names(&self.header_row);
        Self::assemble(data_copy, Some(header_copy))
    }

    /// The table of the first `n` rows: each column is cut down to its first
    /// `n` values, and the rows follow from the columns.
    pub fn head(&self, n: usize) -> (r: DataFrame)
        ensures
            r@.header == self@.header,
            r@.columns.len() == self@.columns.len(),
            forall|j: int|
                0 <= j < self@.columns.len() ==> #[trigger] r@.columns[j] == first_n(self@.columns[j], n as nat),
    {
        proof {
            use_type_invariant(self);
        }
        let cols = &self.cols;
        let sliced = par_tabulate(
            cols.len(),
            |j: usize| -> (s: Series)
                requires
                    cols@.len() > j,
                ensures
                    s@ == first_n(nth(cols@, j)@, n as nat)
                {
                    match cols[j].slice(0, n) {
                        Ok(s) => {
                            proof {
                                assert(nth(cols@, j)@.subrange(0, nth(cols@, j)@.len() as int) =~= nth(cols@, j)@);
                            }
                            s
                        },
                        Err(_) => vstd::pervasive::unreached(),
                    }
                },
        );
        proof {
            assert forall|j: int| 0 <= j < cols@.len() implies #[trigger] views(sliced@)[j] == first_n(
                views(cols@)[j],
                n as nat,
            ) by {
                let w = j as usize;
                assert(nth(cols@, w) == cols@[j]);
                assert(sliced@[w as int]@ == first_n(nth(cols@, w)@, n as nat));
            }
            assert forall|j: int| 0 <= j < views(sliced@).len() implies (#[trigger] views(sliced@)[j]).len()
                == views(sliced@)[0].len() by {
                assert(views(cols@)[j].len() == views(cols@)[0].len());
                assert(views(sliced@)[0] == first_n(views(cols@)[0], n as nat));
            }
        }
        Self::assemble(sliced, Some(clone_names(&self.header_row)))
    }

    /// The table of the last `n` rows: each column is cut down to its last
    /// `n` values, and the rows follow from the columns. Where the columns
    /// have fewer than `n` values the result is `IndexOutOfRange`.
    pub fn tail(&self, n: usize) -> (r: Result<DataFrame, FrameError>)
        ensures
            (exists|j: int| 0 <= j < self@.columns.len() && (#[trigger] self@.columns[j]).len() < n) ==> r
                == Err::<DataFrame, FrameError>(FrameError::IndexOutOfRange),
            (forall|j: int| 0 <= j < self@.columns.len() ==> (#[trigger] self@.columns[j]).len() >= n)
                ==> r.is_ok() && r.unwrap()@.header == self@.header && r.unwrap()@.columns.len()
                == self@.columns.len() && forall|j: int|
                0 <= j < self@.columns.len() ==> #[trigger] r.unwrap()@.columns[j] == last_n(
                    self@.columns[j],
                    n as nat,
                ),
    {
        proof {
            use_type_invariant(self);
        }
        let cols = &self.cols;
        if cols.len() > 0 && cols[0].size() < n {
            proof {
                assert(views(cols@)[0].len() < n);
            }
            return Err(FrameError::IndexOutOfRange);
        }
        proof {
            assert forall|j: int| 0 <= j < cols@.len() implies (#[trigger] cols@[j])@.len() >= n by {
                assert(views(cols@)[j].len() == views(cols@)[0].len());
            }
        }
        let sliced = par_tabulate(
            cols.len(),
            |j: usize| -> (s: Series)
                requires
                    cols@.len() > j,
                    nth(cols@, j)@.len() >= n,
                ensures
                    s@ == last_n(nth(cols@, j)@, n as nat)
                {
                    let x = &cols[j];
                    match x.slice(x.size() - n, x.size()) {
                        Ok(s) => s,
                        Err(_) => vstd::pervasive::unreached(),
                    }
                },
        );
        proof {
            assert forall|j: int| 0 <= j < cols@.len() implies #[trigger] views(sliced@)[j] == last_n(
                views(cols@)[j],
                n as nat,
            ) by {
                let w = j as usize;
                assert(nth(cols@, w) == cols@[j]);
                assert(sliced@[w as int]@ == last_n(nth(cols@, w)@, n as nat));
            }
            assert forall|j: int| 0 <= j < views(sliced@).len() implies (#[trigger] views(sliced@)[j]).len()
                == views(sliced@)[0].len() by {
                assert(views(cols@)[j].len() == views(cols@)[0].len());
                assert(views(sliced@)[0] == last_n(views(cols@)[0], n as nat));
            }
            assert forall|j: int| 0 <= j < self@.columns.len() implies (#[trigger] self@.columns[j]).len()
                >= n by {
                assert(cols@[j]@.len() >= n);
            }
        }
        Ok(Self::assemble(sliced, Some(clone_names(&self.header_row))))
    }

    /// The table with `column` put in at position `pos` of the columns, and
    /// `column_name` at position `pos` of the header. A position beyond the
    /// end of the columns is `IndexOutOfRange`; a column that does not have
    /// the length of the others makes no table: see [`assembled`].
    pub fn insert_col(&self, pos: usize, column_name: &str, column: Series) -> (r: Result<
        DataFrame,
        FrameError,
    >)
        ensures
            pos > self@.columns.len() ==> r == Err::<DataFrame, FrameError>(FrameError::IndexOutOfRange),
            pos <= self@.columns.len() ==> outcome(r) == assembled(
                self@.columns.insert(pos as int, column@),
                self@.header.insert(pos as int, column_name@),
            ),
    {
        proof {
            use_type_invariant(self);
        }
        if pos > self.cols.len() {
            return Err(FrameError::IndexOutOfRange);
        }
        let mut cols = clone_series(&self.cols);
        let mut headers = clone_names(&self.header_row);
        let ghost want_cols = self@.columns.insert(pos as int, column@);
        let ghost want_names = self@.header.insert(pos as int, column_name@);
        cols.insert(pos, column);
        headers.insert(pos, String::from_str(column_name));
        proof {
            assert(views(cols@) =~= want_cols);
            assert(names(headers@) =~= want_names);
        }
        Self::new(cols, Some(headers))
    }

    /// Tells whether this table and `other` are equal: they have as many
    /// columns, the same header, and columns that are equal as vectors of
    /// numbers. The rows are not compared: they follow from the columns.
    pub fn equals(&self, other: &DataFrame) -> (r: bool)
        ensures
            r == tables_equal(self@, other@),
    {
        if self.size() != other.size() {
            return false;
        }
        if !same_names(&self.header_row, &other.header_row) {
            return false;
        }
        let n = self.cols.len();
        let mut j: usize = 0;
        while j < n
            invariant
                n == self.cols@.len(),
                n == other.cols@.len(),
                j <= n,
                forall|k: int|
                    0 <= k < j ==> numerically_equal(#[trigger] self@.columns[k], other@.columns[k]),
            decreases n - j,
        {
            if !self.cols[j].equals(&other.cols[j]) {
                proof {
                    assert(!numerically_equal(self@.columns[j as int], other@.columns[j as int]));
                }
                return false;
            }
            proof {
                assert(numerically_equal(self@.columns[j as int], other@.columns[j as int]));
            }
            j += 1;
        }
        true
    }

    /// Tells whether this table and `other` agree cell by cell: they have the
    /// same header and as many columns, and at each place either both values
    /// are missing or they are equal as numbers.
    pub fn same_cells(&self, other: &DataFrame) -> (r: bool)
        ensures
            r == tables_agree(self@, other@),
    {
        if self.size() != other.size() {
            return false;
        }
        if !same_names(&self.header_row, &other.header_row) {
            return false;
        }
        let n = self.cols.len();
        let mut j: usize = 0;
        while j < n
            invariant
                n == self.cols@.len(),
                n == other.cols@.len(),
                j <= n,
                forall|k: int| 0 <= k < j ==> cells_agree(#[trigger] self@.columns[k], other@.columns[k]),
            decreases n - j,
        {
            if !self.cols[j].same_cells(&other.cols[j]) {
                proof {
                    assert(!cells_agree(self@.columns[j as int], other@.columns[j as int]));
                }
                return false;
            }
            proof {
                assert(cells_agree(self@.columns[j as int], other@.columns[j as int]));
            }
            j += 1;
        }
        true
    }

    /// The columns under their names, in order. This is what a map from names
    /// to columns is made of.
    pub fn to_pairs(&self) -> (r: Vec<(String, Vec<u64>)>)
        ensures
            r@.len() == self@.columns.len(),
            forall|i: int|
                0 <= i < r@.len() ==> (#[trigger] r@[i]).0@ == self@.header[i] && r@[i].1@ == self@.columns[i],
    {
        proof {
            use_type_invariant(self);
        }
        let n = self.cols.len();
        let mut out: Vec<(String, Vec<u64>)> = Vec::new();
        let mut i: usize = 0;
        while i < n
            invariant
                n == self.header_row@.len(),
                n == self.cols@.len(),
                i <= n,
                out@.len() == i,
                forall|k: int|
                    0 <= k < i ==> (#[trigger] out@[k]).0@ == self@.header[k] && out@[k].1@ == self@.columns[k],
            decreases n - i,
        {
            out.push((self.header_row[i].clone(), self.cols[i].to_vec()));
            i += 1;
        }
        out
    }

    /// A table of the columns of the given pairs, each under its name.
    /// Columns that are not of one length make no table: see [`assembled`].
    pub fn from_pairs(pairs: Vec<(String, Vec<u64>)>) -> (r: Result<DataFrame, FrameError>)
        ensures
            outcome(r) == assembled(
                Seq::new(pairs@.len(), |i: int| pairs@[i].1@),
                Seq::new(pairs@.len(), |i: int| pairs@[i].0@),
            ),
    {
        let mut header: Vec<String> = Vec::new();
        let mut data: Vec<Series> = Vec::new();
        let n = pairs.len();
        let mut i: usize = 0;
        while i < n
            invariant
                n == pairs@.len(),
                i <= n,
                header@.len() == i,
                data@.len() == i,
                forall|k: int| 0 <= k < i ==> (#[trigger] header@[k])@ == pairs@[k].0@,
                forall|k: int| 0 <= k < i ==> (#[trigger] data@[k])@ == pairs@[k].1@,
            decreases n - i,
        {
            header.push(pairs[i].0.clone());
            data.push(Series::new(pairs[i].1.clone()));
            i += 1;
        }
        proof {
            assert(views(data@) =~= Seq::new(pairs@.len(), |i: int| pairs@[i].1@));
            assert(names(header@) =~= Seq::new(pairs@.len(), |i: int| pairs@[i].0@));
        }
        Self::new(data, Some(header))
    }

    /// The column names: one for each column.
    pub fn header(&self) -> (h: &Vec<String>)
        ensures
            names(h@) == self@.header,
            self@.header.len() == self@.columns.len(),
    {
        proof {
            use_type_invariant(self);
        }
        &self.header_row
    }

    /// The columns: series of one length.
    pub fn columns(&self) -> (c: &Vec<Series>)
        ensures
            c@ == self.column_series(),
            views(c@) == self@.columns,
            rectangular(self@.columns),
    {
        proof {
            use_type_invariant(self);
        }
        &self.cols
    }

    /// The rows: the transpose of the columns.
    pub fn rows(&self) -> (c: &Vec<Series>)
        ensures
            c@ == self.row_series(),
            views(c@) == self@.rows(),
            rectangular(self@.rows()),
    {
        proof {
            use_type_invariant(self);
        }
        &self.rows
    }
}

} // verus!
