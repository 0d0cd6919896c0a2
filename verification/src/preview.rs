//! The short form in which a table is shown.
//!
//! A table of fewer than ten rows and fewer than ten columns is shown whole:
//! its header, then every row. A larger one is abridged to eight lines of
//! seven cells: of the header and of the first and the last three rows, the
//! first and the last three cells with dots between them, and a line of dots
//! between the first rows and the last.

use vstd::prelude::*;
use vstd::string::StringExecFns;
use crate::bits::is_nan;
use crate::dataframe::DataFrame;
use crate::error::FrameError;
use crate::series::Series;
use crate::stats::{all_written, is_written, nan_text};
use crate::table::{transposed, views, Table};
use crate::text::names;

verus! {

/// The number of rows, and of columns, from which a table is abridged.
pub const PREVIEW_LIMIT: usize = 10;

/// The number of cells, and of rows, shown at either end of an abridged
/// table.
pub const PREVIEW_EDGE: usize = 3;

/// What stands for the cells that are left out.
pub open spec fn dots() -> Seq<char> {
    seq!['.', '.', '.']
}

/// A line of seven cells of dots.
pub open spec fn dotted_line() -> Seq<Seq<char>> {
    Seq::new(7, |i: int| dots())
}

/// A table of so many rows and columns is shown whole.
pub open spec fn shown_whole(rows: nat, cols: nat) -> bool {
    rows < PREVIEW_LIMIT && cols < PREVIEW_LIMIT
}

/// `line` shows the names `header`: all of them, or the first three, dots,
/// and the last three.
pub open spec fn header_shown(header: Seq<Seq<char>>, line: Seq<Seq<char>>, whole: bool) -> bool {
    if whole {
        line == header
    } else {
        line == header.take(3).push(dots()) + header.skip(header.len() - 3)
    }
}

/// `line` shows the values `row`: all of them written out, or the first
/// three, dots, and the last three.
pub open spec fn row_shown<F: Fn(u64) -> String>(render: F, row: Seq<u64>, line: Seq<Seq<char>>, whole: bool) -> bool {
    if whole {
        all_written(render, row, line)
    } else {
        &&& line.len() == 7
        &&& line[3] == dots()
        &&& forall|k: int| 0 <= k < 3 ==> is_written(render, row[k], #[trigger] line[k])
        &&& forall|k: int| 0 <= k < 3 ==> is_written(render, row[row.len() - 3 + k], #[trigger] line[4 + k])
    }
}

/// `lines` is the short form of the table `t`.
pub open spec fn is_preview<F: Fn(u64) -> String>(render: F, t: Table, lines: Seq<Seq<Seq<char>>>) -> bool {
    let rows = t.rows();
    if shown_whole(rows.len(), t.columns.len()) {
        &&& lines.len() == rows.len() + 1
        &&& header_shown(t.header, lines[0], true)
        &&& forall|i: int| 0 <= i < rows.len() ==> row_shown(render, rows[i], #[trigger] lines[i + 1], true)
    } else {
        &&& lines.len() == 8
        &&& header_shown(t.header, lines[0], false)
        &&& forall|i: int| 0 <= i < 3 ==> row_shown(render, rows[i], #[trigger] lines[1 + i], false)
        &&& lines[4] == dotted_line()
        &&& forall|i: int| 0 <= i < 3 ==> row_shown(render, rows[rows.len() - 3 + i], #[trigger] lines[5 + i], false)
    }
}

/// The cells of each line of a list.
pub open spec fn line_texts(lines: Seq<Vec<String>>) -> Seq<Seq<Seq<char>>> {
    Seq::new(lines.len(), |i: int| names(lines[i]@))
}

/// The cell of dots.
fn dots_text() -> (s: String)
    ensures
        s@ == dots(),
{
    proof {
        reveal_strlit("...");
        assert("..."@ =~= dots());
    }
    String::from_str("...")
}

/// A value written out: `NaN` where it is missing.
fn cell_text<F: Fn(u64) -> String>(b: u64, render: &F) -> (s: String)
    requires
        forall|x: u64| call_requires(*render, (x,)),
    ensures
        is_written(*render, b, s@),
{
    if is_nan(b) {
        proof {
            reveal_strlit("NaN");
            assert("NaN"@ =~= nan_text());
        }
        String::from_str("NaN")
    } else {
        render(b)
    }
}

/// The values of `row` from position `from` up to position `to`, written
/// out and put behind the cells of `line`.
fn push_cells<F: Fn(u64) -> String>(line: &mut Vec<String>, row: &Series, from: usize, to: usize, render: &F)
    requires
        from <= to <= row@.len(),
        forall|x: u64| call_requires(*render, (x,)),
    ensures
        final(line)@.len() == old(line)@.len() + (to - from),
        forall|k: int| 0 <= k < old(line)@.len() ==> #[trigger] final(line)@[k] == old(line)@[k],
        forall|k: int|
            0 <= k < to - from ==> is_written(*render, row@[from + k], (#[trigger] final(line)@[old(line)@.len() + k])@),
{
    let ghost before = line@;
    let mut at: usize = from;
    while at < to
        invariant
            from <= at <= to <= row@.len(),
            forall|x: u64| call_requires(*render, (x,)),
            line@.len() == before.len() + (at - from),
            forall|k: int| 0 <= k < before.len() ==> #[trigger] line@[k] == before[k],
            forall|k: int| 0 <= k < at - from ==> is_written(*render, row@[from + k], (#[trigger] line@[before.len() + k])@),
        decreases to - at,
    {
        let cell = match row.iloc(at) {
            Ok(b) => cell_text(b, render),
            Err(_) => vstd::pervasive::unreached(),
        };
        line.push(cell);
        at += 1;
    }
}

/// The first three and the last three of the names, with dots between.
fn abridged_header(header: &Vec<String>) -> (line: Vec<String>)
    requires
        header@.len() >= 3,
    ensures
        header_shown(names(header@), names(line@), false),
{
    let n = header.len();
    let mut line: Vec<String> = Vec::new();
    line.push(header[0].clone());
    line.push(header[1].clone());
    line.push(header[2].clone());
    line.push(dots_text());
    line.push(header[n - 3].clone());
    line.push(header[n - 2].clone());
    line.push(header[n - 1].clone());
    proof {
        let want = names(header@).take(3).push(dots()) + names(header@).skip(n - 3);
        assert(names(line@) =~= want);
    }
    line
}

/// The first three and the last three values of a row written out, with
/// dots between.
fn abridged_row<F: Fn(u64) -> String>(row: &Series, render: &F) -> (line: Vec<String>)
    requires
        row@.len() >= 3,
        forall|x: u64| call_requires(*render, (x,)),
    ensures
        row_shown(*render, row@, names(line@), false),
{
    let m = row.size();
    let mut line: Vec<String> = Vec::new();
    push_cells(&mut line, row, 0, 3, render);
    let ghost head = line@;
    line.push(dots_text());
    let ghost half = line@;
    push_cells(&mut line, row, m - 3, m, render);
    proof {
        let shown = names(line@);
        assert(shown[3] == dots()) by {
            assert(line@[3] == half[3]);
        }
        assert forall|k: int| 0 <= k < 3 implies is_written(*render, row@[k], #[trigger] shown[k]) by {
            assert(line@[k] == half[k]);
            assert(half[k] == head[k]);
            assert(is_written(*render, row@[0 + k], head[0 + k]@));
        }
        assert forall|k: int| 0 <= k < 3 implies is_written(*render, row@[row@.len() - 3 + k], #[trigger] shown[4 + k]) by {
            assert(is_written(*render, row@[(m - 3) + k], line@[half.len() + k]@));
        }
    }
    line
}

/// A line of seven cells of dots.
fn dotted() -> (line: Vec<String>)
    ensures
        names(line@) == dotted_line(),
{
    let mut line: Vec<String> = Vec::new();
    let mut k: usize = 0;
    while k < 7
        invariant
            k <= 7,
            line@.len() == k,
            forall|j: int| 0 <= j < k ==> (#[trigger] line@[j])@ == dots(),
        decreases 7 - k,
    {
        line.push(dots_text());
        k += 1;
    }
    proof {
        assert(names(line@) =~= dotted_line());
    }
    line
}

impl DataFrame {
    /// The short form of the table, line by line and cell by cell: see
    /// [`is_preview`]. A missing value is written `NaN`; a present one as
    /// `render` writes it. A table that is to be abridged and has fewer than
    /// three rows or fewer than three columns has no short form: that is
    /// `IndexOutOfRange`.
    pub fn preview<F: Fn(u64) -> String>(&self, render: &F) -> (r: Result<Vec<Vec<String>>, FrameError>)
        requires
            forall|b: u64| call_requires(*render, (b,)),
        ensures
            ({
                let rows = self@.rows().len();
                let cols = self@.columns.len();
                let short = !shown_whole(rows, cols) && (rows < PREVIEW_EDGE || cols < PREVIEW_EDGE);
                &&& short ==> r == Err::<Vec<Vec<String>>, FrameError>(FrameError::IndexOutOfRange)
                &&& !short ==> r.is_ok() && is_preview(*render, self@, line_texts(r.unwrap()@))
            }),
    {
        let header = self.header();
        let rows = self.rows();
        let n = rows.len();
        let width = self.size();
        proof {
            assert forall|i: int| 0 <= i < n implies (#[trigger] rows@[i])@.len() == width by {
                assert(views(rows@)[i] == rows@[i]@);
                assert(self@.rows().len() == n);
                assert(self@.columns.len() > 0);
                assert(transposed(self@.columns)[i].len() == self@.columns.len());
            }
        }
        let mut lines: Vec<Vec<String>> = Vec::new();
        if n < PREVIEW_LIMIT && width < PREVIEW_LIMIT {
            let mut first: Vec<String> = Vec::new();
            let mut j: usize = 0;
            while j < width
                invariant
                    width == header@.len(),
                    j <= width,
                    first@.len() == j,
                    forall|k: int| 0 <= k < j ==> (#[trigger] first@[k])@ == header@[k]@,
                decreases width - j,
            {
                first.push(header[j].clone());
                j += 1;
            }
            proof {
                assert(names(first@) =~= self@.header);
            }
            lines.push(first);
            let mut i: usize = 0;
            while i < n
                invariant
                    n == rows@.len(),
                    i <= n,
                    lines@.len() == i + 1,
                    names(lines@[0]@) == self@.header,
                    forall|x: u64| call_requires(*render, (x,)),
                    views(rows@) == self@.rows(),
                    forall|k: int| 0 <= k < i ==> row_shown(*render, self@.rows()[k], names((#[trigger] lines@[k + 1])@), true),
                decreases n - i,
            {
                let row = &rows[i];
                let mut line: Vec<String> = Vec::new();
                push_cells(&mut line, row, 0, row.size(), render);
                proof {
                    assert forall|k: int| 0 <= k < row@.len() implies is_written(
                        *render,
                        row@[k],
                        #[trigger] names(line@)[k],
                    ) by {
                        assert(is_written(*render, row@[0 + k], line@[0 + k]@));
                    }
                    assert(all_written(*render, row@, names(line@)));
                    assert(views(rows@)[i as int] == rows@[i as int]@);
                }
                lines.push(line);
                i += 1;
            }
            proof {
                let shown = line_texts(lines@);
                assert forall|k: int| 0 <= k < n implies row_shown(*render, self@.rows()[k], #[trigger] shown[k + 1], true) by {
                    assert(row_shown(*render, self@.rows()[k], names(lines@[k + 1]@), true));
                }
                assert(shown[0] == self@.header);
            }
            return Ok(lines);
        }
        if n < PREVIEW_EDGE || width < PREVIEW_EDGE {
            return Err(FrameError::IndexOutOfRange);
        }
        lines.push(abridged_header(header));
        lines.push(abridged_row(&rows[0], render));
        lines.push(abridged_row(&rows[1], render));
        lines.push(abridged_row(&rows[2], render));
        lines.push(dotted());
        lines.push(abridged_row(&rows[n - 3], render));
        lines.push(abridged_row(&rows[n - 2], render));
        lines.push(abridged_row(&rows[n - 1], render));
        proof {
            let shown = line_texts(lines@);
            let all = self@.rows();
            assert(shown[4] == dotted_line());
            assert forall|i: int| 0 <= i < 3 implies row_shown(*render, all[i], #[trigger] shown[1 + i], false) by {
                assert(views(rows@)[i] == rows@[i]@);
            }
            assert forall|i: int| 0 <= i < 3 implies row_shown(
                *render,
                all[all.len() - 3 + i],
                #[trigger] shown[5 + i],
                false,
            ) by {
                assert(views(rows@)[n - 3 + i] == rows@[n - 3 + i]@);
            }
        }
        Ok(lines)
    }
}

} // verus!
