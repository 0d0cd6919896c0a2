//! Tables as CSV texts.
//!
//! A text holds the column names on its first line and one row on each line
//! behind it; the fields of a line are separated by commas.

use vstd::prelude::*;
use vstd::string::StringExecFns;
use crate::bits::{is_missing, NAN};
use crate::dataframe::{outcome, DataFrame};
use crate::dispatch::{nth, par_tabulate};
use crate::error::FrameError;
use crate::series::Series;
use crate::stats::{all_written, cells_agree, is_joined, is_written, nan_text, same_cell};
use crate::split::{lemma_piece_len, lemma_split_append, lemma_split_free, par_split, split_on};
use crate::table::{assembled_rows, columns_from, rectangular, rows_table, tables_agree, views, Table};
use crate::text::{free_of, is_space, join_texts, joined, lemma_joined_free, lemma_joined_last, lemma_trimmed_prefix, names, trim_end, trimmed};

verus! {

/// One line of a CSV text: the fields joined by commas, and a line feed.
pub open spec fn line_of(fields: Seq<Seq<char>>) -> Seq<char> {
    joined(fields, seq![',']) + seq!['\n']
}

/// The lines of the given rows of fields, one after the other.
pub open spec fn lines_of(rows: Seq<Seq<Seq<char>>>) -> Seq<char>
    decreases rows.len(),
{
    if rows.len() == 0 {
        Seq::empty()
    } else {
        lines_of(rows.drop_last()) + line_of(rows.last())
    }
}

/// A CSV text: the line of the header, then one line for each row.
pub open spec fn csv_text(header: Seq<Seq<char>>, rows: Seq<Seq<Seq<char>>>) -> Seq<char> {
    line_of(header) + lines_of(rows)
}

/// The lines of a CSV text: what stands between the line feeds, once the
/// white space at the end of the text is cut off.
pub open spec fn csv_lines(text: Seq<char>) -> Seq<Seq<char>> {
    split_on(trimmed(text), '\n')
}

/// The column names of a CSV text: the fields of its first line.
pub open spec fn csv_header(text: Seq<char>) -> Seq<Seq<char>> {
    split_on(csv_lines(text)[0], ',')
}

/// The fields of data line `i` of a CSV text, the line behind the header
/// being data line 0.
pub open spec fn csv_fields(text: Seq<char>, i: int) -> Seq<Seq<char>> {
    split_on(csv_lines(text)[i + 1], ',')
}

/// The value of a field: the number read from it, or a NaN where no number
/// could be read.
pub open spec fn field_value(read: Option<u64>) -> u64 {
    match read {
        Some(b) => b,
        None => NAN,
    }
}

/// `b` is the value of the field `field`, given what reads a number.
pub open spec fn is_read<F: Fn(&str) -> Option<u64>>(parse: F, field: Seq<char>, b: u64) -> bool {
    exists|t: &str, o: Option<u64>| t@ == field && call_ensures(parse, (t,), o) && b == field_value(o)
}

/// `row` holds, place by place, the values of the fields `fields`.
pub open spec fn row_read<F: Fn(&str) -> Option<u64>>(parse: F, fields: Seq<Seq<char>>, row: Seq<u64>) -> bool {
    &&& row.len() == fields.len()
    &&& forall|k: int| 0 <= k < fields.len() ==> is_read(parse, fields[k], #[trigger] row[k])
}

/// Splitting what was joined by a delimiter gives back the parts, where
/// there is at least one part and no part holds the delimiter.
pub proof fn lemma_split_joined(parts: Seq<Seq<char>>, d: char)
    requires
        parts.len() >= 1,
        forall|i: int| 0 <= i < parts.len() ==> free_of(#[trigger] parts[i], d),
    ensures
        split_on(joined(parts, seq![d]), d) == parts,
    decreases parts.len(),
{
    if parts.len() == 1 {
        lemma_split_free(parts[0], d);
        assert(seq![parts[0]] =~= parts);
    } else {
        let front = parts.drop_last();
        let a = joined(front, seq![d]);
        assert forall|i: int| 0 <= i < front.len() implies free_of(#[trigger] front[i], d) by {
            assert(free_of(parts[i], d));
        }
        lemma_split_joined(front, d);
        assert(a + seq![d] =~= a.push(d));
        assert(a.push(d).drop_last() =~= a);
        assert(split_on(a.push(d), d) == front.push(Seq::<char>::empty()));
        assert(free_of(parts[parts.len() - 1], d));
        lemma_split_append(a.push(d), parts.last(), d);
        let q = front.push(Seq::<char>::empty());
        assert(q.drop_last() =~= front);
        assert(q.last() + parts.last() =~= parts.last());
        assert(front.push(parts.last()) =~= parts);
    }
}

/// A field that can stand in a CSV text: it holds no comma and no line feed.
pub open spec fn is_field(f: Seq<char>) -> bool {
    free_of(f, ',') && free_of(f, '\n')
}

/// Fields that can stand on a line of a CSV text: at least one, each of them
/// a field.
pub open spec fn is_line(fields: Seq<Seq<char>>) -> bool {
    &&& fields.len() >= 1
    &&& forall|k: int| 0 <= k < fields.len() ==> is_field(#[trigger] fields[k])
}

/// The last of the fields holds something and does not end in white space,
/// so that trimming the end of a text leaves a line of these fields whole.
pub open spec fn ends_visibly(fields: Seq<Seq<char>>) -> bool {
    fields.len() >= 1 && fields.last().len() > 0 && !is_space(fields.last().last())
}

/// The lines of a CSV text, as lists of fields: the header, then the rows.
pub open spec fn all_lines(header: Seq<Seq<char>>, rows: Seq<Seq<Seq<char>>>) -> Seq<Seq<Seq<char>>> {
    seq![header] + rows
}

/// The lines of a CSV text, each with its fields joined by commas.
pub open spec fn line_texts(lines: Seq<Seq<Seq<char>>>) -> Seq<Seq<char>> {
    Seq::new(lines.len(), |i: int| joined(lines[i], seq![',']))
}

/// A CSV text is its lines joined by line feeds, with one more line feed at
/// the end.
proof fn lemma_csv_text_joined(header: Seq<Seq<char>>, rows: Seq<Seq<Seq<char>>>)
    ensures
        csv_text(header, rows) == joined(line_texts(all_lines(header, rows)), seq!['\n']) + seq!['\n'],
    decreases rows.len(),
{
    let nl = seq!['\n'];
    let texts = line_texts(all_lines(header, rows));
    if rows.len() == 0 {
        assert(texts =~= seq![joined(header, seq![','])]);
        assert(lines_of(rows) =~= Seq::<char>::empty());
        assert(csv_text(header, rows) =~= joined(texts, nl) + nl);
    } else {
        let front = rows.drop_last();
        lemma_csv_text_joined(header, front);
        let front_texts = line_texts(all_lines(header, front));
        assert(texts.drop_last() =~= front_texts);
        assert(texts.last() == joined(rows.last(), seq![',']));
        assert(csv_text(header, rows) =~= joined(texts, nl) + nl);
    }
}

/// What is written is read back, field by field: a CSV text made of a header
/// and rows has that header, as many data lines as there were rows, and on
/// each of them the fields of the row.
///
/// This holds of lines of at least one field, of fields without a comma or a
/// line feed, and where the last field of the last line holds something that
/// does not end in white space.
pub proof fn lemma_csv_round_trip(header: Seq<Seq<char>>, rows: Seq<Seq<Seq<char>>>)
    requires
        is_line(header),
        forall|i: int| 0 <= i < rows.len() ==> is_line(#[trigger] rows[i]),
        ends_visibly(all_lines(header, rows).last()),
    ensures
        csv_header(csv_text(header, rows)) == header,
        csv_lines(csv_text(header, rows)).len() == rows.len() + 1,
        forall|i: int| 0 <= i < rows.len() ==> #[trigger] csv_fields(csv_text(header, rows), i) == rows[i],
{
    let text = csv_text(header, rows);
    let lines = all_lines(header, rows);
    let texts = line_texts(lines);
    let nl = seq!['\n'];
    let body = joined(texts, nl);
    lemma_csv_text_joined(header, rows);
    assert forall|i: int| 0 <= i < lines.len() implies is_line(#[trigger] lines[i]) by {
        if i > 0 {
            assert(lines[i] == rows[i - 1]);
        }
    }
    assert forall|i: int| 0 <= i < texts.len() implies free_of(#[trigger] texts[i], '\n') by {
        assert(is_line(lines[i]));
        assert forall|k: int| 0 <= k < lines[i].len() implies free_of(#[trigger] lines[i][k], '\n') by {
            assert(is_field(lines[i][k]));
        }
        lemma_joined_free(lines[i], seq![','], '\n');
    }
    // The text ends in one line feed behind a visible character.
    assert(is_line(lines.last()));
    lemma_joined_last(lines.last(), seq![',']);
    assert(texts.last() == joined(lines.last(), seq![',']));
    lemma_joined_last(texts, nl);
    assert(text == body.push('\n')) by {
        assert(body + nl =~= body.push('\n'));
    }
    assert(body.push('\n').drop_last() =~= body);
    assert(is_space('\n'));
    assert(text.last() == '\n');
    assert(text.drop_last() == body);
    assert(trimmed(text) == trimmed(body));
    assert(body.last() == lines.last().last().last());
    assert(!is_space(body.last()));
    assert(trimmed(body) == body);
    lemma_split_joined(texts, '\n');
    assert(csv_lines(text) == texts);
    assert forall|i: int| 0 <= i < lines.len() implies split_on(#[trigger] texts[i], ',') == lines[i] by {
        assert(is_line(lines[i]));
        assert forall|k: int| 0 <= k < lines[i].len() implies free_of(#[trigger] lines[i][k], ',') by {
            assert(is_field(lines[i][k]));
        }
        lemma_split_joined(lines[i], ',');
    }
    assert(split_on(texts[0], ',') == lines[0]);
    assert forall|i: int| 0 <= i < rows.len() implies #[trigger] csv_fields(text, i) == rows[i] by {
        assert(split_on(texts[i + 1], ',') == lines[i + 1]);
        assert(lines[i + 1] == rows[i]);
    }
}

/// What `render` writes for a present value can stand as the last field of
/// a CSV text: it is a field, holds something, and does not end in white
/// space.
pub open spec fn writes_fields<R: Fn(u64) -> String>(render: R) -> bool {
    forall|b: u64, text: Seq<char>|
        !is_missing(b) && #[trigger] is_written(render, b, text) ==> is_field(text) && text.len() > 0
            && !is_space(text.last())
}

/// What `parse` reads from the written form of a value agrees with the
/// value: it is missing where the value is, and else equals it as a number.
pub open spec fn reads_back<R: Fn(u64) -> String, P: Fn(&str) -> Option<u64>>(render: R, parse: P) -> bool {
    forall|b: u64, text: Seq<char>, v: u64|
        #[trigger] is_written(render, b, text) && #[trigger] is_read(parse, text, v) ==> same_cell(v, b)
}

/// A table that is written as a CSV text and read back agrees with itself
/// cell by cell, missing values compared by their place.
///
/// Here `texts` is how the rows were written and `grid` what was read from
/// the text, as [`DataFrame::to_csv`] and [`read_csv`] relate them to the
/// table and the text. The law holds of a table with at least one column
/// whose names are fields, the last of them one that holds something and
/// does not end in white space where the table has no row; and it holds
/// given that the writer writes fields and the reader reads back what the
/// writer wrote.
pub proof fn lemma_table_round_trip<R: Fn(u64) -> String, P: Fn(&str) -> Option<u64>>(
    render: R,
    parse: P,
    t: Table,
    texts: Seq<Seq<Seq<char>>>,
    grid: Seq<Seq<u64>>,
)
    requires
        t.header.len() == t.columns.len(),
        rectangular(t.columns),
        t.columns.len() > 0,
        is_line(t.header),
        t.rows().len() > 0 || ends_visibly(t.header),
        writes_fields(render),
        reads_back(render, parse),
        texts.len() == t.rows().len(),
        forall|i: int| 0 <= i < texts.len() ==> all_written(render, t.rows()[i], #[trigger] texts[i]),
        grid.len() == csv_lines(csv_text(t.header, texts)).len() - 1,
        forall|i: int|
            0 <= i < grid.len() ==> row_read(parse, csv_fields(csv_text(t.header, texts), i), #[trigger] grid[i]),
    ensures
        csv_header(csv_text(t.header, texts)) == t.header,
        rows_table(grid, Some(csv_header(csv_text(t.header, texts)))) is Ok,
        tables_agree(rows_table(grid, Some(csv_header(csv_text(t.header, texts))))->Ok_0, t),
{
    let rows = t.rows();
    let width = t.columns.len();
    let text = csv_text(t.header, texts);
    assert forall|i: int| 0 <= i < texts.len() implies is_line(#[trigger] texts[i]) && ends_visibly(texts[i]) by {
        assert(all_written(render, rows[i], texts[i]));
        assert(rows[i].len() == width);
        assert forall|k: int| 0 <= k < texts[i].len() implies is_field(#[trigger] texts[i][k]) && texts[i][k].len()
            > 0 && !is_space(texts[i][k].last()) by {
            assert(is_written(render, rows[i][k], texts[i][k]));
            if is_missing(rows[i][k]) {
                assert(texts[i][k] == nan_text());
                assert(nan_text().last() == 'N');
            }
        }
    }
    if texts.len() > 0 {
        assert(all_lines(t.header, texts).last() == texts.last());
    } else {
        assert(all_lines(t.header, texts) =~= seq![t.header]);
    }
    lemma_csv_round_trip(t.header, texts);
    assert forall|i: int| 0 <= i < grid.len() implies (#[trigger] grid[i]).len() == width && forall|k: int|
        0 <= k < width ==> same_cell(grid[i][k], rows[i][k]) by {
        assert(csv_fields(text, i) == texts[i]);
        assert(row_read(parse, texts[i], grid[i]));
        assert(all_written(render, rows[i], texts[i]));
        assert(rows[i].len() == width);
        assert forall|k: int| 0 <= k < width implies same_cell(grid[i][k], rows[i][k]) by {
            assert(is_written(render, rows[i][k], texts[i][k]));
            assert(is_read(parse, texts[i][k], grid[i][k]));
        }
    }
    assert(rectangular(grid)) by {
        assert forall|i: int| 0 <= i < grid.len() implies (#[trigger] grid[i]).len() == grid[0].len() by {
            assert(grid[i].len() == width);
            assert(grid[0].len() == width);
        }
    }
    let back = columns_from(grid, t.header.len());
    assert forall|j: int| 0 <= j < width implies cells_agree(#[trigger] back[j], t.columns[j]) by {
        assert(t.columns[j].len() == t.columns[0].len());
        assert forall|i: int| 0 <= i < t.columns[j].len() implies same_cell(#[trigger] back[j][i], t.columns[j][i]) by {
            assert(grid[i].len() == width);
            assert(same_cell(grid[i][j], rows[i][j]));
        }
    }
}

impl DataFrame {
    /// The table as a CSV text: the column names joined by commas on the
    /// first line, then each row on a line of its own, its values written out
    /// and joined by commas. Every line ends in a line feed. A missing value
    /// is written `NaN`; a present one as `render` writes it.
    pub fn to_csv<F: Fn(u64) -> String + Sync + Send>(&self, render: &F) -> (r: String)
        requires
            forall|b: u64| call_requires(*render, (b,)),
        ensures
            exists|texts: Seq<Seq<Seq<char>>>|
                {
                    &&& texts.len() == self@.rows().len()
                    &&& forall|i: int|
                        0 <= i < texts.len() ==> all_written(*render, self@.rows()[i], #[trigger] texts[i])
                    &&& r@ == csv_text(self@.header, texts)
                },
    {
        let mut out = join_texts(self.header(), ",");
        out.append("\n");
        proof {
            reveal_strlit(",");
            reveal_strlit("\n");
            assert(","@ =~= seq![',']);
            assert("\n"@ =~= seq!['\n']);
        }
        let rows = self.rows();
        let writer = render;
        let line_at = |i: usize| -> (line: String)
            requires
                rows@.len() > i,
                forall|b: u64| call_requires(*writer, (b,)),
            ensures
                is_joined(*writer, nth(rows@, i)@, seq![','], line@)
            {
                proof {
                    reveal_strlit(",");
                    assert(","@ =~= seq![',']);
                }
                rows[i].join(",", writer)
            };
        let lines = par_tabulate(rows.len(), line_at);
        let ghost texts = Seq::new(
            rows@.len(),
            |i: int|
                choose|t: Seq<Seq<char>>|
                    all_written(*render, rows@[i]@, t) && lines@[i]@ == joined(t, seq![',']),
        );
        proof {
            assert forall|i: int| 0 <= i < rows@.len() implies all_written(*render, rows@[i]@, #[trigger] texts[i])
                && lines@[i]@ == joined(texts[i], seq![',']) by {
                let w = i as usize;
                assert(nth(rows@, w) == rows@[i]);
                assert(call_ensures(line_at, (w,), lines@[w as int]));
                assert(is_joined(*render, rows@[i]@, seq![','], lines@[i]@));
            }
            assert(texts.take(0) =~= Seq::<Seq<Seq<char>>>::empty());
            assert(out@ + lines_of(texts.take(0)) =~= out@);
        }
        let ghost head = out@;
        proof {
            assert(head == line_of(self@.header));
        }
        let mut i: usize = 0;
        while i < lines.len()
            invariant
                i <= lines@.len(),
                lines@.len() == texts.len(),
                "\n"@ == seq!['\n'],
                forall|k: int| 0 <= k < texts.len() ==> (#[trigger] lines@[k])@ == joined(texts[k], seq![',']),
                out@ == head + lines_of(texts.take(i as int)),
            decreases lines@.len() - i,
        {
            proof {
                assert(texts.take(i + 1).drop_last() =~= texts.take(i as int));
                assert(texts.take(i + 1).last() == texts[i as int]);
            }
            out.append(lines[i].as_str());
            out.append("\n");
            proof {
                assert(out@ =~= head + lines_of(texts.take(i + 1)));
            }
            i += 1;
        }
        proof {
            assert(texts.take(texts.len() as int) =~= texts);
            assert forall|i: int| 0 <= i < texts.len() implies all_written(
                *render,
                self@.rows()[i],
                #[trigger] texts[i],
            ) by {
                assert(views(rows@)[i] == rows@[i]@);
            }
            assert(texts.len() == self@.rows().len());
            assert(out@ == csv_text(self@.header, texts));
        }
        out
    }
}

/// The field as a value: what `parse` reads from it, or a NaN.
fn read_field<F: Fn(&str) -> Option<u64>>(field: &str, parse: &F) -> (b: u64)
    requires
        forall|t: &str| call_requires(*parse, (t,)),
    ensures
        is_read(*parse, field@, b),
{
    match parse(field) {
        Some(b) => b,
        None => NAN,
    }
}

/// The table that a CSV text describes.
///
/// White space at the end of the text is cut off. The first line holds the
/// column names, separated by commas. Each line behind it is a row of fields,
/// separated by commas; a field from which `parse` reads no number stands for
/// a missing value. Rows that are not of one length make no table: the
/// result is `IndexOutOfRange` where a row is shorter than the first, and
/// `DimensionMismatch` where none is shorter but one is longer.
pub fn read_csv<F>(text: &str, parse: &F) -> (r: Result<DataFrame, FrameError>) where
    F: Fn(&str) -> Option<u64> + Sync + Send,

    requires
        text@.len() < i32::MAX,
        forall|t: &str| call_requires(*parse, (t,)),
    ensures
        exists|grid: Seq<Seq<u64>>, header: Vec<String>|
            {
                &&& names(header@) == csv_header(text@)
                &&& grid.len() == csv_lines(text@).len() - 1
                &&& forall|i: int|
                    0 <= i < grid.len() ==> row_read(*parse, csv_fields(text@, i), #[trigger] grid[i])
                &&& outcome(r) == assembled_rows(grid, Some(header))
            },
{
    let content = trim_end(text);
    proof {
        lemma_trimmed_prefix(text@);
    }
    let lines = par_split(content, '\n');
    proof {
        assert forall|j: int| 0 <= j < lines@.len() implies (#[trigger] lines@[j])@.len() < i32::MAX by {
            lemma_piece_len(content@, '\n', j);
        }
    }
    let names_line = par_split(lines[0], ',');
    let mut header_row: Vec<String> = Vec::new();
    let mut k: usize = 0;
    while k < names_line.len()
        invariant
            k <= names_line@.len(),
            header_row@.len() == k,
            forall|j: int| 0 <= j < k ==> (#[trigger] header_row@[j])@ == names_line@[j]@,
        decreases names_line@.len() - k,
    {
        header_row.push(String::from_str(names_line[k]));
        k += 1;
    }
    proof {
        assert(names(header_row@) =~= csv_header(text@));
    }
    let all = &lines;
    let reader = parse;
    let data = par_tabulate(
        lines.len() - 1,
        |i: usize| -> (row: Series)
            requires
                all@.len() > i + 1,
                nth(all@, (i + 1) as usize)@.len() < i32::MAX,
                forall|t: &str| call_requires(*reader, (t,)),
            ensures
                row_read(*reader, split_on(nth(all@, (i + 1) as usize)@, ','), row@)
            {
                let fields = par_split(all[i + 1], ',');
                let mut cells: Vec<u64> = Vec::new();
                let mut c: usize = 0;
                while c < fields.len()
                    invariant
                        c <= fields@.len(),
                        cells@.len() == c,
                        forall|t: &str| call_requires(*reader, (t,)),
                        forall|j: int| 0 <= j < c ==> is_read(*reader, fields@[j]@, #[trigger] cells@[j]),
                    decreases fields@.len() - c,
                {
                    cells.push(read_field(fields[c], reader));
                    c += 1;
                }
                Series::new(cells)
            },
    );
    proof {
        let grid = views(data@);
        assert forall|i: int| 0 <= i < grid.len() implies row_read(
            *parse,
            csv_fields(text@, i),
            #[trigger] grid[i],
        ) by {
            let w = i as usize;
            assert(nth(all@, (w + 1) as usize) == lines@[i + 1]);
            assert(row_read(*reader, split_on(nth(all@, (w + 1) as usize)@, ','), data@[w as int]@));
        }
    }
    DataFrame::from_rows(data, Some(header_row))
}

} // verus!
