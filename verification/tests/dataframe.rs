use rusty_pandas::dataframe::{gen_default_header, transpose, DataFrame};
use rusty_pandas::error::FrameError;
use rusty_pandas::series::Series;

fn series(values: &[f64]) -> Series {
    Series::new(values.iter().map(|x| x.to_bits()).collect())
}

fn floats(s: &Series) -> Vec<f64> {
    s.to_vec().into_iter().map(f64::from_bits).collect()
}

fn grid(list: &Vec<Series>) -> Vec<Vec<f64>> {
    list.iter().map(floats).collect()
}

fn names(list: &[&str]) -> Vec<String> {
    list.iter().map(|s| s.to_string()).collect()
}

fn add(a: u64, b: u64) -> u64 {
    (f64::from_bits(a) + f64::from_bits(b)).to_bits()
}

fn times(a: u64, b: u64) -> u64 {
    (f64::from_bits(a) * f64::from_bits(b)).to_bits()
}

fn divide(a: u64, n: usize) -> u64 {
    (f64::from_bits(a) / n as f64).to_bits()
}

fn spread(x: u64, mean: u64) -> u64 {
    let d = f64::from_bits(x) - f64::from_bits(mean);
    (d * d).to_bits()
}

fn root(x: u64) -> u64 {
    f64::from_bits(x).sqrt().to_bits()
}

fn midpoint(a: u64, b: u64) -> u64 {
    ((f64::from_bits(a) + f64::from_bits(b)) * 0.5).to_bits()
}

fn users() -> DataFrame {
    DataFrame::new(
        vec![series(&[0.0, 1.0, 2.0]), series(&[42.0, 21.0, 8.0]), series(&[183.0, 160.0, 132.0])],
        Some(names(&["UserID", "Age", "Height"])),
    )
    .unwrap()
}

fn with_gaps() -> DataFrame {
    DataFrame::new(
        vec![series(&[0.0, 1.0, 2.0]), series(&[42.0, 21.0, 8.0]), series(&[f64::NAN, 160.0, 132.0])],
        Some(names(&["UserID", "Age", "Height"])),
    )
    .unwrap()
}

#[test]
fn default_header_counts_from_zero() {
    assert_eq!(gen_default_header(0), Vec::<String>::new());
    assert_eq!(gen_default_header(3), names(&["0", "1", "2"]));
    let many = gen_default_header(1234);
    for (i, name) in many.iter().enumerate() {
        assert_eq!(name, &i.to_string());
    }
}

#[test]
fn transpose_turns_columns_into_rows() {
    let cols = vec![series(&[1.0, 2.0, 3.0]), series(&[4.0, 5.0, 6.0])];
    let rows = transpose(&cols).unwrap();
    assert_eq!(grid(&rows), vec![vec![1.0, 4.0], vec![2.0, 5.0], vec![3.0, 6.0]]);
    assert_eq!(grid(&transpose(&rows).unwrap()), grid(&cols));
    assert_eq!(grid(&transpose(&vec![]).unwrap()), Vec::<Vec<f64>>::new());
}

#[test]
fn transpose_of_empty_columns_loses_them() {
    let cols = vec![series(&[]), series(&[])];
    let rows = transpose(&cols).unwrap();
    assert!(rows.is_empty());
    assert!(transpose(&rows).unwrap().is_empty());
}

#[test]
fn transpose_fails_on_a_short_column() {
    let cols = vec![series(&[1.0, 2.0]), series(&[3.0])];
    assert_eq!(transpose(&cols).err(), Some(FrameError::IndexOutOfRange));
    let longer = vec![series(&[1.0]), series(&[3.0, 4.0])];
    assert_eq!(grid(&transpose(&longer).unwrap()), vec![vec![1.0, 3.0]]);
}

#[test]
fn table_of_users() {
    let df = users();
    assert_eq!(df.size(), 3);
    assert_eq!(df.cells(), Some(9));
    assert_eq!(df.header(), &names(&["UserID", "Age", "Height"]));
    assert_eq!(grid(df.rows()), vec![vec![0.0, 42.0, 183.0], vec![1.0, 21.0, 160.0], vec![2.0, 8.0, 132.0]]);
    let summed = df.sum(0, &add);
    assert_eq!(floats(&summed.loc_col("Height").unwrap()), vec![475.0]);
    assert_eq!(grid(summed.columns()), vec![vec![3.0], vec![71.0], vec![475.0]]);
    assert_eq!(summed.header(), df.header());
}

#[test]
fn new_without_header_names_columns_by_position() {
    let df = DataFrame::new(vec![series(&[1.0]), series(&[2.0])], None).unwrap();
    assert_eq!(df.header(), &names(&["0", "1"]));
    let no_rows = DataFrame::new(vec![series(&[]), series(&[])], None).unwrap();
    assert_eq!(no_rows.header(), &names(&["0", "1"]));
    assert_eq!(no_rows.size(), 2);
    assert_eq!(no_rows.cells(), Some(0));
    let nothing = DataFrame::new(vec![], None).unwrap();
    assert_eq!(nothing.size(), 0);
}

#[test]
fn new_refuses_columns_of_different_lengths() {
    let short = DataFrame::new(vec![series(&[1.0, 2.0]), series(&[3.0])], None);
    assert_eq!(short.err(), Some(FrameError::IndexOutOfRange));
    let long = DataFrame::new(vec![series(&[1.0]), series(&[3.0, 4.0])], None);
    assert_eq!(long.err(), Some(FrameError::DimensionMismatch));
    let both = DataFrame::new(vec![series(&[1.0, 2.0]), series(&[1.0, 2.0, 3.0]), series(&[3.0])], None);
    assert_eq!(both.err(), Some(FrameError::IndexOutOfRange));
}

#[test]
fn new_wants_one_name_for_each_column() {
    let surplus = DataFrame::new(vec![series(&[1.0])], Some(names(&["a", "b"])));
    assert_eq!(surplus.err(), Some(FrameError::DimensionMismatch));
    let lacking = DataFrame::new(vec![series(&[1.0]), series(&[2.0])], Some(names(&["a"])));
    assert_eq!(lacking.err(), Some(FrameError::DimensionMismatch));
    let none = DataFrame::new(vec![series(&[1.0])], Some(vec![]));
    assert_eq!(none.err(), Some(FrameError::DimensionMismatch));
    let ragged = DataFrame::new(vec![series(&[1.0, 2.0]), series(&[3.0])], Some(names(&["a"])));
    assert_eq!(ragged.err(), Some(FrameError::IndexOutOfRange));
    let empty = DataFrame::new(vec![], Some(vec![])).unwrap();
    assert_eq!(empty.size(), 0);
}

#[test]
fn from_rows_transposes() {
    let df = DataFrame::from_rows(vec![series(&[1.0, 2.0]), series(&[3.0, 4.0]), series(&[5.0, 6.0])], None).unwrap();
    assert_eq!(grid(df.columns()), vec![vec![1.0, 3.0, 5.0], vec![2.0, 4.0, 6.0]]);
    assert_eq!(df.header(), &names(&["0", "1"]));
    let short = DataFrame::from_rows(vec![series(&[1.0, 2.0]), series(&[3.0])], None);
    assert_eq!(short.err(), Some(FrameError::IndexOutOfRange));
    let long = DataFrame::from_rows(vec![series(&[1.0]), series(&[3.0, 4.0])], None);
    assert_eq!(long.err(), Some(FrameError::DimensionMismatch));
}

#[test]
fn from_rows_under_given_names() {
    let df = DataFrame::from_rows(vec![series(&[1.0, 2.0])], Some(names(&["a", "b"]))).unwrap();
    assert_eq!(grid(df.columns()), vec![vec![1.0], vec![2.0]]);
    assert_eq!(df.header(), &names(&["a", "b"]));
    let no_rows = DataFrame::from_rows(vec![], Some(names(&["a", "b"]))).unwrap();
    assert_eq!(no_rows.size(), 2);
    assert_eq!(grid(no_rows.columns()), vec![Vec::<f64>::new(), Vec::<f64>::new()]);
    assert_eq!(no_rows.rows().len(), 0);
    let narrow = DataFrame::from_rows(vec![series(&[1.0])], Some(names(&["a", "b"])));
    assert_eq!(narrow.err(), Some(FrameError::DimensionMismatch));
    let nothing = DataFrame::from_rows(vec![], None).unwrap();
    assert_eq!(nothing.size(), 0);
}

#[test]
fn rows_and_columns_by_position() {
    let df = users();
    assert_eq!(floats(&df.irow(1).unwrap()), vec![1.0, 21.0, 160.0]);
    assert_eq!(floats(&df.icol(0).unwrap()), vec![0.0, 1.0, 2.0]);
    assert_eq!(df.irow(3).err(), Some(FrameError::IndexOutOfRange));
    assert_eq!(df.icol(3).err(), Some(FrameError::IndexOutOfRange));
}

#[test]
fn columns_by_name() {
    let df = users();
    assert_eq!(floats(&df.loc_col("Height").unwrap()), vec![183.0, 160.0, 132.0]);
    assert_eq!(floats(&df.loc_col("UserID").unwrap()), vec![0.0, 1.0, 2.0]);
    assert!(df.loc_col("Weight").is_none());
    let twice = DataFrame::new(vec![series(&[1.0]), series(&[2.0])], Some(names(&["a", "a"]))).unwrap();
    assert_eq!(floats(&twice.loc_col("a").unwrap()), vec![1.0]);
}

fn gap_in_age() -> DataFrame {
    DataFrame::new(
        vec![series(&[0.0, 1.0, 2.0]), series(&[42.0, f64::NAN, 8.0]), series(&[183.0, 160.0, 132.0])],
        Some(names(&["UserID", "Age", "Height"])),
    )
    .unwrap()
}

#[test]
fn dropna_along_columns_drops_the_column() {
    let df = gap_in_age();
    let kept = df.dropna(0);
    assert_eq!(kept.size(), 2);
    assert_eq!(kept.header(), &names(&["UserID", "Height"]));
    assert_eq!(grid(kept.columns()), vec![vec![0.0, 1.0, 2.0], vec![183.0, 160.0, 132.0]]);
    assert!(kept.loc_col("Age").is_none());
    assert_eq!(floats(&kept.loc_col("Height").unwrap()), vec![183.0, 160.0, 132.0]);
    assert_eq!(floats(&kept.loc_col("UserID").unwrap()), vec![0.0, 1.0, 2.0]);
    assert_eq!(grid(kept.rows()), vec![vec![0.0, 183.0], vec![1.0, 160.0], vec![2.0, 132.0]]);
    assert!(df.dropnull(0) == kept);
}

#[test]
fn dropna_along_rows_drops_the_row() {
    let df = gap_in_age();
    let kept = df.dropna(1);
    assert_eq!(kept.rows().len(), 2);
    assert_eq!(floats(&kept.irow(0).unwrap()), vec![0.0, 42.0, 183.0]);
    assert_eq!(floats(&kept.irow(1).unwrap()), vec![2.0, 8.0, 132.0]);
    assert_eq!(kept.irow(2).err(), Some(FrameError::IndexOutOfRange));
    assert_eq!(kept.size(), 3);
    assert_eq!(kept.header(), df.header());
    assert_eq!(grid(kept.columns()), vec![vec![0.0, 2.0], vec![42.0, 8.0], vec![183.0, 132.0]]);
    assert!(kept.columns().iter().all(|c| !c.has_missing()));
    assert!(df.dropnull(1) == kept);
}

#[test]
fn dropna_of_a_gap_in_the_first_row() {
    let df = with_gaps();
    assert_eq!(df.dropna(0).header(), &names(&["UserID", "Age"]));
    assert_eq!(grid(df.dropna(0).columns()), vec![vec![0.0, 1.0, 2.0], vec![42.0, 21.0, 8.0]]);
    assert_eq!(grid(df.dropna(1).rows()), vec![vec![1.0, 21.0, 160.0], vec![2.0, 8.0, 132.0]]);
    assert_eq!(df.dropna(1).header(), df.header());
}

#[test]
fn dropna_of_a_full_table_keeps_everything() {
    let df = users();
    assert!(df.dropna(0) == df);
    assert!(df.dropna(1) == df);
}

#[test]
fn dropna_can_leave_nothing() {
    let df = DataFrame::new(
        vec![series(&[f64::NAN, 1.0]), series(&[2.0, f64::NAN])],
        Some(names(&["a", "b"])),
    )
    .unwrap();
    let no_columns = df.dropna(0);
    assert_eq!(no_columns.size(), 0);
    assert_eq!(no_columns.header(), &Vec::<String>::new());
    assert_eq!(no_columns.rows().len(), 0);
    let no_rows = df.dropna(1);
    assert_eq!(no_rows.size(), 2);
    assert_eq!(no_rows.header(), df.header());
    assert_eq!(no_rows.rows().len(), 0);
    assert_eq!(grid(no_rows.columns()), vec![Vec::<f64>::new(), Vec::<f64>::new()]);
}

#[test]
fn reductions_along_both_axes() {
    let df = users();
    assert_eq!(grid(df.sum(1, &add).columns()), vec![vec![225.0], vec![182.0], vec![142.0]]);
    assert_eq!(df.sum(1, &add).header(), &names(&["0", "1", "2"]));
    assert_eq!(grid(df.prod(0, &times).columns()), vec![vec![0.0], vec![7056.0], vec![3864960.0]]);
    assert_eq!(grid(df.mean(0, &add, &divide).unwrap().columns()), vec![vec![1.0], vec![71.0 / 3.0], vec![475.0 / 3.0]]);
    assert_eq!(grid(df.median(0, &midpoint).unwrap().columns()), vec![vec![1.0], vec![21.0], vec![160.0]]);
    assert_eq!(grid(df.min(0).unwrap().columns()), vec![vec![0.0], vec![8.0], vec![132.0]]);
    assert_eq!(grid(df.max(0).unwrap().columns()), vec![vec![2.0], vec![42.0], vec![183.0]]);
    assert_eq!(grid(df.min(1).unwrap().columns()), vec![vec![0.0], vec![1.0], vec![2.0]]);
    assert_eq!(grid(df.max(1).unwrap().columns()), vec![vec![183.0], vec![160.0], vec![132.0]]);
    assert_eq!(grid(df.mode(0).unwrap().columns()), vec![vec![0.0], vec![8.0], vec![132.0]]);
    assert_eq!(
        grid(df.cumsum(0, &add).columns()),
        vec![vec![0.0, 1.0, 3.0], vec![42.0, 63.0, 71.0], vec![183.0, 343.0, 475.0]]
    );
    assert_eq!(
        grid(df.cumsum(1, &add).columns()),
        vec![vec![0.0, 42.0, 225.0], vec![1.0, 22.0, 182.0], vec![2.0, 10.0, 142.0]]
    );
}

#[test]
fn variance_drops_missing_values_first() {
    let df = with_gaps();
    let var = df.var(0, &add, &divide, &spread).unwrap();
    let expected = ((42.0f64 - 71.0 / 3.0).powi(2) + (21.0f64 - 71.0 / 3.0).powi(2) + (8.0f64 - 71.0 / 3.0).powi(2)) / 2.0;
    assert_eq!(grid(var.columns()), vec![vec![1.0], vec![expected]]);
    assert!((expected - 883.0 / 3.0).abs() < 1e-9);
    let std = df.std_dev(0, &add, &divide, &spread, &root).unwrap();
    assert_eq!(grid(std.columns()), vec![vec![1.0], vec![expected.sqrt()]]);
    let full = users().var(0, &add, &divide, &spread).unwrap();
    assert_eq!(full.size(), 3);
}

#[test]
fn variance_along_rows_reduces_the_complete_rows() {
    let df = gap_in_age();
    let var = df.var(1, &add, &divide, &spread).unwrap();
    let first = floats(&series(&[0.0, 42.0, 183.0]).var(&add, &divide, &spread));
    let last = floats(&series(&[2.0, 8.0, 132.0]).var(&add, &divide, &spread));
    assert_eq!(grid(var.columns()), vec![first, last]);
    assert_eq!(var.header(), &names(&["0", "1"]));
    let std = df.std_dev(1, &add, &divide, &spread, &root).unwrap();
    assert_eq!(std.size(), 2);
    assert_eq!(floats(&std.icol(1).unwrap())[0], floats(&var.icol(1).unwrap())[0].sqrt());
}

#[test]
fn reduce_applies_the_operation_to_each_series() {
    let df = users();
    let firsts = df.reduce(0, |s: &Series| s.slice(0, 1).unwrap()).unwrap();
    assert_eq!(grid(firsts.columns()), vec![vec![0.0], vec![42.0], vec![183.0]]);
    assert_eq!(firsts.header(), df.header());
    let by_row = df.reduce(1, |s: &Series| s.slice(0, 2).unwrap()).unwrap();
    assert_eq!(grid(by_row.columns()), vec![vec![0.0, 42.0], vec![1.0, 21.0], vec![2.0, 8.0]]);
    assert_eq!(by_row.header(), &names(&["0", "1", "2"]));
}

#[test]
fn reductions_of_different_lengths_make_no_table() {
    let df = DataFrame::new(vec![series(&[1.0, 1.0]), series(&[f64::NAN, f64::NAN])], None).unwrap();
    assert_eq!(df.min(0).err(), Some(FrameError::IndexOutOfRange));
    let other = DataFrame::new(vec![series(&[f64::NAN, f64::NAN]), series(&[1.0, 1.0])], None).unwrap();
    assert_eq!(other.min(0).err(), Some(FrameError::DimensionMismatch));
    let runs = DataFrame::new(vec![series(&[1.0, 1.0, 2.0]), series(&[1.0, 2.0, 3.0])], None).unwrap();
    assert_eq!(runs.mode(0).err(), Some(FrameError::IndexOutOfRange));
}

#[test]
fn apply_every_value() {
    let df = users();
    let plus_ten = df.apply(|x: u64| (f64::from_bits(x) + 10.0).to_bits());
    assert_eq!(
        grid(plus_ten.columns()),
        vec![vec![10.0, 11.0, 12.0], vec![52.0, 31.0, 18.0], vec![193.0, 170.0, 142.0]]
    );
    assert_eq!(plus_ten.header(), df.header());
    assert_eq!(grid(plus_ten.rows())[0], vec![10.0, 52.0, 193.0]);
}

#[test]
fn copy_equals_its_source() {
    let df = users();
    let copy = df.copy();
    assert!(df.equals(&copy));
    assert!(copy.equals(&df));
    assert_eq!(grid(copy.rows()), grid(df.rows()));
    assert!(!df.equals(&df.head(2)));
    assert!(df.equals(&df.dropna(1)));
    assert!(!df.equals(&gap_in_age().dropna(1)));
    let renamed = DataFrame::new(df.columns().clone(), Some(names(&["a", "b", "c"]))).unwrap();
    assert!(!df.equals(&renamed));
    let gaps = with_gaps();
    assert!(!gaps.equals(&gaps.copy()));
    assert!(gaps.same_cells(&gaps.copy()));
    assert!(!gaps.same_cells(&df));
}

#[test]
fn head_and_tail() {
    let df = users();
    assert_eq!(grid(df.head(2).columns()), vec![vec![0.0, 1.0], vec![42.0, 21.0], vec![183.0, 160.0]]);
    assert_eq!(grid(df.head(2).rows()), vec![vec![0.0, 42.0, 183.0], vec![1.0, 21.0, 160.0]]);
    assert_eq!(grid(df.head(10).columns()), grid(df.columns()));
    assert_eq!(df.head(0).cells(), Some(0));
    assert_eq!(grid(df.tail(2).unwrap().columns()), vec![vec![1.0, 2.0], vec![21.0, 8.0], vec![160.0, 132.0]]);
    assert_eq!(grid(df.tail(3).unwrap().columns()), grid(df.columns()));
    assert_eq!(df.tail(4).err(), Some(FrameError::IndexOutOfRange));
    assert_eq!(df.tail(2).unwrap().header(), df.header());
}

#[test]
fn insert_col_puts_column_and_name_in_place() {
    let df = users();
    let wider = df.insert_col(3, "Weight", series(&[100.0, 300.0, 77.0])).unwrap();
    assert_eq!(wider.header(), &names(&["UserID", "Age", "Height", "Weight"]));
    assert_eq!(floats(&wider.loc_col("Weight").unwrap()), vec![100.0, 300.0, 77.0]);
    assert_eq!(grid(wider.rows())[1], vec![1.0, 21.0, 160.0, 300.0]);
    let front = df.insert_col(0, "W", series(&[1.0, 2.0, 3.0])).unwrap();
    assert_eq!(front.header(), &names(&["W", "UserID", "Age", "Height"]));
    assert_eq!(floats(&front.icol(1).unwrap()), vec![0.0, 1.0, 2.0]);
    assert_eq!(df.size(), 3);
}

#[test]
fn insert_col_fails_beyond_the_end_or_on_a_wrong_length() {
    let df = users();
    assert_eq!(df.insert_col(4, "W", series(&[1.0, 2.0, 3.0])).err(), Some(FrameError::IndexOutOfRange));
    let nothing = DataFrame::new(vec![], None).unwrap();
    assert_eq!(nothing.insert_col(0, "W", series(&[1.0])).unwrap().header(), &names(&["W"]));
    assert_eq!(df.insert_col(5, "W", series(&[1.0, 2.0, 3.0])).err(), Some(FrameError::IndexOutOfRange));
    assert_eq!(df.insert_col(1, "W", series(&[1.0])).err(), Some(FrameError::IndexOutOfRange));
    assert_eq!(df.insert_col(1, "W", series(&[1.0, 2.0, 3.0, 4.0])).err(), Some(FrameError::DimensionMismatch));
    assert_eq!(df.insert_col(0, "W", series(&[1.0, 2.0, 3.0, 4.0])).err(), Some(FrameError::IndexOutOfRange));
}

#[test]
fn pairs_hold_names_and_columns() {
    let df = users();
    let pairs = df.to_pairs();
    assert_eq!(pairs.len(), 3);
    assert_eq!(pairs[2].0, "Height");
    assert_eq!(pairs[2].1, vec![183.0f64.to_bits(), 160.0f64.to_bits(), 132.0f64.to_bits()]);
    let back = DataFrame::from_pairs(pairs).unwrap();
    assert!(back.equals(&df));
    assert!(back == df);
    let ragged = DataFrame::from_pairs(vec![
        (String::from("a"), vec![1.0f64.to_bits(), 2.0f64.to_bits()]),
        (String::from("b"), vec![1.0f64.to_bits()]),
    ]);
    assert_eq!(ragged.err(), Some(FrameError::IndexOutOfRange));
}

#[test]
fn the_equality_operator_is_equals() {
    assert!(users() == users().copy());
    assert!(users() != with_gaps());
    assert!(with_gaps() != with_gaps());
    assert!(series(&[1.0, 0.0]) == series(&[1.0, -0.0]));
    assert!(series(&[f64::NAN]) != series(&[f64::NAN]));
}

#[test]
fn table_arithmetic_with_a_scalar() {
    let df = users();
    let minus = |a: u64, b: u64| (f64::from_bits(a) - f64::from_bits(b)).to_bits();
    let over = |a: u64, b: u64| (f64::from_bits(a) / f64::from_bits(b)).to_bits();
    assert_eq!(grid(df.plus(1.0f64.to_bits(), &add).columns())[1], vec![43.0, 22.0, 9.0]);
    assert_eq!(grid(df.sub(1.0f64.to_bits(), &minus).columns())[0], vec![-1.0, 0.0, 1.0]);
    assert_eq!(grid(df.mult(2.0f64.to_bits(), &times).columns())[2], vec![366.0, 320.0, 264.0]);
    assert_eq!(grid(df.div(2.0f64.to_bits(), &over).columns())[1], vec![21.0, 10.5, 4.0]);
    assert_eq!(df.plus(1.0f64.to_bits(), &add).header(), df.header());
    assert_eq!(grid(df.plus(1.0f64.to_bits(), &add).rows())[2], vec![3.0, 9.0, 133.0]);
}

fn render(b: u64) -> String {
    f64::from_bits(b).to_string()
}

#[test]
fn preview_of_a_small_table_is_the_table() {
    let lines = gap_in_age().preview(&render).unwrap();
    assert_eq!(
        lines,
        vec![names(&["UserID", "Age", "Height"]), names(&["0", "42", "183"]), names(&["1", "NaN", "160"]), names(&["2", "8", "132"])]
    );
    let nothing = DataFrame::new(vec![], None).unwrap();
    assert_eq!(nothing.preview(&render).unwrap(), vec![Vec::<String>::new()]);
}

#[test]
fn preview_of_a_large_table_is_abridged() {
    let cols: Vec<Series> = (0..12).map(|j| series(&(0..20).map(|i| (100 * j + i) as f64).collect::<Vec<f64>>())).collect();
    let df = DataFrame::new(cols, None).unwrap();
    let lines = df.preview(&render).unwrap();
    assert_eq!(lines.len(), 8);
    assert_eq!(lines[0], names(&["0", "1", "2", "...", "9", "10", "11"]));
    assert_eq!(lines[1], names(&["0", "100", "200", "...", "900", "1000", "1100"]));
    assert_eq!(lines[3], names(&["2", "102", "202", "...", "902", "1002", "1102"]));
    assert_eq!(lines[4], names(&["...", "...", "...", "...", "...", "...", "..."]));
    assert_eq!(lines[5], names(&["17", "117", "217", "...", "917", "1017", "1117"]));
    assert_eq!(lines[7], names(&["19", "119", "219", "...", "919", "1019", "1119"]));
    let tall = DataFrame::new(vec![series(&[1.0; 10]), series(&[2.0; 10]), series(&[3.0; 10])], None).unwrap();
    assert_eq!(tall.preview(&render).unwrap()[1], names(&["1", "2", "3", "...", "1", "2", "3"]));
}

#[test]
fn preview_fails_where_there_is_too_little_to_abridge() {
    let tall = DataFrame::new(vec![series(&[1.0; 10]), series(&[2.0; 10])], None).unwrap();
    assert_eq!(tall.preview(&render).err(), Some(FrameError::IndexOutOfRange));
    let wide = DataFrame::new((0..10).map(|_| series(&[1.0, 2.0])).collect(), None).unwrap();
    assert_eq!(wide.preview(&render).err(), Some(FrameError::IndexOutOfRange));
    let nine = DataFrame::new((0..9).map(|_| series(&[1.0; 9])).collect(), None).unwrap();
    assert_eq!(nine.preview(&render).unwrap().len(), 10);
}
