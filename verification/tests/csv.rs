use rusty_pandas::csv::read_csv;
use rusty_pandas::dataframe::DataFrame;
use rusty_pandas::error::FrameError;
use rusty_pandas::series::Series;
use rusty_pandas::text::{decimal_string, is_csv_path, is_whitespace, join_texts, trim_end};

fn series(values: &[f64]) -> Series {
    Series::new(values.iter().map(|x| x.to_bits()).collect())
}

fn floats(s: &Series) -> Vec<f64> {
    s.to_vec().into_iter().map(f64::from_bits).collect()
}

fn names(list: &[&str]) -> Vec<String> {
    list.iter().map(|s| s.to_string()).collect()
}

fn render(b: u64) -> String {
    f64::from_bits(b).to_string()
}

fn parse(field: &str) -> Option<u64> {
    field.parse::<f64>().ok().map(f64::to_bits)
}

#[test]
fn white_space_is_unicode_white_space() {
    for code in 0..=0x10FFFFu32 {
        if let Some(c) = char::from_u32(code) {
            assert_eq!(is_whitespace(c), c.is_whitespace(), "U+{code:04X}");
        }
    }
}

#[test]
fn trim_end_cuts_trailing_white_space() {
    for text in ["", " ", "a", "a \n", " a b\t\r\n", "\n\n", "x\u{3000}", "ä \u{2003}", " lead"] {
        assert_eq!(trim_end(text), text.trim_end(), "{text:?}");
    }
}

#[test]
fn decimal_strings() {
    for n in [0usize, 1, 9, 10, 11, 99, 100, 101, 12345, usize::MAX] {
        assert_eq!(decimal_string(n), n.to_string());
    }
}

#[test]
fn csv_paths_end_in_csv() {
    assert!(is_csv_path("data.csv"));
    assert!(is_csv_path("/tmp/a/b.csv"));
    assert!(is_csv_path(".csv"));
    assert!(!is_csv_path("csv"));
    assert!(!is_csv_path("data.CSV"));
    assert!(!is_csv_path("data.csv.bak"));
    assert!(!is_csv_path(""));
    assert!(!is_csv_path("données.cs"));
    assert!(is_csv_path("données.csv"));
}

#[test]
fn join_texts_puts_the_token_between() {
    assert_eq!(join_texts(&names(&["a", "b", "c"]), ","), "a,b,c");
    assert_eq!(join_texts(&names(&["a"]), ","), "a");
    assert_eq!(join_texts(&names(&[]), ","), "");
    assert_eq!(join_texts(&names(&["", ""]), "--"), "--");
}

#[test]
fn to_csv_writes_header_and_rows() {
    let df = DataFrame::new(
        vec![series(&[0.0, 1.0, 2.0]), series(&[42.0, 21.0, 8.0]), series(&[183.0, f64::NAN, 132.5])],
        Some(names(&["UserID", "Age", "Height"])),
    )
    .unwrap();
    assert_eq!(df.to_csv(&render), "UserID,Age,Height\n0,42,183\n1,21,NaN\n2,8,132.5\n");
    let empty = DataFrame::new(vec![series(&[]), series(&[])], Some(names(&["a", "b"]))).unwrap();
    assert_eq!(empty.to_csv(&render), "a,b\n");
}

#[test]
fn read_csv_reads_header_and_rows() {
    let df = read_csv("a,b\n1,2\n3,4.5\n", &parse).unwrap();
    assert_eq!(df.header(), &names(&["a", "b"]));
    assert_eq!(floats(&df.icol(0).unwrap()), vec![1.0, 3.0]);
    assert_eq!(floats(&df.icol(1).unwrap()), vec![2.0, 4.5]);
    assert_eq!(floats(&df.irow(1).unwrap()), vec![3.0, 4.5]);
}

#[test]
fn read_csv_turns_what_is_no_number_into_a_missing_value() {
    let df = read_csv("a,b,c\n1,x,\n, 2,3", &parse).unwrap();
    let first = floats(&df.irow(0).unwrap());
    assert_eq!(first[0], 1.0);
    assert!(first[1].is_nan());
    assert!(first[2].is_nan());
    let second = floats(&df.irow(1).unwrap());
    assert!(second[0].is_nan());
    assert!(second[1].is_nan());
    assert_eq!(second[2], 3.0);
}

#[test]
fn read_csv_trims_the_end_only() {
    let df = read_csv("a,b\n1,2\n \n\t\n", &parse).unwrap();
    assert_eq!(df.size(), 2);
    assert_eq!(df.rows().len(), 1);
    let header_only = read_csv("a,b\n", &parse).unwrap();
    assert_eq!(header_only.header(), &names(&["a", "b"]));
    assert_eq!(header_only.size(), 2);
    assert_eq!(header_only.rows().len(), 0);
    let nothing = read_csv("", &parse).unwrap();
    assert_eq!(nothing.header(), &names(&[""]));
    assert_eq!(nothing.size(), 1);
}

#[test]
fn read_csv_refuses_rows_of_different_lengths() {
    assert_eq!(read_csv("a,b\n1,2\n3\n", &parse).err(), Some(FrameError::IndexOutOfRange));
    assert_eq!(read_csv("a,b\n1\n3,4\n", &parse).err(), Some(FrameError::DimensionMismatch));
    assert_eq!(read_csv("a,b\n1\n3\n", &parse).err(), Some(FrameError::DimensionMismatch));
    assert_eq!(read_csv("a\n1,2\n", &parse).err(), Some(FrameError::DimensionMismatch));
}

#[test]
fn a_table_without_rows_reads_back() {
    let df = DataFrame::new(vec![series(&[]), series(&[])], Some(names(&["a", "b"]))).unwrap();
    let text = df.to_csv(&render);
    assert_eq!(text, "a,b\n");
    let back = read_csv(&text, &parse).unwrap();
    assert!(back == df);
    assert_eq!(back.size(), 2);
}

#[test]
fn written_tables_read_back() {
    let df = DataFrame::new(
        vec![
            series(&[0.0, -1.5, 2e300, f64::INFINITY]),
            series(&[f64::NAN, 0.1, -0.0, 5e-324]),
            series(&[1.0 / 3.0, f64::NEG_INFINITY, f64::NAN, 7.0]),
        ],
        Some(names(&["x", "y y", "z"])),
    )
    .unwrap();
    let text = df.to_csv(&render);
    let back = read_csv(&text, &parse).unwrap();
    assert!(back.same_cells(&df));
    assert!(df.same_cells(&back));
    assert!(!back.equals(&df));
    assert_eq!(back.to_csv(&render), text);
    for (a, b) in df.columns().iter().zip(back.columns()) {
        for (x, y) in a.to_vec().into_iter().zip(b.to_vec()) {
            if !f64::from_bits(x).is_nan() {
                assert_eq!(x, y);
            }
        }
    }
}
