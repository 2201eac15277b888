use stool::merge::{merge, Error, Options};
use stool::record::{Record, Table};

fn opts(sort: &str) -> Options {
    Options { sort_column: sort.to_string(), delimiter: ',' }
}

fn run(files: &[&str], key: &str, sort: &str) -> Result<String, Error> {
    let data: Vec<Vec<u8>> = files.iter().map(|f| f.as_bytes().to_vec()).collect();
    let keys = vec![key.to_string()];
    let mut out = Vec::new();
    merge(&data, &keys, &mut out, opts(sort)).map(|_| String::from_utf8(out).unwrap())
}

#[test]
fn later_file_wins_for_equal_keys() {
    let a = "id,date,v\n1,2021-01-02,old\n2,2021-01-01,x\n";
    let b = "id,date,v\n1,2021-01-02,new\n";
    let out = run(&[a, b], "id", "date").unwrap();
    assert_eq!(out, "id,date,v\n2,2021-01-01,x\n1,2021-01-02,new\n");
}

#[test]
fn later_row_wins_within_one_file() {
    let a = "id,v\n1,first\n1,second\n";
    assert_eq!(run(&[a], "id", "v").unwrap(), "id,v\n1,second\n");
}

#[test]
fn merging_a_file_with_itself_changes_nothing() {
    let a = "id,date\n3,c\n1,a\n2,b\n";
    let once = run(&[a], "id", "date").unwrap();
    let thrice = run(&[a, a, a], "id", "date").unwrap();
    assert_eq!(once, thrice);
    assert_eq!(once, "id,date\n1,a\n2,b\n3,c\n");
}

#[test]
fn output_is_sorted_by_raw_bytes_then_key() {
    let a = "id,s\nb,2\na,2\nc,10\n";
    assert_eq!(run(&[a], "id", "s").unwrap(), "id,s\nc,10\na,2\nb,2\n");
}

#[test]
fn numeric_selectors_are_positions() {
    let a = "id,s\nx,2\ny,1\n";
    let data = vec![a.as_bytes().to_vec()];
    let mut out = Vec::new();
    let outcome = merge(&data, &vec!["0".to_string()], &mut out, opts("+1")).unwrap();
    assert_eq!(outcome.key_column_indices, vec![0]);
    assert_eq!(outcome.sort_column_index, 1);
    assert_eq!(outcome.delimiter, b',');
    assert_eq!(String::from_utf8(out).unwrap(), "id,s\ny,1\nx,2\n");
}

#[test]
fn semicolon_input_comma_output() {
    let data = vec![b"id;v\n1;a\n".to_vec()];
    let mut out = Vec::new();
    merge(&data, &vec!["id".to_string()], &mut out, Options { sort_column: "v".into(), delimiter: ';' }).unwrap();
    assert_eq!(out, b"id,v\n1,a\n");
}

#[test]
fn no_input_is_an_error() {
    assert!(matches!(run(&[], "id", "id"), Err(Error::NoInput)));
}

#[test]
fn wide_delimiter_is_an_error() {
    let data = vec![b"id\n1\n".to_vec()];
    let mut out = Vec::new();
    let r = merge(&data, &vec!["id".to_string()], &mut out, Options { sort_column: "id".into(), delimiter: '€' });
    assert!(matches!(r, Err(Error::InvalidDelimiter('€'))));
    assert!(out.is_empty());
}

#[test]
fn missing_columns_are_errors() {
    let a = "id,v\n1,a\n";
    match run(&[a], "nope", "v") {
        Err(Error::MissingColumn { name, role }) => {
            assert_eq!(name, "nope");
            assert_eq!(role, stool::merge::ColumnRole::Key);
        }
        _ => panic!("expected a missing key column"),
    }
    match run(&[a], "id", "7") {
        Err(Error::MissingColumn { name, role }) => {
            assert_eq!(name, "7");
            assert_eq!(role, stool::merge::ColumnRole::Sort);
        }
        _ => panic!("expected a missing sort column"),
    }
}

#[test]
fn schema_change_is_an_error() {
    match run(&["id,v\n1,a\n", "id,w\n1,a\n"], "id", "id") {
        Err(Error::SchemaChange { previous, current }) => {
            assert_eq!(previous, vec![b"id".to_vec(), b"v".to_vec()]);
            assert_eq!(current, vec![b"id".to_vec(), b"w".to_vec()]);
        }
        _ => panic!("expected a schema change"),
    }
}

#[test]
fn short_row_is_a_row_error() {
    let t = Table {
        header: vec![b"a".to_vec(), b"b".to_vec()],
        records: vec![Record { line: 2, fields: vec![b"1".to_vec()] }],
    };
    let r = stool::merge::merge_tables(&vec![t], &vec!["b".to_string()], &"a".to_string());
    assert!(matches!(r, Err(Error::ColumnMissingInRow { line: 2, key_column_index: 1 })));
}

#[test]
fn unequal_row_lengths_are_csv_errors() {
    assert!(matches!(run(&["id,v\n1\n"], "id", "id"), Err(Error::Csv(_))));
}

#[test]
fn schema_change_comes_before_a_later_unreadable_file() {
    let r = run(&["id,v\n1,a\n", "id,w\n1,a\n", "id,v\n1\n"], "id", "id");
    assert!(matches!(r, Err(Error::SchemaChange { .. })));
}

#[test]
fn unreadable_later_file_is_a_csv_error() {
    let r = run(&["id,v\n1,a\n", "id,v\n2\n"], "id", "id");
    assert!(matches!(r, Err(Error::Csv(_))));
}

#[test]
fn first_unresolved_key_is_named() {
    let data = vec![b"id,v\n1,a\n".to_vec()];
    let mut out = Vec::new();
    let keys = vec!["id".to_string(), "x".to_string(), "y".to_string()];
    match merge(&data, &keys, &mut out, opts("v")) {
        Err(Error::MissingColumn { name, .. }) => assert_eq!(name, "x"),
        _ => panic!("expected a missing key column"),
    }
}
