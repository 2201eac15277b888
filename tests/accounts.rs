use stool::merge_accounts::{merge_accounts, Error, Options};
use stool::sle::{Engine, Operation, Rule, Statement};

const LEDGER: &str = "Transaction Date,Amount\n2021-03-01T00:00:00Z,\"$1,000.00\"\n";
const PAYMENTS: &str = "Date,Time,Amount\n\"March 1, 2021\",00:00:05 UTC,\"€1,000,00\"\n";

fn run(max: u64, notes: Option<Engine>) -> Result<String, Error> {
    let mut out = Vec::new();
    let options = Options {
        max_distance_seconds: max,
        notes,
        number_markers: "€$".to_string(),
        ..Default::default()
    };
    merge_accounts(
        &vec![LEDGER.as_bytes().to_vec()],
        &vec![PAYMENTS.as_bytes().to_vec()],
        &mut out,
        options,
    )
    .map(|_| String::from_utf8(out).unwrap())
}

#[test]
fn close_payment_is_paired() {
    assert_eq!(
        run(10, None).unwrap(),
        "Transaction Date,Amount,Received Date,Distance [s],Date,Time,Amount\n\
2021-03-01T00:00:00Z,\"$1.000,00\",2021-03-01 00:00:05 +0000,5,\"March 1, 2021\",00:00:05 UTC,\"€1.000,00\"\n"
    );
}

#[test]
fn distant_payment_is_left_out() {
    assert_eq!(
        run(3, None).unwrap(),
        "Transaction Date,Amount,Received Date,Distance [s],Date,Time,Amount\n\
2021-03-01T00:00:00Z,\"$1.000,00\",,,,,\n"
    );
}

#[test]
fn notes_are_appended() {
    let engine = Engine {
        rules: vec![Rule {
            statements: vec![Statement {
                value_column_index: 3,
                operation: Operation::Equals,
                value: "5".into(),
            }],
            value: "late".into(),
        }],
    };
    let out = run(10, Some(engine)).unwrap();
    let first = out.lines().next().unwrap();
    assert!(first.ends_with(",Note"));
    assert!(out.lines().nth(1).unwrap().ends_with(",late"));
}

#[test]
fn defaults() {
    let o = Options::default();
    assert_eq!(o.stripe_date_column, "Date");
    assert_eq!(o.stripe_time_column, "Time");
    assert_eq!(o.github_date_column, "Transaction Date");
    assert_eq!(o.max_distance_seconds, 10);
    assert_eq!(o.number_markers, "\u{e2}\u{201a}\u{ac}$");
    assert_eq!((o.thousands_separator, o.decimal_separator), ('.', ','));
    assert!(o.notes.is_none());
}

#[test]
fn bad_payment_time_is_an_error() {
    let mut out = Vec::new();
    let r = merge_accounts(
        &vec![LEDGER.as_bytes().to_vec()],
        &vec![b"Date,Time\nsoon,later\n".to_vec()],
        &mut out,
        Options::default(),
    );
    match r {
        Err(Error::ParseTime { date_time, .. }) => assert_eq!(date_time, "soonlater"),
        other => panic!("unexpected {:?}", other.err()),
    }
    assert!(out.is_empty());
}

#[test]
fn bad_ledger_date_is_an_error() {
    let mut out = Vec::new();
    let r = merge_accounts(
        &vec![b"Transaction Date\nwhenever\n".to_vec()],
        &vec![PAYMENTS.as_bytes().to_vec()],
        &mut out,
        Options::default(),
    );
    assert!(matches!(r, Err(Error::ParseGitTime { .. })));
}

#[test]
fn invalid_utf8_date_is_an_error() {
    let mut out = Vec::new();
    let mut ledger = b"Transaction Date\n".to_vec();
    ledger.extend_from_slice(&[0xff, b'\n']);
    let r = merge_accounts(&vec![ledger], &vec![PAYMENTS.as_bytes().to_vec()], &mut out, Options::default());
    assert!(matches!(r, Err(Error::InvalidDateEncoding { .. })));
}

#[test]
fn missing_ledger_column_is_a_merge_error() {
    let mut out = Vec::new();
    let r = merge_accounts(&vec![b"Other\nx\n".to_vec()], &vec![PAYMENTS.as_bytes().to_vec()], &mut out, Options::default());
    assert!(matches!(r, Err(Error::Merge(stool::merge::Error::MissingColumn { .. }))));
}

#[test]
fn missing_payment_time_column_is_a_merge_error() {
    let mut out = Vec::new();
    let r = merge_accounts(
        &vec![LEDGER.as_bytes().to_vec()],
        &vec![b"Date,Amount\nx,1\n".to_vec()],
        &mut out,
        Options::default(),
    );
    assert!(matches!(r, Err(Error::Merge(stool::merge::Error::MissingColumn { .. }))));
}

#[test]
fn unreadable_payment_file_is_a_merge_csv_error() {
    let mut out = Vec::new();
    let r = merge_accounts(
        &vec![LEDGER.as_bytes().to_vec()],
        &vec![b"Date,Time\nx\n".to_vec()],
        &mut out,
        Options::default(),
    );
    assert!(matches!(r, Err(Error::Merge(stool::merge::Error::Csv(_)))));
    assert!(out.is_empty());
}

#[test]
fn default_markers_leave_a_real_euro_sign_alone() {
    let mut out = Vec::new();
    merge_accounts(
        &vec![LEDGER.as_bytes().to_vec()],
        &vec![PAYMENTS.as_bytes().to_vec()],
        &mut out,
        Options::default(),
    )
    .unwrap();
    let text = String::from_utf8(out).unwrap();
    assert!(text.contains("\"$1.000,00\""));
    assert!(text.contains("\"€1,000,00\""));
}
