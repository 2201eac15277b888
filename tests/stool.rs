use stool::sle::{Engine, Operation, Rule, Statement};

fn engine() -> Engine {
    Engine {
        rules: vec![Rule {
            statements: vec![
                Statement {
                    value_column_index: 0,
                    operation: Operation::Equals,
                    value: "Oneitho".into(),
                },
                Statement {
                    value_column_index: 8,
                    operation: Operation::EndsWith,
                    value: "one time".into(),
                },
            ],
            value: "the annotation".to_string(),
        }],
    }
}

fn sponsor_rows() -> Vec<Vec<Vec<u8>>> {
    let data = "Sponsor Handle,Sponsor Profile Name,Sponsor Public Email,Sponsorship Started On,Is Public?,Is Yearly?,Transaction ID,Tier Name,Tier Monthly Amount\n\
Oneitho,One,,2021-01-01,true,false,ch_1,tier,$10.00 one time\n\
Oneitho,One,,2021-02-01,true,false,ch_2,tier,$10.00 a month\n\
Other,Two,,2021-03-01,true,false,ch_3,tier,$5.00 one time\n";
    let mut rdr = csv::Reader::from_reader(data.as_bytes());
    rdr.byte_records()
        .map(|r| r.unwrap().iter().map(|f| f.to_vec()).collect())
        .collect()
}

#[test]
fn matching() {
    let engine = engine();
    let mut num_matches = 0;
    for record in sponsor_rows() {
        if let Some(rule) = engine.matching_rule(&record) {
            num_matches += 1;
            assert_eq!(&record[0], b"Oneitho");
            assert_eq!(rule.value, "the annotation");
        }
    }

    assert_eq!(
        num_matches, 1,
        "exactly one row matches the rule configuration"
    );
}

#[test]
fn rule_needs_every_field_present() {
    let engine = engine();
    let short: Vec<Vec<u8>> = vec![b"Oneitho".to_vec()];
    assert!(engine.matching_rule(&short).is_none());
}

#[test]
fn first_matching_rule_wins() {
    let engine = Engine {
        rules: vec![
            Rule {
                statements: vec![Statement {
                    value_column_index: 0,
                    operation: Operation::EndsWith,
                    value: "b".into(),
                }],
                value: "first".into(),
            },
            Rule { statements: vec![], value: "second".into() },
        ],
    };
    let ab: Vec<Vec<u8>> = vec![b"ab".to_vec()];
    let ac: Vec<Vec<u8>> = vec![b"ac".to_vec()];
    assert_eq!(engine.matching_rule(&ab).unwrap().value, "first");
    assert_eq!(engine.matching_rule(&ac).unwrap().value, "second");
}

#[test]
fn normalize_number() {
    for (input, expected) in [
        ("$10.00", "$10,00"),
        ("$1,000.00", "$1.000,00"),
        ("$1,000", "$1.000"),
        ("€8,75", "€8,75"),
        ("€1,000,00", "€1.000,00"),
        ("€1,000,000,00", "€1.000.000,00"),
        ("$1,000,000.00", "$1.000.000,00"),
    ] {
        let actual = stool::normalize_number(input.as_bytes(), '.', ',');
        assert_eq!(
            actual,
            expected.as_bytes(),
            "{} != {expected}",
            std::str::from_utf8(&actual).unwrap()
        );
    }
}

#[test]
fn normalize_number_short_and_plain() {
    assert_eq!(stool::normalize_number(b"", '.', ','), b"");
    assert_eq!(stool::normalize_number(b"12", '.', ','), b"12");
    assert_eq!(stool::normalize_number(b"1234", '.', ','), b"1234");
    assert_eq!(stool::normalize_number(b"1,234", '.', ','), b"1.234");
}
