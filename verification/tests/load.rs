use kid3::load::{parse_examples, LoadError};

#[test]
fn parse_examples_reads_rows() {
    let t = parse_examples(b"sunny,hot,no\nrain,mild,yes\n").unwrap();
    assert_eq!(t.nrows(), 2);
    assert_eq!(t.ncols(), 3);
    assert_eq!(t.row(1), &vec!["rain".to_string(), "mild".to_string(), "yes".to_string()]);
}

#[test]
fn parse_examples_refuses_ragged_rows() {
    assert!(matches!(parse_examples(b"a,b,c\nd,e\n"), Err(LoadError::Csv(_))));
}

#[test]
fn parse_examples_of_nothing() {
    let t = parse_examples(b"").unwrap();
    assert_eq!(t.nrows(), 0);
    assert_eq!(t.ncols(), 0);
}
