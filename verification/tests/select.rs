use kid3::select::random_attribute;
use kid3::table::Table;

#[test]
fn random_attribute_only_target() {
    let t = Table::new(1, vec![vec!["y".to_string()]]).unwrap();
    assert_eq!(random_attribute(&t), 0);
}

#[test]
fn random_attribute_never_the_target() {
    let t = Table::new(4, vec![vec!["a".to_string(), "b".to_string(), "c".to_string(), "y".to_string()]]).unwrap();
    for _ in 0..200 {
        assert!(random_attribute(&t) < 3);
    }
    let two = Table::new(2, vec![vec!["a".to_string(), "y".to_string()]]).unwrap();
    assert_eq!(random_attribute(&two), 0);
}
