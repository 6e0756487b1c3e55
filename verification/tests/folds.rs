use kid3::folds::{holdout_cut, join_folds, split, splitk};
use kid3::table::Table;

fn numbered(n: usize) -> Table {
    Table::new(2, (0..n).map(|i| vec![i.to_string(), "t".to_string()]).collect()).unwrap()
}

fn firsts(t: &Table) -> Vec<String> {
    t.column(0)
}

fn names(v: &[usize]) -> Vec<String> {
    v.iter().map(|i| i.to_string()).collect()
}

#[test]
fn split_keeps_every_row() {
    let (a, b) = split(numbered(5), 2);
    assert_eq!(firsts(&a), names(&[0, 1]));
    assert_eq!(firsts(&b), names(&[2, 3, 4]));
}

#[test]
fn split_three_rows_at_one() {
    let t = Table::new(1, vec![vec!["a".to_string()], vec!["b".to_string()], vec!["c".to_string()]]).unwrap();
    let (a, b) = split(t, 1);
    assert_eq!(firsts(&a), vec!["a".to_string()]);
    assert_eq!(firsts(&b), vec!["b".to_string(), "c".to_string()]);
}

#[test]
fn split_at_the_edges() {
    let (a, b) = split(numbered(4), 0);
    assert_eq!(firsts(&a), names(&[]));
    assert_eq!(firsts(&b), names(&[0, 1, 2, 3]));
    let (a, b) = split(numbered(4), 3);
    assert_eq!(firsts(&a), names(&[0, 1, 2]));
    assert_eq!(firsts(&b), names(&[3]));
    let (a, b) = split(numbered(4), 4);
    assert_eq!(firsts(&a), names(&[0, 1, 2, 3]));
    assert_eq!(firsts(&b), names(&[]));
}

#[test]
fn split_negative_counts_from_end() {
    let (a, b) = split(numbered(4), -1);
    assert_eq!(firsts(&a), names(&[0, 1, 2]));
    assert_eq!(firsts(&b), names(&[3]));
    let (a, b) = split(numbered(4), -4);
    assert_eq!(firsts(&a), names(&[]));
    assert_eq!(firsts(&b), names(&[0, 1, 2, 3]));
}

#[test]
fn splitk_even() {
    let parts = splitk(numbered(6), 3);
    assert_eq!(parts.len(), 3);
    assert_eq!(firsts(&parts[0]), names(&[0, 1]));
    assert_eq!(firsts(&parts[1]), names(&[2, 3]));
    assert_eq!(firsts(&parts[2]), names(&[4, 5]));
}

#[test]
fn splitk_uneven_covers_every_row_once() {
    let parts = splitk(numbered(7), 3);
    assert_eq!(firsts(&parts[0]), names(&[0, 1, 2]));
    assert_eq!(firsts(&parts[1]), names(&[3, 4]));
    assert_eq!(firsts(&parts[2]), names(&[5, 6]));
}

#[test]
fn splitk_five_rows_in_two() {
    let parts = splitk(numbered(5), 2);
    assert_eq!(firsts(&parts[0]), names(&[0, 1, 2]));
    assert_eq!(firsts(&parts[1]), names(&[3, 4]));
}

#[test]
fn splitk_more_folds_than_rows() {
    let parts = splitk(numbered(2), 3);
    assert_eq!(firsts(&parts[0]), names(&[0]));
    assert_eq!(firsts(&parts[1]), names(&[1]));
    assert_eq!(firsts(&parts[2]), names(&[]));
}

#[test]
fn join_folds_even() {
    let parts = splitk(numbered(6), 3);
    let training = join_folds(&parts, 1, 6).unwrap();
    assert_eq!(firsts(&training), names(&[0, 1, 4, 5]));
    assert_eq!(training.ncols(), 2);
}

#[test]
fn join_folds_refuses_a_mismatch() {
    let parts = splitk(numbered(7), 3);
    assert_eq!(firsts(&join_folds(&parts, 0, 7).unwrap()), names(&[3, 4, 5, 6]));
    assert_eq!(firsts(&join_folds(&parts, 1, 7).unwrap()), names(&[0, 1, 2, 5, 6]));
    assert!(join_folds(&parts, 1, 8).is_none());
}

#[test]
fn holdout_cut_cases() {
    assert_eq!(holdout_cut(50, 10), Some(5));
    assert_eq!(holdout_cut(33, 10), Some(3));
    assert_eq!(holdout_cut(0, 10), None);
    assert_eq!(holdout_cut(90, 10), None);
    assert_eq!(holdout_cut(80, 10), Some(8));
    assert_eq!(holdout_cut(-50, 10), None);
    assert_eq!(holdout_cut(5, 10), None);
}
