use kid3::table::{check_single_value, get_subset, Table};

fn strings(v: &[&str]) -> Vec<String> {
    v.iter().map(|s| s.to_string()).collect()
}

fn table(ncols: usize, rows: &[&[&str]]) -> Table {
    Table::new(ncols, rows.iter().map(|r| strings(r)).collect()).unwrap()
}

fn rows_of(t: &Table) -> Vec<Vec<String>> {
    (0..t.nrows()).map(|i| t.row(i).clone()).collect()
}

#[test]
fn new_refuses_ragged_rows() {
    assert!(Table::new(2, vec![strings(&["a", "b"]), strings(&["c"])]).is_none());
    let t = table(2, &[&["a", "b"], &["c", "d"]]);
    assert_eq!(t.nrows(), 2);
    assert_eq!(t.ncols(), 2);
}

#[test]
fn from_shape_vec_fills_rows_in_order() {
    let t = Table::from_shape_vec((2, 3), strings(&["a", "b", "c", "d", "e", "f"])).unwrap();
    assert_eq!(rows_of(&t), vec![strings(&["a", "b", "c"]), strings(&["d", "e", "f"])]);
    assert!(Table::from_shape_vec((2, 2), strings(&["a", "b", "c"])).is_none());
    assert!(Table::from_shape_vec((usize::MAX, 2), Vec::new()).is_none());
    let empty = Table::from_shape_vec((0, 4), Vec::new()).unwrap();
    assert_eq!(empty.nrows(), 0);
    assert_eq!(empty.ncols(), 4);
}

#[test]
fn column_and_attribute_columns() {
    let t = table(3, &[&["a", "b", "c"], &["d", "e", "f"]]);
    assert_eq!(t.column(1), strings(&["b", "e"]));
    assert_eq!(t.attribute_columns(), vec![0, 1]);
}

#[test]
fn check_single_value_uniform() {
    assert_eq!(check_single_value(&strings(&["yes", "yes", "yes"])), (true, "yes".to_string()));
}

#[test]
fn check_single_value_mixed() {
    assert_eq!(check_single_value(&strings(&["yes", "no", "yes"])), (false, String::new()));
}

#[test]
fn get_subset_keeps_matching_rows_without_the_column() {
    let t = table(3, &[&["sunny", "hot", "no"], &["rain", "mild", "yes"], &["sunny", "mild", "yes"]]);
    let s = get_subset(t, "sunny".to_string(), 0);
    assert_eq!(s.ncols(), 2);
    assert_eq!(rows_of(&s), vec![strings(&["hot", "no"]), strings(&["mild", "yes"])]);
}

#[test]
fn get_subset_middle_column_and_no_match() {
    let t = table(3, &[&["sunny", "hot", "no"], &["rain", "mild", "yes"], &["sunny", "mild", "yes"]]);
    let s = get_subset(t.copy(), "mild".to_string(), 1);
    assert_eq!(rows_of(&s), vec![strings(&["rain", "yes"]), strings(&["sunny", "yes"])]);
    let none = get_subset(t, "cold".to_string(), 1);
    assert_eq!(none.nrows(), 0);
    assert_eq!(none.ncols(), 2);
}

#[test]
fn append_and_row_range() {
    let mut t = table(2, &[&["a", "b"]]);
    t.append(&table(2, &[&["c", "d"], &["e", "f"]]));
    assert_eq!(rows_of(&t), vec![strings(&["a", "b"]), strings(&["c", "d"]), strings(&["e", "f"])]);
    assert_eq!(rows_of(&t.row_range(1, 3)), vec![strings(&["c", "d"]), strings(&["e", "f"])]);
    assert_eq!(Table::empty(3).ncols(), 3);
}

#[test]
fn cells_then_from_shape_vec_round_trip() {
    let t = table(3, &[&["a", "b", "c"], &["d", "e", "f"]]);
    assert_eq!(t.cells(), strings(&["a", "b", "c", "d", "e", "f"]));
    let back = Table::from_shape_vec((t.nrows(), t.ncols()), t.cells()).unwrap();
    assert_eq!(rows_of(&back), rows_of(&t));
}
