use kid3::id3::id3;
use kid3::table::Table;
use kid3::tree::{Child, Tree};

fn strings(v: &[&str]) -> Vec<String> {
    v.iter().map(|s| s.to_string()).collect()
}

fn table(ncols: usize, rows: &[&[&str]]) -> Table {
    Table::new(ncols, rows.iter().map(|r| strings(r)).collect()).unwrap()
}

fn weather() -> Table {
    table(
        3,
        &[
            &["sunny", "high", "no"],
            &["sunny", "normal", "yes"],
            &["overcast", "high", "yes"],
            &["rain", "high", "no"],
            &["rain", "normal", "yes"],
            &["overcast", "normal", "yes"],
        ],
    )
}

fn first_column(_t: &Table) -> usize {
    0
}

fn last_attribute(t: &Table) -> usize {
    t.ncols() - 2
}

#[test]
fn id3_leaf_when_target_is_uniform() {
    let t = table(2, &[&["a", "yes"], &["b", "yes"]]);
    let tree = id3(t, vec![0], &first_column).unwrap();
    assert!(matches!(tree, Tree::Leaf(ref v) if v == "yes"));
}

#[test]
fn id3_splits_on_selected_column() {
    let t = weather();
    let attrs = t.attribute_columns();
    let tree = id3(t, attrs, &first_column).unwrap();
    match &tree {
        Tree::Branch { label, children } => {
            assert_eq!(*label, 0);
            let paths: Vec<&str> = children.iter().map(|c| c.path.as_str()).collect();
            assert_eq!(paths, vec!["sunny", "overcast", "rain"]);
            match &children[0].tree {
                Tree::Branch { label, children } => {
                    assert_eq!(*label, 1);
                    assert!(matches!(&children[0], Child { path, tree: Tree::Leaf(v) } if path == "high" && v == "no"));
                    assert!(matches!(&children[1], Child { path, tree: Tree::Leaf(v) } if path == "normal" && v == "yes"));
                }
                _ => panic!("expected a branch under sunny"),
            }
            assert!(matches!(&children[1].tree, Tree::Leaf(v) if v == "yes"));
        }
        _ => panic!("expected a branch"),
    }
}

#[test]
fn id3_tree_classifies_its_examples() {
    let t = weather();
    for select in [&first_column as &dyn Fn(&Table) -> usize, &last_attribute] {
        let attrs = t.attribute_columns();
        let tree = id3(t.copy(), attrs, &|x: &Table| select(x)).unwrap();
        for i in 0..t.nrows() {
            assert!(tree.can_test(t.row(i)));
            assert!(tree.test(t.row(i)));
        }
    }
}

#[test]
fn id3_labels_come_from_attributes() {
    let t = weather();
    let tree = id3(t, vec![7, 9], &last_attribute).unwrap();
    match tree {
        Tree::Branch { label, .. } => assert_eq!(label, 9),
        _ => panic!("expected a branch"),
    }
}

#[test]
fn id3_fails_on_inconsistent_examples() {
    let t = table(2, &[&["a", "yes"], &["a", "no"]]);
    assert!(id3(t, vec![0], &first_column).is_none());
}

#[test]
fn id3_fails_when_selection_picks_the_target() {
    let t = weather();
    assert!(id3(t, vec![0, 1], &|x: &Table| x.ncols() - 1).is_none());
}

#[test]
fn id3_fails_on_inconsistent_examples_deeper() {
    let t = table(
        3,
        &[&["x", "1", "yes"], &["y", "1", "no"], &["x", "2", "yes"], &["x", "1", "no"]],
    );
    assert!(id3(t.copy(), vec![0, 1], &first_column).is_none());
    assert!(id3(t, vec![0, 1], &last_attribute).is_none());
}

#[test]
fn id3_with_random_selection_fits_examples() {
    let t = weather();
    for _ in 0..20 {
        let tree = id3(t.copy(), t.attribute_columns(), &kid3::select::random_attribute).unwrap();
        for i in 0..t.nrows() {
            assert!(tree.test(t.row(i)));
        }
    }
}

#[test]
fn attribute_groups_group_targets_by_value() {
    let groups = kid3::select::attribute_groups(&weather());
    assert_eq!(groups.len(), 2);
    assert_eq!(
        groups[0],
        vec![strings(&["no", "yes"]), strings(&["yes", "yes"]), strings(&["no", "yes"])]
    );
    assert_eq!(groups[1], vec![strings(&["no", "yes", "no"]), strings(&["yes", "yes", "yes"])]);
}

#[test]
fn subsets_for_distinct_values_hold_every_row_once() {
    let t = weather();
    for a in 0..2 {
        let values = kid3::values::distinct_values(&t.column(a));
        let total: usize = values
            .iter()
            .map(|v| kid3::table::get_subset(t.copy(), v.clone(), a).nrows())
            .sum();
        assert_eq!(total, t.nrows());
    }
}

#[test]
fn id3_runs_agree_with_a_fixed_selection() {
    let a = id3(weather(), vec![0, 1], &last_attribute).unwrap();
    let b = id3(weather(), vec![0, 1], &last_attribute).unwrap();
    assert_eq!(format!("{:?}", a), format!("{:?}", b));
}

#[test]
fn id3_tree_passes_all_its_examples() {
    let t = weather();
    let tree = id3(t.copy(), t.attribute_columns(), &first_column).unwrap();
    assert_eq!(kid3::tree::count_passes(&tree, &t), t.nrows());
}
