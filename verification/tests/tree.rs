use kid3::table::Table;
use kid3::tree::{count_passes, Child, Tree};

fn strings(v: &[&str]) -> Vec<String> {
    v.iter().map(|s| s.to_string()).collect()
}

fn sample() -> Tree {
    Tree::Branch {
        label: 0,
        children: vec![
            Child { path: "sunny".to_string(), tree: Tree::Leaf("no".to_string()) },
            Child { path: "rain".to_string(), tree: Tree::Leaf("yes".to_string()) },
            Child { path: "sunny".to_string(), tree: Tree::Leaf("yes".to_string()) },
        ],
    }
}

#[test]
fn leaf_compares_last_cell() {
    let leaf = Tree::Leaf("yes".to_string());
    assert!(leaf.test(&strings(&["a", "yes"])));
    assert!(!leaf.test(&strings(&["a", "no"])));
}

#[test]
fn branch_follows_first_matching_child() {
    let tree = sample();
    assert!(tree.test(&strings(&["sunny", "no"])));
    assert!(!tree.test(&strings(&["sunny", "yes"])));
    assert!(tree.test(&strings(&["rain", "yes"])));
}

#[test]
fn branch_without_matching_child_fails() {
    assert!(!sample().test(&strings(&["overcast", "yes"])));
}

#[test]
fn can_test_checks_cells() {
    let tree = Tree::Branch { label: 3, children: vec![] };
    assert!(!tree.can_test(&strings(&["a", "b"])));
    assert!(tree.can_test(&strings(&["a", "b", "c", "d"])));
    assert!(!Tree::Leaf("x".to_string()).can_test(&Vec::new()));
}

#[test]
fn count_passes_counts_correct_rows() {
    let t = Table::new(
        2,
        vec![strings(&["sunny", "no"]), strings(&["rain", "no"]), strings(&["rain", "yes"]), strings(&["fog", "yes"])],
    )
    .unwrap();
    assert_eq!(count_passes(&sample(), &t), 2);
}

#[test]
fn reordering_distinct_children_keeps_answers() {
    let a = Tree::Branch {
        label: 0,
        children: vec![
            Child { path: "sunny".to_string(), tree: Tree::Leaf("no".to_string()) },
            Child { path: "rain".to_string(), tree: Tree::Leaf("yes".to_string()) },
        ],
    };
    let b = Tree::Branch {
        label: 0,
        children: vec![
            Child { path: "rain".to_string(), tree: Tree::Leaf("yes".to_string()) },
            Child { path: "sunny".to_string(), tree: Tree::Leaf("no".to_string()) },
        ],
    };
    for row in [["sunny", "no"], ["sunny", "yes"], ["rain", "yes"], ["rain", "no"], ["fog", "no"]] {
        let row = strings(&row);
        assert_eq!(a.test(&row), b.test(&row));
    }
}

#[test]
fn reordering_below_a_branch_with_repeated_paths() {
    let inner = |first: (&str, &str), second: (&str, &str)| Tree::Branch {
        label: 1,
        children: vec![
            Child { path: first.0.to_string(), tree: Tree::Leaf(first.1.to_string()) },
            Child { path: second.0.to_string(), tree: Tree::Leaf(second.1.to_string()) },
        ],
    };
    let make = |swapped: bool| Tree::Branch {
        label: 0,
        children: vec![
            Child {
                path: "sunny".to_string(),
                tree: if swapped { inner(("mild", "yes"), ("hot", "no")) } else { inner(("hot", "no"), ("mild", "yes")) },
            },
            Child { path: "sunny".to_string(), tree: Tree::Leaf("yes".to_string()) },
        ],
    };
    let (a, b) = (make(false), make(true));
    for row in [["sunny", "hot", "no"], ["sunny", "mild", "yes"], ["sunny", "cold", "yes"], ["rain", "hot", "no"]] {
        let row = strings(&row);
        assert_eq!(a.test(&row), b.test(&row));
    }
}
