use kid3::values::{distinct_values, group_by_value, position_of, value_counts};

fn strings(v: &[&str]) -> Vec<String> {
    v.iter().map(|s| s.to_string()).collect()
}

#[test]
fn distinct_values_keep_first_occurrence_order() {
    let d = distinct_values(&strings(&["b", "a", "b", "c", "a"]));
    assert_eq!(d, strings(&["b", "a", "c"]));
}

#[test]
fn distinct_values_of_nothing() {
    assert!(distinct_values(&Vec::new()).is_empty());
}

#[test]
fn value_counts_count_each_value() {
    let (d, counts) = value_counts(&strings(&["b", "a", "b", "c", "a", "b"]));
    assert_eq!(d, strings(&["b", "a", "c"]));
    assert_eq!(counts, vec![3, 2, 1]);
    assert_eq!(counts.iter().sum::<usize>(), 6);
}

#[test]
fn group_by_value_collects_targets() {
    let keys = strings(&["sunny", "rain", "sunny", "overcast", "rain"]);
    let targets = strings(&["no", "yes", "yes", "yes", "no"]);
    let (d, groups) = group_by_value(&keys, &targets);
    assert_eq!(d, strings(&["sunny", "rain", "overcast"]));
    assert_eq!(groups, vec![strings(&["no", "yes"]), strings(&["yes", "no"]), strings(&["yes"])]);
}

#[test]
fn position_of_finds_first() {
    let v = strings(&["x", "y", "x"]);
    assert_eq!(position_of(&v, &"x".to_string()), Some(0));
    assert_eq!(position_of(&v, &"y".to_string()), Some(1));
    assert_eq!(position_of(&v, &"z".to_string()), None);
}
