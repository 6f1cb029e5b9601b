use code_steps::filter::{filter_matches, WaitFilter};

fn args(list: &[&str]) -> Vec<String> {
    list.iter().map(|s| s.to_string()).collect()
}

#[test]
fn filter_reads_both_lists_and_trims_tags() {
    let f = WaitFilter::from_args(&args(&["prog", "--include", "a, b", "--exclude", " c "]));
    assert_eq!(f.included, vec!["a".to_string(), "b".to_string()]);
    assert_eq!(f.excluded, vec!["c".to_string()]);
}

#[test]
fn filter_later_flag_replaces_earlier() {
    let f = WaitFilter::from_args(&args(&["prog", "--include", "a", "--include", "b,c"]));
    assert_eq!(f.included, vec!["b".to_string(), "c".to_string()]);
    assert!(f.excluded.is_empty());
}

#[test]
fn filter_flag_without_value_is_ignored() {
    let f = WaitFilter::from_args(&args(&["prog", "--include"]));
    assert!(f.included.is_empty());
    assert!(f.excluded.is_empty());
}

#[test]
fn filter_flag_value_is_not_read_as_flag() {
    let f = WaitFilter::from_args(&args(&["prog", "--include", "--exclude", "x"]));
    assert_eq!(f.included, vec!["--exclude".to_string()]);
    assert!(f.excluded.is_empty());
}

#[test]
fn filter_empty_value_gives_one_empty_tag() {
    let f = WaitFilter::from_args(&args(&["prog", "--exclude", ""]));
    assert_eq!(f.excluded, vec!["".to_string()]);
    let f = WaitFilter::from_args(&args(&["prog", "--exclude", "a,"]));
    assert_eq!(f.excluded, vec!["a".to_string(), "".to_string()]);
}

#[test]
fn filter_rules_include_and_exclude() {
    let f = WaitFilter::from_args(&args(&["prog", "--include", "basic", "--exclude", "debug"]));
    assert!(f.matches(&["basic"]));
    assert!(!f.matches(&["advanced"]));
    assert!(!f.matches(&["basic", "debug"]));
    assert!(f.matches(&["advanced", "basic"]));
}

#[test]
fn filter_empty_lists_pass_everything() {
    let f = WaitFilter::new();
    assert!(f.matches(&[]));
    assert!(f.matches(&["x", "y"]));
}

#[test]
fn filter_untagged_calls() {
    let only_exclude = WaitFilter::from_args(&args(&["prog", "--exclude", "a"]));
    assert!(only_exclude.matches(&[]));
    let with_include = WaitFilter::from_args(&args(&["prog", "--include", "a"]));
    assert!(with_include.matches(&[]));
    let both = WaitFilter::from_args(&args(&["prog", "--include", "basic,advanced", "--exclude", "debug"]));
    assert!(both.matches(&[]));
}

#[test]
fn filter_absent_allows_all() {
    assert!(filter_matches(None, &["anything"]));
    assert!(filter_matches(None, &[]));
    let f = WaitFilter::from_args(&args(&["prog", "--exclude", "anything"]));
    assert!(!filter_matches(Some(&f), &["anything"]));
}

#[test]
fn default_filter_passes_everything() {
    let f = WaitFilter::default();
    assert!(f.included.is_empty() && f.excluded.is_empty());
    assert!(f.matches(&["any"]));
    assert!(f.matches(&[]));
}
