use phrase_index::output::{get_line, join, search_with_result, sort_lines};
use phrase_index::r_index;
use phrase_index::trie::index;

fn strings(v: &[&str]) -> Vec<String> {
    v.iter().map(|s| s.to_string()).collect()
}

#[test]
fn greeting() {
    assert_eq!(r_index(), "Hello, world!");
}

#[test]
fn join_places_separator_between() {
    assert_eq!(join(&strings(&["x", "y", "z"]), ","), "x,y,z");
    assert_eq!(join(&strings(&["only"]), ", "), "only");
    assert_eq!(join(&strings(&["a", "b"]), ""), "ab");
}

#[test]
fn sort_lines_orders_by_content() {
    let sorted = sort_lines(&strings(&["beta", "alpha", "Alpha", "beta"]));
    assert_eq!(sorted, strings(&["Alpha", "alpha", "beta", "beta"]));
}

#[test]
fn search_with_result_sorts_and_joins() {
    let root = index("beta\nalpha\nalpha beta");
    let out = search_with_result("beta", &root).expect("phrase occurs");
    assert_eq!(out, "alpha beta\nbeta");
    let single = search_with_result("alpha beta", &root).expect("phrase occurs");
    assert_eq!(single, "alpha beta");
}

#[test]
fn search_with_result_reports_missing_phrase() {
    let root = index("alpha\nbeta");
    let err = search_with_result("gamma", &root).expect_err("phrase is absent");
    assert_eq!(err.0, "Can't find phrase 'gamma'");
}

#[test]
fn search_with_result_same_output_every_build() {
    let corpus = "zeta\neta\nzeta eta";
    let a = search_with_result("eta", &index(corpus)).expect("phrase occurs");
    let b = search_with_result("eta", &index(corpus)).expect("phrase occurs");
    assert_eq!(a, b);
    assert_eq!(a, "eta\nzeta eta");
}

#[test]
fn get_line_fetches_in_range() {
    let lines = strings(&["first", "second", "third"]);
    assert_eq!(get_line(&lines, 0).expect("in range"), "first");
    assert_eq!(get_line(&lines, 2).expect("in range"), "third");
}

#[test]
fn get_line_reports_out_of_range() {
    let lines = strings(&["first", "second"]);
    let err = get_line(&lines, 7).expect_err("out of range");
    assert_eq!(err.0, "Can't find line 7");
    let err = get_line(&lines, 1234567890).expect_err("out of range");
    assert_eq!(err.0, "Can't find line 1234567890");
}
