use ccx_runner::filter::{filter_lines, line_matches, occurs, parse_query, satisfies_folded};
use ccx_runner::text::chars_of;

fn lines(v: &[&str]) -> Vec<String> {
    v.iter().map(|s| s.to_string()).collect()
}

#[test]
fn query_is_split_into_lowercase_clauses() {
    let q = parse_query("  Force & ITERATION | convergence ");
    assert_eq!(q, vec![lines(&["force", "iteration"]), lines(&["convergence"])]);
}

#[test]
fn empty_terms_and_clauses_are_dropped() {
    assert_eq!(parse_query("a & & b | | & "), vec![lines(&["a", "b"])]);
    assert!(parse_query("&|&").is_empty());
}

#[test]
fn matching_ignores_case_of_line() {
    let q = parse_query("force & iteration");
    assert!(line_matches(&q, "Largest Residual FORCE in ITERATION 3"));
    assert!(!line_matches(&q, "largest residual force"));
}

#[test]
fn folded_matching_is_exact() {
    let q = vec![lines(&["force"]), lines(&["time", "total"])];
    assert!(satisfies_folded(&q, "actual total time"));
    assert!(!satisfies_folded(&q, "FORCE"));
    assert!(satisfies_folded(&q, "largest force"));
    assert!(!satisfies_folded(&Vec::new(), "anything"));
}

#[test]
fn substring_search() {
    assert!(occurs(&chars_of("abc"), &chars_of("xxabcxx")));
    assert!(occurs(&chars_of(""), &chars_of("")));
    assert!(!occurs(&chars_of("abd"), &chars_of("xxabcxx")));
    assert!(!occurs(&chars_of("abcd"), &chars_of("abc")));
}

#[test]
fn filter_keeps_order_and_blank_query_keeps_all() {
    let all = lines(&["STEP 1", "iteration 1", "largest residual force= 1", "iteration 2", "done"]);
    assert_eq!(filter_lines(&all, "   "), all);
    assert_eq!(
        filter_lines(&all, "Iteration | STEP"),
        lines(&["STEP 1", "iteration 1", "iteration 2"])
    );
    assert_eq!(filter_lines(&all, "residual & force"), lines(&["largest residual force= 1"]));
    assert!(filter_lines(&all, "&").is_empty());
}
