use cargo_attribution::expression::resolve_expression;

#[test]
fn resolve_standard_or_expression() {
    let r = resolve_expression("MIT OR Apache-2.0").expect("expression should resolve");
    assert_eq!(r.0, vec!["Apache-2.0".to_string(), "MIT".to_string()]);
    assert_eq!(r.1, Vec::<String>::new());
}

#[test]
fn resolve_twice_yields_identical_sorted_lists() {
    let a = resolve_expression("Apache-2.0 AND MIT AND Apache-2.0").expect("should resolve");
    let b = resolve_expression("Apache-2.0 AND MIT AND Apache-2.0").expect("should resolve");
    assert_eq!(a, b);
    assert_eq!(a.0, vec!["Apache-2.0".to_string(), "MIT".to_string()]);
    for w in a.0.windows(2) {
        assert!(w[0] < w[1]);
    }
}

#[test]
fn slash_separated_legacy_string_resolves_as_or() {
    let r = resolve_expression("MIT/Apache-2.0").expect("legacy string should resolve");
    assert_eq!(r.0, vec!["Apache-2.0".to_string(), "MIT".to_string()]);
    assert!(r.1.is_empty());
}

#[test]
fn slash_segments_are_trimmed() {
    let r = resolve_expression("MIT / Apache-2.0").expect("legacy string should resolve");
    assert_eq!(r.0, vec!["Apache-2.0".to_string(), "MIT".to_string()]);
}

#[test]
fn with_exception_resolves_licenses_and_exceptions() {
    let r = resolve_expression("(MIT OR Apache-2.0) WITH LLVM-exception")
        .expect("expression should resolve");
    assert_eq!(r.0, vec!["Apache-2.0".to_string(), "MIT".to_string()]);
    assert_eq!(r.1, vec!["LLVM-exception".to_string()]);
}

#[test]
fn license_ref_with_exception_yields_empty_license_list() {
    let r = resolve_expression("LicenseRef-custom WITH LLVM-exception")
        .expect("expression should resolve");
    assert_eq!(r.0, Vec::<String>::new());
    assert_eq!(r.1, vec!["LLVM-exception".to_string()]);
}

#[test]
fn unparseable_string_yields_none() {
    assert!(resolve_expression("not a license at all !!!").is_none());
}

#[test]
fn dangling_operator_is_not_resolved() {
    assert!(resolve_expression("MIT AND").is_none());
}

#[test]
fn parenthesized_and_group_with_exception_resolves() {
    let r = resolve_expression("(MIT AND Apache-2.0) WITH LLVM-exception")
        .expect("legacy shape should resolve");
    assert_eq!(r.0, vec!["Apache-2.0".to_string(), "MIT".to_string()]);
    assert_eq!(r.1, vec!["LLVM-exception".to_string()]);
}

#[test]
fn nested_group_before_with_is_not_resolved() {
    assert!(resolve_expression("((MIT) OR Apache-2.0) WITH LLVM-exception").is_none());
}

#[test]
fn duplicate_identifiers_are_deduplicated() {
    let r = resolve_expression("MIT AND MIT").expect("expression should resolve");
    assert_eq!(r.0, vec!["MIT".to_string()]);
}
