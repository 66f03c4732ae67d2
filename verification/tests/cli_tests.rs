use routelint::{filter_findings, is_known_rule, Finding, Severity};

fn finding(rule: &'static str) -> Finding {
    Finding {
        line: 1,
        severity: Severity::Warning,
        rule,
        message: "msg".to_string(),
    }
}

#[test]
fn keeps_everything_with_no_filters() {
    let findings = vec![finding("duplicate-route"), finding("trailing-slash")];
    let result = filter_findings(findings, &[], &[]);
    assert_eq!(result.len(), 2);
}

#[test]
fn only_rules_keeps_just_the_named_rules() {
    let findings = vec![finding("duplicate-route"), finding("trailing-slash")];
    let only = vec!["trailing-slash".to_string()];
    let result = filter_findings(findings, &only, &[]);
    assert_eq!(result.len(), 1);
    assert_eq!(result[0].rule, "trailing-slash");
}

#[test]
fn ignore_removes_the_named_rule() {
    let findings = vec![finding("duplicate-route"), finding("trailing-slash")];
    let ignore = vec!["duplicate-route".to_string()];
    let result = filter_findings(findings, &[], &ignore);
    assert_eq!(result.len(), 1);
    assert_eq!(result[0].rule, "trailing-slash");
}

#[test]
fn ignore_wins_over_a_conflicting_only_rule() {
    let findings = vec![finding("duplicate-route")];
    let only = vec!["duplicate-route".to_string()];
    let ignore = vec!["duplicate-route".to_string()];
    let result = filter_findings(findings, &only, &ignore);
    assert!(result.is_empty());
}

#[test]
fn recognizes_known_rule_names() {
    assert!(is_known_rule("shadowed-route"));
    assert!(!is_known_rule("not-a-real-rule"));
}
