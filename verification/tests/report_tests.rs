use routelint::cli::{parse_args, ArgError, Command};
use routelint::{
    count_errors, filter_findings, has_errors, json_string, known_rules, lint_table,
    render_human, render_json, Finding, Severity,
};

const SAMPLE: &str = "# Sample route table\n\
GET /users -> list_users\n\
GET /users/:id -> show_user\n\
GET /users/new -> new_user\n\
POST /users -> create_user\n\
GET /users/:id -> show_user_again\n\
GET /health/ -> health\n\
GET //status -> status\n\
this line is garbage\n";

fn strings(v: &[&str]) -> Vec<String> {
    v.iter().map(|s| s.to_string()).collect()
}

#[test]
fn sample_table_human_output() {
    let findings = lint_table(SAMPLE);
    let lines = render_human("examples/sample.routes", &findings);
    assert_eq!(
        lines,
        vec![
            "examples/sample.routes:4: warning: GET /users/new can never match: line 3 (/users/:id) captures it first [shadowed-route]",
            "examples/sample.routes:6: error: GET /users/:id is already defined on line 3 [duplicate-route]",
            "examples/sample.routes:7: warning: path \"/health/\" has a trailing slash [trailing-slash]",
            "examples/sample.routes:8: error: path \"//status\" contains an empty segment [empty-segment]",
            "examples/sample.routes:9: warning: line does not match \"METHOD /path -> handler\" [unparsable-line]",
            "2 error(s), 3 warning(s)",
        ]
    );
    assert!(has_errors(&findings));
    assert_eq!(count_errors(&findings), 2);
}

#[test]
fn clean_table_human_output() {
    let findings = lint_table("GET /a -> a\n");
    assert!(findings.is_empty());
    assert!(!has_errors(&findings));
    assert_eq!(render_human("<stdin>", &findings), vec!["<stdin>: no issues found"]);
}

#[test]
fn unparsable_lines_are_sorted_among_the_others() {
    let findings = lint_table("nonsense\nGET /a -> a\nGET /a -> b\nmore nonsense\n");
    let got: Vec<(usize, &str)> = findings.iter().map(|f| (f.line, f.rule)).collect();
    assert_eq!(
        got,
        vec![(1, "unparsable-line"), (3, "duplicate-route"), (4, "unparsable-line")]
    );
    assert_eq!(findings[0].severity, Severity::Warning);
}

#[test]
fn json_output_of_a_finding() {
    let findings = lint_table("GET a -> h");
    let out = render_json("t\"x", &findings);
    assert_eq!(
        out,
        "{\"file\":\"t\\\"x\",\"findings\":[{\"line\":1,\"severity\":\"error\",\"rule\":\"missing-leading-slash\",\"message\":\"path \\\"a\\\" does not start with /\"}]}"
    );
}

#[test]
fn json_output_separates_findings_with_commas() {
    let findings = lint_table("x\ny\n");
    let out = render_json("f", &findings);
    let item = |n: u32| {
        format!(
            "{{\"line\":{},\"severity\":\"warning\",\"rule\":\"unparsable-line\",\"message\":\"line does not match \\\"METHOD /path -> handler\\\"\"}}",
            n
        )
    };
    assert_eq!(out, format!("{{\"file\":\"f\",\"findings\":[{},{}]}}", item(1), item(2)));
}

#[test]
fn json_output_without_findings() {
    assert_eq!(render_json("f", &[]), "{\"file\":\"f\",\"findings\":[]}");
}

#[test]
fn json_string_escapes() {
    assert_eq!(json_string("a\"b\\c"), "\"a\\\"b\\\\c\"");
    assert_eq!(json_string("\n\r\t"), "\"\\n\\r\\t\"");
    assert_eq!(json_string("\u{1}\u{1f}\u{10}"), "\"\\u0001\\u001f\\u0010\"");
    assert_eq!(json_string("é \u{7f}"), "\"é \u{7f}\"");
    assert_eq!(json_string(""), "\"\"");
}

#[test]
fn ignoring_the_error_rules_clears_the_exit_status() {
    let findings = lint_table(SAMPLE);
    let ignore = strings(&["duplicate-route", "empty-segment"]);
    let kept = filter_findings(findings, &[], &ignore);
    assert_eq!(kept.len(), 3);
    assert!(!has_errors(&kept));
    assert_eq!(count_errors(&kept), 0);
}

#[test]
fn only_rules_keep_order() {
    let findings = lint_table(SAMPLE);
    let only = strings(&["unparsable-line", "shadowed-route"]);
    let kept: Vec<usize> = filter_findings(findings, &only, &[]).iter().map(|f| f.line).collect();
    assert_eq!(kept, vec![4, 9]);
}

#[test]
fn known_rules_are_listed_in_order() {
    assert_eq!(
        known_rules(),
        vec![
            "shadowed-route",
            "duplicate-route",
            "missing-leading-slash",
            "trailing-slash",
            "empty-segment",
            "unparsable-line"
        ]
    );
}

#[test]
fn counts_errors() {
    let f = |s: Severity| Finding { line: 1, severity: s, rule: "r", message: String::new() };
    let v = vec![f(Severity::Warning), f(Severity::Error), f(Severity::Error)];
    assert_eq!(count_errors(&v), 2);
    assert!(has_errors(&v));
    assert!(!has_errors(&v[..1]));
}

#[test]
fn args_for_a_json_run() {
    let args = strings(&["--json", "routes.txt", "--rule", "trailing-slash", "--ignore", "empty-segment"]);
    match parse_args(&args) {
        Ok(Command::Lint(o)) => {
            assert!(o.json);
            assert_eq!(o.path, "routes.txt");
            assert_eq!(o.only_rules, vec!["trailing-slash".to_string()]);
            assert_eq!(o.ignore_rules, vec!["empty-segment".to_string()]);
            assert!(!o.reads_stdin());
            assert_eq!(o.label(), "routes.txt");
        }
        _ => panic!("expected a lint command"),
    }
}

#[test]
fn args_for_stdin() {
    match parse_args(&strings(&["-"])) {
        Ok(Command::Lint(o)) => {
            assert!(!o.json);
            assert!(o.reads_stdin());
            assert_eq!(o.label(), "<stdin>");
        }
        _ => panic!("expected a lint command"),
    }
}

#[test]
fn args_asking_for_help() {
    assert!(matches!(parse_args(&strings(&["a", "--help", "b", "c"])), Ok(Command::Help)));
    assert!(matches!(parse_args(&strings(&["-h"])), Ok(Command::Help)));
}

#[test]
fn args_errors() {
    match parse_args(&strings(&["--rule", "bogus", "f"])) {
        Err(e) => {
            assert!(matches!(e, ArgError::UnknownRule(ref n) if n == "bogus"));
            assert_eq!(e.message().unwrap(), "routelint: unknown rule \"bogus\"");
            assert!(!e.shows_usage());
        }
        _ => panic!("expected an error"),
    }
    match parse_args(&strings(&["f", "--ignore"])) {
        Err(e) => {
            assert_eq!(e.message().unwrap(), "routelint: --ignore requires a rule name");
            assert!(e.shows_usage());
        }
        _ => panic!("expected an error"),
    }
    match parse_args(&strings(&["f", "g"])) {
        Err(e) => {
            assert_eq!(e.message().unwrap(), "routelint: unexpected argument \"g\"");
            assert!(e.shows_usage());
        }
        _ => panic!("expected an error"),
    }
    match parse_args(&strings(&["--json"])) {
        Err(e) => {
            assert!(matches!(e, ArgError::MissingPath));
            assert!(e.message().is_none());
            assert!(e.shows_usage());
        }
        _ => panic!("expected an error"),
    }
}
