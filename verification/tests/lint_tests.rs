use routelint::{check_routes, parse, Finding, Route, Severity};

fn route(line: usize, method: &str, path: &str) -> Route {
    Route {
        line,
        method: method.to_string(),
        path: path.to_string(),
        handler: "h".to_string(),
    }
}

fn summary(findings: &[Finding]) -> Vec<(usize, &'static str)> {
    findings.iter().map(|f| (f.line, f.rule)).collect()
}

#[test]
fn reports_a_static_route_behind_a_dynamic_one() {
    let (routes, _) = parse("GET /users/:id -> show\nGET /users/new -> new");
    let findings = check_routes(&routes);
    assert_eq!(findings.len(), 1);
    assert_eq!(findings[0].line, 2);
    assert_eq!(findings[0].severity, Severity::Warning);
    assert_eq!(findings[0].rule, "shadowed-route");
    assert_eq!(
        findings[0].message,
        "GET /users/new can never match: line 1 (/users/:id) captures it first"
    );
}

#[test]
fn static_route_first_is_not_shadowed() {
    let (routes, _) = parse("GET /users/new -> new\nGET /users/:id -> show");
    assert!(check_routes(&routes).is_empty());
}

#[test]
fn other_methods_do_not_shadow() {
    let (routes, _) = parse("POST /users/:id -> a\nGET /users/new -> b");
    assert!(check_routes(&routes).is_empty());
}

#[test]
fn different_segment_counts_do_not_shadow() {
    let (routes, _) = parse("GET /users/:id -> a\nGET /users/new/edit -> b");
    assert!(check_routes(&routes).is_empty());
}

#[test]
fn routes_without_parameters_do_not_shadow() {
    let (routes, _) = parse("GET /a/b -> a\nGET /a/c -> b");
    assert!(check_routes(&routes).is_empty());
}

#[test]
fn a_parameter_route_shadows_a_later_parameter_route() {
    let (routes, _) = parse("GET /a/:x -> a\nGET /a/:y -> b");
    let findings = check_routes(&routes);
    assert_eq!(summary(&findings), vec![(2, "shadowed-route")]);
}

#[test]
fn a_mismatch_after_a_parameter_prevents_shadowing() {
    let (routes, _) = parse("GET /:x/a -> a\nGET /b/c -> b");
    assert!(check_routes(&routes).is_empty());
}

#[test]
fn duplicate_is_reported_once_against_the_first_definition() {
    let (routes, _) = parse("GET /a -> a\nGET /a -> b\nGET /a -> c");
    let findings = check_routes(&routes);
    assert_eq!(
        summary(&findings),
        vec![(2, "duplicate-route"), (3, "duplicate-route")]
    );
    assert_eq!(findings[0].message, "GET /a is already defined on line 1");
    assert_eq!(findings[1].message, "GET /a is already defined on line 1");
    assert_eq!(findings[1].severity, Severity::Error);
}

#[test]
fn identical_parameter_paths_are_duplicates_not_shadows() {
    let (routes, _) = parse("GET /u/:id -> a\nGET /u/:id -> b");
    let findings = check_routes(&routes);
    assert_eq!(summary(&findings), vec![(2, "duplicate-route")]);
}

#[test]
fn same_path_other_method_is_no_duplicate() {
    let (routes, _) = parse("GET /a -> a\nPOST /a -> b");
    assert!(check_routes(&routes).is_empty());
}

#[test]
fn reports_path_shape_problems_in_rule_order() {
    let (routes, _) = parse("GET users//x/ -> a");
    let findings = check_routes(&routes);
    assert_eq!(
        summary(&findings),
        vec![
            (1, "missing-leading-slash"),
            (1, "trailing-slash"),
            (1, "empty-segment")
        ]
    );
    assert_eq!(findings[0].message, "path \"users//x/\" does not start with /");
    assert_eq!(findings[0].severity, Severity::Error);
    assert_eq!(findings[1].message, "path \"users//x/\" has a trailing slash");
    assert_eq!(findings[1].severity, Severity::Warning);
    assert_eq!(findings[2].message, "path \"users//x/\" contains an empty segment");
    assert_eq!(findings[2].severity, Severity::Error);
}

#[test]
fn the_root_path_has_no_trailing_slash_problem() {
    let (routes, _) = parse("GET / -> root");
    assert!(check_routes(&routes).is_empty());
}

#[test]
fn findings_are_sorted_by_line_and_stable() {
    let routes = vec![
        route(12, "GET", "/a/:id"),
        route(3, "GET", "/a/b/"),
        route(7, "GET", "/a/b/"),
        route(3, "GET", "x"),
    ];
    let findings = check_routes(&routes);
    assert_eq!(
        summary(&findings),
        vec![
            (3, "trailing-slash"),
            (3, "missing-leading-slash"),
            (3, "shadowed-route"),
            (7, "trailing-slash"),
            (7, "duplicate-route"),
            (7, "shadowed-route"),
        ]
    );
    assert_eq!(findings[4].message, "GET /a/b/ is already defined on line 3");
    assert_eq!(
        findings[2].message,
        "GET /a/b/ can never match: line 12 (/a/:id) captures it first"
    );
}

#[test]
fn line_numbers_in_messages_are_decimal() {
    let mut table = String::new();
    for _ in 0..122 {
        table.push('\n');
    }
    table.push_str("GET /a -> a\nGET /a -> b\n");
    let (routes, _) = parse(&table);
    let findings = check_routes(&routes);
    assert_eq!(findings.len(), 1);
    assert_eq!(findings[0].line, 124);
    assert_eq!(findings[0].message, "GET /a is already defined on line 123");
}

#[test]
fn severity_names() {
    assert_eq!(Severity::Error.as_str(), "error");
    assert_eq!(Severity::Warning.as_str(), "warning");
}

#[test]
fn appending_a_later_route_appends_its_findings() {
    let mut routes = vec![
        route(1, "GET", "/u/:id"),
        route(2, "GET", "/a/"),
        route(4, "GET", "/u/new"),
    ];
    let before: Vec<(usize, &str, String)> = check_routes(&routes)
        .into_iter()
        .map(|f| (f.line, f.rule, f.message))
        .collect();
    routes.push(route(9, "GET", "/a/"));
    let after: Vec<(usize, &str, String)> = check_routes(&routes)
        .into_iter()
        .map(|f| (f.line, f.rule, f.message))
        .collect();
    assert_eq!(&after[..before.len()], &before[..]);
    assert_eq!(
        &after[before.len()..],
        &[
            (9, "trailing-slash", "path \"/a/\" has a trailing slash".to_string()),
            (9, "duplicate-route", "GET /a/ is already defined on line 2".to_string()),
        ]
    );
}
