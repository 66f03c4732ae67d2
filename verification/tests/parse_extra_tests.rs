use routelint::parse;

#[test]
fn the_first_arrow_splits_the_line() {
    let (routes, unparsable) = parse("GET /a->b -> h");
    assert!(unparsable.is_empty());
    assert_eq!(routes[0].path, "/a");
    assert_eq!(routes[0].handler, "b -> h");
}

#[test]
fn carriage_returns_are_trimmed() {
    let (routes, unparsable) = parse("GET /a -> h\r\nPOST /b -> g\r\n");
    assert!(unparsable.is_empty());
    assert_eq!(routes.len(), 2);
    assert_eq!(routes[0].handler, "h");
    assert_eq!(routes[1].line, 2);
    assert_eq!(routes[1].method, "POST");
}

#[test]
fn unicode_white_space_separates_words() {
    let (routes, unparsable) = parse("\u{3000}get\u{00A0}/a\t->\th\u{2003}");
    assert!(unparsable.is_empty());
    assert_eq!(routes[0].method, "GET");
    assert_eq!(routes[0].path, "/a");
    assert_eq!(routes[0].handler, "h");
}

#[test]
fn the_method_is_uppercased_by_unicode_rules() {
    let (routes, _) = parse("straße /a -> h");
    assert_eq!(routes[0].method, "STRASSE");
}

#[test]
fn a_comment_must_start_the_trimmed_line() {
    let (routes, unparsable) = parse("   # indented comment\nGET /a -> b # not a comment");
    assert!(unparsable.is_empty());
    assert_eq!(routes.len(), 1);
    assert_eq!(routes[0].line, 2);
    assert_eq!(routes[0].handler, "b # not a comment");
}

#[test]
fn empty_input_has_nothing() {
    let (routes, unparsable) = parse("");
    assert!(routes.is_empty());
    assert!(unparsable.is_empty());
}

#[test]
fn a_handler_of_white_space_is_missing() {
    let (routes, unparsable) = parse("GET /a ->   \t");
    assert!(routes.is_empty());
    assert_eq!(unparsable, vec![1]);
}

#[test]
fn an_arrow_at_the_start_is_unparsable() {
    let (routes, unparsable) = parse("-> h\n\nGET /a -> b\nx y z");
    assert_eq!(routes.len(), 1);
    assert_eq!(routes[0].line, 3);
    assert_eq!(unparsable, vec![1, 4]);
}
