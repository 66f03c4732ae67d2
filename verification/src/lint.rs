//! The rules a route table is checked against, and the findings they give.
use vstd::prelude::*;

use crate::parser::{route_views, Route, RouteView};
use crate::text::{
    char_views, chars_of, decimal, fields, push_chars, push_decimal, same_chars, split_fields,
};

verus! {

/// How serious a finding is.
#[derive(Debug, Clone, Copy, PartialEq, Eq, Structural)]
pub enum Severity {
    Error,
    Warning,
}

impl Severity {
    /// The name of a severity as it is printed.
    pub open spec fn name(self) -> Seq<char> {
        match self {
            Severity::Error => "error"@,
            Severity::Warning => "warning"@,
        }
    }

    pub fn as_str(&self) -> (s: &'static str)
        ensures
            s@ == self.name(),
    {
        match self {
            Severity::Error => "error",
            Severity::Warning => "warning",
        }
    }
}

/// One problem found in a route table, attributed to a line.
#[derive(Debug, Clone)]
pub struct Finding {
    pub line: usize,
    pub severity: Severity,
    pub rule: &'static str,
    pub message: String,
}

/// The mathematical value of a `Finding`.
pub struct FindingView {
    pub line: nat,
    pub severity: Severity,
    pub rule: Seq<char>,
    pub message: Seq<char>,
}

impl View for Finding {
    type V = FindingView;

    open spec fn view(&self) -> FindingView {
        FindingView {
            line: self.line as nat,
            severity: self.severity,
            rule: self.rule@,
            message: self.message@,
        }
    }
}

/// The views of a sequence of findings.
pub open spec fn finding_views(s: Seq<Finding>) -> Seq<FindingView> {
    s.map_values(|f: Finding| f@)
}

/// A finding with the given parts.
pub open spec fn finding(line: nat, severity: Severity, rule: Seq<char>, message: Seq<char>) -> FindingView {
    FindingView { line, severity, rule, message }
}

// ---------------------------------------------------------------------------
// Path shape
// ---------------------------------------------------------------------------

/// Two slashes start at index `i` of `p`.
pub open spec fn double_slash_at(p: Seq<char>, i: int) -> bool {
    0 <= i && i + 1 < p.len() && p[i] == '/' && p[i + 1] == '/'
}

/// The path holds `//`.
pub open spec fn has_empty_segment(p: Seq<char>) -> bool {
    exists|i: int| double_slash_at(p, i)
}

/// The findings on the shape of one route's path, in rule order: a missing
/// leading slash, a trailing slash (on a path other than `/`), an empty
/// segment.
pub open spec fn shape_findings(r: RouteView) -> Seq<FindingView> {
    let p = r.path;
    (if !(p.len() > 0 && p[0] == '/') {
        seq![
            finding(
                r.line,
                Severity::Error,
                "missing-leading-slash"@,
                "path \""@ + p + "\" does not start with /"@,
            ),
        ]
    } else {
        Seq::empty()
    }) + (if p.len() > 1 && p.last() == '/' {
        seq![
            finding(
                r.line,
                Severity::Warning,
                "trailing-slash"@,
                "path \""@ + p + "\" has a trailing slash"@,
            ),
        ]
    } else {
        Seq::empty()
    }) + (if has_empty_segment(p) {
        seq![
            finding(
                r.line,
                Severity::Error,
                "empty-segment"@,
                "path \""@ + p + "\" contains an empty segment"@,
            ),
        ]
    } else {
        Seq::empty()
    })
}

/// The path shape findings of all routes, route by route.
pub open spec fn all_shape_findings(rs: Seq<RouteView>) -> Seq<FindingView>
    decreases rs.len(),
{
    if rs.len() == 0 {
        Seq::empty()
    } else {
        all_shape_findings(rs.drop_last()) + shape_findings(rs.last())
    }
}

// ---------------------------------------------------------------------------
// Duplicates
// ---------------------------------------------------------------------------

/// Two routes have the same method and path.
pub open spec fn same_route(a: RouteView, b: RouteView) -> bool {
    a.method == b.method && a.path == b.path
}

/// Route `j` is the first route before route `i` with the same method and
/// path.
pub open spec fn first_duplicate(rs: Seq<RouteView>, i: int, j: int) -> bool {
    &&& 0 <= j < i
    &&& same_route(rs[j], rs[i])
    &&& forall|k: int| 0 <= k < j ==> !same_route(#[trigger] rs[k], rs[i])
}

/// The duplicate finding of route `i`: one, naming the line of the first
/// earlier route with the same method and path, if there is such a route.
pub open spec fn duplicate_finding(rs: Seq<RouteView>, i: int) -> Seq<FindingView> {
    if exists|j: int| 0 <= j < i && #[trigger] same_route(rs[j], rs[i]) {
        let j = choose|j: int| first_duplicate(rs, i, j);
        seq![
            finding(
                rs[i].line,
                Severity::Error,
                "duplicate-route"@,
                rs[i].method + " "@ + rs[i].path + " is already defined on line "@ + decimal(
                    rs[j].line,
                ),
            ),
        ]
    } else {
        Seq::empty()
    }
}

/// The duplicate findings of the first `n` routes, route by route.
pub open spec fn duplicate_findings(rs: Seq<RouteView>, n: int) -> Seq<FindingView>
    decreases n,
{
    if n <= 0 {
        Seq::empty()
    } else {
        duplicate_findings(rs, n - 1) + duplicate_finding(rs, n - 1)
    }
}

// ---------------------------------------------------------------------------
// Shadowing
// ---------------------------------------------------------------------------

/// A path segment that is a parameter (`:id`).
pub open spec fn is_param(seg: Seq<char>) -> bool {
    seg.len() > 0 && seg[0] == ':'
}

/// The non-empty `/`-separated segments of a path.
pub open spec fn segments(p: Seq<char>) -> Seq<Seq<char>> {
    fields(p, Some('/'))
}

/// A router that tries routes in order sends every request for `later` to
/// `earlier`: both have the same number of segments, at least one; each
/// segment of `earlier` is a parameter or equals the segment of `later` at
/// that place; and at least one is a parameter.
pub open spec fn shadows(earlier: Seq<char>, later: Seq<char>) -> bool {
    let es = segments(earlier);
    let ls = segments(later);
    &&& es.len() == ls.len()
    &&& es.len() > 0
    &&& forall|k: int| 0 <= k < es.len() ==> is_param(#[trigger] es[k]) || es[k] == ls[k]
    &&& exists|k: int| 0 <= k < es.len() && is_param(#[trigger] es[k])
}

/// The finding for route `i` being shadowed by route `j`, if it is: same
/// method, a different path, and `shadows`.
pub open spec fn shadow_finding(rs: Seq<RouteView>, i: int, j: int) -> Seq<FindingView> {
    let e = rs[j];
    let r = rs[i];
    if e.method == r.method && e.path != r.path && shadows(e.path, r.path) {
        seq![
            finding(
                r.line,
                Severity::Warning,
                "shadowed-route"@,
                r.method + " "@ + r.path + " can never match: line "@ + decimal(e.line) + " ("@
                    + e.path + ") captures it first"@,
            ),
        ]
    } else {
        Seq::empty()
    }
}

/// The shadow findings of route `i` against the first `n` routes.
pub open spec fn shadow_findings_of(rs: Seq<RouteView>, i: int, n: int) -> Seq<FindingView>
    decreases n,
{
    if n <= 0 {
        Seq::empty()
    } else {
        shadow_findings_of(rs, i, n - 1) + shadow_finding(rs, i, n - 1)
    }
}

/// The shadow findings of the first `m` routes, each against the routes
/// before it.
pub open spec fn shadow_findings(rs: Seq<RouteView>, m: int) -> Seq<FindingView>
    decreases m,
{
    if m <= 0 {
        Seq::empty()
    } else {
        shadow_findings(rs, m - 1) + shadow_findings_of(rs, m - 1, m - 1)
    }
}

// ---------------------------------------------------------------------------
// Order of findings
// ---------------------------------------------------------------------------

/// The findings of `s` on line `line`, in their order in `s`.
pub open spec fn with_line(s: Seq<FindingView>, line: nat) -> Seq<FindingView>
    decreases s.len(),
{
    if s.len() == 0 {
        Seq::empty()
    } else if s.last().line == line {
        with_line(s.drop_last(), line).push(s.last())
    } else {
        with_line(s.drop_last(), line)
    }
}

/// Line numbers never decrease along `s`.
pub open spec fn sorted_by_line(s: Seq<FindingView>) -> bool {
    forall|i: int, j: int| 0 <= i <= j < s.len() ==> s[i].line <= s[j].line
}

/// `out` is `inp` sorted by line, findings on one line kept in their order.
pub open spec fn is_line_sort_of(out: Seq<FindingView>, inp: Seq<FindingView>) -> bool {
    &&& sorted_by_line(out)
    &&& forall|l: nat| #[trigger] with_line(out, l) == with_line(inp, l)
}

/// `s` sorted by line, findings on one line kept in their order (unique by
/// `lemma_line_sort_unique`).
pub open spec fn sort_by_line(s: Seq<FindingView>) -> Seq<FindingView> {
    choose|o: Seq<FindingView>| is_line_sort_of(o, s)
}

/// All findings of a route table, before sorting: path shapes, then
/// duplicates, then shadowing.
pub open spec fn raw_findings(rs: Seq<RouteView>) -> Seq<FindingView> {
    all_shape_findings(rs) + duplicate_findings(rs, rs.len() as int) + shadow_findings(
        rs,
        rs.len() as int,
    )
}

/// The findings of a route table, as `check_routes` returns them.
pub open spec fn route_findings(rs: Seq<RouteView>) -> Seq<FindingView> {
    sort_by_line(raw_findings(rs))
}

// ---------------------------------------------------------------------------
// Lemmas on the order
// ---------------------------------------------------------------------------

/// `with_line` of a concatenation.
pub proof fn lemma_with_line_add(a: Seq<FindingView>, b: Seq<FindingView>, l: nat)
    ensures
        with_line(a + b, l) == with_line(a, l) + with_line(b, l),
    decreases b.len(),
{
    if b.len() == 0 {
        assert(a + b =~= a);
        assert(with_line(a, l) + with_line(b, l) =~= with_line(a, l));
    } else {
        assert((a + b).drop_last() =~= a + b.drop_last());
        lemma_with_line_add(a, b.drop_last(), l);
        if b.last().line == l {
            assert(with_line(a, l) + with_line(b, l) =~= (with_line(a, l) + with_line(
                b.drop_last(),
                l,
            )).push(b.last()));
        }
    }
}

/// No finding of `s` is on line `l`, so it has none on that line.
pub proof fn lemma_with_line_none(s: Seq<FindingView>, l: nat)
    requires
        forall|i: int| 0 <= i < s.len() ==> s[i].line != l,
    ensures
        with_line(s, l) == Seq::<FindingView>::empty(),
    decreases s.len(),
{
    if s.len() > 0 {
        lemma_with_line_none(s.drop_last(), l);
    }
}

/// A finding on line `l` in `with_line(s, l)` stands in `s`.
pub proof fn lemma_with_line_nonempty(s: Seq<FindingView>, l: nat)
    requires
        with_line(s, l).len() > 0,
    ensures
        exists|i: int| 0 <= i < s.len() && s[i].line == l,
    decreases s.len(),
{
    if s.last().line != l {
        lemma_with_line_nonempty(s.drop_last(), l);
        let i = choose|i: int| 0 <= i < s.drop_last().len() && s.drop_last()[i].line == l;
        assert(s[i].line == l);
    } else {
        assert(s[s.len() - 1].line == l);
    }
}

/// Sorting by line, findings on one line kept in their order, has exactly
/// one result.
pub proof fn lemma_line_sort_unique(a: Seq<FindingView>, b: Seq<FindingView>, s: Seq<FindingView>)
    requires
        is_line_sort_of(a, s),
        is_line_sort_of(b, s),
    ensures
        a == b,
{
    lemma_sorted_same_lines_equal(a, b);
}

proof fn lemma_sorted_same_lines_equal(a: Seq<FindingView>, b: Seq<FindingView>)
    requires
        sorted_by_line(a),
        sorted_by_line(b),
        forall|l: nat| #[trigger] with_line(a, l) == with_line(b, l),
    ensures
        a == b,
    decreases a.len() + b.len(),
{
    if a.len() == 0 && b.len() == 0 {
        assert(a =~= b);
    } else if a.len() == 0 {
        let l = b.last().line;
        assert(with_line(b, l).len() > 0);
        assert(with_line(a, l).len() == 0);
    } else if b.len() == 0 {
        let l = a.last().line;
        assert(with_line(a, l).len() > 0);
        assert(with_line(b, l).len() == 0);
    } else {
        let la = a.last().line;
        let lb = b.last().line;
        assert(with_line(a, la).len() > 0);
        assert(with_line(b, la) == with_line(a, la));
        lemma_with_line_nonempty(b, la);
        let ib = choose|i: int| 0 <= i < b.len() && b[i].line == la;
        assert(b[ib].line <= b[b.len() - 1].line);
        assert(with_line(b, lb).len() > 0);
        assert(with_line(a, lb) == with_line(b, lb));
        lemma_with_line_nonempty(a, lb);
        let ia = choose|i: int| 0 <= i < a.len() && a[i].line == lb;
        assert(a[ia].line <= a[a.len() - 1].line);
        let l = la;
        assert(with_line(a, l) == with_line(a.drop_last(), l).push(a.last()));
        assert(with_line(b, l) == with_line(b.drop_last(), l).push(b.last()));
        assert(with_line(a, l).last() == a.last());
        assert(with_line(b, l).last() == b.last());
        assert(with_line(a.drop_last(), l) =~= with_line(a, l).drop_last());
        assert(with_line(b.drop_last(), l) =~= with_line(b, l).drop_last());
        assert forall|m: nat| #[trigger]
            with_line(a.drop_last(), m) == with_line(b.drop_last(), m) by {
            if m != l {
                assert(with_line(a, m) == with_line(a.drop_last(), m));
                assert(with_line(b, m) == with_line(b.drop_last(), m));
            }
        }
        lemma_sorted_same_lines_equal(a.drop_last(), b.drop_last());
        assert(a =~= a.drop_last().push(a.last()));
        assert(b =~= b.drop_last().push(b.last()));
    }
}

// ---------------------------------------------------------------------------
// Executable checks
// ---------------------------------------------------------------------------

/// `path "<p>"` followed by `tail`.
fn path_message(p: &[char], tail: &str) -> (m: String)
    ensures
        m@ == "path \""@ + p@ + tail@,
{
    let mut m = String::new();
    m.append("path \"");
    push_chars(&mut m, p);
    m.append(tail);
    m
}

/// Whether `p` holds `//`.
fn has_double_slash(p: &[char]) -> (r: bool)
    ensures
        r == has_empty_segment(p@),
{
    let mut k: usize = 0;
    while k < p.len()
        invariant
            k <= p@.len(),
            forall|q: int| 0 <= q < k ==> !#[trigger] double_slash_at(p@, q),
        decreases p.len() - k,
    {
        if k + 1 < p.len() && p[k] == '/' && p[k + 1] == '/' {
            assert(double_slash_at(p@, k as int));
            return true;
        }
        k = k + 1;
    }
    false
}

fn check_path_shape(routes: &[Route], findings: &mut Vec<Finding>)
    ensures
        finding_views(final(findings)@) == finding_views(old(findings)@) + all_shape_findings(
            route_views(routes@),
        ),
{
    let ghost rs = route_views(routes@);
    let mut i: usize = 0;
    assert(rs.take(0) =~= Seq::<RouteView>::empty());
    assert(finding_views(findings@) =~= finding_views(old(findings)@) + Seq::<FindingView>::empty());
    while i < routes.len()
        invariant
            i <= routes@.len(),
            rs == route_views(routes@),
            finding_views(findings@) == finding_views(old(findings)@) + all_shape_findings(
                rs.take(i as int),
            ),
        decreases routes.len() - i,
    {
        let route = &routes[i];
        let p = chars_of(route.path.as_str());
        let ghost before = finding_views(findings@);
        let ghost r = rs[i as int];
        assert(r.path == p@);
        assert(r.line == route.line);
        if !(p.len() > 0 && p[0] == '/') {
            let m = path_message(p.as_slice(), "\" does not start with /");
            findings.push(
                Finding {
                    line: route.line,
                    severity: Severity::Error,
                    rule: "missing-leading-slash",
                    message: m,
                },
            );
        }
        let ghost part1 = finding_views(findings@);
        if p.len() > 1 && p[p.len() - 1] == '/' {
            let m = path_message(p.as_slice(), "\" has a trailing slash");
            findings.push(
                Finding {
                    line: route.line,
                    severity: Severity::Warning,
                    rule: "trailing-slash",
                    message: m,
                },
            );
        }
        let ghost part2 = finding_views(findings@);
        let double = has_double_slash(p.as_slice());
        assert(double == has_empty_segment(p@));
        if double {
            let m = path_message(p.as_slice(), "\" contains an empty segment");
            findings.push(
                Finding {
                    line: route.line,
                    severity: Severity::Error,
                    rule: "empty-segment",
                    message: m,
                },
            );
        }
        proof {
            assert(rs.take(i + 1).drop_last() =~= rs.take(i as int));
            assert(rs.take(i + 1).last() == r);
            let s1 = if !(p@.len() > 0 && p@[0] == '/') {
                seq![
                    finding(
                        r.line,
                        Severity::Error,
                        "missing-leading-slash"@,
                        "path \""@ + p@ + "\" does not start with /"@,
                    ),
                ]
            } else {
                Seq::empty()
            };
            let s2 = if p@.len() > 1 && p@.last() == '/' {
                seq![
                    finding(
                        r.line,
                        Severity::Warning,
                        "trailing-slash"@,
                        "path \""@ + p@ + "\" has a trailing slash"@,
                    ),
                ]
            } else {
                Seq::empty()
            };
            let s3 = if has_empty_segment(p@) {
                seq![
                    finding(
                        r.line,
                        Severity::Error,
                        "empty-segment"@,
                        "path \""@ + p@ + "\" contains an empty segment"@,
                    ),
                ]
            } else {
                Seq::empty()
            };
            assert(part1 =~= before + s1);
            assert(part2 =~= part1 + s2);
            assert(finding_views(findings@) =~= part2 + s3);
            assert(shape_findings(r) == s1 + s2 + s3);
            assert(finding_views(findings@) =~= before + shape_findings(r));
        }
        i = i + 1;
    }
    assert(rs.take(routes@.len() as int) =~= rs);
}


/// The first route before route `i` with the same method and path.
fn earlier_duplicate(routes: &[Route], i: usize) -> (r: Option<usize>)
    requires
        i < routes@.len(),
    ensures
        r matches Some(j) ==> first_duplicate(route_views(routes@), i as int, j as int),
        r is None ==> forall|j: int|
            0 <= j < i ==> !#[trigger] same_route(route_views(routes@)[j], route_views(routes@)[i as int]),
{
    let ghost rs = route_views(routes@);
    let mut j: usize = 0;
    while j < i
        invariant
            j <= i < routes@.len(),
            rs == route_views(routes@),
            forall|k: int| 0 <= k < j ==> !#[trigger] same_route(rs[k], rs[i as int]),
        decreases i - j,
    {
        if routes[j].method == routes[i].method && routes[j].path == routes[i].path {
            assert(same_route(rs[j as int], rs[i as int]));
            return Some(j);
        }
        j = j + 1;
    }
    None
}

fn check_duplicates(routes: &[Route], findings: &mut Vec<Finding>)
    ensures
        finding_views(final(findings)@) == finding_views(old(findings)@) + duplicate_findings(
            route_views(routes@),
            routes@.len() as int,
        ),
{
    let ghost rs = route_views(routes@);
    let mut i: usize = 0;
    assert(finding_views(findings@) =~= finding_views(old(findings)@) + Seq::<FindingView>::empty());
    while i < routes.len()
        invariant
            i <= routes@.len(),
            rs == route_views(routes@),
            finding_views(findings@) == finding_views(old(findings)@) + duplicate_findings(
                rs,
                i as int,
            ),
        decreases routes.len() - i,
    {
        let ghost before = finding_views(findings@);
        match earlier_duplicate(routes, i) {
            Some(j) => {
                let route = &routes[i];
                let mut m = String::new();
                m.append(route.method.as_str());
                m.append(" ");
                m.append(route.path.as_str());
                m.append(" is already defined on line ");
                push_decimal(&mut m, routes[j].line);
                findings.push(
                    Finding {
                        line: route.line,
                        severity: Severity::Error,
                        rule: "duplicate-route",
                        message: m,
                    },
                );
                proof {
                    let k = choose|k: int| first_duplicate(rs, i as int, k);
                    assert(same_route(rs[j as int], rs[i as int]));
                    assert(first_duplicate(rs, i as int, k));
                    if k < j {
                        assert(!same_route(rs[k], rs[i as int]));
                    } else if j < k {
                        assert(!same_route(rs[j as int], rs[i as int]));
                    }
                    assert(finding_views(findings@) =~= before + duplicate_finding(rs, i as int));
                }
            },
            None => {
                assert(duplicate_finding(rs, i as int) =~= Seq::<FindingView>::empty());
                assert(finding_views(findings@) =~= before + duplicate_finding(rs, i as int));
            },
        }
        i = i + 1;
    }
}

/// Whether a router that tries routes in order sends every request for
/// `later_path` to `earlier_path` (see `shadows`).
fn segments_shadow(earlier_path: &str, later_path: &str) -> (r: bool)
    ensures
        r == shadows(earlier_path@, later_path@),
{
    let e = chars_of(earlier_path);
    let l = chars_of(later_path);
    let es = split_fields(e.as_slice(), Some('/'));
    let ls = split_fields(l.as_slice(), Some('/'));
    let ghost se = segments(earlier_path@);
    let ghost sl = segments(later_path@);
    if es.len() != ls.len() || es.len() == 0 {
        return false;
    }
    let mut has_param = false;
    let mut k: usize = 0;
    while k < es.len()
        invariant
            k <= es@.len(),
            es@.len() == ls@.len(),
            es@.len() > 0,
            char_views(es@) == se,
            char_views(ls@) == sl,
            se == segments(earlier_path@),
            sl == segments(later_path@),
            forall|q: int| 0 <= q < k ==> is_param(#[trigger] se[q]) || se[q] == sl[q],
            has_param == exists|q: int| 0 <= q < k && is_param(#[trigger] se[q]),
        decreases es.len() - k,
    {
        let seg = &es[k];
        assert(se[k as int] == seg@);
        assert(sl[k as int] == ls@[k as int]@);
        if seg.len() > 0 && seg[0] == ':' {
            has_param = true;
            assert(is_param(se[k as int]));
        } else if !same_chars(seg.as_slice(), ls[k].as_slice()) {
            assert(!is_param(se[k as int]) && se[k as int] != sl[k as int]);
            assert(!shadows(earlier_path@, later_path@));
            return false;
        }
        k = k + 1;
    }
    has_param
}

fn check_shadowing(routes: &[Route], findings: &mut Vec<Finding>)
    ensures
        finding_views(final(findings)@) == finding_views(old(findings)@) + shadow_findings(
            route_views(routes@),
            routes@.len() as int,
        ),
{
    let ghost rs = route_views(routes@);
    let mut i: usize = 0;
    assert(finding_views(findings@) =~= finding_views(old(findings)@) + Seq::<FindingView>::empty());
    while i < routes.len()
        invariant
            i <= routes@.len(),
            rs == route_views(routes@),
            finding_views(findings@) == finding_views(old(findings)@) + shadow_findings(
                rs,
                i as int,
            ),
        decreases routes.len() - i,
    {
        let ghost start = finding_views(findings@);
        let route = &routes[i];
        let mut j: usize = 0;
        assert(start =~= start + Seq::<FindingView>::empty());
        while j < i
            invariant
                j <= i < routes@.len(),
                rs == route_views(routes@),
                route == &routes@[i as int],
                finding_views(findings@) == start + shadow_findings_of(rs, i as int, j as int),
            decreases i - j,
        {
            let ghost before = finding_views(findings@);
            let earlier = &routes[j];
            if earlier.method == route.method && !(earlier.path == route.path)
                && segments_shadow(earlier.path.as_str(), route.path.as_str()) {
                let mut m = String::new();
                m.append(route.method.as_str());
                m.append(" ");
                m.append(route.path.as_str());
                m.append(" can never match: line ");
                push_decimal(&mut m, earlier.line);
                m.append(" (");
                m.append(earlier.path.as_str());
                m.append(") captures it first");
                findings.push(
                    Finding {
                        line: route.line,
                        severity: Severity::Warning,
                        rule: "shadowed-route",
                        message: m,
                    },
                );
            }
            assert(finding_views(findings@) =~= before + shadow_finding(rs, i as int, j as int));
            j = j + 1;
        }
        i = i + 1;
    }
}

/// Inserting `x` after the findings of lower lines and before the others
/// keeps a line sort.
proof fn lemma_insert_keeps_sort(
    out: Seq<FindingView>,
    suffix: Seq<FindingView>,
    x: FindingView,
    p: int,
)
    requires
        is_line_sort_of(out, suffix),
        0 <= p <= out.len(),
        forall|q: int| 0 <= q < p ==> out[q].line < x.line,
        forall|q: int| p <= q < out.len() ==> out[q].line >= x.line,
    ensures
        is_line_sort_of(out.insert(p, x), seq![x] + suffix),
{
    let n = out.insert(p, x);
    let a = out.take(p);
    let b = out.skip(p);
    assert(n =~= a + seq![x] + b);
    assert(out =~= a + b);
    assert forall|i: int, j: int| 0 <= i <= j < n.len() implies n[i].line <= n[j].line by {
        if j < p {
            assert(n[i] == out[i] && n[j] == out[j]);
        } else if i > p {
            assert(n[i] == out[i - 1] && n[j] == out[j - 1]);
        } else if i == p && j > p {
            assert(n[j] == out[j - 1]);
        } else if i < p && j > p {
            assert(n[i] == out[i] && n[j] == out[j - 1]);
        }
    }
    assert forall|l: nat| #[trigger] with_line(n, l) == with_line(seq![x] + suffix, l) by {
        lemma_insert_with_line(out, suffix, x, p, l);
    }
}

proof fn lemma_insert_with_line(
    out: Seq<FindingView>,
    suffix: Seq<FindingView>,
    x: FindingView,
    p: int,
    l: nat,
)
    requires
        is_line_sort_of(out, suffix),
        0 <= p <= out.len(),
        forall|q: int| 0 <= q < p ==> out[q].line < x.line,
    ensures
        with_line(out.insert(p, x), l) == with_line(seq![x] + suffix, l),
{
    let n = out.insert(p, x);
    let a = out.take(p);
    let b = out.skip(p);
    let one = seq![x];
    assert(n =~= a + one + b);
    assert(out =~= a + b);
    lemma_with_line_add(a + one, b, l);
    lemma_with_line_add(a, one, l);
    lemma_with_line_add(a, b, l);
    lemma_with_line_add(one, suffix, l);
    assert(one.drop_last() =~= Seq::<FindingView>::empty());
    assert(with_line(Seq::<FindingView>::empty(), l) == Seq::<FindingView>::empty());
    assert(with_line(out, l) == with_line(suffix, l));
    if l == x.line {
        assert forall|q: int| 0 <= q < a.len() implies a[q].line != l by {
            assert(a[q] == out[q]);
        }
        lemma_with_line_none(a, l);
        assert(with_line(one, l) =~= one);
        assert(with_line(n, l) =~= one + with_line(b, l));
        assert(with_line(out, l) =~= with_line(b, l));
    } else {
        assert(with_line(one, l) =~= Seq::<FindingView>::empty());
        assert(with_line(n, l) =~= with_line(a, l) + with_line(b, l));
        assert(with_line(one + suffix, l) =~= with_line(suffix, l));
    }
}

/// Sorts findings by line, keeping the order of findings on one line.
pub(crate) fn sort_findings(v: Vec<Finding>) -> (r: Vec<Finding>)
    ensures
        finding_views(r@) == sort_by_line(finding_views(v@)),
        is_line_sort_of(finding_views(r@), finding_views(v@)),
{
    let ghost orig = finding_views(v@);
    let mut rest = v;
    let mut out: Vec<Finding> = Vec::new();
    proof {
        assert(orig.skip(orig.len() as int) =~= Seq::<FindingView>::empty());
        assert forall|l: nat| #[trigger]
            with_line(finding_views(out@), l) == with_line(orig.skip(rest@.len() as int), l) by {
            assert(finding_views(out@) =~= Seq::<FindingView>::empty());
        }
        assert(finding_views(rest@) =~= orig.take(rest@.len() as int));
    }
    while rest.len() > 0
        invariant
            rest@.len() <= orig.len(),
            finding_views(rest@) == orig.take(rest@.len() as int),
            is_line_sort_of(finding_views(out@), orig.skip(rest@.len() as int)),
        decreases rest@.len(),
    {
        let ghost n = rest@.len() as int;
        let x = rest.pop().unwrap();
        assert(orig[n - 1] == x@) by {
            assert(orig.take(n)[n - 1] == orig[n - 1]);
        }
        assert(finding_views(rest@) =~= orig.take(n - 1));
        let ghost outv = finding_views(out@);
        let mut p: usize = 0;
        while p < out.len() && out[p].line < x.line
            invariant
                p <= out@.len(),
                outv == finding_views(out@),
                forall|q: int| 0 <= q < p ==> outv[q].line < x.line,
            decreases out.len() - p,
        {
            p = p + 1;
        }
        proof {
            if p < out@.len() {
                assert forall|q: int| p <= q < outv.len() implies outv[q].line >= x@.line by {
                    assert(outv[p as int].line <= outv[q].line);
                }
            }
            lemma_insert_keeps_sort(outv, orig.skip(n), x@, p as int);
            assert(orig.skip(n - 1) =~= seq![x@] + orig.skip(n));
        }
        out.insert(p, x);
        assert(finding_views(out@) =~= outv.insert(p as int, x@));
    }
    proof {
        assert(orig.skip(0) =~= orig);
        let o = finding_views(out@);
        assert(is_line_sort_of(o, orig));
        lemma_line_sort_unique(sort_by_line(orig), o, orig);
    }
    out
}

/// Checks a route table: path shapes, duplicate routes and shadowed routes.
/// The findings are sorted by line; findings on one line keep the order
/// shapes, duplicates, shadowing.
pub fn check_routes(routes: &[Route]) -> (findings: Vec<Finding>)
    ensures
        finding_views(findings@) == route_findings(route_views(routes@)),
        is_line_sort_of(finding_views(findings@), raw_findings(route_views(routes@))),
{
    let mut findings: Vec<Finding> = Vec::new();
    check_path_shape(routes, &mut findings);
    check_duplicates(routes, &mut findings);
    check_shadowing(routes, &mut findings);
    assert(finding_views(findings@) =~= raw_findings(route_views(routes@)));
    sort_findings(findings)
}

/// A route with path `route_path` serves a request for `request`: both have
/// the same number of segments, and each segment of the route is a
/// parameter or equals the request's segment at that place.
pub open spec fn path_matches(route_path: Seq<char>, request: Seq<char>) -> bool {
    let ps = segments(route_path);
    let qs = segments(request);
    &&& ps.len() == qs.len()
    &&& forall|k: int| 0 <= k < ps.len() ==> is_param(#[trigger] ps[k]) || ps[k] == qs[k]
}

/// Where `earlier` shadows `later`, every request that `later` serves is
/// served by `earlier`, which a router that tries routes in order tries
/// first: `later` can never match.
pub proof fn lemma_shadowed_route_never_matches(
    earlier: Seq<char>,
    later: Seq<char>,
    request: Seq<char>,
)
    requires
        shadows(earlier, later),
        path_matches(later, request),
    ensures
        path_matches(earlier, request),
{
    let es = segments(earlier);
    let ls = segments(later);
    let qs = segments(request);
    assert forall|k: int| 0 <= k < es.len() implies is_param(#[trigger] es[k]) || es[k] == qs[k] by {
        assert(is_param(es[k]) || es[k] == ls[k]);
        assert(is_param(ls[k]) || ls[k] == qs[k]);
    }
}

/// A route's own path serves it: a later route with the same method and
/// path is a duplicate, never reported as shadowed.
pub proof fn lemma_no_shadow_finding_for_same_path(rs: Seq<RouteView>, i: int, j: int)
    requires
        0 <= j < rs.len(),
        0 <= i < rs.len(),
        rs[j].path == rs[i].path,
    ensures
        shadow_finding(rs, i, j) == Seq::<FindingView>::empty(),
{
}

/// The first index from `from` on where the line is at least `l` (the
/// length of `s` where there is none).
pub open spec fn first_at_least(s: Seq<FindingView>, l: nat, from: int) -> int
    decreases s.len() - from,
{
    if from < 0 || from >= s.len() || s[from].line >= l {
        from
    } else {
        first_at_least(s, l, from + 1)
    }
}

proof fn lemma_first_at_least(s: Seq<FindingView>, l: nat, from: int)
    requires
        sorted_by_line(s),
        0 <= from <= s.len(),
        forall|q: int| 0 <= q < from ==> s[q].line < l,
    ensures
        0 <= first_at_least(s, l, from) <= s.len(),
        forall|q: int| 0 <= q < first_at_least(s, l, from) ==> s[q].line < l,
        forall|q: int| first_at_least(s, l, from) <= q < s.len() ==> s[q].line >= l,
    decreases s.len() - from,
{
    if from < s.len() && s[from].line < l {
        lemma_first_at_least(s, l, from + 1);
    } else if from < s.len() {
        assert forall|q: int| from <= q < s.len() implies s[q].line >= l by {
            assert(s[from].line <= s[q].line);
        }
    }
}

/// Insertion sort by line, each finding placed before the findings of its
/// line that follow it.
pub open spec fn insertion_sort(s: Seq<FindingView>) -> Seq<FindingView>
    decreases s.len(),
{
    if s.len() == 0 {
        s
    } else {
        let r = insertion_sort(s.drop_first());
        r.insert(first_at_least(r, s[0].line, 0), s[0])
    }
}

/// Every sequence of findings has a line sort: `sort_by_line` is one.
pub proof fn lemma_sort_by_line(s: Seq<FindingView>)
    ensures
        is_line_sort_of(sort_by_line(s), s),
{
    lemma_insertion_sort(s);
}

proof fn lemma_insertion_sort(s: Seq<FindingView>)
    ensures
        is_line_sort_of(insertion_sort(s), s),
    decreases s.len(),
{
    if s.len() > 0 {
        let rest = s.drop_first();
        lemma_insertion_sort(rest);
        let r = insertion_sort(rest);
        lemma_first_at_least(r, s[0].line, 0);
        lemma_insert_keeps_sort(r, rest, s[0], first_at_least(r, s[0].line, 0));
        assert(s =~= seq![s[0]] + rest);
    }
}

proof fn lemma_with_line_members(s: Seq<FindingView>, l: nat)
    ensures
        forall|i: int| 0 <= i < s.len() && s[i].line == l ==> with_line(s, l).contains(#[trigger] s[i]),
        forall|j: int| 0 <= j < with_line(s, l).len() ==> s.contains(#[trigger] with_line(s, l)[j]),
    decreases s.len(),
{
    if s.len() > 0 {
        let p = s.drop_last();
        lemma_with_line_members(p, l);
        let w = with_line(s, l);
        let wp = with_line(p, l);
        assert forall|i: int| 0 <= i < s.len() && s[i].line == l implies w.contains(#[trigger] s[i]) by {
            if i < s.len() - 1 {
                assert(s[i] == p[i]);
                let j = choose|j: int| 0 <= j < wp.len() && wp[j] == p[i];
                assert(w[j] == wp[j]);
            } else {
                assert(w[w.len() - 1] == s[i]);
            }
        }
        assert forall|j: int| 0 <= j < w.len() implies s.contains(#[trigger] w[j]) by {
            if j < wp.len() {
                assert(w[j] == wp[j]);
                let i = choose|i: int| 0 <= i < p.len() && p[i] == wp[j];
                assert(s[i] == p[i]);
            } else {
                assert(w[j] == s[s.len() - 1]);
            }
        }
    }
}

/// A line sort holds the same findings as what was sorted.
pub proof fn lemma_line_sort_members(out: Seq<FindingView>, inp: Seq<FindingView>)
    requires
        is_line_sort_of(out, inp),
    ensures
        forall|k: int| 0 <= k < out.len() ==> inp.contains(#[trigger] out[k]),
        forall|k: int| 0 <= k < inp.len() ==> out.contains(#[trigger] inp[k]),
{
    assert forall|k: int| 0 <= k < out.len() implies inp.contains(#[trigger] out[k]) by {
        let l = out[k].line;
        lemma_with_line_members(out, l);
        lemma_with_line_members(inp, l);
        let j = choose|j: int| 0 <= j < with_line(out, l).len() && with_line(out, l)[j] == out[k];
        assert(with_line(inp, l)[j] == out[k]);
    }
    assert forall|k: int| 0 <= k < inp.len() implies out.contains(#[trigger] inp[k]) by {
        let l = inp[k].line;
        lemma_with_line_members(out, l);
        lemma_with_line_members(inp, l);
        let j = choose|j: int| 0 <= j < with_line(inp, l).len() && with_line(inp, l)[j] == inp[k];
        assert(with_line(out, l)[j] == inp[k]);
    }
}

/// Every finding of a route table stands on the line of one of its routes.
pub proof fn lemma_findings_on_route_lines(rs: Seq<RouteView>)
    ensures
        forall|k: int|
            0 <= k < route_findings(rs).len() ==> exists|i: int|
                0 <= i < rs.len() && rs[i].line == (#[trigger] route_findings(rs)[k]).line,
{
    let raw = raw_findings(rs);
    lemma_sort_by_line(raw);
    lemma_line_sort_members(route_findings(rs), raw);
    lemma_raw_findings_on_route_lines(rs);
    assert forall|k: int| 0 <= k < route_findings(rs).len() implies exists|i: int|
        0 <= i < rs.len() && rs[i].line == (#[trigger] route_findings(rs)[k]).line by {
        let f = route_findings(rs)[k];
        assert(raw.contains(f));
        let j = choose|j: int| 0 <= j < raw.len() && raw[j] == f;
        assert(on_route_line(rs, raw[j]));
    }
}

/// `f` stands on the line of one of the routes.
pub open spec fn on_route_line(rs: Seq<RouteView>, f: FindingView) -> bool {
    exists|i: int| 0 <= i < rs.len() && rs[i].line == f.line
}

proof fn lemma_all_on_route_lines_add(rs: Seq<RouteView>, a: Seq<FindingView>, b: Seq<FindingView>)
    requires
        forall|k: int| 0 <= k < a.len() ==> on_route_line(rs, #[trigger] a[k]),
        forall|k: int| 0 <= k < b.len() ==> on_route_line(rs, #[trigger] b[k]),
    ensures
        forall|k: int| 0 <= k < (a + b).len() ==> on_route_line(rs, #[trigger] (a + b)[k]),
{
    assert forall|k: int| 0 <= k < (a + b).len() implies on_route_line(rs, #[trigger] (a + b)[k]) by {
        if k < a.len() {
            assert((a + b)[k] == a[k]);
        } else {
            assert((a + b)[k] == b[k - a.len()]);
        }
    }
}

proof fn lemma_raw_findings_on_route_lines(rs: Seq<RouteView>)
    ensures
        forall|k: int|
            0 <= k < raw_findings(rs).len() ==> on_route_line(rs, #[trigger] raw_findings(rs)[k]),
{
    lemma_shape_on_route_lines(rs, rs.len() as int);
    assert(rs.take(rs.len() as int) =~= rs);
    lemma_duplicates_on_route_lines(rs, rs.len() as int);
    lemma_shadows_on_route_lines(rs, rs.len() as int);
    lemma_all_on_route_lines_add(
        rs,
        all_shape_findings(rs),
        duplicate_findings(rs, rs.len() as int),
    );
    lemma_all_on_route_lines_add(
        rs,
        all_shape_findings(rs) + duplicate_findings(rs, rs.len() as int),
        shadow_findings(rs, rs.len() as int),
    );
}

proof fn lemma_shape_on_route_lines(rs: Seq<RouteView>, n: int)
    requires
        0 <= n <= rs.len(),
    ensures
        forall|k: int|
            0 <= k < all_shape_findings(rs.take(n)).len() ==> on_route_line(
                rs,
                #[trigger] all_shape_findings(rs.take(n))[k],
            ),
    decreases n,
{
    if n > 0 {
        lemma_shape_on_route_lines(rs, n - 1);
        assert(rs.take(n).drop_last() =~= rs.take(n - 1));
        let sh = shape_findings(rs[n - 1]);
        assert forall|k: int| 0 <= k < sh.len() implies on_route_line(rs, #[trigger] sh[k]) by {
            assert(sh[k].line == rs[n - 1].line);
        }
        lemma_all_on_route_lines_add(rs, all_shape_findings(rs.take(n - 1)), sh);
    } else {
        assert(rs.take(n) =~= Seq::<RouteView>::empty());
    }
}

proof fn lemma_duplicates_on_route_lines(rs: Seq<RouteView>, n: int)
    requires
        0 <= n <= rs.len(),
    ensures
        forall|k: int|
            0 <= k < duplicate_findings(rs, n).len() ==> on_route_line(
                rs,
                #[trigger] duplicate_findings(rs, n)[k],
            ),
    decreases n,
{
    if n > 0 {
        lemma_duplicates_on_route_lines(rs, n - 1);
        let d = duplicate_finding(rs, n - 1);
        assert forall|k: int| 0 <= k < d.len() implies on_route_line(rs, #[trigger] d[k]) by {
            assert(d[k].line == rs[n - 1].line);
        }
        lemma_all_on_route_lines_add(rs, duplicate_findings(rs, n - 1), d);
    }
}

proof fn lemma_shadows_on_route_lines(rs: Seq<RouteView>, m: int)
    requires
        0 <= m <= rs.len(),
    ensures
        forall|k: int|
            0 <= k < shadow_findings(rs, m).len() ==> on_route_line(
                rs,
                #[trigger] shadow_findings(rs, m)[k],
            ),
    decreases m,
{
    if m > 0 {
        lemma_shadows_on_route_lines(rs, m - 1);
        lemma_shadows_of_on_route_line(rs, m - 1, m - 1);
        lemma_all_on_route_lines_add(
            rs,
            shadow_findings(rs, m - 1),
            shadow_findings_of(rs, m - 1, m - 1),
        );
    }
}

proof fn lemma_shadows_of_on_route_line(rs: Seq<RouteView>, i: int, n: int)
    requires
        0 <= i < rs.len(),
        0 <= n <= i,
    ensures
        forall|k: int|
            0 <= k < shadow_findings_of(rs, i, n).len() ==> on_route_line(
                rs,
                #[trigger] shadow_findings_of(rs, i, n)[k],
            ),
    decreases n,
{
    if n > 0 {
        lemma_shadows_of_on_route_line(rs, i, n - 1);
        let d = shadow_finding(rs, i, n - 1);
        assert forall|k: int| 0 <= k < d.len() implies on_route_line(rs, #[trigger] d[k]) by {
            assert(d[k].line == rs[i].line);
        }
        lemma_all_on_route_lines_add(rs, shadow_findings_of(rs, i, n - 1), d);
    }
}

/// The findings route `r` gets when it follows the routes `rs`: its path
/// shape findings, its duplicate finding if any, and one shadow finding per
/// earlier route that shadows it.
pub open spec fn appended_route_findings(rs: Seq<RouteView>, r: RouteView) -> Seq<FindingView> {
    let all = rs.push(r);
    let n = rs.len() as int;
    shape_findings(r) + duplicate_finding(all, n) + shadow_findings_of(all, n, n)
}

/// Adding a route on a later line than all the others keeps the findings of
/// the others and appends the new route's own, all on its line.
pub proof fn lemma_append_route(rs: Seq<RouteView>, r: RouteView)
    requires
        forall|k: int| 0 <= k < rs.len() ==> #[trigger] rs[k].line < r.line,
    ensures
        route_findings(rs.push(r)) == route_findings(rs) + appended_route_findings(rs, r),
        forall|k: int|
            0 <= k < appended_route_findings(rs, r).len() ==> (#[trigger] appended_route_findings(
                rs,
                r,
            )[k]).line == r.line,
{
    let all = rs.push(r);
    let n = rs.len() as int;
    let a = all_shape_findings(rs);
    let d = duplicate_findings(rs, n);
    let sh = shadow_findings(rs, n);
    let sr = shape_findings(r);
    let dr = duplicate_finding(all, n);
    let shr = shadow_findings_of(all, n, n);
    let x = appended_route_findings(rs, r);
    // The earlier routes' findings do not change.
    assert(all.drop_last() =~= rs);
    assert(all.last() == r);
    lemma_duplicates_local(all, rs, n);
    lemma_shadows_local(all, rs, n);
    assert(raw_findings(all) =~= a + sr + d + dr + sh + shr);
    assert(raw_findings(rs) == a + d + sh);
    // The new route's findings are all on its line.
    assert forall|k: int| 0 <= k < sr.len() implies (#[trigger] sr[k]).line == r.line by {}
    assert forall|k: int| 0 <= k < dr.len() implies (#[trigger] dr[k]).line == r.line by {}
    lemma_shadows_of_line(all, n, n);
    assert forall|k: int| 0 <= k < x.len() implies (#[trigger] x[k]).line == r.line by {
        if k < sr.len() {
            assert(x[k] == sr[k]);
        } else if k < sr.len() + dr.len() {
            assert(x[k] == dr[k - sr.len()]);
        } else {
            assert(x[k] == shr[k - sr.len() - dr.len()]);
        }
    }
    // The earlier findings are on earlier lines.
    let o = route_findings(rs);
    lemma_sort_by_line(raw_findings(rs));
    lemma_findings_on_route_lines(rs);
    lemma_raw_findings_on_route_lines(rs);
    assert forall|k: int| 0 <= k < o.len() implies (#[trigger] o[k]).line < r.line by {
        let i = choose|i: int| 0 <= i < rs.len() && rs[i].line == o[k].line;
        assert(rs[i].line < r.line);
    }
    let raw = raw_findings(rs);
    assert forall|k: int| 0 <= k < raw.len() implies (#[trigger] raw[k]).line != r.line by {
        assert(on_route_line(rs, raw[k]));
        let i = choose|i: int| 0 <= i < rs.len() && rs[i].line == raw[k].line;
        assert(rs[i].line < r.line);
    }
    // `o + x` is the line sort of the new raw findings.
    let ox = o + x;
    assert forall|i: int, j: int| 0 <= i <= j < ox.len() implies ox[i].line <= ox[j].line by {
        if j < o.len() {
            assert(ox[i] == o[i] && ox[j] == o[j]);
        } else if i < o.len() {
            assert(ox[i] == o[i] && ox[j] == x[j - o.len()]);
        } else {
            assert(ox[i] == x[i - o.len()] && ox[j] == x[j - o.len()]);
        }
    }
    assert forall|l: nat| #[trigger] with_line(ox, l) == with_line(raw_findings(all), l) by {
        lemma_with_line_add(o, x, l);
        lemma_with_line_add(a, sr, l);
        lemma_with_line_add(a + sr, d, l);
        lemma_with_line_add(a + sr + d, dr, l);
        lemma_with_line_add(a + sr + d + dr, sh, l);
        lemma_with_line_add(a + sr + d + dr + sh, shr, l);
        lemma_with_line_add(a, d, l);
        lemma_with_line_add(a + d, sh, l);
        lemma_with_line_add(sr, dr, l);
        lemma_with_line_add(sr + dr, shr, l);
        assert(with_line(o, l) == with_line(raw, l));
        if l == r.line {
            lemma_with_line_none(raw, l);
            lemma_with_line_none(o, l);
            lemma_with_line_all(sr, l);
            lemma_with_line_all(dr, l);
            lemma_with_line_all(shr, l);
            lemma_with_line_all(x, l);
            assert(with_line(a, l).len() + with_line(d, l).len() + with_line(sh, l).len() == 0);
            assert(with_line(a, l) =~= Seq::<FindingView>::empty());
            assert(with_line(d, l) =~= Seq::<FindingView>::empty());
            assert(with_line(sh, l) =~= Seq::<FindingView>::empty());
            assert(with_line(raw_findings(all), l) =~= sr + dr + shr);
            assert(with_line(ox, l) =~= x);
        } else {
            lemma_with_line_none(sr, l);
            lemma_with_line_none(dr, l);
            lemma_with_line_none(shr, l);
            lemma_with_line_none(x, l);
            assert(with_line(raw_findings(all), l) =~= with_line(a, l) + with_line(d, l)
                + with_line(sh, l));
            assert(with_line(ox, l) =~= with_line(o, l));
        }
    }
    lemma_sort_by_line(raw_findings(all));
    lemma_line_sort_unique(route_findings(all), ox, raw_findings(all));
}

/// All findings of `s` on line `l` make `with_line(s, l)` the whole of `s`.
proof fn lemma_with_line_all(s: Seq<FindingView>, l: nat)
    requires
        forall|k: int| 0 <= k < s.len() ==> (#[trigger] s[k]).line == l,
    ensures
        with_line(s, l) == s,
    decreases s.len(),
{
    if s.len() > 0 {
        lemma_with_line_all(s.drop_last(), l);
        assert(s.drop_last().push(s.last()) =~= s);
    }
}

proof fn lemma_shadows_of_line(rs: Seq<RouteView>, i: int, n: int)
    requires
        0 <= i < rs.len(),
        0 <= n <= i,
    ensures
        forall|k: int|
            0 <= k < shadow_findings_of(rs, i, n).len() ==> (#[trigger] shadow_findings_of(
                rs,
                i,
                n,
            )[k]).line == rs[i].line,
    decreases n,
{
    if n > 0 {
        lemma_shadows_of_line(rs, i, n - 1);
        let p = shadow_findings_of(rs, i, n - 1);
        let q = shadow_finding(rs, i, n - 1);
        assert forall|k: int| 0 <= k < (p + q).len() implies (#[trigger] (p + q)[k]).line
            == rs[i].line by {
            if k < p.len() {
                assert((p + q)[k] == p[k]);
            } else {
                assert((p + q)[k] == q[k - p.len()]);
            }
        }
    }
}

/// The duplicate finding of route `i` depends on the routes up to `i` only.
proof fn lemma_duplicate_local(x: Seq<RouteView>, y: Seq<RouteView>, i: int)
    requires
        0 <= i < x.len(),
        i < y.len(),
        forall|k: int| 0 <= k <= i ==> x[k] == y[k],
    ensures
        duplicate_finding(x, i) == duplicate_finding(y, i),
{
    if exists|j: int| 0 <= j < i && #[trigger] same_route(x[j], x[i]) {
        let j0 = choose|j: int| 0 <= j < i && #[trigger] same_route(x[j], x[i]);
        assert(same_route(y[j0], y[i]));
        let jx = choose|j: int| first_duplicate(x, i, j);
        let jy = choose|j: int| first_duplicate(y, i, j);
        lemma_first_duplicate_exists(x, i, j0);
        lemma_first_duplicate_exists(y, i, j0);
        assert(first_duplicate(x, i, jx));
        assert(first_duplicate(y, i, jy));
        if jx < jy {
            assert(same_route(y[jx], y[i]));
        } else if jy < jx {
            assert(same_route(x[jy], x[i]));
        }
    } else {
        assert forall|j: int| 0 <= j < i implies !#[trigger] same_route(y[j], y[i]) by {
            assert(!same_route(x[j], x[i]));
        }
    }
}

/// Where an earlier route has the same method and path as route `i`, a
/// first such route exists.
proof fn lemma_first_duplicate_exists(rs: Seq<RouteView>, i: int, j: int)
    requires
        0 <= j < i < rs.len(),
        same_route(rs[j], rs[i]),
    ensures
        exists|k: int| first_duplicate(rs, i, k),
    decreases j,
{
    if exists|k: int| 0 <= k < j && #[trigger] same_route(rs[k], rs[i]) {
        let k = choose|k: int| 0 <= k < j && #[trigger] same_route(rs[k], rs[i]);
        lemma_first_duplicate_exists(rs, i, k);
    } else {
        assert(first_duplicate(rs, i, j));
    }
}

proof fn lemma_duplicates_local(x: Seq<RouteView>, y: Seq<RouteView>, m: int)
    requires
        0 <= m <= x.len(),
        m <= y.len(),
        forall|k: int| 0 <= k < m ==> x[k] == y[k],
    ensures
        duplicate_findings(x, m) == duplicate_findings(y, m),
    decreases m,
{
    if m > 0 {
        lemma_duplicates_local(x, y, m - 1);
        lemma_duplicate_local(x, y, m - 1);
    }
}

proof fn lemma_shadows_local(x: Seq<RouteView>, y: Seq<RouteView>, m: int)
    requires
        0 <= m <= x.len(),
        m <= y.len(),
        forall|k: int| 0 <= k < m ==> x[k] == y[k],
    ensures
        shadow_findings(x, m) == shadow_findings(y, m),
    decreases m,
{
    if m > 0 {
        lemma_shadows_local(x, y, m - 1);
        lemma_shadows_of_local(x, y, m - 1, m - 1);
    }
}

proof fn lemma_shadows_of_local(x: Seq<RouteView>, y: Seq<RouteView>, i: int, n: int)
    requires
        0 <= n <= i < x.len(),
        i < y.len(),
        forall|k: int| 0 <= k <= i ==> x[k] == y[k],
    ensures
        shadow_findings_of(x, i, n) == shadow_findings_of(y, i, n),
    decreases n,
{
    if n > 0 {
        lemma_shadows_of_local(x, y, i, n - 1);
        assert(x[n - 1] == y[n - 1]);
        assert(x[i] == y[i]);
        assert(shadow_finding(x, i, n - 1) == shadow_finding(y, i, n - 1));
    }
}

// ---------------------------------------------------------------------------
// Duplicates and shadowing are reported exactly
// ---------------------------------------------------------------------------

proof fn lemma_contains_add(a: Seq<FindingView>, b: Seq<FindingView>, x: FindingView)
    requires
        a.contains(x) || b.contains(x),
    ensures
        (a + b).contains(x),
{
    if a.contains(x) {
        let k = choose|k: int| 0 <= k < a.len() && a[k] == x;
        assert((a + b)[k] == x);
    } else {
        let k = choose|k: int| 0 <= k < b.len() && b[k] == x;
        assert((a + b)[a.len() + k] == x);
    }
}

proof fn lemma_all_add(a: Seq<FindingView>, b: Seq<FindingView>, p: spec_fn(FindingView) -> bool)
    requires
        forall|k: int| 0 <= k < a.len() ==> p(#[trigger] a[k]),
        forall|k: int| 0 <= k < b.len() ==> p(#[trigger] b[k]),
    ensures
        forall|k: int| 0 <= k < (a + b).len() ==> p(#[trigger] (a + b)[k]),
{
    assert forall|k: int| 0 <= k < (a + b).len() implies p(#[trigger] (a + b)[k]) by {
        if k < a.len() {
            assert((a + b)[k] == a[k]);
        } else {
            assert((a + b)[k] == b[k - a.len()]);
        }
    }
}

/// A finding of the unsorted list is a finding of `check_routes`.
proof fn lemma_raw_in_route_findings(rs: Seq<RouteView>, x: FindingView)
    requires
        raw_findings(rs).contains(x),
    ensures
        route_findings(rs).contains(x),
{
    lemma_sort_by_line(raw_findings(rs));
    lemma_line_sort_members(route_findings(rs), raw_findings(rs));
    let k = choose|k: int| 0 <= k < raw_findings(rs).len() && raw_findings(rs)[k] == x;
    assert(route_findings(rs).contains(raw_findings(rs)[k]));
}

proof fn lemma_duplicate_in(rs: Seq<RouteView>, i: int, m: int, x: FindingView)
    requires
        0 <= i < m,
        duplicate_finding(rs, i).contains(x),
    ensures
        duplicate_findings(rs, m).contains(x),
    decreases m,
{
    if i < m - 1 {
        lemma_duplicate_in(rs, i, m - 1, x);
    }
    lemma_contains_add(duplicate_findings(rs, m - 1), duplicate_finding(rs, m - 1), x);
}

proof fn lemma_shadow_in(rs: Seq<RouteView>, i: int, j: int, n: int, x: FindingView)
    requires
        0 <= j < n,
        shadow_finding(rs, i, j).contains(x),
    ensures
        shadow_findings_of(rs, i, n).contains(x),
    decreases n,
{
    if j < n - 1 {
        lemma_shadow_in(rs, i, j, n - 1, x);
    }
    lemma_contains_add(shadow_findings_of(rs, i, n - 1), shadow_finding(rs, i, n - 1), x);
}

proof fn lemma_shadows_of_in(rs: Seq<RouteView>, i: int, m: int, x: FindingView)
    requires
        0 <= i < m,
        shadow_findings_of(rs, i, i).contains(x),
    ensures
        shadow_findings(rs, m).contains(x),
    decreases m,
{
    if i < m - 1 {
        lemma_shadows_of_in(rs, i, m - 1, x);
    }
    lemma_contains_add(shadow_findings(rs, m - 1), shadow_findings_of(rs, m - 1, m - 1), x);
}

/// Route `i` has the method and path of the earlier route `j`.
pub open spec fn repeats(rs: Seq<RouteView>, i: int, j: int) -> bool {
    0 <= j < i < rs.len() && rs[j].method == rs[i].method && rs[j].path == rs[i].path
}

/// `check_routes` reports a finding with this line, severity and rule.
pub open spec fn reported(rs: Seq<RouteView>, line: nat, severity: Severity, rule: Seq<char>) -> bool {
    exists|k: int|
        0 <= k < route_findings(rs).len() && #[trigger] route_findings(rs)[k].line == line
            && route_findings(rs)[k].severity == severity && route_findings(rs)[k].rule == rule
}

/// A duplicate-route finding that is justified: it stands on the line of a
/// route `i` whose method and path repeat those of an earlier route, and it
/// names the line of the first such route `j`.
pub open spec fn justified_duplicate(rs: Seq<RouteView>, f: FindingView) -> bool {
    exists|i: int, j: int|
        #![trigger rs[i], rs[j]]
        repeats(rs, i, j) && (forall|q: int| 0 <= q < j ==> !repeats(rs, i, q)) && f.line
            == rs[i].line && f.severity == Severity::Error && f.message == rs[i].method + " "@
            + rs[i].path + " is already defined on line "@ + decimal(rs[j].line)
}

proof fn lemma_rule_names_differ()
    ensures
        "duplicate-route"@ != "missing-leading-slash"@,
        "duplicate-route"@ != "trailing-slash"@,
        "duplicate-route"@ != "empty-segment"@,
        "duplicate-route"@ != "shadowed-route"@,
{
    reveal_strlit("duplicate-route");
    reveal_strlit("missing-leading-slash");
    reveal_strlit("trailing-slash");
    reveal_strlit("empty-segment");
    reveal_strlit("shadowed-route");
    assert("duplicate-route"@[0] != "missing-leading-slash"@[0]);
    assert("duplicate-route"@[0] != "trailing-slash"@[0]);
    assert("duplicate-route"@[0] != "empty-segment"@[0]);
    assert("duplicate-route"@[0] != "shadowed-route"@[0]);
}

proof fn lemma_shape_rules(rs: Seq<RouteView>)
    ensures
        forall|k: int|
            0 <= k < all_shape_findings(rs).len() ==> (#[trigger] all_shape_findings(rs)[k]).rule
                != "duplicate-route"@,
    decreases rs.len(),
{
    lemma_rule_names_differ();
    if rs.len() > 0 {
        lemma_shape_rules(rs.drop_last());
        let sh = shape_findings(rs.last());
        assert forall|k: int| 0 <= k < sh.len() implies (#[trigger] sh[k]).rule != "duplicate-route"@ by {}
        lemma_all_add(
            all_shape_findings(rs.drop_last()),
            sh,
            |f: FindingView| f.rule != "duplicate-route"@,
        );
    }
}

proof fn lemma_shadow_rules(rs: Seq<RouteView>, m: int)
    requires
        0 <= m <= rs.len(),
    ensures
        forall|k: int|
            0 <= k < shadow_findings(rs, m).len() ==> (#[trigger] shadow_findings(rs, m)[k]).rule
                != "duplicate-route"@,
    decreases m,
{
    lemma_rule_names_differ();
    if m > 0 {
        lemma_shadow_rules(rs, m - 1);
        lemma_shadow_of_rules(rs, m - 1, m - 1);
        lemma_all_add(
            shadow_findings(rs, m - 1),
            shadow_findings_of(rs, m - 1, m - 1),
            |f: FindingView| f.rule != "duplicate-route"@,
        );
    }
}

proof fn lemma_shadow_of_rules(rs: Seq<RouteView>, i: int, n: int)
    requires
        0 <= n <= i < rs.len(),
    ensures
        forall|k: int|
            0 <= k < shadow_findings_of(rs, i, n).len() ==> (#[trigger] shadow_findings_of(
                rs,
                i,
                n,
            )[k]).rule != "duplicate-route"@,
    decreases n,
{
    lemma_rule_names_differ();
    if n > 0 {
        lemma_shadow_of_rules(rs, i, n - 1);
        let d = shadow_finding(rs, i, n - 1);
        assert forall|k: int| 0 <= k < d.len() implies (#[trigger] d[k]).rule != "duplicate-route"@ by {}
        lemma_all_add(
            shadow_findings_of(rs, i, n - 1),
            d,
            |f: FindingView| f.rule != "duplicate-route"@,
        );
    }
}

proof fn lemma_duplicates_justified(rs: Seq<RouteView>, m: int)
    requires
        0 <= m <= rs.len(),
    ensures
        forall|k: int|
            0 <= k < duplicate_findings(rs, m).len() ==> justified_duplicate(
                rs,
                #[trigger] duplicate_findings(rs, m)[k],
            ),
    decreases m,
{
    if m > 0 {
        lemma_duplicates_justified(rs, m - 1);
        let i = m - 1;
        let d = duplicate_finding(rs, i);
        assert forall|k: int| 0 <= k < d.len() implies justified_duplicate(rs, #[trigger] d[k]) by {
            let j0 = choose|j: int| 0 <= j < i && #[trigger] same_route(rs[j], rs[i]);
            lemma_first_duplicate_exists(rs, i, j0);
            let j = choose|j: int| first_duplicate(rs, i, j);
            assert(repeats(rs, i, j));
            assert forall|q: int| 0 <= q < j implies !repeats(rs, i, q) by {
                assert(!same_route(rs[q], rs[i]));
            }
        }
        lemma_all_add(duplicate_findings(rs, i), d, |f: FindingView| justified_duplicate(rs, f));
    }
}

/// Duplicates are reported exactly: a route whose method and path repeat
/// those of an earlier route gets a duplicate-route error on its line, and
/// every duplicate-route finding is such an error, naming the line of the
/// first earlier route with that method and path. Routes whose methods or
/// paths differ never make one another duplicates.
pub proof fn lemma_duplicates_reported(rs: Seq<RouteView>)
    ensures
        forall|i: int, j: int|
            #![trigger rs[i], rs[j]]
            repeats(rs, i, j) ==> reported(rs, rs[i].line, Severity::Error, "duplicate-route"@),
        forall|k: int|
            0 <= k < route_findings(rs).len() && (#[trigger] route_findings(rs)[k]).rule
                == "duplicate-route"@ ==> justified_duplicate(rs, route_findings(rs)[k]),
{
    let raw = raw_findings(rs);
    let n = rs.len() as int;
    assert forall|i: int, j: int|
        #![trigger rs[i], rs[j]]
        repeats(rs, i, j) implies reported(rs, rs[i].line, Severity::Error, "duplicate-route"@) by {
        assert(same_route(rs[j], rs[i]));
        let d = duplicate_finding(rs, i);
        let x = d[0];
        assert(d.contains(x));
        lemma_duplicate_in(rs, i, n, x);
        lemma_contains_add(all_shape_findings(rs), duplicate_findings(rs, n), x);
        lemma_contains_add(
            all_shape_findings(rs) + duplicate_findings(rs, n),
            shadow_findings(rs, n),
            x,
        );
        lemma_raw_in_route_findings(rs, x);
        let k = choose|k: int| 0 <= k < route_findings(rs).len() && route_findings(rs)[k] == x;
        assert(route_findings(rs)[k].line == rs[i].line);
    }
    lemma_sort_by_line(raw);
    lemma_line_sort_members(route_findings(rs), raw);
    lemma_shape_rules(rs);
    lemma_shadow_rules(rs, n);
    lemma_duplicates_justified(rs, n);
    assert forall|k: int|
        0 <= k < route_findings(rs).len() && (#[trigger] route_findings(rs)[k]).rule
            == "duplicate-route"@ implies justified_duplicate(rs, route_findings(rs)[k]) by {
        let f = route_findings(rs)[k];
        assert(raw.contains(f));
        let q = choose|q: int| 0 <= q < raw.len() && raw[q] == f;
        let a = all_shape_findings(rs);
        let d = duplicate_findings(rs, n);
        let s = shadow_findings(rs, n);
        assert(raw == a + d + s);
        if q < a.len() {
            assert(raw[q] == a[q]);
        } else if q < a.len() + d.len() {
            assert(raw[q] == d[q - a.len()]);
        } else {
            assert(raw[q] == s[q - a.len() - d.len()]);
        }
    }
}

/// Shadowing is reported whenever it happens: where an earlier route with
/// the same method and another path has as many segments (at least one) as
/// a later route, each of its segments a parameter or equal to the later
/// route's segment at that place, and one of them a parameter, `check_routes`
/// reports the later route as shadowed, naming the earlier route.
pub proof fn lemma_shadowing_reported(rs: Seq<RouteView>, i: int, j: int)
    requires
        0 <= j < i < rs.len(),
        rs[j].method == rs[i].method,
        rs[j].path != rs[i].path,
        segments(rs[j].path).len() == segments(rs[i].path).len(),
        segments(rs[j].path).len() >= 1,
        forall|k: int|
            0 <= k < segments(rs[j].path).len() ==> (#[trigger] segments(rs[j].path)[k]).len() > 0
                && segments(rs[j].path)[k][0] == ':' || segments(rs[j].path)[k] == segments(
                rs[i].path,
            )[k],
        exists|k: int|
            0 <= k < segments(rs[j].path).len() && (#[trigger] segments(rs[j].path)[k]).len() > 0
                && segments(rs[j].path)[k][0] == ':',
    ensures
        route_findings(rs).contains(
            finding(
                rs[i].line,
                Severity::Warning,
                "shadowed-route"@,
                rs[i].method + " "@ + rs[i].path + " can never match: line "@ + decimal(rs[j].line)
                    + " ("@ + rs[j].path + ") captures it first"@,
            ),
        ),
{
    let es = segments(rs[j].path);
    let ls = segments(rs[i].path);
    assert forall|k: int| 0 <= k < es.len() implies is_param(#[trigger] es[k]) || es[k] == ls[k] by {}
    let k0 = choose|k: int| 0 <= k < es.len() && (#[trigger] es[k]).len() > 0 && es[k][0] == ':';
    assert(is_param(es[k0]));
    assert(shadows(rs[j].path, rs[i].path));
    let x = finding(
        rs[i].line,
        Severity::Warning,
        "shadowed-route"@,
        rs[i].method + " "@ + rs[i].path + " can never match: line "@ + decimal(rs[j].line) + " ("@
            + rs[j].path + ") captures it first"@,
    );
    let n = rs.len() as int;
    assert(shadow_finding(rs, i, j) == seq![x]);
    assert(shadow_finding(rs, i, j)[0] == x);
    lemma_shadow_in(rs, i, j, i, x);
    lemma_shadows_of_in(rs, i, n, x);
    lemma_contains_add(all_shape_findings(rs) + duplicate_findings(rs, n), shadow_findings(rs, n), x);
    lemma_raw_in_route_findings(rs, x);
}

} // verus!
