//! What the command line tool does with a route table between reading it and
//! printing: the complete list of findings, the rule filters, the exit
//! status, and the human and JSON renderings.
use vstd::prelude::*;

use crate::lint::{
    check_routes, finding, finding_views, route_findings, sort_by_line, sort_findings, sorted_by_line, Finding,
    FindingView, Severity,
};
use crate::parser::{line_numbers, parse, parse_spec};
use crate::text::{
    chars_of, decimal, digits_value, hex_digit, is_decimal_digit, lemma_decimal_round_trip,
    push_char, push_decimal, same_text,
};

verus! {

// ---------------------------------------------------------------------------
// Rules
// ---------------------------------------------------------------------------

/// The names of the rules, in the order they are listed to users.
pub open spec fn known_rule_names() -> Seq<Seq<char>> {
    seq![
        "shadowed-route"@,
        "duplicate-route"@,
        "missing-leading-slash"@,
        "trailing-slash"@,
        "empty-segment"@,
        "unparsable-line"@,
    ]
}

/// The names of the rules, in the order they are listed to users.
pub fn known_rules() -> (r: Vec<&'static str>)
    ensures
        r@.map_values(|s: &'static str| s@) == known_rule_names(),
{
    let r = vec![
        "shadowed-route",
        "duplicate-route",
        "missing-leading-slash",
        "trailing-slash",
        "empty-segment",
        "unparsable-line",
    ];
    assert(r@.map_values(|s: &'static str| s@) =~= known_rule_names());
    r
}

/// Whether `name` names a rule.
pub fn is_known_rule(name: &str) -> (r: bool)
    ensures
        r == known_rule_names().contains(name@),
{
    let rules = known_rules();
    let ghost names = known_rule_names();
    let mut i: usize = 0;
    while i < rules.len()
        invariant
            i <= rules@.len(),
            rules@.map_values(|s: &'static str| s@) == names,
            names == known_rule_names(),
            forall|j: int| 0 <= j < i ==> names[j] != name@,
        decreases rules.len() - i,
    {
        assert(names[i as int] == rules@[i as int]@);
        if same_text(rules[i], name) {
            assert(names[i as int] == name@);
            return true;
        }
        i = i + 1;
    }
    assert(!names.contains(name@));
    false
}

// ---------------------------------------------------------------------------
// The findings of a route table
// ---------------------------------------------------------------------------

/// The finding for a line that is not a route.
pub open spec fn unparsable_finding(line: nat) -> FindingView {
    finding(
        line,
        Severity::Warning,
        "unparsable-line"@,
        "line does not match \"METHOD /path -> handler\""@,
    )
}

/// All findings of a route table: those of `check_routes` on its routes,
/// then one per unparsable line, sorted by line (findings on one line keep
/// that order).
pub open spec fn table_findings(input: Seq<char>) -> Seq<FindingView> {
    let parsed = parse_spec(input);
    sort_by_line(
        route_findings(parsed.0) + parsed.1.map_values(|n: nat| unparsable_finding(n)),
    )
}

/// Reads a route table and returns all its findings, sorted by line.
pub fn lint_table(contents: &str) -> (findings: Vec<Finding>)
    ensures
        finding_views(findings@) == table_findings(contents@),
        sorted_by_line(finding_views(findings@)),
{
    let (routes, unparsable) = parse(contents);
    let mut findings = check_routes(routes.as_slice());
    let ghost checked = finding_views(findings@);
    let ghost lines = line_numbers(unparsable@);
    let mut i: usize = 0;
    while i < unparsable.len()
        invariant
            i <= unparsable@.len(),
            lines == line_numbers(unparsable@),
            finding_views(findings@) == checked + lines.take(i as int).map_values(
                |n: nat| unparsable_finding(n),
            ),
        decreases unparsable.len() - i,
    {
        let ghost before = finding_views(findings@);
        findings.push(
            Finding {
                line: unparsable[i],
                severity: Severity::Warning,
                rule: "unparsable-line",
                message: String::from_str("line does not match \"METHOD /path -> handler\""),
            },
        );
        assert(lines[i as int] == unparsable@[i as int] as nat);
        assert(findings@.last()@ == unparsable_finding(lines[i as int]));
        assert(finding_views(findings@) =~= before.push(findings@.last()@));
        assert(lines.take(i + 1).map_values(|n: nat| unparsable_finding(n)) =~= lines.take(
            i as int,
        ).map_values(|n: nat| unparsable_finding(n)).push(unparsable_finding(lines[i as int])));
        assert(finding_views(findings@) =~= checked + lines.take(i + 1).map_values(
            |n: nat| unparsable_finding(n),
        ));
        i = i + 1;
    }
    assert(lines.take(lines.len() as int) =~= lines);
    sort_findings(findings)
}

// ---------------------------------------------------------------------------
// Filters and exit status
// ---------------------------------------------------------------------------

/// The views of a sequence of strings.
pub open spec fn string_views(s: Seq<String>) -> Seq<Seq<char>> {
    s.map_values(|x: String| x@)
}

/// A finding survives the filters: its rule is among `only` (or `only` is
/// empty) and not among `ignore`.
pub open spec fn passes_filters(f: FindingView, only: Seq<Seq<char>>, ignore: Seq<Seq<char>>) -> bool {
    (only.len() == 0 || only.contains(f.rule)) && !ignore.contains(f.rule)
}

/// `passes_filters` as a predicate.
pub open spec fn filter_pred(only: Seq<Seq<char>>, ignore: Seq<Seq<char>>) -> spec_fn(
    FindingView,
) -> bool {
    |f: FindingView| passes_filters(f, only, ignore)
}

/// Whether one of `rules` is `rule`.
fn rule_listed(rules: &[String], rule: &str) -> (r: bool)
    ensures
        r == string_views(rules@).contains(rule@),
{
    let ghost names = string_views(rules@);
    let mut i: usize = 0;
    while i < rules.len()
        invariant
            i <= rules@.len(),
            names == string_views(rules@),
            forall|j: int| 0 <= j < i ==> names[j] != rule@,
        decreases rules.len() - i,
    {
        assert(names[i as int] == rules@[i as int]@);
        if same_text(rules[i].as_str(), rule) {
            return true;
        }
        i = i + 1;
    }
    assert(!names.contains(rule@));
    false
}

/// Keeps the findings whose rule is among `only_rules` (all of them when
/// `only_rules` is empty) and not among `ignore_rules`, in their order.
pub fn filter_findings(
    findings: Vec<Finding>,
    only_rules: &[String],
    ignore_rules: &[String],
) -> (r: Vec<Finding>)
    ensures
        finding_views(r@) == finding_views(findings@).filter(
            filter_pred(string_views(only_rules@), string_views(ignore_rules@)),
        ),
{
    let ghost pred = filter_pred(string_views(only_rules@), string_views(ignore_rules@));
    let ghost all = finding_views(findings@);
    let mut out: Vec<Finding> = Vec::new();
    proof {
        reveal(Seq::filter);
        assert(all.take(0) =~= Seq::<FindingView>::empty());
        assert(finding_views(out@) =~= all.take(0).filter(pred));
    }
    for f in it: findings
        invariant
            all == it.seq().map_values(|f: Finding| f@),
            pred == filter_pred(string_views(only_rules@), string_views(ignore_rules@)),
            finding_views(out@) == all.take(it.index() as int).filter(pred),
    {
        let ghost k = it.index() as int;
        let keep = (only_rules.len() == 0 || rule_listed(only_rules, f.rule)) && !rule_listed(
            ignore_rules,
            f.rule,
        );
        assert(keep == pred(f@));
        let ghost before = finding_views(out@);
        if keep {
            out.push(f);
        }
        proof {
            reveal(Seq::filter);
            assert(all.take(k + 1).drop_last() =~= all.take(k));
            assert(all[k] == f@);
            if keep {
                assert(finding_views(out@) =~= before.push(f@));
            } else {
                assert(finding_views(out@) =~= before);
            }
        }
    }
    assert(all.take(all.len() as int) =~= all);
    out
}

/// The number of error findings in `s`.
pub open spec fn error_count(s: Seq<FindingView>) -> nat
    decreases s.len(),
{
    if s.len() == 0 {
        0
    } else {
        error_count(s.drop_last()) + if s.last().severity == Severity::Error {
            1nat
        } else {
            0nat
        }
    }
}

/// The number of error findings.
pub fn count_errors(findings: &[Finding]) -> (n: usize)
    ensures
        n == error_count(finding_views(findings@)),
        n <= findings@.len(),
{
    let ghost s = finding_views(findings@);
    let mut n: usize = 0;
    let mut i: usize = 0;
    while i < findings.len()
        invariant
            i <= findings@.len(),
            s == finding_views(findings@),
            n <= i,
            n == error_count(s.take(i as int)),
        decreases findings.len() - i,
    {
        assert(s.take(i + 1).drop_last() =~= s.take(i as int));
        if findings[i].severity == Severity::Error {
            n = n + 1;
        }
        i = i + 1;
    }
    assert(s.take(s.len() as int) =~= s);
    n
}

/// Whether some finding is an error: the tool then exits with a failure
/// status.
pub fn has_errors(findings: &[Finding]) -> (r: bool)
    ensures
        r == exists|i: int| 0 <= i < findings@.len() && findings@[i].severity == Severity::Error,
{
    let mut i: usize = 0;
    while i < findings.len()
        invariant
            i <= findings@.len(),
            forall|j: int| 0 <= j < i ==> findings@[j].severity != Severity::Error,
        decreases findings.len() - i,
    {
        if findings[i].severity == Severity::Error {
            return true;
        }
        i = i + 1;
    }
    false
}

// ---------------------------------------------------------------------------
// Human output
// ---------------------------------------------------------------------------

/// The line printed for one finding.
pub open spec fn human_line(path: Seq<char>, f: FindingView) -> Seq<char> {
    path + ":"@ + decimal(f.line) + ": "@ + f.severity.name() + ": "@ + f.message + " ["@ + f.rule
        + "]"@
}

/// The lines printed for the findings of the file `path`: one per finding
/// and a count of errors and warnings, or one line saying there is nothing.
pub open spec fn human_report(path: Seq<char>, fs: Seq<FindingView>) -> Seq<Seq<char>> {
    if fs.len() == 0 {
        seq![path + ": no issues found"@]
    } else {
        fs.map_values(|f: FindingView| human_line(path, f)).push(
            decimal(error_count(fs)) + " error(s), "@ + decimal((fs.len() - error_count(fs)) as nat)
                + " warning(s)"@,
        )
    }
}

/// The lines printed for the findings of the file `path`.
pub fn render_human(path: &str, findings: &[Finding]) -> (lines: Vec<String>)
    ensures
        string_views(lines@) == human_report(path@, finding_views(findings@)),
{
    let ghost fs = finding_views(findings@);
    let mut lines: Vec<String> = Vec::new();
    if findings.len() == 0 {
        let mut s = String::from_str(path);
        s.append(": no issues found");
        lines.push(s);
        assert(string_views(lines@) =~= human_report(path@, fs));
        return lines;
    }
    let mut i: usize = 0;
    while i < findings.len()
        invariant
            i <= findings@.len(),
            fs == finding_views(findings@),
            string_views(lines@) == fs.take(i as int).map_values(
                |f: FindingView| human_line(path@, f),
            ),
        decreases findings.len() - i,
    {
        let f = &findings[i];
        let mut s = String::from_str(path);
        s.append(":");
        push_decimal(&mut s, f.line);
        s.append(": ");
        s.append(f.severity.as_str());
        s.append(": ");
        s.append(f.message.as_str());
        s.append(" [");
        s.append(f.rule);
        s.append("]");
        lines.push(s);
        assert(fs.take(i + 1).map_values(|f: FindingView| human_line(path@, f)) =~= fs.take(
            i as int,
        ).map_values(|f: FindingView| human_line(path@, f)).push(human_line(path@, fs[i as int])));
        assert(string_views(lines@) =~= fs.take(i + 1).map_values(
            |f: FindingView| human_line(path@, f),
        ));
        i = i + 1;
    }
    assert(fs.take(fs.len() as int) =~= fs);
    let errors = count_errors(findings);
    let mut s = String::new();
    push_decimal(&mut s, errors);
    s.append(" error(s), ");
    push_decimal(&mut s, findings.len() - errors);
    s.append(" warning(s)");
    let ghost body = string_views(lines@);
    lines.push(s);
    assert(string_views(lines@) =~= body.push(s@));
    lines
}

// ---------------------------------------------------------------------------
// JSON output
// ---------------------------------------------------------------------------

/// A character as it stands inside a JSON string.
pub open spec fn json_escape(c: char) -> Seq<char> {
    if c == '"' {
        seq!['\\', '"']
    } else if c == '\\' {
        seq!['\\', '\\']
    } else if c == '\n' {
        seq!['\\', 'n']
    } else if c == '\r' {
        seq!['\\', 'r']
    } else if c == '\t' {
        seq!['\\', 't']
    } else if (c as u32) < 0x20 {
        seq![
            '\\',
            'u',
            '0',
            '0',
            hex_digit(((c as u32) / 16) as nat),
            hex_digit(((c as u32) % 16) as nat),
        ]
    } else {
        seq![c]
    }
}

/// The escaped characters of `s`.
pub open spec fn json_chars(s: Seq<char>) -> Seq<char>
    decreases s.len(),
{
    if s.len() == 0 {
        Seq::empty()
    } else {
        json_chars(s.drop_last()) + json_escape(s.last())
    }
}

/// `s` as a JSON string literal.
pub open spec fn json_text(s: Seq<char>) -> Seq<char> {
    seq!['"'] + json_chars(s) + seq!['"']
}

/// The hexadecimal digit `d`.
fn hex_char(d: u32) -> (c: char)
    requires
        d < 16,
    ensures
        c == hex_digit(d as nat),
{
    let b = d as u8;
    if b < 10 {
        (b + 48) as char
    } else {
        (b + 87) as char
    }
}

/// Appends `c` as it stands inside a JSON string.
fn push_escaped(out: &mut String, c: char)
    ensures
        final(out)@ == old(out)@ + json_escape(c),
{
    if c == '"' {
        out.append("\\\"");
        assert("\\\""@ == seq!['\\', '"']) by {
            reveal_strlit("\\\"");
        }
    } else if c == '\\' {
        out.append("\\\\");
        assert("\\\\"@ == seq!['\\', '\\']) by {
            reveal_strlit("\\\\");
        }
    } else if c == '\n' {
        out.append("\\n");
        assert("\\n"@ == seq!['\\', 'n']) by {
            reveal_strlit("\\n");
        }
    } else if c == '\r' {
        out.append("\\r");
        assert("\\r"@ == seq!['\\', 'r']) by {
            reveal_strlit("\\r");
        }
    } else if c == '\t' {
        out.append("\\t");
        assert("\\t"@ == seq!['\\', 't']) by {
            reveal_strlit("\\t");
        }
    } else if (c as u32) < 0x20 {
        let v = c as u32;
        out.append("\\u00");
        assert("\\u00"@ == seq!['\\', 'u', '0', '0']) by {
            reveal_strlit("\\u00");
        }
        push_char(out, hex_char(v / 16));
        push_char(out, hex_char(v % 16));
    } else {
        push_char(out, c);
    }
}

/// `s` as a JSON string literal.
pub fn json_string(s: &str) -> (out: String)
    ensures
        out@ == json_text(s@),
{
    let v = chars_of(s);
    let mut out = String::new();
    push_char(&mut out, '"');
    let ghost start = out@;
    let mut i: usize = 0;
    while i < v.len()
        invariant
            i <= v@.len(),
            start == seq!['"'],
            out@ == start + json_chars(v@.take(i as int)),
        decreases v.len() - i,
    {
        assert(v@.take(i + 1).drop_last() =~= v@.take(i as int));
        push_escaped(&mut out, v[i]);
        i = i + 1;
    }
    assert(v@.take(v@.len() as int) =~= v@);
    push_char(&mut out, '"');
    out
}

/// One finding as a JSON object.
pub open spec fn finding_json(f: FindingView) -> Seq<char> {
    "{\"line\":"@ + decimal(f.line) + ",\"severity\":"@ + json_text(f.severity.name())
        + ",\"rule\":"@ + json_text(f.rule) + ",\"message\":"@ + json_text(f.message) + "}"@
}

/// The findings as JSON objects separated by commas.
pub open spec fn json_list(fs: Seq<FindingView>) -> Seq<char>
    decreases fs.len(),
{
    if fs.len() == 0 {
        Seq::empty()
    } else if fs.len() == 1 {
        finding_json(fs[0])
    } else {
        json_list(fs.drop_last()) + seq![','] + finding_json(fs.last())
    }
}

/// The JSON document for the findings of the file `path`.
pub open spec fn json_report(path: Seq<char>, fs: Seq<FindingView>) -> Seq<char> {
    "{\"file\":"@ + json_text(path) + ",\"findings\":["@ + json_list(fs) + "]}"@
}

/// Appends one finding as a JSON object.
fn push_finding_json(out: &mut String, f: &Finding)
    ensures
        final(out)@ == old(out)@ + finding_json(f@),
{
    out.append("{\"line\":");
    push_decimal(out, f.line);
    out.append(",\"severity\":");
    let sev = json_string(f.severity.as_str());
    out.append(sev.as_str());
    out.append(",\"rule\":");
    let rule = json_string(f.rule);
    out.append(rule.as_str());
    out.append(",\"message\":");
    let message = json_string(f.message.as_str());
    out.append(message.as_str());
    out.append("}");
    assert(out@ =~= old(out)@ + finding_json(f@));
}

/// The JSON document for the findings of the file `path`.
pub fn render_json(path: &str, findings: &[Finding]) -> (out: String)
    ensures
        out@ == json_report(path@, finding_views(findings@)),
{
    let ghost fs = finding_views(findings@);
    let mut out = String::new();
    out.append("{\"file\":");
    let file = json_string(path);
    out.append(file.as_str());
    out.append(",\"findings\":[");
    let ghost head = out@;
    let mut i: usize = 0;
    while i < findings.len()
        invariant
            i <= findings@.len(),
            fs == finding_views(findings@),
            out@ == head + json_list(fs.take(i as int)),
        decreases findings.len() - i,
    {
        let f = &findings[i];
        let ghost before = out@;
        if i > 0 {
            push_char(&mut out, ',');
        }
        push_finding_json(&mut out, f);
        proof {
            let t = fs.take(i + 1);
            assert(t.drop_last() =~= fs.take(i as int));
            assert(t.last() == f@);
            if i == 0 {
                assert(t[0] == f@);
                assert(fs.take(0) =~= Seq::<FindingView>::empty());
                assert(out@ =~= head + finding_json(f@));
            } else {
                assert(out@ =~= head + json_list(fs.take(i as int)) + seq![','] + finding_json(
                    f@,
                ));
            }
        }
        i = i + 1;
    }
    assert(fs.take(fs.len() as int) =~= fs);
    out.append("]}");
    out
}

// ---------------------------------------------------------------------------
// Laws
// ---------------------------------------------------------------------------

/// The error count is positive exactly when some finding is an error, and
/// never exceeds the number of findings: the summary line and the exit
/// status agree.
pub proof fn lemma_error_count(s: Seq<FindingView>)
    ensures
        error_count(s) > 0 <==> exists|i: int| 0 <= i < s.len() && s[i].severity == Severity::Error,
        error_count(s) <= s.len(),
    decreases s.len(),
{
    if s.len() > 0 {
        let p = s.drop_last();
        lemma_error_count(p);
        if exists|i: int| 0 <= i < p.len() && p[i].severity == Severity::Error {
            let i = choose|i: int| 0 <= i < p.len() && p[i].severity == Severity::Error;
            assert(s[i] == p[i]);
        }
        if exists|i: int| 0 <= i < s.len() && s[i].severity == Severity::Error {
            let i = choose|i: int| 0 <= i < s.len() && s[i].severity == Severity::Error;
            if i < s.len() - 1 {
                assert(p[i] == s[i]);
            }
        }
    }
}

/// Without filters every finding is kept, in its order.
pub proof fn lemma_no_filters_keep_all(fs: Seq<FindingView>)
    ensures
        fs.filter(filter_pred(Seq::empty(), Seq::empty())) == fs,
    decreases fs.len(),
{
    reveal(Seq::filter);
    if fs.len() > 0 {
        lemma_no_filters_keep_all(fs.drop_last());
        assert(fs.drop_last().push(fs.last()) =~= fs);
    }
}

/// Every finding that survives the filters has a rule that is not ignored
/// and, where rules are named with `only`, one of them: an ignored rule is
/// dropped even where it is also named with `only`.
pub proof fn lemma_filtered_rules(fs: Seq<FindingView>, only: Seq<Seq<char>>, ignore: Seq<Seq<char>>)
    ensures
        forall|i: int|
            0 <= i < fs.filter(filter_pred(only, ignore)).len() ==> {
                let f = #[trigger] fs.filter(filter_pred(only, ignore))[i];
                &&& !ignore.contains(f.rule)
                &&& only.len() > 0 ==> only.contains(f.rule)
            },
{
    broadcast use Seq::lemma_filter_pred;

    assert forall|i: int| 0 <= i < fs.filter(filter_pred(only, ignore)).len() implies {
        let f = #[trigger] fs.filter(filter_pred(only, ignore))[i];
        &&& !ignore.contains(f.rule)
        &&& only.len() > 0 ==> only.contains(f.rule)
    } by {
        fs.lemma_filter_pred(filter_pred(only, ignore), i);
    }
}

/// Every finding whose rule passes the filters is kept.
pub proof fn lemma_filters_keep_passing(
    fs: Seq<FindingView>,
    only: Seq<Seq<char>>,
    ignore: Seq<Seq<char>>,
    i: int,
)
    requires
        0 <= i < fs.len(),
        passes_filters(fs[i], only, ignore),
    ensures
        fs.filter(filter_pred(only, ignore)).contains(fs[i]),
{
    fs.lemma_filter_contains(filter_pred(only, ignore), i);
}

/// Ignoring the rules of all error findings leaves no error: the exit
/// status then reports success.
pub proof fn lemma_ignoring_errors_passes(
    fs: Seq<FindingView>,
    only: Seq<Seq<char>>,
    ignore: Seq<Seq<char>>,
)
    requires
        forall|i: int|
            0 <= i < fs.len() && fs[i].severity == Severity::Error ==> ignore.contains(
                #[trigger] fs[i].rule,
            ),
    ensures
        error_count(fs.filter(filter_pred(only, ignore))) == 0,
    decreases fs.len(),
{
    reveal(Seq::filter);
    if fs.len() > 0 {
        let p = fs.drop_last();
        assert forall|i: int|
            0 <= i < p.len() && p[i].severity == Severity::Error implies ignore.contains(
            #[trigger] p[i].rule) by {
            assert(p[i] == fs[i]);
        }
        lemma_ignoring_errors_passes(p, only, ignore);
        let x = fs.last();
        let pred = filter_pred(only, ignore);
        let q = p.filter(pred);
        if x.severity == Severity::Error {
            assert(fs[fs.len() - 1] == x);
            assert(ignore.contains(x.rule));
            assert(!pred(x));
            assert(fs.filter(pred) == q);
        } else if pred(x) {
            assert(fs.filter(pred) == q.push(x));
            assert(q.push(x).drop_last() =~= q);
        } else {
            assert(fs.filter(pred) == q);
        }
    } else {
        assert(fs.filter(filter_pred(only, ignore)).len() == 0);
    }
}

/// A JSON string literal holds no raw control character.
pub proof fn lemma_json_has_no_control_chars(s: Seq<char>)
    ensures
        forall|i: int| 0 <= i < json_text(s).len() ==> (#[trigger] json_text(s)[i] as u32) >= 0x20,
{
    lemma_json_chars_printable(s);
    let t = json_text(s);
    assert forall|i: int| 0 <= i < t.len() implies (#[trigger] t[i] as u32) >= 0x20 by {
        if 0 < i < t.len() - 1 {
            assert(t[i] == json_chars(s)[i - 1]);
        }
    }
}

proof fn lemma_json_chars_printable(s: Seq<char>)
    ensures
        forall|i: int| 0 <= i < json_chars(s).len() ==> (#[trigger] json_chars(s)[i] as u32) >= 0x20,
    decreases s.len(),
{
    if s.len() > 0 {
        lemma_json_chars_printable(s.drop_last());
        let a = json_chars(s.drop_last());
        let e = json_escape(s.last());
        let c = s.last();
        assert forall|i: int| 0 <= i < e.len() implies (#[trigger] e[i] as u32) >= 0x20 by {
            if c != '"' && c != '\\' && c != '\n' && c != '\r' && c != '\t' && (c as u32) < 0x20 {
                let v = c as u32;
                assert(v / 16 < 16);
                assert(v % 16 < 16);
            }
        }
        assert forall|i: int| 0 <= i < json_chars(s).len() implies (#[trigger] json_chars(s)[i] as u32) >= 0x20 by {
            if i < a.len() {
                assert(json_chars(s)[i] == a[i]);
            } else {
                assert(json_chars(s)[i] == e[i - a.len()]);
            }
        }
    }
}

/// `t` starts with `path`, a colon, decimal digits that stand for `line`,
/// and a colon.
pub open spec fn names_line(t: Seq<char>, path: Seq<char>, line: nat) -> bool {
    exists|e: int|
        {
            &&& path.len() + 1 < e < t.len()
            &&& t.take(path.len() as int) == path
            &&& t[path.len() as int] == ':'
            &&& #[trigger] t[e] == ':'
            &&& forall|q: int| path.len() < q < e ==> is_decimal_digit(#[trigger] t[q])
            &&& digits_value(t.subrange(path.len() + 1int, e)) == line
        }
}

/// The line printed for a finding starts with the file name, a colon, the
/// finding's own line number in decimal digits, and a colon; there is one
/// such line per finding, in order, and then the count.
pub proof fn lemma_human_lines_name_the_line(path: Seq<char>, fs: Seq<FindingView>)
    ensures
        fs.len() > 0 ==> human_report(path, fs).len() == fs.len() + 1,
        forall|k: int|
            0 <= k < fs.len() ==> names_line(#[trigger] human_report(path, fs)[k], path, fs[k].line),
{
    reveal_strlit(":");
    reveal_strlit(": ");
    assert forall|k: int| 0 <= k < fs.len() implies names_line(
        #[trigger] human_report(path, fs)[k],
        path,
        fs[k].line,
    ) by {
        let f = fs[k];
        let t = human_report(path, fs)[k];
        assert(t == human_line(path, f));
        let d = decimal(f.line);
        lemma_decimal_round_trip(f.line);
        let n = path.len() as int;
        let e = n + 1 + d.len();
        let rest = ": "@ + f.severity.name() + ": "@ + f.message + " ["@ + f.rule + "]"@;
        assert(t =~= path + ":"@ + d + rest);
        assert(":"@ =~= seq![':']);
        assert(t.take(n) =~= path);
        assert(t[n] == ':');
        assert(t.subrange(n + 1, e) =~= d);
        assert(t[e] == rest[0]);
        assert(rest[0] == ':');
        assert forall|q: int| n < q < e implies is_decimal_digit(#[trigger] t[q]) by {
            assert(t[q] == d[q - n - 1]);
        }
    }
}

} // verus!
