//! Reading JSON back: the strings and the report document that the tool
//! writes are read as JSON (RFC 8259) reads them, and give back exactly what
//! was written.
use vstd::prelude::*;

use crate::lint::FindingView;
use crate::report::{finding_json, json_chars, json_escape, json_list, json_report, json_text};
use crate::text::{decimal, digit, digits_value, hex_digit, is_decimal_digit, lemma_decimal_round_trip};

verus! {

// ---------------------------------------------------------------------------
// Strings
// ---------------------------------------------------------------------------

/// The value of a hexadecimal digit of either case.
pub open spec fn hex_digit_value(c: char) -> Option<nat> {
    let v = c as u32;
    if 48 <= v <= 57 {
        Some((v - 48) as nat)
    } else if 97 <= v <= 102 {
        Some((v - 87) as nat)
    } else if 65 <= v <= 70 {
        Some((v - 55) as nat)
    } else {
        None
    }
}

/// The number written by the four hexadecimal digits at index `i` of `t`.
pub open spec fn hex4(t: Seq<char>, i: int) -> Option<nat> {
    if 0 <= i && i + 4 <= t.len() && hex_digit_value(t[i]) is Some && hex_digit_value(
        t[i + 1],
    ) is Some && hex_digit_value(t[i + 2]) is Some && hex_digit_value(t[i + 3]) is Some {
        Some(
            hex_digit_value(t[i]).unwrap() * 4096 + hex_digit_value(t[i + 1]).unwrap() * 256
                + hex_digit_value(t[i + 2]).unwrap() * 16 + hex_digit_value(t[i + 3]).unwrap(),
        )
    } else {
        None
    }
}

/// `c` in front of what `r` read.
pub open spec fn then_char(c: char, r: Option<(Seq<char>, Seq<char>)>) -> Option<
    (Seq<char>, Seq<char>),
> {
    match r {
        Some((s, rest)) => Some((seq![c] + s, rest)),
        None => None,
    }
}

/// Reads the body of a JSON string up to its closing quote: the characters
/// it stands for and the text after the quote. Escapes are `\"`, `\\`, `\/`,
/// `\b`, `\f`, `\n`, `\r`, `\t` and `\uXXXX` (a surrogate pair for a
/// character beyond U+FFFF); an unescaped control character, a lone
/// surrogate, any other escape or a missing closing quote make it `None`.
pub open spec fn json_string_body(t: Seq<char>) -> Option<(Seq<char>, Seq<char>)>
    decreases t.len(),
{
    if t.len() == 0 {
        None
    } else if t[0] == '"' {
        Some((Seq::empty(), t.skip(1)))
    } else if t[0] == '\\' {
        if t.len() < 2 {
            None
        } else if t[1] == '"' || t[1] == '\\' || t[1] == '/' {
            then_char(t[1], json_string_body(t.skip(2)))
        } else if t[1] == 'b' {
            then_char('\u{8}', json_string_body(t.skip(2)))
        } else if t[1] == 'f' {
            then_char('\u{c}', json_string_body(t.skip(2)))
        } else if t[1] == 'n' {
            then_char('\n', json_string_body(t.skip(2)))
        } else if t[1] == 'r' {
            then_char('\r', json_string_body(t.skip(2)))
        } else if t[1] == 't' {
            then_char('\t', json_string_body(t.skip(2)))
        } else if t[1] == 'u' && t.len() >= 6 && hex4(t, 2) is Some {
            let v = hex4(t, 2).unwrap();
            if v < 0xd800 || v > 0xdfff {
                then_char(v as char, json_string_body(t.skip(6)))
            } else if v <= 0xdbff && t.len() >= 12 && t[6] == '\\' && t[7] == 'u' && hex4(t, 8) is Some
                && 0xdc00 <= hex4(t, 8).unwrap() <= 0xdfff {
                then_char(
                    (0x10000 + (v - 0xd800) * 1024 + (hex4(t, 8).unwrap() - 0xdc00)) as char,
                    json_string_body(t.skip(12)),
                )
            } else {
                None
            }
        } else {
            None
        }
    } else if (t[0] as u32) < 0x20 {
        None
    } else {
        then_char(t[0], json_string_body(t.skip(1)))
    }
}

/// Reads a JSON string at the start of `t`: its value and the text after it.
pub open spec fn json_string_prefix(t: Seq<char>) -> Option<(Seq<char>, Seq<char>)> {
    if t.len() > 0 && t[0] == '"' {
        json_string_body(t.skip(1))
    } else {
        None
    }
}

/// The value of `t` read as one JSON string, if it is one.
pub open spec fn json_string_value(t: Seq<char>) -> Option<Seq<char>> {
    match json_string_prefix(t) {
        Some((s, rest)) => if rest.len() == 0 {
            Some(s)
        } else {
            None
        },
        None => None,
    }
}

proof fn lemma_json_chars_prepend(c: char, s: Seq<char>)
    ensures
        json_chars(seq![c] + s) == json_escape(c) + json_chars(s),
    decreases s.len(),
{
    let t = seq![c] + s;
    if s.len() == 0 {
        assert(t =~= seq![c]);
        assert(t.drop_last() =~= Seq::<char>::empty());
        assert(json_chars(Seq::<char>::empty()) == Seq::<char>::empty());
        assert(json_escape(c) + json_chars(s) =~= json_escape(c));
        assert(json_chars(t) =~= json_escape(c));
    } else {
        lemma_json_chars_prepend(c, s.drop_last());
        assert(t.drop_last() =~= seq![c] + s.drop_last());
        assert(t.last() == s.last());
        assert(json_chars(t) =~= json_escape(c) + json_chars(s.drop_last()) + json_escape(
            s.last(),
        ));
    }
}

proof fn lemma_hex_digit_value(d: nat)
    requires
        d < 16,
    ensures
        hex_digit_value(hex_digit(d)) == Some(d),
{
    if d < 10 {
        assert((((d + 48) as char) as u32) == d + 48);
    } else {
        assert((((d + 87) as char) as u32) == d + 87);
    }
}

proof fn lemma_read_escape(c: char, rest: Seq<char>)
    ensures
        json_string_body(json_escape(c) + rest) == then_char(c, json_string_body(rest)),
{
    let e = json_escape(c);
    let t = e + rest;
    if c == '"' || c == '\\' || c == '\n' || c == '\r' || c == '\t' {
        assert(t.skip(2) =~= rest);
        assert(t[0] == '\\');
        assert(t[1] == e[1]);
    } else if (c as u32) < 0x20 {
        let v = c as u32;
        lemma_hex_digit_value((v / 16) as nat);
        lemma_hex_digit_value((v % 16) as nat);
        assert(('0' as u32) == 48);
        assert(t.skip(6) =~= rest);
        assert(t[0] == '\\' && t[1] == 'u');
        assert(t[2] == '0' && t[3] == '0');
        assert(t[4] == hex_digit((v / 16) as nat));
        assert(t[5] == hex_digit((v % 16) as nat));
        assert(hex4(t, 2) == Some(((v / 16) * 16 + v % 16) as nat));
        assert((v / 16) * 16 + v % 16 == v);
        assert((v as char) == c);
    } else {
        assert(t[0] == c);
        assert(t.skip(1) =~= rest);
    }
}

proof fn lemma_read_body(s: Seq<char>, rest: Seq<char>)
    ensures
        json_string_body(json_chars(s) + seq!['"'] + rest) == Some((s, rest)),
    decreases s.len(),
{
    if s.len() == 0 {
        assert(json_chars(s) == Seq::<char>::empty());
        let t = json_chars(s) + seq!['"'] + rest;
        assert(t[0] == '"');
        assert(t.skip(1) =~= rest);
    } else {
        let tail = s.drop_first();
        assert(s =~= seq![s[0]] + tail);
        lemma_json_chars_prepend(s[0], tail);
        lemma_read_escape(s[0], json_chars(tail) + seq!['"'] + rest);
        lemma_read_body(tail, rest);
        assert(json_chars(s) + seq!['"'] + rest =~= json_escape(s[0]) + (json_chars(tail) + seq![
            '"',
        ] + rest));
    }
}

/// A JSON string literal written by `json_string`, followed by any text, is
/// read back as the text it was made from, and the reading stops right
/// after it.
pub proof fn lemma_json_string_prefix(s: Seq<char>, rest: Seq<char>)
    ensures
        json_string_prefix(json_text(s) + rest) == Some((s, rest)),
{
    let t = json_text(s) + rest;
    assert(t[0] == '"');
    assert(t.skip(1) =~= json_chars(s) + seq!['"'] + rest);
    lemma_read_body(s, rest);
}

/// What `json_string` writes is one valid JSON string, and it stands for
/// exactly the text it was made from.
pub proof fn lemma_json_string_valid(s: Seq<char>)
    ensures
        json_string_value(json_text(s)) == Some(s),
{
    lemma_json_string_prefix(s, Seq::empty());
    assert(json_text(s) + Seq::<char>::empty() =~= json_text(s));
}

/// Every quote strictly inside what `json_string` writes follows a
/// backslash, and the literal begins and ends with a quote.
pub proof fn lemma_json_quotes_escaped(s: Seq<char>)
    ensures
        json_text(s).len() >= 2,
        json_text(s)[0] == '"',
        json_text(s).last() == '"',
        forall|i: int|
            0 < i < json_text(s).len() - 1 && #[trigger] json_text(s)[i] == '"' ==> json_text(s)[i
                - 1] == '\\',
{
    lemma_json_chars_quotes(s);
    let t = json_text(s);
    let b = json_chars(s);
    assert forall|i: int| 0 < i < t.len() - 1 && #[trigger] t[i] == '"' implies t[i - 1] == '\\' by {
        assert(t[i] == b[i - 1]);
        assert(i - 1 > 0);
        assert(t[i - 1] == b[i - 2]);
    }
}

proof fn lemma_json_chars_quotes(s: Seq<char>)
    ensures
        forall|j: int|
            0 <= j < json_chars(s).len() && #[trigger] json_chars(s)[j] == '"' ==> j > 0
                && json_chars(s)[j - 1] == '\\',
    decreases s.len(),
{
    if s.len() > 0 {
        lemma_json_chars_quotes(s.drop_last());
        let a = json_chars(s.drop_last());
        let c = s.last();
        let e = json_escape(c);
        let b = json_chars(s);
        assert(b == a + e);
        assert forall|j: int| 0 <= j < b.len() && #[trigger] b[j] == '"' implies j > 0 && b[j - 1]
            == '\\' by {
            if j < a.len() {
                assert(b[j] == a[j]);
                assert(b[j - 1] == a[j - 1]);
            } else {
                let k = j - a.len();
                assert(b[j] == e[k]);
                if c == '"' {
                    assert(k == 1);
                    assert(b[j - 1] == e[0]);
                } else if c == '\\' || c == '\n' || c == '\r' || c == '\t' {
                } else if (c as u32) < 0x20 {
                    let v = c as u32;
                    assert(v / 16 < 16 && v % 16 < 16);
                } else {
                }
            }
        }
    }
}

// ---------------------------------------------------------------------------
// The report document
// ---------------------------------------------------------------------------

/// `t` without the prefix `p`, if it starts with `p`.
pub open spec fn after(t: Seq<char>, p: Seq<char>) -> Option<Seq<char>> {
    if p.len() <= t.len() && t.take(p.len() as int) == p {
        Some(t.skip(p.len() as int))
    } else {
        None
    }
}

/// The number of decimal digits at the start of `t`.
pub open spec fn digit_run(t: Seq<char>) -> nat
    decreases t.len(),
{
    if t.len() > 0 && is_decimal_digit(t[0]) {
        1 + digit_run(t.skip(1))
    } else {
        0
    }
}

/// Reads a JSON number at the start of `t` that is a natural number
/// (digits, no leading zero): its value and the text after it.
pub open spec fn json_nat_prefix(t: Seq<char>) -> Option<(nat, Seq<char>)> {
    let k = digit_run(t);
    if k == 0 || (k > 1 && t[0] == '0') {
        None
    } else {
        Some((digits_value(t.take(k as int)), t.skip(k as int)))
    }
}

/// The fields of a finding as the report holds them: line, severity name,
/// rule, message.
pub open spec fn finding_record(f: FindingView) -> (nat, Seq<char>, Seq<char>, Seq<char>) {
    (f.line, f.severity.name(), f.rule, f.message)
}

/// Reads one finding object at the start of `t`: its fields and the text
/// after it.
#[verifier::opaque]
pub open spec fn read_finding(t: Seq<char>) -> Option<
    ((nat, Seq<char>, Seq<char>, Seq<char>), Seq<char>),
> {
    match after(t, "{\"line\":"@) {
        None => None,
        Some(t1) => match json_nat_prefix(t1) {
            None => None,
            Some((line, t2)) => match after(t2, ",\"severity\":"@) {
                None => None,
                Some(t3) => match json_string_prefix(t3) {
                    None => None,
                    Some((severity, t4)) => match after(t4, ",\"rule\":"@) {
                        None => None,
                        Some(t5) => match json_string_prefix(t5) {
                            None => None,
                            Some((rule, t6)) => match after(t6, ",\"message\":"@) {
                                None => None,
                                Some(t7) => match json_string_prefix(t7) {
                                    None => None,
                                    Some((message, t8)) => match after(t8, "}"@) {
                                        None => None,
                                        Some(t9) => Some(((line, severity, rule, message), t9)),
                                    },
                                },
                            },
                        },
                    },
                },
            },
        },
    }
}

/// Reads finding objects separated by commas up to the closing `]` of the
/// array: their fields and the text after the `]`. (An object always takes
/// some text; the length test says so for the recursion.)
pub open spec fn read_findings(t: Seq<char>) -> Option<
    (Seq<(nat, Seq<char>, Seq<char>, Seq<char>)>, Seq<char>),
>
    decreases t.len(),
{
    match read_finding(t) {
        None => None,
        Some((f, r)) => if r.len() > 0 && r[0] == ']' {
            Some((seq![f], r.skip(1)))
        } else if r.len() > 0 && r[0] == ',' && r.len() < t.len() {
            match read_findings(r.skip(1)) {
                None => None,
                Some((fs, r2)) => Some((seq![f] + fs, r2)),
            }
        } else {
            None
        },
    }
}

/// Reads a report document: an object, without white space, holding `file`
/// (a string) and `findings` (an array of objects holding `line`, a number,
/// and `severity`, `rule` and `message`, strings), keys in that order.
/// Gives the file name and the fields of each finding.
pub open spec fn read_report(t: Seq<char>) -> Option<
    (Seq<char>, Seq<(nat, Seq<char>, Seq<char>, Seq<char>)>),
> {
    match after(t, "{\"file\":"@) {
        None => None,
        Some(t1) => match json_string_prefix(t1) {
            None => None,
            Some((file, t2)) => match after(t2, ",\"findings\":["@) {
                None => None,
                Some(t3) => {
                    let items = if t3.len() > 0 && t3[0] == ']' {
                        Some((Seq::empty(), t3.skip(1)))
                    } else {
                        read_findings(t3)
                    };
                    match items {
                        None => None,
                        Some((fs, t4)) => if t4 == "}"@ {
                            Some((file, fs))
                        } else {
                            None
                        },
                    }
                },
            },
        },
    }
}

proof fn lemma_after(p: Seq<char>, rest: Seq<char>)
    ensures
        after(p + rest, p) == Some(rest),
{
    assert((p + rest).take(p.len() as int) =~= p);
    assert((p + rest).skip(p.len() as int) =~= rest);
}

proof fn lemma_digit_run(d: Seq<char>, rest: Seq<char>)
    requires
        forall|i: int| 0 <= i < d.len() ==> is_decimal_digit(#[trigger] d[i]),
        rest.len() == 0 || !is_decimal_digit(rest[0]),
    ensures
        digit_run(d + rest) == d.len(),
    decreases d.len(),
{
    if d.len() == 0 {
        assert(d + rest =~= rest);
    } else {
        assert((d + rest).skip(1) =~= d.drop_first() + rest);
        assert(d[0] == (d + rest)[0]);
        lemma_digit_run(d.drop_first(), rest);
    }
}

proof fn lemma_read_nat(n: nat, rest: Seq<char>)
    requires
        rest.len() > 0,
        !is_decimal_digit(rest[0]),
    ensures
        json_nat_prefix(decimal(n) + rest) == Some((n, rest)),
{
    let d = decimal(n);
    lemma_decimal_round_trip(n);
    lemma_digit_run(d, rest);
    assert((d + rest).take(d.len() as int) =~= d);
    assert((d + rest).skip(d.len() as int) =~= rest);
    if d.len() > 1 {
        assert(n > 0) by {
            if n == 0 {
                assert(decimal(0) =~= seq![digit(0)]);
            }
        }
        assert((d + rest)[0] == d[0]);
    }
}

proof fn lemma_read_finding(f: FindingView, rest: Seq<char>)
    ensures
        read_finding(finding_json(f) + rest) == Some((finding_record(f), rest)),
{
    reveal(read_finding);
    let l1 = "{\"line\":"@;
    let l2 = ",\"severity\":"@;
    let l3 = ",\"rule\":"@;
    let l4 = ",\"message\":"@;
    let l5 = "}"@;
    let s8 = l5 + rest;
    let s7 = json_text(f.message) + s8;
    let s6 = l4 + s7;
    let s5 = json_text(f.rule) + s6;
    let s4 = l3 + s5;
    let s3 = json_text(f.severity.name()) + s4;
    let s2 = l2 + s3;
    let s1 = decimal(f.line) + s2;
    let t = l1 + s1;
    assert(finding_json(f) + rest =~= t);
    lemma_after(l1, s1);
    reveal_strlit(",\"severity\":");
    assert(s2[0] == ',');
    assert(!is_decimal_digit(','));
    lemma_read_nat(f.line, s2);
    lemma_after(l2, s3);
    lemma_json_string_prefix(f.severity.name(), s4);
    lemma_after(l3, s5);
    lemma_json_string_prefix(f.rule, s6);
    lemma_after(l4, s7);
    lemma_json_string_prefix(f.message, s8);
    lemma_after(l5, rest);
}

/// The findings written by `json_list`, then `]` and any text, read back.
proof fn lemma_read_findings(fs: Seq<FindingView>, rest: Seq<char>)
    requires
        fs.len() > 0,
    ensures
        read_findings(json_list(fs) + seq![']'] + rest) == Some(
            (fs.map_values(|f: FindingView| finding_record(f)), rest),
        ),
    decreases fs.len(),
{
    let f = fs[0];
    lemma_json_list_front(fs);
    if fs.len() == 1 {
        let t = json_list(fs) + seq![']'] + rest;
        assert(t =~= finding_json(f) + (seq![']'] + rest));
        lemma_read_finding(f, seq![']'] + rest);
        assert((seq![']'] + rest).skip(1) =~= rest);
        assert(fs.map_values(|g: FindingView| finding_record(g)) =~= seq![finding_record(f)]);
    } else {
        let tail = fs.drop_first();
        let r = seq![','] + json_list(tail) + seq![']'] + rest;
        let t = json_list(fs) + seq![']'] + rest;
        assert(t =~= finding_json(f) + r);
        lemma_read_finding(f, r);
        assert(finding_json(f).len() > 0) by {
            reveal_strlit("{\"line\":");
            assert("{\"line\":"@.len() == 8);
        }
        assert(r.skip(1) =~= json_list(tail) + seq![']'] + rest);
        lemma_read_findings(tail, rest);
        assert(fs.map_values(|g: FindingView| finding_record(g)) =~= seq![finding_record(f)]
            + tail.map_values(|g: FindingView| finding_record(g)));
    }
}

/// `json_list` read from the front: the first object, then, if there are
/// more, a comma and the list of the others.
proof fn lemma_json_list_front(fs: Seq<FindingView>)
    requires
        fs.len() > 0,
    ensures
        fs.len() == 1 ==> json_list(fs) == finding_json(fs[0]),
        fs.len() > 1 ==> json_list(fs) == finding_json(fs[0]) + seq![','] + json_list(
            fs.drop_first(),
        ),
    decreases fs.len(),
{
    if fs.len() > 2 {
        let p = fs.drop_last();
        let q = fs.drop_first();
        lemma_json_list_front(p);
        assert(p.drop_first() =~= q.drop_last());
        assert(q.last() == fs.last());
        assert(p[0] == fs[0]);
        assert(json_list(q) == json_list(q.drop_last()) + seq![','] + finding_json(q.last()));
        assert(json_list(fs) == json_list(p) + seq![','] + finding_json(fs.last()));
        assert(json_list(fs) =~= finding_json(fs[0]) + seq![','] + json_list(fs.drop_first()));
    } else if fs.len() == 2 {
        let p = fs.drop_last();
        let q = fs.drop_first();
        assert(p.len() == 1);
        assert(q.len() == 1);
        assert(q[0] == fs.last());
        assert(p[0] == fs[0]);
        assert(json_list(p) == finding_json(p[0]));
        assert(json_list(q) == finding_json(q[0]));
        assert(json_list(fs) == json_list(p) + seq![','] + finding_json(fs.last()));
        assert(json_list(fs) =~= finding_json(fs[0]) + seq![','] + json_list(fs.drop_first()));
    }
}

/// The JSON document that `render_json` writes reads back as the file name
/// and, in order, the line, severity name, rule and message of each
/// finding.
pub proof fn lemma_json_report_round_trip(path: Seq<char>, fs: Seq<FindingView>)
    ensures
        read_report(json_report(path, fs)) == Some(
            (path, fs.map_values(|f: FindingView| finding_record(f))),
        ),
{
    let l1 = "{\"file\":"@;
    let l2 = ",\"findings\":["@;
    let close = "]}"@;
    reveal_strlit("]}");
    assert(close =~= seq![']'] + seq!['}']);
    let s3 = json_list(fs) + close;
    let s2 = l2 + s3;
    let s1 = json_text(path) + s2;
    let t = l1 + s1;
    assert(json_report(path, fs) =~= t);
    lemma_after(l1, s1);
    lemma_json_string_prefix(path, s2);
    lemma_after(l2, s3);
    reveal_strlit("}");
    if fs.len() == 0 {
        assert(json_list(fs) == Seq::<char>::empty());
        assert(s3 =~= close);
        assert(s3.skip(1) =~= "}"@);
        assert(fs.map_values(|f: FindingView| finding_record(f)) =~= Seq::<
            (nat, Seq<char>, Seq<char>, Seq<char>),
        >::empty());
    } else {
        assert(s3 =~= json_list(fs) + seq![']'] + seq!['}']);
        lemma_read_findings(fs, seq!['}']);
        assert(finding_json(fs[0])[0] == '{') by {
            reveal_strlit("{\"line\":");
            lemma_json_list_front(fs);
        }
        lemma_json_list_front(fs);
        assert(s3[0] == json_list(fs)[0]);
        assert(s3[0] != ']');
        assert(seq!['}'] =~= "}"@);
    }
}

} // verus!
