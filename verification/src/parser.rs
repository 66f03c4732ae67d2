//! The route table format: one route per line, `METHOD /path -> handler`.
//! Blank lines and lines starting with `#` are ignored.
use vstd::prelude::*;

use crate::text::{
    char_views, chars_of, fields, is_separator, is_white_space, lemma_fields_append_word,
    lemma_fields_shape,
    lemma_fields_word, lemma_split_lines_single, lemma_trim_ends,
    split_fields, split_lines, str_to_uppercase, string_of, sub_chars, trim, trim_end,
    trim_start, trimmed, uppercase,
};

verus! {

/// One route of a table, with the number of the line it was read from.
pub struct Route {
    pub line: usize,
    pub method: String,
    pub path: String,
    pub handler: String,
}

/// The mathematical value of a `Route`.
pub struct RouteView {
    pub line: nat,
    pub method: Seq<char>,
    pub path: Seq<char>,
    pub handler: Seq<char>,
}

impl View for Route {
    type V = RouteView;

    open spec fn view(&self) -> RouteView {
        RouteView {
            line: self.line as nat,
            method: self.method@,
            path: self.path@,
            handler: self.handler@,
        }
    }
}

/// The views of a sequence of routes.
pub open spec fn route_views(routes: Seq<Route>) -> Seq<RouteView> {
    routes.map_values(|r: Route| r@)
}

/// Line numbers as natural numbers.
pub open spec fn line_numbers(lines: Seq<usize>) -> Seq<nat> {
    lines.map_values(|n: usize| n as nat)
}

/// An arrow `->` starts at index `i` of `s`.
pub open spec fn arrow_at(s: Seq<char>, i: int) -> bool {
    0 <= i && i + 1 < s.len() && s[i] == '-' && s[i + 1] == '>'
}

/// `i` is where the first arrow of `s` starts.
pub open spec fn first_arrow(s: Seq<char>, i: int) -> bool {
    arrow_at(s, i) && forall|j: int| 0 <= j < i ==> !arrow_at(s, j)
}

/// Where the first arrow of `s` starts (`str::find("->")`, in characters).
pub open spec fn find_arrow(s: Seq<char>) -> Option<int> {
    if exists|i: int| arrow_at(s, i) {
        Some(choose|i: int| first_arrow(s, i))
    } else {
        None
    }
}

/// The method (uppercased), path and handler of a trimmed route line: the
/// handler is what follows the first arrow, trimmed and not empty; before the
/// arrow stand exactly two white-space separated words.
pub open spec fn route_fields(line: Seq<char>) -> Option<(Seq<char>, Seq<char>, Seq<char>)> {
    match find_arrow(line) {
        None => None,
        Some(i) => {
            let handler = trim(line.skip(i + 2));
            let words = fields(line.take(i), None);
            if handler.len() == 0 || words.len() != 2 {
                None
            } else {
                Some((uppercase(words[0]), words[1], handler))
            }
        },
    }
}

/// A trimmed line that holds no route and is not reported: blank or a comment.
pub open spec fn is_ignored(line: Seq<char>) -> bool {
    line.len() == 0 || line[0] == '#'
}

/// The routes and unparsable line numbers after line `number`, whose text
/// is `raw`, is read on top of `acc`.
pub open spec fn read_line_spec(
    acc: (Seq<RouteView>, Seq<nat>),
    number: nat,
    raw: Seq<char>,
) -> (Seq<RouteView>, Seq<nat>) {
    let line = trim(raw);
    if is_ignored(line) {
        acc
    } else {
        match route_fields(line) {
            Some((m, p, h)) => (
                acc.0.push(RouteView { line: number, method: m, path: p, handler: h }),
                acc.1,
            ),
            None => (acc.0, acc.1.push(number)),
        }
    }
}

/// The routes and unparsable line numbers of a sequence of lines, numbered
/// from 1.
pub open spec fn parse_lines(lines: Seq<Seq<char>>) -> (Seq<RouteView>, Seq<nat>)
    decreases lines.len(),
{
    if lines.len() == 0 {
        (Seq::empty(), Seq::empty())
    } else {
        read_line_spec(parse_lines(lines.drop_last()), lines.len(), lines.last())
    }
}

/// The routes and unparsable line numbers of a route table.
pub open spec fn parse_spec(input: Seq<char>) -> (Seq<RouteView>, Seq<nat>) {
    parse_lines(split_lines(input))
}

proof fn lemma_find_arrow(s: Seq<char>, a: int)
    requires
        first_arrow(s, a),
    ensures
        find_arrow(s) == Some(a),
{
    assert(arrow_at(s, a));
    let k = choose|i: int| first_arrow(s, i);
    assert(first_arrow(s, k));
    if k < a {
        assert(!arrow_at(s, k));
    } else if a < k {
        assert(!arrow_at(s, a));
    }
}

/// Where the first arrow of `line` starts.
fn arrow_index(line: &[char]) -> (r: Option<usize>)
    ensures
        r matches Some(i) ==> first_arrow(line@, i as int),
        r is None ==> forall|i: int| !arrow_at(line@, i),
{
    if line.len() < 2 {
        return None;
    }
    let mut i: usize = 0;
    while i < line.len() - 1
        invariant
            line@.len() >= 2,
            i <= line@.len() - 1,
            forall|j: int| 0 <= j < i ==> !arrow_at(line@, j),
        decreases line.len() - i,
    {
        if line[i] == '-' && line[i + 1] == '>' {
            return Some(i);
        }
        i = i + 1;
    }
    None
}

/// The fields of a trimmed, non-blank line that is not a comment, or `None`
/// where the line does not match `METHOD /path -> handler`.
fn parse_line(line: &[char]) -> (r: Option<(String, String, String)>)
    ensures
        route_fields(line@) == match r {
            Some(t) => Some((t.0@, t.1@, t.2@)),
            None => None,
        },
{
    let a = match arrow_index(line) {
        Some(a) => a,
        None => {
            return None;
        },
    };
    proof {
        lemma_find_arrow(line@, a as int);
        assert(arrow_at(line@, a as int));
    }
    let n = line.len();
    assert(a + 2 <= n);
    let rest = sub_chars(line, a + 2, n);
    assert(rest@ =~= line@.skip(a + 2));
    let handler = trimmed(rest.as_slice());
    if handler.len() == 0 {
        return None;
    }
    let left = sub_chars(line, 0, a);
    assert(left@ =~= line@.take(a as int));
    let words = split_fields(left.as_slice(), None);
    if words.len() != 2 {
        return None;
    }
    assert(char_views(words@)[0] == words@[0]@);
    assert(char_views(words@)[1] == words@[1]@);
    let method_text = string_of(words[0].as_slice());
    let method = str_to_uppercase(method_text.as_str());
    let path = string_of(words[1].as_slice());
    Some((method, path, string_of(handler.as_slice())))
}

/// Reads line `before + 1`, whose text is `raw`, into `routes` or
/// `unparsable`.
fn read_line(raw: &[char], before: usize, routes: &mut Vec<Route>, unparsable: &mut Vec<usize>)
    requires
        before + raw@.len() <= usize::MAX,
    ensures
        (route_views(final(routes)@), line_numbers(final(unparsable)@)) == read_line_spec(
            (route_views(old(routes)@), line_numbers(old(unparsable)@)),
            (before + 1) as nat,
            raw@,
        ),
{
    let line = trimmed(raw);
    if line.len() == 0 || line[0] == '#' {
        return;
    }
    if raw.len() == 0 {
        assert(trim_start(raw@) == raw@);
        assert(trim_end(raw@) == raw@);
    }
    let number = before + 1;
    match parse_line(line.as_slice()) {
        Some((method, path, handler)) => {
            routes.push(Route { line: number, method, path, handler });
            assert(route_views(routes@) =~= route_views(old(routes)@).push(routes@.last()@));
        },
        None => {
            unparsable.push(number);
            assert(line_numbers(unparsable@) =~= line_numbers(old(unparsable)@).push(
                number as nat,
            ));
        },
    }
}

/// Reads a route table. Returns its routes and the numbers of the lines that
/// are neither blank, nor a comment, nor a valid route, both in line order.
pub fn parse(input: &str) -> (res: (Vec<Route>, Vec<usize>))
    ensures
        route_views(res.0@) == parse_spec(input@).0,
        line_numbers(res.1@) == parse_spec(input@).1,
{
    let text = chars_of(input);
    let mut routes: Vec<Route> = Vec::new();
    let mut unparsable: Vec<usize> = Vec::new();
    let mut cur: Vec<char> = Vec::new();
    let mut count: usize = 0;
    let ghost mut done: Seq<Seq<char>> = Seq::empty();
    let mut i: usize = 0;
    assert(text@.take(0) =~= Seq::<char>::empty());
    assert(route_views(routes@) =~= Seq::<RouteView>::empty());
    assert(line_numbers(unparsable@) =~= Seq::<nat>::empty());
    while i < text.len()
        invariant
            i <= text@.len(),
            split_lines(text@.take(i as int)) == done.push(cur@),
            done.len() == count,
            count + cur@.len() <= i,
            (route_views(routes@), line_numbers(unparsable@)) == parse_lines(done),
        decreases text.len() - i,
    {
        let c = text[i];
        let ghost s1 = text@.take(i + 1);
        assert(s1.drop_last() =~= text@.take(i as int));
        assert(s1.last() == c);
        if c == '\n' {
            read_line(cur.as_slice(), count, &mut routes, &mut unparsable);
            proof {
                let d = done.push(cur@);
                assert(d.drop_last() =~= done);
                done = d;
            }
            count = count + 1;
            cur = Vec::new();
        } else {
            let ghost old_cur = cur@;
            cur.push(c);
            assert(done.push(old_cur).drop_last() =~= done);
        }
        i = i + 1;
    }
    assert(text@.take(text@.len() as int) =~= text@);
    read_line(cur.as_slice(), count, &mut routes, &mut unparsable);
    assert(done.push(cur@).drop_last() =~= done);
    (routes, unparsable)
}

/// Attribution of a sequence of lines, numbered from 1: each route was read
/// from the line its number names, each unparsable number names a line that
/// is not ignored and holds no route, both lists go up strictly, and every
/// line that is not ignored is in one of them.
pub open spec fn attributes_lines(
    lines: Seq<Seq<char>>,
    rs: Seq<RouteView>,
    us: Seq<nat>,
) -> bool {
    &&& forall|k: int|
        #![trigger rs[k]]
        0 <= k < rs.len() ==> 1 <= rs[k].line <= lines.len() && route_fields(
            trim(lines[rs[k].line - 1]),
        ) == Some((rs[k].method, rs[k].path, rs[k].handler))
    &&& forall|k: int|
        #![trigger us[k]]
        0 <= k < us.len() ==> 1 <= us[k] <= lines.len() && !is_ignored(trim(lines[us[k] - 1]))
            && route_fields(trim(lines[us[k] - 1])) is None
    &&& forall|a: int, b: int| 0 <= a < b < rs.len() ==> #[trigger] rs[a].line < #[trigger] rs[b].line
    &&& forall|a: int, b: int| 0 <= a < b < us.len() ==> #[trigger] us[a] < #[trigger] us[b]
    &&& forall|n: int|
        1 <= n <= lines.len() && !is_ignored(#[trigger] trim(lines[n - 1])) ==> (exists|k: int|
            0 <= k < rs.len() && rs[k].line == n) || (exists|k: int| 0 <= k < us.len() && us[k] == n)
}

/// Reading lines attributes every route and unparsable line to its line.
pub proof fn lemma_parse_lines_attribution(lines: Seq<Seq<char>>)
    ensures
        attributes_lines(lines, parse_lines(lines).0, parse_lines(lines).1),
    decreases lines.len(),
{
    if lines.len() > 0 {
        let prev = lines.drop_last();
        lemma_parse_lines_attribution(prev);
        let (rs0, us0) = parse_lines(prev);
        let (rs, us) = parse_lines(lines);
        let m = lines.len();
        assert forall|k: int| 0 <= k < rs0.len() implies 1 <= rs0[k].line <= prev.len() && lines[rs0[k].line - 1] == prev[rs0[k].line - 1] by {}
        assert forall|k: int| 0 <= k < us0.len() implies 1 <= us0[k] <= prev.len() && lines[us0[k] - 1] == prev[us0[k] - 1] by {}
        assert(trim(lines[m - 1]) == trim(lines.last()));
        assert forall|n: int|
            1 <= n <= lines.len() && !is_ignored(#[trigger] trim(lines[n - 1])) implies (exists|k: int|
                0 <= k < rs.len() && rs[k].line == n) || (exists|k: int| 0 <= k < us.len() && us[k] == n) by {
            if n < m {
                assert(lines[n - 1] == prev[n - 1]);
                assert(!is_ignored(trim(prev[n - 1])));
                if exists|k: int| 0 <= k < rs0.len() && rs0[k].line == n {
                    let k = choose|k: int| 0 <= k < rs0.len() && rs0[k].line == n;
                    assert(rs[k] == rs0[k]);
                } else {
                    let k = choose|k: int| 0 <= k < us0.len() && us0[k] == n;
                    assert(us[k] == us0[k]);
                }
            } else {
                if route_fields(trim(lines.last())) is Some {
                    assert(rs[rs.len() - 1].line == n);
                } else {
                    assert(us[us.len() - 1] == n);
                }
            }
        }
    }
}

/// `parse` attributes every route and unparsable line to the line of the
/// table it stands on (see `attributes_lines`).
pub proof fn lemma_parse_attribution(input: Seq<char>)
    ensures
        attributes_lines(split_lines(input), parse_spec(input).0, parse_spec(input).1),
{
    lemma_parse_lines_attribution(split_lines(input));
}

/// A route as the format allows it: a line number from 1, a non-empty path
/// without white space, and a non-empty handler that neither starts nor ends
/// with white space.
pub open spec fn well_formed_route(r: RouteView) -> bool {
    &&& r.line >= 1
    &&& r.path.len() > 0
    &&& forall|j: int| 0 <= j < r.path.len() ==> !is_white_space(#[trigger] r.path[j])
    &&& r.handler.len() > 0
    &&& !is_white_space(r.handler[0])
    &&& !is_white_space(r.handler.last())
}

proof fn lemma_route_fields_shape(line: Seq<char>, number: nat)
    requires
        number >= 1,
        route_fields(line) is Some,
    ensures
        well_formed_route(
            RouteView {
                line: number,
                method: route_fields(line).unwrap().0,
                path: route_fields(line).unwrap().1,
                handler: route_fields(line).unwrap().2,
            },
        ),
{
    let i = find_arrow(line).unwrap();
    let words = fields(line.take(i), None);
    lemma_fields_shape(line.take(i), None);
    lemma_trim_ends(line.skip(i + 2));
    assert(words[1].len() > 0);
}

/// Every route read from a table is well formed (see `well_formed_route`).
pub proof fn lemma_parsed_routes_well_formed(input: Seq<char>)
    ensures
        forall|k: int|
            0 <= k < parse_spec(input).0.len() ==> well_formed_route(#[trigger] parse_spec(input).0[k]),
{
    let lines = split_lines(input);
    let rs = parse_spec(input).0;
    lemma_parse_lines_attribution(lines);
    assert forall|k: int| 0 <= k < rs.len() implies well_formed_route(#[trigger] rs[k]) by {
        let r = rs[k];
        let line = trim(lines[r.line - 1]);
        lemma_route_fields_shape(line, r.line);
    }
}

/// `s` holds no white space.
pub open spec fn free_of_white_space(s: Seq<char>) -> bool {
    forall|k: int| 0 <= k < s.len() ==> !is_white_space(#[trigger] s[k])
}

/// `s` holds no `-` directly followed by `>`.
pub open spec fn free_of_arrows(s: Seq<char>) -> bool {
    forall|k: int| 0 <= k && k + 1 < s.len() ==> !(#[trigger] s[k] == '-' && s[k + 1] == '>')
}

/// A table of one line `M P -> H` (a space around each part) holds one
/// route, on line 1, with method `M` uppercased, path `P` and handler `H`,
/// and no unparsable line: the line is split at its first `->`. `M` and `P`
/// are words without white space or `->` (`-` and `>` alone are allowed),
/// `M` does not start a comment, and `H` has no line feed and no white space
/// at its ends.
pub proof fn lemma_parse_one_route(m: Seq<char>, p: Seq<char>, h: Seq<char>)
    requires
        m.len() > 0,
        p.len() > 0,
        h.len() > 0,
        free_of_white_space(m),
        free_of_white_space(p),
        free_of_arrows(m),
        free_of_arrows(p),
        m[0] != '#',
        !is_white_space(h[0]),
        !is_white_space(h.last()),
        forall|k: int| 0 <= k < h.len() ==> h[k] != '\n',
    ensures
        parse_spec(m + seq![' '] + p + seq![' ', '-', '>', ' '] + h) == (
            seq![RouteView { line: 1, method: uppercase(m), path: p, handler: h }],
            Seq::<nat>::empty(),
        ),
{
    let s = m + seq![' '] + p + seq![' ', '-', '>', ' '] + h;
    let a: int = (m.len() + 1 + p.len() + 1) as int;
    // One line.
    assert forall|k: int| 0 <= k < s.len() implies s[k] != '\n' by {
        if k < m.len() {
            assert(s[k] == m[k]);
            assert(!is_white_space(m[k]));
        } else if m.len() < k < m.len() + 1 + p.len() {
            assert(s[k] == p[k - m.len() - 1]);
            assert(!is_white_space(p[k - m.len() - 1]));
        } else if k >= a + 3 {
            assert(s[k] == h[k - a - 3]);
        }
    }
    lemma_split_lines_single(s);
    assert(seq![s].drop_last() =~= Seq::<Seq<char>>::empty());
    // Already trimmed, and not ignored.
    assert(s[0] == m[0]);
    assert(s.last() == h.last());
    assert(trim_start(s) == s);
    assert(trim_end(s) == s);
    assert(!is_ignored(s));
    // The first arrow.
    assert(s[a] == '-' && s[a + 1] == '>');
    assert forall|j: int| 0 <= j < a implies !arrow_at(s, j) by {
        if j < m.len() {
            assert(s[j] == m[j]);
            if j + 1 < m.len() {
                assert(s[j + 1] == m[j + 1]);
            } else {
                assert(s[j + 1] == ' ');
            }
        } else if j == m.len() {
            assert(s[j] == ' ');
        } else if j < a - 1 {
            let q = j - m.len() - 1;
            assert(s[j] == p[q]);
            if q + 1 < p.len() {
                assert(s[j + 1] == p[q + 1]);
            } else {
                assert(s[j + 1] == ' ');
            }
        } else {
            assert(s[j] == ' ');
        }
    }
    lemma_find_arrow(s, a);
    // The handler.
    let rest = s.skip(a + 2);
    assert(rest =~= seq![' '] + h);
    assert(rest.drop_first() =~= h);
    assert(is_white_space(' '));
    assert(trim_start(rest) == trim_start(h));
    assert(trim_start(h) == h);
    assert(trim_end(h) == h);
    // The words before the arrow.
    let left = s.take(a);
    assert(left =~= m + seq![' '] + p + seq![' ']);
    assert(left.drop_last() =~= m + seq![' '] + p);
    assert(fields(left, None) == fields(m + seq![' '] + p, None));
    assert forall|k: int| 0 <= k < m.len() implies !is_separator(#[trigger] m[k], None) by {}
    assert forall|k: int| 0 <= k < p.len() implies !is_separator(#[trigger] p[k], None) by {}
    lemma_fields_word(m, None);
    lemma_fields_append_word(m, ' ', p, None);
    assert(fields(left, None) =~= seq![m, p]);
    assert(route_fields(s) == Some((uppercase(m), p, h)));
    assert(parse_lines(seq![s].drop_last()) == (Seq::<RouteView>::empty(), Seq::<nat>::empty()));
    assert(parse_lines(seq![s]) == read_line_spec(
        (Seq::<RouteView>::empty(), Seq::<nat>::empty()),
        1,
        s,
    ));
    assert(trim(s) == s);
    assert(Seq::<RouteView>::empty().push(
        RouteView { line: 1, method: uppercase(m), path: p, handler: h },
    ) =~= seq![RouteView { line: 1, method: uppercase(m), path: p, handler: h }]);
}

} // verus!
