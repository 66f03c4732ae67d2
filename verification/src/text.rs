//! Character-level text handling: the mathematical model of the string
//! operations the route format is defined with (trimming, splitting into
//! fields and lines, decimal and hexadecimal digits), and executable
//! functions proved against that model.
use vstd::prelude::*;

verus! {

// ---------------------------------------------------------------------------
// std functions without a vstd specification
// ---------------------------------------------------------------------------

/// The uppercase mapping of a string, as `str::to_uppercase` computes it.
pub uninterp spec fn uppercase(s: Seq<char>) -> Seq<char>;

/// Calls `str::to_uppercase`. Trusted: the result is `uppercase(s@)`, a
/// function of the characters of `s` alone; the Unicode case tables behind it
/// are not stated.
#[verifier::external_body]
pub(crate) fn str_to_uppercase(s: &str) -> (r: String)
    ensures
        r@ == uppercase(s@),
{
    s.to_uppercase()
}

/// Calls `String::push`. Trusted: the character is appended at the end.
#[verifier::external_body]
pub(crate) fn push_char(s: &mut String, c: char)
    ensures
        final(s)@ == old(s)@.push(c),
{
    s.push(c)
}

// ---------------------------------------------------------------------------
// The model
// ---------------------------------------------------------------------------

/// Whether `c` has Unicode's `White_Space` property (what `char::is_whitespace`
/// reports): U+0009 to U+000D, U+0020, U+0085, U+00A0, U+1680, U+2000 to
/// U+200A, U+2028, U+2029, U+202F, U+205F and U+3000.
pub open spec fn is_white_space(c: char) -> bool {
    let v = c as u32;
    ||| 0x09 <= v <= 0x0d
    ||| v == 0x20
    ||| v == 0x85
    ||| v == 0xa0
    ||| v == 0x1680
    ||| 0x2000 <= v <= 0x200a
    ||| v == 0x2028
    ||| v == 0x2029
    ||| v == 0x202f
    ||| v == 0x205f
    ||| v == 0x3000
}

/// `s` without its leading white space.
pub open spec fn trim_start(s: Seq<char>) -> Seq<char>
    decreases s.len(),
{
    if s.len() > 0 && is_white_space(s[0]) {
        trim_start(s.drop_first())
    } else {
        s
    }
}

/// `s` without its trailing white space.
pub open spec fn trim_end(s: Seq<char>) -> Seq<char>
    decreases s.len(),
{
    if s.len() > 0 && is_white_space(s.last()) {
        trim_end(s.drop_last())
    } else {
        s
    }
}

/// `s` without leading and trailing white space (`str::trim`).
pub open spec fn trim(s: Seq<char>) -> Seq<char> {
    trim_end(trim_start(s))
}

/// Whether `c` separates fields: `sep` names the separator character, and
/// `None` stands for white space.
pub open spec fn is_separator(c: char, sep: Option<char>) -> bool {
    match sep {
        Some(d) => c == d,
        None => is_white_space(c),
    }
}

/// The maximal non-empty runs of non-separator characters of `s`, in order.
/// With `None` this is `str::split_whitespace`; with `Some(d)` it is
/// `str::split(d)` with the empty pieces left out.
pub open spec fn fields(s: Seq<char>, sep: Option<char>) -> Seq<Seq<char>>
    decreases s.len(),
{
    if s.len() == 0 {
        Seq::empty()
    } else {
        let prev = fields(s.drop_last(), sep);
        let c = s.last();
        if is_separator(c, sep) {
            prev
        } else if s.len() >= 2 && !is_separator(s[s.len() - 2], sep) {
            prev.drop_last().push(prev.last().push(c))
        } else {
            prev.push(seq![c])
        }
    }
}

/// The pieces of `s` between line feeds, empty pieces included: a text of
/// `k` line feeds has `k + 1` lines.
pub open spec fn split_lines(s: Seq<char>) -> Seq<Seq<char>>
    decreases s.len(),
{
    if s.len() == 0 {
        seq![Seq::empty()]
    } else {
        let prev = split_lines(s.drop_last());
        if s.last() == '\n' {
            prev.push(Seq::empty())
        } else {
            prev.drop_last().push(prev.last().push(s.last()))
        }
    }
}

/// The decimal digit `d`.
pub open spec fn digit(d: nat) -> char {
    (d + 48) as char
}

/// The lowercase hexadecimal digit `d`.
pub open spec fn hex_digit(d: nat) -> char {
    if d < 10 {
        digit(d)
    } else {
        (d + 87) as char
    }
}

/// The decimal notation of `n`, without leading zeros.
pub open spec fn decimal(n: nat) -> Seq<char>
    decreases n,
{
    if n < 10 {
        seq![digit(n)]
    } else {
        decimal(n / 10).push(digit(n % 10))
    }
}

/// The views of a sequence of character vectors.
pub open spec fn char_views(v: Seq<Vec<char>>) -> Seq<Seq<char>> {
    v.map_values(|w: Vec<char>| w@)
}

/// Fields found so far, with the field still being read.
spec fn with_pending(done: Seq<Seq<char>>, cur: Seq<char>) -> Seq<Seq<char>> {
    if cur.len() > 0 {
        done.push(cur)
    } else {
        done
    }
}

// ---------------------------------------------------------------------------
// Executable functions
// ---------------------------------------------------------------------------

/// Whether `c` is white space (see `is_white_space`).
pub fn is_whitespace_char(c: char) -> (r: bool)
    ensures
        r == is_white_space(c),
{
    let v = c as u32;
    (0x09 <= v && v <= 0x0d) || v == 0x20 || v == 0x85 || v == 0xa0 || v == 0x1680 || (0x2000
        <= v && v <= 0x200a) || v == 0x2028 || v == 0x2029 || v == 0x202f || v == 0x205f || v
        == 0x3000
}

/// The characters of `s`.
pub fn chars_of(s: &str) -> (v: Vec<char>)
    ensures
        v@ == s@,
{
    let mut v: Vec<char> = Vec::new();
    for c in it: s.chars()
        invariant
            v@ == it.seq().take(it.index() as int),
    {
        v.push(c);
    }
    v
}

/// Appends the characters of `v` to `s`.
pub fn push_chars(s: &mut String, v: &[char])
    ensures
        final(s)@ == old(s)@ + v@,
{
    let mut i: usize = 0;
    while i < v.len()
        invariant
            i <= v@.len(),
            s@ == old(s)@ + v@.take(i as int),
        decreases v.len() - i,
    {
        push_char(s, v[i]);
        assert(v@.take(i + 1) =~= v@.take(i as int).push(v@[i as int]));
        i = i + 1;
    }
    assert(v@.take(v@.len() as int) =~= v@);
}

/// A string holding the characters of `v`.
pub fn string_of(v: &[char]) -> (s: String)
    ensures
        s@ == v@,
{
    let mut s = String::new();
    push_chars(&mut s, v);
    s
}

/// Appends the decimal notation of `n` to `s`.
pub fn push_decimal(s: &mut String, n: usize)
    ensures
        final(s)@ == old(s)@ + decimal(n as nat),
    decreases n,
{
    if n >= 10 {
        push_decimal(s, n / 10);
    }
    let d = (n % 10) as u8;
    push_char(s, (d + 48) as char);
    if n < 10 {
        assert(decimal(n as nat) =~= seq![digit(n as nat)]);
    }
}

/// Whether two character sequences are equal.
pub fn same_chars(a: &[char], b: &[char]) -> (r: bool)
    ensures
        r == (a@ == b@),
{
    if a.len() != b.len() {
        return false;
    }
    let mut i: usize = 0;
    while i < a.len()
        invariant
            i <= a@.len(),
            a@.len() == b@.len(),
            forall|j: int| 0 <= j < i ==> a@[j] == b@[j],
        decreases a.len() - i,
    {
        if a[i] != b[i] {
            return false;
        }
        i = i + 1;
    }
    assert(a@ =~= b@);
    true
}

/// Whether two strings hold the same characters.
pub fn same_text(a: &str, b: &str) -> (r: bool)
    ensures
        r == (a@ == b@),
{
    let x = chars_of(a);
    let y = chars_of(b);
    same_chars(x.as_slice(), y.as_slice())
}

/// The characters of `v` from `lo` up to `hi`.
pub fn sub_chars(v: &[char], lo: usize, hi: usize) -> (r: Vec<char>)
    requires
        lo <= hi <= v@.len(),
    ensures
        r@ == v@.subrange(lo as int, hi as int),
{
    let mut r: Vec<char> = Vec::new();
    let mut i = lo;
    while i < hi
        invariant
            lo <= i <= hi <= v@.len(),
            r@ == v@.subrange(lo as int, i as int),
        decreases hi - i,
    {
        r.push(v[i]);
        assert(v@.subrange(lo as int, i + 1) =~= v@.subrange(lo as int, i as int).push(v@[i as int]));
        i = i + 1;
    }
    r
}

/// `v` without leading and trailing white space.
pub fn trimmed(v: &[char]) -> (r: Vec<char>)
    ensures
        r@ == trim(v@),
{
    let n = v.len();
    let mut a: usize = 0;
    assert(v@.skip(0) =~= v@);
    while a < n && is_whitespace_char(v[a])
        invariant
            a <= n,
            n == v@.len(),
            trim_start(v@) == trim_start(v@.skip(a as int)),
        decreases n - a,
    {
        assert(v@.skip(a as int).drop_first() =~= v@.skip(a + 1));
        a = a + 1;
    }
    if a == n {
        assert(v@.skip(a as int) =~= Seq::<char>::empty());
    }
    assert(trim_start(v@) == v@.skip(a as int));
    let mut b: usize = n;
    while b > a && is_whitespace_char(v[b - 1])
        invariant
            a <= b <= n,
            n == v@.len(),
            trim_start(v@) == v@.skip(a as int),
            trim(v@) == trim_end(v@.subrange(a as int, b as int)),
        decreases b,
    {
        assert(v@.subrange(a as int, b as int).drop_last() =~= v@.subrange(a as int, b - 1));
        b = b - 1;
    }
    assert(v@.skip(a as int) =~= v@.subrange(a as int, n as int));
    if b == a {
        assert(v@.subrange(a as int, b as int) =~= Seq::<char>::empty());
    }
    sub_chars(v, a, b)
}

/// The fields of `v` (see `fields`).
pub fn split_fields(v: &[char], sep: Option<char>) -> (r: Vec<Vec<char>>)
    ensures
        char_views(r@) == fields(v@, sep),
{
    let mut out: Vec<Vec<char>> = Vec::new();
    let mut cur: Vec<char> = Vec::new();
    let mut i: usize = 0;
    while i < v.len()
        invariant
            i <= v@.len(),
            fields(v@.take(i as int), sep) == with_pending(char_views(out@), cur@),
            cur@.len() > 0 <==> (i > 0 && !is_separator(v@[i - 1], sep)),
        decreases v.len() - i,
    {
        let c = v[i];
        let is_sep = match sep {
            Some(d) => c == d,
            None => is_whitespace_char(c),
        };
        let ghost s1 = v@.take(i + 1);
        assert(s1.drop_last() =~= v@.take(i as int));
        assert(s1.last() == c);
        assert(i >= 1 ==> s1[i - 1] == v@[i - 1]);
        let ghost prev = fields(v@.take(i as int), sep);
        let ghost old_out = out@;
        let ghost old_cur = cur@;
        if is_sep {
            if cur.len() > 0 {
                out.push(cur);
                cur = Vec::new();
                assert(char_views(out@) =~= char_views(old_out).push(old_cur));
            }
            assert(fields(s1, sep) == prev);
        } else {
            cur.push(c);
            assert(char_views(out@) =~= char_views(old_out));
            proof {
                if old_cur.len() > 0 {
                    assert(prev.drop_last() =~= char_views(old_out));
                    assert(prev.last() == old_cur);
                    assert(fields(s1, sep) == prev.drop_last().push(prev.last().push(c)));
                } else {
                    assert(fields(s1, sep) == prev.push(seq![c]));
                    assert(cur@ =~= seq![c]);
                }
            }
        }
        i = i + 1;
    }
    assert(v@.take(v@.len() as int) =~= v@);
    let ghost old_out = out@;
    if cur.len() > 0 {
        let ghost old_cur = cur@;
        out.push(cur);
        assert(char_views(out@) =~= char_views(old_out).push(old_cur));
    }
    out
}

// ---------------------------------------------------------------------------
// Laws
// ---------------------------------------------------------------------------

/// `c` is one of the digits `0` to `9`.
pub open spec fn is_decimal_digit(c: char) -> bool {
    48 <= (c as u32) <= 57
}

/// The number a sequence of decimal digits stands for.
pub open spec fn digits_value(s: Seq<char>) -> nat
    decreases s.len(),
{
    if s.len() == 0 {
        0
    } else {
        digits_value(s.drop_last()) * 10 + ((s.last() as u32) - 48) as nat
    }
}

/// The decimal notation of `n` is made of digits, starts with `0` only for
/// zero itself, and stands for `n`.
pub proof fn lemma_decimal_round_trip(n: nat)
    ensures
        forall|i: int| 0 <= i < decimal(n).len() ==> is_decimal_digit(#[trigger] decimal(n)[i]),
        decimal(n).len() > 0,
        n > 0 ==> decimal(n)[0] != '0',
        digits_value(decimal(n)) == n,
    decreases n,
{
    let d = digit(n % 10);
    assert((d as u32) == n % 10 + 48);
    if n >= 10 {
        lemma_decimal_round_trip(n / 10);
        let p = decimal(n / 10);
        let s = decimal(n);
        assert(s == p.push(d));
        assert(s.drop_last() =~= p);
        assert forall|i: int| 0 <= i < s.len() implies is_decimal_digit(#[trigger] s[i]) by {
            if i < p.len() {
                assert(s[i] == p[i]);
            }
        }
        assert(s[0] == p[0]);
    } else {
        let s = decimal(n);
        assert(s =~= seq![d]);
        assert(s.drop_last() =~= Seq::<char>::empty());
        assert(digits_value(s.drop_last()) == 0);
    }
}

/// Every field is non-empty and holds no separator.
pub proof fn lemma_fields_shape(s: Seq<char>, sep: Option<char>)
    ensures
        forall|k: int|
            0 <= k < fields(s, sep).len() ==> (#[trigger] fields(s, sep)[k]).len() > 0 && forall|
                j: int,
            | 0 <= j < fields(s, sep)[k].len() ==> !is_separator(fields(s, sep)[k][j], sep),
    decreases s.len(),
{
    if s.len() > 0 {
        let p = s.drop_last();
        lemma_fields_shape(p, sep);
        let prev = fields(p, sep);
        let c = s.last();
        let f = fields(s, sep);
        if is_separator(c, sep) {
        } else if s.len() >= 2 && !is_separator(s[s.len() - 2], sep) {
            lemma_fields_nonempty(p, sep);
            assert forall|k: int| 0 <= k < f.len() implies (#[trigger] f[k]).len() > 0 && forall|
                j: int,
            | 0 <= j < f[k].len() ==> !is_separator(f[k][j], sep) by {
                if k < f.len() - 1 {
                    assert(f[k] == prev[k]);
                } else {
                    assert(f[k] == prev.last().push(c));
                    assert(prev.last() == prev[prev.len() - 1]);
                    assert forall|j: int| 0 <= j < f[k].len() implies !is_separator(f[k][j], sep) by {
                        if j < f[k].len() - 1 {
                            assert(f[k][j] == prev[prev.len() - 1][j]);
                        }
                    }
                }
            }
        } else {
            assert forall|k: int| 0 <= k < f.len() implies (#[trigger] f[k]).len() > 0 && forall|
                j: int,
            | 0 <= j < f[k].len() ==> !is_separator(f[k][j], sep) by {
                if k < f.len() - 1 {
                    assert(f[k] == prev[k]);
                } else {
                    assert(f[k] =~= seq![c]);
                }
            }
        }
    }
}

/// A text that ends in a non-separator has a field.
proof fn lemma_fields_nonempty(s: Seq<char>, sep: Option<char>)
    requires
        s.len() > 0,
        !is_separator(s.last(), sep),
    ensures
        fields(s, sep).len() > 0,
{
}

/// A trimmed text that is not empty starts and ends with a character that
/// is not white space.
pub proof fn lemma_trim_ends(s: Seq<char>)
    ensures
        trim(s).len() > 0 ==> !is_white_space(trim(s)[0]) && !is_white_space(trim(s).last()),
{
    lemma_trim_start_ends(s);
    lemma_trim_end_ends(trim_start(s));
}

proof fn lemma_trim_start_ends(s: Seq<char>)
    ensures
        trim_start(s).len() > 0 ==> !is_white_space(trim_start(s)[0]),
    decreases s.len(),
{
    if s.len() > 0 && is_white_space(s[0]) {
        lemma_trim_start_ends(s.drop_first());
    }
}

proof fn lemma_trim_end_ends(s: Seq<char>)
    ensures
        trim_end(s).len() > 0 ==> !is_white_space(trim_end(s).last()),
        trim_end(s).len() > 0 ==> trim_end(s)[0] == s[0],
    decreases s.len(),
{
    if s.len() > 0 && is_white_space(s.last()) {
        lemma_trim_end_ends(s.drop_last());
    }
}

/// A text with no line feed is one line.
pub proof fn lemma_split_lines_single(s: Seq<char>)
    requires
        forall|k: int| 0 <= k < s.len() ==> s[k] != '\n',
    ensures
        split_lines(s) == seq![s],
    decreases s.len(),
{
    if s.len() == 0 {
        assert(s =~= Seq::<char>::empty());
    } else {
        let p = s.drop_last();
        lemma_split_lines_single(p);
        assert(s[s.len() - 1] != '\n');
        assert(p.push(s.last()) =~= s);
        assert(split_lines(s) =~= seq![s]);
    }
}

/// A word without separators is one field.
pub proof fn lemma_fields_word(w: Seq<char>, sep: Option<char>)
    requires
        w.len() > 0,
        forall|k: int| 0 <= k < w.len() ==> !is_separator(#[trigger] w[k], sep),
    ensures
        fields(w, sep) == seq![w],
    decreases w.len(),
{
    let p = w.drop_last();
    if w.len() == 1 {
        assert(p =~= Seq::<char>::empty());
        assert(fields(p, sep) == Seq::<Seq<char>>::empty());
        assert(seq![w.last()] =~= w);
        assert(fields(w, sep) =~= Seq::<Seq<char>>::empty().push(seq![w.last()]));
    } else {
        lemma_fields_word(p, sep);
        assert(w[w.len() - 2] == p.last());
        assert(p.push(w.last()) =~= w);
        assert(fields(w, sep) =~= seq![w]);
    }
}

/// A separator and then a word without separators add the word as one more
/// field.
pub proof fn lemma_fields_append_word(a: Seq<char>, c: char, w: Seq<char>, sep: Option<char>)
    requires
        is_separator(c, sep),
        w.len() > 0,
        forall|k: int| 0 <= k < w.len() ==> !is_separator(#[trigger] w[k], sep),
    ensures
        fields(a + seq![c] + w, sep) == fields(a, sep).push(w),
    decreases w.len(),
{
    let t = a + seq![c] + w;
    let p = w.drop_last();
    if w.len() == 1 {
        assert(t.drop_last() =~= a + seq![c]);
        assert((a + seq![c]).drop_last() =~= a);
        assert(fields(a + seq![c], sep) == fields(a, sep));
        assert(t[t.len() - 2] == c);
        assert(seq![w.last()] =~= w);
    } else {
        lemma_fields_append_word(a, c, p, sep);
        assert(t.drop_last() =~= a + seq![c] + p);
        assert(t[t.len() - 2] == p.last());
        assert(p.push(w.last()) =~= w);
        assert(fields(t, sep) =~= fields(a, sep).push(w));
    }
}

} // verus!
