//! Line-level syntax of Hurl files: request lines, section headers,
//! identifiers, `{{variable}}` placeholders and the captures visible at a line.
use vstd::prelude::*;
use vstd::utf8::encode_utf8;
use crate::text::{
    lemma_blen_at_least_len, lemma_skip_class_bounds, line_ranges, ranges_within, skip_class_exec,
    lemma_push_to_set, occurs_at, strs, contains,
    byte_offset, find_from_exec, insert_sorted, lemma_blen_subrange, next_char_exec, seqs, strictly_sorted, trim_range,
    blen, chars_of, eq_exec, find_from, is_alnum, is_alpha, is_ascii_alnum, is_ascii_alpha,
    lemma_find_from_found, lines, next_char, push_str, ranged, skip_class, string_of, to_vec, token_ranges,
    tokens, trim,
};

verus! {

/// The HTTP methods that start a request line.
pub open spec fn spec_is_http_method(m: Seq<char>) -> bool {
    ||| m == "GET"@
    ||| m == "HEAD"@
    ||| m == "POST"@
    ||| m == "PUT"@
    ||| m == "DELETE"@
    ||| m == "CONNECT"@
    ||| m == "OPTIONS"@
    ||| m == "TRACE"@
    ||| m == "PATCH"@
}

/// The section names that Hurl knows.
pub open spec fn spec_is_known_section(n: Seq<char>) -> bool {
    ||| n == "Asserts"@
    ||| n == "BasicAuth"@
    ||| n == "Captures"@
    ||| n == "Cookies"@
    ||| n == "Form"@
    ||| n == "FormParams"@
    ||| n == "Headers"@
    ||| n == "Multipart"@
    ||| n == "MultipartFormData"@
    ||| n == "Options"@
    ||| n == "Query"@
    ||| n == "QueryStringParams"@
    ||| n == "QueryStringParameters"@
}

/// The variables that a Hurl run always provides.
pub open spec fn builtin_variables() -> Set<Seq<char>> {
    set!["newUuid"@, "newDate"@]
}

/// The one name under which a section and its aliases are counted.
pub open spec fn spec_canonical_section(n: Seq<char>) -> Seq<char> {
    if n == "Query"@ || n == "QueryStringParams"@ || n == "QueryStringParameters"@ {
        "QueryStringParams"@
    } else if n == "Form"@ || n == "FormParams"@ {
        "FormParams"@
    } else if n == "Multipart"@ || n == "MultipartFormData"@ {
        "MultipartFormData"@
    } else {
        n
    }
}

/// The method of a request line: its first token, when a second token follows
/// and the first is an HTTP method.
pub open spec fn method_of_line(l: Seq<char>) -> Option<Seq<char>> {
    let t = tokens(l);
    if t.len() >= 2 && spec_is_http_method(t[0]) {
        Some(t[0])
    } else {
        None
    }
}

/// The name of a section header `[Name]` whose name is ASCII letters only.
pub open spec fn section_of_line(l: Seq<char>) -> Option<Seq<char>> {
    if l.len() >= 2 && l[0] == '[' && l.last() == ']' {
        let name = l.subrange(1, l.len() - 1);
        if name.len() > 0 && forall|k: int| 0 <= k < name.len() ==> is_ascii_alpha(#[trigger] name[k]) {
            Some(name)
        } else {
            None
        }
    } else {
        None
    }
}

/// A variable name: non-empty, ASCII letters, digits, `_` and `-`.
pub open spec fn spec_is_identifier(n: Seq<char>) -> bool {
    n.len() > 0 && forall|k: int| 0 <= k < n.len() ==> ident_char(#[trigger] n[k])
}

pub open spec fn ident_char(c: char) -> bool {
    is_ascii_alnum(c) || c == '_' || c == '-'
}

/// `{{name}}` placeholders of `s` from index `off` on, as (start, end, trimmed name),
/// in character indices; empty names are skipped.
pub open spec fn placeholders_from(s: Seq<char>, off: int) -> Seq<(int, int, Seq<char>)>
    decreases s.len() + 1 - off,
{
    if off < 0 || off > s.len() {
        Seq::empty()
    } else {
        match find_from(s, "{{"@, off) {
            None => Seq::empty(),
            Some(st) => match find_from(s, "}}"@, st + 2) {
                None => Seq::empty(),
                Some(ce) => {
                    proof {
                        reveal_strlit("{{");
                        reveal_strlit("}}");
                        lemma_find_from_found(s, "{{"@, off);
                        lemma_find_from_found(s, "}}"@, st + 2);
                    }
                    let name = trim(s.subrange(st + 2, ce));
                    let rest = placeholders_from(s, ce + 2);
                    if name.len() > 0 {
                        seq![(st, ce + 2, name)] + rest
                    } else {
                        rest
                    }
                },
            },
        }
    }
}

/// Placeholders come in order, each within the text and after `off`, none overlapping.
pub proof fn lemma_placeholders_ordered(s: Seq<char>, off: int)
    requires
        0 <= off,
    ensures
        forall|k: int|
            0 <= k < placeholders_from(s, off).len() ==> off <= (#[trigger] placeholders_from(s, off)[k]).0
                && placeholders_from(s, off)[k].0 < placeholders_from(s, off)[k].1
                && placeholders_from(s, off)[k].1 <= s.len(),
        forall|i: int, j: int|
            0 <= i < j < placeholders_from(s, off).len() ==> (#[trigger] placeholders_from(s, off)[i]).1
                <= (#[trigger] placeholders_from(s, off)[j]).0,
    decreases s.len() + 1 - off,
{
    if off <= s.len() {
        match find_from(s, "{{"@, off) {
            None => {},
            Some(st) => match find_from(s, "}}"@, st + 2) {
                None => {},
                Some(ce) => {
                    reveal_strlit("{{");
                    reveal_strlit("}}");
                    lemma_find_from_found(s, "{{"@, off);
                    lemma_find_from_found(s, "}}"@, st + 2);
                    lemma_placeholders_ordered(s, ce + 2);
                    let rest = placeholders_from(s, ce + 2);
                    let ps = placeholders_from(s, off);
                    let name = trim(s.subrange(st + 2, ce));
                    if name.len() > 0 {
                        assert(ps == seq![(st, ce + 2, name)] + rest);
                        assert forall|k: int| 0 <= k < ps.len() implies off <= (#[trigger] ps[k]).0 && ps[k].0 < ps[k].1
                            && ps[k].1 <= s.len() by {
                            if k > 0 {
                                assert(ps[k] == rest[k - 1]);
                            }
                        }
                        assert forall|i: int, j: int| 0 <= i < j < ps.len() implies (#[trigger] ps[i]).1 <= (#[trigger] ps[j]).0 by {
                            assert(ps[j] == rest[j - 1]);
                            if i > 0 {
                                assert(ps[i] == rest[i - 1]);
                            }
                        }
                    } else {
                        assert(ps == rest);
                    }
                },
            },
        }
    }
}

proof fn lemma_placeholders_shape(s: Seq<char>, off: int)
    requires
        0 <= off,
    ensures
        forall|k: int| 0 <= k < placeholders_from(s, off).len() ==> {
            let p = #[trigger] placeholders_from(s, off)[k];
            &&& p.0 + 4 <= p.1
            &&& occurs_at(s, "{{"@, p.0)
            &&& occurs_at(s, "}}"@, p.1 - 2)
            &&& p.2 == trim(s.subrange(p.0 + 2, p.1 - 2))
            &&& p.2.len() > 0
            &&& !contains(s.subrange(p.0 + 2, p.1 - 2), "}}"@)
        },
    decreases s.len() + 1 - off,
{
    if off <= s.len() {
        match find_from(s, "{{"@, off) {
            None => {},
            Some(st) => match find_from(s, "}}"@, st + 2) {
                None => {},
                Some(ce) => {
                    reveal_strlit("{{");
                    reveal_strlit("}}");
                    lemma_find_from_found(s, "{{"@, off);
                    lemma_find_from_found(s, "}}"@, st + 2);
                    lemma_placeholders_shape(s, ce + 2);
                    let rest = placeholders_from(s, ce + 2);
                    let ps = placeholders_from(s, off);
                    let name = trim(s.subrange(st + 2, ce));
                    let inner = s.subrange(st + 2, ce);
                    assert(!contains(inner, "}}"@)) by {
                        if contains(inner, "}}"@) {
                            lemma_find_from_found(inner, "}}"@, 0);
                            let m = find_from(inner, "}}"@, 0).unwrap();
                            assert(s.subrange(st + 2 + m, st + 2 + m + 2) =~= inner.subrange(m, m + 2));
                            assert(occurs_at(s, "}}"@, st + 2 + m));
                        }
                    }
                    if name.len() > 0 {
                        assert(ps == seq![(st, ce + 2, name)] + rest);
                        assert forall|k: int| 0 <= k < ps.len() implies {
                            let p = #[trigger] ps[k];
                            &&& p.0 + 4 <= p.1
                            &&& occurs_at(s, "{{"@, p.0)
                            &&& occurs_at(s, "}}"@, p.1 - 2)
                            &&& p.2 == trim(s.subrange(p.0 + 2, p.1 - 2))
                            &&& p.2.len() > 0
                            &&& !contains(s.subrange(p.0 + 2, p.1 - 2), "}}"@)
                        } by {
                            if k > 0 {
                                assert(ps[k] == rest[k - 1]);
                            }
                        }
                    } else {
                        assert(ps == rest);
                    }
                },
            },
        }
    }
}

/// Each placeholder found on a line is `{{`, a text without `}}` whose trimmed form is its
/// (not blank) name, and `}}`, at the place it is reported, in characters; they come in
/// order and do not overlap.
pub proof fn law_placeholders_delimited(s: Seq<char>)
    ensures
        forall|k: int| 0 <= k < placeholders_from(s, 0).len() ==> {
            let p = #[trigger] placeholders_from(s, 0)[k];
            &&& 0 <= p.0
            &&& p.0 + 4 <= p.1 <= s.len()
            &&& occurs_at(s, "{{"@, p.0)
            &&& occurs_at(s, "}}"@, p.1 - 2)
            &&& p.2 == trim(s.subrange(p.0 + 2, p.1 - 2))
            &&& p.2.len() > 0
            &&& !contains(s.subrange(p.0 + 2, p.1 - 2), "}}"@)
        },
        forall|i: int, j: int|
            0 <= i < j < placeholders_from(s, 0).len() ==> (#[trigger] placeholders_from(s, 0)[i]).1
                <= (#[trigger] placeholders_from(s, 0)[j]).0,
{
    lemma_placeholders_ordered(s, 0);
    lemma_placeholders_shape(s, 0);
}

proof fn lemma_two_ascii(c: char)
    requires
        c <= '\u{7f}',
    ensures
        encode_utf8(seq![c, c]).len() == 2,
{
    let t = seq![c, c];
    assert(t.drop_first() =~= seq![c]);
    assert(t.drop_first().drop_first() =~= Seq::<char>::empty());
    crate::text::lemma_encode_one(c);
}

proof fn lemma_placeholder_bytes_at(s: Seq<char>, p: (int, int, Seq<char>))
    requires
        0 <= p.0,
        p.0 + 4 <= p.1 <= s.len(),
        occurs_at(s, "{{"@, p.0),
        occurs_at(s, "}}"@, p.1 - 2),
    ensures
        ({
            let b = encode_utf8(s);
            let r0 = blen(s.take(p.0)) as int;
            let r1 = blen(s.take(p.1)) as int;
            &&& r0 + 4 <= r1 <= b.len()
            &&& b.subrange(r0, r0 + 2) == encode_utf8("{{"@)
            &&& b.subrange(r1 - 2, r1) == encode_utf8("}}"@)
            &&& b.subrange(r0 + 2, r1 - 2) == encode_utf8(s.subrange(p.0 + 2, p.1 - 2))
        }),
{
    reveal_strlit("{{");
    reveal_strlit("}}");
    let a = s.take(p.0);
    let o = s.subrange(p.0, p.0 + 2);
    let c = s.subrange(p.0 + 2, p.1 - 2);
    let e = s.subrange(p.1 - 2, p.1);
    let f = s.skip(p.1);
    assert(o == "{{"@);
    assert(e == "}}"@);
    assert(o =~= seq!['{', '{']);
    assert(e =~= seq!['}', '}']);
    lemma_two_ascii('{');
    lemma_two_ascii('}');
    crate::text::lemma_encode_utf8_concat(a, o);
    crate::text::lemma_encode_utf8_concat(a + o, c);
    crate::text::lemma_encode_utf8_concat(a + o + c, e);
    crate::text::lemma_encode_utf8_concat(a + o + c + e, f);
    assert(s.take(p.1) =~= a + o + c + e);
    assert(s =~= a + o + c + e + f);
    let ea = encode_utf8(a);
    let eo = encode_utf8(o);
    let ec = encode_utf8(c);
    let ee = encode_utf8(e);
    let ef = encode_utf8(f);
    let b = encode_utf8(s);
    assert(b == ea + eo + ec + ee + ef);
    let la = ea.len() as int;
    let lc = ec.len() as int;
    assert(b.subrange(la, la + 2) =~= eo);
    assert(b.subrange(la + 2 + lc, la + 4 + lc) =~= ee);
    assert(b.subrange(la + 2, la + 2 + lc) =~= ec);
}

/// The placeholders as `variable_placeholders` reports them, in bytes: each spans the
/// bytes of `{{`, then those of a text without `}}` whose trimmed form is its (not blank)
/// name, then those of `}}`; they come in order and do not overlap.
pub proof fn law_placeholder_bytes(s: Seq<char>)
    ensures
        forall|k: int| 0 <= k < placeholders(s).len() ==> {
            let r = #[trigger] placeholders(s)[k];
            let p = placeholders_from(s, 0)[k];
            let b = encode_utf8(s);
            let inner = s.subrange(p.0 + 2, p.1 - 2);
            &&& 0 <= r.0
            &&& r.0 + 4 <= r.1 <= b.len()
            &&& b.subrange(r.0, r.0 + 2) == encode_utf8("{{"@)
            &&& b.subrange(r.1 - 2, r.1) == encode_utf8("}}"@)
            &&& b.subrange(r.0 + 2, r.1 - 2) == encode_utf8(inner)
            &&& r.2 == trim(inner)
            &&& r.2.len() > 0
            &&& !contains(inner, "}}"@)
        },
        forall|i: int, j: int|
            0 <= i < j < placeholders(s).len() ==> (#[trigger] placeholders(s)[i]).1 <= (#[trigger] placeholders(s)[j]).0,
{
    law_placeholders_delimited(s);
    let ps = placeholders_from(s, 0);
    assert forall|k: int| 0 <= k < placeholders(s).len() implies {
        let r = #[trigger] placeholders(s)[k];
        let p = placeholders_from(s, 0)[k];
        let b = encode_utf8(s);
        let inner = s.subrange(p.0 + 2, p.1 - 2);
        &&& 0 <= r.0
        &&& r.0 + 4 <= r.1 <= b.len()
        &&& b.subrange(r.0, r.0 + 2) == encode_utf8("{{"@)
        &&& b.subrange(r.1 - 2, r.1) == encode_utf8("}}"@)
        &&& b.subrange(r.0 + 2, r.1 - 2) == encode_utf8(inner)
        &&& r.2 == trim(inner)
        &&& r.2.len() > 0
        &&& !contains(inner, "}}"@)
    } by {
        let p = ps[k];
        assert(placeholders(s)[k] == (blen(s.take(p.0)) as int, blen(s.take(p.1)) as int, p.2));
        lemma_placeholder_bytes_at(s, p);
    }
    assert forall|i: int, j: int| 0 <= i < j < placeholders(s).len() implies (#[trigger] placeholders(s)[i]).1 <= (
    #[trigger] placeholders(s)[j]).0 by {
        let pi = ps[i];
        let pj = ps[j];
        assert(pi.1 <= pj.0);
        lemma_blen_subrange(s, pi.1, pj.0);
        assert(s.subrange(0, pi.1) =~= s.take(pi.1));
        assert(s.subrange(0, pj.0) =~= s.take(pj.0));
    }
}

/// Placeholders of a line, with byte offsets as `variable_placeholders` reports them.
pub open spec fn placeholders(s: Seq<char>) -> Seq<(int, int, Seq<char>)> {
    placeholders_from(s, 0).map_values(
        |p: (int, int, Seq<char>)| (blen(s.take(p.0)) as int, blen(s.take(p.1)) as int, p.2),
    )
}

/// The name that a line of a `[Captures]` section defines: the trimmed text
/// before its first `:`, when that is an identifier (comments and blank lines define none).
pub open spec fn capture_name(t: Seq<char>) -> Option<Seq<char>> {
    if t.len() == 0 || t[0] == '#' {
        None
    } else {
        let c = next_char(t, 0, ':');
        if c >= t.len() {
            None
        } else {
            let n = trim(t.subrange(0, c));
            if spec_is_identifier(n) {
                Some(n)
            } else {
                None
            }
        }
    }
}

/// What a scan of the lines of a document has seen so far.
pub struct ScanState {
    pub visible: Set<Seq<char>>,
    pub current: Set<Seq<char>>,
    pub in_captures: bool,
}

/// One line of the scan: a request line publishes the captures of the request
/// before it; a section header opens or closes a `[Captures]` section; a capture
/// line adds its name to the current request's captures.
pub open spec fn scan_step(st: ScanState, raw: Seq<char>) -> ScanState {
    let t = trim(raw);
    if method_of_line(t) is Some {
        ScanState { visible: st.visible.union(st.current), current: Set::empty(), in_captures: false }
    } else if section_of_line(t) is Some {
        ScanState { in_captures: section_of_line(t).unwrap() == "Captures"@, ..st }
    } else if st.in_captures && capture_name(t) is Some {
        ScanState { current: st.current.insert(capture_name(t).unwrap()), ..st }
    } else {
        st
    }
}

/// The scan over the first `n` lines.
pub open spec fn scan(ls: Seq<Seq<char>>, n: int) -> ScanState
    decreases n,
{
    if n <= 0 {
        ScanState { visible: builtin_variables(), current: Set::empty(), in_captures: false }
    } else {
        scan_step(scan(ls, n - 1), ls[n - 1])
    }
}

/// The variables visible at line `target`: the built-ins and the captures of the
/// requests before it, plus those of the request just before when `target` starts a request.
pub open spec fn visible_at(text: Seq<char>, target: int) -> Set<Seq<char>> {
    let ls = lines(text);
    let n = if target < ls.len() { target } else { ls.len() as int };
    let st = scan(ls, n);
    if target < ls.len() && method_of_line(trim(ls[target])) is Some {
        st.visible.union(st.current)
    } else {
        st.visible
    }
}

proof fn lemma_scan_visible_grows(ls: Seq<Seq<char>>, a: int, b: int)
    requires
        0 <= a <= b,
    ensures
        scan(ls, a).visible.subset_of(scan(ls, b).visible),
    decreases b - a,
{
    if a < b {
        lemma_scan_visible_grows(ls, a, b - 1);
    }
}

/// What is visible stays visible: a variable visible at a line is visible at every
/// later line, and the built-in variables are visible everywhere.
pub proof fn law_visible_variables_grow(text: Seq<char>, t1: int, t2: int)
    requires
        0 <= t1 <= t2,
    ensures
        visible_at(text, t1).subset_of(visible_at(text, t2)),
        builtin_variables().subset_of(visible_at(text, t1)),
{
    let ls = lines(text);
    let n1 = if t1 < ls.len() { t1 } else { ls.len() as int };
    let n2 = if t2 < ls.len() { t2 } else { ls.len() as int };
    lemma_scan_visible_grows(ls, 0, n1);
    if t1 < ls.len() && method_of_line(trim(ls[t1])) is Some && t1 < t2 {
        lemma_scan_visible_grows(ls, t1 + 1, n2);
        assert(scan(ls, t1 + 1).visible == scan(ls, t1).visible.union(scan(ls, t1).current));
    } else {
        lemma_scan_visible_grows(ls, n1, n2);
    }
}

/// One capture definition: (line, first column, end column, name).
pub open spec fn capture_def(idx: int, raw: Seq<char>, name: Seq<char>) -> (int, int, int, Seq<char>) {
    let lead = skip_class(raw, 0, true);
    (idx, lead, lead + blen(name), name)
}

/// Capture definitions among the first `n` lines, with the `[Captures]` flag after them.
pub open spec fn defs_scan(ls: Seq<Seq<char>>, n: int) -> (bool, Seq<(int, int, int, Seq<char>)>)
    decreases n,
{
    if n <= 0 {
        (false, Seq::empty())
    } else {
        let (in_c, defs) = defs_scan(ls, n - 1);
        let raw = ls[n - 1];
        let t = trim(raw);
        if method_of_line(t) is Some {
            (false, defs)
        } else if section_of_line(t) is Some {
            (section_of_line(t).unwrap() == "Captures"@, defs)
        } else if in_c && capture_name(t) is Some {
            (in_c, defs.push(capture_def(n - 1, raw, capture_name(t).unwrap())))
        } else {
            (in_c, defs)
        }
    }
}

/// Equality with a string literal.
pub fn eq_lit(s: &[char], lit: &str) -> (r: bool)
    ensures
        r == (s@ == lit@),
{
    let l = chars_of(lit);
    eq_exec(s, l.as_slice())
}

pub fn is_http_method_chars(m: &[char]) -> (r: bool)
    ensures
        r == spec_is_http_method(m@),
{
    eq_lit(m, "GET") || eq_lit(m, "HEAD") || eq_lit(m, "POST") || eq_lit(m, "PUT")
        || eq_lit(m, "DELETE") || eq_lit(m, "CONNECT") || eq_lit(m, "OPTIONS")
        || eq_lit(m, "TRACE") || eq_lit(m, "PATCH")
}

/// Whether `method` is one of the HTTP methods of a Hurl request.
pub fn is_http_method(method: &str) -> (r: bool)
    ensures
        r == spec_is_http_method(method@),
{
    let m = chars_of(method);
    is_http_method_chars(m.as_slice())
}

/// Range of the method token of a request line.
pub fn method_range(l: &[char]) -> (r: Option<(usize, usize)>)
    ensures
        r is Some <==> method_of_line(l@) is Some,
        r matches Some(p) ==> p.0 <= p.1 <= l@.len() && method_of_line(l@) == Some(l@.subrange(p.0 as int, p.1 as int)),
{
    let t = token_ranges(l);
    if t.len() < 2 {
        return None;
    }
    let (a, b) = t[0];
    assert(ranged(l@, t@)[0] == l@.subrange(a as int, b as int));
    if is_http_method_chars(&l[a..b]) {
        Some((a, b))
    } else {
        None
    }
}

/// The method of a request line (`GET /path` gives `GET`).
pub fn method_from_line(line: &str) -> (r: Option<String>)
    ensures
        r is Some <==> method_of_line(line@) is Some,
        r matches Some(m) ==> method_of_line(line@) == Some(m@),
{
    let l = chars_of(line);
    match method_range(l.as_slice()) {
        Some((a, b)) => Some(string_of(&l.as_slice()[a..b])),
        None => None,
    }
}

/// Range of the name of a section header within the line.
pub fn section_range(l: &[char]) -> (r: Option<(usize, usize)>)
    ensures
        r is Some <==> section_of_line(l@) is Some,
        r matches Some(p) ==> p.0 <= p.1 <= l@.len() && section_of_line(l@) == Some(l@.subrange(p.0 as int, p.1 as int)),
{
    let n = l.len();
    if n < 2 || l[0] != '[' || l[n - 1] != ']' {
        return None;
    }
    if n == 2 {
        return None;
    }
    let mut k: usize = 1;
    while k < n - 1
        invariant
            1 <= k <= n - 1,
            n == l@.len(),
            forall|j: int| 1 <= j < k ==> is_ascii_alpha(#[trigger] l@[j]),
        decreases n - k,
    {
        if !is_alpha(l[k]) {
            assert(l@.subrange(1, n - 1)[k - 1] == l@[k as int]);
            return None;
        }
        k = k + 1;
    }
    assert forall|j: int| 0 <= j < l@.subrange(1, n - 1).len() implies is_ascii_alpha(#[trigger] l@.subrange(1, n - 1)[j]) by {
        assert(l@.subrange(1, n - 1)[j] == l@[j + 1]);
    }
    Some((1, n - 1))
}

/// The name of a section header line (`[Asserts]` gives `Asserts`).
pub fn section_name_from_line(line: &str) -> (r: Option<String>)
    ensures
        r is Some <==> section_of_line(line@) is Some,
        r matches Some(m) ==> section_of_line(line@) == Some(m@),
{
    let l = chars_of(line);
    match section_range(l.as_slice()) {
        Some((a, b)) => Some(string_of(&l.as_slice()[a..b])),
        None => None,
    }
}

pub fn is_known_section_chars(n: &[char]) -> (r: bool)
    ensures
        r == spec_is_known_section(n@),
{
    eq_lit(n, "Asserts") || eq_lit(n, "BasicAuth") || eq_lit(n, "Captures") || eq_lit(n, "Cookies")
        || eq_lit(n, "Form") || eq_lit(n, "FormParams") || eq_lit(n, "Headers")
        || eq_lit(n, "Multipart") || eq_lit(n, "MultipartFormData") || eq_lit(n, "Options")
        || eq_lit(n, "Query") || eq_lit(n, "QueryStringParams")
        || eq_lit(n, "QueryStringParameters")
}

/// Whether `name` is a section that Hurl knows.
pub fn is_known_section(name: &str) -> (r: bool)
    ensures
        r == spec_is_known_section(name@),
{
    let n = chars_of(name);
    is_known_section_chars(n.as_slice())
}

/// The header text of a section (`Asserts` gives `[Asserts]`).
pub fn section_label(name: &str) -> (r: String)
    ensures
        r@ == seq!['['] + name@ + seq![']'],
{
    let mut v: Vec<char> = Vec::new();
    v.push('[');
    push_str(&mut v, name);
    v.push(']');
    assert(v@ =~= seq!['['] + name@ + seq![']']);
    string_of(v.as_slice())
}

/// The canonical name of a section, shared by its aliases.
pub fn canonical_section_chars(n: &[char]) -> (r: Vec<char>)
    ensures
        r@ == spec_canonical_section(n@),
{
    if eq_lit(n, "Query") || eq_lit(n, "QueryStringParams") || eq_lit(n, "QueryStringParameters") {
        chars_of("QueryStringParams")
    } else if eq_lit(n, "Form") || eq_lit(n, "FormParams") {
        chars_of("FormParams")
    } else if eq_lit(n, "Multipart") || eq_lit(n, "MultipartFormData") {
        chars_of("MultipartFormData")
    } else {
        to_vec(n)
    }
}

/// The name under which a section and its aliases count as the same section.
pub fn canonical_section_name(name: &str) -> (r: String)
    ensures
        r@ == spec_canonical_section(name@),
{
    let n = chars_of(name);
    let c = canonical_section_chars(n.as_slice());
    string_of(c.as_slice())
}

pub fn is_identifier_chars(n: &[char]) -> (r: bool)
    ensures
        r == spec_is_identifier(n@),
{
    if n.len() == 0 {
        return false;
    }
    let mut k: usize = 0;
    while k < n.len()
        invariant
            k <= n@.len(),
            forall|j: int| 0 <= j < k ==> ident_char(#[trigger] n@[j]),
        decreases n@.len() - k,
    {
        if !(is_alnum(n[k]) || n[k] == '_' || n[k] == '-') {
            return false;
        }
        k = k + 1;
    }
    true
}

/// Whether `name` can name a variable.
pub fn is_identifier(name: &str) -> (r: bool)
    ensures
        r == spec_is_identifier(name@),
{
    let n = chars_of(name);
    is_identifier_chars(n.as_slice())
}

/// Extends a strictly sorted vector with the contents of another.
pub fn extend_sorted(dst: &mut Vec<Vec<char>>, src: &Vec<Vec<char>>)
    requires
        strictly_sorted(seqs(old(dst)@)),
    ensures
        strictly_sorted(seqs(final(dst)@)),
        seqs(final(dst)@).to_set() == seqs(old(dst)@).to_set().union(seqs(src@).to_set()),
{
    let mut k: usize = 0;
    while k < src.len()
        invariant
            k <= src@.len(),
            strictly_sorted(seqs(dst@)),
            seqs(dst@).to_set() == seqs(old(dst)@).to_set().union(seqs(src@).take(k as int).to_set()),
        decreases src@.len() - k,
    {
        let x = to_vec(src[k].as_slice());
        insert_sorted(dst, x);
        proof {
            assert(seqs(src@).take(k + 1) =~= seqs(src@).take(k as int).push(src@[k as int]@));
            lemma_push_to_set(seqs(src@).take(k as int), src@[k as int]@);
        }
        k = k + 1;
        assert(seqs(dst@).to_set() =~= seqs(old(dst)@).to_set().union(seqs(src@).take(k as int).to_set()));
    }
    assert(seqs(src@).take(k as int) =~= seqs(src@));
}

/// Range, within a trimmed capture line, of the name that it defines.
pub fn capture_name_range(t: &[char]) -> (r: Option<(usize, usize)>)
    ensures
        r is Some <==> capture_name(t@) is Some,
        r matches Some(p) ==> p.0 <= p.1 <= t@.len() && capture_name(t@) == Some(t@.subrange(p.0 as int, p.1 as int)),
{
    if t.len() == 0 || t[0] == '#' {
        return None;
    }
    let c = next_char_exec(t, 0, ':');
    if c >= t.len() {
        return None;
    }
    let head = &t[0..c];
    let (a, b) = trim_range(head);
    if is_identifier_chars(&head[a..b]) {
        assert(head@.subrange(a as int, b as int) =~= t@.subrange(a as int, b as int));
        Some((a, b))
    } else {
        None
    }
}

/// Placeholders of a line as (start, end, name start, name end) character indices.
pub open spec fn placeholder_view(l: Seq<char>, r: Seq<(usize, usize, usize, usize)>) -> Seq<(int, int, Seq<char>)> {
    r.map_values(|q: (usize, usize, usize, usize)| (q.0 as int, q.1 as int, l.subrange(q.2 as int, q.3 as int)))
}

pub open spec fn placeholder_bounds(l: Seq<char>, r: Seq<(usize, usize, usize, usize)>) -> bool {
    forall|k: int| 0 <= k < r.len() ==> #[trigger] r[k].0 <= r[k].2 && r[k].2 <= r[k].3 && r[k].3 <= r[k].1 && r[k].1 <= l.len()
}

/// The `{{name}}` placeholders of a line, in character indices.
pub fn placeholder_ranges(l: &[char]) -> (r: Vec<(usize, usize, usize, usize)>)
    ensures
        placeholder_bounds(l@, r@),
        placeholder_view(l@, r@) == placeholders_from(l@, 0),
{
    let open = chars_of("{{");
    let close = chars_of("}}");
    proof {
        reveal_strlit("{{");
        reveal_strlit("}}");
    }
    let mut out: Vec<(usize, usize, usize, usize)> = Vec::new();
    let mut off: usize = 0;
    let n = l.len();
    loop
        invariant
            off <= l@.len(),
            n == l@.len(),
            open@ == "{{"@,
            close@ == "}}"@,
            open@.len() == 2,
            close@.len() == 2,
            placeholder_bounds(l@, out@),
            placeholders_from(l@, 0) == placeholder_view(l@, out@) + placeholders_from(l@, off as int),
        decreases l@.len() - off,
    {
        let st = match find_from_exec(l, open.as_slice(), off) {
            Some(st) => st,
            None => {
                assert(placeholder_view(l@, out@) + placeholders_from(l@, off as int) =~= placeholder_view(l@, out@));
                return out;
            },
        };
        proof {
            lemma_find_from_found(l@, open@, off as int);
        }
        let ce = match find_from_exec(l, close.as_slice(), st + 2) {
            Some(ce) => ce,
            None => {
                assert(placeholder_view(l@, out@) + placeholders_from(l@, off as int) =~= placeholder_view(l@, out@));
                return out;
            },
        };
        proof {
            lemma_find_from_found(l@, close@, st + 2);
        }
        let inner = &l[st + 2..ce];
        let (a, b) = trim_range(inner);
        let ghost old_out = out@;
        if a < b {
            out.push((st, ce + 2, st + 2 + a, st + 2 + b));
            proof {
                assert(inner@.subrange(a as int, b as int) =~= l@.subrange(st + 2 + a, st + 2 + b));
                assert(placeholder_view(l@, out@) =~= placeholder_view(l@, old_out).push((st as int, ce + 2, trim(inner@))));
                assert(placeholder_view(l@, out@) + placeholders_from(l@, ce + 2) =~= placeholder_view(l@, old_out)
                    + placeholders_from(l@, off as int));
            }
        }
        off = ce + 2;
    }
}

/// The `{{name}}` placeholders of a line: (byte start, byte end, trimmed name).
pub fn variable_placeholders(line: &str) -> (r: Vec<(usize, usize, String)>)
    ensures
        r@.len() == placeholders(line@).len(),
        forall|k: int| 0 <= k < r@.len() ==> (#[trigger] r@[k].0 as int, r@[k].1 as int, r@[k].2@) == placeholders(line@)[k],
{
    let l = chars_of(line);
    let p = placeholder_ranges(l.as_slice());
    let mut out: Vec<(usize, usize, String)> = Vec::new();
    let mut k: usize = 0;
    while k < p.len()
        invariant
            k <= p@.len(),
            blen(l@) <= usize::MAX,
            placeholder_bounds(l@, p@),
            placeholder_view(l@, p@) == placeholders_from(l@, 0),
            out@.len() == k,
            forall|j: int| 0 <= j < k ==> (#[trigger] out@[j].0 as int, out@[j].1 as int, out@[j].2@) == placeholders(l@)[j],
        decreases p@.len() - k,
    {
        let (st, en, a, b) = p[k];
        proof {
            lemma_blen_subrange(l@, 0, st as int);
            lemma_blen_subrange(l@, 0, en as int);
            assert(l@.subrange(0, st as int) =~= l@.take(st as int));
            assert(l@.subrange(0, en as int) =~= l@.take(en as int));
        }
        let bs = byte_offset(l.as_slice(), st);
        let be = byte_offset(l.as_slice(), en);
        let name = string_of(&l.as_slice()[a..b]);
        out.push((bs, be, name));
        k = k + 1;
    }
    out
}

pub open spec fn cdefs_view(d: Seq<(usize, usize, usize, Vec<char>)>) -> Seq<(int, int, int, Seq<char>)> {
    d.map_values(|x: (usize, usize, usize, Vec<char>)| (x.0 as int, x.1 as int, x.2 as int, x.3@))
}

pub open spec fn defs_view(d: Seq<(usize, usize, usize, String)>) -> Seq<(int, int, int, Seq<char>)> {
    d.map_values(|x: (usize, usize, usize, String)| (x.0 as int, x.1 as int, x.2 as int, x.3@))
}

/// The lines of `text` are the given ranges.
pub open spec fn lines_are(text: Seq<char>, lr: Seq<(usize, usize)>) -> bool {
    ranges_within(text, lr) && ranged(text, lr) == lines(text)
}

/// A strictly sorted vector holding the built-in variables.
fn builtin_vec() -> (r: Vec<Vec<char>>)
    ensures
        strictly_sorted(seqs(r@)),
        seqs(r@).to_set() == builtin_variables(),
{
    let mut r: Vec<Vec<char>> = Vec::new();
    assert(seqs(r@).to_set() =~= Set::<Seq<char>>::empty());
    let a = chars_of("newUuid");
    insert_sorted(&mut r, a);
    let b = chars_of("newDate");
    insert_sorted(&mut r, b);
    assert(seqs(r@).to_set() =~= builtin_variables());
    r
}

/// The state of the scan, held in vectors.
pub open spec fn holds_scan(visible: Seq<Vec<char>>, current: Seq<Vec<char>>, in_c: bool, st: ScanState) -> bool {
    &&& strictly_sorted(seqs(visible))
    &&& strictly_sorted(seqs(current))
    &&& seqs(visible).to_set() == st.visible
    &&& seqs(current).to_set() == st.current
    &&& in_c == st.in_captures
}

/// The variables visible at line `target` of the document with lines `lr`,
/// in the order of `str`.
pub fn visible_before(text: &[char], lr: &[(usize, usize)], target: usize) -> (r: Vec<Vec<char>>)
    requires
        lines_are(text@, lr@),
    ensures
        strictly_sorted(seqs(r@)),
        seqs(r@).to_set() == visible_at(text@, target as int),
{
    let ghost ls = lines(text@);
    let n = if target < lr.len() { target } else { lr.len() };
    let mut visible = builtin_vec();
    let mut current: Vec<Vec<char>> = Vec::new();
    let mut in_c = false;
    assert(seqs(current@).to_set() =~= Set::<Seq<char>>::empty());
    let mut idx: usize = 0;
    while idx < n
        invariant
            idx <= n <= lr@.len(),
            lines_are(text@, lr@),
            ls == lines(text@),
            holds_scan(visible@, current@, in_c, scan(ls, idx as int)),
        decreases n - idx,
    {
        let (la, lb) = lr[idx];
        let line = &text[la..lb];
        assert(line@ == ls[idx as int]);
        let (ta, tb) = trim_range(line);
        let t = &line[ta..tb];
        if method_range(t).is_some() {
            extend_sorted(&mut visible, &current);
            current = Vec::new();
            in_c = false;
            assert(seqs(current@).to_set() =~= Set::<Seq<char>>::empty());
        } else if let Some((a, b)) = section_range(t) {
            in_c = eq_lit(&t[a..b], "Captures");
        } else if in_c {
            if let Some((a, b)) = capture_name_range(t) {
                let name = to_vec(&t[a..b]);
                insert_sorted(&mut current, name);
            }
        }
        idx = idx + 1;
    }
    if target < lr.len() {
        let (la, lb) = lr[target];
        let line = &text[la..lb];
        assert(line@ == ls[target as int]);
        let (ta, tb) = trim_range(line);
        if method_range(&line[ta..tb]).is_some() {
            extend_sorted(&mut visible, &current);
        }
    }
    visible
}

/// The variables visible at line `target_line` of `text`, in the order of `str`:
/// the built-in ones and the captures of the requests before that line.
pub fn visible_variables_before_line(text: &str, target_line: usize) -> (r: Vec<String>)
    ensures
        strictly_sorted(strs(r@)),
        strs(r@).to_set() == visible_at(text@, target_line as int),
{
    let t = chars_of(text);
    let lr = line_ranges(t.as_slice());
    let v = visible_before(t.as_slice(), lr.as_slice(), target_line);
    let mut out: Vec<String> = Vec::new();
    let mut k: usize = 0;
    while k < v.len()
        invariant
            k <= v@.len(),
            out@.len() == k,
            strs(out@) == seqs(v@).take(k as int),
        decreases v@.len() - k,
    {
        let s = string_of(v[k].as_slice());
        let ghost old_out = out@;
        out.push(s);
        proof {
            assert(out@ == old_out.push(s));
            assert forall|j: int| 0 <= j < k + 1 implies #[trigger] strs(out@)[j] == seqs(v@).take(k + 1)[j] by {
                if j < k {
                    assert(out@[j] == old_out[j]);
                }
            }
        }
        k = k + 1;
        assert(strs(out@) =~= seqs(v@).take(k as int));
    }
    assert(seqs(v@).take(k as int) =~= seqs(v@));
    out
}

/// The capture definitions among the first `n` lines of the document with lines `lr`.
pub fn capture_defs(text: &[char], lr: &[(usize, usize)], target: usize) -> (r: Vec<(usize, usize, usize, Vec<char>)>)
    requires
        lines_are(text@, lr@),
        blen(text@) <= usize::MAX,
    ensures
        cdefs_view(r@)
            == defs_scan(lines(text@), if target < lr@.len() { target as int } else { lr@.len() as int }).1,
{
    let ghost ls = lines(text@);
    let n = if target < lr.len() { target } else { lr.len() };
    let mut defs: Vec<(usize, usize, usize, Vec<char>)> = Vec::new();
    let mut in_c = false;
    let mut idx: usize = 0;
    while idx < n
        invariant
            idx <= n <= lr@.len(),
            lines_are(text@, lr@),
            blen(text@) <= usize::MAX,
            ls == lines(text@),
            (in_c, cdefs_view(defs@))
                == defs_scan(ls, idx as int),
        decreases n - idx,
    {
        let (la, lb) = lr[idx];
        let line = &text[la..lb];
        assert(line@ == ls[idx as int]);
        let (ta, tb) = trim_range(line);
        let t = &line[ta..tb];
        if method_range(t).is_some() {
            in_c = false;
        } else if let Some((a, b)) = section_range(t) {
            in_c = eq_lit(&t[a..b], "Captures");
        } else if in_c {
            if let Some((a, b)) = capture_name_range(t) {
                let lead = skip_class_exec(line, 0, true);
                let name = to_vec(&t[a..b]);
                proof {
                    lemma_skip_class_bounds(line@, 0, true);
                    lemma_blen_subrange(text@, la as int, lb as int);
                    assert(line@ == text@.subrange(la as int, lb as int));
                    lemma_blen_subrange(line@, 0, ta + a);
                    lemma_blen_subrange(line@, ta + a, ta + b);
                    lemma_blen_subrange(line@, 0, ta + b);
                    assert(line@.subrange(ta + a, ta + b) =~= name@);
                    lemma_blen_at_least_len(line@.subrange(0, ta + a));
                }
                let w = byte_offset(name.as_slice(), name.len());
                assert(name@.take(name@.len() as int) =~= name@);
                let ghost old_defs = defs@;
                defs.push((idx, lead, lead + w, name));
                assert(cdefs_view(defs@)
                    =~= cdefs_view(old_defs)
                        .push(capture_def(idx as int, line@, t@.subrange(a as int, b as int))));
            }
        }
        idx = idx + 1;
    }
    defs
}

/// The capture definitions of the lines before line `n` of a document.
pub open spec fn captures_before(text: Seq<char>, n: int) -> Seq<(int, int, int, Seq<char>)> {
    let ls = lines(text);
    defs_scan(ls, if n < ls.len() { n } else { ls.len() as int }).1
}

proof fn lemma_defs_scan(ls: Seq<Seq<char>>, n: int)
    requires
        0 <= n,
    ensures
        forall|k: int| 0 <= k < defs_scan(ls, n).1.len() ==> (#[trigger] defs_scan(ls, n).1[k]).0 < n,
        forall|i: int, j: int|
            0 <= i < j < defs_scan(ls, n).1.len() ==> (#[trigger] defs_scan(ls, n).1[i]).0 < (
            #[trigger] defs_scan(ls, n).1[j]).0,
        forall|k: int| 0 <= k < defs_scan(ls, n).1.len() ==> {
            let d = #[trigger] defs_scan(ls, n).1[k];
            &&& spec_is_identifier(d.3)
            &&& d.2 == d.1 + blen(d.3)
        },
        defs_scan(ls, n).1.is_prefix_of(defs_scan(ls, n + 1).1),
    decreases n,
{
    if n > 0 {
        lemma_defs_scan(ls, n - 1);
    }
    let a = defs_scan(ls, n).1;
    let b = defs_scan(ls, n + 1).1;
    assert(b == a || b == a.push(b.last()));
    assert(a.is_prefix_of(b)) by {
        if b != a {
            assert(b.take(a.len() as int) =~= a);
        }
    }
}

/// The capture definitions before a line come in document order, one per line at most
/// and each on an earlier line, each names an identifier and spans its name; and those
/// before a line are the first of those before the next line.
pub proof fn law_capture_definitions_ordered(text: Seq<char>, n: int)
    requires
        0 <= n,
    ensures
        forall|k: int| 0 <= k < captures_before(text, n).len() ==> (#[trigger] captures_before(text, n)[k]).0 < n,
        forall|i: int, j: int|
            0 <= i < j < captures_before(text, n).len() ==> (#[trigger] captures_before(text, n)[i]).0 < (
            #[trigger] captures_before(text, n)[j]).0,
        forall|k: int| 0 <= k < captures_before(text, n).len() ==> {
            let d = #[trigger] captures_before(text, n)[k];
            &&& spec_is_identifier(d.3)
            &&& d.2 == d.1 + blen(d.3)
        },
        captures_before(text, n).is_prefix_of(captures_before(text, n + 1)),
{
    let ls = lines(text);
    let m = if n < ls.len() { n } else { ls.len() as int };
    lemma_defs_scan(ls, m);
    if n >= ls.len() {
        assert(captures_before(text, n + 1) == captures_before(text, n));
        assert(captures_before(text, n).take(captures_before(text, n).len() as int) =~= captures_before(text, n));
    }
}

/// The names that a list of capture definitions defines.
pub open spec fn capture_names(d: Seq<(int, int, int, Seq<char>)>) -> Set<Seq<char>> {
    Set::new(|x: Seq<char>| exists|k: int| 0 <= k < d.len() && (#[trigger] d[k]).3 == x)
}

proof fn lemma_scan_matches_defs(ls: Seq<Seq<char>>, n: int)
    requires
        0 <= n,
    ensures
        scan(ls, n).in_captures == defs_scan(ls, n).0,
        scan(ls, n).visible.union(scan(ls, n).current).subset_of(
            builtin_variables().union(capture_names(defs_scan(ls, n).1)),
        ),
    decreases n,
{
    if n > 0 {
        lemma_scan_matches_defs(ls, n - 1);
        let st = scan(ls, n - 1);
        let d0 = defs_scan(ls, n - 1).1;
        let d1 = defs_scan(ls, n).1;
        let bound = builtin_variables().union(capture_names(d1));
        assert(d1 == d0 || d1 == d0.push(d1.last()));
        assert(capture_names(d0).subset_of(capture_names(d1))) by {
            assert forall|x: Seq<char>| capture_names(d0).contains(x) implies capture_names(d1).contains(x) by {
                let k = choose|k: int| 0 <= k < d0.len() && (#[trigger] d0[k]).3 == x;
                assert(d1[k] == d0[k]);
            }
        }
        let t = trim(ls[n - 1]);
        if method_of_line(t) is None && section_of_line(t) is None && st.in_captures && capture_name(t) is Some {
            let name = capture_name(t).unwrap();
            assert(d1[d0.len() as int].3 == name);
            assert(capture_names(d1).contains(name));
        }
        let st1 = scan(ls, n);
        assert forall|x: Seq<char>| st1.visible.union(st1.current).contains(x) implies bound.contains(x) by {
            if st.visible.union(st.current).contains(x) {
                assert(builtin_variables().union(capture_names(d0)).contains(x));
            }
        }
    } else {
        let st0 = scan(ls, 0);
        assert(st0.visible.union(st0.current) =~= builtin_variables());
    }
}

/// Only built-in variables and names that capture lines before a line define are
/// visible at that line: a capture on that line or a later one never is.
pub proof fn law_visible_only_earlier_captures(text: Seq<char>, n: int)
    requires
        0 <= n,
    ensures
        visible_at(text, n).subset_of(builtin_variables().union(capture_names(captures_before(text, n)))),
{
    let ls = lines(text);
    let m = if n < ls.len() { n } else { ls.len() as int };
    lemma_scan_matches_defs(ls, m);
}

/// The capture definitions before line `target_line`: (line, first column in
/// characters, that column plus the name's length in bytes, name).
pub fn capture_definitions_before_line(text: &str, target_line: usize) -> (r: Vec<(usize, usize, usize, String)>)
    ensures
        defs_view(r@) == captures_before(text@, target_line as int),
{
    let t = chars_of(text);
    let lr = line_ranges(t.as_slice());
    let d = capture_defs(t.as_slice(), lr.as_slice(), target_line);
    let mut out: Vec<(usize, usize, usize, String)> = Vec::new();
    let mut k: usize = 0;
    while k < d.len()
        invariant
            k <= d@.len(),
            out@.len() == k,
            defs_view(out@)
                == cdefs_view(d@).take(k as int),
        decreases d@.len() - k,
    {
        let (a, b, c, ref name) = d[k];
        let s = string_of(name.as_slice());
        let ghost old_out = out@;
        out.push((a, b, c, s));
        proof {
            assert forall|j: int| 0 <= j < k + 1 implies
                #[trigger] defs_view(out@)[j]
                == cdefs_view(d@).take(k + 1)[j] by {
                if j < k {
                    assert(out@[j] == old_out[j]);
                }
            }
        }
        k = k + 1;
        assert(defs_view(out@)
            =~= cdefs_view(d@).take(k as int));
    }
    assert(cdefs_view(d@).take(k as int)
        =~= cdefs_view(d@));
    out
}

} // verus!
