//! Go to definition: from a `{{name}}` placeholder to the capture that defines it.
use vstd::prelude::*;
use crate::lsp::{pos, position, range, Position, Range};
use crate::syntax::{eq_lit, lines_are, placeholders};
use crate::text::{
    blen, byte_offset, chars_of, eq_exec, lemma_blen_subrange, lemma_skip_class_bounds, line_ranges, lines,
    next_char, next_char_exec, skip_class, skip_class_exec, string_of, to_vec, trim, trim_range,
};

verus! {

/// A place in a document.
#[derive(Clone, Debug)]
pub struct Location {
    pub uri: String,
    pub range: Range,
}

/// The name of the placeholder of `line` whose byte range holds `ch`, the first such.
pub open spec fn placeholder_at(line: Seq<char>, ch: int) -> Option<Seq<char>> {
    let ps = placeholders(line);
    let hits = ps.filter(covers(ch));
    if hits.len() > 0 { Some(hits[0].2) } else { None }
}

pub open spec fn covers(ch: int) -> spec_fn((int, int, Seq<char>)) -> bool {
    |p: (int, int, Seq<char>)| ch >= p.0 && ch <= p.1
}

/// The variable at a position of a document.
pub open spec fn variable_at(text: Seq<char>, p: Position) -> Option<Seq<char>> {
    let ls = lines(text);
    if (p.line as int) < ls.len() { placeholder_at(ls[p.line as int], p.character as int) } else { None }
}

/// The name that a line inside a bracketed section defines before its first `:`.
pub open spec fn defined_name(t: Seq<char>) -> Option<Seq<char>> {
    let c = next_char(t, 0, ':');
    if t.len() == 0 || t[0] == '#' || c >= t.len() { None } else { Some(trim(t.subrange(0, c))) }
}

/// Scan for the definition of `v` in a `[Captures]` section among the first `n` lines:
/// (inside `[Captures]`, the span found).
pub open spec fn def_scan(ls: Seq<Seq<char>>, n: int, v: Seq<char>) -> (bool, Option<(int, int, int)>)
    decreases n,
{
    if n <= 0 {
        (false, None)
    } else {
        let (in_c, found) = def_scan(ls, n - 1, v);
        let raw = ls[n - 1];
        let t = trim(raw);
        if found is Some {
            (in_c, found)
        } else if t.len() > 0 && t[0] == '[' && t.last() == ']' {
            (t == "[Captures]"@, found)
        } else if in_c && defined_name(t) == Some(v) {
            let lead = skip_class(raw, 0, true);
            (in_c, Some((n - 1, lead, lead + blen(v))))
        } else {
            (in_c, found)
        }
    }
}

pub open spec fn definition_span(text: Seq<char>, v: Seq<char>) -> Option<(int, int, int)> {
    def_scan(lines(text), lines(text).len() as int, v).1
}

/// Where the variable under the cursor is captured.
pub open spec fn spec_definition(uri: Seq<char>, text: Seq<char>, p: Position) -> Option<(Seq<char>, Range)> {
    match variable_at(text, p) {
        None => None,
        Some(v) => match definition_span(text, v) {
            None => None,
            Some(s) => Some((uri, Range { start: pos(s.0 as u32, s.1 as u32), end: pos(s.0 as u32, s.2 as u32) })),
        },
    }
}

fn variable_at_position(text: &[char], lr: &[(usize, usize)], p: Position) -> (r: Option<Vec<char>>)
    requires
        lines_are(text@, lr@),
        blen(text@) <= usize::MAX,
    ensures
        r is Some <==> variable_at(text@, p) is Some,
        r matches Some(v) ==> variable_at(text@, p) == Some(v@),
{
    let li = p.line as usize;
    if li >= lr.len() {
        return None;
    }
    let (la, lb) = lr[li];
    let line = &text[la..lb];
    proof {
        lemma_blen_subrange(text@, la as int, lb as int);
    }
    let ph = crate::syntax::placeholder_ranges(line);
    let ghost ps = placeholders(line@);
    let ghost f = covers(p.character as int);
    let ch = p.character as usize;
    let mut k: usize = 0;
    while k < ph.len()
        invariant
            k <= ph@.len(),
            blen(line@) <= usize::MAX,
            crate::syntax::placeholder_bounds(line@, ph@),
            crate::syntax::placeholder_view(line@, ph@) == crate::syntax::placeholders_from(line@, 0),
            ps == placeholders(line@),
            ps.len() == ph@.len(),
            (p.line as int) < lines(text@).len(),
            line@ == lines(text@)[p.line as int],
            ch == p.character,
            f == covers(p.character as int),
            ps.take(k as int).filter(f).len() == 0,
        decreases ph@.len() - k,
    {
        let (st, en, a, b) = ph[k];
        proof {
            lemma_blen_subrange(line@, 0, st as int);
            lemma_blen_subrange(line@, 0, en as int);
            assert(line@.subrange(0, st as int) =~= line@.take(st as int));
            assert(line@.subrange(0, en as int) =~= line@.take(en as int));
            assert(ps.take(k + 1) =~= ps.take(k as int).push(ps[k as int]));
            ps.take(k as int).lemma_filter_push(ps[k as int], f);
        }
        let bs = byte_offset(line, st);
        let be = byte_offset(line, en);
        assert(ps[k as int] == (bs as int, be as int, line@.subrange(a as int, b as int)));
        if ch >= bs && ch <= be {
            proof {
                lemma_filter_prefix(ps, k + 1, f);
                assert(f(ps[k as int]));
                assert(ps.take(k + 1).filter(f) =~= seq![ps[k as int]]);
                assert(ps.take(k + 1).filter(f)[0] == ps[k as int]);
                assert(ps.filter(f)[0] == ps[k as int]);
                assert(placeholder_at(line@, p.character as int) == Some(ps[k as int].2));
            }
            return Some(to_vec(&line[a..b]));
        }
        k = k + 1;
    }
    assert(ps.take(k as int) =~= ps);
    None
}

/// The filter of a prefix is a prefix of the filter.
pub proof fn lemma_filter_prefix<A>(s: Seq<A>, k: int, f: spec_fn(A) -> bool)
    requires
        0 <= k <= s.len(),
    ensures
        s.take(k).filter(f).len() <= s.filter(f).len(),
        forall|i: int| 0 <= i < s.take(k).filter(f).len() ==> #[trigger] s.take(k).filter(f)[i] == s.filter(f)[i],
    decreases s.len() - k,
{
    if k < s.len() {
        lemma_filter_prefix(s, k + 1, f);
        assert(s.take(k + 1) =~= s.take(k).push(s[k]));
        s.take(k).lemma_filter_push(s[k], f);
        assert forall|i: int| 0 <= i < s.take(k).filter(f).len() implies #[trigger] s.take(k).filter(f)[i] == s.filter(f)[i] by {
            assert(s.take(k).filter(f)[i] == s.take(k + 1).filter(f)[i]);
        }
    } else {
        assert(s.take(k) =~= s);
    }
}

fn capture_definition_span(text: &[char], lr: &[(usize, usize)], v: &[char]) -> (r: Option<(usize, usize, usize)>)
    requires
        lines_are(text@, lr@),
        blen(text@) <= usize::MAX,
    ensures
        r is Some <==> definition_span(text@, v@) is Some,
        r matches Some(s) ==> definition_span(text@, v@) == Some((s.0 as int, s.1 as int, s.2 as int)),
{
    let ghost ls = lines(text@);
    let mut in_c = false;
    let mut idx: usize = 0;
    while idx < lr.len()
        invariant
            idx <= lr@.len(),
            lines_are(text@, lr@),
            blen(text@) <= usize::MAX,
            ls == lines(text@),
            def_scan(ls, idx as int, v@) == (in_c, None::<(int, int, int)>),
        decreases lr@.len() - idx,
    {
        let (la, lb) = lr[idx];
        let line = &text[la..lb];
        assert(line@ == ls[idx as int]);
        let (ta, tb) = trim_range(line);
        let t = &line[ta..tb];
        if t.len() > 0 && t[0] == '[' && t[t.len() - 1] == ']' {
            in_c = eq_lit(t, "[Captures]");
        } else if in_c && !(t.len() == 0 || t[0] == '#') {
            let c = next_char_exec(t, 0, ':');
            if c < t.len() {
                let (na, nb) = trim_range(&t[0..c]);
                if eq_exec(&t[0..c][na..nb], v) {
                    let lead = skip_class_exec(line, 0, true);
                    proof {
                        lemma_skip_class_bounds(line@, 0, true);
                        lemma_blen_subrange(text@, la as int, lb as int);
                        lemma_blen_subrange(line@, 0, ta + na);
                        lemma_blen_subrange(line@, ta + na, ta + nb);
                        lemma_blen_subrange(line@, 0, ta + nb);
                        assert(line@.subrange(ta + na, ta + nb) =~= v@);
                        crate::text::lemma_blen_at_least_len(line@.subrange(0, ta + na));
                        lemma_def_scan_found(ls, idx + 1, lr@.len() as int, v@);
                    }
                    let w = byte_offset(v, v.len());
                    assert(v@.take(v@.len() as int) =~= v@);
                    return Some((idx, lead, lead + w));
                }
            }
        }
        idx = idx + 1;
    }
    None
}

pub proof fn lemma_def_scan_found(ls: Seq<Seq<char>>, n: int, m: int, v: Seq<char>)
    requires
        0 <= n <= m,
        def_scan(ls, n, v).1 is Some,
    ensures
        def_scan(ls, m, v).1 == def_scan(ls, n, v).1,
    decreases m - n,
{
    if n < m {
        lemma_def_scan_found(ls, n, m - 1, v);
    }
}

/// Where the variable under the cursor is captured: the name in the first
/// `[Captures]` line that defines it.
pub fn definition(uri: &str, text: &str, p: Position) -> (r: Option<Location>)
    ensures
        r is Some <==> spec_definition(uri@, text@, p) is Some,
        r matches Some(l) ==> spec_definition(uri@, text@, p) == Some((l.uri@, l.range)),
{
    let t = chars_of(text);
    let lr = line_ranges(t.as_slice());
    let v = match variable_at_position(t.as_slice(), lr.as_slice(), p) {
        Some(v) => v,
        None => return None,
    };
    let (line, start, end) = match capture_definition_span(t.as_slice(), lr.as_slice(), v.as_slice()) {
        Some(s) => s,
        None => return None,
    };
    #[verifier::truncate]
    let l = line as u32;
    #[verifier::truncate]
    let s = start as u32;
    #[verifier::truncate]
    let e = end as u32;
    Some(Location { uri: uri.to_owned(), range: range(position(l, s), position(l, e)) })
}

} // verus!
