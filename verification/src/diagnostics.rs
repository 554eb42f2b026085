//! Requests of a document and the problems found in it.
use vstd::prelude::*;
use crate::lsp::{pos, position, range, DiagView, Diagnostic, DiagnosticSeverity, Range, diag_views};
use crate::syntax::{
    canonical_section_chars, eq_lit, is_http_method_chars, is_identifier_chars, is_known_section_chars,
    lines_are, method_of_line, placeholder_bounds, placeholder_ranges, placeholder_view, placeholders, placeholders_from,
    section_of_line, section_range, spec_canonical_section, spec_is_http_method, spec_is_identifier,
    spec_is_known_section, visible_at, visible_before,
};
use crate::text::{
    blen, byte_offset, chars_of, is_ascii_digit, is_ascii_upper, is_digit, is_upper, is_ws, lemma_blen_subrange,
    lex_less, lex_lt, line_ranges, lines, push_all, push_str, ranged, seqs, starts_with,
    skip_class, starts_with_exec, string_of, strictly_sorted, to_vec, token_ranges, tokens, tokens_from, trim,
    trim_range,
};

verus! {

/// A request line: its method, its path and its 0-based line.
#[derive(Clone, Debug, Default)]
pub struct Entry {
    pub method: String,
    pub path: String,
    pub line: u32,
}

/// The requests of a document, in order.
#[derive(Clone, Debug, Default)]
pub struct ParsedDocument {
    pub entries: Vec<Entry>,
}

pub open spec fn entry_view(e: Entry) -> (Seq<char>, Seq<char>, u32) {
    (e.method@, e.path@, e.line)
}

pub open spec fn entries_view(v: Seq<Entry>) -> Seq<(Seq<char>, Seq<char>, u32)> {
    v.map_values(|e: Entry| entry_view(e))
}

/// The request that line `idx` starts, if any: a line that is not blank, not a
/// comment, not a status line, and whose first of at least two tokens is a method.
pub open spec fn entry_of_line(raw: Seq<char>, idx: int) -> Option<(Seq<char>, Seq<char>, u32)> {
    let t = trim(raw);
    if t.len() == 0 || t[0] == '#' || starts_with(t, "HTTP "@) {
        None
    } else {
        let tk = tokens(t);
        if tk.len() >= 2 && spec_is_http_method(tk[0]) {
            Some((tk[0], tk[1], idx as u32))
        } else {
            None
        }
    }
}

/// The requests among the first `n` lines.
pub open spec fn entries_upto(ls: Seq<Seq<char>>, n: int) -> Seq<(Seq<char>, Seq<char>, u32)>
    decreases n,
{
    if n <= 0 {
        Seq::empty()
    } else {
        let prev = entries_upto(ls, n - 1);
        match entry_of_line(ls[n - 1], n - 1) {
            Some(e) => prev.push(e),
            None => prev,
        }
    }
}

/// The requests of a document.
pub open spec fn spec_entries(text: Seq<char>) -> Seq<(Seq<char>, Seq<char>, u32)> {
    entries_upto(lines(text), lines(text).len() as int)
}

/// The request that a line starts.
pub fn entry_at(line: &[char], idx: usize) -> (r: Option<Entry>)
    ensures
        r is Some <==> entry_of_line(line@, idx as int) is Some,
        r matches Some(e) ==> entry_of_line(line@, idx as int) == Some(entry_view(e)),
{
    let (a, b) = trim_range(line);
    let t = &line[a..b];
    let http = chars_of("HTTP ");
    if t.len() == 0 || t[0] == '#' || starts_with_exec(t, http.as_slice()) {
        return None;
    }
    let tk = token_ranges(t);
    if tk.len() < 2 {
        return None;
    }
    let (m0, m1) = tk[0];
    let (p0, p1) = tk[1];
    assert(ranged(t@, tk@)[0] == t@.subrange(m0 as int, m1 as int));
    assert(ranged(t@, tk@)[1] == t@.subrange(p0 as int, p1 as int));
    if is_http_method_chars(&t[m0..m1]) {
        Some(Entry { method: string_of(&t[m0..m1]), path: string_of(&t[p0..p1]), line: idx as u32 })
    } else {
        None
    }
}

/// The requests of the document with the given lines.
pub fn entries_of(text: &[char], lr: &[(usize, usize)]) -> (r: Vec<Entry>)
    requires
        lines_are(text@, lr@),
    ensures
        entries_view(r@) == spec_entries(text@),
{
    let ghost ls = lines(text@);
    let mut out: Vec<Entry> = Vec::new();
    let mut idx: usize = 0;
    while idx < lr.len()
        invariant
            idx <= lr@.len(),
            lines_are(text@, lr@),
            ls == lines(text@),
            entries_view(out@) == entries_upto(ls, idx as int),
        decreases lr@.len() - idx,
    {
        let (la, lb) = lr[idx];
        let line = &text[la..lb];
        assert(line@ == ls[idx as int]);
        let ghost old_out = out@;
        match entry_at(line, idx) {
            Some(e) => {
                out.push(e);
                assert(entries_view(out@) =~= entries_view(old_out).push(entries_upto(ls, idx + 1).last()));
            },
            None => {},
        }
        idx = idx + 1;
    }
    out
}

/// The requests of a Hurl document, in order.
pub fn parse_document(text: &str) -> (r: ParsedDocument)
    ensures
        entries_view(r.entries@) == spec_entries(text@),
{
    let t = chars_of(text);
    let lr = line_ranges(t.as_slice());
    ParsedDocument { entries: entries_of(t.as_slice(), lr.as_slice()) }
}

/// The indices of the lines among the first `n` that start a request, in order.
pub open spec fn request_lines(ls: Seq<Seq<char>>, n: int) -> Seq<int>
    decreases n,
{
    if n <= 0 {
        Seq::empty()
    } else {
        let prev = request_lines(ls, n - 1);
        if method_of_line(trim(ls[n - 1])) is Some {
            prev.push(n - 1)
        } else {
            prev
        }
    }
}

proof fn lemma_skip_class_stops(s: Seq<char>, i: int, ws: bool)
    ensures
        0 <= i && skip_class(s, i, ws) < s.len() ==> is_ws(s[skip_class(s, i, ws)]) != ws,
    decreases s.len() - i,
{
    if 0 <= i < s.len() && is_ws(s[i]) == ws {
        lemma_skip_class_stops(s, i + 1, ws);
    }
}

proof fn lemma_trim_starts_solid(s: Seq<char>)
    ensures
        trim(s).len() > 0 ==> !is_ws(trim(s)[0]),
{
    crate::text::lemma_skip_class_bounds(s, 0, true);
    lemma_skip_class_stops(s, 0, true);
    crate::text::lemma_back_ws_bounds(s, s.len() as int);
    let a = skip_class(s, 0, true);
    if trim(s).len() > 0 {
        assert(trim(s)[0] == s[a]);
    }
}

/// A line starts a request exactly when its trimmed text is a request line (an HTTP
/// method and a second token): comments, blank lines and status lines never are.
pub proof fn lemma_entry_is_method_line(raw: Seq<char>, idx: int)
    ensures
        entry_of_line(raw, idx) == match method_of_line(trim(raw)) {
            Some(m) => Some((m, tokens(trim(raw))[1], idx as u32)),
            None => None::<(Seq<char>, Seq<char>, u32)>,
        },
        trim(raw).len() > 0 && trim(raw)[0] == '#' ==> method_of_line(trim(raw)) is None,
{
    let t = trim(raw);
    lemma_trim_starts_solid(raw);
    reveal_strlit("GET");
    reveal_strlit("HEAD");
    reveal_strlit("POST");
    reveal_strlit("PUT");
    reveal_strlit("DELETE");
    reveal_strlit("CONNECT");
    reveal_strlit("OPTIONS");
    reveal_strlit("TRACE");
    reveal_strlit("PATCH");
    reveal_strlit("HTTP ");
    if t.len() > 0 {
        let e = skip_class(t, 1, false);
        crate::text::lemma_skip_class_bounds(t, 1, false);
        assert(tokens(t) == seq![t.subrange(0, e)] + tokens_from(t, e));
        let first = tokens(t)[0];
        assert(first == t.subrange(0, e));
        assert(first[0] == t[0]);
        if starts_with(t, "HTTP "@) {
            let h = t.take(5);
            assert(h == "HTTP "@);
            assert(t[1] == h[1] && t[2] == h[2] && t[3] == h[3] && t[4] == h[4]);
            assert(t[1] == 'T' && t[2] == 'T' && t[3] == 'P' && t[4] == ' ');
            crate::text::lemma_skip_class_run(t, 1, 4, false);
            assert(e == 4);
            assert(first.len() == 4 && first[1] == 'T');
            assert(!spec_is_http_method(first));
        }
        if t[0] == '#' {
            assert(!spec_is_http_method(first));
        }
    } else {
        assert(tokens(t) =~= Seq::<Seq<char>>::empty());
    }
}

proof fn lemma_entries_upto(ls: Seq<Seq<char>>, n: int)
    requires
        0 <= n,
    ensures
        ({
            let es = entries_upto(ls, n);
            let rl = request_lines(ls, n);
            &&& es.len() == rl.len()
            &&& forall|i: int| 0 <= i < rl.len() ==> 0 <= #[trigger] rl[i] < n && method_of_line(trim(ls[rl[i]])) is Some
                && es[i] == (method_of_line(trim(ls[rl[i]])).unwrap(), tokens(trim(ls[rl[i]]))[1], rl[i] as u32)
            &&& forall|i: int, j: int| 0 <= i < j < rl.len() ==> #[trigger] rl[i] < #[trigger] rl[j]
            &&& forall|l: int| 0 <= l < n && #[trigger] method_of_line(trim(ls[l])) is Some ==> rl.contains(l)
        }),
    decreases n,
{
    if n > 0 {
        lemma_entries_upto(ls, n - 1);
        lemma_entry_is_method_line(ls[n - 1], n - 1);
        let prev = request_lines(ls, n - 1);
        let rl = request_lines(ls, n);
        assert forall|l: int| 0 <= l < n && #[trigger] method_of_line(trim(ls[l])) is Some implies rl.contains(l) by {
            if l < n - 1 {
                let i = choose|i: int| 0 <= i < prev.len() && prev[i] == l;
                assert(rl[i] == prev[i]);
            } else {
                assert(rl[prev.len() as int] == l);
            }
        }
    }
}

/// The requests of a document are its request lines, each once, in line order: the
/// lines whose trimmed text starts with an HTTP method followed by a second token, each
/// giving that method, that second token and its line.
pub proof fn law_requests_are_request_lines(text: Seq<char>)
    ensures
        ({
            let ls = lines(text);
            let es = spec_entries(text);
            let rl = request_lines(ls, ls.len() as int);
            &&& es.len() == rl.len()
            &&& forall|i: int| 0 <= i < rl.len() ==> 0 <= #[trigger] rl[i] < ls.len() && method_of_line(trim(ls[rl[i]])) is Some
                && es[i] == (method_of_line(trim(ls[rl[i]])).unwrap(), tokens(trim(ls[rl[i]]))[1], rl[i] as u32)
            &&& forall|i: int, j: int| 0 <= i < j < rl.len() ==> #[trigger] rl[i] < #[trigger] rl[j]
            &&& forall|l: int| 0 <= l < ls.len() && #[trigger] method_of_line(trim(ls[l])) is Some ==> rl.contains(l)
        }),
{
    lemma_entries_upto(lines(text), lines(text).len() as int);
}

/// A syntax error that the Hurl parser reports: 1-based line and column, and its description.
#[derive(Clone, Debug)]
pub struct SyntaxError {
    pub line: usize,
    pub column: usize,
    pub description: String,
}

pub open spec fn sat_sub1(x: usize) -> usize {
    if x == 0 { 0 } else { (x - 1) as usize }
}

/// The diagnostic of a syntax error, on the character it points at.
pub open spec fn syntax_view(e: SyntaxError) -> DiagView {
    let l = sat_sub1(e.line) as u32;
    let c = sat_sub1(e.column) as u32;
    DiagView {
        range: Range { start: pos(l, c), end: pos(l, if c == u32::MAX { c } else { (c + 1) as u32 }) },
        severity: DiagnosticSeverity::Error,
        source: "hurl_core"@,
        message: e.description@,
    }
}

/// A status of a response line: `*` or three digits.
pub open spec fn valid_status(s: Seq<char>) -> bool {
    s == "*"@ || (s.len() == 3 && forall|k: int| 0 <= k < 3 ==> is_ascii_digit(#[trigger] s[k]))
}

/// A line that looks like a request line: not blank, not a comment, section, JSON
/// object or status line, and starting with a word of ASCII capitals.
pub open spec fn probable_method_line(t: Seq<char>) -> bool {
    &&& t.len() > 0
    &&& t[0] != '#'
    &&& section_of_line(t) is None
    &&& t[0] != '{'
    &&& !starts_with(t, "HTTP "@)
    &&& forall|k: int| 0 <= k < first_token(t).len() ==> is_ascii_upper(#[trigger] first_token(t)[k])
}

pub open spec fn first_token(t: Seq<char>) -> Seq<char> {
    if tokens(t).len() > 0 { tokens(t)[0] } else { Seq::empty() }
}

/// The status of a response line (`HTTP 200` gives `200`).
pub open spec fn status_of_line(t: Seq<char>) -> Option<Seq<char>> {
    if starts_with(t, "HTTP "@) && tokens(t.skip(5)).len() > 0 {
        Some(tokens(t.skip(5))[0])
    } else {
        None
    }
}

pub open spec fn line_view(l: u32, c0: u32, c1: u32, sev: DiagnosticSeverity, msg: Seq<char>) -> DiagView {
    DiagView { range: Range { start: pos(l, c0), end: pos(l, c1) }, severity: sev, source: "hurl-lsp"@, message: msg }
}

pub open spec fn section_label_of(n: Seq<char>) -> Seq<char> {
    seq!['['] + n + seq![']']
}

/// Section diagnostics of a line and the canonical sections seen after it.
pub open spec fn section_diags(idx: int, raw: Seq<char>, seen: Set<Seq<char>>) -> (Seq<DiagView>, Set<Seq<char>>) {
    let t = trim(raw);
    let l = idx as u32;
    let rl = blen(raw) as u32;
    match section_of_line(t) {
        None => (Seq::empty(), seen),
        Some(n) => {
            let label = section_label_of(n);
            let key = spec_canonical_section(n);
            let unknown: Seq<DiagView> = if spec_is_known_section(n) { Seq::empty() } else {
                seq![line_view(l, 0, rl, DiagnosticSeverity::Error, "Unknown section `"@ + label + "`"@)]
            };
            let dup: Seq<DiagView> = if seen.contains(key) {
                seq![line_view(l, 0, rl, DiagnosticSeverity::Warning, "Duplicate section `"@ + label + "`"@)]
            } else { Seq::empty() };
            (unknown + dup, seen.insert(key))
        },
    }
}

/// Method diagnostics of a line and the sections seen after it (a valid request line
/// starts a new request).
pub open spec fn method_diags(idx: int, raw: Seq<char>, seen: Set<Seq<char>>) -> (Seq<DiagView>, Set<Seq<char>>) {
    let t = trim(raw);
    if probable_method_line(t) {
        let m = first_token(t);
        if spec_is_http_method(m) {
            (Seq::empty(), Set::empty())
        } else {
            (seq![line_view(idx as u32, 0, blen(m) as u32, DiagnosticSeverity::Error,
                "Unknown HTTP method `"@ + m + "`"@)], seen)
        }
    } else {
        (Seq::empty(), seen)
    }
}

pub open spec fn status_diags(idx: int, raw: Seq<char>) -> Seq<DiagView> {
    match status_of_line(trim(raw)) {
        Some(s) => if valid_status(s) { Seq::empty() } else {
            seq![line_view(idx as u32, 0, blen(raw) as u32, DiagnosticSeverity::Error,
                "Invalid HTTP status code `"@ + s + "`"@)]
        },
        None => Seq::empty(),
    }
}

pub open spec fn undefined_view(idx: int, p: (int, int, Seq<char>)) -> DiagView {
    line_view(idx as u32, p.0 as u32, p.1 as u32, DiagnosticSeverity::Warning,
        "Undefined variable `{{"@ + p.2 + "}}`"@)
}

/// Warnings for the placeholders of a line that name no visible variable.
pub open spec fn undefined_diags(text: Seq<char>, idx: int, raw: Seq<char>) -> Seq<DiagView> {
    let t = trim(raw);
    if t.len() > 0 && t[0] == '#' {
        Seq::empty()
    } else {
        placeholders(raw).filter(|p: (int, int, Seq<char>)| spec_is_identifier(p.2) && !visible_at(text, idx).contains(p.2))
            .map_values(|p: (int, int, Seq<char>)| undefined_view(idx, p))
    }
}

/// All diagnostics of one line, in the order they are found, and the sections seen after it.
pub open spec fn line_diags(text: Seq<char>, idx: int, raw: Seq<char>, seen: Set<Seq<char>>) -> (Seq<DiagView>, Set<Seq<char>>) {
    let (d1, s1) = section_diags(idx, raw, seen);
    let (d2, s2) = method_diags(idx, raw, s1);
    (d1 + d2 + status_diags(idx, raw) + undefined_diags(text, idx, raw), s2)
}

/// The diagnostics of the first `n` lines, in the order they are found.
pub open spec fn raw_scan(text: Seq<char>, n: int) -> (Seq<DiagView>, Set<Seq<char>>)
    decreases n,
{
    if n <= 0 {
        (Seq::empty(), Set::empty())
    } else {
        let (d, seen) = raw_scan(text, n - 1);
        let (d2, seen2) = line_diags(text, n - 1, lines(text)[n - 1], seen);
        (d + d2, seen2)
    }
}

pub open spec fn raw_diags(text: Seq<char>, err: Option<SyntaxError>) -> Seq<DiagView> {
    let found = raw_scan(text, lines(text).len() as int).0;
    match err {
        Some(e) => seq![syntax_view(e)] + found,
        None => found,
    }
}

/// Order of diagnostics: by line, then column, then message.
pub open spec fn key_le(a: DiagView, b: DiagView) -> bool {
    ||| a.range.start.line < b.range.start.line
    ||| (a.range.start.line == b.range.start.line && a.range.start.character < b.range.start.character)
    ||| (a.range.start.line == b.range.start.line && a.range.start.character == b.range.start.character
        && !lex_lt(b.message, a.message))
}

/// Inserting into a sorted sequence after every element that does not come after `d`.
pub open spec fn insert_stable(s: Seq<DiagView>, d: DiagView) -> Seq<DiagView>
    decreases s.len(),
{
    if s.len() == 0 {
        seq![d]
    } else if key_le(s.last(), d) {
        s.push(d)
    } else {
        insert_stable(s.drop_last(), d).push(s.last())
    }
}

/// Stable sort by position and message.
pub open spec fn sort_stable(s: Seq<DiagView>) -> Seq<DiagView>
    decreases s.len(),
{
    if s.len() == 0 {
        Seq::empty()
    } else {
        insert_stable(sort_stable(s.drop_last()), s.last())
    }
}

/// Two diagnostics that say the same thing at the same place.
pub open spec fn same_diag(a: DiagView, b: DiagView) -> bool {
    a.range == b.range && a.message == b.message && a.severity == b.severity
}

/// Drops each diagnostic that repeats the one kept just before it.
pub open spec fn dedup(s: Seq<DiagView>) -> Seq<DiagView>
    decreases s.len(),
{
    if s.len() == 0 {
        Seq::empty()
    } else {
        let r = dedup(s.drop_last());
        if r.len() > 0 && same_diag(s.last(), r.last()) { r } else { r.push(s.last()) }
    }
}

/// The diagnostics of a document.
pub open spec fn spec_diagnostics(text: Seq<char>, err: Option<SyntaxError>) -> Seq<DiagView> {
    dedup(sort_stable(raw_diags(text, err)))
}

fn is_valid_status(s: &[char]) -> (r: bool)
    ensures
        r == valid_status(s@),
{
    if eq_lit(s, "*") {
        return true;
    }
    s.len() == 3 && is_digit(s[0]) && is_digit(s[1]) && is_digit(s[2])
}

fn is_probable_method_line(t: &[char]) -> (r: bool)
    ensures
        r == probable_method_line(t@),
{
    let http = chars_of("HTTP ");
    if t.len() == 0 || t[0] == '#' || section_range(t).is_some() || t[0] == '{' || starts_with_exec(t, http.as_slice()) {
        return false;
    }
    let tk = token_ranges(t);
    if tk.len() == 0 {
        return true;
    }
    let (a, b) = tk[0];
    assert(ranged(t@, tk@)[0] == t@.subrange(a as int, b as int));
    let mut k = a;
    while k < b
        invariant
            a <= k <= b <= t@.len(),
            first_token(t@) == t@.subrange(a as int, b as int),
            forall|j: int| a <= j < k ==> is_ascii_upper(#[trigger] t@[j]),
        decreases b - k,
    {
        if !is_upper(t[k]) {
            assert(!is_ascii_upper(first_token(t@)[k - a]));
            return false;
        }
        k = k + 1;
    }
    assert forall|j: int| 0 <= j < first_token(t@).len() implies is_ascii_upper(#[trigger] first_token(t@)[j]) by {
        assert(first_token(t@)[j] == t@[a + j]);
    }
    true
}

fn message_of(prefix: &str, body: &[char], suffix: &str) -> (r: String)
    ensures
        r@ == prefix@ + body@ + suffix@,
{
    let mut v: Vec<char> = Vec::new();
    push_str(&mut v, prefix);
    push_all(&mut v, body);
    push_str(&mut v, suffix);
    string_of(v.as_slice())
}

fn line_diag(l: u32, c0: u32, c1: u32, sev: DiagnosticSeverity, msg: String) -> (d: Diagnostic)
    ensures
        d@ == line_view(l, c0, c1, sev, msg@),
{
    Diagnostic { range: range(position(l, c0), position(l, c1)), severity: sev, source: "hurl-lsp".to_owned(), message: msg }
}

fn contains_seq(v: &Vec<Vec<char>>, x: &[char]) -> (r: bool)
    ensures
        r == seqs(v@).contains(x@),
{
    let mut k: usize = 0;
    while k < v.len()
        invariant
            k <= v@.len(),
            forall|j: int| 0 <= j < k ==> seqs(v@)[j] != x@,
        decreases v@.len() - k,
    {
        if crate::text::eq_exec(v[k].as_slice(), x) {
            assert(seqs(v@)[k as int] == x@);
            return true;
        }
        k = k + 1;
    }
    false
}

pub open spec fn undefined_pred(text: Seq<char>, idx: int) -> spec_fn((int, int, Seq<char>)) -> bool {
    |p: (int, int, Seq<char>)| spec_is_identifier(p.2) && !visible_at(text, idx).contains(p.2)
}

/// Appends the undefined-variable warnings of a line.
fn push_undefined(text: &[char], lr: &[(usize, usize)], idx: usize, line: &[char], out: &mut Vec<Diagnostic>)
    requires
        lines_are(text@, lr@),
        idx < lr@.len(),
        blen(line@) <= usize::MAX,
    ensures
        diag_views(final(out)@) == diag_views(old(out)@)
            + placeholders(line@).filter(undefined_pred(text@, idx as int))
                .map_values(|p: (int, int, Seq<char>)| undefined_view(idx as int, p)),
{
    let known = visible_before(text, lr, idx);
    let p = placeholder_ranges(line);
    let ghost ph = placeholders(line@);
    let ghost pred = undefined_pred(text@, idx as int);
    let mut k: usize = 0;
    while k < p.len()
        invariant
            k <= p@.len(),
            blen(line@) <= usize::MAX,
            placeholder_bounds(line@, p@),
            placeholder_view(line@, p@) == placeholders_from(line@, 0),
            ph == placeholders(line@),
            ph.len() == p@.len(),
            pred == undefined_pred(text@, idx as int),
            strictly_sorted(seqs(known@)),
            seqs(known@).to_set() == visible_at(text@, idx as int),
            diag_views(out@) == diag_views(old(out)@)
                + ph.take(k as int).filter(pred).map_values(|q: (int, int, Seq<char>)| undefined_view(idx as int, q)),
        decreases p@.len() - k,
    {
        let (st, en, a, b) = p[k];
        let name = &line[a..b];
        proof {
            assert(ph.take(k + 1) =~= ph.take(k as int).push(ph[k as int]));
            ph.take(k as int).lemma_filter_push(ph[k as int], pred);
            lemma_blen_subrange(line@, 0, st as int);
            lemma_blen_subrange(line@, 0, en as int);
            assert(line@.subrange(0, st as int) =~= line@.take(st as int));
            assert(line@.subrange(0, en as int) =~= line@.take(en as int));
        }
        let bs = byte_offset(line, st);
        let be = byte_offset(line, en);
        assert(ph[k as int] == (bs as int, be as int, name@));
        let ghost old_out = out@;
        if is_identifier_chars(name) && !contains_seq(&known, name) {
            proof {
                assert(seqs(known@).to_set().contains(name@) == seqs(known@).contains(name@));
            }
            let msg = message_of("Undefined variable `{{", name, "}}`");
            out.push(line_diag(idx as u32, bs as u32, be as u32, DiagnosticSeverity::Warning, msg));
            assert(diag_views(out@) =~= diag_views(old_out).push(undefined_view(idx as int, ph[k as int])));
        } else {
            proof {
                assert(seqs(known@).to_set().contains(name@) == seqs(known@).contains(name@));
            }
        }
        k = k + 1;
        assert(diag_views(out@) =~= diag_views(old(out)@)
            + ph.take(k as int).filter(pred).map_values(|q: (int, int, Seq<char>)| undefined_view(idx as int, q)));
    }
    assert(ph.take(k as int) =~= ph);
}

/// Appends the diagnostics of line `idx` and updates the sections seen in the request.
#[verifier::rlimit(40)]
fn push_line_diags(text: &[char], lr: &[(usize, usize)], idx: usize, seen: &mut Vec<Vec<char>>, out: &mut Vec<Diagnostic>)
    requires
        lines_are(text@, lr@),
        idx < lr@.len(),
        blen(text@) <= usize::MAX,
    ensures
        diag_views(final(out)@) == diag_views(old(out)@)
            + line_diags(text@, idx as int, lines(text@)[idx as int], seqs(old(seen)@).to_set()).0,
        seqs(final(seen)@).to_set() == line_diags(text@, idx as int, lines(text@)[idx as int], seqs(old(seen)@).to_set()).1,
{
    let (la, lb) = lr[idx];
    let line = &text[la..lb];
    let ghost raw = lines(text@)[idx as int];
    assert(line@ == raw);
    proof {
        lemma_blen_subrange(text@, la as int, lb as int);
    }
    let ghost seen0 = seqs(seen@).to_set();
    let ghost out0 = diag_views(out@);
    let rl = byte_offset(line, line.len()) as u32;
    assert(line@.take(line@.len() as int) =~= line@);
    let (ta, tb) = trim_range(line);
    let t = &line[ta..tb];
    let l = idx as u32;
    if let Some((a, b)) = section_range(t) {
        let name = &t[a..b];
        let mut label: Vec<char> = Vec::new();
        label.push('[');
        push_all(&mut label, name);
        label.push(']');
        assert(label@ =~= section_label_of(name@));
        let key = canonical_section_chars(name);
        if !is_known_section_chars(name) {
            let msg = message_of("Unknown section `", label.as_slice(), "`");
            out.push(line_diag(l, 0, rl, DiagnosticSeverity::Error, msg));
        }
        let dup = contains_seq(seen, key.as_slice());
        if dup {
            let msg = message_of("Duplicate section `", label.as_slice(), "`");
            out.push(line_diag(l, 0, rl, DiagnosticSeverity::Warning, msg));
        } else {
            let ghost before = seen@;
            seen.push(key);
            proof {
                assert(seqs(seen@) =~= seqs(before).push(spec_canonical_section(name@)));
                crate::text::lemma_push_to_set(seqs(before), spec_canonical_section(name@));
            }
        }
        proof {
            let sd = section_diags(idx as int, raw, seen0);
            assert(diag_views(out@) =~= out0 + sd.0);
            if dup {
                assert(seen0.insert(spec_canonical_section(name@)) =~= seen0);
            }
        }
    } else {
        assert(diag_views(out@) =~= out0 + section_diags(idx as int, raw, seen0).0);
    }
    let ghost seen1 = seqs(seen@).to_set();
    let ghost out1 = diag_views(out@);
    if is_probable_method_line(t) {
        let tk = token_ranges(t);
        let (ma, mb) = if tk.len() > 0 { tk[0] } else { (0, 0) };
        assert(tk@.len() > 0 ==> ranged(t@, tk@)[0] == t@.subrange(ma as int, mb as int));
        let m = &t[ma..mb];
        assert(m@ =~= first_token(t@));
        if is_http_method_chars(m) {
            *seen = Vec::new();
            assert(seqs(seen@).to_set() =~= Set::<Seq<char>>::empty());
        } else {
            proof {
                lemma_blen_subrange(line@, ta + ma, ta + mb);
                assert(line@.subrange(ta + ma, ta + mb) =~= m@);
            }
            let mw = byte_offset(m, m.len());
            assert(m@.take(m@.len() as int) =~= m@);
            let msg = message_of("Unknown HTTP method `", m, "`");
            out.push(line_diag(l, 0, mw as u32, DiagnosticSeverity::Error, msg));
        }
    }
    assert(diag_views(out@) =~= out1 + method_diags(idx as int, raw, seen1).0);
    assert(seqs(seen@).to_set() == method_diags(idx as int, raw, seen1).1);
    let ghost out2 = diag_views(out@);
    let http = chars_of("HTTP ");
    proof {
        reveal_strlit("HTTP ");
    }
    if starts_with_exec(t, http.as_slice()) {
        let rest = &t[5..t.len()];
        assert(rest@ =~= t@.skip(5));
        let tk = token_ranges(rest);
        if tk.len() > 0 {
            let (sa, sb) = tk[0];
            assert(ranged(rest@, tk@)[0] == rest@.subrange(sa as int, sb as int));
            let st = &rest[sa..sb];
            if !is_valid_status(st) {
                let msg = message_of("Invalid HTTP status code `", st, "`");
                out.push(line_diag(l, 0, rl, DiagnosticSeverity::Error, msg));
            }
        }
    }
    assert(diag_views(out@) =~= out2 + status_diags(idx as int, raw));
    let ghost out3 = diag_views(out@);
    if t.len() > 0 && t[0] == '#' {
        assert(diag_views(out@) =~= out3 + undefined_diags(text@, idx as int, raw));
    } else {
        push_undefined(text, lr, idx, line, out);
    }
}

/// Ordered by position and message.
pub open spec fn diags_sorted(s: Seq<DiagView>) -> bool {
    forall|i: int, j: int| 0 <= i < j < s.len() ==> key_le(#[trigger] s[i], #[trigger] s[j])
}

pub proof fn lemma_key_total(a: DiagView, b: DiagView)
    ensures
        key_le(a, b) || key_le(b, a),
{
    crate::text::lemma_lex_total(a.message, b.message);
}

pub proof fn lemma_key_transitive(a: DiagView, b: DiagView, c: DiagView)
    requires
        key_le(a, b),
        key_le(b, c),
    ensures
        key_le(a, c),
{
    crate::text::lemma_lex_total(a.message, b.message);
    crate::text::lemma_lex_total(b.message, c.message);
    crate::text::lemma_lex_total(a.message, c.message);
    if lex_lt(c.message, a.message) && a.range.start == b.range.start && b.range.start == c.range.start {
        if a.message != b.message && b.message != c.message {
            crate::text::lemma_lex_transitive(a.message, b.message, c.message);
        }
    }
}

pub proof fn lemma_insert_stable_sorted(s: Seq<DiagView>, d: DiagView)
    requires
        diags_sorted(s),
    ensures
        diags_sorted(insert_stable(s, d)),
        insert_stable(s, d).len() == s.len() + 1,
        forall|k: int| 0 <= k < insert_stable(s, d).len() ==> #[trigger] insert_stable(s, d)[k] == d
            || s.contains(insert_stable(s, d)[k]),
    decreases s.len(),
{
    if s.len() == 0 {
    } else if key_le(s.last(), d) {
        let r = s.push(d);
        assert forall|i: int, j: int| 0 <= i < j < r.len() implies key_le(#[trigger] r[i], #[trigger] r[j]) by {
            if j == s.len() && i < s.len() - 1 {
                lemma_key_transitive(s[i], s.last(), d);
            }
        }
        assert forall|k: int| 0 <= k < r.len() implies #[trigger] r[k] == d || s.contains(r[k]) by {
            if k < s.len() {
                assert(s[k] == r[k]);
            }
        }
    } else {
        let t = s.drop_last();
        lemma_insert_stable_sorted(t, d);
        let it = insert_stable(t, d);
        let r = it.push(s.last());
        lemma_key_total(s.last(), d);
        assert forall|k: int| 0 <= k < it.len() implies key_le(#[trigger] it[k], s.last()) by {
            if it[k] != d {
                assert(t.contains(it[k]));
                let m = choose|m: int| 0 <= m < t.len() && t[m] == it[k];
                assert(s[m] == t[m]);
            }
        }
        assert forall|i: int, j: int| 0 <= i < j < r.len() implies key_le(#[trigger] r[i], #[trigger] r[j]) by {
            if j < it.len() {
                assert(r[i] == it[i] && r[j] == it[j]);
            } else {
                assert(r[i] == it[i]);
            }
        }
        assert forall|k: int| 0 <= k < r.len() implies #[trigger] r[k] == d || s.contains(r[k]) by {
            if k < it.len() {
                assert(r[k] == it[k]);
                if it[k] != d {
                    let m = choose|m: int| 0 <= m < t.len() && t[m] == it[k];
                    assert(s[m] == t[m]);
                }
            } else {
                assert(s[s.len() - 1] == r[k]);
            }
        }
    }
}

pub proof fn lemma_sort_stable_sorted(s: Seq<DiagView>)
    ensures
        diags_sorted(sort_stable(s)),
    decreases s.len(),
{
    if s.len() > 0 {
        lemma_sort_stable_sorted(s.drop_last());
        lemma_insert_stable_sorted(sort_stable(s.drop_last()), s.last());
    }
}

pub proof fn lemma_dedup_sorted(s: Seq<DiagView>)
    requires
        diags_sorted(s),
    ensures
        diags_sorted(dedup(s)),
        forall|k: int| 0 <= k < dedup(s).len() ==> s.contains(#[trigger] dedup(s)[k]),
        forall|k: int| 0 <= k < dedup(s).len() - 1 ==> !same_diag(#[trigger] dedup(s)[k], dedup(s)[k + 1]),
    decreases s.len(),
{
    if s.len() > 0 {
        let t = s.drop_last();
        assert(diags_sorted(t)) by {
            assert forall|i: int, j: int| 0 <= i < j < t.len() implies key_le(#[trigger] t[i], #[trigger] t[j]) by {
                assert(t[i] == s[i] && t[j] == s[j]);
            }
        }
        lemma_dedup_sorted(t);
        let r = dedup(t);
        assert forall|k: int| 0 <= k < r.len() implies key_le(#[trigger] r[k], s.last()) && s.contains(r[k]) by {
            let m = choose|m: int| 0 <= m < t.len() && t[m] == r[k];
            assert(s[m] == t[m]);
        }
        if !(r.len() > 0 && same_diag(s.last(), r.last())) {
            let q = r.push(s.last());
            assert forall|i: int, j: int| 0 <= i < j < q.len() implies key_le(#[trigger] q[i], #[trigger] q[j]) by {
                assert(q[i] == r[i]);
            }
            assert forall|k: int| 0 <= k < q.len() implies s.contains(#[trigger] q[k]) by {
                if k == r.len() {
                    assert(s[s.len() - 1] == q[k]);
                } else {
                    assert(q[k] == r[k]);
                }
            }
            assert forall|k: int| 0 <= k < q.len() - 1 implies !same_diag(#[trigger] q[k], q[k + 1]) by {
                if k + 1 < r.len() {
                    assert(q[k] == r[k] && q[k + 1] == r[k + 1]);
                } else {
                    assert(q[k] == r.last());
                }
            }
        }
    }
}

/// The diagnostics of a document come ordered by line, then column, then message,
/// and no diagnostic repeats the one just before it.
pub proof fn law_diagnostics_ordered_without_repeats(text: Seq<char>, err: Option<SyntaxError>)
    ensures
        diags_sorted(spec_diagnostics(text, err)),
        forall|k: int| 0 <= k < spec_diagnostics(text, err).len() - 1
            ==> !same_diag(#[trigger] spec_diagnostics(text, err)[k], spec_diagnostics(text, err)[k + 1]),
{
    let s = sort_stable(raw_diags(text, err));
    lemma_sort_stable_sorted(raw_diags(text, err));
    lemma_dedup_sorted(s);
}

/// Every diagnostic of `s` comes from the server's own checks.
pub open spec fn all_own(s: Seq<DiagView>) -> bool {
    forall|k: int| 0 <= k < s.len() ==> (#[trigger] s[k]).source == "hurl-lsp"@
}

proof fn lemma_all_own_concat(a: Seq<DiagView>, b: Seq<DiagView>)
    requires
        all_own(a),
        all_own(b),
    ensures
        all_own(a + b),
{
    assert forall|k: int| 0 <= k < (a + b).len() implies (#[trigger] (a + b)[k]).source == "hurl-lsp"@ by {
        if k < a.len() {
            assert((a + b)[k] == a[k]);
        } else {
            assert((a + b)[k] == b[k - a.len()]);
        }
    }
}

proof fn lemma_raw_scan_own(text: Seq<char>, n: int)
    ensures
        all_own(raw_scan(text, n).0),
    decreases n,
{
    if n > 0 {
        lemma_raw_scan_own(text, n - 1);
        let (d, seen) = raw_scan(text, n - 1);
        let raw = lines(text)[n - 1];
        let (d1, s1) = section_diags(n - 1, raw, seen);
        let (d2, s2) = method_diags(n - 1, raw, s1);
        let d3 = status_diags(n - 1, raw);
        let d4 = undefined_diags(text, n - 1, raw);
        assert(all_own(d1)) by {
            let t = trim(raw);
            if section_of_line(t) is Some {
                let n1 = section_of_line(t).unwrap();
                let label = section_label_of(n1);
                let rl = blen(raw) as u32;
                let unknown: Seq<DiagView> = if spec_is_known_section(n1) { Seq::empty() } else {
                    seq![line_view((n - 1) as u32, 0, rl, DiagnosticSeverity::Error, "Unknown section `"@ + label + "`"@)]
                };
                let dup: Seq<DiagView> = if seen.contains(spec_canonical_section(n1)) {
                    seq![line_view((n - 1) as u32, 0, rl, DiagnosticSeverity::Warning, "Duplicate section `"@ + label + "`"@)]
                } else { Seq::empty() };
                lemma_all_own_concat(unknown, dup);
            }
        }
        assert(all_own(d4)) by {
            let t = trim(raw);
            if !(t.len() > 0 && t[0] == '#') {
                let f = placeholders(raw).filter(|p: (int, int, Seq<char>)| spec_is_identifier(p.2) && !visible_at(text, n - 1).contains(p.2));
                assert forall|k: int| 0 <= k < d4.len() implies (#[trigger] d4[k]).source == "hurl-lsp"@ by {
                    assert(d4[k] == undefined_view(n - 1, f[k]));
                }
            }
        }
        lemma_all_own_concat(d1, d2);
        lemma_all_own_concat(d1 + d2, d3);
        lemma_all_own_concat(d1 + d2 + d3, d4);
        lemma_all_own_concat(d, d1 + d2 + d3 + d4);
    }
}

proof fn lemma_insert_stable_multiset(s: Seq<DiagView>, d: DiagView)
    ensures
        insert_stable(s, d).to_multiset() == s.to_multiset().insert(d),
    decreases s.len(),
{
    broadcast use vstd::seq_lib::group_to_multiset_ensures;
    if s.len() == 0 {
        assert(seq![d] =~= Seq::<DiagView>::empty().push(d));
    } else if key_le(s.last(), d) {
    } else {
        lemma_insert_stable_multiset(s.drop_last(), d);
        assert(s =~= s.drop_last().push(s.last()));
    }
}

proof fn lemma_sort_stable_multiset(s: Seq<DiagView>)
    ensures
        sort_stable(s).to_multiset() == s.to_multiset(),
    decreases s.len(),
{
    broadcast use vstd::seq_lib::group_to_multiset_ensures;
    if s.len() > 0 {
        lemma_sort_stable_multiset(s.drop_last());
        lemma_insert_stable_multiset(sort_stable(s.drop_last()), s.last());
        assert(s =~= s.drop_last().push(s.last()));
    }
}

proof fn lemma_dedup_count(s: Seq<DiagView>, a: DiagView)
    ensures
        dedup(s).to_multiset().count(a) <= s.to_multiset().count(a),
        forall|k: int| 0 <= k < dedup(s).len() ==> s.contains(#[trigger] dedup(s)[k]),
    decreases s.len(),
{
    broadcast use vstd::seq_lib::group_to_multiset_ensures;
    if s.len() > 0 {
        let t = s.drop_last();
        lemma_dedup_count(t, a);
        assert(s =~= t.push(s.last()));
        let r = dedup(t);
        assert forall|k: int| 0 <= k < dedup(s).len() implies s.contains(#[trigger] dedup(s)[k]) by {
            if k < r.len() {
                assert(dedup(s)[k] == r[k]);
                let m = choose|m: int| 0 <= m < t.len() && t[m] == r[k];
                assert(s[m] == t[m]);
            } else {
                assert(dedup(s)[k] == s[s.len() - 1]);
            }
        }
    }
}

/// The element `x` stands at `p` in `s`, and everything before it comes strictly before it.
pub open spec fn first_of_key(s: Seq<DiagView>, x: DiagView, p: int) -> bool {
    &&& 0 <= p < s.len()
    &&& s[p] == x
    &&& forall|i: int| 0 <= i < p ==> !key_le(x, #[trigger] s[i])
}

proof fn lemma_insert_stable_members(s: Seq<DiagView>, d: DiagView)
    ensures
        forall|k: int| 0 <= k < insert_stable(s, d).len() ==> #[trigger] insert_stable(s, d)[k] == d || s.contains(
            insert_stable(s, d)[k],
        ),
        insert_stable(s, d).len() == s.len() + 1,
    decreases s.len(),
{
    if s.len() > 0 && !key_le(s.last(), d) {
        let t = s.drop_last();
        lemma_insert_stable_members(t, d);
        let it = insert_stable(t, d);
        assert forall|k: int| 0 <= k < insert_stable(s, d).len() implies #[trigger] insert_stable(s, d)[k] == d
            || s.contains(insert_stable(s, d)[k]) by {
            if k < it.len() {
                assert(insert_stable(s, d)[k] == it[k]);
                if it[k] != d {
                    let m = choose|m: int| 0 <= m < t.len() && t[m] == it[k];
                    assert(s[m] == t[m]);
                }
            } else {
                assert(insert_stable(s, d)[k] == s[s.len() - 1]);
            }
        }
    } else if s.len() > 0 {
        assert forall|k: int| 0 <= k < insert_stable(s, d).len() implies #[trigger] insert_stable(s, d)[k] == d
            || s.contains(insert_stable(s, d)[k]) by {
            if k < s.len() {
                assert(insert_stable(s, d)[k] == s[k]);
            }
        }
    }
}

proof fn lemma_insert_keeps_first(s: Seq<DiagView>, x: DiagView, p: int, d: DiagView)
    requires
        first_of_key(s, x, p),
    ensures
        exists|q: int| first_of_key(insert_stable(s, d), x, q),
    decreases s.len(),
{
    if key_le(s.last(), d) {
        assert(first_of_key(insert_stable(s, d), x, p));
    } else {
        let t = s.drop_last();
        let r = insert_stable(s, d);
        if p == s.len() - 1 {
            lemma_insert_stable_members(t, d);
            let it = insert_stable(t, d);
            lemma_key_total(x, d);
            assert forall|i: int| 0 <= i < it.len() implies !key_le(x, #[trigger] r[i]) by {
                assert(r[i] == it[i]);
                if it[i] != d {
                    let m = choose|m: int| 0 <= m < t.len() && t[m] == it[i];
                    assert(s[m] == t[m]);
                }
            }
            assert(first_of_key(r, x, it.len() as int));
        } else {
            assert(first_of_key(t, x, p));
            lemma_insert_keeps_first(t, x, p, d);
            let q = choose|q: int| first_of_key(insert_stable(t, d), x, q);
            assert(first_of_key(r, x, q));
        }
    }
}

proof fn lemma_sort_keeps_first(s: Seq<DiagView>)
    requires
        s.len() > 0,
    ensures
        exists|q: int| first_of_key(sort_stable(s), s[0], q),
    decreases s.len(),
{
    if s.len() == 1 {
        assert(s.drop_last() =~= Seq::<DiagView>::empty());
        assert(sort_stable(s.drop_last()) =~= Seq::<DiagView>::empty());
        assert(insert_stable(Seq::<DiagView>::empty(), s[0]) == seq![s[0]]);
        assert(sort_stable(s) == seq![s[0]]);
        assert(first_of_key(sort_stable(s), s[0], 0));
    } else {
        let t = s.drop_last();
        lemma_sort_keeps_first(t);
        assert(t[0] == s[0]);
        let q = choose|q: int| first_of_key(sort_stable(t), t[0], q);
        lemma_insert_keeps_first(sort_stable(t), s[0], q, s.last());
        assert(sort_stable(s) == insert_stable(sort_stable(t), s.last()));
        let q2 = choose|q2: int| first_of_key(insert_stable(sort_stable(t), s.last()), s[0], q2);
        assert(first_of_key(sort_stable(s), s[0], q2));
    }
}

proof fn lemma_dedup_keeps_first(s: Seq<DiagView>, x: DiagView, p: int, n: int)
    requires
        first_of_key(s, x, p),
        p < n <= s.len(),
    ensures
        dedup(s.take(n)).contains(x),
    decreases n,
{
    if n == p + 1 {
        let t = s.take(n);
        assert(t.drop_last() =~= s.take(p));
        let r = dedup(s.take(p));
        lemma_dedup_count(s.take(p), x);
        if r.len() > 0 {
            let m = choose|m: int| 0 <= m < s.take(p).len() && s.take(p)[m] == r.last();
            assert(!key_le(x, s[m]));
            crate::text::lemma_lex_irreflexive(x.message);
            assert(!same_diag(x, r.last()));
        }
        assert(dedup(t)[dedup(t).len() - 1] == x);
    } else {
        lemma_dedup_keeps_first(s, x, p, n - 1);
        let t = s.take(n);
        assert(t.drop_last() =~= s.take(n - 1));
        let r = dedup(s.take(n - 1));
        let i = choose|i: int| 0 <= i < r.len() && r[i] == x;
        assert(dedup(t)[i] == x);
    }
}

/// The parser's syntax error is reported exactly when there is one, once, as the error
/// on the character it points at; every other diagnostic comes from the server's checks.
pub proof fn law_syntax_error_reported_once(text: Seq<char>, err: Option<SyntaxError>)
    ensures
        ({
            let r = spec_diagnostics(text, err);
            &&& forall|k: int| 0 <= k < r.len() && (#[trigger] r[k]).source != "hurl-lsp"@ ==> (err matches Some(e)
                && r[k] == syntax_view(e))
            &&& err matches Some(e) ==> r.to_multiset().count(syntax_view(e)) == 1
        }),
{
    broadcast use vstd::seq_lib::group_to_multiset_ensures;
    let raw = raw_diags(text, err);
    let found = raw_scan(text, lines(text).len() as int).0;
    lemma_raw_scan_own(text, lines(text).len() as int);
    let sorted = sort_stable(raw);
    let r = dedup(sorted);
    lemma_sort_stable_multiset(raw);
    lemma_dedup_count(sorted, arbitrary());
    assert forall|k: int| 0 <= k < r.len() && (#[trigger] r[k]).source != "hurl-lsp"@ implies (err matches Some(e)
        && r[k] == syntax_view(e)) by {
        assert(sorted.contains(r[k]));
        assert(sorted.to_multiset().count(r[k]) > 0);
        assert(raw.contains(r[k]));
        let m = choose|m: int| 0 <= m < raw.len() && raw[m] == r[k];
        match err {
            Some(e) => {
                if m > 0 {
                    assert(raw[m] == found[m - 1]);
                }
            },
            None => {},
        }
    }
    match err {
        Some(e) => {
            let sv = syntax_view(e);
            reveal_strlit("hurl-lsp");
            reveal_strlit("hurl_core");
            assert(sv.source != "hurl-lsp"@) by {
                assert(sv.source[4] != ("hurl-lsp"@)[4]);
            }
            assert(!found.contains(sv));
            assert(found.to_multiset().count(sv) == 0);
            assert(raw =~= seq![sv] + found);
            vstd::seq_lib::lemma_seq_union_to_multiset_commutative(seq![sv], found);
            assert(seq![sv] =~= Seq::<DiagView>::empty().push(sv));
            assert(raw.to_multiset() == found.to_multiset().insert(sv)) by {
                vstd::seq_lib::lemma_multiset_commutative(seq![sv], found);
            }
            lemma_dedup_count(sorted, sv);
            lemma_sort_keeps_first(raw);
            let q = choose|q: int| first_of_key(sorted, raw[0], q);
            lemma_dedup_keeps_first(sorted, sv, q, sorted.len() as int);
            assert(sorted.take(sorted.len() as int) =~= sorted);
            assert(r.to_multiset().count(sv) > 0);
        },
        None => {},
    }
}

/// A line that starts a request for the section checks: it looks like a request line and
/// its first word is an HTTP method.
pub open spec fn valid_request_line(t: Seq<char>) -> bool {
    probable_method_line(t) && spec_is_http_method(first_token(t))
}

/// The canonical name of the section that line `m` opens, if it opens one.
pub open spec fn section_key(ls: Seq<Seq<char>>, m: int) -> Option<Seq<char>> {
    match section_of_line(trim(ls[m])) {
        Some(n) => Some(spec_canonical_section(n)),
        None => None,
    }
}

/// No line strictly between `m` and `n` starts a request.
pub open spec fn same_request(ls: Seq<Seq<char>>, m: int, n: int) -> bool {
    forall|r: int| m < r < n ==> !valid_request_line(trim(#[trigger] ls[r]))
}

/// Some line before `n` in the same request opens a section whose canonical name is `key`.
pub open spec fn opened_in_request(ls: Seq<Seq<char>>, n: int, key: Seq<char>) -> bool {
    exists|m: int| 0 <= m < n && #[trigger] section_key(ls, m) == Some(key) && same_request(ls, m, n)
}

proof fn lemma_seen_in_request(text: Seq<char>, n: int, key: Seq<char>)
    requires
        0 <= n <= lines(text).len(),
    ensures
        raw_scan(text, n).1.contains(key) <==> opened_in_request(lines(text), n, key),
    decreases n,
{
    let ls = lines(text);
    if n > 0 {
        lemma_seen_in_request(text, n - 1, key);
        let t = trim(ls[n - 1]);
        let seen0 = raw_scan(text, n - 1).1;
        if section_of_line(t) is Some {
            assert(!probable_method_line(t));
            assert(!valid_request_line(t));
            if opened_in_request(ls, n - 1, key) {
                let m = choose|m: int| 0 <= m < n - 1 && #[trigger] section_key(ls, m) == Some(key) && same_request(ls, m, n - 1);
                assert(same_request(ls, m, n));
            }
            if section_key(ls, n - 1) == Some(key) {
                assert(same_request(ls, n - 1, n));
            }
            if opened_in_request(ls, n, key) {
                let m = choose|m: int| 0 <= m < n && #[trigger] section_key(ls, m) == Some(key) && same_request(ls, m, n);
                if m < n - 1 {
                    assert(same_request(ls, m, n - 1));
                }
            }
        } else if valid_request_line(t) {
            if opened_in_request(ls, n, key) {
                let m = choose|m: int| 0 <= m < n && #[trigger] section_key(ls, m) == Some(key) && same_request(ls, m, n);
                assert(m != n - 1);
                assert(!valid_request_line(trim(ls[n - 1])));
            }
        } else {
            if opened_in_request(ls, n - 1, key) {
                let m = choose|m: int| 0 <= m < n - 1 && #[trigger] section_key(ls, m) == Some(key) && same_request(ls, m, n - 1);
                assert(same_request(ls, m, n));
            }
            if opened_in_request(ls, n, key) {
                let m = choose|m: int| 0 <= m < n && #[trigger] section_key(ls, m) == Some(key) && same_request(ls, m, n);
                assert(m != n - 1);
                assert(same_request(ls, m, n - 1));
            }
        }
    }
}

/// The diagnostics that the scan finds on line `l`.
pub open spec fn diags_of_line(text: Seq<char>, l: int) -> Seq<DiagView> {
    line_diags(text, l, lines(text)[l], raw_scan(text, l).1).0
}

/// The warning on a section line whose section the same request opened before.
pub open spec fn duplicate_warning(text: Seq<char>, l: int) -> DiagView {
    let raw = lines(text)[l];
    line_view(
        l as u32,
        0,
        blen(raw) as u32,
        DiagnosticSeverity::Warning,
        "Duplicate section `"@ + section_label_of(section_of_line(trim(raw)).unwrap()) + "`"@,
    )
}

proof fn lemma_raw_scan_lines(text: Seq<char>, n: int)
    requires
        0 <= n <= lines(text).len(),
    ensures
        forall|x: DiagView| raw_scan(text, n).0.contains(x) ==> exists|l: int|
            0 <= l < n && (#[trigger] diags_of_line(text, l)).contains(x),
        forall|l: int, x: DiagView| 0 <= l < n && #[trigger] diags_of_line(text, l).contains(x) ==> raw_scan(text, n).0.contains(x),
    decreases n,
{
    if n > 0 {
        lemma_raw_scan_lines(text, n - 1);
        let d = raw_scan(text, n - 1).0;
        let e = diags_of_line(text, n - 1);
        assert(raw_scan(text, n).0 == d + e);
        assert forall|x: DiagView| raw_scan(text, n).0.contains(x) implies exists|l: int|
            0 <= l < n && (#[trigger] diags_of_line(text, l)).contains(x) by {
            let k = choose|k: int| 0 <= k < (d + e).len() && (d + e)[k] == x;
            if k < d.len() {
                assert(d[k] == x);
                assert(d.contains(x));
            } else {
                assert(e[k - d.len()] == x);
                assert(diags_of_line(text, n - 1).contains(x));
            }
        }
        assert forall|l: int, x: DiagView| 0 <= l < n && #[trigger] diags_of_line(text, l).contains(x) implies raw_scan(
            text,
            n,
        ).0.contains(x) by {
            if l < n - 1 {
                let k = choose|k: int| 0 <= k < d.len() && d[k] == x;
                assert((d + e)[k] == x);
            } else {
                let k = choose|k: int| 0 <= k < e.len() && e[k] == x;
                assert((d + e)[d.len() + k] == x);
            }
        }
    }
}

/// Every diagnostic found on line `l` stands on line `l`.
proof fn lemma_line_diags_on_line(text: Seq<char>, l: int)
    requires
        0 <= l < lines(text).len(),
    ensures
        forall|k: int| 0 <= k < diags_of_line(text, l).len() ==> (#[trigger] diags_of_line(text, l)[k]).range.start.line == l as u32,
{
    let raw = lines(text)[l];
    let seen = raw_scan(text, l).1;
    let (d1, s1) = section_diags(l, raw, seen);
    let (d2, s2) = method_diags(l, raw, s1);
    let d3 = status_diags(l, raw);
    let d4 = undefined_diags(text, l, raw);
    let all = d1 + d2 + d3 + d4;
    assert(diags_of_line(text, l) == all);
    let t = trim(raw);
    if !(t.len() > 0 && t[0] == '#') {
        let f = placeholders(raw).filter(|p: (int, int, Seq<char>)| spec_is_identifier(p.2) && !visible_at(text, l).contains(p.2));
        assert forall|k: int| 0 <= k < d4.len() implies (#[trigger] d4[k]).range.start.line == l as u32 by {
            assert(d4[k] == undefined_view(l, f[k]));
        }
    }
    assert forall|k: int| 0 <= k < all.len() implies (#[trigger] all[k]).range.start.line == l as u32 by {
        if k < d1.len() {
            assert(all[k] == d1[k]);
            if section_of_line(t) is Some {
                let n1 = section_of_line(t).unwrap();
                let label = section_label_of(n1);
                let rl = blen(raw) as u32;
                let unknown: Seq<DiagView> = if spec_is_known_section(n1) { Seq::empty() } else {
                    seq![line_view(l as u32, 0, rl, DiagnosticSeverity::Error, "Unknown section `"@ + label + "`"@)]
                };
                let dup: Seq<DiagView> = if seen.contains(spec_canonical_section(n1)) {
                    seq![line_view(l as u32, 0, rl, DiagnosticSeverity::Warning, "Duplicate section `"@ + label + "`"@)]
                } else { Seq::empty() };
                assert(d1 == unknown + dup);
                if k < unknown.len() {
                    assert(d1[k] == unknown[k]);
                } else {
                    assert(d1[k] == dup[k - unknown.len()]);
                }
            }
        } else if k < d1.len() + d2.len() {
            assert(all[k] == d2[k - d1.len()]);
        } else if k < d1.len() + d2.len() + d3.len() {
            assert(all[k] == d3[k - d1.len() - d2.len()]);
        } else {
            assert(all[k] == d4[k - d1.len() - d2.len() - d3.len()]);
        }
    }
}

/// On a section line, the diagnostics found there include the duplicate warning exactly
/// when the section was already open in the request.
proof fn lemma_line_duplicate(text: Seq<char>, l: int)
    requires
        0 <= l < lines(text).len(),
        section_of_line(trim(lines(text)[l])) is Some,
    ensures
        (exists|k: int| 0 <= k < diags_of_line(text, l).len() && same_diag(#[trigger] diags_of_line(text, l)[k], duplicate_warning(text, l)))
            <==> raw_scan(text, l).1.contains(section_key(lines(text), l).unwrap()),
{
    reveal_strlit("Duplicate section `");
    reveal_strlit("Undefined variable `{{");
    reveal_strlit("HTTP ");
    let raw = lines(text)[l];
    let seen = raw_scan(text, l).1;
    let t = trim(raw);
    let n1 = section_of_line(t).unwrap();
    let label = section_label_of(n1);
    let rl = blen(raw) as u32;
    let w = duplicate_warning(text, l);
    let unknown: Seq<DiagView> = if spec_is_known_section(n1) { Seq::empty() } else {
        seq![line_view(l as u32, 0, rl, DiagnosticSeverity::Error, "Unknown section `"@ + label + "`"@)]
    };
    let dup: Seq<DiagView> = if seen.contains(spec_canonical_section(n1)) {
        seq![line_view(l as u32, 0, rl, DiagnosticSeverity::Warning, "Duplicate section `"@ + label + "`"@)]
    } else { Seq::empty() };
    let (d1, s1) = section_diags(l, raw, seen);
    assert(d1 == unknown + dup);
    assert(!probable_method_line(t));
    let (d2, s2) = method_diags(l, raw, s1);
    assert(d2.len() == 0);
    assert(!starts_with(t, "HTTP "@)) by {
        if starts_with(t, "HTTP "@) {
            assert(t.take(5)[0] == t[0]);
        }
    }
    let d3 = status_diags(l, raw);
    assert(d3.len() == 0);
    let d4 = undefined_diags(text, l, raw);
    let all = d1 + d2 + d3 + d4;
    assert(diags_of_line(text, l) == all);
    assert(w.message[0] == 'D');
    if !(t.len() > 0 && t[0] == '#') {
        let f = placeholders(raw).filter(|p: (int, int, Seq<char>)| spec_is_identifier(p.2) && !visible_at(text, l).contains(p.2));
        assert forall|k: int| 0 <= k < d4.len() implies !same_diag(#[trigger] d4[k], w) by {
            assert(d4[k] == undefined_view(l, f[k]));
            assert(d4[k].message[0] == 'U');
        }
    }
    if seen.contains(spec_canonical_section(n1)) {
        assert(all[unknown.len() as int] == w);
        assert(same_diag(all[unknown.len() as int], w));
    } else {
        assert forall|k: int| 0 <= k < all.len() implies !same_diag(#[trigger] all[k], w) by {
            if k < d1.len() {
                assert(all[k] == d1[k]);
                assert(d1[k] == unknown[k]);
            } else {
                assert(all[k] == d4[k - d1.len() - d2.len() - d3.len()]);
            }
        }
    }
}

proof fn lemma_dedup_covers(s: Seq<DiagView>)
    ensures
        forall|k: int| 0 <= k < s.len() ==> exists|j: int| 0 <= j < dedup(s).len() && same_diag(#[trigger] s[k], dedup(s)[j]),
    decreases s.len(),
{
    if s.len() > 0 {
        let t = s.drop_last();
        lemma_dedup_covers(t);
        let r = dedup(t);
        assert forall|k: int| 0 <= k < s.len() implies exists|j: int| 0 <= j < dedup(s).len() && same_diag(#[trigger] s[k], dedup(s)[j]) by {
            if k < t.len() {
                assert(s[k] == t[k]);
                let j = choose|j: int| 0 <= j < r.len() && same_diag(t[k], r[j]);
                assert(dedup(s)[j] == r[j]);
            } else if r.len() > 0 && same_diag(s.last(), r.last()) {
                assert(dedup(s)[r.len() - 1] == r.last());
            } else {
                assert(dedup(s)[r.len() as int] == s.last());
            }
        }
    }
}

proof fn lemma_sorted_members(raw: Seq<DiagView>)
    ensures
        forall|x: DiagView| raw.contains(x) <==> #[trigger] sort_stable(raw).contains(x),
{
    broadcast use vstd::seq_lib::group_to_multiset_ensures;
    lemma_sort_stable_multiset(raw);
    assert forall|x: DiagView| raw.contains(x) <==> #[trigger] sort_stable(raw).contains(x) by {
        assert(raw.to_multiset().count(x) == sort_stable(raw).to_multiset().count(x));
    }
}

/// What the diagnostics of a document hold, up to saying the same thing at the same place,
/// is what the parser's error and the scan found.
proof fn lemma_result_members(text: Seq<char>, err: Option<SyntaxError>, w: DiagView)
    ensures
        (exists|k: int| 0 <= k < spec_diagnostics(text, err).len() && same_diag(#[trigger] spec_diagnostics(text, err)[k], w))
            <==> (exists|x: DiagView| #[trigger] raw_diags(text, err).contains(x) && same_diag(x, w)),
{
    let raw = raw_diags(text, err);
    let sorted = sort_stable(raw);
    let r = dedup(sorted);
    assert(spec_diagnostics(text, err) == r);
    lemma_sorted_members(raw);
    lemma_dedup_covers(sorted);
    lemma_dedup_count(sorted, w);
    if exists|x: DiagView| #[trigger] raw.contains(x) && same_diag(x, w) {
        let x = choose|x: DiagView| #[trigger] raw.contains(x) && same_diag(x, w);
        assert(sorted.contains(x));
        let i = choose|i: int| 0 <= i < sorted.len() && sorted[i] == x;
        let j = choose|j: int| 0 <= j < r.len() && same_diag(#[trigger] sorted[i], r[j]);
        assert(same_diag(r[j], w));
    }
    if exists|k: int| 0 <= k < r.len() && same_diag(#[trigger] r[k], w) {
        let k = choose|k: int| 0 <= k < r.len() && same_diag(#[trigger] r[k], w);
        assert(sorted.contains(r[k]));
        assert(raw.contains(r[k]));
        assert(raw.contains(r[k]) && same_diag(r[k], w));
    }
}

/// What the scan finds, up to saying the same thing at the same place as the duplicate
/// warning of section line `l`, is what line `l` gives.
proof fn lemma_found_duplicate(text: Seq<char>, l: int)
    requires
        lines(text).len() <= u32::MAX,
        0 <= l < lines(text).len(),
    ensures
        (exists|x: DiagView| #[trigger] raw_scan(text, lines(text).len() as int).0.contains(x) && same_diag(
            x,
            duplicate_warning(text, l),
        )) <==> (exists|k: int| 0 <= k < diags_of_line(text, l).len() && same_diag(
            #[trigger] diags_of_line(text, l)[k],
            duplicate_warning(text, l),
        )),
{
    let ls = lines(text);
    let w = duplicate_warning(text, l);
    let found = raw_scan(text, ls.len() as int).0;
    lemma_raw_scan_lines(text, ls.len() as int);
    if exists|k: int| 0 <= k < diags_of_line(text, l).len() && same_diag(#[trigger] diags_of_line(text, l)[k], w) {
        let k = choose|k: int| 0 <= k < diags_of_line(text, l).len() && same_diag(#[trigger] diags_of_line(text, l)[k], w);
        let x = diags_of_line(text, l)[k];
        assert(diags_of_line(text, l).contains(x));
        assert(found.contains(x));
    }
    if exists|x: DiagView| #[trigger] found.contains(x) && same_diag(x, w) {
        let y = choose|x: DiagView| #[trigger] found.contains(x) && same_diag(x, w);
        let l2 = choose|l2: int| 0 <= l2 < ls.len() && (#[trigger] diags_of_line(text, l2)).contains(y);
        lemma_line_diags_on_line(text, l2);
        let k2 = choose|k2: int| 0 <= k2 < diags_of_line(text, l2).len() && diags_of_line(text, l2)[k2] == y;
        assert(y.range.start.line == l2 as u32);
        assert(w.range.start.line == l as u32);
        assert(l2 == l);
    }
}

/// A section repeated within one request is flagged, and only then: the diagnostics of a
/// document hold the `Duplicate section` warning of a section line exactly when the same
/// request (the lines since the last request line) opened a section of the same canonical
/// name before it, unless the parser's own error says the very same thing there. A section
/// repeated in another request is not flagged. (Lines are counted in `u32`, so the document
/// has at most `u32::MAX` lines.)
pub proof fn law_duplicate_sections_within_request(text: Seq<char>, err: Option<SyntaxError>, l: int)
    requires
        lines(text).len() <= u32::MAX,
        0 <= l < lines(text).len(),
        section_of_line(trim(lines(text)[l])) is Some,
    ensures
        (exists|k: int| 0 <= k < spec_diagnostics(text, err).len() && same_diag(
            #[trigger] spec_diagnostics(text, err)[k],
            duplicate_warning(text, l),
        )) <==> (opened_in_request(lines(text), l, section_key(lines(text), l).unwrap()) || (err matches Some(e) && same_diag(
            syntax_view(e),
            duplicate_warning(text, l),
        ))),
{
    let ls = lines(text);
    let w = duplicate_warning(text, l);
    let key = section_key(ls, l).unwrap();
    let found = raw_scan(text, ls.len() as int).0;
    let raw = raw_diags(text, err);
    lemma_seen_in_request(text, l, key);
    lemma_line_duplicate(text, l);
    lemma_found_duplicate(text, l);
    lemma_result_members(text, err, w);
    match err {
        Some(e) => {
            assert(raw == seq![syntax_view(e)] + found);
            if exists|x: DiagView| #[trigger] raw.contains(x) && same_diag(x, w) {
                let x = choose|x: DiagView| #[trigger] raw.contains(x) && same_diag(x, w);
                let i = choose|i: int| 0 <= i < raw.len() && raw[i] == x;
                if i > 0 {
                    assert(found[i - 1] == x);
                    assert(found.contains(x));
                }
            }
            if same_diag(syntax_view(e), w) {
                assert(raw[0] == syntax_view(e));
                assert(raw.contains(syntax_view(e)));
            }
            if exists|x: DiagView| #[trigger] found.contains(x) && same_diag(x, w) {
                let x = choose|x: DiagView| #[trigger] found.contains(x) && same_diag(x, w);
                let i = choose|i: int| 0 <= i < found.len() && found[i] == x;
                assert(raw[i + 1] == x);
                assert(raw.contains(x));
            }
        },
        None => {},
    }
}

/// Whether `a` comes no later than `b` in the order of diagnostics.
fn key_le_exec(a: &Diagnostic, b: &Diagnostic) -> (r: bool)
    ensures
        r == key_le(a@, b@),
{
    if a.range.start.line != b.range.start.line {
        return a.range.start.line < b.range.start.line;
    }
    if a.range.start.character != b.range.start.character {
        return a.range.start.character < b.range.start.character;
    }
    let am = chars_of(a.message.as_str());
    let bm = chars_of(b.message.as_str());
    !lex_less(bm.as_slice(), am.as_slice())
}

pub proof fn lemma_insert_stable_at(s: Seq<DiagView>, d: DiagView, p: int)
    requires
        0 <= p <= s.len(),
        p == 0 || key_le(s[p - 1], d),
        forall|k: int| p <= k < s.len() ==> !key_le(#[trigger] s[k], d),
    ensures
        insert_stable(s, d) == s.insert(p, d),
    decreases s.len(),
{
    if s.len() == 0 {
        assert(s.insert(p, d) =~= seq![d]);
    } else if p == s.len() {
        assert(s.insert(p, d) =~= s.push(d));
    } else {
        assert(!key_le(s.last(), d));
        lemma_insert_stable_at(s.drop_last(), d, p);
        assert(s.drop_last().insert(p, d).push(s.last()) =~= s.insert(p, d));
    }
}

/// Inserts a diagnostic into a sorted vector after all that do not come after it.
fn insert_diag(v: &mut Vec<Diagnostic>, d: Diagnostic)
    ensures
        diag_views(final(v)@) == insert_stable(diag_views(old(v)@), d@),
{
    let ghost s = diag_views(v@);
    let mut p = v.len();
    while p > 0 && !key_le_exec(&v[p - 1], &d)
        invariant
            p <= v@.len(),
            s == diag_views(v@),
            forall|k: int| p <= k < s.len() ==> !key_le(#[trigger] s[k], d@),
        decreases p,
    {
        p = p - 1;
    }
    proof {
        lemma_insert_stable_at(s, d@, p as int);
    }
    let ghost dv = d@;
    v.insert(p, d);
    assert(diag_views(v@) =~= s.insert(p as int, dv));
}

/// The diagnostics of a Hurl document, ordered by line, column and message, without
/// repeats: the parser's syntax error, unknown and duplicate sections, unknown methods,
/// malformed status codes, and placeholders that name no visible variable.
pub fn collect_diagnostics(text: &str, syntax_error: Option<SyntaxError>) -> (r: Vec<Diagnostic>)
    ensures
        diag_views(r@) == spec_diagnostics(text@, syntax_error),
{
    let t = chars_of(text);
    let lr = line_ranges(t.as_slice());
    let mut raw: Vec<Diagnostic> = Vec::new();
    let ghost err = syntax_error;
    match syntax_error {
        Some(e) => {
            let l = if e.line == 0 { 0 } else { e.line - 1 };
            let c = if e.column == 0 { 0 } else { e.column - 1 };
            #[verifier::truncate]
            let l32 = l as u32;
            #[verifier::truncate]
            let c32 = c as u32;
            let c1 = if c32 == u32::MAX { c32 } else { c32 + 1 };
            raw.push(Diagnostic {
                range: range(position(l32, c32), position(l32, c1)),
                severity: DiagnosticSeverity::Error,
                source: "hurl_core".to_owned(),
                message: e.description,
            });
        },
        None => {},
    }
    let ghost head = diag_views(raw@);
    let mut seen: Vec<Vec<char>> = Vec::new();
    assert(seqs(seen@).to_set() =~= Set::<Seq<char>>::empty());
    let mut idx: usize = 0;
    while idx < lr.len()
        invariant
            idx <= lr@.len(),
            lines_are(t@, lr@),
            blen(t@) <= usize::MAX,
            diag_views(raw@) == head + raw_scan(t@, idx as int).0,
            seqs(seen@).to_set() == raw_scan(t@, idx as int).1,
        decreases lr@.len() - idx,
    {
        push_line_diags(t.as_slice(), lr.as_slice(), idx, &mut seen, &mut raw);
        idx = idx + 1;
        assert(diag_views(raw@) =~= head + raw_scan(t@, idx as int).0);
    }
    assert(diag_views(raw@) =~= raw_diags(text@, err));
    let ghost all = diag_views(raw@);
    let mut sorted: Vec<Diagnostic> = Vec::new();
    let mut rest = raw;
    let mut k: usize = 0;
    let n = rest.len();
    while k < n
        invariant
            k <= n == all.len(),
            all == diag_views(rest@),
            diag_views(sorted@) == sort_stable(all.take(k as int)),
        decreases n - k,
    {
        let d = rest[k].clone_diag();
        insert_diag(&mut sorted, d);
        assert(all.take(k + 1).drop_last() =~= all.take(k as int));
        k = k + 1;
    }
    assert(all.take(n as int) =~= all);
    let ghost ss = diag_views(sorted@);
    let mut out: Vec<Diagnostic> = Vec::new();
    let mut j: usize = 0;
    while j < sorted.len()
        invariant
            j <= sorted@.len(),
            ss == diag_views(sorted@),
            diag_views(out@) == dedup(ss.take(j as int)),
        decreases sorted@.len() - j,
    {
        assert(ss.take(j + 1).drop_last() =~= ss.take(j as int));
        let keep = if out.len() == 0 { true } else {
            let last = &out[out.len() - 1];
            !(sorted[j].range == last.range && crate::text::eq_exec(chars_of(sorted[j].message.as_str()).as_slice(),
                chars_of(last.message.as_str()).as_slice()) && sorted[j].severity == last.severity)
        };
        if keep {
            let ghost before = diag_views(out@);
            out.push(sorted[j].clone_diag());
            assert(diag_views(out@) =~= before.push(ss[j as int]));
        }
        j = j + 1;
    }
    assert(ss.take(j as int) =~= ss);
    out
}

} // verus!
