//! Code lenses above each request: a summary of its sections and a run action.
use vstd::prelude::*;
use crate::diagnostics::{entries_of, entries_view, spec_entries, Entry};
use crate::lsp::{pos, position, range, Range};
use crate::syntax::{eq_lit, lines_are, method_of_line, method_range};
use crate::text::{chars_of, decimal, line_ranges, lines, push_all, push_decimal, push_str, string_of, trim, trim_range};

verus! {

pub const RUN_ENTRY_COMMAND: &'static str = "hurl.runEntry";

pub const NOOP_COMMAND: &'static str = "hurl.noop";

/// An argument of a lens command.
#[derive(Clone, Debug, PartialEq, Eq)]
pub enum LensArgument {
    Text(String),
    Number(u64),
}

/// A command that a lens runs.
#[derive(Clone, Debug)]
pub struct Command {
    pub title: String,
    pub command: String,
    pub arguments: Option<Vec<LensArgument>>,
}

/// A lens shown at a range of the document.
#[derive(Clone, Debug)]
pub struct CodeLens {
    pub range: Range,
    pub command: Option<Command>,
}

pub enum ArgView {
    Text(Seq<char>),
    Number(u64),
}

pub struct LensView {
    pub range: Range,
    pub title: Seq<char>,
    pub command: Seq<char>,
    pub arguments: Option<Seq<ArgView>>,
}

pub open spec fn arg_view(a: LensArgument) -> ArgView {
    match a {
        LensArgument::Text(s) => ArgView::Text(s@),
        LensArgument::Number(n) => ArgView::Number(n),
    }
}

/// A lens as a mathematical value (every lens here has a command).
pub open spec fn lens_view(l: CodeLens) -> LensView {
    let c = l.command.unwrap();
    LensView {
        range: l.range,
        title: c.title@,
        command: c.command@,
        arguments: match c.arguments {
            Some(v) => Some(v@.map_values(|a: LensArgument| arg_view(a))),
            None => None,
        },
    }
}

pub open spec fn lenses_view(v: Seq<CodeLens>) -> Seq<LensView> {
    v.map_values(|l: CodeLens| lens_view(l))
}

pub open spec fn all_have_commands(v: Seq<CodeLens>) -> bool {
    forall|k: int| 0 <= k < v.len() ==> (#[trigger] v[k]).command is Some
}

/// Sections counted after the request at `entry_line`, up to the next request, over the
/// first `n` lines: (inside the request, past it, `[Headers]`, `[Asserts]`, `[Captures]`).
pub open spec fn count_scan(ls: Seq<Seq<char>>, n: int, entry_line: int) -> (bool, bool, nat, nat, nat)
    decreases n,
{
    if n <= 0 {
        (false, false, 0, 0, 0)
    } else {
        let (inside, stopped, h, a, c) = count_scan(ls, n - 1, entry_line);
        let t = trim(ls[n - 1]);
        if stopped {
            (inside, stopped, h, a, c)
        } else if n - 1 == entry_line {
            (true, stopped, h, a, c)
        } else if !inside {
            (inside, stopped, h, a, c)
        } else if method_of_line(t) is Some {
            (inside, true, h, a, c)
        } else if t == "[Headers]"@ {
            (inside, stopped, h + 1, a, c)
        } else if t == "[Asserts]"@ {
            (inside, stopped, h, a + 1, c)
        } else if t == "[Captures]"@ {
            (inside, stopped, h, a, c + 1)
        } else {
            (inside, stopped, h, a, c)
        }
    }
}

pub open spec fn section_counts(text: Seq<char>, entry_line: int) -> (nat, nat, nat) {
    let ls = lines(text);
    let r = count_scan(ls, ls.len() as int, entry_line);
    (r.2, r.3, r.4)
}

pub open spec fn summary_title(m: Seq<char>, p: Seq<char>, counts: (nat, nat, nat)) -> Seq<char> {
    "📋 "@ + m + " "@ + p + "  │ "@ + decimal(counts.0) + " headers │ "@ + decimal(counts.1) + " asserts │ "@
        + decimal(counts.2) + " captures"@
}

/// The two lenses of a request: its summary and its run action.
pub open spec fn entry_lenses(uri: Seq<char>, text: Seq<char>, e: (Seq<char>, Seq<char>, u32)) -> Seq<LensView> {
    let r = Range { start: pos(e.2, 0), end: pos(e.2, 0) };
    seq![
        LensView { range: r, title: summary_title(e.0, e.1, section_counts(text, e.2 as int)), command: "hurl.noop"@, arguments: None },
        LensView { range: r, title: "▶ Run"@, command: "hurl.runEntry"@,
            arguments: Some(seq![ArgView::Text(uri), ArgView::Number(e.2 as u64)]) },
    ]
}

/// The lenses of the first `n` requests, kept when their line is at most the number of lines.
pub open spec fn lenses_upto(uri: Seq<char>, text: Seq<char>, es: Seq<(Seq<char>, Seq<char>, u32)>, n: int) -> Seq<LensView>
    decreases n,
{
    if n <= 0 {
        Seq::empty()
    } else {
        let prev = lenses_upto(uri, text, es, n - 1);
        let e = es[n - 1];
        if e.2 as int <= lines(text).len() { prev + entry_lenses(uri, text, e) } else { prev }
    }
}

pub open spec fn spec_code_lenses(uri: Seq<char>, text: Seq<char>) -> Seq<LensView> {
    lenses_upto(uri, text, spec_entries(text), spec_entries(text).len() as int)
}

/// How many of lines `a` up to `b` (not included) read exactly `label` once trimmed.
pub open spec fn label_count(ls: Seq<Seq<char>>, a: int, b: int, label: Seq<char>) -> nat
    decreases b - a,
{
    if b <= a {
        0
    } else {
        label_count(ls, a, b - 1, label) + (if trim(ls[b - 1]) == label { 1nat } else { 0nat })
    }
}

proof fn lemma_count_scan_open(ls: Seq<Seq<char>>, e: int, n: int)
    requires
        0 <= e,
        0 <= n,
        forall|l: int| e < l < n ==> method_of_line(trim(#[trigger] ls[l])) is None,
    ensures
        count_scan(ls, n, e) == (if n <= e {
            (false, false, 0nat, 0nat, 0nat)
        } else {
            (
                true,
                false,
                label_count(ls, e + 1, n, "[Headers]"@),
                label_count(ls, e + 1, n, "[Asserts]"@),
                label_count(ls, e + 1, n, "[Captures]"@),
            )
        }),
    decreases n,
{
    reveal_strlit("[Headers]");
    reveal_strlit("[Asserts]");
    reveal_strlit("[Captures]");
    if n > 0 {
        lemma_count_scan_open(ls, e, n - 1);
        if n - 1 > e {
            assert(method_of_line(trim(ls[n - 1])) is None);
            assert(("[Headers]"@)[1] != ("[Asserts]"@)[1]);
            assert(("[Headers]"@)[1] != ("[Captures]"@)[1]);
            assert(("[Asserts]"@)[1] != ("[Captures]"@)[1]);
        }
    }
}

proof fn lemma_count_scan_stays(ls: Seq<Seq<char>>, e: int, n0: int, n: int)
    requires
        0 <= n0 <= n,
        count_scan(ls, n0, e).1,
    ensures
        count_scan(ls, n, e) == count_scan(ls, n0, e),
    decreases n - n0,
{
    if n > n0 {
        lemma_count_scan_stays(ls, e, n0, n - 1);
    }
}

/// The summary of the request at line `e` counts, among the lines after it up to the next
/// request line `m` (or the end of the document), those that read exactly `[Headers]`,
/// `[Asserts]` and `[Captures]`; lines that are not request lines, such as `HTTP 200`,
/// do not end the request.
pub proof fn law_section_counts_up_to_next_request(text: Seq<char>, e: int, m: int)
    requires
        0 <= e < m <= lines(text).len(),
        forall|l: int| e < l < m ==> method_of_line(trim(#[trigger] lines(text)[l])) is None,
        m == lines(text).len() || method_of_line(trim(lines(text)[m])) is Some,
    ensures
        section_counts(text, e) == (
            label_count(lines(text), e + 1, m, "[Headers]"@),
            label_count(lines(text), e + 1, m, "[Asserts]"@),
            label_count(lines(text), e + 1, m, "[Captures]"@),
        ),
{
    let ls = lines(text);
    lemma_count_scan_open(ls, e, m);
    if m < ls.len() {
        assert(count_scan(ls, m + 1, e).1);
        lemma_count_scan_stays(ls, e, m + 1, ls.len() as int);
    }
}

/// Counts `[Headers]`, `[Asserts]` and `[Captures]` sections of the request at `entry_line`.
pub fn count_sections_after_entry(text: &[char], lr: &[(usize, usize)], entry_line: usize) -> (r: (usize, usize, usize))
    requires
        lines_are(text@, lr@),
    ensures
        (r.0 as nat, r.1 as nat, r.2 as nat) == section_counts(text@, entry_line as int),
{
    let ghost ls = lines(text@);
    let mut inside = false;
    let mut stopped = false;
    let mut h: usize = 0;
    let mut a: usize = 0;
    let mut c: usize = 0;
    let mut idx: usize = 0;
    while idx < lr.len()
        invariant
            idx <= lr@.len(),
            lines_are(text@, lr@),
            ls == lines(text@),
            count_scan(ls, idx as int, entry_line as int) == (inside, stopped, h as nat, a as nat, c as nat),
            h <= idx && a <= idx && c <= idx,
        decreases lr@.len() - idx,
    {
        let (la, lb) = lr[idx];
        let line = &text[la..lb];
        assert(line@ == ls[idx as int]);
        let (ta, tb) = trim_range(line);
        let t = &line[ta..tb];
        if stopped {
        } else if idx == entry_line {
            inside = true;
        } else if !inside {
        } else if method_range(t).is_some() {
            stopped = true;
        } else if eq_lit(t, "[Headers]") {
            h = h + 1;
        } else if eq_lit(t, "[Asserts]") {
            a = a + 1;
        } else if eq_lit(t, "[Captures]") {
            c = c + 1;
        }
        idx = idx + 1;
    }
    (h, a, c)
}

fn entry_lens_pair(uri: &str, text: &[char], lr: &[(usize, usize)], e: &Entry, out: &mut Vec<CodeLens>)
    requires
        lines_are(text@, lr@),
        all_have_commands(old(out)@),
    ensures
        all_have_commands(final(out)@),
        lenses_view(final(out)@) == lenses_view(old(out)@) + entry_lenses(uri@, text@, crate::diagnostics::entry_view(*e)),
{
    let (h, a, c) = count_sections_after_entry(text, lr, e.line as usize);
    let r = range(position(e.line, 0), position(e.line, 0));
    let mut title: Vec<char> = Vec::new();
    push_str(&mut title, "📋 ");
    push_str(&mut title, e.method.as_str());
    push_str(&mut title, " ");
    push_str(&mut title, e.path.as_str());
    push_str(&mut title, "  │ ");
    push_decimal(&mut title, h as u64);
    push_str(&mut title, " headers │ ");
    push_decimal(&mut title, a as u64);
    push_str(&mut title, " asserts │ ");
    push_decimal(&mut title, c as u64);
    push_str(&mut title, " captures");
    let ghost old_out = out@;
    out.push(CodeLens {
        range: r,
        command: Some(Command { title: string_of(title.as_slice()), command: NOOP_COMMAND.to_owned(), arguments: None }),
    });
    let mut args: Vec<LensArgument> = Vec::new();
    args.push(LensArgument::Text(uri.to_owned()));
    args.push(LensArgument::Number(e.line as u64));
    out.push(CodeLens {
        range: r,
        command: Some(Command { title: "▶ Run".to_owned(), command: RUN_ENTRY_COMMAND.to_owned(), arguments: Some(args) }),
    });
    proof {
        assert(title@ =~= summary_title(e.method@, e.path@, section_counts(text@, e.line as int)));
        assert(args@.map_values(|x: LensArgument| arg_view(x)) =~= seq![ArgView::Text(uri@), ArgView::Number(e.line as u64)]);
        assert(lenses_view(out@) =~= lenses_view(old_out) + entry_lenses(uri@, text@, crate::diagnostics::entry_view(*e)));
    }
}

/// The lenses of a document: for each request, a summary and a run action at its line.
pub fn code_lenses(uri: &str, text: &str) -> (r: Vec<CodeLens>)
    ensures
        all_have_commands(r@),
        lenses_view(r@) == spec_code_lenses(uri@, text@),
{
    let t = chars_of(text);
    let lr = line_ranges(t.as_slice());
    let entries = entries_of(t.as_slice(), lr.as_slice());
    let ghost es = spec_entries(text@);
    let mut out: Vec<CodeLens> = Vec::new();
    let mut k: usize = 0;
    while k < entries.len()
        invariant
            k <= entries@.len(),
            lines_are(t@, lr@),
            t@ == text@,
            entries_view(entries@) == es,
            all_have_commands(out@),
            lenses_view(out@) == lenses_upto(uri@, text@, es, k as int),
        decreases entries@.len() - k,
    {
        assert(es[k as int] == crate::diagnostics::entry_view(entries@[k as int]));
        if (entries[k].line as usize) <= lr.len() {
            entry_lens_pair(uri, t.as_slice(), lr.as_slice(), &entries[k], &mut out);
        }
        k = k + 1;
    }
    out
}

} // verus!
