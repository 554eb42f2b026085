//! What a run of `hurl` tells: the summary of its output, and the
//! diagnostics that a failed run leaves on the request.
use vstd::prelude::*;
use vstd::utf8::encode_utf8;
use crate::lsp::{pos, position, range, DiagView, Diagnostic, DiagnosticSeverity, Range};
use crate::numbers::{parse_unsigned, parse_unsigned_exec};
use crate::syntax::{eq_lit, lines_are, method_of_line, method_range, section_of_line, section_range};
use crate::text::{
    back_ws, back_ws_exec, chars_of, decimal, find, find_from, find_from_exec, is_ascii_digit, is_digit, is_ws,
    lemma_find_from_found, line_ranges, lines, lower, lower_char, lower_exec, occurs_at, push_str, ranged, string_of,
    trim, trim_range,
};

verus! {

/// Whether a run succeeded, how many asserts failed, and how long it took.
#[derive(Clone, Debug, Default, PartialEq, Eq, Structural)]
pub struct RunSummary {
    pub success: bool,
    pub failed_asserts: usize,
    pub duration_ms: Option<u64>,
}

/// What a run covers.
#[derive(Clone, Copy, Debug, PartialEq, Eq, Structural)]
pub enum RunTarget {
    Entry,
    Chain,
    File,
}

pub open spec fn target_name(t: RunTarget) -> Seq<char> {
    match t {
        RunTarget::Entry => "entry"@,
        RunTarget::Chain => "chain"@,
        RunTarget::File => "file"@,
    }
}

impl RunTarget {
    /// The name of the target on the wire.
    pub fn as_str(self) -> (r: &'static str)
        ensures
            r@ == target_name(self),
    {
        match self {
            RunTarget::Entry => "entry",
            RunTarget::Chain => "chain",
            RunTarget::File => "file",
        }
    }
}

/// Start of the run of digits that ends at `e`.
pub open spec fn digits_start(s: Seq<char>, e: int) -> int
    decreases e,
{
    if e > 0 && e <= s.len() && is_ascii_digit(s[e - 1]) {
        digits_start(s, e - 1)
    } else {
        e
    }
}

/// The number of failed asserts that a line of output reports: the number just before
/// the first `assert failed` (case-insensitive), 1 when there is none or it does not fit,
/// and 0 without that marker.
pub open spec fn failed_assert_count(d: Seq<char>) -> nat {
    let l = lower(d);
    match find(l, "assert failed"@) {
        None => 0,
        Some(p) => {
            let pre = l.take(p);
            let e = back_ws(pre, pre.len() as int);
            let digits = pre.subrange(digits_start(pre, e), e);
            match parse_unsigned(digits, usize::MAX as nat) {
                Some(v) => if digits.len() > 0 { v } else { 1 },
                None => 1,
            }
        },
    }
}

pub open spec fn lower_byte(b: u8) -> u8 {
    if 65 <= b <= 90 { (b + 32) as u8 } else { b }
}

pub open spec fn lower_bytes(b: Seq<u8>) -> Seq<u8> {
    b.map_values(|x: u8| lower_byte(x))
}

pub open spec fn ascii_ws_byte(b: u8) -> bool {
    b == 32 || b == 9 || b == 10 || b == 12 || b == 13
}

pub open spec fn digit_byte(b: u8) -> bool {
    48 <= b <= 57
}

/// A byte that continues a multi-byte UTF-8 character.
pub open spec fn continuation_byte(b: u8) -> bool {
    128 <= b < 192
}

pub open spec fn ws_back_bytes(b: Seq<u8>, i: int) -> int
    decreases i,
{
    if i > 0 && i < b.len() && ascii_ws_byte(b[i]) {
        ws_back_bytes(b, i - 1)
    } else {
        i
    }
}

pub open spec fn digits_back_bytes(b: Seq<u8>, i: int) -> int
    decreases i,
{
    if i > 0 && i <= b.len() && digit_byte(b[i - 1]) {
        digits_back_bytes(b, i - 1)
    } else {
        i
    }
}

/// The outcome of looking for a duration in milliseconds.
pub enum DurationScan {
    Found(nat),
    NotFound,
    /// The slice that would be read does not start on a character boundary.
    Panics,
}

pub open spec fn bytes_as_chars(b: Seq<u8>) -> Seq<char> {
    b.map_values(|x: u8| x as char)
}

/// Scanning the lower-cased bytes `lb` for `ms` from index `idx` on: before each `ms`,
/// step back over ASCII whitespace, then over digits, and read the text from there to the
/// `m`, trimmed, as a `u64`.
pub open spec fn duration_from(lb: Seq<u8>, idx: int) -> DurationScan
    decreases lb.len() - idx,
{
    if idx < 1 || idx >= lb.len() {
        DurationScan::NotFound
    } else if lb[idx - 1] == 109 && lb[idx] == 115 {
        let start = if idx >= 2 { idx - 2 } else { 0 };
        let b = digits_back_bytes(lb, ws_back_bytes(lb, start));
        if continuation_byte(lb[b]) {
            DurationScan::Panics
        } else {
            match parse_unsigned(trim(bytes_as_chars(lb.subrange(b, idx - 1))), u64::MAX as nat) {
                Some(v) => DurationScan::Found(v),
                None => duration_from(lb, idx + 1),
            }
        }
    } else {
        duration_from(lb, idx + 1)
    }
}

/// The duration that a piece of output reports, as `parse_duration_ms` reads it.
pub open spec fn duration_scan(d: Seq<char>) -> DurationScan {
    duration_from(lower_bytes(encode_utf8(d)), 1)
}

pub open spec fn spec_duration(d: Seq<char>) -> Option<u64> {
    match duration_scan(d) {
        DurationScan::Found(v) => Some(v as u64),
        _ => None,
    }
}

/// The summary of a run from its standard error and standard output.
pub open spec fn spec_run_summary(stderr: Seq<char>, stdout: Seq<char>, success: bool) -> (bool, nat, Option<u64>) {
    let a = failed_assert_count(stderr);
    let b = failed_assert_count(stdout);
    (
        success,
        if a >= b { a } else { b },
        match spec_duration(stderr) {
            Some(v) => Some(v),
            None => spec_duration(stdout),
        },
    )
}

proof fn lemma_digits_start_run(s: Seq<char>, i: int, e: int)
    requires
        0 <= i <= e <= s.len(),
        forall|k: int| i <= k < e ==> is_ascii_digit(#[trigger] s[k]),
    ensures
        digits_start(s, e) == digits_start(s, i),
    decreases e - i,
{
    if i < e {
        lemma_digits_start_run(s, i, e - 1);
    }
}

/// The count of failed asserts is the whole run of digits written before the first
/// `assert failed` (in any case), whitespace between them allowed: output that reads
/// `<text><digits><spaces>assert failed<anything>`, where the text holds no `assert failed`
/// and does not end in a digit, counts the value of all the digits.
pub proof fn law_failed_count_reads_whole_number(
    a: Seq<char>,
    ds: Seq<char>,
    ws: Seq<char>,
    mk: Seq<char>,
    rest: Seq<char>,
)
    requires
        ds.len() > 0,
        crate::numbers::all_digits(ds),
        crate::numbers::digits_value(ds) <= usize::MAX,
        forall|k: int| 0 <= k < ws.len() ==> is_ws(#[trigger] ws[k]),
        lower(mk) == "assert failed"@,
        a.len() == 0 || !is_ascii_digit(a.last()),
        !crate::text::contains(lower(a), "assert failed"@),
    ensures
        failed_assert_count(a + ds + ws + mk + rest) == crate::numbers::digits_value(ds),
{
    reveal_strlit("assert failed");
    let m = "assert failed"@;
    let d = a + ds + ws + mk + rest;
    let l = lower(d);
    let la = a.len() as int;
    let q = la + ds.len();
    let p = q + ws.len();
    assert(mk.len() == m.len());
    assert forall|k: int| 0 <= k < l.len() implies #[trigger] l[k] == (if k < la {
        lower(a)[k]
    } else if k < p {
        d[k]
    } else if k < p + m.len() {
        m[k - p]
    } else {
        l[k]
    }) by {
        if k < la {
            assert(d[k] == a[k]);
        } else if k < q {
            assert(d[k] == ds[k - la]);
            assert(is_ascii_digit(ds[k - la]));
        } else if k < p {
            assert(d[k] == ws[k - q]);
            assert(is_ws(ws[k - q]));
        } else if k < p + m.len() {
            assert(d[k] == mk[k - p]);
            assert(lower(mk)[k - p] == lower_char(mk[k - p]));
        }
    }
    assert(l.subrange(p, p + m.len()) =~= m);
    assert(occurs_at(l, m, p));
    lemma_find_from_found(lower(a), m, 0);
    assert forall|i: int| 0 <= i < p implies !occurs_at(l, m, i) by {
        if occurs_at(l, m, i) {
            assert(l[i] == l.subrange(i, i + m.len())[0]);
            if i < la {
                if i + m.len() <= la {
                    assert(lower(a).subrange(i, i + m.len()) =~= l.subrange(i, i + m.len()));
                    assert(occurs_at(lower(a), m, i));
                } else {
                    assert(l[la] == l.subrange(i, i + m.len())[la - i]);
                    assert(is_ascii_digit(ds[0]));
                }
            } else if i < q {
                assert(is_ascii_digit(ds[i - la]));
            } else {
                assert(is_ws(ws[i - q]));
            }
        }
    }
    lemma_find_from_found(l, m, 0);
    assert(find(l, m) == Some(p));
    let pre = l.take(p);
    assert forall|k: int| q <= k < p implies is_ws(#[trigger] pre[k]) by {
        assert(pre[k] == l[k]);
    }
    crate::text::lemma_back_ws_run(pre, q, p);
    assert(!is_ws(pre[q - 1])) by {
        assert(pre[q - 1] == l[q - 1]);
        assert(is_ascii_digit(ds[ds.len() - 1]));
    }
    assert(back_ws(pre, q) == q);
    assert forall|k: int| la <= k < q implies is_ascii_digit(#[trigger] pre[k]) by {
        assert(pre[k] == l[k]);
        assert(is_ascii_digit(ds[k - la]));
    }
    lemma_digits_start_run(pre, la, q);
    if la > 0 {
        assert(pre[la - 1] == lower(a)[la - 1]);
        assert(!is_ascii_digit(pre[la - 1]));
    }
    assert(digits_start(pre, la) == la);
    assert(pre.subrange(la, q) =~= ds);
}

/// For every `n`, output that reads `<n> assert failed` counts `n` failed asserts.
pub proof fn law_failed_count_of_numeral(n: nat, rest: Seq<char>)
    requires
        n <= usize::MAX,
    ensures
        failed_assert_count(decimal(n) + " assert failed"@ + rest) == n,
{
    reveal_strlit(" assert failed");
    reveal_strlit("assert failed");
    reveal_strlit(" ");
    crate::numbers::lemma_decimal_value(n);
    let e = Seq::<char>::empty();
    assert(lower("assert failed"@) =~= "assert failed"@);
    lemma_find_from_found(lower(e), "assert failed"@, 0);
    assert(e + decimal(n) + " "@ + "assert failed"@ + rest =~= decimal(n) + " assert failed"@ + rest);
    law_failed_count_reads_whole_number(e, decimal(n), " "@, "assert failed"@, rest);
}

/// Number of failed asserts reported by `detail`.
pub fn parse_failed_assert_count(detail: &str) -> (r: usize)
    ensures
        r as nat == failed_assert_count(detail@),
{
    let d = chars_of(detail);
    let l = lower_exec(d.as_slice());
    let marker = chars_of("assert failed");
    let p = match find_from_exec(l.as_slice(), marker.as_slice(), 0) {
        None => return 0,
        Some(p) => p,
    };
    proof {
        lemma_find_from_found(l@, marker@, 0);
    }
    let pre = &l.as_slice()[0..p];
    assert(pre@ =~= l@.take(p as int));
    let e = back_ws_exec(pre, pre.len());
    let mut s = e;
    while s > 0 && is_digit(pre[s - 1])
        invariant
            s <= e <= pre@.len(),
            digits_start(pre@, e as int) == digits_start(pre@, s as int),
        decreases s,
    {
        s = s - 1;
    }
    let digits = &pre[s..e];
    match parse_unsigned_exec(digits, usize::MAX as u64) {
        Some(v) => if digits.len() > 0 { v as usize } else { 1 },
        None => 1,
    }
}

fn lower_byte_exec(b: u8) -> (r: u8)
    ensures
        r == lower_byte(b),
{
    if b >= 65 && b <= 90 { b + 32 } else { b }
}

/// The duration in milliseconds that `detail` reports, or `None` where reading it would
/// slice inside a character.
fn scan_duration(detail: &str) -> (r: Option<Option<u64>>)
    ensures
        r is None <==> duration_scan(detail@) is Panics,
        r matches Some(d) ==> d == spec_duration(detail@),
{
    let raw = detail.as_bytes();
    let n = raw.len();
    let mut lb: Vec<u8> = Vec::new();
    let mut k: usize = 0;
    while k < n
        invariant
            k <= n == raw@.len(),
            lb@ == lower_bytes(raw@.take(k as int)),
        decreases n - k,
    {
        lb.push(lower_byte_exec(raw[k]));
        k = k + 1;
        assert(lb@ =~= lower_bytes(raw@.take(k as int)));
    }
    assert(raw@.take(k as int) =~= raw@);
    let ghost g = lb@;
    assert(g == lower_bytes(encode_utf8(detail@)));
    let mut idx: usize = 1;
    while idx < n
        invariant
            1 <= idx,
            n == lb@.len(),
            g == lb@,
            g == lower_bytes(encode_utf8(detail@)),
            duration_from(g, 1) == duration_from(g, idx as int),
        decreases n - idx,
    {
        if lb[idx - 1] == 109 && lb[idx] == 115 {
            let mut begin: usize = if idx >= 2 { idx - 2 } else { 0 };
            let ghost start = begin as int;
            while begin > 0 && (lb[begin] == 32 || lb[begin] == 9 || lb[begin] == 10 || lb[begin] == 12 || lb[begin] == 13)
                invariant
                    begin <= start < n,
                    n == lb@.len(),
                    ws_back_bytes(g, start) == ws_back_bytes(g, begin as int),
                    g == lb@,
                decreases begin,
            {
                begin = begin - 1;
            }
            let ghost mid = begin as int;
            while begin > 0 && lb[begin - 1] >= 48 && lb[begin - 1] <= 57
                invariant
                    begin <= mid < n,
                    n == lb@.len(),
                    digits_back_bytes(g, mid) == digits_back_bytes(g, begin as int),
                    g == lb@,
                decreases begin,
            {
                begin = begin - 1;
            }
            let mut cand: Vec<char> = Vec::new();
            let mut j = begin;
            while j < idx - 1
                invariant
                    begin <= j <= idx - 1,
                    idx < n == lb@.len(),
                    g == lb@,
                    cand@ == bytes_as_chars(g.subrange(begin as int, j as int)),
                decreases idx - 1 - j,
            {
                cand.push(lb[j] as char);
                j = j + 1;
                assert(cand@ =~= bytes_as_chars(g.subrange(begin as int, j as int)));
            }
            assert(begin as int == digits_back_bytes(g, ws_back_bytes(g, start)));
            assert(cand@ == bytes_as_chars(g.subrange(begin as int, idx - 1)));
            if lb[begin] >= 128 && lb[begin] < 192 {
                assert(duration_from(g, idx as int) is Panics);
                return None;
            }
            let (a, b) = trim_range(cand.as_slice());
            if let Some(v) = parse_unsigned_exec(&cand.as_slice()[a..b], u64::MAX) {
                assert(duration_from(g, idx as int) == DurationScan::Found(v as nat));
                return Some(Some(v));
            }
        }
        idx = idx + 1;
    }
    Some(None)
}

/// The duration in milliseconds that `detail` reports.
pub fn parse_duration_ms(detail: &str) -> (r: Option<u64>)
    requires
        !(duration_scan(detail@) is Panics),
    ensures
        r == spec_duration(detail@),
{
    match scan_duration(detail) {
        Some(d) => d,
        None => None,
    }
}

/// Whether reading a duration from `detail` would slice inside a character, the one input
/// on which `parse_duration_ms` is not defined.
pub fn duration_would_panic(detail: &str) -> (r: bool)
    ensures
        r == duration_scan(detail@) is Panics,
{
    scan_duration(detail).is_none()
}

/// Summarises a run from its output.
pub fn parse_run_summary(stderr: &str, stdout: &str, success: bool) -> (r: RunSummary)
    requires
        !(duration_scan(stderr@) is Panics),
        spec_duration(stderr@) is None ==> !(duration_scan(stdout@) is Panics),
    ensures
        (r.success, r.failed_asserts as nat, r.duration_ms) == spec_run_summary(stderr@, stdout@, success),
{
    let a = parse_failed_assert_count(stderr);
    let b = parse_failed_assert_count(stdout);
    let duration_ms = match parse_duration_ms(stderr) {
        Some(v) => Some(v),
        None => parse_duration_ms(stdout),
    };
    RunSummary { success, failed_asserts: if a >= b { a } else { b }, duration_ms }
}

/// What follows the first `assert failed:` (case-insensitive) of a run's output, trimmed,
/// when it is not empty.
pub open spec fn failed_assert(d: Seq<char>) -> Option<Seq<char>> {
    match find(lower(d), "assert failed:"@) {
        None => None,
        Some(i) => {
            let suffix = trim(d.skip(i + "assert failed:"@.len()));
            if suffix.len() > 0 { Some(suffix) } else { None }
        },
    }
}

/// The diagnostic that a failed run leaves on a line.
pub open spec fn failure_view(line: u32, detail: Seq<char>) -> DiagView {
    DiagView {
        range: Range { start: pos(line, 0), end: pos(line, 1) },
        severity: DiagnosticSeverity::Error,
        source: "hurl-lsp-run"@,
        message: "Run failed: "@ + detail,
    }
}

pub open spec fn failure_views(ls: Seq<u32>, detail: Seq<char>) -> Seq<DiagView> {
    ls.map_values(|l: u32| failure_view(l, detail))
}

/// Scan of the first `n` lines for the assert lines of the request at `entry_line`:
/// (inside the request, inside its `[Asserts]`, past its end, lines found).
pub open spec fn failure_scan(ls: Seq<Seq<char>>, n: int, entry_line: u32, expected: Option<Seq<char>>)
    -> (bool, bool, bool, Seq<u32>)
    decreases n,
{
    if n <= 0 {
        (false, false, false, Seq::empty())
    } else {
        let (in_entry, in_asserts, stopped, found) = failure_scan(ls, n - 1, entry_line, expected);
        let line_no = (n - 1) as u32;
        let t = trim(ls[n - 1]);
        if stopped {
            (in_entry, in_asserts, stopped, found)
        } else if line_no == entry_line {
            (true, in_asserts, stopped, found)
        } else if !in_entry {
            (in_entry, in_asserts, stopped, found)
        } else if method_of_line(t) is Some {
            (in_entry, in_asserts, true, found)
        } else if section_of_line(t) is Some {
            (in_entry, section_of_line(t).unwrap() == "Asserts"@, stopped, found)
        } else if !in_asserts || t.len() == 0 || t[0] == '#' {
            (in_entry, in_asserts, stopped, found)
        } else if expected is Some && !crate::text::contains(t, expected.unwrap()) {
            (in_entry, in_asserts, stopped, found)
        } else {
            (in_entry, in_asserts, stopped, found.push(line_no))
        }
    }
}

/// The lines that a failure of the request at `entry_line` is reported on: the lines of its
/// `[Asserts]` section (only those holding the failed assert when the output names it),
/// or the request line when there are none.
pub open spec fn failure_lines(source: Seq<char>, entry_line: u32, detail: Seq<char>) -> Seq<u32> {
    let ls = lines(source);
    let found = failure_scan(ls, ls.len() as int, entry_line, failed_assert(detail)).3;
    if found.len() == 0 { seq![entry_line] } else { found }
}

/// The failed assert named by `detail`, as a range of `detail`.
fn parse_failed_assert(d: &[char]) -> (r: Option<(usize, usize)>)
    ensures
        r is Some <==> failed_assert(d@) is Some,
        r matches Some(p) ==> p.0 <= p.1 <= d@.len() && failed_assert(d@) == Some(d@.subrange(p.0 as int, p.1 as int)),
{
    let l = lower_exec(d);
    let marker = chars_of("assert failed:");
    proof {
        reveal_strlit("assert failed:");
    }
    assert(l@.len() == d@.len());
    let i = match find_from_exec(l.as_slice(), marker.as_slice(), 0) {
        None => return None,
        Some(i) => i,
    };
    proof {
        lemma_find_from_found(l@, marker@, 0);
    }
    let n = d.len();
    let rest = &d[i + marker.len()..n];
    assert(rest@ =~= d@.skip(i + "assert failed:"@.len()));
    let (a, b) = trim_range(rest);
    if a < b {
        assert(rest@.subrange(a as int, b as int) =~= d@.subrange(i + marker@.len() + a, i + marker@.len() + b));
        Some((i + marker.len() + a, i + marker.len() + b))
    } else {
        None
    }
}

/// The diagnostic of a failed run on `line`.
pub fn failure_diag(line: u32, detail: &str) -> (r: Diagnostic)
    ensures
        r@ == failure_view(line, detail@),
{
    let mut msg: Vec<char> = Vec::new();
    push_str(&mut msg, "Run failed: ");
    push_str(&mut msg, detail);
    Diagnostic {
        range: range(position(line, 0), position(line, 1)),
        severity: DiagnosticSeverity::Error,
        source: "hurl-lsp-run".to_owned(),
        message: string_of(msg.as_slice()),
    }
}

/// The diagnostics of a run of the request at `line`: none on success, else one.
pub fn execution_diagnostics_for_result(line: u32, success: bool, detail: &str) -> (r: Vec<Diagnostic>)
    ensures
        success ==> r@.len() == 0,
        !success ==> crate::lsp::diag_views(r@) == seq![failure_view(line, detail@)],
{
    if success {
        return Vec::new();
    }
    let mut v = Vec::new();
    v.push(failure_diag(line, detail));
    assert(crate::lsp::diag_views(v@) =~= seq![failure_view(line, detail@)]);
    v
}

/// The diagnostics of a failed run of the request at `entry_line`, placed on the
/// lines of its asserts.
pub fn execution_diagnostics_for_entry_failure(source: &str, entry_line: u32, detail: &str) -> (r: Vec<Diagnostic>)
    ensures
        crate::lsp::diag_views(r@) == failure_views(failure_lines(source@, entry_line, detail@), detail@),
{
    let d = chars_of(detail);
    let expected = parse_failed_assert(d.as_slice());
    let ghost exp = failed_assert(detail@);
    let text = chars_of(source);
    let lr = line_ranges(text.as_slice());
    let ghost ls = lines(text@);
    let mut diagnostics: Vec<Diagnostic> = Vec::new();
    let mut found: Vec<u32> = Vec::new();
    let mut in_entry = false;
    let mut in_asserts = false;
    let mut stopped = false;
    let mut idx: usize = 0;
    while idx < lr.len() && !stopped
        invariant
            idx <= lr@.len(),
            lines_are(text@, lr@),
            ls == lines(text@),
            exp == failed_assert(d@),
            expected is Some <==> exp is Some,
            expected matches Some(p) ==> p.0 <= p.1 <= d@.len() && exp == Some(d@.subrange(p.0 as int, p.1 as int)),
            failure_scan(ls, idx as int, entry_line, exp) == (in_entry, in_asserts, stopped, found@),
            crate::lsp::diag_views(diagnostics@) == failure_views(found@, detail@),
        decreases lr@.len() - idx,
    {
        let (la, lb) = lr[idx];
        let line = &text.as_slice()[la..lb];
        assert(line@ == ls[idx as int]);
        #[verifier::truncate]
        let line_no = idx as u32;
        if line_no == entry_line {
            in_entry = true;
            idx = idx + 1;
            continue;
        }
        if !in_entry {
            idx = idx + 1;
            continue;
        }
        let (ta, tb) = trim_range(line);
        let t = &line[ta..tb];
        if method_range(t).is_some() {
            stopped = true;
            idx = idx + 1;
            continue;
        }
        if let Some((a, b)) = section_range(t) {
            in_asserts = eq_lit(&t[a..b], "Asserts");
            idx = idx + 1;
            continue;
        }
        if !in_asserts || t.len() == 0 || t[0] == '#' {
            idx = idx + 1;
            continue;
        }
        if let Some((ea, eb)) = expected {
            if find_from_exec(t, &d.as_slice()[ea..eb], 0).is_none() {
                idx = idx + 1;
                continue;
            }
        }
        let ghost old_found = found@;
        let ghost old_diags = diagnostics@;
        found.push(line_no);
        let dg = failure_diag(line_no, detail);
        let ghost dv = dg@;
        diagnostics.push(dg);
        assert(crate::lsp::diag_views(diagnostics@) =~= crate::lsp::diag_views(old_diags).push(dv));
        assert(failure_views(found@, detail@) =~= failure_views(old_found, detail@).push(dv));
        idx = idx + 1;
    }
    proof {
        if stopped {
            lemma_failure_scan_stopped(ls, idx as int, lr@.len() as int, entry_line, exp);
        }
    }
    if diagnostics.len() == 0 {
        let r = execution_diagnostics_for_result(entry_line, false, detail);
        assert(failure_views(seq![entry_line], detail@) =~= seq![failure_view(entry_line, detail@)]);
        return r;
    }
    diagnostics
}

/// Once past the end of the request, the scan finds nothing more.
pub proof fn lemma_failure_scan_stopped(ls: Seq<Seq<char>>, n: int, m: int, entry_line: u32, expected: Option<Seq<char>>)
    requires
        0 <= n <= m,
        failure_scan(ls, n, entry_line, expected).2,
    ensures
        failure_scan(ls, m, entry_line, expected) == failure_scan(ls, n, entry_line, expected),
    decreases m - n,
{
    if n < m {
        lemma_failure_scan_stopped(ls, n, m - 1, entry_line, expected);
    }
}

proof fn lemma_failure_scan(ls: Seq<Seq<char>>, n: int, entry_line: u32, expected: Option<Seq<char>>)
    requires
        0 <= n <= u32::MAX + 1,
    ensures
        ({
            let (in_entry, _, _, found) = failure_scan(ls, n, entry_line, expected);
            &&& in_entry ==> entry_line < n
            &&& forall|k: int| 0 <= k < found.len() ==> entry_line < #[trigger] found[k] < n
            &&& forall|i: int, j: int| 0 <= i < j < found.len() ==> #[trigger] found[i] < #[trigger] found[j]
            &&& forall|k: int| 0 <= k < found.len() ==> {
                let t = trim(ls[#[trigger] found[k] as int]);
                &&& t.len() > 0
                &&& t[0] != '#'
                &&& expected matches Some(x) ==> crate::text::contains(t, x)
            }
        }),
    decreases n,
{
    if n > 0 {
        lemma_failure_scan(ls, n - 1, entry_line, expected);
        let found = failure_scan(ls, n - 1, entry_line, expected).3;
        let found1 = failure_scan(ls, n, entry_line, expected).3;
        if found1 != found {
            assert(found1 == found.push((n - 1) as u32));
            assert forall|k: int| 0 <= k < found1.len() - 1 implies found1[k] == found[k] by {}
        }
    }
}

/// No line after line `e` up to line `l` starts a request.
pub open spec fn no_request_between(ls: Seq<Seq<char>>, e: int, l: int) -> bool {
    forall|m: int| e < m <= l ==> method_of_line(trim(#[trigger] ls[m])) is None
}

/// Whether the section in force before line `n`, among the lines after the request line
/// `e`, is `[Asserts]` (a request line closes nothing here: the scan stops there).
pub open spec fn asserts_open(ls: Seq<Seq<char>>, e: int, n: int) -> bool
    decreases n,
{
    if n <= e + 1 || n <= 0 {
        false
    } else {
        let t = trim(ls[n - 1]);
        if method_of_line(t) is None && section_of_line(t) is Some {
            section_of_line(t).unwrap() == "Asserts"@
        } else {
            asserts_open(ls, e, n - 1)
        }
    }
}

/// A line that a failure of the request at line `e` is reported on: after the request line
/// and before the next request, inside an `[Asserts]` section, neither blank nor a comment
/// nor a section header, and holding the failed assert when the output names one.
pub open spec fn failure_line(ls: Seq<Seq<char>>, e: int, l: int, expected: Option<Seq<char>>) -> bool {
    let t = trim(ls[l]);
    &&& e < l
    &&& no_request_between(ls, e, l)
    &&& section_of_line(t) is None
    &&& asserts_open(ls, e, l)
    &&& t.len() > 0
    &&& t[0] != '#'
    &&& (expected matches Some(x) ==> crate::text::contains(t, x))
}

proof fn lemma_failure_scan_exact(ls: Seq<Seq<char>>, n: int, entry_line: u32, expected: Option<Seq<char>>)
    requires
        0 <= n <= u32::MAX + 1,
    ensures
        ({
            let e = entry_line as int;
            let (in_entry, in_asserts, stopped, found) = failure_scan(ls, n, entry_line, expected);
            &&& in_entry == (e < n)
            &&& stopped == !no_request_between(ls, e, n - 1)
            &&& !stopped ==> in_asserts == asserts_open(ls, e, n)
            &&& forall|k: int| 0 <= k < found.len() ==> (#[trigger] found[k]) < n
            &&& forall|l: int| 0 <= l < n ==> (found.contains(l as u32) <==> #[trigger] failure_line(ls, e, l, expected))
        }),
    decreases n,
{
    let e = entry_line as int;
    if n > 0 {
        lemma_failure_scan_exact(ls, n - 1, entry_line, expected);
        let l0 = n - 1;
        let (ie, ia, st, found) = failure_scan(ls, n - 1, entry_line, expected);
        let (ie1, ia1, st1, found1) = failure_scan(ls, n, entry_line, expected);
        let t = trim(ls[l0]);
        assert(l0 as u32 == l0);
        if st {
            let m = choose|m: int| e < m <= n - 2 && !(method_of_line(trim(#[trigger] ls[m])) is None);
            assert(!no_request_between(ls, e, n - 1));
            assert(!no_request_between(ls, e, l0));
        } else if l0 == e {
            assert(no_request_between(ls, e, n - 1));
        } else if !ie {
            assert(no_request_between(ls, e, n - 1));
        } else if method_of_line(t) is Some {
            assert(!no_request_between(ls, e, n - 1));
        } else {
            assert(no_request_between(ls, e, n - 1)) by {
                assert forall|m: int| e < m <= n - 1 implies method_of_line(trim(#[trigger] ls[m])) is None by {
                    if m < n - 1 {
                        assert(no_request_between(ls, e, n - 2));
                    }
                }
            }
        }
        assert forall|l: int| 0 <= l < n implies (found1.contains(l as u32) <==> #[trigger] failure_line(ls, e, l, expected)) by {
            if l < l0 {
                assert(found.contains(l as u32) <==> failure_line(ls, e, l, expected));
                if found1 != found {
                    assert(found1 == found.push(l0 as u32));
                    if found1.contains(l as u32) {
                        let k = choose|k: int| 0 <= k < found1.len() && found1[k] == l as u32;
                        if k < found.len() {
                            assert(found[k] == found1[k]);
                        }
                    }
                    if found.contains(l as u32) {
                        let k = choose|k: int| 0 <= k < found.len() && found[k] == l as u32;
                        assert(found1[k] == found[k]);
                    }
                }
            } else {
                if found.contains(l as u32) {
                    let k = choose|k: int| 0 <= k < found.len() && found[k] == l as u32;
                    assert(found[k] < n - 1);
                }
                if found1 != found {
                    assert(found1 == found.push(l0 as u32));
                    assert(found1[found.len() as int] == l0 as u32);
                } else if found1.contains(l as u32) {
                    assert(found.contains(l as u32));
                }
            }
        }
    }
}

/// A failed run of a request is reported on at least one line, each report an error
/// saying `Run failed: ` and the output. The lines are exactly those of the request's
/// `[Asserts]` sections after its request line and before the next request, in order,
/// none blank, a comment or a header, each holding the failed assert when the output
/// names one (every such line, and only those); with no such line,
/// the report is the one on the request line that a failed run of it gives.
/// (Lines are counted in `u32`, so the document has at most `u32::MAX` lines.)
pub proof fn law_entry_failure_reports(source: Seq<char>, entry_line: u32, detail: Seq<char>)
    requires
        lines(source).len() <= u32::MAX,
    ensures
        ({
            let ls = lines(source);
            let found = failure_scan(ls, ls.len() as int, entry_line, failed_assert(detail)).3;
            let out = failure_views(failure_lines(source, entry_line, detail), detail);
            &&& out.len() >= 1
            &&& forall|k: int| 0 <= k < out.len() ==> {
                &&& (#[trigger] out[k]).severity == DiagnosticSeverity::Error
                &&& out[k].message == "Run failed: "@ + detail
            }
            &&& found.len() == 0 ==> out == seq![failure_view(entry_line, detail)]
            &&& found.len() > 0 ==> out.len() == found.len() && forall|k: int|
                0 <= k < found.len() ==> (#[trigger] out[k]).range.start.line == found[k]
            &&& forall|i: int, j: int| 0 <= i < j < found.len() ==> #[trigger] found[i] < #[trigger] found[j]
            &&& forall|k: int| 0 <= k < found.len() ==> {
                let t = trim(ls[#[trigger] found[k] as int]);
                &&& entry_line < found[k]
                &&& t.len() > 0
                &&& t[0] != '#'
                &&& failed_assert(detail) matches Some(x) ==> crate::text::contains(t, x)
            }
            &&& forall|l: int| 0 <= l < ls.len() ==> (found.contains(l as u32) <==> #[trigger] failure_line(
                ls,
                entry_line as int,
                l,
                failed_assert(detail),
            ))
        }),
{
    let ls = lines(source);
    lemma_failure_scan(ls, ls.len() as int, entry_line, failed_assert(detail));
    lemma_failure_scan_exact(ls, ls.len() as int, entry_line, failed_assert(detail));
    let found = failure_scan(ls, ls.len() as int, entry_line, failed_assert(detail)).3;
    if found.len() == 0 {
        assert(failure_views(seq![entry_line], detail) =~= seq![failure_view(entry_line, detail)]);
    }
}

} // verus!
