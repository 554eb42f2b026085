//! Inline previews of the values that a document's `{{name}}` placeholders resolve to.
use vstd::prelude::*;
use crate::lsp::{pos, position, Position, Range};
use crate::syntax::{
    builtin_variables, lemma_placeholders_ordered, lines_are, placeholder_bounds, placeholder_ranges,
    placeholder_view, placeholders_from, visible_at, visible_before,
};
use crate::text::{
    blen, chars_of, u16len, utf16_offset, decimal, eq_exec, lemma_blen_subrange, line_ranges, lines, push_all,
    push_decimal, push_str, ranged, seqs, string_of,
};
use crate::variables::{keyed_by_name, resolved_view, resolved_views, DefView, ResolvedVariable};

verus! {

/// A preview shown after a placeholder: its label and a Markdown tooltip.
#[derive(Clone, Debug)]
pub struct InlayHint {
    pub position: Position,
    pub label: String,
    pub tooltip: String,
}

pub struct HintView {
    pub position: Position,
    pub label: Seq<char>,
    pub tooltip: Seq<char>,
}

pub open spec fn hint_view(h: InlayHint) -> HintView {
    HintView { position: h.position, label: h.label@, tooltip: h.tooltip@ }
}

pub open spec fn hints_view(v: Seq<InlayHint>) -> Seq<HintView> {
    v.map_values(|h: InlayHint| hint_view(h))
}

/// The longest preview, in characters: `max_length` kept between 8 and 500.
pub open spec fn clamp_len(m: usize) -> int {
    if m < 8 {
        8
    } else if m > 500 {
        500
    } else {
        m as int
    }
}

/// A value cut to `max` characters, the last of them `…`, when it is longer.
pub open spec fn spec_truncate(v: Seq<char>, max: int) -> Seq<char> {
    if v.len() <= max {
        v
    } else {
        v.take(max - 1) + "…"@
    }
}

/// Index of the first of the first `n` variables with the given name.
pub open spec fn var_index(vars: Seq<(DefView, bool)>, name: Seq<char>, n: int) -> Option<int>
    decreases n,
{
    if n <= 0 {
        None
    } else {
        let prev = var_index(vars, name, n - 1);
        if prev is Some {
            prev
        } else if vars[n - 1].0.name == name {
            Some(n - 1)
        } else {
            None
        }
    }
}

pub open spec fn external_label(v: (DefView, bool), max: int) -> Seq<char> {
    "= "@ + (if v.1 { "••••••"@ } else { spec_truncate(v.0.value, max) })
}

pub open spec fn external_tooltip(name: Seq<char>, v: (DefView, bool), source: Seq<char>) -> Seq<char> {
    "**"@ + name + "**\n\nSource: `"@ + source + ":"@ + decimal(v.0.line as nat + 1) + "`"@
}

pub open spec fn runtime_tooltip(name: Seq<char>) -> Seq<char> {
    "**"@ + name + "**\n\nAvailable only at runtime."@
}

/// The preview of a placeholder `p` (character range and name) of line `idx`, placed at the
/// UTF-16 column where the placeholder ends: the value of the variable of that name (masked
/// when sensitive) with `sources[i]` naming the file of variable `i`; or, for a variable that
/// a capture or the runner provides, a note; or none.
pub open spec fn hint_of(
    text: Seq<char>,
    idx: int,
    line: Seq<char>,
    p: (int, int, Seq<char>),
    vars: Seq<(DefView, bool)>,
    sources: Seq<Seq<char>>,
    max: int,
) -> Option<HintView> {
    let at = pos(idx as u32, u16len(line.take(p.1)) as u32);
    match var_index(vars, p.2, vars.len() as int) {
        Some(i) => Some(
            HintView { position: at, label: external_label(vars[i], max), tooltip: external_tooltip(p.2, vars[i], sources[i]) },
        ),
        None => if visible_at(text, idx).contains(p.2) || builtin_variables().contains(p.2) {
            Some(HintView { position: at, label: "= runtime value"@, tooltip: runtime_tooltip(p.2) })
        } else {
            None
        },
    }
}

/// The previews of the first `k` placeholders of line `idx`.
pub open spec fn line_hints(
    text: Seq<char>,
    idx: int,
    line: Seq<char>,
    vars: Seq<(DefView, bool)>,
    sources: Seq<Seq<char>>,
    max: int,
    k: int,
) -> Seq<HintView>
    decreases k,
{
    if k <= 0 {
        Seq::empty()
    } else {
        let prev = line_hints(text, idx, line, vars, sources, max, k - 1);
        match hint_of(text, idx, line, placeholders_from(line, 0)[k - 1], vars, sources, max) {
            Some(h) => prev.push(h),
            None => prev,
        }
    }
}

pub open spec fn in_range(idx: int, range: Range) -> bool {
    range.start.line <= (idx as u32) <= range.end.line
}

/// The previews of the first `n` lines.
pub open spec fn hints_upto(
    text: Seq<char>,
    range: Range,
    vars: Seq<(DefView, bool)>,
    sources: Seq<Seq<char>>,
    max: int,
    n: int,
) -> Seq<HintView>
    decreases n,
{
    if n <= 0 {
        Seq::empty()
    } else {
        let prev = hints_upto(text, range, vars, sources, max, n - 1);
        let line = lines(text)[n - 1];
        if in_range(n - 1, range) {
            prev + line_hints(text, n - 1, line, vars, sources, max, placeholders_from(line, 0).len() as int)
        } else {
            prev
        }
    }
}

/// The previews of the lines of `range`, in document order.
pub open spec fn spec_hints(
    text: Seq<char>,
    range: Range,
    vars: Seq<(DefView, bool)>,
    sources: Seq<Seq<char>>,
    max_length: usize,
) -> Seq<HintView> {
    hints_upto(text, range, vars, sources, clamp_len(max_length), lines(text).len() as int)
}

/// A value cut to `max` characters, the last of them `…`, when it is longer.
pub fn truncate(value: &str, max_length: usize) -> (r: String)
    requires
        max_length >= 1,
    ensures
        r@ == spec_truncate(value@, max_length as int),
{
    let v = chars_of(value);
    if v.len() <= max_length {
        return value.to_owned();
    }
    let mut out: Vec<char> = Vec::new();
    push_all(&mut out, &v.as_slice()[0..max_length - 1]);
    push_str(&mut out, "…");
    assert(v@.subrange(0, max_length - 1) =~= v@.take(max_length - 1));
    string_of(out.as_slice())
}

fn var_position(vars: &Vec<ResolvedVariable>, name: &[char]) -> (r: Option<usize>)
    ensures
        match r {
            Some(i) => i < vars@.len() && var_index(resolved_views(vars@), name@, vars@.len() as int) == Some(i as int),
            None => var_index(resolved_views(vars@), name@, vars@.len() as int) is None,
        },
{
    let ghost vv = resolved_views(vars@);
    let mut k: usize = 0;
    while k < vars.len()
        invariant
            k <= vars@.len(),
            vv == resolved_views(vars@),
            var_index(vv, name@, k as int) is None,
        decreases vars@.len() - k,
    {
        let nv = chars_of(vars[k].name.as_str());
        assert(vv[k as int] == resolved_view(vars@[k as int]));
        if eq_exec(nv.as_slice(), name) {
            proof {
                lemma_var_index_stays(vv, name@, k + 1, vv.len() as int);
            }
            return Some(k);
        }
        k = k + 1;
    }
    None
}

proof fn lemma_var_index_stays(vars: Seq<(DefView, bool)>, name: Seq<char>, m: int, n: int)
    requires
        m <= n,
        var_index(vars, name, m) is Some,
    ensures
        var_index(vars, name, n) == var_index(vars, name, m),
    decreases n - m,
{
    if m < n {
        lemma_var_index_stays(vars, name, m, n - 1);
    }
}

fn sorted_contains(v: &Vec<Vec<char>>, x: &[char]) -> (r: bool)
    ensures
        r == seqs(v@).to_set().contains(x@),
{
    let mut k: usize = 0;
    while k < v.len()
        invariant
            k <= v@.len(),
            forall|j: int| 0 <= j < k ==> seqs(v@)[j] != x@,
        decreases v@.len() - k,
    {
        if eq_exec(v[k].as_slice(), x) {
            assert(seqs(v@)[k as int] == x@);
            return true;
        }
        k = k + 1;
    }
    false
}

fn is_builtin(x: &[char]) -> (r: bool)
    ensures
        r == builtin_variables().contains(x@),
{
    let a = chars_of("newUuid");
    let b = chars_of("newDate");
    eq_exec(x, a.as_slice()) || eq_exec(x, b.as_slice())
}

/// The previews of one line.
fn hints_of_line(
    text: &[char],
    lr: &[(usize, usize)],
    idx: usize,
    line: &[char],
    vars: &Vec<ResolvedVariable>,
    sources: &Vec<String>,
    max: usize,
    out: &mut Vec<InlayHint>,
)
    requires
        lines_are(text@, lr@),
        idx < lr@.len(),
        line@ == lines(text@)[idx as int],
        blen(line@) <= usize::MAX,
        sources@.len() == vars@.len(),
        8 <= max <= 500,
    ensures
        hints_view(final(out)@) == hints_view(old(out)@) + line_hints(
            text@,
            idx as int,
            line@,
            resolved_views(vars@),
            sources@.map_values(|s: String| s@),
            max as int,
            placeholders_from(line@, 0).len() as int,
        ),
{
    let ghost vv = resolved_views(vars@);
    let ghost sv = sources@.map_values(|s: String| s@);
    let ghost start = hints_view(out@);
    let visible = visible_before(text, lr, idx);
    let q = placeholder_ranges(line);
    let ghost ps = placeholders_from(line@, 0);
    proof {
        lemma_placeholders_ordered(line@, 0);
    }
    let mut k: usize = 0;
    assert(start + line_hints(text@, idx as int, line@, vv, sv, max as int, 0) =~= start);
    while k < q.len()
        invariant
            k <= q@.len(),
            vv == resolved_views(vars@),
            sv == sources@.map_values(|s: String| s@),
            sources@.len() == vars@.len(),
            ps == placeholders_from(line@, 0),
            placeholder_bounds(line@, q@),
            placeholder_view(line@, q@) == ps,
            blen(line@) <= usize::MAX,
            8 <= max <= 500,
            seqs(visible@).to_set() == visible_at(text@, idx as int),
            hints_view(out@) == start + line_hints(text@, idx as int, line@, vv, sv, max as int, k as int),
        decreases q@.len() - k,
    {
        let (st, en, a, b) = q[k];
        assert(ps[k as int] == (st as int, en as int, line@.subrange(a as int, b as int)));
        let name = &line[a..b];
        let be = utf16_offset(line, en);
        #[verifier::truncate]
        let col = be as u32;
        #[verifier::truncate]
        let li = idx as u32;
        let at = position(li, col);
        let ghost old_out = out@;
        match var_position(vars, name) {
            Some(i) => {
                let var = &vars[i];
                assert(vv[i as int] == resolved_view(vars@[i as int]));
                assert(sv[i as int] == sources@[i as int]@);
                let mut label: Vec<char> = Vec::new();
                push_str(&mut label, "= ");
                if var.sensitive {
                    push_str(&mut label, "••••••");
                } else {
                    let t = truncate(var.value.as_str(), max);
                    push_str(&mut label, t.as_str());
                }
                let mut tip: Vec<char> = Vec::new();
                push_str(&mut tip, "**");
                push_all(&mut tip, name);
                push_str(&mut tip, "**\n\nSource: `");
                push_str(&mut tip, sources[i].as_str());
                push_str(&mut tip, ":");
                push_decimal(&mut tip, var.line as u64 + 1);
                push_str(&mut tip, "`");
                let h = InlayHint { position: at, label: string_of(label.as_slice()), tooltip: string_of(tip.as_slice()) };
                out.push(h);
                proof {
                    assert(label@ =~= external_label(vv[i as int], max as int));
                    assert(tip@ =~= external_tooltip(name@, vv[i as int], sv[i as int]));
                    assert(hints_view(out@) =~= hints_view(old_out).push(hint_view(h)));
                }
            },
            None => {
                if sorted_contains(&visible, name) || is_builtin(name) {
                    let mut tip: Vec<char> = Vec::new();
                    push_str(&mut tip, "**");
                    push_all(&mut tip, name);
                    push_str(&mut tip, "**\n\nAvailable only at runtime.");
                    let h = InlayHint {
                        position: at,
                        label: "= runtime value".to_owned(),
                        tooltip: string_of(tip.as_slice()),
                    };
                    out.push(h);
                    proof {
                        assert(tip@ =~= runtime_tooltip(name@));
                        assert(hints_view(out@) =~= hints_view(old_out).push(hint_view(h)));
                    }
                }
            },
        }
        k = k + 1;
    }
}

/// The previews of the placeholders on the lines of `range`, in document order, each at the
/// UTF-16 column where its placeholder ends, with
/// `sources[i]` naming the file of `external[i]`: the value of the first variable of
/// `external` with the placeholder's name (`••••••` when sensitive, else cut to
/// `max_length` kept between 8 and 500 characters), or `runtime value` for a variable
/// that an earlier capture or the runner provides.
pub fn inlay_hints_with_sources(
    text: &str,
    range: Range,
    external: &Vec<ResolvedVariable>,
    sources: &Vec<String>,
    max_length: usize,
) -> (r: Vec<InlayHint>)
    requires
        sources@.len() == external@.len(),
    ensures
        hints_view(r@) == spec_hints(text@, range, resolved_views(external@), sources@.map_values(|s: String| s@), max_length),
{
    let max: usize = if max_length < 8 {
        8
    } else if max_length > 500 {
        500
    } else {
        max_length
    };
    let ghost vv = resolved_views(external@);
    let ghost sv = sources@.map_values(|s: String| s@);
    let t = chars_of(text);
    let lr = line_ranges(t.as_slice());
    let mut out: Vec<InlayHint> = Vec::new();
    let mut idx: usize = 0;
    while idx < lr.len()
        invariant
            idx <= lr@.len(),
            lines_are(t@, lr@),
            t@ == text@,
            blen(t@) <= usize::MAX,
            vv == resolved_views(external@),
            sv == sources@.map_values(|s: String| s@),
            sources@.len() == external@.len(),
            max as int == clamp_len(max_length),
            hints_view(out@) == hints_upto(text@, range, vv, sv, max as int, idx as int),
        decreases lr@.len() - idx,
    {
        #[verifier::truncate]
        let li = idx as u32;
        if range.start.line <= li && li <= range.end.line {
            let (la, lb) = lr[idx];
            let line = &t.as_slice()[la..lb];
            assert(ranged(t@, lr@)[idx as int] == t@.subrange(la as int, lb as int));
            proof {
                lemma_blen_subrange(t@, la as int, lb as int);
            }
            hints_of_line(t.as_slice(), lr.as_slice(), idx, line, external, sources, max, &mut out);
        }
        idx = idx + 1;
    }
    out
}

/// No character of `s` is `c`.
pub open spec fn lacks(s: Seq<char>, c: char) -> bool {
    forall|k: int| 0 <= k < s.len() ==> s[k] != c
}

/// The path of a `file:` URI: `url::Url::parse`, then `Url::to_file_path`, then the path
/// as text. `Url::parse` refuses a text without a `:` (it has no scheme and no base), so
/// then there is none; what a URL gives beyond that depends on the platform and is not
/// stated.
#[verifier::external_body]
fn uri_file_path(uri: &str) -> (r: Option<String>)
    ensures
        lacks(uri@, ':') ==> r is None,
{
    url::Url::parse(uri).ok()?.to_file_path().ok().map(|p| p.to_string_lossy().into_owned())
}

/// `std::path::Path::file_name` of a path, as text: its final component, which holds no
/// `/` (a separator on every platform). Which component that is depends on the
/// platform's path syntax and is not stated.
#[verifier::external_body]
fn path_file_name(path: &str) -> (r: Option<String>)
    ensures
        r matches Some(n) ==> lacks(n@, '/'),
{
    std::path::Path::new(path).file_name().map(|n| n.to_string_lossy().into_owned())
}

/// How a preview names the file of a variable: the file name of its URI (a name without
/// `/`), or the URI itself; a URI without `:` is not a URL and names itself.
fn source_label(uri: &str) -> (r: String)
    ensures
        lacks(uri@, ':') ==> r@ == uri@,
        r@ == uri@ || lacks(r@, '/'),
{
    match uri_file_path(uri) {
        Some(p) => match path_file_name(p.as_str()) {
            Some(n) => n,
            None => uri.to_owned(),
        },
        None => uri.to_owned(),
    }
}

/// A name that may stand for the file of a variable with URI `uri`: the URI itself, or a
/// file name holding no `/`; a URI without `:` names itself.
pub open spec fn labels_file(uri: Seq<char>, label: Seq<char>) -> bool {
    &&& lacks(uri, ':') ==> label == uri
    &&& label == uri || lacks(label, '/')
}

/// The previews of the placeholders on the lines of `range`, each variable's file named by
/// the file name of its URI (or the URI itself): as `inlay_hints_with_sources` states, for
/// the names that these calls give. The variables are keyed by name, as
/// `resolve_variables` gives them.
pub fn variable_inlay_hints(text: &str, range: Range, external: &Vec<ResolvedVariable>, max_length: usize) -> (r: Vec<InlayHint>)
    requires
        keyed_by_name(resolved_views(external@)),
    ensures
        exists|sources: Seq<Seq<char>>|
            {
                &&& sources.len() == external@.len()
                &&& forall|k: int| 0 <= k < sources.len() ==> labels_file(external@[k].uri@, #[trigger] sources[k])
                &&& hints_view(r@) == #[trigger] spec_hints(text@, range, resolved_views(external@), sources, max_length)
            },
{
    let mut sources: Vec<String> = Vec::new();
    let mut k: usize = 0;
    while k < external.len()
        invariant
            k <= external@.len(),
            sources@.len() == k,
            forall|j: int| 0 <= j < k ==> labels_file(external@[j].uri@, #[trigger] sources@[j]@),
        decreases external@.len() - k,
    {
        let l = source_label(external[k].uri.as_str());
        sources.push(l);
        k = k + 1;
    }
    let ghost sv = sources@.map_values(|s: String| s@);
    assert forall|j: int| 0 <= j < sv.len() implies labels_file(external@[j].uri@, #[trigger] sv[j]) by {
        assert(sv[j] == sources@[j]@);
    }
    inlay_hints_with_sources(text, range, external, &sources, max_length)
}

/// A preview is never longer than its limit, and starts the value it previews.
pub proof fn law_truncate_fits(v: Seq<char>, max: int)
    requires
        max >= 1,
    ensures
        spec_truncate(v, max).len() <= max,
        v.len() <= max ==> spec_truncate(v, max) == v,
        v.len() > max ==> spec_truncate(v, max).take(max - 1) == v.take(max - 1),
{
    reveal_strlit("…");
    if v.len() > max {
        assert(spec_truncate(v, max).take(max - 1) =~= v.take(max - 1));
    }
}

/// The preview of a sensitive variable does not depend on its value: the value is never shown.
pub proof fn law_sensitive_value_never_shown(a: DefView, b: DefView, max: int)
    ensures
        external_label((a, true), max) == external_label((b, true), max),
{
}

} // verus!
