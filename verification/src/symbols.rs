//! The outline of a document: requests grouped into chains and priority groups.
use vstd::prelude::*;
use crate::diagnostics::{entries_of, entries_view, spec_entries, Entry};
use crate::lsp::{pos, position, range, Position, Range};
use crate::metadata::{file_meta, metas_view, spec_file_meta, CaseKind, EntryMeta, MetaView, Priority, StepType};
use crate::text::{
    chars_of, eq_exec, insert_sorted, lemma_lex_irreflexive, lemma_sorted_insert, lemma_sorted_of, line_ranges,
    push_str, seqs, sorted_insert, sorted_of, string_of, strictly_sorted,
};

verus! {

#[derive(Clone, Copy, Debug, PartialEq, Eq, Structural)]
pub enum SymbolKind {
    Object,
    Namespace,
}

/// A node of the outline.
#[derive(Debug)]
pub struct DocumentSymbol {
    pub name: String,
    pub kind: SymbolKind,
    pub range: Range,
    pub selection_range: Range,
    pub children: Option<Vec<DocumentSymbol>>,
}

/// A second-level node as a mathematical value.
pub struct LeafView {
    pub name: Seq<char>,
    pub kind: SymbolKind,
    pub range: Range,
    pub selection_range: Range,
    pub has_children: bool,
}

/// A top-level node as a mathematical value, with its children.
pub struct SymView {
    pub name: Seq<char>,
    pub kind: SymbolKind,
    pub range: Range,
    pub selection_range: Range,
    pub children: Option<Seq<LeafView>>,
}

pub open spec fn leaf_view(s: DocumentSymbol) -> LeafView {
    LeafView {
        name: s.name@,
        kind: s.kind,
        range: s.range,
        selection_range: s.selection_range,
        has_children: s.children is Some,
    }
}

pub open spec fn leaves_view(v: Seq<DocumentSymbol>) -> Seq<LeafView> {
    v.map_values(|s: DocumentSymbol| leaf_view(s))
}

pub open spec fn sym_view(s: DocumentSymbol) -> SymView {
    SymView {
        name: s.name@,
        kind: s.kind,
        range: s.range,
        selection_range: s.selection_range,
        children: match s.children {
            Some(v) => Some(leaves_view(v@)),
            None => None,
        },
    }
}

pub open spec fn syms_view(v: Seq<DocumentSymbol>) -> Seq<SymView> {
    v.map_values(|s: DocumentSymbol| sym_view(s))
}

/// A request node: one character wide at the start of the request's line.
pub open spec fn leaf_of(line: u32, name: Seq<char>) -> LeafView {
    let r = Range { start: pos(line, 0), end: pos(line, 1) };
    LeafView { name, kind: SymbolKind::Object, range: r, selection_range: r, has_children: false }
}

pub open spec fn as_top(l: LeafView) -> SymView {
    SymView { name: l.name, kind: l.kind, range: l.range, selection_range: l.selection_range, children: None }
}

/// A group node spanning its children, selected at its first child's start.
pub open spec fn group_of(name: Seq<char>, children: Seq<LeafView>) -> SymView {
    let start = children[0].range.start;
    SymView {
        name,
        kind: SymbolKind::Namespace,
        range: Range { start, end: children.last().range.end },
        selection_range: Range { start, end: start },
        children: Some(children),
    }
}

/// The chain a request belongs to: its case id (`CHAIN` when it has none), if its kind is `chain`.
pub open spec fn chain_key(m: MetaView) -> Option<Seq<char>> {
    if m.case_kind == Some(CaseKind::Chain) {
        Some(
            match m.case_id {
                Some(c) => c,
                None => "CHAIN"@,
            },
        )
    } else {
        None
    }
}

pub open spec fn step_icon(t: Option<StepType>) -> Seq<char> {
    match t {
        Some(StepType::Setup) => "🔧"@,
        Some(StepType::Test) => "🧪"@,
        Some(StepType::Teardown) => "🧹"@,
        None => "•"@,
    }
}

/// Name of a step of a chain: icon, title (or method and path), step id.
pub open spec fn spec_chain_step_name(m: MetaView, method: Seq<char>, path: Seq<char>) -> Seq<char> {
    let title = match m.title {
        Some(t) => t,
        None => method + " "@ + path,
    };
    let head = step_icon(m.step_type) + " "@ + title;
    match m.step_id {
        Some(s) => head + " "@ + s,
        None => head,
    }
}

/// Name of a single case: case id and title (or method and path), then the technique.
pub open spec fn spec_single_case_name(m: MetaView, method: Seq<char>, path: Seq<char>) -> Seq<char> {
    let base = match (m.case_id, m.title) {
        (Some(c), Some(t)) => c + " "@ + t,
        (Some(c), None) => c + " "@ + method + " "@ + path,
        (None, Some(t)) => t,
        (None, None) => method + " "@ + path,
    };
    match m.technique {
        Some(x) => base + " ["@ + x + "]"@,
        None => base,
    }
}

pub open spec fn spec_priority_plain(p: Priority) -> Seq<char> {
    match p {
        Priority::P0 => "P0"@,
        Priority::P1 => "P1"@,
        Priority::P2 => "P2"@,
    }
}

pub open spec fn spec_priority_label(p: Priority) -> Seq<char> {
    match p {
        Priority::P0 => "🟥 P0"@,
        Priority::P1 => "🟧 P1"@,
        Priority::P2 => "🟨 P2"@,
    }
}

/// Name of a chain group, from its id and the metadata of its first step.
pub open spec fn chain_group_name(id: Seq<char>, head: MetaView) -> Seq<char> {
    let title = match head.title {
        Some(t) => t,
        None => Seq::empty(),
    };
    let suffix = match head.priority {
        Some(p) => " ["@ + spec_priority_plain(p) + "]"@,
        None => Seq::empty(),
    };
    if title.len() == 0 {
        "🔗 "@ + id + suffix
    } else {
        "🔗 "@ + id + " "@ + title + suffix
    }
}

/// The steps of chain `id` among the first `n` requests.
pub open spec fn chain_leaves(es: Seq<(Seq<char>, Seq<char>, u32)>, ms: Seq<MetaView>, id: Seq<char>, n: int) -> Seq<LeafView>
    decreases n,
{
    if n <= 0 {
        Seq::empty()
    } else {
        let prev = chain_leaves(es, ms, id, n - 1);
        if chain_key(ms[n - 1]) == Some(id) {
            prev.push(leaf_of(es[n - 1].2, spec_chain_step_name(ms[n - 1], es[n - 1].0, es[n - 1].1)))
        } else {
            prev
        }
    }
}

/// The metadata of the first step of chain `id` among the first `n` requests.
pub open spec fn chain_head(ms: Seq<MetaView>, id: Seq<char>, n: int) -> Option<MetaView>
    decreases n,
{
    if n <= 0 {
        None
    } else {
        let prev = chain_head(ms, id, n - 1);
        if prev is Some {
            prev
        } else if chain_key(ms[n - 1]) == Some(id) {
            Some(ms[n - 1])
        } else {
            None
        }
    }
}

/// The chains among the first `n` requests.
pub open spec fn chain_ids(ms: Seq<MetaView>, n: int) -> Set<Seq<char>>
    decreases n,
{
    if n <= 0 {
        Set::empty()
    } else {
        match chain_key(ms[n - 1]) {
            Some(id) => chain_ids(ms, n - 1).insert(id),
            None => chain_ids(ms, n - 1),
        }
    }
}

/// The requests of priority `p` among the first `n` that belong to no chain.
pub open spec fn single_leaves(es: Seq<(Seq<char>, Seq<char>, u32)>, ms: Seq<MetaView>, p: Priority, n: int) -> Seq<LeafView>
    decreases n,
{
    if n <= 0 {
        Seq::empty()
    } else {
        let prev = single_leaves(es, ms, p, n - 1);
        if chain_key(ms[n - 1]) is None && ms[n - 1].priority == Some(p) {
            prev.push(leaf_of(es[n - 1].2, spec_single_case_name(ms[n - 1], es[n - 1].0, es[n - 1].1)))
        } else {
            prev
        }
    }
}

/// The requests among the first `n` with neither chain nor priority.
pub open spec fn fallback_leaves(es: Seq<(Seq<char>, Seq<char>, u32)>, ms: Seq<MetaView>, n: int) -> Seq<LeafView>
    decreases n,
{
    if n <= 0 {
        Seq::empty()
    } else {
        let prev = fallback_leaves(es, ms, n - 1);
        if chain_key(ms[n - 1]) is None && ms[n - 1].priority is None {
            prev.push(leaf_of(es[n - 1].2, "○ "@ + es[n - 1].0 + " "@ + es[n - 1].1))
        } else {
            prev
        }
    }
}

pub open spec fn chain_group(es: Seq<(Seq<char>, Seq<char>, u32)>, ms: Seq<MetaView>, n: int, id: Seq<char>) -> SymView {
    group_of(chain_group_name(id, chain_head(ms, id, n).unwrap()), chain_leaves(es, ms, id, n))
}

pub open spec fn priority_group(es: Seq<(Seq<char>, Seq<char>, u32)>, ms: Seq<MetaView>, n: int, p: Priority) -> Seq<SymView> {
    let l = single_leaves(es, ms, p, n);
    if l.len() > 0 {
        seq![group_of(spec_priority_label(p), l)]
    } else {
        Seq::empty()
    }
}

/// The number of requests that the outline covers.
pub open spec fn outline_len(text: Seq<char>) -> int {
    let a = spec_entries(text).len() as int;
    let b = spec_file_meta(text).len() as int;
    if a < b { a } else { b }
}

/// The outline of a document: one group per chain in the order of chain ids, then the
/// `P0`, `P1` and `P2` groups that are not empty, then the other requests one by one.
pub open spec fn outline(text: Seq<char>) -> Seq<SymView> {
    let es = spec_entries(text);
    let ms = spec_file_meta(text);
    let n = outline_len(text);
    sorted_of(chain_ids(ms, n)).map_values(|id: Seq<char>| chain_group(es, ms, n, id))
        + priority_group(es, ms, n, Priority::P0)
        + priority_group(es, ms, n, Priority::P1)
        + priority_group(es, ms, n, Priority::P2)
        + fallback_leaves(es, ms, n).map_values(|l: LeafView| as_top(l))
}

proof fn lemma_chain_present(es: Seq<(Seq<char>, Seq<char>, u32)>, ms: Seq<MetaView>, id: Seq<char>, n: int)
    requires
        chain_ids(ms, n).contains(id),
    ensures
        chain_head(ms, id, n) is Some,
        chain_leaves(es, ms, id, n).len() > 0,
    decreases n,
{
    if n > 0 && chain_key(ms[n - 1]) != Some(id) {
        lemma_chain_present(es, ms, id, n - 1);
    }
}

fn leaf_symbol(line: u32, name: String) -> (r: DocumentSymbol)
    ensures
        leaf_view(r) == leaf_of(line, name@),
        sym_view(r) == as_top(leaf_of(line, name@)),
{
    let rg = range(position(line, 0), position(line, 1));
    DocumentSymbol { name, kind: SymbolKind::Object, range: rg, selection_range: rg, children: None }
}

fn group_symbol(name: String, children: Vec<DocumentSymbol>) -> (r: DocumentSymbol)
    requires
        children@.len() > 0,
    ensures
        sym_view(r) == group_of(name@, leaves_view(children@)),
{
    let start: Position = children[0].range.start;
    let end: Position = children[children.len() - 1].range.end;
    let r = DocumentSymbol {
        name,
        kind: SymbolKind::Namespace,
        range: range(start, end),
        selection_range: range(start, start),
        children: Some(children),
    };
    assert(leaves_view(children@)[0] == leaf_view(children@[0]));
    assert(leaves_view(children@).last() == leaf_view(children@.last()));
    r
}

fn chain_key_exec(m: &EntryMeta) -> (r: Option<Vec<char>>)
    ensures
        r is Some <==> chain_key(m@) is Some,
        r matches Some(v) ==> chain_key(m@) == Some(v@),
{
    match m.case_kind {
        Some(CaseKind::Chain) => match &m.case_id {
            Some(c) => Some(chars_of(c.as_str())),
            None => Some(chars_of("CHAIN")),
        },
        _ => None,
    }
}

fn is_chain(m: &EntryMeta) -> (r: bool)
    ensures
        r == (chain_key(m@) is Some),
{
    match m.case_kind {
        Some(CaseKind::Chain) => true,
        _ => false,
    }
}

fn chain_step_name(m: &EntryMeta, e: &Entry) -> (r: String)
    ensures
        r@ == spec_chain_step_name(m@, e.method@, e.path@),
{
    let mut v: Vec<char> = Vec::new();
    match m.step_type {
        Some(StepType::Setup) => push_str(&mut v, "🔧"),
        Some(StepType::Test) => push_str(&mut v, "🧪"),
        Some(StepType::Teardown) => push_str(&mut v, "🧹"),
        None => push_str(&mut v, "•"),
    }
    push_str(&mut v, " ");
    match &m.title {
        Some(t) => push_str(&mut v, t.as_str()),
        None => {
            push_str(&mut v, e.method.as_str());
            push_str(&mut v, " ");
            push_str(&mut v, e.path.as_str());
        },
    }
    match &m.step_id {
        Some(s) => {
            push_str(&mut v, " ");
            push_str(&mut v, s.as_str());
        },
        None => {},
    }
    assert(v@ =~= spec_chain_step_name(m@, e.method@, e.path@));
    string_of(v.as_slice())
}

fn single_case_name(m: &EntryMeta, e: &Entry) -> (r: String)
    ensures
        r@ == spec_single_case_name(m@, e.method@, e.path@),
{
    let mut v: Vec<char> = Vec::new();
    match (&m.case_id, &m.title) {
        (Some(c), Some(t)) => {
            push_str(&mut v, c.as_str());
            push_str(&mut v, " ");
            push_str(&mut v, t.as_str());
        },
        (Some(c), None) => {
            push_str(&mut v, c.as_str());
            push_str(&mut v, " ");
            push_str(&mut v, e.method.as_str());
            push_str(&mut v, " ");
            push_str(&mut v, e.path.as_str());
        },
        (None, Some(t)) => push_str(&mut v, t.as_str()),
        (None, None) => {
            push_str(&mut v, e.method.as_str());
            push_str(&mut v, " ");
            push_str(&mut v, e.path.as_str());
        },
    }
    match &m.technique {
        Some(x) => {
            push_str(&mut v, " [");
            push_str(&mut v, x.as_str());
            push_str(&mut v, "]");
        },
        None => {},
    }
    assert(v@ =~= spec_single_case_name(m@, e.method@, e.path@));
    string_of(v.as_slice())
}

fn push_priority_plain(out: &mut Vec<char>, p: Priority)
    ensures
        final(out)@ == old(out)@ + spec_priority_plain(p),
{
    match p {
        Priority::P0 => push_str(out, "P0"),
        Priority::P1 => push_str(out, "P1"),
        Priority::P2 => push_str(out, "P2"),
    }
}

fn priority_label(p: Priority) -> (r: String)
    ensures
        r@ == spec_priority_label(p),
{
    let mut v: Vec<char> = Vec::new();
    match p {
        Priority::P0 => push_str(&mut v, "🟥 P0"),
        Priority::P1 => push_str(&mut v, "🟧 P1"),
        Priority::P2 => push_str(&mut v, "🟨 P2"),
    }
    assert(v@ =~= spec_priority_label(p));
    string_of(v.as_slice())
}

fn chain_name(id: &[char], head: &EntryMeta) -> (r: String)
    ensures
        r@ == chain_group_name(id@, head@),
{
    let mut v: Vec<char> = Vec::new();
    push_str(&mut v, "🔗 ");
    crate::text::push_all(&mut v, id);
    match &head.title {
        Some(t) => {
            let tv = chars_of(t.as_str());
            if tv.len() > 0 {
                push_str(&mut v, " ");
                push_str(&mut v, t.as_str());
            }
        },
        None => {},
    }
    match head.priority {
        Some(p) => {
            push_str(&mut v, " [");
            push_priority_plain(&mut v, p);
            push_str(&mut v, "]");
        },
        None => {},
    }
    assert(v@ =~= chain_group_name(id@, head@));
    string_of(v.as_slice())
}

/// The steps of chain `id` among the first `n` requests, and the index of the first one.
fn chain_children(es: &Vec<Entry>, ms: &Vec<EntryMeta>, n: usize, id: &[char]) -> (r: (Vec<DocumentSymbol>, Option<usize>))
    requires
        n <= es@.len(),
        n <= ms@.len(),
    ensures
        leaves_view(r.0@) == chain_leaves(entries_view(es@), metas_view(ms@), id@, n as int),
        r.1 is Some <==> chain_head(metas_view(ms@), id@, n as int) is Some,
        r.1 matches Some(i) ==> i < n && chain_head(metas_view(ms@), id@, n as int) == Some(ms@[i as int]@),
{
    let ghost es_v = entries_view(es@);
    let ghost ms_v = metas_view(ms@);
    let mut out: Vec<DocumentSymbol> = Vec::new();
    let mut first: Option<usize> = None;
    let mut k: usize = 0;
    while k < n
        invariant
            k <= n,
            n <= es@.len(),
            n <= ms@.len(),
            es_v == entries_view(es@),
            ms_v == metas_view(ms@),
            leaves_view(out@) == chain_leaves(es_v, ms_v, id@, k as int),
            first is Some <==> chain_head(ms_v, id@, k as int) is Some,
            first matches Some(i) ==> i < k && chain_head(ms_v, id@, k as int) == Some(ms@[i as int]@),
        decreases n - k,
    {
        assert(ms_v[k as int] == ms@[k as int]@);
        assert(es_v[k as int] == crate::diagnostics::entry_view(es@[k as int]));
        match chain_key_exec(&ms[k]) {
            Some(key) => {
                if eq_exec(key.as_slice(), id) {
                    let leaf = leaf_symbol(es[k].line, chain_step_name(&ms[k], &es[k]));
                    let ghost old_out = out@;
                    out.push(leaf);
                    assert(leaves_view(out@) =~= leaves_view(old_out).push(leaf_view(leaf)));
                    if first.is_none() {
                        first = Some(k);
                    }
                }
            },
            None => {},
        }
        k = k + 1;
    }
    (out, first)
}

/// The requests of priority `p` among the first `n` that belong to no chain.
fn single_children(es: &Vec<Entry>, ms: &Vec<EntryMeta>, n: usize, p: Priority) -> (r: Vec<DocumentSymbol>)
    requires
        n <= es@.len(),
        n <= ms@.len(),
    ensures
        leaves_view(r@) == single_leaves(entries_view(es@), metas_view(ms@), p, n as int),
{
    let ghost es_v = entries_view(es@);
    let ghost ms_v = metas_view(ms@);
    let mut out: Vec<DocumentSymbol> = Vec::new();
    let mut k: usize = 0;
    while k < n
        invariant
            k <= n,
            n <= es@.len(),
            n <= ms@.len(),
            es_v == entries_view(es@),
            ms_v == metas_view(ms@),
            leaves_view(out@) == single_leaves(es_v, ms_v, p, k as int),
        decreases n - k,
    {
        assert(ms_v[k as int] == ms@[k as int]@);
        assert(es_v[k as int] == crate::diagnostics::entry_view(es@[k as int]));
        let matches_p = match ms[k].priority {
            Some(q) => q == p,
            None => false,
        };
        if !is_chain(&ms[k]) && matches_p {
            let leaf = leaf_symbol(es[k].line, single_case_name(&ms[k], &es[k]));
            let ghost old_out = out@;
            out.push(leaf);
            assert(leaves_view(out@) =~= leaves_view(old_out).push(leaf_view(leaf)));
        }
        k = k + 1;
    }
    out
}

/// The outline of a document. Requests whose metadata has kind `chain` are grouped by
/// case id, in the order of ids, each group named after its id and its first step's
/// title and priority; the other requests with a priority go to the `P0`, `P1` and `P2`
/// groups; the remaining requests follow, each on its own. Within a group, requests keep
/// their order in the document.
pub fn document_symbols(text: &str) -> (r: Vec<DocumentSymbol>)
    ensures
        syms_view(r@) == outline(text@),
{
    let t = chars_of(text);
    let lr = line_ranges(t.as_slice());
    let es = entries_of(t.as_slice(), lr.as_slice());
    let ms = file_meta(t.as_slice(), lr.as_slice());
    let ghost es_v = entries_view(es@);
    let ghost ms_v = metas_view(ms@);
    assert(es_v == spec_entries(text@));
    assert(ms_v == spec_file_meta(text@));
    let n: usize = if es.len() < ms.len() { es.len() } else { ms.len() };
    assert(n as int == outline_len(text@));
    let mut ids: Vec<Vec<char>> = Vec::new();
    let mut k: usize = 0;
    while k < n
        invariant
            k <= n,
            n <= ms@.len(),
            ms_v == metas_view(ms@),
            strictly_sorted(seqs(ids@)),
            seqs(ids@).to_set() == chain_ids(ms_v, k as int),
        decreases n - k,
    {
        assert(ms_v[k as int] == ms@[k as int]@);
        match chain_key_exec(&ms[k]) {
            Some(key) => insert_sorted(&mut ids, key),
            None => {},
        }
        k = k + 1;
    }
    let ghost sorted = seqs(ids@);
    proof {
        lemma_sorted_of(sorted);
    }
    assert(sorted == sorted_of(chain_ids(ms_v, n as int)));
    let ghost groups = sorted.map_values(|id: Seq<char>| chain_group(es_v, ms_v, n as int, id));
    let mut out: Vec<DocumentSymbol> = Vec::new();
    let mut j: usize = 0;
    while j < ids.len()
        invariant
            j <= ids@.len(),
            n <= es@.len(),
            n <= ms@.len(),
            es_v == entries_view(es@),
            ms_v == metas_view(ms@),
            sorted == seqs(ids@),
            sorted.to_set() == chain_ids(ms_v, n as int),
            groups == sorted.map_values(|id: Seq<char>| chain_group(es_v, ms_v, n as int, id)),
            syms_view(out@) == groups.take(j as int),
        decreases ids@.len() - j,
    {
        let id = ids[j].as_slice();
        assert(sorted[j as int] == id@);
        proof {
            assert(sorted.to_set().contains(sorted[j as int]));
            lemma_chain_present(es_v, ms_v, id@, n as int);
        }
        let (children, first) = chain_children(&es, &ms, n, id);
        let fi = first.unwrap();
        let name = chain_name(id, &ms[fi]);
        let g = group_symbol(name, children);
        let ghost old_out = out@;
        out.push(g);
        assert(syms_view(out@) =~= syms_view(old_out).push(sym_view(g)));
        assert(groups.take(j + 1) =~= groups.take(j as int).push(groups[j as int]));
        j = j + 1;
    }
    assert(groups.take(j as int) =~= groups);
    let ghost before_p = syms_view(out@);
    let p0 = single_children(&es, &ms, n, Priority::P0);
    if p0.len() > 0 {
        out.push(group_symbol(priority_label(Priority::P0), p0));
    }
    assert(syms_view(out@) =~= before_p + priority_group(es_v, ms_v, n as int, Priority::P0));
    let ghost before_p1 = syms_view(out@);
    let p1 = single_children(&es, &ms, n, Priority::P1);
    if p1.len() > 0 {
        out.push(group_symbol(priority_label(Priority::P1), p1));
    }
    assert(syms_view(out@) =~= before_p1 + priority_group(es_v, ms_v, n as int, Priority::P1));
    let ghost before_p2 = syms_view(out@);
    let p2 = single_children(&es, &ms, n, Priority::P2);
    if p2.len() > 0 {
        out.push(group_symbol(priority_label(Priority::P2), p2));
    }
    assert(syms_view(out@) =~= before_p2 + priority_group(es_v, ms_v, n as int, Priority::P2));
    let ghost base = syms_view(out@);
    let mut k: usize = 0;
    while k < n
        invariant
            k <= n,
            n <= es@.len(),
            n <= ms@.len(),
            es_v == entries_view(es@),
            ms_v == metas_view(ms@),
            syms_view(out@) == base + fallback_leaves(es_v, ms_v, k as int).map_values(|l: LeafView| as_top(l)),
        decreases n - k,
    {
        assert(ms_v[k as int] == ms@[k as int]@);
        assert(es_v[k as int] == crate::diagnostics::entry_view(es@[k as int]));
        let ghost prev = fallback_leaves(es_v, ms_v, k as int);
        if !is_chain(&ms[k]) && ms[k].priority.is_none() {
            let mut v: Vec<char> = Vec::new();
            push_str(&mut v, "○ ");
            push_str(&mut v, es[k].method.as_str());
            push_str(&mut v, " ");
            push_str(&mut v, es[k].path.as_str());
            let leaf = leaf_symbol(es[k].line, string_of(v.as_slice()));
            let ghost old_out = out@;
            out.push(leaf);
            proof {
                assert(v@ =~= "○ "@ + es_v[k as int].0 + " "@ + es_v[k as int].1);
                assert(fallback_leaves(es_v, ms_v, k + 1) == prev.push(leaf_view(leaf)));
                assert(prev.push(leaf_view(leaf)).map_values(|l: LeafView| as_top(l)) =~= prev.map_values(
                    |l: LeafView| as_top(l),
                ).push(as_top(leaf_view(leaf))));
                assert(syms_view(out@) =~= syms_view(old_out).push(sym_view(leaf)));
            }
        }
        k = k + 1;
    }
    out
}

/// The number of request nodes of an outline: a group counts its children, a lone
/// request counts one.
pub open spec fn node_count(o: Seq<SymView>) -> int
    decreases o.len(),
{
    if o.len() == 0 {
        0
    } else {
        node_count(o.drop_last()) + match o.last().children {
            Some(c) => c.len() as int,
            None => 1,
        }
    }
}

/// The number of the first `n` requests that belong to a chain.
pub open spec fn chain_count(ms: Seq<MetaView>, n: int) -> int
    decreases n,
{
    if n <= 0 {
        0
    } else {
        chain_count(ms, n - 1) + if chain_key(ms[n - 1]) is Some { 1int } else { 0int }
    }
}

/// The steps of the chains `ids[..m]` among the first `n` requests, counted.
pub open spec fn leaves_sum(es: Seq<(Seq<char>, Seq<char>, u32)>, ms: Seq<MetaView>, ids: Seq<Seq<char>>, n: int, m: int) -> int
    decreases m,
{
    if m <= 0 {
        0
    } else {
        leaves_sum(es, ms, ids, n, m - 1) + chain_leaves(es, ms, ids[m - 1], n).len()
    }
}

/// How many of `ids[..m]` are `x`.
pub open spec fn count_eq(ids: Seq<Seq<char>>, x: Seq<char>, m: int) -> int
    decreases m,
{
    if m <= 0 {
        0
    } else {
        count_eq(ids, x, m - 1) + if ids[m - 1] == x { 1int } else { 0int }
    }
}

proof fn lemma_node_count_concat(a: Seq<SymView>, b: Seq<SymView>)
    ensures
        node_count(a + b) == node_count(a) + node_count(b),
    decreases b.len(),
{
    if b.len() == 0 {
        assert(a + b =~= a);
    } else {
        lemma_node_count_concat(a, b.drop_last());
        assert((a + b).drop_last() =~= a + b.drop_last());
        assert((a + b).last() == b.last());
    }
}

proof fn lemma_chain_groups_count(es: Seq<(Seq<char>, Seq<char>, u32)>, ms: Seq<MetaView>, n: int, ids: Seq<Seq<char>>)
    ensures
        node_count(ids.map_values(|id: Seq<char>| chain_group(es, ms, n, id))) == leaves_sum(es, ms, ids, n, ids.len() as int),
    decreases ids.len(),
{
    let g = ids.map_values(|id: Seq<char>| chain_group(es, ms, n, id));
    if ids.len() > 0 {
        let t = ids.drop_last();
        lemma_chain_groups_count(es, ms, n, t);
        assert(g.drop_last() =~= t.map_values(|id: Seq<char>| chain_group(es, ms, n, id)));
        assert(g.last() == chain_group(es, ms, n, ids.last()));
        assert forall|k: int| 0 <= k <= t.len() implies #[trigger] leaves_sum(es, ms, t, n, k) == leaves_sum(es, ms, ids, n, k) by {
            lemma_leaves_sum_prefix(es, ms, t, ids, n, k);
        }
    }
}

proof fn lemma_leaves_sum_prefix(es: Seq<(Seq<char>, Seq<char>, u32)>, ms: Seq<MetaView>, a: Seq<Seq<char>>, b: Seq<Seq<char>>, n: int, k: int)
    requires
        0 <= k <= a.len(),
        k <= b.len(),
        forall|j: int| 0 <= j < k ==> a[j] == b[j],
    ensures
        leaves_sum(es, ms, a, n, k) == leaves_sum(es, ms, b, n, k),
    decreases k,
{
    if k > 0 {
        lemma_leaves_sum_prefix(es, ms, a, b, n, k - 1);
    }
}

proof fn lemma_chain_leaves_step(es: Seq<(Seq<char>, Seq<char>, u32)>, ms: Seq<MetaView>, id: Seq<char>, n: int)
    requires
        n > 0,
    ensures
        chain_leaves(es, ms, id, n).len() == chain_leaves(es, ms, id, n - 1).len() + if chain_key(ms[n - 1]) == Some(id) {
            1int
        } else {
            0int
        },
{
}

proof fn lemma_leaves_sum_step(es: Seq<(Seq<char>, Seq<char>, u32)>, ms: Seq<MetaView>, ids: Seq<Seq<char>>, n: int, m: int)
    requires
        n > 0,
        0 <= m <= ids.len(),
    ensures
        leaves_sum(es, ms, ids, n, m) == leaves_sum(es, ms, ids, n - 1, m) + match chain_key(ms[n - 1]) {
            Some(id) => count_eq(ids, id, m),
            None => 0,
        },
    decreases m,
{
    if m > 0 {
        lemma_leaves_sum_step(es, ms, ids, n, m - 1);
        lemma_chain_leaves_step(es, ms, ids[m - 1], n);
    }
}

proof fn lemma_leaves_sum_zero(es: Seq<(Seq<char>, Seq<char>, u32)>, ms: Seq<MetaView>, ids: Seq<Seq<char>>, m: int)
    requires
        0 <= m <= ids.len(),
    ensures
        leaves_sum(es, ms, ids, 0, m) == 0,
    decreases m,
{
    if m > 0 {
        lemma_leaves_sum_zero(es, ms, ids, m - 1);
    }
}

proof fn lemma_count_eq_sorted(ids: Seq<Seq<char>>, x: Seq<char>, m: int)
    requires
        strictly_sorted(ids),
        0 <= m <= ids.len(),
    ensures
        count_eq(ids, x, m) == if (exists|j: int| 0 <= j < m && ids[j] == x) { 1int } else { 0int },
    decreases m,
{
    if m > 0 {
        lemma_count_eq_sorted(ids, x, m - 1);
        if ids[m - 1] == x {
            if exists|j: int| 0 <= j < m - 1 && ids[j] == x {
                let j = choose|j: int| 0 <= j < m - 1 && ids[j] == x;
                assert(crate::text::lex_lt(ids[j], ids[m - 1]));
                lemma_lex_irreflexive(x);
            }
        } else {
            if exists|j: int| 0 <= j < m && ids[j] == x {
                let j = choose|j: int| 0 <= j < m && ids[j] == x;
                assert(j < m - 1);
            }
        }
    }
}

proof fn lemma_chain_ids_grow(ms: Seq<MetaView>, a: int, b: int)
    requires
        0 <= a <= b,
    ensures
        chain_ids(ms, a).subset_of(chain_ids(ms, b)),
    decreases b - a,
{
    if a < b {
        lemma_chain_ids_grow(ms, a, b - 1);
    }
}

proof fn lemma_chain_sum(es: Seq<(Seq<char>, Seq<char>, u32)>, ms: Seq<MetaView>, ids: Seq<Seq<char>>, n: int)
    requires
        0 <= n,
        strictly_sorted(ids),
        chain_ids(ms, n).subset_of(ids.to_set()),
    ensures
        leaves_sum(es, ms, ids, n, ids.len() as int) == chain_count(ms, n),
    decreases n,
{
    if n == 0 {
        lemma_leaves_sum_zero(es, ms, ids, ids.len() as int);
    } else {
        lemma_chain_ids_grow(ms, n - 1, n);
        lemma_chain_sum(es, ms, ids, n - 1);
        lemma_leaves_sum_step(es, ms, ids, n, ids.len() as int);
        match chain_key(ms[n - 1]) {
            Some(id) => {
                assert(chain_ids(ms, n).contains(id));
                assert(ids.to_set().contains(id));
                let j = choose|j: int| 0 <= j < ids.len() && ids[j] == id;
                lemma_count_eq_sorted(ids, id, ids.len() as int);
            },
            None => {},
        }
    }
}

proof fn lemma_chain_ids_sortable(ms: Seq<MetaView>, n: int)
    requires
        0 <= n,
    ensures
        exists|v: Seq<Seq<char>>| strictly_sorted(v) && v.to_set() == chain_ids(ms, n),
    decreases n,
{
    if n == 0 {
        let v = Seq::<Seq<char>>::empty();
        assert(v.to_set() =~= Set::<Seq<char>>::empty());
        assert(strictly_sorted(v) && v.to_set() == chain_ids(ms, n));
    } else {
        lemma_chain_ids_sortable(ms, n - 1);
        let v = choose|v: Seq<Seq<char>>| strictly_sorted(v) && v.to_set() == chain_ids(ms, n - 1);
        match chain_key(ms[n - 1]) {
            Some(id) => {
                lemma_sorted_insert(v, id);
                let w = sorted_insert(v, id);
                assert(strictly_sorted(w) && w.to_set() == chain_ids(ms, n));
            },
            None => {
                assert(strictly_sorted(v) && v.to_set() == chain_ids(ms, n));
            },
        }
    }
}

proof fn lemma_partition(es: Seq<(Seq<char>, Seq<char>, u32)>, ms: Seq<MetaView>, n: int)
    requires
        0 <= n,
    ensures
        chain_count(ms, n) + single_leaves(es, ms, Priority::P0, n).len() + single_leaves(es, ms, Priority::P1, n).len()
            + single_leaves(es, ms, Priority::P2, n).len() + fallback_leaves(es, ms, n).len() == n,
    decreases n,
{
    if n > 0 {
        lemma_partition(es, ms, n - 1);
        let m = ms[n - 1];
        if chain_key(m) is None {
            match m.priority {
                Some(Priority::P0) => {},
                Some(Priority::P1) => {},
                Some(Priority::P2) => {},
                None => {},
            }
        }
    }
}

proof fn lemma_tops_count(l: Seq<LeafView>)
    ensures
        node_count(l.map_values(|x: LeafView| as_top(x))) == l.len(),
    decreases l.len(),
{
    if l.len() > 0 {
        lemma_tops_count(l.drop_last());
        assert(l.map_values(|x: LeafView| as_top(x)).drop_last() =~= l.drop_last().map_values(|x: LeafView| as_top(x)));
    }
}

proof fn lemma_priority_group_count(es: Seq<(Seq<char>, Seq<char>, u32)>, ms: Seq<MetaView>, n: int, p: Priority)
    ensures
        node_count(priority_group(es, ms, n, p)) == single_leaves(es, ms, p, n).len(),
{
    let g = priority_group(es, ms, n, p);
    let l = single_leaves(es, ms, p, n);
    if l.len() > 0 {
        assert(g.len() == 1);
        assert(g.drop_last() =~= Seq::<SymView>::empty());
        assert(node_count(g.drop_last()) == 0);
        assert(g.last().children == Some(l));
    } else {
        assert(g.len() == 0);
    }
}

/// The outline has one request node per request that it covers: none is lost, none is
/// shown twice.
pub proof fn law_outline_has_one_node_per_request(text: Seq<char>)
    ensures
        node_count(outline(text)) == outline_len(text),
{
    let es = spec_entries(text);
    let ms = spec_file_meta(text);
    let n = outline_len(text);
    assert(n >= 0);
    lemma_chain_ids_sortable(ms, n);
    let ids = sorted_of(chain_ids(ms, n));
    assert(strictly_sorted(ids) && ids.to_set() == chain_ids(ms, n));
    let chains = ids.map_values(|id: Seq<char>| chain_group(es, ms, n, id));
    let g0 = priority_group(es, ms, n, Priority::P0);
    let g1 = priority_group(es, ms, n, Priority::P1);
    let g2 = priority_group(es, ms, n, Priority::P2);
    let rest = fallback_leaves(es, ms, n).map_values(|l: LeafView| as_top(l));
    lemma_chain_groups_count(es, ms, n, ids);
    lemma_chain_sum(es, ms, ids, n);
    lemma_priority_group_count(es, ms, n, Priority::P0);
    lemma_priority_group_count(es, ms, n, Priority::P1);
    lemma_priority_group_count(es, ms, n, Priority::P2);
    lemma_tops_count(fallback_leaves(es, ms, n));
    lemma_node_count_concat(chains, g0);
    lemma_node_count_concat(chains + g0, g1);
    lemma_node_count_concat(chains + g0 + g1, g2);
    lemma_node_count_concat(chains + g0 + g1 + g2, rest);
    lemma_partition(es, ms, n);
}

} // verus!
