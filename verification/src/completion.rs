//! Completion items: variables inside `{{`, sections after `[`, assert functions in
//! `[Asserts]`, content types after `Content-Type:`, and methods otherwise.
use vstd::prelude::*;
use crate::lsp::Position;
use crate::syntax::{
    is_identifier_chars, lines_are, method_of_line, method_range, section_of_line, section_range,
    spec_is_identifier, visible_at, visible_before,
};
use crate::text::{
    blen, char_floor, chars_fitting, chars_of, contains, find_from_exec, lemma_find_from_found, line_ranges,
    lines, occurs_at, occurs_at_exec, push_all, push_str, seqs, skip_class_exec, starts_with, starts_with_exec,
    string_of, strictly_sorted, trim, trim_start,
};

verus! {

#[derive(Clone, Copy, Debug, PartialEq, Eq, Structural)]
pub enum CompletionItemKind {
    Keyword,
    Variable,
    Function,
}

#[derive(Clone, Debug)]
pub struct CompletionItem {
    pub label: String,
    pub kind: CompletionItemKind,
    pub detail: Option<String>,
    pub insert_text: Option<String>,
}

pub struct ItemView {
    pub label: Seq<char>,
    pub kind: CompletionItemKind,
    pub detail: Option<Seq<char>>,
    pub insert_text: Option<Seq<char>>,
}

pub open spec fn item_view(i: CompletionItem) -> ItemView {
    ItemView {
        label: i.label@,
        kind: i.kind,
        detail: match i.detail { Some(d) => Some(d@), None => None },
        insert_text: match i.insert_text { Some(d) => Some(d@), None => None },
    }
}

pub open spec fn items_view(v: Seq<CompletionItem>) -> Seq<ItemView> {
    v.map_values(|i: CompletionItem| item_view(i))
}

pub open spec fn keyword(v: Seq<char>) -> ItemView {
    ItemView { label: v, kind: CompletionItemKind::Keyword, detail: None, insert_text: Some(v) }
}

pub open spec fn function_item(l: Seq<char>, d: Seq<char>) -> ItemView {
    ItemView { label: l, kind: CompletionItemKind::Function, detail: Some(d), insert_text: Some(l + " "@) }
}

/// A variable offered for completion; it inserts the closing `}}` too unless the line
/// already holds them after the cursor.
pub open spec fn variable_item(n: Seq<char>, closed: bool) -> ItemView {
    ItemView {
        label: n,
        kind: CompletionItemKind::Variable,
        detail: Some("Captured variable"@),
        insert_text: Some(if closed { n } else { n + "}}"@ }),
    }
}

pub open spec fn section_items() -> Seq<ItemView> {
    seq![
        keyword("[Asserts]"@), keyword("[BasicAuth]"@), keyword("[Captures]"@), keyword("[Cookies]"@),
        keyword("[Form]"@), keyword("[FormParams]"@), keyword("[Headers]"@), keyword("[Multipart]"@),
        keyword("[MultipartFormData]"@), keyword("[Options]"@), keyword("[Query]"@),
        keyword("[QueryStringParams]"@), keyword("[QueryStringParameters]"@),
    ]
}

pub open spec fn assert_items() -> Seq<ItemView> {
    seq![
        function_item("jsonpath"@, "jsonpath \"$.field\" == value"@),
        function_item("xpath"@, "xpath \"//node\" exists"@),
        function_item("regex"@, "regex \"pattern\""@),
        function_item("header"@, "header \"content-type\" == \"application/json\""@),
        function_item("status"@, "status == 200"@),
        function_item("duration"@, "duration < 1000"@),
    ]
}

pub open spec fn content_type_items() -> Seq<ItemView> {
    seq![
        keyword("application/json"@), keyword("application/xml"@), keyword("text/plain"@),
        keyword("application/x-www-form-urlencoded"@),
    ]
}

pub open spec fn method_items() -> Seq<ItemView> {
    seq![
        keyword("GET"@), keyword("POST"@), keyword("PUT"@), keyword("PATCH"@), keyword("DELETE"@),
        keyword("HEAD"@), keyword("OPTIONS"@),
    ]
}

/// Last occurrence of `p` in `s` at or before `j`.
pub open spec fn last_from(s: Seq<char>, p: Seq<char>, j: int) -> Option<int>
    decreases j + 1,
{
    if j < 0 {
        None
    } else if occurs_at(s, p, j) {
        Some(j)
    } else {
        last_from(s, p, j - 1)
    }
}

/// The variable name being typed: what follows the last `{{`, unless `}}` closes it.
pub open spec fn variable_prefix(prefix: Seq<char>) -> Option<Seq<char>> {
    match last_from(prefix, "{{"@, prefix.len() as int) {
        None => None,
        Some(i) => {
            let content = prefix.skip(i + 2);
            if contains(content, "}}"@) { None } else { Some(content) }
        },
    }
}

/// The section in force after the first `n` lines (a request line leaves every section).
pub open spec fn section_scan(ls: Seq<Seq<char>>, n: int) -> Option<Seq<char>>
    decreases n,
{
    if n <= 0 {
        None
    } else {
        let prev = section_scan(ls, n - 1);
        let t = trim(ls[n - 1]);
        if method_of_line(t) is Some { None } else if section_of_line(t) is Some { section_of_line(t) } else { prev }
    }
}

/// Whether line `line_idx` lies in an `[Asserts]` section.
pub open spec fn in_asserts_block(text: Seq<char>, line_idx: int) -> bool {
    let ls = lines(text);
    let n = if line_idx + 1 < ls.len() { line_idx + 1 } else { ls.len() as int };
    section_scan(ls, n) == Some("Asserts"@)
}

/// The line at a position (empty past the end).
pub open spec fn line_at(text: Seq<char>, line: int) -> Seq<char> {
    let ls = lines(text);
    if line < ls.len() { ls[line] } else { Seq::empty() }
}

pub open spec fn prefix_bytes(line: Seq<char>, character: int) -> int {
    if character < blen(line) { character } else { blen(line) as int }
}

/// The text before the cursor.
pub open spec fn cursor_prefix(text: Seq<char>, p: Position) -> Seq<char> {
    let line = line_at(text, p.line as int);
    line.take(chars_fitting(line, prefix_bytes(line, p.character as int)) as int)
}

/// The line goes on with `}}` right after the cursor.
pub open spec fn closed_after(text: Seq<char>, p: Position) -> bool {
    let line = line_at(text, p.line as int);
    starts_with(line.skip(cursor_prefix(text, p).len() as int), "}}"@)
}

/// The cursor lies on a character boundary (the text before it is a whole `str`).
pub open spec fn on_boundary(text: Seq<char>, p: Position) -> bool {
    let line = line_at(text, p.line as int);
    blen(cursor_prefix(text, p)) == prefix_bytes(line, p.character as int)
}

/// The variables offered after `{{vp`: the visible ones, that are identifiers and start with `vp`.
pub open spec fn offered_variables(text: Seq<char>, line: int, vp: Seq<char>) -> Set<Seq<char>> {
    visible_at(text, line).filter(|n: Seq<char>| spec_is_identifier(n) && starts_with(n, vp))
}

/// What the completion offers when not completing a variable.
pub open spec fn keyword_completions(text: Seq<char>, p: Position) -> Seq<ItemView> {
    let prefix = cursor_prefix(text, p);
    let ts = trim_start(prefix);
    if ts.len() > 0 && ts[0] == '[' {
        section_items()
    } else if in_asserts_block(text, p.line as int) {
        assert_items()
    } else if contains(prefix, "Content-Type:"@) {
        content_type_items()
    } else {
        method_items()
    }
}

fn keyword_item(v: &str) -> (r: CompletionItem)
    ensures
        item_view(r) == keyword(v@),
{
    CompletionItem { label: v.to_owned(), kind: CompletionItemKind::Keyword, detail: None, insert_text: Some(v.to_owned()) }
}

fn function_item_exec(l: &str, d: &str) -> (r: CompletionItem)
    ensures
        item_view(r) == function_item(l@, d@),
{
    let mut ins: Vec<char> = Vec::new();
    push_str(&mut ins, l);
    push_str(&mut ins, " ");
    CompletionItem {
        label: l.to_owned(),
        kind: CompletionItemKind::Function,
        detail: Some(d.to_owned()),
        insert_text: Some(string_of(ins.as_slice())),
    }
}

fn push_kw(v: &mut Vec<CompletionItem>, s: &str)
    ensures
        items_view(final(v)@) == items_view(old(v)@).push(keyword(s@)),
{
    v.push(keyword_item(s));
    assert(items_view(v@) =~= items_view(old(v)@).push(keyword(s@)));
}

fn push_fn(v: &mut Vec<CompletionItem>, l: &str, d: &str)
    ensures
        items_view(final(v)@) == items_view(old(v)@).push(function_item(l@, d@)),
{
    v.push(function_item_exec(l, d));
    assert(items_view(v@) =~= items_view(old(v)@).push(function_item(l@, d@)));
}

fn section_completions() -> (r: Vec<CompletionItem>)
    ensures
        items_view(r@) == section_items(),
{
    let mut v: Vec<CompletionItem> = Vec::new();
    push_kw(&mut v, "[Asserts]");
    push_kw(&mut v, "[BasicAuth]");
    push_kw(&mut v, "[Captures]");
    push_kw(&mut v, "[Cookies]");
    push_kw(&mut v, "[Form]");
    push_kw(&mut v, "[FormParams]");
    push_kw(&mut v, "[Headers]");
    push_kw(&mut v, "[Multipart]");
    push_kw(&mut v, "[MultipartFormData]");
    push_kw(&mut v, "[Options]");
    push_kw(&mut v, "[Query]");
    push_kw(&mut v, "[QueryStringParams]");
    push_kw(&mut v, "[QueryStringParameters]");
    assert(items_view(v@) =~= section_items());
    v
}

fn assert_completions() -> (r: Vec<CompletionItem>)
    ensures
        items_view(r@) == assert_items(),
{
    let mut v: Vec<CompletionItem> = Vec::new();
    push_fn(&mut v, "jsonpath", "jsonpath \"$.field\" == value");
    push_fn(&mut v, "xpath", "xpath \"//node\" exists");
    push_fn(&mut v, "regex", "regex \"pattern\"");
    push_fn(&mut v, "header", "header \"content-type\" == \"application/json\"");
    push_fn(&mut v, "status", "status == 200");
    push_fn(&mut v, "duration", "duration < 1000");
    assert(items_view(v@) =~= assert_items());
    v
}

fn content_type_completions() -> (r: Vec<CompletionItem>)
    ensures
        items_view(r@) == content_type_items(),
{
    let mut v: Vec<CompletionItem> = Vec::new();
    push_kw(&mut v, "application/json");
    push_kw(&mut v, "application/xml");
    push_kw(&mut v, "text/plain");
    push_kw(&mut v, "application/x-www-form-urlencoded");
    assert(items_view(v@) =~= content_type_items());
    v
}

fn method_completions() -> (r: Vec<CompletionItem>)
    ensures
        items_view(r@) == method_items(),
{
    let mut v: Vec<CompletionItem> = Vec::new();
    push_kw(&mut v, "GET");
    push_kw(&mut v, "POST");
    push_kw(&mut v, "PUT");
    push_kw(&mut v, "PATCH");
    push_kw(&mut v, "DELETE");
    push_kw(&mut v, "HEAD");
    push_kw(&mut v, "OPTIONS");
    assert(items_view(v@) =~= method_items());
    v
}

/// Start of the variable name being typed in `prefix`.
fn variable_prefix_start(prefix: &[char]) -> (r: Option<usize>)
    ensures
        r is Some <==> variable_prefix(prefix@) is Some,
        r matches Some(s) ==> s <= prefix@.len() && variable_prefix(prefix@) == Some(prefix@.skip(s as int)),
{
    let open = chars_of("{{");
    let close = chars_of("}}");
    proof {
        reveal_strlit("{{");
        reveal_strlit("}}");
    }
    let n = prefix.len();
    let mut j = n;
    loop
        invariant
            j <= n == prefix@.len(),
            open@ == "{{"@,
            close@ == "}}"@,
            open@.len() == 2,
            last_from(prefix@, "{{"@, n as int) == last_from(prefix@, "{{"@, j as int),
        decreases j,
    {
        if occurs_at_exec(prefix, open.as_slice(), j) {
            let content = &prefix[j + 2..n];
            assert(content@ =~= prefix@.skip(j + 2));
            match find_from_exec(content, close.as_slice(), 0) {
                Some(_) => return None,
                None => return Some(j + 2),
            }
        }
        if j == 0 {
            return None;
        }
        j = j - 1;
    }
}

fn in_asserts_exec(text: &[char], lr: &[(usize, usize)], line_idx: usize) -> (r: bool)
    requires
        lines_are(text@, lr@),
    ensures
        r == in_asserts_block(text@, line_idx as int),
{
    let ghost ls = lines(text@);
    let mut current: Option<(usize, usize, usize)> = None;
    let mut idx: usize = 0;
    let n = if line_idx < lr.len() { line_idx + 1 } else { lr.len() };
    while idx < n
        invariant
            idx <= n <= lr@.len(),
            lines_are(text@, lr@),
            ls == lines(text@),
            current is None <==> section_scan(ls, idx as int) is None,
            current matches Some(c) ==> c.0 < lr@.len() && c.1 <= c.2 && c.2 <= lr@[c.0 as int].1 - lr@[c.0 as int].0
                && section_scan(ls, idx as int) == Some(ls[c.0 as int].subrange(c.1 as int, c.2 as int)),
        decreases n - idx,
    {
        let (la, lb) = lr[idx];
        let line = &text[la..lb];
        assert(line@ == ls[idx as int]);
        let (ta, tb) = crate::text::trim_range(line);
        let t = &line[ta..tb];
        if method_range(t).is_some() {
            current = None;
        } else if let Some((a, b)) = section_range(t) {
            assert(t@.subrange(a as int, b as int) =~= ls[idx as int].subrange(ta + a, ta + b));
            current = Some((idx, ta + a, ta + b));
        }
        idx = idx + 1;
    }
    match current {
        None => false,
        Some((li, a, b)) => {
            let (la, lb) = lr[li];
            let line = &text[la..lb];
            assert(line@ == ls[li as int]);
            crate::syntax::eq_lit(&line[a..b], "Asserts")
        },
    }
}

/// The variables that complete the name being typed, in the order of `str`.
fn variable_completions(
    text: &[char],
    lr: &[(usize, usize)],
    line_idx: usize,
    vp: &[char],
    closed: bool,
) -> (r: Vec<CompletionItem>)
    requires
        lines_are(text@, lr@),
    ensures
        strictly_sorted(items_view(r@).map_values(|i: ItemView| i.label)),
        items_view(r@).map_values(|i: ItemView| i.label).to_set() == offered_variables(text@, line_idx as int, vp@),
        forall|k: int| 0 <= k < r@.len() ==> #[trigger] item_view(r@[k]) == variable_item(item_view(r@[k]).label, closed),
{
    let vars = visible_before(text, lr, line_idx);
    let ghost all = seqs(vars@);
    let ghost pred = |n: Seq<char>| spec_is_identifier(n) && starts_with(n, vp@);
    let mut out: Vec<CompletionItem> = Vec::new();
    let mut k: usize = 0;
    while k < vars.len()
        invariant
            k <= vars@.len(),
            all == seqs(vars@),
            strictly_sorted(all),
            all.to_set() == visible_at(text@, line_idx as int),
            pred == (|n: Seq<char>| spec_is_identifier(n) && starts_with(n, vp@)),
            items_view(out@).map_values(|i: ItemView| i.label) == all.take(k as int).filter(pred),
            forall|j: int| 0 <= j < out@.len() ==> #[trigger] item_view(out@[j]) == variable_item(item_view(out@[j]).label, closed),
        decreases vars@.len() - k,
    {
        let name = vars[k].as_slice();
        proof {
            assert(all.take(k + 1) =~= all.take(k as int).push(all[k as int]));
            all.take(k as int).lemma_filter_push(all[k as int], pred);
        }
        if is_identifier_chars(name) && starts_with_exec(name, vp) {
            let mut ins: Vec<char> = Vec::new();
            push_all(&mut ins, name);
            if !closed {
                push_str(&mut ins, "}}");
            }
            let item = CompletionItem {
                label: string_of(name),
                kind: CompletionItemKind::Variable,
                detail: Some("Captured variable".to_owned()),
                insert_text: Some(string_of(ins.as_slice())),
            };
            let ghost old_out = out@;
            out.push(item);
            assert(items_view(out@).map_values(|i: ItemView| i.label) =~= items_view(old_out).map_values(|i: ItemView| i.label).push(all[k as int]));
            assert forall|j: int| 0 <= j < out@.len() implies #[trigger] item_view(out@[j]) == variable_item(item_view(out@[j]).label, closed) by {
                if j < old_out.len() {
                    assert(out@[j] == old_out[j]);
                }
            }
        }
        k = k + 1;
    }
    proof {
        assert(all.take(k as int) =~= all);
        lemma_filter_sorted(all, pred);
        assert(all.filter(pred).to_set() =~= all.to_set().filter(pred)) by {
            assert forall|x: Seq<char>| all.filter(pred).to_set().contains(x) <==> all.to_set().filter(pred).contains(x) by {
                if all.to_set().filter(pred).contains(x) {
                    let i = choose|i: int| 0 <= i < all.len() && all[i] == x;
                    all.lemma_filter_contains(pred, i);
                }
                if all.filter(pred).to_set().contains(x) {
                    let i = choose|i: int| 0 <= i < all.filter(pred).len() && all.filter(pred)[i] == x;
                    all.lemma_filter_pred(pred, i);
                    all.lemma_filter_contains_rev(pred, x);
                }
            }
        }
    }
    out
}

/// The completion items at a position of a document. Inside an unclosed `{{`, the
/// visible variables that start with what is typed, in the order of `str`, each inserting
/// the closing `}}` unless the line already goes on with them; otherwise
/// sections, assert functions, content types or methods, by context.
pub fn completions(text: &str, p: Position) -> (r: Vec<CompletionItem>)
    requires
        on_boundary(text@, p),
    ensures
        match variable_prefix(cursor_prefix(text@, p)) {
            Some(vp) => {
                &&& strictly_sorted(items_view(r@).map_values(|i: ItemView| i.label))
                &&& items_view(r@).map_values(|i: ItemView| i.label).to_set() == offered_variables(text@, p.line as int, vp)
                &&& forall|k: int| 0 <= k < r@.len() ==> #[trigger] item_view(r@[k]) == variable_item(
                    item_view(r@[k]).label,
                    closed_after(text@, p),
                )
            },
            None => items_view(r@) == keyword_completions(text@, p),
        },
        variable_prefix(cursor_prefix(text@, p)) is None && trim_start(cursor_prefix(text@, p)).len() > 0
            && trim_start(cursor_prefix(text@, p))[0] == '[' ==> items_view(r@) == section_items(),
{
    let t = chars_of(text);
    let lr = line_ranges(t.as_slice());
    let li = p.line as usize;
    let empty: Vec<char> = Vec::new();
    let line: &[char] = if li < lr.len() {
        let (la, lb) = lr[li];
        proof {
            crate::text::lemma_blen_subrange(t@, la as int, lb as int);
        }
        &t.as_slice()[la..lb]
    } else {
        empty.as_slice()
    };
    assert(line@ == line_at(text@, p.line as int));
    assert(blen(empty@) == 0);
    let total = crate::text::byte_offset(line, line.len());
    assert(line@.take(line@.len() as int) =~= line@);
    let ch = p.character as usize;
    let b = if ch < total { ch } else { total };
    let (k, _) = char_floor(line, b);
    let prefix = &line[0..k];
    assert(prefix@ =~= cursor_prefix(text@, p));
    if let Some(s) = variable_prefix_start(prefix) {
        let vp = &prefix[s..k];
        assert(vp@ =~= prefix@.skip(s as int));
        let close = chars_of("}}");
        let closed = starts_with_exec(&line[k..line.len()], close.as_slice());
        assert(line@.subrange(k as int, line@.len() as int) =~= line@.skip(k as int));
        return variable_completions(t.as_slice(), lr.as_slice(), li, vp, closed);
    }
    let lead = skip_class_exec(prefix, 0, true);
    assert(prefix@.skip(lead as int) == trim_start(prefix@));
    if lead < prefix.len() && prefix[lead] == '[' {
        return section_completions();
    }
    if in_asserts_exec(t.as_slice(), lr.as_slice(), li) {
        return assert_completions();
    }
    let ct = chars_of("Content-Type:");
    if find_from_exec(prefix, ct.as_slice(), 0).is_some() {
        return content_type_completions();
    }
    method_completions()
}

/// Whether the cursor lies on a character boundary of its line, the positions on which
/// `completions` is defined.
pub fn cursor_on_boundary(text: &str, p: Position) -> (r: bool)
    ensures
        r == on_boundary(text@, p),
{
    let t = chars_of(text);
    let lr = line_ranges(t.as_slice());
    let li = p.line as usize;
    let empty: Vec<char> = Vec::new();
    let line: &[char] = if li < lr.len() {
        let (la, lb) = lr[li];
        proof {
            crate::text::lemma_blen_subrange(t@, la as int, lb as int);
        }
        &t.as_slice()[la..lb]
    } else {
        empty.as_slice()
    };
    assert(line@ == line_at(text@, p.line as int));
    assert(blen(empty@) == 0);
    let total = crate::text::byte_offset(line, line.len());
    assert(line@.take(line@.len() as int) =~= line@);
    let ch = p.character as usize;
    let b = if ch < total { ch } else { total };
    let (_, used) = char_floor(line, b);
    used == b
}

proof fn lemma_section_scan(ls: Seq<Seq<char>>, n: int)
    requires
        0 <= n <= ls.len(),
    ensures
        section_scan(ls, n) == Some("Asserts"@) <==> exists|m: int|
            0 <= m < n && #[trigger] section_of_line(trim(ls[m])) == Some("Asserts"@) && method_of_line(trim(ls[m])) is None
                && forall|r: int| m < r < n ==> section_of_line(trim(#[trigger] ls[r])) is None && method_of_line(trim(ls[r])) is None,
    decreases n,
{
    if n > 0 {
        lemma_section_scan(ls, n - 1);
        let t = trim(ls[n - 1]);
        if method_of_line(t) is None && section_of_line(t) is None {
            if exists|m: int|
                0 <= m < n && #[trigger] section_of_line(trim(ls[m])) == Some("Asserts"@) && method_of_line(trim(ls[m])) is None
                    && forall|r: int| m < r < n ==> section_of_line(trim(#[trigger] ls[r])) is None && method_of_line(trim(ls[r])) is None {
                let m = choose|m: int|
                    0 <= m < n && #[trigger] section_of_line(trim(ls[m])) == Some("Asserts"@) && method_of_line(trim(ls[m])) is None
                        && forall|r: int| m < r < n ==> section_of_line(trim(#[trigger] ls[r])) is None && method_of_line(trim(ls[r])) is None;
                assert(m != n - 1);
            }
        } else {
            if exists|m: int|
                0 <= m < n && #[trigger] section_of_line(trim(ls[m])) == Some("Asserts"@) && method_of_line(trim(ls[m])) is None
                    && forall|r: int| m < r < n ==> section_of_line(trim(#[trigger] ls[r])) is None && method_of_line(trim(ls[r])) is None {
                let m = choose|m: int|
                    0 <= m < n && #[trigger] section_of_line(trim(ls[m])) == Some("Asserts"@) && method_of_line(trim(ls[m])) is None
                        && forall|r: int| m < r < n ==> section_of_line(trim(#[trigger] ls[r])) is None && method_of_line(trim(ls[r])) is None;
                assert(m == n - 1);
            }
        }
    }
}

/// A line lies in an `[Asserts]` section exactly when some line at or before it reads
/// `[Asserts]` and no line after that one, up to it, is a request line or another section
/// header: a request line closes the section.
pub proof fn law_asserts_block_until_next_header(text: Seq<char>, l: int)
    requires
        0 <= l < lines(text).len(),
    ensures
        in_asserts_block(text, l) <==> exists|m: int|
            0 <= m <= l && #[trigger] section_of_line(trim(lines(text)[m])) == Some("Asserts"@) && method_of_line(
                trim(lines(text)[m]),
            ) is None && forall|r: int|
                m < r <= l ==> section_of_line(trim(#[trigger] lines(text)[r])) is None && method_of_line(trim(lines(text)[r])) is None,
{
    lemma_section_scan(lines(text), l + 1);
}

/// Outside an unclosed `{{`, text before the cursor that starts with `[` (after leading
/// whitespace) is completed with the section names, whatever section the line lies in.
pub proof fn law_bracket_completes_sections(text: Seq<char>, p: Position)
    requires
        variable_prefix(cursor_prefix(text, p)) is None,
        trim_start(cursor_prefix(text, p)).len() > 0,
        trim_start(cursor_prefix(text, p))[0] == '[',
    ensures
        keyword_completions(text, p) == section_items(),
{
}

/// A filtered strictly sorted sequence is strictly sorted.
pub proof fn lemma_filter_sorted(s: Seq<Seq<char>>, f: spec_fn(Seq<char>) -> bool)
    requires
        strictly_sorted(s),
    ensures
        strictly_sorted(s.filter(f)),
    decreases s.len(),
{
    if s.len() > 0 {
        let t = s.drop_last();
        assert(strictly_sorted(t)) by {
            assert forall|i: int, j: int| 0 <= i < j < t.len() implies crate::text::lex_lt(#[trigger] t[i], #[trigger] t[j]) by {
                assert(t[i] == s[i] && t[j] == s[j]);
            }
        }
        lemma_filter_sorted(t, f);
        assert(s =~= t.push(s.last()));
        t.lemma_filter_push(s.last(), f);
        t.filter_lemma(f);
        let ft = t.filter(f);
        assert forall|i: int| 0 <= i < ft.len() implies crate::text::lex_lt(#[trigger] ft[i], s.last()) by {
            assert(ft.contains(ft[i]));
            t.lemma_filter_contains_rev(f, ft[i]);
            let m = choose|m: int| 0 <= m < t.len() && t[m] == ft[i];
            assert(s[m] == t[m]);
        }
        let fs = s.filter(f);
        assert forall|i: int, j: int| 0 <= i < j < fs.len() implies crate::text::lex_lt(#[trigger] fs[i], #[trigger] fs[j]) by {
            if j < ft.len() {
                assert(fs[i] == ft[i] && fs[j] == ft[j]);
            } else {
                assert(fs[i] == ft[i]);
            }
        }
    }
}

} // verus!
