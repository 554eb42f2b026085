//! Test-case metadata written as `# key=value` comments above each request.
use vstd::prelude::*;
use crate::diagnostics::{entries_upto, lemma_entry_is_method_line, request_lines, spec_entries};
use crate::syntax::{eq_lit, lines_are, method_of_line, method_range};
use crate::text::{
    chars_of, line_ranges, lines, lower, lower_exec, next_char, next_char_exec, ranged, split, split_ranges,
    string_of, trim, trim_range,
};

verus! {

#[derive(Clone, Copy, Debug, PartialEq, Eq, Structural)]
pub enum CaseKind {
    Single,
    Chain,
}

#[derive(Clone, Copy, Debug, PartialEq, Eq, Structural)]
pub enum Priority {
    P0,
    P1,
    P2,
}

#[derive(Clone, Copy, Debug, PartialEq, Eq, Structural)]
pub enum StepType {
    Setup,
    Test,
    Teardown,
}

/// The metadata of one request, and the line of that request.
#[derive(Clone, Debug)]
pub struct EntryMeta {
    pub case_id: Option<String>,
    pub case_kind: Option<CaseKind>,
    pub priority: Option<Priority>,
    pub step_id: Option<String>,
    pub step_type: Option<StepType>,
    pub title: Option<String>,
    pub technique: Option<String>,
    pub depends_on: Vec<String>,
    pub line: u32,
}

/// The metadata of the requests of a file, in request order.
#[derive(Clone, Debug, Default)]
pub struct HurlFileMeta {
    pub entries: Vec<EntryMeta>,
}

impl Default for EntryMeta {
    fn default() -> (r: EntryMeta)
        ensures
            r@ == empty_meta(),
    {
        let r = EntryMeta {
            case_id: None,
            case_kind: None,
            priority: None,
            step_id: None,
            step_type: None,
            title: None,
            technique: None,
            depends_on: Vec::new(),
            line: 0,
        };
        assert(r.depends_on@.map_values(|s: String| s@) =~= Seq::<Seq<char>>::empty());
        r
    }
}

/// Parser of request metadata.
pub struct HurlMetaParser;

/// `EntryMeta` as a mathematical value.
pub struct MetaView {
    pub case_id: Option<Seq<char>>,
    pub case_kind: Option<CaseKind>,
    pub priority: Option<Priority>,
    pub step_id: Option<Seq<char>>,
    pub step_type: Option<StepType>,
    pub title: Option<Seq<char>>,
    pub technique: Option<Seq<char>>,
    pub depends_on: Seq<Seq<char>>,
    pub line: u32,
}

pub open spec fn opt_view(o: Option<String>) -> Option<Seq<char>> {
    match o {
        Some(s) => Some(s@),
        None => None,
    }
}

impl View for EntryMeta {
    type V = MetaView;

    open spec fn view(&self) -> MetaView {
        MetaView {
            case_id: opt_view(self.case_id),
            case_kind: self.case_kind,
            priority: self.priority,
            step_id: opt_view(self.step_id),
            step_type: self.step_type,
            title: opt_view(self.title),
            technique: opt_view(self.technique),
            depends_on: self.depends_on@.map_values(|s: String| s@),
            line: self.line,
        }
    }
}

pub open spec fn metas_view(v: Seq<EntryMeta>) -> Seq<MetaView> {
    v.map_values(|e: EntryMeta| e@)
}

pub open spec fn empty_meta() -> MetaView {
    MetaView {
        case_id: None,
        case_kind: None,
        priority: None,
        step_id: None,
        step_type: None,
        title: None,
        technique: None,
        depends_on: Seq::empty(),
        line: 0,
    }
}

pub open spec fn is_meta_key(k: Seq<char>) -> bool {
    ||| k == "case_id"@
    ||| k == "case_kind"@
    ||| k == "priority"@
    ||| k == "step_id"@
    ||| k == "step_type"@
    ||| k == "title"@
    ||| k == "technique"@
    ||| k == "depends_on"@
}

/// A metadata comment `# key=value` with a known key: the trimmed key and value.
pub open spec fn meta_comment(t: Seq<char>) -> Option<(Seq<char>, Seq<char>)> {
    if t.len() == 0 || t[0] != '#' {
        None
    } else {
        let rest = trim(t.drop_first());
        let e = next_char(rest, 0, '=');
        if e >= rest.len() {
            None
        } else {
            let key = trim(rest.subrange(0, e));
            if is_meta_key(key) {
                Some((key, trim(rest.subrange(e + 1, rest.len() as int))))
            } else {
                None
            }
        }
    }
}

pub open spec fn spec_case_kind(v: Seq<char>) -> Option<CaseKind> {
    let l = lower(trim(v));
    if l == "single"@ {
        Some(CaseKind::Single)
    } else if l == "chain"@ {
        Some(CaseKind::Chain)
    } else {
        None
    }
}

pub open spec fn spec_priority(v: Seq<char>) -> Option<Priority> {
    let t = trim(v);
    if t == "P0"@ {
        Some(Priority::P0)
    } else if t == "P1"@ {
        Some(Priority::P1)
    } else if t == "P2"@ {
        Some(Priority::P2)
    } else {
        None
    }
}

pub open spec fn spec_step_type(v: Seq<char>) -> Option<StepType> {
    let l = lower(trim(v));
    if l == "setup"@ {
        Some(StepType::Setup)
    } else if l == "test"@ {
        Some(StepType::Test)
    } else if l == "teardown"@ {
        Some(StepType::Teardown)
    } else {
        None
    }
}

/// The non-empty trimmed pieces of a comma-separated list.
pub open spec fn spec_depends(v: Seq<char>) -> Seq<Seq<char>> {
    split(v, ',').map_values(|p: Seq<char>| trim(p)).filter(|p: Seq<char>| p.len() > 0)
}

/// The effect of a metadata comment on the metadata being collected.
pub open spec fn apply_meta(m: MetaView, key: Seq<char>, value: Seq<char>) -> MetaView {
    if key == "case_id"@ {
        MetaView { case_id: Some(value), ..m }
    } else if key == "case_kind"@ {
        MetaView { case_kind: spec_case_kind(value), ..m }
    } else if key == "priority"@ {
        MetaView { priority: spec_priority(value), ..m }
    } else if key == "step_id"@ {
        MetaView { step_id: Some(value), ..m }
    } else if key == "step_type"@ {
        MetaView { step_type: spec_step_type(value), ..m }
    } else if key == "title"@ {
        MetaView { title: Some(value), ..m }
    } else if key == "technique"@ {
        MetaView { technique: Some(value), ..m }
    } else {
        MetaView { depends_on: spec_depends(value), ..m }
    }
}

/// The scan of the first `n` lines: the metadata of the requests seen, and the
/// metadata collected since the last request.
pub open spec fn meta_scan(ls: Seq<Seq<char>>, n: int) -> (Seq<MetaView>, MetaView)
    decreases n,
{
    if n <= 0 {
        (Seq::empty(), empty_meta())
    } else {
        let (done, cur) = meta_scan(ls, n - 1);
        let t = trim(ls[n - 1]);
        match meta_comment(t) {
            Some((k, v)) => (done, apply_meta(cur, k, v)),
            None => if method_of_line(t) is Some {
                (done.push(MetaView { line: (n - 1) as u32, ..cur }), empty_meta())
            } else {
                (done, cur)
            },
        }
    }
}

/// The metadata of the requests of a document.
pub open spec fn spec_file_meta(text: Seq<char>) -> Seq<MetaView> {
    meta_scan(lines(text), lines(text).len() as int).0
}

fn is_meta_key_exec(k: &[char]) -> (r: bool)
    ensures
        r == is_meta_key(k@),
{
    eq_lit(k, "case_id") || eq_lit(k, "case_kind") || eq_lit(k, "priority") || eq_lit(k, "step_id")
        || eq_lit(k, "step_type") || eq_lit(k, "title") || eq_lit(k, "technique")
        || eq_lit(k, "depends_on")
}

/// Key and value of a metadata comment.
fn parse_meta_comment(t: &[char]) -> (r: Option<(Vec<char>, Vec<char>)>)
    ensures
        r is Some <==> meta_comment(t@) is Some,
        r matches Some(p) ==> meta_comment(t@) == Some((p.0@, p.1@)),
{
    if t.len() == 0 || t[0] != '#' {
        return None;
    }
    let after = &t[1..t.len()];
    assert(after@ =~= t@.drop_first());
    let (ra, rb) = trim_range(after);
    let rest = &after[ra..rb];
    let e = next_char_exec(rest, 0, '=');
    if e >= rest.len() {
        return None;
    }
    let (ka, kb) = trim_range(&rest[0..e]);
    let key = &rest[0..e][ka..kb];
    if !is_meta_key_exec(key) {
        return None;
    }
    let tail = &rest[e + 1..rest.len()];
    let (va, vb) = trim_range(tail);
    Some((crate::text::to_vec(key), crate::text::to_vec(&tail[va..vb])))
}

fn parse_case_kind(v: &[char]) -> (r: Option<CaseKind>)
    ensures
        r == spec_case_kind(v@),
{
    let (a, b) = trim_range(v);
    let l = lower_exec(&v[a..b]);
    if eq_lit(l.as_slice(), "single") {
        Some(CaseKind::Single)
    } else if eq_lit(l.as_slice(), "chain") {
        Some(CaseKind::Chain)
    } else {
        None
    }
}

fn parse_priority(v: &[char]) -> (r: Option<Priority>)
    ensures
        r == spec_priority(v@),
{
    let (a, b) = trim_range(v);
    let t = &v[a..b];
    if eq_lit(t, "P0") {
        Some(Priority::P0)
    } else if eq_lit(t, "P1") {
        Some(Priority::P1)
    } else if eq_lit(t, "P2") {
        Some(Priority::P2)
    } else {
        None
    }
}

fn parse_step_type(v: &[char]) -> (r: Option<StepType>)
    ensures
        r == spec_step_type(v@),
{
    let (a, b) = trim_range(v);
    let l = lower_exec(&v[a..b]);
    if eq_lit(l.as_slice(), "setup") {
        Some(StepType::Setup)
    } else if eq_lit(l.as_slice(), "test") {
        Some(StepType::Test)
    } else if eq_lit(l.as_slice(), "teardown") {
        Some(StepType::Teardown)
    } else {
        None
    }
}

fn parse_depends(v: &[char]) -> (r: Vec<String>)
    ensures
        r@.map_values(|s: String| s@) == spec_depends(v@),
{
    let parts = split_ranges(v, ',');
    let ghost trimmed = split(v@, ',').map_values(|p: Seq<char>| trim(p));
    let mut out: Vec<String> = Vec::new();
    let mut k: usize = 0;
    while k < parts.len()
        invariant
            k <= parts@.len(),
            crate::text::ranges_within(v@, parts@),
            ranged(v@, parts@) == split(v@, ','),
            trimmed == split(v@, ',').map_values(|p: Seq<char>| trim(p)),
            out@.map_values(|s: String| s@) == trimmed.take(k as int).filter(|p: Seq<char>| p.len() > 0),
        decreases parts@.len() - k,
    {
        let (a, b) = parts[k];
        let piece = &v[a..b];
        assert(piece@ == split(v@, ',')[k as int]);
        let (ta, tb) = trim_range(piece);
        let ghost old_out = out@;
        proof {
            assert(trimmed.take(k + 1) =~= trimmed.take(k as int).push(trimmed[k as int]));
            trimmed.take(k as int).lemma_filter_push(trimmed[k as int], |p: Seq<char>| p.len() > 0);
        }
        if ta < tb {
            out.push(string_of(&piece[ta..tb]));
            assert(out@.map_values(|s: String| s@) =~= old_out.map_values(|s: String| s@).push(trimmed[k as int]));
        }
        k = k + 1;
    }
    assert(trimmed.take(k as int) =~= trimmed);
    out
}

/// The metadata collected from the lines of a document.
pub fn file_meta(text: &[char], lr: &[(usize, usize)]) -> (r: Vec<EntryMeta>)
    requires
        lines_are(text@, lr@),
    ensures
        metas_view(r@) == spec_file_meta(text@),
{
    let ghost ls = lines(text@);
    let mut done: Vec<EntryMeta> = Vec::new();
    let mut cur = EntryMeta::default();
    let mut idx: usize = 0;
    while idx < lr.len()
        invariant
            idx <= lr@.len(),
            lines_are(text@, lr@),
            ls == lines(text@),
            (metas_view(done@), cur@) == meta_scan(ls, idx as int),
        decreases lr@.len() - idx,
    {
        let (la, lb) = lr[idx];
        let line = &text[la..lb];
        assert(line@ == ls[idx as int]);
        let (ta, tb) = trim_range(line);
        let t = &line[ta..tb];
        match parse_meta_comment(t) {
            Some((key, value)) => {
                let k = key.as_slice();
                let v = value.as_slice();
                if eq_lit(k, "case_id") {
                    cur.case_id = Some(string_of(v));
                } else if eq_lit(k, "case_kind") {
                    cur.case_kind = parse_case_kind(v);
                } else if eq_lit(k, "priority") {
                    cur.priority = parse_priority(v);
                } else if eq_lit(k, "step_id") {
                    cur.step_id = Some(string_of(v));
                } else if eq_lit(k, "step_type") {
                    cur.step_type = parse_step_type(v);
                } else if eq_lit(k, "title") {
                    cur.title = Some(string_of(v));
                } else if eq_lit(k, "technique") {
                    cur.technique = Some(string_of(v));
                } else {
                    cur.depends_on = parse_depends(v);
                }
            },
            None => {
                if method_range(t).is_some() {
                    cur.line = idx as u32;
                    let ghost old_done = done@;
                    done.push(cur);
                    assert(metas_view(done@) =~= metas_view(old_done).push(done@.last()@));
                    cur = EntryMeta::default();
                }
            },
        }
        idx = idx + 1;
    }
    done
}

impl HurlMetaParser {
    /// The metadata of each request of `source`, in request order: the `# key=value`
    /// comments with known keys since the previous request, and the request's line.
    pub fn parse(source: &str) -> (r: HurlFileMeta)
        ensures
            metas_view(r.entries@) == spec_file_meta(source@),
    {
        let t = chars_of(source);
        let lr = line_ranges(t.as_slice());
        HurlFileMeta { entries: file_meta(t.as_slice(), lr.as_slice()) }
    }
}

/// The metadata that the comments of lines `a` up to `b` (not included) give, each later
/// comment overriding what an earlier one set.
pub open spec fn comments_meta(ls: Seq<Seq<char>>, a: int, b: int) -> MetaView
    decreases b - a,
{
    if b <= a {
        empty_meta()
    } else {
        let m = comments_meta(ls, a, b - 1);
        match meta_comment(trim(ls[b - 1])) {
            Some((k, v)) => apply_meta(m, k, v),
            None => m,
        }
    }
}

/// Where the comments of the `i`-th request start: after the line of the request before it
/// (or at the start of the document).
pub open spec fn comments_start(rl: Seq<int>, i: int) -> int {
    if i <= 0 {
        0
    } else {
        rl[i - 1] + 1
    }
}

proof fn lemma_meta_scan(ls: Seq<Seq<char>>, n: int)
    requires
        0 <= n,
    ensures
        ({
            let (done, cur) = meta_scan(ls, n);
            let rl = request_lines(ls, n);
            &&& done.len() == rl.len()
            &&& forall|i: int| 0 <= i < rl.len() ==> #[trigger] done[i] == MetaView {
                line: rl[i] as u32,
                ..comments_meta(ls, comments_start(rl, i), rl[i])
            }
            &&& forall|i: int| 0 <= i < rl.len() ==> comments_start(rl, i) <= #[trigger] rl[i] < n
            &&& comments_start(rl, rl.len() as int) <= n
            &&& cur == comments_meta(ls, comments_start(rl, rl.len() as int), n)
        }),
    decreases n,
{
    if n > 0 {
        lemma_meta_scan(ls, n - 1);
        lemma_entry_is_method_line(ls[n - 1], n - 1);
        let (done, cur) = meta_scan(ls, n - 1);
        let rl = request_lines(ls, n - 1);
        let t = trim(ls[n - 1]);
        let (done1, cur1) = meta_scan(ls, n);
        let rl1 = request_lines(ls, n);
        if meta_comment(t) is Some {
            assert(t[0] == '#');
            assert(rl1 == rl);
        } else if method_of_line(t) is Some {
            assert(done1 == done.push(MetaView { line: (n - 1) as u32, ..cur }));
            assert(rl1 == rl.push(n - 1));
            assert forall|i: int| 0 <= i < rl1.len() implies #[trigger] done1[i] == MetaView {
                line: rl1[i] as u32,
                ..comments_meta(ls, comments_start(rl1, i), rl1[i])
            } by {
                if i < rl.len() {
                    assert(done1[i] == done[i]);
                    assert(rl1[i] == rl[i]);
                    assert(comments_start(rl1, i) == comments_start(rl, i));
                }
            }
            assert forall|i: int| 0 <= i < rl1.len() implies comments_start(rl1, i) <= #[trigger] rl1[i] < n by {
                if i < rl.len() {
                    assert(rl1[i] == rl[i]);
                    assert(comments_start(rl1, i) == comments_start(rl, i));
                }
            }
        } else {
            assert(rl1 == rl);
        }
    }
}

/// Each request's metadata comes from the `# key=value` comments between the request line
/// before it (or the start of the document) and its own request line, the last comment for
/// a key winning; a key that no such comment sets stays unset. There is one entry per
/// request line, in line order.
pub proof fn law_metadata_from_comments_above(text: Seq<char>)
    ensures
        ({
            let ls = lines(text);
            let e = spec_file_meta(text);
            let rl = request_lines(ls, ls.len() as int);
            &&& e.len() == rl.len()
            &&& forall|i: int| 0 <= i < rl.len() ==> #[trigger] e[i] == MetaView {
                line: rl[i] as u32,
                ..comments_meta(ls, comments_start(rl, i), rl[i])
            }
        }),
{
    lemma_meta_scan(lines(text), lines(text).len() as int);
}

proof fn lemma_meta_lines(ls: Seq<Seq<char>>, n: int)
    requires
        0 <= n,
    ensures
        meta_scan(ls, n).0.map_values(|m: MetaView| m.line) == entries_upto(ls, n).map_values(
            |e: (Seq<char>, Seq<char>, u32)| e.2,
        ),
    decreases n,
{
    if n > 0 {
        lemma_meta_lines(ls, n - 1);
        lemma_entry_is_method_line(ls[n - 1], n - 1);
        let a = meta_scan(ls, n - 1).0;
        let b = entries_upto(ls, n - 1);
        let a1 = meta_scan(ls, n).0;
        let b1 = entries_upto(ls, n);
        if a1 != a {
            assert(a1.map_values(|m: MetaView| m.line) =~= a.map_values(|m: MetaView| m.line).push((n - 1) as u32));
            assert(b1.map_values(|e: (Seq<char>, Seq<char>, u32)| e.2) =~= b.map_values(
                |e: (Seq<char>, Seq<char>, u32)| e.2,
            ).push((n - 1) as u32));
        }
    }
}

/// The metadata parser and the document parser find the same requests: their lines agree
/// one for one, so the two lists pair up by index.
pub proof fn law_metadata_matches_requests(text: Seq<char>)
    ensures
        spec_file_meta(text).map_values(|m: MetaView| m.line) == spec_entries(text).map_values(
            |e: (Seq<char>, Seq<char>, u32)| e.2,
        ),
{
    lemma_meta_lines(lines(text), lines(text).len() as int);
}

} // verus!
