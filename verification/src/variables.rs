//! Variables defined in `name=value` files next to a document, and how they merge.
use vstd::prelude::*;
use crate::syntax::{is_identifier_chars, lines_are, spec_is_identifier};
use crate::text::{
    blen, byte_offset, chars_of, contains, eq_exec, find, find_from_exec, insert_sorted, lemma_blen_subrange,
    lemma_sorted_of, line_ranges, lines, lower, lower_exec, ranged, seqs, sorted_of, string_of, strictly_sorted,
    to_vec, trim, trim_range,
};

verus! {

/// A variable read from a variables file: its name, value, the file's URI, and where
/// its name stands (0-based line, byte columns).
#[derive(Clone, Debug, PartialEq, Eq)]
pub struct VariableDef {
    pub name: String,
    pub value: String,
    pub uri: String,
    pub line: u32,
    pub start: u32,
    pub end: u32,
}

/// A variable as a preview shows it, marked when its name looks like a secret.
#[derive(Clone, Debug, PartialEq, Eq)]
pub struct ResolvedVariable {
    pub name: String,
    pub value: String,
    pub uri: String,
    pub line: u32,
    pub start: u32,
    pub end: u32,
    pub sensitive: bool,
}

pub struct DefView {
    pub name: Seq<char>,
    pub value: Seq<char>,
    pub uri: Seq<char>,
    pub line: u32,
    pub start: u32,
    pub end: u32,
}

impl View for VariableDef {
    type V = DefView;

    open spec fn view(&self) -> DefView {
        DefView {
            name: self.name@,
            value: self.value@,
            uri: self.uri@,
            line: self.line,
            start: self.start,
            end: self.end,
        }
    }
}

impl VariableDef {
    /// A copy of the definition.
    pub fn copy_def(&self) -> (r: VariableDef)
        ensures
            r@ == self@,
    {
        VariableDef {
            name: self.name.clone(),
            value: self.value.clone(),
            uri: self.uri.clone(),
            line: self.line,
            start: self.start,
            end: self.end,
        }
    }
}

pub open spec fn defs_view(v: Seq<VariableDef>) -> Seq<DefView> {
    v.map_values(|d: VariableDef| d@)
}

/// The names of files that hold variables, in the order in which they are read.
pub open spec fn spec_variable_files() -> Seq<Seq<char>> {
    seq![".hurl-vars"@, "vars.env"@, "hurl.env"@, ".env"@]
}

/// A name that looks like it holds a secret.
pub open spec fn spec_is_sensitive_name(name: Seq<char>) -> bool {
    let l = lower(name);
    ||| contains(l, "token"@)
    ||| contains(l, "secret"@)
    ||| contains(l, "password"@)
    ||| contains(l, "passwd"@)
    ||| contains(l, "authorization"@)
    ||| contains(l, "api_key"@)
    ||| contains(l, "apikey"@)
    ||| contains(l, "api-key"@)
}

/// A `name=value` line: name and value trimmed, and the byte range of the first
/// occurrence of the name in the line. Blank lines, comments, lines without `=` and
/// names that are not identifiers give nothing.
pub open spec fn spec_variable_line(l: Seq<char>) -> Option<(Seq<char>, Seq<char>, int, int)> {
    let t = trim(l);
    if t.len() == 0 || t[0] == '#' {
        None
    } else {
        match find(l, "="@) {
            None => None,
            Some(e) => {
                let name = trim(l.take(e));
                if !spec_is_identifier(name) {
                    None
                } else {
                    match find(l, name) {
                        None => None,
                        Some(i) => Some((name, trim(l.skip(e + 1)), blen(l.take(i)) as int, (blen(l.take(i)) + blen(name)) as int)),
                    }
                }
            },
        }
    }
}

/// The definitions of the first `n` lines of a variables file at `uri`.
pub open spec fn defs_upto(ls: Seq<Seq<char>>, uri: Seq<char>, n: int) -> Seq<DefView>
    decreases n,
{
    if n <= 0 {
        Seq::empty()
    } else {
        let prev = defs_upto(ls, uri, n - 1);
        match spec_variable_line(ls[n - 1]) {
            Some((name, value, s, e)) => prev.push(
                DefView { name, value, uri, line: (n - 1) as u32, start: s as u32, end: e as u32 },
            ),
            None => prev,
        }
    }
}

pub open spec fn spec_file_defs(content: Seq<char>, uri: Seq<char>) -> Seq<DefView> {
    defs_upto(lines(content), uri, lines(content).len() as int)
}

/// The last of the first `n` definitions with the given name.
pub open spec fn last_def(ds: Seq<DefView>, name: Seq<char>, n: int) -> Option<DefView>
    decreases n,
{
    if n <= 0 {
        None
    } else if ds[n - 1].name == name {
        Some(ds[n - 1])
    } else {
        last_def(ds, name, n - 1)
    }
}

pub open spec fn def_names(ds: Seq<DefView>) -> Set<Seq<char>> {
    ds.map_values(|d: DefView| d.name).to_set()
}

/// One definition per name, in the order of names: the last one given for it.
pub open spec fn merged(ds: Seq<DefView>) -> Seq<DefView> {
    sorted_of(def_names(ds)).map_values(|n: Seq<char>| last_def(ds, n, ds.len() as int).unwrap())
}

pub open spec fn resolved_of(d: DefView) -> (DefView, bool) {
    (d, spec_is_sensitive_name(d.name))
}

pub open spec fn resolved_view(v: ResolvedVariable) -> (DefView, bool) {
    (DefView { name: v.name@, value: v.value@, uri: v.uri@, line: v.line, start: v.start, end: v.end }, v.sensitive)
}

pub open spec fn resolved_views(v: Seq<ResolvedVariable>) -> Seq<(DefView, bool)> {
    v.map_values(|x: ResolvedVariable| resolved_view(x))
}

/// The names of resolved variables, in order.
pub open spec fn names_of(vars: Seq<(DefView, bool)>) -> Seq<Seq<char>> {
    vars.map_values(|v: (DefView, bool)| v.0.name)
}

/// Resolved variables keyed by name: their names strictly increase, so no name occurs
/// twice and each name finds at most one variable.
pub open spec fn keyed_by_name(vars: Seq<(DefView, bool)>) -> bool {
    strictly_sorted(names_of(vars))
}

/// The names of the files that may hold variables, in the order in which a directory's
/// files are read; a later file overrides an earlier one.
pub fn variable_file_names() -> (r: Vec<String>)
    ensures
        r@.map_values(|s: String| s@) == spec_variable_files(),
{
    let mut r: Vec<String> = Vec::new();
    r.push(".hurl-vars".to_owned());
    r.push("vars.env".to_owned());
    r.push("hurl.env".to_owned());
    r.push(".env".to_owned());
    assert(r@.map_values(|s: String| s@) =~= spec_variable_files());
    r
}

fn contains_exec(s: &[char], p: &str) -> (r: bool)
    ensures
        r == contains(s@, p@),
{
    let pv = chars_of(p);
    find_from_exec(s, pv.as_slice(), 0).is_some()
}

/// Whether a variable or header name looks like it holds a secret: its lower-case form
/// contains `token`, `secret`, `password`, `passwd`, `authorization`, `api_key`, `apikey`
/// or `api-key`.
pub fn is_sensitive_name(name: &str) -> (r: bool)
    ensures
        r == spec_is_sensitive_name(name@),
{
    let nv = chars_of(name);
    let l = lower_exec(nv.as_slice());
    let s = l.as_slice();
    contains_exec(s, "token") || contains_exec(s, "secret") || contains_exec(s, "password")
        || contains_exec(s, "passwd") || contains_exec(s, "authorization") || contains_exec(s, "api_key")
        || contains_exec(s, "apikey") || contains_exec(s, "api-key")
}

fn variable_line_chars(l: &[char]) -> (r: Option<(Vec<char>, Vec<char>, usize, usize)>)
    requires
        blen(l@) <= usize::MAX,
    ensures
        match r {
            Some((n, v, s, e)) => spec_variable_line(l@) == Some((n@, v@, s as int, e as int)),
            None => spec_variable_line(l@) is None,
        },
{
    let (ta, tb) = trim_range(l);
    if ta == tb || l[ta] == '#' {
        assert(trim(l@) =~= l@.subrange(ta as int, tb as int));
        return None;
    }
    assert(trim(l@) =~= l@.subrange(ta as int, tb as int));
    let eq = chars_of("=");
    let e = match find_from_exec(l, eq.as_slice(), 0) {
        Some(e) => e,
        None => return None,
    };
    proof {
        reveal_strlit("=");
        crate::text::lemma_find_from_found(l@, eq@, 0);
    }
    let left = &l[0..e];
    assert(left@ =~= l@.take(e as int));
    let (na, nb) = trim_range(left);
    let name = &left[na..nb];
    if !is_identifier_chars(name) {
        return None;
    }
    let right = &l[e + 1..l.len()];
    assert(right@ =~= l@.skip(e + 1));
    let (va, vb) = trim_range(right);
    let i = match find_from_exec(l, name, 0) {
        Some(i) => i,
        None => return None,
    };
    proof {
        crate::text::lemma_find_from_found(l@, name@, 0);
        lemma_blen_subrange(l@, 0, i as int);
        lemma_blen_subrange(l@, i as int, i + name@.len());
        assert(l@.subrange(0, i as int) =~= l@.take(i as int));
        assert(l@.subrange(i as int, i + name@.len()) =~= name@);
        crate::text::lemma_encode_utf8_concat(l@.take(i as int), name@);
        assert(l@.take(i as int) + name@ =~= l@.take(i + name@.len()));
        lemma_blen_subrange(l@, 0, i + name@.len());
        assert(l@.subrange(0, i + name@.len()) =~= l@.take(i + name@.len()));
    }
    let s = byte_offset(l, i);
    let nl = byte_offset(name, name.len());
    assert(name@.take(name@.len() as int) =~= name@);
    Some((to_vec(name), to_vec(&right[va..vb]), s, s + nl))
}

/// The variable that a `name=value` line defines: the trimmed name and value, and the
/// byte range of the first occurrence of the name in the line.
pub fn parse_variable_line(line: &str) -> (r: Option<(String, String, usize, usize)>)
    ensures
        match r {
            Some((n, v, s, e)) => spec_variable_line(line@) == Some((n@, v@, s as int, e as int)),
            None => spec_variable_line(line@) is None,
        },
{
    let l = chars_of(line);
    match variable_line_chars(l.as_slice()) {
        Some((n, v, s, e)) => Some((string_of(n.as_slice()), string_of(v.as_slice()), s, e)),
        None => None,
    }
}

/// The variables that the text of a variables file at `uri` defines, line by line.
pub fn variables_from_text(content: &str, uri: &str) -> (r: Vec<VariableDef>)
    ensures
        defs_view(r@) == spec_file_defs(content@, uri@),
{
    let t = chars_of(content);
    let lr = line_ranges(t.as_slice());
    let ghost ls = lines(content@);
    let mut out: Vec<VariableDef> = Vec::new();
    let mut idx: usize = 0;
    while idx < lr.len()
        invariant
            idx <= lr@.len(),
            lines_are(t@, lr@),
            t@ == content@,
            ls == lines(content@),
            blen(t@) <= usize::MAX,
            defs_view(out@) == defs_upto(ls, uri@, idx as int),
        decreases lr@.len() - idx,
    {
        let (la, lb) = lr[idx];
        let line = &t.as_slice()[la..lb];
        assert(ranged(t@, lr@)[idx as int] == t@.subrange(la as int, lb as int));
        assert(line@ == ls[idx as int]);
        proof {
            lemma_blen_subrange(t@, la as int, lb as int);
        }
        match variable_line_chars(line) {
            Some((n, v, s, e)) => {
                #[verifier::truncate]
                let li = idx as u32;
                #[verifier::truncate]
                let s32 = s as u32;
                #[verifier::truncate]
                let e32 = e as u32;
                let d = VariableDef {
                    name: string_of(n.as_slice()),
                    value: string_of(v.as_slice()),
                    uri: uri.to_owned(),
                    line: li,
                    start: s32,
                    end: e32,
                };
                let ghost old_out = out@;
                out.push(d);
                assert(defs_view(out@) =~= defs_view(old_out).push(d@));
            },
            None => {},
        }
        idx = idx + 1;
    }
    out
}

/// Index of the last definition with the given name.
fn last_def_index(ds: &Vec<VariableDef>, name: &[char]) -> (r: Option<usize>)
    ensures
        match r {
            Some(i) => i < ds@.len() && last_def(defs_view(ds@), name@, ds@.len() as int) == Some(ds@[i as int]@),
            None => last_def(defs_view(ds@), name@, ds@.len() as int) is None,
        },
{
    let ghost dv = defs_view(ds@);
    let mut k: usize = ds.len();
    while k > 0
        invariant
            k <= ds@.len(),
            dv == defs_view(ds@),
            last_def(dv, name@, ds@.len() as int) == last_def(dv, name@, k as int),
        decreases k,
    {
        let nv = chars_of(ds[k - 1].name.as_str());
        assert(dv[k - 1] == ds@[k - 1]@);
        if eq_exec(nv.as_slice(), name) {
            return Some(k - 1);
        }
        k = k - 1;
    }
    None
}

proof fn lemma_last_def_present(ds: Seq<DefView>, name: Seq<char>, n: int)
    requires
        0 <= n <= ds.len(),
        exists|k: int| 0 <= k < n && ds[k].name == name,
    ensures
        last_def(ds, name, n) is Some,
        last_def(ds, name, n).unwrap().name == name,
    decreases n,
{
    if ds[n - 1].name != name {
        let k = choose|k: int| 0 <= k < n && ds[k].name == name;
        assert(k < n - 1);
        lemma_last_def_present(ds, name, n - 1);
    }
}

/// One definition per name, in the order of names, each the last one given for that
/// name: a later file overrides an earlier one.
pub fn merge_definitions(defs: &Vec<VariableDef>) -> (r: Vec<VariableDef>)
    ensures
        defs_view(r@) == merged(defs_view(defs@)),
        strictly_sorted(defs_view(r@).map_values(|d: DefView| d.name)),
{
    let ghost dv = defs_view(defs@);
    let ghost names_seq = dv.map_values(|d: DefView| d.name);
    let mut names: Vec<Vec<char>> = Vec::new();
    let mut k: usize = 0;
    while k < defs.len()
        invariant
            k <= defs@.len(),
            dv == defs_view(defs@),
            names_seq == dv.map_values(|d: DefView| d.name),
            strictly_sorted(seqs(names@)),
            seqs(names@).to_set() == names_seq.take(k as int).to_set(),
        decreases defs@.len() - k,
    {
        let nv = chars_of(defs[k].name.as_str());
        proof {
            assert(names_seq.take(k + 1) =~= names_seq.take(k as int).push(nv@));
            crate::text::lemma_push_to_set(names_seq.take(k as int), nv@);
        }
        insert_sorted(&mut names, nv);
        k = k + 1;
    }
    assert(names_seq.take(k as int) =~= names_seq);
    let ghost sorted = seqs(names@);
    proof {
        lemma_sorted_of(sorted);
    }
    let ghost want = sorted.map_values(|n: Seq<char>| last_def(dv, n, dv.len() as int).unwrap());
    let mut out: Vec<VariableDef> = Vec::new();
    let mut j: usize = 0;
    while j < names.len()
        invariant
            j <= names@.len(),
            dv == defs_view(defs@),
            names_seq == dv.map_values(|d: DefView| d.name),
            sorted == seqs(names@),
            sorted.to_set() == names_seq.to_set(),
            want == sorted.map_values(|n: Seq<char>| last_def(dv, n, dv.len() as int).unwrap()),
            defs_view(out@) == want.take(j as int),
        decreases names@.len() - j,
    {
        let name = names[j].as_slice();
        proof {
            assert(sorted[j as int] == name@);
            assert(sorted.to_set().contains(name@));
            assert(names_seq.contains(name@));
            let w = choose|w: int| 0 <= w < names_seq.len() && names_seq[w] == name@;
            assert(dv[w].name == name@);
            lemma_last_def_present(dv, name@, dv.len() as int);
        }
        let i = last_def_index(defs, name).unwrap();
        let d = defs[i].copy_def();
        let ghost old_out = out@;
        out.push(d);
        assert(defs_view(out@) =~= defs_view(old_out).push(d@));
        assert(want.take(j + 1) =~= want.take(j as int).push(want[j as int]));
        j = j + 1;
    }
    assert(want.take(j as int) =~= want);
    proof {
        assert forall|i: int| 0 <= i < want.len() implies #[trigger] want[i].name == sorted[i] by {
            assert(sorted.to_set().contains(sorted[i]));
            assert(names_seq.contains(sorted[i]));
            let w = choose|w: int| 0 <= w < names_seq.len() && names_seq[w] == sorted[i];
            assert(dv[w].name == sorted[i]);
            lemma_last_def_present(dv, sorted[i], dv.len() as int);
        }
        assert(want.map_values(|d: DefView| d.name) =~= sorted);
    }
    out
}

/// The variables that a sequence of definitions resolves to: one per name in the order of
/// names, each the last definition of its name, marked when its name looks like a secret.
pub fn resolve_variables(defs: &Vec<VariableDef>) -> (r: Vec<ResolvedVariable>)
    ensures
        resolved_views(r@) == merged(defs_view(defs@)).map_values(|d: DefView| resolved_of(d)),
        keyed_by_name(resolved_views(r@)),
{
    let m = merge_definitions(defs);
    let ghost mv = defs_view(m@);
    let mut out: Vec<ResolvedVariable> = Vec::new();
    let mut k: usize = 0;
    while k < m.len()
        invariant
            k <= m@.len(),
            mv == defs_view(m@),
            resolved_views(out@) == mv.map_values(|d: DefView| resolved_of(d)).take(k as int),
        decreases m@.len() - k,
    {
        let d = &m[k];
        let v = ResolvedVariable {
            name: d.name.clone(),
            value: d.value.clone(),
            uri: d.uri.clone(),
            line: d.line,
            start: d.start,
            end: d.end,
            sensitive: is_sensitive_name(d.name.as_str()),
        };
        let ghost before = out@;
        out.push(v);
        proof {
            assert(mv[k as int] == m@[k as int]@);
            assert(resolved_views(out@) =~= resolved_views(before).push(resolved_view(v)));
            assert(mv.map_values(|d: DefView| resolved_of(d)).take(k + 1) =~= mv.map_values(|d: DefView| resolved_of(d)).take(
                k as int,
            ).push(resolved_of(mv[k as int])));
        }
        k = k + 1;
    }
    assert(mv.map_values(|d: DefView| resolved_of(d)).take(k as int) =~= mv.map_values(|d: DefView| resolved_of(d)));
    assert(names_of(resolved_views(out@)) =~= mv.map_values(|d: DefView| d.name));
    out
}

/// The definition a name resolves to comes from the latest definition of it: a file read
/// later (nearer the document, or later in a profile) overrides the files before it.
pub proof fn law_later_definition_wins(a: Seq<DefView>, b: Seq<DefView>, name: Seq<char>)
    requires
        exists|k: int| 0 <= k < b.len() && b[k].name == name,
    ensures
        last_def(a + b, name, (a + b).len() as int) == last_def(b, name, b.len() as int),
        last_def(b, name, b.len() as int) is Some,
{
    lemma_last_def_concat(a, b, name, b.len() as int);
    lemma_last_def_present(b, name, b.len() as int);
}

proof fn lemma_last_def_concat(a: Seq<DefView>, b: Seq<DefView>, name: Seq<char>, n: int)
    requires
        0 <= n <= b.len(),
        exists|k: int| 0 <= k < n && b[k].name == name,
    ensures
        last_def(a + b, name, a.len() + n) == last_def(b, name, n),
    decreases n,
{
    assert((a + b)[a.len() + n - 1] == b[n - 1]);
    if b[n - 1].name != name {
        let k = choose|k: int| 0 <= k < n && b[k].name == name;
        assert(k < n - 1);
        lemma_last_def_concat(a, b, name, n - 1);
    }
}

} // verus!
