//! A request of a document as a cURL command line, with variables substituted and,
//! for display, secrets masked.
use vstd::prelude::*;
use crate::diagnostics::{entries_view, parse_document, spec_entries};
use crate::syntax::{lemma_placeholders_ordered, placeholder_bounds, placeholder_ranges, placeholder_view, placeholders_from};
use crate::text::{
    chars_of, contains, eq_exec, find, find_from_exec, insert_sorted, is_ascii_alnum, lemma_find_from_found, lower,
    lower_exec,
    occurs_at, push_all, push_str, seqs, starts_with, starts_with_exec, string_of, strictly_sorted,
};
use crate::variables::{
    is_sensitive_name, keyed_by_name, resolved_view, resolved_views, spec_is_sensitive_name, DefView, ResolvedVariable,
};

verus! {

/// `str::replace`: every non-overlapping occurrence of `p`, from the left, replaced by
/// `r`; an empty `p` matches before every character and at the end.
pub open spec fn replace_all(s: Seq<char>, p: Seq<char>, r: Seq<char>) -> Seq<char>
    decreases s.len(),
{
    if p.len() == 0 {
        if s.len() == 0 {
            r
        } else {
            r + seq![s[0]] + replace_all(s.drop_first(), p, r)
        }
    } else {
        match find(s, p) {
            None => s,
            Some(i) => {
                proof {
                    lemma_find_from_found(s, p, 0);
                }
                s.take(i) + r + replace_all(s.skip(i + p.len()), p, r)
            },
        }
    }
}

/// `str::replace`.
pub fn replace_exec(s: &[char], p: &[char], r: &[char]) -> (out: Vec<char>)
    ensures
        out@ == replace_all(s@, p@, r@),
{
    let mut out: Vec<char> = Vec::new();
    let mut i: usize = 0;
    assert(s@.skip(0) =~= s@);
    assert(out@ + replace_all(s@, p@, r@) =~= replace_all(s@, p@, r@));
    if p.len() == 0 {
        while i < s.len()
            invariant
                i <= s@.len(),
                p@.len() == 0,
                out@ + replace_all(s@.skip(i as int), p@, r@) == replace_all(s@, p@, r@),
            decreases s@.len() - i,
        {
            let ghost rest = s@.skip(i as int);
            assert(rest.drop_first() =~= s@.skip(i + 1));
            assert(rest[0] == s@[i as int]);
            push_all(&mut out, r);
            out.push(s[i]);
            assert(out@ + replace_all(s@.skip(i + 1), p@, r@) =~= replace_all(s@, p@, r@));
            i = i + 1;
        }
        assert(s@.skip(i as int).len() == 0);
        push_all(&mut out, r);
        return out;
    }
    loop
        invariant
            i <= s@.len(),
            p@.len() > 0,
            out@ + replace_all(s@.skip(i as int), p@, r@) == replace_all(s@, p@, r@),
        decreases s@.len() - i,
    {
        let rest = &s[i..s.len()];
        assert(rest@ =~= s@.skip(i as int));
        match find_from_exec(rest, p, 0) {
            None => {
                push_all(&mut out, rest);
                return out;
            },
            Some(k) => {
                proof {
                    lemma_find_from_found(rest@, p@, 0);
                }
                push_all(&mut out, &rest[0..k]);
                push_all(&mut out, r);
                proof {
                    assert(rest@.subrange(0, k as int) =~= rest@.take(k as int));
                    assert(rest@.skip(k + p@.len()) =~= s@.skip(i + k + p@.len()));
                    assert(out@ + replace_all(s@.skip(i + k + p@.len()), p@, r@) =~= replace_all(s@, p@, r@));
                }
                i = i + k + p.len();
            },
        }
    }
}

/// A shell word: the text in single quotes, each `'` written as `'"'"'`.
pub open spec fn spec_quote(v: Seq<char>) -> Seq<char> {
    "'"@ + replace_all(v, "'"@, "'\"'\"'"@) + "'"@
}

/// A shell word: the text in single quotes, each `'` written as `'"'"'`.
pub fn quote(value: &[char]) -> (r: Vec<char>)
    ensures
        r@ == spec_quote(value@),
{
    let q = chars_of("'");
    let esc = chars_of("'\"'\"'");
    let body = replace_exec(value, q.as_slice(), esc.as_slice());
    let mut r: Vec<char> = Vec::new();
    push_str(&mut r, "'");
    push_all(&mut r, body.as_slice());
    push_str(&mut r, "'");
    assert(r@ =~= spec_quote(value@));
    r
}

pub open spec fn bullets() -> Seq<char> {
    "••••••"@
}

/// Each of the first `k` secrets replaced in turn by `••••••`.
pub open spec fn mask_with(v: Seq<char>, secrets: Seq<Seq<char>>, k: int) -> Seq<char>
    decreases k,
{
    if k <= 0 {
        v
    } else {
        replace_all(mask_with(v, secrets, k - 1), secrets[k - 1], bullets())
    }
}

/// The text as shown: with `mask`, every secret replaced by `••••••`, secret by secret.
pub open spec fn spec_masked(v: Seq<char>, secrets: Seq<Seq<char>>, mask: bool) -> Seq<char> {
    if mask {
        mask_with(v, secrets, secrets.len() as int)
    } else {
        v
    }
}

/// The text as shown: with `mask`, every secret replaced by `••••••`, secret by secret.
pub fn masked(value: &[char], secrets: &Vec<String>, mask: bool) -> (r: Vec<char>)
    ensures
        r@ == spec_masked(value@, secrets@.map_values(|s: String| s@), mask),
{
    let ghost sv = secrets@.map_values(|s: String| s@);
    let mut cur = crate::text::to_vec(value);
    if !mask {
        return cur;
    }
    let b = chars_of("••••••");
    let mut k: usize = 0;
    while k < secrets.len()
        invariant
            k <= secrets@.len(),
            sv == secrets@.map_values(|s: String| s@),
            b@ == bullets(),
            cur@ == mask_with(value@, sv, k as int),
        decreases secrets@.len() - k,
    {
        let sc = chars_of(secrets[k].as_str());
        assert(sv[k as int] == sc@);
        cur = replace_exec(cur.as_slice(), sc.as_slice(), b.as_slice());
        k = k + 1;
    }
    cur
}

/// Arguments joined by `sep`.
pub open spec fn join(args: Seq<Seq<char>>, sep: Seq<char>) -> Seq<char>
    decreases args.len(),
{
    if args.len() == 0 {
        Seq::empty()
    } else if args.len() == 1 {
        args[0]
    } else {
        join(args.drop_last(), sep) + sep + args.last()
    }
}

pub fn join_exec(args: &Vec<Vec<char>>, sep: &str) -> (r: Vec<char>)
    ensures
        r@ == join(args@.map_values(|a: Vec<char>| a@), sep@),
{
    let ghost av = args@.map_values(|a: Vec<char>| a@);
    let mut out: Vec<char> = Vec::new();
    let mut k: usize = 0;
    while k < args.len()
        invariant
            k <= args@.len(),
            av == args@.map_values(|a: Vec<char>| a@),
            out@ == join(av.take(k as int), sep@),
        decreases args@.len() - k,
    {
        let ghost before = out@;
        if k > 0 {
            push_str(&mut out, sep);
        }
        push_all(&mut out, args[k].as_slice());
        proof {
            assert(av.take(k + 1).drop_last() =~= av.take(k as int));
            assert(av.take(k + 1).last() == av[k as int]);
            if k == 0 {
                assert(av.take(1) =~= seq![av[0]]);
            }
        }
        k = k + 1;
    }
    assert(av.take(k as int) =~= av);
    out
}


/// The first of the variables with the given name.
pub open spec fn lookup(vars: Seq<(DefView, bool)>, name: Seq<char>, n: int) -> Option<(DefView, bool)>
    decreases n,
{
    if n <= 0 {
        None
    } else {
        let prev = lookup(vars, name, n - 1);
        if prev is Some {
            prev
        } else if vars[n - 1].0.name == name {
            Some(vars[n - 1])
        } else {
            None
        }
    }
}

pub open spec fn find_var(vars: Seq<(DefView, bool)>, name: Seq<char>) -> Option<(DefView, bool)> {
    lookup(vars, name, vars.len() as int)
}

/// What a placeholder becomes: the variable's value, or the placeholder itself when no
/// variable has its name.
pub open spec fn piece(s: Seq<char>, p: (int, int, Seq<char>), vars: Seq<(DefView, bool)>) -> Seq<char> {
    match find_var(vars, p.2) {
        Some(v) => v.0.value,
        None => s.subrange(p.0, p.1),
    }
}

/// The text from `from` on with the placeholders `ps` replaced.
pub open spec fn splice(s: Seq<char>, ps: Seq<(int, int, Seq<char>)>, vars: Seq<(DefView, bool)>, from: int) -> Seq<char>
    decreases ps.len(),
{
    if ps.len() == 0 {
        s.subrange(from, s.len() as int)
    } else {
        s.subrange(from, ps[0].0) + piece(s, ps[0], vars) + splice(s, ps.drop_first(), vars, ps[0].1)
    }
}

/// The text with each `{{name}}` placeholder replaced by the value of the variable of
/// that name; placeholders of unknown variables stay as they are.
pub open spec fn subst(s: Seq<char>, vars: Seq<(DefView, bool)>) -> Seq<char> {
    splice(s, placeholders_from(s, 0), vars, 0)
}

pub open spec fn unresolved_upto(ps: Seq<(int, int, Seq<char>)>, vars: Seq<(DefView, bool)>, k: int) -> Set<Seq<char>>
    decreases k,
{
    if k <= 0 {
        Set::empty()
    } else {
        let prev = unresolved_upto(ps, vars, k - 1);
        if find_var(vars, ps[k - 1].2) is None {
            prev.insert(ps[k - 1].2)
        } else {
            prev
        }
    }
}

/// The names of the placeholders of `s` that no variable resolves.
pub open spec fn unresolved_in(s: Seq<char>, vars: Seq<(DefView, bool)>) -> Set<Seq<char>> {
    unresolved_upto(placeholders_from(s, 0), vars, placeholders_from(s, 0).len() as int)
}

/// Index of the first variable with the given name.
fn find_var_index(vars: &Vec<ResolvedVariable>, name: &[char]) -> (r: Option<usize>)
    ensures
        match r {
            Some(i) => i < vars@.len() && find_var(resolved_views(vars@), name@) == Some(resolved_view(vars@[i as int])),
            None => find_var(resolved_views(vars@), name@) is None,
        },
{
    let ghost vv = resolved_views(vars@);
    let mut k: usize = 0;
    while k < vars.len()
        invariant
            k <= vars@.len(),
            vv == resolved_views(vars@),
            lookup(vv, name@, k as int) is None,
        decreases vars@.len() - k,
    {
        let nv = chars_of(vars[k].name.as_str());
        assert(vv[k as int] == resolved_view(vars@[k as int]));
        if eq_exec(nv.as_slice(), name) {
            proof {
                lemma_lookup_stays(vv, name@, k + 1, vv.len() as int);
            }
            return Some(k);
        }
        k = k + 1;
    }
    None
}

proof fn lemma_lookup_stays(vars: Seq<(DefView, bool)>, name: Seq<char>, m: int, n: int)
    requires
        m <= n,
        lookup(vars, name, m) is Some,
    ensures
        lookup(vars, name, n) == lookup(vars, name, m),
    decreases n - m,
{
    if m < n {
        lemma_lookup_stays(vars, name, m, n - 1);
    }
}

/// `s` with its placeholders resolved; the names that no variable resolves are added
/// to `unresolved`.
fn resolve_text(s: &str, vars: &Vec<ResolvedVariable>, unresolved: &mut Vec<Vec<char>>) -> (r: String)
    requires
        strictly_sorted(seqs(old(unresolved)@)),
    ensures
        r@ == subst(s@, resolved_views(vars@)),
        strictly_sorted(seqs(final(unresolved)@)),
        seqs(final(unresolved)@).to_set() == seqs(old(unresolved)@).to_set() + unresolved_in(s@, resolved_views(vars@)),
{
    let ghost vv = resolved_views(vars@);
    let l = chars_of(s);
    let q = placeholder_ranges(l.as_slice());
    let ghost ps = placeholders_from(l@, 0);
    let ghost start_set = seqs(unresolved@).to_set();
    proof {
        lemma_placeholders_ordered(l@, 0);
    }
    let mut out: Vec<char> = Vec::new();
    let mut pos: usize = 0;
    let mut k: usize = 0;
    assert(ps.skip(0) =~= ps);
    assert(unresolved_upto(ps, vv, 0) =~= Set::<Seq<char>>::empty());
    assert(start_set + Set::<Seq<char>>::empty() =~= start_set);
    while k < q.len()
        invariant
            k <= q@.len(),
            vv == resolved_views(vars@),
            l@ == s@,
            ps == placeholders_from(l@, 0),
            placeholder_bounds(l@, q@),
            placeholder_view(l@, q@) == ps,
            forall|i: int| 0 <= i < ps.len() ==> 0 <= (#[trigger] ps[i]).0 && ps[i].0 < ps[i].1 && ps[i].1 <= l@.len(),
            forall|i: int, j: int| 0 <= i < j < ps.len() ==> (#[trigger] ps[i]).1 <= (#[trigger] ps[j]).0,
            pos <= l@.len(),
            k < q@.len() ==> pos <= ps[k as int].0,
            out@ + splice(l@, ps.skip(k as int), vv, pos as int) == subst(l@, vv),
            strictly_sorted(seqs(unresolved@)),
            seqs(unresolved@).to_set() == start_set + unresolved_upto(ps, vv, k as int),
        decreases q@.len() - k,
    {
        let (st, en, a, b) = q[k];
        assert(ps[k as int] == (st as int, en as int, l@.subrange(a as int, b as int)));
        let name = &l.as_slice()[a..b];
        push_all(&mut out, &l.as_slice()[pos..st]);
        let ghost rest = ps.skip(k as int);
        assert(rest[0] == ps[k as int]);
        assert(rest.drop_first() =~= ps.skip(k + 1));
        let ghost before_set = seqs(unresolved@).to_set();
        match find_var_index(vars, name) {
            Some(i) => {
                assert(vv[i as int] == resolved_view(vars@[i as int]));
                let vc = chars_of(vars[i].value.as_str());
                push_all(&mut out, vc.as_slice());
                assert(unresolved_upto(ps, vv, k + 1) == unresolved_upto(ps, vv, k as int));
            },
            None => {
                push_all(&mut out, &l.as_slice()[st..en]);
                insert_sorted(unresolved, crate::text::to_vec(name));
                assert(seqs(unresolved@).to_set() =~= start_set + unresolved_upto(ps, vv, k + 1));
            },
        }
        proof {
            assert(out@ + splice(l@, ps.skip(k + 1), vv, en as int) =~= subst(l@, vv));
            if k + 1 < q@.len() {
                assert(ps[k as int].1 <= ps[k + 1].0);
            }
        }
        pos = en;
        k = k + 1;
    }
    push_all(&mut out, &l.as_slice()[pos..l.len()]);
    assert(ps.skip(k as int).len() == 0);
    assert(out@ =~= subst(l@, vv));
    string_of(out.as_slice())
}

/// A cURL command: to run, and to show with secrets masked.
#[derive(Clone, Debug, PartialEq, Eq)]
pub struct CurlCommand {
    pub command: String,
    pub display_command: String,
}

/// Why a request cannot be exported as a cURL command.
#[derive(Clone, Debug, PartialEq, Eq)]
pub enum CurlBuildError {
    UnresolvedVariables(Vec<String>),
    Unsupported(String),
    Parse(String),
}

pub enum ErrView {
    UnresolvedVariables(Seq<Seq<char>>),
    Unsupported(Seq<char>),
    Parse(Seq<char>),
}

pub open spec fn err_view(e: CurlBuildError) -> ErrView {
    match e {
        CurlBuildError::UnresolvedVariables(v) => ErrView::UnresolvedVariables(v@.map_values(|s: String| s@)),
        CurlBuildError::Unsupported(m) => ErrView::Unsupported(m@),
        CurlBuildError::Parse(m) => ErrView::Parse(m@),
    }
}

/// The parts of a request that a cURL command carries. A body that names a file is
/// written `\0FILE:` and the file name.
#[derive(Clone, Debug, Default)]
pub struct RequestParts {
    pub method: String,
    pub url: String,
    pub headers: Vec<(String, String)>,
    pub query: Vec<(String, String)>,
    pub auth: Option<(String, String)>,
    pub body: Option<String>,
    pub form: Vec<(String, String)>,
    pub multipart: Vec<(String, String)>,
    pub sensitive_values: Vec<String>,
}

/// A request of a parsed document: its parts, or a body that a static command cannot
/// carry (base64 or hex).
#[derive(Clone, Debug)]
pub enum ParsedRequest {
    Parts(RequestParts),
    BinaryBody,
}

pub struct PartsView {
    pub method: Seq<char>,
    pub url: Seq<char>,
    pub headers: Seq<(Seq<char>, Seq<char>)>,
    pub query: Seq<(Seq<char>, Seq<char>)>,
    pub auth: Option<(Seq<char>, Seq<char>)>,
    pub body: Option<Seq<char>>,
    pub form: Seq<(Seq<char>, Seq<char>)>,
    pub multipart: Seq<(Seq<char>, Seq<char>)>,
    pub sensitive_values: Seq<Seq<char>>,
}

pub open spec fn pairs_view(v: Seq<(String, String)>) -> Seq<(Seq<char>, Seq<char>)> {
    v.map_values(|p: (String, String)| (p.0@, p.1@))
}

impl View for RequestParts {
    type V = PartsView;

    open spec fn view(&self) -> PartsView {
        PartsView {
            method: self.method@,
            url: self.url@,
            headers: pairs_view(self.headers@),
            query: pairs_view(self.query@),
            auth: match self.auth {
                Some(a) => Some((a.0@, a.1@)),
                None => None,
            },
            body: match self.body {
                Some(b) => Some(b@),
                None => None,
            },
            form: pairs_view(self.form@),
            multipart: pairs_view(self.multipart@),
            sensitive_values: self.sensitive_values@.map_values(|s: String| s@),
        }
    }
}

pub open spec fn subst_pairs(ps: Seq<(Seq<char>, Seq<char>)>, vars: Seq<(DefView, bool)>) -> Seq<(Seq<char>, Seq<char>)> {
    ps.map_values(|p: (Seq<char>, Seq<char>)| (subst(p.0, vars), subst(p.1, vars)))
}

pub open spec fn pairs_unresolved(ps: Seq<(Seq<char>, Seq<char>)>, vars: Seq<(DefView, bool)>, k: int) -> Set<Seq<char>>
    decreases k,
{
    if k <= 0 {
        Set::empty()
    } else {
        pairs_unresolved(ps, vars, k - 1) + unresolved_in(ps[k - 1].0, vars) + unresolved_in(ps[k - 1].1, vars)
    }
}

pub open spec fn all_pairs_unresolved(ps: Seq<(Seq<char>, Seq<char>)>, vars: Seq<(DefView, bool)>) -> Set<Seq<char>> {
    pairs_unresolved(ps, vars, ps.len() as int)
}

/// The names of all placeholders of a request that no variable resolves.
pub open spec fn parts_unresolved(p: PartsView, vars: Seq<(DefView, bool)>) -> Set<Seq<char>> {
    unresolved_in(p.url, vars) + all_pairs_unresolved(p.headers, vars) + all_pairs_unresolved(p.query, vars)
        + all_pairs_unresolved(p.form, vars) + all_pairs_unresolved(p.multipart, vars) + match p.auth {
        Some(a) => unresolved_in(a.0, vars) + unresolved_in(a.1, vars),
        None => Set::empty(),
    } + match p.body {
        Some(b) => unresolved_in(b, vars),
        None => Set::empty(),
    }
}

/// A request with the placeholders of its URL, headers, query, form, multipart fields,
/// credentials and body resolved (its method and secrets as they were).
pub open spec fn parts_subst(p: PartsView, vars: Seq<(DefView, bool)>) -> PartsView {
    PartsView {
        method: p.method,
        url: subst(p.url, vars),
        headers: subst_pairs(p.headers, vars),
        query: subst_pairs(p.query, vars),
        auth: match p.auth {
            Some(a) => Some((subst(a.0, vars), subst(a.1, vars))),
            None => None,
        },
        body: match p.body {
            Some(b) => Some(subst(b, vars)),
            None => None,
        },
        form: subst_pairs(p.form, vars),
        multipart: subst_pairs(p.multipart, vars),
        sensitive_values: p.sensitive_values,
    }
}

/// The non-empty values of the first `k` variables that are marked sensitive, in order.
pub open spec fn secrets_upto(vars: Seq<(DefView, bool)>, k: int) -> Seq<Seq<char>>
    decreases k,
{
    if k <= 0 {
        Seq::empty()
    } else {
        let prev = secrets_upto(vars, k - 1);
        if vars[k - 1].1 && vars[k - 1].0.value.len() > 0 {
            prev.push(vars[k - 1].0.value)
        } else {
            prev
        }
    }
}

pub open spec fn secrets_of(vars: Seq<(DefView, bool)>) -> Seq<Seq<char>> {
    secrets_upto(vars, vars.len() as int)
}

fn resolve_pairs(ps: &Vec<(String, String)>, vars: &Vec<ResolvedVariable>, unresolved: &mut Vec<Vec<char>>) -> (r: Vec<(String, String)>)
    requires
        strictly_sorted(seqs(old(unresolved)@)),
    ensures
        pairs_view(r@) == subst_pairs(pairs_view(ps@), resolved_views(vars@)),
        strictly_sorted(seqs(final(unresolved)@)),
        seqs(final(unresolved)@).to_set() == seqs(old(unresolved)@).to_set() + all_pairs_unresolved(
            pairs_view(ps@),
            resolved_views(vars@),
        ),
{
    let ghost vv = resolved_views(vars@);
    let ghost pv = pairs_view(ps@);
    let ghost start_set = seqs(unresolved@).to_set();
    let mut out: Vec<(String, String)> = Vec::new();
    let mut k: usize = 0;
    assert(start_set + Set::<Seq<char>>::empty() =~= start_set);
    while k < ps.len()
        invariant
            k <= ps@.len(),
            vv == resolved_views(vars@),
            pv == pairs_view(ps@),
            pairs_view(out@) == subst_pairs(pv, vv).take(k as int),
            strictly_sorted(seqs(unresolved@)),
            seqs(unresolved@).to_set() == start_set + pairs_unresolved(pv, vv, k as int),
        decreases ps@.len() - k,
    {
        assert(pv[k as int] == (ps@[k as int].0@, ps@[k as int].1@));
        let a = resolve_text(ps[k].0.as_str(), vars, unresolved);
        let b = resolve_text(ps[k].1.as_str(), vars, unresolved);
        let ghost old_out = out@;
        out.push((a, b));
        proof {
            assert(pairs_view(out@) =~= pairs_view(old_out).push((a@, b@)));
            assert(subst_pairs(pv, vv).take(k + 1) =~= subst_pairs(pv, vv).take(k as int).push(subst_pairs(pv, vv)[k as int]));
            assert(seqs(unresolved@).to_set() =~= start_set + pairs_unresolved(pv, vv, k + 1));
        }
        k = k + 1;
    }
    assert(subst_pairs(pv, vv).take(k as int) =~= subst_pairs(pv, vv));
    out
}

fn secret_values(vars: &Vec<ResolvedVariable>) -> (r: Vec<String>)
    ensures
        r@.map_values(|s: String| s@) == secrets_of(resolved_views(vars@)),
{
    let ghost vv = resolved_views(vars@);
    let mut out: Vec<String> = Vec::new();
    let mut k: usize = 0;
    while k < vars.len()
        invariant
            k <= vars@.len(),
            vv == resolved_views(vars@),
            out@.map_values(|s: String| s@) == secrets_upto(vv, k as int),
        decreases vars@.len() - k,
    {
        assert(vv[k as int] == resolved_view(vars@[k as int]));
        let vc = chars_of(vars[k].value.as_str());
        if vars[k].sensitive && vc.len() > 0 {
            let ghost old_out = out@;
            out.push(vars[k].value.clone());
            assert(out@.map_values(|s: String| s@) =~= old_out.map_values(|s: String| s@).push(vc@));
        }
        k = k + 1;
    }
    out
}

/// Resolves the placeholders of a request's URL, headers, query, form and multipart
/// fields, credentials and body. When a placeholder names no variable, the error lists
/// all such names once each, in the order of names; otherwise the request's secrets
/// become the non-empty values of the sensitive variables, in their order. The variables
/// are keyed by name, as `resolve_variables` gives them.
pub fn resolve_parts(parts: &mut RequestParts, vars: &Vec<ResolvedVariable>) -> (r: Result<(), CurlBuildError>)
    requires
        keyed_by_name(resolved_views(vars@)),
    ensures
        ({
            let vv = resolved_views(vars@);
            let u = parts_unresolved(old(parts)@, vv);
            let p = parts_subst(old(parts)@, vv);
            &&& (r is Ok <==> u == Set::<Seq<char>>::empty())
            &&& (r matches Err(e) ==> err_view(e) == ErrView::UnresolvedVariables(sorted_of_names(u)))
            &&& final(parts)@ == (if r is Ok { PartsView { sensitive_values: secrets_of(vv), ..p } } else { p })
        }),
{
    let ghost vv = resolved_views(vars@);
    let ghost p0 = parts@;
    let mut unresolved: Vec<Vec<char>> = Vec::new();
    assert(seqs(unresolved@).to_set() =~= Set::<Seq<char>>::empty());
    let url = resolve_text(parts.url.as_str(), vars, &mut unresolved);
    let headers = resolve_pairs(&parts.headers, vars, &mut unresolved);
    let query = resolve_pairs(&parts.query, vars, &mut unresolved);
    let form = resolve_pairs(&parts.form, vars, &mut unresolved);
    let multipart = resolve_pairs(&parts.multipart, vars, &mut unresolved);
    let ghost before_auth = seqs(unresolved@).to_set();
    let auth = match &parts.auth {
        Some((user, pass)) => {
            let u = resolve_text(user.as_str(), vars, &mut unresolved);
            let w = resolve_text(pass.as_str(), vars, &mut unresolved);
            Some((u, w))
        },
        None => None,
    };
    let ghost before_body = seqs(unresolved@).to_set();
    let body = match &parts.body {
        Some(b) => Some(resolve_text(b.as_str(), vars, &mut unresolved)),
        None => None,
    };
    parts.url = url;
    parts.headers = headers;
    parts.query = query;
    parts.form = form;
    parts.multipart = multipart;
    parts.auth = auth;
    parts.body = body;
    proof {
        assert(seqs(unresolved@).to_set() =~= parts_unresolved(p0, vv));
        assert(parts@ =~= parts_subst(p0, vv));
        crate::text::lemma_sorted_of(seqs(unresolved@));
    }
    if unresolved.len() > 0 {
        let mut names: Vec<String> = Vec::new();
        let mut k: usize = 0;
        while k < unresolved.len()
            invariant
                k <= unresolved@.len(),
                names@.map_values(|s: String| s@) == seqs(unresolved@).take(k as int),
            decreases unresolved@.len() - k,
        {
            let ghost old_names = names@;
            names.push(string_of(unresolved[k].as_slice()));
            assert(names@.map_values(|s: String| s@) =~= old_names.map_values(|s: String| s@).push(unresolved@[k as int]@));
            assert(seqs(unresolved@).take(k + 1) =~= seqs(unresolved@).take(k as int).push(unresolved@[k as int]@));
            k = k + 1;
        }
        proof {
            assert(seqs(unresolved@).take(k as int) =~= seqs(unresolved@));
            assert(seqs(unresolved@).to_set().contains(seqs(unresolved@)[0]));
        }
        return Err(CurlBuildError::UnresolvedVariables(names));
    }
    proof {
        assert(seqs(unresolved@) =~= Seq::<Seq<char>>::empty());
        assert(seqs(unresolved@).to_set() =~= Set::<Seq<char>>::empty());
    }
    parts.sensitive_values = secret_values(vars);
    Ok(())
}

/// The sorted list of a set of names.
pub open spec fn sorted_of_names(u: Set<Seq<char>>) -> Seq<Seq<char>> {
    crate::text::sorted_of(u)
}

/// A header whose value a displayed command hides: a sensitive name, or a cookie.
pub open spec fn header_sensitive(n: Seq<char>) -> bool {
    spec_is_sensitive_name(n) || lower(n) == "cookie"@ || lower(n) == "set-cookie"@
}

pub open spec fn header_args(hs: Seq<(Seq<char>, Seq<char>)>, secrets: Seq<Seq<char>>, mask: bool, k: int) -> Seq<Seq<char>>
    decreases k,
{
    if k <= 0 {
        Seq::empty()
    } else {
        let h = hs[k - 1];
        let shown = if mask && header_sensitive(h.0) {
            bullets()
        } else {
            spec_masked(h.1, secrets, mask)
        };
        header_args(hs, secrets, mask, k - 1) + seq!["-H"@, spec_quote(h.0 + ": "@ + shown)]
    }
}

pub open spec fn kv_args(flag: Seq<char>, ps: Seq<(Seq<char>, Seq<char>)>, secrets: Seq<Seq<char>>, mask: bool, k: int) -> Seq<Seq<char>>
    decreases k,
{
    if k <= 0 {
        Seq::empty()
    } else {
        let p = ps[k - 1];
        kv_args(flag, ps, secrets, mask, k - 1) + seq![flag, spec_quote(p.0 + "="@ + spec_masked(p.1, secrets, mask))]
    }
}

pub open spec fn file_marker() -> Seq<char> {
    "\0FILE:"@
}

/// The arguments of the cURL command of a request; with `mask`, secrets, sensitive
/// headers and the password are hidden.
pub open spec fn curl_args(p: PartsView, mask: bool) -> Seq<Seq<char>> {
    let sec = p.sensitive_values;
    seq!["curl"@, "-X"@, spec_quote(p.method), spec_quote(spec_masked(p.url, sec, mask))]
        + header_args(p.headers, sec, mask, p.headers.len() as int)
        + (if p.query.len() > 0 {
            seq!["--get"@] + kv_args("--data-urlencode"@, p.query, sec, mask, p.query.len() as int)
        } else {
            Seq::empty()
        })
        + match p.auth {
            Some(a) => seq![
                "--user"@,
                spec_quote(spec_masked(a.0, sec, mask) + ":"@ + (if mask { bullets() } else { a.1 })),
            ],
            None => Seq::empty(),
        }
        + kv_args("--data-urlencode"@, p.form, sec, mask, p.form.len() as int)
        + kv_args("--form"@, p.multipart, sec, mask, p.multipart.len() as int)
        + match p.body {
            Some(b) => if starts_with(b, file_marker()) {
                seq!["--data-binary"@, spec_quote("@"@ + spec_masked(b.skip(file_marker().len() as int), sec, mask))]
            } else {
                seq!["--data-raw"@, spec_quote(spec_masked(b, sec, mask))]
            },
            None => Seq::empty(),
        }
}

pub open spec fn separator() -> Seq<char> {
    " \\\n  "@
}

/// The command line: the arguments, one continued line after another.
pub open spec fn spec_render(p: PartsView, mask: bool) -> Seq<char> {
    join(curl_args(p, mask), separator())
}

fn push_arg(args: &mut Vec<Vec<char>>, a: Vec<char>)
    ensures
        final(args)@.map_values(|x: Vec<char>| x@) == old(args)@.map_values(|x: Vec<char>| x@).push(a@),
{
    args.push(a);
    assert(args@.map_values(|x: Vec<char>| x@) =~= old(args)@.map_values(|x: Vec<char>| x@).push(a@));
}

fn push_lit(args: &mut Vec<Vec<char>>, a: &str)
    ensures
        final(args)@.map_values(|x: Vec<char>| x@) == old(args)@.map_values(|x: Vec<char>| x@).push(a@),
{
    push_arg(args, chars_of(a));
}

pub fn is_header_sensitive(name: &str) -> (r: bool)
    ensures
        r == header_sensitive(name@),
{
    let l = lower_exec(chars_of(name).as_slice());
    let c = chars_of("cookie");
    let sc = chars_of("set-cookie");
    is_sensitive_name(name) || eq_exec(l.as_slice(), c.as_slice()) || eq_exec(l.as_slice(), sc.as_slice())
}

fn push_headers(args: &mut Vec<Vec<char>>, hs: &Vec<(String, String)>, secrets: &Vec<String>, mask: bool)
    ensures
        final(args)@.map_values(|x: Vec<char>| x@) == old(args)@.map_values(|x: Vec<char>| x@) + header_args(
            pairs_view(hs@),
            secrets@.map_values(|s: String| s@),
            mask,
            hs@.len() as int,
        ),
{
    let ghost hv = pairs_view(hs@);
    let ghost sv = secrets@.map_values(|s: String| s@);
    let ghost start = args@.map_values(|x: Vec<char>| x@);
    let mut k: usize = 0;
    assert(start + header_args(hv, sv, mask, 0) =~= start);
    while k < hs.len()
        invariant
            k <= hs@.len(),
            hv == pairs_view(hs@),
            sv == secrets@.map_values(|s: String| s@),
            args@.map_values(|x: Vec<char>| x@) == start + header_args(hv, sv, mask, k as int),
        decreases hs@.len() - k,
    {
        assert(hv[k as int] == (hs@[k as int].0@, hs@[k as int].1@));
        let name = hs[k].0.as_str();
        let mut text: Vec<char> = Vec::new();
        push_str(&mut text, name);
        push_str(&mut text, ": ");
        if mask && is_header_sensitive(name) {
            push_str(&mut text, "••••••");
        } else {
            let m = masked(chars_of(hs[k].1.as_str()).as_slice(), secrets, mask);
            push_all(&mut text, m.as_slice());
        }
        push_lit(args, "-H");
        push_arg(args, quote(text.as_slice()));
        assert(args@.map_values(|x: Vec<char>| x@) =~= start + header_args(hv, sv, mask, k + 1));
        k = k + 1;
    }
}

fn push_kv(args: &mut Vec<Vec<char>>, flag: &str, ps: &Vec<(String, String)>, secrets: &Vec<String>, mask: bool)
    ensures
        final(args)@.map_values(|x: Vec<char>| x@) == old(args)@.map_values(|x: Vec<char>| x@) + kv_args(
            flag@,
            pairs_view(ps@),
            secrets@.map_values(|s: String| s@),
            mask,
            ps@.len() as int,
        ),
{
    let ghost pv = pairs_view(ps@);
    let ghost sv = secrets@.map_values(|s: String| s@);
    let ghost start = args@.map_values(|x: Vec<char>| x@);
    let mut k: usize = 0;
    assert(start + kv_args(flag@, pv, sv, mask, 0) =~= start);
    while k < ps.len()
        invariant
            k <= ps@.len(),
            pv == pairs_view(ps@),
            sv == secrets@.map_values(|s: String| s@),
            args@.map_values(|x: Vec<char>| x@) == start + kv_args(flag@, pv, sv, mask, k as int),
        decreases ps@.len() - k,
    {
        assert(pv[k as int] == (ps@[k as int].0@, ps@[k as int].1@));
        let mut text: Vec<char> = Vec::new();
        push_str(&mut text, ps[k].0.as_str());
        push_str(&mut text, "=");
        let m = masked(chars_of(ps[k].1.as_str()).as_slice(), secrets, mask);
        push_all(&mut text, m.as_slice());
        push_lit(args, flag);
        push_arg(args, quote(text.as_slice()));
        assert(args@.map_values(|x: Vec<char>| x@) =~= start + kv_args(flag@, pv, sv, mask, k + 1));
        k = k + 1;
    }
}

/// The cURL command line of a request; with `mask`, each secret is replaced by `••••••`,
/// and so are the values of sensitive headers and the password.
pub fn render(parts: &RequestParts, mask: bool) -> (r: String)
    ensures
        r@ == spec_render(parts@, mask),
{
    let ghost p = parts@;
    let ghost sv = p.sensitive_values;
    let sec = &parts.sensitive_values;
    let mut args: Vec<Vec<char>> = Vec::new();
    push_lit(&mut args, "curl");
    push_lit(&mut args, "-X");
    push_arg(&mut args, quote(chars_of(parts.method.as_str()).as_slice()));
    let u = masked(chars_of(parts.url.as_str()).as_slice(), sec, mask);
    push_arg(&mut args, quote(u.as_slice()));
    let ghost a0 = args@.map_values(|x: Vec<char>| x@);
    assert(a0 =~= seq!["curl"@, "-X"@, spec_quote(p.method), spec_quote(spec_masked(p.url, sv, mask))]);
    push_headers(&mut args, &parts.headers, sec, mask);
    let ghost a1 = args@.map_values(|x: Vec<char>| x@);
    if parts.query.len() > 0 {
        push_lit(&mut args, "--get");
        push_kv(&mut args, "--data-urlencode", &parts.query, sec, mask);
    }
    let ghost a2 = args@.map_values(|x: Vec<char>| x@);
    assert(a2 =~= a1 + (if p.query.len() > 0 {
        seq!["--get"@] + kv_args("--data-urlencode"@, p.query, sv, mask, p.query.len() as int)
    } else {
        Seq::empty()
    }));
    match &parts.auth {
        Some((user, pass)) => {
            let mut text: Vec<char> = Vec::new();
            let mu = masked(chars_of(user.as_str()).as_slice(), sec, mask);
            push_all(&mut text, mu.as_slice());
            push_str(&mut text, ":");
            if mask {
                push_str(&mut text, "••••••");
            } else {
                push_str(&mut text, pass.as_str());
            }
            push_lit(&mut args, "--user");
            push_arg(&mut args, quote(text.as_slice()));
        },
        None => {},
    }
    let ghost a3 = args@.map_values(|x: Vec<char>| x@);
    assert(a3 =~= a2 + match p.auth {
        Some(a) => seq!["--user"@, spec_quote(spec_masked(a.0, sv, mask) + ":"@ + (if mask { bullets() } else { a.1 }))],
        None => Seq::empty(),
    });
    push_kv(&mut args, "--data-urlencode", &parts.form, sec, mask);
    push_kv(&mut args, "--form", &parts.multipart, sec, mask);
    let ghost a4 = args@.map_values(|x: Vec<char>| x@);
    match &parts.body {
        Some(b) => {
            let bv = chars_of(b.as_str());
            let marker = chars_of("\0FILE:");
            if starts_with_exec(bv.as_slice(), marker.as_slice()) {
                let name = &bv.as_slice()[marker.len()..bv.len()];
                assert(name@ =~= b@.skip(file_marker().len() as int));
                let mut text: Vec<char> = Vec::new();
                push_str(&mut text, "@");
                let mn = masked(name, sec, mask);
                push_all(&mut text, mn.as_slice());
                push_lit(&mut args, "--data-binary");
                push_arg(&mut args, quote(text.as_slice()));
            } else {
                let mb = masked(bv.as_slice(), sec, mask);
                push_lit(&mut args, "--data-raw");
                push_arg(&mut args, quote(mb.as_slice()));
            }
        },
        None => {},
    }
    let ghost a5 = args@.map_values(|x: Vec<char>| x@);
    assert(a5 =~= curl_args(p, mask));
    let joined = join_exec(&args, " \\\n  ");
    string_of(joined.as_slice())
}

pub enum ReqView {
    Parts(PartsView),
    BinaryBody,
}

pub open spec fn req_view(r: ParsedRequest) -> ReqView {
    match r {
        ParsedRequest::Parts(p) => ReqView::Parts(p@),
        ParsedRequest::BinaryBody => ReqView::BinaryBody,
    }
}

pub open spec fn locate_error() -> Seq<char> {
    "Unable to locate the selected request entry."@
}

pub open spec fn binary_body_error() -> Seq<char> {
    "Base64 and hex request bodies are not supported by static cURL export."@
}

/// Index of the first of the first `n` requests that stands at line `line`.
pub open spec fn first_entry_at(es: Seq<(Seq<char>, Seq<char>, u32)>, line: int, n: int) -> Option<int>
    decreases n,
{
    if n <= 0 {
        None
    } else {
        let prev = first_entry_at(es, line, n - 1);
        if prev is Some {
            prev
        } else if es[n - 1].2 as int == line {
            Some(n - 1)
        } else {
            None
        }
    }
}

/// The outcome of exporting one request, given the parsed requests of the document.
pub open spec fn spec_build_curl(
    text: Seq<char>,
    entry_line: int,
    vars: Seq<(DefView, bool)>,
    parsed: Result<Seq<ReqView>, Seq<char>>,
) -> Result<(Seq<char>, Seq<char>), ErrView> {
    match parsed {
        Err(m) => Err(ErrView::Parse(m)),
        Ok(reqs) => {
            let es = spec_entries(text);
            match first_entry_at(es, entry_line, es.len() as int) {
                None => Err(ErrView::Unsupported(locate_error())),
                Some(i) => if i >= reqs.len() {
                    Err(ErrView::Unsupported(locate_error()))
                } else {
                    match reqs[i] {
                        ReqView::BinaryBody => Err(ErrView::Unsupported(binary_body_error())),
                        ReqView::Parts(p) => {
                            let u = parts_unresolved(p, vars);
                            if u != Set::<Seq<char>>::empty() {
                                Err(ErrView::UnresolvedVariables(sorted_of_names(u)))
                            } else {
                                let q = PartsView { sensitive_values: secrets_of(vars), ..parts_subst(p, vars) };
                                Ok((spec_render(q, false), spec_render(q, true)))
                            }
                        },
                    }
                },
            }
        },
    }
}

/// The cURL command of the request at line `entry_line`, given the document's requests
/// as the Hurl parser reads them (or its error), and the variables that resolve its
/// placeholders, keyed by name as `resolve_variables` gives them.
pub fn build_curl_for_entry(
    text: &str,
    entry_line: usize,
    vars: &Vec<ResolvedVariable>,
    parsed: Result<Vec<ParsedRequest>, String>,
) -> (r: Result<CurlCommand, CurlBuildError>)
    requires
        keyed_by_name(resolved_views(vars@)),
    ensures
        spec_build_curl(
            text@,
            entry_line as int,
            resolved_views(vars@),
            match parsed {
                Ok(v) => Ok(v@.map_values(|x: ParsedRequest| req_view(x))),
                Err(m) => Err(m@),
            },
        ) == match r {
            Ok(c) => Ok((c.command@, c.display_command@)),
            Err(e) => Err(err_view(e)),
        },
{
    let mut reqs = match parsed {
        Ok(v) => v,
        Err(m) => return Err(CurlBuildError::Parse(m)),
    };
    let ghost rv = reqs@.map_values(|x: ParsedRequest| req_view(x));
    let doc = parse_document(text);
    let ghost es = entries_view(doc.entries@);
    let mut k: usize = 0;
    let mut found: Option<usize> = None;
    while k < doc.entries.len() && found.is_none()
        invariant
            k <= doc.entries@.len(),
            es == entries_view(doc.entries@),
            found is None ==> first_entry_at(es, entry_line as int, k as int) is None,
            found matches Some(i) ==> first_entry_at(es, entry_line as int, k as int) == Some(i as int),
        decreases doc.entries@.len() - k,
    {
        assert(es[k as int] == crate::diagnostics::entry_view(doc.entries@[k as int]));
        if doc.entries[k].line as usize == entry_line {
            found = Some(k);
        }
        k = k + 1;
    }
    let i = match found {
        Some(i) => i,
        None => {
            return Err(CurlBuildError::Unsupported("Unable to locate the selected request entry.".to_owned()));
        },
    };
    proof {
        lemma_first_entry_stays(es, entry_line as int, k as int, es.len() as int);
    }
    if i >= reqs.len() {
        return Err(CurlBuildError::Unsupported("Unable to locate the selected request entry.".to_owned()));
    }
    let req = reqs.remove(i);
    assert(req_view(req) == rv[i as int]);
    let mut parts = match req {
        ParsedRequest::Parts(p) => p,
        ParsedRequest::BinaryBody => {
            return Err(
                CurlBuildError::Unsupported(
                    "Base64 and hex request bodies are not supported by static cURL export.".to_owned(),
                ),
            );
        },
    };
    match resolve_parts(&mut parts, vars) {
        Ok(()) => {},
        Err(e) => return Err(e),
    }
    let command = render(&parts, false);
    let display_command = render(&parts, true);
    Ok(CurlCommand { command, display_command })
}

proof fn lemma_first_entry_stays(es: Seq<(Seq<char>, Seq<char>, u32)>, line: int, m: int, n: int)
    requires
        m <= n,
        first_entry_at(es, line, m) is Some,
    ensures
        first_entry_at(es, line, n) == first_entry_at(es, line, m),
    decreases n - m,
{
    if m < n {
        lemma_first_entry_stays(es, line, m, n - 1);
    }
}

/// A text holds no `•`.
pub open spec fn bullet_free(q: Seq<char>) -> bool {
    forall|k: int| 0 <= k < q.len() ==> q[k] != '•'
}

proof fn lemma_contains_at(s: Seq<char>, q: Seq<char>, i: int)
    requires
        occurs_at(s, q, i),
    ensures
        contains(s, q),
{
    lemma_find_from_found(s, q, 0);
}

proof fn lemma_absent(s: Seq<char>, q: Seq<char>, i: int)
    requires
        !contains(s, q),
    ensures
        !occurs_at(s, q, i),
{
    if occurs_at(s, q, i) {
        lemma_contains_at(s, q, i);
    }
}

/// No character of `q` is a character of `r`.
pub open spec fn apart(q: Seq<char>, r: Seq<char>) -> bool {
    forall|a: int, b: int| 0 <= a < q.len() && 0 <= b < r.len() ==> q[a] != r[b]
}

/// An occurrence of `q` in `x + r + y`, where `r` shares no character with `q`, lies in
/// `x` or in `y`.
proof fn lemma_window(x: Seq<char>, r: Seq<char>, y: Seq<char>, q: Seq<char>, i: int)
    requires
        q.len() > 0,
        r.len() > 0,
        apart(q, r),
        occurs_at(x + r + y, q, i),
    ensures
        occurs_at(x, q, i) || occurs_at(y, q, i - x.len() - r.len()),
{
    let s = x + r + y;
    let n = q.len() as int;
    assert(s.subrange(i, i + n) == q);
    if i + n <= x.len() {
        assert(x.subrange(i, i + n) =~= s.subrange(i, i + n));
    } else if i >= x.len() + r.len() {
        let j = i - x.len() - r.len();
        assert(y.subrange(j, j + n) =~= s.subrange(i, i + n));
    } else {
        let m = if i >= x.len() { i } else { x.len() as int };
        assert(s[m] == r[m - x.len()]);
        assert(q[m - i] == s.subrange(i, i + n)[m - i]);
    }
}

/// `x + r + y` holds no `q` when neither `x` nor `y` does and `r` shares no character
/// with `q`.
proof fn lemma_absent_around(x: Seq<char>, r: Seq<char>, y: Seq<char>, q: Seq<char>)
    requires
        q.len() > 0,
        r.len() > 0,
        apart(q, r),
        !contains(x, q),
        !contains(y, q),
    ensures
        !contains(x + r + y, q),
{
    if contains(x + r + y, q) {
        lemma_find_from_found(x + r + y, q, 0);
        let w = find(x + r + y, q).unwrap();
        lemma_window(x, r, y, q, w);
        if occurs_at(x, q, w) {
            lemma_contains_at(x, q, w);
        } else {
            lemma_contains_at(y, q, w - x.len() - r.len());
        }
    }
}

/// After `p` (not empty) is replaced by a text that shares no character with it, the
/// text holds no `p`.
proof fn lemma_replace_removes(s: Seq<char>, p: Seq<char>, r: Seq<char>)
    requires
        p.len() > 0,
        r.len() > 0,
        apart(p, r),
    ensures
        !contains(replace_all(s, p, r), p),
    decreases s.len(),
{
    lemma_find_from_found(s, p, 0);
    match find(s, p) {
        None => {},
        Some(i) => {
            let x = s.take(i);
            let rest = s.skip(i + p.len());
            lemma_replace_removes(rest, p, r);
            let y = replace_all(rest, p, r);
            assert(replace_all(s, p, r) == x + r + y);
            if contains(x + r + y, p) {
                lemma_find_from_found(x + r + y, p, 0);
                let w = find(x + r + y, p).unwrap();
                lemma_window(x, r, y, p, w);
                if occurs_at(x, p, w) {
                    assert(s.subrange(w, w + p.len()) =~= x.subrange(w, w + p.len()));
                    assert(occurs_at(s, p, w));
                } else {
                    lemma_absent(y, p, w - x.len() - r.len());
                }
            }
        },
    }
}

/// Replacing `p` by a text that shares no character with `q` brings back no `q` that was
/// not there.
proof fn lemma_replace_keeps_absent(s: Seq<char>, p: Seq<char>, r: Seq<char>, q: Seq<char>)
    requires
        p.len() > 0,
        q.len() > 0,
        r.len() > 0,
        apart(q, r),
        !contains(s, q),
    ensures
        !contains(replace_all(s, p, r), q),
    decreases s.len(),
{
    lemma_find_from_found(s, p, 0);
    match find(s, p) {
        None => {},
        Some(i) => {
            let x = s.take(i);
            let rest = s.skip(i + p.len());
            if contains(rest, q) {
                lemma_find_from_found(rest, q, 0);
                let w = find(rest, q).unwrap();
                assert(s.subrange(i + p.len() + w, i + p.len() + w + q.len()) =~= rest.subrange(w, w + q.len()));
                lemma_contains_at(s, q, i + p.len() + w);
            }
            lemma_replace_keeps_absent(rest, p, r, q);
            let y = replace_all(rest, p, r);
            assert(replace_all(s, p, r) == x + r + y);
            if contains(x + r + y, q) {
                lemma_find_from_found(x + r + y, q, 0);
                let w = find(x + r + y, q).unwrap();
                lemma_window(x, r, y, q, w);
                if occurs_at(x, q, w) {
                    assert(s.subrange(w, w + q.len()) =~= x.subrange(w, w + q.len()));
                    lemma_contains_at(s, q, w);
                } else {
                    lemma_absent(y, q, w - x.len() - r.len());
                }
            }
        },
    }
}

proof fn lemma_mask_keeps(v: Seq<char>, secrets: Seq<Seq<char>>, j: int, k: int)
    requires
        0 <= j < k <= secrets.len(),
        forall|m: int| 0 <= m < secrets.len() ==> (#[trigger] secrets[m]).len() > 0 && bullet_free(secrets[m]),
    ensures
        !contains(mask_with(v, secrets, k), secrets[j]),
    decreases k,
{
    reveal_strlit("••••••");
    let b = bullets();
    assert(b.len() == 6);
    assert(forall|m: int| 0 <= m < b.len() ==> b[m] == '•');
    assert(apart(secrets[j], b)) by {
        assert(bullet_free(secrets[j]));
    }
    if k == j + 1 {
        lemma_replace_removes(mask_with(v, secrets, j), secrets[j], b);
    } else {
        lemma_mask_keeps(v, secrets, j, k - 1);
        lemma_replace_keeps_absent(mask_with(v, secrets, k - 1), secrets[k - 1], b, secrets[j]);
    }
}

/// Masking hides every secret: once masked, a text holds none of the secrets (each not
/// empty and without `•`).
pub proof fn law_masking_hides_secrets(v: Seq<char>, secrets: Seq<Seq<char>>, j: int)
    requires
        0 <= j < secrets.len(),
        forall|m: int| 0 <= m < secrets.len() ==> (#[trigger] secrets[m]).len() > 0 && bullet_free(secrets[m]),
    ensures
        !contains(spec_masked(v, secrets, true), secrets[j]),
{
    lemma_mask_keeps(v, secrets, j, secrets.len() as int);
}

/// A character that a secret can be made of: an ASCII letter or digit, `-`, `_` or `.`.
pub open spec fn word_char(c: char) -> bool {
    is_ascii_alnum(c) || c == '-' || c == '_' || c == '.'
}

/// A text made only of such characters, and not empty.
pub open spec fn word(q: Seq<char>) -> bool {
    q.len() > 0 && forall|k: int| 0 <= k < q.len() ==> word_char(#[trigger] q[k])
}

/// A text with none of those characters.
pub open spec fn no_word(r: Seq<char>) -> bool {
    forall|k: int| 0 <= k < r.len() ==> !word_char(#[trigger] r[k])
}

/// The fixed words of a cURL command.
pub open spec fn curl_words() -> Seq<Seq<char>> {
    seq![
        "curl"@, "-X"@, "-H"@, "--get"@, "--data-urlencode"@, "--user"@, "--form"@, "--data-raw"@,
        "--data-binary"@,
    ]
}

/// None of `args` holds `q`.
pub open spec fn none_holds(args: Seq<Seq<char>>, q: Seq<char>) -> bool {
    forall|k: int| 0 <= k < args.len() ==> !contains(#[trigger] args[k], q)
}

proof fn lemma_word_apart(q: Seq<char>, r: Seq<char>)
    requires
        word(q),
        no_word(r),
    ensures
        apart(q, r),
{
    assert forall|a: int, b: int| 0 <= a < q.len() && 0 <= b < r.len() implies q[a] != r[b] by {
        assert(word_char(q[a]));
        assert(!word_char(r[b]));
    }
}

/// A text that shares no character with `q` holds no `q`.
proof fn lemma_apart_absent(r: Seq<char>, q: Seq<char>)
    requires
        q.len() > 0,
        apart(q, r),
    ensures
        !contains(r, q),
{
    if contains(r, q) {
        lemma_find_from_found(r, q, 0);
        let w = find(r, q).unwrap();
        assert(r.subrange(w, w + q.len()) == q);
        assert(r[w] == r.subrange(w, w + q.len())[0]);
    }
}

proof fn lemma_absent_before(r: Seq<char>, y: Seq<char>, q: Seq<char>)
    requires
        word(q),
        r.len() > 0,
        no_word(r),
        !contains(y, q),
    ensures
        !contains(r + y, q),
{
    lemma_word_apart(q, r);
    lemma_apart_absent(Seq::empty(), q);
    lemma_absent_around(Seq::empty(), r, y, q);
    assert(Seq::<char>::empty() + r + y =~= r + y);
}

proof fn lemma_absent_after(x: Seq<char>, r: Seq<char>, q: Seq<char>)
    requires
        word(q),
        r.len() > 0,
        no_word(r),
        !contains(x, q),
    ensures
        !contains(x + r, q),
{
    lemma_word_apart(q, r);
    lemma_apart_absent(Seq::empty(), q);
    lemma_absent_around(x, r, Seq::empty(), q);
    assert(x + r + Seq::<char>::empty() =~= x + r);
}

proof fn lemma_absent_between(x: Seq<char>, r: Seq<char>, y: Seq<char>, q: Seq<char>)
    requires
        word(q),
        r.len() > 0,
        no_word(r),
        !contains(x, q),
        !contains(y, q),
    ensures
        !contains(x + r + y, q),
{
    lemma_word_apart(q, r);
    lemma_absent_around(x, r, y, q);
}

/// Quoting a text brings in no word that was not in it.
proof fn lemma_quote_absent(v: Seq<char>, q: Seq<char>)
    requires
        word(q),
        !contains(v, q),
    ensures
        !contains(spec_quote(v), q),
{
    reveal_strlit("'");
    reveal_strlit("'\"'\"'");
    let esc = "'\"'\"'"@;
    assert(no_word("'"@));
    assert(no_word(esc));
    lemma_word_apart(q, esc);
    lemma_replace_keeps_absent(v, "'"@, esc, q);
    let body = replace_all(v, "'"@, esc);
    lemma_absent_before("'"@, body, q);
    lemma_absent_after("'"@ + body, "'"@, q);
}

proof fn lemma_join_absent(args: Seq<Seq<char>>, sep: Seq<char>, q: Seq<char>)
    requires
        word(q),
        sep.len() > 0,
        no_word(sep),
        none_holds(args, q),
    ensures
        !contains(join(args, sep), q),
    decreases args.len(),
{
    if args.len() == 0 {
        lemma_apart_absent(Seq::empty(), q);
    } else if args.len() > 1 {
        let t = args.drop_last();
        assert(none_holds(t, q)) by {
            assert forall|k: int| 0 <= k < t.len() implies !contains(#[trigger] t[k], q) by {
                assert(t[k] == args[k]);
            }
        }
        lemma_join_absent(t, sep, q);
        assert(!contains(args.last(), q));
        lemma_absent_between(join(t, sep), sep, args.last(), q);
    }
}

proof fn lemma_none_holds_concat(a: Seq<Seq<char>>, b: Seq<Seq<char>>, q: Seq<char>)
    requires
        none_holds(a, q),
        none_holds(b, q),
    ensures
        none_holds(a + b, q),
{
    assert forall|k: int| 0 <= k < (a + b).len() implies !contains(#[trigger] (a + b)[k], q) by {
        if k < a.len() {
            assert((a + b)[k] == a[k]);
        } else {
            assert((a + b)[k] == b[k - a.len()]);
        }
    }
}

/// What hiding the secrets `sec` needs of them, with `q` the one looked for.
pub open spec fn hideable(sec: Seq<Seq<char>>, q: Seq<char>) -> bool {
    &&& sec.contains(q)
    &&& forall|m: int| 0 <= m < sec.len() ==> word(#[trigger] sec[m])
}

proof fn lemma_masked_absent(v: Seq<char>, sec: Seq<Seq<char>>, q: Seq<char>)
    requires
        hideable(sec, q),
    ensures
        !contains(spec_masked(v, sec, true), q),
{
    let j = choose|j: int| 0 <= j < sec.len() && sec[j] == q;
    assert forall|m: int| 0 <= m < sec.len() implies (#[trigger] sec[m]).len() > 0 && bullet_free(sec[m]) by {
        assert(word(sec[m]));
        assert forall|k: int| 0 <= k < sec[m].len() implies sec[m][k] != '•' by {
            assert(word_char(sec[m][k]));
        }
    }
    law_masking_hides_secrets(v, sec, j);
}

proof fn lemma_bullets_no_word()
    ensures
        no_word(bullets()),
        bullets().len() > 0,
{
    reveal_strlit("••••••");
}

proof fn lemma_header_args_absent(hs: Seq<(Seq<char>, Seq<char>)>, sec: Seq<Seq<char>>, q: Seq<char>, k: int)
    requires
        hideable(sec, q),
        0 <= k <= hs.len(),
        !contains("-H"@, q),
        forall|m: int| 0 <= m < hs.len() ==> !contains((#[trigger] hs[m]).0, q),
    ensures
        none_holds(header_args(hs, sec, true, k), q),
    decreases k,
{
    if k > 0 {
        lemma_header_args_absent(hs, sec, q, k - 1);
        let h = hs[k - 1];
        let shown = if header_sensitive(h.0) { bullets() } else { spec_masked(h.1, sec, true) };
        lemma_bullets_no_word();
        if header_sensitive(h.0) {
            lemma_word_apart(q, bullets());
            lemma_apart_absent(bullets(), q);
        } else {
            lemma_masked_absent(h.1, sec, q);
        }
        reveal_strlit(": ");
        reveal_strlit("-H");
        assert(no_word(": "@));
        assert(!contains((#[trigger] hs[k - 1]).0, q));
        lemma_absent_between(h.0, ": "@, shown, q);
        lemma_quote_absent(h.0 + ": "@ + shown, q);
        let tail = seq!["-H"@, spec_quote(h.0 + ": "@ + shown)];
        assert(none_holds(tail, q));
        lemma_none_holds_concat(header_args(hs, sec, true, k - 1), tail, q);
    }
}

proof fn lemma_kv_args_absent(flag: Seq<char>, ps: Seq<(Seq<char>, Seq<char>)>, sec: Seq<Seq<char>>, q: Seq<char>, k: int)
    requires
        hideable(sec, q),
        0 <= k <= ps.len(),
        !contains(flag, q),
        forall|m: int| 0 <= m < ps.len() ==> !contains((#[trigger] ps[m]).0, q),
    ensures
        none_holds(kv_args(flag, ps, sec, true, k), q),
    decreases k,
{
    if k > 0 {
        lemma_kv_args_absent(flag, ps, sec, q, k - 1);
        let p = ps[k - 1];
        lemma_masked_absent(p.1, sec, q);
        reveal_strlit("=");
        assert(no_word("="@));
        assert(!contains((#[trigger] ps[k - 1]).0, q));
        lemma_absent_between(p.0, "="@, spec_masked(p.1, sec, true), q);
        lemma_quote_absent(p.0 + "="@ + spec_masked(p.1, sec, true), q);
        let tail = seq![flag, spec_quote(p.0 + "="@ + spec_masked(p.1, sec, true))];
        assert(none_holds(tail, q));
        lemma_none_holds_concat(kv_args(flag, ps, sec, true, k - 1), tail, q);
    }
}

/// A displayed cURL command shows no secret: each secret made of ASCII letters, digits,
/// `-`, `_` and `.` is hidden wherever it stands, provided that it is not part of the
/// method, of a header name, of a query, form or multipart key, or of a fixed word of the
/// command; the password of `--user` is shown as `••••••`.
pub proof fn law_displayed_command_hides_secrets(p: PartsView, j: int)
    requires
        0 <= j < p.sensitive_values.len(),
        forall|m: int| 0 <= m < p.sensitive_values.len() ==> word(#[trigger] p.sensitive_values[m]),
        !contains(p.method, p.sensitive_values[j]),
        forall|m: int| 0 <= m < p.headers.len() ==> !contains((#[trigger] p.headers[m]).0, p.sensitive_values[j]),
        forall|m: int| 0 <= m < p.query.len() ==> !contains((#[trigger] p.query[m]).0, p.sensitive_values[j]),
        forall|m: int| 0 <= m < p.form.len() ==> !contains((#[trigger] p.form[m]).0, p.sensitive_values[j]),
        forall|m: int| 0 <= m < p.multipart.len() ==> !contains((#[trigger] p.multipart[m]).0, p.sensitive_values[j]),
        forall|m: int| 0 <= m < curl_words().len() ==> !contains(#[trigger] curl_words()[m], p.sensitive_values[j]),
    ensures
        !contains(spec_render(p, true), p.sensitive_values[j]),
        p.auth matches Some(a) ==> curl_args(p, true).contains(
            spec_quote(spec_masked(a.0, p.sensitive_values, true) + ":"@ + bullets()),
        ),
{
    let sec = p.sensitive_values;
    let q = sec[j];
    assert(hideable(sec, q));
    assert(word(q));
    let w = curl_words();
    assert(!contains(w[0], q) && !contains(w[1], q) && !contains(w[2], q) && !contains(w[3], q));
    assert(!contains(w[4], q) && !contains(w[5], q) && !contains(w[6], q) && !contains(w[7], q));
    assert(!contains(w[8], q));
    assert(w[2] == "-H"@);
    lemma_quote_absent(p.method, q);
    lemma_masked_absent(p.url, sec, q);
    lemma_quote_absent(spec_masked(p.url, sec, true), q);
    let a0 = seq!["curl"@, "-X"@, spec_quote(p.method), spec_quote(spec_masked(p.url, sec, true))];
    assert(none_holds(a0, q));
    let a1 = header_args(p.headers, sec, true, p.headers.len() as int);
    lemma_header_args_absent(p.headers, sec, q, p.headers.len() as int);
    let a2: Seq<Seq<char>> = if p.query.len() > 0 {
        seq!["--get"@] + kv_args("--data-urlencode"@, p.query, sec, true, p.query.len() as int)
    } else {
        Seq::empty()
    };
    if p.query.len() > 0 {
        lemma_kv_args_absent("--data-urlencode"@, p.query, sec, q, p.query.len() as int);
        assert(none_holds(seq!["--get"@], q));
        lemma_none_holds_concat(seq!["--get"@], kv_args("--data-urlencode"@, p.query, sec, true, p.query.len() as int), q);
    }
    let a3: Seq<Seq<char>> = match p.auth {
        Some(a) => seq!["--user"@, spec_quote(spec_masked(a.0, sec, true) + ":"@ + bullets())],
        None => Seq::empty(),
    };
    match p.auth {
        Some(a) => {
            lemma_masked_absent(a.0, sec, q);
            lemma_bullets_no_word();
            lemma_word_apart(q, bullets());
            lemma_apart_absent(bullets(), q);
            reveal_strlit(":");
            assert(no_word(":"@));
            lemma_absent_between(spec_masked(a.0, sec, true), ":"@, bullets(), q);
            lemma_quote_absent(spec_masked(a.0, sec, true) + ":"@ + bullets(), q);
            assert(none_holds(a3, q));
        },
        None => {},
    }
    let a4 = kv_args("--data-urlencode"@, p.form, sec, true, p.form.len() as int);
    lemma_kv_args_absent("--data-urlencode"@, p.form, sec, q, p.form.len() as int);
    let a5 = kv_args("--form"@, p.multipart, sec, true, p.multipart.len() as int);
    lemma_kv_args_absent("--form"@, p.multipart, sec, q, p.multipart.len() as int);
    let a6: Seq<Seq<char>> = match p.body {
        Some(b) => if starts_with(b, file_marker()) {
            seq!["--data-binary"@, spec_quote("@"@ + spec_masked(b.skip(file_marker().len() as int), sec, true))]
        } else {
            seq!["--data-raw"@, spec_quote(spec_masked(b, sec, true))]
        },
        None => Seq::empty(),
    };
    match p.body {
        Some(b) => if starts_with(b, file_marker()) {
            let rest = spec_masked(b.skip(file_marker().len() as int), sec, true);
            lemma_masked_absent(b.skip(file_marker().len() as int), sec, q);
            reveal_strlit("@");
            assert(no_word("@"@));
            lemma_absent_before("@"@, rest, q);
            lemma_quote_absent("@"@ + rest, q);
            assert(none_holds(a6, q));
        } else {
            lemma_masked_absent(b, sec, q);
            lemma_quote_absent(spec_masked(b, sec, true), q);
            assert(none_holds(a6, q));
        },
        None => {},
    }
    lemma_none_holds_concat(a0, a1, q);
    lemma_none_holds_concat(a0 + a1, a2, q);
    lemma_none_holds_concat(a0 + a1 + a2, a3, q);
    lemma_none_holds_concat(a0 + a1 + a2 + a3, a4, q);
    lemma_none_holds_concat(a0 + a1 + a2 + a3 + a4, a5, q);
    lemma_none_holds_concat(a0 + a1 + a2 + a3 + a4 + a5, a6, q);
    assert(curl_args(p, true) == a0 + a1 + a2 + a3 + a4 + a5 + a6);
    reveal_strlit(" \\\n  ");
    assert(no_word(separator()));
    lemma_join_absent(curl_args(p, true), separator(), q);
    match p.auth {
        Some(a) => {
            let args = curl_args(p, true);
            let k: int = (a0 + a1 + a2).len() as int + 1;
            assert(args[k] == a3[1]);
        },
        None => {},
    }
}

/// None of the names that a displayed command shows as they are (method, header names,
/// query, form and multipart keys, and the command's fixed words) holds `q`.
pub open spec fn shown_names_avoid(p: PartsView, q: Seq<char>) -> bool {
    &&& !contains(p.method, q)
    &&& forall|m: int| 0 <= m < p.headers.len() ==> !contains((#[trigger] p.headers[m]).0, q)
    &&& forall|m: int| 0 <= m < p.query.len() ==> !contains((#[trigger] p.query[m]).0, q)
    &&& forall|m: int| 0 <= m < p.form.len() ==> !contains((#[trigger] p.form[m]).0, q)
    &&& forall|m: int| 0 <= m < p.multipart.len() ==> !contains((#[trigger] p.multipart[m]).0, q)
    &&& forall|m: int| 0 <= m < curl_words().len() ==> !contains(#[trigger] curl_words()[m], q)
}

/// The request that `build_curl_for_entry` turns into a command: the one whose request
/// line is `entry_line`, when the parser gave that many requests.
pub open spec fn selected_request(text: Seq<char>, entry_line: int, reqs: Seq<ReqView>) -> Option<ReqView> {
    let es = spec_entries(text);
    match first_entry_at(es, entry_line, es.len() as int) {
        Some(i) => if i < reqs.len() { Some(reqs[i]) } else { None },
        None => None,
    }
}

/// The request as the displayed command shows it: its placeholders substituted, and the
/// non-empty values of the sensitive variables as the secrets to hide.
pub open spec fn displayed_parts(p: PartsView, vars: Seq<(DefView, bool)>) -> PartsView {
    PartsView { sensitive_values: secrets_of(vars), ..parts_subst(p, vars) }
}

/// The command that `build_curl_for_entry` displays holds no value of a sensitive
/// variable (non-empty, made of ASCII letters, digits, `-`, `_` and `.`, and part of no
/// name that the command shows as it is), and shows the password of `--user` as `••••••`.
pub proof fn law_built_command_hides_secrets(
    text: Seq<char>,
    entry_line: int,
    vars: Seq<(DefView, bool)>,
    reqs: Seq<ReqView>,
)
    requires
        forall|m: int| 0 <= m < secrets_of(vars).len() ==> word(#[trigger] secrets_of(vars)[m]),
        selected_request(text, entry_line, reqs) matches Some(ReqView::Parts(p)) ==> forall|m: int|
            0 <= m < secrets_of(vars).len() ==> shown_names_avoid(parts_subst(p, vars), #[trigger] secrets_of(vars)[m]),
    ensures
        spec_build_curl(text, entry_line, vars, Ok(reqs)) matches Ok((c, d)) ==> {
            &&& forall|m: int| 0 <= m < secrets_of(vars).len() ==> !contains(d, #[trigger] secrets_of(vars)[m])
            &&& selected_request(text, entry_line, reqs) matches Some(ReqView::Parts(p)) && {
                let q = displayed_parts(p, vars);
                &&& d == spec_render(q, true)
                &&& q.auth matches Some(a) ==> curl_args(q, true).contains(
                    spec_quote(spec_masked(a.0, q.sensitive_values, true) + ":"@ + bullets()),
                )
            }
        },
{
    if spec_build_curl(text, entry_line, vars, Ok(reqs)) is Ok {
        let es = spec_entries(text);
        let i = first_entry_at(es, entry_line, es.len() as int).unwrap();
        let p = match reqs[i] {
            ReqView::Parts(p) => p,
            ReqView::BinaryBody => arbitrary(),
        };
        assert(selected_request(text, entry_line, reqs) == Some(ReqView::Parts(p)));
        let q = displayed_parts(p, vars);
        let sec = secrets_of(vars);
        assert forall|m: int| 0 <= m < sec.len() implies !contains(spec_render(q, true), #[trigger] sec[m]) by {
            assert(shown_names_avoid(parts_subst(p, vars), sec[m]));
            law_displayed_command_hides_secrets(q, m);
        }
        assert(q == PartsView { sensitive_values: secrets_of(vars), ..parts_subst(p, vars) });
        assert(spec_build_curl(text, entry_line, vars, Ok(reqs)) == Ok::<(Seq<char>, Seq<char>), ErrView>((spec_render(q, false), spec_render(q, true))));
        lemma_user_arg(q);
    }
}

proof fn lemma_user_arg(q: PartsView)
    ensures
        q.auth matches Some(a) ==> curl_args(q, true).contains(
            spec_quote(spec_masked(a.0, q.sensitive_values, true) + ":"@ + bullets()),
        ),
{
    match q.auth {
        Some(a) => {
            let sec = q.sensitive_values;
            let a0 = seq!["curl"@, "-X"@, spec_quote(q.method), spec_quote(spec_masked(q.url, sec, true))];
            let a1 = header_args(q.headers, sec, true, q.headers.len() as int);
            let a2: Seq<Seq<char>> = if q.query.len() > 0 {
                seq!["--get"@] + kv_args("--data-urlencode"@, q.query, sec, true, q.query.len() as int)
            } else {
                Seq::empty()
            };
            let a3 = seq!["--user"@, spec_quote(spec_masked(a.0, sec, true) + ":"@ + bullets())];
            let args = curl_args(q, true);
            let k: int = (a0 + a1 + a2).len() as int + 1;
            assert(args[k] == a3[1]);
        },
        None => {},
    }
}

} // verus!
