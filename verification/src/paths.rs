//! File paths as sequences of components (`/` first for an absolute path): the
//! workspace folder that holds a document, the folders searched for its companion
//! files, and how a file is named relative to the workspace.
use vstd::prelude::*;
use crate::text::{chars_of, eq_exec, insert_sorted, lemma_sorted_of, push_str, seqs, sorted_of, string_of, strictly_sorted};

verus! {

pub open spec fn comps(v: Seq<String>) -> Seq<Seq<char>> {
    v.map_values(|s: String| s@)
}

pub open spec fn paths_view(v: Seq<Vec<String>>) -> Seq<Seq<Seq<char>>> {
    v.map_values(|p: Vec<String>| comps(p@))
}

/// `Path::starts_with`: the components of `a` begin those of `b`.
pub open spec fn is_prefix(a: Seq<Seq<char>>, b: Seq<Seq<char>>) -> bool {
    a.len() <= b.len() && b.take(a.len() as int) == a
}

/// Index of the root with the most components among the first `n` roots that hold
/// `base`, the last one on a tie (`Iterator::max_by_key`).
pub open spec fn best_root(roots: Seq<Seq<Seq<char>>>, base: Seq<Seq<char>>, n: int) -> Option<int>
    decreases n,
{
    if n <= 0 {
        None
    } else {
        let prev = best_root(roots, base, n - 1);
        if is_prefix(roots[n - 1], base) && (prev is None || roots[prev.unwrap()].len() <= roots[n - 1].len()) {
            Some(n - 1)
        } else {
            prev
        }
    }
}

pub open spec fn spec_owning_root(base: Seq<Seq<char>>, roots: Seq<Seq<Seq<char>>>) -> Option<Seq<Seq<char>>> {
    match best_root(roots, base, roots.len() as int) {
        Some(i) => Some(roots[i]),
        None => None,
    }
}

/// `Path::parent`: none for the empty path and for `/`.
pub open spec fn parent_of(p: Seq<Seq<char>>) -> Option<Seq<Seq<char>>> {
    if p.len() == 0 || (p.len() == 1 && p[0] == "/"@) {
        None
    } else {
        Some(p.drop_last())
    }
}

/// The folders from `dir` up: up to and including `root` when there is one (none once
/// outside it), else `dir` alone.
pub open spec fn walk_up(dir: Seq<Seq<char>>, root: Option<Seq<Seq<char>>>) -> Seq<Seq<Seq<char>>>
    decreases dir.len(),
{
    match root {
        None => seq![dir],
        Some(r) => if !is_prefix(r, dir) {
            Seq::empty()
        } else if dir == r {
            seq![dir]
        } else {
            match parent_of(dir) {
                Some(p) => seq![dir] + walk_up(p, root),
                None => seq![dir],
            }
        },
    }
}

/// The folders searched for companion files of a document in `base`: from `base` up to
/// the innermost workspace folder that holds it, or `base` alone outside any.
pub open spec fn spec_ancestor_dirs(base: Seq<Seq<char>>, roots: Seq<Seq<Seq<char>>>) -> Seq<Seq<Seq<char>>> {
    walk_up(base, spec_owning_root(base, roots))
}

fn eq_strings(a: &Vec<String>, b: &Vec<String>) -> (r: bool)
    ensures
        r == (comps(a@) == comps(b@)),
{
    if a.len() != b.len() {
        assert(comps(a@).len() != comps(b@).len());
        return false;
    }
    let mut k: usize = 0;
    while k < a.len()
        invariant
            k <= a@.len(),
            a@.len() == b@.len(),
            forall|j: int| 0 <= j < k ==> comps(a@)[j] == comps(b@)[j],
        decreases a@.len() - k,
    {
        let x = chars_of(a[k].as_str());
        let y = chars_of(b[k].as_str());
        if !eq_exec(x.as_slice(), y.as_slice()) {
            assert(comps(a@)[k as int] != comps(b@)[k as int]);
            return false;
        }
        k = k + 1;
    }
    assert(comps(a@) =~= comps(b@));
    true
}

/// Whether the components of `a` begin those of `b`.
pub fn starts_with_path(b: &Vec<String>, a: &Vec<String>) -> (r: bool)
    ensures
        r == is_prefix(comps(a@), comps(b@)),
{
    if a.len() > b.len() {
        return false;
    }
    let mut k: usize = 0;
    while k < a.len()
        invariant
            k <= a@.len(),
            a@.len() <= b@.len(),
            forall|j: int| 0 <= j < k ==> comps(a@)[j] == comps(b@)[j],
        decreases a@.len() - k,
    {
        let x = chars_of(a[k].as_str());
        let y = chars_of(b[k].as_str());
        if !eq_exec(x.as_slice(), y.as_slice()) {
            assert(comps(b@).take(a@.len() as int)[k as int] != comps(a@)[k as int]);
            return false;
        }
        k = k + 1;
    }
    assert(comps(b@).take(a@.len() as int) =~= comps(a@));
    true
}

fn best_root_index(base: &Vec<String>, roots: &Vec<Vec<String>>) -> (r: Option<usize>)
    ensures
        match r {
            Some(i) => i < roots@.len() && best_root(paths_view(roots@), comps(base@), roots@.len() as int) == Some(i as int),
            None => best_root(paths_view(roots@), comps(base@), roots@.len() as int) is None,
        },
{
    let ghost rv = paths_view(roots@);
    let mut best: Option<usize> = None;
    let mut k: usize = 0;
    while k < roots.len()
        invariant
            k <= roots@.len(),
            rv == paths_view(roots@),
            match best {
                Some(i) => i < k && best_root(rv, comps(base@), k as int) == Some(i as int),
                None => best_root(rv, comps(base@), k as int) is None,
            },
        decreases roots@.len() - k,
    {
        assert(rv[k as int] == comps(roots@[k as int]@));
        if starts_with_path(base, &roots[k]) {
            let better = match best {
                None => true,
                Some(i) => {
                    assert(rv[i as int] == comps(roots@[i as int]@));
                    roots[i].len() <= roots[k].len()
                },
            };
            if better {
                best = Some(k);
            }
        }
        k = k + 1;
    }
    best
}

fn copy_path(p: &Vec<String>) -> (r: Vec<String>)
    ensures
        comps(r@) == comps(p@),
{
    let mut out: Vec<String> = Vec::new();
    let mut k: usize = 0;
    while k < p.len()
        invariant
            k <= p@.len(),
            comps(out@) == comps(p@).take(k as int),
        decreases p@.len() - k,
    {
        let ghost before = out@;
        out.push(p[k].clone());
        assert(comps(out@) =~= comps(before).push(p@[k as int]@));
        assert(comps(p@).take(k + 1) =~= comps(p@).take(k as int).push(p@[k as int]@));
        k = k + 1;
    }
    assert(comps(p@).take(k as int) =~= comps(p@));
    out
}

/// The workspace folder that holds a document: of those that hold it, the one with the
/// most components (the last such on a tie).
pub fn owning_workspace_root(document: &Vec<String>, roots: &Vec<Vec<String>>) -> (r: Option<Vec<String>>)
    ensures
        match r {
            Some(p) => spec_owning_root(comps(document@), paths_view(roots@)) == Some(comps(p@)),
            None => spec_owning_root(comps(document@), paths_view(roots@)) is None,
        },
{
    match best_root_index(document, roots) {
        Some(i) => {
            assert(paths_view(roots@)[i as int] == comps(roots@[i as int]@));
            Some(copy_path(&roots[i]))
        },
        None => None,
    }
}

/// The folders searched for companion files of a document in `base`: from `base` up to
/// the innermost workspace folder that holds it (inclusive), or `base` alone.
pub fn bounded_ancestor_dirs(base: &Vec<String>, roots: &Vec<Vec<String>>) -> (r: Vec<Vec<String>>)
    ensures
        paths_view(r@) == spec_ancestor_dirs(comps(base@), paths_view(roots@)),
{
    let root = owning_workspace_root(base, roots);
    let ghost rv = match &root {
        Some(p) => Some(comps(p@)),
        None => None::<Seq<Seq<char>>>,
    };
    let mut dirs: Vec<Vec<String>> = Vec::new();
    let mut dir = copy_path(base);
    let r = match root {
        None => {
            dirs.push(dir);
            assert(paths_view(dirs@) =~= seq![comps(base@)]);
            return dirs;
        },
        Some(r) => r,
    };
    assert(walk_up(comps(base@), rv) == spec_ancestor_dirs(comps(base@), paths_view(roots@)));
    assert(paths_view(dirs@) + walk_up(comps(dir@), rv) =~= walk_up(comps(base@), rv));
    loop
        invariant
            rv == Some(comps(r@)),
            walk_up(comps(base@), rv) == spec_ancestor_dirs(comps(base@), paths_view(roots@)),
            paths_view(dirs@) + walk_up(comps(dir@), rv) == walk_up(comps(base@), rv),
        decreases comps(dir@).len(),
    {
        if !starts_with_path(&dir, &r) {
            assert(paths_view(dirs@) + Seq::<Seq<Seq<char>>>::empty() =~= paths_view(dirs@));
            return dirs;
        }
        let at_root = eq_strings(&dir, &r);
        let is_top = dir.len() == 0 || (dir.len() == 1 && eq_exec(chars_of(dir[0].as_str()).as_slice(), chars_of("/").as_slice()));
        assert(comps(dir@).len() == dir@.len());
        proof {
            if dir@.len() == 1 {
                assert(comps(dir@)[0] == dir@[0]@);
            }
        }
        if at_root || is_top {
            let ghost before = paths_view(dirs@);
            let ghost d = comps(dir@);
            dirs.push(dir);
            assert(paths_view(dirs@) =~= before.push(d));
            assert(before.push(d) =~= before + seq![d]);
            return dirs;
        }
        let ghost before = paths_view(dirs@);
        let ghost d = comps(dir@);
        let mut parent = copy_path(&dir);
        parent.pop();
        assert(comps(parent@) =~= d.drop_last());
        dirs.push(dir);
        assert(paths_view(dirs@) =~= before.push(d));
        assert(paths_view(dirs@) + walk_up(comps(parent@), rv) =~= before + walk_up(d, rv));
        dir = parent;
    }
}

/// The text of a path: its components joined by `/`, after a leading `/`.
pub open spec fn join_from(p: Seq<Seq<char>>, k: int) -> Seq<char>
    decreases k,
{
    if k <= 0 {
        Seq::empty()
    } else if k == 1 {
        p[0]
    } else {
        join_from(p, k - 1) + "/"@ + p[k - 1]
    }
}

pub open spec fn path_text(p: Seq<Seq<char>>) -> Seq<char> {
    if p.len() > 0 && p[0] == "/"@ {
        "/"@ + join_from(p.skip(1), p.len() - 1)
    } else {
        join_from(p, p.len() as int)
    }
}

/// `Path::file_name`: the last component, unless it is `/` or `..`.
pub open spec fn file_name_of(p: Seq<Seq<char>>) -> Option<Seq<char>> {
    if p.len() > 0 && p.last() != "/"@ && p.last() != ".."@ {
        Some(p.last())
    } else {
        None
    }
}

/// Index of the first of the first `n` roots that hold `p` with the fewest components
/// left after it (`Iterator::min_by_key`).
pub open spec fn nearest_root(roots: Seq<Seq<Seq<char>>>, p: Seq<Seq<char>>, n: int) -> Option<int>
    decreases n,
{
    if n <= 0 {
        None
    } else {
        let prev = nearest_root(roots, p, n - 1);
        if is_prefix(roots[n - 1], p) && (prev is None || p.len() - roots[n - 1].len() < p.len() - roots[prev.unwrap()].len()) {
            Some(n - 1)
        } else {
            prev
        }
    }
}

/// How a variables file is named: relative to the workspace folder that leaves the
/// fewest components, else by its file name, else by its whole path.
pub open spec fn source_name(p: Seq<Seq<char>>, roots: Seq<Seq<Seq<char>>>) -> Seq<char> {
    match nearest_root(roots, p, roots.len() as int) {
        Some(i) => join_from(p.skip(roots[i].len() as int), p.len() - roots[i].len()),
        None => match file_name_of(p) {
            Some(n) => n,
            None => path_text(p),
        },
    }
}

pub open spec fn source_names(paths: Seq<Seq<Seq<char>>>, roots: Seq<Seq<Seq<char>>>) -> Set<Seq<char>> {
    paths.map_values(|p: Seq<Seq<char>>| source_name(p, roots)).to_set()
}

fn join_components(p: &[String], out: &mut Vec<char>)
    ensures
        final(out)@ == old(out)@ + join_from(comps(p@), p@.len() as int),
{
    let ghost start = out@;
    let mut k: usize = 0;
    assert(start + join_from(comps(p@), 0) =~= start);
    while k < p.len()
        invariant
            k <= p@.len(),
            out@ == start + join_from(comps(p@), k as int),
        decreases p@.len() - k,
    {
        let ghost before = out@;
        if k > 0 {
            push_str(out, "/");
        }
        push_str(out, p[k].as_str());
        proof {
            assert(comps(p@)[k as int] == p@[k as int]@);
            if k == 0 {
                assert(out@ =~= start + join_from(comps(p@), 1));
            } else {
                assert(out@ =~= start + join_from(comps(p@), k + 1));
            }
        }
        k = k + 1;
    }
}

fn source_name_exec(p: &Vec<String>, roots: &Vec<Vec<String>>) -> (r: Vec<char>)
    ensures
        r@ == source_name(comps(p@), paths_view(roots@)),
{
    let ghost rv = paths_view(roots@);
    let ghost pv = comps(p@);
    let mut best: Option<usize> = None;
    let mut k: usize = 0;
    while k < roots.len()
        invariant
            k <= roots@.len(),
            rv == paths_view(roots@),
            pv == comps(p@),
            match best {
                Some(i) => i < k && roots@[i as int]@.len() <= p@.len() && nearest_root(rv, pv, k as int) == Some(i as int),
                None => nearest_root(rv, pv, k as int) is None,
            },
        decreases roots@.len() - k,
    {
        assert(rv[k as int] == comps(roots@[k as int]@));
        if starts_with_path(p, &roots[k]) {
            let better = match best {
                None => true,
                Some(i) => {
                    assert(rv[i as int] == comps(roots@[i as int]@));
                    p.len() - roots[k].len() < p.len() - roots[i].len()
                },
            };
            if better {
                best = Some(k);
            }
        }
        k = k + 1;
    }
    let mut out: Vec<char> = Vec::new();
    match best {
        Some(i) => {
            assert(rv[i as int] == comps(roots@[i as int]@));
            let rest = &p.as_slice()[roots[i].len()..p.len()];
            assert(comps(rest@) =~= pv.skip(roots@[i as int]@.len() as int));
            join_components(rest, &mut out);
        },
        None => {
            let n = p.len();
            let slash = chars_of("/");
            let dots = chars_of("..");
            let last_ok = n > 0 && !eq_exec(chars_of(p[n - 1].as_str()).as_slice(), slash.as_slice())
                && !eq_exec(chars_of(p[n - 1].as_str()).as_slice(), dots.as_slice());
            proof {
                if n > 0 {
                    assert(pv.last() == p@[n - 1]@);
                }
            }
            if last_ok {
                push_str(&mut out, p[n - 1].as_str());
            } else if n > 0 && eq_exec(chars_of(p[0].as_str()).as_slice(), slash.as_slice()) {
                assert(pv[0] == p@[0]@);
                push_str(&mut out, "/");
                let rest = &p.as_slice()[1..n];
                assert(comps(rest@) =~= pv.skip(1));
                join_components(rest, &mut out);
            } else {
                proof {
                    if n > 0 {
                        assert(pv[0] == p@[0]@);
                    }
                }
                join_components(p.as_slice(), &mut out);

            }
        },
    }
    out
}

/// How the variables files at `paths` are named, each once, in the order of names:
/// relative to the workspace folder that leaves the fewest components, else by file
/// name, else by whole path.
pub fn variable_sources(paths: &Vec<Vec<String>>, roots: &Vec<Vec<String>>) -> (r: Vec<String>)
    ensures
        r@.map_values(|s: String| s@) == sorted_of(source_names(paths_view(paths@), paths_view(roots@))),
{
    let ghost pv = paths_view(paths@);
    let ghost rv = paths_view(roots@);
    let ghost names = pv.map_values(|p: Seq<Seq<char>>| source_name(p, rv));
    let mut acc: Vec<Vec<char>> = Vec::new();
    let mut k: usize = 0;
    assert(seqs(acc@).to_set() =~= names.take(0).to_set());
    while k < paths.len()
        invariant
            k <= paths@.len(),
            pv == paths_view(paths@),
            rv == paths_view(roots@),
            names == pv.map_values(|p: Seq<Seq<char>>| source_name(p, rv)),
            strictly_sorted(seqs(acc@)),
            seqs(acc@).to_set() == names.take(k as int).to_set(),
        decreases paths@.len() - k,
    {
        let n = source_name_exec(&paths[k], roots);
        proof {
            assert(pv[k as int] == comps(paths@[k as int]@));
            assert(names.take(k + 1) =~= names.take(k as int).push(n@));
            crate::text::lemma_push_to_set(names.take(k as int), n@);
        }
        insert_sorted(&mut acc, n);
        k = k + 1;
    }
    assert(names.take(k as int) =~= names);
    proof {
        lemma_sorted_of(seqs(acc@));
    }
    let mut out: Vec<String> = Vec::new();
    let mut j: usize = 0;
    while j < acc.len()
        invariant
            j <= acc@.len(),
            out@.map_values(|s: String| s@) == seqs(acc@).take(j as int),
        decreases acc@.len() - j,
    {
        let ghost before = out@;
        out.push(string_of(acc[j].as_slice()));
        assert(out@.map_values(|s: String| s@) =~= before.map_values(|s: String| s@).push(acc@[j as int]@));
        assert(seqs(acc@).take(j + 1) =~= seqs(acc@).take(j as int).push(acc@[j as int]@));
        j = j + 1;
    }
    assert(seqs(acc@).take(j as int) =~= seqs(acc@));
    out
}

} // verus!
