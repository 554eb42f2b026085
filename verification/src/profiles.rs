//! Environment profiles: named lists of variables files inside the workspace folder.
use vstd::prelude::*;
use crate::paths::{comps, is_prefix, join_from, owning_workspace_root, paths_view, spec_owning_root, starts_with_path};
use crate::text::{chars_of, eq_exec, push_all, push_str, string_of};
use crate::variables::{
    defs_view, keyed_by_name, merged, resolve_variables, resolved_of, resolved_views, DefView, ResolvedVariable,
    VariableDef,
};

verus! {

/// The profile that takes the variables files found next to the document.
pub const AUTO_PROFILE: &'static str = "Auto";

/// A profile as configured: its name and its files, relative to the workspace folder.
#[derive(Clone, Debug, Default, PartialEq, Eq)]
pub struct ProfileConfig {
    pub name: String,
    pub files: Vec<String>,
}

/// The variables of a profile, and the files they come from.
#[derive(Clone, Debug, Default)]
pub struct ResolvedProfile {
    pub name: String,
    pub variables: Vec<ResolvedVariable>,
    pub source_files: Vec<String>,
}

/// What the file system says of one configured file of a profile: the components of
/// its canonical path (or the error that reading it gave), whether it is a file, and the
/// variables it defines.
#[derive(Debug)]
pub struct ProfileFileStatus {
    pub canonical: Result<Vec<String>, String>,
    pub is_file: bool,
    pub definitions: Vec<VariableDef>,
}

pub struct StatusView {
    pub canonical: Result<Seq<Seq<char>>, Seq<char>>,
    pub is_file: bool,
    pub definitions: Seq<DefView>,
}

pub open spec fn status_view(s: ProfileFileStatus) -> StatusView {
    StatusView {
        canonical: match s.canonical {
            Ok(c) => Ok(comps(c@)),
            Err(e) => Err(e@),
        },
        is_file: s.is_file,
        definitions: defs_view(s.definitions@),
    }
}

pub open spec fn statuses_view(v: Seq<ProfileFileStatus>) -> Seq<StatusView> {
    v.map_values(|s: ProfileFileStatus| status_view(s))
}

pub struct ProfileView {
    pub name: Seq<char>,
    pub variables: Seq<(DefView, bool)>,
    pub source_files: Seq<Seq<char>>,
}

pub open spec fn profile_view(p: ResolvedProfile) -> ProfileView {
    ProfileView {
        name: p.name@,
        variables: resolved_views(p.variables@),
        source_files: p.source_files@.map_values(|s: String| s@),
    }
}

/// Whether the automatic profile applies: no profile is selected, or it is `Auto`.
pub open spec fn uses_auto(selected: Option<ProfileConfig>) -> bool {
    match selected {
        None => true,
        Some(c) => c.name@ == "Auto"@,
    }
}

pub open spec fn not_local_error() -> Seq<char> {
    "Environment profiles require a local file document."@
}

pub open spec fn no_workspace_error() -> Seq<char> {
    "Document is not inside a workspace folder."@
}

/// Why a configured file cannot be part of a profile: it cannot be read, or it is not a
/// file inside the workspace folder.
pub open spec fn file_failure(configured: Seq<char>, s: StatusView, root: Seq<Seq<char>>) -> Option<Seq<char>> {
    match s.canonical {
        Err(e) => Some("Unable to read profile file `"@ + configured + "`: "@ + e),
        Ok(c) => if !is_prefix(root, c) || !s.is_file {
            Some("Profile file `"@ + configured + "` must be a file inside the workspace folder."@)
        } else {
            None
        },
    }
}

/// The failure of the first of the first `n` files that cannot be part of the profile.
pub open spec fn first_failure(cfg: Seq<Seq<char>>, sts: Seq<StatusView>, root: Seq<Seq<char>>, n: int) -> Option<Seq<char>>
    decreases n,
{
    if n <= 0 {
        None
    } else {
        match first_failure(cfg, sts, root, n - 1) {
            Some(m) => Some(m),
            None => file_failure(cfg[n - 1], sts[n - 1], root),
        }
    }
}

/// The definitions of the first `n` files, in order.
pub open spec fn profile_defs(sts: Seq<StatusView>, n: int) -> Seq<DefView>
    decreases n,
{
    if n <= 0 {
        Seq::empty()
    } else {
        profile_defs(sts, n - 1) + sts[n - 1].definitions
    }
}

/// A file as named in a profile's sources: its path relative to the workspace folder.
pub open spec fn relative_name(c: Seq<Seq<char>>, root: Seq<Seq<char>>) -> Seq<char> {
    join_from(c.skip(root.len() as int), c.len() - root.len())
}

pub open spec fn canonical_of(s: StatusView) -> Seq<Seq<char>> {
    match s.canonical {
        Ok(c) => c,
        Err(_) => Seq::empty(),
    }
}

/// The profile that a selection resolves to. The automatic profile is `auto`. A selected
/// profile needs a local document inside a workspace folder, and each of its files must
/// be a readable file inside that folder; its variables merge its files in order, later
/// files overriding earlier ones, and its sources are its files relative to the folder.
pub open spec fn spec_resolve_profile(
    selected: Option<ProfileConfig>,
    document: Option<Seq<Seq<char>>>,
    roots: Seq<Seq<Seq<char>>>,
    sts: Seq<StatusView>,
    auto: ProfileView,
) -> Result<ProfileView, Seq<char>> {
    if uses_auto(selected) {
        Ok(auto)
    } else {
        let cfg = selected.unwrap().files@.map_values(|s: String| s@);
        match document {
            None => Err(not_local_error()),
            Some(d) => match spec_owning_root(d, roots) {
                None => Err(no_workspace_error()),
                Some(root) => match first_failure(cfg, sts, root, cfg.len() as int) {
                    Some(m) => Err(m),
                    None => Ok(
                        ProfileView {
                            name: selected.unwrap().name@,
                            variables: merged(profile_defs(sts, sts.len() as int)).map_values(|d: DefView| resolved_of(d)),
                            source_files: sts.map_values(|s: StatusView| relative_name(canonical_of(s), root)),
                        },
                    ),
                },
            },
        }
    }
}

fn is_auto(selected: Option<&ProfileConfig>) -> (r: bool)
    ensures
        r == uses_auto(match selected {
            Some(c) => Some(*c),
            None => None,
        }),
{
    match selected {
        None => true,
        Some(c) => {
            let n = chars_of(c.name.as_str());
            let a = chars_of("Auto");
            eq_exec(n.as_slice(), a.as_slice())
        },
    }
}

fn relative_string(c: &Vec<String>, root_len: usize) -> (r: String)
    requires
        root_len <= c@.len(),
    ensures
        r@ == join_from(comps(c@).skip(root_len as int), c@.len() - root_len),
{
    let rest = &c.as_slice()[root_len..c.len()];
    assert(comps(rest@) =~= comps(c@).skip(root_len as int));
    let mut out: Vec<char> = Vec::new();
    let ghost start = out@;
    let mut k: usize = 0;
    assert(join_from(comps(rest@), 0) =~= Seq::<char>::empty());
    while k < rest.len()
        invariant
            k <= rest@.len(),
            out@ == join_from(comps(rest@), k as int),
        decreases rest@.len() - k,
    {
        if k > 0 {
            push_str(&mut out, "/");
        }
        push_str(&mut out, rest[k].as_str());
        proof {
            assert(comps(rest@)[k as int] == rest@[k as int]@);
            assert(out@ =~= join_from(comps(rest@), k + 1));
        }
        k = k + 1;
    }
    string_of(out.as_slice())
}

/// The profile that a selection resolves to (see `spec_resolve_profile`), given the
/// components of the document's canonical path (none when it is not a local file), the
/// canonical workspace folders, what the file system says of each configured file of the
/// selected profile, and the automatic profile.
pub fn resolve_profile(
    selected: Option<&ProfileConfig>,
    document: Option<Vec<String>>,
    roots: &Vec<Vec<String>>,
    files: &Vec<ProfileFileStatus>,
    auto: ResolvedProfile,
) -> (r: Result<ResolvedProfile, String>)
    requires
        match selected {
            Some(c) => c.files@.len() == files@.len(),
            None => true,
        },
    ensures
        spec_resolve_profile(
            match selected {
                Some(c) => Some(*c),
                None => None,
            },
            match document {
                Some(d) => Some(comps(d@)),
                None => None,
            },
            paths_view(roots@),
            statuses_view(files@),
            profile_view(auto),
        ) == match r {
            Ok(p) => Ok(profile_view(p)),
            Err(e) => Err(e@),
        },
        keyed_by_name(resolved_views(auto.variables@)) ==> (r matches Ok(p) ==> keyed_by_name(
            resolved_views(p.variables@),
        )),
{
    if is_auto(selected) {
        return Ok(auto);
    }
    let config = selected.unwrap();
    let ghost cfg = config.files@.map_values(|s: String| s@);
    let ghost sv = statuses_view(files@);
    let ghost doc = match &document {
        Some(d) => Some(comps(d@)),
        None => None::<Seq<Seq<char>>>,
    };
    let d = match document {
        Some(d) => d,
        None => return Err("Environment profiles require a local file document.".to_owned()),
    };
    let root = match owning_workspace_root(&d, roots) {
        Some(r) => r,
        None => return Err("Document is not inside a workspace folder.".to_owned()),
    };
    let ghost rc = comps(root@);
    let mut defs: Vec<VariableDef> = Vec::new();
    let mut sources: Vec<String> = Vec::new();
    let mut failure: Option<String> = None;
    let mut k: usize = 0;
    assert(defs_view(defs@) =~= profile_defs(sv, 0));
    while k < files.len() && failure.is_none()
        invariant
            k <= files@.len(),
            config.files@.len() == files@.len(),
            cfg == config.files@.map_values(|s: String| s@),
            sv == statuses_view(files@),
            rc == comps(root@),
            match failure {
                Some(m) => first_failure(cfg, sv, rc, k as int) == Some(m@),
                None => first_failure(cfg, sv, rc, k as int) is None,
            },
            failure is None ==> defs_view(defs@) == profile_defs(sv, k as int),
            failure is None ==> sources@.map_values(|s: String| s@) == sv.take(k as int).map_values(
                |s: StatusView| relative_name(canonical_of(s), rc),
            ),
        decreases files@.len() - k,
    {
        let st = &files[k];
        let configured = config.files[k].as_str();
        assert(sv[k as int] == status_view(files@[k as int]));
        assert(cfg[k as int] == configured@);
        match &st.canonical {
            Err(e) => {
                let mut m: Vec<char> = Vec::new();
                push_str(&mut m, "Unable to read profile file `");
                push_str(&mut m, configured);
                push_str(&mut m, "`: ");
                push_str(&mut m, e.as_str());
                assert(m@ =~= file_failure(cfg[k as int], sv[k as int], rc).unwrap());
                failure = Some(string_of(m.as_slice()));
            },
            Ok(c) => {
                if !starts_with_path(c, &root) || !st.is_file {
                    let mut m: Vec<char> = Vec::new();
                    push_str(&mut m, "Profile file `");
                    push_str(&mut m, configured);
                    push_str(&mut m, "` must be a file inside the workspace folder.");
                    assert(m@ =~= file_failure(cfg[k as int], sv[k as int], rc).unwrap());
                    failure = Some(string_of(m.as_slice()));
                } else {
                    let mut j: usize = 0;
                    let ghost before = defs_view(defs@);
                    while j < st.definitions.len()
                        invariant
                            j <= st.definitions@.len(),
                            defs_view(defs@) == before + defs_view(st.definitions@).take(j as int),
                        decreases st.definitions@.len() - j,
                    {
                        let ghost b2 = defs@;
                        defs.push(st.definitions[j].copy_def());
                        assert(defs_view(defs@) =~= defs_view(b2).push(st.definitions@[j as int]@));
                        assert(defs_view(st.definitions@).take(j + 1) =~= defs_view(st.definitions@).take(j as int).push(
                            st.definitions@[j as int]@,
                        ));
                        j = j + 1;
                    }
                    assert(defs_view(st.definitions@).take(j as int) =~= defs_view(st.definitions@));
                    let rel = relative_string(c, root.len());
                    let ghost sb = sources@;
                    sources.push(rel);
                    proof {
                        assert(sources@.map_values(|s: String| s@) =~= sb.map_values(|s: String| s@).push(rel@));
                        assert(sv.take(k + 1) =~= sv.take(k as int).push(sv[k as int]));
                        assert(rel@ == relative_name(canonical_of(sv[k as int]), rc));
                    }
                }
            },
        }
        k = k + 1;
    }
    match failure {
        Some(m) => {
            proof {
                lemma_failure_stays(cfg, sv, rc, k as int, cfg.len() as int);
            }
            return Err(m);
        },
        None => {},
    }
    assert(k == files@.len());
    assert(sv.take(k as int) =~= sv);
    assert(cfg.len() == sv.len());
    let variables = resolve_variables(&defs);
    Ok(ResolvedProfile { name: config.name.clone(), variables, source_files: sources })
}

/// Whether the files of a selected profile are to be read: only when the profile will
/// resolve, that is when a profile other than `Auto` is selected, the document lies in a
/// workspace folder, and every configured file is a readable file inside that folder.
pub open spec fn spec_files_to_read(
    selected: Option<ProfileConfig>,
    document: Option<Seq<Seq<char>>>,
    roots: Seq<Seq<Seq<char>>>,
    sts: Seq<StatusView>,
) -> bool {
    !uses_auto(selected) && match document {
        None => false,
        Some(d) => match spec_owning_root(d, roots) {
            None => false,
            Some(root) => {
                let cfg = selected.unwrap().files@.map_values(|s: String| s@);
                first_failure(cfg, sts, root, cfg.len() as int) is None
            },
        },
    }
}

/// Whether to read the variables of the configured files of the selected profile, from
/// what the file system says of their paths (their `definitions` are not looked at): only
/// when each of them is a file whose canonical path lies inside the document's workspace
/// folder, so that no file outside it is ever read.
pub fn profile_files_to_read(
    selected: Option<&ProfileConfig>,
    document: &Option<Vec<String>>,
    roots: &Vec<Vec<String>>,
    files: &Vec<ProfileFileStatus>,
) -> (r: bool)
    requires
        match selected {
            Some(c) => c.files@.len() == files@.len(),
            None => true,
        },
    ensures
        r == spec_files_to_read(
            match selected {
                Some(c) => Some(*c),
                None => None,
            },
            match document {
                Some(d) => Some(comps(d@)),
                None => None,
            },
            paths_view(roots@),
            statuses_view(files@),
        ),
        r ==> forall|k: int|
            0 <= k < files@.len() ==> {
                &&& #[trigger] files@[k].canonical matches Ok(c) && is_prefix(
                    spec_owning_root(comps(document->0@), paths_view(roots@))->0,
                    comps(c@),
                )
                &&& files@[k].is_file
            },
{
    if is_auto(selected) {
        return false;
    }
    let config = selected.unwrap();
    let ghost cfg = config.files@.map_values(|s: String| s@);
    let ghost sv = statuses_view(files@);
    let d = match document {
        Some(d) => d,
        None => return false,
    };
    let root = match owning_workspace_root(d, roots) {
        Some(r) => r,
        None => return false,
    };
    let ghost rc = comps(root@);
    let mut k: usize = 0;
    while k < files.len()
        invariant
            k <= files@.len(),
            config.files@.len() == files@.len(),
            cfg == config.files@.map_values(|s: String| s@),
            sv == statuses_view(files@),
            rc == comps(root@),
            spec_owning_root(comps(d@), paths_view(roots@)) == Some(rc),
            *document == Some(*d),
            selected == Some(config),
            first_failure(cfg, sv, rc, k as int) is None,
            forall|j: int| 0 <= j < k ==> {
                &&& #[trigger] files@[j].canonical matches Ok(c) && is_prefix(rc, comps(c@))
                &&& files@[j].is_file
            },
        decreases files@.len() - k,
    {
        let st = &files[k];
        assert(sv[k as int] == status_view(files@[k as int]));
        match &st.canonical {
            Err(_) => {
                proof {
                    assert(sv[k as int].canonical is Err);
                    assert(file_failure(cfg[k as int], sv[k as int], rc) is Some);
                    assert(first_failure(cfg, sv, rc, k + 1) is Some);
                    lemma_failure_stays(cfg, sv, rc, k + 1, cfg.len() as int);
                }
                return false;
            },
            Ok(c) => {
                if !starts_with_path(c, &root) || !st.is_file {
                    proof {
                        assert(sv[k as int].canonical == Ok::<Seq<Seq<char>>, Seq<char>>(comps(c@)));
                        assert(file_failure(cfg[k as int], sv[k as int], rc) is Some);
                        assert(first_failure(cfg, sv, rc, k + 1) is Some);
                        lemma_failure_stays(cfg, sv, rc, k + 1, cfg.len() as int);
                    }
                    return false;
                }
                proof {
                    assert(sv[k as int].canonical == Ok::<Seq<Seq<char>>, Seq<char>>(comps(c@)));
                    assert(file_failure(cfg[k as int], sv[k as int], rc) is None);
                }
            },
        }
        k = k + 1;
    }
    true
}

/// A selected profile's files are read exactly when the profile resolves: a profile that
/// is refused (no local document, no workspace folder, or a file that is missing, not a
/// file, or outside the folder) has read none of them.
pub proof fn law_profile_files_read_only_when_resolved(
    selected: Option<ProfileConfig>,
    document: Option<Seq<Seq<char>>>,
    roots: Seq<Seq<Seq<char>>>,
    sts: Seq<StatusView>,
    auto: ProfileView,
)
    requires
        !uses_auto(selected),
    ensures
        spec_files_to_read(selected, document, roots, sts) <==> spec_resolve_profile(selected, document, roots, sts, auto) is Ok,
{
}

proof fn lemma_failure_stays(cfg: Seq<Seq<char>>, sts: Seq<StatusView>, root: Seq<Seq<char>>, a: int, b: int)
    requires
        0 < a <= b,
        first_failure(cfg, sts, root, a) is Some,
    ensures
        first_failure(cfg, sts, root, b) == first_failure(cfg, sts, root, a),
    decreases b - a,
{
    if a < b {
        lemma_failure_stays(cfg, sts, root, a, b - 1);
    }
}

} // verus!
