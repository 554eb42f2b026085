//! The version string that the server reports.
use vstd::prelude::*;
use crate::text::{
    chars_of, is_alnum, is_ascii_alnum, is_ascii_digit, is_digit, lemma_next_char_bounds, lemma_next_char_run,
    next_char, next_char_exec, string_of, trim, trim_range,
};

verus! {

/// A non-empty run of ASCII digits.
pub open spec fn numeric(c: Seq<char>) -> bool {
    c.len() > 0 && forall|k: int| 0 <= k < c.len() ==> is_ascii_digit(#[trigger] c[k])
}

/// `major.minor.patch`, each a run of digits, and no fourth part.
pub open spec fn three_numbers(core: Seq<char>) -> bool {
    let i = next_char(core, 0, '.');
    let j = next_char(core, i + 1, '.');
    &&& i < core.len()
    &&& j < core.len()
    &&& next_char(core, j + 1, '.') == core.len()
    &&& numeric(core.subrange(0, i))
    &&& numeric(core.subrange(i + 1, j))
    &&& numeric(core.subrange(j + 1, core.len() as int))
}

/// Where the pre-release or build suffix of a version starts (its first `-` or `+`).
pub open spec fn suffix_start(v: Seq<char>) -> int {
    let a = next_char(v, 0, '-');
    let b = next_char(v, 0, '+');
    if a < b { a } else { b }
}

pub open spec fn suffix_char(c: char) -> bool {
    is_ascii_alnum(c) || c == '.' || c == '-'
}

/// A semantic version: three numbers, then optionally `-` or `+` and at least one
/// character among ASCII letters, digits, `.` and `-`.
pub open spec fn semver_like(v: Seq<char>) -> bool {
    let b = suffix_start(v);
    &&& three_numbers(v.take(b))
    &&& (b == v.len() || (v.len() - b >= 2 && forall|k: int| b + 1 <= k < v.len() ==> suffix_char(#[trigger] v[k])))
}

/// The version that a tag names: trimmed, without a leading `v`, when semantic.
pub open spec fn spec_normalize_tag(raw: Seq<char>) -> Option<Seq<char>> {
    let t = trim(raw);
    if t.len() == 0 {
        None
    } else {
        let s = if t[0] == 'v' { t.drop_first() } else { t };
        if semver_like(s) { Some(s) } else { None }
    }
}

fn numeric_exec(c: &[char]) -> (r: bool)
    ensures
        r == numeric(c@),
{
    if c.len() == 0 {
        return false;
    }
    let mut k: usize = 0;
    while k < c.len()
        invariant
            k <= c@.len(),
            forall|j: int| 0 <= j < k ==> is_ascii_digit(#[trigger] c@[j]),
        decreases c@.len() - k,
    {
        if !is_digit(c[k]) {
            return false;
        }
        k = k + 1;
    }
    true
}

fn three_numbers_exec(core: &[char]) -> (r: bool)
    ensures
        r == three_numbers(core@),
{
    let n = core.len();
    let i = next_char_exec(core, 0, '.');
    if i >= n {
        return false;
    }
    let j = next_char_exec(core, i + 1, '.');
    if j >= n {
        return false;
    }
    let k = next_char_exec(core, j + 1, '.');
    if k != n {
        return false;
    }
    numeric_exec(&core[0..i]) && numeric_exec(&core[i + 1..j]) && numeric_exec(&core[j + 1..n])
}

/// Whether `v` is a semantic version (`1.2.3`, `1.2.3-rc.1`, `1.2.3+build.7`).
pub fn is_semver_like(v: &[char]) -> (r: bool)
    ensures
        r == semver_like(v@),
{
    let n = v.len();
    let a = next_char_exec(v, 0, '-');
    let b = next_char_exec(v, 0, '+');
    let s = if a < b { a } else { b };
    assert(s as int == suffix_start(v@));
    if !three_numbers_exec(&v[0..s]) {
        assert(v@.subrange(0, s as int) =~= v@.take(s as int));
        return false;
    }
    assert(v@.subrange(0, s as int) =~= v@.take(s as int));
    if s == n {
        return true;
    }
    if n - s < 2 {
        assert(!(v@.len() - suffix_start(v@) >= 2));
        return false;
    }
    let mut k = s + 1;
    while k < n
        invariant
            s + 1 <= k <= n,
            n == v@.len(),
            s as int == suffix_start(v@),
            three_numbers(v@.take(s as int)),
            n - s >= 2,
            forall|j: int| s + 1 <= j < k ==> suffix_char(#[trigger] v@[j]),
        decreases n - k,
    {
        if !(is_alnum(v[k]) || v[k] == '.' || v[k] == '-') {
            assert(!suffix_char(v@[k as int]));
            return false;
        }
        k = k + 1;
    }
    true
}

/// The semantic version that a tag names (`v0.1.9` gives `0.1.9`), if it names one.
pub fn normalize_tag_version(raw: &str) -> (r: Option<String>)
    ensures
        r is Some <==> spec_normalize_tag(raw@) is Some,
        r matches Some(v) ==> spec_normalize_tag(raw@) == Some(v@),
{
    let c = chars_of(raw);
    let (a, b) = trim_range(c.as_slice());
    let t = &c.as_slice()[a..b];
    if t.len() == 0 {
        return None;
    }
    let s = if t[0] == 'v' { &t[1..t.len()] } else { t };
    assert(t[0] == 'v' ==> s@ =~= t@.drop_first());
    if is_semver_like(s) {
        Some(string_of(s))
    } else {
        None
    }
}

/// The version to show: the injected tag when it names a semantic version, else the fallback.
pub fn resolve_display_version(injected: Option<&str>, fallback: &str) -> (r: String)
    ensures
        r@ == match injected {
            Some(i) => match spec_normalize_tag(i@) {
                Some(v) => v,
                None => fallback@,
            },
            None => fallback@,
        },
{
    match injected {
        Some(i) => match normalize_tag_version(i) {
            Some(v) => v,
            None => fallback.to_owned(),
        },
        None => fallback.to_owned(),
    }
}

/// What may follow the three numbers of a version: nothing, or `-` or `+` and at least
/// one character among ASCII letters, digits, `.` and `-`.
pub open spec fn version_suffix(s: Seq<char>) -> bool {
    s.len() == 0 || (s.len() >= 2 && (s[0] == '-' || s[0] == '+') && forall|k: int|
        1 <= k < s.len() ==> suffix_char(#[trigger] s[k]))
}

/// The three numbers of a version joined by dots.
pub open spec fn dotted(a: Seq<char>, b: Seq<char>, c: Seq<char>) -> Seq<char> {
    a + seq!['.'] + b + seq!['.'] + c
}

/// Three numbers and a suffix, as one text.
pub open spec fn version_of(a: Seq<char>, b: Seq<char>, c: Seq<char>, s: Seq<char>) -> Seq<char> {
    dotted(a, b, c) + s
}

/// A version is semantic exactly when it is three non-empty runs of ASCII digits joined by
/// dots, followed by nothing or by `-` or `+` and a suffix of ASCII letters, digits, `.`
/// and `-` (so `1.2.3-rc.1` is one, and `1.2.3+` and `1.2.3-a+b` are not).
pub proof fn law_semver_shape(v: Seq<char>)
    ensures
        semver_like(v) <==> exists|a: Seq<char>, b: Seq<char>, c: Seq<char>, s: Seq<char>|
            numeric(a) && numeric(b) && numeric(c) && version_suffix(s) && v == #[trigger] version_of(a, b, c, s),
{
    if semver_like(v) {
        let st = suffix_start(v);
        lemma_next_char_bounds(v, 0, '-');
        lemma_next_char_bounds(v, 0, '+');
        let core = v.take(st);
        let i = next_char(core, 0, '.');
        let j = next_char(core, i + 1, '.');
        lemma_next_char_bounds(core, 0, '.');
        lemma_next_char_bounds(core, i + 1, '.');
        let a = core.subrange(0, i);
        let b = core.subrange(i + 1, j);
        let c = core.subrange(j + 1, core.len() as int);
        let s = v.skip(st);
        assert(dotted(a, b, c) =~= core);
        assert(v =~= version_of(a, b, c, s));
        if st < v.len() {
            assert(s[0] == v[st]);
            assert forall|k: int| 1 <= k < s.len() implies suffix_char(#[trigger] s[k]) by {
                assert(s[k] == v[st + k]);
            }
        }
        assert(version_suffix(s));
    }
    if exists|a: Seq<char>, b: Seq<char>, c: Seq<char>, s: Seq<char>|
        numeric(a) && numeric(b) && numeric(c) && version_suffix(s) && v == #[trigger] version_of(a, b, c, s) {
        let (a, b, c, s) = choose|a: Seq<char>, b: Seq<char>, c: Seq<char>, s: Seq<char>|
            numeric(a) && numeric(b) && numeric(c) && version_suffix(s) && v == #[trigger] version_of(a, b, c, s);
        let core = dotted(a, b, c);
        let l = core.len() as int;
        assert forall|k: int| 0 <= k < l implies #[trigger] v[k] != '-' && v[k] != '+' by {
            assert(v[k] == core[k]);
            if k < a.len() {
                assert(core[k] == a[k]);
            } else if k == a.len() {
            } else if k < a.len() + 1 + b.len() {
                assert(core[k] == b[k - a.len() - 1]);
            } else if k == a.len() + 1 + b.len() {
            } else {
                assert(core[k] == c[k - a.len() - 2 - b.len()]);
            }
        }
        lemma_next_char_run(v, 0, l, '-');
        lemma_next_char_run(v, 0, l, '+');
        lemma_next_char_bounds(v, l, '-');
        lemma_next_char_bounds(v, l, '+');
        if s.len() > 0 {
            assert(v[l] == s[0]);
        }
        assert(suffix_start(v) == l);
        assert(v.take(l) =~= core);
        let i = a.len() as int;
        let j = i + 1 + b.len();
        assert forall|k: int| 0 <= k < i implies #[trigger] core[k] != '.' by {
            assert(core[k] == a[k]);
        }
        assert forall|k: int| i + 1 <= k < j implies #[trigger] core[k] != '.' by {
            assert(core[k] == b[k - i - 1]);
        }
        assert forall|k: int| j + 1 <= k < l implies #[trigger] core[k] != '.' by {
            assert(core[k] == c[k - j - 1]);
        }
        lemma_next_char_run(core, 0, i, '.');
        lemma_next_char_run(core, i + 1, j, '.');
        lemma_next_char_run(core, j + 1, l, '.');
        assert(core[i] == '.');
        assert(core[j] == '.');
        assert(next_char(core, 0, '.') == i);
        assert(next_char(core, i + 1, '.') == j);
        assert(next_char(core, j + 1, '.') == l);
        assert(core.subrange(0, i) =~= a);
        assert(core.subrange(i + 1, j) =~= b);
        assert(core.subrange(j + 1, l) =~= c);
        assert(three_numbers(v.take(l)));
        if s.len() > 0 {
            assert forall|k: int| l + 1 <= k < v.len() implies suffix_char(#[trigger] v[k]) by {
                assert(v[k] == s[k - l]);
            }
        }
    }
}

} // verus!
