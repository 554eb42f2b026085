//! The paths that the OpenAPI documents next to a Hurl file describe.
use vstd::prelude::*;
use vstd::utf8::encode_utf8;
use crate::report::{deref, get, jget, json_of, json_value_of, parse_json, JsonValue};
use crate::text::{chars_of, eq_exec, insert_sorted, lemma_sorted_of, seqs, sorted_of, string_of, strictly_sorted};

verus! {

/// What `serde_yaml::from_str`, then `serde_json::to_value`, make of a text.
pub uninterp spec fn yaml_of(text: Seq<char>) -> Option<JsonValue>;

/// `serde_yaml::from_str::<serde_yaml::Value>`, then `serde_json::to_value`: the value a
/// YAML text holds, if it is YAML that JSON can hold. The result is named, not stated.
#[verifier::external_body]
fn parse_yaml(text: &str) -> (r: Option<JsonValue>)
    ensures
        r == yaml_of(text@),
{
    serde_yaml::from_str::<serde_yaml::Value>(text).ok().and_then(|y| serde_json::to_value(y).ok()).map(|v| json_value_of(&v))
}

/// The names of the files that may describe an API, in the order in which a folder's
/// files are read.
pub open spec fn spec_openapi_files() -> Seq<Seq<char>> {
    seq!["openapi.yaml"@, "openapi.yml"@, "swagger.yaml"@, "swagger.yml"@, "swagger.json"@]
}

pub fn openapi_file_names() -> (r: Vec<String>)
    ensures
        r@.map_values(|s: String| s@) == spec_openapi_files(),
{
    let mut r: Vec<String> = Vec::new();
    r.push("openapi.yaml".to_owned());
    r.push("openapi.yml".to_owned());
    r.push("swagger.yaml".to_owned());
    r.push("swagger.yml".to_owned());
    r.push("swagger.json".to_owned());
    assert(r@.map_values(|s: String| s@) =~= spec_openapi_files());
    r
}

/// Index of the last `.` of a file name, if any.
pub open spec fn last_dot(s: Seq<char>, n: int) -> Option<int>
    decreases n,
{
    if n <= 0 {
        None
    } else if s[n - 1] == '.' {
        Some(n - 1)
    } else {
        last_dot(s, n - 1)
    }
}

/// `Path::extension` of a file name: what follows its last `.`, unless that dot starts it.
pub open spec fn spec_extension(name: Seq<char>) -> Option<Seq<char>> {
    match last_dot(name, name.len() as int) {
        Some(i) => if i > 0 {
            Some(name.skip(i + 1))
        } else {
            None
        },
        None => None,
    }
}

fn is_json_name(name: &str) -> (r: bool)
    ensures
        r == (spec_extension(name@) == Some("json"@)),
{
    let s = chars_of(name);
    let mut k: usize = s.len();
    while k > 0 && s[k - 1] != '.'
        invariant
            k <= s@.len(),
            s@ == name@,
            last_dot(s@, s@.len() as int) == last_dot(s@, k as int),
        decreases k,
    {
        k = k - 1;
    }
    if k <= 1 {
        return false;
    }
    let ext = &s.as_slice()[k..s.len()];
    assert(ext@ =~= name@.skip(k as int));
    let json = chars_of("json");
    eq_exec(ext, json.as_slice())
}

/// The value an API document holds: JSON for a `.json` file, YAML otherwise.
pub open spec fn document_value(name: Seq<char>, content: Seq<char>) -> Option<JsonValue> {
    if spec_extension(name) == Some("json"@) {
        json_of(encode_utf8(content))
    } else {
        yaml_of(content)
    }
}

/// The keys of the `paths` object of a document.
pub open spec fn path_keys(v: Option<JsonValue>) -> Set<Seq<char>> {
    match jget(v, "paths"@) {
        Some(JsonValue::Object(m)) => m@.map_values(|p: (String, JsonValue)| p.0@).to_set(),
        _ => Set::empty(),
    }
}

pub open spec fn keys_upto(files: Seq<(Seq<char>, Seq<char>)>, k: int) -> Set<Seq<char>>
    decreases k,
{
    if k <= 0 {
        Set::empty()
    } else {
        keys_upto(files, k - 1) + path_keys(document_value(files[k - 1].0, files[k - 1].1))
    }
}

/// The paths of all the given API documents (file name and text), each once, in order.
pub open spec fn spec_openapi_paths(files: Seq<(Seq<char>, Seq<char>)>) -> Seq<Seq<char>> {
    sorted_of(keys_upto(files, files.len() as int))
}

/// The paths that the given API documents (file name and text) describe, each once, in
/// the order of `str`; a document that is not valid JSON or YAML describes none.
pub fn openapi_paths(files: &Vec<(String, String)>) -> (r: Vec<String>)
    ensures
        r@.map_values(|s: String| s@) == spec_openapi_paths(files@.map_values(|f: (String, String)| (f.0@, f.1@))),
{
    let ghost fv = files@.map_values(|f: (String, String)| (f.0@, f.1@));
    let mut acc: Vec<Vec<char>> = Vec::new();
    assert(seqs(acc@).to_set() =~= Set::<Seq<char>>::empty());
    let mut k: usize = 0;
    while k < files.len()
        invariant
            k <= files@.len(),
            fv == files@.map_values(|f: (String, String)| (f.0@, f.1@)),
            strictly_sorted(seqs(acc@)),
            seqs(acc@).to_set() == keys_upto(fv, k as int),
        decreases files@.len() - k,
    {
        let name = files[k].0.as_str();
        let content = files[k].1.as_str();
        assert(fv[k as int] == (name@, content@));
        let value = if is_json_name(name) {
            parse_json(content.as_bytes())
        } else {
            parse_yaml(content)
        };
        assert(value == document_value(name@, content@));
        let ghost start = seqs(acc@).to_set();
        let vr = value.as_ref();
        assert(deref(vr) == value);
        match get(vr, "paths") {
            Some(JsonValue::Object(m)) => {
                let ghost keys = m@.map_values(|p: (String, JsonValue)| p.0@);
                let mut j: usize = 0;
                assert(start + keys.take(0).to_set() =~= start);
                while j < m.len()
                    invariant
                        j <= m@.len(),
                        keys == m@.map_values(|p: (String, JsonValue)| p.0@),
                        strictly_sorted(seqs(acc@)),
                        seqs(acc@).to_set() == start + keys.take(j as int).to_set(),
                    decreases m@.len() - j,
                {
                    let key = chars_of(m[j].0.as_str());
                    proof {
                        assert(keys.take(j + 1) =~= keys.take(j as int).push(key@));
                        crate::text::lemma_push_to_set(keys.take(j as int), key@);
                    }
                    insert_sorted(&mut acc, key);
                    assert(seqs(acc@).to_set() =~= start + keys.take(j + 1).to_set());
                    j = j + 1;
                }
                assert(keys.take(j as int) =~= keys);
            },
            _ => {
                assert(start + Set::<Seq<char>>::empty() =~= start);
            },
        }
        k = k + 1;
    }
    proof {
        lemma_sorted_of(seqs(acc@));
    }
    let mut out: Vec<String> = Vec::new();
    let mut j: usize = 0;
    while j < acc.len()
        invariant
            j <= acc@.len(),
            out@.map_values(|s: String| s@) == seqs(acc@).take(j as int),
        decreases acc@.len() - j,
    {
        let ghost before = out@;
        out.push(string_of(acc[j].as_slice()));
        assert(out@.map_values(|s: String| s@) =~= before.map_values(|s: String| s@).push(acc@[j as int]@));
        assert(seqs(acc@).take(j + 1) =~= seqs(acc@).take(j as int).push(acc@[j as int]@));
        j = j + 1;
    }
    assert(seqs(acc@).take(j as int) =~= seqs(acc@));
    out
}

} // verus!
