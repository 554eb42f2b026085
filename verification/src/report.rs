//! The JSON report of a `hurl` run, read into the result that the editor shows.
use vstd::prelude::*;
use vstd::utf8::{decode_utf8, valid_utf8};
use crate::curl::{header_sensitive, is_header_sensitive};
use crate::execution::{target_name, RunTarget};
use crate::protocol::{
    body_opt, body_view, exchange_view, exchanges_view, failed_view, faileds_view, header_view, headers_view,
    request_view, response_view, result_view, BodyContent, BodyView, ExchangeView, FailedAssertion, FailedView,
    HeaderField, HeaderView, HttpExchange, HttpRequestData, HttpResponseData, HttpTimings, RequestView,
    ResponseView, ResultView, RunResult,
};
use crate::text::{
    blen, char_floor, chars_of, eq_exec, find, find_from, find_from_exec, occurs_at, is_ws, lemma_find_from_found, lower, lower_exec,
    next_char, push_all, skip_class, skip_class_exec, starts_with, starts_with_exec, string_of, to_vec,
};

verus! {

/// A JSON value as the report reader uses it: a number is its `u64` value when it has one.
#[derive(Debug)]
pub enum JsonValue {
    Null,
    Bool(bool),
    Number(Option<u64>),
    Text(String),
    Array(Vec<JsonValue>),
    Object(Vec<(String, JsonValue)>),
}

/// What `serde_json::from_slice` reads from the bytes, if they are JSON.
pub uninterp spec fn json_of(bytes: Seq<u8>) -> Option<JsonValue>;

/// What `String::from_utf8_lossy` makes of the bytes.
pub uninterp spec fn lossy_text(bytes: Seq<u8>) -> Seq<char>;

#[verifier::external_type_specification]
#[verifier::external_body]
pub struct ExSerdeJsonValue(serde_json::Value);

/// `serde_json::Value` as a `JsonValue`, variant by variant; a number through
/// `serde_json::Number::as_u64`.
#[verifier::external_body]
pub(crate) fn json_value_of(v: &serde_json::Value) -> JsonValue {
    match v {
        serde_json::Value::Null => JsonValue::Null,
        serde_json::Value::Bool(b) => JsonValue::Bool(*b),
        serde_json::Value::Number(n) => JsonValue::Number(n.as_u64()),
        serde_json::Value::String(s) => JsonValue::Text(s.clone()),
        serde_json::Value::Array(a) => JsonValue::Array(a.iter().map(json_value_of).collect()),
        serde_json::Value::Object(m) => JsonValue::Object(m.iter().map(|(k, x)| (k.clone(), json_value_of(x))).collect()),
    }
}

/// `serde_json::from_slice::<serde_json::Value>`: the value the bytes hold, if they are
/// JSON. The result is named, not stated: it depends on the bytes alone.
#[verifier::external_body]
pub(crate) fn parse_json(bytes: &[u8]) -> (r: Option<JsonValue>)
    ensures
        r == json_of(bytes@),
{
    serde_json::from_slice::<serde_json::Value>(bytes).ok().map(|v| json_value_of(&v))
}

/// `String::from_utf8_lossy`: valid UTF-8 is decoded as it is; other bytes are named.
#[verifier::external_body]
fn utf8_lossy(bytes: &[u8]) -> (r: String)
    ensures
        r@ == lossy_text(bytes@),
        valid_utf8(bytes@) ==> r@ == decode_utf8(bytes@),
{
    String::from_utf8_lossy(bytes).into_owned()
}

/// `std::str::from_utf8`: the text when the bytes are valid UTF-8.
#[verifier::external_body]
fn utf8_text(bytes: &[u8]) -> (r: Option<String>)
    ensures
        r is Some <==> valid_utf8(bytes@),
        r matches Some(s) ==> s@ == decode_utf8(bytes@),
{
    std::str::from_utf8(bytes).ok().map(|s| s.to_string())
}

/// The value of the first member named `key` among the first `n` members of an object.
pub open spec fn member(m: Seq<(String, JsonValue)>, key: Seq<char>, n: int) -> Option<JsonValue>
    decreases n,
{
    if n <= 0 {
        None
    } else {
        let prev = member(m, key, n - 1);
        if prev is Some {
            prev
        } else if m[n - 1].0@ == key {
            Some(m[n - 1].1)
        } else {
            None
        }
    }
}

/// `Value::get`: the member `key` of an object.
pub open spec fn jget(v: Option<JsonValue>, key: Seq<char>) -> Option<JsonValue> {
    match v {
        Some(JsonValue::Object(m)) => member(m@, key, m@.len() as int),
        _ => None,
    }
}

pub open spec fn ju64(v: Option<JsonValue>) -> Option<u64> {
    match v {
        Some(JsonValue::Number(n)) => n,
        _ => None,
    }
}

pub open spec fn jstr(v: Option<JsonValue>) -> Option<Seq<char>> {
    match v {
        Some(JsonValue::Text(s)) => Some(s@),
        _ => None,
    }
}

pub open spec fn jbool(v: Option<JsonValue>) -> Option<bool> {
    match v {
        Some(JsonValue::Bool(b)) => Some(b),
        _ => None,
    }
}

/// The items of an array; none for anything else.
pub open spec fn jarr(v: Option<JsonValue>) -> Seq<JsonValue> {
    match v {
        Some(JsonValue::Array(a)) => a@,
        _ => Seq::empty(),
    }
}

pub open spec fn or_empty(o: Option<Seq<char>>) -> Seq<char> {
    match o {
        Some(s) => s,
        None => Seq::empty(),
    }
}

pub open spec fn deref(o: Option<&JsonValue>) -> Option<JsonValue> {
    match o {
        Some(x) => Some(*x),
        None => None,
    }
}

pub(crate) fn get<'a>(v: Option<&'a JsonValue>, key: &str) -> (r: Option<&'a JsonValue>)
    ensures
        deref(r) == jget(deref(v), key@),
{
    match v {
        Some(JsonValue::Object(m)) => {
            assert(jget(deref(v), key@) == member(m@, key@, m@.len() as int));
            let kv = chars_of(key);
            let mut k: usize = 0;
            while k < m.len()
                invariant
                    k <= m@.len(),
                    kv@ == key@,
                    jget(deref(v), key@) == member(m@, key@, m@.len() as int),
                    member(m@, key@, k as int) is None,
                decreases m@.len() - k,
            {
                let name = chars_of(m[k].0.as_str());
                if eq_exec(name.as_slice(), kv.as_slice()) {
                    proof {
                        lemma_member_stays(m@, key@, k + 1, m@.len() as int);
                    }
                    return Some(&m[k].1);
                }
                k = k + 1;
            }
            None
        },
        _ => None,
    }
}

proof fn lemma_member_stays(m: Seq<(String, JsonValue)>, key: Seq<char>, a: int, b: int)
    requires
        a <= b,
        member(m, key, a) is Some,
    ensures
        member(m, key, b) == member(m, key, a),
    decreases b - a,
{
    if a < b {
        lemma_member_stays(m, key, a, b - 1);
    }
}

fn as_u64(v: Option<&JsonValue>) -> (r: Option<u64>)
    ensures
        r == ju64(deref(v)),
{
    match v {
        Some(JsonValue::Number(n)) => *n,
        _ => None,
    }
}

fn as_str<'a>(v: Option<&'a JsonValue>) -> (r: Option<&'a String>)
    ensures
        match r {
            Some(s) => jstr(deref(v)) == Some(s@),
            None => jstr(deref(v)) is None,
        },
{
    match v {
        Some(JsonValue::Text(s)) => Some(s),
        _ => None,
    }
}

fn str_or_empty(v: Option<&JsonValue>) -> (r: String)
    ensures
        r@ == or_empty(jstr(deref(v))),
{
    match as_str(v) {
        Some(s) => s.clone(),
        None => String::new(),
    }
}

fn as_bool(v: Option<&JsonValue>) -> (r: Option<bool>)
    ensures
        r == jbool(deref(v)),
{
    match v {
        Some(JsonValue::Bool(b)) => Some(*b),
        _ => None,
    }
}

fn items<'a>(v: Option<&'a JsonValue>) -> (r: &'a [JsonValue])
    ensures
        r@ == jarr(deref(v)),
{
    match v {
        Some(JsonValue::Array(a)) => a.as_slice(),
        _ => &[],
    }
}

/// The most bytes of a body that a result carries.
pub const BODY_LIMIT: usize = 1048576;

pub open spec fn header_of(h: JsonValue) -> HeaderView {
    let name = or_empty(jstr(jget(Some(h), "name"@)));
    HeaderView { name, value: or_empty(jstr(jget(Some(h), "value"@))), sensitive: header_sensitive(name) }
}

/// The headers of a report's header list: name and value (empty when missing), and
/// whether the value is a secret.
pub open spec fn spec_headers(v: Option<JsonValue>) -> Seq<HeaderView> {
    jarr(v).map_values(|h: JsonValue| header_of(h))
}

fn parse_headers(v: Option<&JsonValue>) -> (r: Vec<HeaderField>)
    ensures
        headers_view(r@) == spec_headers(deref(v)),
{
    let hs = items(v);
    let mut out: Vec<HeaderField> = Vec::new();
    let mut k: usize = 0;
    while k < hs.len()
        invariant
            k <= hs@.len(),
            hs@ == jarr(deref(v)),
            headers_view(out@) == spec_headers(deref(v)).take(k as int),
        decreases hs@.len() - k,
    {
        let h = &hs[k];
        let name = str_or_empty(get(Some(h), "name"));
        let value = str_or_empty(get(Some(h), "value"));
        let sensitive = is_header_sensitive(name.as_str());
        let f = HeaderField { name, value, sensitive };
        let ghost old_out = out@;
        out.push(f);
        proof {
            assert(headers_view(out@) =~= headers_view(old_out).push(header_view(f)));
            assert(spec_headers(deref(v)).take(k + 1) =~= spec_headers(deref(v)).take(k as int).push(header_of(hs@[k as int])));
        }
        k = k + 1;
    }
    assert(spec_headers(deref(v)).take(k as int) =~= spec_headers(deref(v)));
    out
}

/// The value of the first of the first `n` headers named `Content-Type`, in any case.
pub open spec fn media_type_upto(hs: Seq<HeaderView>, n: int) -> Option<Seq<char>>
    decreases n,
{
    if n <= 0 {
        None
    } else {
        let prev = media_type_upto(hs, n - 1);
        if prev is Some {
            prev
        } else if lower(hs[n - 1].name) == "content-type"@ {
            Some(hs[n - 1].value)
        } else {
            None
        }
    }
}

pub open spec fn spec_media_type(v: Option<JsonValue>) -> Option<Seq<char>> {
    media_type_upto(spec_headers(v), spec_headers(v).len() as int)
}

fn media_type(v: Option<&JsonValue>) -> (r: Option<String>)
    ensures
        crate::protocol::str_opt(r) == spec_media_type(deref(v)),
{
    let hs = parse_headers(v);
    let ghost hv = headers_view(hs@);
    let ct = chars_of("content-type");
    let mut k: usize = 0;
    while k < hs.len()
        invariant
            k <= hs@.len(),
            hv == headers_view(hs@),
            hv == spec_headers(deref(v)),
            ct@ == "content-type"@,
            media_type_upto(hv, k as int) is None,
        decreases hs@.len() - k,
    {
        let l = lower_exec(chars_of(hs[k].name.as_str()).as_slice());
        assert(hv[k as int] == header_view(hs@[k as int]));
        if eq_exec(l.as_slice(), ct.as_slice()) {
            proof {
                lemma_media_stays(hv, k + 1, hv.len() as int);
            }
            return Some(hs[k].value.clone());
        }
        k = k + 1;
    }
    None
}

proof fn lemma_media_stays(hs: Seq<HeaderView>, a: int, b: int)
    requires
        a <= b,
        media_type_upto(hs, a) is Some,
    ensures
        media_type_upto(hs, b) == media_type_upto(hs, a),
    decreases b - a,
{
    if a < b {
        lemma_media_stays(hs, a, b - 1);
    }
}

/// The files of a report's directory that a run stored, by relative path: their bytes,
/// or none when they could not be read.
pub open spec fn files_view(files: Seq<(String, Option<Vec<u8>>)>) -> Seq<(Seq<char>, Option<Seq<u8>>)> {
    files.map_values(
        |f: (String, Option<Vec<u8>>)|
            (
                f.0@,
                match f.1 {
                    Some(b) => Some(b@),
                    None => None,
                },
            ),
    )
}

/// The bytes of the first of the first `n` files at `path`, when it was read.
pub open spec fn file_upto(files: Seq<(Seq<char>, Option<Seq<u8>>)>, path: Seq<char>, n: int) -> Option<Seq<u8>>
    decreases n,
{
    if n <= 0 {
        None
    } else if exists_file(files, path, n - 1) {
        file_upto(files, path, n - 1)
    } else if files[n - 1].0 == path {
        files[n - 1].1
    } else {
        None
    }
}

pub open spec fn exists_file(files: Seq<(Seq<char>, Option<Seq<u8>>)>, path: Seq<char>, n: int) -> bool {
    exists|k: int| 0 <= k < n && #[trigger] files[k].0 == path
}

pub open spec fn file_bytes(files: Seq<(Seq<char>, Option<Seq<u8>>)>, path: Seq<char>) -> Option<Seq<u8>> {
    file_upto(files, path, files.len() as int)
}

fn find_file<'a>(files: &'a Vec<(String, Option<Vec<u8>>)>, path: &String) -> (r: Option<&'a Vec<u8>>)
    ensures
        match r {
            Some(b) => file_bytes(files_view(files@), path@) == Some(b@),
            None => file_bytes(files_view(files@), path@) is None,
        },
{
    let ghost fv = files_view(files@);
    let pv = chars_of(path.as_str());
    let mut k: usize = 0;
    while k < files.len()
        invariant
            k <= files@.len(),
            fv == files_view(files@),
            pv@ == path@,
            !exists_file(fv, path@, k as int),
        decreases files@.len() - k,
    {
        let name = chars_of(files[k].0.as_str());
        assert(fv[k as int].0 == files@[k as int].0@);
        if eq_exec(name.as_slice(), pv.as_slice()) {
            proof {
                assert(file_upto(fv, path@, k + 1) == fv[k as int].1);
                lemma_file_stays(fv, path@, k + 1, fv.len() as int);
            }
            return match &files[k].1 {
                Some(b) => Some(b),
                None => None,
            };
        }
        proof {
            assert forall|j: int| 0 <= j < k + 1 implies #[trigger] fv[j].0 != path@ by {
                if j < k {
                    if fv[j].0 == path@ {
                        assert(exists_file(fv, path@, k as int));
                    }
                }
            }
        }
        k = k + 1;
    }
    proof {
        lemma_file_absent(fv, path@, fv.len() as int);
    }
    None
}

proof fn lemma_file_stays(files: Seq<(Seq<char>, Option<Seq<u8>>)>, path: Seq<char>, a: int, b: int)
    requires
        0 < a <= b,
        files[a - 1].0 == path,
    ensures
        file_upto(files, path, b) == file_upto(files, path, a),
    decreases b - a,
{
    if a < b {
        lemma_file_stays(files, path, a, b - 1);
        assert(files[a - 1].0 == path);
        assert(exists_file(files, path, b - 1));
    }
}

proof fn lemma_file_absent(files: Seq<(Seq<char>, Option<Seq<u8>>)>, path: Seq<char>, n: int)
    requires
        !exists_file(files, path, n),
    ensures
        file_upto(files, path, n) is None,
    decreases n,
{
    if n > 0 {
        assert(!exists_file(files, path, n - 1)) by {
            if exists_file(files, path, n - 1) {
                let k = choose|k: int| 0 <= k < n - 1 && #[trigger] files[k].0 == path;
                assert(files[k].0 == path);
            }
        }
        lemma_file_absent(files, path, n - 1);
    }
}

/// A body as a result shows it: at most `BODY_LIMIT` bytes, as text when they are valid
/// UTF-8, with the body's full size and whether it was cut.
pub open spec fn body_of_bytes(bytes: Seq<u8>, media: Option<Seq<char>>) -> BodyView {
    let n = bytes.len();
    let shown = bytes.take(if n < BODY_LIMIT { n as int } else { BODY_LIMIT as int });
    if valid_utf8(shown) {
        BodyView { text: Some(decode_utf8(shown)), media_type: media, encoding: "utf8"@, original_bytes: n as usize, truncated: n > BODY_LIMIT }
    } else {
        BodyView { text: None, media_type: media, encoding: "binary"@, original_bytes: n as usize, truncated: n > BODY_LIMIT }
    }
}

/// The body that a report refers to by the path of a stored file.
pub open spec fn spec_read_body(
    reference: Option<JsonValue>,
    headers: Option<JsonValue>,
    files: Seq<(Seq<char>, Option<Seq<u8>>)>,
) -> Option<BodyView> {
    match jstr(reference) {
        None => None,
        Some(rel) => match file_bytes(files, rel) {
            None => None,
            Some(b) => Some(body_of_bytes(b, spec_media_type(headers))),
        },
    }
}

fn read_body(reference: Option<&JsonValue>, headers: Option<&JsonValue>, files: &Vec<(String, Option<Vec<u8>>)>) -> (r: Option<BodyContent>)
    ensures
        body_opt(r) == spec_read_body(deref(reference), deref(headers), files_view(files@)),
{
    let rel = match as_str(reference) {
        Some(s) => s,
        None => return None,
    };
    let bytes = match find_file(files, rel) {
        Some(b) => b,
        None => return None,
    };
    let n = bytes.len();
    let shown_len = if n < BODY_LIMIT { n } else { BODY_LIMIT };
    let shown = &bytes.as_slice()[0..shown_len];
    assert(shown@ =~= bytes@.take(shown_len as int));
    let mt = media_type(headers);
    match utf8_text(shown) {
        Some(text) => Some(BodyContent {
            text: Some(text),
            media_type: mt,
            encoding: "utf8".to_owned(),
            original_bytes: n,
            truncated: n > BODY_LIMIT,
        }),
        None => Some(BodyContent {
            text: None,
            media_type: mt,
            encoding: "binary".to_owned(),
            original_bytes: n,
            truncated: n > BODY_LIMIT,
        }),
    }
}

pub open spec fn ansi_escape(c: char) -> char {
    if c == 'n' {
        '\n'
    } else if c == 'r' {
        '\r'
    } else if c == 't' {
        '\t'
    } else if c == 'b' {
        '\u{8}'
    } else if c == 'f' {
        '\u{c}'
    } else {
        c
    }
}

/// The text of a `$'...'` shell string after its opening quote, up to its closing quote,
/// with `\n`, `\r`, `\t`, `\b` and `\f` decoded and any other escaped character kept;
/// none when the string does not close.
pub open spec fn spec_decode_ansi(s: Seq<char>) -> Option<Seq<char>>
    decreases s.len(),
{
    if s.len() == 0 {
        None
    } else if s[0] == '\'' {
        Some(Seq::empty())
    } else if s[0] == '\\' {
        if s.len() < 2 {
            None
        } else {
            match spec_decode_ansi(s.skip(2)) {
                Some(r) => Some(seq![ansi_escape(s[1])] + r),
                None => None,
            }
        }
    } else {
        match spec_decode_ansi(s.drop_first()) {
            Some(r) => Some(seq![s[0]] + r),
            None => None,
        }
    }
}

fn decode_ansi_chars(s: &[char]) -> (r: Option<Vec<char>>)
    ensures
        match r {
            Some(v) => spec_decode_ansi(s@) == Some(v@),
            None => spec_decode_ansi(s@) is None,
        },
{
    let mut out: Vec<char> = Vec::new();
    let mut i: usize = 0;
    assert(s@.skip(0) =~= s@);
    while i < s.len()
        invariant
            i <= s@.len(),
            match spec_decode_ansi(s@.skip(i as int)) {
                Some(rest) => spec_decode_ansi(s@) == Some(out@ + rest),
                None => spec_decode_ansi(s@) is None,
            },
        decreases s@.len() - i,
    {
        let ghost tail = s@.skip(i as int);
        assert(tail[0] == s@[i as int]);
        let c = s[i];
        if c == '\'' {
            assert(out@ + Seq::<char>::empty() =~= out@);
            return Some(out);
        } else if c == '\\' {
            if i + 1 >= s.len() {
                return None;
            }
            assert(tail[1] == s@[i + 1]);
            assert(tail.skip(2) =~= s@.skip(i + 2));
            let e = s[i + 1];
            let d = if e == 'n' {
                '\n'
            } else if e == 'r' {
                '\r'
            } else if e == 't' {
                '\t'
            } else if e == 'b' {
                '\u{8}'
            } else if e == 'f' {
                '\u{c}'
            } else {
                e
            };
            let ghost before = out@;
            out.push(d);
            proof {
                match spec_decode_ansi(s@.skip(i + 2)) {
                    Some(rest) => {
                        assert(before + (seq![ansi_escape(e)] + rest) =~= out@ + rest);
                    },
                    None => {},
                }
            }
            i = i + 2;
        } else {
            assert(tail.drop_first() =~= s@.skip(i + 1));
            let ghost before = out@;
            out.push(c);
            proof {
                match spec_decode_ansi(s@.skip(i + 1)) {
                    Some(rest) => {
                        assert(before + (seq![c] + rest) =~= out@ + rest);
                    },
                    None => {},
                }
            }
            i = i + 1;
        }
    }
    None
}

/// The text of a `$'...'` shell string after its opening quote (see `spec_decode_ansi`).
pub fn decode_ansi_c_string(input: &str) -> (r: Option<String>)
    ensures
        match r {
            Some(v) => spec_decode_ansi(input@) == Some(v@),
            None => spec_decode_ansi(input@) is None,
        },
{
    let s = chars_of(input);
    match decode_ansi_chars(s.as_slice()) {
        Some(v) => Some(string_of(v.as_slice())),
        None => None,
    }
}

/// The first word of a shell command's arguments: a `$'...'` string decoded, a `'...'`
/// string's text, or the text up to the first whitespace (none when empty).
pub open spec fn spec_shell_argument(input: Seq<char>) -> Option<Seq<char>> {
    if starts_with(input, "$'"@) {
        spec_decode_ansi(input.skip(2))
    } else if starts_with(input, "'"@) {
        let rest = input.skip(1);
        match find(rest, "'"@) {
            Some(e) => Some(rest.take(e)),
            None => None,
        }
    } else {
        let end = skip_class(input, 0, false);
        if end > 0 {
            Some(input.take(end))
        } else {
            None
        }
    }
}

fn shell_argument_chars(input: &[char]) -> (r: Option<Vec<char>>)
    ensures
        match r {
            Some(v) => spec_shell_argument(input@) == Some(v@),
            None => spec_shell_argument(input@) is None,
        },
{
    let dq = chars_of("$'");
    let q = chars_of("'");
    proof {
        reveal_strlit("$'");
        reveal_strlit("'");
    }
    if starts_with_exec(input, dq.as_slice()) {
        let rest = &input[2..input.len()];
        assert(rest@ =~= input@.skip(2));
        return decode_ansi_chars(rest);
    }
    if starts_with_exec(input, q.as_slice()) {
        let rest = &input[1..input.len()];
        assert(rest@ =~= input@.skip(1));
        return match find_from_exec(rest, q.as_slice(), 0) {
            Some(e) => {
                proof {
                    lemma_find_from_found(rest@, q@, 0);
                }
                let v = to_vec(&rest[0..e]);
                assert(v@ =~= rest@.take(e as int));
                Some(v)
            },
            None => None,
        };
    }
    let end = skip_class_exec(input, 0, false);
    if end > 0 {
        let v = to_vec(&input[0..end]);
        assert(v@ =~= input@.take(end as int));
        Some(v)
    } else {
        None
    }
}

/// The first word of a shell command's arguments (see `spec_shell_argument`).
pub fn parse_shell_argument(input: &str) -> (r: Option<String>)
    ensures
        match r {
            Some(v) => spec_shell_argument(input@) == Some(v@),
            None => spec_shell_argument(input@) is None,
        },
{
    let s = chars_of(input);
    match shell_argument_chars(s.as_slice()) {
        Some(v) => Some(string_of(v.as_slice())),
        None => None,
    }
}

/// What follows the first data flag of a cURL command: `--data-raw`, else
/// `--data-binary`, else `--data`, each with its space.
pub open spec fn data_argument(cmd: Seq<char>) -> Option<Seq<char>> {
    match find(cmd, "--data-raw "@) {
        Some(i) => Some(cmd.skip(i + 11)),
        None => match find(cmd, "--data-binary "@) {
            Some(i) => Some(cmd.skip(i + 14)),
            None => match find(cmd, "--data "@) {
                Some(i) => Some(cmd.skip(i + 7)),
                None => None,
            },
        },
    }
}

/// The request body that a report's cURL command carries inline: the first word after
/// its data flag, unless it names a file (`@...`), cut to the characters that fit in
/// `BODY_LIMIT` bytes.
pub open spec fn spec_curl_body(curl: Option<JsonValue>, headers: Option<JsonValue>) -> Option<BodyView> {
    match jstr(curl) {
        None => None,
        Some(cmd) => match data_argument(cmd) {
            None => None,
            Some(arg) => match spec_shell_argument(crate::text::trim_start(arg)) {
                None => None,
                Some(text) => if starts_with(text, "@"@) {
                    None
                } else {
                    let k = crate::text::chars_fitting(text, BODY_LIMIT as int);
                    Some(
                        BodyView {
                            text: Some(text.take(k as int)),
                            media_type: spec_media_type(headers),
                            encoding: "utf8"@,
                            original_bytes: blen(text) as usize,
                            truncated: k < text.len(),
                        },
                    )
                },
            },
        },
    }
}

/// Index just past the first occurrence of `flag` in `cmd`.
fn find_flag(cmd: &[char], flag: &str) -> (r: Option<usize>)
    ensures
        match r {
            Some(j) => find(cmd@, flag@) is Some && j == find(cmd@, flag@).unwrap() + flag@.len() && j <= cmd@.len(),
            None => find(cmd@, flag@) is None,
        },
{
    let f = chars_of(flag);
    let r = find_from_exec(cmd, f.as_slice(), 0);
    proof {
        lemma_find_from_found(cmd@, flag@, 0);
    }
    match r {
        Some(i) => {
            let _n = cmd.len();
            assert(occurs_at(cmd@, f@, i as int));
            Some(i + f.len())
        },
        None => None,
    }
}

fn read_request_body_from_curl(curl: Option<&JsonValue>, headers: Option<&JsonValue>) -> (r: Option<BodyContent>)
    ensures
        body_opt(r) == spec_curl_body(deref(curl), deref(headers)),
{
    let cmd_s = match as_str(curl) {
        Some(s) => s,
        None => return None,
    };
    let cmd = chars_of(cmd_s.as_str());
    let c = cmd.as_slice();
    proof {
        reveal_strlit("--data-raw ");
        reveal_strlit("--data-binary ");
        reveal_strlit("--data ");
        assert("--data-raw "@.len() == 11);
        assert("--data-binary "@.len() == 14);
        assert("--data "@.len() == 7);
    }
    let arg: &[char] = match find_flag(c, "--data-raw ") {
        Some(j) => &c[j..c.len()],
        None => match find_flag(c, "--data-binary ") {
            Some(j) => &c[j..c.len()],
            None => match find_flag(c, "--data ") {
                Some(j) => &c[j..c.len()],
                None => return None,
            },
        },
    };
    assert(data_argument(cmd@) == Some(arg@));
    let st = skip_class_exec(arg, 0, true);
    let trimmed = &arg[st..arg.len()];
    assert(trimmed@ =~= crate::text::trim_start(arg@));
    let text = match shell_argument_chars(trimmed) {
        Some(t) => t,
        None => return None,
    };
    let at = chars_of("@");
    if starts_with_exec(text.as_slice(), at.as_slice()) {
        return None;
    }
    let text_s = string_of(text.as_slice());
    let tv = chars_of(text_s.as_str());
    let (k, _shown) = char_floor(tv.as_slice(), BODY_LIMIT);
    let total = crate::text::byte_offset(tv.as_slice(), tv.len());
    assert(tv@.take(tv@.len() as int) =~= tv@);
    let body = to_vec(&tv.as_slice()[0..k]);
    assert(body@ =~= text@.take(k as int));
    let mt = media_type(headers);
    Some(BodyContent {
        text: Some(string_of(body.as_slice())),
        media_type: mt,
        encoding: "utf8".to_owned(),
        original_bytes: total,
        truncated: k < tv.len(),
    })
}

pub open spec fn sat_sub(a: u64, b: u64) -> u64 {
    if a >= b {
        (a - b) as u64
    } else {
        0
    }
}

pub open spec fn or_u64(o: Option<u64>, d: u64) -> u64 {
    match o {
        Some(x) => x,
        None => d,
    }
}

/// The phases of a call, in milliseconds, from its timings in microseconds: each missing
/// phase mark falls back to the one before it; none without a total.
pub open spec fn spec_timings(v: Option<JsonValue>) -> Option<HttpTimings> {
    match ju64(jget(v, "total"@)) {
        None => None,
        Some(total) => {
            let nl = or_u64(ju64(jget(v, "name_lookup"@)), 0);
            let connect = or_u64(ju64(jget(v, "connect"@)), nl);
            let app = or_u64(ju64(jget(v, "app_connect"@)), connect);
            let st = or_u64(ju64(jget(v, "start_transfer"@)), app);
            let top = if app >= connect { app } else { connect };
            Some(
                HttpTimings {
                    dns_ms: nl / 1000,
                    tcp_ms: sat_sub(connect, nl) / 1000,
                    tls_ms: sat_sub(app, connect) / 1000,
                    ttfb_ms: sat_sub(st, top) / 1000,
                    download_ms: sat_sub(total, st) / 1000,
                    total_ms: total / 1000,
                },
            )
        },
    }
}

fn parse_http_timings(v: Option<&JsonValue>) -> (r: Option<HttpTimings>)
    ensures
        r == spec_timings(deref(v)),
{
    let total = match as_u64(get(v, "total")) {
        Some(t) => t,
        None => return None,
    };
    let nl = match as_u64(get(v, "name_lookup")) {
        Some(x) => x,
        None => 0,
    };
    let connect = match as_u64(get(v, "connect")) {
        Some(x) => x,
        None => nl,
    };
    let app = match as_u64(get(v, "app_connect")) {
        Some(x) => x,
        None => connect,
    };
    let st = match as_u64(get(v, "start_transfer")) {
        Some(x) => x,
        None => app,
    };
    let top = if app >= connect { app } else { connect };
    Some(
        HttpTimings {
            dns_ms: nl / 1000,
            tcp_ms: connect.saturating_sub(nl) / 1000,
            tls_ms: app.saturating_sub(connect) / 1000,
            ttfb_ms: st.saturating_sub(top) / 1000,
            download_ms: total.saturating_sub(st) / 1000,
            total_ms: total / 1000,
        },
    )
}

/// The request of a call, its body read from the stored file or else from the entry's
/// cURL command.
pub open spec fn spec_request(entry: JsonValue, call: JsonValue, files: Seq<(Seq<char>, Option<Seq<u8>>)>) -> RequestView {
    let req = jget(Some(call), "request"@);
    RequestView {
        method: or_empty(jstr(jget(req, "method"@))),
        url: or_empty(jstr(jget(req, "url"@))),
        headers: spec_headers(jget(req, "headers"@)),
        body: match spec_read_body(jget(req, "body"@), jget(req, "headers"@), files) {
            Some(b) => Some(b),
            None => spec_curl_body(jget(Some(entry), "curl_cmd"@), jget(req, "headers"@)),
        },
    }
}

pub open spec fn spec_response(resp: JsonValue, files: Seq<(Seq<char>, Option<Seq<u8>>)>) -> ResponseView {
    let r = Some(resp);
    ResponseView {
        version: jstr(jget(r, "http_version"@)),
        status: match ju64(jget(r, "status"@)) {
            Some(v) => Some(v as u16),
            None => None,
        },
        headers: spec_headers(jget(r, "headers"@)),
        body: spec_read_body(jget(r, "body"@), jget(r, "headers"@), files),
    }
}

/// One call of an entry as an exchange: request, response, duration and phases.
pub open spec fn spec_exchange(entry: JsonValue, call: JsonValue, files: Seq<(Seq<char>, Option<Seq<u8>>)>) -> ExchangeView {
    let t = jget(Some(call), "timings"@);
    ExchangeView {
        request: spec_request(entry, call, files),
        response: match jget(Some(call), "response"@) {
            Some(r) => Some(spec_response(r, files)),
            None => None,
        },
        duration_ms: match ju64(jget(t, "total"@)) {
            Some(m) => Some(m / 1000),
            None => None,
        },
        timings: spec_timings(t),
    }
}

pub open spec fn failed_of(a: JsonValue) -> FailedView {
    FailedView {
        message: match jstr(jget(Some(a), "message"@)) {
            Some(m) => m,
            None => "Assertion failed"@,
        },
        line: match ju64(jget(Some(a), "line"@)) {
            Some(l) => Some(sat_sub(l, 1) as u32),
            None => None,
        },
    }
}

/// The assertions of an entry that did not succeed, in order.
pub open spec fn entry_failures(entry: JsonValue) -> Seq<FailedView> {
    jarr(jget(Some(entry), "asserts"@)).filter(|a: JsonValue| jbool(jget(Some(a), "success"@)) == Some(false)).map_values(
        |a: JsonValue| failed_of(a),
    )
}

pub open spec fn begin_of(call: JsonValue) -> Seq<char> {
    or_empty(jstr(jget(jget(Some(call), "timings"@), "begin_call"@)))
}

/// The start time: the first non-empty call start among the first `k` calls, after `s`.
pub open spec fn first_begin(calls: Seq<JsonValue>, s: Seq<char>, k: int) -> Seq<char>
    decreases k,
{
    if k <= 0 {
        s
    } else {
        let prev = first_begin(calls, s, k - 1);
        if prev.len() == 0 {
            begin_of(calls[k - 1])
        } else {
            prev
        }
    }
}

/// What the first `k` entries give: their exchanges, failed assertions, and start time.
pub open spec fn entries_fold(entries: Seq<JsonValue>, files: Seq<(Seq<char>, Option<Seq<u8>>)>, k: int) -> (
    Seq<ExchangeView>,
    Seq<FailedView>,
    Seq<char>,
)
    decreases k,
{
    if k <= 0 {
        (Seq::empty(), Seq::empty(), Seq::empty())
    } else {
        let (xs, fs, st) = entries_fold(entries, files, k - 1);
        let e = entries[k - 1];
        let calls = jarr(jget(Some(e), "calls"@));
        (
            xs + calls.map_values(|c: JsonValue| spec_exchange(e, c, files)),
            fs + entry_failures(e),
            first_begin(calls, st, calls.len() as int),
        )
    }
}

/// The calls of the first `k` entries, entry after entry, each entry's calls in order.
pub open spec fn calls_upto(entries: Seq<JsonValue>, k: int) -> Seq<JsonValue>
    decreases k,
{
    if k <= 0 {
        Seq::empty()
    } else {
        calls_upto(entries, k - 1) + jarr(jget(Some(entries[k - 1]), "calls"@))
    }
}

/// Call `i` is the first of `cs` that has a start time.
pub open spec fn first_started(cs: Seq<JsonValue>, i: int) -> bool {
    &&& 0 <= i < cs.len()
    &&& begin_of(cs[i]).len() > 0
    &&& forall|j: int| 0 <= j < i ==> begin_of(#[trigger] cs[j]).len() == 0
}

proof fn lemma_first_begin(calls: Seq<JsonValue>, s: Seq<char>, k: int)
    requires
        0 <= k <= calls.len(),
    ensures
        s.len() > 0 ==> first_begin(calls, s, k) == s,
        s.len() == 0 ==> {
            &&& (forall|i: int| 0 <= i < k ==> begin_of(#[trigger] calls[i]).len() == 0) ==> first_begin(calls, s, k).len() == 0
            &&& forall|i: int| first_started(calls.take(k), i) ==> first_begin(calls, s, k) == begin_of(calls[i])
        },
    decreases k,
{
    if k > 0 {
        lemma_first_begin(calls, s, k - 1);
        if s.len() == 0 {
            assert forall|i: int| first_started(calls.take(k), i) implies first_begin(calls, s, k) == begin_of(calls[i]) by {
                assert(calls.take(k)[i] == calls[i]);
                if i < k - 1 {
                    assert(first_started(calls.take(k - 1), i)) by {
                        assert forall|j: int| 0 <= j < i implies begin_of(#[trigger] calls.take(k - 1)[j]).len() == 0 by {
                            assert(calls.take(k)[j] == calls.take(k - 1)[j]);
                        }
                    }
                } else {
                    assert forall|j: int| 0 <= j < k - 1 implies begin_of(#[trigger] calls[j]).len() == 0 by {
                        assert(calls.take(k)[j] == calls[j]);
                    }
                }
            }
        }
    }
}

proof fn lemma_fold_start(entries: Seq<JsonValue>, files: Seq<(Seq<char>, Option<Seq<u8>>)>, k: int)
    requires
        0 <= k <= entries.len(),
    ensures
        ({
            let st = entries_fold(entries, files, k).2;
            let cs = calls_upto(entries, k);
            &&& (forall|i: int| 0 <= i < cs.len() ==> begin_of(#[trigger] cs[i]).len() == 0) ==> st.len() == 0
            &&& forall|i: int| first_started(cs, i) ==> st == begin_of(cs[i])
        }),
    decreases k,
{
    if k > 0 {
        lemma_fold_start(entries, files, k - 1);
        let st0 = entries_fold(entries, files, k - 1).2;
        let cs0 = calls_upto(entries, k - 1);
        let calls = jarr(jget(Some(entries[k - 1]), "calls"@));
        let cs = calls_upto(entries, k);
        assert(cs == cs0 + calls);
        lemma_first_begin(calls, st0, calls.len() as int);
        assert(calls.take(calls.len() as int) =~= calls);
        let st = entries_fold(entries, files, k).2;
        assert(st == first_begin(calls, st0, calls.len() as int));
        if forall|i: int| 0 <= i < cs.len() ==> begin_of(#[trigger] cs[i]).len() == 0 {
            assert forall|i: int| 0 <= i < cs0.len() implies begin_of(#[trigger] cs0[i]).len() == 0 by {
                assert(cs[i] == cs0[i]);
            }
            assert forall|i: int| 0 <= i < calls.len() implies begin_of(#[trigger] calls[i]).len() == 0 by {
                assert(cs[cs0.len() + i] == calls[i]);
            }
        }
        assert forall|i: int| first_started(cs, i) implies st == begin_of(cs[i]) by {
            if i < cs0.len() {
                assert(cs[i] == cs0[i]);
                assert(first_started(cs0, i)) by {
                    assert forall|j: int| 0 <= j < i implies begin_of(#[trigger] cs0[j]).len() == 0 by {
                        assert(cs[j] == cs0[j]);
                    }
                }
            } else {
                let c = i - cs0.len();
                assert(cs[i] == calls[c]);
                assert forall|j: int| 0 <= j < cs0.len() implies begin_of(#[trigger] cs0[j]).len() == 0 by {
                    assert(cs[j] == cs0[j]);
                }
                assert(first_started(calls.take(calls.len() as int), c)) by {
                    assert forall|j: int| 0 <= j < c implies begin_of(#[trigger] calls.take(calls.len() as int)[j]).len() == 0 by {
                        assert(cs[cs0.len() + j] == calls[j]);
                    }
                }
            }
        }
    }
}

/// A run's start time is the start of the first call (entry after entry, call after call)
/// that has one, or `unknown` when no call has one; no later call changes it.
pub proof fn law_started_at_is_first_call_start(
    ctx: RunResultContext,
    root: JsonValue,
    files: Seq<(Seq<char>, Option<Seq<u8>>)>,
    stdout: Seq<char>,
    stderr: Seq<char>,
)
    requires
        file_result(root) is Some,
    ensures
        ({
            let entries = jarr(jget(Some(file_result(root).unwrap()), "entries"@));
            let cs = calls_upto(entries, entries.len() as int);
            let r = spec_report_result(ctx, Some(root), files, stdout, stderr);
            &&& (forall|i: int| 0 <= i < cs.len() ==> begin_of(#[trigger] cs[i]).len() == 0) ==> r.started_at == "unknown"@
            &&& forall|i: int| first_started(cs, i) ==> r.started_at == begin_of(cs[i])
        }),
{
    let entries = jarr(jget(Some(file_result(root).unwrap()), "entries"@));
    lemma_fold_start(entries, files, entries.len() as int);
}

/// The file result of a report: the first item of an array, or the report itself when
/// it is an object.
pub open spec fn file_result(root: JsonValue) -> Option<JsonValue> {
    match root {
        JsonValue::Array(a) => if a@.len() > 0 {
            Some(a@[0])
        } else {
            None
        },
        JsonValue::Object(_) => Some(root),
        _ => None,
    }
}

/// What the run says before its report is read.
pub open spec fn base_result(ctx: RunResultContext, stdout: Seq<char>, stderr: Seq<char>) -> ResultView {
    ResultView {
        task_id: None,
        uri: ctx.uri@,
        document_version: ctx.document_version,
        entry_line: ctx.entry_line,
        target: target_name(ctx.target),
        success: ctx.success,
        exit_code: ctx.exit_code,
        started_at: Seq::empty(),
        duration_ms: None,
        profile_name: None,
        profile_sources: Seq::empty(),
        phase_timings: None,
        exchanges: Seq::empty(),
        failed_assertions: Seq::empty(),
        stdout,
        stderr,
        parse_warning: None,
    }
}

pub open spec fn unavailable_warning() -> Seq<char> {
    "Hurl JSON report was unavailable or invalid; showing raw output."@
}

pub open spec fn no_file_warning() -> Seq<char> {
    "Hurl JSON report did not contain a file result."@
}

/// The result of a run, given its report (if it was read and is JSON), the stored files
/// the report may refer to, and its output: without a report or a file result, the raw
/// output and a warning; otherwise the file's duration, each call of each entry as an
/// exchange, the failed assertions, and the first call's start time (`unknown` if none).
pub open spec fn spec_report_result(
    ctx: RunResultContext,
    report: Option<JsonValue>,
    files: Seq<(Seq<char>, Option<Seq<u8>>)>,
    stdout: Seq<char>,
    stderr: Seq<char>,
) -> ResultView {
    let base = base_result(ctx, stdout, stderr);
    match report {
        None => ResultView { parse_warning: Some(unavailable_warning()), ..base },
        Some(root) => match file_result(root) {
            None => ResultView { parse_warning: Some(no_file_warning()), ..base },
            Some(file) => {
                let entries = jarr(jget(Some(file), "entries"@));
                let (xs, fs, st) = entries_fold(entries, files, entries.len() as int);
                ResultView {
                    duration_ms: ju64(jget(Some(file), "time"@)),
                    exchanges: xs,
                    failed_assertions: fs,
                    started_at: if st.len() == 0 { "unknown"@ } else { st },
                    ..base
                }
            },
        },
    }
}

/// A result without its exchanges, failed assertions and start time.
pub open spec fn frame_of(r: ResultView) -> ResultView {
    ResultView { exchanges: Seq::empty(), failed_assertions: Seq::empty(), started_at: Seq::empty(), ..r }
}

/// What a run's report is read with: the document it ran, the target, and how it ended.
#[derive(Clone, Debug)]
pub struct RunResultContext {
    pub uri: String,
    pub document_version: i32,
    pub entry_line: u32,
    pub target: RunTarget,
    pub success: bool,
    pub exit_code: Option<i32>,
}

fn exchange_of(entry: &JsonValue, call: &JsonValue, files: &Vec<(String, Option<Vec<u8>>)>) -> (r: HttpExchange)
    ensures
        exchange_view(r) == spec_exchange(*entry, *call, files_view(files@)),
{
    let req = get(Some(call), "request");
    let headers = get(req, "headers");
    let body = match read_body(get(req, "body"), headers, files) {
        Some(b) => Some(b),
        None => read_request_body_from_curl(get(Some(entry), "curl_cmd"), headers),
    };
    let request = HttpRequestData {
        method: str_or_empty(get(req, "method")),
        url: str_or_empty(get(req, "url")),
        headers: parse_headers(headers),
        body,
    };
    let response = match get(Some(call), "response") {
        Some(resp) => {
            let r = Some(resp);
            let version = match as_str(get(r, "http_version")) {
                Some(s) => Some(s.clone()),
                None => None,
            };
            #[verifier::truncate]
            let status = match as_u64(get(r, "status")) {
                Some(v) => Some(v as u16),
                None => None,
            };
            Some(HttpResponseData {
                version,
                status,
                headers: parse_headers(get(r, "headers")),
                body: read_body(get(r, "body"), get(r, "headers"), files),
            })
        },
        None => None,
    };
    let t = get(Some(call), "timings");
    let duration_ms = match as_u64(get(t, "total")) {
        Some(m) => Some(m / 1000),
        None => None,
    };
    HttpExchange { request, response, duration_ms, timings: parse_http_timings(t) }
}

fn entry_failed(entry: &JsonValue, out: &mut Vec<FailedAssertion>)
    ensures
        faileds_view(final(out)@) == faileds_view(old(out)@) + entry_failures(*entry),
{
    let asserts = items(get(Some(entry), "asserts"));
    let ghost pred = |a: JsonValue| jbool(jget(Some(a), "success"@)) == Some(false);
    let ghost start = faileds_view(out@);
    let mut k: usize = 0;
    assert(asserts@.take(0).filter(pred) =~= Seq::<JsonValue>::empty());
    assert(start + Seq::<FailedView>::empty() =~= start);
    while k < asserts.len()
        invariant
            k <= asserts@.len(),
            asserts@ == jarr(jget(Some(*entry), "asserts"@)),
            pred == (|a: JsonValue| jbool(jget(Some(a), "success"@)) == Some(false)),
            faileds_view(out@) == start + asserts@.take(k as int).filter(pred).map_values(|a: JsonValue| failed_of(a)),
        decreases asserts@.len() - k,
    {
        let a = &asserts[k];
        proof {
            assert(asserts@.take(k + 1) =~= asserts@.take(k as int).push(asserts@[k as int]));
            asserts@.take(k as int).lemma_filter_push(asserts@[k as int], pred);
        }
        let ghost before = out@;
        if as_bool(get(Some(a), "success")) == Some(false) {
            let message = match as_str(get(Some(a), "message")) {
                Some(m) => m.clone(),
                None => "Assertion failed".to_owned(),
            };
            #[verifier::truncate]
            let line = match as_u64(get(Some(a), "line")) {
                Some(l) => Some(l.saturating_sub(1) as u32),
                None => None,
            };
            let f = FailedAssertion { message, line };
            out.push(f);
            proof {
                assert(faileds_view(out@) =~= faileds_view(before).push(failed_view(f)));
                assert(asserts@.take(k as int).filter(pred).push(asserts@[k as int]).map_values(|a: JsonValue| failed_of(a))
                    =~= asserts@.take(k as int).filter(pred).map_values(|a: JsonValue| failed_of(a)).push(failed_of(asserts@[k as int])));
            }
        }
        k = k + 1;
    }
    assert(asserts@.take(k as int) =~= asserts@);
}

/// The result of a run, given its report if it is JSON, the stored files that the report
/// may refer to, and the run's output as text.
pub fn report_result(
    context: &RunResultContext,
    report: Option<JsonValue>,
    files: &Vec<(String, Option<Vec<u8>>)>,
    stdout: String,
    stderr: String,
) -> (r: RunResult)
    ensures
        result_view(r) == spec_report_result(*context, report, files_view(files@), stdout@, stderr@),
{
    let ghost fv = files_view(files@);
    let mut result = RunResult {
        task_id: None,
        uri: context.uri.clone(),
        document_version: context.document_version,
        entry_line: context.entry_line,
        target: context.target.as_str().to_owned(),
        success: context.success,
        exit_code: context.exit_code,
        started_at: String::new(),
        duration_ms: None,
        profile_name: None,
        profile_sources: Vec::new(),
        phase_timings: None,
        exchanges: Vec::new(),
        failed_assertions: Vec::new(),
        stdout,
        stderr,
        parse_warning: None,
    };
    let ghost base = base_result(*context, result.stdout@, result.stderr@);
    proof {
        assert(result.profile_sources@.map_values(|s: String| s@) =~= Seq::<Seq<char>>::empty());
        assert(exchanges_view(result.exchanges@) =~= Seq::<ExchangeView>::empty());
        assert(faileds_view(result.failed_assertions@) =~= Seq::<FailedView>::empty());
    }
    assert(result_view(result) == base);
    let root = match &report {
        Some(root) => root,
        None => {
            result.parse_warning = Some("Hurl JSON report was unavailable or invalid; showing raw output.".to_owned());
            return result;
        },
    };
    let file: &JsonValue = match root {
        JsonValue::Array(a) => {
            if a.len() > 0 {
                &a[0]
            } else {
                result.parse_warning = Some("Hurl JSON report did not contain a file result.".to_owned());
                return result;
            }
        },
        JsonValue::Object(_) => root,
        _ => {
            result.parse_warning = Some("Hurl JSON report did not contain a file result.".to_owned());
            return result;
        },
    };
    assert(file_result(*root) == Some(*file));
    result.duration_ms = as_u64(get(Some(file), "time"));
    let entries = items(get(Some(file), "entries"));
    let mut started: Vec<char> = Vec::new();
    let ghost frame = frame_of(result_view(result));
    assert(frame == frame_of(ResultView { duration_ms: ju64(jget(Some(*file), "time"@)), ..base }));
    assert(exchanges_view(result.exchanges@) =~= Seq::<ExchangeView>::empty());
    let mut k: usize = 0;
    while k < entries.len()
        invariant
            k <= entries@.len(),
            fv == files_view(files@),
            frame_of(result_view(result)) == frame,
            entries@ == jarr(jget(Some(*file), "entries"@)),
            ({
                let (xs, fs, st) = entries_fold(entries@, fv, k as int);
                &&& exchanges_view(result.exchanges@) == xs
                &&& faileds_view(result.failed_assertions@) == fs
                &&& started@ == st
            }),
        decreases entries@.len() - k,
    {
        let e = &entries[k];
        let ghost fold0 = entries_fold(entries@, fv, k as int);
        entry_failed(e, &mut result.failed_assertions);
        let calls = items(get(Some(e), "calls"));
        let ghost xs0 = exchanges_view(result.exchanges@);
        let ghost fs1 = faileds_view(result.failed_assertions@);
        let ghost st0 = started@;
        assert(frame_of(result_view(result)) == frame);
        assert(calls@.take(0).map_values(|c: JsonValue| spec_exchange(*e, c, fv)) =~= Seq::<ExchangeView>::empty());
        assert(xs0 + Seq::<ExchangeView>::empty() =~= xs0);
        let mut j: usize = 0;
        while j < calls.len()
            invariant
                j <= calls@.len(),
                fv == files_view(files@),
                frame_of(result_view(result)) == frame,
                faileds_view(result.failed_assertions@) == fs1,
                calls@ == jarr(jget(Some(*e), "calls"@)),
                exchanges_view(result.exchanges@) == xs0 + calls@.take(j as int).map_values(
                    |c: JsonValue| spec_exchange(*e, c, fv),
                ),
                started@ == first_begin(calls@, st0, j as int),
            decreases calls@.len() - j,
        {
            let c = &calls[j];
            if started.len() == 0 {
                let b = str_or_empty(get(get(Some(c), "timings"), "begin_call"));
                started = chars_of(b.as_str());
            }
            let x = exchange_of(e, c, files);
            let ghost before = result.exchanges@;
            result.exchanges.push(x);
            proof {
                assert(exchanges_view(result.exchanges@) =~= exchanges_view(before).push(exchange_view(x)));
                assert(calls@.take(j + 1).map_values(|c: JsonValue| spec_exchange(*e, c, fv)) =~= calls@.take(
                    j as int,
                ).map_values(|c: JsonValue| spec_exchange(*e, c, fv)).push(spec_exchange(*e, calls@[j as int], fv)));
            }
            j = j + 1;
        }
        proof {
            assert(calls@.take(j as int) =~= calls@);
            assert(entries@[k as int] == *e);
            assert(entries_fold(entries@, fv, k + 1) == (
                fold0.0 + calls@.map_values(|c: JsonValue| spec_exchange(*e, c, fv)),
                fold0.1 + entry_failures(*e),
                first_begin(calls@, fold0.2, calls@.len() as int),
            ));
        }
        k = k + 1;
    }
    if started.len() == 0 {
        result.started_at = "unknown".to_owned();
    } else {
        result.started_at = string_of(started.as_slice());
    }
    result
}

/// A run's output as text: valid UTF-8 decoded as it is, other bytes as
/// `String::from_utf8_lossy` makes them.
pub open spec fn output_text(bytes: Seq<u8>) -> Seq<char> {
    if valid_utf8(bytes) {
        decode_utf8(bytes)
    } else {
        lossy_text(bytes)
    }
}

/// The result of a run from its report file's bytes (if it could be read), the stored
/// files the report refers to, and the bytes of its standard output and error (valid
/// UTF-8 read as it is).
pub fn parse_hurl_report_result(
    context: &RunResultContext,
    report: Option<Vec<u8>>,
    files: &Vec<(String, Option<Vec<u8>>)>,
    stdout: &[u8],
    stderr: &[u8],
) -> (r: RunResult)
    ensures
        result_view(r) == spec_report_result(
            *context,
            match report {
                Some(b) => json_of(b@),
                None => None,
            },
            files_view(files@),
            output_text(stdout@),
            output_text(stderr@),
        ),
{
    let stdout_text = utf8_lossy(stdout);
    let stderr_text = utf8_lossy(stderr);
    let parsed = match &report {
        Some(b) => parse_json(b.as_slice()),
        None => None,
    };
    report_result(context, parsed, files, stdout_text, stderr_text)
}

/// The stored files that a report refers to, in the order in which its calls name them:
/// the request and response body paths.
pub open spec fn call_refs(call: JsonValue) -> Seq<Seq<char>> {
    let req = jget(Some(call), "request"@);
    let resp = jget(Some(call), "response"@);
    (match jstr(jget(req, "body"@)) {
        Some(p) => seq![p],
        None => Seq::empty(),
    }) + (match jstr(jget(resp, "body"@)) {
        Some(p) => seq![p],
        None => Seq::empty(),
    })
}

pub open spec fn calls_refs(calls: Seq<JsonValue>, k: int) -> Seq<Seq<char>>
    decreases k,
{
    if k <= 0 {
        Seq::empty()
    } else {
        calls_refs(calls, k - 1) + call_refs(calls[k - 1])
    }
}

pub open spec fn entries_refs(entries: Seq<JsonValue>, k: int) -> Seq<Seq<char>>
    decreases k,
{
    if k <= 0 {
        Seq::empty()
    } else {
        let calls = jarr(jget(Some(entries[k - 1]), "calls"@));
        entries_refs(entries, k - 1) + calls_refs(calls, calls.len() as int)
    }
}

/// The body files that a report refers to, in order.
pub open spec fn spec_body_paths(report: Option<JsonValue>) -> Seq<Seq<char>> {
    match report {
        None => Seq::empty(),
        Some(root) => match file_result(root) {
            None => Seq::empty(),
            Some(file) => {
                let entries = jarr(jget(Some(file), "entries"@));
                entries_refs(entries, entries.len() as int)
            },
        },
    }
}

fn push_ref(out: &mut Vec<String>, v: Option<&JsonValue>)
    ensures
        final(out)@.map_values(|s: String| s@) == old(out)@.map_values(|s: String| s@) + match jstr(deref(v)) {
            Some(p) => seq![p],
            None => Seq::empty(),
        },
{
    let ghost before = out@;
    match as_str(v) {
        Some(p) => {
            out.push(p.clone());
            assert(out@.map_values(|s: String| s@) =~= before.map_values(|s: String| s@) + seq![p@]);
        },
        None => {
            assert(out@.map_values(|s: String| s@) =~= before.map_values(|s: String| s@) + Seq::<Seq<char>>::empty());
        },
    }
}

/// The relative paths of the stored body files that a report's calls name, request body
/// before response body, call by call: the files to read before the report is.
pub fn report_body_paths(report: &[u8]) -> (r: Vec<String>)
    ensures
        r@.map_values(|s: String| s@) == spec_body_paths(json_of(report@)),
{
    let parsed = parse_json(report);
    let mut out: Vec<String> = Vec::new();
    assert(out@.map_values(|s: String| s@) =~= Seq::<Seq<char>>::empty());
    let root = match &parsed {
        Some(root) => root,
        None => return out,
    };
    let file: &JsonValue = match root {
        JsonValue::Array(a) => {
            if a.len() > 0 {
                &a[0]
            } else {
                return out;
            }
        },
        JsonValue::Object(_) => root,
        _ => return out,
    };
    assert(file_result(*root) == Some(*file));
    let entries = items(get(Some(file), "entries"));
    let mut k: usize = 0;
    while k < entries.len()
        invariant
            k <= entries@.len(),
            out@.map_values(|s: String| s@) == entries_refs(entries@, k as int),
        decreases entries@.len() - k,
    {
        let calls = items(get(Some(&entries[k]), "calls"));
        let ghost base = out@.map_values(|s: String| s@);
        let mut j: usize = 0;
        while j < calls.len()
            invariant
                j <= calls@.len(),
                out@.map_values(|s: String| s@) == base + calls_refs(calls@, j as int),
            decreases calls@.len() - j,
        {
            let req = get(Some(&calls[j]), "request");
            let resp = get(Some(&calls[j]), "response");
            push_ref(&mut out, get(req, "body"));
            push_ref(&mut out, get(resp, "body"));
            assert(out@.map_values(|s: String| s@) =~= base + calls_refs(calls@, j + 1));
            j = j + 1;
        }
        assert(entries@[k as int] == entries[k as int]);
        assert(out@.map_values(|s: String| s@) =~= entries_refs(entries@, k + 1));
        k = k + 1;
    }
    out
}

} // verus!
