//! Hover documentation for sections, assert functions and methods.
use vstd::prelude::*;
use crate::lsp::Position;
use crate::syntax::eq_lit;
use crate::text::{
    back_word, back_word_exec, blen, char_floor, chars_fitting, chars_of, fwd_word, fwd_word_exec, line_ranges,
    lines, push_all, push_str, skip_class, skip_class_exec, string_of, trim, trim_range, trim_start,
};

verus! {

/// Hover content: Markdown text.
#[derive(Clone, Debug)]
pub struct Hover {
    pub contents: String,
}

/// The documented word under the cursor: a whole bracketed line, or the run of
/// characters between ASCII whitespace around byte `character`.
pub open spec fn token_at(line: Seq<char>, character: int) -> Option<Seq<char>> {
    let ts = trim_start(line);
    if ts.len() > 0 && ts[0] == '[' {
        Some(trim(line))
    } else {
        let idx = if character < blen(line) { character } else { blen(line) as int };
        let lo = chars_fitting(line, idx) as int;
        let hi = if blen(line.take(lo)) < idx { lo + 1 } else { lo };
        let s = back_word(line, hi);
        let e = fwd_word(line, lo);
        if s == e { None } else { Some(line.subrange(s, e)) }
    }
}

/// The documentation of a word, first among sections, then assert functions, then methods.
pub open spec fn hover_doc(t: Seq<char>) -> Option<Seq<char>> {
    if t == "[Headers]"@ { Some("HTTP request headers."@) }
    else if t == "[Asserts]"@ { Some("Assertions evaluated against the response."@) }
    else if t == "[Captures]"@ { Some("Values extracted from the response for later reuse."@) }
    else if t == "[Options]"@ { Some("Request execution options."@) }
    else if t == "jsonpath"@ { Some("Evaluate a JSONPath expression against the response body."@) }
    else if t == "xpath"@ { Some("Evaluate an XPath expression against the response body."@) }
    else if t == "regex"@ { Some("Assert with a regular expression."@) }
    else if t == "status"@ { Some("Assert against the HTTP status code."@) }
    else if t == "duration"@ { Some("Assert against total request duration in milliseconds."@) }
    else if t == "GET"@ { Some("Retrieve a representation of a resource."@) }
    else if t == "POST"@ { Some("Submit data to create or trigger a resource."@) }
    else if t == "PUT"@ { Some("Replace a resource with the provided payload."@) }
    else if t == "PATCH"@ { Some("Partially update a resource."@) }
    else if t == "DELETE"@ { Some("Delete a resource."@) }
    else { None }
}

/// The hover text at a position: the word in bold, then its documentation.
pub open spec fn spec_hover(text: Seq<char>, p: Position) -> Option<Seq<char>> {
    let ls = lines(text);
    if (p.line as int) < ls.len() {
        match token_at(ls[p.line as int], p.character as int) {
            Some(t) => match hover_doc(t) {
                Some(d) => Some("**"@ + t + "**\n\n"@ + d),
                None => None,
            },
            None => None,
        }
    } else {
        None
    }
}

fn doc_of(t: &[char]) -> (r: Option<&'static str>)
    ensures
        r is Some <==> hover_doc(t@) is Some,
        r matches Some(d) ==> hover_doc(t@) == Some(d@),
{
    if eq_lit(t, "[Headers]") { Some("HTTP request headers.") }
    else if eq_lit(t, "[Asserts]") { Some("Assertions evaluated against the response.") }
    else if eq_lit(t, "[Captures]") { Some("Values extracted from the response for later reuse.") }
    else if eq_lit(t, "[Options]") { Some("Request execution options.") }
    else if eq_lit(t, "jsonpath") { Some("Evaluate a JSONPath expression against the response body.") }
    else if eq_lit(t, "xpath") { Some("Evaluate an XPath expression against the response body.") }
    else if eq_lit(t, "regex") { Some("Assert with a regular expression.") }
    else if eq_lit(t, "status") { Some("Assert against the HTTP status code.") }
    else if eq_lit(t, "duration") { Some("Assert against total request duration in milliseconds.") }
    else if eq_lit(t, "GET") { Some("Retrieve a representation of a resource.") }
    else if eq_lit(t, "POST") { Some("Submit data to create or trigger a resource.") }
    else if eq_lit(t, "PUT") { Some("Replace a resource with the provided payload.") }
    else if eq_lit(t, "PATCH") { Some("Partially update a resource.") }
    else if eq_lit(t, "DELETE") { Some("Delete a resource.") }
    else { None }
}

/// The range of the word at byte `character` of `line`.
pub fn token_range(line: &[char], character: usize) -> (r: Option<(usize, usize)>)
    requires
        blen(line@) <= usize::MAX,
    ensures
        r is Some <==> token_at(line@, character as int) is Some,
        r matches Some(p) ==> p.0 <= p.1 <= line@.len() && token_at(line@, character as int) == Some(line@.subrange(p.0 as int, p.1 as int)),
{
    let lead = skip_class_exec(line, 0, true);
    assert(line@.skip(lead as int) == trim_start(line@));
    if lead < line.len() && line[lead] == '[' {
        let (a, b) = trim_range(line);
        return Some((a, b));
    }
    let total = byte_offset_all(line);
    let idx = if character < total { character } else { total };
    let (lo, acc) = char_floor(line, idx);
    proof {
        if acc < idx {
            assert(lo < line@.len()) by {
                if lo == line@.len() {
                    assert(line@.take(lo as int) =~= line@);
                }
            }
        }
    }
    let hi = if acc < idx { lo + 1 } else { lo };
    let s = back_word_exec(line, hi);
    let e = fwd_word_exec(line, lo);
    if s == e {
        None
    } else {
        proof {
            crate::text::lemma_back_word_le(line@, hi as int);
        }
        if s > e {
            proof {
                lemma_word_order(line@, lo as int, hi as int);
            }
        }
        Some((s, e))
    }
}

pub proof fn lemma_word_order(s: Seq<char>, lo: int, hi: int)
    requires
        0 <= lo <= hi <= lo + 1,
        hi <= s.len(),
        hi == lo + 1 ==> !crate::text::is_ascii_ws(s[lo]),
    ensures
        back_word(s, hi) <= fwd_word(s, lo),
{
    crate::text::lemma_back_word_le(s, hi);
    crate::text::lemma_fwd_word_ge(s, lo);
    if hi == lo + 1 {
        crate::text::lemma_fwd_word_ge(s, lo + 1);
    }
}

fn byte_offset_all(s: &[char]) -> (r: usize)
    requires
        blen(s@) <= usize::MAX,
    ensures
        r as nat == blen(s@),
{
    let r = crate::text::byte_offset(s, s.len());
    assert(s@.take(s@.len() as int) =~= s@);
    r
}

/// Documentation of the section, assert function or method under the cursor.
pub fn hover(text: &str, p: Position) -> (r: Option<Hover>)
    ensures
        r is Some <==> spec_hover(text@, p) is Some,
        r matches Some(h) ==> spec_hover(text@, p) == Some(h.contents@),
{
    let t = chars_of(text);
    let lr = line_ranges(t.as_slice());
    let li = p.line as usize;
    if li >= lr.len() {
        return None;
    }
    let (la, lb) = lr[li];
    let line = &t.as_slice()[la..lb];
    assert(line@ == lines(text@)[li as int]);
    proof {
        crate::text::lemma_blen_subrange(t@, la as int, lb as int);
    }
    let (a, b) = match token_range(line, p.character as usize) {
        Some(r) => r,
        None => return None,
    };
    let token = &line[a..b];
    let doc = match doc_of(token) {
        Some(d) => d,
        None => return None,
    };
    let mut v: Vec<char> = Vec::new();
    push_str(&mut v, "**");
    push_all(&mut v, token);
    push_str(&mut v, "**\n\n");
    push_str(&mut v, doc);
    Some(Hover { contents: string_of(v.as_slice()) })
}

} // verus!
