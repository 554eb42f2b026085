//! The open documents of the server, and the edit that reformats one of them.
use vstd::prelude::*;
use crate::lsp::{pos, position, range, Position, Range};
use crate::text::chars_of;

verus! {

#[verifier::external_type_specification]
#[verifier::external_body]
#[verifier::reject_recursive_types(K)]
#[verifier::reject_recursive_types(V)]
#[verifier::reject_recursive_types(S)]
pub struct ExDashMap<K, V, S>(dashmap::DashMap<K, V, S>);

/// A map from document URI to document text.
pub type DocumentMap = dashmap::DashMap<String, String>;

/// The entries of a map from document URI to document text.
pub uninterp spec fn documents_of(m: DocumentMap) -> Map<Seq<char>, Seq<char>>;

/// `DashMap::new`: a map with no entries.
#[verifier::external_body]
fn map_new() -> (r: DocumentMap)
    ensures
        documents_of(r).dom() == Set::<Seq<char>>::empty(),
{
    dashmap::DashMap::new()
}

/// `DashMap::get`, the value cloned: the text stored under the key, if any.
#[verifier::external_body]
fn map_get(m: &DocumentMap, key: &String) -> (r: Option<String>)
    ensures
        match r {
            Some(v) => documents_of(*m).contains_key(key@) && documents_of(*m)[key@] == v@,
            None => !documents_of(*m).contains_key(key@),
        },
{
    m.get(key).map(|entry| entry.value().clone())
}

/// `DashMap::insert`: the key now maps to the value, the other entries unchanged.
#[verifier::external_body]
fn map_insert(m: &mut DocumentMap, key: String, value: String)
    ensures
        documents_of(*final(m)) == documents_of(*old(m)).insert(key@, value@),
{
    m.insert(key, value);
}

/// `DashMap::remove`: the key no longer has an entry, the other entries unchanged.
#[verifier::external_body]
fn map_remove(m: &mut DocumentMap, key: &String)
    ensures
        documents_of(*final(m)) == documents_of(*old(m)).remove(key@),
{
    m.remove(key);
}

/// The text of each open document, by URI.
pub struct DocumentStore {
    docs: DocumentMap,
}

impl View for DocumentStore {
    type V = Map<Seq<char>, Seq<char>>;

    closed spec fn view(&self) -> Map<Seq<char>, Seq<char>> {
        documents_of(self.docs)
    }
}

impl Default for DocumentStore {
    fn default() -> (r: DocumentStore)
        ensures
            r@ == Map::<Seq<char>, Seq<char>>::empty(),
    {
        DocumentStore::new()
    }
}

impl DocumentStore {
    /// A store with no document.
    pub fn new() -> (r: DocumentStore)
        ensures
            r@ == Map::<Seq<char>, Seq<char>>::empty(),
    {
        let r = DocumentStore { docs: map_new() };
        assert(r@ =~= Map::<Seq<char>, Seq<char>>::empty());
        r
    }

    /// The text of the document at `uri`, if it is open.
    pub fn get(&self, uri: &String) -> (r: Option<String>)
        ensures
            match r {
                Some(t) => self@.contains_key(uri@) && self@[uri@] == t@,
                None => !self@.contains_key(uri@),
            },
    {
        map_get(&self.docs, uri)
    }

    /// Records the text of the document at `uri`, replacing what was there.
    pub fn insert(&mut self, uri: String, text: String)
        ensures
            final(self)@ == old(self)@.insert(uri@, text@),
    {
        map_insert(&mut self.docs, uri, text);
    }

    /// Forgets the document at `uri`.
    pub fn remove(&mut self, uri: &String)
        ensures
            final(self)@ == old(self)@.remove(uri@),
    {
        map_remove(&mut self.docs, uri);
    }
}

/// A read gives back what the last write at that URI wrote, and a write or a removal
/// leaves the other documents as they were; a removed document is no longer there.
pub proof fn law_store_reads_last_write(s: Map<Seq<char>, Seq<char>>, uri: Seq<char>, text: Seq<char>, other: Seq<char>)
    requires
        other != uri,
    ensures
        s.insert(uri, text).contains_key(uri) && s.insert(uri, text)[uri] == text,
        s.insert(uri, text).contains_key(other) == s.contains_key(other),
        s.contains_key(other) ==> s.insert(uri, text)[other] == s[other],
        !s.remove(uri).contains_key(uri),
        s.remove(uri).contains_key(other) == s.contains_key(other),
        s.contains_key(other) ==> s.remove(uri)[other] == s[other],
{
}

/// Where a scan of `s` from the start ends: (line, column), both counted in characters.
pub open spec fn end_of(s: Seq<char>) -> (int, int)
    decreases s.len(),
{
    if s.len() == 0 {
        (0, 0)
    } else {
        let p = end_of(s.drop_last());
        if s.last() == '\n' {
            (p.0 + 1, 0)
        } else {
            (p.0, p.1 + 1)
        }
    }
}

/// Counting ends of every prefix fit in `u32`.
pub open spec fn ends_fit(s: Seq<char>) -> bool {
    forall|i: int| 0 <= i <= s.len() ==> (#[trigger] end_of(s.take(i))).0 <= u32::MAX && end_of(s.take(i)).1 <= u32::MAX
}

/// The position just past the last character of a text: its number of line feeds, and
/// the characters after the last one.
pub fn position_for_end(text: &str) -> (r: Position)
    requires
        ends_fit(text@),
    ensures
        r.line as int == end_of(text@).0,
        r.character as int == end_of(text@).1,
{
    let t = chars_of(text);
    let mut line: u32 = 0;
    let mut character: u32 = 0;
    let mut k: usize = 0;
    assert(t@.take(0) =~= Seq::<char>::empty());
    while k < t.len()
        invariant
            k <= t@.len(),
            t@ == text@,
            ends_fit(text@),
            (line as int, character as int) == end_of(t@.take(k as int)),
        decreases t@.len() - k,
    {
        assert(t@.take(k + 1).drop_last() =~= t@.take(k as int));
        assert(t@.take(k + 1).last() == t@[k as int]);
        assert(end_of(t@.take(k + 1)).0 <= u32::MAX && end_of(t@.take(k + 1)).1 <= u32::MAX);
        if t[k] == '\n' {
            line = line + 1;
            character = 0;
        } else {
            character = character + 1;
        }
        k = k + 1;
    }
    assert(t@.take(k as int) =~= t@);
    position(line, character)
}

/// A replacement of a range of a document.
#[derive(Clone, Debug)]
pub struct TextEdit {
    pub range: Range,
    pub new_text: String,
}

/// The edits that reformat a document, given the formatter's output (none when the
/// document does not parse): no edit when nothing changes, else one edit that replaces
/// the whole text.
pub fn formatting_edits(text: &str, formatted: Option<String>) -> (r: Option<Vec<TextEdit>>)
    requires
        ends_fit(text@),
    ensures
        match formatted {
            None => r is None,
            Some(f) => r is Some && (if f@ == text@ {
                r.unwrap()@.len() == 0
            } else {
                &&& r.unwrap()@.len() == 1
                &&& r.unwrap()@[0].new_text@ == f@
                &&& r.unwrap()@[0].range == (Range {
                    start: pos(0, 0),
                    end: pos(end_of(text@).0 as u32, end_of(text@).1 as u32),
                })
            }),
        },
{
    let f = match formatted {
        Some(f) => f,
        None => return None,
    };
    let fv = chars_of(f.as_str());
    let tv = chars_of(text);
    if crate::text::eq_exec(fv.as_slice(), tv.as_slice()) {
        return Some(Vec::new());
    }
    let end = position_for_end(text);
    let mut edits: Vec<TextEdit> = Vec::new();
    edits.push(TextEdit { range: range(position(0, 0), end), new_text: f });
    Some(edits)
}

} // verus!
