//! Character-level text primitives shared by every analysis of a Hurl document.
//!
//! Text is modelled as `Seq<char>`.  The executable functions work on slices of
//! `char` (`&[char]`), obtained once from a `&str`, and speak of byte offsets
//! through `blen`, the length of the UTF-8 encoding of a character sequence.
use vstd::prelude::*;
use vstd::utf8::*;

verus! {

/// `char::is_whitespace`: the characters with the Unicode `White_Space` property.
pub open spec fn is_ws(c: char) -> bool {
    ||| ('\u{9}' <= c && c <= '\u{d}')
    ||| c == ' '
    ||| c == '\u{85}'
    ||| c == '\u{a0}'
    ||| c == '\u{1680}'
    ||| ('\u{2000}' <= c && c <= '\u{200a}')
    ||| c == '\u{2028}'
    ||| c == '\u{2029}'
    ||| c == '\u{202f}'
    ||| c == '\u{205f}'
    ||| c == '\u{3000}'
}

/// `u8::is_ascii_whitespace` read on a character: space, tab, line feed, form feed, carriage return.
pub open spec fn is_ascii_ws(c: char) -> bool {
    c == ' ' || c == '\t' || c == '\n' || c == '\u{c}' || c == '\r'
}

pub open spec fn is_ascii_digit(c: char) -> bool {
    '0' <= c && c <= '9'
}

pub open spec fn is_ascii_upper(c: char) -> bool {
    'A' <= c && c <= 'Z'
}

pub open spec fn is_ascii_lower(c: char) -> bool {
    'a' <= c && c <= 'z'
}

pub open spec fn is_ascii_alpha(c: char) -> bool {
    is_ascii_upper(c) || is_ascii_lower(c)
}

pub open spec fn is_ascii_alnum(c: char) -> bool {
    is_ascii_alpha(c) || is_ascii_digit(c)
}

/// `char::to_ascii_lowercase`.
pub open spec fn lower_char(c: char) -> char {
    if is_ascii_upper(c) {
        ((c as u32) + 32) as char
    } else {
        c
    }
}

/// `str::to_ascii_lowercase`.
pub open spec fn lower(s: Seq<char>) -> Seq<char> {
    s.map_values(|c: char| lower_char(c))
}

/// Length in bytes of the UTF-8 encoding of `s`.
pub open spec fn blen(s: Seq<char>) -> nat {
    encode_utf8(s).len()
}

/// First index at or after `i` whose character's whitespace-ness differs from `ws`
/// (or the length of `s`).
pub open spec fn skip_class(s: Seq<char>, i: int, ws: bool) -> int
    decreases s.len() - i,
{
    if i < 0 || i >= s.len() {
        s.len() as int
    } else if is_ws(s[i]) == ws {
        skip_class(s, i + 1, ws)
    } else {
        i
    }
}

/// Index one past the last non-whitespace character at or before `j` (or 0).
pub open spec fn back_ws(s: Seq<char>, j: int) -> int
    decreases j,
{
    if j <= 0 || j > s.len() {
        0
    } else if is_ws(s[j - 1]) {
        back_ws(s, j - 1)
    } else {
        j
    }
}

/// `str::trim_start`.
pub open spec fn trim_start(s: Seq<char>) -> Seq<char> {
    s.skip(skip_class(s, 0, true))
}

/// `str::trim`.
pub open spec fn trim(s: Seq<char>) -> Seq<char> {
    let a = skip_class(s, 0, true);
    if a >= s.len() {
        Seq::empty()
    } else {
        s.subrange(a, back_ws(s, s.len() as int))
    }
}

/// The whitespace-separated tokens of `s` from index `i` on (`str::split_whitespace`).
pub open spec fn tokens_from(s: Seq<char>, i: int) -> Seq<Seq<char>>
    decreases s.len() - i,
{
    if i < 0 || i >= s.len() {
        Seq::empty()
    } else if is_ws(s[i]) {
        tokens_from(s, i + 1)
    } else {
        let e = skip_class(s, i + 1, false);
        proof {
            lemma_skip_class_bounds(s, i + 1, false);
        }
        seq![s.subrange(i, e)] + tokens_from(s, e)
    }
}

pub open spec fn tokens(s: Seq<char>) -> Seq<Seq<char>> {
    tokens_from(s, 0)
}

/// First index at or after `i` holding `c` (or the length of `s`).
pub open spec fn next_char(s: Seq<char>, i: int, c: char) -> int
    decreases s.len() - i,
{
    if i < 0 || i >= s.len() {
        s.len() as int
    } else if s[i] == c {
        i
    } else {
        next_char(s, i + 1, c)
    }
}

/// A line without its `\r` terminator.
pub open spec fn strip_cr(l: Seq<char>) -> Seq<char> {
    if l.len() > 0 && l.last() == '\r' {
        l.drop_last()
    } else {
        l
    }
}

/// The lines of `s` from index `i` on, as `str::lines` gives them.
pub open spec fn lines_from(s: Seq<char>, i: int) -> Seq<Seq<char>>
    decreases s.len() - i,
{
    if i < 0 || i >= s.len() {
        Seq::empty()
    } else {
        let e = next_char(s, i, '\n');
        proof {
            lemma_next_char_bounds(s, i, '\n');
        }
        if e < s.len() {
            seq![strip_cr(s.subrange(i, e))] + lines_from(s, e + 1)
        } else {
            seq![s.subrange(i, s.len() as int)]
        }
    }
}

/// `str::lines`.
pub open spec fn lines(s: Seq<char>) -> Seq<Seq<char>> {
    lines_from(s, 0)
}

/// `p` occurs in `s` at index `i`.
pub open spec fn occurs_at(s: Seq<char>, p: Seq<char>, i: int) -> bool {
    0 <= i && i + p.len() <= s.len() && s.subrange(i, i + p.len()) == p
}

/// First occurrence of `p` in `s` at or after `i` (`str::find` when `i == 0`).
pub open spec fn find_from(s: Seq<char>, p: Seq<char>, i: int) -> Option<int>
    decreases s.len() + 1 - i,
{
    if i < 0 || i + p.len() > s.len() {
        None
    } else if occurs_at(s, p, i) {
        Some(i)
    } else {
        find_from(s, p, i + 1)
    }
}

pub open spec fn find(s: Seq<char>, p: Seq<char>) -> Option<int> {
    find_from(s, p, 0)
}

pub open spec fn contains(s: Seq<char>, p: Seq<char>) -> bool {
    find(s, p) is Some
}

pub open spec fn starts_with(s: Seq<char>, p: Seq<char>) -> bool {
    p.len() <= s.len() && s.take(p.len() as int) == p
}

pub proof fn lemma_skip_class_bounds(s: Seq<char>, i: int, ws: bool)
    ensures
        0 <= i <= s.len() ==> i <= skip_class(s, i, ws) <= s.len(),
        skip_class(s, i, ws) <= s.len(),
        forall|k: int| 0 <= i <= k < skip_class(s, i, ws) ==> is_ws(#[trigger] s[k]) == ws,
        0 <= i <= s.len() && skip_class(s, i, ws) < s.len() ==> is_ws(s[skip_class(s, i, ws)]) != ws,
    decreases s.len() - i,
{
    if 0 <= i < s.len() && is_ws(s[i]) == ws {
        lemma_skip_class_bounds(s, i + 1, ws);
    }
}

pub proof fn lemma_back_ws_bounds(s: Seq<char>, j: int)
    ensures
        0 <= back_ws(s, j),
        0 <= j <= s.len() ==> back_ws(s, j) <= j,
        0 <= j <= s.len() ==> forall|k: int| back_ws(s, j) <= k < j ==> is_ws(#[trigger] s[k]),
        0 <= j <= s.len() && back_ws(s, j) > 0 ==> !is_ws(s[back_ws(s, j) - 1]),
    decreases j,
{
    if 0 < j <= s.len() && is_ws(s[j - 1]) {
        lemma_back_ws_bounds(s, j - 1);
    }
}

pub proof fn lemma_next_char_bounds(s: Seq<char>, i: int, c: char)
    ensures
        0 <= i <= s.len() ==> i <= next_char(s, i, c) <= s.len(),
        next_char(s, i, c) <= s.len(),
        forall|k: int| 0 <= i <= k < next_char(s, i, c) ==> #[trigger] s[k] != c,
        0 <= i <= s.len() && next_char(s, i, c) < s.len() ==> s[next_char(s, i, c)] == c,
    decreases s.len() - i,
{
    if 0 <= i < s.len() && s[i] != c {
        lemma_next_char_bounds(s, i + 1, c);
    }
}

/// `skip_class` is determined by the run it scans.
pub proof fn lemma_skip_class_run(s: Seq<char>, i: int, j: int, ws: bool)
    requires
        0 <= i <= j <= s.len(),
        forall|k: int| i <= k < j ==> is_ws(#[trigger] s[k]) == ws,
    ensures
        skip_class(s, i, ws) == skip_class(s, j, ws),
    decreases j - i,
{
    if i < j {
        lemma_skip_class_run(s, i + 1, j, ws);
    }
}

pub proof fn lemma_next_char_run(s: Seq<char>, i: int, j: int, c: char)
    requires
        0 <= i <= j <= s.len(),
        forall|k: int| i <= k < j ==> #[trigger] s[k] != c,
    ensures
        next_char(s, i, c) == next_char(s, j, c),
    decreases j - i,
{
    if i < j {
        lemma_next_char_run(s, i + 1, j, c);
    }
}

pub proof fn lemma_back_ws_run(s: Seq<char>, i: int, j: int)
    requires
        0 <= i <= j <= s.len(),
        forall|k: int| i <= k < j ==> is_ws(#[trigger] s[k]),
    ensures
        back_ws(s, j) == back_ws(s, i),
    decreases j - i,
{
    if i < j {
        lemma_back_ws_run(s, i, j - 1);
    }
}

pub proof fn lemma_encode_utf8_concat(a: Seq<char>, b: Seq<char>)
    ensures
        encode_utf8(a + b) == encode_utf8(a) + encode_utf8(b),
    decreases a.len(),
{
    if a.len() == 0 {
        assert(a + b =~= b);
    } else {
        assert((a + b).drop_first() =~= a.drop_first() + b);
        lemma_encode_utf8_concat(a.drop_first(), b);
    }
}

/// The byte length of a piece of `s` is at most that of `s`.
pub proof fn lemma_blen_subrange(s: Seq<char>, i: int, j: int)
    requires
        0 <= i <= j <= s.len(),
    ensures
        blen(s.subrange(i, j)) <= blen(s),
        blen(s.subrange(0, j)) == blen(s.subrange(0, i)) + blen(s.subrange(i, j)),
{
    lemma_encode_utf8_concat(s.subrange(0, i), s.subrange(i, j));
    assert(s.subrange(0, i) + s.subrange(i, j) =~= s.subrange(0, j));
    lemma_encode_utf8_concat(s.subrange(0, j), s.subrange(j, s.len() as int));
    assert(s.subrange(0, j) + s.subrange(j, s.len() as int) =~= s);
}

pub proof fn lemma_encode_one(c: char)
    ensures
        encode_utf8(seq![c]) == encode_scalar(c as u32),
{
    let one = seq![c];
    assert(one.drop_first() =~= Seq::<char>::empty());
    assert(encode_utf8(one.drop_first()) =~= Seq::<u8>::empty());
    assert(encode_scalar(c as u32) + Seq::<u8>::empty() =~= encode_scalar(c as u32));
}

/// Width in bytes of one character.
pub fn char_width(c: char) -> (w: usize)
    ensures
        w as nat == encode_scalar(c as u32).len(),
        1 <= w <= 4,
        c > '\u{ffff}' ==> w == 4,
{
    if c <= '\u{7f}' {
        1
    } else if c <= '\u{7ff}' {
        2
    } else if c <= '\u{ffff}' {
        3
    } else {
        4
    }
}

/// Number of UTF-16 code units of one character.
pub open spec fn u16width(c: char) -> nat {
    if c <= '\u{ffff}' { 1 } else { 2 }
}

/// Length in UTF-16 code units of `s`.
pub open spec fn u16len(s: Seq<char>) -> nat
    decreases s.len(),
{
    if s.len() == 0 {
        0
    } else {
        u16len(s.drop_last()) + u16width(s.last())
    }
}

/// UTF-16 offset of character index `i` in `s`.
pub fn utf16_offset(s: &[char], i: usize) -> (r: usize)
    requires
        i <= s@.len(),
        blen(s@) <= usize::MAX,
    ensures
        r as nat == u16len(s@.take(i as int)),
{
    let mut k: usize = 0;
    let mut acc: usize = 0;
    assert(s@.take(0) =~= Seq::<char>::empty());
    while k < i
        invariant
            k <= i <= s@.len(),
            blen(s@) <= usize::MAX,
            acc as nat == u16len(s@.take(k as int)),
            acc <= blen(s@.take(k as int)),
        decreases i - k,
    {
        let c = s[k];
        let w = char_width(c);
        proof {
            lemma_blen_push(s@, k as int);
            lemma_blen_subrange(s@, 0, k + 1);
            assert(s@.subrange(0, k + 1) =~= s@.take(k + 1));
            assert(s@.take(k + 1).drop_last() =~= s@.take(k as int));
        }
        if c <= '\u{ffff}' {
            acc = acc + 1;
        } else {
            acc = acc + 2;
        }
        k = k + 1;
    }
    acc
}

/// Byte offset of character index `i` in `s`.
pub fn byte_offset(s: &[char], i: usize) -> (r: usize)
    requires
        i <= s@.len(),
        blen(s@) <= usize::MAX,
    ensures
        r as nat == blen(s@.take(i as int)),
{
    let mut k: usize = 0;
    let mut acc: usize = 0;
    while k < i
        invariant
            k <= i <= s@.len(),
            blen(s@) <= usize::MAX,
            acc as nat == blen(s@.take(k as int)),
        decreases i - k,
    {
        proof {
            lemma_encode_utf8_concat(s@.take(k as int), seq![s@[k as int]]);
            assert(s@.take(k as int) + seq![s@[k as int]] =~= s@.take(k + 1));
            lemma_encode_one(s@[k as int]);
            lemma_blen_subrange(s@, 0, k + 1);
            assert(s@.subrange(0, k + 1) =~= s@.take(k + 1));
        }
        let w = char_width(s[k]);
        acc = acc + w;
        k = k + 1;
    }
    acc
}

/// Every character takes at least one byte.
pub proof fn lemma_blen_at_least_len(s: Seq<char>)
    ensures
        blen(s) >= s.len(),
    decreases s.len(),
{
    if s.len() > 0 {
        lemma_blen_at_least_len(s.drop_first());
    }
}

/// How many leading characters of `s` fit in `b` bytes.
pub open spec fn chars_fitting(s: Seq<char>, b: int) -> nat
    decreases s.len(),
{
    if s.len() == 0 {
        0
    } else {
        let w = encode_scalar(s[0] as u32).len() as int;
        if w <= b { 1 + chars_fitting(s.drop_first(), b - w) } else { 0 }
    }
}

pub proof fn lemma_blen_push(s: Seq<char>, k: int)
    requires
        0 <= k < s.len(),
    ensures
        blen(s.take(k + 1)) == blen(s.take(k)) + encode_scalar(s[k] as u32).len(),
{
    lemma_encode_utf8_concat(s.take(k), seq![s[k]]);
    assert(s.take(k) + seq![s[k]] =~= s.take(k + 1));
    lemma_encode_one(s[k]);
}

/// The number of whole characters within the first `b` bytes of `s`, and their byte length.
pub fn char_floor(s: &[char], b: usize) -> (r: (usize, usize))
    requires
        blen(s@) <= usize::MAX,
    ensures
        r.0 as nat == chars_fitting(s@, b as int),
        r.0 <= s@.len(),
        r.1 as nat == blen(s@.take(r.0 as int)),
        r.1 <= b,
        r.0 < s@.len() ==> r.1 + encode_scalar(s@[r.0 as int] as u32).len() > b,
{
    let mut k: usize = 0;
    let mut acc: usize = 0;
    assert(s@.skip(0) =~= s@);
    while k < s.len()
        invariant
            k <= s@.len(),
            blen(s@) <= usize::MAX,
            acc as nat == blen(s@.take(k as int)),
            acc <= b,
            chars_fitting(s@, b as int) == k + chars_fitting(s@.skip(k as int), b - acc),
        decreases s@.len() - k,
    {
        let w = char_width(s[k]);
        proof {
            lemma_blen_push(s@, k as int);
            lemma_blen_subrange(s@, 0, k + 1);
            assert(s@.subrange(0, k + 1) =~= s@.take(k + 1));
            assert(s@.skip(k as int).drop_first() =~= s@.skip(k + 1));
            assert(s@.skip(k as int)[0] == s@[k as int]);
        }
        if w > b - acc {
            return (k, acc);
        }
        acc = acc + w;
        k = k + 1;
    }
    (k, acc)
}

/// Index one past the run of non-ASCII-whitespace characters that ends at `j`, going back.
pub open spec fn back_word(s: Seq<char>, j: int) -> int
    decreases j,
{
    if j > 0 && j <= s.len() && !is_ascii_ws(s[j - 1]) { back_word(s, j - 1) } else { j }
}

/// End of the run of non-ASCII-whitespace characters that starts at `i`.
pub open spec fn fwd_word(s: Seq<char>, i: int) -> int
    decreases s.len() - i,
{
    if i >= 0 && i < s.len() && !is_ascii_ws(s[i]) { fwd_word(s, i + 1) } else { i }
}

pub proof fn lemma_back_word_le(s: Seq<char>, j: int)
    ensures
        0 <= j ==> 0 <= back_word(s, j) <= j,
        0 <= j <= s.len() ==> forall|k: int| back_word(s, j) <= k < j ==> !is_ascii_ws(#[trigger] s[k]),
    decreases j,
{
    if j > 0 && j <= s.len() && !is_ascii_ws(s[j - 1]) {
        lemma_back_word_le(s, j - 1);
    }
}

pub proof fn lemma_fwd_word_ge(s: Seq<char>, i: int)
    ensures
        0 <= i <= s.len() ==> i <= fwd_word(s, i) <= s.len(),
    decreases s.len() - i,
{
    if i >= 0 && i < s.len() && !is_ascii_ws(s[i]) {
        lemma_fwd_word_ge(s, i + 1);
    }
}

pub fn back_word_exec(s: &[char], j: usize) -> (r: usize)
    requires
        j <= s@.len(),
    ensures
        r as int == back_word(s@, j as int),
        r <= j,
{
    let mut k = j;
    while k > 0 && !is_ascii_whitespace(s[k - 1])
        invariant
            k <= j <= s@.len(),
            back_word(s@, j as int) == back_word(s@, k as int),
        decreases k,
    {
        k = k - 1;
    }
    k
}

pub fn fwd_word_exec(s: &[char], i: usize) -> (r: usize)
    requires
        i <= s@.len(),
    ensures
        r as int == fwd_word(s@, i as int),
        i <= r <= s@.len(),
{
    let mut k = i;
    while k < s.len() && !is_ascii_whitespace(s[k])
        invariant
            i <= k <= s@.len(),
            fwd_word(s@, i as int) == fwd_word(s@, k as int),
        decreases s@.len() - k,
    {
        k = k + 1;
    }
    k
}

/// The characters of a string (whose UTF-8 length, as for every `str`, is a `usize`).
pub fn chars_of(s: &str) -> (v: Vec<char>)
    ensures
        v@ == s@,
        blen(s@) <= usize::MAX,
{
    let bytes = s.as_bytes();
    let _n = bytes.len();
    let mut v: Vec<char> = Vec::new();
    for c in it: s.chars()
        invariant
            v@ == it.seq().take(it.index() as int),
    {
        v.push(c);
    }
    assert(v@ =~= s@);
    v
}

/// The pieces of `s` that a list of index ranges picks out.
pub open spec fn ranged(s: Seq<char>, r: Seq<(usize, usize)>) -> Seq<Seq<char>> {
    r.map_values(|p: (usize, usize)| s.subrange(p.0 as int, p.1 as int))
}

/// Every range lies within `s`.
pub open spec fn ranges_within(s: Seq<char>, r: Seq<(usize, usize)>) -> bool {
    forall|k: int| 0 <= k < r.len() ==> #[trigger] r[k].0 <= r[k].1 <= s.len()
}

pub fn is_whitespace(c: char) -> (b: bool)
    ensures
        b == is_ws(c),
{
    (c >= '\u{9}' && c <= '\u{d}') || c == ' ' || c == '\u{85}' || c == '\u{a0}' || c == '\u{1680}'
        || (c >= '\u{2000}' && c <= '\u{200a}') || c == '\u{2028}' || c == '\u{2029}'
        || c == '\u{202f}' || c == '\u{205f}' || c == '\u{3000}'
}

pub fn is_ascii_whitespace(c: char) -> (b: bool)
    ensures
        b == is_ascii_ws(c),
{
    c == ' ' || c == '\t' || c == '\n' || c == '\u{c}' || c == '\r'
}

pub fn is_digit(c: char) -> (b: bool)
    ensures
        b == is_ascii_digit(c),
{
    c >= '0' && c <= '9'
}

pub fn is_upper(c: char) -> (b: bool)
    ensures
        b == is_ascii_upper(c),
{
    c >= 'A' && c <= 'Z'
}

pub fn is_alpha(c: char) -> (b: bool)
    ensures
        b == is_ascii_alpha(c),
{
    (c >= 'A' && c <= 'Z') || (c >= 'a' && c <= 'z')
}

pub fn is_alnum(c: char) -> (b: bool)
    ensures
        b == is_ascii_alnum(c),
{
    (c >= 'A' && c <= 'Z') || (c >= 'a' && c <= 'z') || (c >= '0' && c <= '9')
}

pub fn skip_class_exec(s: &[char], i: usize, ws: bool) -> (r: usize)
    requires
        i <= s@.len(),
    ensures
        r as int == skip_class(s@, i as int, ws),
        i <= r <= s@.len(),
{
    let mut k = i;
    while k < s.len() && is_whitespace(s[k]) == ws
        invariant
            i <= k <= s@.len(),
            forall|j: int| i <= j < k ==> is_ws(#[trigger] s@[j]) == ws,
        decreases s@.len() - k,
    {
        k = k + 1;
    }
    proof {
        lemma_skip_class_run(s@, i as int, k as int, ws);
    }
    k
}

pub fn back_ws_exec(s: &[char], j: usize) -> (r: usize)
    requires
        j <= s@.len(),
    ensures
        r as int == back_ws(s@, j as int),
        r <= j,
{
    let mut k = j;
    while k > 0 && is_whitespace(s[k - 1])
        invariant
            k <= j <= s@.len(),
            forall|m: int| k <= m < j ==> is_ws(#[trigger] s@[m]),
        decreases k,
    {
        k = k - 1;
    }
    proof {
        lemma_back_ws_run(s@, k as int, j as int);
    }
    k
}

pub fn next_char_exec(s: &[char], i: usize, c: char) -> (r: usize)
    requires
        i <= s@.len(),
    ensures
        r as int == next_char(s@, i as int, c),
        i <= r <= s@.len(),
{
    let mut k = i;
    while k < s.len() && s[k] != c
        invariant
            i <= k <= s@.len(),
            forall|j: int| i <= j < k ==> #[trigger] s@[j] != c,
        decreases s@.len() - k,
    {
        k = k + 1;
    }
    proof {
        lemma_next_char_run(s@, i as int, k as int, c);
    }
    k
}

/// Bounds of `trim(s)` within `s`.
pub fn trim_range(s: &[char]) -> (r: (usize, usize))
    ensures
        r.0 <= r.1 <= s@.len(),
        r.0 as int == skip_class(s@, 0, true),
        s@.subrange(r.0 as int, r.1 as int) == trim(s@),
{
    let a = skip_class_exec(s, 0, true);
    if a >= s.len() {
        assert(s@.subrange(a as int, a as int) =~= Seq::<char>::empty());
        return (a, a);
    }
    let b = back_ws_exec(s, s.len());
    proof {
        lemma_skip_class_bounds(s@, 0, true);
        lemma_back_ws_bounds(s@, s@.len() as int);
        if b <= a {
            assert(!is_ws(s@[a as int]));
        }
    }
    (a, b)
}

/// `starts_with` on slices.
pub fn starts_with_exec(s: &[char], p: &[char]) -> (b: bool)
    ensures
        b == starts_with(s@, p@),
{
    if p.len() > s.len() {
        return false;
    }
    let mut k: usize = 0;
    while k < p.len()
        invariant
            k <= p@.len() <= s@.len(),
            forall|j: int| 0 <= j < k ==> s@[j] == p@[j],
        decreases p@.len() - k,
    {
        if s[k] != p[k] {
            assert(s@.take(p@.len() as int)[k as int] != p@[k as int]);
            return false;
        }
        k = k + 1;
    }
    assert(s@.take(p@.len() as int) =~= p@);
    true
}

/// `p` occurs in `s` at `i`.
pub fn occurs_at_exec(s: &[char], p: &[char], i: usize) -> (b: bool)
    ensures
        b == occurs_at(s@, p@, i as int),
{
    if i > s.len() || p.len() > s.len() - i {
        return false;
    }
    let n = s.len();
    let mut k: usize = 0;
    while k < p.len()
        invariant
            k <= p@.len(),
            i + p@.len() <= s@.len(),
            n == s@.len(),
            forall|j: int| 0 <= j < k ==> s@[i + j] == p@[j],
        decreases p@.len() - k,
    {
        if s[i + k] != p[k] {
            assert(s@.subrange(i as int, i + p@.len())[k as int] != p@[k as int]);
            return false;
        }
        k = k + 1;
    }
    assert(s@.subrange(i as int, i + p@.len()) =~= p@);
    true
}

/// Equality of two character slices.
pub fn eq_exec(a: &[char], b: &[char]) -> (r: bool)
    ensures
        r == (a@ == b@),
{
    if a.len() != b.len() {
        return false;
    }
    let r = starts_with_exec(a, b);
    assert(a@.take(b@.len() as int) =~= a@);
    r
}

pub proof fn lemma_find_from_none(s: Seq<char>, p: Seq<char>, i: int, j: int)
    requires
        0 <= i <= j,
        forall|k: int| i <= k < j ==> !occurs_at(s, p, k),
    ensures
        find_from(s, p, i) == find_from(s, p, j),
    decreases j - i,
{
    if i < j {
        if i + p.len() > s.len() {
            lemma_find_from_none(s, p, i + 1, j);
            assert(find_from(s, p, i) is None);
            lemma_find_from_past(s, p, j);
        } else {
            lemma_find_from_none(s, p, i + 1, j);
        }
    }
}

pub proof fn lemma_find_from_past(s: Seq<char>, p: Seq<char>, j: int)
    requires
        j + p.len() > s.len(),
    ensures
        find_from(s, p, j) is None,
{
}

pub proof fn lemma_find_from_found(s: Seq<char>, p: Seq<char>, i: int)
    ensures
        find_from(s, p, i) matches Some(k) ==> i <= k && occurs_at(s, p, k)
            && forall|m: int| i <= m < k ==> !occurs_at(s, p, m),
        0 <= i ==> (find_from(s, p, i) is None ==> forall|m: int| i <= m ==> !occurs_at(s, p, m)),
    decreases s.len() + 1 - i,
{
    if 0 <= i && i + p.len() <= s.len() && !occurs_at(s, p, i) {
        lemma_find_from_found(s, p, i + 1);
        if find_from(s, p, i) is None {
            assert forall|m: int| i <= m implies !occurs_at(s, p, m) by {
                if m > i {
                }
            }
        }
    }
}

/// First occurrence of `p` in `s` at or after `i`.
pub fn find_from_exec(s: &[char], p: &[char], i: usize) -> (r: Option<usize>)
    ensures
        r matches Some(k) ==> find_from(s@, p@, i as int) == Some(k as int),
        r is None ==> find_from(s@, p@, i as int) is None,
{
    if i > s.len() || p.len() > s.len() - i {
        return None;
    }
    let last = s.len() - p.len();
    let mut k = i;
    loop
        invariant
            i <= k <= last,
            i + p@.len() <= s@.len(),
            last == s@.len() - p@.len(),
            forall|m: int| i <= m < k ==> !occurs_at(s@, p@, m),
        decreases last - k,
    {
        if occurs_at_exec(s, p, k) {
            proof {
                lemma_find_from_none(s@, p@, i as int, k as int);
            }
            return Some(k);
        }
        if k == last {
            proof {
                lemma_find_from_none(s@, p@, i as int, k + 1);
            }
            return None;
        }
        k = k + 1;
    }
}

/// Whitespace-separated tokens of `s`, as index ranges.
pub fn token_ranges(s: &[char]) -> (r: Vec<(usize, usize)>)
    ensures
        ranges_within(s@, r@),
        ranged(s@, r@) == tokens(s@),
        forall|k: int| 0 <= k < r@.len() ==> #[trigger] r@[k].0 < r@[k].1,
{
    let mut out: Vec<(usize, usize)> = Vec::new();
    let mut i: usize = 0;
    while i < s.len()
        invariant
            i <= s@.len(),
            ranges_within(s@, out@),
            forall|k: int| 0 <= k < out@.len() ==> #[trigger] out@[k].0 < out@[k].1,
            tokens(s@) == ranged(s@, out@) + tokens_from(s@, i as int),
        decreases s@.len() - i,
    {
        if is_whitespace(s[i]) {
            i = i + 1;
        } else {
            let e = skip_class_exec(s, i + 1, false);
            let ghost old_out = out@;
            out.push((i, e));
            proof {
                assert(i < e && e <= s@.len());
                assert(out@ == old_out.push((i, e)));
                assert forall|k: int| 0 <= k < out@.len() implies #[trigger] out@[k].0 <= out@[k].1 <= s@.len() by {
                    if k < old_out.len() {
                        assert(out@[k] == old_out[k]);
                        assert(old_out[k].0 <= old_out[k].1 <= s@.len());
                    } else {
                        assert(out@[k] == out@.last());
                    }
                }
                assert forall|k: int| 0 <= k < out@.len() implies #[trigger] out@[k].0 < out@[k].1 by {
                    if k < old_out.len() {
                        assert(out@[k] == old_out[k]);
                    }
                }
                assert(ranged(s@, out@) =~= ranged(s@, old_out) + seq![s@.subrange(i as int, e as int)]);
            }
            i = e;
        }
    }
    assert(ranged(s@, out@) + tokens_from(s@, i as int) =~= ranged(s@, out@));
    out
}

/// The lines of `s`, as index ranges (terminators excluded).
pub fn line_ranges(s: &[char]) -> (r: Vec<(usize, usize)>)
    ensures
        ranges_within(s@, r@),
        ranged(s@, r@) == lines(s@),
{
    let mut out: Vec<(usize, usize)> = Vec::new();
    let mut i: usize = 0;
    while i < s.len()
        invariant
            i <= s@.len(),
            ranges_within(s@, out@),
            lines(s@) == ranged(s@, out@) + lines_from(s@, i as int),
        decreases s@.len() - i,
    {
        let e = next_char_exec(s, i, '\n');
        let ghost old_out = out@;
        if e < s.len() {
            let mut end = e;
            if e > i && s[e - 1] == '\r' {
                end = e - 1;
            }
            out.push((i, end));
            proof {
                assert forall|k: int| 0 <= k < out@.len() implies #[trigger] out@[k].0 <= out@[k].1 <= s@.len() by {
                    if k < old_out.len() {
                        assert(out@[k] == old_out[k]);
                        assert(old_out[k].0 <= old_out[k].1 <= s@.len());
                    } else {
                        assert(out@[k] == out@.last());
                    }
                }
                let l = s@.subrange(i as int, e as int);
                assert(strip_cr(l) =~= s@.subrange(i as int, end as int));
                assert(ranged(s@, out@) =~= ranged(s@, old_out) + seq![strip_cr(l)]);
            }
            i = e + 1;
        } else {
            out.push((i, s.len()));
            proof {
                assert forall|k: int| 0 <= k < out@.len() implies #[trigger] out@[k].0 <= out@[k].1 <= s@.len() by {
                    if k < old_out.len() {
                        assert(out@[k] == old_out[k]);
                        assert(old_out[k].0 <= old_out[k].1 <= s@.len());
                    } else {
                        assert(out@[k] == out@.last());
                    }
                }
                assert(ranged(s@, out@) =~= ranged(s@, old_out) + seq![s@.subrange(i as int, s@.len() as int)]);
                assert(lines_from(s@, s@.len() as int) =~= Seq::<Seq<char>>::empty());
            }
            i = s.len();
        }
    }
    assert(ranged(s@, out@) + lines_from(s@, i as int) =~= ranged(s@, out@));
    out
}

/// `String::push` appends one character.
pub assume_specification[ String::push ](string: &mut String, ch: char)
    ensures
        final(string)@ == old(string)@.push(ch),
;

/// A `String` holding exactly the given characters.
pub fn string_of(v: &[char]) -> (r: String)
    ensures
        r@ == v@,
{
    let mut r = String::new();
    let mut k: usize = 0;
    while k < v.len()
        invariant
            k <= v@.len(),
            r@ == v@.take(k as int),
        decreases v@.len() - k,
    {
        r.push(v[k]);
        k = k + 1;
        assert(r@ =~= v@.take(k as int));
    }
    assert(v@.take(k as int) =~= v@);
    r
}

/// An owned copy of a slice of characters.
pub fn to_vec(v: &[char]) -> (r: Vec<char>)
    ensures
        r@ == v@,
{
    let mut r: Vec<char> = Vec::new();
    let mut k: usize = 0;
    while k < v.len()
        invariant
            k <= v@.len(),
            r@ == v@.take(k as int),
        decreases v@.len() - k,
    {
        r.push(v[k]);
        k = k + 1;
        assert(r@ =~= v@.take(k as int));
    }
    assert(v@.take(k as int) =~= v@);
    r
}

/// Appends the characters of `v` to `out`.
pub fn push_all(out: &mut Vec<char>, v: &[char])
    ensures
        final(out)@ == old(out)@ + v@,
{
    let mut k: usize = 0;
    while k < v.len()
        invariant
            k <= v@.len(),
            out@ == old(out)@ + v@.take(k as int),
        decreases v@.len() - k,
    {
        out.push(v[k]);
        k = k + 1;
        assert(out@ =~= old(out)@ + v@.take(k as int));
    }
    assert(v@.take(k as int) =~= v@);
}

/// Appends the characters of a string to `out`.
pub fn push_str(out: &mut Vec<char>, s: &str)
    ensures
        final(out)@ == old(out)@ + s@,
{
    let v = chars_of(s);
    push_all(out, v.as_slice());
}

/// The order of `str`: lexicographic by code point (the same as byte order of UTF-8).
pub open spec fn lex_lt(a: Seq<char>, b: Seq<char>) -> bool
    decreases a.len(),
{
    if a.len() == 0 {
        b.len() > 0
    } else if b.len() == 0 {
        false
    } else if a[0] != b[0] {
        a[0] < b[0]
    } else {
        lex_lt(a.drop_first(), b.drop_first())
    }
}

pub proof fn lemma_lex_irreflexive(a: Seq<char>)
    ensures
        !lex_lt(a, a),
    decreases a.len(),
{
    if a.len() > 0 {
        lemma_lex_irreflexive(a.drop_first());
    }
}

pub proof fn lemma_lex_total(a: Seq<char>, b: Seq<char>)
    ensures
        a != b ==> (lex_lt(a, b) || lex_lt(b, a)),
        !(lex_lt(a, b) && lex_lt(b, a)),
    decreases a.len(),
{
    if a.len() > 0 && b.len() > 0 {
        lemma_lex_total(a.drop_first(), b.drop_first());
        if a[0] == b[0] && a != b {
            assert(a =~= seq![a[0]] + a.drop_first());
            assert(b =~= seq![b[0]] + b.drop_first());
        }
    } else if a.len() == 0 && b.len() == 0 {
        assert(a =~= b);
    }
}

pub proof fn lemma_lex_transitive(a: Seq<char>, b: Seq<char>, c: Seq<char>)
    requires
        lex_lt(a, b),
        lex_lt(b, c),
    ensures
        lex_lt(a, c),
    decreases a.len(),
{
    if a.len() > 0 && b.len() > 0 && c.len() > 0 && a[0] == b[0] && b[0] == c[0] {
        lemma_lex_transitive(a.drop_first(), b.drop_first(), c.drop_first());
    }
}

pub proof fn lemma_push_to_set<A>(s: Seq<A>, x: A)
    ensures
        s.push(x).to_set() == s.to_set().insert(x),
{
    assert forall|y: A| s.push(x).to_set().contains(y) <==> s.to_set().insert(x).contains(y) by {
        if s.push(x).to_set().contains(y) {
            let k = choose|k: int| 0 <= k < s.push(x).len() && s.push(x)[k] == y;
            if k < s.len() {
                assert(s[k] == y);
            }
        }
        if s.to_set().contains(y) {
            let k = choose|k: int| 0 <= k < s.len() && s[k] == y;
            assert(s.push(x)[k] == y);
        }
        if y == x {
            assert(s.push(x)[s.len() as int] == y);
        }
    }
    assert(s.push(x).to_set() =~= s.to_set().insert(x));
}

/// Strictly increasing in the order of `str`: sorted, with nothing twice.
pub open spec fn strictly_sorted(v: Seq<Seq<char>>) -> bool {
    forall|i: int, j: int| 0 <= i < j < v.len() ==> lex_lt(#[trigger] v[i], #[trigger] v[j])
}

/// The strictly sorted sequence whose elements are those of `s` (unique: see `lemma_sorted_unique`).
pub open spec fn sorted_of(s: Set<Seq<char>>) -> Seq<Seq<char>> {
    choose|v: Seq<Seq<char>>| strictly_sorted(v) && v.to_set() == s
}

proof fn lemma_sorted_agree(a: Seq<Seq<char>>, b: Seq<Seq<char>>, i: int)
    requires
        strictly_sorted(a),
        strictly_sorted(b),
        a.to_set() == b.to_set(),
        0 <= i < a.len(),
        i < b.len(),
    ensures
        a[i] == b[i],
    decreases i,
{
    assert forall|k: int| 0 <= k < i implies a[k] == b[k] by {
        lemma_sorted_agree(a, b, k);
    }
    if a[i] != b[i] {
        lemma_lex_total(a[i], b[i]);
        if lex_lt(a[i], b[i]) {
            assert(a.to_set().contains(a[i]));
            let j = choose|j: int| 0 <= j < b.len() && b[j] == a[i];
            if j < i {
                assert(lex_lt(a[j], a[i]));
                lemma_lex_irreflexive(a[i]);
            } else if j > i {
                assert(lex_lt(b[i], b[j]));
            }
        } else {
            assert(b.to_set().contains(b[i]));
            let j = choose|j: int| 0 <= j < a.len() && a[j] == b[i];
            if j < i {
                assert(lex_lt(b[j], b[i]));
                lemma_lex_irreflexive(b[i]);
            } else if j > i {
                assert(lex_lt(a[i], a[j]));
            }
        }
    }
}

proof fn lemma_sorted_no_longer(a: Seq<Seq<char>>, b: Seq<Seq<char>>)
    requires
        strictly_sorted(a),
        strictly_sorted(b),
        a.to_set() == b.to_set(),
    ensures
        b.len() <= a.len(),
{
    if b.len() > a.len() {
        let m = a.len() as int;
        assert(b.to_set().contains(b[m]));
        let j = choose|j: int| 0 <= j < a.len() && a[j] == b[m];
        lemma_sorted_agree(a, b, j);
        assert(lex_lt(b[j], b[m]));
        lemma_lex_irreflexive(b[m]);
    }
}

/// Two strictly sorted sequences with the same elements are equal.
pub proof fn lemma_sorted_unique(a: Seq<Seq<char>>, b: Seq<Seq<char>>)
    requires
        strictly_sorted(a),
        strictly_sorted(b),
        a.to_set() == b.to_set(),
    ensures
        a == b,
{
    lemma_sorted_no_longer(a, b);
    lemma_sorted_no_longer(b, a);
    assert forall|i: int| 0 <= i < a.len() implies a[i] == b[i] by {
        lemma_sorted_agree(a, b, i);
    }
    assert(a =~= b);
}

/// `x` put in its place in a strictly sorted sequence, unless it is there already.
pub open spec fn sorted_insert(v: Seq<Seq<char>>, x: Seq<char>) -> Seq<Seq<char>>
    decreases v.len(),
{
    if v.len() == 0 {
        seq![x]
    } else if v[0] == x {
        v
    } else if lex_lt(x, v[0]) {
        seq![x] + v
    } else {
        seq![v[0]] + sorted_insert(v.drop_first(), x)
    }
}

pub proof fn lemma_sorted_insert(v: Seq<Seq<char>>, x: Seq<char>)
    requires
        strictly_sorted(v),
    ensures
        strictly_sorted(sorted_insert(v, x)),
        sorted_insert(v, x).to_set() == v.to_set().insert(x),
        sorted_insert(v, x).len() > 0,
        sorted_insert(v, x)[0] == x || (v.len() > 0 && sorted_insert(v, x)[0] == v[0]),
    decreases v.len(),
{
    if v.len() == 0 {
        assert(seq![x].to_set() =~= Set::<Seq<char>>::empty().insert(x)) by {
            assert(seq![x][0] == x);
        }
        assert(v.to_set() =~= Set::<Seq<char>>::empty());
    } else if v[0] == x {
        assert(v.to_set().insert(x) =~= v.to_set()) by {
            assert(v.to_set().contains(v[0]));
        }
    } else {
        let t = v.drop_first();
        assert(strictly_sorted(t));
        assert(v =~= seq![v[0]] + t);
        lemma_lex_total(x, v[0]);
        if lex_lt(x, v[0]) {
            let r = seq![x] + v;
            assert forall|i: int, j: int| 0 <= i < j < r.len() implies lex_lt(#[trigger] r[i], #[trigger] r[j]) by {
                if i == 0 && j > 1 {
                    lemma_lex_transitive(x, v[0], v[j - 1]);
                }
            }
            assert(r.to_set() =~= v.to_set().insert(x)) by {
                assert forall|y: Seq<char>| r.to_set().contains(y) <==> v.to_set().insert(x).contains(y) by {
                    if r.to_set().contains(y) {
                        let k = choose|k: int| 0 <= k < r.len() && r[k] == y;
                        if k > 0 {
                            assert(v[k - 1] == y);
                        }
                    }
                    if v.to_set().contains(y) {
                        let k = choose|k: int| 0 <= k < v.len() && v[k] == y;
                        assert(r[k + 1] == y);
                    }
                    if y == x {
                        assert(r[0] == y);
                    }
                }
            }
        } else {
            lemma_sorted_insert(t, x);
            let u = sorted_insert(t, x);
            let r = seq![v[0]] + u;
            assert forall|i: int, j: int| 0 <= i < j < r.len() implies lex_lt(#[trigger] r[i], #[trigger] r[j]) by {
                if i == 0 {
                    let y = u[j - 1];
                    assert(u.to_set().contains(y));
                    assert(t.to_set().insert(x).contains(y));
                    if y != x {
                        let k = choose|k: int| 0 <= k < t.len() && t[k] == y;
                        assert(v[k + 1] == y);
                    }
                }
            }
            assert(r.to_set() =~= v.to_set().insert(x)) by {
                assert forall|y: Seq<char>| r.to_set().contains(y) <==> v.to_set().insert(x).contains(y) by {
                    if r.to_set().contains(y) {
                        let k = choose|k: int| 0 <= k < r.len() && r[k] == y;
                        if k > 0 {
                            assert(u.to_set().contains(u[k - 1]));
                            if u[k - 1] != x {
                                let m = choose|m: int| 0 <= m < t.len() && t[m] == u[k - 1];
                                assert(v[m + 1] == y);
                            }
                        } else {
                            assert(v[0] == y);
                        }
                    }
                    if v.to_set().contains(y) {
                        let k = choose|k: int| 0 <= k < v.len() && v[k] == y;
                        if k == 0 {
                            assert(r[0] == y);
                        } else {
                            assert(t[k - 1] == y);
                            assert(t.to_set().contains(y));
                            assert(u.to_set().contains(y));
                            let m = choose|m: int| 0 <= m < u.len() && u[m] == y;
                            assert(r[m + 1] == y);
                        }
                    }
                    if y == x {
                        assert(u.to_set().contains(x));
                        let m = choose|m: int| 0 <= m < u.len() && u[m] == x;
                        assert(r[m + 1] == y);
                    }
                }
            }
        }
    }
}

/// A strictly sorted sequence is the sorted form of its set of elements.
pub proof fn lemma_sorted_of(a: Seq<Seq<char>>)
    requires
        strictly_sorted(a),
    ensures
        sorted_of(a.to_set()) == a,
{
    let s = a.to_set();
    assert(strictly_sorted(a) && a.to_set() == s);
    let v = sorted_of(s);
    lemma_sorted_unique(v, a);
}

/// The character sequences held by a vector of character vectors.
pub open spec fn seqs(v: Seq<Vec<char>>) -> Seq<Seq<char>> {
    v.map_values(|x: Vec<char>| x@)
}

/// The character sequences held by a vector of strings.
pub open spec fn strs(v: Seq<String>) -> Seq<Seq<char>> {
    v.map_values(|x: String| x@)
}

/// Whether `a` comes before `b` in the order of `str`.
pub fn lex_less(a: &[char], b: &[char]) -> (r: bool)
    ensures
        r == lex_lt(a@, b@),
{
    let mut k: usize = 0;
    assert(a@.skip(0) =~= a@);
    assert(b@.skip(0) =~= b@);
    while k < a.len() && k < b.len() && a[k] == b[k]
        invariant
            k <= a@.len(),
            k <= b@.len(),
            lex_lt(a@, b@) == lex_lt(a@.skip(k as int), b@.skip(k as int)),
        decreases a@.len() - k,
    {
        proof {
            assert(a@.skip(k as int).drop_first() =~= a@.skip(k + 1));
            assert(b@.skip(k as int).drop_first() =~= b@.skip(k + 1));
        }
        k = k + 1;
    }
    assert(k < a@.len() ==> a@.skip(k as int)[0] == a@[k as int]);
    assert(k < b@.len() ==> b@.skip(k as int)[0] == b@[k as int]);
    if k == a.len() {
        k < b.len()
    } else if k == b.len() {
        false
    } else {
        a[k] < b[k]
    }
}

/// Inserts `x` into a strictly sorted vector unless it is already there.
pub fn insert_sorted(v: &mut Vec<Vec<char>>, x: Vec<char>)
    requires
        strictly_sorted(seqs(old(v)@)),
    ensures
        strictly_sorted(seqs(final(v)@)),
        seqs(final(v)@).to_set() == seqs(old(v)@).to_set().insert(x@),
{
    let ghost s0 = seqs(v@);
    let mut p: usize = 0;
    while p < v.len() && lex_less(v[p].as_slice(), x.as_slice())
        invariant
            p <= v@.len(),
            seqs(v@) == s0,
            strictly_sorted(s0),
            forall|i: int| 0 <= i < p ==> lex_lt(#[trigger] s0[i], x@),
        decreases v@.len() - p,
    {
        p = p + 1;
    }
    if p < v.len() && eq_exec(v[p].as_slice(), x.as_slice()) {
        proof {
            assert(s0.to_set().insert(x@) =~= s0.to_set()) by {
                assert(s0[p as int] == x@);
            }
        }
        return;
    }
    let ghost xs = x@;
    v.insert(p, x);
    proof {
        let s1 = seqs(v@);
        assert(s1 =~= s0.insert(p as int, xs));
        if p < s0.len() {
            lemma_lex_total(s0[p as int], xs);
        }
        assert forall|i: int, j: int| 0 <= i < j < s1.len() implies lex_lt(#[trigger] s1[i], #[trigger] s1[j]) by {
            if j < p {
            } else if j == p {
            } else if i < p {
                lemma_lex_transitive(s1[i], xs, s0[p as int]);
                if j - 1 > p {
                    lemma_lex_transitive(s1[i], s0[p as int], s1[j]);
                }
            } else if i == p {
                if j - 1 > p {
                    lemma_lex_transitive(xs, s0[p as int], s1[j]);
                }
            } else {
            }
        }
        assert(s1.to_set() =~= s0.to_set().insert(xs)) by {
            assert forall|y: Seq<char>| s1.to_set().contains(y) <==> s0.to_set().insert(xs).contains(y) by {
                if s1.to_set().contains(y) {
                    let k = choose|k: int| 0 <= k < s1.len() && s1[k] == y;
                    if k < p {
                        assert(s0[k] == y);
                    } else if k > p {
                        assert(s0[k - 1] == y);
                    }
                }
                if s0.to_set().contains(y) {
                    let k = choose|k: int| 0 <= k < s0.len() && s0[k] == y;
                    if k < p {
                        assert(s1[k] == y);
                    } else {
                        assert(s1[k + 1] == y);
                    }
                }
                if y == xs {
                    assert(s1[p as int] == y);
                }
            }
        }
    }
}

/// `char::to_ascii_lowercase`.
pub fn lower_char_exec(c: char) -> (r: char)
    ensures
        r == lower_char(c),
{
    if c >= 'A' && c <= 'Z' {
        let b = (c as u8) + 32;
        assert((b as char) == (((c as u32) + 32) as char));
        b as char
    } else {
        c
    }
}

/// `str::to_ascii_lowercase`.
pub fn lower_exec(s: &[char]) -> (r: Vec<char>)
    ensures
        r@ == lower(s@),
{
    let mut r: Vec<char> = Vec::new();
    let mut k: usize = 0;
    while k < s.len()
        invariant
            k <= s@.len(),
            r@ == lower(s@.take(k as int)),
        decreases s@.len() - k,
    {
        r.push(lower_char_exec(s[k]));
        k = k + 1;
        assert(r@ =~= lower(s@.take(k as int)));
    }
    assert(s@.take(k as int) =~= s@);
    r
}

/// The pieces of `s` between occurrences of `c`, from index `i` on (`str::split`).
pub open spec fn split_from(s: Seq<char>, i: int, c: char) -> Seq<Seq<char>>
    decreases s.len() + 1 - i,
{
    if i < 0 || i > s.len() {
        Seq::empty()
    } else {
        let e = next_char(s, i, c);
        proof {
            lemma_next_char_bounds(s, i, c);
        }
        if e >= s.len() {
            seq![s.subrange(i, s.len() as int)]
        } else {
            seq![s.subrange(i, e)] + split_from(s, e + 1, c)
        }
    }
}

pub open spec fn split(s: Seq<char>, c: char) -> Seq<Seq<char>> {
    split_from(s, 0, c)
}

/// The pieces of `s` between occurrences of `c`, as index ranges.
pub fn split_ranges(s: &[char], c: char) -> (r: Vec<(usize, usize)>)
    ensures
        ranges_within(s@, r@),
        ranged(s@, r@) == split(s@, c),
{
    let mut out: Vec<(usize, usize)> = Vec::new();
    let mut i: usize = 0;
    loop
        invariant
            i <= s@.len(),
            ranges_within(s@, out@),
            split(s@, c) == ranged(s@, out@) + split_from(s@, i as int, c),
        decreases s@.len() - i,
    {
        let e = next_char_exec(s, i, c);
        let ghost old_out = out@;
        if e >= s.len() {
            out.push((i, s.len()));
            assert(ranged(s@, out@) =~= ranged(s@, old_out) + split_from(s@, i as int, c));
            return out;
        }
        out.push((i, e));
        assert(ranges_within(s@, out@)) by {
            assert forall|k: int| 0 <= k < out@.len() implies #[trigger] out@[k].0 <= out@[k].1 <= s@.len() by {
                if k < old_out.len() {
                    assert(out@[k] == old_out[k]);
                    assert(old_out[k].0 <= old_out[k].1 <= s@.len());
                } else {
                    assert(out@[k] == (i, e));
                }
            }
        }
        assert(ranged(s@, out@) =~= ranged(s@, old_out).push(s@.subrange(i as int, e as int)));
        assert(ranged(s@, out@) + split_from(s@, e + 1, c) =~= ranged(s@, old_out) + split_from(s@, i as int, c));
        i = e + 1;
    }
}

/// Decimal digits of a natural number (`u64::to_string`).
pub open spec fn decimal(n: nat) -> Seq<char>
    decreases n,
{
    if n < 10 {
        seq![digit_char(n)]
    } else {
        decimal(n / 10).push(digit_char(n % 10))
    }
}

pub open spec fn digit_char(d: nat) -> char {
    if d == 0 { '0' } else if d == 1 { '1' } else if d == 2 { '2' } else if d == 3 { '3' }
    else if d == 4 { '4' } else if d == 5 { '5' } else if d == 6 { '6' } else if d == 7 { '7' }
    else if d == 8 { '8' } else { '9' }
}

fn digit_of(d: u64) -> (c: char)
    requires
        d < 10,
    ensures
        c == digit_char(d as nat),
{
    if d == 0 { '0' } else if d == 1 { '1' } else if d == 2 { '2' } else if d == 3 { '3' }
    else if d == 4 { '4' } else if d == 5 { '5' } else if d == 6 { '6' } else if d == 7 { '7' }
    else if d == 8 { '8' } else { '9' }
}

/// Appends the decimal digits of `n` to `out`.
pub fn push_decimal(out: &mut Vec<char>, n: u64)
    ensures
        final(out)@ == old(out)@ + decimal(n as nat),
    decreases n,
{
    if n < 10 {
        out.push(digit_of(n));
        assert(out@ =~= old(out)@ + decimal(n as nat));
    } else {
        push_decimal(out, n / 10);
        out.push(digit_of(n % 10));
        assert(out@ =~= old(out)@ + decimal(n as nat));
    }
}

} // verus!
