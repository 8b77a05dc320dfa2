//! Text as character sequences: conversion, search, trimming and splitting.

use vstd::prelude::*;
use vstd::string::*;
use vstd::utf8::*;

verus! {

/// `String::push` appends one character.
pub assume_specification[ std::string::String::push ](s: &mut std::string::String, ch: char)
    ensures
        final(s)@ == old(s)@.push(ch),
;

/// The text that `String::from_utf8_lossy` makes of a byte string: bytes that
/// are no UTF-8 are replaced by U+FFFD.
pub uninterp spec fn utf8_lossy(bytes: Seq<u8>) -> Seq<char>;

/// The text read from a byte string: its UTF-8 decoding where it is valid
/// UTF-8, and the lossy decoding elsewhere.
pub open spec fn lossy_text(bytes: Seq<u8>) -> Seq<char> {
    if valid_utf8(bytes) {
        decode_utf8(bytes)
    } else {
        utf8_lossy(bytes)
    }
}

/// `String::from_utf8_lossy`, copied into a `String`. Valid UTF-8 is decoded
/// as it stands; what replaces invalid bytes is not spelled out.
#[verifier::external_body]
pub(crate) fn lossy_string(bytes: &[u8]) -> (s: String)
    ensures
        s@ == (if valid_utf8(bytes@) {
            decode_utf8(bytes@)
        } else {
            utf8_lossy(bytes@)
        }),
{
    String::from_utf8_lossy(bytes).to_string()
}

/// `std::str::from_utf8`: succeeds exactly on valid UTF-8.
#[verifier::external_body]
pub(crate) fn utf8_str(bytes: &[u8]) -> (r: Option<&str>)
    ensures
        r is Some <==> valid_utf8(bytes@),
        r is Some ==> r->0@ == decode_utf8(bytes@),
{
    std::str::from_utf8(bytes).ok()
}

/// Decoding gives back the text that was encoded.
pub proof fn lemma_utf8_roundtrip(s: Seq<char>)
    ensures
        valid_utf8(encode_utf8(s)),
        decode_utf8(encode_utf8(s)) == s,
        lossy_text(encode_utf8(s)) == s,
{
    encode_utf8_valid_utf8(s);
    encode_utf8_decode_utf8(s);
}

/// The characters of a string slice.
pub fn chars_of(s: &str) -> (v: Vec<char>)
    ensures
        v@ == s@,
{
    let mut v: Vec<char> = Vec::new();
    for c in it: s.chars()
        invariant
            it.seq() == s@,
            v@ == s@.take(it.index() as int),
    {
        v.push(c);
        assert(v@ =~= s@.take(it.index() + 1));
    }
    assert(v@ =~= s@);
    v
}

/// The string made of the given characters.
pub fn string_of(v: &[char]) -> (s: String)
    ensures
        s@ == v@,
{
    let mut s: String = String::new();
    let mut i: usize = 0;
    while i < v.len()
        invariant
            i <= v@.len(),
            s@ == v@.take(i as int),
        decreases v@.len() - i,
    {
        s.push(v[i]);
        i += 1;
        assert(s@ =~= v@.take(i as int));
    }
    assert(s@ =~= v@);
    s
}

// ---------- character classes ----------

/// The Unicode `White_Space` property.
pub open spec fn is_space(c: char) -> bool {
    let u: u32 = c as u32;
    ||| 0x09 <= u <= 0x0d
    ||| u == 0x20
    ||| u == 0x85
    ||| u == 0xa0
    ||| u == 0x1680
    ||| 0x2000 <= u <= 0x200a
    ||| u == 0x2028
    ||| u == 0x2029
    ||| u == 0x202f
    ||| u == 0x205f
    ||| u == 0x3000
}

pub fn char_is_space(c: char) -> (r: bool)
    ensures
        r == is_space(c),
{
    let u: u32 = c as u32;
    (0x09 <= u && u <= 0x0d) || u == 0x20 || u == 0x85 || u == 0xa0 || u == 0x1680 || (0x2000 <= u
        && u <= 0x200a) || u == 0x2028 || u == 0x2029 || u == 0x202f || u == 0x205f || u == 0x3000
}

/// The characters that ASCII counts as punctuation.
pub open spec fn is_punct(c: char) -> bool {
    ||| '!' <= c <= '/'
    ||| ':' <= c <= '@'
    ||| '[' <= c <= '`'
    ||| '{' <= c <= '~'
}

pub fn char_is_punct(c: char) -> (r: bool)
    ensures
        r == is_punct(c),
{
    ('!' <= c && c <= '/') || (':' <= c && c <= '@') || ('[' <= c && c <= '`') || ('{' <= c && c
        <= '~')
}

/// What `char::is_alphanumeric` answers.
pub uninterp spec fn is_alnum(c: char) -> bool;

/// `char::is_alphanumeric`: alphabetic or numeric by Unicode. Of the ASCII
/// characters these are the letters and the digits.
pub assume_specification[ char::is_alphanumeric ](c: char) -> (r: bool)
    ensures
        r == is_alnum(c),
        (c as u32) < 0x80 ==> (r <==> ('0' <= c <= '9' || 'a' <= c <= 'z' || 'A' <= c <= 'Z')),
;

// ---------- search ----------

/// `needle` stands in `hay` from position `i` on.
pub open spec fn occurs_at(hay: Seq<char>, needle: Seq<char>, i: int) -> bool {
    &&& 0 <= i
    &&& i + needle.len() <= hay.len()
    &&& hay.subrange(i, i + needle.len()) == needle
}

/// `needle` stands somewhere in `hay`.
pub open spec fn contains_text(hay: Seq<char>, needle: Seq<char>) -> bool {
    exists|i: int| #[trigger] occurs_at(hay, needle, i)
}

fn matches_at(hay: &[char], needle: &[char], i: usize) -> (r: bool)
    requires
        i + needle@.len() <= hay@.len(),
    ensures
        r == occurs_at(hay@, needle@, i as int),
{
    let n: usize = needle.len();
    let h: usize = hay.len();
    let mut k: usize = 0;
    while k < n
        invariant
            k <= n,
            n == needle@.len(),
            h == hay@.len(),
            i + n <= h,
            forall|j: int| 0 <= j < k ==> hay@[i + j] == needle@[j],
        decreases n - k,
    {
        if hay[i + k] != needle[k] {
            assert(hay@.subrange(i as int, i + needle@.len())[k as int] != needle@[k as int]);
            return false;
        }
        k += 1;
    }
    assert(hay@.subrange(i as int, i + needle@.len()) =~= needle@);
    true
}

/// The first position of `needle` in `hay`.
pub fn find_text(hay: &[char], needle: &[char]) -> (r: Option<usize>)
    ensures
        match r {
            Some(i) => occurs_at(hay@, needle@, i as int) && forall|j: int|
                #![trigger occurs_at(hay@, needle@, j)]
                0 <= j < i ==> !occurs_at(hay@, needle@, j),
            None => !contains_text(hay@, needle@),
        },
{
    let n: usize = needle.len();
    let h: usize = hay.len();
    if n > h {
        return None;
    }
    let mut i: usize = 0;
    while i <= h - n
        invariant
            n == needle@.len(),
            h == hay@.len(),
            n <= h,
            i <= h - n + 1,
            forall|j: int|
                #![trigger occurs_at(hay@, needle@, j)]
                0 <= j < i ==> !occurs_at(hay@, needle@, j),
        decreases h - n + 1 - i,
    {
        if matches_at(hay, needle, i) {
            return Some(i);
        }
        if i == h - n {
            assert forall|j: int| !#[trigger] occurs_at(hay@, needle@, j) by {
                if occurs_at(hay@, needle@, j) {
                    assert(j <= h - n);
                }
            }
            return None;
        }
        i += 1;
    }
    None
}

/// Whether `needle` stands somewhere in `hay`.
pub fn str_contains(hay: &str, needle: &[char]) -> (r: bool)
    ensures
        r == contains_text(hay@, needle@),
{
    if needle.len() == 0 {
        assert(hay@.subrange(0, 0) =~= needle@);
        assert(occurs_at(hay@, needle@, 0));
        return true;
    }
    let h: Vec<char> = chars_of(hay);
    find_text(&h, needle).is_some()
}

/// Equality of two character slices.
pub fn same_chars(a: &[char], b: &[char]) -> (r: bool)
    ensures
        r == (a@ == b@),
{
    if a.len() != b.len() {
        return false;
    }
    let mut i: usize = 0;
    while i < a.len()
        invariant
            i <= a@.len(),
            a@.len() == b@.len(),
            forall|j: int| 0 <= j < i ==> a@[j] == b@[j],
        decreases a@.len() - i,
    {
        if a[i] != b[i] {
            return false;
        }
        i += 1;
    }
    assert(a@ =~= b@);
    true
}

/// Whether two strings hold the same text.
pub fn same_text(a: &str, b: &str) -> (r: bool)
    ensures
        r == (a@ == b@),
{
    let x: &[u8] = a.as_bytes();
    let y: &[u8] = b.as_bytes();
    proof {
        encode_utf8_decode_utf8(a@);
        encode_utf8_decode_utf8(b@);
    }
    if x.len() != y.len() {
        return false;
    }
    let mut i: usize = 0;
    while i < x.len()
        invariant
            i <= x@.len(),
            x@.len() == y@.len(),
            x@ == encode_utf8(a@),
            y@ == encode_utf8(b@),
            forall|j: int| 0 <= j < i ==> x@[j] == y@[j],
        decreases x@.len() - i,
    {
        if x[i] != y[i] {
            return false;
        }
        i += 1;
    }
    assert(x@ =~= y@);
    true
}

// ---------- trimming and splitting ----------

/// No white space at the front: the text from its first other character on.
pub open spec fn trim_start(s: Seq<char>) -> Seq<char>
    decreases s.len(),
{
    if s.len() > 0 && is_space(s[0]) {
        trim_start(s.drop_first())
    } else {
        s
    }
}

/// No white space at the back.
pub open spec fn trim_end(s: Seq<char>) -> Seq<char>
    decreases s.len(),
{
    if s.len() > 0 && is_space(s.last()) {
        trim_end(s.drop_last())
    } else {
        s
    }
}

/// The text without the white space around it.
pub open spec fn trimmed(s: Seq<char>) -> Seq<char> {
    trim_end(trim_start(s))
}

proof fn lemma_trim_start(a: Seq<char>, s: Seq<char>)
    requires
        forall|i: int| 0 <= i < a.len() ==> is_space(#[trigger] a[i]),
    ensures
        trim_start(a + s) == trim_start(s),
    decreases a.len(),
{
    if a.len() == 0 {
        assert(a + s =~= s);
    } else {
        let rest: Seq<char> = a.drop_first();
        assert forall|i: int| 0 <= i < rest.len() implies is_space(#[trigger] rest[i]) by {
            assert(rest[i] == a[i + 1]);
        }
        lemma_trim_start(rest, s);
        assert((a + s).drop_first() =~= rest + s);
        assert(is_space(a[0]));
    }
}

proof fn lemma_trim_end(s: Seq<char>, b: Seq<char>)
    requires
        forall|i: int| 0 <= i < b.len() ==> is_space(#[trigger] b[i]),
    ensures
        trim_end(s + b) == trim_end(s),
    decreases b.len(),
{
    if b.len() == 0 {
        assert(s + b =~= s);
    } else {
        let rest: Seq<char> = b.drop_last();
        assert forall|i: int| 0 <= i < rest.len() implies is_space(#[trigger] rest[i]) by {
            assert(rest[i] == b[i]);
        }
        lemma_trim_end(s, rest);
        assert((s + b).drop_last() =~= s + rest);
        assert(is_space(b[b.len() - 1]));
    }
}

/// Trimming takes away the white space around a text, and nothing else.
pub proof fn law_trimmed(a: Seq<char>, s: Seq<char>, b: Seq<char>)
    requires
        forall|i: int| 0 <= i < a.len() ==> is_space(#[trigger] a[i]),
        forall|i: int| 0 <= i < b.len() ==> is_space(#[trigger] b[i]),
        s.len() > 0 ==> !is_space(s[0]) && !is_space(s.last()),
    ensures
        trimmed(a + s + b) == s,
{
    assert(a + s + b =~= a + (s + b));
    lemma_trim_start(a, s + b);
    if s.len() > 0 {
        assert((s + b)[0] == s[0]);
        assert(trim_start(s + b) == s + b);
        lemma_trim_end(s, b);
    } else {
        assert(s + b =~= b + s);
        lemma_trim_start(b, s);
        assert(s =~= Seq::<char>::empty());
    }
}

/// The text without the white space around it.
pub fn trim_chars(s: &[char]) -> (r: Vec<char>)
    ensures
        r@ == trimmed(s@),
{
    let n: usize = s.len();
    let mut i: usize = 0;
    assert(s@.subrange(0, n as int) =~= s@);
    while i < n && char_is_space(s[i])
        invariant
            i <= n,
            n == s@.len(),
            trim_start(s@.subrange(i as int, n as int)) == trim_start(s@),
        decreases n - i,
    {
        assert(s@.subrange(i as int, n as int).drop_first() =~= s@.subrange(i + 1, n as int));
        i += 1;
    }
    let ghost front = s@.subrange(i as int, n as int);
    assert(trim_start(s@) == front);
    let mut j: usize = n;
    while j > i && char_is_space(s[j - 1])
        invariant
            i <= j <= n,
            n == s@.len(),
            front == s@.subrange(i as int, n as int),
            trim_end(s@.subrange(i as int, j as int)) == trim_end(front),
        decreases j,
    {
        assert(s@.subrange(i as int, j as int).drop_last() =~= s@.subrange(i as int, j - 1));
        j -= 1;
    }
    let mut r: Vec<char> = Vec::new();
    let mut k: usize = i;
    while k < j
        invariant
            i <= k <= j <= n,
            n == s@.len(),
            r@ == s@.subrange(i as int, k as int),
        decreases j - k,
    {
        r.push(s[k]);
        k += 1;
        assert(r@ =~= s@.subrange(i as int, k as int));
    }
    r
}

/// The texts held by a list of strings.
pub open spec fn texts(v: Seq<String>) -> Seq<Seq<char>> {
    Seq::new(v.len(), |i: int| v[i]@)
}

/// The white space of ASCII is the tabulators, the line feed, the form feed, the
/// carriage return and the blank; letters, digits and punctuation are none.
pub proof fn law_ascii_space(c: char)
    requires
        c <= '\u{7f}',
    ensures
        is_space(c) <==> c == '\t' || c == '\n' || c == '\u{b}' || c == '\u{c}' || c == '\r' || c
            == ' ',
{
}

/// Punctuation is what ASCII shows, but for letters, digits and the blank.
pub proof fn law_punctuation(c: char)
    ensures
        is_punct(c) <==> '!' <= c <= '~' && !('0' <= c <= '9') && !('a' <= c <= 'z') && !('A' <= c
            <= 'Z'),
{
}

} // verus!
