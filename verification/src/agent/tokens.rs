//! Splitting messages into tokens, and the types and signatures of tokens.

use crate::agent::template::TemplateExtractor;
use crate::agent::typed;
use crate::agent::typed::{ParamType, TypedParam};
use crate::shared::text;
use vstd::prelude::*;
use vstd::string::*;
use vstd::utf8::*;

verus! {

/// Characters that words are made of.
pub open spec fn is_word_char(c: char) -> bool {
    !text::is_space(c) && (text::is_alnum(c) || c == '_' || c == '-' || c == '.' || c == ':')
}

fn char_in_word(c: char) -> (r: bool)
    ensures
        r == is_word_char(c),
{
    if text::char_is_space(c) {
        return false;
    }
    let alnum: bool = c.is_alphanumeric();
    alnum || c == '_' || c == '-' || c == '.' || c == ':'
}

/// The tokens of a message: maximal words, and every other character by
/// itself.
pub open spec fn tokens_of(s: Seq<char>) -> Seq<Seq<char>>
    decreases s.len(),
{
    if s.len() == 0 {
        Seq::empty()
    } else {
        let head: Seq<Seq<char>> = tokens_of(s.drop_last());
        if is_word_char(s.last()) && s.len() > 1 && is_word_char(s[s.len() - 2]) {
            head.drop_last().push(head.last().push(s.last()))
        } else {
            head.push(seq![s.last()])
        }
    }
}

/// Texts one after the other.
pub open spec fn concat(ts: Seq<Seq<char>>) -> Seq<char>
    decreases ts.len(),
{
    if ts.len() == 0 {
        Seq::empty()
    } else {
        concat(ts.drop_last()) + ts.last()
    }
}

/// The tokens of a message, one after the other, are the message.
pub proof fn law_tokens_concat(s: Seq<char>)
    ensures
        concat(tokens_of(s)) == s,
        s.len() > 0 ==> tokens_of(s).len() > 0,
        forall|i: int| 0 <= i < tokens_of(s).len() ==> (#[trigger] tokens_of(s)[i]).len() > 0,
    decreases s.len(),
{
    if s.len() > 0 {
        let c: char = s.last();
        law_tokens_concat(s.drop_last());
        let head: Seq<Seq<char>> = tokens_of(s.drop_last());
        let ts: Seq<Seq<char>> = tokens_of(s);
        if is_word_char(c) && s.len() > 1 && is_word_char(s[s.len() - 2]) {
            assert(ts.drop_last() =~= head.drop_last());
            assert(concat(ts) =~= concat(head.drop_last()) + head.last().push(c));
            assert(concat(head) == concat(head.drop_last()) + head.last());
            assert(s =~= s.drop_last().push(c));
        } else {
            assert(ts.drop_last() =~= head);
            assert(s =~= s.drop_last() + seq![c]);
        }
    }
}

impl TemplateExtractor {
    /// Splits a message into tokens.
    pub fn tokenize(msg: &str) -> (r: Vec<String>)
        ensures
            text::texts(r@) == tokens_of(msg@),
    {
        let chars: Vec<char> = text::chars_of(msg);
        let n: usize = chars.len();
        let ghost s = msg@;
        let mut tokens: Vec<String> = Vec::new();
        let mut current: String = String::new();
        let mut open: bool = false;
        let mut i: usize = 0;
        assert(text::texts(tokens@) =~= Seq::<Seq<char>>::empty());
        while i < n
            invariant
                i <= n,
                n == s.len(),
                chars@ == s,
                open <==> (i > 0 && is_word_char(s[i - 1])),
                !open ==> current@.len() == 0,
                tokens_of(s.take(i as int)) == if open {
                    text::texts(tokens@).push(current@)
                } else {
                    text::texts(tokens@)
                },
            decreases n - i,
        {
            let c: char = chars[i];
            let ghost before = s.take(i as int);
            let ghost after = s.take(i + 1);
            let ghost done = text::texts(tokens@);
            let ghost word = current@;
            assert(after.drop_last() =~= before);
            assert(after.last() == c);
            if i > 0 {
                assert(after[after.len() - 2] == s[i - 1]);
            }
            if char_in_word(c) {
                if open {
                    assert(tokens_of(before).drop_last() =~= done);
                    assert(tokens_of(before).last() == word);
                }
                current.push(c);
                assert(!open ==> current@ =~= seq![c]);
                open = true;
            } else {
                if open {
                    let ghost old_tokens = tokens@;
                    tokens.push(current);
                    assert(text::texts(tokens@) =~= text::texts(old_tokens).push(word));
                    current = String::new();
                }
                let ghost old_tokens = tokens@;
                let mut single: String = String::new();
                single.push(c);
                assert(single@ =~= seq![c]);
                tokens.push(single);
                assert(text::texts(tokens@) =~= text::texts(old_tokens).push(seq![c]));
                open = false;
            }
            i += 1;
        }
        assert(s.take(n as int) =~= s);
        if open {
            let ghost old_tokens = tokens@;
            let ghost word = current@;
            tokens.push(current);
            assert(text::texts(tokens@) =~= text::texts(old_tokens).push(word));
        }
        tokens
    }
}

/// Every character is white space.
pub open spec fn all_space(s: Seq<char>) -> bool {
    forall|i: int| 0 <= i < s.len() ==> text::is_space(#[trigger] s[i])
}

/// Every character is punctuation.
pub open spec fn all_punct(s: Seq<char>) -> bool {
    forall|i: int| 0 <= i < s.len() ==> text::is_punct(#[trigger] s[i])
}

/// The type of a token, as a letter.
pub open spec fn token_class(s: Seq<char>) -> char {
    if all_space(s) {
        'S'
    } else {
        match typed::param_kind(s) {
            ParamType::IPv4Port => 'P',
            ParamType::IPv4 => 'I',
            ParamType::Timestamp => 'T',
            ParamType::BlockId => 'B',
            ParamType::Hex => 'H',
            ParamType::Integer => 'N',
            ParamType::Path => 'h',
            ParamType::String => if all_punct(s) {
                'C'
            } else {
                'W'
            },
        }
    }
}

fn chars_all_space(s: &[char]) -> (r: bool)
    ensures
        r == all_space(s@),
{
    let mut i: usize = 0;
    while i < s.len()
        invariant
            i <= s@.len(),
            forall|k: int| 0 <= k < i ==> text::is_space(#[trigger] s@[k]),
        decreases s@.len() - i,
    {
        if !text::char_is_space(s[i]) {
            return false;
        }
        i += 1;
    }
    true
}

fn chars_all_punct(s: &[char]) -> (r: bool)
    ensures
        r == all_punct(s@),
{
    let mut i: usize = 0;
    while i < s.len()
        invariant
            i <= s@.len(),
            forall|k: int| 0 <= k < i ==> text::is_punct(#[trigger] s@[k]),
        decreases s@.len() - i,
    {
        if !text::char_is_punct(s[i]) {
            return false;
        }
        i += 1;
    }
    true
}

/// The type of a token, as a letter.
pub fn token_type(t: &str) -> (r: char)
    ensures
        r == token_class(t@),
{
    let chars: Vec<char> = text::chars_of(t);
    if chars_all_space(&chars) {
        return 'S';
    }
    if TypedParam::try_ipv4_port(t).is_some() {
        return 'P';
    }
    if TypedParam::try_ipv4(t).is_some() {
        return 'I';
    }
    if TypedParam::try_timestamp(t).is_some() {
        return 'T';
    }
    if TypedParam::try_block_id(t).is_some() {
        return 'B';
    }
    if TypedParam::try_hex(t).is_some() {
        return 'H';
    }
    if TypedParam::try_integer(t).is_some() {
        return 'N';
    }
    if TypedParam::looks_like_path(t) {
        return 'h';
    }
    if chars_all_punct(&chars) {
        return 'C';
    }
    'W'
}

/// The types of tokens.
pub open spec fn classes(ts: Seq<Seq<char>>) -> Seq<char> {
    Seq::new(ts.len(), |i: int| token_class(ts[i]))
}

/// The structure of a message: its first token, where that is a word of at
/// most 64 bytes, and the types of all tokens.
pub open spec fn signature(ts: Seq<Seq<char>>) -> Seq<char> {
    if ts.len() > 0 && token_class(ts[0]) == 'W' && encode_utf8(ts[0]).len() <= 64 {
        ts[0].push('|') + classes(ts)
    } else {
        classes(ts)
    }
}

/// The types of the first `left` tokens that are not white space.
pub open spec fn leading_classes(ts: Seq<Seq<char>>, left: nat) -> Seq<char>
    decreases ts.len(),
{
    if ts.len() == 0 || left == 0 {
        Seq::empty()
    } else if all_space(ts[0]) {
        leading_classes(ts.drop_first(), left)
    } else {
        seq![token_class(ts[0])] + leading_classes(ts.drop_first(), (left - 1) as nat)
    }
}

/// The types of the given tokens, one by one.
pub fn token_types(tokens: &[String]) -> (r: Vec<char>)
    ensures
        r@ == classes(text::texts(tokens@)),
{
    let mut r: Vec<char> = Vec::new();
    let mut i: usize = 0;
    let ghost ts = text::texts(tokens@);
    while i < tokens.len()
        invariant
            i <= tokens@.len(),
            ts == text::texts(tokens@),
            r@.len() == i,
            forall|k: int| 0 <= k < i ==> #[trigger] r@[k] == token_class(ts[k]),
        decreases tokens@.len() - i,
    {
        r.push(token_type(tokens[i].as_str()));
        i += 1;
    }
    assert(r@ =~= classes(ts));
    r
}

/// The structure of a message, given the types of its tokens.
pub fn structural_signature(tokens: &[String], types: &[char]) -> (r: Vec<char>)
    requires
        types@ == classes(text::texts(tokens@)),
    ensures
        r@ == signature(text::texts(tokens@)),
{
    let ghost ts = text::texts(tokens@);
    let mut r: Vec<char> = Vec::new();
    if tokens.len() > 0 && types[0] == 'W' && tokens[0].as_str().as_bytes().len() <= 64 {
        assert(ts[0] == tokens@[0]@);
        r = text::chars_of(tokens[0].as_str());
        r.push('|');
    }
    let ghost front = r@;
    let mut i: usize = 0;
    assert(r@ =~= front + types@.take(0));
    while i < types.len()
        invariant
            i <= types@.len(),
            r@ == front + types@.take(i as int),
        decreases types@.len() - i,
    {
        r.push(types[i]);
        i += 1;
        assert(r@ =~= front + types@.take(i as int));
    }
    assert(types@.take(types@.len() as int) =~= types@);
    assert(r@ =~= signature(ts));
    r
}

/// The types of the first three tokens that are not white space, given the
/// types of all tokens.
pub fn leading_types(tokens: &[String], types: &[char]) -> (r: Vec<char>)
    requires
        types@ == classes(text::texts(tokens@)),
    ensures
        r@ == leading_classes(text::texts(tokens@), 3),
{
    let ghost ts = text::texts(tokens@);
    let mut r: Vec<char> = Vec::new();
    let mut i: usize = 0;
    assert(ts.skip(0) =~= ts);
    assert(r@ + leading_classes(ts, 3) =~= leading_classes(ts, 3));
    while i < types.len() && r.len() < 3
        invariant
            i <= types@.len(),
            types@ == classes(ts),
            types@.len() == ts.len(),
            r@.len() <= 3,
            r@ + leading_classes(ts.skip(i as int), (3 - r@.len()) as nat) == leading_classes(
                ts,
                3,
            ),
        decreases types@.len() - i,
    {
        let ghost rest = ts.skip(i as int);
        let ghost got = r@;
        assert(rest[0] == ts[i as int]);
        assert(rest.drop_first() =~= ts.skip(i + 1));
        assert(types@[i as int] == token_class(ts[i as int]));
        if types[i] != 'S' {
            r.push(types[i]);
            let ghost tail = leading_classes(ts.skip(i + 1), (3 - r@.len()) as nat);
            assert(r@ + tail =~= got + (seq![types@[i as int]] + tail));
        }
        i += 1;
    }
    assert(r@ + Seq::<char>::empty() =~= r@);
    r
}

} // verus!
