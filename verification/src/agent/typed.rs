//! Typed parameters: short binary forms of common parameter texts.

use crate::shared::bytes;
use crate::shared::names;
use crate::shared::numeral;
use crate::shared::text;
use vstd::prelude::*;
use vstd::string::*;
use vstd::utf8::*;

verus! {

/// Kinds of parameters.
#[derive(Debug, Clone, Copy, PartialEq, Eq, Hash, Structural)]
pub enum ParamType {
    /// Any text, stored as UTF-8.
    String,
    /// A signed integer in eight bytes.
    Integer,
    /// `0x` and a hexadecimal number, in eight bytes.
    Hex,
    /// An IPv4 address in four bytes.
    IPv4,
    /// `blk_` and a signed integer, in nine bytes.
    BlockId,
    /// An IPv4 address and a port, in six bytes.
    IPv4Port,
    /// Six digits, in four bytes.
    Timestamp,
    /// A text that starts with `/`, stored as UTF-8.
    Path,
}

/// The number that stands for a kind.
pub open spec fn type_code(t: ParamType) -> u8 {
    match t {
        ParamType::String => 0,
        ParamType::Integer => 1,
        ParamType::Hex => 2,
        ParamType::IPv4 => 3,
        ParamType::BlockId => 4,
        ParamType::IPv4Port => 5,
        ParamType::Timestamp => 6,
        ParamType::Path => 7,
    }
}

impl ParamType {
    /// The kind that a number stands for.
    pub fn from_u8(v: u8) -> (r: Option<Self>)
        ensures
            match r {
                Some(t) => type_code(t) == v,
                None => v > 7,
            },
    {
        match v {
            0 => Some(ParamType::String),
            1 => Some(ParamType::Integer),
            2 => Some(ParamType::Hex),
            3 => Some(ParamType::IPv4),
            4 => Some(ParamType::BlockId),
            5 => Some(ParamType::IPv4Port),
            6 => Some(ParamType::Timestamp),
            7 => Some(ParamType::Path),
            _ => None,
        }
    }

    /// The number that stands for the kind.
    pub fn to_u8(self) -> (v: u8)
        ensures
            v == type_code(self),
    {
        match self {
            ParamType::String => 0,
            ParamType::Integer => 1,
            ParamType::Hex => 2,
            ParamType::IPv4 => 3,
            ParamType::BlockId => 4,
            ParamType::IPv4Port => 5,
            ParamType::Timestamp => 6,
            ParamType::Path => 7,
        }
    }
}

/// A parameter: its kind and its binary form.
#[derive(Debug, PartialEq, Eq)]
pub struct TypedParam {
    pub ty: ParamType,
    pub bytes: Vec<u8>,
}

/// What a typed parameter is.
pub struct ParamView {
    pub ty: ParamType,
    pub bytes: Seq<u8>,
}

impl View for TypedParam {
    type V = ParamView;

    open spec fn view(&self) -> ParamView {
        ParamView { ty: self.ty, bytes: self.bytes@ }
    }
}

impl Clone for TypedParam {
    fn clone(&self) -> (r: Self)
        ensures
            r@ == self@,
    {
        let bytes: Vec<u8> = self.bytes.clone();
        assert(bytes@ =~= self.bytes@);
        TypedParam { ty: self.ty, bytes }
    }
}

/// What a list of parameters is.
pub open spec fn param_views(params: Seq<TypedParam>) -> Seq<ParamView> {
    Seq::new(params.len(), |i: int| params[i]@)
}

/// The integer that a 64-bit pattern stands for in two's complement.
pub open spec fn signed64(n: nat) -> int {
    if n < 0x8000_0000_0000_0000 {
        n as int
    } else {
        n - 0x1_0000_0000_0000_0000
    }
}

/// The 64-bit pattern of an integer.
pub open spec fn pattern64(i: int) -> nat {
    if i >= 0 {
        i as nat
    } else {
        (i + 0x1_0000_0000_0000_0000) as nat
    }
}

pub fn to_signed(v: u64) -> (r: i64)
    ensures
        r == signed64(v as nat),
{
    if v <= 0x7fff_ffff_ffff_ffff {
        v as i64
    } else {
        -((0xffff_ffff_ffff_ffff - v) as i64) - 1
    }
}

pub fn to_pattern(i: i64) -> (v: u64)
    ensures
        v == pattern64(i as int),
{
    if i >= 0 {
        i as u64
    } else {
        0xffff_ffff_ffff_ffff - ((-(i + 1)) as u64)
    }
}

/// A number in two digits or more.
pub open spec fn two_digits(b: u8) -> Seq<char> {
    names::zero_padded(numeral::numeral(b as nat, 10), 2)
}

/// Four numbers with dots between them.
pub open spec fn dotted(b: Seq<u8>) -> Seq<char> {
    numeral::numeral(b[0] as nat, 10) + seq!['.'] + numeral::numeral(b[1] as nat, 10) + seq!['.']
        + numeral::numeral(b[2] as nat, 10) + seq!['.'] + numeral::numeral(b[3] as nat, 10)
}

/// The text of a typed parameter.
pub open spec fn param_text(p: ParamView) -> Seq<char> {
    let b: Seq<u8> = p.bytes;
    match p.ty {
        ParamType::Integer if b.len() >= 8 => numeral::int_text(
            signed64(bytes::le_value(b.take(8))),
        ),
        ParamType::Hex if b.len() >= 8 => seq!['0', 'x'] + numeral::numeral(
            bytes::le_value(b.take(8)),
            16,
        ),
        ParamType::IPv4 if b.len() >= 4 => dotted(b),
        ParamType::BlockId if b.len() >= 9 => seq!['b', 'l', 'k', '_'] + numeral::int_text(
            signed64(bytes::le_value(b.take(8))),
        ),
        ParamType::IPv4Port if b.len() >= 6 => dotted(b) + seq![':'] + numeral::numeral(
            bytes::le_value(b.subrange(4, 6)),
            10,
        ),
        ParamType::Timestamp if b.len() >= 4 && b[0] == 0 => two_digits(b[1]) + two_digits(b[2])
            + two_digits(b[3]),
        _ => text::lossy_text(b),
    }
}

/// The texts of a list of parameters.
pub open spec fn param_texts(params: Seq<ParamView>) -> Seq<Seq<char>> {
    Seq::new(params.len(), |i: int| param_text(params[i]))
}

/// `b` is the binary form of `s` as a parameter of kind `ty`.
pub open spec fn encodes(ty: ParamType, s: Seq<char>, b: Seq<u8>) -> bool {
    &&& match ty {
        ParamType::Integer => b.len() == 8,
        ParamType::Hex => b.len() == 8,
        ParamType::IPv4 => b.len() == 4,
        ParamType::BlockId => b.len() == 9 && b[8] == 0x62,
        ParamType::IPv4Port => b.len() == 6,
        ParamType::Timestamp => b.len() == 4 && b[0] == 0 && b[1] <= 99 && b[2] <= 99 && b[3] <= 99,
        ParamType::Path => s.len() > 1 && s[0] == '/' && b == encode_utf8(s),
        ParamType::String => b == encode_utf8(s),
    }
    &&& param_text(ParamView { ty, bytes: b }) == s
}

/// `s` has a binary form of kind `ty`.
pub open spec fn encodable(ty: ParamType, s: Seq<char>) -> bool {
    exists|b: Seq<u8>| #[trigger] encodes(ty, s, b)
}

/// The kind of a text: the first kind that gives the text back exactly.
pub open spec fn param_kind(s: Seq<char>) -> ParamType {
    if encodable(ParamType::IPv4Port, s) {
        ParamType::IPv4Port
    } else if encodable(ParamType::IPv4, s) {
        ParamType::IPv4
    } else if encodable(ParamType::Timestamp, s) {
        ParamType::Timestamp
    } else if encodable(ParamType::BlockId, s) {
        ParamType::BlockId
    } else if encodable(ParamType::Hex, s) {
        ParamType::Hex
    } else if encodable(ParamType::Integer, s) {
        ParamType::Integer
    } else if s.len() > 1 && s[0] == '/' {
        ParamType::Path
    } else {
        ParamType::String
    }
}

// ---------- reading numbers inside a text ----------

/// At `i` stands the numeral of `v`, and no digit follows it.
spec fn number_stands(s: Seq<char>, i: int, v: nat, j: int) -> bool {
    &&& 0 <= i <= j <= s.len()
    &&& s.subrange(i, j) == numeral::numeral(v, 10)
    &&& j < s.len() ==> numeral::digit_value(s[j]) >= 10
}

/// Only one number can stand at a position.
proof fn lemma_number_unique(s: Seq<char>, i: int, v: nat, j: int, w: nat, k: int)
    requires
        number_stands(s, i, v, j),
        number_stands(s, i, w, k),
    ensures
        v == w,
        j == k,
{
    numeral::lemma_numeral(v, 10);
    numeral::lemma_numeral(w, 10);
    let a: Seq<char> = s.subrange(i, j);
    let b: Seq<char> = s.subrange(i, k);
    if j < k {
        assert(b[j - i] == s[j]);
        assert(numeral::digit_value(b[j - i]) < 10);
    }
    if k < j {
        assert(a[k - i] == s[k]);
        assert(numeral::digit_value(a[k - i]) < 10);
    }
    assert(a =~= b);
}

fn sub_slice(s: &[char], i: usize, j: usize) -> (r: &[char])
    requires
        i <= j <= s@.len(),
    ensures
        r@ == s@.subrange(i as int, j as int),
{
    vstd::slice::slice_subrange(s, i, j)
}

/// Reads the number at `i`: its value and the position behind it. There is
/// none above `max`.
fn read_number(s: &[char], i: usize, max: u64) -> (r: Option<(u64, usize)>)
    requires
        i <= s@.len(),
    ensures
        match r {
            Some((v, j)) => v <= max && i < j && number_stands(s@, i as int, v as nat, j as int),
            None => forall|v: nat, j: int|
                v <= max ==> !#[trigger] number_stands(s@, i as int, v, j),
        },
{
    let n: usize = s.len();
    let mut j: usize = i;
    while j < n && '0' <= s[j] && s[j] <= '9'
        invariant
            i <= j <= n,
            n == s@.len(),
            forall|k: int| i <= k < j ==> numeral::digit_value(#[trigger] s@[k]) < 10,
        decreases n - j,
    {
        j += 1;
    }
    let ghost run = s@.subrange(i as int, j as int);
    assert(forall|k: int| 0 <= k < run.len() ==> run[k] == s@[i + k]);
    assert(numeral::all_digits(run, 10));
    proof {
        assert forall|v: nat, k: int| #[trigger]
            number_stands(s@, i as int, v, k) implies k == j by {
            numeral::lemma_numeral(v, 10);
            let a: Seq<char> = s@.subrange(i as int, k);
            if k < j {
                assert(numeral::digit_value(s@[k]) < 10);
            }
            if j < k {
                assert(a[j - i] == s@[j as int]);
                assert(numeral::digit_value(a[j - i]) < 10);
            }
        }
    }
    match numeral::parse_numeral(sub_slice(s, i, j), 10) {
        None => {
            proof {
                assert forall|v: nat, k: int| v <= max implies !#[trigger] number_stands(
                    s@,
                    i as int,
                    v,
                    k,
                ) by {
                    if number_stands(s@, i as int, v, k) {
                        numeral::lemma_numeral(v, 10);
                    }
                }
            }
            None
        },
        Some(v) => {
            let back: Vec<char> = numeral::numeral_chars(v, 10);
            if v <= max && text::same_chars(&back, sub_slice(s, i, j)) {
                Some((v, j))
            } else {
                proof {
                    assert forall|w: nat, k: int| w <= max implies !#[trigger] number_stands(
                        s@,
                        i as int,
                        w,
                        k,
                    ) by {
                        if number_stands(s@, i as int, w, k) {
                            numeral::lemma_numeral(w, 10);
                        }
                    }
                }
                None
            }
        },
    }
}

/// Four bytes stand dotted at the front, and no digit follows.
spec fn dotted_stands(s: Seq<char>, b: Seq<u8>, j: int) -> bool {
    &&& b.len() >= 4
    &&& 0 <= j <= s.len()
    &&& s.take(j) == dotted(b)
    &&& j < s.len() ==> numeral::digit_value(s[j]) >= 10
}

/// The positions of the four numbers.
proof fn lemma_dotted_steps(s: Seq<char>, b: Seq<u8>, j: int)
    requires
        dotted_stands(s, b, j),
    ensures
        ({
            let p0: int = numeral::numeral(b[0] as nat, 10).len() as int;
            let p1: int = p0 + 1 + numeral::numeral(b[1] as nat, 10).len();
            let p2: int = p1 + 1 + numeral::numeral(b[2] as nat, 10).len();
            &&& number_stands(s, 0, b[0] as nat, p0)
            &&& p0 < s.len() && s[p0] == '.'
            &&& number_stands(s, p0 + 1, b[1] as nat, p1)
            &&& p1 < s.len() && s[p1] == '.'
            &&& number_stands(s, p1 + 1, b[2] as nat, p2)
            &&& p2 < s.len() && s[p2] == '.'
            &&& number_stands(s, p2 + 1, b[3] as nat, j)
        }),
{
    let t: Seq<char> = dotted(b);
    let n0: Seq<char> = numeral::numeral(b[0] as nat, 10);
    let n1: Seq<char> = numeral::numeral(b[1] as nat, 10);
    let n2: Seq<char> = numeral::numeral(b[2] as nat, 10);
    let n3: Seq<char> = numeral::numeral(b[3] as nat, 10);
    let p0: int = n0.len() as int;
    let p1: int = p0 + 1 + n1.len();
    let p2: int = p1 + 1 + n2.len();
    assert(t.len() == j);
    assert(forall|k: int| 0 <= k < j ==> s[k] == s.take(j)[k]);
    assert(s.subrange(0, p0) =~= n0);
    assert(s[p0] == t[p0]);
    assert(s.subrange(p0 + 1, p1) =~= n1);
    assert(s[p1] == t[p1]);
    assert(s.subrange(p1 + 1, p2) =~= n2);
    assert(s[p2] == t[p2]);
    assert(s.subrange(p2 + 1, j) =~= n3);
}

/// Reads four dotted numbers at the front: their values and the position
/// behind them.
fn read_dotted(s: &[char]) -> (r: Option<(Vec<u8>, usize)>)
    ensures
        match r {
            Some((b, j)) => b@.len() == 4 && dotted_stands(s@, b@, j as int),
            None => forall|b: Seq<u8>, j: int| !#[trigger] dotted_stands(s@, b, j),
        },
{
    let n: usize = s.len();
    proof {
        assert forall|b: Seq<u8>, j: int| #[trigger] dotted_stands(s@, b, j) implies ({
            let p0: int = numeral::numeral(b[0] as nat, 10).len() as int;
            let p1: int = p0 + 1 + numeral::numeral(b[1] as nat, 10).len();
            let p2: int = p1 + 1 + numeral::numeral(b[2] as nat, 10).len();
            &&& number_stands(s@, 0, b[0] as nat, p0)
            &&& p0 < s@.len() && s@[p0] == '.'
            &&& number_stands(s@, p0 + 1, b[1] as nat, p1)
            &&& p1 < s@.len() && s@[p1] == '.'
            &&& number_stands(s@, p1 + 1, b[2] as nat, p2)
            &&& p2 < s@.len() && s@[p2] == '.'
            &&& number_stands(s@, p2 + 1, b[3] as nat, j)
        }) by {
            lemma_dotted_steps(s@, b, j);
        }
    }
    let mut out: Vec<u8> = Vec::new();
    let (a, ja) = match read_number(s, 0, 255) {
        Some(x) => x,
        None => {
            return None;
        },
    };
    if ja >= n || s[ja] != '.' {
        proof {
            assert forall|b: Seq<u8>, j: int| !#[trigger] dotted_stands(s@, b, j) by {
                if dotted_stands(s@, b, j) {
                    let p0: int = numeral::numeral(b[0] as nat, 10).len() as int;
                    lemma_number_unique(s@, 0, a as nat, ja as int, b[0] as nat, p0);
                }
            }
        }
        return None;
    }
    let (b1, jb) = match read_number(s, ja + 1, 255) {
        Some(x) => x,
        None => {
            proof {
                assert forall|b: Seq<u8>, j: int| !#[trigger] dotted_stands(s@, b, j) by {
                    if dotted_stands(s@, b, j) {
                        let p0: int = numeral::numeral(b[0] as nat, 10).len() as int;
                        lemma_number_unique(s@, 0, a as nat, ja as int, b[0] as nat, p0);
                    }
                }
            }
            return None;
        },
    };
    if jb >= n || s[jb] != '.' {
        proof {
            assert forall|b: Seq<u8>, j: int| !#[trigger] dotted_stands(s@, b, j) by {
                if dotted_stands(s@, b, j) {
                    let p0: int = numeral::numeral(b[0] as nat, 10).len() as int;
                    let p1: int = p0 + 1 + numeral::numeral(b[1] as nat, 10).len();
                    lemma_number_unique(s@, 0, a as nat, ja as int, b[0] as nat, p0);
                    lemma_number_unique(s@, p0 + 1, b1 as nat, jb as int, b[1] as nat, p1);
                }
            }
        }
        return None;
    }
    let (c, jc) = match read_number(s, jb + 1, 255) {
        Some(x) => x,
        None => {
            proof {
                assert forall|b: Seq<u8>, j: int| !#[trigger] dotted_stands(s@, b, j) by {
                    if dotted_stands(s@, b, j) {
                        let p0: int = numeral::numeral(b[0] as nat, 10).len() as int;
                        let p1: int = p0 + 1 + numeral::numeral(b[1] as nat, 10).len();
                        lemma_number_unique(s@, 0, a as nat, ja as int, b[0] as nat, p0);
                        lemma_number_unique(s@, p0 + 1, b1 as nat, jb as int, b[1] as nat, p1);
                    }
                }
            }
            return None;
        },
    };
    if jc >= n || s[jc] != '.' {
        proof {
            assert forall|b: Seq<u8>, j: int| !#[trigger] dotted_stands(s@, b, j) by {
                if dotted_stands(s@, b, j) {
                    let p0: int = numeral::numeral(b[0] as nat, 10).len() as int;
                    let p1: int = p0 + 1 + numeral::numeral(b[1] as nat, 10).len();
                    let p2: int = p1 + 1 + numeral::numeral(b[2] as nat, 10).len();
                    lemma_number_unique(s@, 0, a as nat, ja as int, b[0] as nat, p0);
                    lemma_number_unique(s@, p0 + 1, b1 as nat, jb as int, b[1] as nat, p1);
                    lemma_number_unique(s@, p1 + 1, c as nat, jc as int, b[2] as nat, p2);
                }
            }
        }
        return None;
    }
    let (d, jd) = match read_number(s, jc + 1, 255) {
        Some(x) => x,
        None => {
            proof {
                assert forall|b: Seq<u8>, j: int| !#[trigger] dotted_stands(s@, b, j) by {
                    if dotted_stands(s@, b, j) {
                        let p0: int = numeral::numeral(b[0] as nat, 10).len() as int;
                        let p1: int = p0 + 1 + numeral::numeral(b[1] as nat, 10).len();
                        let p2: int = p1 + 1 + numeral::numeral(b[2] as nat, 10).len();
                        lemma_number_unique(s@, 0, a as nat, ja as int, b[0] as nat, p0);
                        lemma_number_unique(s@, p0 + 1, b1 as nat, jb as int, b[1] as nat, p1);
                        lemma_number_unique(s@, p1 + 1, c as nat, jc as int, b[2] as nat, p2);
                    }
                }
            }
            return None;
        },
    };
    out.push(a as u8);
    out.push(b1 as u8);
    out.push(c as u8);
    out.push(d as u8);
    proof {
        let t: Seq<char> = s@.take(jd as int);
        let n0: Seq<char> = s@.subrange(0, ja as int);
        let n1: Seq<char> = s@.subrange(ja + 1, jb as int);
        let n2: Seq<char> = s@.subrange(jb + 1, jc as int);
        let n3: Seq<char> = s@.subrange(jc + 1, jd as int);
        assert(t =~= n0 + seq!['.'] + n1 + seq!['.'] + n2 + seq!['.'] + n3);
    }
    Some((out, jd))
}

// ---------- the kinds, one by one ----------

proof fn lemma_pattern64(i: int)
    requires
        i64::MIN <= i <= i64::MAX,
    ensures
        pattern64(i) < 0x1_0000_0000_0000_0000,
        signed64(pattern64(i)) == i,
{
}

/// Two digits for a number below one hundred.
proof fn lemma_two_digits(b: u8)
    requires
        b <= 99,
    ensures
        two_digits(b) == seq![
            numeral::digit_char((b / 10) as nat),
            numeral::digit_char((b % 10) as nat),
        ],
{
    let n: nat = b as nat;
    reveal_with_fuel(numeral::numeral, 3);
    if n < 10 {
        assert(numeral::numeral(n, 10) =~= seq![numeral::digit_char(n)]);
    }
    assert(two_digits(b) =~= seq![
        numeral::digit_char((b / 10) as nat),
        numeral::digit_char((b % 10) as nat),
    ]);
}

fn append_all(out: &mut Vec<char>, src: &[char])
    ensures
        final(out)@ == old(out)@ + src@,
{
    let mut i: usize = 0;
    while i < src.len()
        invariant
            i <= src@.len(),
            out@ == old(out)@ + src@.take(i as int),
        decreases src@.len() - i,
    {
        out.push(src[i]);
        i += 1;
        assert(out@ =~= old(out)@ + src@.take(i as int));
    }
    assert(src@.take(i as int) =~= src@);
}

fn dotted_chars(b: &[u8]) -> (r: Vec<char>)
    requires
        b@.len() >= 4,
    ensures
        r@ == dotted(b@),
{
    let mut r: Vec<char> = numeral::numeral_chars(b[0] as u64, 10);
    r.push('.');
    append_all(&mut r, &numeral::numeral_chars(b[1] as u64, 10));
    r.push('.');
    append_all(&mut r, &numeral::numeral_chars(b[2] as u64, 10));
    r.push('.');
    append_all(&mut r, &numeral::numeral_chars(b[3] as u64, 10));
    assert(r@ =~= dotted(b@));
    r
}

fn read_signed(b: &[u8]) -> (v: i64)
    requires
        b@.len() >= 8,
    ensures
        v == signed64(bytes::le_value(b@.take(8))),
{
    assert(b@.subrange(0, 8) =~= b@.take(8));
    to_signed(bytes::read_le(b, 0, 8))
}

impl TypedParam {
    /// Chooses the kind of a text and encodes it. A binary kind is chosen only
    /// where it gives the text back exactly.
    pub fn from_str(s: &str) -> (p: Self)
        ensures
            p.ty == param_kind(s@),
            encodes(p.ty, s@, p.bytes@),
            param_text(p@) == s@,
    {
        proof {
            text::lemma_utf8_roundtrip(s@);
        }
        if let Some(b) = TypedParam::try_ipv4_port(s) {
            return TypedParam { ty: ParamType::IPv4Port, bytes: b };
        }
        if let Some(b) = TypedParam::try_ipv4(s) {
            return TypedParam { ty: ParamType::IPv4, bytes: b };
        }
        if let Some(b) = TypedParam::try_timestamp(s) {
            return TypedParam { ty: ParamType::Timestamp, bytes: b };
        }
        if let Some(b) = TypedParam::try_block_id(s) {
            return TypedParam { ty: ParamType::BlockId, bytes: b };
        }
        if let Some(b) = TypedParam::try_hex(s) {
            return TypedParam { ty: ParamType::Hex, bytes: b };
        }
        if let Some(b) = TypedParam::try_integer(s) {
            return TypedParam { ty: ParamType::Integer, bytes: b };
        }
        if TypedParam::looks_like_path(s) {
            return TypedParam { ty: ParamType::Path, bytes: s.as_bytes_vec() };
        }
        TypedParam { ty: ParamType::String, bytes: s.as_bytes_vec() }
    }

    /// The text of the parameter.
    pub fn to_string(&self) -> (r: String)
        ensures
            r@ == param_text(self@),
    {
        let b: &[u8] = &self.bytes;
        match self.ty {
            ParamType::Integer if b.len() >= 8 => text::string_of(
                &numeral::int_chars(read_signed(b)),
            ),
            ParamType::Hex if b.len() >= 8 => {
                assert(b@.subrange(0, 8) =~= b@.take(8));
                let mut r: Vec<char> = Vec::new();
                r.push('0');
                r.push('x');
                append_all(&mut r, &numeral::numeral_chars(bytes::read_le(b, 0, 8), 16));
                assert(r@ =~= param_text(self@));
                text::string_of(&r)
            },
            ParamType::IPv4 if b.len() >= 4 => text::string_of(&dotted_chars(b)),
            ParamType::BlockId if b.len() >= 9 => {
                let mut r: Vec<char> = Vec::new();
                r.push('b');
                r.push('l');
                r.push('k');
                r.push('_');
                append_all(&mut r, &numeral::int_chars(read_signed(b)));
                assert(r@ =~= param_text(self@));
                text::string_of(&r)
            },
            ParamType::IPv4Port if b.len() >= 6 => {
                let mut r: Vec<char> = dotted_chars(b);
                r.push(':');
                append_all(&mut r, &numeral::numeral_chars(bytes::read_le(b, 4, 2), 10));
                assert(r@ =~= param_text(self@));
                text::string_of(&r)
            },
            ParamType::Timestamp if b.len() >= 4 && b[0] == 0 => {
                let mut r: Vec<char> = names::padded_numeral(b[1] as u64, 2, 10);
                append_all(&mut r, &names::padded_numeral(b[2] as u64, 2, 10));
                append_all(&mut r, &names::padded_numeral(b[3] as u64, 2, 10));
                text::string_of(&r)
            },
            _ => text::lossy_string(b),
        }
    }

    /// The eight bytes of a plain integer text.
    pub fn try_integer(s: &str) -> (r: Option<Vec<u8>>)
        ensures
            match r {
                Some(b) => encodes(ParamType::Integer, s@, b@),
                None => !encodable(ParamType::Integer, s@),
            },
    {
        let chars: Vec<char> = text::chars_of(s);
        proof {
            assert forall|b: Seq<u8>| #[trigger] encodes(ParamType::Integer, s@, b) implies ({
                let v: int = signed64(bytes::le_value(b));
                &&& i64::MIN <= v <= i64::MAX
                &&& s@ == numeral::int_text(v)
                &&& numeral::signed_value(s@) == Some(v)
            }) by {
                assert(b.take(8) =~= b);
                bytes::lemma_pow256();
                bytes::lemma_le_value_bound(b);
                numeral::lemma_int_text(signed64(bytes::le_value(b)));
            }
        }
        match numeral::parse_signed(&chars) {
            None => None,
            Some(v) => {
                let back: Vec<char> = numeral::int_chars(v);
                if !text::same_chars(&back, &chars) {
                    return None;
                }
                let mut b: Vec<u8> = Vec::new();
                bytes::push_le(&mut b, to_pattern(v), 8);
                proof {
                    bytes::lemma_pow256();
                    lemma_pattern64(v as int);
                    bytes::lemma_le_value_of_bytes(pattern64(v as int), 8);
                    assert(b@ =~= bytes::le_bytes(pattern64(v as int), 8));
                    assert(b@.take(8) =~= b@);
                }
                Some(b)
            },
        }
    }

    /// The eight bytes of a lower-case hexadecimal text.
    pub fn try_hex(s: &str) -> (r: Option<Vec<u8>>)
        ensures
            match r {
                Some(b) => encodes(ParamType::Hex, s@, b@),
                None => !encodable(ParamType::Hex, s@),
            },
    {
        let chars: Vec<char> = text::chars_of(s);
        let n: usize = chars.len();
        proof {
            assert forall|b: Seq<u8>| #[trigger] encodes(ParamType::Hex, s@, b) implies ({
                let v: nat = bytes::le_value(b);
                &&& v <= u64::MAX
                &&& s@.len() >= 3
                &&& s@[0] == '0'
                &&& s@[1] == 'x'
                &&& s@.subrange(2, s@.len() as int) == numeral::numeral(v, 16)
                &&& numeral::is_canonical(numeral::numeral(v, 16), 16)
                &&& numeral::digits_value(numeral::numeral(v, 16), 16) == v
            }) by {
                assert(b.take(8) =~= b);
                bytes::lemma_pow256();
                bytes::lemma_le_value_bound(b);
                numeral::lemma_numeral(bytes::le_value(b), 16);
                assert(s@.subrange(2, s@.len() as int) =~= numeral::numeral(
                    bytes::le_value(b),
                    16,
                ));
            }
        }
        if n < 3 || chars[0] != '0' || chars[1] != 'x' {
            return None;
        }
        let payload: &[char] = sub_slice(&chars, 2, n);
        match numeral::parse_numeral(payload, 16) {
            None => None,
            Some(v) => {
                let back: Vec<char> = numeral::numeral_chars(v, 16);
                if !text::same_chars(&back, payload) {
                    return None;
                }
                let mut b: Vec<u8> = Vec::new();
                bytes::push_le(&mut b, v, 8);
                proof {
                    bytes::lemma_pow256();
                    bytes::lemma_le_value_of_bytes(v as nat, 8);
                    assert(b@ =~= bytes::le_bytes(v as nat, 8));
                    assert(b@.take(8) =~= b@);
                    assert(s@ =~= seq!['0', 'x'] + s@.subrange(2, n as int));
                }
                Some(b)
            },
        }
    }

    /// The four bytes of a dotted address.
    pub fn try_ipv4(s: &str) -> (r: Option<Vec<u8>>)
        ensures
            match r {
                Some(b) => encodes(ParamType::IPv4, s@, b@),
                None => !encodable(ParamType::IPv4, s@),
            },
    {
        let chars: Vec<char> = text::chars_of(s);
        proof {
            assert(s@.take(s@.len() as int) =~= s@);
            assert forall|b: Seq<u8>| #[trigger] encodes(ParamType::IPv4, s@, b) implies (
            dotted_stands(s@, b, s@.len() as int)) by {}
        }
        match read_dotted(&chars) {
            None => None,
            Some((b, j)) => {
                if j == chars.len() {
                    Some(b)
                } else {
                    proof {
                        assert forall|x: Seq<u8>| !#[trigger] encodes(ParamType::IPv4, s@, x) by {
                            if encodes(ParamType::IPv4, s@, x) {
                                lemma_dotted_unique(s@, b@, j as int, x, s@.len() as int);
                            }
                        }
                    }
                    None
                }
            },
        }
    }

    /// The six bytes of a dotted address with a port.
    pub fn try_ipv4_port(s: &str) -> (r: Option<Vec<u8>>)
        ensures
            match r {
                Some(b) => encodes(ParamType::IPv4Port, s@, b@),
                None => !encodable(ParamType::IPv4Port, s@),
            },
    {
        let chars: Vec<char> = text::chars_of(s);
        let n: usize = chars.len();
        proof {
            assert forall|x: Seq<u8>| #[trigger] encodes(ParamType::IPv4Port, s@, x) implies ({
                let j: int = dotted(x).len() as int;
                let port: nat = bytes::le_value(x.subrange(4, 6));
                &&& dotted_stands(s@, x, j)
                &&& j < s@.len()
                &&& s@[j] == ':'
                &&& port <= 0xffff
                &&& number_stands(s@, j + 1, port, s@.len() as int)
            }) by {
                let j: int = dotted(x).len() as int;
                let port: nat = bytes::le_value(x.subrange(4, 6));
                bytes::lemma_pow256();
                bytes::lemma_le_value_bound(x.subrange(4, 6));
                assert(s@.take(j) =~= dotted(x));
                assert(s@.subrange(j + 1, s@.len() as int) =~= numeral::numeral(port, 10));
            }
        }
        let (b, j) = match read_dotted(&chars) {
            None => {
                return None;
            },
            Some(x) => x,
        };
        proof {
            assert forall|x: Seq<u8>| #[trigger] encodes(ParamType::IPv4Port, s@, x) implies (
            dotted(x).len() == j) by {
                lemma_dotted_unique(s@, b@, j as int, x, dotted(x).len() as int);
            }
        }
        if j >= n || chars[j] != ':' {
            return None;
        }
        let (port, k) = match read_number(&chars, j + 1, 0xffff) {
            None => {
                return None;
            },
            Some(x) => x,
        };
        if k != n {
            proof {
                assert forall|x: Seq<u8>| !#[trigger] encodes(ParamType::IPv4Port, s@, x) by {
                    if encodes(ParamType::IPv4Port, s@, x) {
                        lemma_number_unique(
                            s@,
                            j + 1,
                            port as nat,
                            k as int,
                            bytes::le_value(x.subrange(4, 6)),
                            s@.len() as int,
                        );
                    }
                }
            }
            return None;
        }
        let mut out: Vec<u8> = b;
        let ghost ip = out@;
        bytes::push_le(&mut out, port, 2);
        proof {
            bytes::lemma_pow256();
            bytes::lemma_le_value_of_bytes(port as nat, 2);
            assert(out@.subrange(4, 6) =~= bytes::le_bytes(port as nat, 2));
            assert(dotted(out@) == dotted(ip));
            assert(s@ =~= s@.take(j as int) + seq![':'] + s@.subrange(j + 1, n as int));
        }
        Some(out)
    }

    /// The nine bytes of a block identifier.
    pub fn try_block_id(s: &str) -> (r: Option<Vec<u8>>)
        ensures
            match r {
                Some(b) => encodes(ParamType::BlockId, s@, b@),
                None => !encodable(ParamType::BlockId, s@),
            },
    {
        let chars: Vec<char> = text::chars_of(s);
        let n: usize = chars.len();
        proof {
            assert forall|b: Seq<u8>| #[trigger] encodes(ParamType::BlockId, s@, b) implies ({
                let v: int = signed64(bytes::le_value(b.take(8)));
                &&& i64::MIN <= v <= i64::MAX
                &&& s@.len() >= 4
                &&& s@[0] == 'b' && s@[1] == 'l' && s@[2] == 'k' && s@[3] == '_'
                &&& s@.subrange(4, s@.len() as int) == numeral::int_text(v)
                &&& numeral::signed_value(numeral::int_text(v)) == Some(v)
            }) by {
                bytes::lemma_pow256();
                bytes::lemma_le_value_bound(b.take(8));
                numeral::lemma_int_text(signed64(bytes::le_value(b.take(8))));
                assert(s@.subrange(4, s@.len() as int) =~= numeral::int_text(
                    signed64(bytes::le_value(b.take(8))),
                ));
            }
        }
        if n < 4 || chars[0] != 'b' || chars[1] != 'l' || chars[2] != 'k' || chars[3] != '_' {
            return None;
        }
        let payload: &[char] = sub_slice(&chars, 4, n);
        match numeral::parse_signed(payload) {
            None => None,
            Some(v) => {
                let back: Vec<char> = numeral::int_chars(v);
                if !text::same_chars(&back, payload) {
                    return None;
                }
                let mut b: Vec<u8> = Vec::new();
                bytes::push_le(&mut b, to_pattern(v), 8);
                b.push(0x62);
                proof {
                    bytes::lemma_pow256();
                    lemma_pattern64(v as int);
                    bytes::lemma_le_value_of_bytes(pattern64(v as int), 8);
                    assert(b@.take(8) =~= bytes::le_bytes(pattern64(v as int), 8));
                    assert(s@ =~= seq!['b', 'l', 'k', '_'] + s@.subrange(4, n as int));
                }
                Some(b)
            },
        }
    }

    /// The four bytes of six digits.
    pub fn try_timestamp(s: &str) -> (r: Option<Vec<u8>>)
        ensures
            match r {
                Some(b) => encodes(ParamType::Timestamp, s@, b@),
                None => !encodable(ParamType::Timestamp, s@),
            },
    {
        let chars: Vec<char> = text::chars_of(s);
        proof {
            assert forall|b: Seq<u8>| #[trigger] encodes(ParamType::Timestamp, s@, b) implies (
            s@.len() == 6 && numeral::all_digits(s@, 10)) by {
                lemma_two_digits(b[1]);
                lemma_two_digits(b[2]);
                lemma_two_digits(b[3]);
            }
        }
        if chars.len() != 6 || !numeral::only_digits(&chars) {
            return None;
        }
        let a: u8 = pair_value(chars[0], chars[1]);
        let c: u8 = pair_value(chars[2], chars[3]);
        let d: u8 = pair_value(chars[4], chars[5]);
        let mut b: Vec<u8> = Vec::new();
        b.push(0);
        b.push(a);
        b.push(c);
        b.push(d);
        assert(s@ =~= seq![s@[0], s@[1]] + seq![s@[2], s@[3]] + seq![s@[4], s@[5]]);
        Some(b)
    }

    /// Whether the text starts with `/` and goes on.
    pub fn looks_like_path(s: &str) -> (r: bool)
        ensures
            r == (s@.len() > 1 && s@[0] == '/'),
    {
        let chars: Vec<char> = text::chars_of(s);
        chars.len() > 1 && chars[0] == '/'
    }
}

/// The number that two digits stand for.
fn pair_value(hi: char, lo: char) -> (r: u8)
    requires
        numeral::digit_value(hi) < 10,
        numeral::digit_value(lo) < 10,
    ensures
        r <= 99,
        two_digits(r) == seq![hi, lo],
{
    let h: u8 = (hi as u32 - 48) as u8;
    let l: u8 = (lo as u32 - 48) as u8;
    let r: u8 = h * 10 + l;
    proof {
        lemma_two_digits(r);
        assert(r / 10 == h && r % 10 == l);
        assert(numeral::digit_char(h as nat) == hi);
        assert(numeral::digit_char(l as nat) == lo);
    }
    r
}

/// Only one dotted address can stand at the front.
proof fn lemma_dotted_unique(s: Seq<char>, a: Seq<u8>, j: int, b: Seq<u8>, k: int)
    requires
        dotted_stands(s, a, j),
        dotted_stands(s, b, k),
    ensures
        j == k,
{
    lemma_dotted_steps(s, a, j);
    lemma_dotted_steps(s, b, k);
    let a0: int = numeral::numeral(a[0] as nat, 10).len() as int;
    let a1: int = a0 + 1 + numeral::numeral(a[1] as nat, 10).len();
    let a2: int = a1 + 1 + numeral::numeral(a[2] as nat, 10).len();
    let b0: int = numeral::numeral(b[0] as nat, 10).len() as int;
    let b1: int = b0 + 1 + numeral::numeral(b[1] as nat, 10).len();
    let b2: int = b1 + 1 + numeral::numeral(b[2] as nat, 10).len();
    lemma_number_unique(s, 0, a[0] as nat, a0, b[0] as nat, b0);
    lemma_number_unique(s, a0 + 1, a[1] as nat, a1, b[1] as nat, b1);
    lemma_number_unique(s, a1 + 1, a[2] as nat, a2, b[2] as nat, b2);
    lemma_number_unique(s, a2 + 1, a[3] as nat, j, b[3] as nat, k);
}

/// The texts of parameters.
pub fn param_strings(params: &[TypedParam]) -> (r: Vec<String>)
    ensures
        text::texts(r@) == param_texts(param_views(params@)),
{
    let mut out: Vec<String> = Vec::new();
    let ghost want = param_texts(param_views(params@));
    let mut i: usize = 0;
    while i < params.len()
        invariant
            i <= params@.len(),
            want == param_texts(param_views(params@)),
            text::texts(out@) =~= want.take(i as int),
        decreases params@.len() - i,
    {
        let ghost before = text::texts(out@);
        let s: String = params[i].to_string();
        let ghost sv = s@;
        out.push(s);
        assert(text::texts(out@) =~= before.push(sv));
        i += 1;
    }
    assert(want.take(i as int) =~= want);
    out
}

} // verus!
