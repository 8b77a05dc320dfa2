//! Which texts are stored as numbers, addresses, times and the like, said of
//! the texts.

use crate::agent::extract;
use crate::agent::typed;
use crate::agent::typed::{ParamType, ParamView};
use crate::shared::bytes;
use crate::shared::numeral;
use vstd::prelude::*;

verus! {

/// The typed form of a text gives the text back.
pub proof fn law_typed_form_lossless(s: Seq<char>, p: ParamView)
    requires
        extract::typed_from(s, p),
    ensures
        typed::param_text(p) == s,
{
}

// ---------- what tells the kinds apart ----------

/// Decimal digits only.
pub open spec fn digits_only(s: Seq<char>) -> bool {
    forall|k: int| 0 <= k < s.len() ==> '0' <= #[trigger] s[k] <= '9'
}

proof fn lemma_decimal(n: nat)
    ensures
        numeral::numeral(n, 10).len() > 0,
        digits_only(numeral::numeral(n, 10)),
        n < 10 ==> numeral::numeral(n, 10) == seq![numeral::digit_char(n)],
        10 <= n < 100 ==> numeral::numeral(n, 10) == seq![
            numeral::digit_char(n / 10),
            numeral::digit_char(n % 10),
        ],
{
    let s: Seq<char> = numeral::numeral(n, 10);
    numeral::lemma_numeral(n, 10);
    assert forall|k: int| 0 <= k < s.len() implies '0' <= #[trigger] s[k] <= '9' by {
        assert(numeral::digit_value(s[k]) < 10);
    }
    if 10 <= n < 100 {
        reveal_with_fuel(numeral::numeral, 3);
        assert(n / 10 < 10);
        assert(s =~= seq![numeral::digit_char(n / 10), numeral::digit_char(n % 10)]);
    }
}

proof fn lemma_pair(b: u8)
    requires
        b <= 99,
    ensures
        typed::two_digits(b) == seq![
            numeral::digit_char(b as nat / 10),
            numeral::digit_char(b as nat % 10),
        ],
        digits_only(typed::two_digits(b)),
{
    let n: nat = b as nat;
    lemma_decimal(n);
    let s: Seq<char> = typed::two_digits(b);
    if n < 10 {
        assert(numeral::digit_char(0) == '0');
        assert(s =~= seq![numeral::digit_char(n / 10), numeral::digit_char(n % 10)]);
    }
    numeral::lemma_digit_char(n / 10);
    numeral::lemma_digit_char(n % 10);
}

proof fn lemma_dotted(b: Seq<u8>)
    ensures
        ({
            let s: Seq<char> = typed::dotted(b);
            let k: int = numeral::numeral(b[0] as nat, 10).len() as int;
            &&& 0 < k < s.len()
            &&& '0' <= s[0] <= '9'
            &&& s[k] == '.'
            &&& forall|i: int|
                0 <= i < s.len() ==> ('0' <= #[trigger] s[i] <= '9' || s[i] == '.')
        }),
{
    lemma_decimal(b[0] as nat);
    lemma_decimal(b[1] as nat);
    lemma_decimal(b[2] as nat);
    lemma_decimal(b[3] as nat);
}

/// The text has a dot and starts with a digit.
pub open spec fn has_dot(s: Seq<char>) -> bool {
    s.len() > 0 && '0' <= s[0] <= '9' && exists|k: int| 0 <= k < s.len() && #[trigger] s[k] == '.'
}

/// The text has a colon.
pub open spec fn has_colon(s: Seq<char>) -> bool {
    exists|k: int| 0 <= k < s.len() && #[trigger] s[k] == ':'
}

proof fn lemma_not_port(s: Seq<char>)
    requires
        !has_dot(s) || !has_colon(s),
    ensures
        !typed::encodable(ParamType::IPv4Port, s),
{
    if typed::encodable(ParamType::IPv4Port, s) {
        let b: Seq<u8> = choose|b: Seq<u8>| #[trigger] typed::encodes(ParamType::IPv4Port, s, b);
        lemma_dotted(b);
        let d: Seq<char> = typed::dotted(b);
        let k: int = numeral::numeral(b[0] as nat, 10).len() as int;
        assert(s[0] == d[0] && s[k] == d[k]);
        assert(s[d.len() as int] == ':');
    }
}

proof fn lemma_not_address(s: Seq<char>)
    requires
        !has_dot(s) || has_colon(s),
    ensures
        !typed::encodable(ParamType::IPv4, s),
{
    if typed::encodable(ParamType::IPv4, s) {
        let b: Seq<u8> = choose|b: Seq<u8>| #[trigger] typed::encodes(ParamType::IPv4, s, b);
        lemma_dotted(b);
        let k: int = numeral::numeral(b[0] as nat, 10).len() as int;
        assert(s[k] == '.');
    }
}

proof fn lemma_not_time(s: Seq<char>)
    requires
        s.len() != 6 || !digits_only(s),
    ensures
        !typed::encodable(ParamType::Timestamp, s),
{
    if typed::encodable(ParamType::Timestamp, s) {
        let b: Seq<u8> = choose|b: Seq<u8>| #[trigger] typed::encodes(ParamType::Timestamp, s, b);
        lemma_pair(b[1]);
        lemma_pair(b[2]);
        lemma_pair(b[3]);
    }
}

proof fn lemma_not_block(s: Seq<char>)
    requires
        s.len() == 0 || s[0] != 'b',
    ensures
        !typed::encodable(ParamType::BlockId, s),
{
    if typed::encodable(ParamType::BlockId, s) {
        let b: Seq<u8> = choose|b: Seq<u8>| #[trigger] typed::encodes(ParamType::BlockId, s, b);
        assert(s[0] == 'b');
    }
}

proof fn lemma_not_hex(s: Seq<char>)
    requires
        s.len() < 2 || s[0] != '0' || s[1] != 'x',
    ensures
        !typed::encodable(ParamType::Hex, s),
{
    if typed::encodable(ParamType::Hex, s) {
        let b: Seq<u8> = choose|b: Seq<u8>| #[trigger] typed::encodes(ParamType::Hex, s, b);
        assert(s[0] == '0' && s[1] == 'x');
    }
}

proof fn lemma_not_integer(s: Seq<char>)
    requires
        s.len() > 0 && s[0] != '-' && !('0' <= s[0] <= '9'),
    ensures
        !typed::encodable(ParamType::Integer, s),
{
    if typed::encodable(ParamType::Integer, s) {
        let b: Seq<u8> = choose|b: Seq<u8>| #[trigger] typed::encodes(ParamType::Integer, s, b);
        let i: int = typed::signed64(bytes::le_value(b.take(8)));
        if i >= 0 {
            lemma_decimal(i as nat);
        }
    }
}

proof fn lemma_word64(i: i64) -> (b: Seq<u8>)
    ensures
        b.len() == 8,
        b.take(8) == b,
        typed::signed64(bytes::le_value(b)) == i,
{
    let n: nat = typed::pattern64(i as int);
    bytes::lemma_pow256();
    bytes::lemma_le_value_of_bytes(n, 8);
    let b: Seq<u8> = bytes::le_bytes(n, 8);
    assert(b.take(8) =~= b);
    b
}

// ---------- the kinds ----------

/// Six decimal digits are stored as a time.
pub proof fn law_six_digits(s: Seq<char>)
    requires
        s.len() == 6,
        digits_only(s),
    ensures
        typed::param_kind(s) == ParamType::Timestamp,
{
    assert(!has_dot(s)) by {
        if has_dot(s) {
            let k: int = choose|k: int| 0 <= k < s.len() && #[trigger] s[k] == '.';
            assert('0' <= s[k] <= '9');
        }
    }
    lemma_not_port(s);
    lemma_not_address(s);
    let d = |k: int| numeral::digit_value(s[k]);
    assert forall|k: int| 0 <= k < 6 implies numeral::digit_value(#[trigger] s[k]) < 10
        && numeral::digit_char(numeral::digit_value(s[k])) == s[k] by {
        assert('0' <= s[k] <= '9');
        lemma_digit_back(s[k]);
    }
    let b1: u8 = (d(0) * 10 + d(1)) as u8;
    let b2: u8 = (d(2) * 10 + d(3)) as u8;
    let b3: u8 = (d(4) * 10 + d(5)) as u8;
    let b: Seq<u8> = seq![0u8, b1, b2, b3];
    assert(d(0) < 10 && d(1) < 10 && d(2) < 10 && d(3) < 10 && d(4) < 10 && d(5) < 10);
    lemma_pair(b1);
    lemma_pair(b2);
    lemma_pair(b3);
    assert(b1 as nat / 10 == d(0) && b1 as nat % 10 == d(1));
    assert(b2 as nat / 10 == d(2) && b2 as nat % 10 == d(3));
    assert(b3 as nat / 10 == d(4) && b3 as nat % 10 == d(5));
    assert(typed::two_digits(b1) + typed::two_digits(b2) + typed::two_digits(b3) =~= s);
    assert(typed::encodes(ParamType::Timestamp, s, b));
}

proof fn lemma_digit_back(c: char)
    requires
        '0' <= c <= '9',
    ensures
        numeral::digit_value(c) < 10,
        numeral::digit_char(numeral::digit_value(c)) == c,
{
}

/// The decimal text of a 64-bit integer is stored as an integer, unless it is
/// six digits long.
pub proof fn law_integer_text(i: i64)
    requires
        i < 0 || numeral::int_text(i as int).len() != 6,
    ensures
        typed::param_kind(numeral::int_text(i as int)) == ParamType::Integer,
{
    let s: Seq<char> = numeral::int_text(i as int);
    let n: nat = if i < 0 {
        (-i) as nat
    } else {
        i as nat
    };
    lemma_decimal(n);
    let t: Seq<char> = numeral::numeral(n, 10);
    assert forall|k: int| 0 <= k < s.len() implies '0' <= #[trigger] s[k] <= '9' || s[k] == '-' by {
        if i < 0 {
            if k > 0 {
                assert(s[k] == t[k - 1]);
            }
        } else {
            assert(s[k] == t[k]);
        }
    }
    assert(!has_dot(s)) by {
        if has_dot(s) {
            let k: int = choose|k: int| 0 <= k < s.len() && #[trigger] s[k] == '.';
            assert('0' <= s[k] <= '9' || s[k] == '-');
        }
    }
    assert(s[0] != 'b');
    if s.len() > 1 {
        assert(s[1] != 'x');
    }
    if i < 0 {
        assert(s[0] == '-');
        assert(!digits_only(s));
    }
    lemma_not_port(s);
    lemma_not_address(s);
    lemma_not_time(s);
    lemma_not_block(s);
    lemma_not_hex(s);
    let b: Seq<u8> = lemma_word64(i);
    assert(typed::encodes(ParamType::Integer, s, b));
}

/// `0x` and the hexadecimal numeral of a 64-bit number, in small letters and
/// without leading zeros, are stored as that number.
pub proof fn law_hex_text(v: u64)
    ensures
        typed::param_kind(seq!['0', 'x'] + numeral::numeral(v as nat, 16)) == ParamType::Hex,
{
    let t: Seq<char> = numeral::numeral(v as nat, 16);
    let s: Seq<char> = seq!['0', 'x'] + t;
    numeral::lemma_numeral(v as nat, 16);
    assert(!has_dot(s)) by {
        if has_dot(s) {
            let k: int = choose|k: int| 0 <= k < s.len() && #[trigger] s[k] == '.';
            assert(s[k] == t[k - 2]);
            assert(numeral::digit_value(t[k - 2]) < 16);
        }
    }
    assert(s[0] == '0' && s[1] == 'x');
    assert(!digits_only(s)) by {
        if digits_only(s) {
            assert('0' <= s[1] <= '9');
        }
    }
    lemma_not_port(s);
    lemma_not_address(s);
    lemma_not_time(s);
    lemma_not_block(s);
    bytes::lemma_pow256();
    bytes::lemma_le_value_of_bytes(v as nat, 8);
    let b: Seq<u8> = bytes::le_bytes(v as nat, 8);
    assert(b.take(8) =~= b);
    assert(typed::encodes(ParamType::Hex, s, b));
}

/// `blk_` and the decimal text of a 64-bit integer are stored as that integer.
pub proof fn law_block_text(i: i64)
    ensures
        typed::param_kind(seq!['b', 'l', 'k', '_'] + numeral::int_text(i as int))
            == ParamType::BlockId,
{
    let t: Seq<char> = numeral::int_text(i as int);
    let s: Seq<char> = seq!['b', 'l', 'k', '_'] + t;
    assert(s[0] == 'b');
    assert(!has_dot(s));
    assert(!digits_only(s)) by {
        if digits_only(s) {
            assert('0' <= s[0] <= '9');
        }
    }
    lemma_not_port(s);
    lemma_not_address(s);
    lemma_not_time(s);
    let b: Seq<u8> = lemma_word64(i);
    let c: Seq<u8> = b.push(0x62);
    assert(c.take(8) =~= b);
    assert(typed::encodes(ParamType::BlockId, s, c));
}

/// Four numbers from 0 to 255 with dots between them are stored as an address.
pub proof fn law_address_text(a: u8, b: u8, c: u8, d: u8)
    ensures
        typed::param_kind(
            numeral::numeral(a as nat, 10) + seq!['.'] + numeral::numeral(b as nat, 10) + seq!['.']
                + numeral::numeral(c as nat, 10) + seq!['.'] + numeral::numeral(d as nat, 10),
        ) == ParamType::IPv4,
{
    let v: Seq<u8> = seq![a, b, c, d];
    let s: Seq<char> = typed::dotted(v);
    lemma_dotted(v);
    assert(!has_colon(s)) by {
        if has_colon(s) {
            let k: int = choose|k: int| 0 <= k < s.len() && #[trigger] s[k] == ':';
            assert('0' <= s[k] <= '9' || s[k] == '.');
        }
    }
    lemma_not_port(s);
    assert(typed::encodes(ParamType::IPv4, s, v));
}

/// An address, a colon and a number from 0 to 65535 are stored as an address
/// with a port.
pub proof fn law_port_text(a: u8, b: u8, c: u8, d: u8, port: u16)
    ensures
        typed::param_kind(
            numeral::numeral(a as nat, 10) + seq!['.'] + numeral::numeral(b as nat, 10) + seq!['.']
                + numeral::numeral(c as nat, 10) + seq!['.'] + numeral::numeral(d as nat, 10)
                + seq![':'] + numeral::numeral(port as nat, 10),
        ) == ParamType::IPv4Port,
{
    let v: Seq<u8> = seq![a, b, c, d];
    let w: Seq<u8> = bytes::le_bytes(port as nat, 2);
    let all: Seq<u8> = v + w;
    bytes::lemma_pow256();
    bytes::lemma_le_value_of_bytes(port as nat, 2);
    assert(all.subrange(4, 6) =~= w);
    assert(typed::dotted(all) == typed::dotted(v));
    let s: Seq<char> = typed::dotted(v) + seq![':'] + numeral::numeral(port as nat, 10);
    assert(typed::encodes(ParamType::IPv4Port, s, all));
}

/// A slash and more are stored as a path.
pub proof fn law_path_text(s: Seq<char>)
    requires
        s.len() > 1,
        s[0] == '/',
    ensures
        typed::param_kind(s) == ParamType::Path,
{
    assert(!has_dot(s));
    assert(!digits_only(s)) by {
        if digits_only(s) {
            assert('0' <= s[0] <= '9');
        }
    }
    lemma_not_port(s);
    lemma_not_address(s);
    lemma_not_time(s);
    lemma_not_block(s);
    lemma_not_hex(s);
    lemma_not_integer(s);
}

} // verus!
