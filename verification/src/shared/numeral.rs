//! Decimal and hexadecimal numerals.

use vstd::prelude::*;

verus! {

/// The character that stands for the digit `d` (lower case above nine).
pub open spec fn digit_char(d: nat) -> char {
    if d < 10 {
        ('0' as u32 + d) as char
    } else {
        ('a' as u32 + (d - 10)) as char
    }
}

/// The digit that a character stands for; 16 where it is no digit.
pub open spec fn digit_value(c: char) -> nat {
    if '0' <= c <= '9' {
        (c as u32 - '0' as u32) as nat
    } else if 'a' <= c <= 'f' {
        (c as u32 - 'a' as u32 + 10) as nat
    } else {
        16
    }
}

/// The numeral of `n`, without leading zeros.
pub open spec fn numeral(n: nat, radix: nat) -> Seq<char>
    decreases n,
{
    if radix < 2 || n < radix {
        seq![digit_char(n)]
    } else {
        proof {
            assert(n / radix < n) by (nonlinear_arith)
                requires
                    n >= radix,
                    radix >= 2,
            ;
        }
        numeral(n / radix, radix).push(digit_char(n % radix))
    }
}

/// The decimal text of an integer.
pub open spec fn int_text(i: int) -> Seq<char> {
    if i < 0 {
        seq!['-'] + numeral((-i) as nat, 10)
    } else {
        numeral(i as nat, 10)
    }
}

/// Every character is a digit.
pub open spec fn all_digits(s: Seq<char>, radix: nat) -> bool {
    forall|i: int| 0 <= i < s.len() ==> digit_value(#[trigger] s[i]) < radix
}

/// The number that a sequence of digits stands for.
pub open spec fn digits_value(s: Seq<char>, radix: nat) -> nat
    decreases s.len(),
{
    if s.len() == 0 {
        0
    } else {
        digits_value(s.drop_last(), radix) * radix + digit_value(s.last())
    }
}

/// At least one digit, and nothing else.
pub open spec fn is_numeral(s: Seq<char>, radix: nat) -> bool {
    s.len() > 0 && all_digits(s, radix)
}

/// A numeral without needless zeros in front.
pub open spec fn is_canonical(s: Seq<char>, radix: nat) -> bool {
    is_numeral(s, radix) && (s.len() > 1 ==> s[0] != '0')
}

pub proof fn lemma_digit_char(d: nat)
    requires
        d < 16,
    ensures
        digit_value(digit_char(d)) == d,
        d > 0 ==> digit_char(d) != '0',
        d < 10 ==> '0' <= digit_char(d) <= '9',
        digit_char(d) as u32 >= 0x30,
{
}

proof fn lemma_digit_value(c: char)
    requires
        digit_value(c) < 16,
    ensures
        digit_char(digit_value(c)) == c,
{
}

/// A number's numeral is canonical and stands for the number.
pub proof fn lemma_numeral(n: nat, radix: nat)
    requires
        2 <= radix <= 16,
    ensures
        is_canonical(numeral(n, radix), radix),
        digits_value(numeral(n, radix), radix) == n,
        n > 0 ==> numeral(n, radix)[0] != '0',
    decreases n,
{
    let s: Seq<char> = numeral(n, radix);
    if n < radix {
        lemma_digit_char(n);
        assert(s.drop_last() =~= Seq::<char>::empty());
        assert(digits_value(s.drop_last(), radix) == 0);
        assert(0 * radix == 0);
    } else {
        assert(n / radix < n) by (nonlinear_arith)
            requires
                n >= radix,
                radix >= 2,
        ;
        lemma_numeral(n / radix, radix);
        lemma_digit_char(n % radix);
        let head: Seq<char> = numeral(n / radix, radix);
        assert(s.drop_last() =~= head);
        assert(n / radix > 0 && n == (n / radix) * radix + n % radix) by (nonlinear_arith)
            requires
                n >= radix,
                radix >= 2,
        ;
        assert(s[0] == head[0]);
        assert forall|i: int| 0 <= i < s.len() implies digit_value(#[trigger] s[i]) < radix by {
            if i < head.len() {
                assert(s[i] == head[i]);
            }
        }
    }
}

/// A canonical numeral is the numeral of the number it stands for.
pub proof fn lemma_canonical(s: Seq<char>, radix: nat)
    requires
        2 <= radix <= 16,
        is_canonical(s, radix),
    ensures
        numeral(digits_value(s, radix), radix) == s,
        s[0] != '0' ==> digits_value(s, radix) > 0,
    decreases s.len(),
{
    let head: Seq<char> = s.drop_last();
    let v: nat = digits_value(s, radix);
    lemma_digit_value(s.last());
    let d: nat = digit_value(s.last());
    if s.len() == 1 {
        assert(digits_value(head, radix) == 0);
        assert(0 * radix == 0);
        assert(s =~= seq![s[0]]);
    } else {
        assert forall|i: int| 0 <= i < head.len() implies digit_value(#[trigger] head[i])
            < radix by {
            assert(head[i] == s[i]);
        }
        assert(head[0] == s[0]);
        lemma_canonical(head, radix);
        let h: nat = digits_value(head, radix);
        assert(v == h * radix + d);
        assert(v / radix == h && v % radix == d && v >= radix) by (nonlinear_arith)
            requires
                v == h * radix + d,
                d < radix,
                h > 0,
                radix >= 2,
        ;
        assert(numeral(v, radix) =~= s);
    }
}

/// A prefix stands for no more than the whole.
pub proof fn lemma_digits_prefix(s: Seq<char>, k: int, radix: nat)
    requires
        0 <= k <= s.len(),
        radix >= 1,
    ensures
        digits_value(s.take(k), radix) <= digits_value(s, radix),
    decreases s.len() - k,
{
    if k == s.len() {
        assert(s.take(k) =~= s);
    } else {
        lemma_digits_prefix(s, k + 1, radix);
        let next: Seq<char> = s.take(k + 1);
        assert(next.drop_last() =~= s.take(k));
        let a: nat = digits_value(s.take(k), radix);
        assert(a <= a * radix) by (nonlinear_arith)
            requires
                radix >= 1,
        ;
    }
}

fn digit_char_exec(d: u64) -> (c: char)
    requires
        d < 16,
    ensures
        c == digit_char(d as nat),
{
    if d < 10 {
        (48 + d as u8) as char
    } else {
        (97 + (d as u8 - 10)) as char
    }
}

/// The numeral of `v`.
pub fn numeral_chars(v: u64, radix: u64) -> (r: Vec<char>)
    requires
        2 <= radix <= 16,
    ensures
        r@ == numeral(v as nat, radix as nat),
    decreases v,
{
    if v < radix {
        let mut r: Vec<char> = Vec::new();
        r.push(digit_char_exec(v));
        assert(r@ =~= numeral(v as nat, radix as nat));
        r
    } else {
        assert(v / radix < v) by (nonlinear_arith)
            requires
                v >= radix,
                radix >= 2,
        ;
        assert(v % radix < radix) by (nonlinear_arith)
            requires
                radix >= 2,
        ;
        let mut r: Vec<char> = numeral_chars(v / radix, radix);
        r.push(digit_char_exec(v % radix));
        r
    }
}

fn digit_value_exec(c: char) -> (d: u64)
    ensures
        d == digit_value(c),
{
    let u: u32 = c as u32;
    if '0' <= c && c <= '9' {
        (u - 48) as u64
    } else if 'a' <= c && c <= 'f' {
        (u - 97 + 10) as u64
    } else {
        16
    }
}

/// Reads a numeral that fits in 64 bits.
pub fn parse_numeral(s: &[char], radix: u64) -> (r: Option<u64>)
    requires
        2 <= radix <= 16,
    ensures
        match r {
            Some(v) => is_numeral(s@, radix as nat) && v == digits_value(s@, radix as nat),
            None => !is_numeral(s@, radix as nat) || digits_value(s@, radix as nat) > u64::MAX,
        },
{
    let n: usize = s.len();
    if n == 0 {
        return None;
    }
    let mut v: u64 = 0;
    let mut i: usize = 0;
    while i < n
        invariant
            2 <= radix <= 16,
            i <= n,
            n == s@.len(),
            all_digits(s@.take(i as int), radix as nat),
            v == digits_value(s@.take(i as int), radix as nat),
        decreases n - i,
    {
        let ghost next = s@.take(i + 1);
        assert(next.drop_last() =~= s@.take(i as int));
        let d: u64 = digit_value_exec(s[i]);
        if d >= radix {
            assert(digit_value(s@[i as int]) >= radix);
            return None;
        }
        assert forall|k: int| 0 <= k < next.len() implies digit_value(#[trigger] next[k])
            < radix by {
            if k < i {
                assert(next[k] == s@.take(i as int)[k]);
            }
        }
        if v > (u64::MAX - d) / radix {
            proof {
                lemma_digits_prefix(s@, i + 1, radix as nat);
                assert(v * radix + d > u64::MAX) by (nonlinear_arith)
                    requires
                        v > (u64::MAX - d) / (radix as int),
                        radix >= 2,
                        d < 16,
                ;
            }
            return None;
        }
        assert(v * radix + d <= u64::MAX) by (nonlinear_arith)
            requires
                v <= (u64::MAX - d) / (radix as int),
                radix >= 2,
                d < 16,
        ;
        v = v * radix + d;
        i += 1;
    }
    assert(s@.take(n as int) =~= s@);
    Some(v)
}

/// Whether every character is a decimal digit.
pub fn only_digits(s: &[char]) -> (r: bool)
    ensures
        r == all_digits(s@, 10),
{
    let mut i: usize = 0;
    while i < s.len()
        invariant
            i <= s@.len(),
            forall|k: int| 0 <= k < i ==> digit_value(#[trigger] s@[k]) < 10,
        decreases s@.len() - i,
    {
        if digit_value_exec(s[i]) >= 10 {
            assert(digit_value(s@[i as int]) >= 10);
            return false;
        }
        i += 1;
    }
    true
}

/// What `str::parse` reads as an unsigned number: digits, with one `+` in
/// front allowed.
pub open spec fn unsigned_value(s: Seq<char>) -> Option<nat> {
    let body: Seq<char> = if s.len() > 0 && s[0] == '+' {
        s.drop_first()
    } else {
        s
    };
    if is_numeral(body, 10) {
        Some(digits_value(body, 10))
    } else {
        None
    }
}

/// What `str::parse` reads as a signed number: digits, with one sign in front
/// allowed.
pub open spec fn signed_value(s: Seq<char>) -> Option<int> {
    if s.len() > 0 && s[0] == '-' {
        if is_numeral(s.drop_first(), 10) {
            Some(-(digits_value(s.drop_first(), 10) as int))
        } else {
            None
        }
    } else {
        match unsigned_value(s) {
            Some(v) => Some(v as int),
            None => None,
        }
    }
}

fn tail_of(s: &[char]) -> (r: Vec<char>)
    requires
        s@.len() > 0,
    ensures
        r@ == s@.drop_first(),
{
    let mut r: Vec<char> = Vec::new();
    let mut i: usize = 1;
    while i < s.len()
        invariant
            1 <= i <= s@.len(),
            r@ == s@.subrange(1, i as int),
        decreases s@.len() - i,
    {
        r.push(s[i]);
        i += 1;
        assert(r@ =~= s@.subrange(1, i as int));
    }
    r
}

/// Reads an unsigned number that fits in 64 bits.
pub fn parse_unsigned(s: &[char]) -> (r: Option<u64>)
    ensures
        match r {
            Some(v) => unsigned_value(s@) == Some(v as nat),
            None => unsigned_value(s@) is None || unsigned_value(s@)->0 > u64::MAX,
        },
{
    if s.len() > 0 && s[0] == '+' {
        let body: Vec<char> = tail_of(s);
        parse_numeral(&body, 10)
    } else {
        parse_numeral(s, 10)
    }
}

/// Reads a signed number that fits in 64 bits.
pub fn parse_signed(s: &[char]) -> (r: Option<i64>)
    ensures
        match r {
            Some(v) => signed_value(s@) == Some(v as int),
            None => signed_value(s@) is None || signed_value(s@)->0 < i64::MIN
                || signed_value(s@)->0 > i64::MAX,
        },
{
    if s.len() > 0 && s[0] == '-' {
        let body: Vec<char> = tail_of(s);
        match parse_numeral(&body, 10) {
            None => None,
            Some(v) => {
                if v <= 0x7fff_ffff_ffff_ffff {
                    Some(-(v as i64))
                } else if v == 0x8000_0000_0000_0000 {
                    Some(i64::MIN)
                } else {
                    None
                }
            },
        }
    } else {
        match parse_unsigned(s) {
            None => None,
            Some(v) => {
                if v <= 0x7fff_ffff_ffff_ffff {
                    Some(v as i64)
                } else {
                    None
                }
            },
        }
    }
}

/// The decimal text of a signed number.
pub fn int_chars(v: i64) -> (r: Vec<char>)
    ensures
        r@ == int_text(v as int),
{
    if v >= 0 {
        numeral_chars(v as u64, 10)
    } else {
        let mag: u64 = if v == i64::MIN {
            0x8000_0000_0000_0000
        } else {
            (-v) as u64
        };
        let mut digits: Vec<char> = numeral_chars(mag, 10);
        let mut r: Vec<char> = Vec::new();
        r.push('-');
        let ghost tail = digits@;
        r.append(&mut digits);
        assert(r@ =~= seq!['-'] + tail);
        r
    }
}

/// Reading an integer's text gives the integer.
pub proof fn lemma_int_text(i: int)
    ensures
        signed_value(int_text(i)) == Some(i),
        i >= 0 ==> unsigned_value(int_text(i)) == Some(i as nat),
        int_text(i).len() > 0,
{
    if i < 0 {
        lemma_numeral((-i) as nat, 10);
        assert(int_text(i).drop_first() =~= numeral((-i) as nat, 10));
    } else {
        lemma_numeral(i as nat, 10);
        let s: Seq<char> = numeral(i as nat, 10);
        assert(digit_value(s[0]) < 10);
        assert(s[0] != '+' && s[0] != '-');
    }
}

} // verus!
