//! Alignment, file names, path hashes and the clock.

use crate::shared::numeral;
use crate::shared::text;
use vstd::prelude::*;
use vstd::string::*;

verus! {

/// The least multiple of `alignment` that is not below `size`.
pub open spec fn aligned(size: nat, alignment: nat) -> nat {
    ((size + alignment - 1) / alignment as int * alignment) as nat
}

/// The least multiple of `alignment` that is not below `size`.
pub fn align_up(size: usize, alignment: usize) -> (r: usize)
    requires
        alignment > 0,
        size + alignment <= usize::MAX,
    ensures
        r == aligned(size as nat, alignment as nat),
        r % alignment == 0,
        size <= r < size + alignment,
{
    let t: usize = size + alignment - 1;
    proof {
        let q: int = (t as int) / (alignment as int);
        assert(q * alignment <= t && t < q * alignment + alignment) by (nonlinear_arith)
            requires
                q == (t as int) / (alignment as int),
                alignment > 0,
        ;
        assert((q * alignment) % (alignment as int) == 0) by (nonlinear_arith)
            requires
                alignment > 0,
        ;
    }
    t / alignment * alignment
}

/// How many bytes are missing to the next multiple of `alignment`.
pub fn padding_needed(size: usize, alignment: usize) -> (r: usize)
    requires
        alignment > 0,
        size + alignment <= usize::MAX,
    ensures
        (size + r) % (alignment as int) == 0,
        r < alignment,
{
    align_up(size, alignment) - size
}

/// `s` with zeros in front, up to `width` characters.
pub open spec fn zero_padded(s: Seq<char>, width: nat) -> Seq<char> {
    if s.len() < width {
        Seq::new((width - s.len()) as nat, |i: int| '0') + s
    } else {
        s
    }
}

/// The numeral of `v`, with zeros in front up to `width` digits.
pub fn padded_numeral(v: u64, width: usize, radix: u64) -> (r: Vec<char>)
    requires
        2 <= radix <= 16,
    ensures
        r@ == zero_padded(numeral::numeral(v as nat, radix as nat), width as nat),
{
    let mut digits: Vec<char> = numeral::numeral_chars(v, radix);
    let ghost tail = digits@;
    let mut r: Vec<char> = Vec::new();
    let zeros: usize = if digits.len() < width {
        width - digits.len()
    } else {
        0
    };
    while r.len() < zeros
        invariant
            r@.len() <= zeros,
            forall|k: int| 0 <= k < r@.len() ==> r@[k] == '0',
        decreases zeros - r@.len(),
    {
        r.push('0');
    }
    r.append(&mut digits);
    assert(r@ =~= zero_padded(tail, width as nat));
    r
}

/// The name of a segment file: `segment-`, the number in eight digits or
/// more, `.mobs`.
pub open spec fn segment_file_name(id: nat) -> Seq<char> {
    "segment-"@ + zero_padded(numeral::numeral(id, 10), 8) + ".mobs"@
}

/// The name of the file that holds segment `id`.
pub fn segment_name(id: u32) -> (r: String)
    ensures
        r@ == segment_file_name(id as nat),
{
    let mut r: String = String::new();
    r.append("segment-");
    let digits: Vec<char> = padded_numeral(id as u64, 8, 10);
    let middle: String = text::string_of(&digits);
    r.append(middle.as_str());
    r.append(".mobs");
    assert(r@ =~= segment_file_name(id as nat));
    r
}

/// The segment number that a file name holds.
///
/// Between `segment-` and `.mobs` stand at least eight characters. Where all of
/// them are digits they are the number; elsewhere the first eight are read.
pub open spec fn segment_name_id(name: Seq<char>) -> Option<nat> {
    let n: int = name.len() as int;
    if n < 21 || name.subrange(0, 8) != "segment-"@ || name.subrange(n - 5, n) != ".mobs"@ {
        None
    } else {
        let middle: Seq<char> = name.subrange(8, n - 5);
        let field: Seq<char> = if numeral::all_digits(middle, 10) {
            middle
        } else {
            middle.take(8)
        };
        match numeral::unsigned_value(field) {
            Some(v) => if v <= u32::MAX {
                Some(v)
            } else {
                None
            },
            None => None,
        }
    }
}

fn sub_chars(s: &[char], from: usize, to: usize) -> (r: Vec<char>)
    requires
        from <= to <= s@.len(),
    ensures
        r@ == s@.subrange(from as int, to as int),
{
    let mut r: Vec<char> = Vec::new();
    let mut i: usize = from;
    while i < to
        invariant
            from <= i <= to <= s@.len(),
            r@ == s@.subrange(from as int, i as int),
        decreases to - i,
    {
        r.push(s[i]);
        i += 1;
        assert(r@ =~= s@.subrange(from as int, i as int));
    }
    r
}

/// Reads the segment number from a file name; `None` where the name is not
/// that of a segment file.
pub fn parse_segment_name(name: &str) -> (r: Option<u32>)
    ensures
        match r {
            Some(id) => segment_name_id(name@) == Some(id as nat),
            None => segment_name_id(name@) is None,
        },
{
    proof {
        reveal_strlit("segment-");
        reveal_strlit(".mobs");
    }
    let chars: Vec<char> = text::chars_of(name);
    let n: usize = chars.len();
    if n < 21 {
        return None;
    }
    let prefix: Vec<char> = text::chars_of("segment-");
    let suffix: Vec<char> = text::chars_of(".mobs");
    let head: Vec<char> = sub_chars(&chars, 0, 8);
    let tail: Vec<char> = sub_chars(&chars, n - 5, n);
    if !text::same_chars(&head, &prefix) || !text::same_chars(&tail, &suffix) {
        return None;
    }
    let middle: Vec<char> = sub_chars(&chars, 8, n - 5);
    let field: Vec<char> = if numeral::only_digits(&middle) {
        middle
    } else {
        let f: Vec<char> = sub_chars(&middle, 0, 8);
        f
    };
    match numeral::parse_unsigned(&field) {
        Some(v) => if v <= u32::MAX as u64 {
            Some(v as u32)
        } else {
            None
        },
        None => None,
    }
}

/// A segment file's name gives back the segment's number.
pub proof fn law_segment_name_roundtrip(id: u32)
    ensures
        segment_name_id(segment_file_name(id as nat)) == Some(id as nat),
{
    reveal_strlit("segment-");
    reveal_strlit(".mobs");
    let digits: Seq<char> = numeral::numeral(id as nat, 10);
    let middle: Seq<char> = zero_padded(digits, 8);
    let name: Seq<char> = segment_file_name(id as nat);
    let n: int = name.len() as int;
    numeral::lemma_numeral(id as nat, 10);
    assert(name.subrange(0, 8) =~= "segment-"@);
    assert(name.subrange(n - 5, n) =~= ".mobs"@);
    assert(name.subrange(8, n - 5) =~= middle);
    lemma_zero_padded(digits, 8);
    assert(middle[0] != '+');
}

/// Zeros in front change neither the digits nor the value.
proof fn lemma_zero_padded(s: Seq<char>, width: nat)
    requires
        numeral::is_numeral(s, 10),
    ensures
        numeral::is_numeral(zero_padded(s, width), 10),
        numeral::digits_value(zero_padded(s, width), 10) == numeral::digits_value(s, 10),
        zero_padded(s, width)[0] != '+',
{
    if s.len() < width {
        let zeros: Seq<char> = Seq::new((width - s.len()) as nat, |i: int| '0');
        lemma_zeros_value(zeros, s);
        let p: Seq<char> = zero_padded(s, width);
        assert forall|i: int| 0 <= i < p.len() implies numeral::digit_value(#[trigger] p[i])
            < 10 by {
            if i >= zeros.len() {
                assert(p[i] == s[i - zeros.len()]);
            }
        }
    } else {
        assert(numeral::digit_value(s[0]) < 10);
    }
}

proof fn lemma_zeros_value(zeros: Seq<char>, s: Seq<char>)
    requires
        forall|i: int| 0 <= i < zeros.len() ==> zeros[i] == '0',
    ensures
        numeral::digits_value(zeros + s, 10) == numeral::digits_value(s, 10),
    decreases s.len() + zeros.len(),
{
    let whole: Seq<char> = zeros + s;
    if s.len() > 0 {
        lemma_zeros_value(zeros, s.drop_last());
        assert(whole.drop_last() =~= zeros + s.drop_last());
    } else if zeros.len() > 0 {
        lemma_zeros_value(zeros.drop_last(), s);
        assert(whole =~= zeros);
        assert(whole.drop_last() =~= zeros.drop_last() + s);
    }
}

/// FNV-1a over 64 bits.
pub open spec fn fnv1a(s: Seq<u8>) -> u64
    decreases s.len(),
{
    if s.len() == 0 {
        0xcbf2_9ce4_8422_2325
    } else {
        (fnv1a(s.drop_last()) ^ (s.last() as u64)).wrapping_mul(0x0100_0000_01b3)
    }
}

/// FNV-1a hash of a byte string.
pub fn fnv1a_hash(data: &[u8]) -> (h: u64)
    ensures
        h == fnv1a(data@),
{
    let mut h: u64 = 0xcbf2_9ce4_8422_2325;
    let mut i: usize = 0;
    assert(data@.take(0) =~= Seq::<u8>::empty());
    while i < data.len()
        invariant
            i <= data@.len(),
            h == fnv1a(data@.take(i as int)),
        decreases data@.len() - i,
    {
        assert(data@.take(i + 1).drop_last() =~= data@.take(i as int));
        h = (h ^ (data[i] as u64)).wrapping_mul(0x0100_0000_01b3);
        i += 1;
    }
    assert(data@.take(i as int) =~= data@);
    h
}

/// Hash of a path, for telling manifest entries apart quickly.
pub fn hash_path(path: &str) -> (h: u64)
    ensures
        h == fnv1a(path.spec_bytes()),
{
    fnv1a_hash(path.as_bytes())
}

/// Milliseconds since the Unix epoch by the system clock
/// (`std::time::SystemTime`). What the clock shows is not stated.
#[verifier::external_body]
pub fn now_ms() -> (ms: u64) {
    std::time::SystemTime::now()
        .duration_since(std::time::UNIX_EPOCH)
        .unwrap_or_default()
        .as_millis() as u64
}

/// Only names that start with `segment-`, end with `.mobs` and have eight
/// characters or more between hold a segment number; and where these are all
/// digits, it is the number they stand for.
pub proof fn law_segment_names(name: Seq<char>, middle: Seq<char>)
    ensures
        segment_name_id(name) is Some ==> name.len() >= 21 && name.take(8) == seq![
            's',
            'e',
            'g',
            'm',
            'e',
            'n',
            't',
            '-',
        ] && name.skip(name.len() - 5) == seq!['.', 'm', 'o', 'b', 's'],
        middle.len() >= 8 && numeral::all_digits(middle, 10) && numeral::digits_value(middle, 10)
            <= u32::MAX ==> segment_name_id("segment-"@ + middle + ".mobs"@) == Some(
            numeral::digits_value(middle, 10),
        ),
{
    reveal_strlit("segment-");
    reveal_strlit(".mobs");
    assert("segment-"@ =~= seq!['s', 'e', 'g', 'm', 'e', 'n', 't', '-']);
    assert(".mobs"@ =~= seq!['.', 'm', 'o', 'b', 's']);
    let n: int = name.len() as int;
    if n >= 21 {
        assert(name.subrange(0, 8) =~= name.take(8));
        assert(name.subrange(n - 5, n) =~= name.skip(n - 5));
    }
    let whole: Seq<char> = "segment-"@ + middle + ".mobs"@;
    let k: int = whole.len() as int;
    if middle.len() >= 8 {
        assert(whole.subrange(0, 8) =~= "segment-"@);
        assert(whole.subrange(k - 5, k) =~= ".mobs"@);
        assert(whole.subrange(8, k - 5) =~= middle);
        if numeral::all_digits(middle, 10) {
            assert(numeral::digit_value(middle[0]) < 10);
        }
    }
}

} // verus!
