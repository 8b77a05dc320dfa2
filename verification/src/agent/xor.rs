//! XOR-P: a byte string written as its difference from a base, in words of 64
//! bits.

use crate::agent::template::TemplateExtractor;
use crate::shared::bloom;
use crate::shared::bytes;
use vstd::prelude::*;

verus! {

/// The word at `off`, of the first `len` bytes of `s`. What is missing counts
/// as zero.
pub open spec fn word_at(s: Seq<u8>, off: nat, len: nat) -> u64 {
    let lim: nat = if len < s.len() {
        len
    } else {
        s.len()
    };
    let end: nat = if off + 8 < lim {
        off + 8
    } else {
        lim
    };
    if off < end {
        bytes::le_value(s.subrange(off as int, end as int)) as u64
    } else {
        0
    }
}

impl TemplateExtractor {
    /// The word at `offset`, of the first `len` bytes. What is missing counts as
    /// zero.
    pub fn read_u64_le(bytes: &[u8], offset: usize, len: usize) -> (r: u64)
        ensures
            r == word_at(bytes@, offset as nat, len as nat),
    {
        let total: usize = bytes.len();
        let lim: usize = if len < total {
            len
        } else {
            total
        };
        if offset >= lim {
            return 0;
        }
        let width: usize = if lim - offset > 8 {
            8
        } else {
            lim - offset
        };
        proof {
            bytes::lemma_pow256();
            bytes::lemma_pow256_monotone(width as nat, 8);
        }
        bytes::read_le(bytes, offset, width)
    }
}

/// How many words two strings take.
pub open spec fn word_count(curr: Seq<u8>, base: Seq<u8>) -> nat {
    let m: nat = if curr.len() > base.len() {
        curr.len()
    } else {
        base.len()
    };
    ((m + 7) / 8) as nat
}

/// The difference of the `i`-th words.
pub open spec fn word_diff(curr: Seq<u8>, base: Seq<u8>, i: nat) -> u64 {
    word_at(curr, 8 * i, curr.len()) ^ word_at(base, 8 * i, base.len())
}

/// The bitmap after `i` words: bit `k` tells whether word `k` differs.
pub open spec fn diff_bitmap(curr: Seq<u8>, base: Seq<u8>, i: nat) -> Seq<u8>
    decreases i,
{
    if i == 0 {
        Seq::new(((word_count(curr, base) + 7) / 8) as nat, |j: int| 0u8)
    } else {
        let k: nat = (i - 1) as nat;
        let b: Seq<u8> = diff_bitmap(curr, base, k);
        if word_diff(curr, base, k) != 0 {
            b.update((k / 8) as int, b[(k / 8) as int] | (1u8 << ((k % 8) as u8)))
        } else {
            b
        }
    }
}

/// The differing words among the first `i`, in eight bytes each.
pub open spec fn diff_words(curr: Seq<u8>, base: Seq<u8>, i: nat) -> Seq<u8>
    decreases i,
{
    if i == 0 {
        Seq::empty()
    } else {
        let k: nat = (i - 1) as nat;
        if word_diff(curr, base, k) != 0 {
            diff_words(curr, base, k) + bytes::le_bytes(word_diff(curr, base, k) as nat, 8)
        } else {
            diff_words(curr, base, k)
        }
    }
}

/// `curr` as its difference from `base`: word count and length in two bytes
/// each, the bitmap, the differing words.
pub open spec fn xor_encoding(curr: Seq<u8>, base: Seq<u8>) -> Seq<u8> {
    let n: nat = word_count(curr, base);
    bytes::le_bytes(n, 2) + bytes::le_bytes(curr.len(), 2) + diff_bitmap(curr, base, n)
        + diff_words(curr, base, n)
}

proof fn lemma_or_bit(b: u8, k: u8, j: u8)
    requires
        k < 8,
        j < 8,
    ensures
        bloom::byte_bit(b | (1u8 << k), j as nat) == (j == k || bloom::byte_bit(b, j as nat)),
{
    assert((((b | (1u8 << k)) >> j) & 1 != 0) == (j == k || (b >> j) & 1 != 0)) by (bit_vector)
        requires
            k < 8,
            j < 8,
    ;
}

proof fn lemma_zero_bit(j: u8)
    requires
        j < 8,
    ensures
        !bloom::byte_bit(0u8, j as nat),
{
    assert((0u8 >> j) & 1 == 0) by (bit_vector);
}

/// The bitmap tells which words differ.
proof fn lemma_bitmap(curr: Seq<u8>, base: Seq<u8>, i: nat)
    requires
        i <= word_count(curr, base),
    ensures
        diff_bitmap(curr, base, i).len() == (word_count(curr, base) + 7) / 8,
        forall|k: nat|
            k < word_count(curr, base) ==> #[trigger] bloom::filter_bit(
                diff_bitmap(curr, base, i),
                k,
            ) == (k < i && word_diff(curr, base, k) != 0),
    decreases i,
{
    let n: nat = word_count(curr, base);
    if i == 0 {
        assert forall|k: nat| k < n implies #[trigger] bloom::filter_bit(
            diff_bitmap(curr, base, i),
            k,
        ) == false by {
            lemma_zero_bit((k % 8) as u8);
        }
    } else {
        let m: nat = (i - 1) as nat;
        lemma_bitmap(curr, base, m);
        let b: Seq<u8> = diff_bitmap(curr, base, m);
        assert forall|k: nat| k < n implies #[trigger] bloom::filter_bit(
            diff_bitmap(curr, base, i),
            k,
        ) == (k < i && word_diff(curr, base, k) != 0) by {
            assert(bloom::filter_bit(b, k) == (k < m && word_diff(curr, base, k) != 0));
            if word_diff(curr, base, m) != 0 {
                lemma_or_bit(b[(m / 8) as int], (m % 8) as u8, (k % 8) as u8);
            }
        }
    }
}

impl TemplateExtractor {
    /// Encodes `curr` as its difference from `base`.
    pub fn xor_param_bytes(curr: &[u8], base: &[u8]) -> (r: Vec<u8>)
        ensures
            r@ == xor_encoding(curr@, base@),
    {
        let max_len: usize = if curr.len() > base.len() {
            curr.len()
        } else {
            base.len()
        };
        let n: usize = if max_len % 8 == 0 {
            max_len / 8
        } else {
            max_len / 8 + 1
        };
        assert(n == word_count(curr@, base@));
        let bitmap_len: usize = if n % 8 == 0 {
            n / 8
        } else {
            n / 8 + 1
        };
        let mut bitmap: Vec<u8> = Vec::new();
        while bitmap.len() < bitmap_len
            invariant
                bitmap@.len() <= bitmap_len,
                forall|k: int| 0 <= k < bitmap@.len() ==> bitmap@[k] == 0,
            decreases bitmap_len - bitmap@.len(),
        {
            bitmap.push(0u8);
        }
        assert(bitmap@ =~= diff_bitmap(curr@, base@, 0));
        let mut literals: Vec<u8> = Vec::new();
        let mut i: usize = 0;
        while i < n
            invariant
                i <= n,
                n == word_count(curr@, base@),
                8 * n <= max_len + 7,
                max_len == curr@.len() || max_len == base@.len(),
                bitmap@ == diff_bitmap(curr@, base@, i as nat),
                literals@ == diff_words(curr@, base@, i as nat),
            decreases n - i,
        {
            proof {
                lemma_bitmap(curr@, base@, i as nat);
                assert(curr.len() == curr@.len() && base.len() == base@.len());
            }
            let off: usize = i * 8;
            let c: u64 = TemplateExtractor::read_u64_le(curr, off, curr.len());
            let b: u64 = TemplateExtractor::read_u64_le(base, off, base.len());
            let x: u64 = c ^ b;
            assert(x == word_diff(curr@, base@, i as nat));
            if x != 0 {
                let k: usize = i / 8;
                let old_byte: u8 = bitmap[k];
                bitmap.set(k, old_byte | (1u8 << ((i % 8) as u8)));
                bytes::push_le(&mut literals, x, 8);
            }
            i += 1;
        }
        let mut result: Vec<u8> = Vec::new();
        bytes::push_le(&mut result, n as u64, 2);
        bytes::push_le(&mut result, curr.len() as u64, 2);
        bytes::push_bytes(&mut result, &bitmap);
        bytes::push_bytes(&mut result, &literals);
        assert(result@ =~= xor_encoding(curr@, base@));
        result
    }
}

// ---------- decoding ----------

/// The word count that an encoding states.
pub open spec fn enc_words(data: Seq<u8>) -> nat {
    bytes::le_value(data.subrange(0, 2))
}

/// The length that an encoding states.
pub open spec fn enc_len(data: Seq<u8>) -> nat {
    bytes::le_value(data.subrange(2, 4))
}

/// The length of an encoding's bitmap.
pub open spec fn enc_bitmap_len(data: Seq<u8>) -> nat {
    ((enc_words(data) + 7) / 8) as nat
}

/// Whether word `i` differs from the base.
pub open spec fn enc_bit(data: Seq<u8>, i: nat) -> bool {
    bloom::filter_bit(data.skip(4), i)
}

/// How many of the first `i` words differ from the base.
pub open spec fn enc_ones(data: Seq<u8>, i: nat) -> nat
    decreases i,
{
    if i == 0 {
        0
    } else {
        enc_ones(data, (i - 1) as nat) + (if enc_bit(data, (i - 1) as nat) {
            1nat
        } else {
            0nat
        })
    }
}

/// Where the difference of word `i` is stored.
pub open spec fn enc_literal_at(data: Seq<u8>, i: nat) -> nat {
    4 + enc_bitmap_len(data) + 8 * enc_ones(data, i)
}

/// How many bytes an encoding takes.
pub open spec fn enc_size(data: Seq<u8>) -> nat {
    enc_literal_at(data, enc_words(data))
}

/// An encoding stands at the front of `data`. Fewer than two bytes stand for
/// the base itself.
pub open spec fn enc_well_formed(data: Seq<u8>) -> bool {
    data.len() < 2 || {
        &&& data.len() >= 4
        &&& data.len() >= 4 + enc_bitmap_len(data)
        &&& data.len() >= enc_size(data)
        &&& enc_len(data) <= 8 * enc_words(data)
    }
}

/// Word `i` of what an encoding stands for.
pub open spec fn enc_word(data: Seq<u8>, base: Seq<u8>, i: nat) -> u64 {
    let b: u64 = word_at(base, 8 * i, base.len());
    if enc_bit(data, i) {
        b ^ (bytes::le_value(bytes::window(data, enc_literal_at(data, i), 8)) as u64)
    } else {
        b
    }
}

/// The first `i` words of what an encoding stands for.
pub open spec fn enc_text(data: Seq<u8>, base: Seq<u8>, i: nat) -> Seq<u8>
    decreases i,
{
    if i == 0 {
        Seq::empty()
    } else {
        enc_text(data, base, (i - 1) as nat) + bytes::le_bytes(
            enc_word(data, base, (i - 1) as nat) as nat,
            8,
        )
    }
}

/// What an encoding stands for.
pub open spec fn xor_decoding(data: Seq<u8>, base: Seq<u8>) -> Seq<u8> {
    if data.len() < 2 {
        base
    } else {
        enc_text(data, base, enc_words(data)).take(enc_len(data) as int)
    }
}

/// How many bytes decoding takes from `data`.
pub open spec fn xor_consumed(data: Seq<u8>) -> nat {
    if data.len() < 2 {
        0
    } else {
        enc_size(data)
    }
}

proof fn lemma_enc_text_len(data: Seq<u8>, base: Seq<u8>, i: nat)
    ensures
        enc_text(data, base, i).len() == 8 * i,
    decreases i,
{
    if i > 0 {
        lemma_enc_text_len(data, base, (i - 1) as nat);
        bytes::lemma_le_bytes_len(enc_word(data, base, (i - 1) as nat) as nat, 8);
    }
}

proof fn lemma_enc_ones(data: Seq<u8>, i: nat, n: nat)
    requires
        i <= n,
    ensures
        enc_ones(data, i) <= enc_ones(data, n),
        enc_ones(data, n) <= enc_ones(data, i) + (n - i),
    decreases n,
{
    if i < n {
        lemma_enc_ones(data, i, (n - 1) as nat);
    }
}

/// Whether an encoding stands at the front of `data`.
pub fn xor_well_formed(data: &[u8]) -> (r: bool)
    ensures
        r == enc_well_formed(data@),
{
    let total: usize = data.len();
    if total < 2 {
        return true;
    }
    if total < 4 {
        return false;
    }
    proof {
        bytes::lemma_pow256();
    }
    let n: usize = bytes::read_le(data, 0, 2) as usize;
    let olen: usize = bytes::read_le(data, 2, 2) as usize;
    let bitmap_len: usize = (n + 7) / 8;
    if total < 4 + bitmap_len {
        return false;
    }
    let mut ones: usize = 0;
    let mut i: usize = 0;
    while i < n
        invariant
            i <= n <= 0xffff,
            n == enc_words(data@),
            total == data@.len(),
            bitmap_len == (n + 7) / 8,
            total >= 4 + bitmap_len,
            ones == enc_ones(data@, i as nat),
            ones <= i,
        decreases n - i,
    {
        if bloom_bit(data, i) {
            ones += 1;
        }
        i += 1;
    }
    total >= 4 + bitmap_len + 8 * ones && olen <= 8 * n
}

fn bloom_bit(data: &[u8], i: usize) -> (r: bool)
    requires
        4 + i / 8 < data@.len(),
    ensures
        r == enc_bit(data@, i as nat),
{
    assert(data@.skip(4)[(i / 8) as int] == data@[4 + i / 8]);
    let total: usize = data.len();
    (data[4 + i / 8] >> ((i % 8) as u8)) & 1 != 0
}

impl TemplateExtractor {
    /// Decodes the encoding at the front of `data`; gives the bytes and how many
    /// bytes of `data` it took.
    pub fn decode_xor_param_bytes(data: &[u8], base: &[u8]) -> (r: (Vec<u8>, usize))
        requires
            enc_well_formed(data@),
        ensures
            r.0@ == xor_decoding(data@, base@),
            r.1 == xor_consumed(data@),
    {
        let total: usize = data.len();
        if total < 2 {
            return (vstd::slice::slice_to_vec(base), 0);
        }
        proof {
            bytes::lemma_pow256();
        }
        let n: usize = bytes::read_le(data, 0, 2) as usize;
        let olen: usize = bytes::read_le(data, 2, 2) as usize;
        let bitmap_len: usize = (n + 7) / 8;
        let mut out: Vec<u8> = Vec::new();
        let mut lit: usize = 4 + bitmap_len;
        let mut i: usize = 0;
        while i < n
            invariant
                i <= n <= 0xffff,
                n == enc_words(data@),
                total == data@.len(),
                bitmap_len == (n + 7) / 8,
                total >= 4 + bitmap_len,
                total >= enc_size(data@),
                lit == enc_literal_at(data@, i as nat),
                out@ == enc_text(data@, base@, i as nat),
            decreases n - i,
        {
            proof {
                lemma_enc_ones(data@, i as nat, n as nat);
                lemma_enc_ones(data@, (i + 1) as nat, n as nat);
            }
            let mut w: u64 = TemplateExtractor::read_u64_le(base, i * 8, base.len());
            if bloom_bit(data, i) {
                let x: u64 = bytes::read_le(data, lit, 8);
                w = w ^ x;
                lit += 8;
            }
            bytes::push_le(&mut out, w, 8);
            i += 1;
        }
        proof {
            lemma_enc_text_len(data@, base@, n as nat);
        }
        out.truncate(olen);
        assert(out@ =~= xor_decoding(data@, base@));
        (out, lit)
    }
}

// ---------- round trip ----------

/// The bytes of a shorter number, written in more bytes, start the same.
proof fn lemma_le_bytes_prefix(s: Seq<u8>, width: nat)
    requires
        s.len() <= width,
    ensures
        bytes::le_bytes(bytes::le_value(s), width).take(s.len() as int) == s,
    decreases s.len(),
{
    let v: nat = bytes::le_value(s);
    bytes::lemma_le_bytes_len(v, width);
    if s.len() > 0 {
        lemma_le_bytes_prefix(s.drop_first(), (width - 1) as nat);
        let rest: Seq<u8> = bytes::le_bytes(v / 256, (width - 1) as nat);
        bytes::lemma_le_bytes_len(v / 256, (width - 1) as nat);
        assert(v % 256 == s[0] as nat);
        assert(v / 256 == bytes::le_value(s.drop_first()));
        assert(bytes::le_bytes(v, width).take(s.len() as int) =~= seq![s[0]] + rest.take(
            s.len() - 1,
        ));
        assert(s =~= seq![s[0]] + s.drop_first());
    } else {
        assert(bytes::le_bytes(v, width).take(0) =~= s);
    }
}

proof fn lemma_diff_words_len(curr: Seq<u8>, base: Seq<u8>, data: Seq<u8>, i: nat)
    requires
        i <= word_count(curr, base),
        forall|k: nat|
            k < word_count(curr, base) ==> #[trigger] enc_bit(data, k) == (word_diff(curr, base, k)
                != 0),
    ensures
        diff_words(curr, base, i).len() == 8 * enc_ones(data, i),
    decreases i,
{
    if i > 0 {
        let k: nat = (i - 1) as nat;
        lemma_diff_words_len(curr, base, data, k);
        assert(enc_bit(data, k) == (word_diff(curr, base, k) != 0));
        bytes::lemma_le_bytes_len(word_diff(curr, base, k) as nat, 8);
    }
}

proof fn lemma_diff_words_prefix(curr: Seq<u8>, base: Seq<u8>, i: nat, n: nat)
    requires
        i <= n,
    ensures
        diff_words(curr, base, i).len() <= diff_words(curr, base, n).len(),
        diff_words(curr, base, n).take(diff_words(curr, base, i).len() as int) == diff_words(
            curr,
            base,
            i,
        ),
    decreases n,
{
    let a: Seq<u8> = diff_words(curr, base, i);
    if i < n {
        lemma_diff_words_prefix(curr, base, i, (n - 1) as nat);
        let m: Seq<u8> = diff_words(curr, base, (n - 1) as nat);
        assert(diff_words(curr, base, n).take(a.len() as int) =~= m.take(a.len() as int));
    } else {
        assert(a.take(a.len() as int) =~= a);
    }
}

proof fn lemma_enc_text_back(curr: Seq<u8>, base: Seq<u8>, data: Seq<u8>, i: nat)
    requires
        i <= word_count(curr, base),
        forall|k: nat|
            k < word_count(curr, base) ==> #[trigger] enc_word(data, base, k) == word_at(
                curr,
                8 * k,
                curr.len(),
            ),
    ensures
        enc_text(data, base, i).len() == 8 * i,
        forall|p: int|
            0 <= p < 8 * i && p < curr.len() ==> #[trigger] enc_text(data, base, i)[p] == curr[p],
    decreases i,
{
    lemma_enc_text_len(data, base, i);
    if i > 0 {
        let k: nat = (i - 1) as nat;
        lemma_enc_text_back(curr, base, data, k);
        assert(enc_word(data, base, k) == word_at(curr, 8 * k, curr.len()));
        let w: nat = word_at(curr, 8 * k, curr.len()) as nat;
        let tail: Seq<u8> = bytes::le_bytes(w, 8);
        let end: nat = if 8 * k + 8 < curr.len() {
            8 * k + 8
        } else {
            curr.len()
        };
        bytes::lemma_le_bytes_len(w, 8);
        if 8 * k < end {
            let sub: Seq<u8> = curr.subrange((8 * k) as int, end as int);
            bytes::lemma_pow256();
            bytes::lemma_le_value_bound(sub);
            bytes::lemma_pow256_monotone(sub.len(), 8);
            lemma_le_bytes_prefix(sub, 8);
            assert forall|p: int| 0 <= p < 8 * i && p < curr.len() implies #[trigger] enc_text(
                data,
                base,
                i,
            )[p] == curr[p] by {
                if p >= 8 * k {
                    assert(tail.take(sub.len() as int)[p - 8 * k] == sub[p - 8 * k]);
                }
            }
        }
    }
}

/// Decoding an encoding with the same base gives the bytes back, and takes
/// exactly the encoding, whatever stands behind it.
pub proof fn law_xor_roundtrip(curr: Seq<u8>, base: Seq<u8>, rest: Seq<u8>)
    requires
        curr.len() <= 0xffff,
        word_count(curr, base) <= 0xffff,
    ensures
        enc_well_formed(xor_encoding(curr, base) + rest),
        xor_decoding(xor_encoding(curr, base) + rest, base) == curr,
        xor_consumed(xor_encoding(curr, base) + rest) == xor_encoding(curr, base).len(),
{
    let n: nat = word_count(curr, base);
    let enc: Seq<u8> = xor_encoding(curr, base);
    let data: Seq<u8> = enc + rest;
    let bm: Seq<u8> = diff_bitmap(curr, base, n);
    let lits: Seq<u8> = diff_words(curr, base, n);
    bytes::lemma_pow256();
    bytes::lemma_le_value_of_bytes(n, 2);
    bytes::lemma_le_value_of_bytes(curr.len(), 2);
    lemma_bitmap(curr, base, n);
    assert(data.subrange(0, 2) =~= bytes::le_bytes(n, 2));
    assert(data.subrange(2, 4) =~= bytes::le_bytes(curr.len(), 2));
    assert forall|k: nat| k < n implies #[trigger] enc_bit(data, k) == (word_diff(curr, base, k)
        != 0) by {
        assert(data.skip(4)[(k / 8) as int] == bm[(k / 8) as int]);
        assert(bloom::filter_bit(bm, k) == (word_diff(curr, base, k) != 0));
    }
    lemma_diff_words_len(curr, base, data, n);
    assert forall|k: nat| k < n implies #[trigger] enc_word(data, base, k) == word_at(
        curr,
        8 * k,
        curr.len(),
    ) by {
        let c: u64 = word_at(curr, 8 * k, curr.len());
        let b: u64 = word_at(base, 8 * k, base.len());
        let x: u64 = word_diff(curr, base, k);
        assert(enc_bit(data, k) == (x != 0));
        assert(b ^ (c ^ b) == c) by (bit_vector);
        assert(c ^ b == 0 ==> c == b) by (bit_vector);
        if x != 0 {
            lemma_diff_words_len(curr, base, data, k);
            lemma_diff_words_len(curr, base, data, k + 1);
            lemma_diff_words_prefix(curr, base, k + 1, n);
            bytes::lemma_le_value_of_bytes(x as nat, 8);
            let at: nat = enc_literal_at(data, k);
            let upto: Seq<u8> = diff_words(curr, base, k + 1);
            let before: Seq<u8> = diff_words(curr, base, k);
            assert(bytes::window(data, at, 8) =~= lits.subrange(
                before.len() as int,
                upto.len() as int,
            ));
            assert(lits.subrange(before.len() as int, upto.len() as int) =~= lits.take(
                upto.len() as int,
            ).subrange(before.len() as int, upto.len() as int));
            assert(upto.subrange(before.len() as int, upto.len() as int) =~= bytes::le_bytes(
                x as nat,
                8,
            ));
        }
    }
    lemma_enc_text_back(curr, base, data, n);
    assert(enc_text(data, base, n).take(curr.len() as int) =~= curr);
}

} // verus!
