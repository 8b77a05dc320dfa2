//! Bloom filters over whole texts.

use crate::shared::names;
use vstd::prelude::*;
use vstd::string::*;

verus! {

/// Bit `k` of a byte.
pub open spec fn byte_bit(b: u8, k: nat) -> bool {
    (b >> (k as u8)) & 1 != 0
}

/// Bit `pos` of a filter.
pub open spec fn filter_bit(f: Seq<u8>, pos: nat) -> bool {
    byte_bit(f[(pos / 8) as int], pos % 8)
}

/// The finaliser that spreads a hash over 64 bits.
pub open spec fn mix64(h: u64) -> u64 {
    let a: u64 = (h ^ (h >> 33u64)).wrapping_mul(0xff51_afd7_ed55_8ccd);
    let b: u64 = (a ^ (a >> 33u64)).wrapping_mul(0xc4ce_b9fe_1a85_ec53);
    b ^ (b >> 33u64)
}

/// The position of a byte string in a filter of 512 bits, one for each seed.
pub open spec fn bloom_position(s: Seq<u8>, seed: u64) -> nat {
    (mix64(names::fnv1a(s).wrapping_add(seed)) % 512) as nat
}

/// The position of a byte string in a filter of 512 bits.
pub fn position(s: &[u8], seed: u64) -> (r: usize)
    ensures
        r == bloom_position(s@, seed),
        r < 512,
{
    let h: u64 = names::fnv1a_hash(s).wrapping_add(seed);
    let a: u64 = (h ^ (h >> 33u64)).wrapping_mul(0xff51_afd7_ed55_8ccd);
    let b: u64 = (a ^ (a >> 33u64)).wrapping_mul(0xc4ce_b9fe_1a85_ec53);
    let c: u64 = b ^ (b >> 33u64);
    (c % 512) as usize
}

proof fn lemma_or_bit(b: u8, k: u8, j: u8)
    requires
        k < 8,
        j < 8,
    ensures
        byte_bit(b | (1u8 << k), k as nat),
        j != k ==> byte_bit(b | (1u8 << k), j as nat) == byte_bit(b, j as nat),
{
    assert(((b | (1u8 << k)) >> k) & 1 != 0) by (bit_vector)
        requires
            k < 8,
    ;
    assert(j != k ==> ((b >> j) & 1 != 0) == (((b | (1u8 << k)) >> j) & 1 != 0)) by (bit_vector)
        requires
            k < 8,
            j < 8,
    ;
}

pub proof fn lemma_or_keeps(a: u8, b: u8, j: u8)
    requires
        j < 8,
    ensures
        byte_bit(a, j as nat) ==> byte_bit(a | b, j as nat),
        byte_bit(b, j as nat) ==> byte_bit(a | b, j as nat),
        byte_bit(a | b, j as nat) ==> byte_bit(a, j as nat) || byte_bit(b, j as nat),
{
    assert((a >> j) & 1 != 0 ==> ((a | b) >> j) & 1 != 0) by (bit_vector)
        requires
            j < 8,
    ;
    assert((b >> j) & 1 != 0 ==> ((a | b) >> j) & 1 != 0) by (bit_vector)
        requires
            j < 8,
    ;
    assert(((a | b) >> j) & 1 != 0 ==> (a >> j) & 1 != 0 || (b >> j) & 1 != 0) by (bit_vector)
        requires
            j < 8,
    ;
}

/// Whether bit `pos` is set.
pub fn has_bit(f: &[u8], pos: usize) -> (r: bool)
    requires
        pos / 8 < f@.len(),
    ensures
        r == filter_bit(f@, pos as nat),
{
    (f[pos / 8] >> ((pos % 8) as u8)) & 1 != 0
}

/// Sets bit `pos`; every other bit stays as it is.
pub fn set_bit<const N: usize>(f: &mut [u8; N], pos: usize)
    requires
        pos / 8 < N,
    ensures
        final(f)@.len() == old(f)@.len(),
        final(f)@ == old(f)@.update(
            (pos / 8) as int,
            old(f)@[(pos / 8) as int] | (1u8 << ((pos % 8) as u8)),
        ),
        forall|p: nat|
            p < 8 * N ==> #[trigger] filter_bit(final(f)@, p) == (p == pos || filter_bit(
                old(f)@,
                p,
            )),
{
    let k: u8 = (pos % 8) as u8;
    f[pos / 8] = f[pos / 8] | (1u8 << k);
    proof {
        assert forall|p: nat| p < 8 * N implies #[trigger] filter_bit(f@, p) == (p == pos
            || filter_bit(old(f)@, p)) by {
            lemma_or_bit(old(f)@[(pos / 8) as int], k, (p % 8) as u8);
        }
    }
}

/// All positions of `s` for the seeds below `n` are set.
pub open spec fn marked(f: Seq<u8>, s: Seq<u8>, n: nat) -> bool {
    forall|seed: u64| seed < n ==> filter_bit(f, #[trigger] bloom_position(s, seed))
}

} // verus!
