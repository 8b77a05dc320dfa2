//! CRC-32 (IEEE 802.3, reflected, as zlib computes it).

use vstd::prelude::*;

verus! {

/// One bit of polynomial division.
pub open spec fn crc_step(c: u32) -> u32 {
    if c & 1 != 0 {
        0xedb8_8320u32 ^ (c >> 1)
    } else {
        c >> 1
    }
}

/// `n` bits of polynomial division.
pub open spec fn crc_steps(c: u32, n: nat) -> u32
    decreases n,
{
    if n == 0 {
        c
    } else {
        crc_step(crc_steps(c, (n - 1) as nat))
    }
}

/// The register after the bytes of `s` have been shifted in.
pub open spec fn crc_register(s: Seq<u8>) -> u32
    decreases s.len(),
{
    if s.len() == 0 {
        0xffff_ffffu32
    } else {
        crc_steps(crc_register(s.drop_last()) ^ (s.last() as u32), 8)
    }
}

/// The checksum of a byte string.
pub open spec fn crc_of(s: Seq<u8>) -> u32 {
    !crc_register(s)
}

proof fn lemma_step_linear(a: u32, b: u32)
    ensures
        crc_step(a ^ b) == crc_step(a) ^ crc_step(b),
{
    assert(crc_step(a ^ b) == crc_step(a) ^ crc_step(b)) by (bit_vector);
}

proof fn lemma_steps_linear(a: u32, b: u32, n: nat)
    ensures
        crc_steps(a ^ b, n) == crc_steps(a, n) ^ crc_steps(b, n),
    decreases n,
{
    if n > 0 {
        lemma_steps_linear(a, b, (n - 1) as nat);
        lemma_step_linear(crc_steps(a, (n - 1) as nat), crc_steps(b, (n - 1) as nat));
    }
}

proof fn lemma_steps_shift(h: u32, n: nat)
    requires
        h & 0xff == 0,
        n <= 8,
    ensures
        crc_steps(h, n) == h >> (n as u32),
    decreases n,
{
    if n == 0 {
        assert(h >> 0u32 == h) by (bit_vector);
    } else {
        lemma_steps_shift(h, (n - 1) as nat);
        let k: u32 = (n - 1) as u32;
        let k1: u32 = n as u32;
        assert(crc_step(h >> k) == h >> k1) by (bit_vector)
            requires
                h & 0xff == 0,
                k < 8,
                k1 == k + 1,
        ;
    }
}

/// A table over one byte is enough to shift in eight bits.
proof fn lemma_table_step(x: u32)
    ensures
        crc_steps(x, 8) == crc_steps(x & 0xff, 8) ^ (x >> 8u32),
{
    let lo: u32 = x & 0xff;
    let hi: u32 = x & 0xffff_ff00;
    assert(x == lo ^ hi && hi & 0xff == 0 && hi >> 8u32 == x >> 8u32) by (bit_vector)
        requires
            lo == x & 0xff,
            hi == x & 0xffff_ff00,
    ;
    lemma_steps_linear(lo, hi, 8);
    lemma_steps_shift(hi, 8);
}

// ---------- damaged bytes ----------

proof fn lemma_steps_injective(a: u32, b: u32, n: nat)
    requires
        crc_steps(a, n) == crc_steps(b, n),
    ensures
        a == b,
    decreases n,
{
    if n > 0 {
        let x: u32 = crc_steps(a, (n - 1) as nat);
        let y: u32 = crc_steps(b, (n - 1) as nat);
        assert(x == y) by (bit_vector)
            requires
                crc_step(x) == crc_step(y),
        ;
        lemma_steps_injective(a, b, (n - 1) as nat);
    }
}

/// The checksum changes with every single byte.
pub proof fn law_changed_byte_noticed(s: Seq<u8>, j: int, x: u8)
    requires
        0 <= j < s.len(),
        x != s[j],
    ensures
        crc_of(s.update(j, x)) != crc_of(s),
    decreases s.len(),
{
    let t: Seq<u8> = s.update(j, x);
    let p: u32 = crc_register(s.drop_last());
    let q: u32 = crc_register(t.drop_last());
    let a: u32 = s.last() as u32;
    let b: u32 = t.last() as u32;
    if j == s.len() - 1 {
        assert(t.drop_last() =~= s.drop_last());
    } else {
        law_changed_byte_noticed(s.drop_last(), j, x);
        assert(t.drop_last() =~= s.drop_last().update(j, x));
        assert(p != q) by {
            if p == q {
                assert(crc_of(t.drop_last()) == crc_of(s.drop_last()));
            }
        }
    }
    if crc_of(t) == crc_of(s) {
        let u: u32 = crc_register(s);
        let v: u32 = crc_register(t);
        assert(u == v) by (bit_vector)
            requires
                !u == !v,
        ;
        lemma_steps_injective(p ^ a, q ^ b, 8);
        assert((p == q) == (a == b)) by (bit_vector)
            requires
                p ^ a == q ^ b,
        ;
    }
}

/// CRC-32 of `data`.
pub fn crc32(data: &[u8]) -> (r: u32)
    ensures
        r == crc_of(data@),
{
    let mut table: [u32; 256] = [0u32; 256];
    let mut i: usize = 0;
    while i < 256
        invariant
            i <= 256,
            forall|k: int| 0 <= k < i ==> #[trigger] table@[k] == crc_steps(k as u32, 8),
        decreases 256 - i,
    {
        let mut c: u32 = i as u32;
        let mut n: usize = 0;
        while n < 8
            invariant
                n <= 8,
                i < 256,
                c == crc_steps(i as u32, n as nat),
            decreases 8 - n,
        {
            c = if c & 1 != 0 {
                0xedb8_8320u32 ^ (c >> 1)
            } else {
                c >> 1
            };
            n += 1;
        }
        table[i] = c;
        i += 1;
    }
    let mut crc: u32 = 0xffff_ffff;
    let mut j: usize = 0;
    assert(data@.take(0) =~= Seq::<u8>::empty());
    while j < data.len()
        invariant
            j <= data@.len(),
            forall|k: int| 0 <= k < 256 ==> #[trigger] table@[k] == crc_steps(k as u32, 8),
            crc == crc_register(data@.take(j as int)),
        decreases data@.len() - j,
    {
        let b: u32 = data[j] as u32;
        let x: u32 = crc ^ b;
        let idx: u32 = x & 0xff;
        proof {
            assert(data@.take(j + 1).drop_last() =~= data@.take(j as int));
            assert(idx < 256 && x >> 8u32 == crc >> 8u32) by (bit_vector)
                requires
                    idx == x & 0xff,
                    x == crc ^ b,
                    b < 256,
            ;
            lemma_table_step(x);
            assert(table@[idx as int] == crc_steps(idx, 8));
        }
        crc = table[idx as usize] ^ (crc >> 8);
        j += 1;
    }
    assert(data@.take(j as int) =~= data@);
    !crc
}

} // verus!
