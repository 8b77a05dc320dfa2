//! Little-endian integers and byte-string helpers.

use vstd::prelude::*;

verus! {

/// The number that a little-endian byte string stands for.
pub open spec fn le_value(s: Seq<u8>) -> nat
    decreases s.len(),
{
    if s.len() == 0 {
        0
    } else {
        s[0] as nat + 256 * le_value(s.drop_first())
    }
}

/// The `width` low-order bytes of `n`, least significant first.
pub open spec fn le_bytes(n: nat, width: nat) -> Seq<u8>
    decreases width,
{
    if width == 0 {
        Seq::empty()
    } else {
        seq![(n % 256) as u8] + le_bytes(n / 256, (width - 1) as nat)
    }
}

/// The `len` bytes from `off` on.
pub open spec fn window(s: Seq<u8>, off: nat, len: nat) -> Seq<u8> {
    s.subrange(off as int, (off + len) as int)
}

/// 256 raised to `width`: how many numbers `width` bytes can tell apart.
pub open spec fn pow256(width: nat) -> nat
    decreases width,
{
    if width == 0 {
        1
    } else {
        256 * pow256((width - 1) as nat)
    }
}

/// The powers that the format uses.
pub proof fn lemma_pow256()
    ensures
        pow256(0) == 1,
        pow256(1) == 0x100,
        pow256(2) == 0x1_0000,
        pow256(4) == 0x1_0000_0000,
        pow256(8) == 0x1_0000_0000_0000_0000,
{
    reveal_with_fuel(pow256, 9);
}

/// A part of a window is a window.
pub proof fn lemma_window_sub(s: Seq<u8>, off: nat, len: nat, a: nat, b: nat)
    requires
        off + len <= s.len(),
        a + b <= len,
    ensures
        window(s, off + a, b) == window(s, off, len).subrange(a as int, (a + b) as int),
{
    assert(window(s, off + a, b) =~= window(s, off, len).subrange(a as int, (a + b) as int));
}

pub proof fn lemma_le_bytes_len(n: nat, width: nat)
    ensures
        le_bytes(n, width).len() == width,
    decreases width,
{
    if width > 0 {
        lemma_le_bytes_len(n / 256, (width - 1) as nat);
    }
}

pub proof fn lemma_le_value_bound(s: Seq<u8>)
    ensures
        le_value(s) < pow256(s.len()),
    decreases s.len(),
{
    if s.len() > 0 {
        lemma_le_value_bound(s.drop_first());
    }
}

/// Reading back what was written gives the number again.
pub proof fn lemma_le_value_of_bytes(n: nat, width: nat)
    ensures
        le_bytes(n, width).len() == width,
        n < pow256(width) ==> le_value(le_bytes(n, width)) == n,
    decreases width,
{
    if width > 0 {
        let rest: Seq<u8> = le_bytes(n / 256, (width - 1) as nat);
        lemma_le_value_of_bytes(n / 256, (width - 1) as nat);
        assert(le_bytes(n, width).drop_first() =~= rest);
        if n < pow256(width) {
            assert(n / 256 < pow256((width - 1) as nat)) by {
                assert(n < 256 * pow256((width - 1) as nat));
            }
        }
    }
}

/// Writing what was read gives the bytes again.
pub proof fn lemma_le_bytes_of_value(s: Seq<u8>)
    ensures
        le_bytes(le_value(s), s.len()) == s,
    decreases s.len(),
{
    if s.len() > 0 {
        lemma_le_bytes_of_value(s.drop_first());
        let v: nat = le_value(s);
        assert(v % 256 == s[0] as nat);
        assert(v / 256 == le_value(s.drop_first()));
        assert(le_bytes(v, s.len()) =~= s);
    } else {
        assert(le_bytes(le_value(s), s.len()) =~= s);
    }
}

/// Appends the `width` low-order bytes of `v`, least significant first.
pub fn push_le(buf: &mut Vec<u8>, v: u64, width: usize)
    ensures
        final(buf)@ == old(buf)@ + le_bytes(v as nat, width as nat),
{
    let mut rest: u64 = v;
    let mut i: usize = 0;
    assert(buf@ + le_bytes(v as nat, width as nat) =~= old(buf)@ + le_bytes(
        v as nat,
        width as nat,
    ));
    while i < width
        invariant
            i <= width,
            buf@ + le_bytes(rest as nat, (width - i) as nat) == old(buf)@ + le_bytes(
                v as nat,
                width as nat,
            ),
        decreases width - i,
    {
        let ghost before = buf@;
        let ghost tail = le_bytes((rest / 256) as nat, (width - i - 1) as nat);
        buf.push((rest % 256) as u8);
        assert(buf@ + tail =~= before + (seq![(rest % 256) as u8] + tail));
        rest = rest / 256;
        i += 1;
    }
    assert(buf@ =~= buf@ + le_bytes(rest as nat, 0));
}

/// The number held by the `width` bytes of `data` from `off` on.
pub fn read_le(data: &[u8], off: usize, width: usize) -> (v: u64)
    requires
        width <= 8,
        off + width <= data@.len(),
    ensures
        v == le_value(data@.subrange(off as int, off + width)),
        v < pow256(width as nat),
{
    let ghost whole = data@.subrange(off as int, off + width);
    let len: usize = data.len();
    let mut v: u64 = 0;
    let mut i: usize = width;
    proof {
        lemma_pow256();
        lemma_pow256_monotone(width as nat, 8);
        assert(whole.subrange(width as int, width as int).len() == 0);
    }
    while i > 0
        invariant
            i <= width <= 8,
            off + width <= len,
            len == data@.len(),
            whole == data@.subrange(off as int, off + width),
            v == le_value(whole.subrange(i as int, width as int)),
            pow256(8) == 0x1_0000_0000_0000_0000,
        decreases i,
    {
        i -= 1;
        let ghost tail = whole.subrange(i as int, width as int);
        proof {
            assert(tail.drop_first() =~= whole.subrange(i + 1, width as int));
            lemma_le_value_bound(tail);
            lemma_pow256_monotone(tail.len(), 8);
        }
        v = v * 256 + data[off + i] as u64;
    }
    proof {
        assert(whole.subrange(0, width as int) =~= whole);
        lemma_le_value_bound(whole);
    }
    v
}

pub proof fn lemma_pow256_monotone(a: nat, b: nat)
    requires
        a <= b,
    ensures
        pow256(a) <= pow256(b),
    decreases b,
{
    if a < b {
        lemma_pow256_monotone(a, (b - 1) as nat);
    }
}

/// Appends a byte slice.
pub fn push_bytes(buf: &mut Vec<u8>, src: &[u8])
    ensures
        final(buf)@ == old(buf)@ + src@,
{
    buf.extend_from_slice(src);
    assert(buf@ =~= old(buf)@ + src@);
}

/// Copies `src` over the whole array.
pub fn fill_array<const N: usize>(buf: &mut [u8; N], src: &[u8])
    requires
        src@.len() == N,
    ensures
        final(buf)@ == src@,
{
    let mut i: usize = 0;
    while i < N
        invariant
            i <= N,
            src@.len() == N,
            buf@.len() == N,
            forall|k: int| 0 <= k < i ==> buf@[k] == src@[k],
        decreases N - i,
    {
        buf[i] = src[i];
        i += 1;
    }
    assert(buf@ =~= src@);
}

/// Copies `src` into the array from `off` on.
pub fn put_array<const N: usize>(buf: &mut [u8; N], off: usize, src: &[u8])
    requires
        off + src@.len() <= N,
    ensures
        final(buf)@ == old(buf)@.subrange(0, off as int) + src@ + old(buf)@.subrange(
            off + src@.len(),
            N as int,
        ),
{
    let n: usize = src.len();
    let mut i: usize = 0;
    while i < n
        invariant
            i <= n,
            n == src@.len(),
            off + n <= N,
            buf@.len() == N,
            forall|k: int| 0 <= k < i ==> buf@[off + k] == src@[k],
            forall|k: int| 0 <= k < off || off + i <= k < N ==> buf@[k] == old(buf)@[k],
        decreases n - i,
    {
        buf[off + i] = src[i];
        i += 1;
    }
    assert(buf@ =~= old(buf)@.subrange(0, off as int) + src@ + old(buf)@.subrange(
        off + src@.len(),
        N as int,
    ));
}

} // verus!
