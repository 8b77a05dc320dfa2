//! Byte strings that hold text lines.

use crate::shared::bytes;
use vstd::prelude::*;
use vstd::utf8::*;

verus! {

/// The position of the first line feed; the length where there is none.
pub open spec fn newline_at(b: Seq<u8>) -> nat
    decreases b.len(),
{
    if b.len() == 0 || b[0] == 0x0a {
        0
    } else {
        1 + newline_at(b.drop_first())
    }
}

/// A line without the carriage return in front of its line feed.
pub open spec fn without_cr(b: Seq<u8>) -> Seq<u8> {
    if b.len() > 0 && b.last() == 0x0d {
        b.drop_last()
    } else {
        b
    }
}

/// The lines: what stands before each line feed, or carriage return and line
/// feed, and what stands behind the last one unless that is nothing.
pub open spec fn byte_lines(b: Seq<u8>) -> Seq<Seq<u8>>
    decreases b.len(),
{
    if b.len() == 0 {
        Seq::empty()
    } else {
        let k: nat = newline_at(b);
        if k >= b.len() {
            seq![b]
        } else {
            seq![without_cr(b.take(k as int))] + byte_lines(b.skip(k as int + 1))
        }
    }
}

/// No byte is a control character.
pub open spec fn printable(b: Seq<u8>) -> bool {
    forall|i: int| 0 <= i < b.len() ==> #[trigger] b[i] >= 0x20
}

pub proof fn lemma_newline_at(b: Seq<u8>, k: nat)
    requires
        k <= b.len(),
        forall|i: int| 0 <= i < k ==> #[trigger] b[i] != 0x0a,
        k < b.len() ==> b[k as int] == 0x0a,
    ensures
        newline_at(b) == k,
    decreases b.len(),
{
    if k > 0 {
        assert(b[0] != 0x0a);
        let t: Seq<u8> = b.drop_first();
        assert forall|i: int| 0 <= i < k - 1 implies #[trigger] t[i] != 0x0a by {
            assert(b[i + 1] != 0x0a);
        }
        lemma_newline_at(t, (k - 1) as nat);
    }
}

/// A line that holds no control character is the first of the lines of a text
/// that starts with it and a line feed.
pub proof fn lemma_first_line(line: Seq<u8>, rest: Seq<u8>)
    requires
        printable(line),
    ensures
        byte_lines(line + seq![0x0au8] + rest) == seq![line] + byte_lines(rest),
{
    let b: Seq<u8> = line + seq![0x0au8] + rest;
    assert forall|i: int| 0 <= i < line.len() implies #[trigger] b[i] != 0x0a by {
        assert(line[i] >= 0x20);
    }
    lemma_newline_at(b, line.len());
    assert(b.take(line.len() as int) =~= line);
    assert(b.skip(line.len() as int + 1) =~= rest);
    if line.len() > 0 {
        assert(line[line.len() - 1] >= 0x20);
    }
}

/// The encoding of a text is that of its front followed by that of its rest.
pub proof fn lemma_utf8_concat(a: Seq<char>, b: Seq<char>)
    ensures
        encode_utf8(a + b) == encode_utf8(a) + encode_utf8(b),
    decreases a.len(),
{
    if a.len() == 0 {
        assert(a + b =~= b);
        assert(encode_utf8(a) + encode_utf8(b) =~= encode_utf8(b));
    } else {
        lemma_utf8_concat(a.drop_first(), b);
        assert((a + b).drop_first() =~= a.drop_first() + b);
        assert((a + b)[0] == a[0]);
        assert(encode_utf8(a) == encode_scalar(a[0] as u32) + encode_utf8(a.drop_first()));
        assert(encode_utf8(a + b) =~= encode_utf8(a) + encode_utf8(b));
    }
}

proof fn lemma_scalar_printable(c: u32)
    requires
        is_scalar(c),
        c >= 0x20,
    ensures
        printable(encode_scalar(c)),
{
    let b: Seq<u8> = encode_scalar(c);
    if c < 0x80 {
        assert((c & 0x7f) as u8 >= 0x20) by (bit_vector)
            requires
                0x20 <= c < 0x80,
        ;
    } else {
        assert(0xC0u8 | ((c >> 6) & 0x1F) as u8 >= 0x20) by (bit_vector);
        assert(0xE0u8 | ((c >> 12) & 0x0F) as u8 >= 0x20) by (bit_vector);
        assert(0xF0u8 | ((c >> 18) & 0x7) as u8 >= 0x20) by (bit_vector);
        assert(0x80u8 | (c & 0x3F) as u8 >= 0x20) by (bit_vector);
        assert(0x80u8 | ((c >> 6) & 0x3F) as u8 >= 0x20) by (bit_vector);
        assert(0x80u8 | ((c >> 12) & 0x3F) as u8 >= 0x20) by (bit_vector);
    }
}

/// A text without control characters is encoded without them.
pub proof fn lemma_utf8_printable(s: Seq<char>)
    requires
        forall|i: int| 0 <= i < s.len() ==> (#[trigger] s[i]) as u32 >= 0x20,
    ensures
        printable(encode_utf8(s)),
    decreases s.len(),
{
    if s.len() > 0 {
        let t: Seq<char> = s.drop_first();
        assert forall|i: int| 0 <= i < t.len() implies (#[trigger] t[i]) as u32 >= 0x20 by {
            assert(s[i + 1] as u32 >= 0x20);
        }
        lemma_utf8_printable(t);
        char_is_scalar(s[0]);
        assert(s[0] as u32 >= 0x20);
        lemma_scalar_printable(s[0] as u32);
    }
}

/// Neither a zero byte nor a line feed.
pub open spec fn unbroken(b: Seq<u8>) -> bool {
    forall|i: int| 0 <= i < b.len() ==> #[trigger] b[i] != 0 && b[i] != 0x0a
}

/// Neither a zero character nor a line feed.
pub open spec fn unbroken_text(s: Seq<char>) -> bool {
    forall|i: int| 0 <= i < s.len() ==> (#[trigger] s[i]) as u32 != 0 && s[i] as u32 != 0x0a
}

proof fn lemma_scalar_unbroken(c: u32)
    requires
        is_scalar(c),
        c != 0,
        c != 0x0a,
    ensures
        unbroken(encode_scalar(c)),
{
    if c < 0x20 {
        assert((c & 0x7f) as u8 == c as u8) by (bit_vector)
            requires
                c < 0x20,
        ;
    } else {
        lemma_scalar_printable(c);
        assert forall|i: int| 0 <= i < encode_scalar(c).len() implies #[trigger] encode_scalar(c)[i]
            != 0 && encode_scalar(c)[i] != 0x0a by {
            assert(encode_scalar(c)[i] >= 0x20);
        }
    }
}

/// A text without zero characters and line feeds is encoded without them.
pub proof fn lemma_utf8_unbroken(s: Seq<char>)
    requires
        unbroken_text(s),
    ensures
        unbroken(encode_utf8(s)),
    decreases s.len(),
{
    if s.len() > 0 {
        let t: Seq<char> = s.drop_first();
        assert forall|i: int| 0 <= i < t.len() implies (#[trigger] t[i]) as u32 != 0 && t[i] as u32
            != 0x0a by {
            assert(s[i + 1] as u32 != 0);
        }
        lemma_utf8_unbroken(t);
        char_is_scalar(s[0]);
        assert(s[0] as u32 != 0);
        lemma_scalar_unbroken(s[0] as u32);
    }
}

/// What a list of byte strings holds.
pub open spec fn byte_lists(v: Seq<Vec<u8>>) -> Seq<Seq<u8>> {
    Seq::new(v.len(), |i: int| v[i]@)
}

/// The lines of a byte string.
pub fn split_lines(data: &[u8]) -> (r: Vec<Vec<u8>>)
    ensures
        byte_lists(r@) == byte_lines(data@),
{
    let n: usize = data.len();
    let ghost d = data@;
    let mut out: Vec<Vec<u8>> = Vec::new();
    let mut start: usize = 0;
    let mut i: usize = 0;
    proof {
        assert(byte_lists(out@) =~= Seq::<Seq<u8>>::empty());
        assert(d.skip(0) =~= d);
        assert(byte_lists(out@) + byte_lines(d) =~= byte_lines(d));
    }
    while i < n
        invariant
            start <= i <= n,
            n == data@.len(),
            d == data@,
            forall|k: int| start <= k < i ==> #[trigger] d[k] != 0x0a,
            byte_lists(out@) + byte_lines(d.skip(start as int)) == byte_lines(d),
        decreases n - i,
    {
        if data[i] == 0x0a {
            let ghost b = d.skip(start as int);
            let ghost k = (i - start) as nat;
            proof {
                assert forall|j: int| 0 <= j < k implies #[trigger] b[j] != 0x0a by {
                    assert(d[start + j] != 0x0a);
                }
                lemma_newline_at(b, k);
            }
            let end: usize = if i > start && data[i - 1] == 0x0d {
                i - 1
            } else {
                i
            };
            let mut line: Vec<u8> = Vec::new();
            bytes::push_bytes(&mut line, vstd::slice::slice_subrange(data, start, end));
            let ghost lv = line@;
            let ghost before = byte_lists(out@);
            out.push(line);
            proof {
                assert(lv =~= without_cr(b.take(k as int)));
                assert(b.skip(k as int + 1) =~= d.skip(i as int + 1));
                assert(byte_lists(out@) =~= before.push(lv));
                assert(byte_lists(out@) + byte_lines(d.skip(i as int + 1)) =~= before + (seq![lv]
                    + byte_lines(d.skip(i as int + 1))));
            }
            start = i + 1;
        }
        i += 1;
    }
    let ghost b = d.skip(start as int);
    if start < n {
        proof {
            assert forall|j: int| 0 <= j < b.len() implies #[trigger] b[j] != 0x0a by {
                assert(d[start + j] != 0x0a);
            }
            lemma_newline_at(b, b.len());
        }
        let mut line: Vec<u8> = Vec::new();
        bytes::push_bytes(&mut line, vstd::slice::slice_subrange(data, start, n));
        let ghost lv = line@;
        let ghost before = byte_lists(out@);
        out.push(line);
        proof {
            assert(lv =~= b);
            assert(byte_lists(out@) =~= before.push(lv));
            assert(before + seq![lv] =~= byte_lists(out@));
        }
    } else {
        assert(byte_lists(out@) + Seq::<Seq<u8>>::empty() =~= byte_lists(out@));
    }
    out
}

/// Lines end at a line feed, or at a carriage return and a line feed; the last
/// one may end without. What ends a line belongs to no line.
pub proof fn law_lines(line: Seq<u8>, rest: Seq<u8>)
    requires
        forall|i: int| 0 <= i < line.len() ==> #[trigger] line[i] != 0x0a,
        line.len() > 0 ==> line.last() != 0x0d,
    ensures
        byte_lines(line + seq![0x0au8] + rest) == seq![line] + byte_lines(rest),
        byte_lines(line + seq![0x0du8, 0x0au8] + rest) == seq![line] + byte_lines(rest),
        line.len() > 0 ==> byte_lines(line) == seq![line],
        byte_lines(Seq::empty()) == Seq::<Seq<u8>>::empty(),
{
    let a: Seq<u8> = line + seq![0x0au8] + rest;
    lemma_newline_at(a, line.len());
    assert(a.take(line.len() as int) =~= line);
    assert(a.skip(line.len() as int + 1) =~= rest);
    let b: Seq<u8> = line + seq![0x0du8, 0x0au8] + rest;
    let n: nat = line.len() + 1;
    assert forall|i: int| 0 <= i < n implies #[trigger] b[i] != 0x0a by {
        if i < line.len() {
            assert(b[i] == line[i]);
        }
    }
    assert(b[n as int] == 0x0a);
    lemma_newline_at(b, n);
    assert(b.take(n as int) =~= line.push(0x0du8));
    assert(line.push(0x0du8).drop_last() =~= line);
    assert(b.skip(n as int + 1) =~= rest);
    if line.len() > 0 {
        lemma_newline_at(line, line.len());
    }
}

} // verus!
