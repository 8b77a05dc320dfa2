//! How short the sections of a chunk are, and what stands in older chunks.

use crate::agent::chunk_legacy;
use crate::agent::chunk_legacy::StoredView;
use crate::agent::chunk_text;
use crate::agent::records;
use crate::agent::typed::ParamView;
use crate::agent::xor;
use crate::shared::bytes;
use crate::shared::chunk;
use crate::shared::layout_law;
use crate::shared::log::LogView;
use crate::shared::text;
use vstd::prelude::*;
use vstd::utf8::*;

verus! {

// ---------- times ----------

/// Where line `i` stands in time, if each comes `d` after the one before.
pub open spec fn steady_time(start: int, d: int, i: int) -> int {
    start + i * d
}

proof fn lemma_steps_len(logs: Seq<LogView>, n: nat)
    ensures
        n >= 1 ==> chunk_text::steps_bytes(logs, n).len() == 8 * (n - 1),
    decreases n,
{
    if n > 1 {
        lemma_steps_len(logs, (n - 1) as nat);
        bytes::lemma_le_bytes_len(chunk_text::step_of(logs, n - 1) as nat, 8);
    }
}

/// The times of a chunk take 21 bytes where each line comes as long after the
/// one before as the second after the first, and never more than 13 bytes and
/// eight for each line but the first.
pub proof fn law_times_short(logs: Seq<LogView>, d: u64)
    requires
        logs.len() >= 2,
    ensures
        (forall|i: int|
            0 <= i < logs.len() ==> (#[trigger] logs[i]).ts == steady_time(
                logs[0].ts as int,
                d as int,
                i,
            )) ==> chunk_text::times_bytes(logs).len() == 21,
        chunk_text::times_bytes(logs).len() <= 13 + 8 * (logs.len() - 1),
{
    let n: nat = logs.len();
    bytes::lemma_le_bytes_len(n, 4);
    bytes::lemma_le_bytes_len(chunk_text::first_ts(logs) as nat, 8);
    bytes::lemma_le_bytes_len(chunk_text::step_of(logs, 1) as nat, 8);
    lemma_steps_len(logs, n);
    if forall|i: int|
        0 <= i < logs.len() ==> (#[trigger] logs[i]).ts == steady_time(
            logs[0].ts as int,
            d as int,
            i,
        ) {
        assert forall|i: int| 1 <= i < logs.len() implies #[trigger] chunk_text::step_of(logs, i)
            == d by {
            assert(logs[i].ts == steady_time(logs[0].ts as int, d as int, i));
            assert(logs[i - 1].ts == steady_time(logs[0].ts as int, d as int, i - 1));
            assert(i * d == (i - 1) * d + d) by (nonlinear_arith);
            assert(logs[i].ts - logs[i - 1].ts == d);
        }
        assert(chunk_text::step_of(logs, 1) == d);
        assert(chunk_text::steady(logs));
    }
}

/// The levels of four lines take one byte.
pub proof fn law_levels_short(logs: Seq<LogView>)
    ensures
        logs.len() <= 4 * chunk_text::levels_bytes(logs).len() < logs.len() + 4,
{
}

/// The two bits of a level letter.
pub open spec fn letter_bits(level: Seq<char>) -> int {
    if level == "D"@ {
        0
    } else if level == "W"@ {
        2
    } else if level == "E"@ {
        3
    } else {
        1
    }
}

/// The level of line `i` stands in byte `i / 4`, from bit `2 * (i mod 4)` on: 0
/// for `D`, 2 for `W`, 3 for `E`, and 1 for `I` and all else.
pub proof fn law_level_bits(logs: Seq<LogView>, i: int)
    requires
        0 <= i < logs.len(),
    ensures
        ({
            let b: int = chunk_text::levels_bytes(logs)[i / 4] as int;
            let code: int = letter_bits(logs[i].level);
            &&& i % 4 == 0 ==> b % 4 == code
            &&& i % 4 == 1 ==> (b / 4) % 4 == code
            &&& i % 4 == 2 ==> (b / 16) % 4 == code
            &&& i % 4 == 3 ==> (b / 64) % 4 == code
        }),
{
    reveal_strlit("D");
    reveal_strlit("I");
    reveal_strlit("W");
    reveal_strlit("E");
    assert("D"@[0] == 'D' && "I"@[0] == 'I' && "W"@[0] == 'W' && "E"@[0] == 'E');
    let j: int = i / 4;
    assert(chunk_text::level_code(logs[i].level) == letter_bits(logs[i].level));
    lemma_code(logs, 4 * j);
    lemma_code(logs, 4 * j + 1);
    lemma_code(logs, 4 * j + 2);
    lemma_code(logs, 4 * j + 3);
    assert(chunk_text::levels_bytes(logs)[j] == chunk_text::level_byte(logs, j));
    lemma_four(
        chunk_text::code_at(logs, 4 * j),
        chunk_text::code_at(logs, 4 * j + 1),
        chunk_text::code_at(logs, 4 * j + 2),
        chunk_text::code_at(logs, 4 * j + 3),
    );
}

proof fn lemma_code(logs: Seq<LogView>, i: int)
    requires
        0 <= i,
    ensures
        chunk_text::code_at(logs, i) < 4,
{
    if i < logs.len() {
        let level: Seq<char> = logs[i].level;
        assert(chunk::level_bit(level) is None || chunk::level_bit(level)->0 < 4);
    }
}

proof fn lemma_four(a: nat, b: nat, c: nat, d: nat)
    requires
        a < 4,
        b < 4,
        c < 4,
        d < 4,
    ensures
        ({
            let n: nat = a + 4 * b + 16 * c + 64 * d;
            &&& 0 <= n < 256
            &&& n % 4 == a
            &&& (n / 4) % 4 == b
            &&& (n / 16) % 4 == c
            &&& (n / 64) % 4 == d
        }),
{
    let y: nat = c + 4 * d;
    let x: nat = b + 4 * y;
    let n: nat = a + 4 * x;
    lemma_digit(a, x);
    lemma_digit(b, y);
    lemma_digit(c, d);
    assert(n / 16 == (n / 4) / 4);
    assert(n / 64 == (n / 16) / 4);
}

proof fn lemma_digit(a: nat, x: nat)
    requires
        a < 4,
    ensures
        (a + 4 * x) % 4 == a,
        (a + 4 * x) / 4 == x,
{
}

/// The times of a chunk: whether the steps are all the same, the number of lines
/// in four bytes, the first time in eight, and the steps in eight bytes each,
/// one where they are the same.
pub proof fn law_times_layout(logs: Seq<LogView>)
    requires
        0 < logs.len() < 0x1_0000_0000,
    ensures
        ({
            let b: Seq<u8> = chunk_text::times_bytes(logs);
            &&& b.len() >= 13
            &&& b[0] == 0 || b[0] == 1
            &&& layout_law::u32_at(b, 1) == logs.len()
            &&& layout_law::u64_at(b, 5) == logs[0].ts
            &&& b[0] == 1 ==> logs.len() >= 2 && b.len() == 21 && layout_law::u64_at(b, 13)
                == logs[1].ts.wrapping_sub(logs[0].ts)
        }),
{
    let b: Seq<u8> = chunk_text::times_bytes(logs);
    let first: nat = logs[0].ts as nat;
    let step: nat = chunk_text::step_of(logs, 1) as nat;
    bytes::lemma_le_bytes_len(logs.len(), 4);
    bytes::lemma_le_bytes_len(first, 8);
    bytes::lemma_le_bytes_len(step, 8);
    assert(b.subrange(1, 5) =~= bytes::le_bytes(logs.len(), 4));
    assert(b.subrange(5, 13) =~= bytes::le_bytes(first, 8));
    layout_law::law_little_endian(b, 1, logs.len());
    layout_law::law_little_endian(b, 5, first);
    if chunk_text::steady(logs) {
        assert(b.subrange(13, 21) =~= bytes::le_bytes(step, 8));
        layout_law::law_little_endian(b, 13, step);
    }
}

// ---------- services ----------

/// The services of a chunk are written in three ways: one service once, up to
/// 255 services as a list with numbers of one byte, and more with numbers of two
/// bytes.
pub proof fn law_service_ways(logs: Seq<LogView>)
    ensures
        ({
            let n: nat = chunk_text::services_of(logs, logs.len()).len();
            let b: Seq<u8> = chunk_text::services_bytes(logs);
            &&& n == 1 ==> b[0] == 0
            &&& 2 <= n <= 255 ==> b[0] == 1
            &&& n > 255 ==> b[0] == 2
        }),
{
}

proof fn lemma_one_service(logs: Seq<LogView>, s: Seq<char>, n: nat)
    requires
        0 < n <= logs.len(),
        forall|i: int| 0 <= i < logs.len() ==> (#[trigger] logs[i]).service == s,
    ensures
        chunk_text::services_of(logs, n) == seq![s],
    decreases n,
{
    assert(logs[n - 1].service == s);
    if n == 1 {
        assert(chunk_text::services_of(logs, 0) =~= Seq::<Seq<char>>::empty());
        assert(chunk_text::services_of(logs, n) =~= seq![s]);
    } else {
        lemma_one_service(logs, s, (n - 1) as nat);
        assert(seq![s][0] == s);
        assert(seq![s].contains(s));
    }
}

/// Where all lines of a chunk have the same service, it is written once.
pub proof fn law_one_service_short(logs: Seq<LogView>, s: Seq<char>)
    requires
        logs.len() > 0,
        forall|i: int| 0 <= i < logs.len() ==> (#[trigger] logs[i]).service == s,
    ensures
        chunk_text::services_bytes(logs).len() == 3 + encode_utf8(s).len(),
{
    lemma_one_service(logs, s, logs.len());
    bytes::lemma_le_bytes_len(encode_utf8(s).len(), 2);
}

/// The services of a chunk are listed in the order in which they first come, and
/// each of them once.
pub proof fn law_services_listed(logs: Seq<LogView>, n: nat)
    requires
        n <= logs.len(),
    ensures
        chunk_text::services_of(logs, n).no_duplicates(),
        forall|i: int|
            0 <= i < n ==> chunk_text::services_of(logs, n).contains(
                (#[trigger] logs[i]).service,
            ),
        chunk_text::services_of(logs, n).len() <= n,
        n > 0 ==> chunk_text::services_of(logs, n)[0] == logs[0].service,
    decreases n,
{
    if n > 0 {
        law_services_listed(logs, (n - 1) as nat);
        let us: Seq<Seq<char>> = chunk_text::services_of(logs, (n - 1) as nat);
        let all: Seq<Seq<char>> = chunk_text::services_of(logs, n);
        let s: Seq<char> = logs[n - 1].service;
        assert forall|i: int| 0 <= i < n implies all.contains((#[trigger] logs[i]).service) by {
            if i < n - 1 {
                let k: int = choose|k: int| 0 <= k < us.len() && us[k] == logs[i].service;
                assert(all[k] == logs[i].service);
            } else if us.contains(s) {
            } else {
                assert(all[us.len() as int] == s);
            }
        }
        if n > 1 {
            assert(us.contains(logs[0].service));
            assert(all[0] == us[0]);
        }
    }
}

// ---------- differences ----------

proof fn lemma_same_words(s: Seq<u8>, n: nat)
    ensures
        xor::diff_words(s, s, n).len() == 0,
    decreases n,
{
    if n > 0 {
        lemma_same_words(s, (n - 1) as nat);
        let w: u64 = xor::word_at(s, 8 * (n - 1) as nat, s.len());
        assert(w ^ w == 0) by (bit_vector);
    }
}

proof fn lemma_bitmap_len(curr: Seq<u8>, base: Seq<u8>, n: nat)
    requires
        n <= xor::word_count(curr, base),
    ensures
        xor::diff_bitmap(curr, base, n).len() == (xor::word_count(curr, base) + 7) / 8,
    decreases n,
{
    if n > 0 {
        lemma_bitmap_len(curr, base, (n - 1) as nat);
    }
}

/// The difference of a text from itself takes four bytes and one bit for each
/// eight of its bytes.
pub proof fn law_no_difference_short(s: Seq<u8>)
    ensures
        ({
            let words: nat = (s.len() + 7) / 8;
            xor::xor_encoding(s, s).len() == 4 + (words + 7) / 8
        }),
{
    let n: nat = xor::word_count(s, s);
    lemma_same_words(s, n);
    lemma_bitmap_len(s, s, n);
    bytes::lemma_le_bytes_len(n, 2);
    bytes::lemma_le_bytes_len(s.len(), 2);
}

/// Among rows of the same shape, the rows at multiples of `reset` are reference
/// rows, and each row refers to the last of them.
pub proof fn law_reference_rows(ps: Seq<Seq<ParamView>>, reset: nat, i: nat)
    requires
        reset > 0,
        i < ps.len(),
        forall|a: int, b: int|
            0 <= a < ps.len() && 0 <= b < ps.len() ==> #[trigger] records::same_shape(ps[a], ps[b]),
    ensures
        records::ref_row(ps, reset, i) == i - i % reset,
    decreases i,
{
    if i == 0 {
        assert(0nat % reset == 0) by (nonlinear_arith)
            requires
                reset > 0,
        ;
    } else {
        let k: nat = (i - 1) as nat;
        law_reference_rows(ps, reset, k);
        if i % reset != 0 {
            assert(i % reset == k % reset + 1) by (nonlinear_arith)
                requires
                    reset > 0,
                    i == k + 1,
                    i % reset != 0,
            ;
            let r: nat = records::ref_row(ps, reset, k);
            assert(0 <= r < ps.len()) by {
                assert(k % reset <= k) by (nonlinear_arith)
                    requires
                        reset > 0,
                ;
            }
            assert(records::same_shape(ps[i as int], ps[r as int]));
        }
    }
}

// ---------- older chunks ----------

/// The bytes of a record of an older chunk: the time in eight bytes, the length
/// of the service in two, the service, the letter of the level, the numbers of
/// the template and of the reference row in two bytes each, the length of the
/// encoded parameters in four, and the parameters.
pub open spec fn stored_bytes(
    ts: u64,
    service: Seq<char>,
    letter: u8,
    pat_id: u16,
    ref_idx: u16,
    encoding: Seq<u8>,
) -> Seq<u8> {
    bytes::le_bytes(ts as nat, 8) + bytes::le_bytes(encode_utf8(service).len(), 2) + encode_utf8(
        service,
    ) + seq![letter] + bytes::le_bytes(pat_id as nat, 2) + bytes::le_bytes(ref_idx as nat, 2)
        + bytes::le_bytes(encoding.len(), 4) + encoding
}

/// A record of an older chunk is read field by field, wherever it stands; the
/// letters `D`, `W` and `E` are those levels, and all others are `I`.
pub proof fn law_stored_record_read(
    before: Seq<u8>,
    ts: u64,
    service: Seq<char>,
    letter: u8,
    pat_id: u16,
    ref_idx: u16,
    encoding: Seq<u8>,
    behind: Seq<u8>,
)
    requires
        encode_utf8(service).len() < 0x1_0000,
        encoding.len() < 0x1_0000_0000,
    ensures
        ({
            let record: Seq<u8> = stored_bytes(ts, service, letter, pat_id, ref_idx, encoding);
            let r: Option<StoredView> = chunk_legacy::stored_at(
                before + record + behind,
                before.len(),
            );
            &&& r is Some
            &&& r->0.ts == ts
            &&& r->0.service == service
            &&& letter == 0x44 ==> r->0.level == "D"@
            &&& letter == 0x57 ==> r->0.level == "W"@
            &&& letter == 0x45 ==> r->0.level == "E"@
            &&& letter != 0x44 && letter != 0x57 && letter != 0x45 ==> r->0.level == "I"@
            &&& r->0.pat_id == pat_id
            &&& r->0.ref_idx == ref_idx
            &&& r->0.encoding == encoding
            &&& r->0.end == before.len() + record.len()
        }),
{
    let s: Seq<u8> = encode_utf8(service);
    let record: Seq<u8> = stored_bytes(ts, service, letter, pat_id, ref_idx, encoding);
    let data: Seq<u8> = before + record + behind;
    let o: nat = before.len();
    let h: nat = o + 10 + s.len();
    bytes::lemma_pow256();
    bytes::lemma_le_value_of_bytes(ts as nat, 8);
    bytes::lemma_le_value_of_bytes(s.len(), 2);
    bytes::lemma_le_value_of_bytes(pat_id as nat, 2);
    bytes::lemma_le_value_of_bytes(ref_idx as nat, 2);
    bytes::lemma_le_value_of_bytes(encoding.len(), 4);
    assert(bytes::window(data, o, 8) =~= bytes::le_bytes(ts as nat, 8));
    assert(bytes::window(data, o + 8, 2) =~= bytes::le_bytes(s.len(), 2));
    assert(bytes::window(data, o + 10, s.len()) =~= s);
    assert(data[h as int] == letter);
    assert(bytes::window(data, h + 1, 2) =~= bytes::le_bytes(pat_id as nat, 2));
    assert(bytes::window(data, h + 3, 2) =~= bytes::le_bytes(ref_idx as nat, 2));
    assert(bytes::window(data, h + 5, 4) =~= bytes::le_bytes(encoding.len(), 4));
    assert(bytes::window(data, h + 9, encoding.len()) =~= encoding);
    text::lemma_utf8_roundtrip(service);
}

} // verus!
