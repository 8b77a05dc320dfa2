//! Reading the lines of a chunk.

use crate::agent::chunk_text;
use crate::agent::parts;
use crate::agent::parts::{PartView, Template};
use crate::shared::bytes;
use crate::shared::error::DataError;
use crate::shared::log;
use crate::shared::log::{LogLine, LogView};
use crate::shared::text;
use vstd::prelude::*;
use vstd::string::*;

verus! {

/// The number in the `width` bytes at `off`.
pub open spec fn field(data: Seq<u8>, off: nat, width: nat) -> nat {
    bytes::le_value(bytes::window(data, off, width))
}

// ---------- times ----------

/// The number of lines that a chunk states.
pub open spec fn line_count(data: Seq<u8>) -> nat {
    field(data, 1, 4)
}

/// Where the time section ends; nothing if the chunk ends before.
pub open spec fn times_end(data: Seq<u8>) -> Option<nat> {
    let end: int = if data.len() < 13 {
        13
    } else if data[0] == 1 {
        21
    } else if line_count(data) <= 1 {
        13
    } else {
        13 + 8 * (line_count(data) - 1)
    };
    if end <= data.len() {
        Some(end as nat)
    } else {
        None
    }
}

/// The step to line `i` from the line before.
pub open spec fn read_step(data: Seq<u8>, i: nat) -> u64 {
    if data[0] == 1 {
        field(data, 13, 8) as u64
    } else {
        field(data, (13 + 8 * (i - 1)) as nat, 8) as u64
    }
}

/// The time of line `i`.
pub open spec fn time_at(data: Seq<u8>, i: nat) -> u64
    decreases i,
{
    if i == 0 {
        field(data, 5, 8) as u64
    } else {
        time_at(data, (i - 1) as nat).wrapping_add(read_step(data, i))
    }
}

// ---------- levels ----------

/// What to divide a level byte by to bring the bits of a line to the low end.
pub open spec fn level_shift(i: nat) -> u8 {
    if i % 4 == 0 {
        1
    } else if i % 4 == 1 {
        4
    } else if i % 4 == 2 {
        16
    } else {
        64
    }
}

/// The level of line `i` in the level section at `off`.
pub open spec fn level_at(data: Seq<u8>, off: nat, i: nat) -> Seq<char> {
    chunk_text::level_text(((data[(off + i / 4) as int] / level_shift(i)) % 4) as u8)
}

// ---------- texts ----------

/// Reads the text at `off`: the text and the offset behind it.
pub open spec fn read_text16(data: Seq<u8>, off: nat) -> Option<(Seq<char>, nat)> {
    if off + 2 > data.len() {
        None
    } else {
        let len: nat = field(data, off, 2);
        if off + 2 + len > data.len() {
            None
        } else {
            Some((text::lossy_text(bytes::window(data, off + 2, len)), off + 2 + len))
        }
    }
}

/// Reads `n` texts from `off` on.
pub open spec fn read_texts16(data: Seq<u8>, off: nat, n: nat) -> Option<(Seq<Seq<char>>, nat)>
    decreases n,
{
    if n == 0 {
        Some((Seq::empty(), off))
    } else {
        match read_texts16(data, off, (n - 1) as nat) {
            None => None,
            Some((ss, o)) => match read_text16(data, o) {
                None => None,
                Some((s, p)) => Some((ss.push(s), p)),
            },
        }
    }
}

// ---------- services ----------

/// The service section: the names, and where the numbers of the lines stand.
#[verifier::ext_equal]
pub struct ServicesView {
    pub names: Seq<Seq<char>>,
    pub at: nat,
    pub width: nat,
}

/// Reads the service section at `off` of a chunk of `count` lines.
pub open spec fn read_services(data: Seq<u8>, off: nat, count: nat) -> Result<
    (ServicesView, nat),
    DataError,
> {
    if off >= data.len() {
        Err(DataError::ChunkTruncated)
    } else if data[off as int] == 0 {
        match read_text16(data, off + 1) {
            None => Err(DataError::ChunkTruncated),
            Some((s, o)) => Ok((ServicesView { names: seq![s], at: o, width: 0 }, o)),
        }
    } else if data[off as int] == 1 || data[off as int] == 2 {
        let width: nat = data[off as int] as nat;
        if off + 3 > data.len() {
            Err(DataError::ChunkTruncated)
        } else {
            match read_texts16(data, off + 3, field(data, off + 1, 2)) {
                None => Err(DataError::ChunkTruncated),
                Some((names, o)) => if o + width * count > data.len() {
                    Err(DataError::ChunkTruncated)
                } else {
                    Ok((ServicesView { names, at: o, width }, o + width * count))
                },
            }
        }
    } else {
        Err(DataError::UnknownServiceMode)
    }
}

/// The number of the service of line `i`.
pub open spec fn service_number(data: Seq<u8>, sv: ServicesView, i: nat) -> nat {
    if sv.names.len() == 1 {
        0
    } else {
        field(data, sv.at + sv.width * i, sv.width)
    }
}

// ---------- records ----------

/// Reads the record at `off`: template number, parameters, offset behind it.
pub open spec fn read_record(data: Seq<u8>, off: nat) -> Option<(nat, Seq<Seq<char>>, nat)> {
    if off + 4 > data.len() {
        None
    } else {
        match read_texts16(data, off + 4, field(data, off + 2, 2)) {
            None => None,
            Some((params, o)) => Some((field(data, off, 2), params, o)),
        }
    }
}

/// Reads the first `n` lines; `levels` and `off` are where the level and the
/// record section stand.
pub open spec fn read_lines(
    data: Seq<u8>,
    templates: Seq<Seq<PartView>>,
    levels: nat,
    sv: ServicesView,
    off: nat,
    n: nat,
) -> Result<(Seq<LogView>, nat), DataError>
    decreases n,
{
    if n == 0 {
        Ok((Seq::empty(), off))
    } else {
        let i: nat = (n - 1) as nat;
        match read_lines(data, templates, levels, sv, off, i) {
            Err(e) => Err(e),
            Ok((logs, o)) => match read_record(data, o) {
                None => Err(DataError::ChunkTruncated),
                Some((pat_id, params, p)) => if service_number(data, sv, i) >= sv.names.len() {
                    Err(DataError::ServiceIndexOutOfRange)
                } else {
                    Ok(
                        (
                            logs.push(
                                LogView {
                                    ts: time_at(data, i),
                                    service: sv.names[service_number(data, sv, i) as int],
                                    level: level_at(data, levels, i),
                                    message: parts::record_text(
                                        templates,
                                        pat_id,
                                        params,
                                        Seq::empty(),
                                    ),
                                },
                            ),
                            p,
                        ),
                    )
                },
            },
        }
    }
}

/// The lines of a chunk.
pub open spec fn chunk_logs(data: Seq<u8>, templates: Seq<Seq<PartView>>) -> Result<
    Seq<LogView>,
    DataError,
> {
    let n: nat = line_count(data);
    match times_end(data) {
        None => Err(DataError::ChunkTruncated),
        Some(levels) => {
            let services: nat = (levels + (n + 3) / 4) as nat;
            if services > data.len() {
                Err(DataError::ChunkTruncated)
            } else {
                match read_services(data, services, n) {
                    Err(e) => Err(e),
                    Ok((sv, off)) => if off + 4 > data.len() {
                        Err(DataError::ChunkTruncated)
                    } else if field(data, off, 4) != n {
                        Err(DataError::RecordCountMismatch)
                    } else {
                        match read_lines(data, templates, levels, sv, off + 4, n) {
                            Err(e) => Err(e),
                            Ok((logs, _o)) => Ok(logs),
                        }
                    },
                }
            }
        },
    }
}

// ---------- reading ----------

proof fn lemma_texts16_none(data: Seq<u8>, off: nat, k: nat, n: nat)
    requires
        k <= n,
        read_texts16(data, off, k) is None,
    ensures
        read_texts16(data, off, n) is None,
    decreases n,
{
    if k < n {
        lemma_texts16_none(data, off, k, (n - 1) as nat);
    }
}

pub proof fn lemma_lines_error(
    data: Seq<u8>,
    templates: Seq<Seq<PartView>>,
    levels: nat,
    sv: ServicesView,
    off: nat,
    k: nat,
    n: nat,
)
    requires
        k <= n,
        read_lines(data, templates, levels, sv, off, k) is Err,
    ensures
        read_lines(data, templates, levels, sv, off, n) == read_lines(
            data,
            templates,
            levels,
            sv,
            off,
            k,
        ),
    decreases n,
{
    if k < n {
        lemma_lines_error(data, templates, levels, sv, off, k, (n - 1) as nat);
    }
}

/// The number in the two bytes at `off`.
pub fn take_u16(data: &[u8], off: usize) -> (r: usize)
    requires
        off + 2 <= data@.len(),
    ensures
        r == field(data@, off as nat, 2),
        r <= 0xffff,
{
    proof {
        bytes::lemma_pow256();
    }
    bytes::read_le(data, off, 2) as usize
}

/// The text at `off` and the offset behind it.
pub fn take_text16(data: &[u8], off: usize) -> (r: Option<(String, usize)>)
    requires
        off <= data@.len(),
    ensures
        match r {
            Some((s, o)) => read_text16(data@, off as nat) == Some((s@, o as nat)) && o
                <= data@.len(),
            None => read_text16(data@, off as nat) is None,
        },
{
    let total: usize = data.len();
    if total - off < 2 {
        return None;
    }
    let len: usize = take_u16(data, off);
    if total - off - 2 < len {
        return None;
    }
    let s: String = text::lossy_string(vstd::slice::slice_subrange(data, off + 2, off + 2 + len));
    Some((s, off + 2 + len))
}

fn take_texts16(data: &[u8], off: usize, n: usize) -> (r: Option<(Vec<String>, usize)>)
    requires
        off <= data@.len(),
    ensures
        match r {
            Some((ss, o)) => read_texts16(data@, off as nat, n as nat) == Some(
                (text::texts(ss@), o as nat),
            ) && o <= data@.len(),
            None => read_texts16(data@, off as nat, n as nat) is None,
        },
{
    let mut out: Vec<String> = Vec::new();
    let mut at: usize = off;
    let mut i: usize = 0;
    assert(text::texts(out@) =~= Seq::<Seq<char>>::empty());
    while i < n
        invariant
            i <= n,
            off <= data@.len(),
            at <= data@.len(),
            read_texts16(data@, off as nat, i as nat) == Some((text::texts(out@), at as nat)),
        decreases n - i,
    {
        match take_text16(data, at) {
            None => {
                proof {
                    lemma_texts16_none(data@, off as nat, (i + 1) as nat, n as nat);
                }
                return None;
            },
            Some((s, o)) => {
                let ghost before = text::texts(out@);
                let ghost sv = s@;
                out.push(s);
                assert(text::texts(out@) =~= before.push(sv));
                at = o;
            },
        }
        i += 1;
    }
    Some((out, at))
}

/// The service section of a chunk.
struct Services {
    names: Vec<String>,
    at: usize,
    width: usize,
}

impl View for Services {
    type V = ServicesView;

    closed spec fn view(&self) -> ServicesView {
        ServicesView {
            names: text::texts(self.names@),
            at: self.at as nat,
            width: self.width as nat,
        }
    }
}

fn take_services(data: &[u8], off: usize, count: u64) -> (r: Result<(Services, usize), DataError>)
    requires
        off <= data@.len(),
        count < 0x1_0000_0000,
    ensures
        match r {
            Ok((sv, o)) => read_services(data@, off as nat, count as nat) == Ok::<
                (ServicesView, nat),
                DataError,
            >((sv@, o as nat)) && o <= data@.len() && sv.width <= 2 && (sv.names@.len() != 1
                ==> sv.at + sv.width * count <= data@.len()),
            Err(e) => read_services(data@, off as nat, count as nat) == Err::<
                (ServicesView, nat),
                DataError,
            >(e),
        },
{
    let total: usize = data.len();
    if off >= total {
        return Err(DataError::ChunkTruncated);
    }
    let mode: u8 = data[off];
    if mode == 0 {
        match take_text16(data, off + 1) {
            None => Err(DataError::ChunkTruncated),
            Some((s, o)) => {
                let ghost name = s@;
                let mut names: Vec<String> = Vec::new();
                names.push(s);
                assert(text::texts(names@) =~= seq![name]);
                Ok((Services { names, at: o, width: 0 }, o))
            },
        }
    } else if mode == 1 || mode == 2 {
        if total - off < 3 {
            return Err(DataError::ChunkTruncated);
        }
        let n: usize = take_u16(data, off + 1);
        match take_texts16(data, off + 3, n) {
            None => Err(DataError::ChunkTruncated),
            Some((names, o)) => {
                let need: u64 = if mode == 1 {
                    count
                } else {
                    2 * count
                };
                assert(need == mode as nat * count as nat) by {
                    assert(mode == 1 ==> mode as nat * count as nat == count);
                }
                if ((total - o) as u64) < need {
                    return Err(DataError::ChunkTruncated);
                }
                Ok((Services { names, at: o, width: mode as usize }, o + need as usize))
            },
        }
    } else {
        Err(DataError::UnknownServiceMode)
    }
}

/// The text of two level bits.
pub fn level_string(code: u8) -> (r: String)
    ensures
        r@ == chunk_text::level_text(code),
{
    if code == 0 {
        "D".to_string()
    } else if code == 2 {
        "W".to_string()
    } else if code == 3 {
        "E".to_string()
    } else {
        "I".to_string()
    }
}

fn take_level(data: &[u8], off: usize, i: usize) -> (r: String)
    requires
        off + i / 4 < data@.len(),
    ensures
        r@ == level_at(data@, off as nat, i as nat),
{
    let shift: u8 = if i % 4 == 0 {
        1
    } else if i % 4 == 1 {
        4
    } else if i % 4 == 2 {
        16
    } else {
        64
    };
    let total: usize = data.len();
    assert(off + i / 4 < total);
    level_string((data[off + i / 4] / shift) % 4)
}

fn take_service_number(data: &[u8], sv: &Services, i: usize, count: u64) -> (r: usize)
    requires
        i < count < 0x1_0000_0000,
        sv.width <= 2,
        sv.names@.len() != 1 ==> sv.at + sv.width * count <= data@.len(),
    ensures
        r == service_number(data@, sv@, i as nat),
{
    if sv.names.len() == 1 {
        0
    } else {
        let total: usize = data.len();
        proof {
            assert(sv.at + sv.width * count <= total);
            assert(sv.width * i + sv.width <= sv.width * count) by (nonlinear_arith)
                requires
                    i < count,
                    0 <= sv.width,
            ;
            assert(0 <= sv.width * i) by (nonlinear_arith)
                requires
                    0 <= sv.width,
                    0 <= i,
            ;
            bytes::lemma_pow256();
            bytes::lemma_pow256_monotone(sv.width as nat, 2);
        }
        bytes::read_le(data, sv.at + sv.width * i, sv.width) as usize
    }
}

/// The message of a record.
pub fn record_message(
    templates: &[Template],
    pat_id: usize,
    params: &[String],
    filler: &str,
) -> (r: String)
    ensures
        r@ == parts::record_text(
            parts::template_views(templates@),
            pat_id as nat,
            text::texts(params@),
            filler@,
        ),
{
    if pat_id < templates.len() {
        parts::render_template(templates[pat_id].parts.as_slice(), params, filler)
    } else {
        parts::join_texts(params)
    }
}

fn take_lines(
    data: &[u8],
    templates: &[Template],
    levels: usize,
    sv: &Services,
    off: usize,
    count: u64,
) -> (r: Result<Vec<LogLine>, DataError>)
    requires
        off <= data@.len(),
        count == line_count(data@),
        count < 0x1_0000_0000,
        times_end(data@) == Some(levels as nat),
        levels + (count + 3) / 4 <= data@.len(),
        sv.width <= 2,
        sv.names@.len() != 1 ==> sv.at + sv.width * count <= data@.len(),
    ensures
        match (
            r,
            read_lines(
                data@,
                parts::template_views(templates@),
                levels as nat,
                sv@,
                off as nat,
                count as nat,
            ),
        ) {
            (Ok(logs), Ok((want, _o))) => log::log_views(logs@) == want,
            (Err(e), Err(f)) => e == f,
            _ => false,
        },
{
    let ghost tv = parts::template_views(templates@);
    let ghost d = data@;
    let total: usize = data.len();
    let mut out: Vec<LogLine> = Vec::new();
    let mut at: usize = off;
    let mut i: usize = 0;
    let mut ts: u64 = bytes::read_le(data, 5, 8);
    assert(ts == time_at(d, 0));
    let constant: bool = data[0] == 1;
    let fixed: u64 = if constant {
        bytes::read_le(data, 13, 8)
    } else {
        0
    };
    assert(log::log_views(out@) =~= Seq::<LogView>::empty());
    proof {
        reveal_strlit("");
        assert(""@ =~= Seq::<char>::empty());
    }
    while (i as u64) < count
        invariant
            i <= count < 0x1_0000_0000,
            d == data@,
            tv == parts::template_views(templates@),
            total == data@.len(),
            at <= total,
            count == line_count(d),
            times_end(d) == Some(levels as nat),
            levels + (count + 3) / 4 <= total,
            sv.width <= 2,
            sv.names@.len() != 1 ==> sv.at + sv.width * count <= total,
            constant == (d[0] == 1),
            constant ==> fixed == field(d, 13, 8),
            i < count ==> ts == time_at(d, i as nat),
            read_lines(d, tv, levels as nat, sv@, off as nat, i as nat) == Ok::<
                (Seq<LogView>, nat),
                DataError,
            >((log::log_views(out@), at as nat)),
            ""@ == Seq::<char>::empty(),
        decreases count - i,
    {
        let ghost before = log::log_views(out@);
        proof {
            if read_lines(d, tv, levels as nat, sv@, off as nat, (i + 1) as nat) is Err {
                lemma_lines_error(
                    d,
                    tv,
                    levels as nat,
                    sv@,
                    off as nat,
                    (i + 1) as nat,
                    count as nat,
                );
            }
        }
        if total - at < 4 {
            return Err(DataError::ChunkTruncated);
        }
        let pat_id: usize = take_u16(data, at);
        let n: usize = take_u16(data, at + 2);
        match take_texts16(data, at + 4, n) {
            None => {
                return Err(DataError::ChunkTruncated);
            },
            Some((params, o)) => {
                let k: usize = take_service_number(data, sv, i, count);
                if k >= sv.names.len() {
                    return Err(DataError::ServiceIndexOutOfRange);
                }
                let level: String = take_level(data, levels, i);
                let message: String = record_message(templates, pat_id, params.as_slice(), "");
                let line: LogLine = LogLine {
                    ts,
                    service: sv.names[k].clone(),
                    level,
                    message,
                };
                let ghost lv = line@;
                out.push(line);
                assert(log::log_views(out@) =~= before.push(lv));
                at = o;
            },
        }
        i += 1;
        if (i as u64) < count {
            let step: u64 = if constant {
                fixed
            } else {
                bytes::read_le(data, 13 + 8 * (i - 1), 8)
            };
            assert(step == read_step(d, i as nat));
            ts = ts.wrapping_add(step);
        }
    }
    Ok(out)
}

/// The lines of a chunk.
pub fn read_chunk(data: &[u8], templates: &[Template]) -> (r: Result<Vec<LogLine>, DataError>)
    ensures
        match (r, chunk_logs(data@, parts::template_views(templates@))) {
            (Ok(logs), Ok(want)) => log::log_views(logs@) == want,
            (Err(e), Err(f)) => e == f,
            _ => false,
        },
{
    let total: usize = data.len();
    if total < 13 {
        return Err(DataError::ChunkTruncated);
    }
    proof {
        bytes::lemma_pow256();
    }
    let count: u64 = bytes::read_le(data, 1, 4);
    assert(count == line_count(data@));
    let end: u64 = if data[0] == 1 {
        21
    } else if count <= 1 {
        13
    } else {
        13 + 8 * (count - 1)
    };
    if (total as u64) < end {
        return Err(DataError::ChunkTruncated);
    }
    let levels: usize = end as usize;
    let bits: u64 = (count + 3) / 4;
    if ((total - levels) as u64) < bits {
        return Err(DataError::ChunkTruncated);
    }
    let services: usize = levels + bits as usize;
    match take_services(data, services, count) {
        Err(e) => Err(e),
        Ok((sv, off)) => {
            if total - off < 4 {
                return Err(DataError::ChunkTruncated);
            }
            if bytes::read_le(data, off, 4) != count {
                return Err(DataError::RecordCountMismatch);
            }
            take_lines(data, templates, levels, &sv, off + 4, count)
        },
    }
}

} // verus!
