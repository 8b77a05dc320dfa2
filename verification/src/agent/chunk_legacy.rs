//! Reading chunks of the older layout, which holds one record after another:
//!
//! ```text
//! time           8 bytes
//! service        length in 2 bytes, then the text
//! level          1 byte, one of D, I, W, E
//! template       2 bytes
//! reference      2 bytes, 0 for a record with plain parameters
//! parameters     length in 4 bytes, then their encoding
//! ```

use crate::agent::chunk_read;
use crate::agent::parts;
use crate::agent::parts::{PartView, Template};
use crate::agent::records;
use crate::agent::records::{EncodedRecord, ParamEncoding};
use crate::agent::template::TemplateExtractor;
use crate::agent::typed;
use crate::agent::typed::{ParamView, TypedParam};
use crate::shared::bytes;
use crate::shared::error::DataError;
use crate::shared::log;
use crate::shared::log::{LogLine, LogView};
use crate::shared::text;
use vstd::prelude::*;
use vstd::string::*;

verus! {

/// One stored record and the offset behind it.
pub struct StoredView {
    pub ts: u64,
    pub service: Seq<char>,
    pub level: Seq<char>,
    pub pat_id: nat,
    pub ref_idx: nat,
    pub encoding: Seq<u8>,
    pub end: nat,
}

/// The level that a byte names; bytes that name no level count as `I`.
pub open spec fn named_level(b: u8) -> Seq<char> {
    if b == 0x44 {
        "D"@
    } else if b == 0x57 {
        "W"@
    } else if b == 0x45 {
        "E"@
    } else {
        "I"@
    }
}

/// The record at `off`; nothing if it is not there in full.
pub open spec fn stored_at(data: Seq<u8>, off: nat) -> Option<StoredView> {
    if off + 10 > data.len() {
        None
    } else {
        let svc_len: nat = chunk_read::field(data, off + 8, 2);
        let head: nat = off + 10 + svc_len;
        if head + 9 > data.len() {
            None
        } else {
            let len: nat = chunk_read::field(data, head + 5, 4);
            if head + 9 + len > data.len() {
                None
            } else {
                Some(
                    StoredView {
                        ts: chunk_read::field(data, off, 8) as u64,
                        service: text::lossy_text(bytes::window(data, off + 10, svc_len)),
                        level: named_level(data[head as int]),
                        pat_id: chunk_read::field(data, head + 1, 2),
                        ref_idx: chunk_read::field(data, head + 3, 2),
                        encoding: bytes::window(data, head + 9, len),
                        end: head + 9 + len,
                    },
                )
            }
        }
    }
}

/// The line that a record stands for.
pub open spec fn decoded_line(
    templates: Seq<Seq<PartView>>,
    pat_id: nat,
    params: Seq<ParamView>,
    ts: u64,
    service: Seq<char>,
    level: Seq<char>,
) -> LogView {
    LogView {
        ts,
        service,
        level,
        message: parts::record_text(templates, pat_id, typed::param_texts(params), seq!['*']),
    }
}

/// The lines from `off` on; `refs` are the reference parameters. Reading stops
/// at a record that is not there in full.
pub open spec fn stored_lines(
    data: Seq<u8>,
    off: nat,
    templates: Seq<Seq<PartView>>,
    refs: Seq<ParamView>,
) -> Result<Seq<LogView>, DataError>
    decreases data.len() - off,
{
    match stored_at(data, off) {
        None => Ok(Seq::empty()),
        Some(r) => if !records::row_well_formed(r.encoding, r.ref_idx) {
            Err(DataError::ParamsMalformed)
        } else {
            let params: Seq<ParamView> = records::row_decoding(r.encoding, r.ref_idx, refs);
            let next: Seq<ParamView> = if r.ref_idx == 0 {
                params
            } else {
                refs
            };
            match stored_lines(data, r.end, templates, next) {
                Err(e) => Err(e),
                Ok(rest) => Ok(
                    seq![decoded_line(templates, r.pat_id, params, r.ts, r.service, r.level)]
                        + rest,
                ),
            }
        },
    }
}

/// The line of a record with encoded parameters. A record with plain
/// parameters becomes the reference of those that follow.
pub fn decode_one_record(
    pat_id: u16,
    ref_idx: u16,
    enc_data: &[u8],
    templates: &[Template],
    ref_params: &mut Vec<TypedParam>,
    ts: u64,
    service: String,
    level: String,
) -> (r: LogLine)
    requires
        records::row_well_formed(enc_data@, ref_idx as nat),
    ensures
        ({
            let params: Seq<ParamView> = records::row_decoding(
                enc_data@,
                ref_idx as nat,
                typed::param_views(old(ref_params)@),
            );
            &&& r@ == decoded_line(
                parts::template_views(templates@),
                pat_id as nat,
                params,
                ts,
                service@,
                level@,
            )
            &&& typed::param_views(final(ref_params)@) == if ref_idx == 0 {
                params
            } else {
                typed::param_views(old(ref_params)@)
            }
        }),
{
    let mut data: Vec<u8> = Vec::new();
    bytes::push_bytes(&mut data, enc_data);
    assert(data@ =~= enc_data@);
    let record: EncodedRecord = EncodedRecord {
        ts_delta: 0,
        svc_id: 0,
        level: level.clone(),
        pat_id,
        param_encoding: ParamEncoding { ref_idx, data },
    };
    let params: Vec<TypedParam> = TemplateExtractor::decode_xor(&record, ref_params);
    let strings: Vec<String> = typed::param_strings(&params);
    proof {
        reveal_strlit("*");
        assert("*"@ =~= seq!['*']);
    }
    let message: String = chunk_read::record_message(templates, pat_id as usize, &strings, "*");
    if ref_idx == 0 {
        *ref_params = params;
    }
    LogLine { ts, service, level, message }
}

fn level_name(b: u8) -> (r: String)
    ensures
        r@ == named_level(b),
{
    if b == 0x44 {
        "D".to_string()
    } else if b == 0x57 {
        "W".to_string()
    } else if b == 0x45 {
        "E".to_string()
    } else {
        "I".to_string()
    }
}

/// The lines of a chunk of the older layout.
pub fn read_legacy_chunk(data: &[u8], templates: &[Template]) -> (r: Result<
    Vec<LogLine>,
    DataError,
>)
    ensures
        match (
            r,
            stored_lines(data@, 0, parts::template_views(templates@), Seq::<ParamView>::empty()),
        ) {
            (Ok(logs), Ok(want)) => log::log_views(logs@) == want,
            (Err(e), Err(f)) => e == f,
            _ => false,
        },
{
    let total: usize = data.len();
    let ghost d = data@;
    let ghost tv = parts::template_views(templates@);
    let ghost whole = stored_lines(d, 0, tv, Seq::<ParamView>::empty());
    let mut out: Vec<LogLine> = Vec::new();
    let mut refs: Vec<TypedParam> = Vec::new();
    let mut off: usize = 0;
    let mut more: bool = true;
    assert(typed::param_views(refs@) =~= Seq::<ParamView>::empty());
    proof {
        bytes::lemma_pow256();
        assert(log::log_views(out@) =~= Seq::<LogView>::empty());
        if whole is Ok {
            assert(log::log_views(out@) + whole->Ok_0 =~= whole->Ok_0);
        }
    }
    while more
        invariant
            total == data@.len(),
            d == data@,
            tv == parts::template_views(templates@),
            off <= total,
            bytes::pow256(2) == 0x1_0000,
            bytes::pow256(4) == 0x1_0000_0000,
            whole == stored_lines(d, 0, tv, Seq::<ParamView>::empty()),
            match stored_lines(d, off as nat, tv, typed::param_views(refs@)) {
                Err(e) => whole == Err::<Seq<LogView>, DataError>(e),
                Ok(rest) => whole == Ok::<Seq<LogView>, DataError>(log::log_views(out@) + rest),
            },
            !more ==> stored_at(d, off as nat) is None,
        decreases total - off + (if more {
            1int
        } else {
            0int
        }),
    {
        if total - off < 10 {
            more = false;
        } else {
            let svc_len: usize = chunk_read::take_u16(data, off + 8);
            if total - off - 10 < svc_len || total - off - 10 - svc_len < 9 {
                more = false;
            } else {
                let head: usize = off + 10 + svc_len;
                let len: u64 = bytes::read_le(data, head + 5, 4);
                if ((total - head - 9) as u64) < len {
                    more = false;
                } else {
                    let end: usize = head + 9 + len as usize;
                    let ts: u64 = bytes::read_le(data, off, 8);
                    let service: String = text::lossy_string(
                        vstd::slice::slice_subrange(data, off + 10, head),
                    );
                    let level: String = level_name(data[head]);
                    let pat_id: u16 = chunk_read::take_u16(data, head + 1) as u16;
                    let ref_idx: u16 = chunk_read::take_u16(data, head + 3) as u16;
                    let enc: &[u8] = vstd::slice::slice_subrange(data, head + 9, end);
                    let ghost rec = stored_at(d, off as nat);
                    assert(rec is Some && rec->0.encoding =~= enc@);
                    if !records::params_well_formed(enc, ref_idx) {
                        return Err(DataError::ParamsMalformed);
                    }
                    let ghost rest0 = stored_lines(d, off as nat, tv, typed::param_views(refs@));
                    let ghost before = log::log_views(out@);
                    let line: LogLine = decode_one_record(
                        pat_id,
                        ref_idx,
                        enc,
                        templates,
                        &mut refs,
                        ts,
                        service,
                        level,
                    );
                    let ghost lv = line@;
                    out.push(line);
                    off = end;
                    proof {
                        assert(log::log_views(out@) =~= before.push(lv));
                        let rest = stored_lines(d, off as nat, tv, typed::param_views(refs@));
                        if rest is Ok {
                            assert(rest0 == Ok::<Seq<LogView>, DataError>(
                                seq![lv] + rest->Ok_0,
                            ));
                            assert(before + (seq![lv] + rest->Ok_0) =~= log::log_views(out@)
                                + rest->Ok_0);
                        }
                    }
                }
            }
        }
    }
    assert(log::log_views(out@) + Seq::<LogView>::empty() =~= log::log_views(out@));
    Ok(out)
}

} // verus!
