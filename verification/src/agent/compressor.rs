//! Compression of batches of log lines.

use crate::agent::batch_text;
use crate::agent::batch_text::TextRecord;
use crate::agent::codec;
use crate::agent::extract;
use crate::agent::json;
use crate::agent::parts;
use crate::agent::parts::PartView;
use crate::agent::records::TemplateBatch;
use crate::agent::template::TemplateExtractor;
use crate::agent::typed;
use crate::shared::error::DataError;
use crate::shared::lines;
use crate::shared::log;
use crate::shared::log::{LogLine, LogView};
use crate::shared::numeral;
use crate::shared::text;
use vstd::prelude::*;
use vstd::utf8::*;

pub use crate::agent::template::TemplateExtractor as DictTrainerSource;

verus! {

/// How batches are compressed.
#[derive(Debug)]
pub struct CompressorConfig {
    /// Compression level of zstd.
    pub zstd_level: i32,
    /// Whether templates are extracted; without them lines are kept as JSON.
    pub enable_template: bool,
    /// After how many records a new reference record is started.
    pub xor_ref_reset: usize,
    /// Dictionary of zstd.
    pub dict: Option<Vec<u8>>,
}

impl Default for CompressorConfig {
    fn default() -> (r: Self)
        ensures
            r.zstd_level == 3,
            r.enable_template,
            r.xor_ref_reset == 16,
            r.dict is None,
    {
        CompressorConfig { zstd_level: 3, enable_template: true, xor_ref_reset: 16, dict: None }
    }
}

/// A copy of an optional byte string.
pub fn copy_dict(d: &Option<Vec<u8>>) -> (r: Option<Vec<u8>>)
    ensures
        owned_dict(r) == owned_dict(*d),
{
    match d {
        None => None,
        Some(v) => {
            let c: Vec<u8> = v.clone();
            assert(c@ =~= v@);
            Some(c)
        },
    }
}

impl Clone for CompressorConfig {
    fn clone(&self) -> (r: Self)
        ensures
            r.zstd_level == self.zstd_level,
            r.enable_template == self.enable_template,
            r.xor_ref_reset == self.xor_ref_reset,
            owned_dict(r.dict) == owned_dict(self.dict),
    {
        CompressorConfig {
            zstd_level: self.zstd_level,
            enable_template: self.enable_template,
            xor_ref_reset: self.xor_ref_reset,
            dict: copy_dict(&self.dict),
        }
    }
}

/// Compresses and decompresses batches of log lines.
pub struct Compressor {
    pub config: CompressorConfig,
}

/// The bytes of an optional dictionary.
pub open spec fn owned_dict(d: Option<Vec<u8>>) -> Option<Seq<u8>> {
    match d {
        None => None,
        Some(v) => Some(v@),
    }
}

/// The bytes of a batch of templates and records.
pub open spec fn extracted_bytes(b: TemplateBatch) -> Seq<u8> {
    batch_text::batch_bytes(
        parts::template_views(b.templates@),
        batch_text::text_records(b.records@),
    )
}

/// `raw` is an uncompressed form of the lines: an extracted batch, or JSON.
pub open spec fn is_raw_form(templated: bool, logs: Seq<LogView>, raw: Seq<u8>) -> bool {
    if templated {
        exists|b: TemplateBatch|
            #[trigger] extract::is_extraction(logs, b) && raw == extracted_bytes(b)
    } else {
        raw == json::json_bytes(logs)
    }
}

/// The lines of an uncompressed form: a batch where it is one, else JSON.
pub open spec fn raw_logs(raw: Seq<u8>) -> Seq<LogView> {
    match batch_text::batch_logs(raw) {
        Ok(logs) => logs,
        Err(_) => if valid_utf8(raw) {
            json::lines_logs(lines::byte_lines(raw))
        } else {
            Seq::empty()
        },
    }
}

/// `r` is the outcome of compressing `raw`, and stands for `raw`.
pub open spec fn compresses(
    raw: Seq<u8>,
    level: i32,
    dict: Option<Seq<u8>>,
    r: Result<Vec<u8>, DataError>,
) -> bool {
    match r {
        Ok(v) => codec::packed(raw, level, dict) == Some(v@) && codec::unpacked(v@, dict) == Some(
            raw,
        ) && v@.len() > 0,
        Err(e) => e == DataError::Compression && codec::packed(raw, level, dict) is None,
    }
}

impl Compressor {
    /// A compressor with that configuration.
    pub fn new(config: CompressorConfig) -> (r: Self)
        ensures
            r.config == config,
    {
        Compressor { config }
    }

    fn dict(&self) -> (r: Option<&[u8]>)
        ensures
            codec::dict_bytes(r) == owned_dict(self.config.dict),
    {
        match &self.config.dict {
            None => None,
            Some(d) => Some(d.as_slice()),
        }
    }

    /// Compresses a batch of lines. No lines give no bytes.
    pub fn compress_batch(&self, logs: &[LogLine]) -> (r: Result<Vec<u8>, DataError>)
        ensures
            logs@.len() == 0 ==> r is Ok && r->Ok_0@.len() == 0,
            logs@.len() > 0 ==> exists|raw: Seq<u8>|
                {
                    &&& #[trigger] is_raw_form(
                        self.config.enable_template,
                        log::log_views(logs@),
                        raw,
                    )
                    &&& compresses(
                        raw,
                        self.config.zstd_level,
                        owned_dict(self.config.dict),
                        r,
                    )
                },
    {
        if logs.len() == 0 {
            return Ok(Vec::new());
        }
        let raw: Vec<u8> = if self.config.enable_template {
            let batch: TemplateBatch = TemplateExtractor::extract(logs);
            batch_text::serialize_template_v2(&batch)
        } else {
            json::logs_json(logs)
        };
        assert(is_raw_form(self.config.enable_template, log::log_views(logs@), raw@));
        codec::compress_with_dict(raw.as_slice(), self.config.zstd_level, self.dict())
    }

    /// Decompresses a batch of lines. Lines that were compressed as JSON come
    /// back as they were.
    pub fn decompress_batch(&self, data: &[u8]) -> (r: Result<Vec<LogLine>, DataError>)
        ensures
            data@.len() == 0 ==> r is Ok && r->Ok_0@.len() == 0,
            data@.len() > 0 ==> match codec::unpacked(data@, owned_dict(self.config.dict)) {
                None => r is Err && r->Err_0 == DataError::Compression,
                Some(raw) => r is Ok && log::log_views(r->Ok_0@) == raw_logs(raw),
            },
            forall|ls: Seq<LogView>|
                data@.len() > 0 && codec::unpacked(data@, owned_dict(self.config.dict)) == Some(
                    #[trigger] json::json_bytes(ls),
                ) ==> r is Ok && log::log_views(r->Ok_0@) == ls,
    {
        if data.len() == 0 {
            return Ok(Vec::new());
        }
        let raw: Vec<u8> = match codec::decompress_with_dict(data, self.dict()) {
            Err(e) => {
                return Err(e);
            },
            Ok(raw) => raw,
        };
        proof {
            assert forall|ls: Seq<LogView>| raw@ == #[trigger] json::json_bytes(
                ls,
            ) implies batch_text::batch_logs(raw@) is Err && valid_utf8(raw@) by {
                json::lemma_json_text(ls);
                batch_text::lemma_no_batch(raw@);
            }
        }
        match batch_text::deserialize_template_v2(raw.as_slice()) {
            Ok(logs) => Ok(logs),
            Err(_) => {
                match text::utf8_str(raw.as_slice()) {
                    None => {
                        let none: Vec<LogLine> = Vec::new();
                        assert(log::log_views(none@) =~= Seq::<LogView>::empty());
                        Ok(none)
                    },
                    Some(_) => Ok(json::read_logs(raw.as_slice())),
                }
            },
        }
    }
}

/// The line as a compressed batch gives it back: the service is replaced.
pub open spec fn batch_line(l: LogView) -> LogView {
    LogView { ts: l.ts, service: seq!['s', 'v', 'c', '0'], level: l.level, message: l.message }
}

/// Levels and parameters hold no zero character and no line feed.
pub open spec fn batch_plain(logs: Seq<LogView>) -> bool {
    forall|i: int|
        0 <= i < logs.len() ==> lines::unbroken_text((#[trigger] logs[i]).level) && forall|j: int|
            0 <= j < extract::params_of(extract::batch_tokens(logs), i).len()
                ==> lines::unbroken_text(
                #[trigger] extract::params_of(extract::batch_tokens(logs), i)[j],
            )
}

proof fn lemma_pattern_signed(n: nat)
    requires
        n < 0x1_0000_0000_0000_0000,
    ensures
        typed::pattern64(typed::signed64(n)) == n,
        i64::MIN <= typed::signed64(n) <= i64::MAX,
{
}

proof fn lemma_record_logs(
    logs: Seq<LogView>,
    ts: Seq<Seq<PartView>>,
    rs: Seq<TextRecord>,
    n: nat,
)
    requires
        n <= logs.len(),
        rs.len() == logs.len(),
        forall|i: int|
            0 <= i < logs.len() ==> {
                &&& (#[trigger] rs[i]).ts_delta == typed::signed64(
                    extract::time_step(logs, i) as nat,
                )
                &&& rs[i].svc_id == 0
                &&& rs[i].level == logs[i].level
                &&& parts::render(ts[rs[i].pat_id as int], rs[i].params, Seq::empty())
                    == logs[i].message
            },
    ensures
        batch_text::record_logs(ts, rs, n) == Seq::new(n, |i: int| batch_line(logs[i])),
    decreases n,
{
    let want: Seq<LogView> = Seq::new(n, |i: int| batch_line(logs[i]));
    if n == 0 {
        assert(batch_text::record_logs(ts, rs, n) =~= want);
    } else {
        let m: nat = (n - 1) as nat;
        lemma_record_logs(logs, ts, rs, m);
        let head: Seq<LogView> = batch_text::record_logs(ts, rs, m);
        let r: TextRecord = rs[m as int];
        lemma_pattern_signed(extract::time_step(logs, m as int) as nat);
        assert(numeral::numeral(0, 10) =~= seq!['0']);
        assert(seq!['s', 'v', 'c'] + numeral::numeral(0, 10) =~= seq!['s', 'v', 'c', '0']);
        assert(batch_text::record_log(ts, r, batch_text::last_ts(head)) == batch_line(
            logs[m as int],
        ));
        assert(batch_text::record_logs(ts, rs, n) =~= want);
    }
}

/// An extracted batch gives its lines back, with time, level and message as
/// they were, where its templates fit their table and no level or parameter
/// holds a zero character or a line feed.
pub proof fn law_template_roundtrip(logs: Seq<LogView>, b: TemplateBatch)
    requires
        extract::is_extraction(logs, b),
        logs.len() < 0x1_0000_0000,
        parts::table_fits(parts::template_views(b.templates@)),
        batch_plain(logs),
    ensures
        raw_logs(extracted_bytes(b)) == Seq::new(logs.len(), |i: int| batch_line(logs[i])),
{
    let toks: Seq<Seq<Seq<char>>> = extract::batch_tokens(logs);
    let ts: Seq<Seq<PartView>> = parts::template_views(b.templates@);
    let rs: Seq<TextRecord> = batch_text::text_records(b.records@);
    assert forall|i: int| 0 <= i < logs.len() implies {
        &&& (#[trigger] rs[i]).ts_delta == typed::signed64(extract::time_step(logs, i) as nat)
        &&& rs[i].svc_id == 0
        &&& rs[i].level == logs[i].level
        &&& parts::render(ts[rs[i].pat_id as int], rs[i].params, Seq::empty()) == logs[i].message
        &&& rs[i].pat_id < ts.len()
        &&& batch_text::record_plain(rs[i])
    } by {
        let rec = b.records@[i];
        assert(extract::is_record_of(logs, rec, i));
        extract::lemma_record_texts(logs, rec, i);
        assert(extract::points_at(rec.pat_id, ts, extract::template_of(toks, i)));
        let k: nat = choose|k: nat|
            k < ts.len() && ts[k as int] == extract::template_of(toks, i) && rec.pat_id as nat
                == #[trigger] extract::low16(k);
        assert(rec.pat_id == k);
        extract::law_extract_lossless(logs, i, Seq::empty());
        lemma_pattern_signed(extract::time_step(logs, i) as nat);
        assert(lines::unbroken_text(logs[i].level));
        assert(rs[i].params == extract::params_of(toks, i));
        assert(rs[i].params.len() == rec.params.len());
    }
    lemma_record_logs(logs, ts, rs, logs.len());
    batch_text::law_batch_roundtrip(ts, rs);
}

/// With templates, the uncompressed form of lines gives them back with time,
/// level and message as they were and with the service `svc0`, where the
/// templates fit their table and no level or parameter holds a zero character or
/// a line feed.
pub proof fn law_templated_form(logs: Seq<LogView>, raw: Seq<u8>, i: int)
    requires
        is_raw_form(true, logs, raw),
        0 <= i < logs.len() < 0x1_0000_0000,
        forall|b: TemplateBatch| #[trigger]
            extract::is_extraction(logs, b) ==> parts::table_fits(
                parts::template_views(b.templates@),
            ),
        batch_plain(logs),
    ensures
        raw_logs(raw).len() == logs.len(),
        raw_logs(raw)[i].ts == logs[i].ts,
        raw_logs(raw)[i].level == logs[i].level,
        raw_logs(raw)[i].message == logs[i].message,
        raw_logs(raw)[i].service == seq!['s', 'v', 'c', '0'],
{
    let b: TemplateBatch = choose|b: TemplateBatch|
        #[trigger] extract::is_extraction(logs, b) && raw == extracted_bytes(b);
    law_template_roundtrip(logs, b);
}

} // verus!
