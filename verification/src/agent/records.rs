//! Templated records and their XOR-P encoding.

use crate::agent::parts;
use crate::agent::parts::{PartView, Template};
use crate::agent::template::TemplateExtractor;
use crate::agent::typed;
use crate::agent::typed::{ParamType, ParamView, TypedParam};
use crate::agent::xor;
use crate::shared::bytes;
use crate::shared::error::DataError;
use vstd::prelude::*;

verus! {

/// One line as a template and its parameters.
#[derive(Debug)]
pub struct TemplateRecord {
    /// Position of the line in its batch.
    pub original_idx: usize,
    /// Time since the line before; of the first line, the time itself.
    pub ts_delta: i64,
    pub svc_id: u8,
    pub level: String,
    pub pat_id: u16,
    /// One parameter for each slot of the template.
    pub params: Vec<TypedParam>,
}

/// The templates and records of a batch of lines.
#[derive(Debug)]
pub struct TemplateBatch {
    pub templates: Vec<Template>,
    pub records: Vec<TemplateRecord>,
}

impl Default for TemplateBatch {
    fn default() -> (r: Self)
        ensures
            r.templates@.len() == 0,
            r.records@.len() == 0,
    {
        TemplateBatch { templates: Vec::new(), records: Vec::new() }
    }
}

impl TemplateBatch {
    /// The bytes of the pattern table.
    pub fn serialize_pattern_table(&self) -> (r: Vec<u8>)
        ensures
            r@ == parts::table_bytes(parts::template_views(self.templates@)),
    {
        parts::serialize_table(&self.templates)
    }

    /// Reads a pattern table; the templates are numbered in order.
    pub fn deserialize_pattern_table(data: &[u8]) -> (r: Result<Vec<Template>, DataError>)
        ensures
            match r {
                Ok(ts) => parts::read_table(data@) == Ok::<Seq<Seq<PartView>>, DataError>(
                    parts::template_views(ts@),
                ) && forall|i: int| 0 <= i < ts@.len() ==> (#[trigger] ts@[i]).id == i,
                Err(e) => parts::read_table(data@) == Err::<Seq<Seq<PartView>>, DataError>(e),
            },
    {
        parts::deserialize_table(data)
    }
}

/// A record with encoded parameters.
#[derive(Debug)]
pub struct EncodedRecord {
    pub ts_delta: i64,
    pub svc_id: u8,
    pub level: String,
    pub pat_id: u16,
    pub param_encoding: ParamEncoding,
}

/// Encoded parameters.
#[derive(Debug)]
pub struct ParamEncoding {
    /// How many rows back the reference row is; 0 for a reference row.
    pub ref_idx: u16,
    /// Parameter count in four bytes, then the parameters.
    pub data: Vec<u8>,
}

/// The parameters of each record.
pub open spec fn all_params(records: Seq<TemplateRecord>) -> Seq<Seq<ParamView>> {
    Seq::new(records.len(), |i: int| typed::param_views(records[i].params@))
}

/// Two rows have as many parameters, of the same kinds.
pub open spec fn same_shape(a: Seq<ParamView>, b: Seq<ParamView>) -> bool {
    a.len() == b.len() && forall|i: int| 0 <= i < a.len() ==> (#[trigger] a[i]).ty == b[i].ty
}

/// The reference row of row `i`: rows at multiples of `reset` and rows of
/// another shape than the current reference row start anew.
pub open spec fn ref_row(ps: Seq<Seq<ParamView>>, reset: nat, i: nat) -> nat
    decreases i,
{
    if i == 0 {
        0
    } else {
        let r: nat = ref_row(ps, reset, (i - 1) as nat);
        if i % reset == 0 || !same_shape(ps[i as int], ps[r as int]) {
            i
        } else {
            r
        }
    }
}

/// The first `n` parameters as they are: kind, length in four bytes, bytes.
pub open spec fn plain_bytes(params: Seq<ParamView>, n: nat) -> Seq<u8>
    decreases n,
{
    if n == 0 {
        Seq::empty()
    } else {
        let p: ParamView = params[n - 1];
        plain_bytes(params, (n - 1) as nat) + (seq![typed::type_code(p.ty)] + bytes::le_bytes(
            p.bytes.len(),
            4,
        ) + p.bytes)
    }
}

/// The first `n` parameters as differences: kind, difference from the base.
pub open spec fn diff_bytes(params: Seq<ParamView>, base: Seq<ParamView>, n: nat) -> Seq<u8>
    decreases n,
{
    if n == 0 {
        Seq::empty()
    } else {
        let p: ParamView = params[n - 1];
        diff_bytes(params, base, (n - 1) as nat) + (seq![typed::type_code(p.ty)]
            + xor::xor_encoding(p.bytes, base[n - 1].bytes))
    }
}

/// The encoded parameters of row `i`.
pub open spec fn row_bytes(ps: Seq<Seq<ParamView>>, reset: nat, i: nat) -> Seq<u8> {
    let row: Seq<ParamView> = ps[i as int];
    let r: nat = ref_row(ps, reset, i);
    bytes::le_bytes(row.len(), 4) + if r == i {
        plain_bytes(row, row.len())
    } else {
        diff_bytes(row, ps[r as int], row.len())
    }
}

proof fn lemma_ref_row(ps: Seq<Seq<ParamView>>, reset: nat, i: nat)
    requires
        reset > 0,
    ensures
        ref_row(ps, reset, i) <= i,
        i - ref_row(ps, reset, i) <= i % reset,
        ref_row(ps, reset, i) < i ==> same_shape(
            ps[i as int],
            ps[ref_row(ps, reset, i) as int],
        ),
    decreases i,
{
    if i > 0 {
        let k: nat = (i - 1) as nat;
        lemma_ref_row(ps, reset, k);
        if i % reset != 0 {
            assert(i % reset == k % reset + 1) by (nonlinear_arith)
                requires
                    reset > 0,
                    i == k + 1,
                    i % reset != 0,
            ;
        }
    }
}

fn shapes_match(a: &[TypedParam], b: &[TypedParam]) -> (r: bool)
    ensures
        r == same_shape(typed::param_views(a@), typed::param_views(b@)),
{
    let ghost av = typed::param_views(a@);
    let ghost bv = typed::param_views(b@);
    if a.len() != b.len() {
        return false;
    }
    let mut i: usize = 0;
    while i < a.len()
        invariant
            i <= a@.len(),
            a@.len() == b@.len(),
            av == typed::param_views(a@),
            bv == typed::param_views(b@),
            forall|k: int| 0 <= k < i ==> (#[trigger] av[k]).ty == bv[k].ty,
        decreases a@.len() - i,
    {
        if a[i].ty != b[i].ty {
            assert(av[i as int].ty != bv[i as int].ty);
            return false;
        }
        i += 1;
    }
    true
}

fn push_plain(buf: &mut Vec<u8>, params: &[TypedParam])
    ensures
        final(buf)@ == old(buf)@ + plain_bytes(
            typed::param_views(params@),
            params@.len(),
        ),
{
    let ghost pv = typed::param_views(params@);
    let mut i: usize = 0;
    assert(buf@ =~= old(buf)@ + plain_bytes(pv, 0));
    while i < params.len()
        invariant
            i <= params@.len(),
            pv == typed::param_views(params@),
            buf@ == old(buf)@ + plain_bytes(pv, i as nat),
        decreases params@.len() - i,
    {
        assert(pv[i as int] == params@[i as int]@);
        buf.push(params[i].ty.to_u8());
        bytes::push_le(buf, params[i].bytes.len() as u64, 4);
        bytes::push_bytes(buf, &params[i].bytes);
        i += 1;
        assert(buf@ =~= old(buf)@ + plain_bytes(pv, i as nat));
    }
}

fn push_diff(buf: &mut Vec<u8>, params: &[TypedParam], base: &[TypedParam])
    requires
        params@.len() == base@.len(),
    ensures
        final(buf)@ == old(buf)@ + diff_bytes(
            typed::param_views(params@),
            typed::param_views(base@),
            params@.len(),
        ),
{
    let ghost pv = typed::param_views(params@);
    let ghost bv = typed::param_views(base@);
    let mut i: usize = 0;
    assert(buf@ =~= old(buf)@ + diff_bytes(pv, bv, 0));
    while i < params.len()
        invariant
            i <= params@.len(),
            params@.len() == base@.len(),
            pv == typed::param_views(params@),
            bv == typed::param_views(base@),
            buf@ == old(buf)@ + diff_bytes(pv, bv, i as nat),
        decreases params@.len() - i,
    {
        assert(pv[i as int] == params@[i as int]@);
        assert(bv[i as int] == base@[i as int]@);
        buf.push(params[i].ty.to_u8());
        let enc: Vec<u8> = TemplateExtractor::xor_param_bytes(&params[i].bytes, &base[i].bytes);
        bytes::push_bytes(buf, &enc);
        i += 1;
        assert(buf@ =~= old(buf)@ + diff_bytes(pv, bv, i as nat));
    }
}

/// `e` is the encoding of row `i`.
pub open spec fn encodes_row(
    e: EncodedRecord,
    records: Seq<TemplateRecord>,
    reset: nat,
    i: nat,
) -> bool {
    let rec: TemplateRecord = records[i as int];
    let ps: Seq<Seq<ParamView>> = all_params(records);
    &&& e.ts_delta == rec.ts_delta
    &&& e.svc_id == rec.svc_id
    &&& e.level@ == rec.level@
    &&& e.pat_id == rec.pat_id
    &&& e.param_encoding.ref_idx as nat == (i - ref_row(ps, reset, i)) as nat % 0x1_0000
    &&& e.param_encoding.data@ == row_bytes(ps, reset, i)
}

impl TemplateExtractor {
    /// Encodes the parameters of a batch. A reference row stores its parameters as
    /// they are; the rows after it store differences from it.
    pub fn encode_xor(batch: &TemplateBatch, ref_reset: usize) -> (r: Vec<EncodedRecord>)
        requires
            ref_reset > 0,
        ensures
            r@.len() == batch.records@.len(),
            forall|i: int|
                0 <= i < r@.len() ==> encodes_row(
                    #[trigger] r@[i],
                    batch.records@,
                    ref_reset as nat,
                    i as nat,
                ),
    {
        let mut result: Vec<EncodedRecord> = Vec::new();
        let ghost ps = all_params(batch.records@);
        let mut ref_idx: usize = 0;
        let mut i: usize = 0;
        while i < batch.records.len()
            invariant
                ref_reset > 0,
                i <= batch.records@.len(),
                ps == all_params(batch.records@),
                result@.len() == i,
                i > 0 ==> ref_idx == ref_row(ps, ref_reset as nat, (i - 1) as nat),
                i > 0 ==> ref_idx < i,
                i == 0 ==> ref_idx == 0,
                forall|k: int|
                    0 <= k < i ==> encodes_row(
                        #[trigger] result@[k],
                        batch.records@,
                        ref_reset as nat,
                        k as nat,
                    ),
            decreases batch.records@.len() - i,
        {
            let rec: &TemplateRecord = &batch.records[i];
            let mut data: Vec<u8> = Vec::new();
            bytes::push_le(&mut data, rec.params.len() as u64, 4);
            assert(ps[i as int] == typed::param_views(rec.params@));
            assert(ps[ref_idx as int] == typed::param_views(
                batch.records@[ref_idx as int].params@,
            ));
            if i % ref_reset == 0 || !shapes_match(&rec.params, &batch.records[ref_idx].params) {
                ref_idx = i;
                push_plain(&mut data, &rec.params);
            } else {
                push_diff(&mut data, &rec.params, &batch.records[ref_idx].params);
            }
            proof {
                lemma_ref_row(ps, ref_reset as nat, i as nat);
                assert(ref_idx == ref_row(ps, ref_reset as nat, i as nat));
                assert(data@ =~= row_bytes(ps, ref_reset as nat, i as nat));
            }
            let back: usize = (i - ref_idx) % 0x1_0000;
            result.push(
                EncodedRecord {
                    ts_delta: rec.ts_delta,
                    svc_id: rec.svc_id,
                    level: rec.level.clone(),
                    pat_id: rec.pat_id,
                    param_encoding: ParamEncoding { ref_idx: back as u16, data },
                },
            );
            i += 1;
        }
        result
    }
}

// ---------- decoding ----------

/// The kind that a code stands for; other codes stand for text.
pub open spec fn type_of_code(v: u8) -> ParamType {
    if v == 1 {
        ParamType::Integer
    } else if v == 2 {
        ParamType::Hex
    } else if v == 3 {
        ParamType::IPv4
    } else if v == 4 {
        ParamType::BlockId
    } else if v == 5 {
        ParamType::IPv4Port
    } else if v == 6 {
        ParamType::Timestamp
    } else if v == 7 {
        ParamType::Path
    } else {
        ParamType::String
    }
}

fn kind_of_code(v: u8) -> (t: ParamType)
    ensures
        t == type_of_code(v),
{
    match ParamType::from_u8(v) {
        Some(t) => t,
        None => ParamType::String,
    }
}

/// Up to `n` parameters stored as they are, from `off` on; reading stops where
/// the data does.
pub open spec fn plain_from(data: Seq<u8>, off: nat, n: nat) -> Seq<ParamView>
    decreases n,
{
    if n == 0 || off + 5 > data.len() {
        Seq::empty()
    } else {
        let len: nat = bytes::le_value(bytes::window(data, off + 1, 4));
        if off + 5 + len > data.len() {
            Seq::empty()
        } else {
            seq![
                ParamView {
                    ty: type_of_code(data[off as int]),
                    bytes: bytes::window(data, off + 5, len),
                },
            ] + plain_from(data, off + 5 + len, (n - 1) as nat)
        }
    }
}

/// The bytes that parameter `i` is a difference from.
pub open spec fn base_bytes(refs: Seq<ParamView>, i: nat) -> Seq<u8> {
    if i < refs.len() {
        refs[i as int].bytes
    } else {
        Seq::empty()
    }
}

/// Up to `n` parameters stored as differences, from `off` on, the first of
/// them parameter `i`; reading stops where the data does.
pub open spec fn diff_from(
    data: Seq<u8>,
    off: nat,
    refs: Seq<ParamView>,
    i: nat,
    n: nat,
) -> Seq<ParamView>
    decreases n,
{
    if n == 0 || off >= data.len() {
        Seq::empty()
    } else {
        let d: Seq<u8> = data.skip((off + 1) as int);
        seq![
            ParamView {
                ty: type_of_code(data[off as int]),
                bytes: xor::xor_decoding(d, base_bytes(refs, i)),
            },
        ] + diff_from(data, off + 1 + xor::xor_consumed(d), refs, i + 1, (n - 1) as nat)
    }
}

/// Every difference that is read is well formed.
pub open spec fn diffs_well_formed(data: Seq<u8>, off: nat, n: nat) -> bool
    decreases n,
{
    n == 0 || off >= data.len() || {
        let d: Seq<u8> = data.skip((off + 1) as int);
        xor::enc_well_formed(d) && diffs_well_formed(
            data,
            off + 1 + xor::xor_consumed(d),
            (n - 1) as nat,
        )
    }
}

/// The encoded parameters can be decoded.
pub open spec fn row_well_formed(data: Seq<u8>, ref_idx: nat) -> bool {
    data.len() < 4 || ref_idx == 0 || diffs_well_formed(
        data,
        4,
        bytes::le_value(data.subrange(0, 4)),
    )
}

/// The parameters that a row stands for.
pub open spec fn row_decoding(data: Seq<u8>, ref_idx: nat, refs: Seq<ParamView>) -> Seq<ParamView> {
    if data.len() < 4 {
        Seq::empty()
    } else if ref_idx == 0 {
        plain_from(data, 4, bytes::le_value(data.subrange(0, 4)))
    } else {
        diff_from(data, 4, refs, 0, bytes::le_value(data.subrange(0, 4)))
    }
}

/// Whether the encoded parameters can be decoded.
pub fn params_well_formed(data: &[u8], ref_idx: u16) -> (r: bool)
    ensures
        r == row_well_formed(data@, ref_idx as nat),
{
    let total: usize = data.len();
    if total < 4 || ref_idx == 0 {
        return true;
    }
    let count: u64 = bytes::read_le(data, 0, 4);
    let mut off: usize = 4;
    let mut left: u64 = count;
    while left > 0 && off < total
        invariant
            total == data@.len(),
            total >= 4,
            ref_idx != 0,
            count == bytes::le_value(data@.subrange(0, 4)),
            off <= total,
            diffs_well_formed(data@, off as nat, left as nat) == diffs_well_formed(
                data@,
                4,
                count as nat,
            ),
        decreases left,
    {
        let d: &[u8] = vstd::slice::slice_subrange(data, off + 1, total);
        assert(d@ =~= data@.skip(off + 1));
        if !xor::xor_well_formed(d) {
            return false;
        }
        let used: usize = xor_size(d);
        off = off + 1 + used;
        left -= 1;
    }
    true
}

fn xor_size(d: &[u8]) -> (r: usize)
    requires
        xor::enc_well_formed(d@),
    ensures
        r == xor::xor_consumed(d@),
        r <= d@.len(),
{
    let empty: Vec<u8> = Vec::new();
    let (_b, used) = TemplateExtractor::decode_xor_param_bytes(d, &empty);
    used
}

impl TemplateExtractor {
    /// Decodes the parameters of a record, given those of its reference row.
    pub fn decode_xor(encoded: &EncodedRecord, ref_params: &[TypedParam]) -> (r: Vec<TypedParam>)
        requires
            row_well_formed(
                encoded.param_encoding.data@,
                encoded.param_encoding.ref_idx as nat,
            ),
        ensures
            typed::param_views(r@) == row_decoding(
                encoded.param_encoding.data@,
                encoded.param_encoding.ref_idx as nat,
                typed::param_views(ref_params@),
            ),
    {
        let mut params: Vec<TypedParam> = Vec::new();
        let data: &[u8] = &encoded.param_encoding.data;
        let total: usize = data.len();
        assert(typed::param_views(params@) =~= Seq::<ParamView>::empty());
        if total < 4 {
            return params;
        }
        let count: u64 = bytes::read_le(data, 0, 4);
        let mut left: u64 = count;
        let mut off: usize = 4;
        if encoded.param_encoding.ref_idx == 0 {
            let ghost whole = plain_from(data@, 4, count as nat);
            assert(typed::param_views(params@) + whole =~= whole);
            let mut more: bool = true;
            while left > 0 && more
                invariant
                    total == data@.len(),
                    off <= total,
                    whole == plain_from(data@, 4, count as nat),
                    more ==> typed::param_views(params@) + plain_from(
                        data@,
                        off as nat,
                        left as nat,
                    ) == whole,
                    !more ==> typed::param_views(params@) == whole,
                decreases left + (if more {
                    1int
                } else {
                    0int
                }),
            {
                let ghost pv = typed::param_views(params@);
                assert(!(total - off < 5) || pv + Seq::<ParamView>::empty() =~= pv);
                if total - off < 5 {
                    more = false;
                } else {
                    proof {
                        bytes::lemma_pow256();
                    }
                    let len: usize = bytes::read_le(data, off + 1, 4) as usize;
                    if total - off - 5 < len {
                        assert(pv + Seq::<ParamView>::empty() =~= pv);
                        more = false;
                    } else {
                        let p: TypedParam = TypedParam {
                            ty: kind_of_code(data[off]),
                            bytes: vstd::slice::slice_to_vec(
                                vstd::slice::slice_subrange(data, off + 5, off + 5 + len),
                            ),
                        };
                        let ghost v = p@;
                        params.push(p);
                        assert(typed::param_views(params@) =~= pv.push(v));
                        off = off + 5 + len;
                        left -= 1;
                        assert(typed::param_views(params@) + plain_from(
                            data@,
                            off as nat,
                            left as nat,
                        ) =~= pv + (seq![v] + plain_from(data@, off as nat, left as nat)));
                    }
                }
            }
            assert(typed::param_views(params@) + Seq::<ParamView>::empty()
                =~= typed::param_views(params@));
            return params;
        }
        let ghost refs = typed::param_views(ref_params@);
        let ghost whole = diff_from(data@, 4, refs, 0, count as nat);
        assert(typed::param_views(params@) + whole =~= whole);
        let mut i: usize = 0;
        while left > 0 && off < total
            invariant
                total == data@.len(),
                off <= total,
                i <= off,
                refs == typed::param_views(ref_params@),
                diffs_well_formed(data@, off as nat, left as nat),
                typed::param_views(params@) + diff_from(
                    data@,
                    off as nat,
                    refs,
                    i as nat,
                    left as nat,
                ) == whole,
            decreases left,
        {
            let ghost pv = typed::param_views(params@);
            let d: &[u8] = vstd::slice::slice_subrange(data, off + 1, total);
            assert(d@ =~= data@.skip(off + 1));
            let empty: Vec<u8> = Vec::new();
            let base: &[u8] = if i < ref_params.len() {
                &ref_params[i].bytes
            } else {
                &empty
            };
            assert(base@ =~= base_bytes(refs, i as nat));
            let used: usize = xor_size(d);
            let (decoded, _used) = TemplateExtractor::decode_xor_param_bytes(d, base);
            let p: TypedParam = TypedParam { ty: kind_of_code(data[off]), bytes: decoded };
            let ghost v = p@;
            params.push(p);
            assert(typed::param_views(params@) =~= pv.push(v));
            off = off + 1 + used;
            i += 1;
            left -= 1;
            assert(typed::param_views(params@) + diff_from(
                data@,
                off as nat,
                refs,
                i as nat,
                left as nat,
            ) =~= pv + (seq![v] + diff_from(data@, off as nat, refs, i as nat, left as nat)));
        }
        assert(typed::param_views(params@) + Seq::<ParamView>::empty() =~= typed::param_views(
            params@,
        ));
        params
    }
}

// ---------- round trip ----------

/// The suffix of a row's plain encoding from parameter `k` on is read back.
proof fn lemma_plain_back(data: Seq<u8>, row: Seq<ParamView>, k: nat)
    requires
        k <= row.len(),
        forall|j: int| 0 <= j < row.len() ==> (#[trigger] row[j]).bytes.len() < 0x1_0000_0000,
        data.len() >= 4,
        data.skip(4) == plain_bytes(row, row.len()),
    ensures
        plain_bytes(row, k).len() <= plain_bytes(row, row.len()).len(),
        plain_bytes(row, row.len()).take(plain_bytes(row, k).len() as int) == plain_bytes(row, k),
        plain_from(data, 4 + plain_bytes(row, k).len(), (row.len() - k) as nat) == row.skip(
            k as int,
        ),
    decreases row.len() - k,
{
    let whole: Seq<u8> = plain_bytes(row, row.len());
    let head: Seq<u8> = plain_bytes(row, k);
    if k == row.len() {
        assert(whole.take(whole.len() as int) =~= whole);
        assert(row.skip(k as int) =~= Seq::<ParamView>::empty());
    } else {
        lemma_plain_back(data, row, k + 1);
        let p: ParamView = row[k as int];
        let piece: Seq<u8> = seq![typed::type_code(p.ty)] + bytes::le_bytes(p.bytes.len(), 4)
            + p.bytes;
        let next: Seq<u8> = plain_bytes(row, k + 1);
        assert(next =~= head + piece);
        assert(whole.take(head.len() as int) =~= next.take(head.len() as int)) by {
            assert(whole.take(head.len() as int) =~= whole.take(next.len() as int).take(
                head.len() as int,
            ));
        }
        assert(next.take(head.len() as int) =~= head);
        bytes::lemma_pow256();
        bytes::lemma_le_value_of_bytes(p.bytes.len(), 4);
        let off: nat = 4 + head.len();
        assert forall|j: int| 0 <= j < piece.len() implies data[off + j] == piece[j] by {
            assert(data.skip(4)[head.len() + j] == data[off + j]);
            assert(whole.take(next.len() as int)[head.len() + j] == next[head.len() + j]);
        }
        assert(bytes::window(data, off, piece.len()) =~= piece);
        bytes::lemma_window_sub(data, off, piece.len(), 1, 4);
        bytes::lemma_window_sub(data, off, piece.len(), 5, p.bytes.len());
        assert(piece.subrange(1, 5) =~= bytes::le_bytes(p.bytes.len(), 4));
        assert(piece.subrange(5, (5 + p.bytes.len()) as int) =~= p.bytes);
        assert(data[off as int] == piece[0]);
        assert(row.skip(k as int) =~= seq![p] + row.skip((k + 1) as int));
    }
}

proof fn lemma_diff_back(data: Seq<u8>, row: Seq<ParamView>, refs: Seq<ParamView>, k: nat)
    requires
        k <= row.len(),
        row.len() == refs.len(),
        forall|j: int| 0 <= j < row.len() ==> diff_fits(#[trigger] row[j], refs[j]),
        data.len() >= 4,
        data.skip(4) == diff_bytes(row, refs, row.len()),
    ensures
        diff_bytes(row, refs, k).len() <= diff_bytes(row, refs, row.len()).len(),
        diff_bytes(row, refs, row.len()).take(diff_bytes(row, refs, k).len() as int) == diff_bytes(
            row,
            refs,
            k,
        ),
        diffs_well_formed(data, 4 + diff_bytes(row, refs, k).len(), (row.len() - k) as nat),
        diff_from(
            data,
            4 + diff_bytes(row, refs, k).len(),
            refs,
            k,
            (row.len() - k) as nat,
        ) == row.skip(k as int),
    decreases row.len() - k,
{
    let whole: Seq<u8> = diff_bytes(row, refs, row.len());
    let head: Seq<u8> = diff_bytes(row, refs, k);
    if k == row.len() {
        assert(whole.take(whole.len() as int) =~= whole);
        assert(row.skip(k as int) =~= Seq::<ParamView>::empty());
    } else {
        lemma_diff_back(data, row, refs, k + 1);
        let p: ParamView = row[k as int];
        let base: Seq<u8> = refs[k as int].bytes;
        let enc: Seq<u8> = xor::xor_encoding(p.bytes, base);
        let piece: Seq<u8> = seq![typed::type_code(p.ty)] + enc;
        let next: Seq<u8> = diff_bytes(row, refs, k + 1);
        assert(next =~= head + piece);
        assert(whole.take(head.len() as int) =~= next.take(head.len() as int)) by {
            assert(whole.take(head.len() as int) =~= whole.take(next.len() as int).take(
                head.len() as int,
            ));
        }
        assert(next.take(head.len() as int) =~= head);
        let off: nat = 4 + head.len();
        assert forall|j: int| 0 <= j < piece.len() implies data[off + j] == piece[j] by {
            assert(data.skip(4)[head.len() + j] == data[off + j]);
            assert(whole.take(next.len() as int)[head.len() + j] == next[head.len() + j]);
        }
        assert(data[off as int] == piece[0]);
        let d: Seq<u8> = data.skip((off + 1) as int);
        let rest: Seq<u8> = d.skip(enc.len() as int);
        assert forall|j: int| 0 <= j < enc.len() implies d[j] == enc[j] by {
            assert(data[off + (j + 1)] == piece[j + 1]);
        }
        assert(d =~= enc + rest);
        assert(diff_fits(p, refs[k as int]));
        xor::law_xor_roundtrip(p.bytes, base, rest);
        assert(off + 1 + enc.len() == 4 + next.len());
        assert(row.skip(k as int) =~= seq![p] + row.skip((k + 1) as int));
    }
}

/// A parameter whose difference from `base` fits the fields of an encoding.
pub open spec fn diff_fits(p: ParamView, base: ParamView) -> bool {
    p.bytes.len() <= 0xffff && xor::word_count(p.bytes, base.bytes) <= 0xffff
}

/// The parameters of row `i` fit the fields of their encoding.
pub open spec fn row_fits(ps: Seq<Seq<ParamView>>, reset: nat, i: nat) -> bool {
    let row: Seq<ParamView> = ps[i as int];
    let r: nat = ref_row(ps, reset, i);
    &&& row.len() < 0x1_0000_0000
    &&& forall|j: int| 0 <= j < row.len() ==> (#[trigger] row[j]).bytes.len() < 0x1_0000_0000
    &&& r < i ==> forall|j: int|
        0 <= j < row.len() ==> diff_fits(#[trigger] row[j], ps[r as int][j])
}

/// Decoding a row with the parameters of its reference row gives its
/// parameters back.
pub proof fn law_encode_xor_roundtrip(ps: Seq<Seq<ParamView>>, reset: nat, i: nat)
    requires
        0 < reset <= 0x1_0000,
        i < ps.len(),
        row_fits(ps, reset, i),
    ensures
        ({
            let back: nat = (i - ref_row(ps, reset, i)) as nat % 0x1_0000;
            let refs: Seq<ParamView> = ps[ref_row(ps, reset, i) as int];
            &&& row_well_formed(row_bytes(ps, reset, i), back)
            &&& row_decoding(row_bytes(ps, reset, i), back, refs) == ps[i as int]
        }),
{
    let row: Seq<ParamView> = ps[i as int];
    let r: nat = ref_row(ps, reset, i);
    let data: Seq<u8> = row_bytes(ps, reset, i);
    lemma_ref_row(ps, reset, i);
    assert(i % reset < reset) by (nonlinear_arith)
        requires
            reset > 0,
    ;
    bytes::lemma_pow256();
    bytes::lemma_le_value_of_bytes(row.len(), 4);
    assert(data.subrange(0, 4) =~= bytes::le_bytes(row.len(), 4));
    assert(row.skip(0) =~= row);
    if r == i {
        assert(data.skip(4) =~= plain_bytes(row, row.len()));
        lemma_plain_back(data, row, 0);
    } else {
        assert(data.skip(4) =~= diff_bytes(row, ps[r as int], row.len()));
        lemma_diff_back(data, row, ps[r as int], 0);
    }
}

} // verus!
