//! Templates: fixed text and parameter slots, their byte form and rendering.

use crate::shared::bytes;
use crate::shared::error::DataError;
use crate::shared::text;
use vstd::prelude::*;
use vstd::string::*;
use vstd::utf8::*;

verus! {

/// A piece of a template.
#[derive(Debug, PartialEq, Eq)]
pub enum TemplatePart {
    /// Fixed text.
    Literal(String),
    /// A slot for a parameter.
    Param,
}

/// What a piece of a template is.
pub enum PartView {
    Literal(Seq<char>),
    Param,
}

impl View for TemplatePart {
    type V = PartView;

    open spec fn view(&self) -> PartView {
        match self {
            TemplatePart::Literal(s) => PartView::Literal(s@),
            TemplatePart::Param => PartView::Param,
        }
    }
}

impl Clone for TemplatePart {
    fn clone(&self) -> (r: Self)
        ensures
            r@ == self@,
    {
        match self {
            TemplatePart::Literal(s) => TemplatePart::Literal(s.clone()),
            TemplatePart::Param => TemplatePart::Param,
        }
    }
}

/// What a list of pieces is.
pub open spec fn part_views(parts: Seq<TemplatePart>) -> Seq<PartView> {
    Seq::new(parts.len(), |i: int| parts[i]@)
}

/// A template.
#[derive(Debug)]
pub struct Template {
    pub id: u16,
    pub parts: Vec<TemplatePart>,
}

impl Clone for Template {
    fn clone(&self) -> (r: Self)
        ensures
            r.id == self.id,
            part_views(r.parts@) == part_views(self.parts@),
    {
        let mut parts: Vec<TemplatePart> = Vec::new();
        let mut i: usize = 0;
        while i < self.parts.len()
            invariant
                i <= self.parts@.len(),
                parts@.len() == i,
                forall|k: int| 0 <= k < i ==> (#[trigger] parts@[k])@ == self.parts@[k]@,
            decreases self.parts@.len() - i,
        {
            parts.push(self.parts[i].clone());
            i += 1;
        }
        assert(part_views(parts@) =~= part_views(self.parts@));
        Template { id: self.id, parts }
    }
}

/// The pieces of a list of templates.
pub open spec fn template_views(ts: Seq<Template>) -> Seq<Seq<PartView>> {
    Seq::new(ts.len(), |i: int| part_views(ts[i].parts@))
}

// ---------- rendering ----------

/// How many slots stand before position `n`.
pub open spec fn slots_before(parts: Seq<PartView>, n: nat) -> nat
    decreases n,
{
    if n == 0 {
        0
    } else {
        slots_before(parts, (n - 1) as nat) + (if parts[n - 1] is Param {
            1nat
        } else {
            0nat
        })
    }
}

/// The text of a piece, with the given parameter texts. A slot without a
/// parameter gives `filler`.
pub open spec fn piece_text(
    parts: Seq<PartView>,
    params: Seq<Seq<char>>,
    filler: Seq<char>,
    i: nat,
) -> Seq<char> {
    match parts[i as int] {
        PartView::Literal(s) => s,
        PartView::Param => {
            let k: nat = slots_before(parts, i);
            if k < params.len() {
                params[k as int]
            } else {
                filler
            }
        },
    }
}

/// The text of the first `n` pieces.
pub open spec fn render_upto(
    parts: Seq<PartView>,
    params: Seq<Seq<char>>,
    filler: Seq<char>,
    n: nat,
) -> Seq<char>
    decreases n,
{
    if n == 0 {
        Seq::empty()
    } else {
        render_upto(parts, params, filler, (n - 1) as nat) + piece_text(
            parts,
            params,
            filler,
            (n - 1) as nat,
        )
    }
}

/// The text of a template with the given parameter texts.
pub open spec fn render(
    parts: Seq<PartView>,
    params: Seq<Seq<char>>,
    filler: Seq<char>,
) -> Seq<char> {
    render_upto(parts, params, filler, parts.len())
}

/// Texts with a space between them.
pub open spec fn joined(params: Seq<Seq<char>>) -> Seq<char>
    decreases params.len(),
{
    if params.len() == 0 {
        Seq::empty()
    } else if params.len() == 1 {
        params[0]
    } else {
        joined(params.drop_last()) + seq![' '] + params.last()
    }
}

/// The message of a record: its template with its parameters, or the
/// parameters alone where there is no such template.
pub open spec fn record_text(
    templates: Seq<Seq<PartView>>,
    pat_id: nat,
    params: Seq<Seq<char>>,
    filler: Seq<char>,
) -> Seq<char> {
    if pat_id < templates.len() {
        render(templates[pat_id as int], params, filler)
    } else {
        joined(params)
    }
}

/// The text of a template with the given parameter texts.
pub fn render_template(parts: &[TemplatePart], params: &[String], filler: &str) -> (r: String)
    ensures
        r@ == render(part_views(parts@), text::texts(params@), filler@),
{
    let mut out: String = String::new();
    let mut used: usize = 0;
    let mut i: usize = 0;
    let ghost pv = part_views(parts@);
    let ghost tv = text::texts(params@);
    while i < parts.len()
        invariant
            i <= parts@.len(),
            pv == part_views(parts@),
            tv == text::texts(params@),
            used == if slots_before(pv, i as nat) <= params@.len() {
                slots_before(pv, i as nat)
            } else {
                params@.len()
            },
            out@ == render_upto(pv, tv, filler@, i as nat),
        decreases parts@.len() - i,
    {
        assert(pv[i as int] == parts@[i as int]@);
        match &parts[i] {
            TemplatePart::Literal(s) => {
                out.append(s.as_str());
            },
            TemplatePart::Param => {
                if used < params.len() {
                    assert(tv[used as int] == params@[used as int]@);
                    out.append(params[used].as_str());
                    used += 1;
                } else {
                    out.append(filler);
                }
            },
        }
        i += 1;
    }
    out
}

/// Texts with a space between them.
pub fn join_texts(params: &[String]) -> (r: String)
    ensures
        r@ == joined(text::texts(params@)),
{
    let mut out: String = String::new();
    let mut i: usize = 0;
    let ghost tv = text::texts(params@);
    assert(tv.take(0) =~= Seq::<Seq<char>>::empty());
    while i < params.len()
        invariant
            i <= params@.len(),
            tv == text::texts(params@),
            out@ == joined(tv.take(i as int)),
        decreases params@.len() - i,
    {
        let ghost next = tv.take(i + 1);
        assert(next.drop_last() =~= tv.take(i as int));
        assert(next.last() == params@[i as int]@);
        if i > 0 {
            out.append(" ");
            proof {
                reveal_strlit(" ");
                assert(" "@ =~= seq![' ']);
            }
        }
        out.append(params[i].as_str());
        assert(i == 0 ==> out@ =~= next[0]);
        i += 1;
    }
    assert(tv.take(i as int) =~= tv);
    out
}

// ---------- bytes ----------

/// The bytes of a piece: tag 1, length and text, or tag 2 for a slot.
pub open spec fn part_bytes(p: PartView) -> Seq<u8> {
    match p {
        PartView::Literal(s) => seq![1u8] + bytes::le_bytes(encode_utf8(s).len(), 4)
            + encode_utf8(s),
        PartView::Param => seq![2u8],
    }
}

/// The bytes of the first `n` pieces.
pub open spec fn parts_bytes(parts: Seq<PartView>, n: nat) -> Seq<u8>
    decreases n,
{
    if n == 0 {
        Seq::empty()
    } else {
        parts_bytes(parts, (n - 1) as nat) + part_bytes(parts[n - 1])
    }
}

/// The bytes of a template: how many pieces, then the pieces.
pub open spec fn template_bytes(parts: Seq<PartView>) -> Seq<u8> {
    bytes::le_bytes(parts.len(), 2) + parts_bytes(parts, parts.len())
}

/// The bytes of the first `n` templates.
pub open spec fn templates_bytes(ts: Seq<Seq<PartView>>, n: nat) -> Seq<u8>
    decreases n,
{
    if n == 0 {
        Seq::empty()
    } else {
        templates_bytes(ts, (n - 1) as nat) + template_bytes(ts[n - 1])
    }
}

/// The bytes of a pattern table: how many templates, then the templates.
pub open spec fn table_bytes(ts: Seq<Seq<PartView>>) -> Seq<u8> {
    bytes::le_bytes(ts.len(), 2) + templates_bytes(ts, ts.len())
}

/// A template whose counts and lengths fit their fields.
pub open spec fn template_fits(parts: Seq<PartView>) -> bool {
    &&& parts.len() <= 0xffff
    &&& forall|i: int|
        0 <= i < parts.len() ==> match #[trigger] parts[i] {
            PartView::Literal(s) => encode_utf8(s).len() < 0x1_0000_0000,
            PartView::Param => true,
        }
}

/// Templates whose counts and lengths fit their fields.
pub open spec fn table_fits(ts: Seq<Seq<PartView>>) -> bool {
    &&& ts.len() <= 0xffff
    &&& forall|i: int| 0 <= i < ts.len() ==> template_fits(#[trigger] ts[i])
}

/// Reads the piece at `off`: the piece and the offset behind it.
pub open spec fn read_part(data: Seq<u8>, off: nat) -> Result<(PartView, nat), DataError> {
    if off >= data.len() {
        Err(DataError::PartTagMissing)
    } else if data[off as int] == 1 {
        if off + 5 > data.len() {
            Err(DataError::LiteralLenMissing)
        } else {
            let n: nat = bytes::le_value(bytes::window(data, off + 1, 4));
            if off + 5 + n > data.len() {
                Err(DataError::LiteralTruncated)
            } else {
                Ok(
                    (
                        PartView::Literal(
                            text::lossy_text(bytes::window(data, off + 5, n)),
                        ),
                        off + 5 + n,
                    ),
                )
            }
        }
    } else if data[off as int] == 2 {
        Ok((PartView::Param, off + 1))
    } else {
        Err(DataError::UnknownPartTag)
    }
}

/// Reads `n` pieces from `off` on.
pub open spec fn read_parts(data: Seq<u8>, off: nat, n: nat) -> Result<
    (Seq<PartView>, nat),
    DataError,
>
    decreases n,
{
    if n == 0 {
        Ok((Seq::empty(), off))
    } else {
        match read_parts(data, off, (n - 1) as nat) {
            Err(e) => Err(e),
            Ok((ps, o)) => match read_part(data, o) {
                Err(e) => Err(e),
                Ok((p, o2)) => Ok((ps.push(p), o2)),
            },
        }
    }
}

/// Reads the template at the front: its pieces and how many bytes it takes.
pub open spec fn read_template(data: Seq<u8>) -> Result<(Seq<PartView>, nat), DataError> {
    if data.len() < 2 {
        Err(DataError::TemplateTooShort)
    } else {
        read_parts(data, 2, bytes::le_value(data.subrange(0, 2)))
    }
}

/// Reads `n` templates of a pattern table.
pub open spec fn read_templates(data: Seq<u8>, n: nat) -> Result<
    (Seq<Seq<PartView>>, nat),
    DataError,
>
    decreases n,
{
    if n == 0 {
        Ok((Seq::empty(), 2))
    } else {
        match read_templates(data, (n - 1) as nat) {
            Err(e) => Err(e),
            Ok((ts, o)) => match read_template(data.skip(o as int)) {
                Err(e) => Err(e),
                Ok((t, used)) => Ok((ts.push(t), o + used)),
            },
        }
    }
}

/// Reads a pattern table. Fewer than two bytes are an empty table.
pub open spec fn read_table(data: Seq<u8>) -> Result<Seq<Seq<PartView>>, DataError> {
    if data.len() < 2 {
        Ok(Seq::empty())
    } else {
        match read_templates(data, bytes::le_value(data.subrange(0, 2))) {
            Err(e) => Err(e),
            Ok((ts, _o)) => Ok(ts),
        }
    }
}

proof fn lemma_read_parts_error(data: Seq<u8>, off: nat, k: nat, n: nat)
    requires
        k <= n,
        read_parts(data, off, k) is Err,
    ensures
        read_parts(data, off, n) == read_parts(data, off, k),
    decreases n,
{
    if k < n {
        lemma_read_parts_error(data, off, k, (n - 1) as nat);
    }
}

proof fn lemma_read_templates_error(data: Seq<u8>, k: nat, n: nat)
    requires
        k <= n,
        read_templates(data, k) is Err,
    ensures
        read_templates(data, n) == read_templates(data, k),
    decreases n,
{
    if k < n {
        lemma_read_templates_error(data, k, (n - 1) as nat);
    }
}

/// A piece is read back from its bytes wherever they stand.
pub proof fn lemma_read_part_back(data: Seq<u8>, off: nat, p: PartView)
    requires
        off + part_bytes(p).len() <= data.len(),
        data.subrange(off as int, (off + part_bytes(p).len()) as int) == part_bytes(p),
        match p {
            PartView::Literal(s) => encode_utf8(s).len() < 0x1_0000_0000,
            PartView::Param => true,
        },
    ensures
        read_part(data, off) == Ok::<(PartView, nat), DataError>((p, off + part_bytes(p).len())),
{
    let b: Seq<u8> = part_bytes(p);
    let d: Seq<u8> = data.subrange(off as int, (off + b.len()) as int);
    match p {
        PartView::Literal(s) => {
            let u: Seq<u8> = encode_utf8(s);
            bytes::lemma_pow256();
            bytes::lemma_le_value_of_bytes(u.len(), 4);
            assert(d[0] == b[0]);
            assert(bytes::window(data, off + 1, 4) =~= b.subrange(1, 5)) by {
                assert(bytes::window(data, off + 1, 4) =~= d.subrange(1, 5));
            }
            assert(b.subrange(1, 5) =~= bytes::le_bytes(u.len(), 4));
            assert(bytes::window(data, off + 5, u.len()) =~= u) by {
                assert(bytes::window(data, off + 5, u.len()) =~= d.subrange(
                    5,
                    (5 + u.len()) as int,
                ));
                assert(b.subrange(5, (5 + u.len()) as int) =~= u);
            }
            text::lemma_utf8_roundtrip(s);
        },
        PartView::Param => {
            assert(d[0] == b[0]);
        },
    }
}

/// Pieces are read back from their bytes wherever they stand.
pub proof fn lemma_read_parts_back(data: Seq<u8>, off: nat, parts: Seq<PartView>, n: nat)
    requires
        template_fits(parts),
        n <= parts.len(),
        off + parts_bytes(parts, n).len() <= data.len(),
        data.subrange(off as int, (off + parts_bytes(parts, n).len()) as int) == parts_bytes(
            parts,
            n,
        ),
    ensures
        read_parts(data, off, n) == Ok::<(Seq<PartView>, nat), DataError>(
            (parts.take(n as int), off + parts_bytes(parts, n).len()),
        ),
    decreases n,
{
    if n == 0 {
        assert(parts.take(0) =~= Seq::<PartView>::empty());
    } else {
        let m: nat = (n - 1) as nat;
        let head: Seq<u8> = parts_bytes(parts, m);
        let last: Seq<u8> = part_bytes(parts[m as int]);
        let whole: Seq<u8> = parts_bytes(parts, n);
        let d: Seq<u8> = data.subrange(off as int, (off + whole.len()) as int);
        assert(data.subrange(off as int, (off + head.len()) as int) =~= head) by {
            assert(data.subrange(off as int, (off + head.len()) as int) =~= d.subrange(
                0,
                head.len() as int,
            ));
        }
        lemma_read_parts_back(data, off, parts, m);
        let o: nat = off + head.len();
        assert(data.subrange(o as int, (o + last.len()) as int) =~= last) by {
            assert(data.subrange(o as int, (o + last.len()) as int) =~= d.subrange(
                head.len() as int,
                whole.len() as int,
            ));
        }
        lemma_read_part_back(data, o, parts[m as int]);
        assert(parts.take(n as int) =~= parts.take(m as int).push(parts[m as int]));
    }
}

/// A template is read back from its bytes, whatever stands behind them.
pub proof fn law_template_roundtrip(parts: Seq<PartView>, rest: Seq<u8>)
    requires
        template_fits(parts),
    ensures
        read_template(template_bytes(parts) + rest) == Ok::<(Seq<PartView>, nat), DataError>(
            (parts, template_bytes(parts).len()),
        ),
{
    let data: Seq<u8> = template_bytes(parts) + rest;
    let body: Seq<u8> = parts_bytes(parts, parts.len());
    bytes::lemma_pow256();
    bytes::lemma_le_value_of_bytes(parts.len(), 2);
    assert(data.subrange(0, 2) =~= bytes::le_bytes(parts.len(), 2));
    assert(data.subrange(2, (2 + body.len()) as int) =~= body);
    lemma_read_parts_back(data, 2, parts, parts.len());
    assert(parts.take(parts.len() as int) =~= parts);
}

proof fn lemma_read_templates_back(data: Seq<u8>, ts: Seq<Seq<PartView>>, n: nat)
    requires
        table_fits(ts),
        n <= ts.len(),
        2 + templates_bytes(ts, n).len() <= data.len(),
        data.subrange(2, (2 + templates_bytes(ts, n).len()) as int) == templates_bytes(ts, n),
    ensures
        read_templates(data, n) == Ok::<(Seq<Seq<PartView>>, nat), DataError>(
            (ts.take(n as int), 2 + templates_bytes(ts, n).len()),
        ),
    decreases n,
{
    if n == 0 {
        assert(ts.take(0) =~= Seq::<Seq<PartView>>::empty());
    } else {
        let m: nat = (n - 1) as nat;
        let head: Seq<u8> = templates_bytes(ts, m);
        let last: Seq<u8> = template_bytes(ts[m as int]);
        let whole: Seq<u8> = templates_bytes(ts, n);
        let d: Seq<u8> = data.subrange(2, (2 + whole.len()) as int);
        assert(data.subrange(2, (2 + head.len()) as int) =~= head) by {
            assert(data.subrange(2, (2 + head.len()) as int) =~= d.subrange(0, head.len() as int));
        }
        lemma_read_templates_back(data, ts, m);
        let o: nat = 2 + head.len();
        let tail: Seq<u8> = data.skip(o as int);
        assert(tail =~= last + tail.skip(last.len() as int)) by {
            assert(tail.take(last.len() as int) =~= d.subrange(
                head.len() as int,
                whole.len() as int,
            ));
            assert(d.subrange(head.len() as int, whole.len() as int) =~= last);
        }
        law_template_roundtrip(ts[m as int], tail.skip(last.len() as int));
        assert(ts.take(n as int) =~= ts.take(m as int).push(ts[m as int]));
    }
}

/// A pattern table is read back from its bytes, whatever stands behind them.
pub proof fn law_pattern_table_roundtrip(ts: Seq<Seq<PartView>>, rest: Seq<u8>)
    requires
        table_fits(ts),
    ensures
        read_table(table_bytes(ts) + rest) == Ok::<Seq<Seq<PartView>>, DataError>(ts),
{
    let data: Seq<u8> = table_bytes(ts) + rest;
    let body: Seq<u8> = templates_bytes(ts, ts.len());
    bytes::lemma_pow256();
    bytes::lemma_le_value_of_bytes(ts.len(), 2);
    assert(data.subrange(0, 2) =~= bytes::le_bytes(ts.len(), 2));
    assert(data.subrange(2, (2 + body.len()) as int) =~= body);
    lemma_read_templates_back(data, ts, ts.len());
    assert(ts.take(ts.len() as int) =~= ts);
}

impl Template {
    /// The bytes of the template.
    pub fn serialize(&self) -> (r: Vec<u8>)
        ensures
            r@ == template_bytes(part_views(self.parts@)),
    {
        let mut buf: Vec<u8> = Vec::new();
        let ghost pv = part_views(self.parts@);
        bytes::push_le(&mut buf, self.parts.len() as u64, 2);
        let ghost head = buf@;
        let mut i: usize = 0;
        assert(buf@ =~= head + parts_bytes(pv, 0));
        while i < self.parts.len()
            invariant
                i <= self.parts@.len(),
                pv == part_views(self.parts@),
                buf@ == head + parts_bytes(pv, i as nat),
            decreases self.parts@.len() - i,
        {
            assert(pv[i as int] == self.parts@[i as int]@);
            let ghost before = buf@;
            match &self.parts[i] {
                TemplatePart::Literal(s) => {
                    let u: &[u8] = s.as_str().as_bytes();
                    buf.push(1u8);
                    bytes::push_le(&mut buf, u.len() as u64, 4);
                    bytes::push_bytes(&mut buf, u);
                },
                TemplatePart::Param => {
                    buf.push(2u8);
                },
            }
            assert(buf@ =~= before + part_bytes(pv[i as int]));
            assert(buf@ =~= head + parts_bytes(pv, (i + 1) as nat));
            i += 1;
        }
        assert(buf@ =~= template_bytes(pv));
        buf
    }

    /// Reads the template at the front of `data`; gives it and how many bytes
    /// it takes.
    pub fn deserialize(data: &[u8]) -> (r: Result<(Self, usize), DataError>)
        ensures
            match r {
                Ok((t, used)) => t.id == 0 && read_template(data@) == Ok::<
                    (Seq<PartView>, nat),
                    DataError,
                >((part_views(t.parts@), used as nat)) && used <= data@.len(),
                Err(e) => read_template(data@) == Err::<(Seq<PartView>, nat), DataError>(e),
            },
    {
        let total: usize = data.len();
        if total < 2 {
            return Err(DataError::TemplateTooShort);
        }
        let count: usize = bytes::read_le(data, 0, 2) as usize;
        proof {
            bytes::lemma_pow256();
        }
        let mut parts: Vec<TemplatePart> = Vec::new();
        let mut off: usize = 2;
        let mut i: usize = 0;
        assert(part_views(parts@) =~= Seq::<PartView>::empty());
        while i < count
            invariant
                i <= count,
                total == data@.len(),
                2 <= total,
                off <= total,
                count == bytes::le_value(data@.subrange(0, 2)),
                read_parts(data@, 2, i as nat) == Ok::<(Seq<PartView>, nat), DataError>(
                    (part_views(parts@), off as nat),
                ),
            decreases count - i,
        {
            let ghost pv = part_views(parts@);
            let err: DataError;
            if off >= total {
                err = DataError::PartTagMissing;
            } else if data[off] == 1 {
                if total - off < 5 {
                    err = DataError::LiteralLenMissing;
                } else {
                    let n: usize = bytes::read_le(data, off + 1, 4) as usize;
                    proof {
                        bytes::lemma_pow256();
                    }
                    if total - off - 5 < n {
                        err = DataError::LiteralTruncated;
                    } else {
                        let body: &[u8] = vstd::slice::slice_subrange(data, off + 5, off + 5 + n);
                        let s: String = text::lossy_string(body);
                        parts.push(TemplatePart::Literal(s));
                        off = off + 5 + n;
                        assert(part_views(parts@) =~= pv.push(PartView::Literal(s@)));
                        i += 1;
                        continue;
                    }
                }
            } else if data[off] == 2 {
                parts.push(TemplatePart::Param);
                off += 1;
                assert(part_views(parts@) =~= pv.push(PartView::Param));
                i += 1;
                continue;
            } else {
                err = DataError::UnknownPartTag;
            }
            proof {
                assert(read_parts(data@, 2, (i + 1) as nat) == Err::<
                    (Seq<PartView>, nat),
                    DataError,
                >(err));
                lemma_read_parts_error(data@, 2, (i + 1) as nat, count as nat);
            }
            return Err(err);
        }
        Ok((Template { id: 0, parts }, off))
    }
}

/// The bytes of a pattern table.
pub fn serialize_table(templates: &[Template]) -> (r: Vec<u8>)
    ensures
        r@ == table_bytes(template_views(templates@)),
{
    let mut buf: Vec<u8> = Vec::new();
    let ghost tv = template_views(templates@);
    bytes::push_le(&mut buf, templates.len() as u64, 2);
    let ghost head = buf@;
    let mut i: usize = 0;
    assert(buf@ =~= head + templates_bytes(tv, 0));
    while i < templates.len()
        invariant
            i <= templates@.len(),
            tv == template_views(templates@),
            buf@ == head + templates_bytes(tv, i as nat),
        decreases templates@.len() - i,
    {
        let part: Vec<u8> = templates[i].serialize();
        bytes::push_bytes(&mut buf, &part);
        assert(tv[i as int] == part_views(templates@[i as int].parts@));
        assert(buf@ =~= head + templates_bytes(tv, (i + 1) as nat));
        i += 1;
    }
    assert(buf@ =~= table_bytes(tv));
    buf
}

/// Reads a pattern table.
pub fn deserialize_table(data: &[u8]) -> (r: Result<Vec<Template>, DataError>)
    ensures
        match r {
            Ok(ts) => read_table(data@) == Ok::<Seq<Seq<PartView>>, DataError>(
                template_views(ts@),
            ) && forall|i: int| 0 <= i < ts@.len() ==> (#[trigger] ts@[i]).id == i,
            Err(e) => read_table(data@) == Err::<Seq<Seq<PartView>>, DataError>(e),
        },
{
    let total: usize = data.len();
    let mut templates: Vec<Template> = Vec::new();
    assert(template_views(templates@) =~= Seq::<Seq<PartView>>::empty());
    if total < 2 {
        return Ok(templates);
    }
    let count: usize = bytes::read_le(data, 0, 2) as usize;
    proof {
        bytes::lemma_pow256();
    }
    let mut off: usize = 2;
    let mut i: usize = 0;
    while i < count
        invariant
            i <= count,
            count <= 0xffff,
            total == data@.len(),
            2 <= total,
            off <= total,
            templates@.len() == i,
            count == bytes::le_value(data@.subrange(0, 2)),
            forall|k: int| 0 <= k < i ==> (#[trigger] templates@[k]).id == k,
            read_templates(data@, i as nat) == Ok::<(Seq<Seq<PartView>>, nat), DataError>(
                (template_views(templates@), off as nat),
            ),
        decreases count - i,
    {
        let rest: &[u8] = vstd::slice::slice_subrange(data, off, total);
        assert(rest@ =~= data@.skip(off as int));
        let ghost tv = template_views(templates@);
        match Template::deserialize(rest) {
            Ok((t, used)) => {
                let ghost pv = part_views(t.parts@);
                templates.push(Template { id: i as u16, parts: t.parts });
                off = off + used;
                assert(template_views(templates@) =~= tv.push(pv));
            },
            Err(e) => {
                proof {
                    lemma_read_templates_error(data@, (i + 1) as nat, count as nat);
                }
                return Err(e);
            },
        }
        i += 1;
    }
    Ok(templates)
}

} // verus!
