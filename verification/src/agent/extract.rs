//! Template extraction: finding what the messages of a batch have in common.

use crate::agent::parts;
use crate::agent::parts::{PartView, Template, TemplatePart};
use crate::agent::records::{TemplateBatch, TemplateRecord};
use crate::agent::template::TemplateExtractor;
use crate::agent::tokens;
use crate::agent::typed;
use crate::agent::typed::{ParamView, TypedParam};
use crate::shared::log;
use crate::shared::log::{LogLine, LogView};
use crate::shared::text;
use vstd::prelude::*;

verus! {

/// The tokens of each message of a batch.
pub open spec fn batch_tokens(logs: Seq<LogView>) -> Seq<Seq<Seq<char>>> {
    Seq::new(logs.len(), |i: int| tokens::tokens_of(logs[i].message))
}

/// Messages `i` and `j` have as many tokens and the same structure.
pub open spec fn same_group(toks: Seq<Seq<Seq<char>>>, i: int, j: int) -> bool {
    toks[i].len() == toks[j].len() && tokens::signature(toks[i]) == tokens::signature(toks[j])
}

/// Token `k` is the same in every message of the group of message `i`.
pub open spec fn group_fixed(toks: Seq<Seq<Seq<char>>>, i: int, k: int) -> bool {
    forall|j: int|
        0 <= j < toks.len() && same_group(toks, i, j) ==> #[trigger] toks[j][k] == toks[i][k]
}

/// Which tokens are the same throughout the group of message `i`.
pub open spec fn group_mask(toks: Seq<Seq<Seq<char>>>, i: int) -> Seq<bool> {
    Seq::new(toks[i].len(), |k: int| group_fixed(toks, i, k))
}

/// How many are true.
pub open spec fn count_true(b: Seq<bool>) -> nat
    decreases b.len(),
{
    if b.len() == 0 {
        0
    } else {
        count_true(b.drop_last()) + (if b.last() {
            1nat
        } else {
            0nat
        })
    }
}

/// Too few tokens are the same: fewer than two, or than a quarter.
pub open spec fn too_few(b: Seq<bool>) -> bool {
    count_true(b) < 2 || count_true(b) < b.len() / 4
}

/// Messages `i` and `j` share a template. A group with too little in common is
/// split by the types of its leading tokens.
pub open spec fn same_class(toks: Seq<Seq<Seq<char>>>, i: int, j: int) -> bool {
    &&& same_group(toks, i, j)
    &&& too_few(group_mask(toks, i)) ==> tokens::leading_classes(toks[i], 3)
        == tokens::leading_classes(toks[j], 3)
}

/// Token `k` is the same in every message that shares the template of message
/// `i`.
pub open spec fn class_fixed(toks: Seq<Seq<Seq<char>>>, i: int, k: int) -> bool {
    forall|j: int|
        0 <= j < toks.len() && same_class(toks, i, j) ==> #[trigger] toks[j][k] == toks[i][k]
}

/// The template of message `i`: the common tokens as text, slots elsewhere.
pub open spec fn template_of(toks: Seq<Seq<Seq<char>>>, i: int) -> Seq<PartView> {
    Seq::new(
        toks[i].len(),
        |k: int|
            if class_fixed(toks, i, k) {
                PartView::Literal(toks[i][k])
            } else {
                PartView::Param
            },
    )
}

/// The texts of the first `n` tokens that stand in slots.
pub open spec fn slot_texts(
    ts: Seq<Seq<char>>,
    template: Seq<PartView>,
    n: nat,
) -> Seq<Seq<char>>
    decreases n,
{
    if n == 0 {
        Seq::empty()
    } else if template[n - 1] is Param {
        slot_texts(ts, template, (n - 1) as nat).push(ts[n - 1])
    } else {
        slot_texts(ts, template, (n - 1) as nat)
    }
}

/// The parameter texts of message `i`.
pub open spec fn params_of(toks: Seq<Seq<Seq<char>>>, i: int) -> Seq<Seq<char>> {
    slot_texts(toks[i], template_of(toks, i), toks[i].len())
}

/// The time of message `i` since the one before, as a 64-bit pattern; of the
/// first message, the time itself.
pub open spec fn time_step(logs: Seq<LogView>, i: int) -> u64 {
    if i == 0 {
        logs[0].ts
    } else {
        logs[i].ts.wrapping_sub(logs[i - 1].ts)
    }
}

/// `p` is the typed form of `s`.
pub open spec fn typed_from(s: Seq<char>, p: ParamView) -> bool {
    p.ty == typed::param_kind(s) && typed::encodes(p.ty, s, p.bytes)
}

/// The parameters are the typed forms of the texts.
pub open spec fn all_typed_from(ss: Seq<Seq<char>>, ps: Seq<ParamView>) -> bool {
    ss.len() == ps.len() && forall|k: int|
        0 <= k < ss.len() ==> typed_from(ss[k], #[trigger] ps[k])
}

/// `rec` is the record of message `i`.
pub open spec fn is_record_of(logs: Seq<LogView>, rec: TemplateRecord, i: int) -> bool {
    &&& rec.original_idx == i
    &&& rec.ts_delta == typed::signed64(time_step(logs, i) as nat)
    &&& rec.svc_id == 0
    &&& rec.level@ == logs[i].level
    &&& all_typed_from(
        params_of(batch_tokens(logs), i),
        typed::param_views(rec.params@),
    )
}

/// The templates and records of a batch.
pub open spec fn is_extraction(logs: Seq<LogView>, r: TemplateBatch) -> bool {
    let toks: Seq<Seq<Seq<char>>> = batch_tokens(logs);
    let ts: Seq<Seq<PartView>> = parts::template_views(r.templates@);
    &&& r.records@.len() == logs.len()
    &&& forall|i: int| 0 <= i < logs.len() ==> is_record_of(logs, #[trigger] r.records@[i], i)
    &&& forall|i: int|
        0 <= i < logs.len() ==> points_at((#[trigger] r.records@[i]).pat_id, ts, template_of(toks, i))
    &&& ts.no_duplicates()
    &&& ts.len() <= logs.len()
    &&& forall|t: int|
        0 <= t < ts.len() ==> (#[trigger] r.templates@[t]).id as nat == t as nat % 0x1_0000
    &&& forall|t: int| 0 <= t < ts.len() ==> is_used(toks, #[trigger] ts[t])
}

/// Some message has this template.
pub open spec fn is_used(toks: Seq<Seq<Seq<char>>>, t: Seq<PartView>) -> bool {
    exists|i: int| 0 <= i < toks.len() && #[trigger] template_of(toks, i) == t
}

/// `pat_id` is the position of `t` among the templates, in 16 bits.
pub open spec fn points_at(pat_id: u16, ts: Seq<Seq<PartView>>, t: Seq<PartView>) -> bool {
    exists|k: nat| k < ts.len() && ts[k as int] == t && pat_id as nat == #[trigger] low16(k)
}

/// The low 16 bits.
pub open spec fn low16(k: nat) -> nat {
    k % 0x1_0000
}

// ---------- losslessness ----------

proof fn lemma_slots(ts: Seq<Seq<char>>, template: Seq<PartView>, n: nat)
    requires
        n <= ts.len(),
        template.len() == ts.len(),
    ensures
        slot_texts(ts, template, n).len() == parts::slots_before(template, n),
    decreases n,
{
    if n > 0 {
        lemma_slots(ts, template, (n - 1) as nat);
    }
}

proof fn lemma_slots_prefix(ts: Seq<Seq<char>>, template: Seq<PartView>, k: nat, n: nat)
    requires
        k <= n <= ts.len(),
        template.len() == ts.len(),
    ensures
        slot_texts(ts, template, k).len() <= slot_texts(ts, template, n).len(),
        slot_texts(ts, template, n).take(slot_texts(ts, template, k).len() as int) == slot_texts(
            ts,
            template,
            k,
        ),
    decreases n,
{
    let a: Seq<Seq<char>> = slot_texts(ts, template, k);
    if k < n {
        lemma_slots_prefix(ts, template, k, (n - 1) as nat);
        let m: Seq<Seq<char>> = slot_texts(ts, template, (n - 1) as nat);
        assert(slot_texts(ts, template, n).take(a.len() as int) =~= m.take(a.len() as int));
    } else {
        assert(a.take(a.len() as int) =~= a);
    }
}

/// A template filled with the tokens at its slots gives the tokens back.
pub proof fn lemma_render_tokens(
    ts: Seq<Seq<char>>,
    template: Seq<PartView>,
    filler: Seq<char>,
    n: nat,
)
    requires
        n <= ts.len(),
        template.len() == ts.len(),
        forall|k: int|
            0 <= k < ts.len() ==> match #[trigger] template[k] {
                PartView::Literal(s) => s == ts[k],
                PartView::Param => true,
            },
    ensures
        parts::render_upto(template, slot_texts(ts, template, ts.len()), filler, n)
            == tokens::concat(ts.take(n as int)),
    decreases n,
{
    if n > 0 {
        let k: nat = (n - 1) as nat;
        let all: Seq<Seq<char>> = slot_texts(ts, template, ts.len());
        lemma_render_tokens(ts, template, filler, k);
        assert(ts.take(n as int).drop_last() =~= ts.take(k as int));
        if template[k as int] is Param {
            lemma_slots(ts, template, k);
            lemma_slots_prefix(ts, template, n, ts.len());
            let upto: Seq<Seq<char>> = slot_texts(ts, template, n);
            assert(all.take(upto.len() as int)[upto.len() - 1] == upto[upto.len() - 1]);
        }
    }
}

/// Every message is its template with its parameters: extraction loses
/// nothing.
pub proof fn law_extract_lossless(logs: Seq<LogView>, i: int, filler: Seq<char>)
    requires
        0 <= i < logs.len(),
    ensures
        parts::render(
            template_of(batch_tokens(logs), i),
            params_of(batch_tokens(logs), i),
            filler,
        ) == logs[i].message,
{
    let toks: Seq<Seq<Seq<char>>> = batch_tokens(logs);
    tokens::law_tokens_concat(logs[i].message);
    lemma_render_tokens(toks[i], template_of(toks, i), filler, toks[i].len());
    assert(toks[i].take(toks[i].len() as int) =~= toks[i]);
}

/// The parameters of a record are the texts in the slots of its message.
pub proof fn lemma_record_texts(logs: Seq<LogView>, rec: TemplateRecord, i: int)
    requires
        0 <= i < logs.len(),
        is_record_of(logs, rec, i),
    ensures
        typed::param_texts(typed::param_views(rec.params@)) == params_of(batch_tokens(logs), i),
{
    let pv: Seq<ParamView> = typed::param_views(rec.params@);
    let want: Seq<Seq<char>> = params_of(batch_tokens(logs), i);
    assert forall|k: int| 0 <= k < want.len() implies #[trigger] typed::param_texts(pv)[k]
        == want[k] by {
        assert(typed_from(want[k], pv[k]));
        assert(typed::encodes(pv[k].ty, want[k], pv[k].bytes));
    }
    assert(typed::param_texts(pv) =~= want);
}

/// Messages that share a template have the same template.
proof fn lemma_class_template(toks: Seq<Seq<Seq<char>>>, i: int, j: int)
    requires
        0 <= i < toks.len(),
        0 <= j < toks.len(),
        same_class(toks, i, j),
    ensures
        template_of(toks, i) == template_of(toks, j),
{
    lemma_group_mask(toks, i, j);
    assert forall|k: int| 0 <= k < toks[i].len() implies template_of(toks, i)[k] == template_of(
        toks,
        j,
    )[k] by {
        assert forall|m: int| 0 <= m < toks.len() implies same_class(toks, i, m) == same_class(
            toks,
            j,
            m,
        ) by {}
        if class_fixed(toks, i, k) {
            assert(toks[j][k] == toks[i][k]);
            assert forall|m: int| 0 <= m < toks.len() && same_class(toks, j, m) implies #[trigger]
                toks[m][k] == toks[j][k] by {
                assert(same_class(toks, i, m));
            }
        }
        if class_fixed(toks, j, k) {
            assert(same_class(toks, j, i));
            assert(toks[i][k] == toks[j][k]);
            assert forall|m: int| 0 <= m < toks.len() && same_class(toks, i, m) implies #[trigger]
                toks[m][k] == toks[i][k] by {
                assert(same_class(toks, j, m));
            }
        }
    }
    assert(template_of(toks, i) =~= template_of(toks, j));
}

/// Messages of one group have the same mask.
proof fn lemma_group_mask(toks: Seq<Seq<Seq<char>>>, i: int, j: int)
    requires
        0 <= i < toks.len(),
        0 <= j < toks.len(),
        same_group(toks, i, j),
    ensures
        group_mask(toks, i) == group_mask(toks, j),
{
    assert forall|k: int| 0 <= k < toks[i].len() implies group_mask(toks, i)[k] == group_mask(
        toks,
        j,
    )[k] by {
        if group_fixed(toks, i, k) {
            assert(toks[j][k] == toks[i][k]);
            assert forall|m: int| 0 <= m < toks.len() && same_group(toks, j, m) implies #[trigger]
                toks[m][k] == toks[j][k] by {
                assert(same_group(toks, i, m));
            }
        }
        if group_fixed(toks, j, k) {
            assert(same_group(toks, j, i));
            assert(toks[i][k] == toks[j][k]);
            assert forall|m: int| 0 <= m < toks.len() && same_group(toks, i, m) implies #[trigger]
                toks[m][k] == toks[i][k] by {
                assert(same_group(toks, j, m));
            }
        }
    }
    assert(group_mask(toks, i) =~= group_mask(toks, j));
}

// ---------- grouping ----------

/// Items `i` and `j` have the same key and tag.
spec fn same_key(keys: Seq<Vec<char>>, tags: Seq<usize>, i: int, j: int) -> bool {
    keys[i]@ == keys[j]@ && tags[i] == tags[j]
}

/// `gid` numbers the groups of equal items; `heads` holds one item of each.
spec fn is_grouping(
    keys: Seq<Vec<char>>,
    tags: Seq<usize>,
    gid: Seq<usize>,
    heads: Seq<usize>,
) -> bool {
    &&& forall|i: int|
        0 <= i < gid.len() ==> #[trigger] gid[i] < heads.len() && same_key(
            keys,
            tags,
            i,
            heads[gid[i] as int] as int,
        )
    &&& forall|g: int|
        0 <= g < heads.len() ==> #[trigger] heads[g] < gid.len() && gid[heads[g] as int] == g
    &&& forall|g: int, h: int|
        0 <= g < h < heads.len() ==> !same_key(
            keys,
            tags,
            #[trigger] heads[g] as int,
            #[trigger] heads[h] as int,
        )
}

proof fn lemma_grouping(
    keys: Seq<Vec<char>>,
    tags: Seq<usize>,
    gid: Seq<usize>,
    heads: Seq<usize>,
    i: int,
    j: int,
)
    requires
        is_grouping(keys, tags, gid, heads),
        0 <= i < gid.len(),
        0 <= j < gid.len(),
    ensures
        gid[i] == gid[j] <==> same_key(keys, tags, i, j),
{
    let g: int = gid[i] as int;
    let h: int = gid[j] as int;
    if g != h {
        assert(!same_key(keys, tags, heads[g] as int, heads[h] as int));
    }
}

fn find_head(
    keys: &Vec<Vec<char>>,
    tags: &Vec<usize>,
    heads: &Vec<usize>,
    i: usize,
) -> (r: usize)
    requires
        keys@.len() == tags@.len(),
        i < keys@.len(),
        forall|g: int| 0 <= g < heads@.len() ==> #[trigger] heads@[g] < i,
    ensures
        r <= heads@.len(),
        r < heads@.len() ==> same_key(keys@, tags@, i as int, heads@[r as int] as int),
        r == heads@.len() ==> forall|g: int|
            0 <= g < heads@.len() ==> !same_key(
                keys@,
                tags@,
                i as int,
                #[trigger] heads@[g] as int,
            ),
{
    let mut g: usize = 0;
    while g < heads.len()
        invariant
            g <= heads@.len(),
            keys@.len() == tags@.len(),
            i < keys@.len(),
            forall|k: int| 0 <= k < heads@.len() ==> #[trigger] heads@[k] < i,
            forall|k: int|
                0 <= k < g ==> !same_key(keys@, tags@, i as int, #[trigger] heads@[k] as int),
        decreases heads@.len() - g,
    {
        let h: usize = heads[g];
        if tags[h] == tags[i] && text::same_chars(&keys[h], &keys[i]) {
            return g;
        }
        g += 1;
    }
    g
}

fn group_items(keys: &Vec<Vec<char>>, tags: &Vec<usize>) -> (r: (Vec<usize>, Vec<usize>))
    requires
        keys@.len() == tags@.len(),
    ensures
        r.0@.len() == keys@.len(),
        r.1@.len() <= keys@.len(),
        is_grouping(keys@, tags@, r.0@, r.1@),
{
    let mut gid: Vec<usize> = Vec::new();
    let mut heads: Vec<usize> = Vec::new();
    let mut i: usize = 0;
    while i < keys.len()
        invariant
            i <= keys@.len(),
            keys@.len() == tags@.len(),
            gid@.len() == i,
            heads@.len() <= i,
            is_grouping(keys@, tags@, gid@, heads@),
        decreases keys@.len() - i,
    {
        let ghost old_gid = gid@;
        let ghost old_heads = heads@;
        let g: usize = find_head(keys, tags, &heads, i);
        if g == heads.len() {
            heads.push(i);
        }
        gid.push(g);
        proof {
            assert forall|a: int, b: int| 0 <= a < b < heads@.len() implies !same_key(
                keys@,
                tags@,
                #[trigger] heads@[a] as int,
                #[trigger] heads@[b] as int,
            ) by {
                if b == old_heads.len() {
                    assert(heads@[a] == old_heads[a]);
                    assert(!same_key(keys@, tags@, i as int, old_heads[a] as int));
                } else {
                    assert(heads@[a] == old_heads[a] && heads@[b] == old_heads[b]);
                }
            }
            assert forall|a: int| 0 <= a < heads@.len() implies #[trigger] heads@[a] < gid@.len()
                && gid@[heads@[a] as int] == a by {
                if a < old_heads.len() {
                    assert(heads@[a] == old_heads[a]);
                    assert(old_gid[old_heads[a] as int] == a);
                }
            }
            assert forall|a: int| 0 <= a < gid@.len() implies #[trigger] gid@[a] < heads@.len()
                && same_key(keys@, tags@, a, heads@[gid@[a] as int] as int) by {
                if a < i {
                    assert(gid@[a] == old_gid[a]);
                    assert(heads@[gid@[a] as int] == old_heads[old_gid[a] as int]);
                }
            }
        }
        i += 1;
    }
    (gid, heads)
}

/// The token lists held by vectors of strings.
pub open spec fn token_lists(v: Seq<Vec<String>>) -> Seq<Seq<Seq<char>>> {
    Seq::new(v.len(), |i: int| text::texts(v[i]@))
}

/// `masks[g][k]` tells whether token `k` is the same in all items of group `g`.
spec fn is_mask(
    toks: Seq<Seq<Seq<char>>>,
    gid: Seq<usize>,
    heads: Seq<usize>,
    g: int,
    mask: Seq<bool>,
    n: int,
) -> bool {
    let head: Seq<Seq<char>> = toks[heads[g] as int];
    &&& mask.len() == head.len()
    &&& forall|k: int|
        0 <= k < mask.len() ==> (#[trigger] mask[k] <==> forall|j: int|
            0 <= j < n && gid[j] == g ==> #[trigger] toks[j][k] == head[k])
}

fn init_masks(toks: &Vec<Vec<String>>, gid: &Vec<usize>, heads: &Vec<usize>) -> (r: Vec<Vec<bool>>)
    requires
        forall|g: int| 0 <= g < heads@.len() ==> #[trigger] heads@[g] < toks@.len(),
    ensures
        r@.len() == heads@.len(),
        forall|g: int|
            0 <= g < r@.len() ==> is_mask(
                token_lists(toks@),
                gid@,
                heads@,
                g,
                (#[trigger] r@[g])@,
                0,
            ),
{
    let mut r: Vec<Vec<bool>> = Vec::new();
    let mut g: usize = 0;
    while g < heads.len()
        invariant
            g <= heads@.len(),
            r@.len() == g,
            forall|k: int| 0 <= k < heads@.len() ==> #[trigger] heads@[k] < toks@.len(),
            forall|k: int|
                0 <= k < g ==> is_mask(
                    token_lists(toks@),
                    gid@,
                    heads@,
                    k,
                    (#[trigger] r@[k])@,
                    0,
                ),
        decreases heads@.len() - g,
    {
        let len: usize = toks[heads[g]].len();
        let mut m: Vec<bool> = Vec::new();
        while m.len() < len
            invariant
                m@.len() <= len,
                forall|k: int| 0 <= k < m@.len() ==> m@[k],
            decreases len - m@.len(),
        {
            m.push(true);
        }
        assert(token_lists(toks@)[heads@[g as int] as int].len() == len);
        r.push(m);
        g += 1;
    }
    r
}

fn fixed_masks(
    toks: &Vec<Vec<String>>,
    gid: &Vec<usize>,
    heads: &Vec<usize>,
) -> (r: Vec<Vec<bool>>)
    requires
        gid@.len() == toks@.len(),
        forall|g: int| 0 <= g < heads@.len() ==> #[trigger] heads@[g] < toks@.len(),
        forall|i: int|
            0 <= i < gid@.len() ==> #[trigger] gid@[i] < heads@.len() && toks@[i]@.len()
                == toks@[heads@[gid@[i] as int] as int]@.len(),
    ensures
        r@.len() == heads@.len(),
        forall|g: int|
            0 <= g < r@.len() ==> is_mask(
                token_lists(toks@),
                gid@,
                heads@,
                g,
                (#[trigger] r@[g])@,
                toks@.len() as int,
            ),
{
    let ghost tl = token_lists(toks@);
    let mut masks: Vec<Vec<bool>> = init_masks(toks, gid, heads);
    let mut i: usize = 0;
    while i < toks.len()
        invariant
            i <= toks@.len(),
            tl == token_lists(toks@),
            gid@.len() == toks@.len(),
            masks@.len() == heads@.len(),
            forall|g: int| 0 <= g < heads@.len() ==> #[trigger] heads@[g] < toks@.len(),
            forall|k: int|
                0 <= k < gid@.len() ==> #[trigger] gid@[k] < heads@.len() && toks@[k]@.len()
                    == toks@[heads@[gid@[k] as int] as int]@.len(),
            forall|g: int|
                0 <= g < masks@.len() ==> is_mask(
                    tl,
                    gid@,
                    heads@,
                    g,
                    (#[trigger] masks@[g])@,
                    i as int,
                ),
        decreases toks@.len() - i,
    {
        let g: usize = gid[i];
        let h: usize = heads[g];
        let len: usize = toks[i].len();
        let ghost before = masks@;
        let mut m: Vec<bool> = Vec::new();
        let mut k: usize = 0;
        assert(tl[h as int].len() == len);
        assert(tl[i as int].len() == len);
        assert(is_mask(tl, gid@, heads@, g as int, masks@[g as int]@, i as int));
        while k < len
            invariant
                k <= len,
                i < toks@.len(),
                h < toks@.len(),
                g < masks@.len(),
                masks@ == before,
                len == toks@[i as int]@.len(),
                len == toks@[h as int]@.len(),
                len == masks@[g as int]@.len(),
                tl == token_lists(toks@),
                m@.len() == k,
                forall|x: int|
                    0 <= x < k ==> (#[trigger] m@[x] <==> before[g as int]@[x] && tl[i as int][x]
                        == tl[h as int][x]),
            decreases len - k,
        {
            let keep: bool = masks[g][k];
            let same: bool = text::same_text(toks[i][k].as_str(), toks[h][k].as_str());
            assert(tl[i as int][k as int] == toks@[i as int]@[k as int]@);
            assert(tl[h as int][k as int] == toks@[h as int]@[k as int]@);
            m.push(keep && same);
            k += 1;
        }
        let ghost mv = m@;
        masks.set(g, m);
        proof {
            assert forall|y: int| 0 <= y < masks@.len() implies is_mask(
                tl,
                gid@,
                heads@,
                y,
                (#[trigger] masks@[y])@,
                i + 1,
            ) by {
                let mask: Seq<bool> = masks@[y]@;
                let head: Seq<Seq<char>> = tl[heads@[y] as int];
                assert(is_mask(tl, gid@, heads@, y, before[y]@, i as int));
                assert forall|x: int| 0 <= x < mask.len() implies (#[trigger] mask[x] <==> forall|
                    j: int,
                |
                    0 <= j < i + 1 && gid@[j] == y ==> #[trigger] tl[j][x] == head[x]) by {
                    let old_all: bool = forall|j: int|
                        0 <= j < i && gid@[j] == y ==> #[trigger] tl[j][x] == head[x];
                    assert(before[y]@[x] <==> old_all);
                    if y == g {
                        assert(mask[x] == mv[x]);
                        if mv[x] {
                            assert forall|j: int| 0 <= j < i + 1 && gid@[j] == y implies #[trigger]
                                tl[j][x] == head[x] by {}
                        }
                        if forall|j: int|
                            0 <= j < i + 1 && gid@[j] == y ==> #[trigger] tl[j][x] == head[x] {
                            assert(tl[i as int][x] == head[x]);
                            assert(old_all);
                        }
                    } else {
                        assert(mask[x] == before[y]@[x]);
                        if old_all {
                            assert forall|j: int| 0 <= j < i + 1 && gid@[j] == y implies #[trigger]
                                tl[j][x] == head[x] by {}
                        }
                    }
                }
            }
        }
        i += 1;
    }
    masks
}

fn count_set(b: &Vec<bool>) -> (r: usize)
    ensures
        r == count_true(b@),
{
    let mut r: usize = 0;
    let mut i: usize = 0;
    assert(b@.take(0) =~= Seq::<bool>::empty());
    while i < b.len()
        invariant
            i <= b@.len(),
            r <= i,
            r == count_true(b@.take(i as int)),
        decreases b@.len() - i,
    {
        assert(b@.take(i + 1).drop_last() =~= b@.take(i as int));
        if b[i] {
            r += 1;
        }
        i += 1;
    }
    assert(b@.take(i as int) =~= b@);
    r
}

// ---------- extraction ----------

fn tokenize_all(logs: &[LogLine]) -> (r: Vec<Vec<String>>)
    ensures
        token_lists(r@) == batch_tokens(log::log_views(logs@)),
{
    let mut r: Vec<Vec<String>> = Vec::new();
    let mut i: usize = 0;
    let ghost lv = log::log_views(logs@);
    while i < logs.len()
        invariant
            i <= logs@.len(),
            lv == log::log_views(logs@),
            r@.len() == i,
            forall|k: int|
                0 <= k < i ==> text::texts((#[trigger] r@[k])@) == tokens::tokens_of(
                    lv[k].message,
                ),
        decreases logs@.len() - i,
    {
        assert(lv[i as int].message == logs@[i as int].message@);
        r.push(TemplateExtractor::tokenize(logs[i].message.as_str()));
        i += 1;
    }
    assert(token_lists(r@) =~= batch_tokens(lv));
    r
}

/// The keys of all messages.
struct Keys {
    sigs: Vec<Vec<char>>,
    subs: Vec<Vec<char>>,
    lens: Vec<usize>,
}

fn message_keys(toks: &Vec<Vec<String>>) -> (r: Keys)
    ensures
        r.sigs@.len() == toks@.len(),
        r.subs@.len() == toks@.len(),
        r.lens@.len() == toks@.len(),
        forall|i: int|
            0 <= i < toks@.len() ==> (#[trigger] r.sigs@[i])@ == tokens::signature(
                token_lists(toks@)[i],
            ),
        forall|i: int|
            0 <= i < toks@.len() ==> (#[trigger] r.subs@[i])@ == tokens::leading_classes(
                token_lists(toks@)[i],
                3,
            ),
        forall|i: int|
            0 <= i < toks@.len() ==> #[trigger] r.lens@[i] == token_lists(toks@)[i].len(),
{
    let mut sigs: Vec<Vec<char>> = Vec::new();
    let mut subs: Vec<Vec<char>> = Vec::new();
    let mut lens: Vec<usize> = Vec::new();
    let ghost tl = token_lists(toks@);
    let mut i: usize = 0;
    while i < toks.len()
        invariant
            i <= toks@.len(),
            tl == token_lists(toks@),
            sigs@.len() == i,
            subs@.len() == i,
            lens@.len() == i,
            forall|k: int| 0 <= k < i ==> (#[trigger] sigs@[k])@ == tokens::signature(tl[k]),
            forall|k: int|
                0 <= k < i ==> (#[trigger] subs@[k])@ == tokens::leading_classes(tl[k], 3),
            forall|k: int| 0 <= k < i ==> #[trigger] lens@[k] == tl[k].len(),
        decreases toks@.len() - i,
    {
        let types: Vec<char> = tokens::token_types(&toks[i]);
        sigs.push(tokens::structural_signature(&toks[i], &types));
        subs.push(tokens::leading_types(&toks[i], &types));
        lens.push(toks[i].len());
        i += 1;
    }
    Keys { sigs, subs, lens }
}

/// The classes of messages that share a template, one member of each, and
/// which tokens are the same throughout.
struct Classes {
    cid: Vec<usize>,
    heads: Vec<usize>,
    masks: Vec<Vec<bool>>,
}

spec fn classes_ok(tl: Seq<Seq<Seq<char>>>, c: Classes) -> bool {
    &&& c.cid@.len() == tl.len()
    &&& c.heads@.len() <= tl.len()
    &&& c.masks@.len() == c.heads@.len()
    &&& forall|i: int|
        0 <= i < tl.len() ==> #[trigger] c.cid@[i] < c.heads@.len() && same_class(
            tl,
            c.heads@[c.cid@[i] as int] as int,
            i,
        )
    &&& forall|g: int| 0 <= g < c.heads@.len() ==> #[trigger] c.heads@[g] < tl.len()
    &&& forall|g: int|
        0 <= g < c.heads@.len() ==> mask_of_class(
            tl,
            c.heads@[g] as int,
            (#[trigger] c.masks@[g])@,
        )
}

spec fn mask_of_class(tl: Seq<Seq<Seq<char>>>, head: int, mask: Seq<bool>) -> bool {
    &&& mask.len() == tl[head].len()
    &&& forall|k: int| 0 <= k < mask.len() ==> #[trigger] mask[k] == class_fixed(tl, head, k)
}

fn split_keys(gid: &Vec<usize>, masks: &Vec<Vec<bool>>, subs: &Vec<Vec<char>>) -> (r: Vec<
    Vec<char>,
>)
    requires
        subs@.len() == gid@.len(),
        forall|i: int| 0 <= i < gid@.len() ==> #[trigger] gid@[i] < masks@.len(),
    ensures
        r@.len() == gid@.len(),
        forall|i: int|
            0 <= i < gid@.len() ==> (#[trigger] r@[i])@ == if too_few(masks@[gid@[i] as int]@) {
                subs@[i]@
            } else {
                Seq::<char>::empty()
            },
{
    let mut few: Vec<bool> = Vec::new();
    let mut g: usize = 0;
    while g < masks.len()
        invariant
            g <= masks@.len(),
            few@.len() == g,
            forall|k: int| 0 <= k < g ==> #[trigger] few@[k] == too_few(masks@[k]@),
        decreases masks@.len() - g,
    {
        let n: usize = count_set(&masks[g]);
        few.push(n < 2 || n < masks[g].len() / 4);
        g += 1;
    }
    let mut r: Vec<Vec<char>> = Vec::new();
    let mut i: usize = 0;
    while i < gid.len()
        invariant
            i <= gid@.len(),
            subs@.len() == gid@.len(),
            r@.len() == i,
            few@.len() == masks@.len(),
            forall|k: int| 0 <= k < few@.len() ==> #[trigger] few@[k] == too_few(masks@[k]@),
            forall|k: int| 0 <= k < gid@.len() ==> #[trigger] gid@[k] < masks@.len(),
            forall|k: int|
                0 <= k < i ==> (#[trigger] r@[k])@ == if too_few(masks@[gid@[k] as int]@) {
                    subs@[k]@
                } else {
                    Seq::<char>::empty()
                },
        decreases gid@.len() - i,
    {
        if few[gid[i]] {
            let key: Vec<char> = subs[i].clone();
            assert(key@ =~= subs@[i as int]@);
            r.push(key);
        } else {
            r.push(Vec::new());
        }
        i += 1;
    }
    r
}

fn classify(toks: &Vec<Vec<String>>) -> (r: Classes)
    ensures
        classes_ok(token_lists(toks@), r),
{
    let ghost tl = token_lists(toks@);
    let keys: Keys = message_keys(toks);
    let (gid, heads) = group_items(&keys.sigs, &keys.lens);
    proof {
        assert forall|i: int, j: int|
            0 <= i < tl.len() && 0 <= j < tl.len() implies #[trigger] same_key(
            keys.sigs@,
            keys.lens@,
            i,
            j,
        ) == same_group(tl, i, j) by {}
        assert forall|i: int| 0 <= i < gid@.len() implies #[trigger] gid@[i] < heads@.len()
            && toks@[i]@.len() == toks@[heads@[gid@[i] as int] as int]@.len() by {
            let h: int = heads@[gid@[i] as int] as int;
            assert(same_key(keys.sigs@, keys.lens@, i, h));
            assert(tl[i].len() == tl[h].len());
        }
    }
    let masks: Vec<Vec<bool>> = fixed_masks(toks, &gid, &heads);
    proof {
        assert forall|i: int| 0 <= i < tl.len() implies masks@[gid@[i] as int]@ == group_mask(
            tl,
            i,
        ) by {
            let g: int = gid@[i] as int;
            let h: int = heads@[g] as int;
            let m: Seq<bool> = masks@[g]@;
            assert(gid@[h] == g);
            assert(is_mask(tl, gid@, heads@, g, m, tl.len() as int));
            assert forall|k: int| 0 <= k < m.len() implies m[k] == group_mask(tl, h)[k] by {
                let all: bool = forall|j: int|
                    0 <= j < tl.len() && gid@[j] == g ==> #[trigger] tl[j][k] == tl[h][k];
                assert(m[k] == all);
                if all {
                    assert forall|j: int| 0 <= j < tl.len() && same_group(tl, h, j) implies
                        #[trigger] tl[j][k] == tl[h][k] by {
                        lemma_grouping(keys.sigs@, keys.lens@, gid@, heads@, h, j);
                    }
                }
                if group_fixed(tl, h, k) {
                    assert forall|j: int| 0 <= j < tl.len() && gid@[j] == g implies #[trigger]
                        tl[j][k] == tl[h][k] by {
                        lemma_grouping(keys.sigs@, keys.lens@, gid@, heads@, h, j);
                    }
                }
            }
            assert(m =~= group_mask(tl, h));
            lemma_grouping(keys.sigs@, keys.lens@, gid@, heads@, h, i);
            lemma_group_mask(tl, h, i);
        }
    }
    let keys2: Vec<Vec<char>> = split_keys(&gid, &masks, &keys.subs);
    let (cid, cheads) = group_items(&keys2, &gid);
    proof {
        assert forall|i: int, j: int|
            0 <= i < tl.len() && 0 <= j < tl.len() implies #[trigger] same_key(
            keys2@,
            gid@,
            i,
            j,
        ) == same_class(tl, i, j) by {
            lemma_grouping(keys.sigs@, keys.lens@, gid@, heads@, i, j);
            assert(masks@[gid@[i] as int]@ == group_mask(tl, i));
            assert(keys2@[i]@ == if too_few(masks@[gid@[i] as int]@) {
                keys.subs@[i]@
            } else {
                Seq::<char>::empty()
            });
            assert(keys2@[j]@ == if too_few(masks@[gid@[j] as int]@) {
                keys.subs@[j]@
            } else {
                Seq::<char>::empty()
            });
            assert(keys.subs@[i]@ == tokens::leading_classes(tl[i], 3));
            assert(keys.subs@[j]@ == tokens::leading_classes(tl[j], 3));
        }
        assert forall|i: int| 0 <= i < cid@.len() implies #[trigger] cid@[i] < cheads@.len()
            && toks@[i]@.len() == toks@[cheads@[cid@[i] as int] as int]@.len() by {
            let h: int = cheads@[cid@[i] as int] as int;
            assert(same_key(keys2@, gid@, i, h));
            assert(tl[i].len() == tl[h].len());
        }
    }
    let cmasks: Vec<Vec<bool>> = fixed_masks(toks, &cid, &cheads);
    proof {
        assert forall|g: int| 0 <= g < cheads@.len() implies mask_of_class(
            tl,
            cheads@[g] as int,
            (#[trigger] cmasks@[g])@,
        ) by {
            let h: int = cheads@[g] as int;
            let m: Seq<bool> = cmasks@[g]@;
            assert(cid@[h] == g);
            assert(is_mask(tl, cid@, cheads@, g, m, tl.len() as int));
            assert forall|k: int| 0 <= k < m.len() implies #[trigger] m[k] == class_fixed(
                tl,
                h,
                k,
            ) by {
                let all: bool = forall|j: int|
                    0 <= j < tl.len() && cid@[j] == g ==> #[trigger] tl[j][k] == tl[h][k];
                assert(m[k] == all);
                if all {
                    assert forall|j: int| 0 <= j < tl.len() && same_class(tl, h, j) implies
                        #[trigger] tl[j][k] == tl[h][k] by {
                        lemma_grouping(keys2@, gid@, cid@, cheads@, h, j);
                    }
                }
                if class_fixed(tl, h, k) {
                    assert forall|j: int| 0 <= j < tl.len() && cid@[j] == g implies #[trigger]
                        tl[j][k] == tl[h][k] by {
                        lemma_grouping(keys2@, gid@, cid@, cheads@, h, j);
                    }
                }
            }
        }
        assert forall|i: int| 0 <= i < tl.len() implies #[trigger] cid@[i] < cheads@.len()
            && same_class(tl, cheads@[cid@[i] as int] as int, i) by {
            let h: int = cheads@[cid@[i] as int] as int;
            lemma_grouping(keys2@, gid@, cid@, cheads@, h, i);
        }
    }
    Classes { cid, heads: cheads, masks: cmasks }
}

/// The template of a class: the tokens that are the same as text, slots
/// elsewhere.
fn build_template_from_mask(first: &Vec<String>, is_fixed: &Vec<bool>) -> (r: Vec<TemplatePart>)
    requires
        first@.len() == is_fixed@.len(),
    ensures
        parts::part_views(r@) == Seq::new(
            first@.len(),
            |k: int|
                if is_fixed@[k] {
                    PartView::Literal(text::texts(first@)[k])
                } else {
                    PartView::Param
                },
        ),
{
    let mut r: Vec<TemplatePart> = Vec::new();
    let mut k: usize = 0;
    let ghost want = Seq::new(
        first@.len(),
        |k: int|
            if is_fixed@[k] {
                PartView::Literal(text::texts(first@)[k])
            } else {
                PartView::Param
            },
    );
    while k < first.len()
        invariant
            k <= first@.len(),
            first@.len() == is_fixed@.len(),
            r@.len() == k,
            want == Seq::new(
                first@.len(),
                |k: int|
                    if is_fixed@[k] {
                        PartView::Literal(text::texts(first@)[k])
                    } else {
                        PartView::Param
                    },
            ),
            forall|x: int| 0 <= x < k ==> (#[trigger] r@[x])@ == want[x],
        decreases first@.len() - k,
    {
        if is_fixed[k] {
            r.push(TemplatePart::Literal(first[k].clone()));
        } else {
            r.push(TemplatePart::Param);
        }
        assert(r@[k as int]@ == want[k as int]);
        k += 1;
    }
    assert(parts::part_views(r@) =~= want);
    r
}

fn same_parts(a: &Vec<TemplatePart>, b: &Vec<TemplatePart>) -> (r: bool)
    ensures
        r == (parts::part_views(a@) == parts::part_views(b@)),
{
    let ghost av = parts::part_views(a@);
    let ghost bv = parts::part_views(b@);
    if a.len() != b.len() {
        assert(av.len() != bv.len());
        return false;
    }
    let mut i: usize = 0;
    while i < a.len()
        invariant
            i <= a@.len(),
            a@.len() == b@.len(),
            av == parts::part_views(a@),
            bv == parts::part_views(b@),
            forall|k: int| 0 <= k < i ==> #[trigger] av[k] == bv[k],
        decreases a@.len() - i,
    {
        let same: bool = match (&a[i], &b[i]) {
            (TemplatePart::Literal(x), TemplatePart::Literal(y)) => text::same_text(
                x.as_str(),
                y.as_str(),
            ),
            (TemplatePart::Param, TemplatePart::Param) => true,
            _ => false,
        };
        assert(av[i as int] == a@[i as int]@);
        assert(bv[i as int] == b@[i as int]@);
        assert(same == (av[i as int] == bv[i as int]));
        if !same {
            return false;
        }
        i += 1;
    }
    assert(av =~= bv);
    true
}

/// The position of a template; it is added at the end where it is new.
fn get_or_create_template(templates: &mut Vec<Template>, parts: Vec<TemplatePart>) -> (r: usize)
    requires
        parts::template_views(old(templates)@).no_duplicates(),
        forall|t: int|
            0 <= t < old(templates)@.len() ==> (#[trigger] old(templates)@[t]).id as nat == low16(
                t as nat,
            ),
    ensures
        ({
            let before: Seq<Seq<PartView>> = parts::template_views(old(templates)@);
            let after: Seq<Seq<PartView>> = parts::template_views(final(templates)@);
            let p: Seq<PartView> = parts::part_views(parts@);
            &&& r < after.len()
            &&& after[r as int] == p
            &&& after == if before.contains(p) {
                before
            } else {
                before.push(p)
            }
            &&& after.no_duplicates()
        }),
        forall|t: int|
            0 <= t < final(templates)@.len() ==> (#[trigger] final(templates)@[t]).id as nat
                == low16(t as nat),
{
    let ghost before = parts::template_views(templates@);
    let ghost p = parts::part_views(parts@);
    let mut i: usize = 0;
    while i < templates.len()
        invariant
            i <= templates@.len(),
            templates@ == old(templates)@,
            before == parts::template_views(templates@),
            before.no_duplicates(),
            p == parts::part_views(parts@),
            forall|t: int|
                0 <= t < templates@.len() ==> (#[trigger] templates@[t]).id as nat == low16(
                    t as nat,
                ),
            forall|k: int| 0 <= k < i ==> #[trigger] before[k] != p,
        decreases templates@.len() - i,
    {
        if same_parts(&templates[i].parts, &parts) {
            assert(before[i as int] == p);
            return i;
        }
        assert(before[i as int] != p);
        i += 1;
    }
    assert(!before.contains(p));
    let id: u16 = (i % 0x1_0000) as u16;
    templates.push(Template { id, parts });
    assert(parts::template_views(templates@) =~= before.push(p));
    i
}

fn slot_params(tokens: &Vec<String>, mask: &Vec<bool>, Ghost(template): Ghost<Seq<PartView>>) -> (r:
    Vec<TypedParam>)
    requires
        mask@.len() == tokens@.len(),
        template.len() == tokens@.len(),
        forall|k: int| 0 <= k < mask@.len() ==> #[trigger] mask@[k] == !(template[k] is Param),
    ensures
        all_typed_from(
            slot_texts(text::texts(tokens@), template, tokens@.len()),
            typed::param_views(r@),
        ),
{
    let ghost ts = text::texts(tokens@);
    let mut r: Vec<TypedParam> = Vec::new();
    let mut k: usize = 0;
    while k < tokens.len()
        invariant
            k <= tokens@.len(),
            ts == text::texts(tokens@),
            mask@.len() == tokens@.len(),
            template.len() == tokens@.len(),
            forall|x: int| 0 <= x < mask@.len() ==> #[trigger] mask@[x] == !(template[x] is Param),
            all_typed_from(slot_texts(ts, template, k as nat), typed::param_views(r@)),
        decreases tokens@.len() - k,
    {
        let ghost pv = typed::param_views(r@);
        if !mask[k] {
            let p: TypedParam = TypedParam::from_str(tokens[k].as_str());
            let ghost v = p@;
            r.push(p);
            assert(typed::param_views(r@) =~= pv.push(v));
            assert(ts[k as int] == tokens@[k as int]@);
            assert(typed_from(ts[k as int], v));
            let ghost want = slot_texts(ts, template, (k + 1) as nat);
            assert forall|x: int| 0 <= x < want.len() implies typed_from(
                want[x],
                #[trigger] pv.push(v)[x],
            ) by {
                if x < pv.len() {
                    assert(typed_from(slot_texts(ts, template, k as nat)[x], pv[x]));
                }
            }
        }
        k += 1;
    }
    r
}

impl TemplateExtractor {
    /// Extracts templates from a batch of lines.
    pub fn extract(batch: &[LogLine]) -> (r: TemplateBatch)
        ensures
            is_extraction(log::log_views(batch@), r),
    {
        let ghost lv = log::log_views(batch@);
        let ghost tl = batch_tokens(lv);
        let toks: Vec<Vec<String>> = tokenize_all(batch);
        let classes: Classes = classify(&toks);
        let mut templates: Vec<Template> = Vec::new();
        let mut tid: Vec<usize> = Vec::new();
        let mut c: usize = 0;
        assert(parts::template_views(templates@) =~= Seq::<Seq<PartView>>::empty());
        while c < classes.heads.len()
            invariant
                c <= classes.heads@.len(),
                tl == token_lists(toks@),
                classes_ok(tl, classes),
                tid@.len() == c,
                templates@.len() <= c,
                parts::template_views(templates@).no_duplicates(),
                forall|t: int|
                    0 <= t < templates@.len() ==> (#[trigger] templates@[t]).id as nat == low16(
                        t as nat,
                    ),
                forall|g: int|
                    0 <= g < c ==> #[trigger] tid@[g] < templates@.len() && parts::template_views(
                        templates@,
                    )[tid@[g] as int] == template_of(tl, classes.heads@[g] as int),
                forall|t: int|
                    0 <= t < templates@.len() ==> is_used(
                        tl,
                        #[trigger] parts::template_views(templates@)[t],
                    ),
            decreases classes.heads@.len() - c,
        {
            let h: usize = classes.heads[c];
            let ghost before = parts::template_views(templates@);
            let ghost want = template_of(tl, h as int);
            assert(mask_of_class(tl, h as int, classes.masks@[c as int]@));
            assert(tl[h as int] == text::texts(toks@[h as int]@));
            let p: Vec<TemplatePart> = build_template_from_mask(&toks[h], &classes.masks[c]);
            assert(parts::part_views(p@) =~= want);
            let t: usize = get_or_create_template(&mut templates, p);
            proof {
                let after: Seq<Seq<PartView>> = parts::template_views(templates@);
                assert forall|g: int| 0 <= g < c implies #[trigger] tid@[g] < templates@.len()
                    && after[tid@[g] as int] == template_of(tl, classes.heads@[g] as int) by {
                    assert(after[tid@[g] as int] == before[tid@[g] as int]);
                }
                assert forall|x: int| 0 <= x < after.len() implies is_used(tl, #[trigger] after[x]) by {
                    if x < before.len() {
                        assert(after[x] == before[x]);
                        assert(is_used(tl, before[x]));
                    } else {
                        assert(template_of(tl, h as int) == after[x]);
                    }
                }
            }
            tid.push(t);
            c += 1;
        }
        let mut records: Vec<TemplateRecord> = Vec::new();
        let mut i: usize = 0;
        let ghost ts = parts::template_views(templates@);
        while i < batch.len()
            invariant
                i <= batch@.len(),
                lv == log::log_views(batch@),
                tl == batch_tokens(lv),
                tl == token_lists(toks@),
                toks@.len() == batch@.len(),
                ts == parts::template_views(templates@),
                classes_ok(tl, classes),
                tid@.len() == classes.heads@.len(),
                records@.len() == i,
                forall|g: int|
                    0 <= g < tid@.len() ==> #[trigger] tid@[g] < ts.len() && ts[tid@[g] as int]
                        == template_of(tl, classes.heads@[g] as int),
                forall|k: int| 0 <= k < i ==> is_record_of(lv, #[trigger] records@[k], k),
                forall|k: int|
                    0 <= k < i ==> points_at(
                        (#[trigger] records@[k]).pat_id,
                        ts,
                        template_of(tl, k),
                    ),
            decreases batch@.len() - i,
        {
            let g: usize = classes.cid[i];
            let ghost h = classes.heads@[g as int] as int;
            let ghost want = template_of(tl, i as int);
            proof {
                assert(same_class(tl, h, i as int));
                lemma_class_template(tl, h, i as int);
                assert(mask_of_class(tl, h, classes.masks@[g as int]@));
                assert(tl[i as int] == text::texts(toks@[i as int]@));
                let mask: Seq<bool> = classes.masks@[g as int]@;
                assert forall|k: int| 0 <= k < mask.len() implies #[trigger] mask[k] == !(
                want[k] is Param) by {
                    assert(template_of(tl, h)[k] == want[k]);
                }
            }
            let params: Vec<TypedParam> = slot_params(&toks[i], &classes.masks[g], Ghost(want));
            let step: u64 = if i == 0 {
                batch[0].ts
            } else {
                batch[i].ts.wrapping_sub(batch[i - 1].ts)
            };
            assert(step == time_step(lv, i as int));
            let t: usize = tid[g];
            let pat_id: u16 = (t % 0x1_0000) as u16;
            assert(ts[t as int] == want && pat_id as nat == low16(t as nat));
            let rec: TemplateRecord = TemplateRecord {
                original_idx: i,
                ts_delta: typed::to_signed(step),
                svc_id: 0,
                level: batch[i].level.clone(),
                pat_id,
                params,
            };
            assert(rec.level@ == lv[i as int].level);
            assert(points_at(rec.pat_id, ts, want));
            records.push(rec);
            i += 1;
        }
        TemplateBatch { templates, records }
    }
}

} // verus!
