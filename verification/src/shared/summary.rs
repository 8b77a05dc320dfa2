//! Summary of a whole segment.

use crate::shared::bloom;
use crate::shared::bytes;
use crate::shared::chunk::ChunkSummary;
use vstd::prelude::*;
use vstd::string::*;

verus! {

/// What a segment holds, folded from its chunk summaries.
///
/// The parameter filter has 96 bits: bit `p` of a chunk's filter is bit
/// `p mod 96` here. The service filter has 48 bits.
#[derive(Debug, Clone, Copy, PartialEq, Eq)]
pub struct SegmentSummary {
    pub pattern_mask: u64,
    pub level_mask: u8,
    pub flags: u8,
    pub param_bloom: [u8; 12],
    pub service_bloom: [u8; 6],
}

/// The 28 bytes of a summary.
pub open spec fn segment_summary_bytes(s: SegmentSummary) -> Seq<u8> {
    bytes::le_bytes(s.pattern_mask as nat, 8) + seq![s.level_mask, s.flags] + s.param_bloom@
        + s.service_bloom@
}

/// The empty summary.
pub open spec fn is_empty_summary(s: SegmentSummary) -> bool {
    &&& s.pattern_mask == 0
    &&& s.level_mask == 0
    &&& s.flags == 0
    &&& s.param_bloom@ == Seq::new(12, |i: int| 0u8)
    &&& s.service_bloom@ == Seq::new(6, |i: int| 0u8)
}

/// The first three positions of a text, taken modulo the filter's width, are
/// set.
pub open spec fn folded_marked(f: Seq<u8>, width: nat, s: Seq<u8>) -> bool {
    forall|seed: u64|
        seed < 3 ==> bloom::filter_bit(f, #[trigger] bloom::bloom_position(s, seed) % width)
}

/// A bit of a chunk filter that is folded onto bit `q` is set.
pub open spec fn folds_onto(chunk: Seq<u8>, q: nat) -> bool {
    exists|p: nat| p < 512 && p % 96 == q && #[trigger] bloom::filter_bit(chunk, p)
}

impl Default for SegmentSummary {
    fn default() -> (r: Self)
        ensures
            is_empty_summary(r),
    {
        let r: SegmentSummary = SegmentSummary {
            pattern_mask: 0,
            level_mask: 0,
            flags: 0,
            param_bloom: [0u8;12],
            service_bloom: [0u8;6],
        };
        assert(r.param_bloom@ =~= Seq::new(12, |i: int| 0u8));
        assert(r.service_bloom@ =~= Seq::new(6, |i: int| 0u8));
        r
    }
}

/// The position of a text in the service filter, one for each seed.
pub fn bloom_hash(s: &str, seed: u64) -> (r: usize)
    ensures
        r == bloom::bloom_position(s.spec_bytes(), seed) % 48,
        r < 48,
{
    bloom::position(s.as_bytes(), seed) % 48
}

fn folded_has(f: &[u8], width: usize, s: &str) -> (r: bool)
    requires
        0 < width,
        width == 8 * f@.len(),
    ensures
        r == folded_marked(f@, width as nat, s.spec_bytes()),
{
    let mut seed: u64 = 0;
    while seed < 3
        invariant
            seed <= 3,
            0 < width,
            width == 8 * f@.len(),
            forall|k: u64|
                k < seed ==> bloom::filter_bit(
                    f@,
                    #[trigger] bloom::bloom_position(s.spec_bytes(), k) % (width as nat),
                ),
        decreases 3 - seed,
    {
        let p: usize = bloom::position(s.as_bytes(), seed);
        let pos: usize = p % width;
        assert(pos == bloom::bloom_position(s.spec_bytes(), seed) % (width as nat));
        if !bloom::has_bit(f, pos) {
            return false;
        }
        seed += 1;
    }
    true
}

impl SegmentSummary {
    /// Flag: the summary was filled in.
    pub const HAS_SUMMARY: u8 = 1;

    /// Whether the summary was filled in.
    pub fn has_summary(&self) -> (r: bool)
        ensures
            r == (self.flags & 1 != 0),
    {
        self.flags & SegmentSummary::HAS_SUMMARY != 0
    }

    /// Whether the segment may hold a line whose whole message or one of whose
    /// parameters is `keyword`. A negative answer is certain. The empty text may always be there.
    pub fn bloom_may_contain_param(&self, keyword: &str) -> (r: bool)
        ensures
            r == (keyword@.len() == 0 || folded_marked(
                self.param_bloom@,
                96,
                keyword.spec_bytes(),
            )),
    {
        keyword.is_empty() || folded_has(self.param_bloom.as_slice(), 96, keyword)
    }

    /// Whether the service filter may hold `keyword`. A negative answer is
    /// certain. The empty text may always be there.
    pub fn bloom_may_contain_service(&self, keyword: &str) -> (r: bool)
        ensures
            r == (keyword@.len() == 0 || folded_marked(
                self.service_bloom@,
                48,
                keyword.spec_bytes(),
            )),
    {
        keyword.is_empty() || folded_has(self.service_bloom.as_slice(), 48, keyword)
    }

    /// Takes a chunk's summary in: masks are joined, the filter is folded.
    pub fn absorb(&mut self, cs: &ChunkSummary)
        ensures
            final(self).pattern_mask == old(self).pattern_mask | cs.pattern_mask,
            final(self).level_mask == old(self).level_mask | cs.level_mask,
            final(self).flags == old(self).flags,
            final(self).service_bloom == old(self).service_bloom,
            forall|q: nat|
                q < 96 ==> #[trigger] bloom::filter_bit(final(self).param_bloom@, q) == (
                bloom::filter_bit(old(self).param_bloom@, q) || folds_onto(cs.param_bloom@, q)),
    {
        self.pattern_mask = self.pattern_mask | cs.pattern_mask;
        self.level_mask = self.level_mask | cs.level_mask;
        let ghost before = self.param_bloom@;
        let ghost chunk = cs.param_bloom@;
        let mut filter: [u8; 12] = self.param_bloom;
        let mut j: usize = 0;
        while j < 64
            invariant
                j <= 64,
                filter@.len() == 12,
                chunk == cs.param_bloom@,
                chunk.len() == 64,
                before.len() == 12,
                forall|q: nat|
                    q < 96 ==> #[trigger] bloom::filter_bit(filter@, q) == (bloom::filter_bit(
                        before,
                        q,
                    ) || folds_onto_below(chunk, q, 8 * j as nat)),
            decreases 64 - j,
        {
            let k: usize = j % 12;
            let ghost prev = filter@;
            filter[k] = filter[k] | cs.param_bloom[j];
            proof {
                assert forall|q: nat| q < 96 implies #[trigger] bloom::filter_bit(filter@, q) == (
                bloom::filter_bit(before, q) || folds_onto_below(chunk, q, 8 * (j + 1) as nat)) by {
                    lemma_fold_step(prev, filter@, before, chunk, j as nat, q);
                }
            }
            j += 1;
        }
        self.param_bloom = filter;
        proof {
            assert forall|q: nat| q < 96 implies #[trigger] bloom::filter_bit(
                self.param_bloom@,
                q,
            ) == (bloom::filter_bit(before, q) || folds_onto(chunk, q)) by {
                assert(folds_onto_below(chunk, q, 512) == folds_onto(chunk, q));
            }
        }
    }
}

/// The pattern masks of chunks, joined.
pub open spec fn joined_patterns(css: Seq<ChunkSummary>) -> u64
    decreases css.len(),
{
    if css.len() == 0 {
        0
    } else {
        joined_patterns(css.drop_last()) | css.last().pattern_mask
    }
}

/// The level masks of chunks, joined.
pub open spec fn joined_levels(css: Seq<ChunkSummary>) -> u8
    decreases css.len(),
{
    if css.len() == 0 {
        0
    } else {
        joined_levels(css.drop_last()) | css.last().level_mask
    }
}

/// A bit of some chunk's filter is folded onto bit `q`.
pub open spec fn some_folds_onto(css: Seq<ChunkSummary>, q: nat) -> bool {
    exists|i: int| 0 <= i < css.len() && folds_onto((#[trigger] css[i]).param_bloom@, q)
}

/// `s` is the summary of a segment with these chunk summaries.
pub open spec fn summarizes(s: SegmentSummary, css: Seq<ChunkSummary>) -> bool {
    &&& s.pattern_mask == joined_patterns(css)
    &&& s.level_mask == joined_levels(css)
    &&& s.flags == SegmentSummary::HAS_SUMMARY
    &&& s.service_bloom@ == Seq::new(6, |i: int| 0u8)
    &&& forall|q: nat|
        q < 96 ==> #[trigger] bloom::filter_bit(s.param_bloom@, q) == some_folds_onto(css, q)
}

impl SegmentSummary {
    /// The summary of a segment with these chunk summaries.
    pub fn of_chunks(css: &[ChunkSummary]) -> (r: SegmentSummary)
        ensures
            summarizes(r, css@),
    {
        let mut s: SegmentSummary = SegmentSummary::default();
        let mut i: usize = 0;
        proof {
            assert(css@.take(0).len() == 0);
            assert forall|q: nat| q < 96 implies !#[trigger] bloom::filter_bit(
                s.param_bloom@,
                q,
            ) by {
                let k: u8 = (q % 8) as u8;
                assert((0u8 >> k) & 1 == 0) by (bit_vector);
                assert(s.param_bloom@[(q / 8) as int] == 0);
            }
        }
        while i < css.len()
            invariant
                i <= css@.len(),
                s.pattern_mask == joined_patterns(css@.take(i as int)),
                s.level_mask == joined_levels(css@.take(i as int)),
                s.service_bloom@ == Seq::new(6, |i: int| 0u8),
                forall|q: nat|
                    q < 96 ==> #[trigger] bloom::filter_bit(s.param_bloom@, q) == some_folds_onto(
                        css@.take(i as int),
                        q,
                    ),
            decreases css@.len() - i,
        {
            let ghost a = css@.take(i as int);
            let ghost b = css@.take(i as int + 1);
            let ghost before = s.param_bloom@;
            s.absorb(&css[i]);
            proof {
                assert(b.drop_last() =~= a);
                assert(b.last() == css@[i as int]);
                assert forall|q: nat| q < 96 implies #[trigger] bloom::filter_bit(
                    s.param_bloom@,
                    q,
                ) == some_folds_onto(b, q) by {
                    assert(bloom::filter_bit(before, q) == some_folds_onto(a, q));
                    if some_folds_onto(a, q) {
                        let k: int = choose|k: int|
                            0 <= k < a.len() && folds_onto((#[trigger] a[k]).param_bloom@, q);
                        assert(b[k] == a[k]);
                    }
                    if folds_onto(css@[i as int].param_bloom@, q) {
                        assert(folds_onto(b[i as int].param_bloom@, q));
                    }
                    if some_folds_onto(b, q) && !folds_onto(css@[i as int].param_bloom@, q) {
                        let k: int = choose|k: int|
                            0 <= k < b.len() && folds_onto((#[trigger] b[k]).param_bloom@, q);
                        assert(a[k] == b[k]);
                    }
                }
            }
            i += 1;
        }
        assert(css@.take(i as int) =~= css@);
        s.flags = SegmentSummary::HAS_SUMMARY;
        s
    }
}

/// As `folds_onto`, of the bits below `limit`.
spec fn folds_onto_below(chunk: Seq<u8>, q: nat, limit: nat) -> bool {
    exists|p: nat| p < limit && p % 96 == q && #[trigger] bloom::filter_bit(chunk, p)
}

proof fn lemma_fold_step(
    prev: Seq<u8>,
    next: Seq<u8>,
    before: Seq<u8>,
    chunk: Seq<u8>,
    j: nat,
    q: nat,
)
    requires
        j < 64,
        q < 96,
        chunk.len() == 64,
        prev.len() == 12,
        next == prev.update((j % 12) as int, prev[(j % 12) as int] | chunk[j as int]),
        bloom::filter_bit(prev, q) == (bloom::filter_bit(before, q) || folds_onto_below(
            chunk,
            q,
            8 * j,
        )),
    ensures
        bloom::filter_bit(next, q) == (bloom::filter_bit(before, q) || folds_onto_below(
            chunk,
            q,
            8 * (j + 1),
        )),
{
    let k: nat = q % 8;
    let p: nat = 8 * j + k;
    bloom::lemma_or_keeps(prev[(j % 12) as int], chunk[j as int], k as u8);
    assert(p / 8 == j && p % 8 == k);
    if q / 8 == j % 12 {
        assert(p % 96 == q);
        if bloom::filter_bit(next, q) && !bloom::filter_bit(prev, q) {
            assert(bloom::filter_bit(chunk, p));
        }
    }
    if folds_onto_below(chunk, q, 8 * j) {
        let w: nat = choose|w: nat|
            w < 8 * j && w % 96 == q && #[trigger] bloom::filter_bit(chunk, w);
        assert(w < 8 * (j + 1) && w % 96 == q && bloom::filter_bit(chunk, w));
    }
    if folds_onto_below(chunk, q, 8 * (j + 1)) && !folds_onto_below(chunk, q, 8 * j) {
        let w: nat = choose|w: nat|
            w < 8 * (j + 1) && w % 96 == q && #[trigger] bloom::filter_bit(chunk, w);
        assert(w >= 8 * j);
        assert(w / 8 == j);
        assert(q / 8 == j % 12);
        assert(w == p);
    }
}

/// A text marked in a chunk's filter is found in the segment's filter.
pub proof fn law_folded_filter_no_false_negative(chunk: Seq<u8>, f: Seq<u8>, s: Seq<u8>)
    requires
        bloom::marked(chunk, s, 5),
        forall|q: nat| q < 96 && folds_onto(chunk, q) ==> #[trigger] bloom::filter_bit(f, q),
    ensures
        folded_marked(f, 96, s),
{
    assert forall|seed: u64| seed < 3 implies bloom::filter_bit(
        f,
        #[trigger] bloom::bloom_position(s, seed) % 96,
    ) by {
        let p: nat = bloom::bloom_position(s, seed);
        assert(bloom::filter_bit(chunk, p));
        assert(p < 512);
        assert(folds_onto(chunk, p % 96));
    }
}

/// The filter of a segment is the filters of its chunks, folded to 96 bits: bit
/// `p` of a chunk's filter is bit `p mod 96` of the segment's, and no other bit
/// is set.
pub proof fn law_filter_folded(s: SegmentSummary, css: Seq<ChunkSummary>, i: int, p: nat, q: nat)
    requires
        summarizes(s, css),
    ensures
        0 <= i < css.len() && p < 512 && bloom::filter_bit(css[i].param_bloom@, p)
            ==> bloom::filter_bit(s.param_bloom@, p % 96),
        q < 96 && bloom::filter_bit(s.param_bloom@, q) ==> exists|c: int, w: nat|
            0 <= c < css.len() && w < 512 && w % 96 == q && #[trigger] bloom::filter_bit(
                css[c].param_bloom@,
                w,
            ),
{
    if 0 <= i < css.len() && p < 512 && bloom::filter_bit(css[i].param_bloom@, p) {
        assert(folds_onto(css[i].param_bloom@, p % 96));
        assert(some_folds_onto(css, p % 96));
    }
    if q < 96 && bloom::filter_bit(s.param_bloom@, q) {
        assert(some_folds_onto(css, q));
        let c: int = choose|c: int|
            0 <= c < css.len() && folds_onto((#[trigger] css[c]).param_bloom@, q);
        let w: nat = choose|w: nat|
            w < 512 && w % 96 == q && #[trigger] bloom::filter_bit(css[c].param_bloom@, w);
        assert(bloom::filter_bit(css[c].param_bloom@, w));
    }
}

} // verus!
