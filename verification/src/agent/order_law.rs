//! The order of the entries of the index, and the numbers it gives out.

use crate::agent::index;
use crate::agent::index::{Index, MetaView};
use crate::agent::index_law;
use crate::agent::index_open;
use crate::agent::index_open::FileView;
use vstd::prelude::*;

verus! {

proof fn lemma_placed_listed(s: Seq<MetaView>, m: MetaView, i: int)
    requires
        0 <= i < s.len(),
    ensures
        index::placed(s, m).contains(s[i]),
    decreases s.len(),
{
    let p: Seq<MetaView> = index::placed(s, m);
    if s.last().id <= m.id {
        assert(p[i] == s[i]);
    } else if i == s.len() - 1 {
        assert(p[p.len() - 1] == s[i]);
    } else {
        let t: Seq<MetaView> = s.drop_last();
        lemma_placed_listed(t, m, i);
        let k: int = choose|k: int| 0 <= k < index::placed(t, m).len() && index::placed(t, m)[k]
            == t[i];
        assert(p[k] == s[i]);
    }
}

/// An entry that is added takes its place by its number: it stands in the list
/// with all others, and the list stays in ascending order of the numbers.
pub proof fn law_placed(s: Seq<MetaView>, m: MetaView)
    requires
        forall|i: int, j: int|
            0 <= i < j < s.len() ==> (#[trigger] s[i]).id <= (#[trigger] s[j]).id,
    ensures
        index::placed(s, m).len() == s.len() + 1,
        index::placed(s, m).contains(m),
        forall|i: int| 0 <= i < s.len() ==> index::placed(s, m).contains(#[trigger] s[i]),
        forall|k: int|
            0 <= k < s.len() + 1 ==> (#[trigger] index::placed(s, m)[k] == m || s.contains(
                index::placed(s, m)[k],
            )),
        forall|i: int, j: int|
            0 <= i < j < s.len() + 1 ==> (#[trigger] index::placed(s, m)[i]).id <= (
            #[trigger] index::placed(s, m)[j]).id,
    decreases s.len(),
{
    let p: Seq<MetaView> = index::placed(s, m);
    assert forall|i: int| 0 <= i < s.len() implies p.contains(#[trigger] s[i]) by {
        lemma_placed_listed(s, m, i);
    }
    if s.len() == 0 || s.last().id <= m.id {
        assert(p[s.len() as int] == m);
        assert forall|k: int| 0 <= k < p.len() implies #[trigger] p[k] == m || s.contains(p[k]) by {
            if k < s.len() {
                assert(s[k] == p[k]);
            }
        }
        assert forall|i: int, j: int| 0 <= i < j < p.len() implies (#[trigger] p[i]).id <= (
        #[trigger] p[j]).id by {
            if j == s.len() {
                assert(s[i].id <= s[s.len() - 1].id);
            }
        }
    } else {
        let t: Seq<MetaView> = s.drop_last();
        let q: Seq<MetaView> = index::placed(t, m);
        assert forall|i: int, j: int| 0 <= i < j < t.len() implies (#[trigger] t[i]).id <= (
        #[trigger] t[j]).id by {
            assert(s[i].id <= s[j].id);
        }
        law_placed(t, m);
        let k: int = choose|k: int| 0 <= k < q.len() && q[k] == m;
        assert(p[k] == m);
        assert forall|k: int| 0 <= k < p.len() implies #[trigger] p[k] == m || s.contains(p[k]) by {
            if k < q.len() {
                assert(p[k] == q[k]);
                if q[k] != m {
                    let i: int = choose|i: int| 0 <= i < t.len() && t[i] == q[k];
                    assert(s[i] == p[k]);
                }
            } else {
                assert(s[s.len() - 1] == p[k]);
            }
        }
        assert forall|i: int, j: int| 0 <= i < j < p.len() implies (#[trigger] p[i]).id <= (
        #[trigger] p[j]).id by {
            if j == q.len() {
                assert(p[i] == q[i]);
                if q[i] != m {
                    let x: int = choose|x: int| 0 <= x < t.len() && t[x] == q[i];
                    assert(s[x].id <= s[s.len() - 1].id);
                }
            } else {
                assert(p[i] == q[i] && p[j] == q[j]);
            }
        }
    }
}

/// All entries that are added stand in the list, no others do, and the list is in
/// ascending order of the numbers.
pub proof fn law_all_placed(ms: Seq<MetaView>)
    ensures
        index::all_placed(ms).len() == ms.len(),
        forall|i: int| 0 <= i < ms.len() ==> index::all_placed(ms).contains(#[trigger] ms[i]),
        forall|k: int|
            0 <= k < ms.len() ==> ms.contains(#[trigger] index::all_placed(ms)[k]),
        forall|i: int, j: int|
            0 <= i < j < ms.len() ==> (#[trigger] index::all_placed(ms)[i]).id <= (
            #[trigger] index::all_placed(ms)[j]).id,
    decreases ms.len(),
{
    if ms.len() > 0 {
        let front: Seq<MetaView> = ms.drop_last();
        let s: Seq<MetaView> = index::all_placed(front);
        let m: MetaView = ms.last();
        let p: Seq<MetaView> = index::all_placed(ms);
        law_all_placed(front);
        law_placed(s, m);
        assert forall|i: int| 0 <= i < ms.len() implies p.contains(#[trigger] ms[i]) by {
            if i < front.len() {
                assert(front[i] == ms[i]);
                assert(s.contains(front[i]));
                let k: int = choose|k: int| 0 <= k < s.len() && s[k] == front[i];
                assert(p.contains(s[k]));
            }
        }
        assert forall|k: int| 0 <= k < ms.len() implies ms.contains(#[trigger] p[k]) by {
            if p[k] == m {
                assert(ms[ms.len() - 1] == p[k]);
            } else {
                let x: int = choose|x: int| 0 <= x < s.len() && s[x] == p[k];
                assert(front.contains(s[x]));
                let y: int = choose|y: int| 0 <= y < front.len() && front[y] == s[x];
                assert(ms[y] == p[k]);
            }
        }
    }
}

/// An index that was made anew gives out the number after its largest one, or 1
/// without segments: none that a segment has.
pub proof fn law_rebuilt_numbers(before: Index, now: Index, fs: Seq<FileView>, i: int)
    requires
        index_open::rebuilds_as(before, now, fs),
    ensures
        now.segments@.len() == 0 ==> now.next_id == 1,
        0 <= i < now.segments@.len() && now.segments@.last().id < u32::MAX
            ==> now.segments@[i].id < now.next_id,
        now.segments@.len() > 0 && now.segments@.last().id < u32::MAX ==> now.next_id
            == now.segments@.last().id + 1,
{
    let ms: Seq<MetaView> = choose|ms: Seq<MetaView>|
        {
            &&& #[trigger] index_open::is_scan(before.data_dir@, fs, ms)
            &&& index::metas(now.segments@) == index::all_placed(ms)
        };
    law_all_placed(ms);
    let s: Seq<MetaView> = index::metas(now.segments@);
    let n: int = s.len() as int;
    assert(n == now.segments@.len());
    if 0 <= i < n {
        assert(s[i].id == now.segments@[i].id);
        assert(s[n - 1].id == now.segments@[n - 1].id);
    }
}

/// The index of an empty data directory has no segments, and the first number it
/// gives out is 1.
pub proof fn law_first_number(dir: Seq<char>, idx: Index)
    requires
        index_open::opens_as(dir, None, Seq::empty(), idx),
    ensures
        idx.segments@.len() == 0,
        idx.next_id == 1,
{
    let fs: Seq<FileView> = Seq::empty();
    let none: Option<&[u8]> = None;
    let ms: Seq<MetaView> = choose|ms: Seq<MetaView>|
        {
            &&& #[trigger] index_open::is_source(dir, none, fs, ms)
            &&& index::metas(idx.segments@) == index::all_placed(ms)
            &&& idx.next_id == index::next_after(1, ms)
        };
    let os = choose|os: Seq<Option<MetaView>>|
        {
            &&& os.len() == fs.len()
            &&& forall|i: int| 0 <= i < fs.len() ==> index_open::scans_as(
                dir,
                fs[i],
                #[trigger] os[i],
            )
            &&& ms == #[trigger] index_open::present(os, os.len())
        };
    assert(ms =~= Seq::<MetaView>::empty());
    law_all_placed(ms);
    assert(index::metas(idx.segments@).len() == idx.segments@.len());
}

/// An opened index without a manifest file gets one, if it has segments; and the
/// file gives its entries back, but for their paths.
pub proof fn law_manifest_made(
    manifest: Option<&[u8]>,
    idx: Index,
    saved: Option<Vec<u8>>,
    ms: Seq<MetaView>,
)
    requires
        index_open::saved_as(manifest, idx, saved),
        idx.wf(),
    ensures
        saved is Some <==> manifest is None && idx.segments@.len() > 0,
        saved is Some && index_open::is_load(saved->0@, ms) && ms.len() <= u64::MAX
            && idx.segments@.len() <= u64::MAX ==> ms.len() == idx.segments@.len() && forall|i: int|
            0 <= i < ms.len() ==> index_law::same_segment(
                #[trigger] ms[i],
                index::metas(idx.segments@)[i],
            ),
{
    if saved is Some && index_open::is_load(saved->0@, ms) && ms.len() <= u64::MAX
        && idx.segments@.len() <= u64::MAX {
        index_law::law_reload(index::metas(idx.segments@), ms);
    }
}

} // verus!
