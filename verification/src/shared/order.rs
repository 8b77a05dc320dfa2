//! Putting things in descending order of a key.

use vstd::prelude::*;

verus! {

/// Item `a` comes before item `b`: its key is larger, or the keys are equal and
/// it stood before it.
pub open spec fn precedes(keys: Seq<u64>, a: int, b: int) -> bool {
    keys[a] > keys[b] || (keys[a] == keys[b] && a < b)
}

/// `order` lists the items from `lo` to `hi` in descending order of their keys;
/// items with the same key stay in the order in which they stood.
pub open spec fn ranks(keys: Seq<u64>, order: Seq<usize>, lo: int, hi: int) -> bool {
    &&& order.len() == hi - lo
    &&& forall|i: int| 0 <= i < order.len() ==> lo <= #[trigger] order[i] < hi
    &&& forall|i: int, j: int|
        0 <= i < j < order.len() ==> precedes(keys, #[trigger] order[i] as int, #[trigger]
        order[j] as int)
    &&& forall|k: usize| lo <= k < hi ==> #[trigger] order.contains(k)
}

/// `r` holds the items of `s` in descending order of their keys; items with the
/// same key stay in the order in which they stood.
pub open spec fn is_ranking<T>(s: Seq<T>, keys: Seq<u64>, r: Seq<T>) -> bool {
    exists|order: Seq<usize>|
        {
            &&& #[trigger] ranks(keys, order, 0, s.len() as int)
            &&& r == Seq::new(s.len(), |i: int| s[order[i] as int])
        }
}

proof fn lemma_contains_push(s: Seq<usize>, v: usize, k: usize)
    requires
        s.contains(k) || k == v,
    ensures
        s.push(v).contains(k),
{
    if s.contains(k) {
        let i: int = choose|i: int| 0 <= i < s.len() && s[i] == k;
        assert(s.push(v)[i] == k);
    } else {
        assert(s.push(v)[s.len() as int] == v);
    }
}

fn merge(keys: &Vec<u64>, left: &Vec<usize>, right: &Vec<usize>, lo: usize, mid: usize, hi: usize)
    -> (r: Vec<usize>)
    requires
        lo <= mid <= hi <= keys@.len(),
        ranks(keys@, left@, lo as int, mid as int),
        ranks(keys@, right@, mid as int, hi as int),
    ensures
        ranks(keys@, r@, lo as int, hi as int),
{
    let ghost ks = keys@;
    let ghost a = left@;
    let ghost b = right@;
    let mut out: Vec<usize> = Vec::new();
    let mut i: usize = 0;
    let mut j: usize = 0;
    while i < left.len() || j < right.len()
        invariant
            ks == keys@,
            a == left@,
            b == right@,
            lo <= mid <= hi <= ks.len(),
            ranks(ks, a, lo as int, mid as int),
            ranks(ks, b, mid as int, hi as int),
            i <= a.len(),
            j <= b.len(),
            out@.len() == i + j,
            forall|p: int| 0 <= p < out@.len() ==> lo <= #[trigger] out@[p] < hi,
            forall|p: int, q: int|
                0 <= p < q < out@.len() ==> precedes(ks, #[trigger] out@[p] as int, #[trigger]
                out@[q] as int),
            forall|p: int, q: int|
                0 <= p < out@.len() && i <= q < a.len() ==> precedes(
                    ks,
                    #[trigger] out@[p] as int,
                    #[trigger] a[q] as int,
                ),
            forall|p: int, q: int|
                0 <= p < out@.len() && j <= q < b.len() ==> precedes(
                    ks,
                    #[trigger] out@[p] as int,
                    #[trigger] b[q] as int,
                ),
            forall|p: int| 0 <= p < i ==> out@.contains(#[trigger] a[p]),
            forall|p: int| 0 <= p < j ==> out@.contains(#[trigger] b[p]),
        decreases a.len() - i + b.len() - j,
    {
        let from_left: bool = j >= right.len() || (i < left.len() && keys[left[i]]
            >= keys[right[j]]);
        let ghost before = out@;
        let v: usize = if from_left {
            left[i]
        } else {
            right[j]
        };
        out.push(v);
        proof {
            assert forall|p: int, q: int| 0 <= p < out@.len() && i <= q < a.len() && (from_left
                ==> i < q) implies precedes(
                ks,
                #[trigger] out@[p] as int,
                #[trigger] a[q] as int,
            ) by {
                if p < before.len() {
                    assert(out@[p] == before[p]);
                } else if !from_left {
                    assert(precedes(ks, a[i as int] as int, a[q] as int) || i == q);
                    assert(keys[a[i as int] as int] < keys[b[j as int] as int]);
                }
            }
            assert forall|p: int, q: int| 0 <= p < out@.len() && j <= q < b.len() && (!from_left
                ==> j < q) implies precedes(
                ks,
                #[trigger] out@[p] as int,
                #[trigger] b[q] as int,
            ) by {
                if p < before.len() {
                    assert(out@[p] == before[p]);
                } else if from_left {
                    assert(precedes(ks, b[j as int] as int, b[q] as int) || j == q);
                }
            }
            assert forall|p: int| 0 <= p < i || (from_left && p == i) implies out@.contains(
                #[trigger] a[p],
            ) by {
                lemma_contains_push(before, v, a[p]);
            }
            assert forall|p: int| 0 <= p < j || (!from_left && p == j) implies out@.contains(
                #[trigger] b[p],
            ) by {
                lemma_contains_push(before, v, b[p]);
            }
        }
        if from_left {
            i += 1;
        } else {
            j += 1;
        }
    }
    proof {
        assert forall|k: usize| lo <= k < hi implies #[trigger] out@.contains(k) by {
            if k < mid {
                assert(a.contains(k));
                let p: int = choose|p: int| 0 <= p < a.len() && a[p] == k;
                assert(out@.contains(a[p]));
            } else {
                assert(b.contains(k));
                let p: int = choose|p: int| 0 <= p < b.len() && b[p] == k;
                assert(out@.contains(b[p]));
            }
        }
    }
    out
}

fn rank_range(keys: &Vec<u64>, lo: usize, hi: usize) -> (r: Vec<usize>)
    requires
        lo <= hi <= keys@.len(),
    ensures
        ranks(keys@, r@, lo as int, hi as int),
    decreases hi - lo,
{
    if lo == hi {
        return Vec::new();
    }
    if hi - lo == 1 {
        let mut one: Vec<usize> = Vec::new();
        one.push(lo);
        assert(one@[0] == lo);
        assert forall|k: usize| lo <= k < hi implies #[trigger] one@.contains(k) by {
            assert(one@[0] == k);
        }
        return one;
    }
    let mid: usize = lo + (hi - lo) / 2;
    let left: Vec<usize> = rank_range(keys, lo, mid);
    let right: Vec<usize> = rank_range(keys, mid, hi);
    merge(keys, &left, &right, lo, mid, hi)
}

/// The items in descending order of their keys; items with the same key stay in
/// the order in which they stand.
pub fn rank(keys: &Vec<u64>) -> (r: Vec<usize>)
    ensures
        ranks(keys@, r@, 0, keys@.len() as int),
{
    rank_range(keys, 0, keys.len())
}

} // verus!
