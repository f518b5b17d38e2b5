//! Ordering children heaviest first: a merge sort over node indices, keyed by
//! weight (larger first) and then by index (smaller first).
use vstd::prelude::*;
use vstd::seq_lib::{lemma_multiset_commutative, to_multiset_build};

verus! {

/// Node `x` comes no later than node `y`: it is heavier, or as heavy and not
/// after it in the arena.
pub open spec fn goes_before(ws: Seq<u64>, x: u32, y: u32) -> bool {
    ws[x as int] > ws[y as int] || (ws[x as int] == ws[y as int] && x <= y)
}

pub open spec fn heaviest_first(ws: Seq<u64>, s: Seq<u32>) -> bool {
    forall|i: int, j: int| 0 <= i < j < s.len() ==> goes_before(ws, #[trigger] s[i], #[trigger] s[j])
}

pub open spec fn ids_in(ws: Seq<u64>, s: Seq<u32>) -> bool {
    forall|i: int| 0 <= i < s.len() ==> #[trigger] s[i] < ws.len()
}

/// Sorts node indices heaviest first; among equal weights the smaller index
/// comes first, so a list given in increasing order keeps its order on ties,
/// as a stable sort by weight would.
pub fn sort_heaviest_first(ids: &[u32], ws: &Vec<u64>) -> (r: Vec<u32>)
    requires
        ids_in(ws@, ids@),
    ensures
        r@.to_multiset() == ids@.to_multiset(),
        r@.len() == ids@.len(),
        heaviest_first(ws@, r@),
        ids_in(ws@, r@),
    decreases ids@.len(),
{
    let n = ids.len();
    if n <= 1 {
        let mut out: Vec<u32> = Vec::new();
        if n == 1 {
            out.push(ids[0]);
            assert(out@ =~= ids@);
        } else {
            assert(out@ =~= ids@);
        }
        return out;
    }
    let mid = n / 2;
    let lo = vstd::slice::slice_subrange(ids, 0, mid);
    let hi = vstd::slice::slice_subrange(ids, mid, n);
    let left = sort_heaviest_first(lo, ws);
    let right = sort_heaviest_first(hi, ws);
    proof {
        assert(ids@ =~= lo@ + hi@);
        lemma_multiset_commutative(lo@, hi@);
    }
    merge(&left, &right, ws)
}

fn merge(l: &Vec<u32>, r: &Vec<u32>, ws: &Vec<u64>) -> (out: Vec<u32>)
    requires
        heaviest_first(ws@, l@),
        heaviest_first(ws@, r@),
        ids_in(ws@, l@),
        ids_in(ws@, r@),
    ensures
        out@.to_multiset() == l@.to_multiset().add(r@.to_multiset()),
        out@.len() == l@.len() + r@.len(),
        heaviest_first(ws@, out@),
        ids_in(ws@, out@),
{
    let mut out: Vec<u32> = Vec::new();
    let mut i: usize = 0;
    let mut j: usize = 0;
    proof {
        lemma_multiset_commutative(l@.take(0), r@.take(0));
        assert(l@.take(0) + r@.take(0) =~= out@);
    }
    while i < l.len() || j < r.len()
        invariant
            heaviest_first(ws@, l@),
            heaviest_first(ws@, r@),
            ids_in(ws@, l@),
            ids_in(ws@, r@),
            i <= l@.len(),
            j <= r@.len(),
            out@.len() == i + j,
            out@.to_multiset() == l@.take(i as int).to_multiset().add(
                r@.take(j as int).to_multiset(),
            ),
            heaviest_first(ws@, out@),
            ids_in(ws@, out@),
            forall|k: int|
                0 <= k < out@.len() ==> (i < l@.len() ==> goes_before(ws@, #[trigger] out@[k], l@[i as int]))
                    && (j < r@.len() ==> goes_before(ws@, out@[k], r@[j as int])),
        decreases l@.len() + r@.len() - i - j,
    {
        let take_left = if i >= l.len() {
            false
        } else if j >= r.len() {
            true
        } else {
            let x = l[i];
            let y = r[j];
            ws[x as usize] > ws[y as usize] || (ws[x as usize] == ws[y as usize] && x <= y)
        };
        let ghost old_out = out@;
        if take_left {
            let x = l[i];
            out.push(x);
            proof {
                assert(l@.take(i as int + 1) =~= l@.take(i as int).push(x));
                to_multiset_build(l@.take(i as int), x);
                to_multiset_build(old_out, x);
                if i + 1 < l@.len() {
                    assert(goes_before(ws@, l@[i as int], l@[i as int + 1]));
                }
            }
            i = i + 1;
        } else {
            let y = r[j];
            out.push(y);
            proof {
                assert(r@.take(j as int + 1) =~= r@.take(j as int).push(y));
                to_multiset_build(r@.take(j as int), y);
                to_multiset_build(old_out, y);
                if j + 1 < r@.len() {
                    assert(goes_before(ws@, r@[j as int], r@[j as int + 1]));
                }
            }
            j = j + 1;
        }
    }
    proof {
        assert(l@.take(i as int) =~= l@);
        assert(r@.take(j as int) =~= r@);
    }
    out
}

} // verus!
