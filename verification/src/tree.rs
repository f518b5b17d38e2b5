//! The arena that holds the directory tree while it is built, and the
//! recursive measures (sizes, sums, heights) that the scene is checked against.
use crate::lang::Lang;
use vstd::prelude::*;

verus! {

/// One file or directory of the tree under construction.
/// `children` holds arena indices, each greater than the node's own.
pub struct BNode {
    pub name: String,
    pub path: String,
    pub is_dir: bool,
    pub lang: Lang,
    pub lines: u32,
    pub bytes: u64,
    pub weight: u64,
    pub children: Vec<u32>,
}

/// The quantities that are summed over a subtree.
#[derive(Clone, Copy)]
pub enum Measure {
    /// Number of nodes.
    Count,
    /// Bytes of the node's name in UTF-8.
    NameBytes,
    /// Bytes of the node's path in UTF-8.
    PathBytes,
    /// Number of files.
    Files,
    /// Number of directories.
    Dirs,
    /// Counted lines of files.
    Lines,
    /// Size in bytes of files.
    Bytes,
    /// The weight that a node carries by itself, in fortieths of a line.
    OwnWeight,
    /// The weight stored in the node.
    Weight,
}

/// Weights are kept exactly, in fortieths of a line: a line of text weighs 40,
/// a binary file 40, and a file without counted lines one unit per byte, at least 40.
pub open spec fn own_weight(b: BNode) -> nat {
    if b.is_dir {
        0
    } else if b.lang == Lang::Binary {
        40
    } else if b.lines > 0 {
        b.lines as nat * 40
    } else if b.bytes >= 40 {
        b.bytes as nat
    } else {
        40
    }
}

/// A text file whose lines were counted weighs 40 per line, whatever its
/// size; the size counts only when no lines were counted (a unit per byte,
/// at least 40); a binary file weighs 40 and a directory nothing. So two
/// counted files of the same lines weigh the same, whatever their sizes.
pub proof fn law_own_weight(b: BNode, c: BNode)
    ensures
        b.is_dir ==> own_weight(b) == 0,
        !b.is_dir && b.lang == Lang::Binary ==> own_weight(b) == 40,
        !b.is_dir && b.lang != Lang::Binary && b.lines > 0 ==> own_weight(b) == 40 * b.lines,
        !b.is_dir && b.lang != Lang::Binary && b.lines == 0 ==> own_weight(b) == if b.bytes >= 40 {
            b.bytes as int
        } else {
            40
        },
        !b.is_dir && !c.is_dir && b.lang != Lang::Binary && c.lang != Lang::Binary && b.lines > 0
            && b.lines == c.lines ==> own_weight(b) == own_weight(c),
{
}

pub open spec fn measure(m: Measure, b: BNode) -> nat {
    match m {
        Measure::Count => 1,
        Measure::NameBytes => vstd::utf8::encode_utf8(b.name@).len(),
        Measure::PathBytes => vstd::utf8::encode_utf8(b.path@).len(),
        Measure::Files => if b.is_dir { 0 } else { 1 },
        Measure::Dirs => if b.is_dir { 1 } else { 0 },
        Measure::Lines => if b.is_dir { 0 } else { b.lines as nat },
        Measure::Bytes => if b.is_dir { 0 } else { b.bytes as nat },
        Measure::OwnWeight => own_weight(b),
        Measure::Weight => b.weight as nat,
    }
}

/// Every child index lies after its parent and inside the arena.
pub open spec fn arena_wf(a: Seq<BNode>) -> bool {
    &&& a.len() > 0
    &&& forall|i: int, k: int|
        0 <= i < a.len() && 0 <= k < a[i].children@.len() ==> i < #[trigger] a[i].children@[k]
            < a.len()
}

/// The sum of measure `m` over the subtree of node `i`.
pub open spec fn fold(a: Seq<BNode>, i: int, m: Measure) -> nat
    decreases a.len() - i, a[i].children@.len() + 1,
{
    if 0 <= i < a.len() {
        measure(m, a[i]) + kids_fold(a, i, a[i].children@.len() as int, m)
    } else {
        0
    }
}

/// The sum of measure `m` over the subtrees of the first `k` children of `i`.
pub open spec fn kids_fold(a: Seq<BNode>, i: int, k: int, m: Measure) -> nat
    decreases a.len() - i, k,
{
    if 0 <= i < a.len() && 0 < k <= a[i].children@.len() {
        let c = a[i].children@[k - 1] as int;
        kids_fold(a, i, k - 1, m) + if i < c < a.len() {
            fold(a, c, m)
        } else {
            0
        }
    } else {
        0
    }
}

/// The number of edges on the longest downward path from `i`.
pub open spec fn height(a: Seq<BNode>, i: int) -> nat
    decreases a.len() - i, a[i].children@.len() + 1,
{
    if 0 <= i < a.len() {
        kids_height(a, i, a[i].children@.len() as int)
    } else {
        0
    }
}

pub open spec fn kids_height(a: Seq<BNode>, i: int, k: int) -> nat
    decreases a.len() - i, k,
{
    if 0 <= i < a.len() && 0 < k <= a[i].children@.len() {
        let c = a[i].children@[k - 1] as int;
        let h = if i < c < a.len() {
            height(a, c) + 1
        } else {
            0
        };
        let rest = kids_height(a, i, k - 1);
        if h > rest {
            h
        } else {
            rest
        }
    } else {
        0
    }
}

pub open spec fn sat64(x: int) -> int {
    if x > u64::MAX {
        u64::MAX as int
    } else {
        x
    }
}

pub proof fn lemma_sat64_add(x: int, y: int)
    requires
        x >= 0,
        y >= 0,
    ensures
        sat64(sat64(x) + sat64(y)) == sat64(x + y),
{
}

pub proof fn lemma_kids_fold_mono(a: Seq<BNode>, i: int, j: int, k: int, m: Measure)
    requires
        0 <= j <= k <= a[i].children@.len(),
    ensures
        kids_fold(a, i, j, m) <= kids_fold(a, i, k, m),
    decreases k - j,
{
    if j < k {
        lemma_kids_fold_mono(a, i, j, k - 1, m);
    }
}

pub proof fn lemma_kids_height_mono(a: Seq<BNode>, i: int, j: int, k: int)
    requires
        0 <= j <= k <= a[i].children@.len(),
    ensures
        kids_height(a, i, j) <= kids_height(a, i, k),
    decreases k - j,
{
    if j < k {
        lemma_kids_height_mono(a, i, j, k - 1);
    }
}

/// A subtree is never taller than the part of the arena from its root on.
pub proof fn lemma_height_bound(a: Seq<BNode>, i: int)
    requires
        arena_wf(a),
        0 <= i < a.len(),
    ensures
        height(a, i) < a.len() - i,
    decreases a.len() - i, a[i].children@.len() + 1,
{
    lemma_kids_height_bound(a, i, a[i].children@.len() as int);
}

pub proof fn lemma_kids_height_bound(a: Seq<BNode>, i: int, k: int)
    requires
        arena_wf(a),
        0 <= i < a.len(),
        0 <= k <= a[i].children@.len(),
    ensures
        kids_height(a, i, k) < a.len() - i,
    decreases a.len() - i, k,
{
    if k > 0 {
        lemma_kids_height_bound(a, i, k - 1);
        let c = a[i].children@[k - 1] as int;
        lemma_height_bound(a, c);
    }
}

/// The measure `m` of one node.
pub fn measure_of(m: Measure, b: &BNode) -> (r: u64)
    ensures
        r == measure(m, *b),
{
    match m {
        Measure::Count => 1,
        Measure::NameBytes => b.name.as_str().as_bytes().len() as u64,
        Measure::PathBytes => b.path.as_str().as_bytes().len() as u64,
        Measure::Files => if b.is_dir { 0 } else { 1 },
        Measure::Dirs => if b.is_dir { 1 } else { 0 },
        Measure::Lines => if b.is_dir { 0 } else { b.lines as u64 },
        Measure::Bytes => if b.is_dir { 0 } else { b.bytes },
        Measure::OwnWeight => {
            if b.is_dir {
                0
            } else if b.lang.is_binary() {
                40
            } else if b.lines > 0 {
                b.lines as u64 * 40
            } else if b.bytes >= 40 {
                b.bytes
            } else {
                40
            }
        },
        Measure::Weight => b.weight,
    }
}

/// The sum of measure `m` over every subtree fits in a `u64`.
pub open spec fn all_fit(a: Seq<BNode>, m: Measure) -> bool {
    forall|j: int| 0 <= j < a.len() ==> #[trigger] fold(a, j, m) <= u64::MAX
}

/// The sum of measure `m` over the subtree of every node, or `None` where
/// some such sum does not fit in a `u64`.
pub fn fold_all(arena: &Vec<BNode>, m: Measure) -> (r: Option<Vec<u64>>)
    requires
        arena_wf(arena@),
    ensures
        r is Some <==> all_fit(arena@, m),
        r matches Some(v) ==> v@.len() == arena@.len() && forall|j: int|
            0 <= j < arena@.len() ==> #[trigger] v@[j] == fold(arena@, j, m),
{
    let n = arena.len();
    let mut out: Vec<u64> = Vec::new();
    let mut t: usize = 0;
    while t < n
        invariant
            n == arena@.len(),
            t <= n,
            out@.len() == t,
        decreases n - t,
    {
        out.push(0);
        t = t + 1;
    }
    let mut j = n;
    while j > 0
        invariant
            arena_wf(arena@),
            j <= n == arena@.len() == out@.len(),
            forall|q: int| j <= q < n ==> #[trigger] out@[q] == fold(arena@, q, m),
        decreases j,
    {
        j = j - 1;
        let mut sum = measure_of(m, &arena[j]);
        let nk = arena[j].children.len();
        let mut k: usize = 0;
        while k < nk
            invariant
                arena_wf(arena@),
                j < n == arena@.len() == out@.len(),
                forall|q: int| j < q < n ==> #[trigger] out@[q] == fold(arena@, q, m),
                k <= nk == arena@[j as int].children@.len(),
                sum == measure(m, arena@[j as int]) + kids_fold(arena@, j as int, k as int, m),
            decreases nk - k,
        {
            let c = arena[j].children[k] as usize;
            assert(j < c < n);
            match sum.checked_add(out[c]) {
                Some(s) => sum = s,
                None => {
                    proof {
                        lemma_kids_fold_mono(arena@, j as int, k as int + 1, nk as int, m);
                    }
                    assert(fold(arena@, j as int, m) > u64::MAX);
                    return None;
                },
            }
            k = k + 1;
        }
        out.set(j, sum);
    }
    assert forall|q: int| 0 <= q < n implies fold(arena@, q, m) <= u64::MAX by {
        assert(out@[q] == fold(arena@, q, m));
    }
    Some(out)
}

/// The height of every node's subtree.
pub fn heights(arena: &Vec<BNode>) -> (v: Vec<u64>)
    requires
        arena_wf(arena@),
    ensures
        v@.len() == arena@.len(),
        forall|j: int| 0 <= j < arena@.len() ==> #[trigger] v@[j] == height(arena@, j),
{
    let n = arena.len();
    let mut out: Vec<u64> = Vec::new();
    let mut t: usize = 0;
    while t < n
        invariant
            n == arena@.len(),
            t <= n,
            out@.len() == t,
        decreases n - t,
    {
        out.push(0);
        t = t + 1;
    }
    let mut j = n;
    while j > 0
        invariant
            arena_wf(arena@),
            j <= n == arena@.len() == out@.len(),
            forall|q: int| j <= q < n ==> #[trigger] out@[q] == height(arena@, q),
        decreases j,
    {
        j = j - 1;
        let mut h: u64 = 0;
        let nk = arena[j].children.len();
        let mut k: usize = 0;
        while k < nk
            invariant
                arena_wf(arena@),
                j < n == arena@.len() == out@.len(),
                forall|q: int| j < q < n ==> #[trigger] out@[q] == height(arena@, q),
                k <= nk == arena@[j as int].children@.len(),
                h == kids_height(arena@, j as int, k as int),
            decreases nk - k,
        {
            let c = arena[j].children[k] as usize;
            assert(j < c < n);
            proof {
                lemma_height_bound(arena@, c as int);
            }
            let hc = out[c] + 1;
            if hc > h {
                h = hc;
            }
            k = k + 1;
        }
        out.set(j, h);
    }
    out
}

/// Two arenas with the same children lists, whose nodes agree on measures
/// `ma` and `mb`, have the same subtree sums of them.
pub proof fn lemma_fold_same(a: Seq<BNode>, b: Seq<BNode>, i: int, ma: Measure, mb: Measure)
    requires
        a.len() == b.len(),
        forall|j: int|
            0 <= j < a.len() ==> (#[trigger] a[j]).children@ == b[j].children@ && measure(ma, a[j])
                == measure(mb, b[j]),
    ensures
        fold(a, i, ma) == fold(b, i, mb),
    decreases a.len() - i, a[i].children@.len() + 1,
{
    if 0 <= i < a.len() {
        lemma_kids_fold_same(a, b, i, a[i].children@.len() as int, ma, mb);
    }
}

proof fn lemma_kids_fold_same(a: Seq<BNode>, b: Seq<BNode>, i: int, k: int, ma: Measure, mb: Measure)
    requires
        a.len() == b.len(),
        forall|j: int|
            0 <= j < a.len() ==> (#[trigger] a[j]).children@ == b[j].children@ && measure(ma, a[j])
                == measure(mb, b[j]),
        0 <= i < a.len(),
        0 <= k <= a[i].children@.len(),
    ensures
        kids_fold(a, i, k, ma) == kids_fold(b, i, k, mb),
    decreases a.len() - i, k,
{
    assert(a[i].children@ == b[i].children@);
    if k > 0 {
        lemma_kids_fold_same(a, b, i, k - 1, ma, mb);
        let c = a[i].children@[k - 1] as int;
        if i < c < a.len() {
            lemma_fold_same(a, b, c, ma, mb);
        }
    }
}

/// Every child's subtree holds at least its root, so `k` children hold at
/// least `k` nodes.
pub proof fn lemma_kids_count(a: Seq<BNode>, i: int, k: int)
    requires
        arena_wf(a),
        0 <= i < a.len(),
        0 <= k <= a[i].children@.len(),
    ensures
        kids_fold(a, i, k, Measure::Count) >= k,
    decreases k,
{
    if k > 0 {
        lemma_kids_count(a, i, k - 1);
        let c = a[i].children@[k - 1] as int;
        assert(fold(a, c, Measure::Count) >= 1);
    }
}

} // verus!
