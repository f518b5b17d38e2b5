//! Building the scene: the directory tree flattened into arrays, heaviest
//! children first, with subtree weights and totals.
use crate::lang::Lang;
use crate::tree::{
    BNode, Measure, arena_wf, fold, kids_fold, own_weight, sat64, lemma_sat64_add, height,
    kids_height, lemma_kids_fold_mono, lemma_kids_height_mono, lemma_kids_count, measure,
    lemma_fold_same,
};
use vstd::utf8::{encode_utf8, decode_utf8, valid_utf8};
use crate::paths::chars_of;
use vstd::string::StringSliceAdditionalSpecFns;
use vstd::prelude::*;
use crate::order::{goes_before, heaviest_first, ids_in, sort_heaviest_first};
use crate::tree::{fold_all, heights, all_fit};

verus! {

/// The weight that a node carries by itself (see `own_weight`).
pub fn own_weight_of(b: &BNode) -> (w: u64)
    ensures
        w == own_weight(*b),
{
    if b.is_dir {
        0
    } else if b.lang.is_binary() {
        40
    } else if b.lines > 0 {
        b.lines as u64 * 40
    } else if b.bytes >= 40 {
        b.bytes
    } else {
        40
    }
}

/// Two nodes that differ at most in their weight.
pub open spec fn same_but_weight(x: BNode, y: BNode) -> bool {
    &&& x.name == y.name
    &&& x.path == y.path
    &&& x.is_dir == y.is_dir
    &&& x.lang == y.lang
    &&& x.lines == y.lines
    &&& x.bytes == y.bytes
    &&& x.children == y.children
}

/// Sets the weight of every node to the weight it carries by itself (see
/// `own_weight`): nothing for a directory, 40 per counted line of a file.
pub fn set_own_weights(arena: &mut Vec<BNode>)
    ensures
        final(arena)@.len() == old(arena)@.len(),
        forall|j: int|
            0 <= j < old(arena)@.len() ==> same_but_weight(#[trigger] final(arena)@[j], old(arena)@[j])
                && final(arena)@[j].weight == own_weight(old(arena)@[j]),
{
    let ghost a0 = arena@;
    let n = arena.len();
    let mut j: usize = 0;
    while j < n
        invariant
            j <= n == arena@.len() == a0.len(),
            forall|m: int| 0 <= m < n ==> same_but_weight(#[trigger] arena@[m], a0[m]),
            forall|m: int| 0 <= m < j ==> #[trigger] arena@[m].weight == own_weight(a0[m]),
        decreases n - j,
    {
        let w = own_weight_of(&arena[j]);
        assert(same_but_weight(arena@[j as int], a0[j as int]));
        arena[j].weight = w;
        j = j + 1;
    }
}

/// `j` is among the first `k` children of node `q`.
pub open spec fn child_upto(a: Seq<BNode>, q: int, k: int, j: int) -> bool {
    exists|t: int| 0 <= t < k && t < a[q].children@.len() && a[q].children@[t] == j
}

/// `j` is a child of node `q`.
pub open spec fn is_child(a: Seq<BNode>, q: int, j: int) -> bool {
    child_upto(a, q, a[q].children@.len() as int, j)
}

/// Node `j` lies in the subtree of node `i`: it is `i`, or a child of a node
/// of that subtree. Children come after their parents, so only nodes before
/// `j` can hold it.
#[verifier::opaque]
pub open spec fn reaches(a: Seq<BNode>, i: int, j: int) -> bool
    decreases j,
{
    if j < i || i < 0 {
        false
    } else if j == i {
        true
    } else {
        exists|q: int| i <= q < j && #[trigger] is_child(a, q, j) && reaches(a, i, q)
    }
}

/// Reaching depends on the children lists alone.
pub proof fn lemma_reaches_same(a: Seq<BNode>, b: Seq<BNode>, i: int, j: int)
    requires
        a.len() == b.len(),
        forall|q: int| 0 <= q < a.len() ==> (#[trigger] a[q]).children@ == b[q].children@,
        0 <= i,
        j < a.len(),
    ensures
        reaches(a, i, j) == reaches(b, i, j),
    decreases j,
{
    reveal(reaches);
    if j > i {
        assert forall|q: int| i <= q < j implies reaches(a, i, q) == reaches(b, i, q) by {
            lemma_reaches_same(a, b, i, q);
        }
        if reaches(a, i, j) {
            let q = choose|q: int| i <= q < j && #[trigger] is_child(a, q, j) && reaches(a, i, q);
            assert(a[q].children@ == b[q].children@);
            assert(is_child(b, q, j));
        }
        if reaches(b, i, j) {
            let q = choose|q: int| i <= q < j && #[trigger] is_child(b, q, j) && reaches(b, i, q);
            assert(a[q].children@ == b[q].children@);
            assert(is_child(a, q, j));
        }
    }
}

/// A child of a node of the subtree of `i` is in it too.
pub proof fn lemma_reaches_child(a: Seq<BNode>, i: int, j: int, k: int)
    requires
        arena_wf(a),
        0 <= i,
        0 <= j < a.len(),
        0 <= k < a[j].children@.len(),
        reaches(a, i, j),
    ensures
        reaches(a, i, a[j].children@[k] as int),
{
    reveal(reaches);
    let c = a[j].children@[k] as int;
    assert(is_child(a, j, c));
    assert(i <= j < c && is_child(a, j, c) && reaches(a, i, j));
}

/// Marks the nodes of the subtree of `i`.
fn subtree_marks(arena: &Vec<BNode>, i: usize) -> (mark: Vec<bool>)
    requires
        arena_wf(arena@),
        i < arena@.len(),
    ensures
        mark@.len() == arena@.len(),
        forall|q: int| 0 <= q < arena@.len() ==> #[trigger] mark@[q] == reaches(arena@, i as int, q),
{
    let ghost a = arena@;
    let n = arena.len();
    let mut mark: Vec<bool> = Vec::new();
    let mut t: usize = 0;
    while t < n
        invariant
            t <= n == a.len(),
            mark@.len() == t,
            forall|q: int| 0 <= q < t ==> #[trigger] mark@[q] == (q == i),
        decreases n - t,
    {
        mark.push(t == i);
        t = t + 1;
    }
    let mut p: usize = i;
    proof {
        reveal(reaches);
        assert forall|q: int| 0 <= q < p implies #[trigger] mark@[q] == reaches(a, i as int, q) by {}
    }
    while p < n
        invariant
            a == arena@,
            arena_wf(a),
            i <= p <= n == a.len() == mark@.len(),
            forall|q: int| 0 <= q < p ==> #[trigger] mark@[q] == reaches(a, i as int, q),
            forall|q: int|
                p <= q < n ==> (#[trigger] mark@[q] <==> (q == i || exists|r: int|
                    i <= r < p && #[trigger] is_child(a, r, q) && reaches(a, i as int, r))),
        decreases n - p,
    {
        proof {
            reveal(reaches);
            assert(mark@[p as int] == reaches(a, i as int, p as int));
        }
        if mark[p] {
            let nk = arena[p].children.len();
            let mut k: usize = 0;
            while k < nk
                invariant
                    a == arena@,
                    arena_wf(a),
                    i <= p < n == a.len() == mark@.len(),
                    reaches(a, i as int, p as int),
                    k <= nk == a[p as int].children@.len(),
                    forall|q: int| 0 <= q <= p ==> #[trigger] mark@[q] == reaches(a, i as int, q),
                    forall|q: int|
                        p < q < n ==> (#[trigger] mark@[q] <==> (exists|r: int|
                            i <= r < p && #[trigger] is_child(a, r, q) && reaches(a, i as int, r))
                            || child_upto(a, p as int, k as int, q)),
                decreases nk - k,
            {
                let cu = arena[p].children[k];
                let c = cu as usize;
                assert(p < c < n);
                let ghost mk0 = mark@;
                mark.set(c, true);
                proof {
                    assert forall|q: int| p < q < n implies (#[trigger] mark@[q] <==> (exists|r: int|
                        i <= r < p && #[trigger] is_child(a, r, q) && reaches(a, i as int, r))
                        || child_upto(a, p as int, k + 1, q)) by {
                        if q == c {
                            assert(a[p as int].children@[k as int] == q);
                        } else {
                            assert(mark@[q] == mk0[q]);
                            if child_upto(a, p as int, k + 1, q) {
                                let t = choose|t: int| 0 <= t < k + 1 && t < a[p as int].children@.len() && a[p as int].children@[t] == q;
                                assert(t != k);
                            }
                        }
                    }
                }
                k = k + 1;
            }
            proof {
                assert forall|q: int| p < q < n implies (#[trigger] mark@[q] <==> (q == i || exists|r: int|
                    i <= r < p + 1 && #[trigger] is_child(a, r, q) && reaches(a, i as int, r))) by {
                    if is_child(a, p as int, q) {
                        assert(i <= p < p + 1 && is_child(a, p as int, q) && reaches(a, i as int, p as int));
                    }
                    if exists|r: int| i <= r < p + 1 && #[trigger] is_child(a, r, q) && reaches(a, i as int, r) {
                        let r = choose|r: int| i <= r < p + 1 && #[trigger] is_child(a, r, q) && reaches(a, i as int, r);
                        if r < p {
                            assert(i <= r < p && is_child(a, r, q) && reaches(a, i as int, r));
                        }
                    }
                }
            }
        } else {
            proof {
                assert forall|q: int| p < q < n implies (#[trigger] mark@[q] <==> (q == i || exists|r: int|
                    i <= r < p + 1 && #[trigger] is_child(a, r, q) && reaches(a, i as int, r))) by {
                    if exists|r: int| i <= r < p + 1 && #[trigger] is_child(a, r, q) && reaches(a, i as int, r) {
                        let r = choose|r: int| i <= r < p + 1 && #[trigger] is_child(a, r, q) && reaches(a, i as int, r);
                        assert(r != p);
                        assert(i <= r < p && is_child(a, r, q) && reaches(a, i as int, r));
                    }
                }
            }
        }
        p = p + 1;
    }
    mark
}

/// Sets the weight of every node of the subtree of `i` to the sum of the
/// weights over its own subtree, itself included, saturating at
/// `u64::MAX`, and gives back the new weight of `i`. Nodes outside the
/// subtree of `i` keep their weight. Children come after their parents in
/// the arena, so one pass from the last node to `i` sees every child
/// complete before its parent.
pub fn aggregate(arena: &mut Vec<BNode>, i: usize) -> (r: u64)
    requires
        arena_wf(old(arena)@),
        i < old(arena)@.len(),
    ensures
        final(arena)@.len() == old(arena)@.len(),
        forall|j: int|
            0 <= j < old(arena)@.len() ==> same_but_weight(#[trigger] final(arena)@[j], old(arena)@[j])
                && final(arena)@[j].weight == if reaches(old(arena)@, i as int, j) {
                    sat64(fold(old(arena)@, j, Measure::Weight) as int)
                } else {
                    old(arena)@[j].weight as int
                },
        r == final(arena)@[i as int].weight,
{
    let ghost a0 = arena@;
    let mark = subtree_marks(arena, i);
    let n = arena.len();
    let mut j = n;
    while j > 0
        invariant
            j <= n == arena@.len() == a0.len() == mark@.len(),
            arena_wf(a0),
            forall|q: int| 0 <= q < n ==> #[trigger] mark@[q] == reaches(a0, i as int, q),
            forall|m: int| 0 <= m < n ==> same_but_weight(#[trigger] arena@[m], a0[m]),
            forall|m: int| 0 <= m < j ==> #[trigger] arena@[m].weight == a0[m].weight,
            forall|m: int|
                j <= m < n ==> #[trigger] arena@[m].weight == if reaches(a0, i as int, m) {
                    sat64(fold(a0, m, Measure::Weight) as int)
                } else {
                    a0[m].weight as int
                },
        decreases j,
    {
        j = j - 1;
        if mark[j] {
            let mut sum = arena[j].weight;
            let nk = arena[j].children.len();
            let mut k: usize = 0;
            assert(same_but_weight(arena@[j as int], a0[j as int]));
            while k < nk
                invariant
                    j < n == arena@.len() == a0.len() == mark@.len(),
                    arena_wf(a0),
                    reaches(a0, i as int, j as int),
                    forall|q: int| 0 <= q < n ==> #[trigger] mark@[q] == reaches(a0, i as int, q),
                    forall|m: int| 0 <= m < n ==> same_but_weight(#[trigger] arena@[m], a0[m]),
                    forall|m: int| 0 <= m <= j ==> #[trigger] arena@[m].weight == a0[m].weight,
                    forall|m: int|
                        j < m < n ==> #[trigger] arena@[m].weight == if reaches(a0, i as int, m) {
                            sat64(fold(a0, m, Measure::Weight) as int)
                        } else {
                            a0[m].weight as int
                        },
                    k <= nk == a0[j as int].children@.len(),
                    sum == sat64(
                        (a0[j as int].weight + kids_fold(a0, j as int, k as int, Measure::Weight)) as int,
                    ),
                decreases nk - k,
            {
                assert(same_but_weight(arena@[j as int], a0[j as int]));
                let c = arena[j].children[k] as usize;
                assert(j < c < n);
                proof {
                    lemma_reaches_child(a0, i as int, j as int, k as int);
                }
                let cw = arena[c].weight;
                proof {
                    lemma_sat64_add(
                        (a0[j as int].weight + kids_fold(a0, j as int, k as int, Measure::Weight)) as int,
                        fold(a0, c as int, Measure::Weight) as int,
                    );
                }
                sum = sum.saturating_add(cw);
                k = k + 1;
            }
            arena[j].weight = sum;
        }
    }
    arena[i].weight
}


/// One node of the scene. Its name and path are byte ranges of the scene's
/// `names` and `paths`; its children are a range of `children_ids`, which
/// hold positions in `nodes`. `weight` is in fortieths of a line.
#[derive(Clone, Copy)]
pub struct Node {
    pub name_start: u32,
    pub name_len: u32,
    pub is_dir: bool,
    pub lang: Lang,
    pub depth: u16,
    pub lines: u32,
    pub weight: u64,
    pub children_start: u32,
    pub children_count: u32,
    pub path_start: u32,
    pub path_len: u32,
}

/// Totals over the files and directories of a scene.
#[derive(Clone, Copy)]
pub struct Stats {
    pub files: u64,
    pub dirs: u64,
    pub lines: u64,
    pub bytes: u64,
}

/// A flattened tree: the root at position `root`, each subtree in a
/// contiguous run of positions starting with its own root.
pub struct Scene {
    pub nodes: Vec<Node>,
    pub children_ids: Vec<u32>,
    pub names: Vec<u8>,
    pub paths: Vec<u8>,
    pub root: usize,
    pub stats: Stats,
}

/// `new` begins with all of `old`.
pub open spec fn extends<T>(old: Seq<T>, new: Seq<T>) -> bool {
    old.len() <= new.len() && new.subrange(0, old.len() as int) == old
}

/// The weight shown for a node: its subtree weight, at least one line.
pub open spec fn shown_weight(w: u64) -> u64 {
    if w >= 40 {
        w
    } else {
        40
    }
}

/// The fields of `n` that copy arena node `b` at depth `depth`.
pub open spec fn node_agrees(n: Node, b: BNode, depth: int) -> bool {
    &&& n.is_dir == b.is_dir
    &&& n.lang == b.lang
    &&& n.depth == depth
    &&& n.lines == b.lines
    &&& n.weight == shown_weight(b.weight)
    &&& n.children_count == b.children@.len()
    &&& n.name_len == encode_utf8(b.name@).len()
    &&& n.path_len == encode_utf8(b.path@).len()
}

/// The bytes `buf[start..start + len]`, when they lie inside `buf`.
pub open spec fn range_is(buf: Seq<u8>, start: u32, len: u32, want: Seq<u8>) -> bool {
    &&& start + len <= buf.len()
    &&& buf.subrange(start as int, start + len) == want
}

/// The position of the `k`-th child of arena node `i` when `i` is at `pos`:
/// right after `i`, past the subtrees of the children before it.
pub open spec fn child_pos(a: Seq<BNode>, i: int, pos: int, k: int) -> int {
    pos + 1 + kids_fold(a, i, k, Measure::Count)
}

/// Arena node `i` and its whole subtree stand in the scene arrays with `i`
/// at position `pos` and depth `depth`: each node's fields, name and path
/// copy the arena node's, and its children are listed in their arena order
/// at the positions `child_pos` gives.
pub open spec fn placed(
    a: Seq<BNode>,
    i: int,
    pos: int,
    depth: int,
    nodes: Seq<Node>,
    ids: Seq<u32>,
    names: Seq<u8>,
    paths: Seq<u8>,
) -> bool
    decreases a.len() - i, a[i].children@.len() + 1,
{
    if 0 <= i < a.len() && 0 <= pos < nodes.len() {
        let n = nodes[pos];
        &&& node_agrees(n, a[i], depth)
        &&& range_is(names, n.name_start, n.name_len, encode_utf8(a[i].name@))
        &&& range_is(paths, n.path_start, n.path_len, encode_utf8(a[i].path@))
        &&& n.children_start + n.children_count <= ids.len()
        &&& kids_placed(a, i, pos, depth, nodes, ids, names, paths, a[i].children@.len() as int)
    } else {
        false
    }
}

pub open spec fn kids_placed(
    a: Seq<BNode>,
    i: int,
    pos: int,
    depth: int,
    nodes: Seq<Node>,
    ids: Seq<u32>,
    names: Seq<u8>,
    paths: Seq<u8>,
    k: int,
) -> bool
    decreases a.len() - i, k,
{
    if 0 <= i < a.len() && 0 < k <= a[i].children@.len() {
        let c = a[i].children@[k - 1] as int;
        &&& kids_placed(a, i, pos, depth, nodes, ids, names, paths, k - 1)
        &&& 0 <= pos < nodes.len()
        &&& ids[nodes[pos].children_start + k - 1] == child_pos(a, i, pos, k - 1)
        &&& (i < c < a.len() ==> placed(
            a,
            c,
            child_pos(a, i, pos, k - 1),
            depth + 1,
            nodes,
            ids,
            names,
            paths,
        ))
    } else {
        true
    }
}

/// Placing survives changes outside the subtree's positions and appends to
/// the buffers.
pub proof fn lemma_placed_mono(
    a: Seq<BNode>,
    i: int,
    pos: int,
    depth: int,
    n1: Seq<Node>,
    d1: Seq<u32>,
    m1: Seq<u8>,
    p1: Seq<u8>,
    n2: Seq<Node>,
    d2: Seq<u32>,
    m2: Seq<u8>,
    p2: Seq<u8>,
)
    requires
        arena_wf(a),
        placed(a, i, pos, depth, n1, d1, m1, p1),
        n1.len() == n2.len(),
        pos + fold(a, i, Measure::Count) <= n1.len(),
        forall|q: int| pos <= q < pos + fold(a, i, Measure::Count) ==> n2[q] == n1[q],
        extends(d1, d2),
        extends(m1, m2),
        extends(p1, p2),
    ensures
        placed(a, i, pos, depth, n2, d2, m2, p2),
    decreases a.len() - i, a[i].children@.len() + 1,
{
    let n = n1[pos];
    assert(n2[pos] == n);
    assert(m2.subrange(n.name_start as int, n.name_start + n.name_len) == m1.subrange(
        n.name_start as int,
        n.name_start + n.name_len,
    )) by {
        assert(m1 == m2.subrange(0, m1.len() as int));
    }
    assert(p2.subrange(n.path_start as int, n.path_start + n.path_len) == p1.subrange(
        n.path_start as int,
        n.path_start + n.path_len,
    )) by {
        assert(p1 == p2.subrange(0, p1.len() as int));
    }
    lemma_kids_placed_mono(
        a,
        i,
        pos,
        depth,
        n1,
        d1,
        m1,
        p1,
        n2,
        d2,
        m2,
        p2,
        a[i].children@.len() as int,
    );
}

pub proof fn lemma_kids_placed_mono(
    a: Seq<BNode>,
    i: int,
    pos: int,
    depth: int,
    n1: Seq<Node>,
    d1: Seq<u32>,
    m1: Seq<u8>,
    p1: Seq<u8>,
    n2: Seq<Node>,
    d2: Seq<u32>,
    m2: Seq<u8>,
    p2: Seq<u8>,
    k: int,
)
    requires
        arena_wf(a),
        0 <= i < a.len(),
        0 <= k <= a[i].children@.len(),
        0 <= pos < n1.len(),
        n1[pos].children_start + n1[pos].children_count <= d1.len(),
        n1[pos].children_count == a[i].children@.len(),
        kids_placed(a, i, pos, depth, n1, d1, m1, p1, k),
        n1.len() == n2.len(),
        pos + fold(a, i, Measure::Count) <= n1.len(),
        forall|q: int| pos <= q < pos + fold(a, i, Measure::Count) ==> n2[q] == n1[q],
        extends(d1, d2),
        extends(m1, m2),
        extends(p1, p2),
    ensures
        kids_placed(a, i, pos, depth, n2, d2, m2, p2, k),
    decreases a.len() - i, k,
{
    if k > 0 {
        lemma_kids_placed_mono(a, i, pos, depth, n1, d1, m1, p1, n2, d2, m2, p2, k - 1);
        let c = a[i].children@[k - 1] as int;
        let at = child_pos(a, i, pos, k - 1);
        assert(n2[pos] == n1[pos]);
        let slot = n1[pos].children_start + k - 1;
        assert(d2[slot] == d1[slot]) by {
            assert(d1 == d2.subrange(0, d1.len() as int));
            assert(d1[slot] == d2.subrange(0, d1.len() as int)[slot]);
        }
        lemma_kids_fold_mono(a, i, k, a[i].children@.len() as int, Measure::Count);
        lemma_placed_mono(a, c, at, depth + 1, n1, d1, m1, p1, n2, d2, m2, p2);
    }
}


/// Collects, child by child, the facts that make up `kids_placed`.
proof fn lemma_kids_placed_intro(
    a: Seq<BNode>,
    i: int,
    pos: int,
    depth: int,
    nodes: Seq<Node>,
    ids: Seq<u32>,
    names: Seq<u8>,
    paths: Seq<u8>,
    k: int,
)
    requires
        0 <= i < a.len(),
        0 <= k <= a[i].children@.len(),
        0 <= pos < nodes.len(),
        forall|m: int|
            0 <= m < k ==> #[trigger] ids[nodes[pos].children_start + m] == child_pos(a, i, pos, m),
        forall|m: int|
            0 <= m < k ==> placed(
                a,
                #[trigger] a[i].children@[m] as int,
                child_pos(a, i, pos, m),
                depth + 1,
                nodes,
                ids,
                names,
                paths,
            ),
    ensures
        kids_placed(a, i, pos, depth, nodes, ids, names, paths, k),
    decreases k,
{
    if k > 0 {
        lemma_kids_placed_intro(a, i, pos, depth, nodes, ids, names, paths, k - 1);
        assert(ids[nodes[pos].children_start + (k - 1)] == child_pos(a, i, pos, k - 1));
        assert(placed(
            a,
            a[i].children@[k - 1] as int,
            child_pos(a, i, pos, k - 1),
            depth + 1,
            nodes,
            ids,
            names,
            paths,
        ));
    }
}

/// The ranges of node `n` lie inside the buffers, and its children are
/// positions below `len`.
pub open spec fn node_in_bounds(n: Node, len: int, ids: Seq<u32>, names: Seq<u8>, paths: Seq<u8>) -> bool {
    &&& n.name_start + n.name_len <= names.len()
    &&& n.path_start + n.path_len <= paths.len()
    &&& n.children_start + n.children_count <= ids.len()
    &&& forall|k: int| 0 <= k < n.children_count ==> #[trigger] ids[n.children_start + k] < len
}

pub proof fn lemma_in_bounds_mono(
    n: Node,
    len: int,
    d1: Seq<u32>,
    m1: Seq<u8>,
    p1: Seq<u8>,
    d2: Seq<u32>,
    m2: Seq<u8>,
    p2: Seq<u8>,
)
    requires
        node_in_bounds(n, len, d1, m1, p1),
        extends(d1, d2),
        extends(m1, m2),
        extends(p1, p2),
    ensures
        node_in_bounds(n, len, d2, m2, p2),
{
    assert forall|k: int| 0 <= k < n.children_count implies #[trigger] d2[n.children_start + k] < len by {
        assert(d1[n.children_start + k] == d2.subrange(0, d1.len() as int)[n.children_start + k]);
    }
}

/// The stats `s` plus the totals of the subtree of `i`.
pub open spec fn stats_plus(s: Stats, a: Seq<BNode>, i: int) -> (int, int, int, int) {
    (
        s.files + fold(a, i, Measure::Files),
        s.dirs + fold(a, i, Measure::Dirs),
        s.lines + fold(a, i, Measure::Lines),
        s.bytes + fold(a, i, Measure::Bytes),
    )
}

pub open spec fn stats_is(s: Stats, t: (int, int, int, int)) -> bool {
    s.files == t.0 && s.dirs == t.1 && s.lines == t.2 && s.bytes == t.3
}

pub open spec fn sizes_ok(a: Seq<BNode>, sizes: Seq<u64>) -> bool {
    sizes.len() == a.len() && forall|j: int|
        0 <= j < a.len() ==> #[trigger] sizes[j] == fold(a, j, Measure::Count)
}

/// Appends the elements of a slice.
pub(crate) fn append_all<T: Copy>(buf: &mut Vec<T>, more: &[T])
    ensures
        final(buf)@ == old(buf)@ + more@,
{
    let n = more.len();
    let mut t: usize = 0;
    while t < n
        invariant
            n == more@.len(),
            t <= n,
            buf@ == old(buf)@ + more@.subrange(0, t as int),
        decreases n - t,
    {
        buf.push(more[t]);
        t = t + 1;
        assert(more@.subrange(0, t as int) =~= more@.subrange(0, t as int - 1).push(more@[t - 1]));
    }
    assert(more@.subrange(0, n as int) =~= more@);
}

/// Writes arena node `i` and its subtree into the scene arrays, `i` at `pos`:
/// children first, each after the subtrees of the heavier ones, then the
/// node itself, whose name, path and child positions are appended last.
#[verifier::rlimit(60)]
fn place(
    a: &Vec<BNode>,
    sizes: &Vec<u64>,
    i: usize,
    pos: usize,
    depth: u16,
    out: &mut Vec<Node>,
    names: &mut Vec<u8>,
    paths: &mut Vec<u8>,
    ids: &mut Vec<u32>,
    stats: &mut Stats,
)
    requires
        arena_wf(a@),
        sizes_ok(a@, sizes@),
        i < a@.len(),
        pos + fold(a@, i as int, Measure::Count) <= old(out)@.len() <= u32::MAX,
        depth + height(a@, i as int) <= u16::MAX,
        old(names)@.len() + fold(a@, i as int, Measure::NameBytes) <= u32::MAX,
        old(paths)@.len() + fold(a@, i as int, Measure::PathBytes) <= u32::MAX,
        old(ids)@.len() + fold(a@, i as int, Measure::Count) <= u32::MAX,
        old(stats).files + fold(a@, i as int, Measure::Files) <= u64::MAX,
        old(stats).dirs + fold(a@, i as int, Measure::Dirs) <= u64::MAX,
        old(stats).lines + fold(a@, i as int, Measure::Lines) <= u64::MAX,
        old(stats).bytes + fold(a@, i as int, Measure::Bytes) <= u64::MAX,
    ensures
        final(out)@.len() == old(out)@.len(),
        forall|q: int|
            0 <= q < old(out)@.len() && !(pos <= q < pos + fold(a@, i as int, Measure::Count))
                ==> #[trigger] final(out)@[q] == old(out)@[q],
        extends(old(names)@, final(names)@),
        final(names)@.len() == old(names)@.len() + fold(a@, i as int, Measure::NameBytes),
        extends(old(paths)@, final(paths)@),
        final(paths)@.len() == old(paths)@.len() + fold(a@, i as int, Measure::PathBytes),
        extends(old(ids)@, final(ids)@),
        final(ids)@.len() + 1 == old(ids)@.len() + fold(a@, i as int, Measure::Count),
        stats_is(*final(stats), stats_plus(*old(stats), a@, i as int)),
        forall|q: int|
            pos <= q < pos + fold(a@, i as int, Measure::Count) ==> node_in_bounds(
                #[trigger] final(out)@[q],
                old(out)@.len() as int,
                final(ids)@,
                final(names)@,
                final(paths)@,
            ),
        placed(a@, i as int, pos as int, depth as int, final(out)@, final(ids)@, final(names)@, final(paths)@),
    decreases a@.len() - i,
{
    let ghost aa = a@;
    let ghost ii = i as int;
    let ghost out0 = out@;
    let ghost names0 = names@;
    let ghost paths0 = paths@;
    let ghost ids0 = ids@;
    let ghost st0 = *stats;
    let b = &a[i];
    if b.is_dir {
        stats.dirs = stats.dirs + 1;
    } else {
        stats.files = stats.files + 1;
        stats.lines = stats.lines + b.lines as u64;
        stats.bytes = stats.bytes + b.bytes;
    }
    let nk = b.children.len();
    let mut child_idx: Vec<u32> = Vec::new();
    let mut cursor = pos + 1;
    let mut k: usize = 0;
    proof {
        lemma_kids_fold_mono(aa, ii, 0, nk as int, Measure::Count);
        assert(names0.subrange(0, names0.len() as int) =~= names0);
        assert(paths0.subrange(0, paths0.len() as int) =~= paths0);
        assert(ids0.subrange(0, ids0.len() as int) =~= ids0);
    }
    while k < nk
        invariant
            aa == a@,
            ii == i,
            arena_wf(aa),
            sizes_ok(aa, sizes@),
            i < aa.len(),
            nk == aa[ii].children@.len(),
            k <= nk,
            pos + fold(aa, ii, Measure::Count) <= out0.len() <= u32::MAX,
            depth + height(aa, ii) <= u16::MAX,
            names0.len() + fold(aa, ii, Measure::NameBytes) <= u32::MAX,
            paths0.len() + fold(aa, ii, Measure::PathBytes) <= u32::MAX,
            ids0.len() + fold(aa, ii, Measure::Count) <= u32::MAX,
            st0.files + fold(aa, ii, Measure::Files) <= u64::MAX,
            st0.dirs + fold(aa, ii, Measure::Dirs) <= u64::MAX,
            st0.lines + fold(aa, ii, Measure::Lines) <= u64::MAX,
            st0.bytes + fold(aa, ii, Measure::Bytes) <= u64::MAX,
            cursor == child_pos(aa, ii, pos as int, k as int),
            out@.len() == out0.len(),
            forall|q: int|
                0 <= q < out0.len() && !(pos < q < cursor) ==> #[trigger] out@[q] == out0[q],
            extends(names0, names@),
            names@.len() == names0.len() + kids_fold(aa, ii, k as int, Measure::NameBytes),
            extends(paths0, paths@),
            paths@.len() == paths0.len() + kids_fold(aa, ii, k as int, Measure::PathBytes),
            extends(ids0, ids@),
            ids@.len() + k == ids0.len() + kids_fold(aa, ii, k as int, Measure::Count),
            stats.files == st0.files + measure(Measure::Files, aa[ii]) + kids_fold(aa, ii, k as int, Measure::Files),
            stats.dirs == st0.dirs + measure(Measure::Dirs, aa[ii]) + kids_fold(aa, ii, k as int, Measure::Dirs),
            stats.lines == st0.lines + measure(Measure::Lines, aa[ii]) + kids_fold(aa, ii, k as int, Measure::Lines),
            stats.bytes == st0.bytes + measure(Measure::Bytes, aa[ii]) + kids_fold(aa, ii, k as int, Measure::Bytes),
            child_idx@.len() == k,
            forall|m: int| 0 <= m < k ==> #[trigger] child_idx@[m] == child_pos(aa, ii, pos as int, m),
            forall|q: int|
                pos < q < cursor ==> node_in_bounds(
                    #[trigger] out@[q],
                    out0.len() as int,
                    ids@,
                    names@,
                    paths@,
                ),
            forall|m: int|
                0 <= m < k ==> placed(
                    aa,
                    #[trigger] aa[ii].children@[m] as int,
                    child_pos(aa, ii, pos as int, m),
                    depth + 1,
                    out@,
                    ids@,
                    names@,
                    paths@,
                ),
        decreases nk - k,
    {
        let c = a[i].children[k] as usize;
        assert(i < c < aa.len());
        proof {
            lemma_kids_fold_mono(aa, ii, k as int + 1, nk as int, Measure::Count);
            lemma_kids_fold_mono(aa, ii, k as int + 1, nk as int, Measure::NameBytes);
            lemma_kids_fold_mono(aa, ii, k as int + 1, nk as int, Measure::PathBytes);
            lemma_kids_fold_mono(aa, ii, k as int + 1, nk as int, Measure::Files);
            lemma_kids_fold_mono(aa, ii, k as int + 1, nk as int, Measure::Dirs);
            lemma_kids_fold_mono(aa, ii, k as int + 1, nk as int, Measure::Lines);
            lemma_kids_fold_mono(aa, ii, k as int + 1, nk as int, Measure::Bytes);
            lemma_kids_height_mono(aa, ii, k as int + 1, nk as int);
            lemma_kids_count(aa, ii, k as int);
        }
        let ghost out1 = out@;
        let ghost ids1 = ids@;
        let ghost names1 = names@;
        let ghost paths1 = paths@;
        place(a, sizes, c, cursor, depth + 1, out, names, paths, ids, stats);
        proof {
            assert forall|m: int| 0 <= m < k implies placed(
                aa,
                #[trigger] aa[ii].children@[m] as int,
                child_pos(aa, ii, pos as int, m),
                depth + 1,
                out@,
                ids@,
                names@,
                paths@,
            ) by {
                let cm = aa[ii].children@[m] as int;
                lemma_kids_fold_mono(aa, ii, m + 1, k as int, Measure::Count);
                lemma_placed_mono(
                    aa,
                    cm,
                    child_pos(aa, ii, pos as int, m),
                    depth + 1,
                    out1,
                    ids1,
                    names1,
                    paths1,
                    out@,
                    ids@,
                    names@,
                    paths@,
                );
            }
            assert(extends(names0, names@)) by {
                assert(names@.subrange(0, names0.len() as int) =~= names1.subrange(0, names0.len() as int));
            }
            assert(extends(paths0, paths@)) by {
                assert(paths@.subrange(0, paths0.len() as int) =~= paths1.subrange(0, paths0.len() as int));
            }
            assert(extends(ids0, ids@)) by {
                assert(ids@.subrange(0, ids0.len() as int) =~= ids1.subrange(0, ids0.len() as int));
            }
            assert forall|q: int| pos < q < cursor + fold(aa, c as int, Measure::Count) implies node_in_bounds(
                #[trigger] out@[q],
                out0.len() as int,
                ids@,
                names@,
                paths@,
            ) by {
                if q < cursor {
                    lemma_in_bounds_mono(out1[q], out0.len() as int, ids1, names1, paths1, ids@, names@, paths@);
                }
            }
        }
        child_idx.push(cursor as u32);
        cursor = cursor + sizes[c] as usize;
        k = k + 1;
    }
    proof {
        lemma_kids_count(aa, ii, nk as int);
    }
    let ghost out_l = out@;
    let ghost ids_l = ids@;
    let ghost names_l = names@;
    let ghost paths_l = paths@;
    let name_bytes = b.name.as_str().as_bytes();
    let name_start = names.len() as u32;
    let name_len = name_bytes.len() as u32;
    append_all(names, name_bytes);
    let path_bytes = b.path.as_str().as_bytes();
    let path_start = paths.len() as u32;
    let path_len = path_bytes.len() as u32;
    append_all(paths, path_bytes);
    let cstart = ids.len() as u32;
    append_all(ids, child_idx.as_slice());
    let node = Node {
        name_start,
        name_len,
        is_dir: b.is_dir,
        lang: b.lang,
        depth,
        lines: b.lines,
        weight: if b.weight >= 40 { b.weight } else { 40 },
        children_start: cstart,
        children_count: nk as u32,
        path_start,
        path_len,
    };
    out.set(pos, node);
    proof {
        assert(names@.subrange(0, names_l.len() as int) =~= names_l);
        assert(paths@.subrange(0, paths_l.len() as int) =~= paths_l);
        assert(ids@.subrange(0, ids_l.len() as int) =~= ids_l);
        assert(names@.subrange(0, names0.len() as int) =~= names_l.subrange(0, names0.len() as int));
        assert(paths@.subrange(0, paths0.len() as int) =~= paths_l.subrange(0, paths0.len() as int));
        assert(ids@.subrange(0, ids0.len() as int) =~= ids_l.subrange(0, ids0.len() as int));
        assert(names@.subrange(name_start as int, name_start + name_len) =~= encode_utf8(aa[ii].name@));
        assert(paths@.subrange(path_start as int, path_start + path_len) =~= encode_utf8(aa[ii].path@));
        assert forall|m: int| 0 <= m < nk implies #[trigger] ids@[cstart + m] == child_pos(aa, ii, pos as int, m) by {
            assert(child_idx@[m] == child_pos(aa, ii, pos as int, m));
        }
        assert forall|m: int| 0 <= m < nk implies placed(
            aa,
            #[trigger] aa[ii].children@[m] as int,
            child_pos(aa, ii, pos as int, m),
            depth + 1,
            out@,
            ids@,
            names@,
            paths@,
        ) by {
            let cm = aa[ii].children@[m] as int;
            lemma_kids_fold_mono(aa, ii, m + 1, nk as int, Measure::Count);
            lemma_placed_mono(
                aa,
                cm,
                child_pos(aa, ii, pos as int, m),
                depth + 1,
                out_l,
                ids_l,
                names_l,
                paths_l,
                out@,
                ids@,
                names@,
                paths@,
            );
        }
        lemma_kids_placed_intro(aa, ii, pos as int, depth as int, out@, ids@, names@, paths@, nk as int);
        assert forall|q: int| pos <= q < pos + fold(aa, ii, Measure::Count) implies node_in_bounds(
            #[trigger] out@[q],
            out0.len() as int,
            ids@,
            names@,
            paths@,
        ) by {
            if q > pos {
                lemma_in_bounds_mono(out_l[q], out0.len() as int, ids_l, names_l, paths_l, ids@, names@, paths@);
            } else {
                assert forall|m: int| 0 <= m < node.children_count implies #[trigger] ids@[node.children_start + m] < out0.len() by {
                    assert(ids@[cstart + m] == child_idx@[m]);
                    lemma_kids_fold_mono(aa, ii, m + 1, nk as int, Measure::Count);
                }
            }
        }
    }
}


pub open spec fn weights_of(a: Seq<BNode>) -> Seq<u64> {
    Seq::new(a.len(), |j: int| a[j].weight)
}

/// Two nodes that differ at most in the order of their children.
pub open spec fn same_but_order(x: BNode, y: BNode) -> bool {
    &&& x.name == y.name
    &&& x.path == y.path
    &&& x.is_dir == y.is_dir
    &&& x.lang == y.lang
    &&& x.lines == y.lines
    &&& x.bytes == y.bytes
    &&& x.weight == y.weight
    &&& x.children@.to_multiset() == y.children@.to_multiset()
}

/// Orders the children of every node heaviest first.
pub fn sort_children(arena: &mut Vec<BNode>)
    requires
        arena_wf(old(arena)@),
    ensures
        final(arena)@.len() == old(arena)@.len(),
        arena_wf(final(arena)@),
        weights_of(final(arena)@) == weights_of(old(arena)@),
        forall|j: int|
            0 <= j < old(arena)@.len() ==> same_but_order(#[trigger] final(arena)@[j], old(arena)@[j])
                && heaviest_first(weights_of(old(arena)@), final(arena)@[j].children@),
{
    let ghost a0 = arena@;
    let n = arena.len();
    let mut ws: Vec<u64> = Vec::new();
    let mut t: usize = 0;
    while t < n
        invariant
            n == arena@.len(),
            t <= n,
            ws@ == weights_of(arena@).subrange(0, t as int),
        decreases n - t,
    {
        ws.push(arena[t].weight);
        t = t + 1;
        assert(ws@ =~= weights_of(arena@).subrange(0, t as int));
    }
    assert(ws@ =~= weights_of(a0));
    let mut j: usize = 0;
    while j < n
        invariant
            n == arena@.len() == a0.len(),
            arena_wf(a0),
            ws@ == weights_of(a0),
            j <= n,
            forall|m: int| 0 <= m < n ==> #[trigger] arena@[m].weight == a0[m].weight,
            forall|m: int|
                j <= m < n ==> #[trigger] arena@[m] == a0[m],
            forall|m: int|
                0 <= m < j ==> same_but_order(#[trigger] arena@[m], a0[m]) && heaviest_first(
                    ws@,
                    arena@[m].children@,
                ),
        decreases n - j,
    {
        assert(arena@[j as int] == a0[j as int]);
        assert(ids_in(ws@, arena@[j as int].children@)) by {
            assert forall|k: int| 0 <= k < arena@[j as int].children@.len() implies #[trigger] arena@[j as int].children@[k] < ws@.len() by {
                assert(a0[j as int].children@[k] < a0.len());
            }
        }
        let sorted = sort_heaviest_first(arena[j].children.as_slice(), &ws);
        arena[j].children = sorted;
        j = j + 1;
    }
    assert(weights_of(arena@) =~= weights_of(a0));
    assert forall|i: int, k: int|
        0 <= i < arena@.len() && 0 <= k < arena@[i].children@.len() implies i < #[trigger] arena@[i].children@[k] < arena@.len() by {
        let x = arena@[i].children@[k];
        broadcast use vstd::seq_lib::group_to_multiset_ensures;
        assert(arena@[i].children@.contains(x));
        assert(arena@[i].children@.to_multiset().count(x) > 0);
        assert(a0[i].children@.to_multiset().count(x) > 0);
        assert(a0[i].children@.contains(x));
        let kk = choose|kk: int| 0 <= kk < a0[i].children@.len() && a0[i].children@[kk] == x;
        assert(i < a0[i].children@[kk] < a0.len());
    }
}

/// `a1` is the arena `a0` after weighing and ordering: every node below the
/// root (node 0) carries the own weight of its whole subtree (saturating at
/// `u64::MAX`), any other node its own weight, and the children of every node
/// are the same indices, heaviest first.
pub open spec fn arranged(a0: Seq<BNode>, a1: Seq<BNode>) -> bool {
    &&& a1.len() == a0.len()
    &&& forall|j: int|
        #![trigger a1[j]]
        0 <= j < a0.len() ==> {
            &&& a1[j].name == a0[j].name
            &&& a1[j].path == a0[j].path
            &&& a1[j].is_dir == a0[j].is_dir
            &&& a1[j].lang == a0[j].lang
            &&& a1[j].lines == a0[j].lines
            &&& a1[j].bytes == a0[j].bytes
            &&& a1[j].weight == if reaches(a0, 0, j) {
                sat64(fold(a0, j, Measure::OwnWeight) as int)
            } else {
                own_weight(a0[j]) as int
            }
            &&& a1[j].children@.to_multiset() == a0[j].children@.to_multiset()
            &&& heaviest_first(weights_of(a1), a1[j].children@)
        }
}

/// Every total of every subtree fits in a `u64`, and those of the whole tree
/// fit the scene's 32-bit offsets and 16-bit depths.
pub open spec fn fits(a: Seq<BNode>) -> bool {
    &&& all_fit(a, Measure::Count)
    &&& all_fit(a, Measure::NameBytes)
    &&& all_fit(a, Measure::PathBytes)
    &&& all_fit(a, Measure::Files)
    &&& all_fit(a, Measure::Dirs)
    &&& all_fit(a, Measure::Lines)
    &&& all_fit(a, Measure::Bytes)
    &&& fold(a, 0, Measure::Count) <= u32::MAX
    &&& fold(a, 0, Measure::NameBytes) <= u32::MAX
    &&& fold(a, 0, Measure::PathBytes) <= u32::MAX
    &&& height(a, 0) <= u16::MAX
}

/// `s` is the flattening of arena `a` from its root, node 0.
pub open spec fn scene_of(a: Seq<BNode>, s: Scene) -> bool {
    &&& s.root == 0
    &&& s.nodes@.len() == fold(a, 0, Measure::Count)
    &&& placed(a, 0, 0, 0, s.nodes@, s.children_ids@, s.names@, s.paths@)
    &&& stats_is(s.stats, stats_plus(Stats { files: 0, dirs: 0, lines: 0, bytes: 0 }, a, 0))
    &&& scene_closed(s)
}

/// Every node's ranges lie inside the scene's buffers and its children are
/// positions of the scene.
pub open spec fn scene_closed(s: Scene) -> bool {
    forall|q: int|
        0 <= q < s.nodes@.len() ==> node_in_bounds(
            #[trigger] s.nodes@[q],
            s.nodes@.len() as int,
            s.children_ids@,
            s.names@,
            s.paths@,
        )
}

/// Weighs, orders and flattens the tree into a scene. `None` when some total
/// does not fit the scene's integer fields.
pub fn build_scene(arena: Vec<BNode>) -> (r: Option<Scene>)
    requires
        arena_wf(arena@),
    ensures
        exists|a1: Seq<BNode>|
            #![trigger arranged(arena@, a1)]
            arranged(arena@, a1) && (r is Some <==> fits(a1)) && (r matches Some(s) ==> scene_of(a1, s)),
{
    let ghost a0 = arena@;
    let mut arena = arena;
    set_own_weights(&mut arena);
    let ghost a_o = arena@;
    proof {
        assert forall|j: int| 0 <= j < a_o.len() implies (#[trigger] a_o[j]).children@ == a0[j].children@
            && measure(Measure::Weight, a_o[j]) == measure(Measure::OwnWeight, a0[j]) by {
            assert(same_but_weight(a_o[j], a0[j]));
        }
        assert(arena_wf(a_o)) by {
            assert forall|i: int, k: int|
                0 <= i < a_o.len() && 0 <= k < a_o[i].children@.len() implies i < #[trigger] a_o[i].children@[k] < a_o.len() by {
                assert(same_but_weight(a_o[i], a0[i]));
                assert(a0[i].children@[k] == a_o[i].children@[k]);
            }
        }
    }
    let _ = aggregate(&mut arena, 0);
    let ghost a_w = arena@;
    proof {
        assert forall|j: int| 0 <= j < a0.len() implies same_but_weight(#[trigger] a_w[j], a0[j])
            && a_w[j].weight == if reaches(a0, 0, j) {
                sat64(fold(a0, j, Measure::OwnWeight) as int)
            } else {
                own_weight(a0[j]) as int
            } by {
            assert(same_but_weight(a_w[j], a_o[j]));
            assert(same_but_weight(a_o[j], a0[j]));
            lemma_fold_same(a_o, a0, j, Measure::Weight, Measure::OwnWeight);
            lemma_reaches_same(a_o, a0, 0, j);
        }
    }
    assert(arena_wf(a_w)) by {
        assert forall|i: int, k: int|
            0 <= i < a_w.len() && 0 <= k < a_w[i].children@.len() implies i < #[trigger] a_w[i].children@[k] < a_w.len() by {
            assert(same_but_weight(a_w[i], a0[i]));
            assert(a0[i].children@[k] == a_w[i].children@[k]);
        }
    }
    sort_children(&mut arena);
    let ghost a1 = arena@;
    proof {
        assert(weights_of(a1) == weights_of(a_w));
        assert forall|j: int| 0 <= j < a0.len() implies #[trigger] a1[j].weight == if reaches(a0, 0, j) {
            sat64(fold(a0, j, Measure::OwnWeight) as int)
        } else {
            own_weight(a0[j]) as int
        } by {
            assert(same_but_order(a1[j], a_w[j]));
            assert(same_but_weight(a_w[j], a0[j]));
            assert(weights_of(a1)[j] == weights_of(a_w)[j]);
        }
        assert forall|j: int| 0 <= j < a0.len() implies #[trigger] heaviest_first(weights_of(a1), a1[j].children@) by {
            assert(heaviest_first(weights_of(a_w), a1[j].children@));
        }
        assert forall|j: int| 0 <= j < a0.len() implies (#[trigger] a1[j]).name == a0[j].name && a1[j].children@.to_multiset() == a0[j].children@.to_multiset() by {
            assert(same_but_order(a1[j], a_w[j]));
            assert(same_but_weight(a_w[j], a0[j]));
        }
        assert(arranged(a0, a1));
    }
    let counts = fold_all(&arena, Measure::Count);
    let name_bytes = fold_all(&arena, Measure::NameBytes);
    let path_bytes = fold_all(&arena, Measure::PathBytes);
    let files = fold_all(&arena, Measure::Files);
    let dirs = fold_all(&arena, Measure::Dirs);
    let lines = fold_all(&arena, Measure::Lines);
    let bytes = fold_all(&arena, Measure::Bytes);
    let hs = heights(&arena);
    if counts.is_none() || name_bytes.is_none() || path_bytes.is_none() || files.is_none()
        || dirs.is_none() || lines.is_none() || bytes.is_none() {
        proof {
            if !counts.is_none() && !name_bytes.is_none() && !path_bytes.is_none() && !files.is_none() && !dirs.is_none() && !lines.is_none() {
                assert(bytes is None);
            }
            assert(!fits(a1));
            let r: Option<Scene> = None;
            assert(arranged(a0, a1) && (r is Some <==> fits(a1)) && (r matches Some(s) ==> scene_of(a1, s)));
        }
        return None;
    }
    let counts = counts.unwrap();
    let name_bytes = name_bytes.unwrap();
    let path_bytes = path_bytes.unwrap();
    if counts[0] > u32::MAX as u64 || name_bytes[0] > u32::MAX as u64
        || path_bytes[0] > u32::MAX as u64 || hs[0] > u16::MAX as u64 {
        return None;
    }
    proof {
        assert(fits(a1));
    }
    let total = counts[0] as usize;
    let blank = Node {
        name_start: 0,
        name_len: 0,
        is_dir: false,
        lang: Lang::Other,
        depth: 0,
        lines: 0,
        weight: 0,
        children_start: 0,
        children_count: 0,
        path_start: 0,
        path_len: 0,
    };
    let mut nodes: Vec<Node> = Vec::new();
    let mut t: usize = 0;
    while t < total
        invariant
            t <= total,
            nodes@.len() == t,
        decreases total - t,
    {
        nodes.push(blank);
        t = t + 1;
    }
    let mut names: Vec<u8> = Vec::new();
    let mut paths: Vec<u8> = Vec::new();
    let mut children_ids: Vec<u32> = Vec::new();
    let mut stats = Stats { files: 0, dirs: 0, lines: 0, bytes: 0 };
    place(&arena, &counts, 0, 0, 0, &mut nodes, &mut names, &mut paths, &mut children_ids, &mut stats);
    let scene = Scene { nodes, children_ids, names, paths, root: 0, stats };
    assert(scene_of(a1, scene));
    Some(scene)
}


/// `std::str::from_utf8`, with the error dropped: the string whose bytes
/// are `v`, exactly when `v` is valid UTF-8.
#[verifier::external_body]
fn utf8_str(v: &[u8]) -> (r: Option<&str>)
    ensures
        r is Some == valid_utf8(v@),
        r matches Some(s) ==> s.spec_bytes() == v@,
{
    std::str::from_utf8(v).ok()
}

/// The text that a byte range shows: its decoding when it is valid UTF-8,
/// `fallback` otherwise.
pub open spec fn shown_text(bytes: Seq<u8>, fallback: Seq<char>) -> Seq<char> {
    if valid_utf8(bytes) {
        decode_utf8(bytes)
    } else {
        fallback
    }
}

fn text_of<'a>(buf: &'a Vec<u8>, start: u32, len: u32, fallback: &'a str) -> (r: &'a str)
    requires
        start + len <= buf@.len(),
    ensures
        r@ == shown_text(buf@.subrange(start as int, start + len), fallback@),
{
    let blen = buf.len();
    assert(start + len <= blen);
    let end = start as usize + len as usize;
    let bytes = vstd::slice::slice_subrange(buf.as_slice(), start as usize, end);
    match utf8_str(bytes) {
        Some(s) => {
            proof {
                vstd::utf8::encode_utf8_decode_utf8(s@);
            }
            s
        },
        None => fallback,
    }
}

/// The name of node `n`: its bytes in `names`, or "?" when they are not UTF-8.
pub fn node_name<'a>(scene: &'a Scene, n: &Node) -> (r: &'a str)
    requires
        n.name_start + n.name_len <= scene.names@.len(),
    ensures
        r@ == shown_text(scene.names@.subrange(n.name_start as int, n.name_start + n.name_len), seq!['?']),
{
    let q = "?";
    proof {
        reveal_strlit("?");
    }
    text_of(&scene.names, n.name_start, n.name_len, q)
}

/// The path of node `n`: its bytes in `paths`, or "" when they are not UTF-8.
pub fn node_path<'a>(scene: &'a Scene, n: &Node) -> (r: &'a str)
    requires
        n.path_start + n.path_len <= scene.paths@.len(),
    ensures
        r@ == shown_text(scene.paths@.subrange(n.path_start as int, n.path_start + n.path_len), Seq::empty()),
{
    let e = "";
    proof {
        reveal_strlit("");
    }
    text_of(&scene.paths, n.path_start, n.path_len, e)
}

/// A node placed from arena node `b` shows `b`'s name and path.
pub proof fn law_placed_text(a: Seq<BNode>, i: int, pos: int, depth: int, s: Scene)
    requires
        placed(a, i, pos, depth, s.nodes@, s.children_ids@, s.names@, s.paths@),
    ensures
        ({
            let n = s.nodes@[pos];
            &&& n.name_start + n.name_len <= s.names@.len()
            &&& n.path_start + n.path_len <= s.paths@.len()
            &&& shown_text(s.names@.subrange(n.name_start as int, n.name_start + n.name_len), seq!['?']) == a[i].name@
            &&& shown_text(s.paths@.subrange(n.path_start as int, n.path_start + n.path_len), Seq::empty()) == a[i].path@
        }),
{
    vstd::utf8::encode_utf8_valid_utf8(a[i].name@);
    vstd::utf8::encode_utf8_decode_utf8(a[i].name@);
    vstd::utf8::encode_utf8_valid_utf8(a[i].path@);
    vstd::utf8::encode_utf8_decode_utf8(a[i].path@);
}

/// `pat` occurs in `hay` at position `k`.
pub open spec fn occurs_at(hay: Seq<char>, pat: Seq<char>, k: int) -> bool {
    0 <= k && k + pat.len() <= hay.len() && hay.subrange(k, k + pat.len()) == pat
}

pub open spec fn contains_text(hay: Seq<char>, pat: Seq<char>) -> bool {
    exists|k: int| occurs_at(hay, pat, k)
}

/// Whether `pat` occurs in `hay`.
pub fn contains(hay: &str, pat: &str) -> (r: bool)
    ensures
        r == contains_text(hay@, pat@),
{
    let h = chars_of(hay);
    let p = chars_of(pat);
    let hn = h.len();
    let pn = p.len();
    if pn > hn {
        assert forall|k: int| !occurs_at(hay@, pat@, k) by {}
        return false;
    }
    let mut k: usize = 0;
    while k <= hn - pn
        invariant
            h@ == hay@,
            p@ == pat@,
            hn == h@.len(),
            pn == p@.len(),
            pn <= hn,
            k <= hn - pn + 1,
            forall|j: int| 0 <= j < k ==> !occurs_at(hay@, pat@, j),
        decreases hn - pn + 1 - k,
    {
        let mut t: usize = 0;
        let mut ok = true;
        while t < pn
            invariant
                h@ == hay@,
                p@ == pat@,
                hn == h@.len(),
                pn == p@.len(),
                k + pn <= hn,
                t <= pn,
                ok == forall|m: int| 0 <= m < t ==> h@[k + m] == p@[m],
            decreases pn - t,
        {
            if h[k + t] != p[t] {
                ok = false;
            }
            t = t + 1;
        }
        if ok {
            assert(hay@.subrange(k as int, k + pn) =~= pat@);
            assert(occurs_at(hay@, pat@, k as int));
            return true;
        }
        assert(!occurs_at(hay@, pat@, k as int)) by {
            if hay@.subrange(k as int, k + pn) == pat@ {
                let m = choose|m: int| 0 <= m < pn && h@[k + m] != p@[m];
                assert(hay@.subrange(k as int, k + pn)[m] == h@[k + m]);
            }
        }
        k = k + 1;
    }
    assert forall|j: int| !occurs_at(hay@, pat@, j) by {
        if 0 <= j < k {
        }
    }
    false
}

/// The first file (not directory) whose path contains `pat`.
pub fn find_file(scene: &Scene, pat: &str) -> (r: Option<usize>)
    requires
        scene_closed(*scene),
    ensures
        match r {
            Some(i) => {
                &&& i < scene.nodes@.len()
                &&& !scene.nodes@[i as int].is_dir
                &&& contains_text(path_text(*scene, i as int), pat@)
                &&& forall|j: int|
                    0 <= j < i ==> scene.nodes@[j].is_dir || !contains_text(#[trigger] path_text(*scene, j), pat@)
            },
            None => forall|j: int|
                0 <= j < scene.nodes@.len() ==> scene.nodes@[j].is_dir || !contains_text(#[trigger] path_text(*scene, j), pat@),
        },
{
    let n = scene.nodes.len();
    let mut i: usize = 0;
    while i < n
        invariant
            n == scene.nodes@.len(),
            scene_closed(*scene),
            i <= n,
            forall|j: int|
                0 <= j < i ==> scene.nodes@[j].is_dir || !contains_text(#[trigger] path_text(*scene, j), pat@),
        decreases n - i,
    {
        let node = &scene.nodes[i];
        assert(node_in_bounds(scene.nodes@[i as int], n as int, scene.children_ids@, scene.names@, scene.paths@));
        if !node.is_dir && contains(node_path(scene, node), pat) {
            return Some(i);
        }
        i = i + 1;
    }
    None
}

/// The path that node `j` of scene `s` shows.
pub open spec fn path_text(s: Scene, j: int) -> Seq<char> {
    let n = s.nodes@[j];
    shown_text(s.paths@.subrange(n.path_start as int, n.path_start + n.path_len), Seq::empty())
}


/// Every node is a file or a directory, not both.
pub proof fn lemma_files_dirs(a: Seq<BNode>, i: int)
    ensures
        fold(a, i, Measure::Files) + fold(a, i, Measure::Dirs) == fold(a, i, Measure::Count),
    decreases a.len() - i, a[i].children@.len() + 1,
{
    if 0 <= i < a.len() {
        lemma_kids_files_dirs(a, i, a[i].children@.len() as int);
    }
}

proof fn lemma_kids_files_dirs(a: Seq<BNode>, i: int, k: int)
    requires
        0 <= i < a.len(),
        0 <= k <= a[i].children@.len(),
    ensures
        kids_fold(a, i, k, Measure::Files) + kids_fold(a, i, k, Measure::Dirs) == kids_fold(
            a,
            i,
            k,
            Measure::Count,
        ),
    decreases a.len() - i, k,
{
    if k > 0 {
        lemma_kids_files_dirs(a, i, k - 1);
        let c = a[i].children@[k - 1] as int;
        if i < c < a.len() {
            lemma_files_dirs(a, c);
        }
    }
}

/// A scene counts each of its nodes once, as a file or as a directory.
pub proof fn law_scene_counts(a: Seq<BNode>, s: Scene)
    requires
        scene_of(a, s),
    ensures
        s.stats.files + s.stats.dirs == s.nodes@.len(),
{
    lemma_files_dirs(a, 0);
}

/// The sum of the weights in `w` of the nodes `cs`.
pub open spec fn weight_sum(w: Seq<BNode>, cs: Seq<u32>) -> int
    decreases cs.len(),
{
    if cs.len() == 0 {
        0
    } else {
        weight_sum(w, cs.drop_last()) + w[cs.last() as int].weight
    }
}

/// After weighing, a node weighs its own weight plus what its children
/// weigh, saturating at `u64::MAX`; a directory weighs what its children
/// weigh together.
pub proof fn law_node_weight(a0: Seq<BNode>, a1: Seq<BNode>, j: int)
    requires
        arena_wf(a0),
        arranged(a0, a1),
        0 <= j < a0.len(),
        reaches(a0, 0, j),
    ensures
        a1[j].weight == sat64(own_weight(a0[j]) + weight_sum(a1, a0[j].children@)),
        a0[j].is_dir ==> a1[j].weight == sat64(weight_sum(a1, a0[j].children@)),
{
    lemma_weight_prefix(a0, a1, j, a0[j].children@.len() as int);
    assert(a0[j].children@.take(a0[j].children@.len() as int) =~= a0[j].children@);
    lemma_sat64_add(own_weight(a0[j]) as int, kids_fold(a0, j, a0[j].children@.len() as int, Measure::OwnWeight) as int);
    lemma_sat64_add(own_weight(a0[j]) as int, weight_sum(a1, a0[j].children@));
}

proof fn lemma_weight_sum_nonneg(w: Seq<BNode>, cs: Seq<u32>)
    ensures
        weight_sum(w, cs) >= 0,
    decreases cs.len(),
{
    if cs.len() > 0 {
        lemma_weight_sum_nonneg(w, cs.drop_last());
    }
}

proof fn lemma_weight_prefix(a0: Seq<BNode>, a1: Seq<BNode>, j: int, k: int)
    requires
        arena_wf(a0),
        arranged(a0, a1),
        0 <= j < a0.len(),
        reaches(a0, 0, j),
        0 <= k <= a0[j].children@.len(),
    ensures
        sat64(weight_sum(a1, a0[j].children@.take(k))) == sat64(
            kids_fold(a0, j, k, Measure::OwnWeight) as int,
        ),
    decreases k,
{
    let cs = a0[j].children@;
    if k == 0 {
        assert(cs.take(0).len() == 0);
    } else {
        lemma_weight_prefix(a0, a1, j, k - 1);
        assert(cs.take(k).drop_last() =~= cs.take(k - 1));
        let c = cs[k - 1] as int;
        lemma_reaches_child(a0, 0, j, k - 1);
        assert(a1[c].weight == sat64(fold(a0, c, Measure::OwnWeight) as int));
        lemma_weight_sum_nonneg(a1, cs.take(k - 1));
        lemma_sat64_add(weight_sum(a1, cs.take(k - 1)), a1[c].weight as int);
        lemma_sat64_add(kids_fold(a0, j, k - 1, Measure::OwnWeight) as int, fold(a0, c, Measure::OwnWeight) as int);
    }
}

/// In a placed subtree, the children of a node follow it one after
/// another: the first right after the node, each next one right after the
/// subtree of the one before, the last subtree ending where the node's ends.
pub proof fn law_children_follow(
    a: Seq<BNode>,
    i: int,
    pos: int,
    depth: int,
    s: Scene,
    k: int,
)
    requires
        arena_wf(a),
        placed(a, i, pos, depth, s.nodes@, s.children_ids@, s.names@, s.paths@),
        0 <= k < a[i].children@.len(),
    ensures
        s.children_ids@[s.nodes@[pos].children_start + k] == child_pos(a, i, pos, k),
        child_pos(a, i, pos, 0) == pos + 1,
        child_pos(a, i, pos, k) + fold(a, a[i].children@[k] as int, Measure::Count) == child_pos(
            a,
            i,
            pos,
            k + 1,
        ),
        child_pos(a, i, pos, a[i].children@.len() as int) == pos + fold(a, i, Measure::Count),
        placed(
            a,
            a[i].children@[k] as int,
            child_pos(a, i, pos, k),
            depth + 1,
            s.nodes@,
            s.children_ids@,
            s.names@,
            s.paths@,
        ),
{
    lemma_kids_placed_at(a, i, pos, depth, s.nodes@, s.children_ids@, s.names@, s.paths@, a[i].children@.len() as int, k);
}

proof fn lemma_kids_placed_at(
    a: Seq<BNode>,
    i: int,
    pos: int,
    depth: int,
    nodes: Seq<Node>,
    ids: Seq<u32>,
    names: Seq<u8>,
    paths: Seq<u8>,
    n: int,
    k: int,
)
    requires
        arena_wf(a),
        0 <= i < a.len(),
        0 <= k < n <= a[i].children@.len(),
        kids_placed(a, i, pos, depth, nodes, ids, names, paths, n),
    ensures
        ids[nodes[pos].children_start + k] == child_pos(a, i, pos, k),
        placed(a, a[i].children@[k] as int, child_pos(a, i, pos, k), depth + 1, nodes, ids, names, paths),
    decreases n,
{
    if k < n - 1 {
        lemma_kids_placed_at(a, i, pos, depth, nodes, ids, names, paths, n - 1, k);
    }
}

} // verus!
