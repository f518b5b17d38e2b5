//! Assembling the directory tree from the entries of a walk: directories are
//! found by their path, created with their missing ancestors, and files hang
//! under their parent directory.
use crate::index::{arranged, build_scene, fits, lemma_reaches_child, reaches, scene_of, Scene};
use crate::lang::{lang_of_path, Lang};
use crate::paths::{
    file_name, lemma_trimmed_path, parent, path_file_name, path_parent, path_starts_with, starts_with,
    trim_path, trimmed_path,
};
use crate::tree::{arena_wf, BNode};
use vstd::hash_map::StringHashMap;
use vstd::prelude::*;
use vstd::string::StringExecFns;

verus! {

/// What a walked entry is.
#[derive(Clone, Copy, PartialEq, Eq, Debug, Structural)]
pub enum EntryKind {
    Dir,
    File,
    /// Anything else (a link, a device, ...): it is skipped.
    Other,
}

/// Whether directory `d` can be found or made from the known directories
/// `dirs`: it is known, or it lies under `root`, has a last component, and
/// its parent can be found or made.
pub open spec fn dir_reachable(dirs: Map<Seq<char>, u32>, root: Seq<char>, d: Seq<char>) -> bool
    decreases d.len(),
{
    if dirs.contains_key(d) {
        true
    } else if !path_starts_with(d, root) || path_parent(d) is None || path_file_name(d) is None {
        false
    } else {
        proof {
            crate::paths::lemma_parent_shorter(d);
        }
        dir_reachable(dirs, root, path_parent(d)->0)
    }
}

/// Whether finding or making directory `d` from the known directories
/// `dirs` makes directory `x`: `d` is unknown and under `root`, has a
/// parent, and `x` is made for that parent, or `x` is `d` itself, made once
/// its parent is found or made when `d` has a last component. So the
/// directories made for `d` are its missing ancestors and `d`, as far as
/// they can be made.
#[verifier::opaque]
pub open spec fn made_for(dirs: Map<Seq<char>, u32>, root: Seq<char>, d: Seq<char>, x: Seq<char>) -> bool
    decreases d.len(),
{
    if dirs.contains_key(d) || !path_starts_with(d, root) || path_parent(d) is None {
        false
    } else {
        proof {
            crate::paths::lemma_parent_shorter(d);
        }
        made_for(dirs, root, path_parent(d)->0, x) || (x == d && dir_reachable(
            dirs,
            root,
            path_parent(d)->0,
        ) && path_file_name(d) is Some)
    }
}

/// Directories made for `d` are no longer than `d`.
proof fn lemma_made_for_len(dirs: Map<Seq<char>, u32>, root: Seq<char>, d: Seq<char>, x: Seq<char>)
    requires
        made_for(dirs, root, d, x),
    ensures
        x.len() <= d.len(),
    decreases d.len(),
{
    reveal(made_for);
    crate::paths::lemma_parent_shorter(d);
    if made_for(dirs, root, path_parent(d)->0, x) {
        lemma_made_for_len(dirs, root, path_parent(d)->0, x);
    }
}

/// After the parent `h` of `t` was found or made (turning `m0` into `m1`),
/// making `t` from `m1` adds, with what was made for `h`, just what making
/// `t` from `m0` would have made.
proof fn lemma_made_step(
    m0: Map<Seq<char>, u32>,
    m1: Map<Seq<char>, u32>,
    root: Seq<char>,
    t: Seq<char>,
    h: Seq<char>,
    x: Seq<char>,
)
    requires
        path_parent(t) == Some(h),
        forall|d: Seq<char>| #[trigger] m0.contains_key(d) ==> m1.contains_key(d),
        m1.contains_key(h),
        dir_reachable(m0, root, h),
        m1.contains_key(t) && !m0.contains_key(t) ==> made_for(m0, root, h, t),
    ensures
        (made_for(m1, root, t, x) || made_for(m0, root, h, x)) == (made_for(m0, root, t, x) || made_for(
            m0,
            root,
            h,
            x,
        )),
{
    reveal(made_for);
    assert(dir_reachable(m1, root, h));
    assert(!made_for(m1, root, h, x));
    if m0.contains_key(t) {
        assert(m1.contains_key(t));
    }
    if m1.contains_key(t) && !m0.contains_key(t) && x == t {
        assert(made_for(m0, root, h, t));
    }
}

/// The directory under which an entry at `p` hangs: its parent, or the root
/// for a path without one.
#[verifier::opaque]
pub open spec fn parent_or(p: Seq<char>, root: Seq<char>) -> Seq<char> {
    match path_parent(p) {
        Some(q) => q,
        None => root,
    }
}

/// Every directory is known by its path.
#[verifier::opaque]
pub open spec fn dirs_known(a: Seq<BNode>, m: Map<Seq<char>, u32>) -> bool {
    forall|j: int|
        0 <= j < a.len() && (#[trigger] a[j]).is_dir ==> m.contains_key(a[j].path@) && m[a[j].path@] == j
}

/// Every node but the root hangs under the directory that holds its path
/// (the root for a path without a parent).
#[verifier::opaque]
pub open spec fn hangs_under_parent(a: Seq<BNode>, m: Map<Seq<char>, u32>, root: Seq<char>) -> bool {
    forall|j: int|
        1 <= j < a.len() ==> {
            let h = parent_or((#[trigger] a[j]).path@, root);
            &&& m.contains_key(h)
            &&& m[h] < a.len()
            &&& a[m[h] as int].children@.contains(j as u32)
        }
}

/// Every directory but the root is named by its path's last component.
#[verifier::opaque]
pub open spec fn dirs_named(a: Seq<BNode>) -> bool {
    forall|j: int|
        1 <= j < a.len() && (#[trigger] a[j]).is_dir ==> path_file_name(a[j].path@) == Some(
            a[j].name@,
        )
}

/// Every child of a node hangs under it: the directory that holds the
/// child's path (the root for a path without a parent) is that node.
#[verifier::opaque]
pub open spec fn children_belong(a: Seq<BNode>, m: Map<Seq<char>, u32>, root: Seq<char>) -> bool {
    forall|i: int, k: int|
        0 <= i < a.len() && 0 <= k < a[i].children@.len() ==> {
            let c = #[trigger] a[i].children@[k] as int;
            let h = parent_or(a[c].path@, root);
            &&& 0 <= c < a.len()
            &&& m.contains_key(h)
            &&& m[h] == i
        }
}

/// The tree mirrors the paths of its nodes.
pub open spec fn mirrors_paths(a: Seq<BNode>, m: Map<Seq<char>, u32>, root: Seq<char>) -> bool {
    &&& dirs_known(a, m)
    &&& hangs_under_parent(a, m, root)
    &&& dirs_named(a)
    &&& children_belong(a, m, root)
}

proof fn lemma_belong_push(
    a1: Seq<BNode>,
    m1: Map<Seq<char>, u32>,
    a2: Seq<BNode>,
    m2: Map<Seq<char>, u32>,
    root: Seq<char>,
    p: int,
)
    requires
        children_belong(a1, m1, root),
        pushed_under(a1, a2, p),
        a2[a1.len() as int].children@.len() == 0,
        m1.contains_key(parent_or(a2[a1.len() as int].path@, root)),
        m1[parent_or(a2[a1.len() as int].path@, root)] == p,
        forall|k: Seq<char>| #[trigger] m1.contains_key(k) ==> m2.contains_key(k) && m2[k] == m1[k],
    ensures
        children_belong(a2, m2, root),
{
    reveal(children_belong);
    let n = a1.len() as int;
    assert forall|i: int, k: int| 0 <= i < a2.len() && 0 <= k < a2[i].children@.len() implies {
        let c = #[trigger] a2[i].children@[k] as int;
        let h = parent_or(a2[c].path@, root);
        &&& 0 <= c < a2.len()
        &&& m2.contains_key(h)
        &&& m2[h] == i
    } by {
        if i < n && !(i == p && k == a1[p].children@.len()) {
            if i == p {
                assert(a2[i].children@[k] == a1[i].children@[k]);
            } else {
                assert(a2[i] == a1[i]);
            }
            let c = a1[i].children@[k] as int;
            assert(0 <= c < n);
            if c != p {
                assert(a2[c] == a1[c]);
            }
            assert(a2[c].path == a1[c].path);
        }
    }
}

proof fn lemma_belong_shape(a1: Seq<BNode>, a2: Seq<BNode>, m: Map<Seq<char>, u32>, root: Seq<char>)
    requires
        children_belong(a1, m, root),
        same_shape(a1, a2),
    ensures
        children_belong(a2, m, root),
{
    reveal(children_belong);
    assert forall|i: int, k: int| 0 <= i < a2.len() && 0 <= k < a2[i].children@.len() implies {
        let c = #[trigger] a2[i].children@[k] as int;
        let h = parent_or(a2[c].path@, root);
        &&& 0 <= c < a2.len()
        &&& m.contains_key(h)
        &&& m[h] == i
    } by {
        assert(a2[i].children == a1[i].children);
        let c = a1[i].children@[k] as int;
        assert(a2[c].path == a1[c].path);
    }
}

/// What a push of node `n` at the end, under node `p`, leaves of the others.
pub open spec fn pushed_under(a1: Seq<BNode>, a2: Seq<BNode>, p: int) -> bool {
    &&& 0 <= p < a1.len() < u32::MAX
    &&& a2.len() == a1.len() + 1
    &&& forall|j: int| 0 <= j < a1.len() && j != p ==> #[trigger] a2[j] == a1[j]
    &&& a2[p].children@ == a1[p].children@.push(a1.len() as u32)
    &&& a2[p].path == a1[p].path
    &&& a2[p].name == a1[p].name
    &&& a2[p].is_dir == a1[p].is_dir
}

proof fn lemma_known_push(a1: Seq<BNode>, m1: Map<Seq<char>, u32>, a2: Seq<BNode>, m2: Map<Seq<char>, u32>, p: int)
    requires
        dirs_known(a1, m1),
        pushed_under(a1, a2, p),
        a2[a1.len() as int].is_dir ==> !m1.contains_key(a2[a1.len() as int].path@) && m2 == m1.insert(
            a2[a1.len() as int].path@,
            a1.len() as u32,
        ),
        !a2[a1.len() as int].is_dir ==> m2 == m1,
    ensures
        dirs_known(a2, m2),
{
    reveal(dirs_known);
    let n = a1.len() as int;
    assert forall|j: int| 0 <= j < a2.len() && (#[trigger] a2[j]).is_dir implies m2.contains_key(a2[j].path@) && m2[a2[j].path@] == j by {
        if j < n {
            assert(a1[j].is_dir && a1[j].path == a2[j].path);
            assert(m1.contains_key(a1[j].path@));
            if a2[n].is_dir {
                assert(a1[j].path@ != a2[n].path@);
            }
        }
    }
}

proof fn lemma_hangs_push(
    a1: Seq<BNode>,
    m1: Map<Seq<char>, u32>,
    a2: Seq<BNode>,
    m2: Map<Seq<char>, u32>,
    root: Seq<char>,
    p: int,
)
    requires
        hangs_under_parent(a1, m1, root),
        pushed_under(a1, a2, p),
        m1.contains_key(parent_or(a2[a1.len() as int].path@, root)),
        m1[parent_or(a2[a1.len() as int].path@, root)] == p,
        forall|k: Seq<char>| #[trigger] m1.contains_key(k) ==> m2.contains_key(k) && m2[k] == m1[k],
    ensures
        hangs_under_parent(a2, m2, root),
{
    reveal(hangs_under_parent);
    let n = a1.len() as int;
    assert forall|j: int| 1 <= j < a2.len() implies {
        let h = parent_or((#[trigger] a2[j]).path@, root);
        &&& m2.contains_key(h)
        &&& m2[h] < a2.len()
        &&& a2[m2[h] as int].children@.contains(j as u32)
    } by {
        let h = parent_or(a2[j].path@, root);
        if j < n {
            assert(a1[j].path == a2[j].path);
            assert(m1.contains_key(h));
            let q = m1[h] as int;
            assert(a1[q].children@.contains(j as u32));
            if q == p {
                let t = choose|t: int| 0 <= t < a1[q].children@.len() && a1[q].children@[t] == j as u32;
                assert(a2[q].children@[t] == j as u32);
            } else {
                assert(a2[q] == a1[q]);
            }
        } else {
            assert(a2[p].children@[a1[p].children@.len() as int] == n as u32);
        }
    }
}

proof fn lemma_named_push(a1: Seq<BNode>, a2: Seq<BNode>, p: int)
    requires
        dirs_named(a1),
        pushed_under(a1, a2, p),
        a2[a1.len() as int].is_dir ==> path_file_name(a2[a1.len() as int].path@) == Some(
            a2[a1.len() as int].name@,
        ),
    ensures
        dirs_named(a2),
{
    reveal(dirs_named);
    assert forall|j: int| 1 <= j < a2.len() && (#[trigger] a2[j]).is_dir implies path_file_name(a2[j].path@) == Some(a2[j].name@) by {
        if j < a1.len() {
            assert(a1[j].is_dir);
        }
    }
}

/// Pushing node `n` at the end, under node `p`, which holds its path, keeps
/// the tree a mirror of the paths.
proof fn lemma_mirror_push(
    a1: Seq<BNode>,
    m1: Map<Seq<char>, u32>,
    a2: Seq<BNode>,
    m2: Map<Seq<char>, u32>,
    root: Seq<char>,
    p: int,
)
    requires
        mirrors_paths(a1, m1, root),
        pushed_under(a1, a2, p),
        m1.contains_key(parent_or(a2[a1.len() as int].path@, root)),
        m1[parent_or(a2[a1.len() as int].path@, root)] == p,
        a2[a1.len() as int].is_dir ==> {
            &&& !m1.contains_key(a2[a1.len() as int].path@)
            &&& m2 == m1.insert(a2[a1.len() as int].path@, a1.len() as u32)
            &&& path_file_name(a2[a1.len() as int].path@) == Some(a2[a1.len() as int].name@)
        },
        !a2[a1.len() as int].is_dir ==> m2 == m1,
        a2[a1.len() as int].children@.len() == 0,
    ensures
        mirrors_paths(a2, m2, root),
{
    lemma_known_push(a1, m1, a2, m2, p);
    lemma_hangs_push(a1, m1, a2, m2, root, p);
    lemma_named_push(a1, a2, p);
    lemma_belong_push(a1, m1, a2, m2, root, p);
}

/// Nodes that keep their place, name, kind and children.
pub open spec fn same_shape(a1: Seq<BNode>, a2: Seq<BNode>) -> bool {
    &&& a1.len() == a2.len()
    &&& forall|j: int|
        0 <= j < a1.len() ==> (#[trigger] a2[j]).path == a1[j].path && a2[j].name == a1[j].name
            && a2[j].is_dir == a1[j].is_dir && a2[j].children == a1[j].children
}

proof fn lemma_known_shape(a1: Seq<BNode>, a2: Seq<BNode>, m: Map<Seq<char>, u32>)
    requires
        dirs_known(a1, m),
        same_shape(a1, a2),
    ensures
        dirs_known(a2, m),
{
    reveal(dirs_known);
    assert forall|j: int| 0 <= j < a2.len() && (#[trigger] a2[j]).is_dir implies m.contains_key(a2[j].path@) && m[a2[j].path@] == j by {
        assert(a1[j].is_dir);
    }
}

proof fn lemma_hangs_shape(a1: Seq<BNode>, a2: Seq<BNode>, m: Map<Seq<char>, u32>, root: Seq<char>)
    requires
        hangs_under_parent(a1, m, root),
        same_shape(a1, a2),
    ensures
        hangs_under_parent(a2, m, root),
{
    reveal(hangs_under_parent);
    assert forall|j: int| 1 <= j < a2.len() implies {
        let h = parent_or((#[trigger] a2[j]).path@, root);
        &&& m.contains_key(h)
        &&& m[h] < a2.len()
        &&& a2[m[h] as int].children@.contains(j as u32)
    } by {
        assert(a1[j].path == a2[j].path);
        let h = parent_or(a1[j].path@, root);
        let q = m[h] as int;
        assert(a2[q].children == a1[q].children);
    }
}

proof fn lemma_named_shape(a1: Seq<BNode>, a2: Seq<BNode>)
    requires
        dirs_named(a1),
        same_shape(a1, a2),
    ensures
        dirs_named(a2),
{
    reveal(dirs_named);
    assert forall|j: int| 1 <= j < a2.len() && (#[trigger] a2[j]).is_dir implies path_file_name(a2[j].path@) == Some(a2[j].name@) by {
        assert(a1[j].is_dir);
    }
}

/// The tree of a walk, as it grows.
pub struct IndexBuilder {
    arena: Vec<BNode>,
    dir_map: StringHashMap<u32>,
    root: String,
    files: Vec<u32>,
}

/// Nodes of `old` are kept in `new`, at most with children appended.
pub open spec fn grows(old: Seq<BNode>, new: Seq<BNode>) -> bool {
    &&& old.len() <= new.len()
    &&& forall|j: int|
        #![trigger new[j]]
        0 <= j < old.len() ==> {
            &&& new[j].name == old[j].name
            &&& new[j].path == old[j].path
            &&& new[j].is_dir == old[j].is_dir
            &&& new[j].lang == old[j].lang
            &&& new[j].lines == old[j].lines
            &&& new[j].bytes == old[j].bytes
            &&& new[j].weight == old[j].weight
            &&& old[j].children@.len() <= new[j].children@.len()
            &&& new[j].children@.subrange(0, old[j].children@.len() as int) == old[j].children@
        }
}

/// The nodes from `a0.len()` on are exactly the directories that `m1` knows
/// and `m0` did not: each is a directory known by its path only in `m1`,
/// carrying no kind, lines, bytes or weight of its own, and each directory
/// new to `m1` is one of them.
pub open spec fn new_dirs(
    a0: Seq<BNode>,
    m0: Map<Seq<char>, u32>,
    a1: Seq<BNode>,
    m1: Map<Seq<char>, u32>,
) -> bool {
    &&& a0.len() <= a1.len()
    &&& forall|j: int|
        a0.len() <= j < a1.len() ==> {
            let n = #[trigger] a1[j];
            &&& n.is_dir
            &&& m1.contains_key(n.path@)
            &&& m1[n.path@] == j
            &&& !m0.contains_key(n.path@)
            &&& n.lang == Lang::Other
            &&& n.lines == 0
            &&& n.bytes == 0
            &&& n.weight == 0
        }
    &&& forall|d: Seq<char>|
        #[trigger] m1.contains_key(d) && !m0.contains_key(d) ==> a0.len() <= m1[d] < a1.len()
}

proof fn lemma_new_dirs_refl(a: Seq<BNode>, m: Map<Seq<char>, u32>)
    ensures
        new_dirs(a, m, a, m),
{
}

proof fn lemma_new_dirs_trans(
    a0: Seq<BNode>,
    m0: Map<Seq<char>, u32>,
    a1: Seq<BNode>,
    m1: Map<Seq<char>, u32>,
    a2: Seq<BNode>,
    m2: Map<Seq<char>, u32>,
)
    requires
        new_dirs(a0, m0, a1, m1),
        new_dirs(a1, m1, a2, m2),
        grows(a1, a2),
        forall|d: Seq<char>| #[trigger] m0.contains_key(d) ==> m1.contains_key(d) && m1[d] == m0[d],
        forall|d: Seq<char>| #[trigger] m1.contains_key(d) ==> m2.contains_key(d) && m2[d] == m1[d],
    ensures
        new_dirs(a0, m0, a2, m2),
{
    assert forall|j: int| a0.len() <= j < a2.len() implies {
        let n = #[trigger] a2[j];
        &&& n.is_dir
        &&& m2.contains_key(n.path@)
        &&& m2[n.path@] == j
        &&& !m0.contains_key(n.path@)
        &&& n.lang == Lang::Other
        &&& n.lines == 0
        &&& n.bytes == 0
        &&& n.weight == 0
    } by {
        if j < a1.len() {
            assert(a1[j].path == a2[j].path);
            assert(m1.contains_key(a1[j].path@));
        } else {
            assert(m2.contains_key(a2[j].path@));
            if m0.contains_key(a2[j].path@) {
                assert(m1.contains_key(a2[j].path@));
            }
        }
    }
    assert forall|d: Seq<char>| #[trigger] m2.contains_key(d) && !m0.contains_key(d) implies a0.len() <= m2[d] < a2.len() by {
        if m1.contains_key(d) {
            assert(m2[d] == m1[d]);
        }
    }
}

pub proof fn lemma_grows_refl(a: Seq<BNode>)
    ensures
        grows(a, a),
{
    assert forall|j: int| 0 <= j < a.len() implies #[trigger] a[j].children@.subrange(0, a[j].children@.len() as int) == a[j].children@ by {
        assert(a[j].children@.subrange(0, a[j].children@.len() as int) =~= a[j].children@);
    }
}

pub proof fn lemma_grows_trans(a: Seq<BNode>, b: Seq<BNode>, c: Seq<BNode>)
    requires
        grows(a, b),
        grows(b, c),
    ensures
        grows(a, c),
{
    assert forall|j: int| 0 <= j < a.len() implies #[trigger] c[j].children@.subrange(0, a[j].children@.len() as int) == a[j].children@ by {
        assert(b[j].children@.subrange(0, a[j].children@.len() as int) == a[j].children@);
        assert(c[j].children@.subrange(0, b[j].children@.len() as int) == b[j].children@);
        assert(c[j].children@.subrange(0, a[j].children@.len() as int) =~= b[j].children@.subrange(0, a[j].children@.len() as int));
    }
    assert forall|j: int| 0 <= j < a.len() implies #[trigger] c[j].name == a[j].name by {
        assert(b[j].name == a[j].name);
    }
}

impl IndexBuilder {
    /// The nodes, the root first.
    pub closed spec fn nodes(&self) -> Seq<BNode> {
        self.arena@
    }

    /// The known directories, by path.
    pub closed spec fn dirs(&self) -> Map<Seq<char>, u32> {
        self.dir_map@
    }

    /// The path of the root.
    pub closed spec fn root_path(&self) -> Seq<char> {
        self.root@
    }

    /// The files in the order they were added, as node indices.
    pub closed spec fn file_ids(&self) -> Seq<u32> {
        self.files@
    }

    pub closed spec fn wf(&self) -> bool {
        &&& arena_wf(self.arena@)
        &&& self.arena@.len() <= u32::MAX
        &&& self.arena@[0].is_dir
        &&& self.arena@[0].path@ == self.root@
        &&& self.dir_map@.contains_key(self.root@)
        &&& self.dir_map@[self.root@] == 0
        &&& forall|d: Seq<char>|
            #[trigger] self.dir_map@.contains_key(d) ==> {
                &&& self.dir_map@[d] < self.arena@.len()
                &&& self.arena@[self.dir_map@[d] as int].is_dir
                &&& self.arena@[self.dir_map@[d] as int].path@ == d
            }
        &&& forall|k: int|
            0 <= k < self.files@.len() ==> {
                &&& #[trigger] self.files@[k] < self.arena@.len()
                &&& !self.arena@[self.files@[k] as int].is_dir
            }
        &&& forall|i: int, k1: int, k2: int|
            0 <= i < self.arena@.len() && 0 <= k1 < k2 < self.arena@[i].children@.len()
                ==> #[trigger] self.arena@[i].children@[k1] < #[trigger] self.arena@[i].children@[k2]
        &&& mirrors_paths(self.arena@, self.dir_map@, self.root@)
    }

    pub proof fn lemma_wf(&self)
        requires
            self.wf(),
        ensures
            arena_wf(self.nodes()),
            self.nodes().len() <= u32::MAX,
            self.dirs().contains_key(self.root_path()),
            self.dirs()[self.root_path()] == 0,
            self.nodes()[0].is_dir,
            forall|d: Seq<char>|
                #[trigger] self.dirs().contains_key(d) ==> {
                    &&& self.dirs()[d] < self.nodes().len()
                    &&& self.nodes()[self.dirs()[d] as int].is_dir
                    &&& self.nodes()[self.dirs()[d] as int].path@ == d
                },
            forall|k: int|
                0 <= k < self.file_ids().len() ==> {
                    &&& #[trigger] self.file_ids()[k] < self.nodes().len()
                    &&& !self.nodes()[self.file_ids()[k] as int].is_dir
                },
            mirrors_paths(self.nodes(), self.dirs(), self.root_path()),
            forall|i: int, k1: int, k2: int|
                0 <= i < self.nodes().len() && 0 <= k1 < k2 < self.nodes()[i].children@.len()
                    ==> #[trigger] self.nodes()[i].children@[k1] < #[trigger] self.nodes()[i].children@[k2],
    {
    }

    /// Every node lies in the subtree of the root.
    proof fn lemma_all_reach(&self, j: int)
        requires
            self.wf(),
            0 <= j < self.nodes().len(),
        ensures
            reaches(self.nodes(), 0, j),
        decreases j,
    {
        reveal(hangs_under_parent);
        if j == 0 {
            reveal(reaches);
        } else {
            let h = parent_or(self.arena@[j].path@, self.root@);
            let q = self.dir_map@[h] as int;
            let t = choose|t: int| 0 <= t < self.arena@[q].children@.len() && self.arena@[q].children@[t] == j as u32;
            assert(q < self.arena@[q].children@[t]);
            self.lemma_all_reach(q);
            lemma_reaches_child(self.arena@, 0, q, t);
        }
    }

    /// The tree mirrors the paths: a directory is found by its path, every
    /// other node is a child of the directory that holds its path (the root
    /// for a path without a parent), which comes before it, a directory below
    /// the root is named by its path's last component, and the children of a
    /// node are only nodes that it holds, so a file has none. With children
    /// lists in increasing order, each node but the root is in exactly one
    /// children list, once, and every node lies below the root.
    pub proof fn law_tree_mirrors_paths(&self, j: int)
        requires
            self.wf(),
            0 <= j < self.nodes().len(),
        ensures
            self.nodes()[j].is_dir ==> self.dirs().contains_key(self.nodes()[j].path@) && self.dirs()[self.nodes()[j].path@] == j,
            j >= 1 ==> {
                let h = parent_or(self.nodes()[j].path@, self.root_path());
                &&& self.dirs().contains_key(h)
                &&& self.dirs()[h] < self.nodes().len()
                &&& self.nodes()[self.dirs()[h] as int].children@.contains(j as u32)
            },
            j >= 1 && self.nodes()[j].is_dir ==> path_file_name(self.nodes()[j].path@) == Some(self.nodes()[j].name@),
            j >= 1 ==> self.dirs()[parent_or(self.nodes()[j].path@, self.root_path())] < j,
            forall|k: int|
                0 <= k < self.nodes()[j].children@.len() ==> {
                    let c = #[trigger] self.nodes()[j].children@[k] as int;
                    let h = parent_or(self.nodes()[c].path@, self.root_path());
                    &&& 0 <= c < self.nodes().len()
                    &&& self.dirs().contains_key(h)
                    &&& self.dirs()[h] == j
                },
            !self.nodes()[j].is_dir ==> self.nodes()[j].children@.len() == 0,
            reaches(self.nodes(), 0, j),
    {
        self.lemma_all_reach(j);
        reveal(dirs_known);
        reveal(hangs_under_parent);
        reveal(dirs_named);
        reveal(children_belong);
        assert(self.arena@[j] == self.nodes()[j]);
        if j >= 1 {
            let h = parent_or(self.nodes()[j].path@, self.root_path());
            let q = self.dirs()[h] as int;
            let t = choose|t: int| 0 <= t < self.arena@[q].children@.len() && self.arena@[q].children@[t] == j as u32;
            assert(q < self.arena@[q].children@[t]);
        }
        if self.nodes()[j].children@.len() > 0 {
            let c = self.nodes()[j].children@[0] as int;
            let h = parent_or(self.nodes()[c].path@, self.root_path());
            assert(self.dir_map@.contains_key(h));
        }
    }

    /// A tree with only the root directory at `root`, kept without trailing
    /// separators and "." components. Its name is the last component of
    /// `root`, or all of it when it has none.
    pub fn new(root: &str) -> (r: IndexBuilder)
        ensures
            r.wf(),
            r.root_path() == trimmed_path(root@),
            r.nodes().len() == 1,
            r.nodes()[0].name@ == (match path_file_name(root@) {
                Some(f) => f,
                None => trimmed_path(root@),
            }),
            r.nodes()[0].path@ == trimmed_path(root@),
            r.nodes()[0].is_dir,
            r.nodes()[0].lang == Lang::Other,
            r.nodes()[0].lines == 0,
            r.nodes()[0].bytes == 0,
            r.nodes()[0].weight == 0,
            r.nodes()[0].children@.len() == 0,
            r.dirs() == Map::<Seq<char>, u32>::empty().insert(trimmed_path(root@), 0),
            r.file_ids().len() == 0,
    {
        proof {
            lemma_trimmed_path(root@, root@);
        }
        let root = trim_path(root);
        let name = match file_name(root) {
            Some(f) => String::from_str(f),
            None => String::from_str(root),
        };
        let mut arena: Vec<BNode> = Vec::new();
        arena.push(
            BNode {
                name,
                path: String::from_str(root),
                is_dir: true,
                lang: Lang::Other,
                lines: 0,
                bytes: 0,
                weight: 0,
                children: Vec::new(),
            },
        );
        let mut dir_map: StringHashMap<u32> = StringHashMap::new();
        dir_map.insert(String::from_str(root), 0);
        let r = IndexBuilder { arena, dir_map, root: String::from_str(root), files: Vec::new() };
        assert(r.dir_map@ =~= Map::<Seq<char>, u32>::empty().insert(root@, 0));
        assert(mirrors_paths(r.arena@, r.dir_map@, r.root@)) by {
            reveal(dirs_known);
            reveal(hangs_under_parent);
            reveal(dirs_named);
            reveal(children_belong);
        }
        r
    }

    /// The number of nodes.
    pub fn node_count(&self) -> (n: usize)
        ensures
            n == self.nodes().len(),
    {
        self.arena.len()
    }

    /// The number of files added.
    pub fn file_count(&self) -> (n: usize)
        ensures
            n == self.file_ids().len(),
    {
        self.files.len()
    }

    /// Path, size and kind of the `k`-th file added.
    pub fn file_info(&self, k: usize) -> (r: (&str, u64, Lang))
        requires
            self.wf(),
            k < self.file_ids().len(),
        ensures
            r.0@ == self.nodes()[self.file_ids()[k as int] as int].path@,
            r.1 == self.nodes()[self.file_ids()[k as int] as int].bytes,
            r.2 == self.nodes()[self.file_ids()[k as int] as int].lang,
    {
        let b = &self.arena[self.files[k] as usize];
        (b.path.as_str(), b.bytes, b.lang)
    }

    /// Records the counted lines of the `k`-th file, and marks it binary when
    /// `is_bin`.
    pub fn set_counted(&mut self, k: usize, lines: u32, is_bin: bool)
        requires
            old(self).wf(),
            k < old(self).file_ids().len(),
        ensures
            final(self).wf(),
            final(self).root_path() == old(self).root_path(),
            final(self).dirs() == old(self).dirs(),
            final(self).file_ids() == old(self).file_ids(),
            final(self).nodes().len() == old(self).nodes().len(),
            forall|j: int|
                0 <= j < old(self).nodes().len() && j != old(self).file_ids()[k as int] ==> #[trigger] final(self).nodes()[j] == old(self).nodes()[j],
            ({
                let j = old(self).file_ids()[k as int] as int;
                let (o, n) = (old(self).nodes()[j], final(self).nodes()[j]);
                &&& n.lines == lines
                &&& n.lang == (if is_bin { Lang::Binary } else { o.lang })
                &&& n.name == o.name && n.path == o.path && n.is_dir == o.is_dir
                &&& n.bytes == o.bytes && n.weight == o.weight && n.children == o.children
            }),
    {
        let ghost a0 = self.arena@;
        let j = self.files[k] as usize;
        self.arena[j].lines = lines;
        if is_bin {
            self.arena[j].lang = Lang::Binary;
        }
        proof {
            assert(same_shape(a0, self.arena@));
            lemma_known_shape(a0, self.arena@, self.dir_map@);
            lemma_hangs_shape(a0, self.arena@, self.dir_map@, self.root@);
            lemma_named_shape(a0, self.arena@);
            lemma_belong_shape(a0, self.arena@, self.dir_map@, self.root@);
            assert forall|d: Seq<char>| #[trigger] self.dir_map@.contains_key(d) implies {
                &&& self.dir_map@[d] < self.arena@.len()
                &&& self.arena@[self.dir_map@[d] as int].is_dir
                &&& self.arena@[self.dir_map@[d] as int].path@ == d
            } by {
                assert(old(self).dir_map@.contains_key(d));
            }
        }
    }

    /// The index of directory `dir`, made with its missing ancestors when
    /// it lies under the root; `None` when it cannot be found or made.
    fn ensure_dir(&mut self, dir: &str) -> (r: Option<u32>)
        requires
            old(self).wf(),
            old(self).arena@.len() + dir@.len() < u32::MAX,
        ensures
            final(self).wf(),
            final(self).root@ == old(self).root@,
            final(self).files@ == old(self).files@,
            grows(old(self).arena@, final(self).arena@),
            final(self).arena@.len() <= old(self).arena@.len() + dir@.len(),
            forall|d: Seq<char>|
                #[trigger] old(self).dir_map@.contains_key(d) ==> final(self).dir_map@.contains_key(d)
                    && final(self).dir_map@[d] == old(self).dir_map@[d],
            forall|d: Seq<char>|
                #[trigger] final(self).dir_map@.contains_key(d) && !old(self).dir_map@.contains_key(d)
                    ==> d.len() <= dir@.len(),
            r is Some == dir_reachable(old(self).dir_map@, old(self).root@, dir@),
            r matches Some(i) ==> final(self).dir_map@.contains_key(dir@) && final(self).dir_map@[dir@] == i,
            new_dirs(old(self).arena@, old(self).dir_map@, final(self).arena@, final(self).dir_map@),
            old(self).dir_map@.contains_key(dir@) || !path_starts_with(dir@, old(self).root@)
                ==> final(self).arena@ == old(self).arena@ && final(self).dir_map@ == old(self).dir_map@,
            r matches Some(i) ==> (!old(self).dir_map@.contains_key(dir@) ==> i == final(self).arena@.len() - 1),
            forall|d: Seq<char>|
                #[trigger] final(self).dir_map@.contains_key(d) && !old(self).dir_map@.contains_key(d)
                    ==> made_for(old(self).dir_map@, old(self).root@, dir@, d),
            forall|d: Seq<char>|
                #[trigger] made_for(old(self).dir_map@, old(self).root@, dir@, d)
                    ==> final(self).dir_map@.contains_key(d) && !old(self).dir_map@.contains_key(d),
        decreases dir@.len(),
    {
        proof {
            lemma_grows_refl(self.arena@);
            lemma_new_dirs_refl(self.arena@, self.dir_map@);
            reveal(made_for);
        }
        if let Some(i) = self.dir_map.get(dir) {
            return Some(*i);
        }
        if !starts_with(dir, &self.root) {
            return None;
        }
        let p = match parent(dir) {
            Some(p) => p,
            None => {
                return None;
            },
        };
        let ghost a0 = self.arena@;
        let ghost m0 = self.dir_map@;
        proof {
            crate::paths::lemma_parent_shorter(dir@);
        }
        let pidx = match self.ensure_dir(p) {
            Some(i) => i,
            None => {
                proof {
                    reveal(made_for);
                    assert forall|d: Seq<char>| #[trigger] made_for(m0, self.root@, dir@, d)
                        implies made_for(m0, self.root@, p@, d) by {}
                    assert forall|d: Seq<char>| #[trigger] made_for(m0, self.root@, p@, d)
                        implies made_for(m0, self.root@, dir@, d) by {}
                }
                return None;
            },
        };
        let name = match file_name(dir) {
            Some(f) => String::from_str(f),
            None => {
                proof {
                    reveal(made_for);
                    assert forall|d: Seq<char>| #[trigger] made_for(m0, self.root@, dir@, d)
                        implies made_for(m0, self.root@, p@, d) by {}
                    assert forall|d: Seq<char>| #[trigger] made_for(m0, self.root@, p@, d)
                        implies made_for(m0, self.root@, dir@, d) by {}
                }
                return None;
            },
        };
        let ghost a1 = self.arena@;
        let ghost m1 = self.dir_map@;
        assert(!m1.contains_key(dir@)) by {
            if m1.contains_key(dir@) {
                assert(self.arena@[m1[dir@] as int].path@ == dir@);
            }
        }
        let idx = self.arena.len() as u32;
        self.arena.push(
            BNode {
                name,
                path: String::from_str(dir),
                is_dir: true,
                lang: Lang::Other,
                lines: 0,
                bytes: 0,
                weight: 0,
                children: Vec::new(),
            },
        );
        self.arena[pidx as usize].children.push(idx);
        self.dir_map.insert(String::from_str(dir), idx);
        proof {
            reveal(parent_or);
            self.lemma_after_push(a1, m1, pidx as int, dir@);
            lemma_mirror_push(a1, m1, self.arena@, self.dir_map@, self.root@, pidx as int);
            lemma_grows_trans(a0, a1, self.arena@);
            assert(new_dirs(a1, m1, self.arena@, self.dir_map@));
            lemma_new_dirs_trans(old(self).arena@, old(self).dir_map@, a1, m1, self.arena@, self.dir_map@);
            reveal(made_for);
            assert forall|d: Seq<char>| #[trigger] self.dir_map@.contains_key(d) && !m0.contains_key(d)
                implies made_for(m0, self.root@, dir@, d) by {
                if d != dir@ {
                    assert(m1.contains_key(d));
                    assert(made_for(m0, self.root@, p@, d));
                }
            }
            assert forall|d: Seq<char>| #[trigger] made_for(m0, self.root@, dir@, d)
                implies self.dir_map@.contains_key(d) && !m0.contains_key(d) by {
                if d != dir@ {
                    assert(made_for(m0, self.root@, p@, d));
                    assert(m1.contains_key(d));
                }
            }
            assert forall|k: int| 0 <= k < self.files@.len() implies {
                &&& #[trigger] self.files@[k] < self.arena@.len()
                &&& !self.arena@[self.files@[k] as int].is_dir
            } by {
                let t = self.files@[k] as int;
                if t != pidx {
                    assert(self.arena@[t] == a1[t]);
                }
            }
        }
        Some(idx)
    }

    /// What a new node at the end, hung under `p`, keeps of the invariant.
    proof fn lemma_after_push(&self, a1: Seq<BNode>, m1: Map<Seq<char>, u32>, p: int, key: Seq<char>)
        requires
            arena_wf(a1),
            a1.len() < u32::MAX,
            a1[0].is_dir,
            a1[0].path@ == self.root@,
            0 <= p < a1.len(),
            a1[p].is_dir,
            forall|d: Seq<char>|
                #[trigger] m1.contains_key(d) ==> {
                    &&& m1[d] < a1.len()
                    &&& a1[m1[d] as int].is_dir
                    &&& a1[m1[d] as int].path@ == d
                },
            m1.contains_key(self.root@),
            m1[self.root@] == 0,
            forall|k: int|
                0 <= k < self.files@.len() ==> {
                    &&& #[trigger] self.files@[k] < a1.len()
                    &&& !a1[self.files@[k] as int].is_dir
                },
            forall|i: int, k1: int, k2: int|
                0 <= i < a1.len() && 0 <= k1 < k2 < a1[i].children@.len()
                    ==> #[trigger] a1[i].children@[k1] < #[trigger] a1[i].children@[k2],
            self.arena@.len() == a1.len() + 1,
            forall|j: int| 0 <= j < a1.len() && j != p ==> #[trigger] self.arena@[j] == a1[j],
            self.arena@[p].children@ == a1[p].children@.push(a1.len() as u32),
            ({
                let q = self.arena@[p];
                q.name == a1[p].name && q.path == a1[p].path && q.is_dir == a1[p].is_dir && q.lang
                    == a1[p].lang && q.lines == a1[p].lines && q.bytes == a1[p].bytes && q.weight
                    == a1[p].weight
            }),
            self.arena@[a1.len() as int].children@.len() == 0,
            self.arena@[a1.len() as int].is_dir ==> self.dir_map@ == m1.insert(key, a1.len() as u32)
                && self.arena@[a1.len() as int].path@ == key && !m1.contains_key(key),
            !self.arena@[a1.len() as int].is_dir ==> self.dir_map@ == m1,
        ensures
            grows(a1, self.arena@),
            arena_wf(self.arena@),
            self.arena@.len() <= u32::MAX,
            self.arena@[0].is_dir,
            self.arena@[0].path@ == self.root@,
            self.dir_map@.contains_key(self.root@),
            self.dir_map@[self.root@] == 0,
            forall|d: Seq<char>|
                #[trigger] self.dir_map@.contains_key(d) ==> {
                    &&& self.dir_map@[d] < self.arena@.len()
                    &&& self.arena@[self.dir_map@[d] as int].is_dir
                    &&& self.arena@[self.dir_map@[d] as int].path@ == d
                },
            forall|i: int, k1: int, k2: int|
                0 <= i < self.arena@.len() && 0 <= k1 < k2 < self.arena@[i].children@.len()
                    ==> #[trigger] self.arena@[i].children@[k1] < #[trigger] self.arena@[i].children@[k2],
    {
        let a2 = self.arena@;
        let n = a1.len();
        assert forall|j: int| #![trigger a2[j]] 0 <= j < n implies {
            &&& a2[j].name == a1[j].name
            &&& a2[j].path == a1[j].path
            &&& a2[j].is_dir == a1[j].is_dir
            &&& a2[j].lang == a1[j].lang
            &&& a2[j].lines == a1[j].lines
            &&& a2[j].bytes == a1[j].bytes
            &&& a2[j].weight == a1[j].weight
            &&& a1[j].children@.len() <= a2[j].children@.len()
            &&& a2[j].children@.subrange(0, a1[j].children@.len() as int) == a1[j].children@
        } by {
            if j == p {
                assert(a2[j].children@.subrange(0, a1[j].children@.len() as int) =~= a1[j].children@);
            } else {
                assert(a2[j].children@.subrange(0, a1[j].children@.len() as int) =~= a1[j].children@);
            }
        }
        assert forall|i: int, k: int|
            0 <= i < a2.len() && 0 <= k < a2[i].children@.len() implies i < #[trigger] a2[i].children@[k] < a2.len() by {
            if i == p {
                if k < a1[p].children@.len() {
                    assert(a2[i].children@[k] == a1[p].children@[k]);
                }
            } else if i < n {
                assert(a2[i] == a1[i]);
            }
        }
        assert forall|i: int, k1: int, k2: int|
            0 <= i < a2.len() && 0 <= k1 < k2 < a2[i].children@.len()
                implies #[trigger] a2[i].children@[k1] < #[trigger] a2[i].children@[k2] by {
            if i == p {
                assert(a2[i].children@[k1] == a1[p].children@[k1]);
                if k2 < a1[p].children@.len() {
                    assert(a2[i].children@[k2] == a1[p].children@[k2]);
                }
            } else if i < n {
                assert(a2[i] == a1[i]);
            }
        }
        assert forall|d: Seq<char>| #[trigger] self.dir_map@.contains_key(d) implies {
            &&& self.dir_map@[d] < self.arena@.len()
            &&& self.arena@[self.dir_map@[d] as int].is_dir
            &&& self.arena@[self.dir_map@[d] as int].path@ == d
        } by {
            if a2[n as int].is_dir && d == key {
            } else {
                assert(m1.contains_key(d));
                let t = m1[d] as int;
                if t != p {
                    assert(a2[t] == a1[t]);
                }
            }
        }
        if p != 0 {
            assert(a2[0] == a1[0]);
        }
        if a2[n as int].is_dir {
            assert(key != self.root@);
        }
    }

    /// Adds one entry of the walk, as the walk yields it: finds or makes the
    /// directory that holds it (its parent, or the root), then makes the
    /// entry's own directory, or adds the file under its parent. Entries that
    /// are neither are skipped, and so is everything whose holding directory
    /// cannot be found or made. The directories it makes are exactly those
    /// that `made_for` gives for the holding directory and, for a directory
    /// entry, for the entry itself; each new one comes after its parent.
    pub fn add_entry(&mut self, path: &str, kind: EntryKind, bytes: u64, name: String)
        requires
            old(self).wf(),
            old(self).nodes().len() + 2 * path@.len() + 2 < u32::MAX,
        ensures
            final(self).wf(),
            final(self).root_path() == old(self).root_path(),
            grows(old(self).nodes(), final(self).nodes()),
            forall|d: Seq<char>|
                #[trigger] old(self).dirs().contains_key(d) ==> final(self).dirs().contains_key(d)
                    && final(self).dirs()[d] == old(self).dirs()[d],
            ({
                let holder = parent_or(path@, old(self).root_path());
                let found = dir_reachable(old(self).dirs(), old(self).root_path(), holder);
                &&& found ==> final(self).dirs().contains_key(holder)
                &&& (kind == EntryKind::Dir && found && path_starts_with(path@, old(self).root_path())
                    && path_file_name(path@) is Some) ==> final(self).dirs().contains_key(
                    trimmed_path(path@),
                )
                &&& if kind == EntryKind::File && found {
                    let j = final(self).nodes().len() - 1;
                    let f = final(self).nodes()[j];
                    &&& final(self).file_ids() == old(self).file_ids().push(j as u32)
                    &&& f.name == name
                    &&& f.path@ == path@
                    &&& !f.is_dir
                    &&& f.lang == lang_of_path(path@)
                    &&& f.lines == 0
                    &&& f.bytes == bytes
                    &&& f.weight == 0
                    &&& f.children@.len() == 0
                    &&& final(self).nodes()[final(self).dirs()[holder] as int].children@.last() == j
                } else {
                    final(self).file_ids() == old(self).file_ids()
                }
                &&& new_dirs(
                    old(self).nodes(),
                    old(self).dirs(),
                    if kind == EntryKind::File && found {
                        final(self).nodes().drop_last()
                    } else {
                        final(self).nodes()
                    },
                    final(self).dirs(),
                )
                &&& (old(self).dirs().contains_key(holder) && (kind == EntryKind::Other || (kind
                    == EntryKind::Dir && (old(self).dirs().contains_key(trimmed_path(path@)) || !path_starts_with(
                    path@,
                    old(self).root_path(),
                ))))) ==> final(self).nodes() == old(self).nodes() && final(self).dirs() == old(
                    self,
                ).dirs()
            }),
            forall|x: Seq<char>|
                #[trigger] final(self).dirs().contains_key(x) && !old(self).dirs().contains_key(x)
                    ==> made_for(old(self).dirs(), old(self).root_path(), parent_or(path@, old(self).root_path()), x)
                    || (kind == EntryKind::Dir && made_for(
                    old(self).dirs(),
                    old(self).root_path(),
                    trimmed_path(path@),
                    x,
                )),
            forall|x: Seq<char>|
                #[trigger] made_for(old(self).dirs(), old(self).root_path(), parent_or(path@, old(self).root_path()), x)
                    ==> final(self).dirs().contains_key(x) && !old(self).dirs().contains_key(x),
            kind == EntryKind::Dir ==> forall|x: Seq<char>|
                #[trigger] made_for(old(self).dirs(), old(self).root_path(), trimmed_path(path@), x)
                    ==> final(self).dirs().contains_key(x) && !old(self).dirs().contains_key(x),
    {
        let ghost a0 = self.arena@;
        let ghost m0 = self.dir_map@;
        proof {
            lemma_grows_refl(a0);
            lemma_new_dirs_refl(a0, m0);
            reveal(parent_or);
        }
        let ghost root = self.root@;
        let ghost h = parent_or(path@, root);
        let ghost t = trimmed_path(path@);
        proof {
            lemma_trimmed_path(path@, root);
            reveal(made_for);
            if path_parent(path@) is None {
                assert(h == root);
                assert forall|x: Seq<char>| !made_for(m0, root, h, x) by {}
                assert forall|x: Seq<char>| !made_for(m0, root, t, x) by {}
            } else {
                assert(path_parent(t) == Some(h));
            }
        }
        let pidx = match parent(path) {
            Some(holder) => {
                proof {
                    crate::paths::lemma_parent_shorter(path@);
                }
                match self.ensure_dir(holder) {
                    Some(i) => i,
                    None => {
                        proof {
                            reveal(made_for);
                            assert forall|x: Seq<char>| #[trigger] made_for(m0, root, t, x)
                                implies made_for(m0, root, h, x) by {}
                        }
                        return;
                    },
                }
            },
            None => 0,
        };
        match kind {
            EntryKind::Dir => {
                let ghost a_mid = self.arena@;
                let ghost m_mid = self.dir_map@;
                let d = trim_path(path);
                proof {
                    lemma_trimmed_path(path@, self.root@);
                    if path_parent(path@) is Some {
                        assert(dir_reachable(m_mid, self.root@, path_parent(path@)->0));
                        if path_starts_with(path@, self.root@) && path_file_name(path@) is Some {
                            assert(dir_reachable(m_mid, self.root@, d@));
                        }
                    }
                }
                let _ = self.ensure_dir(d);
                proof {
                    lemma_grows_trans(a0, a_mid, self.arena@);
                    lemma_new_dirs_trans(a0, m0, a_mid, m_mid, self.arena@, self.dir_map@);
                    if path_parent(path@) is Some {
                        assert forall|x: Seq<char>|
                            (made_for(m_mid, root, t, x) || made_for(m0, root, h, x)) == (made_for(m0, root, t, x)
                                || made_for(m0, root, h, x)) by {
                            lemma_made_step(m0, m_mid, root, t, h, x);
                        }
                    }
                }
                return;
            },
            EntryKind::Other => {
                return;
            },
            EntryKind::File => {},
        }
        let lang = Lang::from_path(path);
        let ghost a1 = self.arena@;
        let ghost m1 = self.dir_map@;
        let idx = self.arena.len() as u32;
        self.arena.push(
            BNode {
                name,
                path: String::from_str(path),
                is_dir: false,
                lang,
                lines: 0,
                bytes,
                weight: 0,
                children: Vec::new(),
            },
        );
        self.arena[pidx as usize].children.push(idx);
        proof {
            reveal(parent_or);
            self.lemma_after_push(a1, m1, pidx as int, path@);
            lemma_mirror_push(a1, m1, self.arena@, self.dir_map@, self.root@, pidx as int);
            lemma_grows_trans(a0, a1, self.arena@);
            let a2 = self.arena@;
            assert forall|j: int| #![trigger a2.drop_last()[j]] 0 <= j < a1.len() implies a2.drop_last()[j].is_dir == a1[j].is_dir
                && a2.drop_last()[j].path == a1[j].path && a2.drop_last()[j].lang == a1[j].lang
                && a2.drop_last()[j].lines == a1[j].lines && a2.drop_last()[j].bytes == a1[j].bytes
                && a2.drop_last()[j].weight == a1[j].weight by {
                assert(a2.drop_last()[j] == a2[j]);
            }
            assert(new_dirs(a1, m1, a2.drop_last(), self.dir_map@));
            assert(new_dirs(a0, m0, a2.drop_last(), self.dir_map@)) by {
                assert forall|j: int| a0.len() <= j < a2.drop_last().len() implies {
                    let n = #[trigger] a2.drop_last()[j];
                    &&& n.is_dir
                    &&& m1.contains_key(n.path@)
                    &&& m1[n.path@] == j
                    &&& !m0.contains_key(n.path@)
                    &&& n.lang == Lang::Other
                    &&& n.lines == 0
                    &&& n.bytes == 0
                    &&& n.weight == 0
                } by {
                    assert(a2.drop_last()[j] == a2[j]);
                    assert(a1[j].path == a2[j].path);
                }
            }
        }
        self.files.push(idx);
        proof {
            assert forall|k: int| 0 <= k < self.files@.len() implies {
                &&& #[trigger] self.files@[k] < self.arena@.len()
                &&& !self.arena@[self.files@[k] as int].is_dir
            } by {
                if k < self.files@.len() - 1 {
                    let t = self.files@[k] as int;
                    assert(t < a1.len());
                    if t != pidx {
                        assert(self.arena@[t] == a1[t]);
                    }
                }
            }
        }
    }

    /// Weighs, orders and flattens the tree into a scene (see `build_scene`).
    pub fn finish(self) -> (r: Option<Scene>)
        requires
            self.wf(),
        ensures
            exists|a1: Seq<BNode>|
                #![trigger arranged(self.nodes(), a1)]
                arranged(self.nodes(), a1) && (r is Some <==> fits(a1)) && (r matches Some(s) ==> scene_of(a1, s)),
    {
        let ghost a = self.arena@;
        let r = build_scene(self.arena);
        proof {
            let a1 = choose|a1: Seq<BNode>|
                #![trigger arranged(a, a1)]
                arranged(a, a1) && (r is Some <==> fits(a1)) && (r matches Some(s) ==> scene_of(a1, s));
            assert(arranged(self.nodes(), a1));
        }
        r
    }
}

} // verus!
