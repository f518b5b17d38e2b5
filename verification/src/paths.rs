//! The parts of a '/'-separated path that the index needs: its parent
//! directory, its last component, its extension, and whether it lies under
//! another path. As with `std::path::Path`, trailing separators and trailing
//! "." components are not components: "a/b/" and "a/b/." end in "b".
use vstd::prelude::*;

verus! {

/// The index of the last `ch` among the first `n` characters of `p`, or -1.
pub open spec fn last_index(p: Seq<char>, n: int, ch: char) -> int
    decreases n,
{
    if n <= 0 {
        -1
    } else if p[n - 1] == ch {
        n - 1
    } else {
        last_index(p, n - 1, ch)
    }
}

pub open spec fn last_of(p: Seq<char>, ch: char) -> int {
    last_index(p, p.len() as int, ch)
}

/// The length of the first `n` characters of `p` once trailing separators
/// and trailing "." components are dropped; a leading "/" or "." stays.
pub open spec fn trim_len(p: Seq<char>, n: int) -> int
    decreases n,
{
    if n >= 2 && (p[n - 1] == '/' || (p[n - 1] == '.' && p[n - 2] == '/')) {
        trim_len(p, n - 1)
    } else {
        n
    }
}

/// Where the last component of `p` ends (see `trim_len`).
pub open spec fn end_of(p: Seq<char>) -> int {
    trim_len(p, p.len() as int)
}

/// `p` without trailing separators and trailing "." components: the same
/// path to `std::path::Path`.
pub open spec fn trimmed_path(p: Seq<char>) -> Seq<char> {
    p.take(end_of(p))
}

/// The directory that holds `p`: everything before its last component, with
/// trailing separators and "." components dropped; "/" for a child of the
/// root, "" for a single component, and none for "" and "/".
pub open spec fn path_parent(p: Seq<char>) -> Option<Seq<char>> {
    let e = end_of(p);
    let k = last_index(p, e, '/');
    if e == 0 {
        None
    } else if k < 0 {
        Some(Seq::empty())
    } else if k == 0 {
        if e == 1 {
            None
        } else {
            Some(seq!['/'])
        }
    } else {
        Some(p.take(trim_len(p, k)))
    }
}

/// The last component of `p`; none when it is empty, "." or "..".
pub open spec fn path_file_name(p: Seq<char>) -> Option<Seq<char>> {
    let e = end_of(p);
    let f = p.subrange(last_index(p, e, '/') + 1, e);
    if f.len() == 0 || f == seq!['.'] || f == seq!['.', '.'] {
        None
    } else {
        Some(f)
    }
}

/// The extension of the last component: what follows its last '.', when that
/// '.' is not the component's first character.
pub open spec fn path_extension(p: Seq<char>) -> Option<Seq<char>> {
    match path_file_name(p) {
        None => None,
        Some(f) => {
            let k = last_of(f, '.');
            if k >= 1 {
                Some(f.skip(k + 1))
            } else {
                None
            }
        },
    }
}

/// `p` is `root` or lies below it, component by component, trailing
/// separators and "." components of either left aside.
pub open spec fn path_starts_with(p: Seq<char>, root: Seq<char>) -> bool {
    let (ep, er) = (end_of(p), end_of(root));
    ||| root.len() == 0
    ||| {
        &&& er <= ep
        &&& p.take(er) == root.take(er)
        &&& (ep == er || p[er] == '/' || root[er - 1] == '/')
    }
}

/// The characters of `s`.
pub fn chars_of(s: &str) -> (v: Vec<char>)
    ensures
        v@ == s@,
{
    let mut v: Vec<char> = Vec::new();
    for c in it: s.chars()
        invariant
            v@ == it.seq().take(it.index() as int),
    {
        v.push(c);
    }
    v
}

/// The index of the last `ch` among the first `n` characters of `v`.
pub fn find_last(v: &Vec<char>, ch: char, n: usize) -> (r: Option<usize>)
    requires
        n <= v@.len(),
    ensures
        match r {
            Some(k) => k == last_index(v@, n as int, ch),
            None => last_index(v@, n as int, ch) == -1,
        },
{
    let mut m = n;
    while m > 0
        invariant
            m <= n <= v@.len(),
            last_index(v@, n as int, ch) == last_index(v@, m as int, ch),
        decreases m,
    {
        if v[m - 1] == ch {
            return Some(m - 1);
        }
        m = m - 1;
    }
    None
}

/// The length of the first `n` characters of `v` without trailing
/// separators and "." components (see `trim_len`).
fn trimmed(v: &Vec<char>, n: usize) -> (r: usize)
    requires
        n <= v@.len(),
    ensures
        r == trim_len(v@, n as int),
{
    let mut m = n;
    while m >= 2 && (v[m - 1] == '/' || (v[m - 1] == '.' && v[m - 2] == '/'))
        invariant
            m <= n <= v@.len(),
            trim_len(v@, m as int) == trim_len(v@, n as int),
        decreases m,
    {
        m = m - 1;
    }
    m
}

proof fn lemma_trim_len(p: Seq<char>, n: int)
    requires
        0 <= n <= p.len(),
    ensures
        0 <= trim_len(p, n) <= n,
        n >= 1 ==> trim_len(p, n) >= 1,
    decreases n,
{
    if n >= 2 && (p[n - 1] == '/' || (p[n - 1] == '.' && p[n - 2] == '/')) {
        lemma_trim_len(p, n - 1);
    }
}

proof fn lemma_last_index_bounds(p: Seq<char>, n: int, ch: char)
    requires
        0 <= n <= p.len(),
    ensures
        -1 <= last_index(p, n, ch) < n,
        last_index(p, n, ch) >= 0 ==> p[last_index(p, n, ch)] == ch,
        forall|j: int| last_index(p, n, ch) < j < n ==> p[j] != ch,
    decreases n,
{
    if n > 0 {
        lemma_last_index_bounds(p, n - 1, ch);
    }
}

pub proof fn lemma_last_of(p: Seq<char>, ch: char)
    ensures
        -1 <= last_of(p, ch) < p.len(),
        last_of(p, ch) >= 0 ==> p[last_of(p, ch)] == ch,
        forall|j: int| last_of(p, ch) < j < p.len() ==> p[j] != ch,
{
    lemma_last_index_bounds(p, p.len() as int, ch);
}

proof fn lemma_prefix_agree(p: Seq<char>, q: Seq<char>, n: int, k: int, ch: char)
    requires
        0 <= k <= n <= p.len(),
        n <= q.len(),
        p.take(n) == q.take(n),
    ensures
        trim_len(p, k) == trim_len(q, k),
        last_index(p, k, ch) == last_index(q, k, ch),
    decreases k,
{
    if k > 0 {
        assert(p[k - 1] == p.take(n)[k - 1]);
        assert(q[k - 1] == q.take(n)[k - 1]);
        if k >= 2 {
            assert(p[k - 2] == p.take(n)[k - 2]);
            assert(q[k - 2] == q.take(n)[k - 2]);
        }
        lemma_prefix_agree(p, q, n, k - 1, ch);
    }
}

proof fn lemma_trim_fixed(p: Seq<char>, n: int)
    requires
        0 <= n <= p.len(),
    ensures
        trim_len(p, trim_len(p, n)) == trim_len(p, n),
    decreases n,
{
    if n >= 2 && (p[n - 1] == '/' || (p[n - 1] == '.' && p[n - 2] == '/')) {
        lemma_trim_fixed(p, n - 1);
    }
}

/// Dropping trailing separators and "." components changes neither the
/// parent, nor the last component, nor whether a path lies under another.
pub proof fn lemma_trimmed_path(p: Seq<char>, root: Seq<char>)
    ensures
        end_of(trimmed_path(p)) == trimmed_path(p).len(),
        path_parent(trimmed_path(p)) == path_parent(p),
        path_file_name(trimmed_path(p)) == path_file_name(p),
        path_starts_with(trimmed_path(p), root) == path_starts_with(p, root),
        trimmed_path(p).len() <= p.len(),
{
    let e = end_of(p);
    let t = trimmed_path(p);
    lemma_trim_len(p, p.len() as int);
    assert(t.len() == e);
    assert(t.take(e) =~= p.take(e));
    assert(t =~= t.take(e));
    lemma_trim_fixed(p, p.len() as int);
    lemma_prefix_agree(t, p, e, e, '/');
    assert(end_of(t) == e);
    let k = last_index(p, e, '/');
    lemma_last_index_bounds(p, e, '/');
    if k > 0 {
        lemma_prefix_agree(t, p, e, k, '/');
        assert(t.take(trim_len(t, k)) =~= p.take(trim_len(p, k))) by {
            lemma_trim_len(p, k);
        }
    }
    assert(t.subrange(k + 1, e) =~= p.subrange(k + 1, e));
    lemma_trim_len(root, root.len() as int);
    if root.len() > 0 && end_of(root) <= e {
        assert(t.take(end_of(root)) =~= p.take(end_of(root)));
        if end_of(root) < e {
            assert(t[end_of(root)] == p[end_of(root)]);
        }
    }
}

/// `p` without trailing separators and "." components (see `trimmed_path`).
pub fn trim_path(p: &str) -> (r: &str)
    ensures
        r@ == trimmed_path(p@),
{
    let v = chars_of(p);
    let e = trimmed(&v, v.len());
    proof {
        lemma_trim_len(p@, p@.len() as int);
    }
    let r = p.substring_char(0, e);
    assert(r@ =~= p@.take(e as int));
    r
}

/// A parent is shorter than its child.
pub proof fn lemma_parent_shorter(p: Seq<char>)
    ensures
        path_parent(p) matches Some(q) ==> q.len() < p.len(),
{
    lemma_trim_len(p, p.len() as int);
    let e = end_of(p);
    lemma_last_index_bounds(p, e, '/');
    let k = last_index(p, e, '/');
    if k > 0 {
        lemma_trim_len(p, k);
    }
}

/// The parent directory of `p` (see `path_parent`).
pub fn parent(p: &str) -> (r: Option<&str>)
    ensures
        r is Some == path_parent(p@) is Some,
        r matches Some(q) ==> q@ == path_parent(p@)->0,
{
    let v = chars_of(p);
    let e = trimmed(&v, v.len());
    if e == 0 {
        return None;
    }
    proof {
        lemma_trim_len(p@, p@.len() as int);
        lemma_last_index_bounds(p@, e as int, '/');
    }
    match find_last(&v, '/', e) {
        None => {
            let q = p.substring_char(0, 0);
            assert(q@ =~= Seq::<char>::empty());
            Some(q)
        },
        Some(k) => {
            if k == 0 {
                if e == 1 {
                    None
                } else {
                    let q = p.substring_char(0, 1);
                    assert(q@ =~= seq!['/']);
                    Some(q)
                }
            } else {
                let t = trimmed(&v, k);
                proof {
                    lemma_trim_len(p@, k as int);
                }
                let q = p.substring_char(0, t);
                assert(q@ =~= p@.take(t as int));
                Some(q)
            }
        },
    }
}

/// The last component of `p` (see `path_file_name`).
pub fn file_name(p: &str) -> (r: Option<&str>)
    ensures
        r is Some == path_file_name(p@) is Some,
        r matches Some(q) ==> q@ == path_file_name(p@)->0,
{
    let v = chars_of(p);
    let e = trimmed(&v, v.len());
    proof {
        lemma_trim_len(p@, p@.len() as int);
        lemma_last_index_bounds(p@, e as int, '/');
    }
    let start = match find_last(&v, '/', e) {
        None => 0,
        Some(k) => k + 1,
    };
    let f = p.substring_char(start, e);
    assert(f@ =~= p@.subrange(last_index(p@, e as int, '/') + 1, e as int));
    let len = e - start;
    if len == 0 {
        return None;
    }
    if len == 1 && v[start] == '.' {
        assert(f@ =~= seq!['.']);
        return None;
    }
    if len == 2 && v[start] == '.' && v[start + 1] == '.' {
        assert(f@ =~= seq!['.', '.']);
        return None;
    }
    proof {
        if f@ == seq!['.'] {
            assert(f@[0] == v@[start as int]);
        }
        if f@ == seq!['.', '.'] {
            assert(f@[0] == v@[start as int]);
            assert(f@[1] == v@[start + 1]);
        }
    }
    Some(f)
}

/// The extension of `p` (see `path_extension`).
pub fn extension(p: &str) -> (r: Option<&str>)
    ensures
        r is Some == path_extension(p@) is Some,
        r matches Some(q) ==> q@ == path_extension(p@)->0,
{
    match file_name(p) {
        None => None,
        Some(f) => {
            let v = chars_of(f);
            let n = v.len();
            proof {
                lemma_last_of(f@, '.');
            }
            match find_last(&v, '.', n) {
                None => None,
                Some(k) => {
                    if k >= 1 {
                        assert(k < n);
                        let e = f.substring_char(k + 1, n);
                        assert(e@ =~= f@.skip(k + 1));
                        Some(e)
                    } else {
                        None
                    }
                },
            }
        },
    }
}

/// Whether `p` is `root` or lies below it (see `path_starts_with`).
pub fn starts_with(p: &str, root: &str) -> (r: bool)
    ensures
        r == path_starts_with(p@, root@),
{
    let pv = chars_of(p);
    let rv = chars_of(root);
    if rv.len() == 0 {
        return true;
    }
    let ep = trimmed(&pv, pv.len());
    let n = trimmed(&rv, rv.len());
    proof {
        lemma_trim_len(p@, p@.len() as int);
        lemma_trim_len(root@, root@.len() as int);
    }
    if n > ep {
        return false;
    }
    let mut t: usize = 0;
    while t < n
        invariant
            pv@ == p@,
            rv@ == root@,
            n <= ep <= pv@.len(),
            n <= rv@.len(),
            ep == end_of(p@),
            n == end_of(root@),
            rv@.len() > 0,
            t <= n,
            pv@.take(t as int) == rv@.take(t as int),
        decreases n - t,
    {
        if pv[t] != rv[t] {
            assert(pv@.take(n as int)[t as int] != rv@.take(n as int)[t as int]);
            return false;
        }
        t = t + 1;
        assert(pv@.take(t as int) =~= pv@.take(t - 1).push(pv@[t - 1]));
        assert(rv@.take(t as int) =~= rv@.take(t - 1).push(rv@[t - 1]));
    }
    ep == n || pv[n] == '/' || rv[n - 1] == '/'
}

} // verus!
