//! Per-line outlines of a file, as drawn when its text is too small to read:
//! for each line its class, indentation and length, packed into a `u32`;
//! and a bounded cache of such outlines.
use crate::lang::Lang;
use std::collections::HashMap;
use std::sync::Arc;
use vstd::prelude::*;

verus! {

pub const NL: u8 = 10;
pub const SPACE: u8 = 32;
pub const TAB: u8 = 9;
pub const SLASH: u8 = 47;
pub const STAR: u8 = 42;
pub const HASH: u8 = 35;

/// Bytes of a file that are outlined; the rest is ignored.
pub const OUTLINE_CAP: usize = 12582912;

/// Outlines longer than this many lines are thinned by a whole stride.
pub const MAX_OUTLINE_LINES: usize = 50000;

/// The number of outlines the cache holds at most.
pub const CACHE_CAP: usize = 96;

/// The index of the first `b` in `s`, or -1.
pub open spec fn first_index(s: Seq<u8>, b: u8) -> int
    decreases s.len(),
{
    if s.len() == 0 {
        -1
    } else if s[0] == b {
        0
    } else {
        let r = first_index(s.drop_first(), b);
        if r < 0 {
            -1
        } else {
            r + 1
        }
    }
}

pub proof fn lemma_first_index(s: Seq<u8>, b: u8, k: int)
    requires
        0 <= k <= s.len(),
        forall|m: int| 0 <= m < k ==> s[m] != b,
        k == s.len() || s[k] == b,
    ensures
        first_index(s, b) == if k == s.len() {
            -1
        } else {
            k
        },
    decreases s.len(),
{
    if s.len() > 0 && k > 0 {
        lemma_first_index(s.drop_first(), b, k - 1);
    }
}

pub proof fn lemma_first_index_bounds(s: Seq<u8>, b: u8)
    ensures
        -1 <= first_index(s, b) < s.len(),
    decreases s.len(),
{
    if s.len() > 0 {
        lemma_first_index_bounds(s.drop_first(), b);
    }
}

/// The lines of `d`, split at each newline: a file ending in a newline has an
/// empty last line, and an empty file has one empty line.
pub open spec fn split_lines(d: Seq<u8>) -> Seq<Seq<u8>>
    decreases d.len(),
{
    let k = first_index(d, NL);
    if k < 0 {
        seq![d]
    } else {
        proof {
            lemma_first_index_bounds(d, NL);
        }
        seq![d.take(k)] + split_lines(d.skip(k + 1))
    }
}

pub proof fn lemma_split_len(d: Seq<u8>)
    ensures
        split_lines(d).len() <= d.len() + 1,
    decreases d.len(),
{
    lemma_first_index_bounds(d, NL);
    let k = first_index(d, NL);
    if k >= 0 {
        lemma_split_len(d.skip(k + 1));
    }
}

/// The number of leading spaces and tabs of `line`.
pub open spec fn blank_prefix(line: Seq<u8>) -> nat
    decreases line.len(),
{
    if line.len() > 0 && (line[0] == SPACE || line[0] == TAB) {
        1 + blank_prefix(line.drop_first())
    } else {
        0
    }
}

/// The indentation of `line`: a space counts one column, a tab four.
pub open spec fn indent_of(line: Seq<u8>) -> nat
    decreases line.len(),
{
    if line.len() > 0 && line[0] == SPACE {
        1 + indent_of(line.drop_first())
    } else if line.len() > 0 && line[0] == TAB {
        4 + indent_of(line.drop_first())
    } else {
        0
    }
}

/// Kinds whose '#' lines are comments.
pub open spec fn hash_comments(lang: Lang) -> bool {
    lang == Lang::Python || lang == Lang::Build || lang == Lang::Markdown
}

/// 0 for a blank line, 1 for a comment ("//", "/*", a leading '*', or '#'
/// where that starts a comment), 2 for another '#' line (a preprocessor
/// line), 3 for code.
pub open spec fn class_of(line: Seq<u8>, lang: Lang) -> u32 {
    let p = blank_prefix(line);
    if p == line.len() {
        0
    } else {
        let t = line.skip(p as int);
        if (t.len() >= 2 && t[0] == SLASH && (t[1] == SLASH || t[1] == STAR)) || t[0] == STAR {
            1
        } else if t[0] == HASH {
            if hash_comments(lang) {
                1
            } else {
                2
            }
        } else {
            3
        }
    }
}

proof fn lemma_blank_prefix(line: Seq<u8>, k: int)
    requires
        0 <= k < line.len(),
        forall|j: int| 0 <= j < k ==> line[j] == SPACE || line[j] == TAB,
        line[k] != SPACE && line[k] != TAB,
    ensures
        blank_prefix(line) == k,
    decreases k,
{
    if k > 0 {
        lemma_blank_prefix(line.drop_first(), k - 1);
    }
}

/// A line whose first character after spaces and tabs is '#' is a comment
/// (class 1) in Python, build files and Markdown, and a preprocessor line
/// (class 2) in every other kind.
pub proof fn law_hash_lines(line: Seq<u8>, lang: Lang, k: int)
    requires
        0 <= k < line.len(),
        forall|j: int| 0 <= j < k ==> line[j] == 32 || line[j] == 9,
        line[k] == 35,
    ensures
        (lang == Lang::Python || lang == Lang::Build || lang == Lang::Markdown) ==> class_of(line, lang) == 1,
        !(lang == Lang::Python || lang == Lang::Build || lang == Lang::Markdown) ==> class_of(line, lang) == 2,
{
    lemma_blank_prefix(line, k);
    assert(line.skip(k)[0] == 35);
}

/// A line outline: class in bits 28 and up, indentation in bits 16..28,
/// length in bits 0..16.
pub open spec fn pack(cls: u32, ind: u32, len: u32) -> u32 {
    (cls * 0x1000_0000 + ind * 0x1_0000 + len) as u32
}

pub open spec fn min_nat(x: nat, y: nat) -> nat {
    if x < y {
        x
    } else {
        y
    }
}

/// The outline of one line, indentation capped at 4095 and length at 65535.
pub open spec fn entry_of(line: Seq<u8>, lang: Lang) -> u32 {
    pack(
        class_of(line, lang),
        min_nat(indent_of(line), 4095) as u32,
        min_nat(line.len(), 65535) as u32,
    )
}

/// Unpacking gives back what was packed.
pub proof fn law_unpack(cls: u32, ind: u32, len: u32)
    requires
        cls < 16,
        ind < 4096,
        len < 65536,
    ensures
        pack(cls, ind, len) >> 28u32 == cls,
        (pack(cls, ind, len) >> 16u32) & 0xfffu32 == ind,
        pack(cls, ind, len) & 0xffffu32 == len,
{
    assert(cls * 0x1000_0000 + ind * 0x1_0000 + len <= u32::MAX) by (nonlinear_arith)
        requires
            cls < 16,
            ind < 4096,
            len < 65536,
    ;
    let p = pack(cls, ind, len);
    assert(p == ((cls << 28u32) | (ind << 16u32) | len)) by (bit_vector)
        requires
            cls < 16,
            ind < 4096,
            len < 65536,
            p == cls * 0x1000_0000 + ind * 0x1_0000 + len,
    ;
    assert(((cls << 28u32) | (ind << 16u32) | len) >> 28u32 == cls) by (bit_vector)
        requires
            cls < 16,
            ind < 4096,
            len < 65536,
    ;
    assert((((cls << 28u32) | (ind << 16u32) | len) >> 16u32) & 0xfffu32 == ind) by (bit_vector)
        requires
            cls < 16,
            ind < 4096,
            len < 65536,
    ;
    assert(((cls << 28u32) | (ind << 16u32) | len) & 0xffffu32 == len) by (bit_vector)
        requires
            cls < 16,
            ind < 4096,
            len < 65536,
    ;
}

/// The first `OUTLINE_CAP` bytes of `d`.
pub open spec fn clip(d: Seq<u8>) -> Seq<u8> {
    if d.len() > OUTLINE_CAP {
        d.take(OUTLINE_CAP as int)
    } else {
        d
    }
}

/// Every `stride`-th outline, from the first, when there are more than
/// `MAX_OUTLINE_LINES` of them; all of them otherwise.
pub open spec fn thinned(raw: Seq<u32>) -> Seq<u32> {
    if raw.len() > MAX_OUTLINE_LINES {
        let n = raw.len() as int;
        let stride = n / (MAX_OUTLINE_LINES as int);
        Seq::new(((n + stride - 1) / stride) as nat, |k: int| raw[k * stride])
    } else {
        raw
    }
}

/// The largest length in the outlines `s`, and at least 1.
pub open spec fn max_len_of(s: Seq<u32>) -> u32
    decreases s.len(),
{
    if s.len() == 0 {
        1
    } else {
        let rest = max_len_of(s.drop_last());
        let here = s.last() & 0xffffu32;
        if here > rest {
            here
        } else {
            rest
        }
    }
}

/// The outline of a file: one entry per line (see `entry_of`), thinned out
/// for long files, and the greatest line length.
pub struct LineMetrics {
    pub max_len: u32,
    pub lines: Vec<u32>,
}

/// The outline that `build_metrics` gives for file contents `d`.
pub open spec fn outline_of(d: Seq<u8>, lang: Lang) -> Seq<u32> {
    thinned(split_lines(clip(d)).map_values(|l: Seq<u8>| entry_of(l, lang)))
}

/// The class of a line (see `class_of`).
pub fn line_class(line: &[u8], lang: Lang) -> (r: u32)
    ensures
        r == class_of(line@, lang),
{
    let n = line.len();
    let mut p: usize = 0;
    assert(line@.skip(0) =~= line@);
    while p < n && (line[p] == SPACE || line[p] == TAB)
        invariant
            p <= n == line@.len(),
            blank_prefix(line@) == p + blank_prefix(line@.skip(p as int)),
        decreases n - p,
    {
        assert(line@.skip(p as int).drop_first() =~= line@.skip(p + 1));
        p = p + 1;
    }
    assert(blank_prefix(line@.skip(p as int)) == 0);
    if p == n {
        return 0;
    }
    let t0 = line[p];
    if (p + 1 < n && t0 == SLASH && (line[p + 1] == SLASH || line[p + 1] == STAR)) || t0 == STAR {
        return 1;
    }
    if t0 == HASH {
        return match lang {
            Lang::Python | Lang::Build | Lang::Markdown => 1,
            _ => 2,
        };
    }
    3
}

/// The indentation of a line (see `indent_of`), at most 4095.
fn line_indent(line: &[u8]) -> (r: u32)
    ensures
        r == min_nat(indent_of(line@), 4095),
{
    let n = line.len();
    let mut p: usize = 0;
    let mut ind: u32 = 0;
    assert(line@.skip(0) =~= line@);
    while p < n && (line[p] == SPACE || line[p] == TAB)
        invariant
            p <= n == line@.len(),
            ind <= 4095,
            min_nat(indent_of(line@), 4095) == min_nat(ind as nat + indent_of(line@.skip(p as int)), 4095),
        decreases n - p,
    {
        assert(line@.skip(p as int).drop_first() =~= line@.skip(p + 1));
        let step: u32 = if line[p] == SPACE {
            1
        } else {
            4
        };
        ind = if ind + step > 4095 {
            4095
        } else {
            ind + step
        };
        p = p + 1;
    }
    ind
}

/// The outline of one line (see `entry_of`).
pub fn line_entry(line: &[u8], lang: Lang) -> (r: u32)
    ensures
        r == entry_of(line@, lang),
{
    let cls = line_class(line, lang);
    let ind = line_indent(line);
    let len: u32 = if line.len() < 65535 {
        line.len() as u32
    } else {
        65535
    };
    assert(cls * 0x1000_0000 + ind * 0x1_0000 + len <= u32::MAX) by (nonlinear_arith)
        requires
            cls < 4,
            ind < 4096,
            len < 65536,
    ;
    assert(((cls << 28u32) | (ind << 16u32) | len) == cls * 0x1000_0000 + ind * 0x1_0000 + len) by (bit_vector)
        requires
            cls < 4,
            ind < 4096,
            len < 65536,
    ;
    (cls << 28) | (ind << 16) | len
}

/// The outline of a file with contents `data` and kind `lang`; `None` (the
/// file could not be read) gives an empty outline.
pub fn build_metrics(data: Option<&[u8]>, lang: Lang) -> (m: LineMetrics)
    ensures
        m.lines@ == match data {
            Some(d) => outline_of(d@, lang),
            None => Seq::<u32>::empty(),
        },
        m.max_len == max_len_of(m.lines@),
{
    let d = match data {
        Some(d) => d,
        None => {
            return LineMetrics { max_len: 1, lines: Vec::new() };
        },
    };
    let d = if d.len() > OUTLINE_CAP {
        vstd::slice::slice_subrange(d, 0, OUTLINE_CAP)
    } else {
        d
    };
    let raw = outline_lines(d, lang);
    let lines = thin(raw);
    let n = lines.len();
    let mut max_len: u32 = 1;
    let mut t: usize = 0;
    while t < n
        invariant
            n == lines@.len(),
            t <= n,
            max_len == max_len_of(lines@.take(t as int)),
        decreases n - t,
    {
        let here = lines[t] & 0xffff;
        assert(lines@.take(t + 1).drop_last() =~= lines@.take(t as int));
        if here > max_len {
            max_len = here;
        }
        t = t + 1;
    }
    assert(lines@.take(n as int) =~= lines@);
    LineMetrics { max_len, lines }
}

/// One outline per line of `d`.
fn outline_lines(d: &[u8], lang: Lang) -> (raw: Vec<u32>)
    requires
        d@.len() <= OUTLINE_CAP,
    ensures
        raw@ == split_lines(d@).map_values(|l: Seq<u8>| entry_of(l, lang)),
        raw@.len() <= OUTLINE_CAP + 1,
{
    let n = d.len();
    let mut raw: Vec<u32> = Vec::new();
    let mut start: usize = 0;
    let ghost mut done: Seq<Seq<u8>> = Seq::empty();
    proof {
        assert(d@.skip(0) =~= d@);
        lemma_split_len(d@);
    }
    loop
        invariant_except_break
            raw@ == done.map_values(|l: Seq<u8>| entry_of(l, lang)),
            split_lines(d@) == done + split_lines(d@.skip(start as int)),
        invariant
            n == d@.len(),
            start <= n,
        ensures
            raw@ == split_lines(d@).map_values(|l: Seq<u8>| entry_of(l, lang)),
        decreases n - start,
    {
        let mut j = start;
        while j < n && d[j] != NL
            invariant
                start <= j <= n == d@.len(),
                forall|m: int| start <= m < j ==> d@[m] != NL,
            decreases n - j,
        {
            j = j + 1;
        }
        let seg = vstd::slice::slice_subrange(d, start, j);
        let e = line_entry(seg, lang);
        raw.push(e);
        let ghost rest = d@.skip(start as int);
        proof {
            lemma_first_index(rest, NL, j - start);
            if j < n {
                assert(rest.take(j - start) =~= seg@);
                assert(rest.skip(j - start + 1) =~= d@.skip(j + 1));
            } else {
                assert(rest =~= seg@);
            }
            done = done.push(seg@);
            assert(raw@ =~= done.map_values(|l: Seq<u8>| entry_of(l, lang)));
        }
        if j == n {
            proof {
                assert(split_lines(d@) =~= done);
            }
            break;
        }
        proof {
            assert(split_lines(d@) =~= done + split_lines(d@.skip(j + 1)));
        }
        start = j + 1;
    }
    proof {
        lemma_split_len(d@);
    }
    raw
}

/// Keeps every `stride`-th outline when there are too many (see `thinned`).
fn thin(raw: Vec<u32>) -> (r: Vec<u32>)
    requires
        raw@.len() <= OUTLINE_CAP + 1,
    ensures
        r@ == thinned(raw@),
{
    let len = raw.len();
    if len <= MAX_OUTLINE_LINES {
        return raw;
    }
    let stride = len / MAX_OUTLINE_LINES;
    assert(stride >= 1);
    let mut out: Vec<u32> = Vec::new();
    let mut idx: usize = 0;
    assert(out@.len() * stride == 0);
    while idx < len
        invariant
            len == raw@.len() <= OUTLINE_CAP + 1,
            1 <= stride <= len,
            idx == out@.len() * stride,
            out@.len() > 0 ==> (out@.len() - 1) * stride < len,
            forall|k: int| 0 <= k < out@.len() ==> #[trigger] out@[k] == raw@[k * stride],
        decreases len + stride - idx,
    {
        out.push(raw[idx]);
        proof {
            assert(idx + stride == out@.len() * stride) by (nonlinear_arith)
                requires
                    idx == (out@.len() - 1) * stride,
            ;
        }
        idx = idx + stride;
    }
    let ghost cnt = out@.len() as int;
    let ghost li = len as int;
    let ghost si = stride as int;
    proof {
        assert(si == li / (MAX_OUTLINE_LINES as int));
        assert(cnt == (li + si - 1) / si) by (nonlinear_arith)
            requires
                si >= 1,
                cnt * si >= li,
                cnt > 0 ==> (cnt - 1) * si < li,
                li > 0,
        ;
        assert(out@ =~= Seq::new(((li + si - 1) / si) as nat, |k: int| raw@[k * si]));
    }
    out
}


/// One drawn line of a file's outline: which row it sits in, and the class,
/// indentation and length of the source line it stands for.
#[derive(Clone, Copy, PartialEq, Eq, Debug, Structural)]
pub struct Stroke {
    pub row: usize,
    pub class: u32,
    pub indent: u32,
    pub len: u32,
}

/// How many rows of strokes a file gets: one per pixel row, but no more than
/// it has outlines and than the budget left.
pub fn stroke_count(rows: usize, outlines: usize, budget: usize) -> (r: usize)
    ensures
        r <= rows,
        r <= outlines,
        r <= budget,
        r == rows || r == outlines || r == budget,
{
    let a = if rows < outlines {
        rows
    } else {
        outlines
    };
    if a < budget {
        a
    } else {
        budget
    }
}

/// The stroke for row `k`, from outline `lines[k * stride]`: none for a
/// blank line.
pub open spec fn stroke_at(lines: Seq<u32>, stride: int, k: int) -> Option<Stroke> {
    let e = lines[k * stride];
    let cls = e >> 28u32;
    if 1 <= cls <= 3 {
        Some(Stroke { row: k as usize, class: cls, indent: (e >> 16u32) & 0xfffu32, len: e & 0xffffu32 })
    } else {
        None
    }
}

/// The strokes of rows `0..k`, in order.
pub open spec fn strokes_upto(lines: Seq<u32>, stride: int, k: int) -> Seq<Stroke>
    decreases k,
{
    if k <= 0 {
        Seq::empty()
    } else {
        let rest = strokes_upto(lines, stride, k - 1);
        match stroke_at(lines, stride, k - 1) {
            Some(st) => rest.push(st),
            None => rest,
        }
    }
}

/// The step between the outlines that `count` rows show.
pub open spec fn stroke_stride(n: int, count: int) -> int {
    if n / count >= 1 {
        n / count
    } else {
        1
    }
}

/// The strokes that `count` rows show of the outlines `lines`: row `k`
/// shows outline `k * stride`, the stride spreading the rows over all of
/// them; blank lines draw nothing.
pub fn strokes(lines: &Vec<u32>, count: usize) -> (r: Vec<Stroke>)
    requires
        0 < count <= lines@.len(),
    ensures
        r@ == strokes_upto(lines@, stroke_stride(lines@.len() as int, count as int), count as int),
{
    let n = lines.len();
    assert(n / count >= 1) by (nonlinear_arith)
        requires
            0 < count <= n,
    ;
    let stride = if n / count >= 1 {
        n / count
    } else {
        1
    };
    let mut out: Vec<Stroke> = Vec::new();
    let mut k: usize = 0;
    while k < count
        invariant
            n == lines@.len(),
            0 < count <= n,
            stride == stroke_stride(n as int, count as int),
            stride == n / count,
            k <= count,
            out@ == strokes_upto(lines@, stride as int, k as int),
        decreases count - k,
    {
        assert(k * stride < n) by (nonlinear_arith)
            requires
                k < count,
                stride == n / count,
                0 < count <= n,
        ;
        let e = lines[k * stride];
        let cls = e >> 28;
        if 1 <= cls && cls <= 3 {
            out.push(Stroke { row: k, class: cls, indent: (e >> 16) & 0xfff, len: e & 0xffff });
        }
        k = k + 1;
    }
    out
}

/// `Arc::clone`: another pointer to the same allocation, so the same value.
#[verifier::external_body]
fn share(a: &Arc<LineMetrics>) -> (r: Arc<LineMetrics>)
    ensures
        r == *a,
{
    Arc::clone(a)
}

/// Outlines by node, at most `CACHE_CAP` of them; when a new one would make
/// one too many, the one that was added first leaves. Each outline is built
/// by `build_metrics` from the contents read for its node; `sources` records
/// those contents and the node's kind.
pub struct LineCache {
    map: HashMap<usize, Arc<LineMetrics>>,
    order: Vec<usize>,
    sources: Ghost<Map<usize, (Option<Seq<u8>>, Lang)>>,
}

/// The contents that were read: the bytes, or `None` when the read failed.
pub open spec fn read_view(data: Option<&[u8]>) -> Option<Seq<u8>> {
    match data {
        Some(d) => Some(d@),
        None => None,
    }
}

/// The outline lines that `build_metrics` gives for contents `src.0` of kind
/// `src.1`.
pub open spec fn outline_from(src: (Option<Seq<u8>>, Lang)) -> Seq<u32> {
    match src.0 {
        Some(d) => outline_of(d, src.1),
        None => Seq::<u32>::empty(),
    }
}

/// `new` is `old` after caching outline `r` for `node`: a cached node gets
/// `r` in place of its outline; a new node goes last in the order, and when
/// that makes more than `CACHE_CAP`, the first node of the order leaves.
pub open spec fn inserted(old: LineCache, new: LineCache, node: usize, r: Arc<LineMetrics>) -> bool {
    if old.entries().contains_key(node) {
        &&& new.order() == old.order()
        &&& new.entries() == old.entries().insert(node, r)
    } else {
        let grown = old.order().push(node);
        if grown.len() > CACHE_CAP {
            &&& new.order() == grown.drop_first()
            &&& new.entries() == old.entries().insert(node, r).remove(grown[0])
        } else {
            &&& new.order() == grown
            &&& new.entries() == old.entries().insert(node, r)
        }
    }
}

/// What was just cached is what the cache gives back for that node.
pub proof fn law_get_after_insert(old: LineCache, new: LineCache, node: usize, r: Arc<LineMetrics>)
    requires
        old.wf(),
        inserted(old, new, node, r),
    ensures
        new.entries().contains_key(node),
        new.entries()[node] == r,
{
    old.lemma_wf();
    if !old.entries().contains_key(node) {
        let grown = old.order().push(node);
        if grown.len() > CACHE_CAP {
            assert(old.order().contains(grown[0]));
            assert(grown[0] != node);
        }
    }
}

/// Caching leaves the outlines of the other nodes alone, except for the
/// one that leaves to make room.
pub proof fn law_insert_keeps_others(old: LineCache, new: LineCache, node: usize, r: Arc<LineMetrics>, other: usize)
    requires
        old.wf(),
        inserted(old, new, node, r),
        other != node,
        old.entries().contains_key(other),
        !(old.order().len() == CACHE_CAP && !old.entries().contains_key(node) && old.order()[0] == other),
    ensures
        new.entries().contains_key(other),
        new.entries()[other] == old.entries()[other],
{
    old.lemma_wf();
}

/// The cache never holds more than `CACHE_CAP` outlines.
pub proof fn law_cache_bounded(c: LineCache)
    requires
        c.wf(),
    ensures
        c.entries().dom().len() <= CACHE_CAP,
{
    c.lemma_wf();
    c.order().unique_seq_to_set();
    assert(c.entries().dom() =~= c.order().to_set());
}

/// The greatest length is at least 1 and at least every line's length.
pub proof fn law_max_len(s: Seq<u32>)
    ensures
        max_len_of(s) >= 1,
        forall|k: int| 0 <= k < s.len() ==> #[trigger] (s[k] & 0xffffu32) <= max_len_of(s),
    decreases s.len(),
{
    if s.len() > 0 {
        law_max_len(s.drop_last());
        assert forall|k: int| 0 <= k < s.len() implies #[trigger] (s[k] & 0xffffu32) <= max_len_of(s) by {
            if k < s.len() - 1 {
                assert(s.drop_last()[k] == s[k]);
            }
        }
    }
}

impl LineCache {
    /// The cached outlines, by node.
    pub closed spec fn entries(&self) -> Map<usize, Arc<LineMetrics>> {
        self.map@
    }

    /// The cached nodes, the one added first first.
    pub closed spec fn order(&self) -> Seq<usize> {
        self.order@
    }

    /// What each outline was built from: the contents read and the kind.
    pub closed spec fn sources(&self) -> Map<usize, (Option<Seq<u8>>, Lang)> {
        self.sources@
    }

    pub closed spec fn wf(&self) -> bool {
        &&& self.order@.no_duplicates()
        &&& forall|k: usize| #[trigger] self.map@.contains_key(k) <==> self.order@.contains(k)
        &&& self.order@.len() <= CACHE_CAP
        &&& forall|k: usize|
            #[trigger] self.map@.contains_key(k) ==> {
                &&& self.sources@.contains_key(k)
                &&& self.map@[k].lines@ == outline_from(self.sources@[k])
                &&& self.map@[k].max_len == max_len_of(self.map@[k].lines@)
            }
    }

    /// Every cached outline is what `build_metrics` gives for the contents
    /// that were read for its node when it was cached.
    pub proof fn law_cached_outlines(&self, node: usize)
        requires
            self.wf(),
            self.entries().contains_key(node),
        ensures
            self.sources().contains_key(node),
            self.entries()[node].lines@ == outline_from(self.sources()[node]),
            self.entries()[node].max_len == max_len_of(self.entries()[node].lines@),
    {
    }

    /// The cache holds each node of its order once, and only those.
    pub proof fn lemma_wf(&self)
        requires
            self.wf(),
        ensures
            self.order().no_duplicates(),
            forall|k: usize| #[trigger] self.entries().contains_key(k) <==> self.order().contains(k),
            self.order().len() <= CACHE_CAP,
    {
    }

    /// An empty cache.
    pub fn new() -> (r: LineCache)
        ensures
            r.wf(),
            r.entries() == Map::<usize, Arc<LineMetrics>>::empty(),
            r.order() == Seq::<usize>::empty(),
    {
        LineCache { map: HashMap::new(), order: Vec::new(), sources: Ghost(Map::empty()) }
    }

    /// The cached outline of `node`, if there is one.
    pub fn get(&self, node: usize) -> (r: Option<Arc<LineMetrics>>)
        ensures
            match r {
                Some(m) => self.entries().contains_key(node) && m == self.entries()[node],
                None => !self.entries().contains_key(node),
            },
    {
        broadcast use vstd::std_specs::hash::group_hash_axioms;

        match self.map.get(&node) {
            Some(m) => Some(share(m)),
            None => None,
        }
    }

    /// Builds the outline of `node` from the contents `data` read for it and
    /// its kind `lang` (see `build_metrics`), caches it and hands it back
    /// shared. A node that is already cached gets the new outline in its
    /// place; a new node goes last in the order, and when that makes more
    /// than `CACHE_CAP`, the first node of the order leaves.
    pub fn insert(&mut self, node: usize, data: Option<&[u8]>, lang: Lang) -> (r: Arc<LineMetrics>)
        requires
            old(self).wf(),
        ensures
            final(self).wf(),
            r.lines@ == outline_from((read_view(data), lang)),
            r.max_len == max_len_of(r.lines@),
            inserted(*old(self), *final(self), node, r),
            final(self).sources() == old(self).sources().insert(node, (read_view(data), lang)),
    {
        broadcast use vstd::std_specs::hash::group_hash_axioms;
        broadcast use vstd::seq_lib::group_seq_properties;

        let m = build_metrics(data, lang);
        let a = Arc::new(m);
        proof {
            self.sources@ = self.sources@.insert(node, (read_view(data), lang));
        }
        let ghost m0 = self.map@;
        let ghost o0 = self.order@;
        let present = self.map.contains_key(&node);
        self.map.insert(node, share(&a));
        if present {
            proof {
                assert forall|k: usize| #[trigger] self.map@.contains_key(k) <==> self.order@.contains(k) by {
                    if k == node {
                        assert(m0.contains_key(k));
                    }
                }
            }
            return a;
        }
        self.order.push(node);
        proof {
            assert(!o0.contains(node));
            assert(self.order@.no_duplicates()) by {
                assert forall|i: int, j: int| 0 <= i < j < self.order@.len() implies self.order@[i] != self.order@[j] by {
                    if j == o0.len() {
                        assert(o0.contains(self.order@[i]));
                    } else {
                        assert(o0[i] != o0[j]);
                    }
                }
            }
        }
        if self.order.len() > CACHE_CAP {
            let old_node = self.order.remove(0);
            self.map.remove(&old_node);
            proof {
                let grown = o0.push(node);
                assert(self.order@ =~= grown.drop_first());
                assert forall|k: usize| #[trigger] self.map@.contains_key(k) <==> self.order@.contains(k) by {
                    if k == old_node {
                        if self.order@.contains(k) {
                            let t = choose|t: int| 0 <= t < self.order@.len() && self.order@[t] == k;
                            assert(grown[t + 1] == grown[0]);
                        }
                    } else {
                        if grown.contains(k) {
                            let t = choose|t: int| 0 <= t < grown.len() && grown[t] == k;
                            assert(t != 0);
                            assert(self.order@[t - 1] == k);
                        }
                        if self.order@.contains(k) {
                            let t = choose|t: int| 0 <= t < self.order@.len() && self.order@[t] == k;
                            assert(grown[t + 1] == k);
                        }
                    }
                }
            }
        } else {
            proof {
                assert forall|k: usize| #[trigger] self.map@.contains_key(k) <==> self.order@.contains(k) by {
                    if k == node {
                        assert(self.order@[self.order@.len() - 1] == node);
                    } else if o0.contains(k) {
                        let t = choose|t: int| 0 <= t < o0.len() && o0[t] == k;
                        assert(self.order@[t] == k);
                    } else if self.order@.contains(k) {
                        let t = choose|t: int| 0 <= t < self.order@.len() && self.order@[t] == k;
                        assert(o0[t] == k);
                    }
                }
            }
        }
        a
    }
}

} // verus!
