//! Counting the lines of a file, and telling binary files apart.
use crate::lang::Lang;
use vstd::prelude::*;

verus! {

/// Files larger than this are not read; they are weighed by size.
pub const MAX_COUNT_SIZE: u64 = 12582912;

/// Bytes from the start of a file that are searched for a NUL.
pub const SNIFF_LEN: usize = 8192;

/// The number of times `b` occurs in `s`.
pub open spec fn count_byte(s: Seq<u8>, b: u8) -> nat
    decreases s.len(),
{
    if s.len() == 0 {
        0
    } else {
        count_byte(s.drop_last(), b) + if s.last() == b {
            1nat
        } else {
            0
        }
    }
}

/// `memchr::memchr_iter(needle, haystack).count()`: the iterator yields each
/// position of `haystack` that holds `needle`, so the count is the number of
/// occurrences.
#[verifier::external_body]
fn count_occurrences(needle: u8, haystack: &[u8]) -> (n: usize)
    ensures
        n == count_byte(haystack@, needle),
{
    memchr::memchr_iter(needle, haystack).count()
}

/// A file looks binary when its first `SNIFF_LEN` bytes hold a NUL.
pub open spec fn looks_binary(d: Seq<u8>) -> bool {
    exists|j: int| 0 <= j < d.len() && j < SNIFF_LEN && d[j] == 0
}

/// Whether the NUL test finds a NUL (see `looks_binary`).
pub fn sniff_binary(d: &[u8]) -> (r: bool)
    ensures
        r == looks_binary(d@),
{
    let n = if d.len() < SNIFF_LEN {
        d.len()
    } else {
        SNIFF_LEN
    };
    let mut t: usize = 0;
    while t < n
        invariant
            n <= d@.len(),
            n <= SNIFF_LEN,
            n == d@.len() || n == SNIFF_LEN,
            t <= n,
            forall|j: int| 0 <= j < t ==> d@[j] != 0,
        decreases n - t,
    {
        if d[t] == 0 {
            return true;
        }
        t = t + 1;
    }
    false
}

/// Whether the file must be read to be counted: it is small enough and not
/// known to be binary by its extension.
pub fn needs_read(bytes: u64, lang: Lang) -> (r: bool)
    ensures
        r == (bytes <= MAX_COUNT_SIZE && lang != Lang::Binary),
{
    !(bytes > MAX_COUNT_SIZE || lang.is_binary())
}

/// The lines a file of `data` counts: one more than its newlines, as a `u32`
/// that wraps around.
pub open spec fn line_count(data: Seq<u8>) -> u32 {
    ((count_byte(data, 10) % 0x1_0000_0000 + 1) % 0x1_0000_0000) as u32
}

proof fn lemma_count_concat(s: Seq<u8>, t: Seq<u8>, b: u8)
    ensures
        count_byte(s + t, b) == count_byte(s, b) + count_byte(t, b),
    decreases t.len(),
{
    if t.len() == 0 {
        assert(s + t =~= s);
    } else {
        lemma_count_concat(s, t.drop_last(), b);
        assert((s + t).drop_last() =~= s + t.drop_last());
    }
}

/// Only newlines make lines: an empty file has one line, a byte that is not
/// '\n' put anywhere into a file leaves its count alone, and a '\n' adds one
/// line (the count wraps around as a `u32`).
pub proof fn law_line_count(d: Seq<u8>, i: int, b: u8)
    requires
        0 <= i <= d.len(),
    ensures
        line_count(Seq::<u8>::empty()) == 1,
        b != 10 ==> line_count(d.insert(i, b)) == line_count(d),
        b == 10 ==> line_count(d.insert(i, b)) as int == (line_count(d) + 1) % 0x1_0000_0000,
{
    let (x, y) = (d.take(i), d.skip(i));
    assert(d =~= x + y);
    assert(d.insert(i, b) =~= x + (seq![b] + y));
    lemma_count_concat(x, y, 10);
    lemma_count_concat(seq![b], y, 10);
    lemma_count_concat(x, seq![b] + y, 10);
    assert(count_byte(seq![b], 10) == if b == 10 { 1nat } else { 0nat }) by {
        assert(seq![b].drop_last() =~= Seq::<u8>::empty());
        assert(count_byte(Seq::<u8>::empty(), 10) == 0);
        assert(seq![b].last() == b);
        assert(count_byte(seq![b], 10) == count_byte(seq![b].drop_last(), 10) + if seq![b].last() == 10 { 1nat } else { 0nat });
    }
    let n = count_byte(d, 10);
    if b == 10 {
        assert(((n + 1) % 0x1_0000_0000 + 1) % 0x1_0000_0000 == ((n % 0x1_0000_0000 + 1) % 0x1_0000_0000 + 1) % 0x1_0000_0000) by (nonlinear_arith);
    }
}

/// Counted lines and binary flag of a file of `bytes` bytes and kind
/// `lang`, given its contents when they could be read. Large files and
/// binary kinds are not counted; a file whose head holds a NUL is binary and
/// not counted; an unreadable file counts no lines.
pub fn count_file(bytes: u64, lang: Lang, data: Option<&[u8]>) -> (r: (u32, bool))
    ensures
        !(bytes <= MAX_COUNT_SIZE && lang != Lang::Binary) ==> r == (0u32, lang == Lang::Binary),
        (bytes <= MAX_COUNT_SIZE && lang != Lang::Binary) ==> r == match data {
            None => (0u32, false),
            Some(d) => if looks_binary(d@) {
                (0u32, true)
            } else {
                (line_count(d@), false)
            },
        },
{
    if !needs_read(bytes, lang) {
        return (0, lang.is_binary());
    }
    match data {
        None => (0, false),
        Some(d) => {
            if sniff_binary(d) {
                (0, true)
            } else {
                let n = count_occurrences(10u8, d);
                let low = (n as u64 % 0x1_0000_0000) as u32;
                (low.wrapping_add(1), false)
            }
        },
    }
}

} // verus!
