//! The source text shown inside a large file rectangle: the file's first
//! lines with tabs expanded, and the window of them that is on screen.
use crate::paths::chars_of;
use crate::text::push_char;
use vstd::prelude::*;

verus! {

/// Lines shown of a file at most.
pub const MAX_CODE_LINES: usize = 4000;

/// `l` without one trailing carriage return.
pub open spec fn strip_cr(l: Seq<char>) -> Seq<char> {
    if l.len() > 0 && l.last() == '\r' {
        l.drop_last()
    } else {
        l
    }
}

/// The index of the first `c` in `s`, or -1.
pub open spec fn first_char(s: Seq<char>, c: char) -> int
    decreases s.len(),
{
    if s.len() == 0 {
        -1
    } else if s[0] == c {
        0
    } else {
        let r = first_char(s.drop_first(), c);
        if r < 0 {
            -1
        } else {
            r + 1
        }
    }
}

pub proof fn lemma_first_char(s: Seq<char>, c: char, k: int)
    requires
        0 <= k <= s.len(),
        forall|m: int| 0 <= m < k ==> s[m] != c,
        k == s.len() || s[k] == c,
    ensures
        first_char(s, c) == if k == s.len() {
            -1
        } else {
            k
        },
    decreases s.len(),
{
    if s.len() > 0 && k > 0 {
        lemma_first_char(s.drop_first(), c, k - 1);
    }
}

pub proof fn lemma_first_char_bounds(s: Seq<char>, c: char)
    ensures
        -1 <= first_char(s, c) < s.len(),
    decreases s.len(),
{
    if s.len() > 0 {
        lemma_first_char_bounds(s.drop_first(), c);
    }
}

/// The lines of `s` as `str::lines` gives them: split after each '\n', the
/// '\n' and a '\r' before it dropped, no line after a final '\n'.
pub open spec fn text_lines(s: Seq<char>) -> Seq<Seq<char>>
    decreases s.len(),
{
    if s.len() == 0 {
        Seq::empty()
    } else {
        let k = first_char(s, '\n');
        if k < 0 {
            seq![s]
        } else {
            proof {
                lemma_first_char_bounds(s, '\n');
            }
            seq![strip_cr(s.take(k))] + text_lines(s.skip(k + 1))
        }
    }
}

/// `l` with each tab replaced by four spaces.
pub open spec fn expand_tabs(l: Seq<char>) -> Seq<char>
    decreases l.len(),
{
    if l.len() == 0 {
        Seq::empty()
    } else {
        expand_tabs(l.drop_last()) + if l.last() == '\t' {
            seq![' ', ' ', ' ', ' ']
        } else {
            seq![l.last()]
        }
    }
}

/// The lines shown of a file with text `s`: the first `MAX_CODE_LINES`, tabs
/// expanded; one empty line for a file without lines.
pub open spec fn shown_lines(s: Seq<char>) -> Seq<Seq<char>> {
    let ls = text_lines(s);
    let kept = if ls.len() > MAX_CODE_LINES {
        ls.take(MAX_CODE_LINES as int)
    } else {
        ls
    };
    if kept.len() == 0 {
        seq![Seq::empty()]
    } else {
        kept.map_values(|l: Seq<char>| expand_tabs(l))
    }
}

/// The characters `v[from..to]` with tabs expanded, and one trailing '\r'
/// dropped when `strip`.
fn line_text(v: &Vec<char>, from: usize, to: usize, strip: bool) -> (r: String)
    requires
        from <= to <= v@.len(),
    ensures
        r@ == expand_tabs(
            if strip {
                strip_cr(v@.subrange(from as int, to as int))
            } else {
                v@.subrange(from as int, to as int)
            },
        ),
{
    let end = if strip && to > from && v[to - 1] == '\r' {
        to - 1
    } else {
        to
    };
    let ghost l = if strip {
        strip_cr(v@.subrange(from as int, to as int))
    } else {
        v@.subrange(from as int, to as int)
    };
    assert(l =~= v@.subrange(from as int, end as int));
    let mut r = String::new();
    let mut t = from;
    while t < end
        invariant
            from <= t <= end <= v@.len(),
            l == v@.subrange(from as int, end as int),
            r@ == expand_tabs(l.take(t - from)),
        decreases end - t,
    {
        let c = v[t];
        assert(l.take(t - from + 1).drop_last() =~= l.take(t - from));
        if c == '\t' {
            push_char(&mut r, ' ');
            push_char(&mut r, ' ');
            push_char(&mut r, ' ');
            push_char(&mut r, ' ');
            assert(r@ =~= expand_tabs(l.take(t - from)) + seq![' ', ' ', ' ', ' ']);
        } else {
            push_char(&mut r, c);
            assert(r@ =~= expand_tabs(l.take(t - from)) + seq![c]);
        }
        t = t + 1;
    }
    assert(l.take(end - from) =~= l);
    r
}

pub open spec fn views_of(v: Seq<String>) -> Seq<Seq<char>> {
    v.map_values(|s: String| s@)
}

/// The lines shown of a file with text `text` (see `shown_lines`).
pub fn code_lines(text: &str) -> (r: Vec<String>)
    ensures
        views_of(r@) == shown_lines(text@),
{
    let v = chars_of(text);
    let n = v.len();
    let mut out: Vec<String> = Vec::new();
    let mut start: usize = 0;
    let ghost mut done: Seq<Seq<char>> = Seq::empty();
    proof {
        assert(v@.skip(0) =~= v@);
    }
    while start < n && out.len() < MAX_CODE_LINES
        invariant
            v@ == text@,
            n == v@.len(),
            start <= n,
            out@.len() <= MAX_CODE_LINES,
            done.len() == out@.len(),
            views_of(out@) == done.map_values(|l: Seq<char>| expand_tabs(l)),
            text_lines(text@) == done + text_lines(v@.skip(start as int)),
        decreases n - start,
    {
        let mut j = start;
        while j < n && v[j] != '\n'
            invariant
                start <= j <= n == v@.len(),
                forall|m: int| start <= m < j ==> v@[m] != '\n',
            decreases n - j,
        {
            j = j + 1;
        }
        let line = line_text(&v, start, j, j < n);
        let ghost out_before = out@;
        out.push(line);
        let ghost rest = v@.skip(start as int);
        proof {
            lemma_first_char(rest, '\n', j - start);
            assert(rest.take(j - start) =~= v@.subrange(start as int, j as int));
            if j < n {
                assert(rest.skip(j - start + 1) =~= v@.skip(j + 1));
            } else {
                assert(rest =~= v@.subrange(start as int, j as int));
                assert(v@.skip(j as int) =~= Seq::<char>::empty());
            }
            let piece = if j < n {
                strip_cr(v@.subrange(start as int, j as int))
            } else {
                v@.subrange(start as int, j as int)
            };
            let next: int = if j < n {
                j + 1
            } else {
                j as int
            };
            assert(text_lines(rest) =~= seq![piece] + text_lines(v@.skip(next)));
            let done0 = done;
            done = done.push(piece);
            assert(views_of(out@) =~= views_of(out_before).push(out@[out@.len() - 1]@));
            assert(done.map_values(|l: Seq<char>| expand_tabs(l)) =~= done0.map_values(|l: Seq<char>| expand_tabs(l)).push(expand_tabs(piece)));
        }
        start = if j < n {
            j + 1
        } else {
            j
        };
        proof {
            assert(text_lines(text@) =~= done + text_lines(v@.skip(start as int)));
        }
    }
    proof {
        let ls = text_lines(text@);
        if start >= n {
            assert(v@.skip(start as int) =~= Seq::<char>::empty());
            assert(ls =~= done);
        } else {
            assert(done.len() == MAX_CODE_LINES);
            assert(ls.take(MAX_CODE_LINES as int) =~= done);
        }
    }
    if out.len() == 0 {
        out.push(String::new());
        proof {
            assert(views_of(out@) =~= seq![Seq::<char>::empty()]);
        }
    }
    out
}

/// The text that the line loop of a code cell builds: lines joined by
/// '\n', where no '\n' is written while the text is still empty.
pub open spec fn window_text(ls: Seq<Seq<char>>) -> Seq<char>
    decreases ls.len(),
{
    if ls.len() == 0 {
        Seq::empty()
    } else {
        let t = window_text(ls.drop_last());
        (if t.len() > 0 {
            t.push('\n')
        } else {
            t
        }) + ls.last()
    }
}

/// The lines from `start` on, at most `visible` of them, as one text; `None`
/// when `start` is past the last line.
pub fn code_window(lines: &Vec<String>, start: usize, visible: usize) -> (r: Option<String>)
    requires
        start < lines@.len() ==> start + visible <= usize::MAX,
    ensures
        start >= lines@.len() <==> r is None,
        r matches Some(t) ==> t@ == window_text(
            views_of(lines@).subrange(
                start as int,
                if start + visible < lines@.len() {
                    start + visible
                } else {
                    lines@.len() as int
                },
            ),
        ),
{
    let n = lines.len();
    if start >= n {
        return None;
    }
    let end = if start + visible < n {
        start + visible
    } else {
        n
    };
    let ghost ls = views_of(lines@).subrange(start as int, end as int);
    let mut text = String::new();
    let mut i = start;
    while i < end
        invariant
            start <= i <= end <= n == lines@.len(),
            ls == views_of(lines@).subrange(start as int, end as int),
            text@ == window_text(ls.take(i - start)),
        decreases end - i,
    {
        assert(ls.take(i - start + 1).drop_last() =~= ls.take(i - start));
        if !text.as_str().is_empty() {
            push_char(&mut text, '\n');
        }
        let line = lines[i].as_str();
        text.append(line);
        assert(ls[i - start] == lines@[i as int]@);
        i = i + 1;
    }
    assert(ls.take(end - start) =~= ls);
    Some(text)
}

} // verus!
