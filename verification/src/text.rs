//! Text handed to the glyph shaper: characters that it mishandles (line and
//! paragraph separators, bidirectional controls, vertical tab, form feed,
//! next line) become spaces.
use vstd::prelude::*;

verus! {

/// Characters replaced by a space before shaping.
pub open spec fn unsafe_char(c: char) -> bool {
    ||| c == '\u{000b}'
    ||| c == '\u{000c}'
    ||| c == '\u{0085}'
    ||| c == '\u{2028}'
    ||| c == '\u{2029}'
    ||| c == '\u{200e}'
    ||| c == '\u{200f}'
    ||| c == '\u{061c}'
    ||| ('\u{202a}' <= c && c <= '\u{202e}')
    ||| ('\u{2066}' <= c && c <= '\u{2069}')
}

pub open spec fn clean_char(c: char) -> char {
    if unsafe_char(c) {
        ' '
    } else {
        c
    }
}

pub open spec fn clean(s: Seq<char>) -> Seq<char> {
    s.map_values(|c: char| clean_char(c))
}

/// `String::push`: appends one character.
#[verifier::external_body]
pub(crate) fn push_char(s: &mut String, c: char)
    ensures
        final(s)@ == old(s)@.push(c),
{
    s.push(c);
}

/// `s` with every character of `unsafe_char` replaced by a space.
pub fn sanitize(s: &str) -> (r: String)
    ensures
        r@ == clean(s@),
{
    let mut r = String::new();
    for c in it: s.chars()
        invariant
            r@ == clean(it.seq().take(it.index() as int)),
    {
        let d = if c == '\u{000b}' || c == '\u{000c}' || c == '\u{0085}' || c == '\u{2028}' || c
            == '\u{2029}' || c == '\u{200e}' || c == '\u{200f}' || c == '\u{061c}' || ('\u{202a}'
            <= c && c <= '\u{202e}') || ('\u{2066}' <= c && c <= '\u{2069}') {
            ' '
        } else {
            c
        };
        push_char(&mut r, d);
        proof {
            assert(it.seq().take(it.index() + 1) =~= it.seq().take(it.index() as int).push(c));
            assert(clean(it.seq().take(it.index() + 1)) =~= clean(it.seq().take(it.index() as int)).push(d));
        }
    }
    r
}

/// Sanitizing keeps the length and changes nothing the second time.
pub proof fn law_sanitize_idempotent(s: Seq<char>)
    ensures
        clean(s).len() == s.len(),
        clean(clean(s)) == clean(s),
{
    assert(clean(clean(s)) =~= clean(s));
}

} // verus!
