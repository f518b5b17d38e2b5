//! The command line: a repository path, `--screenshot FILE`, `--at PATTERN`,
//! `--size WxH`; the walk's directory filter; and the progress phases.
use crate::paths::chars_of;
use vstd::prelude::*;
use vstd::string::StringExecFns;

verus! {

pub open spec fn is_digit(c: char) -> bool {
    '0' <= c && c <= '9'
}

pub open spec fn all_digits(s: Seq<char>) -> bool {
    forall|j: int| 0 <= j < s.len() ==> is_digit(#[trigger] s[j])
}

/// The number that the decimal digits `s` write.
pub open spec fn digits_value(s: Seq<char>) -> nat
    decreases s.len(),
{
    if s.len() == 0 {
        0
    } else {
        digits_value(s.drop_last()) * 10 + (s.last() as nat - '0' as nat) as nat
    }
}

/// The `u32` that `s` writes, as `str::parse::<u32>` reads it: an optional
/// '+', then at least one decimal digit, and a value that fits.
pub open spec fn parse_u32(s: Seq<char>) -> Option<u32> {
    let body = if s.len() > 0 && s[0] == '+' {
        s.drop_first()
    } else {
        s
    };
    if body.len() > 0 && all_digits(body) && digits_value(body) <= u32::MAX {
        Some(digits_value(body) as u32)
    } else {
        None
    }
}

proof fn lemma_digits_mono(s: Seq<char>, k: int)
    requires
        0 <= k <= s.len(),
        all_digits(s),
    ensures
        digits_value(s.take(k)) <= digits_value(s),
    decreases s.len() - k,
{
    if k < s.len() {
        lemma_digits_mono(s, k + 1);
        assert(s.take(k + 1).drop_last() =~= s.take(k));
        assert(digits_value(s.take(k + 1)) == digits_value(s.take(k)) * 10 + (s[k] as nat - '0' as nat) as nat);
    } else {
        assert(s.take(k) =~= s);
    }
}

/// Reads a decimal `u32` (see `parse_u32`).
pub fn parse_u32_text(s: &str) -> (r: Option<u32>)
    ensures
        r == parse_u32(s@),
{
    let v = chars_of(s);
    let n = v.len();
    let start: usize = if n > 0 && v[0] == '+' {
        1
    } else {
        0
    };
    let ghost body = if s@.len() > 0 && s@[0] == '+' {
        s@.drop_first()
    } else {
        s@
    };
    assert(body =~= v@.skip(start as int));
    if start == n {
        assert(body.len() == 0);
        return None;
    }
    let mut value: u64 = 0;
    let mut t = start;
    while t < n
        invariant
            v@ == s@,
            body == v@.skip(start as int),
            body == (if s@.len() > 0 && s@[0] == '+' {
                s@.drop_first()
            } else {
                s@
            }),
            start <= t <= n == v@.len(),
            all_digits(body.take(t - start)),
            value == digits_value(body.take(t - start)),
            value <= u32::MAX,
        decreases n - t,
    {
        let c = v[t];
        if !('0' <= c && c <= '9') {
            assert(body[t - start] == c);
            assert(!is_digit(body[t - start]));
            assert(!all_digits(body));
            return None;
        }
        let d = (c as u32 - '0' as u32) as u64;
        assert(body.take(t - start + 1).drop_last() =~= body.take(t - start));
        let next = value * 10 + d;
        t = t + 1;
        assert(all_digits(body.take(t - start))) by {
            assert forall|j: int| 0 <= j < t - start implies is_digit(#[trigger] body.take(t - start)[j]) by {
                if j < t - start - 1 {
                    assert(body.take(t - start)[j] == body.take(t - start - 1)[j]);
                }
            }
        }
        assert(next == digits_value(body.take(t - start)));
        if next > u32::MAX as u64 {
            proof {
                if all_digits(body) {
                    lemma_digits_mono(body, t - start);
                }
            }
            return None;
        }
        value = next;
    }
    assert(body.take(n - start) =~= body);
    Some(value as u32)
}

/// What the command line asks for.
pub struct CliOptions {
    pub repo: String,
    pub screenshot: Option<String>,
    pub at: Option<String>,
    pub width: u32,
    pub height: u32,
}

pub open spec fn flag_screenshot() -> Seq<char> {
    seq!['-', '-', 's', 'c', 'r', 'e', 'e', 'n', 's', 'h', 'o', 't']
}

pub open spec fn flag_at() -> Seq<char> {
    seq!['-', '-', 'a', 't']
}

pub open spec fn flag_size() -> Seq<char> {
    seq!['-', '-', 's', 'i', 'z', 'e']
}

pub open spec fn is_flag(a: Seq<char>) -> bool {
    a =~= flag_screenshot() || a =~= flag_at() || a =~= flag_size()
}

/// Every flag from argument `i` on is followed by its value.
pub open spec fn complete_from(args: Seq<Seq<char>>, i: int) -> bool
    decreases args.len() - i,
{
    if i < 0 || i >= args.len() {
        true
    } else if is_flag(args[i]) {
        i + 1 < args.len() && complete_from(args, i + 2)
    } else {
        complete_from(args, i + 1)
    }
}

/// The options as plain values: repository, screenshot, pattern, width, height.
pub type OptionsView = (Seq<char>, Option<Seq<char>>, Option<Seq<char>>, u32, u32);

/// The index of the first 'x' in `s`, or -1.
pub open spec fn first_x(s: Seq<char>, n: int) -> int
    decreases n,
{
    if n <= 0 {
        -1
    } else {
        let r = first_x(s, n - 1);
        if r >= 0 {
            r
        } else if s[n - 1] == 'x' {
            n - 1
        } else {
            -1
        }
    }
}

/// Width and height from "WxH": each part read as a `u32`, 1920 and 1200
/// where a part does not read, and both those when there is no 'x'.
pub open spec fn size_of(s: Seq<char>) -> (u32, u32) {
    let k = first_x(s, s.len() as int);
    if k < 0 {
        (1920, 1200)
    } else {
        (
            match parse_u32(s.take(k)) {
                Some(w) => w,
                None => 1920,
            },
            match parse_u32(s.skip(k + 1)) {
                Some(h) => h,
                None => 1200,
            },
        )
    }
}

/// The options after reading the arguments from `i` on, starting from `o`:
/// a flag takes the next argument as its value, anything else is the
/// repository, the last one winning.
pub open spec fn read_args(args: Seq<Seq<char>>, i: int, o: OptionsView) -> OptionsView
    decreases args.len() + 2 - i,
{
    if i < 0 || i >= args.len() {
        o
    } else if args[i] =~= flag_screenshot() {
        read_args(args, i + 2, (o.0, Some(args[i + 1]), o.2, o.3, o.4))
    } else if args[i] =~= flag_at() {
        read_args(args, i + 2, (o.0, o.1, Some(args[i + 1]), o.3, o.4))
    } else if args[i] =~= flag_size() {
        let (w, h) = size_of(args[i + 1]);
        read_args(args, i + 2, (o.0, o.1, o.2, w, h))
    } else {
        read_args(args, i + 1, (args[i], o.1, o.2, o.3, o.4))
    }
}

pub open spec fn views(args: Seq<String>) -> Seq<Seq<char>> {
    args.map_values(|a: String| a@)
}

pub open spec fn default_options() -> OptionsView {
    (seq!['.'], None, None, 1920, 1200)
}

pub open spec fn options_view(o: CliOptions) -> OptionsView {
    (
        o.repo@,
        match o.screenshot {
            Some(s) => Some(s@),
            None => None,
        },
        match o.at {
            Some(s) => Some(s@),
            None => None,
        },
        o.width,
        o.height,
    )
}

fn eq_lit(a: &str, lit: &[char]) -> (r: bool)
    ensures
        r == (a@ =~= lit@),
{
    let v = chars_of(a);
    if v.len() != lit.len() {
        return false;
    }
    let n = v.len();
    let mut t: usize = 0;
    while t < n
        invariant
            v@ == a@,
            n == v@.len() == lit@.len(),
            t <= n,
            forall|j: int| 0 <= j < t ==> v@[j] == lit@[j],
        decreases n - t,
    {
        if v[t] != lit[t] {
            return false;
        }
        t = t + 1;
    }
    true
}

fn which_flag(a: &str) -> (r: u8)
    ensures
        r == 1 <==> a@ =~= flag_screenshot(),
        r == 2 <==> a@ =~= flag_at(),
        r == 3 <==> a@ =~= flag_size(),
        r <= 3,
        r == 0 <==> !is_flag(a@),
{
    if eq_lit(a, &['-', '-', 's', 'c', 'r', 'e', 'e', 'n', 's', 'h', 'o', 't']) {
        1
    } else if eq_lit(a, &['-', '-', 'a', 't']) {
        2
    } else if eq_lit(a, &['-', '-', 's', 'i', 'z', 'e']) {
        3
    } else {
        0
    }
}

/// Whether every flag is followed by its value (see `complete_from`).
pub fn args_complete(args: &Vec<String>) -> (r: bool)
    ensures
        r == complete_from(views(args@), 0),
{
    let n = args.len();
    let ghost vs = views(args@);
    let mut i: usize = 0;
    while i < n
        invariant
            n == args@.len() == vs.len(),
            vs == views(args@),
            i <= n + 1,
            complete_from(vs, 0) == complete_from(vs, i as int),
        decreases n + 1 - i,
    {
        let f = which_flag(args[i].as_str());
        assert(vs[i as int] == args@[i as int]@);
        if f != 0 {
            if i + 1 >= n {
                return false;
            }
            i = i + 2;
        } else {
            i = i + 1;
        }
    }
    true
}

/// Splits "WxH" (see `size_of`).
pub fn parse_size(s: &str) -> (r: (u32, u32))
    ensures
        r == size_of(s@),
{
    let v = chars_of(s);
    let n = v.len();
    let mut k: usize = 0;
    while k < n && v[k] != 'x'
        invariant
            v@ == s@,
            k <= n == v@.len(),
            first_x(s@, k as int) == -1,
        decreases n - k,
    {
        k = k + 1;
    }
    proof {
        lemma_first_x_rest(s@, k as int, n as int);
    }
    if k == n {
        return (1920, 1200);
    }
    let a = s.substring_char(0, k);
    let b = s.substring_char(k + 1, n);
    assert(a@ =~= s@.take(k as int));
    assert(b@ =~= s@.skip(k + 1));
    let w = match parse_u32_text(a) {
        Some(w) => w,
        None => 1920,
    };
    let h = match parse_u32_text(b) {
        Some(h) => h,
        None => 1200,
    };
    (w, h)
}

proof fn lemma_first_x_rest(s: Seq<char>, k: int, n: int)
    requires
        0 <= k <= n == s.len(),
        first_x(s, k) == -1,
        k < n ==> s[k] == 'x',
    ensures
        first_x(s, n) == if k == n {
            -1
        } else {
            k
        },
    decreases n - k,
{
    if k < n {
        lemma_first_x_found(s, k, n);
    }
}

proof fn lemma_first_x_found(s: Seq<char>, k: int, n: int)
    requires
        0 <= k < n <= s.len(),
        first_x(s, k) == -1,
        s[k] == 'x',
    ensures
        first_x(s, n) == k,
    decreases n - k,
{
    if n > k + 1 {
        lemma_first_x_found(s, k, n - 1);
    }
}

/// Reads the command line (see `read_args`): the repository defaults to
/// ".", the size to 1920 by 1200.
pub fn parse_args(args: &Vec<String>) -> (o: CliOptions)
    requires
        complete_from(views(args@), 0),
    ensures
        options_view(o) == read_args(views(args@), 0, default_options()),
{
    let n = args.len();
    let ghost vs = views(args@);
    let dot = ".";
    proof {
        reveal_strlit(".");
    }
    let mut o = CliOptions {
        repo: String::from_str(dot),
        screenshot: None,
        at: None,
        width: 1920,
        height: 1200,
    };
    assert(options_view(o) == default_options());
    let mut i: usize = 0;
    while i < n
        invariant
            n == args@.len() == vs.len(),
            vs == views(args@),
            i <= n + 1,
            complete_from(vs, i as int),
            read_args(vs, i as int, options_view(o)) == read_args(vs, 0, default_options()),
        decreases n + 1 - i,
    {
        let a = args[i].as_str();
        assert(vs[i as int] == a@);
        let f = which_flag(a);
        if f == 0 {
            o.repo = String::from_str(a);
            i = i + 1;
        } else {
            let value = args[i + 1].as_str();
            assert(vs[i + 1] == value@);
            if f == 1 {
                o.screenshot = Some(String::from_str(value));
            } else if f == 2 {
                o.at = Some(String::from_str(value));
            } else {
                let (w, h) = parse_size(value);
                o.width = w;
                o.height = h;
            }
            i = i + 2;
        }
    }
    o
}

/// Directory names that the walk does not enter.
pub open spec fn skipped_dir(name: Seq<char>) -> bool {
    ||| name =~= seq!['.', 'g', 'i', 't']
    ||| name =~= seq!['t', 'a', 'r', 'g', 'e', 't']
    ||| name =~= seq!['n', 'o', 'd', 'e', '_', 'm', 'o', 'd', 'u', 'l', 'e', 's']
    ||| name =~= seq!['d', 'i', 's', 't']
    ||| name =~= seq!['_', '_', 'p', 'y', 'c', 'a', 'c', 'h', 'e', '_', '_']
    ||| name =~= seq!['.', 'v', 'e', 'n', 'v']
    ||| name =~= seq!['v', 'e', 'n', 'v']
    ||| name =~= seq!['.', 'i', 'd', 'e', 'a']
}

/// The walk enters every directory but those named .git, target,
/// node_modules, dist, __pycache__, .venv, venv and .idea, and keeps every
/// file, whatever its name.
pub proof fn law_skipped_dirs(name: Seq<char>)
    ensures
        skipped_dir(name) <==> (name == seq!['.', 'g', 'i', 't'] || name == seq!['t', 'a', 'r', 'g', 'e', 't']
            || name == seq!['n', 'o', 'd', 'e', '_', 'm', 'o', 'd', 'u', 'l', 'e', 's'] || name == seq![
            'd',
            'i',
            's',
            't',
        ] || name == seq!['_', '_', 'p', 'y', 'c', 'a', 'c', 'h', 'e', '_', '_'] || name == seq![
            '.',
            'v',
            'e',
            'n',
            'v',
        ] || name == seq!['v', 'e', 'n', 'v'] || name == seq!['.', 'i', 'd', 'e', 'a']),
{
}

/// Whether the walk keeps an entry named `name`: files always, directories
/// unless their name is one of `skipped_dir`.
pub fn keep_entry(is_dir: bool, name: &str) -> (r: bool)
    ensures
        r == (!is_dir || !skipped_dir(name@)),
{
    if !is_dir {
        return true;
    }
    !(eq_lit(name, &['.', 'g', 'i', 't']) || eq_lit(name, &['t', 'a', 'r', 'g', 'e', 't'])
        || eq_lit(name, &['n', 'o', 'd', 'e', '_', 'm', 'o', 'd', 'u', 'l', 'e', 's'])
        || eq_lit(name, &['d', 'i', 's', 't'])
        || eq_lit(name, &['_', '_', 'p', 'y', 'c', 'a', 'c', 'h', 'e', '_', '_'])
        || eq_lit(name, &['.', 'v', 'e', 'n', 'v']) || eq_lit(name, &['v', 'e', 'n', 'v'])
        || eq_lit(name, &['.', 'i', 'd', 'e', 'a']))
}

/// What the indexer is doing, by the phase number it reports.
pub fn phase_label(phase: u64) -> (r: &'static str)
    ensures
        phase <= 1 ==> r@ == seq!['w', 'a', 'l', 'k', 'i', 'n', 'g', ' ', 'f', 'i', 'l', 'e', 's'],
        phase == 2 ==> r@ == seq!['c', 'o', 'u', 'n', 't', 'i', 'n', 'g', ' ', 'l', 'i', 'n', 'e', 's'],
        phase == 3 ==> r@ == seq!['b', 'u', 'i', 'l', 'd', 'i', 'n', 'g', ' ', 'l', 'a', 'y', 'o', 'u', 't'],
        phase >= 4 ==> r@ == seq!['f', 'i', 'n', 'i', 's', 'h', 'i', 'n', 'g'],
{
    if phase <= 1 {
        let s = "walking files";
        proof {
            reveal_strlit("walking files");
        }
        s
    } else if phase == 2 {
        let s = "counting lines";
        proof {
            reveal_strlit("counting lines");
        }
        s
    } else if phase == 3 {
        let s = "building layout";
        proof {
            reveal_strlit("building layout");
        }
        s
    } else {
        let s = "finishing";
        proof {
            reveal_strlit("finishing");
        }
        s
    }
}

} // verus!
