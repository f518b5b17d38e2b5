use crate::paths::{chars_of, extension, path_extension};
use vstd::prelude::*;

verus! {

/// The kind of a file, decided by its extension.
#[derive(Clone, Copy, PartialEq, Eq, Debug, Structural)]
pub enum Lang {
    Cpp,
    C,
    Header,
    Rust,
    Python,
    Java,
    Js,
    Ts,
    Go,
    Css,
    Html,
    Json,
    Markdown,
    Build,
    Text,
    Binary,
    Other,
}


/// ASCII letters in lower case; every other character as it is.
pub open spec fn lower_char(c: char) -> char {
    if 'A' <= c && c <= 'Z' {
        ((c as u32) + 32) as char
    } else {
        c
    }
}

pub open spec fn lower(s: Seq<char>) -> Seq<char> {
    s.map_values(|c: char| lower_char(c))
}

/// The kind of a file named `p`: its extension, in lower case, looked up in
/// the table; `Other` without an extension or with one not in the table.
pub open spec fn lang_of_path(p: Seq<char>) -> Lang {
    match path_extension(p) {
        Some(e) => lang_of_ext(lower(e)),
        None => Lang::Other,
    }
}

pub open spec fn lang_of_ext(e: Seq<char>) -> Lang {
    if e =~= seq!['c', 'c']
        || e =~= seq!['c', 'p', 'p']
        || e =~= seq!['c', 'x', 'x']
        || e =~= seq!['c', '+', '+']
        || e =~= seq!['m', 'm']
        || e =~= seq!['m'] {
        Lang::Cpp
    } else if e =~= seq!['c'] {
        Lang::C
    } else if e =~= seq!['h']
        || e =~= seq!['h', 'h']
        || e =~= seq!['h', 'p', 'p']
        || e =~= seq!['h', 'x', 'x']
        || e =~= seq!['h', '+', '+'] {
        Lang::Header
    } else if e =~= seq!['r', 's'] {
        Lang::Rust
    } else if e =~= seq!['p', 'y'] {
        Lang::Python
    } else if e =~= seq!['j', 'a', 'v', 'a']
        || e =~= seq!['k', 't']
        || e =~= seq!['k', 't', 's'] {
        Lang::Java
    } else if e =~= seq!['j', 's']
        || e =~= seq!['m', 'j', 's']
        || e =~= seq!['c', 'j', 's']
        || e =~= seq!['j', 's', 'x'] {
        Lang::Js
    } else if e =~= seq!['t', 's']
        || e =~= seq!['t', 's', 'x'] {
        Lang::Ts
    } else if e =~= seq!['g', 'o'] {
        Lang::Go
    } else if e =~= seq!['c', 's', 's']
        || e =~= seq!['s', 'c', 's', 's']
        || e =~= seq!['l', 'e', 's', 's'] {
        Lang::Css
    } else if e =~= seq!['h', 't', 'm', 'l']
        || e =~= seq!['h', 't', 'm']
        || e =~= seq!['x', 'm', 'l']
        || e =~= seq!['s', 'v', 'g'] {
        Lang::Html
    } else if e =~= seq!['j', 's', 'o', 'n']
        || e =~= seq!['j', 's', 'o', 'n', '5']
        || e =~= seq!['y', 'a', 'm', 'l']
        || e =~= seq!['y', 'm', 'l']
        || e =~= seq!['t', 'o', 'm', 'l']
        || e =~= seq!['i', 'n', 'i'] {
        Lang::Json
    } else if e =~= seq!['m', 'd']
        || e =~= seq!['r', 's', 't']
        || e =~= seq!['t', 'x', 't'] {
        Lang::Markdown
    } else if e =~= seq!['g', 'n']
        || e =~= seq!['g', 'n', 'i']
        || e =~= seq!['b', 'p']
        || e =~= seq!['m', 'k']
        || e =~= seq!['c', 'm', 'a', 'k', 'e']
        || e =~= seq!['b', 'z', 'l']
        || e =~= seq!['s', 'h']
        || e =~= seq!['b', 'a', 't']
        || e =~= seq!['p', 's', '1'] {
        Lang::Build
    } else if e =~= seq!['p', 'n', 'g']
        || e =~= seq!['j', 'p', 'g']
        || e =~= seq!['j', 'p', 'e', 'g']
        || e =~= seq!['g', 'i', 'f']
        || e =~= seq!['i', 'c', 'o']
        || e =~= seq!['w', 'e', 'b', 'p']
        || e =~= seq!['a', 'v', 'i', 'f']
        || e =~= seq!['b', 'm', 'p']
        || e =~= seq!['i', 'c', 'n', 's']
        || e =~= seq!['p', 's', 'd']
        || e =~= seq!['w', 'o', 'f', 'f']
        || e =~= seq!['w', 'o', 'f', 'f', '2']
        || e =~= seq!['t', 't', 'f']
        || e =~= seq!['o', 't', 'f']
        || e =~= seq!['e', 'o', 't']
        || e =~= seq!['z', 'i', 'p']
        || e =~= seq!['g', 'z']
        || e =~= seq!['b', 'z', '2']
        || e =~= seq!['x', 'z']
        || e =~= seq!['z', 's', 't']
        || e =~= seq!['7', 'z']
        || e =~= seq!['r', 'a', 'r']
        || e =~= seq!['t', 'a', 'r']
        || e =~= seq!['p', 'd', 'f']
        || e =~= seq!['w', 'a', 's', 'm']
        || e =~= seq!['e', 'x', 'e']
        || e =~= seq!['d', 'l', 'l']
        || e =~= seq!['s', 'o']
        || e =~= seq!['d', 'y', 'l', 'i', 'b']
        || e =~= seq!['a']
        || e =~= seq!['o']
        || e =~= seq!['o', 'b', 'j']
        || e =~= seq!['l', 'i', 'b']
        || e =~= seq!['b', 'i', 'n']
        || e =~= seq!['d', 'a', 't']
        || e =~= seq!['d', 'b']
        || e =~= seq!['s', 'q', 'l', 'i', 't', 'e']
        || e =~= seq!['p', 'a', 'c', 'k']
        || e =~= seq!['c', 'r', 'x']
        || e =~= seq!['j', 'a', 'r']
        || e =~= seq!['a', 'p', 'k']
        || e =~= seq!['m', 'p', '4']
        || e =~= seq!['m', 'p', '3']
        || e =~= seq!['m', 'o', 'v']
        || e =~= seq!['w', 'e', 'b', 'm']
        || e =~= seq!['w', 'a', 'v']
        || e =~= seq!['f', 'l', 'a', 'c']
        || e =~= seq!['o', 'g', 'g']
        || e =~= seq!['p', 'y', 'c']
        || e =~= seq!['p', 'y', 'o']
        || e =~= seq!['c', 'l', 'a', 's', 's']
        || e =~= seq!['d', 'e', 'x']
        || e =~= seq!['p', 'a', 'k']
        || e =~= seq!['i', 'd', 'x']
        || e =~= seq!['d', 'i', 'c']
        || e =~= seq!['r', 'a', 'w']
        || e =~= seq!['p', 'b']
        || e =~= seq!['t', 'f', 'l', 'i', 't', 'e']
        || e =~= seq!['o', 'n', 'n', 'x']
        || e =~= seq!['p', 'b', 'm', 'm'] {
        Lang::Binary
    } else {
        Lang::Other
    }
}

fn lang_of_ext_chars(e: &Vec<char>) -> (r: Lang)
    ensures
        r == lang_of_ext(e@),
{
    if eq_chars(e, &['c', 'c'])
        || eq_chars(e, &['c', 'p', 'p'])
        || eq_chars(e, &['c', 'x', 'x'])
        || eq_chars(e, &['c', '+', '+'])
        || eq_chars(e, &['m', 'm'])
        || eq_chars(e, &['m']) {
        Lang::Cpp
    } else if eq_chars(e, &['c']) {
        Lang::C
    } else if eq_chars(e, &['h'])
        || eq_chars(e, &['h', 'h'])
        || eq_chars(e, &['h', 'p', 'p'])
        || eq_chars(e, &['h', 'x', 'x'])
        || eq_chars(e, &['h', '+', '+']) {
        Lang::Header
    } else if eq_chars(e, &['r', 's']) {
        Lang::Rust
    } else if eq_chars(e, &['p', 'y']) {
        Lang::Python
    } else if eq_chars(e, &['j', 'a', 'v', 'a'])
        || eq_chars(e, &['k', 't'])
        || eq_chars(e, &['k', 't', 's']) {
        Lang::Java
    } else if eq_chars(e, &['j', 's'])
        || eq_chars(e, &['m', 'j', 's'])
        || eq_chars(e, &['c', 'j', 's'])
        || eq_chars(e, &['j', 's', 'x']) {
        Lang::Js
    } else if eq_chars(e, &['t', 's'])
        || eq_chars(e, &['t', 's', 'x']) {
        Lang::Ts
    } else if eq_chars(e, &['g', 'o']) {
        Lang::Go
    } else if eq_chars(e, &['c', 's', 's'])
        || eq_chars(e, &['s', 'c', 's', 's'])
        || eq_chars(e, &['l', 'e', 's', 's']) {
        Lang::Css
    } else if eq_chars(e, &['h', 't', 'm', 'l'])
        || eq_chars(e, &['h', 't', 'm'])
        || eq_chars(e, &['x', 'm', 'l'])
        || eq_chars(e, &['s', 'v', 'g']) {
        Lang::Html
    } else if eq_chars(e, &['j', 's', 'o', 'n'])
        || eq_chars(e, &['j', 's', 'o', 'n', '5'])
        || eq_chars(e, &['y', 'a', 'm', 'l'])
        || eq_chars(e, &['y', 'm', 'l'])
        || eq_chars(e, &['t', 'o', 'm', 'l'])
        || eq_chars(e, &['i', 'n', 'i']) {
        Lang::Json
    } else if eq_chars(e, &['m', 'd'])
        || eq_chars(e, &['r', 's', 't'])
        || eq_chars(e, &['t', 'x', 't']) {
        Lang::Markdown
    } else if eq_chars(e, &['g', 'n'])
        || eq_chars(e, &['g', 'n', 'i'])
        || eq_chars(e, &['b', 'p'])
        || eq_chars(e, &['m', 'k'])
        || eq_chars(e, &['c', 'm', 'a', 'k', 'e'])
        || eq_chars(e, &['b', 'z', 'l'])
        || eq_chars(e, &['s', 'h'])
        || eq_chars(e, &['b', 'a', 't'])
        || eq_chars(e, &['p', 's', '1']) {
        Lang::Build
    } else if eq_chars(e, &['p', 'n', 'g'])
        || eq_chars(e, &['j', 'p', 'g'])
        || eq_chars(e, &['j', 'p', 'e', 'g'])
        || eq_chars(e, &['g', 'i', 'f'])
        || eq_chars(e, &['i', 'c', 'o'])
        || eq_chars(e, &['w', 'e', 'b', 'p'])
        || eq_chars(e, &['a', 'v', 'i', 'f'])
        || eq_chars(e, &['b', 'm', 'p'])
        || eq_chars(e, &['i', 'c', 'n', 's'])
        || eq_chars(e, &['p', 's', 'd'])
        || eq_chars(e, &['w', 'o', 'f', 'f'])
        || eq_chars(e, &['w', 'o', 'f', 'f', '2'])
        || eq_chars(e, &['t', 't', 'f'])
        || eq_chars(e, &['o', 't', 'f'])
        || eq_chars(e, &['e', 'o', 't'])
        || eq_chars(e, &['z', 'i', 'p'])
        || eq_chars(e, &['g', 'z'])
        || eq_chars(e, &['b', 'z', '2'])
        || eq_chars(e, &['x', 'z'])
        || eq_chars(e, &['z', 's', 't'])
        || eq_chars(e, &['7', 'z'])
        || eq_chars(e, &['r', 'a', 'r'])
        || eq_chars(e, &['t', 'a', 'r'])
        || eq_chars(e, &['p', 'd', 'f'])
        || eq_chars(e, &['w', 'a', 's', 'm'])
        || eq_chars(e, &['e', 'x', 'e'])
        || eq_chars(e, &['d', 'l', 'l'])
        || eq_chars(e, &['s', 'o'])
        || eq_chars(e, &['d', 'y', 'l', 'i', 'b'])
        || eq_chars(e, &['a'])
        || eq_chars(e, &['o'])
        || eq_chars(e, &['o', 'b', 'j'])
        || eq_chars(e, &['l', 'i', 'b'])
        || eq_chars(e, &['b', 'i', 'n'])
        || eq_chars(e, &['d', 'a', 't'])
        || eq_chars(e, &['d', 'b'])
        || eq_chars(e, &['s', 'q', 'l', 'i', 't', 'e'])
        || eq_chars(e, &['p', 'a', 'c', 'k'])
        || eq_chars(e, &['c', 'r', 'x'])
        || eq_chars(e, &['j', 'a', 'r'])
        || eq_chars(e, &['a', 'p', 'k'])
        || eq_chars(e, &['m', 'p', '4'])
        || eq_chars(e, &['m', 'p', '3'])
        || eq_chars(e, &['m', 'o', 'v'])
        || eq_chars(e, &['w', 'e', 'b', 'm'])
        || eq_chars(e, &['w', 'a', 'v'])
        || eq_chars(e, &['f', 'l', 'a', 'c'])
        || eq_chars(e, &['o', 'g', 'g'])
        || eq_chars(e, &['p', 'y', 'c'])
        || eq_chars(e, &['p', 'y', 'o'])
        || eq_chars(e, &['c', 'l', 'a', 's', 's'])
        || eq_chars(e, &['d', 'e', 'x'])
        || eq_chars(e, &['p', 'a', 'k'])
        || eq_chars(e, &['i', 'd', 'x'])
        || eq_chars(e, &['d', 'i', 'c'])
        || eq_chars(e, &['r', 'a', 'w'])
        || eq_chars(e, &['p', 'b'])
        || eq_chars(e, &['t', 'f', 'l', 'i', 't', 'e'])
        || eq_chars(e, &['o', 'n', 'n', 'x'])
        || eq_chars(e, &['p', 'b', 'm', 'm']) {
        Lang::Binary
    } else {
        Lang::Other
    }
}

/// Lower-casing twice is lower-casing once, so a path's kind does not
/// depend on the case of its extension's ASCII letters.
pub proof fn law_lower_idempotent(s: Seq<char>)
    ensures
        lower(lower(s)) == lower(s),
        lang_of_ext(lower(lower(s))) == lang_of_ext(lower(s)),
{
    assert(lower(lower(s)) =~= lower(s));
}

#[verifier::rlimit(60)]
proof fn lemma_table_0()
    ensures
        lang_of_ext(seq!['c', 'c']) == Lang::Cpp,
        lang_of_ext(seq!['c', 'p', 'p']) == Lang::Cpp,
        lang_of_ext(seq!['c', 'x', 'x']) == Lang::Cpp,
        lang_of_ext(seq!['c', '+', '+']) == Lang::Cpp,
        lang_of_ext(seq!['m', 'm']) == Lang::Cpp,
        lang_of_ext(seq!['m']) == Lang::Cpp,
        lang_of_ext(seq!['c']) == Lang::C,
        lang_of_ext(seq!['h']) == Lang::Header,
{
    assert(seq!['c', 'c'].len() == 2 && seq!['c', 'c'][0] == 'c' && seq!['c', 'c'][1] == 'c');
    assert(lang_of_ext(seq!['c', 'c']) == Lang::Cpp);
    assert(seq!['c', 'p', 'p'].len() == 3 && seq!['c', 'p', 'p'][0] == 'c' && seq!['c', 'p', 'p'][1] == 'p' && seq!['c', 'p', 'p'][2] == 'p');
    assert(lang_of_ext(seq!['c', 'p', 'p']) == Lang::Cpp);
    assert(seq!['c', 'x', 'x'].len() == 3 && seq!['c', 'x', 'x'][0] == 'c' && seq!['c', 'x', 'x'][1] == 'x' && seq!['c', 'x', 'x'][2] == 'x');
    assert(lang_of_ext(seq!['c', 'x', 'x']) == Lang::Cpp);
    assert(seq!['c', '+', '+'].len() == 3 && seq!['c', '+', '+'][0] == 'c' && seq!['c', '+', '+'][1] == '+' && seq!['c', '+', '+'][2] == '+');
    assert(lang_of_ext(seq!['c', '+', '+']) == Lang::Cpp);
    assert(seq!['m', 'm'].len() == 2 && seq!['m', 'm'][0] == 'm' && seq!['m', 'm'][1] == 'm');
    assert(lang_of_ext(seq!['m', 'm']) == Lang::Cpp);
    assert(seq!['m'].len() == 1 && seq!['m'][0] == 'm');
    assert(lang_of_ext(seq!['m']) == Lang::Cpp);
    assert(seq!['c'].len() == 1 && seq!['c'][0] == 'c');
    assert(lang_of_ext(seq!['c']) == Lang::C);
    assert(seq!['h'].len() == 1 && seq!['h'][0] == 'h');
    assert(lang_of_ext(seq!['h']) == Lang::Header);
}

#[verifier::rlimit(60)]
proof fn lemma_table_1()
    ensures
        lang_of_ext(seq!['h', 'h']) == Lang::Header,
        lang_of_ext(seq!['h', 'p', 'p']) == Lang::Header,
        lang_of_ext(seq!['h', 'x', 'x']) == Lang::Header,
        lang_of_ext(seq!['h', '+', '+']) == Lang::Header,
        lang_of_ext(seq!['r', 's']) == Lang::Rust,
        lang_of_ext(seq!['p', 'y']) == Lang::Python,
        lang_of_ext(seq!['j', 'a', 'v', 'a']) == Lang::Java,
        lang_of_ext(seq!['k', 't']) == Lang::Java,
{
    assert(seq!['h', 'h'].len() == 2 && seq!['h', 'h'][0] == 'h' && seq!['h', 'h'][1] == 'h');
    assert(lang_of_ext(seq!['h', 'h']) == Lang::Header);
    assert(seq!['h', 'p', 'p'].len() == 3 && seq!['h', 'p', 'p'][0] == 'h' && seq!['h', 'p', 'p'][1] == 'p' && seq!['h', 'p', 'p'][2] == 'p');
    assert(lang_of_ext(seq!['h', 'p', 'p']) == Lang::Header);
    assert(seq!['h', 'x', 'x'].len() == 3 && seq!['h', 'x', 'x'][0] == 'h' && seq!['h', 'x', 'x'][1] == 'x' && seq!['h', 'x', 'x'][2] == 'x');
    assert(lang_of_ext(seq!['h', 'x', 'x']) == Lang::Header);
    assert(seq!['h', '+', '+'].len() == 3 && seq!['h', '+', '+'][0] == 'h' && seq!['h', '+', '+'][1] == '+' && seq!['h', '+', '+'][2] == '+');
    assert(lang_of_ext(seq!['h', '+', '+']) == Lang::Header);
    assert(seq!['r', 's'].len() == 2 && seq!['r', 's'][0] == 'r' && seq!['r', 's'][1] == 's');
    assert(lang_of_ext(seq!['r', 's']) == Lang::Rust);
    assert(seq!['p', 'y'].len() == 2 && seq!['p', 'y'][0] == 'p' && seq!['p', 'y'][1] == 'y');
    assert(lang_of_ext(seq!['p', 'y']) == Lang::Python);
    assert(seq!['j', 'a', 'v', 'a'].len() == 4 && seq!['j', 'a', 'v', 'a'][0] == 'j' && seq!['j', 'a', 'v', 'a'][1] == 'a' && seq!['j', 'a', 'v', 'a'][2] == 'v' && seq!['j', 'a', 'v', 'a'][3] == 'a');
    assert(lang_of_ext(seq!['j', 'a', 'v', 'a']) == Lang::Java);
    assert(seq!['k', 't'].len() == 2 && seq!['k', 't'][0] == 'k' && seq!['k', 't'][1] == 't');
    assert(lang_of_ext(seq!['k', 't']) == Lang::Java);
}

#[verifier::rlimit(60)]
proof fn lemma_table_2()
    ensures
        lang_of_ext(seq!['k', 't', 's']) == Lang::Java,
        lang_of_ext(seq!['j', 's']) == Lang::Js,
        lang_of_ext(seq!['m', 'j', 's']) == Lang::Js,
        lang_of_ext(seq!['c', 'j', 's']) == Lang::Js,
        lang_of_ext(seq!['j', 's', 'x']) == Lang::Js,
        lang_of_ext(seq!['t', 's']) == Lang::Ts,
        lang_of_ext(seq!['t', 's', 'x']) == Lang::Ts,
        lang_of_ext(seq!['g', 'o']) == Lang::Go,
{
    assert(seq!['k', 't', 's'].len() == 3 && seq!['k', 't', 's'][0] == 'k' && seq!['k', 't', 's'][1] == 't' && seq!['k', 't', 's'][2] == 's');
    assert(lang_of_ext(seq!['k', 't', 's']) == Lang::Java);
    assert(seq!['j', 's'].len() == 2 && seq!['j', 's'][0] == 'j' && seq!['j', 's'][1] == 's');
    assert(lang_of_ext(seq!['j', 's']) == Lang::Js);
    assert(seq!['m', 'j', 's'].len() == 3 && seq!['m', 'j', 's'][0] == 'm' && seq!['m', 'j', 's'][1] == 'j' && seq!['m', 'j', 's'][2] == 's');
    assert(lang_of_ext(seq!['m', 'j', 's']) == Lang::Js);
    assert(seq!['c', 'j', 's'].len() == 3 && seq!['c', 'j', 's'][0] == 'c' && seq!['c', 'j', 's'][1] == 'j' && seq!['c', 'j', 's'][2] == 's');
    assert(lang_of_ext(seq!['c', 'j', 's']) == Lang::Js);
    assert(seq!['j', 's', 'x'].len() == 3 && seq!['j', 's', 'x'][0] == 'j' && seq!['j', 's', 'x'][1] == 's' && seq!['j', 's', 'x'][2] == 'x');
    assert(lang_of_ext(seq!['j', 's', 'x']) == Lang::Js);
    assert(seq!['t', 's'].len() == 2 && seq!['t', 's'][0] == 't' && seq!['t', 's'][1] == 's');
    assert(lang_of_ext(seq!['t', 's']) == Lang::Ts);
    assert(seq!['t', 's', 'x'].len() == 3 && seq!['t', 's', 'x'][0] == 't' && seq!['t', 's', 'x'][1] == 's' && seq!['t', 's', 'x'][2] == 'x');
    assert(lang_of_ext(seq!['t', 's', 'x']) == Lang::Ts);
    assert(seq!['g', 'o'].len() == 2 && seq!['g', 'o'][0] == 'g' && seq!['g', 'o'][1] == 'o');
    assert(lang_of_ext(seq!['g', 'o']) == Lang::Go);
}

#[verifier::rlimit(60)]
proof fn lemma_table_3()
    ensures
        lang_of_ext(seq!['c', 's', 's']) == Lang::Css,
        lang_of_ext(seq!['s', 'c', 's', 's']) == Lang::Css,
        lang_of_ext(seq!['l', 'e', 's', 's']) == Lang::Css,
        lang_of_ext(seq!['h', 't', 'm', 'l']) == Lang::Html,
        lang_of_ext(seq!['h', 't', 'm']) == Lang::Html,
        lang_of_ext(seq!['x', 'm', 'l']) == Lang::Html,
        lang_of_ext(seq!['s', 'v', 'g']) == Lang::Html,
        lang_of_ext(seq!['j', 's', 'o', 'n']) == Lang::Json,
{
    assert(seq!['c', 's', 's'].len() == 3 && seq!['c', 's', 's'][0] == 'c' && seq!['c', 's', 's'][1] == 's' && seq!['c', 's', 's'][2] == 's');
    assert(lang_of_ext(seq!['c', 's', 's']) == Lang::Css);
    assert(seq!['s', 'c', 's', 's'].len() == 4 && seq!['s', 'c', 's', 's'][0] == 's' && seq!['s', 'c', 's', 's'][1] == 'c' && seq!['s', 'c', 's', 's'][2] == 's' && seq!['s', 'c', 's', 's'][3] == 's');
    assert(lang_of_ext(seq!['s', 'c', 's', 's']) == Lang::Css);
    assert(seq!['l', 'e', 's', 's'].len() == 4 && seq!['l', 'e', 's', 's'][0] == 'l' && seq!['l', 'e', 's', 's'][1] == 'e' && seq!['l', 'e', 's', 's'][2] == 's' && seq!['l', 'e', 's', 's'][3] == 's');
    assert(lang_of_ext(seq!['l', 'e', 's', 's']) == Lang::Css);
    assert(seq!['h', 't', 'm', 'l'].len() == 4 && seq!['h', 't', 'm', 'l'][0] == 'h' && seq!['h', 't', 'm', 'l'][1] == 't' && seq!['h', 't', 'm', 'l'][2] == 'm' && seq!['h', 't', 'm', 'l'][3] == 'l');
    assert(lang_of_ext(seq!['h', 't', 'm', 'l']) == Lang::Html);
    assert(seq!['h', 't', 'm'].len() == 3 && seq!['h', 't', 'm'][0] == 'h' && seq!['h', 't', 'm'][1] == 't' && seq!['h', 't', 'm'][2] == 'm');
    assert(lang_of_ext(seq!['h', 't', 'm']) == Lang::Html);
    assert(seq!['x', 'm', 'l'].len() == 3 && seq!['x', 'm', 'l'][0] == 'x' && seq!['x', 'm', 'l'][1] == 'm' && seq!['x', 'm', 'l'][2] == 'l');
    assert(lang_of_ext(seq!['x', 'm', 'l']) == Lang::Html);
    assert(seq!['s', 'v', 'g'].len() == 3 && seq!['s', 'v', 'g'][0] == 's' && seq!['s', 'v', 'g'][1] == 'v' && seq!['s', 'v', 'g'][2] == 'g');
    assert(lang_of_ext(seq!['s', 'v', 'g']) == Lang::Html);
    assert(seq!['j', 's', 'o', 'n'].len() == 4 && seq!['j', 's', 'o', 'n'][0] == 'j' && seq!['j', 's', 'o', 'n'][1] == 's' && seq!['j', 's', 'o', 'n'][2] == 'o' && seq!['j', 's', 'o', 'n'][3] == 'n');
    assert(lang_of_ext(seq!['j', 's', 'o', 'n']) == Lang::Json);
}

#[verifier::rlimit(60)]
proof fn lemma_table_4()
    ensures
        lang_of_ext(seq!['j', 's', 'o', 'n', '5']) == Lang::Json,
        lang_of_ext(seq!['y', 'a', 'm', 'l']) == Lang::Json,
        lang_of_ext(seq!['y', 'm', 'l']) == Lang::Json,
        lang_of_ext(seq!['t', 'o', 'm', 'l']) == Lang::Json,
        lang_of_ext(seq!['i', 'n', 'i']) == Lang::Json,
        lang_of_ext(seq!['m', 'd']) == Lang::Markdown,
        lang_of_ext(seq!['r', 's', 't']) == Lang::Markdown,
        lang_of_ext(seq!['t', 'x', 't']) == Lang::Markdown,
{
    assert(seq!['j', 's', 'o', 'n', '5'].len() == 5 && seq!['j', 's', 'o', 'n', '5'][0] == 'j' && seq!['j', 's', 'o', 'n', '5'][1] == 's' && seq!['j', 's', 'o', 'n', '5'][2] == 'o' && seq!['j', 's', 'o', 'n', '5'][3] == 'n' && seq!['j', 's', 'o', 'n', '5'][4] == '5');
    assert(lang_of_ext(seq!['j', 's', 'o', 'n', '5']) == Lang::Json);
    assert(seq!['y', 'a', 'm', 'l'].len() == 4 && seq!['y', 'a', 'm', 'l'][0] == 'y' && seq!['y', 'a', 'm', 'l'][1] == 'a' && seq!['y', 'a', 'm', 'l'][2] == 'm' && seq!['y', 'a', 'm', 'l'][3] == 'l');
    assert(lang_of_ext(seq!['y', 'a', 'm', 'l']) == Lang::Json);
    assert(seq!['y', 'm', 'l'].len() == 3 && seq!['y', 'm', 'l'][0] == 'y' && seq!['y', 'm', 'l'][1] == 'm' && seq!['y', 'm', 'l'][2] == 'l');
    assert(lang_of_ext(seq!['y', 'm', 'l']) == Lang::Json);
    assert(seq!['t', 'o', 'm', 'l'].len() == 4 && seq!['t', 'o', 'm', 'l'][0] == 't' && seq!['t', 'o', 'm', 'l'][1] == 'o' && seq!['t', 'o', 'm', 'l'][2] == 'm' && seq!['t', 'o', 'm', 'l'][3] == 'l');
    assert(lang_of_ext(seq!['t', 'o', 'm', 'l']) == Lang::Json);
    assert(seq!['i', 'n', 'i'].len() == 3 && seq!['i', 'n', 'i'][0] == 'i' && seq!['i', 'n', 'i'][1] == 'n' && seq!['i', 'n', 'i'][2] == 'i');
    assert(lang_of_ext(seq!['i', 'n', 'i']) == Lang::Json);
    assert(seq!['m', 'd'].len() == 2 && seq!['m', 'd'][0] == 'm' && seq!['m', 'd'][1] == 'd');
    assert(lang_of_ext(seq!['m', 'd']) == Lang::Markdown);
    assert(seq!['r', 's', 't'].len() == 3 && seq!['r', 's', 't'][0] == 'r' && seq!['r', 's', 't'][1] == 's' && seq!['r', 's', 't'][2] == 't');
    assert(lang_of_ext(seq!['r', 's', 't']) == Lang::Markdown);
    assert(seq!['t', 'x', 't'].len() == 3 && seq!['t', 'x', 't'][0] == 't' && seq!['t', 'x', 't'][1] == 'x' && seq!['t', 'x', 't'][2] == 't');
    assert(lang_of_ext(seq!['t', 'x', 't']) == Lang::Markdown);
}

#[verifier::rlimit(60)]
proof fn lemma_table_5()
    ensures
        lang_of_ext(seq!['g', 'n']) == Lang::Build,
        lang_of_ext(seq!['g', 'n', 'i']) == Lang::Build,
        lang_of_ext(seq!['b', 'p']) == Lang::Build,
        lang_of_ext(seq!['m', 'k']) == Lang::Build,
        lang_of_ext(seq!['c', 'm', 'a', 'k', 'e']) == Lang::Build,
        lang_of_ext(seq!['b', 'z', 'l']) == Lang::Build,
        lang_of_ext(seq!['s', 'h']) == Lang::Build,
        lang_of_ext(seq!['b', 'a', 't']) == Lang::Build,
{
    assert(seq!['g', 'n'].len() == 2 && seq!['g', 'n'][0] == 'g' && seq!['g', 'n'][1] == 'n');
    assert(lang_of_ext(seq!['g', 'n']) == Lang::Build);
    assert(seq!['g', 'n', 'i'].len() == 3 && seq!['g', 'n', 'i'][0] == 'g' && seq!['g', 'n', 'i'][1] == 'n' && seq!['g', 'n', 'i'][2] == 'i');
    assert(lang_of_ext(seq!['g', 'n', 'i']) == Lang::Build);
    assert(seq!['b', 'p'].len() == 2 && seq!['b', 'p'][0] == 'b' && seq!['b', 'p'][1] == 'p');
    assert(lang_of_ext(seq!['b', 'p']) == Lang::Build);
    assert(seq!['m', 'k'].len() == 2 && seq!['m', 'k'][0] == 'm' && seq!['m', 'k'][1] == 'k');
    assert(lang_of_ext(seq!['m', 'k']) == Lang::Build);
    assert(seq!['c', 'm', 'a', 'k', 'e'].len() == 5 && seq!['c', 'm', 'a', 'k', 'e'][0] == 'c' && seq!['c', 'm', 'a', 'k', 'e'][1] == 'm' && seq!['c', 'm', 'a', 'k', 'e'][2] == 'a' && seq!['c', 'm', 'a', 'k', 'e'][3] == 'k' && seq!['c', 'm', 'a', 'k', 'e'][4] == 'e');
    assert(lang_of_ext(seq!['c', 'm', 'a', 'k', 'e']) == Lang::Build);
    assert(seq!['b', 'z', 'l'].len() == 3 && seq!['b', 'z', 'l'][0] == 'b' && seq!['b', 'z', 'l'][1] == 'z' && seq!['b', 'z', 'l'][2] == 'l');
    assert(lang_of_ext(seq!['b', 'z', 'l']) == Lang::Build);
    assert(seq!['s', 'h'].len() == 2 && seq!['s', 'h'][0] == 's' && seq!['s', 'h'][1] == 'h');
    assert(lang_of_ext(seq!['s', 'h']) == Lang::Build);
    assert(seq!['b', 'a', 't'].len() == 3 && seq!['b', 'a', 't'][0] == 'b' && seq!['b', 'a', 't'][1] == 'a' && seq!['b', 'a', 't'][2] == 't');
    assert(lang_of_ext(seq!['b', 'a', 't']) == Lang::Build);
}

#[verifier::rlimit(60)]
proof fn lemma_table_6()
    ensures
        lang_of_ext(seq!['p', 's', '1']) == Lang::Build,
        lang_of_ext(seq!['p', 'n', 'g']) == Lang::Binary,
        lang_of_ext(seq!['j', 'p', 'g']) == Lang::Binary,
        lang_of_ext(seq!['j', 'p', 'e', 'g']) == Lang::Binary,
        lang_of_ext(seq!['g', 'i', 'f']) == Lang::Binary,
        lang_of_ext(seq!['i', 'c', 'o']) == Lang::Binary,
        lang_of_ext(seq!['w', 'e', 'b', 'p']) == Lang::Binary,
        lang_of_ext(seq!['a', 'v', 'i', 'f']) == Lang::Binary,
{
    assert(seq!['p', 's', '1'].len() == 3 && seq!['p', 's', '1'][0] == 'p' && seq!['p', 's', '1'][1] == 's' && seq!['p', 's', '1'][2] == '1');
    assert(lang_of_ext(seq!['p', 's', '1']) == Lang::Build);
    assert(seq!['p', 'n', 'g'].len() == 3 && seq!['p', 'n', 'g'][0] == 'p' && seq!['p', 'n', 'g'][1] == 'n' && seq!['p', 'n', 'g'][2] == 'g');
    assert(lang_of_ext(seq!['p', 'n', 'g']) == Lang::Binary);
    assert(seq!['j', 'p', 'g'].len() == 3 && seq!['j', 'p', 'g'][0] == 'j' && seq!['j', 'p', 'g'][1] == 'p' && seq!['j', 'p', 'g'][2] == 'g');
    assert(lang_of_ext(seq!['j', 'p', 'g']) == Lang::Binary);
    assert(seq!['j', 'p', 'e', 'g'].len() == 4 && seq!['j', 'p', 'e', 'g'][0] == 'j' && seq!['j', 'p', 'e', 'g'][1] == 'p' && seq!['j', 'p', 'e', 'g'][2] == 'e' && seq!['j', 'p', 'e', 'g'][3] == 'g');
    assert(lang_of_ext(seq!['j', 'p', 'e', 'g']) == Lang::Binary);
    assert(seq!['g', 'i', 'f'].len() == 3 && seq!['g', 'i', 'f'][0] == 'g' && seq!['g', 'i', 'f'][1] == 'i' && seq!['g', 'i', 'f'][2] == 'f');
    assert(lang_of_ext(seq!['g', 'i', 'f']) == Lang::Binary);
    assert(seq!['i', 'c', 'o'].len() == 3 && seq!['i', 'c', 'o'][0] == 'i' && seq!['i', 'c', 'o'][1] == 'c' && seq!['i', 'c', 'o'][2] == 'o');
    assert(lang_of_ext(seq!['i', 'c', 'o']) == Lang::Binary);
    assert(seq!['w', 'e', 'b', 'p'].len() == 4 && seq!['w', 'e', 'b', 'p'][0] == 'w' && seq!['w', 'e', 'b', 'p'][1] == 'e' && seq!['w', 'e', 'b', 'p'][2] == 'b' && seq!['w', 'e', 'b', 'p'][3] == 'p');
    assert(lang_of_ext(seq!['w', 'e', 'b', 'p']) == Lang::Binary);
    assert(seq!['a', 'v', 'i', 'f'].len() == 4 && seq!['a', 'v', 'i', 'f'][0] == 'a' && seq!['a', 'v', 'i', 'f'][1] == 'v' && seq!['a', 'v', 'i', 'f'][2] == 'i' && seq!['a', 'v', 'i', 'f'][3] == 'f');
    assert(lang_of_ext(seq!['a', 'v', 'i', 'f']) == Lang::Binary);
}

#[verifier::rlimit(60)]
proof fn lemma_table_7()
    ensures
        lang_of_ext(seq!['b', 'm', 'p']) == Lang::Binary,
        lang_of_ext(seq!['i', 'c', 'n', 's']) == Lang::Binary,
        lang_of_ext(seq!['p', 's', 'd']) == Lang::Binary,
        lang_of_ext(seq!['w', 'o', 'f', 'f']) == Lang::Binary,
        lang_of_ext(seq!['w', 'o', 'f', 'f', '2']) == Lang::Binary,
        lang_of_ext(seq!['t', 't', 'f']) == Lang::Binary,
        lang_of_ext(seq!['o', 't', 'f']) == Lang::Binary,
        lang_of_ext(seq!['e', 'o', 't']) == Lang::Binary,
{
    assert(seq!['b', 'm', 'p'].len() == 3 && seq!['b', 'm', 'p'][0] == 'b' && seq!['b', 'm', 'p'][1] == 'm' && seq!['b', 'm', 'p'][2] == 'p');
    assert(lang_of_ext(seq!['b', 'm', 'p']) == Lang::Binary);
    assert(seq!['i', 'c', 'n', 's'].len() == 4 && seq!['i', 'c', 'n', 's'][0] == 'i' && seq!['i', 'c', 'n', 's'][1] == 'c' && seq!['i', 'c', 'n', 's'][2] == 'n' && seq!['i', 'c', 'n', 's'][3] == 's');
    assert(lang_of_ext(seq!['i', 'c', 'n', 's']) == Lang::Binary);
    assert(seq!['p', 's', 'd'].len() == 3 && seq!['p', 's', 'd'][0] == 'p' && seq!['p', 's', 'd'][1] == 's' && seq!['p', 's', 'd'][2] == 'd');
    assert(lang_of_ext(seq!['p', 's', 'd']) == Lang::Binary);
    assert(seq!['w', 'o', 'f', 'f'].len() == 4 && seq!['w', 'o', 'f', 'f'][0] == 'w' && seq!['w', 'o', 'f', 'f'][1] == 'o' && seq!['w', 'o', 'f', 'f'][2] == 'f' && seq!['w', 'o', 'f', 'f'][3] == 'f');
    assert(lang_of_ext(seq!['w', 'o', 'f', 'f']) == Lang::Binary);
    assert(seq!['w', 'o', 'f', 'f', '2'].len() == 5 && seq!['w', 'o', 'f', 'f', '2'][0] == 'w' && seq!['w', 'o', 'f', 'f', '2'][1] == 'o' && seq!['w', 'o', 'f', 'f', '2'][2] == 'f' && seq!['w', 'o', 'f', 'f', '2'][3] == 'f' && seq!['w', 'o', 'f', 'f', '2'][4] == '2');
    assert(lang_of_ext(seq!['w', 'o', 'f', 'f', '2']) == Lang::Binary);
    assert(seq!['t', 't', 'f'].len() == 3 && seq!['t', 't', 'f'][0] == 't' && seq!['t', 't', 'f'][1] == 't' && seq!['t', 't', 'f'][2] == 'f');
    assert(lang_of_ext(seq!['t', 't', 'f']) == Lang::Binary);
    assert(seq!['o', 't', 'f'].len() == 3 && seq!['o', 't', 'f'][0] == 'o' && seq!['o', 't', 'f'][1] == 't' && seq!['o', 't', 'f'][2] == 'f');
    assert(lang_of_ext(seq!['o', 't', 'f']) == Lang::Binary);
    assert(seq!['e', 'o', 't'].len() == 3 && seq!['e', 'o', 't'][0] == 'e' && seq!['e', 'o', 't'][1] == 'o' && seq!['e', 'o', 't'][2] == 't');
    assert(lang_of_ext(seq!['e', 'o', 't']) == Lang::Binary);
}

#[verifier::rlimit(60)]
proof fn lemma_table_8()
    ensures
        lang_of_ext(seq!['z', 'i', 'p']) == Lang::Binary,
        lang_of_ext(seq!['g', 'z']) == Lang::Binary,
        lang_of_ext(seq!['b', 'z', '2']) == Lang::Binary,
        lang_of_ext(seq!['x', 'z']) == Lang::Binary,
        lang_of_ext(seq!['z', 's', 't']) == Lang::Binary,
        lang_of_ext(seq!['7', 'z']) == Lang::Binary,
        lang_of_ext(seq!['r', 'a', 'r']) == Lang::Binary,
        lang_of_ext(seq!['t', 'a', 'r']) == Lang::Binary,
{
    assert(seq!['z', 'i', 'p'].len() == 3 && seq!['z', 'i', 'p'][0] == 'z' && seq!['z', 'i', 'p'][1] == 'i' && seq!['z', 'i', 'p'][2] == 'p');
    assert(lang_of_ext(seq!['z', 'i', 'p']) == Lang::Binary);
    assert(seq!['g', 'z'].len() == 2 && seq!['g', 'z'][0] == 'g' && seq!['g', 'z'][1] == 'z');
    assert(lang_of_ext(seq!['g', 'z']) == Lang::Binary);
    assert(seq!['b', 'z', '2'].len() == 3 && seq!['b', 'z', '2'][0] == 'b' && seq!['b', 'z', '2'][1] == 'z' && seq!['b', 'z', '2'][2] == '2');
    assert(lang_of_ext(seq!['b', 'z', '2']) == Lang::Binary);
    assert(seq!['x', 'z'].len() == 2 && seq!['x', 'z'][0] == 'x' && seq!['x', 'z'][1] == 'z');
    assert(lang_of_ext(seq!['x', 'z']) == Lang::Binary);
    assert(seq!['z', 's', 't'].len() == 3 && seq!['z', 's', 't'][0] == 'z' && seq!['z', 's', 't'][1] == 's' && seq!['z', 's', 't'][2] == 't');
    assert(lang_of_ext(seq!['z', 's', 't']) == Lang::Binary);
    assert(seq!['7', 'z'].len() == 2 && seq!['7', 'z'][0] == '7' && seq!['7', 'z'][1] == 'z');
    assert(lang_of_ext(seq!['7', 'z']) == Lang::Binary);
    assert(seq!['r', 'a', 'r'].len() == 3 && seq!['r', 'a', 'r'][0] == 'r' && seq!['r', 'a', 'r'][1] == 'a' && seq!['r', 'a', 'r'][2] == 'r');
    assert(lang_of_ext(seq!['r', 'a', 'r']) == Lang::Binary);
    assert(seq!['t', 'a', 'r'].len() == 3 && seq!['t', 'a', 'r'][0] == 't' && seq!['t', 'a', 'r'][1] == 'a' && seq!['t', 'a', 'r'][2] == 'r');
    assert(lang_of_ext(seq!['t', 'a', 'r']) == Lang::Binary);
}

#[verifier::rlimit(60)]
proof fn lemma_table_9()
    ensures
        lang_of_ext(seq!['p', 'd', 'f']) == Lang::Binary,
        lang_of_ext(seq!['w', 'a', 's', 'm']) == Lang::Binary,
        lang_of_ext(seq!['e', 'x', 'e']) == Lang::Binary,
        lang_of_ext(seq!['d', 'l', 'l']) == Lang::Binary,
        lang_of_ext(seq!['s', 'o']) == Lang::Binary,
        lang_of_ext(seq!['d', 'y', 'l', 'i', 'b']) == Lang::Binary,
        lang_of_ext(seq!['a']) == Lang::Binary,
        lang_of_ext(seq!['o']) == Lang::Binary,
{
    assert(seq!['p', 'd', 'f'].len() == 3 && seq!['p', 'd', 'f'][0] == 'p' && seq!['p', 'd', 'f'][1] == 'd' && seq!['p', 'd', 'f'][2] == 'f');
    assert(lang_of_ext(seq!['p', 'd', 'f']) == Lang::Binary);
    assert(seq!['w', 'a', 's', 'm'].len() == 4 && seq!['w', 'a', 's', 'm'][0] == 'w' && seq!['w', 'a', 's', 'm'][1] == 'a' && seq!['w', 'a', 's', 'm'][2] == 's' && seq!['w', 'a', 's', 'm'][3] == 'm');
    assert(lang_of_ext(seq!['w', 'a', 's', 'm']) == Lang::Binary);
    assert(seq!['e', 'x', 'e'].len() == 3 && seq!['e', 'x', 'e'][0] == 'e' && seq!['e', 'x', 'e'][1] == 'x' && seq!['e', 'x', 'e'][2] == 'e');
    assert(lang_of_ext(seq!['e', 'x', 'e']) == Lang::Binary);
    assert(seq!['d', 'l', 'l'].len() == 3 && seq!['d', 'l', 'l'][0] == 'd' && seq!['d', 'l', 'l'][1] == 'l' && seq!['d', 'l', 'l'][2] == 'l');
    assert(lang_of_ext(seq!['d', 'l', 'l']) == Lang::Binary);
    assert(seq!['s', 'o'].len() == 2 && seq!['s', 'o'][0] == 's' && seq!['s', 'o'][1] == 'o');
    assert(lang_of_ext(seq!['s', 'o']) == Lang::Binary);
    assert(seq!['d', 'y', 'l', 'i', 'b'].len() == 5 && seq!['d', 'y', 'l', 'i', 'b'][0] == 'd' && seq!['d', 'y', 'l', 'i', 'b'][1] == 'y' && seq!['d', 'y', 'l', 'i', 'b'][2] == 'l' && seq!['d', 'y', 'l', 'i', 'b'][3] == 'i' && seq!['d', 'y', 'l', 'i', 'b'][4] == 'b');
    assert(lang_of_ext(seq!['d', 'y', 'l', 'i', 'b']) == Lang::Binary);
    assert(seq!['a'].len() == 1 && seq!['a'][0] == 'a');
    assert(lang_of_ext(seq!['a']) == Lang::Binary);
    assert(seq!['o'].len() == 1 && seq!['o'][0] == 'o');
    assert(lang_of_ext(seq!['o']) == Lang::Binary);
}

#[verifier::rlimit(60)]
proof fn lemma_table_10()
    ensures
        lang_of_ext(seq!['o', 'b', 'j']) == Lang::Binary,
        lang_of_ext(seq!['l', 'i', 'b']) == Lang::Binary,
        lang_of_ext(seq!['b', 'i', 'n']) == Lang::Binary,
        lang_of_ext(seq!['d', 'a', 't']) == Lang::Binary,
        lang_of_ext(seq!['d', 'b']) == Lang::Binary,
        lang_of_ext(seq!['s', 'q', 'l', 'i', 't', 'e']) == Lang::Binary,
        lang_of_ext(seq!['p', 'a', 'c', 'k']) == Lang::Binary,
        lang_of_ext(seq!['c', 'r', 'x']) == Lang::Binary,
{
    assert(seq!['o', 'b', 'j'].len() == 3 && seq!['o', 'b', 'j'][0] == 'o' && seq!['o', 'b', 'j'][1] == 'b' && seq!['o', 'b', 'j'][2] == 'j');
    assert(lang_of_ext(seq!['o', 'b', 'j']) == Lang::Binary);
    assert(seq!['l', 'i', 'b'].len() == 3 && seq!['l', 'i', 'b'][0] == 'l' && seq!['l', 'i', 'b'][1] == 'i' && seq!['l', 'i', 'b'][2] == 'b');
    assert(lang_of_ext(seq!['l', 'i', 'b']) == Lang::Binary);
    assert(seq!['b', 'i', 'n'].len() == 3 && seq!['b', 'i', 'n'][0] == 'b' && seq!['b', 'i', 'n'][1] == 'i' && seq!['b', 'i', 'n'][2] == 'n');
    assert(lang_of_ext(seq!['b', 'i', 'n']) == Lang::Binary);
    assert(seq!['d', 'a', 't'].len() == 3 && seq!['d', 'a', 't'][0] == 'd' && seq!['d', 'a', 't'][1] == 'a' && seq!['d', 'a', 't'][2] == 't');
    assert(lang_of_ext(seq!['d', 'a', 't']) == Lang::Binary);
    assert(seq!['d', 'b'].len() == 2 && seq!['d', 'b'][0] == 'd' && seq!['d', 'b'][1] == 'b');
    assert(lang_of_ext(seq!['d', 'b']) == Lang::Binary);
    assert(seq!['s', 'q', 'l', 'i', 't', 'e'].len() == 6 && seq!['s', 'q', 'l', 'i', 't', 'e'][0] == 's' && seq!['s', 'q', 'l', 'i', 't', 'e'][1] == 'q' && seq!['s', 'q', 'l', 'i', 't', 'e'][2] == 'l' && seq!['s', 'q', 'l', 'i', 't', 'e'][3] == 'i' && seq!['s', 'q', 'l', 'i', 't', 'e'][4] == 't' && seq!['s', 'q', 'l', 'i', 't', 'e'][5] == 'e');
    assert(lang_of_ext(seq!['s', 'q', 'l', 'i', 't', 'e']) == Lang::Binary);
    assert(seq!['p', 'a', 'c', 'k'].len() == 4 && seq!['p', 'a', 'c', 'k'][0] == 'p' && seq!['p', 'a', 'c', 'k'][1] == 'a' && seq!['p', 'a', 'c', 'k'][2] == 'c' && seq!['p', 'a', 'c', 'k'][3] == 'k');
    assert(lang_of_ext(seq!['p', 'a', 'c', 'k']) == Lang::Binary);
    assert(seq!['c', 'r', 'x'].len() == 3 && seq!['c', 'r', 'x'][0] == 'c' && seq!['c', 'r', 'x'][1] == 'r' && seq!['c', 'r', 'x'][2] == 'x');
    assert(lang_of_ext(seq!['c', 'r', 'x']) == Lang::Binary);
}

#[verifier::rlimit(60)]
proof fn lemma_table_11()
    ensures
        lang_of_ext(seq!['j', 'a', 'r']) == Lang::Binary,
        lang_of_ext(seq!['a', 'p', 'k']) == Lang::Binary,
        lang_of_ext(seq!['m', 'p', '4']) == Lang::Binary,
        lang_of_ext(seq!['m', 'p', '3']) == Lang::Binary,
        lang_of_ext(seq!['m', 'o', 'v']) == Lang::Binary,
        lang_of_ext(seq!['w', 'e', 'b', 'm']) == Lang::Binary,
        lang_of_ext(seq!['w', 'a', 'v']) == Lang::Binary,
        lang_of_ext(seq!['f', 'l', 'a', 'c']) == Lang::Binary,
{
    assert(seq!['j', 'a', 'r'].len() == 3 && seq!['j', 'a', 'r'][0] == 'j' && seq!['j', 'a', 'r'][1] == 'a' && seq!['j', 'a', 'r'][2] == 'r');
    assert(lang_of_ext(seq!['j', 'a', 'r']) == Lang::Binary);
    assert(seq!['a', 'p', 'k'].len() == 3 && seq!['a', 'p', 'k'][0] == 'a' && seq!['a', 'p', 'k'][1] == 'p' && seq!['a', 'p', 'k'][2] == 'k');
    assert(lang_of_ext(seq!['a', 'p', 'k']) == Lang::Binary);
    assert(seq!['m', 'p', '4'].len() == 3 && seq!['m', 'p', '4'][0] == 'm' && seq!['m', 'p', '4'][1] == 'p' && seq!['m', 'p', '4'][2] == '4');
    assert(lang_of_ext(seq!['m', 'p', '4']) == Lang::Binary);
    assert(seq!['m', 'p', '3'].len() == 3 && seq!['m', 'p', '3'][0] == 'm' && seq!['m', 'p', '3'][1] == 'p' && seq!['m', 'p', '3'][2] == '3');
    assert(lang_of_ext(seq!['m', 'p', '3']) == Lang::Binary);
    assert(seq!['m', 'o', 'v'].len() == 3 && seq!['m', 'o', 'v'][0] == 'm' && seq!['m', 'o', 'v'][1] == 'o' && seq!['m', 'o', 'v'][2] == 'v');
    assert(lang_of_ext(seq!['m', 'o', 'v']) == Lang::Binary);
    assert(seq!['w', 'e', 'b', 'm'].len() == 4 && seq!['w', 'e', 'b', 'm'][0] == 'w' && seq!['w', 'e', 'b', 'm'][1] == 'e' && seq!['w', 'e', 'b', 'm'][2] == 'b' && seq!['w', 'e', 'b', 'm'][3] == 'm');
    assert(lang_of_ext(seq!['w', 'e', 'b', 'm']) == Lang::Binary);
    assert(seq!['w', 'a', 'v'].len() == 3 && seq!['w', 'a', 'v'][0] == 'w' && seq!['w', 'a', 'v'][1] == 'a' && seq!['w', 'a', 'v'][2] == 'v');
    assert(lang_of_ext(seq!['w', 'a', 'v']) == Lang::Binary);
    assert(seq!['f', 'l', 'a', 'c'].len() == 4 && seq!['f', 'l', 'a', 'c'][0] == 'f' && seq!['f', 'l', 'a', 'c'][1] == 'l' && seq!['f', 'l', 'a', 'c'][2] == 'a' && seq!['f', 'l', 'a', 'c'][3] == 'c');
    assert(lang_of_ext(seq!['f', 'l', 'a', 'c']) == Lang::Binary);
}

#[verifier::rlimit(60)]
proof fn lemma_table_12()
    ensures
        lang_of_ext(seq!['o', 'g', 'g']) == Lang::Binary,
        lang_of_ext(seq!['p', 'y', 'c']) == Lang::Binary,
        lang_of_ext(seq!['p', 'y', 'o']) == Lang::Binary,
        lang_of_ext(seq!['c', 'l', 'a', 's', 's']) == Lang::Binary,
        lang_of_ext(seq!['d', 'e', 'x']) == Lang::Binary,
        lang_of_ext(seq!['p', 'a', 'k']) == Lang::Binary,
        lang_of_ext(seq!['i', 'd', 'x']) == Lang::Binary,
        lang_of_ext(seq!['d', 'i', 'c']) == Lang::Binary,
{
    assert(seq!['o', 'g', 'g'].len() == 3 && seq!['o', 'g', 'g'][0] == 'o' && seq!['o', 'g', 'g'][1] == 'g' && seq!['o', 'g', 'g'][2] == 'g');
    assert(lang_of_ext(seq!['o', 'g', 'g']) == Lang::Binary);
    assert(seq!['p', 'y', 'c'].len() == 3 && seq!['p', 'y', 'c'][0] == 'p' && seq!['p', 'y', 'c'][1] == 'y' && seq!['p', 'y', 'c'][2] == 'c');
    assert(lang_of_ext(seq!['p', 'y', 'c']) == Lang::Binary);
    assert(seq!['p', 'y', 'o'].len() == 3 && seq!['p', 'y', 'o'][0] == 'p' && seq!['p', 'y', 'o'][1] == 'y' && seq!['p', 'y', 'o'][2] == 'o');
    assert(lang_of_ext(seq!['p', 'y', 'o']) == Lang::Binary);
    assert(seq!['c', 'l', 'a', 's', 's'].len() == 5 && seq!['c', 'l', 'a', 's', 's'][0] == 'c' && seq!['c', 'l', 'a', 's', 's'][1] == 'l' && seq!['c', 'l', 'a', 's', 's'][2] == 'a' && seq!['c', 'l', 'a', 's', 's'][3] == 's' && seq!['c', 'l', 'a', 's', 's'][4] == 's');
    assert(lang_of_ext(seq!['c', 'l', 'a', 's', 's']) == Lang::Binary);
    assert(seq!['d', 'e', 'x'].len() == 3 && seq!['d', 'e', 'x'][0] == 'd' && seq!['d', 'e', 'x'][1] == 'e' && seq!['d', 'e', 'x'][2] == 'x');
    assert(lang_of_ext(seq!['d', 'e', 'x']) == Lang::Binary);
    assert(seq!['p', 'a', 'k'].len() == 3 && seq!['p', 'a', 'k'][0] == 'p' && seq!['p', 'a', 'k'][1] == 'a' && seq!['p', 'a', 'k'][2] == 'k');
    assert(lang_of_ext(seq!['p', 'a', 'k']) == Lang::Binary);
    assert(seq!['i', 'd', 'x'].len() == 3 && seq!['i', 'd', 'x'][0] == 'i' && seq!['i', 'd', 'x'][1] == 'd' && seq!['i', 'd', 'x'][2] == 'x');
    assert(lang_of_ext(seq!['i', 'd', 'x']) == Lang::Binary);
    assert(seq!['d', 'i', 'c'].len() == 3 && seq!['d', 'i', 'c'][0] == 'd' && seq!['d', 'i', 'c'][1] == 'i' && seq!['d', 'i', 'c'][2] == 'c');
    assert(lang_of_ext(seq!['d', 'i', 'c']) == Lang::Binary);
}

#[verifier::rlimit(60)]
proof fn lemma_table_13()
    ensures
        lang_of_ext(seq!['r', 'a', 'w']) == Lang::Binary,
        lang_of_ext(seq!['p', 'b']) == Lang::Binary,
        lang_of_ext(seq!['t', 'f', 'l', 'i', 't', 'e']) == Lang::Binary,
        lang_of_ext(seq!['o', 'n', 'n', 'x']) == Lang::Binary,
        lang_of_ext(seq!['p', 'b', 'm', 'm']) == Lang::Binary,
{
    assert(seq!['r', 'a', 'w'].len() == 3 && seq!['r', 'a', 'w'][0] == 'r' && seq!['r', 'a', 'w'][1] == 'a' && seq!['r', 'a', 'w'][2] == 'w');
    assert(lang_of_ext(seq!['r', 'a', 'w']) == Lang::Binary);
    assert(seq!['p', 'b'].len() == 2 && seq!['p', 'b'][0] == 'p' && seq!['p', 'b'][1] == 'b');
    assert(lang_of_ext(seq!['p', 'b']) == Lang::Binary);
    assert(seq!['t', 'f', 'l', 'i', 't', 'e'].len() == 6 && seq!['t', 'f', 'l', 'i', 't', 'e'][0] == 't' && seq!['t', 'f', 'l', 'i', 't', 'e'][1] == 'f' && seq!['t', 'f', 'l', 'i', 't', 'e'][2] == 'l' && seq!['t', 'f', 'l', 'i', 't', 'e'][3] == 'i' && seq!['t', 'f', 'l', 'i', 't', 'e'][4] == 't' && seq!['t', 'f', 'l', 'i', 't', 'e'][5] == 'e');
    assert(lang_of_ext(seq!['t', 'f', 'l', 'i', 't', 'e']) == Lang::Binary);
    assert(seq!['o', 'n', 'n', 'x'].len() == 4 && seq!['o', 'n', 'n', 'x'][0] == 'o' && seq!['o', 'n', 'n', 'x'][1] == 'n' && seq!['o', 'n', 'n', 'x'][2] == 'n' && seq!['o', 'n', 'n', 'x'][3] == 'x');
    assert(lang_of_ext(seq!['o', 'n', 'n', 'x']) == Lang::Binary);
    assert(seq!['p', 'b', 'm', 'm'].len() == 4 && seq!['p', 'b', 'm', 'm'][0] == 'p' && seq!['p', 'b', 'm', 'm'][1] == 'b' && seq!['p', 'b', 'm', 'm'][2] == 'm' && seq!['p', 'b', 'm', 'm'][3] == 'm');
    assert(lang_of_ext(seq!['p', 'b', 'm', 'm']) == Lang::Binary);
}

/// `p` names a file whose extension, lower-cased, is `e`.
pub open spec fn has_ext(p: Seq<char>, e: Seq<char>) -> bool {
    path_extension(p) matches Some(x) && lower(x) == e
}

/// The kind of every extension of the table.
pub proof fn law_extension_table()
    ensures
        lang_of_ext(seq!['c', 'c']) == Lang::Cpp,
        lang_of_ext(seq!['c', 'p', 'p']) == Lang::Cpp,
        lang_of_ext(seq!['c', 'x', 'x']) == Lang::Cpp,
        lang_of_ext(seq!['c', '+', '+']) == Lang::Cpp,
        lang_of_ext(seq!['m', 'm']) == Lang::Cpp,
        lang_of_ext(seq!['m']) == Lang::Cpp,
        lang_of_ext(seq!['c']) == Lang::C,
        lang_of_ext(seq!['h']) == Lang::Header,
        lang_of_ext(seq!['h', 'h']) == Lang::Header,
        lang_of_ext(seq!['h', 'p', 'p']) == Lang::Header,
        lang_of_ext(seq!['h', 'x', 'x']) == Lang::Header,
        lang_of_ext(seq!['h', '+', '+']) == Lang::Header,
        lang_of_ext(seq!['r', 's']) == Lang::Rust,
        lang_of_ext(seq!['p', 'y']) == Lang::Python,
        lang_of_ext(seq!['j', 'a', 'v', 'a']) == Lang::Java,
        lang_of_ext(seq!['k', 't']) == Lang::Java,
        lang_of_ext(seq!['k', 't', 's']) == Lang::Java,
        lang_of_ext(seq!['j', 's']) == Lang::Js,
        lang_of_ext(seq!['m', 'j', 's']) == Lang::Js,
        lang_of_ext(seq!['c', 'j', 's']) == Lang::Js,
        lang_of_ext(seq!['j', 's', 'x']) == Lang::Js,
        lang_of_ext(seq!['t', 's']) == Lang::Ts,
        lang_of_ext(seq!['t', 's', 'x']) == Lang::Ts,
        lang_of_ext(seq!['g', 'o']) == Lang::Go,
        lang_of_ext(seq!['c', 's', 's']) == Lang::Css,
        lang_of_ext(seq!['s', 'c', 's', 's']) == Lang::Css,
        lang_of_ext(seq!['l', 'e', 's', 's']) == Lang::Css,
        lang_of_ext(seq!['h', 't', 'm', 'l']) == Lang::Html,
        lang_of_ext(seq!['h', 't', 'm']) == Lang::Html,
        lang_of_ext(seq!['x', 'm', 'l']) == Lang::Html,
        lang_of_ext(seq!['s', 'v', 'g']) == Lang::Html,
        lang_of_ext(seq!['j', 's', 'o', 'n']) == Lang::Json,
        lang_of_ext(seq!['j', 's', 'o', 'n', '5']) == Lang::Json,
        lang_of_ext(seq!['y', 'a', 'm', 'l']) == Lang::Json,
        lang_of_ext(seq!['y', 'm', 'l']) == Lang::Json,
        lang_of_ext(seq!['t', 'o', 'm', 'l']) == Lang::Json,
        lang_of_ext(seq!['i', 'n', 'i']) == Lang::Json,
        lang_of_ext(seq!['m', 'd']) == Lang::Markdown,
        lang_of_ext(seq!['r', 's', 't']) == Lang::Markdown,
        lang_of_ext(seq!['t', 'x', 't']) == Lang::Markdown,
        lang_of_ext(seq!['g', 'n']) == Lang::Build,
        lang_of_ext(seq!['g', 'n', 'i']) == Lang::Build,
        lang_of_ext(seq!['b', 'p']) == Lang::Build,
        lang_of_ext(seq!['m', 'k']) == Lang::Build,
        lang_of_ext(seq!['c', 'm', 'a', 'k', 'e']) == Lang::Build,
        lang_of_ext(seq!['b', 'z', 'l']) == Lang::Build,
        lang_of_ext(seq!['s', 'h']) == Lang::Build,
        lang_of_ext(seq!['b', 'a', 't']) == Lang::Build,
        lang_of_ext(seq!['p', 's', '1']) == Lang::Build,
        lang_of_ext(seq!['p', 'n', 'g']) == Lang::Binary,
        lang_of_ext(seq!['j', 'p', 'g']) == Lang::Binary,
        lang_of_ext(seq!['j', 'p', 'e', 'g']) == Lang::Binary,
        lang_of_ext(seq!['g', 'i', 'f']) == Lang::Binary,
        lang_of_ext(seq!['i', 'c', 'o']) == Lang::Binary,
        lang_of_ext(seq!['w', 'e', 'b', 'p']) == Lang::Binary,
        lang_of_ext(seq!['a', 'v', 'i', 'f']) == Lang::Binary,
        lang_of_ext(seq!['b', 'm', 'p']) == Lang::Binary,
        lang_of_ext(seq!['i', 'c', 'n', 's']) == Lang::Binary,
        lang_of_ext(seq!['p', 's', 'd']) == Lang::Binary,
        lang_of_ext(seq!['w', 'o', 'f', 'f']) == Lang::Binary,
        lang_of_ext(seq!['w', 'o', 'f', 'f', '2']) == Lang::Binary,
        lang_of_ext(seq!['t', 't', 'f']) == Lang::Binary,
        lang_of_ext(seq!['o', 't', 'f']) == Lang::Binary,
        lang_of_ext(seq!['e', 'o', 't']) == Lang::Binary,
        lang_of_ext(seq!['z', 'i', 'p']) == Lang::Binary,
        lang_of_ext(seq!['g', 'z']) == Lang::Binary,
        lang_of_ext(seq!['b', 'z', '2']) == Lang::Binary,
        lang_of_ext(seq!['x', 'z']) == Lang::Binary,
        lang_of_ext(seq!['z', 's', 't']) == Lang::Binary,
        lang_of_ext(seq!['7', 'z']) == Lang::Binary,
        lang_of_ext(seq!['r', 'a', 'r']) == Lang::Binary,
        lang_of_ext(seq!['t', 'a', 'r']) == Lang::Binary,
        lang_of_ext(seq!['p', 'd', 'f']) == Lang::Binary,
        lang_of_ext(seq!['w', 'a', 's', 'm']) == Lang::Binary,
        lang_of_ext(seq!['e', 'x', 'e']) == Lang::Binary,
        lang_of_ext(seq!['d', 'l', 'l']) == Lang::Binary,
        lang_of_ext(seq!['s', 'o']) == Lang::Binary,
        lang_of_ext(seq!['d', 'y', 'l', 'i', 'b']) == Lang::Binary,
        lang_of_ext(seq!['a']) == Lang::Binary,
        lang_of_ext(seq!['o']) == Lang::Binary,
        lang_of_ext(seq!['o', 'b', 'j']) == Lang::Binary,
        lang_of_ext(seq!['l', 'i', 'b']) == Lang::Binary,
        lang_of_ext(seq!['b', 'i', 'n']) == Lang::Binary,
        lang_of_ext(seq!['d', 'a', 't']) == Lang::Binary,
        lang_of_ext(seq!['d', 'b']) == Lang::Binary,
        lang_of_ext(seq!['s', 'q', 'l', 'i', 't', 'e']) == Lang::Binary,
        lang_of_ext(seq!['p', 'a', 'c', 'k']) == Lang::Binary,
        lang_of_ext(seq!['c', 'r', 'x']) == Lang::Binary,
        lang_of_ext(seq!['j', 'a', 'r']) == Lang::Binary,
        lang_of_ext(seq!['a', 'p', 'k']) == Lang::Binary,
        lang_of_ext(seq!['m', 'p', '4']) == Lang::Binary,
        lang_of_ext(seq!['m', 'p', '3']) == Lang::Binary,
        lang_of_ext(seq!['m', 'o', 'v']) == Lang::Binary,
        lang_of_ext(seq!['w', 'e', 'b', 'm']) == Lang::Binary,
        lang_of_ext(seq!['w', 'a', 'v']) == Lang::Binary,
        lang_of_ext(seq!['f', 'l', 'a', 'c']) == Lang::Binary,
        lang_of_ext(seq!['o', 'g', 'g']) == Lang::Binary,
        lang_of_ext(seq!['p', 'y', 'c']) == Lang::Binary,
        lang_of_ext(seq!['p', 'y', 'o']) == Lang::Binary,
        lang_of_ext(seq!['c', 'l', 'a', 's', 's']) == Lang::Binary,
        lang_of_ext(seq!['d', 'e', 'x']) == Lang::Binary,
        lang_of_ext(seq!['p', 'a', 'k']) == Lang::Binary,
        lang_of_ext(seq!['i', 'd', 'x']) == Lang::Binary,
        lang_of_ext(seq!['d', 'i', 'c']) == Lang::Binary,
        lang_of_ext(seq!['r', 'a', 'w']) == Lang::Binary,
        lang_of_ext(seq!['p', 'b']) == Lang::Binary,
        lang_of_ext(seq!['t', 'f', 'l', 'i', 't', 'e']) == Lang::Binary,
        lang_of_ext(seq!['o', 'n', 'n', 'x']) == Lang::Binary,
        lang_of_ext(seq!['p', 'b', 'm', 'm']) == Lang::Binary,
{
    lemma_table_0();
    lemma_table_1();
    lemma_table_2();
    lemma_table_3();
    lemma_table_4();
    lemma_table_5();
    lemma_table_6();
    lemma_table_7();
    lemma_table_8();
    lemma_table_9();
    lemma_table_10();
    lemma_table_11();
    lemma_table_12();
    lemma_table_13();
}

/// A path's kind is the kind of its lower-cased extension, whatever the
/// rest of the path and the case of the extension's letters; a path without
/// an extension is `Other`, and no path is taken for plain text.
pub proof fn law_kind_by_extension(p: Seq<char>, e: Seq<char>)
    ensures
        has_ext(p, e) ==> lang_of_path(p) == lang_of_ext(e),
        path_extension(p) is None ==> lang_of_path(p) == Lang::Other,
        lang_of_path(p) != Lang::Text,
{
}

fn eq_chars(e: &Vec<char>, lit: &[char]) -> (r: bool)
    ensures
        r == (e@ =~= lit@),
{
    if e.len() != lit.len() {
        return false;
    }
    let n = e.len();
    let mut t: usize = 0;
    while t < n
        invariant
            n == e@.len() == lit@.len(),
            t <= n,
            forall|j: int| 0 <= j < t ==> e@[j] == lit@[j],
        decreases n - t,
    {
        if e[t] != lit[t] {
            return false;
        }
        t = t + 1;
    }
    assert(e@ =~= lit@);
    true
}

fn lower_chars(s: &str) -> (v: Vec<char>)
    ensures
        v@ == lower(s@),
{
    let cs = chars_of(s);
    let n = cs.len();
    let mut v: Vec<char> = Vec::new();
    let mut t: usize = 0;
    while t < n
        invariant
            cs@ == s@,
            n == cs@.len(),
            t <= n,
            v@ == lower(s@).take(t as int),
        decreases n - t,
    {
        let c = cs[t];
        let l = if 'A' <= c && c <= 'Z' {
            ((c as u8) + 32) as char
        } else {
            c
        };
        v.push(l);
        t = t + 1;
        assert(v@ =~= lower(s@).take(t as int));
    }
    assert(lower(s@).take(n as int) =~= lower(s@));
    v
}

impl Lang {
    /// The kind of the file at `path`, by its extension, compared without
    /// regard to ASCII case.
    pub fn from_path(path: &str) -> (r: Lang)
        ensures
            r == lang_of_path(path@),
    {
        match extension(path) {
            Some(e) => lang_of_ext_chars(&lower_chars(e)),
            None => Lang::Other,
        }
    }

    /// Whether files of this kind hold no text worth counting.
    pub fn is_binary(self) -> (r: bool)
        ensures
            r == (self == Lang::Binary),
    {
        self == Lang::Binary
    }
}

} // verus!
