use codemap::lang::Lang;
use codemap::render::{build_metrics, line_class, line_entry, stroke_count, strokes, LineCache, Stroke};

#[test]
fn classes_of_lines() {
    assert_eq!(line_class(b"   // c", Lang::Rust), 1);
    assert_eq!(line_class(b"/* c */", Lang::C), 1);
    assert_eq!(line_class(b" * doc", Lang::C), 1);
    assert_eq!(line_class(b"\t# x", Lang::Python), 1);
    assert_eq!(line_class(b"# title", Lang::Markdown), 1);
    assert_eq!(line_class(b"#include <x>", Lang::Cpp), 2);
    assert_eq!(line_class(b"   ", Lang::Rust), 0);
    assert_eq!(line_class(b"", Lang::Rust), 0);
    assert_eq!(line_class(b"code", Lang::Rust), 3);
    assert_eq!(line_class(b"/x", Lang::Rust), 3);
    assert_eq!(line_class(b"/", Lang::Rust), 3);
}

#[test]
fn entries_pack_class_indent_length() {
    assert_eq!(line_entry(b"fn main() {", Lang::Rust), (3 << 28) | 11);
    assert_eq!(line_entry(b"    x", Lang::Rust), (3 << 28) | (4 << 16) | 5);
    assert_eq!(line_entry(b"\t\tx", Lang::Rust), (3 << 28) | (8 << 16) | 3);
    let long = vec![b' '; 70000];
    assert_eq!(line_entry(&long, Lang::Rust), (4095 << 16) | 65535);
}

#[test]
fn metrics_of_a_small_file() {
    let m = build_metrics(Some(b"fn main() {\n    x\n}"), Lang::Rust);
    assert_eq!(m.lines, vec![(3 << 28) | 11, (3 << 28) | (4 << 16) | 5, (3 << 28) | 1]);
    assert_eq!(m.max_len, 11);
    let e = m.lines[1];
    assert_eq!(e >> 28, 3);
    assert_eq!((e >> 16) & 0xfff, 4);
    assert_eq!(e & 0xffff, 5);
}

#[test]
fn metrics_of_unreadable_and_empty() {
    let m = build_metrics(None, Lang::Rust);
    assert_eq!(m.lines, Vec::<u32>::new());
    assert_eq!(m.max_len, 1);
    let m = build_metrics(Some(b""), Lang::Rust);
    assert_eq!(m.lines, vec![0]);
    assert_eq!(m.max_len, 1);
    let m = build_metrics(Some(b"x\n"), Lang::Rust);
    assert_eq!(m.lines, vec![(3 << 28) | 1, 0]);
}

#[test]
fn long_files_are_thinned() {
    let data = vec![b'\n'; 100000];
    let m = build_metrics(Some(&data), Lang::Rust);
    assert_eq!(m.lines.len(), 50001);
    let data = vec![b'\n'; 60000];
    let m = build_metrics(Some(&data), Lang::Rust);
    assert_eq!(m.lines.len(), 60001);
    let mut data = Vec::new();
    for k in 0..150000u32 {
        data.extend_from_slice(if k % 3 == 0 { b"abc\n" } else { b"\n" });
    }
    let m = build_metrics(Some(&data), Lang::Rust);
    // 150001 lines, stride 3: every kept line is an "abc" line.
    assert_eq!(m.lines.len(), 50001);
    assert_eq!(m.lines[1], (3 << 28) | 3);
    assert_eq!(m.max_len, 3);
}

fn text_of_len(n: usize) -> Vec<u8> {
    vec![b'a'; n]
}

#[test]
fn cache_gives_back_what_was_put() {
    let mut c = LineCache::new();
    assert!(c.get(7).is_none());
    let a = c.insert(7, Some(b"abc"), Lang::Text);
    assert_eq!(a.max_len, 3);
    assert_eq!(c.get(7).unwrap().max_len, 3);
    c.insert(7, Some(b"abcd"), Lang::Text);
    assert_eq!(c.get(7).unwrap().max_len, 4);
}

#[test]
fn cache_holds_what_build_metrics_gives() {
    let mut c = LineCache::new();
    let data = b"fn main() {\n    x();\n}\n";
    c.insert(3, Some(data), Lang::Rust);
    let m = build_metrics(Some(data), Lang::Rust);
    let got = c.get(3).unwrap();
    assert_eq!(got.lines, m.lines);
    assert_eq!(got.max_len, m.max_len);
    c.insert(4, None, Lang::Rust);
    assert!(c.get(4).unwrap().lines.is_empty());
    assert_eq!(c.get(4).unwrap().max_len, 1);
}

#[test]
fn cache_drops_the_oldest() {
    let mut c = LineCache::new();
    for n in 0..96usize {
        c.insert(n, Some(&text_of_len(n)), Lang::Text);
    }
    assert!(c.get(0).is_some());
    c.insert(96, Some(&text_of_len(96)), Lang::Text);
    assert!(c.get(0).is_none());
    assert!(c.get(1).is_some());
    assert_eq!(c.get(96).unwrap().max_len, 96);
    c.get(1);
    c.insert(97, Some(&text_of_len(97)), Lang::Text);
    assert!(c.get(1).is_none());
    assert!(c.get(2).is_some());
}

#[test]
fn strokes_spread_over_the_outline() {
    let lines = vec![(3 << 28) | 5, 0, (1 << 28) | (2 << 16) | 7, (2 << 28) | 3];
    let all = strokes(&lines, 4);
    assert_eq!(
        all,
        vec![
            Stroke { row: 0, class: 3, indent: 0, len: 5 },
            Stroke { row: 2, class: 1, indent: 2, len: 7 },
            Stroke { row: 3, class: 2, indent: 0, len: 3 },
        ]
    );
    let half = strokes(&lines, 2);
    assert_eq!(
        half,
        vec![Stroke { row: 0, class: 3, indent: 0, len: 5 }, Stroke { row: 1, class: 1, indent: 2, len: 7 }]
    );
    assert_eq!(stroke_count(10, 5, 100), 5);
    assert_eq!(stroke_count(3, 5, 100), 3);
    assert_eq!(stroke_count(10, 5, 2), 2);
}
