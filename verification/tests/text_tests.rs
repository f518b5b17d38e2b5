use codemap::cli::{args_complete, keep_entry, parse_args, parse_size, parse_u32_text, phase_label};
use codemap::code::{code_lines, code_window};
use codemap::text::sanitize;

#[test]
fn sanitize_replaces_separators() {
    assert_eq!(sanitize("a\u{2028}b\u{202b}c\t"), "a b c\t");
    assert_eq!(sanitize("\u{000b}\u{000c}\u{0085}\u{2029}\u{200e}\u{200f}\u{061c}\u{2066}\u{2069}"), "         ");
    assert_eq!(sanitize("plain\ntext"), "plain\ntext");
    assert_eq!(sanitize(&sanitize("x\u{202e}y")), sanitize("x\u{202e}y"));
}

fn args(v: &[&str]) -> Vec<String> {
    v.iter().map(|s| s.to_string()).collect()
}

#[test]
fn command_line_defaults() {
    let o = parse_args(&args(&[]));
    assert_eq!(o.repo, ".");
    assert_eq!(o.screenshot, None);
    assert_eq!(o.at, None);
    assert_eq!((o.width, o.height), (1920, 1200));
}

#[test]
fn command_line_flags() {
    let o = parse_args(&args(&["--size", "800x600", "--at", "main", "--screenshot", "out.png", "r1", "r2"]));
    assert_eq!(o.repo, "r2");
    assert_eq!(o.screenshot.as_deref(), Some("out.png"));
    assert_eq!(o.at.as_deref(), Some("main"));
    assert_eq!((o.width, o.height), (800, 600));
    let o = parse_args(&args(&["--at", "--size"]));
    assert_eq!(o.at.as_deref(), Some("--size"));
    assert_eq!((o.width, o.height), (1920, 1200));
}

#[test]
fn command_line_completeness() {
    assert!(args_complete(&args(&["repo", "--at", "x"])));
    assert!(!args_complete(&args(&["repo", "--at"])));
    assert!(!args_complete(&args(&["--screenshot"])));
    assert!(args_complete(&args(&["--at", "--at"])));
}

#[test]
fn sizes() {
    assert_eq!(parse_size("800x600"), (800, 600));
    assert_eq!(parse_size("abcx600"), (1920, 600));
    assert_eq!(parse_size("800x"), (800, 1200));
    assert_eq!(parse_size("800"), (1920, 1200));
    assert_eq!(parse_size("+800x600x"), (800, 1200));
}

#[test]
fn numbers() {
    assert_eq!(parse_u32_text("4294967295"), Some(4294967295));
    assert_eq!(parse_u32_text("4294967296"), None);
    assert_eq!(parse_u32_text("+7"), Some(7));
    assert_eq!(parse_u32_text("007"), Some(7));
    assert_eq!(parse_u32_text("+"), None);
    assert_eq!(parse_u32_text(""), None);
    assert_eq!(parse_u32_text("-1"), None);
    assert_eq!(parse_u32_text("1 "), None);
    for s in ["0", "12", "+3", "99999999999", "1x", "+", "-0"] {
        assert_eq!(parse_u32_text(s), s.parse::<u32>().ok());
    }
}

#[test]
fn walk_filter() {
    assert!(!keep_entry(true, ".git"));
    assert!(!keep_entry(true, "node_modules"));
    assert!(!keep_entry(true, "__pycache__"));
    assert!(!keep_entry(true, "venv"));
    assert!(keep_entry(false, ".git"));
    assert!(keep_entry(true, "src"));
    assert!(keep_entry(true, ".github"));
}

#[test]
fn phases() {
    assert_eq!(phase_label(0), "walking files");
    assert_eq!(phase_label(1), "walking files");
    assert_eq!(phase_label(2), "counting lines");
    assert_eq!(phase_label(3), "building layout");
    assert_eq!(phase_label(9), "finishing");
}

#[test]
fn code_lines_like_str_lines() {
    assert_eq!(code_lines("a\tb\r\nc\n"), vec!["a    b", "c"]);
    assert_eq!(code_lines(""), vec![""]);
    assert_eq!(code_lines("x\r"), vec!["x\r"]);
    assert_eq!(code_lines("\n\n"), vec!["", ""]);
    let many = "l\n".repeat(4100);
    assert_eq!(code_lines(&many).len(), 4000);
    let text = "foo\nbar\n\r\nbaz\r";
    let std_lines: Vec<String> = text.lines().map(|l| l.replace('\t', "    ")).collect();
    assert_eq!(code_lines(text), std_lines);
}

#[test]
fn code_windows() {
    let lines: Vec<String> = vec!["".to_string(), "a".to_string(), "b".to_string()];
    assert_eq!(code_window(&lines, 0, 10), Some("a\nb".to_string()));
    assert_eq!(code_window(&lines, 1, 1), Some("a".to_string()));
    assert_eq!(code_window(&lines, 1, 5), Some("a\nb".to_string()));
    assert_eq!(code_window(&lines, 3, 1), None);
    assert_eq!(code_window(&lines, 2, 0), Some("".to_string()));
}
