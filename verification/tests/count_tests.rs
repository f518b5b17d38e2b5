use codemap::count::{count_file, needs_read, sniff_binary, MAX_COUNT_SIZE};
use codemap::lang::Lang;

#[test]
fn counts_newlines_plus_one() {
    assert_eq!(count_file(4, Lang::Rust, Some(b"a\nb\n")), (3, false));
    assert_eq!(count_file(1, Lang::Rust, Some(b"a")), (1, false));
    assert_eq!(count_file(0, Lang::Text, Some(b"")), (1, false));
    assert_eq!(count_file(5, Lang::Other, Some(b"\n\n\n\n\n")), (6, false));
}

#[test]
fn nul_in_head_means_binary() {
    assert_eq!(count_file(4, Lang::Rust, Some(b"ab\0c")), (0, true));
    let mut late = vec![b'a'; 9000];
    late[8500] = 0;
    late[10] = b'\n';
    assert_eq!(count_file(9000, Lang::Other, Some(&late)), (2, false));
    let mut edge = vec![b'a'; 9000];
    edge[8191] = 0;
    assert_eq!(count_file(9000, Lang::Other, Some(&edge)), (0, true));
    assert!(sniff_binary(&edge));
    assert!(!sniff_binary(&late));
}

#[test]
fn unread_files_count_nothing() {
    assert_eq!(count_file(10, Lang::Rust, None), (0, false));
    assert_eq!(count_file(MAX_COUNT_SIZE + 1, Lang::Rust, Some(b"a\n")), (0, false));
    assert_eq!(count_file(10, Lang::Binary, Some(b"a\n")), (0, true));
    assert_eq!(count_file(MAX_COUNT_SIZE + 1, Lang::Binary, None), (0, true));
}

#[test]
fn what_is_read() {
    assert!(needs_read(MAX_COUNT_SIZE, Lang::Rust));
    assert!(!needs_read(MAX_COUNT_SIZE + 1, Lang::Rust));
    assert!(!needs_read(10, Lang::Binary));
    assert_eq!(MAX_COUNT_SIZE, 12 * 1024 * 1024);
}
