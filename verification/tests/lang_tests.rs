use codemap::lang::Lang;
use codemap::paths::{extension, file_name, parent, starts_with};

#[test]
fn kinds_by_extension() {
    assert_eq!(Lang::from_path("src/main.rs"), Lang::Rust);
    assert_eq!(Lang::from_path("a/b/main.RS"), Lang::Rust);
    assert_eq!(Lang::from_path("x.tar.gz"), Lang::Binary);
    assert_eq!(Lang::from_path("w.cc"), Lang::Cpp);
    assert_eq!(Lang::from_path("w.c++"), Lang::Cpp);
    assert_eq!(Lang::from_path("w.m"), Lang::Cpp);
    assert_eq!(Lang::from_path("w.C"), Lang::C);
    assert_eq!(Lang::from_path("w.H"), Lang::Header);
    assert_eq!(Lang::from_path("w.hpp"), Lang::Header);
    assert_eq!(Lang::from_path("w.py"), Lang::Python);
    assert_eq!(Lang::from_path("w.kts"), Lang::Java);
    assert_eq!(Lang::from_path("w.mjs"), Lang::Js);
    assert_eq!(Lang::from_path("w.tsx"), Lang::Ts);
    assert_eq!(Lang::from_path("w.go"), Lang::Go);
    assert_eq!(Lang::from_path("w.scss"), Lang::Css);
    assert_eq!(Lang::from_path("w.svg"), Lang::Html);
    assert_eq!(Lang::from_path("w.json5"), Lang::Json);
    assert_eq!(Lang::from_path("w.toml"), Lang::Json);
    assert_eq!(Lang::from_path("w.txt"), Lang::Markdown);
    assert_eq!(Lang::from_path("BUILD.gn"), Lang::Build);
    assert_eq!(Lang::from_path("run.ps1"), Lang::Build);
    assert_eq!(Lang::from_path("model.pbmm"), Lang::Binary);
    assert_eq!(Lang::from_path("x.7z"), Lang::Binary);
}

#[test]
fn kinds_without_known_extension() {
    assert_eq!(Lang::from_path("Makefile"), Lang::Other);
    assert_eq!(Lang::from_path(".bashrc"), Lang::Other);
    assert_eq!(Lang::from_path("foo."), Lang::Other);
    assert_eq!(Lang::from_path("dir.rs/file"), Lang::Other);
    assert_eq!(Lang::from_path("w.xyz"), Lang::Other);
    assert_eq!(Lang::from_path(""), Lang::Other);
    assert_eq!(Lang::from_path("a/.."), Lang::Other);
    assert_eq!(Lang::from_path("..bashrc"), Lang::Other);
    assert_eq!(Lang::from_path("..rs"), Lang::Rust);
}

#[test]
fn binary_kind() {
    assert!(Lang::Binary.is_binary());
    assert!(!Lang::Rust.is_binary());
    assert!(!Lang::Other.is_binary());
}

#[test]
fn parents() {
    assert_eq!(parent("/a/b"), Some("/a"));
    assert_eq!(parent("/a"), Some("/"));
    assert_eq!(parent("/"), None);
    assert_eq!(parent("a"), Some(""));
    assert_eq!(parent("a/b"), Some("a"));
    assert_eq!(parent(""), None);
}

#[test]
fn file_names() {
    assert_eq!(file_name("/a/b.rs"), Some("b.rs"));
    assert_eq!(file_name("b.rs"), Some("b.rs"));
    assert_eq!(file_name("/"), None);
    assert_eq!(file_name("a/.."), None);
    assert_eq!(file_name("."), None);
    assert_eq!(file_name(""), None);
}

#[test]
fn extensions() {
    assert_eq!(extension("a/b.tar.gz"), Some("gz"));
    assert_eq!(extension("a/.bashrc"), None);
    assert_eq!(extension("a/b."), Some(""));
    assert_eq!(extension("a.b/c"), None);
}

#[test]
fn path_prefixes() {
    assert!(starts_with("/a/b/c", "/a/b"));
    assert!(starts_with("/a/b", "/a/b"));
    assert!(!starts_with("/a/bc", "/a/b"));
    assert!(!starts_with("/a", "/a/b"));
    assert!(starts_with("/a", "/"));
    assert!(starts_with("x", ""));
}

#[test]
fn trailing_separators_and_dots_are_not_components() {
    assert_eq!(parent("/r/a/"), Some("/r"));
    assert_eq!(parent("/r/a/."), Some("/r"));
    assert_eq!(parent("a//b"), Some("a"));
    assert_eq!(parent("a/./b"), Some("a"));
    assert_eq!(parent("./a"), Some("."));
    assert_eq!(parent("/a/"), Some("/"));
    assert_eq!(parent("//"), None);
    assert_eq!(file_name("/r/a/"), Some("a"));
    assert_eq!(file_name("a/."), Some("a"));
    assert_eq!(file_name("/."), None);
    assert_eq!(extension("x.rs/"), Some("rs"));
    assert_eq!(Lang::from_path("x.rs/"), Lang::Rust);
    assert_eq!(Lang::from_path("y.RS"), Lang::from_path("x.rs/"));
    assert!(starts_with("/r", "/r/"));
    assert!(starts_with("/r/a/", "/r"));
    assert!(starts_with("/r/./a", "/r/."));
}
