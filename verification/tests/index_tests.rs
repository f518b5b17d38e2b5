use codemap::builder::{EntryKind, IndexBuilder};
use codemap::index::{aggregate, find_file, node_name, node_path, set_own_weights, Node, Scene, Stats};
use codemap::tree::BNode;
use codemap::lang::Lang;

fn sample_builder() -> IndexBuilder {
    let mut b = IndexBuilder::new("/r");
    b.add_entry("/r/src", EntryKind::Dir, 0, "src".to_string());
    b.add_entry("/r/src/main.rs", EntryKind::File, 100, "main.rs".to_string());
    b.add_entry("/r/src/lib.rs", EntryKind::File, 50, "lib.rs".to_string());
    b.add_entry("/r/README.md", EntryKind::File, 10, "README.md".to_string());
    b.add_entry("/r/img.png", EntryKind::File, 5000, "img.png".to_string());
    b
}

fn sample_scene() -> Scene {
    let mut b = sample_builder();
    assert_eq!(b.file_count(), 4);
    b.set_counted(0, 10, false);
    b.set_counted(1, 3, false);
    b.set_counted(2, 0, false);
    b.set_counted(3, 0, true);
    b.finish().expect("fits")
}

#[test]
fn builder_creates_nodes_in_walk_order() {
    let b = sample_builder();
    assert_eq!(b.node_count(), 6);
    assert_eq!(b.file_count(), 4);
    let (p, bytes, lang) = b.file_info(0);
    assert_eq!(p, "/r/src/main.rs");
    assert_eq!(bytes, 100);
    assert_eq!(lang, Lang::Rust);
    let (p, _, lang) = b.file_info(3);
    assert_eq!(p, "/r/img.png");
    assert_eq!(lang, Lang::Binary);
}

#[test]
fn builder_makes_missing_ancestors() {
    let mut b = IndexBuilder::new("/r");
    b.add_entry("/r/a/b/c.py", EntryKind::File, 1, "c.py".to_string());
    // "/r/a" and "/r/a/b" are made on the way.
    assert_eq!(b.node_count(), 4);
    assert_eq!(b.file_count(), 1);
    let s = b.finish().unwrap();
    let names: Vec<&str> = s.nodes.iter().map(|n| node_name(&s, n)).collect();
    assert_eq!(names, vec!["r", "a", "b", "c.py"]);
    let depths: Vec<u16> = s.nodes.iter().map(|n| n.depth).collect();
    assert_eq!(depths, vec![0, 1, 2, 3]);
}

#[test]
fn builder_skips_entries_outside_root() {
    let mut b = IndexBuilder::new("/r");
    b.add_entry("/elsewhere/x.rs", EntryKind::File, 1, "x.rs".to_string());
    b.add_entry("/rr/y.rs", EntryKind::File, 1, "y.rs".to_string());
    assert_eq!(b.node_count(), 1);
    assert_eq!(b.file_count(), 0);
}

#[test]
fn builder_skips_other_kinds() {
    let mut b = IndexBuilder::new("/r");
    b.add_entry("/r/link", EntryKind::Other, 0, "link".to_string());
    assert_eq!(b.node_count(), 1);
    assert_eq!(b.file_count(), 0);
}

#[test]
fn root_name_is_last_component() {
    let b = IndexBuilder::new("/home/me/repo");
    let s = b.finish().unwrap();
    assert_eq!(node_name(&s, &s.nodes[0]), "repo");
    assert_eq!(node_path(&s, &s.nodes[0]), "/home/me/repo");
    let b = IndexBuilder::new("/");
    let s = b.finish().unwrap();
    assert_eq!(node_name(&s, &s.nodes[0]), "/");
}

#[test]
fn scene_is_heaviest_first_preorder() {
    let s = sample_scene();
    assert_eq!(s.root, 0);
    assert_eq!(s.nodes.len(), 6);
    let names: Vec<&str> = s.nodes.iter().map(|n| node_name(&s, n)).collect();
    assert_eq!(names, vec!["r", "src", "main.rs", "lib.rs", "README.md", "img.png"]);
    let paths: Vec<&str> = s.nodes.iter().map(|n| node_path(&s, n)).collect();
    assert_eq!(paths, vec!["/r", "/r/src", "/r/src/main.rs", "/r/src/lib.rs", "/r/README.md", "/r/img.png"]);
    let depths: Vec<u16> = s.nodes.iter().map(|n| n.depth).collect();
    assert_eq!(depths, vec![0, 1, 2, 2, 1, 1]);
    let dirs: Vec<bool> = s.nodes.iter().map(|n| n.is_dir).collect();
    assert_eq!(dirs, vec![true, true, false, false, false, false]);
}

#[test]
fn scene_weights_are_subtree_sums() {
    let s = sample_scene();
    // In fortieths of a line: 10 lines, 3 lines, a 10-byte file counted as
    // one line, a binary file counted as one line.
    let weights: Vec<u64> = s.nodes.iter().map(|n| n.weight).collect();
    assert_eq!(weights, vec![600, 520, 400, 120, 40, 40]);
}

#[test]
fn scene_children_lists() {
    let s = sample_scene();
    let kids = |p: usize| -> Vec<u32> {
        let n = &s.nodes[p];
        s.children_ids[n.children_start as usize..(n.children_start + n.children_count) as usize].to_vec()
    };
    assert_eq!(kids(0), vec![1, 4, 5]);
    assert_eq!(kids(1), vec![2, 3]);
    assert_eq!(kids(2), Vec::<u32>::new());
}

#[test]
fn scene_stats() {
    let s = sample_scene();
    assert_eq!(s.stats.files, 4);
    assert_eq!(s.stats.dirs, 2);
    assert_eq!(s.stats.lines, 13);
    assert_eq!(s.stats.bytes, 5160);
    assert_eq!((s.stats.files + s.stats.dirs) as usize, s.nodes.len());
}

#[test]
fn scene_marks_counted_binary() {
    let mut b = IndexBuilder::new("/r");
    b.add_entry("/r/data.txt", EntryKind::File, 100, "data.txt".to_string());
    b.set_counted(0, 0, true);
    let s = b.finish().unwrap();
    assert_eq!(s.nodes[1].lang, Lang::Binary);
    assert_eq!(s.nodes[1].weight, 40);
}

#[test]
fn equal_weights_keep_walk_order() {
    let mut b = IndexBuilder::new("/r");
    b.add_entry("/r/b.rs", EntryKind::File, 0, "b.rs".to_string());
    b.add_entry("/r/a.rs", EntryKind::File, 0, "a.rs".to_string());
    b.add_entry("/r/c.rs", EntryKind::File, 0, "c.rs".to_string());
    b.set_counted(0, 2, false);
    b.set_counted(1, 2, false);
    b.set_counted(2, 5, false);
    let s = b.finish().unwrap();
    let names: Vec<&str> = s.nodes.iter().map(|n| node_name(&s, n)).collect();
    assert_eq!(names, vec!["r", "c.rs", "b.rs", "a.rs"]);
}

#[test]
fn large_file_weighs_by_bytes() {
    let mut b = IndexBuilder::new("/r");
    b.add_entry("/r/big.rs", EntryKind::File, 400, "big.rs".to_string());
    let s = b.finish().unwrap();
    // 400 bytes weigh 10 lines.
    assert_eq!(s.nodes[1].weight, 400);
}

#[test]
fn find_file_by_pattern() {
    let s = sample_scene();
    assert_eq!(find_file(&s, "lib"), Some(3));
    assert_eq!(find_file(&s, "src"), Some(2));
    assert_eq!(find_file(&s, "/r"), Some(2));
    assert_eq!(find_file(&s, "zzz"), None);
}

#[test]
fn invalid_names_show_a_mark() {
    let node = Node {
        name_start: 0,
        name_len: 2,
        is_dir: false,
        lang: Lang::Other,
        depth: 0,
        lines: 0,
        weight: 40,
        children_start: 0,
        children_count: 0,
        path_start: 0,
        path_len: 2,
    };
    let s = Scene {
        nodes: vec![node],
        children_ids: vec![],
        names: vec![0xff, 0xfe],
        paths: vec![0xc3, 0x28],
        root: 0,
        stats: Stats { files: 1, dirs: 0, lines: 0, bytes: 0 },
    };
    assert_eq!(node_name(&s, &s.nodes[0]), "?");
    assert_eq!(node_path(&s, &s.nodes[0]), "");
}

#[test]
fn unicode_names_round_trip() {
    let mut b = IndexBuilder::new("/r");
    b.add_entry("/r/naïve_ünï.rs", EntryKind::File, 0, "naïve_ünï.rs".to_string());
    let s = b.finish().unwrap();
    assert_eq!(node_name(&s, &s.nodes[1]), "naïve_ünï.rs");
    assert_eq!(s.nodes[1].lang, Lang::Rust);
}

#[test]
fn builder_adds_each_entry_once() {
    let mut b = IndexBuilder::new("/r");
    b.add_entry("/r/a", EntryKind::Dir, 0, "a".to_string());
    assert_eq!(b.node_count(), 2);
    // a directory already known adds nothing
    b.add_entry("/r/a", EntryKind::Dir, 0, "a".to_string());
    assert_eq!(b.node_count(), 2);
    // a file adds one node
    b.add_entry("/r/a/x.rs", EntryKind::File, 3, "x.rs".to_string());
    assert_eq!(b.node_count(), 3);
    assert_eq!(b.file_count(), 1);
    // another kind under a known directory adds nothing
    b.add_entry("/r/a/sock", EntryKind::Other, 0, "sock".to_string());
    assert_eq!(b.node_count(), 3);
    let s = b.finish().unwrap();
    assert_eq!(s.stats.files, 1);
    assert_eq!(s.stats.dirs, 2);
    assert_eq!(s.nodes[1].children_count, 1);
    assert_eq!(s.nodes[2].children_count, 0);
}

fn bnode(is_dir: bool, lines: u32, weight: u64, children: Vec<u32>) -> BNode {
    BNode {
        name: "n".to_string(),
        path: "/n".to_string(),
        is_dir,
        lang: Lang::Text,
        lines,
        bytes: 0,
        weight,
        children,
    }
}

#[test]
fn aggregate_sums_stored_weights() {
    let mut a = vec![bnode(true, 0, 0, vec![1]), bnode(false, 5, 0, vec![])];
    assert_eq!(aggregate(&mut a, 0), 0);
    assert_eq!(a[1].weight, 0);
    let mut a = vec![bnode(true, 0, 7, vec![1, 2]), bnode(false, 5, 11, vec![]), bnode(false, 0, 13, vec![])];
    assert_eq!(aggregate(&mut a, 0), 31);
    assert_eq!(a[0].weight, 31);
    assert_eq!(a[1].weight, 11);
    let mut a = vec![bnode(true, 0, u64::MAX, vec![1]), bnode(false, 0, 1, vec![])];
    assert_eq!(aggregate(&mut a, 0), u64::MAX);
}

#[test]
fn own_weights_then_aggregate() {
    let mut a = vec![bnode(true, 0, 9, vec![1, 2]), bnode(false, 5, 0, vec![]), bnode(false, 0, 0, vec![])];
    set_own_weights(&mut a);
    assert_eq!(a[0].weight, 0);
    assert_eq!(a[1].weight, 200);
    assert_eq!(a[2].weight, 40);
    assert_eq!(aggregate(&mut a, 0), 240);
}

#[test]
fn aggregate_leaves_other_subtrees() {
    // node 1 is not below node 0
    let mut a = vec![bnode(true, 0, 0, vec![]), bnode(true, 0, 0, vec![2]), bnode(false, 0, 5, vec![])];
    assert_eq!(aggregate(&mut a, 0), 0);
    assert_eq!(a[1].weight, 0);
    assert_eq!(a[2].weight, 5);
    assert_eq!(aggregate(&mut a, 1), 5);
    assert_eq!(a[1].weight, 5);
}

#[test]
fn builder_takes_directories_with_trailing_separators() {
    let mut b = IndexBuilder::new("/r/");
    b.add_entry("/r/a/", EntryKind::Dir, 0, "a".to_string());
    assert_eq!(b.node_count(), 2);
    b.add_entry("/r/a/.", EntryKind::Dir, 0, "a".to_string());
    assert_eq!(b.node_count(), 2);
    b.add_entry("/r/a/x.rs", EntryKind::File, 3, "x.rs".to_string());
    assert_eq!(b.node_count(), 3);
    let s = b.finish().unwrap();
    let names: Vec<&str> = s.nodes.iter().map(|n| node_name(&s, n)).collect();
    assert_eq!(names, vec!["r", "a", "x.rs"]);
    assert_eq!(node_path(&s, &s.nodes[1]), "/r/a");
}

#[test]
fn builder_makes_only_missing_ancestors() {
    let mut b = IndexBuilder::new("/r");
    b.add_entry("/r/a/b/c.rs", EntryKind::File, 1, "c.rs".to_string());
    // "/r/a" and "/r/a/b", then the file
    assert_eq!(b.node_count(), 4);
    b.add_entry("/r/a/d", EntryKind::Dir, 0, "d".to_string());
    assert_eq!(b.node_count(), 5);
    b.add_entry("/r/a/b/e.rs", EntryKind::File, 1, "e.rs".to_string());
    assert_eq!(b.node_count(), 6);
    let s = b.finish().unwrap();
    assert_eq!(s.stats.dirs, 4);
    assert_eq!(s.stats.files, 2);
}
