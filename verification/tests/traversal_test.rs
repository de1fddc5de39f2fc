use ls_rs::command::{Config, RecursionOptions};
use ls_rs::data_op::OutputFormatter;
use ls_rs::data_op::RecursiveFormatter;
use ls_rs::files::{FileKind, FileSystemEntry, RawEntry, StatInfo};
use ls_rs::time::Time;
use ls_rs::walk::FsSnapshot;

fn stat_of(kind: FileKind, mode: u32) -> StatInfo {
    StatInfo {
        kind,
        size: 4,
        inode: 5,
        mode,
        created: Time::new(0, 0),
        modified: Time::new(0, 0),
    }
}

fn raw(name: &str, kind: FileKind, canonical: Option<u64>, target: Option<&str>) -> RawEntry {
    RawEntry {
        name: name.to_string(),
        path: format!("/tmp/walk/{name}"),
        stat: stat_of(
            kind,
            match kind {
                FileKind::Directory => 0o40755,
                FileKind::Symlink => 0o120777,
                _ => 0o100644,
            },
        ),
        link_target: target.map(|t| t.to_string()),
        canonical,
    }
}

fn dir_entry(name: &str, canonical: u64) -> FileSystemEntry {
    FileSystemEntry::new_from_values(
        name.to_string(),
        format!("/tmp/walk/{name}"),
        &stat_of(FileKind::Directory, 0o40755),
        None,
        Some(canonical),
    )
    .unwrap()
}

fn base_config() -> Config {
    Config {
        path: ".".to_string(),
        cols: None,
        ignore: None,
        all: false,
        long: false,
        numeric: false,
        humanable: false,
        reverse: false,
        sort_type: None,
        recursive: None,
        one_col: false,
        inode: false,
        json_mini: false,
        json_big: false,
    }
}

// One flat level: no entry below the root gains children of its own.
#[test]
fn no_recursion_flat_children_test() {
    let mut snap = FsSnapshot::new();
    snap.add(
        1,
        vec![
            raw("sub", FileKind::Directory, Some(2), None),
            raw("file.txt", FileKind::File, None, None),
        ],
    );
    // the grandchildren exist in the snapshot, but one level ignores them
    snap.add(2, vec![raw("grandchild.txt", FileKind::File, None, None)]);

    let mut root = dir_entry("root", 1);
    root.fill_start_dir(None, &snap).unwrap();
    let children = root.get_dir_entries().unwrap();
    assert_eq!(children.len(), 2);
    for c in children.iter() {
        match c.get_dir_entries() {
            Some(grand) => assert_eq!(grand.len(), 0),
            None => {}
        }
    }
}

#[test]
fn no_recursion_missing_root_listing_test() {
    let snap = FsSnapshot::new();
    let mut root = dir_entry("root", 1);
    let r = root.fill_start_dir(None, &snap);
    assert!(matches!(r, Err(ls_rs::error::LsError::IOError(_))));
}

// An unreadable or unclassifiable child is skipped, not fatal.
#[test]
fn traversal_skips_bad_children_test() {
    let mut snap = FsSnapshot::new();
    snap.add(
        1,
        vec![
            raw("good.txt", FileKind::File, None, None),
            raw("socket", FileKind::Other, None, None),
            raw("dangling", FileKind::Symlink, None, None),
        ],
    );
    let mut root = dir_entry("root", 1);
    root.fill_start_dir(Some(3), &snap).unwrap();
    let children = root.get_dir_entries().unwrap();
    assert_eq!(children.len(), 1);
    assert_eq!(children[0].name(), "good.txt");
}

// A directory that reaches itself again is expanded once per distinct
// non-cyclic path and treated as a leaf when it is its own ancestor;
// the walk terminates.
#[test]
fn cycle_safety_test() {
    let mut snap = FsSnapshot::new();
    // root(1) holds b(2); b holds a symlink to root and root itself (a
    // second path to canonical 1)
    snap.add(1, vec![raw("b", FileKind::Directory, Some(2), None)]);
    snap.add(
        2,
        vec![
            raw("back", FileKind::Symlink, None, Some("/tmp/walk")),
            raw("rootagain", FileKind::Directory, Some(1), None),
        ],
    );

    let mut root = dir_entry("root", 1);
    root.fill_start_dir(Some(40), &snap).unwrap();

    let children = root.get_dir_entries().unwrap();
    assert_eq!(children.len(), 1);
    assert_eq!(children[0].name(), "b");
    let b_children = children[0].get_dir_entries().unwrap();
    assert_eq!(b_children.len(), 2);
    assert_eq!(b_children[0].name(), "back");
    assert!(matches!(b_children[0], FileSystemEntry::Link { .. }));
    // the cyclic directory appears, but as a leaf: its canonical
    // identity was on the expansion stack
    assert_eq!(b_children[1].name(), "rootagain");
    assert_eq!(b_children[1].get_dir_entries().unwrap().len(), 0);
}

// A directory reachable along two different non-cyclic paths is
// expanded both times.
#[test]
fn two_paths_both_expanded_test() {
    let mut snap = FsSnapshot::new();
    snap.add(
        1,
        vec![
            raw("left", FileKind::Directory, Some(2), None),
            raw("right", FileKind::Directory, Some(3), None),
        ],
    );
    snap.add(2, vec![raw("shared", FileKind::Directory, Some(4), None)]);
    snap.add(3, vec![raw("shared", FileKind::Directory, Some(4), None)]);
    snap.add(4, vec![raw("inner.txt", FileKind::File, None, None)]);

    let mut root = dir_entry("root", 1);
    root.fill_start_dir(Some(40), &snap).unwrap();
    let children = root.get_dir_entries().unwrap();
    assert_eq!(children.len(), 2);
    for c in children.iter() {
        let shared = c.get_dir_entries().unwrap();
        assert_eq!(shared.len(), 1);
        let inner = shared[0].get_dir_entries().unwrap();
        assert_eq!(inner.len(), 1);
        assert_eq!(inner[0].name(), "inner.txt");
    }
}

// Depth-limited recursion over root/sub/subsub/file.txt with one
// level: root and sub render, subsub's contents never appear.
#[test]
fn depth_limited_render_test() {
    let mut snap = FsSnapshot::new();
    snap.add(1, vec![raw("sub", FileKind::Directory, Some(2), None)]);
    snap.add(2, vec![raw("subsub", FileKind::Directory, Some(3), None)]);
    snap.add(3, vec![raw("file.txt", FileKind::File, None, None)]);

    let mut root = dir_entry("root", 1);
    root.fill_start_dir(Some(1), &snap).unwrap();

    let mut config = base_config();
    config.recursive = Some(RecursionOptions::Depth(1));
    let styled_root = root.get_styled_name();
    let styled_sub = root.get_dir_entries().unwrap()[0].get_styled_name();
    assert!(styled_sub.ends_with('/'));

    let formatter = RecursiveFormatter::new(root, &config);
    let output = formatter.format();
    assert_eq!(output, format!("{styled_root}\n  {styled_sub}\n"));
    assert!(!output.contains("subsub"));
    assert!(!output.contains("file.txt"));
}

// The tree renderer skips entries named in the ignore string at any
// depth.
#[test]
fn recursive_render_ignore_test() {
    let mut snap = FsSnapshot::new();
    snap.add(
        1,
        vec![
            raw("keep.txt", FileKind::File, None, None),
            raw("skipme.txt", FileKind::File, None, None),
        ],
    );
    let mut root = dir_entry("root", 1);
    root.fill_start_dir(Some(2), &snap).unwrap();

    let mut config = base_config();
    config.recursive = Some(RecursionOptions::Unlimited);
    config.ignore = Some("skipme.txt".to_string());
    let formatter = RecursiveFormatter::new(root, &config);
    let output = formatter.format();
    assert!(output.contains("keep.txt"));
    assert!(!output.contains("skipme.txt"));
}

// The request engine asks for exactly the listings the depth allows.
#[test]
fn tree_builder_requests_test() {
    let root = dir_entry("root", 1);
    let mut builder = ls_rs::walk::TreeBuilder::new(&root, Some(2));
    let first = builder.pop_request().unwrap();
    assert_eq!(first.0, 1);
    assert_eq!(first.2, 0);
    builder.supply_listing(
        first.0,
        first.2,
        vec![
            raw("sub", FileKind::Directory, Some(2), None),
            raw("plain.txt", FileKind::File, None, None),
        ],
    );
    // depth 1 < 2: the subdirectory is requested too
    let second = builder.pop_request().unwrap();
    assert_eq!(second.0, 2);
    assert_eq!(second.2, 1);
    builder.supply_listing(
        second.0,
        second.2,
        vec![raw("deep", FileKind::Directory, Some(3), None)],
    );
    // depth 2 is the limit: nothing below is requested
    assert!(builder.pop_request().is_none());

    let mut root = root;
    root.fill_start_dir(Some(2), builder.snapshot()).unwrap();
    let children = root.get_dir_entries().unwrap();
    assert_eq!(children.len(), 2);
    let sub_children = children[0].get_dir_entries().unwrap();
    assert_eq!(sub_children.len(), 1);
    assert_eq!(sub_children[0].name(), "deep");
    assert_eq!(sub_children[0].get_dir_entries().unwrap().len(), 0);
}
