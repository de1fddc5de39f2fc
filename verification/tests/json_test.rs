use ls_rs::files::{FileKind, FileSystemEntry, StatInfo};
use ls_rs::json::{is_valid_json, Serializer};
use ls_rs::time::Time;

fn stat_of(kind: FileKind, size: u64, mode: u32) -> StatInfo {
    StatInfo {
        kind,
        size,
        inode: 3,
        mode,
        created: Time::new(1000000, 0),
        modified: Time::new(2000000, 0),
    }
}

fn entry(name: &str, kind: FileKind, mode: u32, target: Option<&str>) -> FileSystemEntry {
    FileSystemEntry::new_from_values(
        name.to_string(),
        format!("/tmp/listing/{name}"),
        &stat_of(kind, 42, mode),
        target.map(|t| t.to_string()),
        Some(11),
    )
    .unwrap()
}

#[test]
fn is_valid_json_test() {
    let valid_json = r#" {"valid": "json"} "#;
    assert!(is_valid_json(valid_json));

    let bruh_json = r#" {"bruh: "json"} "#;
    assert!(!is_valid_json(bruh_json))
}

#[test]
fn json_fse_file_test() {
    let fse = entry("report.txt", FileKind::File, 0o100644, None);
    let json = fse.short_json();
    println!("{}", &json);
    assert!(is_valid_json(&json));
}

#[test]
fn json_fse_dir_test() {
    let fse = entry("workdir", FileKind::Directory, 0o40755, None);
    let json = fse.short_json();
    println!("{}", &json);
    assert!(is_valid_json(&json));
}

#[test]
fn json_fse_link_test() {
    let fse = entry("l.symlink", FileKind::Symlink, 0o120777, Some("report.txt"));
    let json = fse.short_json();
    println!("{}", &json);
    assert!(is_valid_json(&json));
}

// A directory with children of every variant still renders one valid
// record: the child objects nest inside the `entries` array.
#[test]
fn json_nested_dir_test() {
    let file = entry("a name with spaces.txt", FileKind::File, 0o100644, None);
    let link = entry("lnk", FileKind::Symlink, 0o120777, Some("a"));
    let sub = entry("sub", FileKind::Directory, 0o40755, None);
    let root = match entry("root", FileKind::Directory, 0o40755, None) {
        FileSystemEntry::Directory {
            base_info,
            metadata,
            ..
        } => FileSystemEntry::Directory {
            base_info,
            metadata,
            entries: vec![file, link, sub],
        },
        _ => panic!("expected a directory"),
    };
    let json = root.short_json();
    println!("{}", &json);
    assert!(is_valid_json(&json));
    assert!(json.contains("\"entries\""));
    assert!(json.contains("\"target\": \"a\""));
    assert!(json.contains("\"type\": \"link\""));
}

#[test]
fn json_field_values_test() {
    let fse = entry("report.txt", FileKind::File, 0o100644, None);
    let json = fse.short_json();
    assert!(json.contains("\"type\": \"file\""));
    assert!(json.contains("\"name\": \"report.txt\""));
    assert!(json.contains("\"size\": 42"));
    assert!(json.contains("\"mode\": \"-rw-r--r--\""));
    assert!(json.contains("\"extension\": \"txt\""));
    // the timestamps render as ISO-8601
    assert!(json.contains("\"created_at\": \"1970-01-12T13:46:40+00:00\""));
}

#[test]
fn json_checker_rejects_test() {
    assert!(!is_valid_json("{"));
    assert!(!is_valid_json("[1,]"));
    assert!(!is_valid_json("{\"a\": 1,}"));
    assert!(!is_valid_json(""));
    assert!(is_valid_json("[]"));
    assert!(is_valid_json("{}"));
    assert!(is_valid_json("[1, 2.5, -3e4, \"x\", true, false, null]"));
    assert!(is_valid_json("{\"a\": {\"b\": []}}"));
}

#[test]
fn long_json_empty_test() {
    let fse = entry("report.txt", FileKind::File, 0o100644, None);
    assert_eq!(fse.long_json(), "");
}
