use ls_rs::command::{Config, RecursionOptions, SortType};
use ls_rs::files::FileColor;
use ls_rs::files::FileType;
use ls_rs::data_op::{OutputFormatter, Printer, TextFormatter};
use ls_rs::files::{FileKind, FileSystemEntry, StatInfo};
use ls_rs::time::Time;

fn stat_of(kind: FileKind, size: u64, mode: u32) -> StatInfo {
    StatInfo {
        kind,
        size,
        inode: 8,
        mode,
        created: Time::new(0, 0),
        modified: Time::new(0, 0),
    }
}

fn file_entry(name: &str, size: u64) -> FileSystemEntry {
    FileSystemEntry::new_from_values(
        name.to_string(),
        format!("/tmp/fmt/{name}"),
        &stat_of(FileKind::File, size, 0o100644),
        None,
        None,
    )
    .unwrap()
}

fn dir_with(entries: Vec<FileSystemEntry>) -> FileSystemEntry {
    match FileSystemEntry::new_from_values(
        "root".to_string(),
        "/tmp/fmt/root".to_string(),
        &stat_of(FileKind::Directory, 0, 0o40755),
        None,
        Some(1),
    )
    .unwrap()
    {
        FileSystemEntry::Directory {
            base_info,
            metadata,
            ..
        } => FileSystemEntry::Directory {
            base_info,
            metadata,
            entries,
        },
        _ => panic!("expected a directory"),
    }
}

fn base_config() -> Config {
    Config {
        path: ".".to_string(),
        cols: None,
        ignore: None,
        all: false,
        long: false,
        numeric: false,
        humanable: false,
        reverse: false,
        sort_type: None,
        recursive: None,
        one_col: false,
        inode: false,
        json_mini: false,
        json_big: false,
    }
}

#[test]
fn format_with_cols_joins_when_they_fit_test() {
    let names = vec!["aa".to_string(), "bb".to_string(), "cc".to_string()];
    let f = TextFormatter::new(names, false, Some(10), None);
    assert_eq!(f.format_with_cols(10), "aa bb cc");
}

#[test]
fn format_with_cols_grid_test() {
    // two names, one column: the escape adjustment shrinks plain cells
    // to nothing beyond their text, so each lands on its own line
    let names = vec!["ab".to_string(), "c".to_string()];
    let f = TextFormatter::new(names, false, Some(1), None);
    assert_eq!(f.format_with_cols(1), "ab\nc");
}

#[test]
fn format_terminal_width_test() {
    let names = vec!["aa".to_string(), "bb".to_string()];
    let wide = TextFormatter::new(names.clone(), false, None, Some((80, 24)));
    assert_eq!(wide.format_with_terminal_width(), "aa bb");
    // a three-column terminal cannot fit "aa bb": the grid runs with
    // one column of width four
    let narrow = TextFormatter::new(names, false, None, Some((3, 24)));
    assert_eq!(narrow.format_with_terminal_width(), "aa\nbb");
}

#[test]
fn format_long_lines_test() {
    let names = vec!["l1".to_string(), "l2".to_string()];
    let f = TextFormatter::new(names, true, None, None);
    assert_eq!(f.format(), "l1\nl2");
}

#[test]
fn long_line_contents_test() {
    let e = file_entry("data.bin", 2048);
    let line = e.to_string_long(true, true, 6, 12);
    // inode, mode column, the human size left-aligned to six, the
    // timestamp right-aligned to twelve, then the styled name
    assert_eq!(
        line,
        format!("8 -rw-r--r-- 2K     Jan  1 00:00 {}", e.get_styled_name())
    );
}

#[test]
fn printer_selects_json_test() {
    let root = dir_with(vec![file_entry("a.txt", 1)]);
    let mut config = base_config();
    config.json_mini = true;
    let p = Printer::new(root, config, None);
    let out = p.print();
    assert!(out.starts_with("{\n"));
    assert!(ls_rs::json::is_valid_json(&out));
}

#[test]
fn printer_pipeline_test() {
    let root = dir_with(vec![
        file_entry("bbb.txt", 3),
        file_entry("aaa.txt", 1),
        file_entry(".hidden", 2),
    ]);
    let mut config = base_config();
    config.sort_type = Some(SortType::Name);
    let p = Printer::new(root, config, Some((200, 24)));
    let out = p.print();
    let a = file_entry("aaa.txt", 1).get_styled_name();
    let b = file_entry("bbb.txt", 3).get_styled_name();
    assert_eq!(out, format!("{a} {b}"));
}

#[test]
fn printer_numeric_prefix_test() {
    let root = dir_with(vec![file_entry("solo.txt", 1)]);
    let mut config = base_config();
    config.numeric = true;
    let p = Printer::new(root, config, Some((200, 24)));
    let out = p.print();
    assert!(out.starts_with("1. "));
}

#[test]
fn pipeline_printer_steps_test() {
    let root = dir_with(vec![
        file_entry("big.txt", 30),
        file_entry("small.txt", 2),
        file_entry(".dot", 9),
    ]);
    let mut config = base_config();
    config.sort_type = Some(SortType::Size);
    let mut p = ls_rs::printer::Printer::new(config, root);
    assert!(p.json_checker().is_none());
    p.filter();
    p.sort();
    p.prepare();
    let out = p.print(Some((200, 24)));
    let small = file_entry("small.txt", 2).get_styled_name();
    let big = file_entry("big.txt", 30).get_styled_name();
    assert_eq!(out, format!("{small} {big}"));
}

#[test]
fn pipeline_printer_json_test() {
    let root = dir_with(vec![file_entry("a.txt", 1)]);
    let mut config = base_config();
    config.json_mini = true;
    let p = ls_rs::printer::Printer::new(config, root);
    let out = p.json_checker().unwrap();
    assert!(ls_rs::json::is_valid_json(&out));
}

#[test]
fn pipeline_printer_one_col_test() {
    let root = dir_with(vec![
        file_entry("one.txt", 1),
        file_entry("two.txt", 2),
        file_entry("three.txt", 3),
    ]);
    let mut config = base_config();
    config.one_col = true;
    let mut p = ls_rs::printer::Printer::new(config, root);
    p.filter();
    p.sort();
    p.prepare();
    let out = p.print(None);
    // three names in one column: one per line, each padded cell trimmed
    let lines: Vec<&str> = out.lines().collect();
    assert_eq!(lines.len(), 3);
    assert!(lines[0].contains("one.txt"));
    assert!(lines[1].contains("two.txt"));
    assert!(lines[2].contains("three.txt"));
}

#[test]
fn color_wrap_test() {
    assert_eq!(FileColor::Red.wrap("x"), "\x1b[31mx\x1b[0m");
    assert_eq!(FileColor::Green.get_code(), "\x1b[32m");
    assert_eq!(FileColor::Blue.get_code(), "\x1b[34m");
    assert_eq!(FileColor::Aqua.get_code(), "\x1b[36m");
    assert_eq!(FileColor::White.get_code(), "\x1b[37m");
    assert_eq!(FileColor::White.reset(), "\x1b[0m");
}

#[test]
fn file_type_test() {
    let f = file_entry("a.txt", 1);
    let t = FileType::of_entry(&f);
    assert!(t.is_file());
    assert!(!t.is_directory());
    assert!(!t.is_link());
    let d = dir_with(vec![]);
    assert!(FileType::of_entry(&d).is_directory());
}

#[test]
fn recursion_depth_value_test() {
    assert_eq!(RecursionOptions::Depth(7).depth_value(), 7);
    assert_eq!(RecursionOptions::Unlimited.depth_value(), 40);
    assert_eq!(RecursionOptions::No.depth_value(), 0);
}
