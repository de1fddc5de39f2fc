use ls_rs::error::LsError;
use ls_rs::files::{FileColor, FileKind, FileSystemEntry, StatInfo};
use ls_rs::time::Time;

fn stat_of(kind: FileKind, mode: u32) -> StatInfo {
    StatInfo {
        kind,
        size: 0,
        inode: 7,
        mode,
        created: Time::new(0, 0),
        modified: Time::new(0, 0),
    }
}

fn entry(name: &str, kind: FileKind, mode: u32, target: Option<&str>) -> FileSystemEntry {
    FileSystemEntry::new_from_values(
        name.to_string(),
        format!("/tmp/listing/{name}"),
        &stat_of(kind, mode),
        target.map(|t| t.to_string()),
        None,
    )
    .unwrap()
}

#[test]
fn fse_file_styled_name_test() {
    let fse = entry("notes.tmp", FileKind::File, 0o100644, None);
    assert_eq!(fse.name(), "notes.tmp");
    let style = fse.style();
    assert!(style.suffix.is_none());
    assert_eq!(style.color, FileColor::White);

    let styled = fse.get_styled_name();
    // Until extension styling exists, a plain file is wrapped in the
    // default color.
    assert!(styled.starts_with("\x1b"));
    assert!(styled.contains(fse.name()));
    assert_ne!(styled, fse.name());
}

#[test]
fn fse_file_executable_styled_name_test() {
    let fse = entry("runme", FileKind::File, 0o100755, None);

    let style = fse.style();
    assert!(style.suffix.is_none());
    assert_eq!(style.color, FileColor::Green);

    let styled = fse.get_styled_name();
    assert!(styled.starts_with("\x1b[32m"));
    assert!(styled.contains(fse.name()));
}

#[test]
fn fse_dir_styled_name_test() {
    let fse = entry("workdir", FileKind::Directory, 0o40755, None);
    assert_eq!(fse.name(), "workdir");
    let style = fse.style();
    assert!(style.suffix.is_some());
    let suffix = style.suffix.unwrap();
    assert_eq!(suffix, '/');
    assert_eq!(style.color, FileColor::Blue);

    let styled = fse.get_styled_name();
    assert!(styled.starts_with("\x1b[34m"));
    assert!(styled.contains(fse.name()));
}

#[test]
fn fse_link_styled_name_test() {
    let fse = entry("link.link", FileKind::Symlink, 0o120777, Some("original.rs"));
    assert_eq!(fse.name(), "link.link");

    let style = fse.style();
    assert!(style.suffix.is_some());
    let suffix = style.suffix.unwrap();
    assert_eq!(suffix, '@');
    assert_eq!(style.color, FileColor::Aqua);

    let styled = fse.get_styled_name();
    assert!(styled.starts_with("\x1b[36m"));
    assert!(styled.contains(fse.name()));
}

#[test]
fn fse_unknown_kind_test() {
    let r = FileSystemEntry::new_from_values(
        "pipe".to_string(),
        "/tmp/listing/pipe".to_string(),
        &stat_of(FileKind::Other, 0o10644),
        None,
        None,
    );
    assert!(matches!(r, Err(LsError::UnknownTypeOfFile(_))));
}

#[test]
fn fse_link_without_target_test() {
    let r = FileSystemEntry::new_from_values(
        "dangling".to_string(),
        "/tmp/listing/dangling".to_string(),
        &stat_of(FileKind::Symlink, 0o120777),
        None,
        None,
    );
    assert!(matches!(r, Err(LsError::IOError(_))));
}

#[test]
fn fse_extension_test() {
    let tar = entry("archive.tar.gz", FileKind::File, 0o100644, None);
    match tar {
        FileSystemEntry::File { extension, .. } => assert_eq!(extension.as_deref(), Some("gz")),
        _ => panic!("expected a file"),
    }
    let hidden = entry(".gitconfig", FileKind::File, 0o100644, None);
    match hidden {
        FileSystemEntry::File { extension, .. } => assert!(extension.is_none()),
        _ => panic!("expected a file"),
    }
    assert!(hidden_check(".gitconfig"));
}

fn hidden_check(name: &str) -> bool {
    entry(name, FileKind::File, 0o100644, None).is_hidden()
}

#[test]
fn path_to_string_test() {
    assert_eq!(ls_rs::files::path_to_string("/a/b.txt").unwrap(), "b.txt");
    assert_eq!(ls_rs::files::path_to_string("dir/sub/").unwrap(), "sub");
    assert!(matches!(
        ls_rs::files::path_to_string("/"),
        Err(LsError::NoneValue(_))
    ));
    assert!(matches!(
        ls_rs::files::path_to_string(""),
        Err(LsError::NoneValue(_))
    ));
    assert!(matches!(
        ls_rs::files::path_to_string("a/.."),
        Err(LsError::NoneValue(_))
    ));
}

#[test]
fn error_message_test() {
    let e = LsError::none_from("incorrect file_name");
    assert!(matches!(e, LsError::NoneValue(_)));
    assert_eq!(
        e.message(),
        "Trying to unwrap None value incorrect file_name"
    );
}
