use ls_rs::files::{get_human_readable_size, FileKind, MetaData, StatInfo};
use ls_rs::time::Time;

fn stat_of(kind: FileKind, size: u64, mode: u32) -> StatInfo {
    StatInfo {
        kind,
        size,
        inode: 99,
        mode,
        created: Time::new(0, 0),
        modified: Time::new(0, 0),
    }
}

#[test]
fn metadata_file_size_test() {
    let message = "Hello world";
    let md = MetaData::from_stat(&stat_of(FileKind::File, message.len() as u64, 0o100644));

    assert_eq!(md.size, message.len() as u64);
    assert_eq!(md.human_size, format!("{}B", message.len()));
}

#[test]
fn medatada_file_mode_test() {
    let md = MetaData::from_stat(&stat_of(FileKind::File, 0, 0o100755));

    assert_eq!(md.mode, 0o100755); // flags + mode
    assert_eq!(md.mode_str, "-rwxr-xr-x");
}

#[test]
fn metadata_symlink_test() {
    let md = MetaData::from_stat(&stat_of(FileKind::Symlink, 0, 0o120755));

    assert!(md.mode_str.starts_with('l')); // "lrwxr-xr-x"
}

#[test]
fn metadata_executable_flag_test() {
    let md = MetaData::from_stat(&stat_of(FileKind::File, 0, 0o100711));
    assert!(md.executable);
    let md2 = MetaData::from_stat(&stat_of(FileKind::File, 0, 0o100644));
    assert!(!md2.executable);
    // the execute bits mark only regular files
    let md3 = MetaData::from_stat(&stat_of(FileKind::Directory, 0, 0o40755));
    assert!(!md3.executable);
}

#[test]
fn metadata_setuid_sticky_mode_test() {
    let md = MetaData::from_stat(&stat_of(FileKind::File, 0, 0o104755));
    assert_eq!(md.mode_str, "-rwsr-xr-x");
    let md2 = MetaData::from_stat(&stat_of(FileKind::Directory, 0, 0o41777));
    assert_eq!(md2.mode_str, "drwxrwxrwt");
    let md3 = MetaData::from_stat(&stat_of(FileKind::File, 0, 0o104644));
    assert_eq!(md3.mode_str, "-rwSr--r--");
}

#[test]
fn human_size_units_test() {
    assert_eq!(get_human_readable_size(0), "0B");
    assert_eq!(get_human_readable_size(1024), "1K");
    assert_eq!(get_human_readable_size(1536), "1.5K");
    assert_eq!(get_human_readable_size(1073741824), "1G");
    assert_eq!(get_human_readable_size(2000000), "1.91M");
    assert_eq!(get_human_readable_size(11), "11B");
    assert_eq!(get_human_readable_size(1023), "1023B");
    // the scale stops at G, whatever the magnitude
    assert_eq!(get_human_readable_size(1024 * 1024 * 1024 * 1024), "1024G");
}
