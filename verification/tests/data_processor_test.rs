use ls_rs::command::{Config, RecursionOptions, SortType};
use ls_rs::data_op::DataProcessor;
use ls_rs::files::{FileKind, FileSystemEntry, StatInfo};
use ls_rs::time::Time;

const DEFAULT_MESSAGE: &str = "LIMP";

fn stat_for(kind: FileKind, size: u64, mode: u32) -> StatInfo {
    StatInfo {
        kind,
        size,
        inode: 1,
        mode,
        created: Time::new(0, 0),
        modified: Time::new(0, 0),
    }
}

fn file_entry(name: &str, size: u64) -> FileSystemEntry {
    let stat = stat_for(FileKind::File, size, 0o100644);
    FileSystemEntry::new_from_values(
        name.to_string(),
        format!("/tmp/listing/{name}"),
        &stat,
        None,
        None,
    )
    .unwrap()
}

fn base_config() -> Config {
    Config {
        path: ".".to_string(),
        cols: None,
        ignore: None,
        all: false,
        long: false,
        numeric: false,
        humanable: false,
        reverse: false,
        sort_type: None,
        recursive: None::<RecursionOptions>,
        one_col: false,
        inode: false,
        json_mini: false,
        json_big: false,
    }
}

// A directory of `count` plain files `file{i}.txt` and `count` hidden
// files `.hidden-file{count+i}.txt`, each holding the default message
// repeated per the size multiplier.
fn setup_entries(
    count_default_files: usize,
    count_hidden_files: usize,
    size_multiplier: Option<usize>,
) -> Vec<FileSystemEntry> {
    // interleaved, as a directory read returns entries in no name order
    let mut entries = Vec::new();
    for i in 0..count_default_files.max(count_hidden_files) {
        if i < count_default_files {
            let size = match size_multiplier {
                Some(mul) => (DEFAULT_MESSAGE.len() * (count_default_files - i) * mul) as u64,
                None => 0,
            };
            entries.push(file_entry(&format!("file{i}.txt"), size));
        }
        if i < count_hidden_files {
            let size = match size_multiplier {
                Some(mul) => {
                    (DEFAULT_MESSAGE.len() * (count_hidden_files + count_default_files - i) * mul)
                        as u64
                }
                None => 0,
            };
            entries.push(file_entry(
                &format!(".hidden-file{}.txt", count_default_files + i),
                size,
            ));
        }
    }
    entries
}

#[test]
fn dp_filter_test() {
    let count_files = 10;
    let entries = setup_entries(count_files, count_files, None);
    let config = base_config();
    assert!(!config.all);

    let mut dp = DataProcessor::new(entries, config);

    let start_len = dp.data_len();
    assert_eq!(start_len, count_files * 2);

    dp = dp.filter();
    let new_len = dp.data_len();
    assert_ne!(start_len, new_len);
    assert_eq!(new_len, count_files);
}

#[test]
fn dp_filter_ignore_ignore_test() {
    let count_files = 10;
    let entries = setup_entries(count_files, count_files, None);
    let mut config = base_config();
    config.ignore = Some("file".to_string());
    assert!(!config.all);

    let mut dp = DataProcessor::new(entries, config);

    let start_len = dp.data_len();
    assert_eq!(start_len, count_files * 2);

    dp = dp.filter();
    let new_len = dp.data_len();
    assert_ne!(start_len, new_len);
    assert_eq!(new_len, count_files);
}

#[test]
fn dp_filter_ignore_real_test() {
    let count_files = 10;
    let entries = setup_entries(count_files, count_files, None);
    let mut config = base_config();
    config.ignore = Some("file1.txt,file2.txt,file3.txt".to_string());
    assert!(!config.all);

    let mut dp = DataProcessor::new(entries, config);

    let start_len = dp.data_len();
    assert_eq!(start_len, count_files * 2);

    dp = dp.filter();
    let new_len = dp.data_len();
    assert_ne!(start_len, new_len);
    assert_eq!(new_len, count_files - 3);
}

#[test]
fn dp_sort_size_test() {
    let count_files = 10;
    let entries = setup_entries(count_files, count_files, Some(3));
    let mut config = base_config();
    config.sort_type = Some(SortType::Size);
    assert!(config.sort_type.is_some());

    let dp = DataProcessor::new(entries, config);
    assert_eq!(dp.data_len(), count_files * 2);

    let dp_sorted = dp.clone().filter().sort();
    assert_ne!(dp, dp_sorted);
    let sorted = dp_sorted.get_entries();
    for w in 1..sorted.len() {
        assert!(sorted[w - 1].metadata().size <= sorted[w].metadata().size);
    }
}

#[test]
fn dp_sort_name_test() {
    let count_files = 10;
    let entries = setup_entries(count_files, count_files, Some(3));
    let mut config = base_config();
    config.sort_type = Some(SortType::Name);
    assert!(config.sort_type.is_some());

    let dp = DataProcessor::new(entries, config);
    assert_eq!(dp.data_len(), count_files * 2);
    let before = dp.get_entries();
    let mut was_sorted = true;
    for w in 1..before.len() {
        if before[w - 1].name() > before[w].name() {
            was_sorted = false;
        }
    }
    assert!(!was_sorted);

    let dp_sorted = dp.clone().filter().sort();
    assert_ne!(dp, dp_sorted);
    let sorted = dp_sorted.get_entries();
    for w in 1..sorted.len() {
        assert!(sorted[w - 1].name() <= sorted[w].name());
    }
}

// Sorting by size is stable: entries with equal sizes keep their
// original relative order, and a reversed size sort is non-increasing.
#[test]
fn dp_sort_size_stability_test() {
    let mut config = base_config();
    config.sort_type = Some(SortType::Size);
    let entries = vec![
        file_entry("x.txt", 5),
        file_entry("y.txt", 5),
        file_entry("z.txt", 3),
        file_entry("w.txt", 5),
    ];
    let dp = DataProcessor::new(entries, config).sort();
    let sorted = dp.get_entries();
    let names: Vec<&str> = sorted.iter().map(|e| e.name()).collect();
    assert_eq!(names, vec!["z.txt", "x.txt", "y.txt", "w.txt"]);

    let mut config2 = base_config();
    config2.sort_type = Some(SortType::Size);
    config2.reverse = true;
    let entries2 = vec![
        file_entry("x.txt", 5),
        file_entry("y.txt", 5),
        file_entry("z.txt", 3),
    ];
    let dp2 = DataProcessor::new(entries2, config2).sort();
    let sorted2 = dp2.get_entries();
    for w in 1..sorted2.len() {
        assert!(sorted2[w - 1].metadata().size >= sorted2[w].metadata().size);
    }
}

// The filter is idempotent: filtering a second time changes nothing.
#[test]
fn dp_filter_idempotent_test() {
    let entries = setup_entries(6, 6, None);
    let mut config = base_config();
    config.ignore = Some("file2.txt".to_string());
    let once = DataProcessor::new(entries, config).filter();
    let names_once: Vec<String> = once.get_entries().iter().map(|e| e.name().to_string()).collect();
    let twice = once.filter();
    let names_twice: Vec<String> =
        twice.get_entries().iter().map(|e| e.name().to_string()).collect();
    assert_eq!(names_once, names_twice);
}

// The scenario: a.txt (10 bytes), b.txt (5 bytes), hidden .c.txt
// (1 byte); hidden entries off, sorted by size — the short list is
// b.txt then a.txt, the hidden file excluded.
#[test]
fn short_list_size_scenario_test() {
    let entries = vec![
        file_entry("a.txt", 10),
        file_entry("b.txt", 5),
        file_entry(".c.txt", 1),
    ];
    let mut config = base_config();
    config.sort_type = Some(SortType::Size);
    let dp = DataProcessor::new(entries, config).filter().sort();
    let names: Vec<&str> = dp.get_entries().iter().map(|e| e.name()).collect();
    assert_eq!(names, vec!["b.txt", "a.txt"]);
    let prepared = dp.prepare();
    let lines = prepared.get_names();
    assert_eq!(lines.len(), 2);
    assert!(lines[0].contains("b.txt"));
    assert!(lines[1].contains("a.txt"));
    assert!(!lines.iter().any(|l| l.contains(".c.txt")));
}
