use marketlog::locate::{select_latest, FileEntry};

fn entry(name: &str, modified_ms: Option<u64>) -> FileEntry {
    FileEntry { name: name.to_string(), modified_ms }
}

// An empty directory yields no choice, mirroring the missing-directory case.
#[test]
fn empty_directory_gives_none() {
    let entries: Vec<FileEntry> = Vec::new();
    assert_eq!(select_latest(&entries), None);
}

#[test]
fn picks_newest_log_file() {
    let entries = vec![
        entry("old-Tritanium-2025.01.01 000000.txt", Some(100)),
        entry("new-Tritanium-2025.01.02 000000.txt", Some(300)),
        entry("mid-Tritanium-2025.01.01 120000.txt", Some(200)),
    ];
    assert_eq!(select_latest(&entries), Some(1));
}

#[test]
fn ignores_other_extensions() {
    let entries = vec![
        entry("readme.md", Some(900)),
        entry("log.txt", Some(100)),
        entry("archive.zip", Some(800)),
    ];
    assert_eq!(select_latest(&entries), Some(1));
}

#[test]
fn unreadable_metadata_excluded() {
    let entries = vec![entry("a.txt", None), entry("b.txt", Some(5))];
    assert_eq!(select_latest(&entries), Some(1));
}

#[test]
fn all_unreadable_gives_none() {
    let entries = vec![entry("a.txt", None), entry("b.txt", None)];
    assert_eq!(select_latest(&entries), None);
}

#[test]
fn tie_broken_towards_later_entry() {
    let entries = vec![entry("a.txt", Some(7)), entry("b.txt", Some(7))];
    assert_eq!(select_latest(&entries), Some(1));
}

#[test]
fn hidden_file_without_stem_excluded() {
    let entries = vec![entry(".txt", Some(50)), entry("real.txt", Some(10))];
    assert_eq!(select_latest(&entries), Some(1));
}
