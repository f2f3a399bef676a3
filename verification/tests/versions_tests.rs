use sc_localization::{find_available_versions, sort_names, str_le, VersionEntry};

fn entry(name: &str, is_dir: bool, has_data_dir: bool, has_launcher_exe: bool) -> VersionEntry {
    VersionEntry { name: name.to_string(), is_dir, has_data_dir, has_launcher_exe }
}

#[test]
fn versions_exclude_entries_without_data() {
    let entries = vec![entry("LIVE", true, true, true), entry("old_backup", true, false, true)];
    let versions = find_available_versions(&entries);
    assert_eq!(versions, vec!["LIVE".to_string()]);
}

#[test]
fn versions_sorted_ascending() {
    let entries = vec![
        entry("PTU", true, true, true),
        entry("LIVE", true, true, true),
        entry("EPTU", true, true, true),
    ];
    let versions = find_available_versions(&entries);
    assert_eq!(versions, vec!["EPTU".to_string(), "LIVE".to_string(), "PTU".to_string()]);
}

#[test]
fn versions_exclude_files_and_entries_without_launcher() {
    let entries = vec![
        entry("LIVE", true, true, true),
        entry("notes.txt", false, false, false),
        entry("PTU", true, true, false),
    ];
    let versions = find_available_versions(&entries);
    assert_eq!(versions, vec!["LIVE".to_string()]);
}

#[test]
fn versions_empty_base_folder() {
    let entries: Vec<VersionEntry> = Vec::new();
    let versions = find_available_versions(&entries);
    assert!(versions.is_empty());
}

#[test]
fn sort_names_orders_and_keeps_duplicates() {
    let sorted = sort_names(vec!["b".to_string(), "a".to_string(), "b".to_string()]);
    assert_eq!(sorted, vec!["a".to_string(), "b".to_string(), "b".to_string()]);
}

#[test]
fn str_le_is_lexicographic() {
    assert!(str_le("", "a"));
    assert!(str_le("a", "a"));
    assert!(str_le("LIVE", "PTU"));
    assert!(!str_le("PTU", "LIVE"));
    assert!(str_le("EPTU", "LIVE"));
    assert!(str_le("ab", "abc"));
    assert!(!str_le("abc", "ab"));
}
