use sc_localization::{
    candidate_base_paths, find_base_folder_in_log, line_capture, parent_dir, select_base_folder,
};

#[test]
fn capture_live_line() {
    let cap = line_capture("2024-01-01 Launching Star Citizen LIVE from (C:\\Games\\SC\\LIVE)");
    assert_eq!(cap, Some("C:\\Games\\SC\\LIVE".to_string()));
}

#[test]
fn capture_ptu_and_hotfix_lines() {
    assert_eq!(
        line_capture("Launching Star Citizen PTU from (D:\\SC\\PTU) now"),
        Some("D:\\SC\\PTU".to_string())
    );
    assert_eq!(
        line_capture("Launching Star Citizen HOTFIX from (E:\\SC\\HOTFIX)"),
        Some("E:\\SC\\HOTFIX".to_string())
    );
}

#[test]
fn capture_stops_at_first_close_paren() {
    let cap = line_capture("Launching Star Citizen LIVE from (C:\\a)\\b)");
    assert_eq!(cap, Some("C:\\a".to_string()));
}

#[test]
fn capture_requires_marker_and_close_paren() {
    assert_eq!(line_capture("Launching Star Citizen EPTU from (C:\\a)"), None);
    assert_eq!(line_capture("Launching Star Citizen LIVE from (C:\\a"), None);
    assert_eq!(line_capture("nothing to see here"), None);
}

#[test]
fn log_scan_takes_most_recent_entry() {
    let log = "\
boot\n\
Launching Star Citizen LIVE from (C:\\Games\\SC\\LIVE)\n\
other line\n\
Launching Star Citizen PTU from (D:\\Other\\SC\\PTU)\n\
shutdown";
    let base = find_base_folder_in_log(log);
    assert_eq!(base, Some("D:\\Other\\SC".to_string()));
}

#[test]
fn log_scan_without_entry_yields_none() {
    assert_eq!(find_base_folder_in_log(""), None);
    assert_eq!(find_base_folder_in_log("boot\nshutdown\n"), None);
}

#[test]
fn parent_dir_rules() {
    assert_eq!(parent_dir("C:\\a\\b"), Some("C:\\a".to_string()));
    assert_eq!(parent_dir("C:\\a\\b\\"), Some("C:\\a".to_string()));
    assert_eq!(parent_dir("C:/x/y"), Some("C:/x".to_string()));
    assert_eq!(parent_dir("abc"), None);
    assert_eq!(parent_dir("C:\\"), None);
    assert_eq!(parent_dir(""), None);
}

#[test]
fn candidates_from_log_result() {
    let c = candidate_base_paths(Some("G:\\SC".to_string()));
    assert_eq!(c, vec!["G:\\SC".to_string()]);
}

#[test]
fn candidates_fall_back_to_fixed_locations() {
    let c = candidate_base_paths(None);
    assert_eq!(
        c,
        vec![
            "C:\\Program Files\\Roberts Space Industries\\StarCitizen".to_string(),
            "C:\\Program Files (x86)\\Roberts Space Industries\\StarCitizen".to_string(),
            "C:\\Roberts Space Industries\\StarCitizen".to_string(),
            "D:\\Roberts Space Industries\\StarCitizen".to_string(),
            "E:\\Roberts Space Industries\\StarCitizen".to_string(),
            "F:\\Roberts Space Industries\\StarCitizen".to_string(),
        ]
    );
}

#[test]
fn selection_picks_first_existing_directory() {
    let c = candidate_base_paths(None);
    let mut flags = vec![false; c.len()];
    flags[2] = true;
    flags[4] = true;
    assert_eq!(select_base_folder(&c, &flags), Some(2));
}

#[test]
fn no_log_and_no_existing_path_is_not_found_not_error() {
    let c = candidate_base_paths(None);
    let flags = vec![false; c.len()];
    assert_eq!(select_base_folder(&c, &flags), None);
}
