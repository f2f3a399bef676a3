use sc_localization::{
    join_path, launcher_log_path, localization_dir_path, normalize_separators, settings_file_path,
    settings_or_default, user_cfg_path,
};

#[test]
fn join_inserts_backslash() {
    assert_eq!(join_path("C:\\a", "b"), "C:\\a\\b");
}

#[test]
fn join_keeps_existing_separator() {
    assert_eq!(join_path("C:\\", "b"), "C:\\b");
    assert_eq!(join_path("C:/base/", "b"), "C:/base/b");
}

#[test]
fn join_onto_empty_is_the_name() {
    assert_eq!(join_path("", "b"), "b");
}

#[test]
fn user_cfg_under_version_folder() {
    assert_eq!(user_cfg_path("C:\\SC\\LIVE"), "C:\\SC\\LIVE\\user.cfg");
}

#[test]
fn localization_dir_under_version_folder() {
    assert_eq!(
        localization_dir_path("C:\\SC\\LIVE", "de_DE"),
        "C:\\SC\\LIVE\\data\\Localization\\de_DE"
    );
}

#[test]
fn launcher_log_under_appdata() {
    assert_eq!(
        launcher_log_path("C:\\Users\\u\\AppData\\Roaming"),
        "C:\\Users\\u\\AppData\\Roaming\\rsilauncher\\logs\\log.log"
    );
}

#[test]
fn settings_file_beside_executable() {
    assert_eq!(settings_file_path("C:\\app"), "C:\\app\\config.json");
}

#[test]
fn separators_normalized_to_backslash() {
    assert_eq!(normalize_separators("C:/a/b.txt"), "C:\\a\\b.txt");
    assert_eq!(normalize_separators("already\\fine"), "already\\fine");
    assert_eq!(normalize_separators(""), "");
}

#[test]
fn settings_default_to_empty_object() {
    assert_eq!(settings_or_default(None), "{}");
    assert_eq!(settings_or_default(Some("{\"lang\":\"de\"}".to_string())), "{\"lang\":\"de\"}");
}
