//! Core logic of a desktop helper that manages the localization settings of a
//! game installation: locating the install directory from a launcher log,
//! listing installed version folders, and editing the `g_language` directive
//! inside a version's `user.cfg` text file.
//!
//! Everything here is pure computation on strings and plain values; the thin
//! filesystem shell that feeds these functions lives outside the library.

pub mod directive;
pub mod discovery;
pub mod laws;
pub mod lines;
pub mod paths;
pub mod versions;

pub use directive::{is_language_line, remove_language_lines, upsert_language_line};
pub use discovery::{
    candidate_base_paths, find_base_folder_in_log, line_capture, parent_dir, select_base_folder,
};
pub use paths::{
    join_path, launcher_log_path, localization_dir_path, normalize_separators, settings_file_path,
    settings_or_default, user_cfg_path,
};
pub use versions::{find_available_versions, sort_names, str_le, VersionEntry};
