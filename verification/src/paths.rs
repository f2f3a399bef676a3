//! Path-string vocabulary of the library, and the small pure pieces of the
//! settings plumbing. Paths are Windows path strings; joining uses a
//! backslash unless the left side already ends in a separator.

use vstd::prelude::*;
use crate::discovery::is_sep;

verus! {

/// `d` extended with the component `n`: a backslash is inserted unless `d`
/// is empty or already ends in a separator.
pub open spec fn spec_join_path(d: Seq<char>, n: Seq<char>) -> Seq<char> {
    if d.len() == 0 {
        n
    } else if is_sep(d.last()) {
        d + n
    } else {
        d + seq!['\\'] + n
    }
}

/// Joins one path component onto a directory path.
pub fn join_path(dir: &str, name: &str) -> (r: String)
    ensures
        r@ == spec_join_path(dir@, name@),
{
    let n = dir.unicode_len();
    let mut r = String::new();
    if n == 0 {
        r.append(name);
        return r;
    }
    r.append(dir);
    let c = dir.get_char(n - 1);
    if !(c == '\\' || c == '/') {
        r.append("\\");
        proof {
            reveal_strlit("\\");
            assert("\\"@ =~= seq!['\\']);
        }
    }
    r.append(name);
    r
}

/// The `user.cfg` path of a version folder.
pub fn user_cfg_path(version_folder: &str) -> (r: String)
    ensures
        r@ == spec_join_path(version_folder@, "user.cfg"@),
{
    join_path(version_folder, "user.cfg")
}

/// The localization directory of a language code under a version folder:
/// `<version folder>\data\Localization\<code>`.
pub fn localization_dir_path(version_folder: &str, code: &str) -> (r: String)
    ensures
        r@ == spec_join_path(
            spec_join_path(spec_join_path(version_folder@, "data"@), "Localization"@),
            code@,
        ),
{
    let d = join_path(version_folder, "data");
    let l = join_path(d.as_str(), "Localization");
    join_path(l.as_str(), code)
}

/// The launcher's log file under the per-user application-data directory:
/// `<appdata>\rsilauncher\logs\log.log`.
pub fn launcher_log_path(appdata: &str) -> (r: String)
    ensures
        r@ == spec_join_path(
            spec_join_path(spec_join_path(appdata@, "rsilauncher"@), "logs"@),
            "log.log"@,
        ),
{
    let d = join_path(appdata, "rsilauncher");
    let l = join_path(d.as_str(), "logs");
    join_path(l.as_str(), "log.log")
}

/// The settings file beside the running executable: `<exe dir>\config.json`.
pub fn settings_file_path(exe_dir: &str) -> (r: String)
    ensures
        r@ == spec_join_path(exe_dir@, "config.json"@),
{
    join_path(exe_dir, "config.json")
}

/// Rewrites every forward slash of a path to a backslash, the host
/// convention; every other character is kept.
pub fn normalize_separators(path: &str) -> (r: String)
    ensures
        r@ == path@.map_values(|c: char| if c == '/' { '\\' } else { c }),
{
    let n = path.unicode_len();
    let mut r = String::new();
    let mut i: usize = 0;
    let ghost f = |c: char| if c == '/' { '\\' } else { c };
    proof {
        assert(r@ =~= path@.take(0).map_values(f));
    }
    while i < n
        invariant
            0 <= i <= n,
            n == path@.len(),
            r@ == path@.take(i as int).map_values(f),
            f == (|c: char| if c == '/' { '\\' } else { c }),
        decreases n - i,
    {
        let c = path.get_char(i);
        if c == '/' {
            r.append("\\");
            proof {
                reveal_strlit("\\");
                assert("\\"@ =~= seq!['\\']);
            }
        } else {
            r.append(path.substring_char(i, i + 1));
        }
        proof {
            assert(r@ =~= path@.take(i + 1).map_values(f));
        }
        i += 1;
    }
    proof {
        assert(path@.take(n as int) =~= path@);
    }
    r
}

/// The settings text handed to the caller: what was stored, or the empty
/// JSON object when nothing is stored yet — absence is not an error.
pub fn settings_or_default(stored: Option<String>) -> (r: String)
    ensures
        match stored {
            Some(s) => r@ == s@,
            None => r@ == "{}"@,
        },
{
    match stored {
        Some(s) => s,
        None => String::from_str("{}"),
    }
}

} // verus!
