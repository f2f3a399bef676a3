//! Base-folder discovery: parsing the launcher log for the most recent
//! launch line, taking the parent of the version path it names, and the
//! fixed list of conventional install locations probed when the log yields
//! nothing.

use vstd::prelude::*;
use crate::lines::{spec_lines, split_lines};

verus! {

/// `pat` occurs in `l` starting at position `i`.
pub open spec fn subseq_at(l: Seq<char>, i: int, pat: Seq<char>) -> bool {
    0 <= i && i + pat.len() <= l.len() && l.subrange(i, i + pat.len()) == pat
}

/// The three launch markers a log line may carry, one per release channel;
/// the installation path follows the opening parenthesis.
pub open spec fn head(k: int) -> Seq<char> {
    if k == 0 {
        "Launching Star Citizen LIVE from ("@
    } else if k == 1 {
        "Launching Star Citizen PTU from ("@
    } else {
        "Launching Star Citizen HOTFIX from ("@
    }
}

/// Which marker occurs at position `i` of `l`, tried in a fixed order;
/// `-1` when none does.
pub open spec fn chan_at(l: Seq<char>, i: int) -> int {
    if subseq_at(l, i, head(0)) {
        0
    } else if subseq_at(l, i, head(1)) {
        1
    } else if subseq_at(l, i, head(2)) {
        2
    } else {
        -1
    }
}

/// First position at or after `j` holding a closing parenthesis, or
/// `l.len()` if there is none.
pub open spec fn first_close(l: Seq<char>, j: int) -> int
    decreases l.len() - j,
{
    if j < 0 || j >= l.len() {
        l.len() as int
    } else if l[j] == ')' {
        j
    } else {
        first_close(l, j + 1)
    }
}

/// Where the captured path begins when a marker occurs at `i`.
pub open spec fn payload_start(l: Seq<char>, i: int) -> int {
    i + head(chan_at(l, i)).len()
}

/// A complete launch entry at position `i`: a marker, and a closing
/// parenthesis somewhere after it on the same line.
pub open spec fn match_at(l: Seq<char>, i: int) -> bool {
    chan_at(l, i) >= 0 && first_close(l, payload_start(l, i)) < l.len()
}

/// Least position at or after `i` holding a complete launch entry, or
/// `l.len()` if there is none.
pub open spec fn scan_match(l: Seq<char>, i: int) -> int
    decreases l.len() - i,
{
    if i < 0 || i >= l.len() {
        l.len() as int
    } else if match_at(l, i) {
        i
    } else {
        scan_match(l, i + 1)
    }
}

/// The path captured by the leftmost complete launch entry of the line:
/// the characters between the marker's opening parenthesis and the first
/// closing parenthesis after it.
pub open spec fn spec_line_capture(l: Seq<char>) -> Option<Seq<char>> {
    let i = scan_match(l, 0);
    if i < l.len() {
        Some(l.subrange(payload_start(l, i), first_close(l, payload_start(l, i))))
    } else {
        None
    }
}

/// Greatest line index at or below `k` whose line holds a launch entry, or
/// `-1` if none does.
pub open spec fn last_match(ls: Seq<Seq<char>>, k: int) -> int
    decreases k + 1,
{
    if k < 0 || k >= ls.len() {
        -1
    } else if spec_line_capture(ls[k]) is Some {
        k
    } else {
        last_match(ls, k - 1)
    }
}

/// The path captured from a log text: lines are scanned from the end, most
/// recent first, and the first line holding a launch entry wins.
pub open spec fn spec_log_capture(log: Seq<char>) -> Option<Seq<char>> {
    let ls = spec_lines(log);
    let k = last_match(ls, ls.len() - 1);
    if k >= 0 {
        spec_line_capture(ls[k])
    } else {
        None
    }
}

pub open spec fn is_sep(c: char) -> bool {
    c == '\\' || c == '/'
}

/// `p` without its trailing path separators.
pub open spec fn trim_trailing_seps(p: Seq<char>) -> Seq<char>
    decreases p.len(),
{
    if p.len() > 0 && is_sep(p.last()) {
        trim_trailing_seps(p.drop_last())
    } else {
        p
    }
}

/// Last position of a path separator in `p`, or `-1` if there is none.
pub open spec fn last_sep(p: Seq<char>) -> int
    decreases p.len(),
{
    if p.len() == 0 {
        -1
    } else if is_sep(p.last()) {
        p.len() - 1
    } else {
        last_sep(p.drop_last())
    }
}

/// The parent directory of a path string: the text before the final
/// separator, trailing separators ignored. A path without a separator has
/// no parent. A root such as `C:\` therefore has none, and the parent of
/// `C:\a\b` is `C:\a`.
pub open spec fn spec_parent_dir(p: Seq<char>) -> Option<Seq<char>> {
    let q = trim_trailing_seps(p);
    if last_sep(q) >= 0 {
        Some(q.take(last_sep(q)))
    } else {
        None
    }
}

/// The base folder a log text points at: the parent of the version path
/// captured from the most recent launch entry.
pub open spec fn spec_base_from_log(log: Seq<char>) -> Option<Seq<char>> {
    match spec_log_capture(log) {
        Some(p) => spec_parent_dir(p),
        None => None,
    }
}

/// `pat` occurs in `l` at position `i`.
fn has_prefix_at(l: &str, i: usize, pat: &str) -> (r: bool)
    requires
        i <= l@.len(),
    ensures
        r == subseq_at(l@, i as int, pat@),
{
    let n = l.unicode_len();
    let m = pat.unicode_len();
    if m > n - i {
        return false;
    }
    let mut t: usize = 0;
    while t < m
        invariant
            0 <= t <= m,
            i + m <= n,
            n == l@.len(),
            m == pat@.len(),
            forall|u: int| 0 <= u < t ==> l@[i + u] == pat@[u],
        decreases m - t,
    {
        if l.get_char(i + t) != pat.get_char(t) {
            proof {
                assert(l@.subrange(i as int, i + m)[t as int] == l@[i + t]);
            }
            return false;
        }
        t += 1;
    }
    proof {
        assert(l@.subrange(i as int, i + m) =~= pat@);
    }
    true
}

/// Extracts the installation path named by the leftmost launch entry of one
/// log line, if the line holds one.
pub fn line_capture(l: &str) -> (r: Option<String>)
    ensures
        match r {
            Some(s) => spec_line_capture(l@) == Some(s@),
            None => spec_line_capture(l@) is None,
        },
{
    let n = l.unicode_len();
    let mut i: usize = 0;
    while i < n
        invariant
            0 <= i <= n,
            n == l@.len(),
            scan_match(l@, 0) == scan_match(l@, i as int),
        decreases n - i,
    {
        let h0 = has_prefix_at(l, i, "Launching Star Citizen LIVE from (");
        let h1 = if h0 {
            false
        } else {
            has_prefix_at(l, i, "Launching Star Citizen PTU from (")
        };
        let h2 = if h0 || h1 {
            false
        } else {
            has_prefix_at(l, i, "Launching Star Citizen HOTFIX from (")
        };
        if h0 || h1 || h2 {
            let hl = if h0 {
                "Launching Star Citizen LIVE from (".unicode_len()
            } else if h1 {
                "Launching Star Citizen PTU from (".unicode_len()
            } else {
                "Launching Star Citizen HOTFIX from (".unicode_len()
            };
            proof {
                if h0 {
                    assert(chan_at(l@, i as int) == 0);
                } else if h1 {
                    assert(chan_at(l@, i as int) == 1);
                } else {
                    assert(chan_at(l@, i as int) == 2);
                }
                assert(hl == head(chan_at(l@, i as int)).len());
                assert(i + hl <= n);
            }
            let ps = i + hl;
            let mut j: usize = ps;
            while j < n && l.get_char(j) != ')'
                invariant
                    ps <= j <= n,
                    n == l@.len(),
                    first_close(l@, ps as int) == first_close(l@, j as int),
                decreases n - j,
            {
                j += 1;
            }
            if j < n {
                proof {
                    assert(first_close(l@, ps as int) == j);
                    assert(match_at(l@, i as int));
                    assert(scan_match(l@, i as int) == i);
                }
                return Some(String::from_str(l.substring_char(ps, j)));
            }
            proof {
                assert(first_close(l@, ps as int) == n);
                assert(!match_at(l@, i as int));
            }
        } else {
            proof {
                assert(chan_at(l@, i as int) == -1);
                assert(!match_at(l@, i as int));
            }
        }
        i += 1;
    }
    proof {
        assert(scan_match(l@, 0) == n);
    }
    None
}

/// The parent directory of a path string; see `spec_parent_dir` for the
/// rule.
pub fn parent_dir(path: &str) -> (r: Option<String>)
    ensures
        match r {
            Some(s) => spec_parent_dir(path@) == Some(s@),
            None => spec_parent_dir(path@) is None,
        },
{
    let n = path.unicode_len();
    let mut e: usize = n;
    proof {
        assert(path@.take(n as int) =~= path@);
    }
    while e > 0
        invariant
            0 <= e <= n,
            n == path@.len(),
            trim_trailing_seps(path@) == trim_trailing_seps(path@.take(e as int)),
        ensures
            0 <= e <= n,
            trim_trailing_seps(path@) == path@.take(e as int),
        decreases e,
    {
        let c = path.get_char(e - 1);
        proof {
            assert(path@.take(e as int).last() == path@[e - 1]);
        }
        if !(c == '\\' || c == '/') {
            break;
        }
        proof {
            assert(path@.take(e as int).drop_last() =~= path@.take(e - 1));
        }
        e -= 1;
    }
    let ghost q = trim_trailing_seps(path@);
    let mut m: usize = e;
    while m > 0
        invariant
            0 <= m <= e <= n,
            n == path@.len(),
            q == path@.take(e as int),
            last_sep(q) == last_sep(path@.take(m as int)),
        ensures
            0 <= m <= e,
            last_sep(q) == last_sep(path@.take(m as int)),
            m > 0 ==> is_sep(path@[m - 1]),
        decreases m,
    {
        let c = path.get_char(m - 1);
        proof {
            assert(path@.take(m as int).last() == path@[m - 1]);
        }
        if c == '\\' || c == '/' {
            break;
        }
        proof {
            assert(path@.take(m as int).drop_last() =~= path@.take(m - 1));
        }
        m -= 1;
    }
    if m == 0 {
        proof {
            assert(path@.take(0) =~= Seq::<char>::empty());
            assert(last_sep(q) == -1);
        }
        None
    } else {
        proof {
            assert(path@.take(m as int).last() == path@[m - 1]);
            assert(last_sep(q) == m - 1);
            assert(q.take(m - 1) =~= path@.subrange(0, m - 1));
        }
        Some(String::from_str(path.substring_char(0, m - 1)))
    }
}

/// The base folder named by a log text, if any: the parent of the version
/// path captured from the most recent launch entry. `None` is the expected
/// outcome for a log without launch entries, not an error.
pub fn find_base_folder_in_log(log_content: &str) -> (r: Option<String>)
    ensures
        match r {
            Some(s) => spec_base_from_log(log_content@) == Some(s@),
            None => spec_base_from_log(log_content@) is None,
        },
{
    let lines = split_lines(log_content);
    let ghost ls = spec_lines(log_content@);
    let mut k = lines.len();
    proof {
        assert(last_match(ls, ls.len() - 1) == last_match(ls, k - 1));
    }
    while k > 0
        invariant
            0 <= k <= lines.len(),
            lines.deep_view() == ls,
            ls == spec_lines(log_content@),
            last_match(ls, ls.len() - 1) == last_match(ls, k - 1),
        decreases k,
    {
        k -= 1;
        proof {
            assert(lines.deep_view()[k as int] == lines@[k as int]@);
        }
        let cap = line_capture(lines[k]);
        match cap {
            Some(p) => {
                proof {
                    assert(last_match(ls, k as int) == k);
                    assert(spec_log_capture(log_content@) == Some(p@));
                }
                return parent_dir(p.as_str());
            },
            None => {
                proof {
                    assert(last_match(ls, k as int) == last_match(ls, k - 1));
                }
            },
        }
    }
    proof {
        assert(last_match(ls, -1) == -1);
    }
    None
}

/// The fixed list of conventional install locations, probed in order when
/// the log names no base folder.
pub open spec fn fallback_paths() -> Seq<Seq<char>> {
    seq![
        "C:\\Program Files\\Roberts Space Industries\\StarCitizen"@,
        "C:\\Program Files (x86)\\Roberts Space Industries\\StarCitizen"@,
        "C:\\Roberts Space Industries\\StarCitizen"@,
        "D:\\Roberts Space Industries\\StarCitizen"@,
        "E:\\Roberts Space Industries\\StarCitizen"@,
        "F:\\Roberts Space Industries\\StarCitizen"@,
    ]
}

/// The candidate base folders to probe, in order: the log-derived folder
/// alone when there is one, else the fixed conventional locations.
pub fn candidate_base_paths(log_base: Option<String>) -> (r: Vec<String>)
    ensures
        match log_base {
            Some(p) => r.deep_view() == seq![p@],
            None => r.deep_view() == fallback_paths(),
        },
{
    let mut r: Vec<String> = Vec::new();
    match log_base {
        Some(p) => {
            r.push(p);
            proof {
                assert(r.deep_view() =~= seq![r@[0]@]);
            }
        },
        None => {
            r.push(String::from_str("C:\\Program Files\\Roberts Space Industries\\StarCitizen"));
            r.push(
                String::from_str("C:\\Program Files (x86)\\Roberts Space Industries\\StarCitizen"),
            );
            r.push(String::from_str("C:\\Roberts Space Industries\\StarCitizen"));
            r.push(String::from_str("D:\\Roberts Space Industries\\StarCitizen"));
            r.push(String::from_str("E:\\Roberts Space Industries\\StarCitizen"));
            r.push(String::from_str("F:\\Roberts Space Industries\\StarCitizen"));
            proof {
                assert(r.deep_view() =~= fallback_paths());
            }
        },
    }
    r
}

/// Picks the first candidate that the shell found to exist as a directory:
/// `Some` of its index, or `None` when no candidate is a directory — the
/// expected "not found" outcome, not an error.
pub fn select_base_folder(candidates: &Vec<String>, is_dir: &Vec<bool>) -> (r: Option<usize>)
    requires
        candidates@.len() == is_dir@.len(),
    ensures
        match r {
            Some(i) => i < candidates@.len() && is_dir@[i as int] && forall|k: int|
                0 <= k < i ==> !is_dir@[k],
            None => forall|k: int| 0 <= k < is_dir@.len() ==> !is_dir@[k],
        },
{
    let mut i: usize = 0;
    while i < is_dir.len()
        invariant
            0 <= i <= is_dir@.len(),
            candidates@.len() == is_dir@.len(),
            forall|k: int| 0 <= k < i ==> !is_dir@[k],
        decreases is_dir@.len() - i,
    {
        if is_dir[i] {
            return Some(i);
        }
        i += 1;
    }
    None
}

} // verus!
