//! The `g_language` directive of a `user.cfg` text: recognising a directive
//! line, replacing or appending it (upsert), and removing it.

use vstd::prelude::*;
use crate::lines::{lemma_join_push, spec_join, spec_lines, split_lines};

verus! {

/// The characters of the configuration key this library manages.
pub open spec fn key_chars() -> Seq<char> {
    seq!['g', '_', 'l', 'a', 'n', 'g', 'u', 'a', 'g', 'e']
}

/// Whitespace tolerated between the key and the `=` sign.
pub open spec fn is_cfg_space(c: char) -> bool {
    c == ' ' || c == '\t' || c == '\n' || c == '\r' || c == '\u{B}' || c == '\u{C}'
}

/// From position `i` on, `p` holds optional whitespace and then an `=`.
pub open spec fn ws_eq_at(p: Seq<char>, i: int) -> bool
    decreases p.len() - i,
{
    if i < 0 || i >= p.len() {
        false
    } else if p[i] == '=' {
        true
    } else if is_cfg_space(p[i]) {
        ws_eq_at(p, i + 1)
    } else {
        false
    }
}

/// A line whose whole text is a language directive: the key `g_language`,
/// optional whitespace, `=`, and any value after it.
pub open spec fn is_lang_line(p: Seq<char>) -> bool {
    p.len() >= 11 && p.take(10) == key_chars() && ws_eq_at(p, 10)
}

/// The directive line written for language code `c`.
pub open spec fn lang_line_text(c: Seq<char>) -> Seq<char> {
    "g_language = "@ + c
}

/// Whether some line of `t` is a language directive.
pub open spec fn spec_has_lang(t: Seq<char>) -> bool {
    exists|k: int| 0 <= k < spec_lines(t).len() && is_lang_line(#[trigger] spec_lines(t)[k])
}

/// The upsert: if `t` holds directive lines, each is replaced by the
/// directive for `c`; otherwise that directive is appended as a new final
/// line, preceded by a newline when `t` is non-empty and lacks one.
pub open spec fn spec_upsert(t: Seq<char>, c: Seq<char>) -> Seq<char> {
    if spec_has_lang(t) {
        spec_join(
            spec_lines(t).map_values(
                |p: Seq<char>| if is_lang_line(p) { lang_line_text(c) } else { p },
            ),
        )
    } else if t.len() == 0 {
        lang_line_text(c) + seq!['\n']
    } else if t.last() == '\n' {
        t + lang_line_text(c) + seq!['\n']
    } else {
        t + seq!['\n'] + lang_line_text(c) + seq!['\n']
    }
}

/// The text emitted for line `i` of a removal: the line itself, except that
/// one trailing carriage return is dropped when the next line is a directive
/// about to be removed (the removal consumes that line's CR/LF terminator).
pub open spec fn strip_cr(ls: Seq<Seq<char>>, i: int) -> Seq<char> {
    if i + 1 < ls.len() && is_lang_line(ls[i + 1]) && ls[i].len() > 0 && ls[i].last() == '\r' {
        ls[i].drop_last()
    } else {
        ls[i]
    }
}

/// The removal, from line `i` on: directive lines vanish together with the
/// line terminator before them; every other line is kept, preceded by its
/// terminator when it is not the first line of the text. A directive on the
/// first line therefore leaves its own terminator behind, as a leading
/// newline of the result.
pub open spec fn spec_remove_from(ls: Seq<Seq<char>>, i: int) -> Seq<char>
    decreases ls.len() - i,
{
    if i < 0 || i >= ls.len() {
        Seq::empty()
    } else if is_lang_line(ls[i]) {
        spec_remove_from(ls, i + 1)
    } else {
        (if i > 0 {
            seq!['\n']
        } else {
            Seq::<char>::empty()
        }) + strip_cr(ls, i) + spec_remove_from(ls, i + 1)
    }
}

/// The removal of all language directive lines from `t`.
pub open spec fn spec_remove(t: Seq<char>) -> Seq<char> {
    spec_remove_from(spec_lines(t), 0)
}

/// Decides whether the whole of `p` is a language directive line.
pub fn is_language_line(p: &str) -> (r: bool)
    ensures
        r == is_lang_line(p@),
{
    let n = p.unicode_len();
    if n < 11 {
        return false;
    }
    let key = "g_language";
    proof {
        reveal_strlit("g_language");
        assert(key@ =~= key_chars());
    }
    let mut i: usize = 0;
    while i < 10
        invariant
            0 <= i <= 10,
            n == p@.len(),
            n >= 11,
            key@ == key_chars(),
            forall|k: int| 0 <= k < i ==> p@[k] == key_chars()[k],
        decreases 10 - i,
    {
        if p.get_char(i) != key.get_char(i) {
            proof {
                assert(p@.take(10)[i as int] != key_chars()[i as int]);
            }
            return false;
        }
        i += 1;
    }
    proof {
        assert(p@.take(10) =~= key_chars());
    }
    let mut j: usize = 10;
    while j < n
        invariant
            10 <= j <= n,
            n == p@.len(),
            n >= 11,
            p@.take(10) == key_chars(),
            ws_eq_at(p@, 10) == ws_eq_at(p@, j as int),
        decreases n - j,
    {
        let c = p.get_char(j);
        if c == '=' {
            return true;
        }
        if !(c == ' ' || c == '\t' || c == '\n' || c == '\r' || c == '\u{B}' || c == '\u{C}') {
            return false;
        }
        j += 1;
    }
    proof {
        assert(!ws_eq_at(p@, n as int));
    }
    false
}

/// Sets or replaces the language directive in the config text `content`:
/// every directive line becomes `g_language = <code>`; if there is none, that
/// line is appended, kept on a line of its own.
pub fn upsert_language_line(content: &str, code: &str) -> (r: String)
    ensures
        r@ == spec_upsert(content@, code@),
{
    let lines = split_lines(content);
    let ghost ls = spec_lines(content@);
    let mut has: bool = false;
    let mut i: usize = 0;
    while i < lines.len()
        invariant
            0 <= i <= lines.len(),
            lines.deep_view() == ls,
            has == exists|k: int| 0 <= k < i && is_lang_line(#[trigger] ls[k]),
        decreases lines.len() - i,
    {
        proof {
            assert(lines.deep_view()[i as int] == lines@[i as int]@);
        }
        if is_language_line(lines[i]) {
            has = true;
        }
        i += 1;
    }
    proof {
        assert(has == spec_has_lang(content@));
    }
    if has {
        let ghost mls = ls.map_values(
            |p: Seq<char>| if is_lang_line(p) { lang_line_text(code@) } else { p },
        );
        let mut out = String::new();
        let mut i: usize = 0;
        proof {
            assert(out@ =~= spec_join(mls.take(0)));
        }
        while i < lines.len()
            invariant
                0 <= i <= lines.len(),
                lines.deep_view() == ls,
                mls == ls.map_values(
                    |p: Seq<char>| if is_lang_line(p) { lang_line_text(code@) } else { p },
                ),
                out@ == spec_join(mls.take(i as int)),
            decreases lines.len() - i,
        {
            if i > 0 {
                out.append("\n");
                proof {
                    reveal_strlit("\n");
                    assert("\n"@ =~= seq!['\n']);
                }
            }
            proof {
                assert(lines.deep_view()[i as int] == lines@[i as int]@);
            }
            if is_language_line(lines[i]) {
                out.append("g_language = ");
                out.append(code);
                proof {
                    assert(mls[i as int] == lang_line_text(code@));
                }
            } else {
                out.append(lines[i]);
                proof {
                    assert(mls[i as int] == ls[i as int]);
                }
            }
            proof {
                lemma_join_push(mls.take(i as int), mls[i as int]);
                assert(mls.take(i as int).push(mls[i as int]) =~= mls.take(i + 1));
            }
            i += 1;
        }
        proof {
            assert(mls.take(mls.len() as int) =~= mls);
        }
        out
    } else {
        let mut out = String::new();
        out.append(content);
        let n = content.unicode_len();
        if n > 0 && content.get_char(n - 1) != '\n' {
            out.append("\n");
            proof {
                reveal_strlit("\n");
                assert("\n"@ =~= seq!['\n']);
            }
        }
        out.append("g_language = ");
        out.append(code);
        out.append("\n");
        proof {
            reveal_strlit("\n");
            assert("\n"@ =~= seq!['\n']);
        }
        out
    }
}

/// Removes every language directive line from the config text `content`,
/// together with the line terminator preceding it; a directive on the very
/// first line leaves its own terminator behind.
pub fn remove_language_lines(content: &str) -> (r: String)
    ensures
        r@ == spec_remove(content@),
{
    let lines = split_lines(content);
    let ghost ls = spec_lines(content@);
    let mut flags: Vec<bool> = Vec::new();
    let mut i: usize = 0;
    while i < lines.len()
        invariant
            0 <= i <= lines.len(),
            lines.deep_view() == ls,
            flags.len() == i,
            forall|k: int| 0 <= k < i ==> flags@[k] == is_lang_line(#[trigger] ls[k]),
        decreases lines.len() - i,
    {
        proof {
            assert(lines.deep_view()[i as int] == lines@[i as int]@);
        }
        flags.push(is_language_line(lines[i]));
        i += 1;
    }
    let mut out = String::new();
    let mut i: usize = 0;
    proof {
        assert(out@ + spec_remove_from(ls, 0) =~= spec_remove_from(ls, 0));
    }
    while i < lines.len()
        invariant
            0 <= i <= lines.len(),
            lines.deep_view() == ls,
            flags.len() == lines.len(),
            forall|k: int| 0 <= k < flags.len() ==> flags@[k] == is_lang_line(#[trigger] ls[k]),
            out@ + spec_remove_from(ls, i as int) == spec_remove_from(ls, 0),
        decreases lines.len() - i,
    {
        let ghost out0 = out@;
        let ghost sep: Seq<char> = if i > 0 {
            seq!['\n']
        } else {
            Seq::<char>::empty()
        };
        if !flags[i] {
            if i > 0 {
                out.append("\n");
                proof {
                    reveal_strlit("\n");
                    assert("\n"@ =~= seq!['\n']);
                }
            }
            let li = lines[i];
            proof {
                assert(lines.deep_view()[i as int] == lines@[i as int]@);
                assert(li@ == ls[i as int]);
            }
            let m = li.unicode_len();
            if i + 1 < lines.len() && flags[i + 1] && m > 0 && li.get_char(m - 1) == '\r' {
                out.append(li.substring_char(0, m - 1));
                proof {
                    assert(li@.subrange(0, m - 1) =~= ls[i as int].drop_last());
                    assert(strip_cr(ls, i as int) == ls[i as int].drop_last());
                }
            } else {
                out.append(li);
                proof {
                    assert(strip_cr(ls, i as int) == ls[i as int]);
                }
            }
            proof {
                assert(out@ =~= out0 + sep + strip_cr(ls, i as int));
                assert(spec_remove_from(ls, i as int) == sep + strip_cr(ls, i as int)
                    + spec_remove_from(ls, i + 1));
                assert((out0 + sep + strip_cr(ls, i as int)) + spec_remove_from(ls, i + 1) =~= out0
                    + (sep + strip_cr(ls, i as int) + spec_remove_from(ls, i + 1)));
            }
        }
        i += 1;
    }
    proof {
        assert(spec_remove_from(ls, ls.len() as int) =~= Seq::<char>::empty());
        assert(out@ + Seq::<char>::empty() =~= out@);
    }
    out
}

} // verus!
