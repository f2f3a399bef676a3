//! Properties of the directive upsert and removal, stated over the line
//! model and proved once for all inputs.

use vstd::prelude::*;
use crate::lines::{
    lemma_join_lines, lemma_lines_concat, lemma_lines_len, lemma_lines_no_nl, lemma_lines_of_join,
    spec_join, spec_lines,
};
use crate::directive::{
    is_lang_line, key_chars, lang_line_text, spec_has_lang, spec_remove, spec_remove_from,
    spec_upsert, strip_cr, ws_eq_at,
};

verus! {

/// Extending a line to the right cannot break the directive shape: the key,
/// the whitespace and the `=` all sit in the prefix.
proof fn lemma_ws_eq_at_prefix(p: Seq<char>, q: Seq<char>, i: int)
    requires
        p.len() <= q.len(),
        forall|j: int| 0 <= j < p.len() ==> p[j] == q[j],
        ws_eq_at(p, i),
    ensures
        ws_eq_at(q, i),
    decreases p.len() - i,
{
    if p[i] == '=' {
    } else {
        lemma_ws_eq_at_prefix(p, q, i + 1);
    }
}

proof fn lemma_is_lang_line_extend(p: Seq<char>, q: Seq<char>)
    requires
        p.len() <= q.len(),
        forall|j: int| 0 <= j < p.len() ==> p[j] == q[j],
        is_lang_line(p),
    ensures
        is_lang_line(q),
{
    assert(p.take(10) =~= q.take(10));
    lemma_ws_eq_at_prefix(p, q, 10);
}

/// The line the upsert writes is itself a directive line.
proof fn lemma_lang_line_text_is_lang(c: Seq<char>)
    ensures
        is_lang_line(lang_line_text(c)),
{
    reveal_strlit("g_language = ");
    let l = lang_line_text(c);
    assert(l.take(10) =~= key_chars());
    assert(l[10] == ' ');
    assert(l[11] == '=');
    assert(ws_eq_at(l, 11));
    assert(ws_eq_at(l, 10));
}

/// The line the upsert writes holds no newline when the code holds none.
proof fn lemma_lang_line_text_no_nl(c: Seq<char>)
    requires
        forall|j: int| 0 <= j < c.len() ==> c[j] != '\n',
    ensures
        forall|j: int| 0 <= j < lang_line_text(c).len() ==> lang_line_text(c)[j] != '\n',
{
    reveal_strlit("g_language = ");
    let l = lang_line_text(c);
    assert forall|j: int| 0 <= j < l.len() implies l[j] != '\n' by {
        if j >= 13 {
            assert(l[j] == c[j - 13]);
        }
    }
}

/// What the line emitted for a kept line may lose (one carriage return)
/// cannot make it a directive line.
proof fn lemma_strip_cr_not_lang(ls: Seq<Seq<char>>, i: int)
    requires
        0 <= i < ls.len(),
        !is_lang_line(ls[i]),
    ensures
        !is_lang_line(strip_cr(ls, i)),
{
    let s = strip_cr(ls, i);
    if s != ls[i] {
        if is_lang_line(s) {
            lemma_is_lang_line_extend(s, ls[i]);
        }
    }
}

/// The lines of the text the upsert produces when it appends: every line of
/// the input, then the directive line, then the empty line after the final
/// newline. The line count grows by one, or by two when a separating newline
/// had to be added first.
pub proof fn lemma_upsert_appends(t: Seq<char>, c: Seq<char>)
    requires
        !spec_has_lang(t),
        forall|j: int| 0 <= j < c.len() ==> c[j] != '\n',
    ensures
        t.len() == 0 ==> spec_lines(spec_upsert(t, c)) == seq![
            lang_line_text(c),
            Seq::<char>::empty(),
        ],
        t.len() > 0 && t.last() == '\n' ==> spec_lines(spec_upsert(t, c)) == spec_lines(
            t,
        ).drop_last() + seq![lang_line_text(c), Seq::<char>::empty()],
        t.len() > 0 && t.last() != '\n' ==> spec_lines(spec_upsert(t, c)) == spec_lines(t) + seq![
            lang_line_text(c),
            Seq::<char>::empty(),
        ],
        spec_lines(spec_upsert(t, c)).len() == spec_lines(t).len() + 1 + (if t.len() > 0
            && t.last() != '\n' {
            1int
        } else {
            0int
        }),
{
    let u = spec_upsert(t, c);
    let l = lang_line_text(c);
    lemma_lang_line_text_no_nl(c);
    let lnl = l + seq!['\n'];
    assert(spec_lines(l + seq!['\n'] + Seq::<char>::empty()) == spec_lines(l) + spec_lines(
        Seq::<char>::empty(),
    )) by {
        lemma_lines_concat(l, Seq::<char>::empty());
    }
    assert(spec_lines(l) =~= seq![l]) by {
        crate::lines::lemma_first_nl_is(l, l.len() as int);
    }
    assert(spec_lines(Seq::<char>::empty()) =~= seq![Seq::<char>::empty()]) by {
        crate::lines::lemma_first_nl_is(Seq::<char>::empty(), 0);
    }
    assert(spec_lines(lnl) == seq![l, Seq::<char>::empty()]) by {
        assert(l + seq!['\n'] + Seq::<char>::empty() =~= lnl);
        assert(seq![l] + seq![Seq::<char>::empty()] =~= seq![l, Seq::<char>::empty()]);
    }
    if t.len() == 0 {
        assert(u == lnl);
        assert(spec_lines(t).len() == 1) by {
            crate::lines::lemma_first_nl_is(t, 0);
        }
    } else if t.last() == '\n' {
        let t0 = t.drop_last();
        assert(t0 + seq!['\n'] + lnl =~= u);
        assert(t0 + seq!['\n'] + Seq::<char>::empty() =~= t);
        lemma_lines_concat(t0, lnl);
        lemma_lines_concat(t0, Seq::<char>::empty());
        assert(spec_lines(t) == spec_lines(t0) + seq![Seq::<char>::empty()]);
        assert(spec_lines(t).drop_last() =~= spec_lines(t0));
        assert(spec_lines(u) == spec_lines(t0) + seq![l, Seq::<char>::empty()]);
        lemma_lines_len(t0);
    } else {
        assert(t + seq!['\n'] + lnl =~= u);
        lemma_lines_concat(t, lnl);
        lemma_lines_len(t);
    }
}

/// The lines of the text the upsert produces when a directive is present:
/// line for line the lines of the input, with every directive line replaced
/// by the directive for `c` and every other line kept unchanged.
pub proof fn lemma_upsert_replaces(t: Seq<char>, c: Seq<char>)
    requires
        spec_has_lang(t),
        forall|j: int| 0 <= j < c.len() ==> c[j] != '\n',
    ensures
        spec_lines(spec_upsert(t, c)).len() == spec_lines(t).len(),
        forall|k: int|
            0 <= k < spec_lines(t).len() && is_lang_line(#[trigger] spec_lines(t)[k])
                ==> spec_lines(spec_upsert(t, c))[k] == lang_line_text(c),
        forall|k: int|
            0 <= k < spec_lines(t).len() && !is_lang_line(#[trigger] spec_lines(t)[k])
                ==> spec_lines(spec_upsert(t, c))[k] == spec_lines(t)[k],
{
    let ls = spec_lines(t);
    let mls = ls.map_values(|p: Seq<char>| if is_lang_line(p) { lang_line_text(c) } else { p });
    lemma_lines_no_nl(t);
    lemma_lang_line_text_no_nl(c);
    lemma_lines_len(t);
    assert forall|k: int, j: int|
        0 <= k < mls.len() && 0 <= j < mls[k].len() implies #[trigger] mls[k][j] != '\n' by {
        if is_lang_line(ls[k]) {
            assert(mls[k] == lang_line_text(c));
        } else {
            assert(mls[k] == ls[k]);
        }
    }
    lemma_lines_of_join(mls);
}

/// Applying the upsert twice with the same code yields the same text as
/// applying it once.
pub proof fn lemma_upsert_idempotent(t: Seq<char>, c: Seq<char>)
    requires
        forall|j: int| 0 <= j < c.len() ==> c[j] != '\n',
    ensures
        spec_upsert(spec_upsert(t, c), c) == spec_upsert(t, c),
{
    let u = spec_upsert(t, c);
    let l = lang_line_text(c);
    lemma_lang_line_text_is_lang(c);
    let ls = spec_lines(t);
    let ls2 = spec_lines(u);
    if spec_has_lang(t) {
        lemma_upsert_replaces(t, c);
        let k0 = choose|k: int| 0 <= k < ls.len() && is_lang_line(#[trigger] ls[k]);
        assert(ls2[k0] == l);
        assert(spec_has_lang(u));
        assert forall|k: int| 0 <= k < ls2.len() && is_lang_line(#[trigger] ls2[k]) implies ls2[k]
            == l by {
            if !is_lang_line(ls[k]) {
                assert(ls2[k] == ls[k]);
            }
        }
    } else {
        lemma_upsert_appends(t, c);
        if t.len() == 0 {
            assert(ls2[0] == l);
        } else if t.last() == '\n' {
            assert(ls2[ls.len() - 1] == l);
        } else {
            assert(ls2[ls.len() as int] == l);
        }
        assert(spec_has_lang(u));
        assert forall|k: int| 0 <= k < ls2.len() && is_lang_line(#[trigger] ls2[k]) implies ls2[k]
            == l by {
            if t.len() == 0 {
                assert(ls2 == seq![l, Seq::<char>::empty()]);
                if k == 1 {
                    assert(ls2[1] == Seq::<char>::empty());
                    assert(!is_lang_line(Seq::<char>::empty()));
                }
            } else if t.last() == '\n' {
                if k < ls.len() - 1 {
                    assert(ls2[k] == ls.drop_last()[k]);
                    assert(ls.drop_last()[k] == ls[k]);
                    assert(!is_lang_line(ls[k]));
                } else if k == ls.len() {
                    assert(ls2[k] == Seq::<char>::empty());
                }
            } else {
                if k < ls.len() {
                    assert(ls2[k] == ls[k]);
                    assert(!is_lang_line(ls[k]));
                } else if k == ls.len() + 1 {
                    assert(ls2[k] == Seq::<char>::empty());
                }
            }
        }
    }
    let mls2 = ls2.map_values(|p: Seq<char>| if is_lang_line(p) { lang_line_text(c) } else { p });
    assert(mls2 =~= ls2) by {
        assert forall|k: int| 0 <= k < ls2.len() implies mls2[k] == ls2[k] by {
            if is_lang_line(ls2[k]) {
                assert(ls2[k] == l);
            }
        }
    }
    lemma_join_lines(u);
    assert(spec_upsert(u, c) == spec_join(mls2));
}

/// Shape of a removal's tail: none of its lines is a directive, and from the
/// second input line on it is either empty or opens with the separator it
/// kept.
proof fn lemma_remove_from_shape(ls: Seq<Seq<char>>, i: int)
    requires
        0 <= i <= ls.len(),
        forall|k: int, j: int|
            0 <= k < ls.len() && 0 <= j < ls[k].len() ==> #[trigger] ls[k][j] != '\n',
    ensures
        forall|k: int|
            0 <= k < spec_lines(spec_remove_from(ls, i)).len() ==> !is_lang_line(
                #[trigger] spec_lines(spec_remove_from(ls, i))[k],
            ),
        i > 0 ==> (spec_remove_from(ls, i).len() == 0 || spec_remove_from(ls, i)[0] == '\n'),
    decreases ls.len() - i,
{
    if i >= ls.len() {
        crate::lines::lemma_first_nl_is(Seq::<char>::empty(), 0);
        assert(spec_lines(Seq::<char>::empty()) =~= seq![Seq::<char>::empty()]);
    } else if is_lang_line(ls[i]) {
        lemma_remove_from_shape(ls, i + 1);
    } else {
        lemma_remove_from_shape(ls, i + 1);
        let s = strip_cr(ls, i);
        lemma_strip_cr_not_lang(ls, i);
        let rest = spec_remove_from(ls, i + 1);
        let sep: Seq<char> = if i > 0 {
            seq!['\n']
        } else {
            Seq::<char>::empty()
        };
        let rf = spec_remove_from(ls, i);
        assert(rf == sep + s + rest);
        assert(forall|j: int| 0 <= j < s.len() ==> s[j] != '\n');
        crate::lines::lemma_first_nl_is(s, s.len() as int);
        assert(spec_lines(s) =~= seq![s]);
        if rest.len() == 0 {
            if i > 0 {
                assert(rf =~= Seq::<char>::empty() + seq!['\n'] + s);
                lemma_lines_concat(Seq::<char>::empty(), s);
                crate::lines::lemma_first_nl_is(Seq::<char>::empty(), 0);
                assert(spec_lines(Seq::<char>::empty()) =~= seq![Seq::<char>::empty()]);
                assert(spec_lines(rf) == seq![Seq::<char>::empty()] + seq![s]);
            } else {
                assert(rf =~= s);
            }
        } else {
            assert(rest[0] == '\n');
            let x = rest.drop_first();
            assert(Seq::<char>::empty() + seq!['\n'] + x =~= rest);
            lemma_lines_concat(Seq::<char>::empty(), x);
            crate::lines::lemma_first_nl_is(Seq::<char>::empty(), 0);
            assert(spec_lines(Seq::<char>::empty()) =~= seq![Seq::<char>::empty()]);
            assert(spec_lines(rest) == seq![Seq::<char>::empty()] + spec_lines(x));
            assert forall|k: int| 0 <= k < spec_lines(x).len() implies !is_lang_line(
                #[trigger] spec_lines(x)[k],
            ) by {
                assert(spec_lines(x)[k] == spec_lines(rest)[k + 1]);
            }
            lemma_lines_concat(s, x);
            if i > 0 {
                assert(rf =~= Seq::<char>::empty() + seq!['\n'] + (s + seq!['\n'] + x));
                lemma_lines_concat(Seq::<char>::empty(), s + seq!['\n'] + x);
                assert(spec_lines(rf) == seq![Seq::<char>::empty()] + (seq![s] + spec_lines(x)));
            } else {
                assert(rf =~= s + seq!['\n'] + x);
                assert(spec_lines(rf) == seq![s] + spec_lines(x));
            }
        }
    }
}

/// After a removal no directive line remains.
pub proof fn lemma_remove_no_directive(t: Seq<char>)
    ensures
        forall|k: int|
            0 <= k < spec_lines(spec_remove(t)).len() ==> !is_lang_line(
                #[trigger] spec_lines(spec_remove(t))[k],
            ),
{
    lemma_lines_no_nl(t);
    lemma_remove_from_shape(spec_lines(t), 0);
}

/// On a text without directive lines the removal changes nothing: it is the
/// join of the lines it was given.
proof fn lemma_remove_from_all_kept(ms: Seq<Seq<char>>, i: int)
    requires
        0 <= i <= ms.len(),
        forall|k: int| 0 <= k < ms.len() ==> !is_lang_line(#[trigger] ms[k]),
    ensures
        i == ms.len() ==> spec_remove_from(ms, i) == Seq::<char>::empty(),
        i < ms.len() ==> spec_remove_from(ms, i) == (if i > 0 {
            seq!['\n']
        } else {
            Seq::<char>::empty()
        }) + spec_join(ms.skip(i)),
    decreases ms.len() - i,
{
    if i == ms.len() {
    } else {
        lemma_remove_from_all_kept(ms, i + 1);
        let sep: Seq<char> = if i > 0 {
            seq!['\n']
        } else {
            Seq::<char>::empty()
        };
        assert(strip_cr(ms, i) == ms[i]);
        if i + 1 == ms.len() {
            assert(ms.skip(i) =~= seq![ms[i]]);
            assert(spec_join(seq![ms[i]]) == ms[i]);
            assert(sep + ms[i] + Seq::<char>::empty() =~= sep + spec_join(ms.skip(i)));
        } else {
            assert(ms.skip(i).drop_first() =~= ms.skip(i + 1));
            assert(ms.skip(i)[0] == ms[i]);
            assert(spec_join(ms.skip(i)) == ms[i] + seq!['\n'] + spec_join(ms.skip(i + 1)));
            assert(sep + ms[i] + (seq!['\n'] + spec_join(ms.skip(i + 1))) =~= sep + (ms[i]
                + seq!['\n'] + spec_join(ms.skip(i + 1))));
        }
    }
}

/// Running the removal a second time is a no-op.
pub proof fn lemma_remove_idempotent(t: Seq<char>)
    ensures
        spec_remove(spec_remove(t)) == spec_remove(t),
{
    let u = spec_remove(t);
    lemma_remove_no_directive(t);
    lemma_lines_len(u);
    lemma_remove_from_all_kept(spec_lines(u), 0);
    assert(spec_lines(u).skip(0) =~= spec_lines(u));
    lemma_join_lines(u);
    assert(Seq::<char>::empty() + spec_join(spec_lines(u)) =~= spec_join(spec_lines(u)));
}

} // verus!
