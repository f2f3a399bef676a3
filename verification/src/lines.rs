//! Line model of a text: a text is the join of its lines, which are the
//! maximal `'\n'`-free segments between newline characters. An empty text has
//! one empty line, and a text ending in `'\n'` has a trailing empty line.

use vstd::prelude::*;

verus! {

/// Index of the first `'\n'` in `t`, or `t.len()` if there is none.
pub open spec fn first_nl(t: Seq<char>) -> int
    decreases t.len(),
{
    if t.len() == 0 {
        0
    } else if t[0] == '\n' {
        0
    } else {
        1 + first_nl(t.drop_first())
    }
}

pub proof fn lemma_first_nl_bounds(t: Seq<char>)
    ensures
        0 <= first_nl(t) <= t.len(),
        first_nl(t) < t.len() ==> t[first_nl(t)] == '\n',
        forall|j: int| 0 <= j < first_nl(t) ==> t[j] != '\n',
    decreases t.len(),
{
    if t.len() == 0 {
    } else if t[0] == '\n' {
    } else {
        lemma_first_nl_bounds(t.drop_first());
        assert forall|j: int| 0 <= j < first_nl(t) implies t[j] != '\n' by {
            if j > 0 {
                assert(t.drop_first()[j - 1] == t[j]);
            }
        }
    }
}

/// `first_nl` is pinned down by its characterization: if everything before
/// `i` is not a newline and `i` is either the end or a newline, then `i` is
/// the first newline position.
pub proof fn lemma_first_nl_is(t: Seq<char>, i: int)
    requires
        0 <= i <= t.len(),
        forall|j: int| 0 <= j < i ==> t[j] != '\n',
        i < t.len() ==> t[i] == '\n',
    ensures
        first_nl(t) == i,
    decreases t.len(),
{
    if t.len() == 0 {
    } else if t[0] == '\n' {
        assert(i == 0);
    } else {
        assert(i > 0);
        assert forall|j: int| 0 <= j < i - 1 implies t.drop_first()[j] != '\n' by {
            assert(t.drop_first()[j] == t[j + 1]);
        }
        assert(i - 1 < t.drop_first().len() ==> t.drop_first()[i - 1] == '\n');
        lemma_first_nl_is(t.drop_first(), i - 1);
    }
}

/// The lines of `t`: segments between newlines, in order.
pub open spec fn spec_lines(t: Seq<char>) -> Seq<Seq<char>>
    decreases t.len(),
    via spec_lines_dec
{
    if first_nl(t) == t.len() {
        seq![t]
    } else {
        seq![t.take(first_nl(t))] + spec_lines(t.skip(first_nl(t) + 1))
    }
}

#[via_fn]
proof fn spec_lines_dec(t: Seq<char>) {
    lemma_first_nl_bounds(t);
}

/// The inverse of `spec_lines`: lines joined with a single `'\n'` between
/// consecutive lines.
pub open spec fn spec_join(ls: Seq<Seq<char>>) -> Seq<char>
    decreases ls.len(),
{
    if ls.len() == 0 {
        Seq::empty()
    } else if ls.len() == 1 {
        ls[0]
    } else {
        ls[0] + seq!['\n'] + spec_join(ls.drop_first())
    }
}

pub proof fn lemma_lines_len(t: Seq<char>)
    ensures
        spec_lines(t).len() >= 1,
{
    lemma_first_nl_bounds(t);
}

/// Every line of a text is free of newline characters.
pub proof fn lemma_lines_no_nl(t: Seq<char>)
    ensures
        forall|k: int, j: int|
            0 <= k < spec_lines(t).len() && 0 <= j < spec_lines(t)[k].len()
                ==> #[trigger] spec_lines(t)[k][j] != '\n',
    decreases t.len(),
{
    lemma_first_nl_bounds(t);
    let i = first_nl(t);
    if i == t.len() {
    } else {
        lemma_lines_no_nl(t.skip(i + 1));
        assert forall|k: int, j: int|
            0 <= k < spec_lines(t).len() && 0 <= j < spec_lines(t)[k].len()
            implies #[trigger] spec_lines(t)[k][j] != '\n' by {
            if k == 0 {
                assert(spec_lines(t)[0] == t.take(i));
                assert(t.take(i)[j] == t[j]);
            } else {
                assert(spec_lines(t)[k] == spec_lines(t.skip(i + 1))[k - 1]);
            }
        }
    }
}

/// Joining the lines of a text gives the text back.
pub proof fn lemma_join_lines(t: Seq<char>)
    ensures
        spec_join(spec_lines(t)) == t,
    decreases t.len(),
{
    lemma_first_nl_bounds(t);
    let i = first_nl(t);
    if i == t.len() {
    } else {
        let rest = t.skip(i + 1);
        lemma_join_lines(rest);
        lemma_lines_len(rest);
        let ls = spec_lines(t);
        assert(ls.drop_first() =~= spec_lines(rest));
        assert(spec_join(ls) == t.take(i) + seq!['\n'] + rest);
        assert(t.take(i) + seq!['\n'] + rest =~= t);
    }
}

/// Splitting distributes over a newline: the lines of `a + '\n' + b` are the
/// lines of `a` followed by the lines of `b`.
pub proof fn lemma_lines_concat(a: Seq<char>, b: Seq<char>)
    ensures
        spec_lines(a + seq!['\n'] + b) == spec_lines(a) + spec_lines(b),
    decreases a.len(),
{
    let t = a + seq!['\n'] + b;
    lemma_first_nl_bounds(a);
    let i = first_nl(a);
    if i == a.len() {
        lemma_first_nl_is(t, a.len() as int);
        assert(t.take(a.len() as int) =~= a);
        assert(t.skip(a.len() as int + 1) =~= b);
        assert(spec_lines(t) =~= spec_lines(a) + spec_lines(b));
    } else {
        lemma_first_nl_is(t, i);
        let arest = a.skip(i + 1);
        lemma_lines_concat(arest, b);
        assert(t.take(i) =~= a.take(i));
        assert(t.skip(i + 1) =~= arest + seq!['\n'] + b);
        assert(spec_lines(t) =~= seq![a.take(i)] + (spec_lines(arest) + spec_lines(b)));
        assert(seq![a.take(i)] + (spec_lines(arest) + spec_lines(b)) =~= spec_lines(a)
            + spec_lines(b));
    }
}

/// Splitting inverts joining, for line lists whose entries hold no newline.
pub proof fn lemma_lines_of_join(ls: Seq<Seq<char>>)
    requires
        ls.len() >= 1,
        forall|k: int, j: int|
            0 <= k < ls.len() && 0 <= j < ls[k].len() ==> #[trigger] ls[k][j] != '\n',
    ensures
        spec_lines(spec_join(ls)) == ls,
    decreases ls.len(),
{
    if ls.len() == 1 {
        lemma_first_nl_is(ls[0], ls[0].len() as int);
        assert(spec_lines(spec_join(ls)) =~= ls);
    } else {
        lemma_lines_of_join(ls.drop_first());
        lemma_lines_concat(ls[0], spec_join(ls.drop_first()));
        lemma_first_nl_is(ls[0], ls[0].len() as int);
        assert(spec_join(ls) == ls[0] + seq!['\n'] + spec_join(ls.drop_first()));
        assert(spec_lines(spec_join(ls)) == seq![ls[0]] + ls.drop_first());
        assert(seq![ls[0]] + ls.drop_first() =~= ls);
    }
}

/// Appending one more line to a list extends the join with a separator,
/// unless the list was empty.
pub proof fn lemma_join_push(ls: Seq<Seq<char>>, x: Seq<char>)
    ensures
        ls.len() == 0 ==> spec_join(ls.push(x)) == x,
        ls.len() >= 1 ==> spec_join(ls.push(x)) == spec_join(ls) + seq!['\n'] + x,
    decreases ls.len(),
{
    if ls.len() == 0 {
        assert(ls.push(x)[0] == x);
    } else if ls.len() == 1 {
        assert(ls.push(x).drop_first() =~= seq![x]);
        assert(spec_join(seq![x]) == x);
        assert(ls.push(x)[0] == ls[0]);
        assert(spec_join(ls.push(x)) == ls.push(x)[0] + seq!['\n'] + spec_join(
            ls.push(x).drop_first(),
        ));
    } else {
        lemma_join_push(ls.drop_first(), x);
        assert(ls.push(x).drop_first() =~= ls.drop_first().push(x));
        assert(spec_join(ls.push(x)) == ls[0] + seq!['\n'] + (spec_join(ls.drop_first())
            + seq!['\n'] + x));
        assert(ls[0] + seq!['\n'] + (spec_join(ls.drop_first()) + seq!['\n'] + x) =~= (ls[0]
            + seq!['\n'] + spec_join(ls.drop_first())) + seq!['\n'] + x);
    }
}

/// Splits a text into its lines, as slices of the input.
pub fn split_lines<'a>(s: &'a str) -> (r: Vec<&'a str>)
    ensures
        r.deep_view() == spec_lines(s@),
{
    let n = s.unicode_len();
    let mut r: Vec<&'a str> = Vec::new();
    let mut start: usize = 0;
    let mut j: usize = 0;
    proof {
        assert(s@.skip(0) =~= s@);
        assert(r.deep_view() =~= Seq::<Seq<char>>::empty());
        assert(r.deep_view() + spec_lines(s@) =~= spec_lines(s@));
    }
    while j < n
        invariant
            0 <= start <= j <= n,
            n == s@.len(),
            forall|k: int| start <= k < j ==> s@[k] != '\n',
            spec_lines(s@) == r.deep_view() + spec_lines(s@.skip(start as int)),
        decreases n - j,
    {
        if s.get_char(j) == '\n' {
            let ghost rest = s@.skip(start as int);
            proof {
                assert forall|k: int| 0 <= k < j - start implies rest[k] != '\n' by {
                    assert(rest[k] == s@[k + start]);
                }
                lemma_first_nl_is(rest, j - start);
                assert(rest.take(j - start) =~= s@.subrange(start as int, j as int));
                assert(rest.skip(j - start + 1) =~= s@.skip(j + 1));
            }
            let line = s.substring_char(start, j);
            r.push(line);
            proof {
                assert(r.deep_view() + spec_lines(s@.skip(j + 1)) =~= spec_lines(s@));
            }
            start = j + 1;
        }
        j += 1;
    }
    let ghost rest = s@.skip(start as int);
    proof {
        assert forall|k: int| 0 <= k < rest.len() implies rest[k] != '\n' by {
            assert(rest[k] == s@[k + start]);
        }
        lemma_first_nl_is(rest, rest.len() as int);
        assert(rest.take(rest.len() as int) =~= rest);
        assert(rest =~= s@.subrange(start as int, n as int));
    }
    let line = s.substring_char(start, n);
    r.push(line);
    proof {
        assert(r.deep_view() =~= spec_lines(s@));
    }
    r
}

} // verus!
