//! Version enumeration: which subdirectories of the base folder count as
//! installed game versions, and the sorted list of their names.

use vstd::prelude::*;

verus! {

/// What the shell observed about one entry of the base folder: its name and
/// whether it is a directory holding a `data` subdirectory and the launcher
/// executable.
pub struct VersionEntry {
    pub name: String,
    pub is_dir: bool,
    pub has_data_dir: bool,
    pub has_launcher_exe: bool,
}

/// An entry counts as an installed version when it is a directory with a
/// `data` subdirectory and the launcher executable directly inside it.
pub open spec fn spec_qualifies(e: VersionEntry) -> bool {
    e.is_dir && e.has_data_dir && e.has_launcher_exe
}

/// The names of the qualifying entries, in the order given.
pub open spec fn qualifying_names(s: Seq<VersionEntry>) -> Seq<Seq<char>> {
    s.filter(|e: VersionEntry| spec_qualifies(e)).map_values(|e: VersionEntry| e.name@)
}

/// Lexicographic order on character sequences, by code point; on names this
/// is the order a byte-wise string comparison gives.
pub open spec fn chars_le(a: Seq<char>, b: Seq<char>) -> bool
    decreases a.len(),
{
    if a.len() == 0 {
        true
    } else if b.len() == 0 {
        false
    } else if (a[0] as u32) == (b[0] as u32) {
        chars_le(a.drop_first(), b.drop_first())
    } else {
        (a[0] as u32) < (b[0] as u32)
    }
}

pub proof fn lemma_chars_le_total(a: Seq<char>, b: Seq<char>)
    ensures
        chars_le(a, b) || chars_le(b, a),
    decreases a.len(),
{
    if a.len() == 0 {
    } else if b.len() == 0 {
    } else if (a[0] as u32) == (b[0] as u32) {
        lemma_chars_le_total(a.drop_first(), b.drop_first());
    } else {
    }
}

pub proof fn lemma_chars_le_trans(a: Seq<char>, b: Seq<char>, c: Seq<char>)
    requires
        chars_le(a, b),
        chars_le(b, c),
    ensures
        chars_le(a, c),
    decreases a.len(),
{
    if a.len() == 0 {
    } else if (a[0] as u32) == (b[0] as u32) && (b[0] as u32) == (c[0] as u32) {
        lemma_chars_le_trans(a.drop_first(), b.drop_first(), c.drop_first());
    } else {
    }
}

/// Ascending lexicographic order over a whole list of names.
pub open spec fn names_sorted(s: Seq<Seq<char>>) -> bool {
    forall|i: int, j: int| 0 <= i < j < s.len() ==> chars_le(#[trigger] s[i], #[trigger] s[j])
}

/// Compares two names in lexicographic order.
pub fn str_le(a: &str, b: &str) -> (r: bool)
    ensures
        r == chars_le(a@, b@),
{
    let na = a.unicode_len();
    let nb = b.unicode_len();
    let mut i: usize = 0;
    proof {
        assert(a@.skip(0) =~= a@);
        assert(b@.skip(0) =~= b@);
    }
    while i < na && i < nb
        invariant
            0 <= i <= na,
            0 <= i <= nb,
            na == a@.len(),
            nb == b@.len(),
            chars_le(a@, b@) == chars_le(a@.skip(i as int), b@.skip(i as int)),
        decreases na - i,
    {
        let ca = a.get_char(i) as u32;
        let cb = b.get_char(i) as u32;
        if ca != cb {
            proof {
                assert(a@.skip(i as int)[0] == a@[i as int]);
                assert(b@.skip(i as int)[0] == b@[i as int]);
            }
            return ca < cb;
        }
        proof {
            assert(a@.skip(i as int).drop_first() =~= a@.skip(i + 1));
            assert(b@.skip(i as int).drop_first() =~= b@.skip(i + 1));
        }
        i += 1;
    }
    proof {
        if i >= na {
            assert(a@.skip(i as int).len() == 0);
        } else {
            assert(b@.skip(i as int).len() == 0);
            assert(a@.skip(i as int).len() > 0);
        }
    }
    i >= na
}

/// Sorts a list of names into ascending lexicographic order, keeping exactly
/// the names given.
pub fn sort_names(names: Vec<String>) -> (r: Vec<String>)
    ensures
        names_sorted(r.deep_view()),
        r.deep_view().to_multiset() == names.deep_view().to_multiset(),
{
    let mut v = names;
    let ghost orig = v.deep_view();
    if v.len() < 2 {
        proof {
            assert(names_sorted(v.deep_view()));
        }
        return v;
    }
    let mut i: usize = 1;
    while i < v.len()
        invariant
            1 <= i <= v.len(),
            v@.len() == orig.len(),
            v.deep_view().to_multiset() == orig.to_multiset(),
            names_sorted(v.deep_view().take(i as int)),
        decreases v.len() - i,
    {
        let ghost pre = v.deep_view();
        let x = v.remove(i);
        let ghost d0 = v.deep_view();
        let ghost dx = x@;
        proof {
            assert(d0 =~= pre.remove(i as int));
            assert(pre[i as int] == dx);
            broadcast use vstd::seq_lib::group_to_multiset_ensures;

            assert(d0.to_multiset() == pre.to_multiset().remove(dx)) by {
                vstd::seq_lib::to_multiset_remove(pre, i as int);
            }
        }
        let mut p: usize = 0;
        while p < i && !str_le(x.as_str(), v[p].as_str())
            invariant
                0 <= p <= i,
                i <= v.len(),
                x@ == dx,
                v.deep_view() == d0,
                forall|k: int| 0 <= k < p ==> !chars_le(dx, #[trigger] d0[k]),
            decreases i - p,
        {
            proof {
                assert(v.deep_view()[p as int] == v@[p as int]@);
            }
            p += 1;
        }
        proof {
            if p < i {
                assert(v.deep_view()[p as int] == v@[p as int]@);
            }
        }
        v.insert(p, x);
        proof {
            let d1 = v.deep_view();
            assert(d1 =~= d0.insert(p as int, dx));
            broadcast use vstd::seq_lib::group_to_multiset_ensures;
            broadcast use vstd::multiset::group_multiset_axioms;

            assert(d1.to_multiset() == d0.to_multiset().insert(dx)) by {
                vstd::seq_lib::to_multiset_insert(d0, p as int, dx);
            }
            assert(pre.contains(dx));
            assert(pre.to_multiset().count(dx) > 0);
            assert(d1.to_multiset() =~= pre.to_multiset());
            // the prefix the element was drawn from is unchanged by the removal
            assert forall|k: int| 0 <= k < i implies d0[k] == pre[k] by {}
            // every element before the insertion point is at most the new one
            assert forall|k: int| 0 <= k < p implies chars_le(d0[k], dx) by {
                lemma_chars_le_total(dx, d0[k]);
            }
            // the new element is at most everything from the insertion point on
            assert forall|k: int| p <= k < i implies chars_le(dx, d0[k]) by {
                if p < i && k > p {
                    assert(chars_le(d0[p as int], d0[k]));
                    lemma_chars_le_trans(dx, d0[p as int], d0[k]);
                }
            }
            assert forall|a: int, b: int| 0 <= a < b < i + 1 implies chars_le(
                #[trigger] d1.take(i as int + 1)[a],
                #[trigger] d1.take(i as int + 1)[b],
            ) by {
                let ta = if a < p {
                    d0[a]
                } else if a == p {
                    dx
                } else {
                    d0[a - 1]
                };
                assert(d1[a] == ta);
                if b < p {
                    assert(d1[b] == d0[b]);
                } else if b == p {
                    assert(d1[b] == dx);
                    if a < p {
                        lemma_chars_le_total(dx, d0[a]);
                    }
                } else {
                    assert(d1[b] == d0[b - 1]);
                    if a < p {
                        lemma_chars_le_trans(d0[a], dx, d0[b - 1]);
                    }
                }
            }
            assert(names_sorted(d1.take(i as int + 1)));
        }
        i += 1;
    }
    proof {
        assert(v.deep_view().take(v@.len() as int) =~= v.deep_view());
    }
    v
}

/// The version list: the names of the entries that count as installed
/// versions, in ascending lexicographic order. An entry without a `data`
/// subdirectory (or not a directory, or without the launcher executable) is
/// excluded.
pub fn find_available_versions(entries: &Vec<VersionEntry>) -> (r: Vec<String>)
    ensures
        names_sorted(r.deep_view()),
        r.deep_view().to_multiset() == qualifying_names(entries@).to_multiset(),
{
    let mut names: Vec<String> = Vec::new();
    let mut i: usize = 0;
    proof {
        assert(entries@.take(0) =~= Seq::<VersionEntry>::empty());
        assert(qualifying_names(Seq::<VersionEntry>::empty()) =~= Seq::<Seq<char>>::empty());
        assert(names.deep_view() =~= Seq::<Seq<char>>::empty());
    }
    while i < entries.len()
        invariant
            0 <= i <= entries.len(),
            names.deep_view() == qualifying_names(entries@.take(i as int)),
        decreases entries.len() - i,
    {
        let ghost before = names.deep_view();
        let e = &entries[i];
        if e.is_dir && e.has_data_dir && e.has_launcher_exe {
            names.push(e.name.clone());
        }
        proof {
            let pred = |en: VersionEntry| spec_qualifies(en);
            let f = |en: VersionEntry| en.name@;
            assert(entries@.take(i + 1) =~= entries@.take(i as int).push(entries@[i as int]));
            entries@.take(i as int).lemma_filter_push(entries@[i as int], pred);
            if spec_qualifies(entries@[i as int]) {
                assert(entries@.take(i as int).filter(pred).push(entries@[i as int]).map_values(f)
                    =~= entries@.take(i as int).filter(pred).map_values(f).push(
                    entries@[i as int].name@,
                ));
                assert(names.deep_view() =~= before.push(entries@[i as int].name@));
            } else {
                assert(names.deep_view() == before);
            }
            assert(names.deep_view() == qualifying_names(entries@.take(i + 1)));
        }
        i += 1;
    }
    proof {
        assert(entries@.take(entries@.len() as int) =~= entries@);
    }
    sort_names(names)
}

} // verus!
