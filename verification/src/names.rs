//! Lexicographic ordering and equality on variable names.
//!
//! The global variable order of every diagram is the character-by-character
//! comparison of variable names; these helpers state that order once and
//! prove the executable comparisons against it.

use vstd::prelude::*;

verus! {

/// Strict lexicographic order on character sequences: the empty sequence
/// comes first, and otherwise the first differing character decides.
pub open spec fn lex_lt(a: Seq<char>, b: Seq<char>) -> bool
    decreases a.len(),
{
    if b.len() == 0 {
        false
    } else if a.len() == 0 {
        true
    } else if a[0] < b[0] {
        true
    } else if a[0] == b[0] {
        lex_lt(a.drop_first(), b.drop_first())
    } else {
        false
    }
}

pub proof fn lemma_lex_lt_irrefl(a: Seq<char>)
    ensures
        !lex_lt(a, a),
    decreases a.len(),
{
    if a.len() > 0 {
        lemma_lex_lt_irrefl(a.drop_first());
    }
}

pub proof fn lemma_lex_lt_trans(a: Seq<char>, b: Seq<char>, c: Seq<char>)
    requires
        lex_lt(a, b),
        lex_lt(b, c),
    ensures
        lex_lt(a, c),
    decreases a.len(),
{
    if a.len() > 0 && b.len() > 0 && a[0] == b[0] && b[0] == c[0] {
        lemma_lex_lt_trans(a.drop_first(), b.drop_first(), c.drop_first());
    }
}

pub proof fn lemma_lex_lt_connected(a: Seq<char>, b: Seq<char>)
    requires
        !lex_lt(a, b),
        !lex_lt(b, a),
    ensures
        a =~= b,
    decreases a.len(),
{
    if a.len() == 0 {
        assert(b.len() == 0);
    } else if b.len() == 0 {
        assert(false);
    } else if a[0] == b[0] {
        lemma_lex_lt_connected(a.drop_first(), b.drop_first());
        assert(a.len() == b.len());
        assert forall|i: int| 0 <= i < a.len() implies a[i] == b[i] by {
            if i > 0 {
                assert(a[i] == a.drop_first()[i - 1]);
                assert(b[i] == b.drop_first()[i - 1]);
            }
        }
    } else {
        assert(false);
    }
}

/// The views of a vector of names.
pub open spec fn name_seq(ss: Seq<String>) -> Seq<Seq<char>> {
    ss.map_values(|s: String| s@)
}

/// Strictly ascending in the global variable order: sorted and free of
/// duplicates.
pub open spec fn strict_sorted(vs: Seq<Seq<char>>) -> bool {
    forall|i: int, j: int| 0 <= i < j < vs.len() ==> lex_lt(vs[i], vs[j])
}

/// The set of names held by a vector of names.
pub open spec fn name_set(ss: Seq<String>) -> Set<Seq<char>> {
    Set::new(|v: Seq<char>| exists|i: int| 0 <= i < ss.len() && ss[i]@ == v)
}

/// A strictly sorted vector holds as many names as its set: strict
/// sorting leaves no room for duplicates.
pub proof fn lemma_name_set_card(ss: Seq<String>)
    requires
        strict_sorted(name_seq(ss)),
    ensures
        name_set(ss).finite(),
        name_set(ss).len() == ss.len(),
    decreases ss.len(),
{
    if ss.len() == 0 {
        assert(name_set(ss) =~= Set::<Seq<char>>::empty());
    } else {
        let prefix = ss.drop_last();
        assert(strict_sorted(name_seq(prefix))) by {
            assert(forall|i: int, j: int|
                0 <= i < j < prefix.len() ==> name_seq(prefix)[i] == name_seq(ss)[i] && name_seq(
                    prefix,
                )[j] == name_seq(ss)[j]);
        }
        lemma_name_set_card(prefix);
        let last = ss.last()@;
        assert(name_set(ss) =~= name_set(prefix).insert(last)) by {
            assert forall|v: Seq<char>|
                name_set(ss).contains(v) == name_set(prefix).insert(last).contains(v) by {
                if name_set(ss).contains(v) {
                    let k = choose|k: int| 0 <= k < ss.len() && ss[k]@ == v;
                    if k < ss.len() - 1 {
                        assert(prefix[k]@ == v);
                        assert(name_set(prefix).contains(v));
                    }
                }
                if name_set(prefix).contains(v) {
                    let k = choose|k: int| 0 <= k < prefix.len() && prefix[k]@ == v;
                    assert(ss[k]@ == v);
                    assert(name_set(ss).contains(v));
                }
                if v == last {
                    assert(ss[ss.len() - 1]@ == v);
                    assert(name_set(ss).contains(v));
                }
            }
        }
        assert(!name_set(prefix).contains(last)) by {
            if name_set(prefix).contains(last) {
                let k = choose|k: int| 0 <= k < prefix.len() && prefix[k]@ == last;
                assert(lex_lt(name_seq(ss)[k], name_seq(ss)[ss.len() - 1]));
                lemma_lex_lt_irrefl(last);
            }
        }
    }
}

/// Insert `name` into a strictly sorted vector of names, keeping it strictly
/// sorted; a name already present is left alone.
pub fn sorted_insert(acc: &mut Vec<String>, name: &str)
    requires
        strict_sorted(name_seq(old(acc)@)),
    ensures
        strict_sorted(name_seq(final(acc)@)),
        name_set(final(acc)@) == name_set(old(acc)@).insert(name@),
{
    let mut i: usize = 0;
    while i < acc.len() && str_lt(acc[i].as_str(), name)
        invariant
            i <= acc@.len(),
            strict_sorted(name_seq(acc@)),
            acc@ == old(acc)@,
            forall|j: int| 0 <= j < i ==> lex_lt(acc@[j]@, name@),
        decreases acc@.len() - i,
    {
        i += 1;
    }
    if i < acc.len() && str_eq(acc[i].as_str(), name) {
        proof {
            assert(acc@[i as int]@ == name@);
            assert(name_set(acc@).contains(name@));
            assert(name_set(acc@) =~= name_set(old(acc)@).insert(name@));
        }
        return ;
    }
    proof {
        if i < acc@.len() && !lex_lt(name@, acc@[i as int]@) {
            lemma_lex_lt_connected(name@, acc@[i as int]@);
            assert(name@ == acc@[i as int]@);
        }
        assert(i < acc@.len() ==> lex_lt(name@, acc@[i as int]@));
    }
    let ghost before = acc@;
    let owned = name.to_owned();
    let ghost ov = owned;
    acc.insert(i, owned);
    proof {
        before.insert_ensures(i as int, ov);
        assert(acc@ == before.insert(i as int, ov));
        let vs = name_seq(acc@);
        assert forall|p: int, q: int| 0 <= p < q < vs.len() implies lex_lt(vs[p], vs[q]) by {
            if q < i {
                assert(vs[p] == before[p]@ && vs[q] == before[q]@);
                assert(lex_lt(name_seq(before)[p], name_seq(before)[q]));
            } else if p < i && q == i {
                assert(vs[p] == before[p]@ && vs[q] == name@);
                assert(lex_lt(before[p]@, name@));
            } else if p < i && q > i {
                assert(vs[p] == before[p]@ && vs[q] == before[q - 1]@);
                assert(p < q - 1 < before.len());
                assert(lex_lt(name_seq(before)[p], name_seq(before)[q - 1]));
            } else if p == i {
                assert(vs[p] == name@ && vs[q] == before[q - 1]@);
                assert(i <= q - 1 < before.len());
                if q - 1 > i {
                    assert(lex_lt(name_seq(before)[i as int], name_seq(before)[q - 1]));
                    lemma_lex_lt_trans(name@, before[i as int]@, before[q - 1]@);
                }
            } else {
                assert(vs[p] == before[p - 1]@ && vs[q] == before[q - 1]@);
                assert(lex_lt(name_seq(before)[p - 1], name_seq(before)[q - 1]));
            }
        }
        assert(strict_sorted(name_seq(acc@)));
        assert forall|v: Seq<char>|
            name_set(acc@).contains(v) == name_set(before).insert(name@).contains(v) by {
            if name_set(acc@).contains(v) {
                let k = choose|k: int| 0 <= k < acc@.len() && acc@[k]@ == v;
                if k < i {
                    assert(before[k]@ == v);
                    assert(name_set(before).contains(v));
                } else if k == i {
                    assert(v == name@);
                } else {
                    assert(before[k - 1]@ == v);
                    assert(name_set(before).contains(v));
                }
            }
            if name_set(before).contains(v) {
                let k = choose|k: int| 0 <= k < before.len() && before[k]@ == v;
                if k < i {
                    assert(acc@[k]@ == v);
                } else {
                    assert(acc@[k + 1]@ == v);
                }
                assert(name_set(acc@).contains(v));
            }
            if v == name@ {
                assert(acc@[i as int]@ == v);
                assert(name_set(acc@).contains(v));
            }
        }
        assert(name_set(acc@) =~= name_set(before).insert(name@));
    }
}

/// Character-by-character equality of two string slices.
pub fn str_eq(a: &str, b: &str) -> (r: bool)
    ensures
        r == (a@ == b@),
{
    let alen = a.unicode_len();
    let blen = b.unicode_len();
    if alen != blen {
        return false;
    }
    let mut i: usize = 0;
    while i < alen
        invariant
            i <= alen,
            alen == a@.len(),
            alen == b@.len(),
            forall|j: int| 0 <= j < i ==> a@[j] == b@[j],
        decreases alen - i,
    {
        if a.get_char(i) != b.get_char(i) {
            return false;
        }
        i += 1;
    }
    proof {
        assert(a@ =~= b@);
    }
    true
}

/// Whether `a` comes strictly before `b` in the global variable order.
pub fn str_lt(a: &str, b: &str) -> (r: bool)
    ensures
        r == lex_lt(a@, b@),
{
    let alen = a.unicode_len();
    let blen = b.unicode_len();
    let mut i: usize = 0;
    proof {
        assert(a@.skip(0) =~= a@);
        assert(b@.skip(0) =~= b@);
    }
    loop
        invariant
            i <= alen,
            i <= blen,
            alen == a@.len(),
            blen == b@.len(),
            lex_lt(a@, b@) == lex_lt(a@.skip(i as int), b@.skip(i as int)),
        decreases alen - i,
    {
        if i == blen {
            return false;
        }
        if i == alen {
            return true;
        }
        let ca = a.get_char(i);
        let cb = b.get_char(i);
        if ca < cb {
            return true;
        }
        if ca != cb {
            return false;
        }
        proof {
            assert(a@.skip(i as int).drop_first() =~= a@.skip(i + 1));
            assert(b@.skip(i as int).drop_first() =~= b@.skip(i + 1));
        }
        i += 1;
    }
}

} // verus!
