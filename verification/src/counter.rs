//! An ordered counter: a mapping from string keys to strictly positive
//! counts, with ranked enumeration.
//!
//! The counter stores its entries in a vector kept strictly ascending by
//! key, so a key occurs at most once and enumeration order is the key
//! order. Its abstract value is a finite map from key characters to
//! counts; every operation states its effect on that map.

use vstd::prelude::*;

use crate::order::lex_lt;
use crate::order::lemma_lex_irreflexive;
use crate::order::lemma_lex_ne;
use crate::order::lemma_lex_total;
use crate::order::lemma_lex_transitive;
use crate::order::str_lt;

verus! {

broadcast use vstd::seq_lib::group_seq_properties;

/// The map described by a sequence of (key, count) entries; a later
/// entry for the same key would win, though well-formed counters never
/// repeat a key.
pub open spec fn map_of(s: Seq<(Seq<char>, int)>) -> Map<Seq<char>, int>
    decreases s.len(),
{
    if s.len() == 0 {
        Map::empty()
    } else {
        map_of(s.drop_last()).insert(s.last().0, s.last().1)
    }
}

/// No two entries share a key.
pub open spec fn distinct_keys(s: Seq<(Seq<char>, int)>) -> bool {
    forall|i: int, j: int| 0 <= i < j < s.len() ==> (#[trigger] s[i]).0 != (#[trigger] s[j]).0
}

/// The count a map gives a key, with zero for an absent key.
pub open spec fn count_of(m: Map<Seq<char>, int>, k: Seq<char>) -> int {
    if m.dom().contains(k) {
        m[k]
    } else {
        0
    }
}

/// The effect of one `add` call on the abstract map.
pub open spec fn spec_add(m: Map<Seq<char>, int>, k: Seq<char>) -> Map<Seq<char>, int> {
    m.insert(k, count_of(m, k) + 1)
}

/// The effect of one `decrease` call on the abstract map.
pub open spec fn spec_decrease(m: Map<Seq<char>, int>, k: Seq<char>) -> Map<Seq<char>, int> {
    if m.dom().contains(k) && m[k] >= 2 {
        m.insert(k, m[k] - 1)
    } else {
        m.remove(k)
    }
}

/// Ranked order on entries: a strictly greater count comes first, and a
/// tie of counts is broken by ascending key.
pub open spec fn rank_before(a: (Seq<char>, int), b: (Seq<char>, int)) -> bool {
    a.1 > b.1 || (a.1 == b.1 && lex_lt(a.0, b.0))
}

/// The sequence `s` ranks the map `m`: it lists each entry of `m`
/// exactly once, sorted non-increasing by count with count ties in
/// ascending key order. For a given map there is exactly one such
/// sequence ([`lemma_ranking_unique`]).
pub open spec fn is_ranking(m: Map<Seq<char>, int>, s: Seq<(Seq<char>, int)>) -> bool {
    &&& m.dom().finite()
    &&& s.len() == m.dom().len()
    &&& forall|i: int|
        0 <= i < s.len() ==> m.dom().contains((#[trigger] s[i]).0) && m[s[i].0] == s[i].1
    &&& forall|i: int, j: int| 0 <= i < j < s.len() ==> rank_before(s[i], s[j])
}

/// The character sequences of a vector of strings.
pub open spec fn str_views(s: Seq<String>) -> Seq<Seq<char>> {
    s.map_values(|x: String| x@)
}

/// The abstract entries of a vector of (key, count) pairs.
pub open spec fn pair_views(s: Seq<(String, i64)>) -> Seq<(Seq<char>, int)> {
    s.map_values(|p: (String, i64)| (p.0@, p.1 as int))
}

/// Every stored count is at least one.
pub open spec fn counts_ge_one(s: Seq<(Seq<char>, int)>) -> bool {
    forall|i: int| 0 <= i < s.len() ==> (#[trigger] s[i]).1 >= 1
}

/// Keys are strictly ascending in the key order.
pub open spec fn sorted_keys(s: Seq<(Seq<char>, int)>) -> bool {
    forall|i: int, j: int|
        0 <= i < j < s.len() ==> lex_lt((#[trigger] s[i]).0, (#[trigger] s[j]).0)
}

proof fn lemma_sorted_remove(s: Seq<(Seq<char>, int)>, i: int)
    requires
        sorted_keys(s),
        counts_ge_one(s),
        0 <= i < s.len(),
    ensures
        sorted_keys(s.remove(i)),
        counts_ge_one(s.remove(i)),
{
    let u = s.remove(i);
    assert forall|j: int| 0 <= j < u.len() implies (#[trigger] u[j]).1 >= 1 by {
        if j < i {
            assert(u[j] == s[j]);
        } else {
            assert(u[j] == s[j + 1]);
        }
    }
    assert forall|j1: int, j2: int| 0 <= j1 < j2 < u.len() implies lex_lt(
        (#[trigger] u[j1]).0,
        (#[trigger] u[j2]).0,
    ) by {
        let k1: int = if j1 < i { j1 } else { j1 + 1 };
        let k2: int = if j2 < i { j2 } else { j2 + 1 };
        assert(u[j1] == s[k1]);
        assert(u[j2] == s[k2]);
    }
}

proof fn lemma_sorted_insert(s: Seq<(Seq<char>, int)>, i: int, e: (Seq<char>, int))
    requires
        sorted_keys(s),
        counts_ge_one(s),
        0 <= i <= s.len(),
        e.1 >= 1,
        forall|j: int| 0 <= j < i ==> lex_lt((#[trigger] s[j]).0, e.0),
        forall|j: int| i <= j < s.len() ==> lex_lt(e.0, (#[trigger] s[j]).0),
    ensures
        sorted_keys(s.insert(i, e)),
        counts_ge_one(s.insert(i, e)),
{
    let u = s.insert(i, e);
    assert forall|j: int| 0 <= j < u.len() implies (#[trigger] u[j]).1 >= 1 by {
        if j < i {
            assert(u[j] == s[j]);
        } else if j == i {
            assert(u[j] == e);
        } else {
            assert(u[j] == s[j - 1]);
        }
    }
    assert forall|j1: int, j2: int| 0 <= j1 < j2 < u.len() implies lex_lt(
        (#[trigger] u[j1]).0,
        (#[trigger] u[j2]).0,
    ) by {
        if j1 < i {
            assert(u[j1] == s[j1]);
        } else if j1 == i {
            assert(u[j1] == e);
        } else {
            assert(u[j1] == s[j1 - 1]);
        }
        if j2 < i {
            assert(u[j2] == s[j2]);
        } else if j2 == i {
            assert(u[j2] == e);
        } else {
            assert(u[j2] == s[j2 - 1]);
        }
    }
}

proof fn lemma_sorted_set_count(s: Seq<(Seq<char>, int)>, i: int, v: int)
    requires
        sorted_keys(s),
        counts_ge_one(s),
        0 <= i < s.len(),
        v >= 1,
    ensures
        sorted_keys(s.update(i, (s[i].0, v))),
        counts_ge_one(s.update(i, (s[i].0, v))),
{
    let u = s.update(i, (s[i].0, v));
    assert forall|j1: int, j2: int| 0 <= j1 < j2 < u.len() implies lex_lt(
        (#[trigger] u[j1]).0,
        (#[trigger] u[j2]).0,
    ) by {
        assert(u[j1].0 == s[j1].0);
        assert(u[j2].0 == s[j2].0);
    }
}

/// Entries are pairwise in ranked order.
pub open spec fn rank_sorted(s: Seq<(Seq<char>, int)>) -> bool {
    forall|i: int, j: int| 0 <= i < j < s.len() ==> rank_before(#[trigger] s[i], #[trigger] s[j])
}

proof fn lemma_rank_total(a: (Seq<char>, int), b: (Seq<char>, int))
    requires
        a.0 != b.0,
    ensures
        rank_before(a, b) || rank_before(b, a),
{
    if a.1 == b.1 {
        lemma_lex_total(a.0, b.0);
    }
}

proof fn lemma_rank_asym(a: (Seq<char>, int), b: (Seq<char>, int))
    requires
        rank_before(a, b),
    ensures
        !rank_before(b, a),
{
    if a.1 == b.1 && rank_before(b, a) {
        lemma_lex_transitive(a.0, b.0, a.0);
        lemma_lex_irreflexive(a.0);
    }
}

proof fn lemma_rank_trans(a: (Seq<char>, int), b: (Seq<char>, int), c: (Seq<char>, int))
    requires
        rank_before(a, b),
        rank_before(b, c),
    ensures
        rank_before(a, c),
{
    if a.1 == b.1 && b.1 == c.1 {
        lemma_lex_transitive(a.0, b.0, c.0);
    }
}

proof fn lemma_rank_sorted_insert(s: Seq<(Seq<char>, int)>, p: int, e: (Seq<char>, int))
    requires
        rank_sorted(s),
        0 <= p <= s.len(),
        forall|l: int| 0 <= l < p ==> rank_before(#[trigger] s[l], e),
        forall|l: int| p <= l < s.len() ==> rank_before(e, #[trigger] s[l]),
    ensures
        rank_sorted(s.insert(p, e)),
{
    let u = s.insert(p, e);
    assert forall|j1: int, j2: int| 0 <= j1 < j2 < u.len() implies rank_before(
        #[trigger] u[j1],
        #[trigger] u[j2],
    ) by {
        if j1 < p {
            assert(u[j1] == s[j1]);
        } else if j1 == p {
            assert(u[j1] == e);
        } else {
            assert(u[j1] == s[j1 - 1]);
        }
        if j2 < p {
            assert(u[j2] == s[j2]);
        } else if j2 == p {
            assert(u[j2] == e);
        } else {
            assert(u[j2] == s[j2 - 1]);
        }
        if j1 < p && j2 > p {
            lemma_rank_trans(s[j1], e, s[j2 - 1]);
        }
    }
}

/// A ranking never lists a key twice.
pub proof fn lemma_ranking_distinct(m: Map<Seq<char>, int>, s: Seq<(Seq<char>, int)>)
    requires
        is_ranking(m, s),
    ensures
        distinct_keys(s),
{
    assert forall|i: int, j: int| 0 <= i < j < s.len() implies (#[trigger] s[i]).0 != (
    #[trigger] s[j]).0 by {
        if s[i].0 == s[j].0 {
            assert(s[i].1 == m[s[i].0]);
            assert(s[j].1 == m[s[i].0]);
            assert(rank_before(s[i], s[j]));
            lemma_lex_irreflexive(s[i].0);
        }
    }
}

proof fn lemma_ranking_covers(m: Map<Seq<char>, int>, s: Seq<(Seq<char>, int)>, k: Seq<char>)
    requires
        is_ranking(m, s),
        m.dom().contains(k),
    ensures
        exists|i: int| 0 <= i < s.len() && (#[trigger] s[i]).0 == k,
{
    lemma_ranking_distinct(m, s);
    let ks = s.map_values(|e: (Seq<char>, int)| e.0);
    assert(ks.no_duplicates()) by {
        assert forall|i: int, j: int|
            0 <= i < ks.len() && 0 <= j < ks.len() && i != j implies ks[i] != ks[j] by {
            assert(ks[i] == s[i].0);
            assert(ks[j] == s[j].0);
        }
    }
    ks.unique_seq_to_set();
    assert(ks.to_set().len() == s.len());
    if !(exists|i: int| 0 <= i < s.len() && (#[trigger] s[i]).0 == k) {
        let smaller = m.dom().remove(k);
        assert(ks.to_set().subset_of(smaller)) by {
            assert forall|x: Seq<char>| ks.to_set().contains(x) implies smaller.contains(x) by {
                let i = choose|i: int| 0 <= i < ks.len() && ks[i] == x;
                assert(s[i].0 == x);
            }
        }
        vstd::set::axiom_set_remove_len(m.dom(), k);
        vstd::set_lib::lemma_len_subset(ks.to_set(), smaller);
    }
}

/// A ranking of `m` describes exactly the map `m`.
pub proof fn lemma_ranking_map(m: Map<Seq<char>, int>, s: Seq<(Seq<char>, int)>)
    requires
        is_ranking(m, s),
    ensures
        map_of(s) == m,
{
    lemma_ranking_distinct(m, s);
    lemma_map_of_props(s);
    assert forall|k: Seq<char>| m.dom().contains(k) implies map_of(s).dom().contains(k) by {
        lemma_ranking_covers(m, s, k);
        let i = choose|i: int| 0 <= i < s.len() && (#[trigger] s[i]).0 == k;
    }
    assert forall|k: Seq<char>| map_of(s).dom().contains(k) implies m.dom().contains(k)
        && map_of(s)[k] == m[k] by {
        let i = choose|i: int| 0 <= i < s.len() && (#[trigger] s[i]).0 == k;
        assert(map_of(s)[k] == s[i].1);
    }
    assert(map_of(s) =~= m);
}

/// A sequence of entries with distinct keys describes a finite map
/// with one key per entry.
pub proof fn lemma_map_of_len(s: Seq<(Seq<char>, int)>)
    requires
        distinct_keys(s),
    ensures
        map_of(s).dom().finite(),
        map_of(s).dom().len() == s.len(),
{
    lemma_map_of_props(s);
}

/// Dropping a ranked sequence's last entry from its map is the same as
/// taking one entry fewer.
pub proof fn lemma_map_of_take_remove(s: Seq<(Seq<char>, int)>, l: int)
    requires
        distinct_keys(s),
        1 <= l <= s.len(),
    ensures
        map_of(s.take(l)).remove(s[l - 1].0) == map_of(s.take(l - 1)),
{
    let t = s.take(l);
    let t1 = s.take(l - 1);
    assert(t.drop_last() =~= t1);
    assert(t.last() == s[l - 1]);
    assert(map_of(t) == map_of(t1).insert(s[l - 1].0, s[l - 1].1));
    assert(distinct_keys(t1)) by {
        assert(forall|i: int| 0 <= i < t1.len() ==> t1[i] == s[i]);
    }
    lemma_map_of_props(t1);
    assert(!map_of(t1).dom().contains(s[l - 1].0)) by {
        if map_of(t1).dom().contains(s[l - 1].0) {
            let j = choose|j: int| 0 <= j < t1.len() && (#[trigger] t1[j]).0 == s[l - 1].0;
            assert(s[j].0 == s[l - 1].0);
        }
    }
    assert(map_of(t).remove(s[l - 1].0) =~= map_of(t1));
}

/// Law: a map has exactly one ranking — the output of
/// `most_common_ordered` is fully determined by the counter's contents.
pub proof fn lemma_ranking_unique(
    m: Map<Seq<char>, int>,
    a: Seq<(Seq<char>, int)>,
    b: Seq<(Seq<char>, int)>,
)
    requires
        is_ranking(m, a),
        is_ranking(m, b),
    ensures
        a == b,
    decreases a.len(),
{
    if a.len() == 0 {
        assert(a =~= b);
    } else {
        lemma_ranking_distinct(m, a);
        lemma_ranking_distinct(m, b);
        if a[0].0 != b[0].0 {
            lemma_ranking_covers(m, a, b[0].0);
            let i = choose|i: int| 0 <= i < a.len() && (#[trigger] a[i]).0 == b[0].0;
            assert(a[i].1 == m[b[0].0]);
            assert(a[i] == b[0]);
            assert(rank_before(a[0], b[0]));
            lemma_ranking_covers(m, b, a[0].0);
            let j = choose|j: int| 0 <= j < b.len() && (#[trigger] b[j]).0 == a[0].0;
            assert(b[j].1 == m[a[0].0]);
            assert(b[j] == a[0]);
            assert(rank_before(b[0], a[0]));
            lemma_rank_asym(a[0], b[0]);
        }
        assert(a[0].1 == m[a[0].0]);
        assert(b[0].1 == m[a[0].0]);
        assert(a[0] == b[0]);
        let m2 = m.remove(a[0].0);
        vstd::set::axiom_set_remove_len(m.dom(), a[0].0);
        assert(m2.dom() =~= m.dom().remove(a[0].0));
        assert(is_ranking(m2, a.skip(1))) by {
            assert forall|i: int| 0 <= i < a.skip(1).len() implies m2.dom().contains(
                (#[trigger] a.skip(1)[i]).0,
            ) && m2[a.skip(1)[i].0] == a.skip(1)[i].1 by {
                assert(a.skip(1)[i] == a[i + 1]);
                assert(a[i + 1].0 != a[0].0);
            }
            assert forall|i: int, j: int| 0 <= i < j < a.skip(1).len() implies rank_before(
                #[trigger] a.skip(1)[i],
                #[trigger] a.skip(1)[j],
            ) by {
                assert(a.skip(1)[i] == a[i + 1]);
                assert(a.skip(1)[j] == a[j + 1]);
            }
        }
        assert(is_ranking(m2, b.skip(1))) by {
            assert forall|i: int| 0 <= i < b.skip(1).len() implies m2.dom().contains(
                (#[trigger] b.skip(1)[i]).0,
            ) && m2[b.skip(1)[i].0] == b.skip(1)[i].1 by {
                assert(b.skip(1)[i] == b[i + 1]);
                assert(b[i + 1].0 != b[0].0);
            }
            assert forall|i: int, j: int| 0 <= i < j < b.skip(1).len() implies rank_before(
                #[trigger] b.skip(1)[i],
                #[trigger] b.skip(1)[j],
            ) by {
                assert(b.skip(1)[i] == b[i + 1]);
                assert(b.skip(1)[j] == b[j + 1]);
            }
        }
        lemma_ranking_unique(m2, a.skip(1), b.skip(1));
        assert forall|i: int| 0 <= i < a.len() implies a[i] == b[i] by {
            if i >= 1 {
                assert(a.skip(1)[i - 1] == a[i]);
                assert(b.skip(1)[i - 1] == b[i]);
            }
        }
        assert(a =~= b);
    }
}

proof fn lemma_map_of_props(s: Seq<(Seq<char>, int)>)
    requires
        distinct_keys(s),
    ensures
        map_of(s).dom().finite(),
        map_of(s).dom().len() == s.len(),
        forall|i: int|
            0 <= i < s.len() ==> map_of(s).dom().contains((#[trigger] s[i]).0) && map_of(s)[s[i].0]
                == s[i].1,
        forall|k: Seq<char>|
            map_of(s).dom().contains(k) ==> exists|i: int| 0 <= i < s.len() && (#[trigger] s[i]).0
                == k,
    decreases s.len(),
{
    if s.len() > 0 {
        let t = s.drop_last();
        lemma_map_of_props(t);
        assert(!map_of(t).dom().contains(s.last().0)) by {
            if map_of(t).dom().contains(s.last().0) {
                let i = choose|i: int| 0 <= i < t.len() && (#[trigger] t[i]).0 == s.last().0;
                assert(s[i].0 == s[s.len() - 1].0);
            }
        }
        assert(map_of(s).dom() =~= map_of(t).dom().insert(s.last().0));
        assert forall|i: int| 0 <= i < s.len() implies map_of(s).dom().contains(
            (#[trigger] s[i]).0,
        ) && map_of(s)[s[i].0] == s[i].1 by {
            if i < s.len() - 1 {
                assert(t[i] == s[i]);
                assert(s[i].0 != s.last().0);
            }
        }
        assert forall|k: Seq<char>| map_of(s).dom().contains(k) implies exists|i: int|
            0 <= i < s.len() && (#[trigger] s[i]).0 == k by {
            if k == s.last().0 {
                assert(s[s.len() - 1].0 == k);
            } else {
                let i = choose|i: int| 0 <= i < t.len() && (#[trigger] t[i]).0 == k;
                assert(s[i].0 == k);
            }
        }
    }
}

proof fn lemma_map_of_update(s: Seq<(Seq<char>, int)>, i: int, v: int)
    requires
        distinct_keys(s),
        0 <= i < s.len(),
    ensures
        map_of(s.update(i, (s[i].0, v))) == map_of(s).insert(s[i].0, v),
    decreases s.len(),
{
    let u = s.update(i, (s[i].0, v));
    let t = s.drop_last();
    if i == s.len() - 1 {
        assert(u.drop_last() =~= t);
        assert(map_of(u) =~= map_of(s).insert(s[i].0, v));
    } else {
        assert(u.drop_last() =~= t.update(i, (t[i].0, v)));
        lemma_map_of_update(t, i, v);
        assert(s[i].0 != s.last().0);
        assert(map_of(u) =~= map_of(s).insert(s[i].0, v));
    }
}

proof fn lemma_map_of_insert(s: Seq<(Seq<char>, int)>, i: int, e: (Seq<char>, int))
    requires
        distinct_keys(s),
        0 <= i <= s.len(),
        forall|j: int| 0 <= j < s.len() ==> (#[trigger] s[j]).0 != e.0,
    ensures
        map_of(s.insert(i, e)) == map_of(s).insert(e.0, e.1),
    decreases s.len(),
{
    let u = s.insert(i, e);
    assert(u.len() == s.len() + 1);
    if i == s.len() {
        assert(u.drop_last() =~= s);
        assert(u.last() == e);
        assert(map_of(u) =~= map_of(s).insert(e.0, e.1));
    } else {
        let t = s.drop_last();
        assert(u.drop_last() =~= t.insert(i, e));
        lemma_map_of_insert(t, i, e);
        assert(u.last() == s.last());
        assert(s.last().0 != e.0);
        assert(map_of(u) =~= map_of(s).insert(e.0, e.1));
    }
}

proof fn lemma_map_of_remove(s: Seq<(Seq<char>, int)>, i: int)
    requires
        distinct_keys(s),
        0 <= i < s.len(),
    ensures
        map_of(s.remove(i)) == map_of(s).remove(s[i].0),
    decreases s.len(),
{
    let u = s.remove(i);
    let t = s.drop_last();
    lemma_map_of_props(s);
    if i == s.len() - 1 {
        assert(u =~= t);
        lemma_map_of_props(t);
        assert(!map_of(t).dom().contains(s[i].0)) by {
            if map_of(t).dom().contains(s[i].0) {
                let j = choose|j: int| 0 <= j < t.len() && (#[trigger] t[j]).0 == s[i].0;
                assert(s[j].0 == s[i].0);
            }
        }
        assert(map_of(u) =~= map_of(s).remove(s[i].0));
    } else {
        assert(u.drop_last() =~= t.remove(i));
        lemma_map_of_remove(t, i);
        assert(u.last() == s.last());
        assert(s.last().0 != s[i].0);
        assert(map_of(u) =~= map_of(s).remove(s[i].0));
    }
}

/// Decides whether the stored entry `e` stays in front of a candidate
/// entry (`k`, `c`) in ranked order.
fn comes_before(e: &(String, i64), k: &String, c: i64) -> (r: bool)
    ensures
        r == rank_before((e.0@, e.1 as int), (k@, c as int)),
{
    e.1 > c || (e.1 == c && str_lt(e.0.as_str(), k.as_str()))
}

/// The abstract map that a sequence of `add` calls builds from an
/// empty counter.
pub open spec fn run_adds(ks: Seq<Seq<char>>) -> Map<Seq<char>, int>
    decreases ks.len(),
{
    if ks.len() == 0 {
        Map::empty()
    } else {
        spec_add(run_adds(ks.drop_last()), ks.last())
    }
}

/// How many of the added keys equal `k`.
pub open spec fn occurrences(ks: Seq<Seq<char>>, k: Seq<char>) -> int
    decreases ks.len(),
{
    if ks.len() == 0 {
        0
    } else {
        occurrences(ks.drop_last(), k) + if ks.last() == k {
            1int
        } else {
            0int
        }
    }
}

/// Law: after any sequence of `add` calls on a fresh counter, a key is
/// present exactly when it was added at least once, and its stored
/// count equals the number of `add` calls made for it.
pub proof fn lemma_add_counts(ks: Seq<Seq<char>>, k: Seq<char>)
    ensures
        occurrences(ks, k) >= 0,
        run_adds(ks).dom().contains(k) <==> occurrences(ks, k) >= 1,
        run_adds(ks).dom().contains(k) ==> run_adds(ks)[k] == occurrences(ks, k),
    decreases ks.len(),
{
    if ks.len() == 0 {
        assert(run_adds(ks) == Map::<Seq<char>, int>::empty());
        assert(!run_adds(ks).dom().contains(k));
        assert(occurrences(ks, k) == 0);
    } else {
        lemma_add_counts(ks.drop_last(), k);
        let m1 = run_adds(ks.drop_last());
        let last = ks.last();
        assert(run_adds(ks) == spec_add(m1, last));
        if k == last {
            assert(run_adds(ks)[k] == count_of(m1, k) + 1);
            assert(occurrences(ks, k) == occurrences(ks.drop_last(), k) + 1);
        } else {
            assert(run_adds(ks).dom().contains(k) == m1.dom().contains(k));
            assert(occurrences(ks, k) == occurrences(ks.drop_last(), k));
            if m1.dom().contains(k) {
                assert(run_adds(ks)[k] == m1[k]);
            }
        }
    }
}

/// One mutation of a counter's map, for stating laws over call
/// sequences.
pub enum CounterOp {
    Add(Seq<char>),
    Remove(Seq<char>),
}

/// The effect of one operation on the abstract map.
pub open spec fn apply_op(m: Map<Seq<char>, int>, op: CounterOp) -> Map<Seq<char>, int> {
    match op {
        CounterOp::Add(k) => spec_add(m, k),
        CounterOp::Remove(k) => m.remove(k),
    }
}

/// The abstract map that a sequence of `add` and `remove` calls builds
/// from a fresh counter.
pub open spec fn run_ops(ops: Seq<CounterOp>) -> Map<Seq<char>, int>
    decreases ops.len(),
{
    if ops.len() == 0 {
        Map::empty()
    } else {
        apply_op(run_ops(ops.drop_last()), ops.last())
    }
}

/// How many times `k` was added since it was last removed — or since
/// the beginning, if it never was.
pub open spec fn adds_since_removal(ops: Seq<CounterOp>, k: Seq<char>) -> int
    decreases ops.len(),
{
    if ops.len() == 0 {
        0
    } else if ops.last() == CounterOp::Add(k) {
        adds_since_removal(ops.drop_last(), k) + 1
    } else if ops.last() == CounterOp::Remove(k) {
        0
    } else {
        adds_since_removal(ops.drop_last(), k)
    }
}

/// Law: after any sequence of `add` and `remove` calls on a fresh
/// counter, every key's stored count equals the number of `add` calls
/// made for it since its last removal, and a key is present exactly
/// when that number is positive.
pub proof fn lemma_op_counts(ops: Seq<CounterOp>, k: Seq<char>)
    ensures
        adds_since_removal(ops, k) >= 0,
        run_ops(ops).dom().contains(k) <==> adds_since_removal(ops, k) >= 1,
        run_ops(ops).dom().contains(k) ==> run_ops(ops)[k] == adds_since_removal(ops, k),
    decreases ops.len(),
{
    if ops.len() == 0 {
        assert(!run_ops(ops).dom().contains(k));
    } else {
        lemma_op_counts(ops.drop_last(), k);
        let m1 = run_ops(ops.drop_last());
        match ops.last() {
            CounterOp::Add(k2) => {
                if k2 == k {
                    assert(run_ops(ops)[k] == count_of(m1, k) + 1);
                } else {
                    assert(run_ops(ops).dom().contains(k) == m1.dom().contains(k));
                    if m1.dom().contains(k) {
                        assert(run_ops(ops)[k] == m1[k]);
                    }
                }
            },
            CounterOp::Remove(k2) => {
                if k2 == k {
                    assert(!run_ops(ops).dom().contains(k));
                } else {
                    assert(run_ops(ops).dom().contains(k) == m1.dom().contains(k));
                    if m1.dom().contains(k) {
                        assert(run_ops(ops)[k] == m1[k]);
                    }
                }
            },
        }
    }
}

/// Law: decreasing a present key and then re-adding it restores the
/// map — the pre-decrease count comes back, also when the decrease
/// removed the key.
pub proof fn lemma_decrease_then_add(m: Map<Seq<char>, int>, k: Seq<char>)
    requires
        m.dom().contains(k),
        m[k] >= 1,
    ensures
        spec_add(spec_decrease(m, k), k) == m,
{
    assert(spec_add(spec_decrease(m, k), k) =~= m);
}

/// A counter that keeps track of the number of times a key has been
/// seen. Every key present has a count of at least one; a key whose
/// count would drop below one is removed instead.
#[derive(Clone, Debug)]
pub struct Counter {
    entries: Vec<(String, i64)>,
}

impl View for Counter {
    type V = Map<Seq<char>, int>;

    closed spec fn view(&self) -> Map<Seq<char>, int> {
        map_of(self.entry_views())
    }
}

impl Counter {
    /// The stored entries, as abstract (key, count) pairs in storage
    /// order.
    pub closed spec fn entry_views(self) -> Seq<(Seq<char>, int)> {
        pair_views(self.entries@)
    }

    /// Well-formed: counts are at least one and keys are strictly
    /// ascending, hence distinct.
    pub closed spec fn wf(self) -> bool {
        &&& counts_ge_one(self.entry_views())
        &&& sorted_keys(self.entry_views())
    }

    proof fn lemma_distinct(self)
        requires
            self.wf(),
        ensures
            distinct_keys(self.entry_views()),
    {
        let s = self.entry_views();
        assert forall|i: int, j: int| 0 <= i < j < s.len() implies (#[trigger] s[i]).0 != (
        #[trigger] s[j]).0 by {
            lemma_lex_ne(s[i].0, s[j].0);
        }
    }

    /// A well-formed counter's map is finite, has as many keys as
    /// stored entries, and gives every key a count of at least one.
    pub proof fn lemma_wf_facts(self)
        requires
            self.wf(),
        ensures
            self@.dom().finite(),
            forall|k: Seq<char>| self@.dom().contains(k) ==> self@[k] >= 1,
    {
        self.lemma_distinct();
        lemma_map_of_props(self.entry_views());
        assert forall|k: Seq<char>| self@.dom().contains(k) implies self@[k] >= 1 by {
            let s = self.entry_views();
            let i = choose|i: int| 0 <= i < s.len() && (#[trigger] s[i]).0 == k;
            assert(self@[k] == s[i].1);
        }
    }

    /// Law: `len` agrees with `get` — the length equals the number of
    /// keys that `get` reports as present, since `get` returns `Some`
    /// exactly on the map's domain.
    pub proof fn lemma_len_counts_present(self)
        requires
            self.wf(),
        ensures
            self@.dom().len() == Set::new(|k: Seq<char>| self@.dom().contains(k)).len(),
    {
        assert(Set::new(|k: Seq<char>| self@.dom().contains(k)) =~= self@.dom());
    }

    /// Create an empty counter.
    pub fn new() -> (r: Counter)
        ensures
            r.wf(),
            r@ == Map::<Seq<char>, int>::empty(),
    {
        let r = Counter { entries: Vec::new() };
        proof {
            assert(r.entry_views() =~= Seq::<(Seq<char>, int)>::empty());
        }
        r
    }

    /// Return the number of known keys in the map.
    pub fn len(&self) -> (r: usize)
        requires
            self.wf(),
        ensures
            r == self@.dom().len(),
    {
        proof {
            self.lemma_distinct();
            lemma_map_of_props(self.entry_views());
        }
        self.entries.len()
    }

    /// Get the count of a given key if it exists.
    pub fn get(&self, key: &String) -> (r: Option<i64>)
        requires
            self.wf(),
        ensures
            match r {
                Some(c) => self@.dom().contains(key@) && self@[key@] == c as int && c >= 1,
                None => !self@.dom().contains(key@),
            },
    {
        proof {
            self.lemma_distinct();
            lemma_map_of_props(self.entry_views());
        }
        let n = self.entries.len();
        let mut i: usize = 0;
        while i < n
            invariant
                i <= n,
                n == self.entries.len(),
                self.wf(),
                distinct_keys(self.entry_views()),
                forall|j: int| 0 <= j < i ==> (#[trigger] self.entry_views()[j]).0 != key@,
            decreases n - i,
        {
            if self.entries[i].0 == *key {
                proof {
                    lemma_map_of_props(self.entry_views());
                    assert(self.entry_views()[i as int].0 == key@);
                }
                return Some(self.entries[i].1);
            }
            proof {
                assert(self.entry_views()[i as int].0 != key@);
            }
            i = i + 1;
        }
        proof {
            lemma_map_of_props(self.entry_views());
            if self@.dom().contains(key@) {
                let s = self.entry_views();
                let j = choose|j: int| 0 <= j < s.len() && (#[trigger] s[j]).0 == key@;
            }
        }
        None
    }

    /// Add or update a key in the counter map: a key seen for the first
    /// time is stored with count one, a known key's count rises by one.
    /// Returns the current count of the key.
    pub fn add(&mut self, key: String) -> (r: i64)
        requires
            old(self).wf(),
            old(self)@.dom().contains(key@) ==> old(self)@[key@] < i64::MAX,
        ensures
            final(self).wf(),
            final(self)@ == spec_add(old(self)@, key@),
            r as int == count_of(old(self)@, key@) + 1,
    {
        let n = self.entries.len();
        let mut i: usize = 0;
        while i < n && str_lt(self.entries[i].0.as_str(), key.as_str())
            invariant
                i <= n,
                *self == *old(self),
                n == self.entries.len(),
                self.wf(),
                forall|j: int| 0 <= j < i ==> lex_lt((#[trigger] self.entry_views()[j]).0, key@),
            decreases n - i,
        {
            i = i + 1;
        }
        let ghost s0 = self.entry_views();
        if i < n && self.entries[i].0 == key {
            let c = self.entries[i].1;
            proof {
                self.lemma_distinct();
                lemma_map_of_props(s0);
                assert(s0[i as int].0 == key@);
                assert(self@[key@] == c as int);
            }
            self.entries.remove(i);
            self.entries.insert(i, (key, c + 1));
            proof {
                assert(self.entry_views() =~= s0.update(i as int, (s0[i as int].0, c + 1 as int)));
                lemma_map_of_update(s0, i as int, c as int + 1);
                lemma_sorted_set_count(s0, i as int, c as int + 1);
                assert(final(self)@ =~= spec_add(old(self)@, key@));
            }
            c + 1
        } else {
            proof {
                self.lemma_distinct();
                lemma_map_of_props(s0);
                if i < n {
                    assert(s0[i as int].0 != key@);
                    lemma_lex_total(s0[i as int].0, key@);
                    assert(lex_lt(key@, s0[i as int].0));
                }
                assert forall|j: int| i <= j < n implies lex_lt(key@, (#[trigger] s0[j]).0) by {
                    if j > i {
                        lemma_lex_transitive(key@, s0[i as int].0, s0[j].0);
                    }
                }
                assert forall|j: int| 0 <= j < n implies (#[trigger] s0[j]).0 != key@ by {
                    if j < i {
                        lemma_lex_ne(s0[j].0, key@);
                    } else {
                        lemma_lex_ne(key@, s0[j].0);
                    }
                }
                assert(!old(self)@.dom().contains(key@));
                lemma_sorted_insert(s0, i as int, (key@, 1));
            }
            self.entries.insert(i, (key, 1));
            proof {
                assert(self.entry_views() =~= s0.insert(i as int, (key@, 1)));
                lemma_map_of_insert(s0, i as int, (key@, 1));
                assert(final(self)@ =~= spec_add(old(self)@, key@));
            }
            1
        }
    }

    /// Decrease the count of a key by one, treating an absent key as
    /// having count zero. A key whose count would drop below one is
    /// removed from the map. Returns the count of the key if it still
    /// exists.
    pub fn decrease(&mut self, key: String) -> (r: Option<i64>)
        requires
            old(self).wf(),
        ensures
            final(self).wf(),
            final(self)@ == spec_decrease(old(self)@, key@),
            r == (if count_of(old(self)@, key@) >= 2 {
                Some((count_of(old(self)@, key@) - 1) as i64)
            } else {
                None::<i64>
            }),
    {
        let n = self.entries.len();
        let mut i: usize = 0;
        while i < n
            invariant
                i <= n,
                *self == *old(self),
                n == self.entries.len(),
                self.wf(),
                forall|j: int| 0 <= j < i ==> (#[trigger] self.entry_views()[j]).0 != key@,
            decreases n - i,
        {
            let ghost s0 = self.entry_views();
            if self.entries[i].0 == key {
                let c = self.entries[i].1;
                proof {
                    self.lemma_distinct();
                    lemma_map_of_props(s0);
                    assert(s0[i as int].0 == key@);
                    assert(self@[key@] == c as int);
                }
                if c > 1 {
                    self.entries.remove(i);
                    self.entries.insert(i, (key, c - 1));
                    proof {
                        assert(self.entry_views() =~= s0.update(
                            i as int,
                            (s0[i as int].0, c - 1 as int),
                        ));
                        lemma_map_of_update(s0, i as int, c as int - 1);
                        lemma_sorted_set_count(s0, i as int, c as int - 1);
                        assert(final(self)@ =~= spec_decrease(old(self)@, key@));
                    }
                    return Some(c - 1);
                } else {
                    self.entries.remove(i);
                    proof {
                        assert(self.entry_views() =~= s0.remove(i as int));
                        lemma_map_of_remove(s0, i as int);
                        lemma_sorted_remove(s0, i as int);
                        assert(final(self)@ =~= spec_decrease(old(self)@, key@));
                    }
                    return None;
                }
            }
            proof {
                assert(self.entry_views()[i as int].0 != key@);
            }
            i = i + 1;
        }
        proof {
            self.lemma_distinct();
            lemma_map_of_props(self.entry_views());
            if self@.dom().contains(key@) {
                let s = self.entry_views();
                let j = choose|j: int| 0 <= j < s.len() && (#[trigger] s[j]).0 == key@;
            }
            assert(final(self)@ =~= spec_decrease(old(self)@, key@));
        }
        None
    }

    /// Return just the list of known keys, in ascending key order.
    pub fn keys(&self) -> (r: Vec<String>)
        requires
            self.wf(),
        ensures
            str_views(r@).len() == self@.dom().len(),
            forall|i: int|
                0 <= i < str_views(r@).len() ==> self@.dom().contains(#[trigger] str_views(r@)[i]),
            forall|i: int, j: int|
                0 <= i < j < str_views(r@).len() ==> lex_lt(
                    #[trigger] str_views(r@)[i],
                    #[trigger] str_views(r@)[j],
                ),
            forall|k: Seq<char>|
                self@.dom().contains(k) ==> exists|i: int|
                    0 <= i < str_views(r@).len() && #[trigger] str_views(r@)[i] == k,
    {
        let n = self.entries.len();
        let mut r: Vec<String> = Vec::new();
        let mut i: usize = 0;
        while i < n
            invariant
                i <= n,
                n == self.entries.len(),
                self.wf(),
                r@.len() == i,
                forall|j: int| 0 <= j < i ==> #[trigger] r@[j]@ == self.entry_views()[j].0,
            decreases n - i,
        {
            r.push(self.entries[i].0.clone());
            i = i + 1;
        }
        proof {
            self.lemma_distinct();
            lemma_map_of_props(self.entry_views());
            assert(str_views(r@) =~= self.entry_views().map_values(
                |e: (Seq<char>, int)| e.0,
            ));
            assert forall|k: Seq<char>| self@.dom().contains(k) implies exists|i2: int|
                0 <= i2 < str_views(r@).len() && #[trigger] str_views(r@)[i2] == k by {
                let s = self.entry_views();
                let j = choose|j: int| 0 <= j < s.len() && (#[trigger] s[j]).0 == k;
                assert(str_views(r@)[j] == k);
            }
        }
        r
    }

    /// Return the most common keys in the map, sorted non-increasing by
    /// count; keys of equal count appear in ascending key order.
    pub fn most_common_ordered(&self) -> (r: Vec<(String, i64)>)
        requires
            self.wf(),
        ensures
            is_ranking(self@, pair_views(r@)),
    {
        proof {
            self.lemma_distinct();
            lemma_map_of_props(self.entry_views());
        }
        let n = self.entries.len();
        let mut out: Vec<(String, i64)> = Vec::new();
        let mut idx: usize = 0;
        while idx < n
            invariant
                idx <= n,
                n == self.entries.len(),
                self.wf(),
                distinct_keys(self.entry_views()),
                out@.len() == idx,
                forall|l: int|
                    0 <= l < out@.len() ==> exists|j: int|
                        0 <= j < idx && #[trigger] pair_views(out@)[l] == self.entry_views()[j],
                rank_sorted(pair_views(out@)),
            decreases n - idx,
        {
            let k = self.entries[idx].0.clone();
            let c = self.entries[idx].1;
            let ghost nv = (k@, c as int);
            let ghost pv0 = pair_views(out@);
            proof {
                assert(nv == self.entry_views()[idx as int]);
                assert forall|l: int| 0 <= l < pv0.len() implies (#[trigger] pv0[l]).0 != nv.0 by {
                    let j = choose|j: int|
                        0 <= j < idx && #[trigger] pair_views(out@)[l] == self.entry_views()[j];
                    assert(self.entry_views()[j].0 != self.entry_views()[idx as int].0);
                }
            }
            let mut p: usize = 0;
            while p < out.len() && comes_before(&out[p], &k, c)
                invariant
                    p <= out@.len(),
                    pair_views(out@) == pv0,
                    nv == (k@, c as int),
                    forall|l: int| 0 <= l < p ==> rank_before(#[trigger] pv0[l], nv),
                decreases out@.len() - p,
            {
                proof {
                    assert(pv0[p as int] == (out@[p as int].0@, out@[p as int].1 as int));
                }
                p = p + 1;
            }
            proof {
                assert forall|l: int| p <= l < pv0.len() implies rank_before(
                    nv,
                    #[trigger] pv0[l],
                ) by {
                    assert(pv0[p as int] == (out@[p as int].0@, out@[p as int].1 as int));
                    assert(!rank_before(pv0[p as int], nv));
                    lemma_rank_total(nv, pv0[p as int]);
                    if l > p {
                        lemma_rank_trans(nv, pv0[p as int], pv0[l]);
                    }
                }
                lemma_rank_sorted_insert(pv0, p as int, nv);
            }
            out.insert(p, (k, c));
            proof {
                assert(pair_views(out@) =~= pv0.insert(p as int, nv));
                assert forall|l: int| 0 <= l < out@.len() implies exists|j: int|
                    0 <= j < idx + 1 && #[trigger] pair_views(out@)[l] == self.entry_views()[j] by {
                    if l < p {
                        assert(pair_views(out@)[l] == pv0[l]);
                        let j = choose|j: int| 0 <= j < idx && #[trigger] pv0[l] == self.entry_views()[j];
                        assert(pair_views(out@)[l] == self.entry_views()[j]);
                    } else if l == p {
                        assert(pair_views(out@)[l] == self.entry_views()[idx as int]);
                    } else {
                        assert(pair_views(out@)[l] == pv0[l - 1]);
                        let j = choose|j: int|
                            0 <= j < idx && #[trigger] pv0[l - 1] == self.entry_views()[j];
                        assert(pair_views(out@)[l] == self.entry_views()[j]);
                    }
                }
            }
            idx = idx + 1;
        }
        proof {
            lemma_map_of_props(self.entry_views());
            assert forall|l: int| 0 <= l < pair_views(out@).len() implies self@.dom().contains(
                (#[trigger] pair_views(out@)[l]).0,
            ) && self@[pair_views(out@)[l].0] == pair_views(out@)[l].1 by {
                let j = choose|j: int|
                    0 <= j < n && #[trigger] pair_views(out@)[l] == self.entry_views()[j];
            }
        }
        out
    }

    /// Return the `k` most common keys in the map: the first `k`
    /// entries of the full ranking, or all of them when fewer exist.
    pub fn k_most_common_ordered(&self, k: usize) -> (r: Vec<(String, i64)>)
        requires
            self.wf(),
        ensures
            r@.len() == if k as int <= self@.dom().len() {
                k as int
            } else {
                self@.dom().len() as int
            },
            forall|s: Seq<(Seq<char>, int)>|
                is_ranking(self@, s) ==> pair_views(r@) == s.take(
                    if k as int <= s.len() {
                        k as int
                    } else {
                        s.len() as int
                    },
                ),
    {
        let mut r = self.most_common_ordered();
        let ghost full = pair_views(r@);
        if k < r.len() {
            r.truncate(k);
        }
        proof {
            if k < full.len() {
                assert(pair_views(r@) =~= full.take(k as int));
            } else {
                assert(pair_views(r@) =~= full.take(full.len() as int));
            }
            assert forall|s: Seq<(Seq<char>, int)>| is_ranking(self@, s) implies pair_views(r@)
                == s.take(
                if k as int <= s.len() {
                    k as int
                } else {
                    s.len() as int
                },
            ) by {
                lemma_ranking_unique(self@, s, full);
            }
        }
        r
    }

    /// Remove a given key from the map; absent keys are left alone.
    pub fn remove(&mut self, key: &String)
        requires
            old(self).wf(),
        ensures
            final(self).wf(),
            final(self)@ == old(self)@.remove(key@),
    {
        let n = self.entries.len();
        let mut i: usize = 0;
        while i < n
            invariant
                i <= n,
                *self == *old(self),
                n == self.entries.len(),
                self.wf(),
                forall|j: int| 0 <= j < i ==> (#[trigger] self.entry_views()[j]).0 != key@,
            decreases n - i,
        {
            let ghost s0 = self.entry_views();
            if self.entries[i].0 == *key {
                proof {
                    self.lemma_distinct();
                    lemma_map_of_props(s0);
                    assert(s0[i as int].0 == key@);
                }
                self.entries.remove(i);
                proof {
                    assert(self.entry_views() =~= s0.remove(i as int));
                    lemma_map_of_remove(s0, i as int);
                    lemma_sorted_remove(s0, i as int);
                }
                return ;
            }
            proof {
                assert(self.entry_views()[i as int].0 != key@);
            }
            i = i + 1;
        }
        proof {
            self.lemma_distinct();
            lemma_map_of_props(self.entry_views());
            if self@.dom().contains(key@) {
                let s = self.entry_views();
                let j = choose|j: int| 0 <= j < s.len() && (#[trigger] s[j]).0 == key@;
            }
            assert(final(self)@ =~= old(self)@.remove(key@));
        }
    }
}

} // verus!
