//! Approximate high-frequency items for a stream, with bounded memory.
//!
//! The tracker follows the Misra-Gries algorithm with a limit: at most
//! `limit` distinct items are tracked at any time. An item that is
//! already tracked, or arrives while a slot is free, is counted. When a
//! new item arrives at full capacity, every tracked item instead pays a
//! toll of one count, and items whose count reaches zero are evicted —
//! the new item itself is not admitted that round. Counts are therefore
//! an approximation: an item occurring more than `stream length / limit`
//! times is retained, undercounted by at most that quotient.

use vstd::prelude::*;

use crate::counter::Counter;
use crate::counter::distinct_keys;
use crate::counter::is_ranking;
use crate::counter::lemma_ranking_distinct;
use crate::counter::lemma_ranking_map;
use crate::counter::lemma_ranking_unique;
use crate::counter::lemma_map_of_take_remove;
use crate::counter::map_of;
use crate::counter::pair_views;
use crate::counter::spec_add;
use crate::counter::str_views;
use crate::order::lemma_lex_ne;

verus! {

broadcast use vstd::seq_lib::group_seq_properties;

/// The effect of one toll pass on the abstract map: every count drops
/// by one and keys whose count reaches zero disappear.
pub open spec fn spec_toll(m: Map<Seq<char>, int>) -> Map<Seq<char>, int> {
    Map::new(|k: Seq<char>| m.dom().contains(k) && m[k] > 1, |k: Seq<char>| m[k] - 1)
}

/// A toll pass that has reached only the keys in `p` so far.
spec fn spec_toll_partial(m: Map<Seq<char>, int>, p: Set<Seq<char>>) -> Map<Seq<char>, int> {
    Map::new(
        |k: Seq<char>| m.dom().contains(k) && (p.contains(k) ==> m[k] > 1),
        |k: Seq<char>| if p.contains(k) {
            m[k] - 1
        } else {
            m[k]
        },
    )
}

/// The effect of one `track` call on the abstract map.
pub open spec fn spec_track(m: Map<Seq<char>, int>, limit: int, item: Seq<char>) -> Map<
    Seq<char>,
    int,
> {
    if m.dom().contains(item) || m.dom().len() < limit {
        spec_add(m, item)
    } else {
        spec_toll(m)
    }
}

/// The abstract map that a sequence of `track` calls builds from a
/// fresh tracker with the given limit.
pub open spec fn run_tracks(limit: int, items: Seq<Seq<char>>) -> Map<Seq<char>, int>
    decreases items.len(),
{
    if items.len() == 0 {
        Map::empty()
    } else {
        spec_track(run_tracks(limit, items.drop_last()), limit, items.last())
    }
}

/// Law: after any sequence of `track` calls on a fresh tracker, the
/// number of distinct tracked keys never exceeds the limit.
pub proof fn lemma_capacity_bound(limit: int, items: Seq<Seq<char>>)
    requires
        limit >= 0,
    ensures
        run_tracks(limit, items).dom().finite(),
        run_tracks(limit, items).dom().len() <= limit,
    decreases items.len(),
{
    if items.len() == 0 {
        assert(run_tracks(limit, items).dom() =~= Set::<Seq<char>>::empty());
    } else {
        lemma_capacity_bound(limit, items.drop_last());
        let m1 = run_tracks(limit, items.drop_last());
        let item = items.last();
        if m1.dom().contains(item) {
            assert(spec_add(m1, item).dom() =~= m1.dom());
        } else if m1.dom().len() < limit {
            assert(spec_add(m1, item).dom() =~= m1.dom().insert(item));
            vstd::set::axiom_set_insert_len(m1.dom(), item);
        } else {
            assert(spec_toll(m1).dom().subset_of(m1.dom()));
            vstd::set_lib::lemma_len_subset(spec_toll(m1).dom(), m1.dom());
        }
    }
}

/// A bounded tracker of approximately the most frequent items seen so
/// far: one counter plus a fixed capacity limit.
#[derive(Clone, Debug)]
pub struct MisraGries {
    /// The collection of items being tracked.
    counter: Counter,
    /// The limit on the number of distinct items tracked at once.
    limit: usize,
}

impl View for MisraGries {
    type V = Map<Seq<char>, int>;

    closed spec fn view(&self) -> Map<Seq<char>, int> {
        self.counter@
    }
}

impl MisraGries {
    /// The capacity limit the tracker was created with.
    pub closed spec fn limit(self) -> int {
        self.limit as int
    }

    /// Well-formed: the counter is well-formed and holds no more
    /// distinct keys than the limit allows.
    pub closed spec fn wf(self) -> bool {
        &&& self.counter.wf()
        &&& self.counter@.dom().len() <= self.limit as int
    }

    /// A well-formed tracker's map is finite, bounded by the limit,
    /// and gives every key a count of at least one.
    pub proof fn lemma_wf_facts(self)
        requires
            self.wf(),
        ensures
            self@.dom().finite(),
            self@.dom().len() <= self.limit(),
            forall|k: Seq<char>| self@.dom().contains(k) ==> self@[k] >= 1,
    {
        self.counter.lemma_wf_facts();
    }

    /// Create a new Misra-Gries counter with a limit.
    pub fn new(limit: usize) -> (r: MisraGries)
        ensures
            r.wf(),
            r@ == Map::<Seq<char>, int>::empty(),
            r.limit() == limit as int,
    {
        let r = MisraGries { counter: Counter::new(), limit };
        proof {
            assert(Map::<Seq<char>, int>::empty().dom() =~= Set::<Seq<char>>::empty());
        }
        r
    }

    /// The number of distinct items currently tracked.
    pub fn len(&self) -> (r: usize)
        requires
            self.wf(),
        ensures
            r == self@.dom().len(),
    {
        self.counter.len()
    }

    /// The current count of an item, if it is tracked.
    pub fn get(&self, key: &String) -> (r: Option<i64>)
        requires
            self.wf(),
        ensures
            match r {
                Some(c) => self@.dom().contains(key@) && self@[key@] == c as int && c >= 1,
                None => !self@.dom().contains(key@),
            },
    {
        self.counter.get(key)
    }

    /// Consider a string for frequency counting. Returns whether the
    /// occurrence was recorded under a tracked slot; `false` means the
    /// tracker was full and every tracked item paid a toll instead.
    pub fn track(&mut self, item: &str) -> (r: bool)
        requires
            old(self).wf(),
            old(self)@.dom().contains(item@) ==> old(self)@[item@] < i64::MAX,
        ensures
            final(self).wf(),
            final(self).limit() == old(self).limit(),
            final(self)@ == spec_track(old(self)@, old(self).limit(), item@),
            r == (old(self)@.dom().contains(item@) || old(self)@.dom().len() < old(self).limit()),
            final(self)@.dom().len() <= old(self).limit(),
    {
        let key = item.to_owned();
        let present = match self.counter.get(&key) {
            Some(_) => true,
            None => false,
        };
        let n_tracked = self.counter.len();
        proof {
            self.counter.lemma_wf_facts();
        }
        if present || n_tracked < self.limit {
            let ghost m0 = self.counter@;
            self.counter.add(key);
            proof {
                if m0.dom().contains(item@) {
                    assert(self.counter@.dom() =~= m0.dom());
                } else {
                    assert(self.counter@.dom() =~= m0.dom().insert(item@));
                    vstd::set::axiom_set_insert_len(m0.dom(), item@);
                }
            }
            true
        } else {
            let ghost m0 = self.counter@;
            let keys = self.counter.keys();
            let ghost kv = str_views(keys@);
            proof {
                assert forall|i: int, j: int| 0 <= i < j < kv.len() implies kv[i] != kv[j] by {
                    lemma_lex_ne(kv[i], kv[j]);
                }
                assert(kv.take(0) =~= Seq::<Seq<char>>::empty());
                assert(spec_toll_partial(m0, kv.take(0).to_set()) =~= m0);
            }
            let n = keys.len();
            let mut i: usize = 0;
            while i < n
                invariant
                    i <= n,
                    n == keys@.len(),
                    kv == str_views(keys@),
                    self.counter.wf(),
                    self.limit == old(self).limit,
                    kv.len() == m0.dom().len(),
                    forall|j: int| 0 <= j < kv.len() ==> m0.dom().contains(#[trigger] kv[j]),
                    forall|j1: int, j2: int| 0 <= j1 < j2 < kv.len() ==> kv[j1] != kv[j2],
                    forall|k: Seq<char>| m0.dom().contains(k) ==> m0[k] >= 1,
                    forall|k: Seq<char>|
                        m0.dom().contains(k) ==> exists|j: int|
                            0 <= j < kv.len() && #[trigger] kv[j] == k,
                    self.counter@ == spec_toll_partial(m0, kv.take(i as int).to_set()),
                decreases n - i,
            {
                let k = keys[i].clone();
                let ghost p = kv.take(i as int).to_set();
                proof {
                    assert(kv[i as int] == keys@[i as int]@);
                    assert(k@ == kv[i as int]);
                    assert(!p.contains(k@)) by {
                        if p.contains(k@) {
                            let j = choose|j: int| 0 <= j < i && kv.take(i as int)[j] == k@;
                            assert(kv[j] == kv[i as int]);
                        }
                    }
                    assert(self.counter@.dom().contains(k@));
                    assert(self.counter@[k@] == m0[k@]);
                }
                self.counter.decrease(k);
                proof {
                    assert(kv.take(i + 1).to_set() =~= p.insert(kv[i as int])) by {
                        assert forall|x: Seq<char>| kv.take(i + 1).contains(x) implies p.insert(
                            kv[i as int],
                        ).contains(x) by {
                            let j = choose|j: int|
                                0 <= j < i + 1 && (#[trigger] kv.take(i + 1)[j]) == x;
                            if j < i {
                                assert(kv.take(i as int)[j] == x);
                            }
                        }
                        assert forall|x: Seq<char>| p.insert(kv[i as int]).contains(x) implies kv
                            .take(i + 1).contains(x) by {
                            if p.contains(x) {
                                let j = choose|j: int| 0 <= j < i && kv.take(i as int)[j] == x;
                                assert(kv.take(i + 1)[j] == x);
                            } else {
                                assert(kv.take(i + 1)[i as int] == x);
                            }
                        }
                    }
                    assert(self.counter@ =~= spec_toll_partial(m0, kv.take(i + 1).to_set()));
                }
                i = i + 1;
            }
            proof {
                assert(kv.take(n as int) =~= kv);
                assert(kv.to_set() =~= m0.dom()) by {
                    assert forall|x: Seq<char>| kv.to_set().contains(x) implies m0.dom().contains(
                        x,
                    ) by {
                        let j = choose|j: int| 0 <= j < kv.len() && kv[j] == x;
                    }
                }
                assert(self.counter@ =~= spec_toll(m0));
                assert(spec_toll(m0).dom().subset_of(m0.dom()));
                vstd::set_lib::lemma_len_subset(spec_toll(m0).dom(), m0.dom());
            }
            false
        }
    }

    /// Return the `count` most frequently seen items, most frequent
    /// first, ties in ascending key order.
    pub fn top(&self, count: usize) -> (r: Vec<(String, i64)>)
        requires
            self.wf(),
        ensures
            r@.len() == if count as int <= self@.dom().len() {
                count as int
            } else {
                self@.dom().len() as int
            },
            forall|s: Seq<(Seq<char>, int)>|
                is_ranking(self@, s) ==> pair_views(r@) == s.take(
                    if count as int <= s.len() {
                        count as int
                    } else {
                        s.len() as int
                    },
                ),
    {
        self.counter.k_most_common_ordered(count)
    }

    /// Remove the least frequently seen items: walking the ranking
    /// from its low end, one more entry than `count` is removed, or
    /// every entry when fewer are tracked.
    pub fn purge(&mut self, count: usize)
        requires
            old(self).wf(),
        ensures
            final(self).wf(),
            final(self).limit() == old(self).limit(),
            forall|s: Seq<(Seq<char>, int)>|
                is_ranking(old(self)@, s) ==> final(self)@ == map_of(
                    s.take(
                        s.len() - (if count as int + 1 <= s.len() {
                            count as int + 1
                        } else {
                            s.len() as int
                        }),
                    ),
                ),
    {
        let total = self.counter.len();
        let purge_amount = if count > total {
            total
        } else {
            count
        };
        let all = self.counter.most_common_ordered();
        let ghost m0 = self.counter@;
        let ghost full = pair_views(all@);
        proof {
            lemma_ranking_distinct(m0, full);
            lemma_ranking_map(m0, full);
            assert(full.take(total as int) =~= full);
        }
        let mut cnt: usize = 0;
        while cnt <= purge_amount && cnt < total
            invariant
                cnt <= total,
                cnt as int <= purge_amount as int + 1,
                purge_amount as int == (if count as int <= total as int {
                    count as int
                } else {
                    total as int
                }),
                total == full.len(),
                purge_amount <= total,
                all@.len() == total,
                full == pair_views(all@),
                distinct_keys(full),
                self.counter.wf(),
                self.limit == old(self).limit,
                self.counter@ == map_of(full.take(total - cnt)),
            decreases total - cnt,
        {
            let idx = total - 1 - cnt;
            proof {
                assert(full[idx as int] == (all@[idx as int].0@, all@[idx as int].1 as int));
            }
            self.counter.remove(&all[idx].0);
            proof {
                lemma_map_of_take_remove(full, total - cnt);
                assert(full[total - cnt - 1] == full[idx as int]);
            }
            cnt = cnt + 1;
        }
        proof {
            let removed: int = if count as int + 1 <= full.len() {
                count as int + 1
            } else {
                full.len() as int
            };
            assert(cnt as int == removed);
            self.counter.lemma_wf_facts();
            assert(self.counter@.dom().len() <= full.len() - removed) by {
                let kept = full.take(full.len() - removed);
                assert(distinct_keys(kept)) by {
                    assert(forall|j: int| 0 <= j < kept.len() ==> kept[j] == full[j]);
                }
                crate::counter::lemma_map_of_len(kept);
            }
            assert forall|s: Seq<(Seq<char>, int)>| is_ranking(old(self)@, s) implies final(self)@
                == map_of(
                s.take(
                    s.len() - (if count as int + 1 <= s.len() {
                        count as int + 1
                    } else {
                        s.len() as int
                    }),
                ),
            ) by {
                lemma_ranking_unique(old(self)@, s, full);
            }
        }
    }
}

} // verus!
