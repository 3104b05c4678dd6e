//! Executable aggregate map: one `Stats` accumulator per distinct key.
//!
//! The map is a vector of `(key, Stats)` entries with pairwise-distinct
//! keys; its model is the `Map<Seq<u8>, SStats>` built by inserting the
//! entries in order. A key is present only once it has absorbed at least one
//! sample, so the map never holds an identity aggregate.

use vstd::prelude::*;
use vstd::std_specs::vec::vec_index_mut;

use crate::aggspec::{agg_step, map_merge, wf_agg_map, SRecord};
use crate::stats::{sample_bounded, stats_merge, wf_sstats, SStats, Stats};

verus! {

/// The map denoted by an entry list, later entries overriding earlier ones
/// (well-formed lists have no two entries with one key).
pub open spec fn entries_model(es: Seq<(Vec<u8>, Stats)>) -> Map<Seq<u8>, SStats>
    decreases es.len(),
{
    if es.len() == 0 {
        Map::empty()
    } else {
        entries_model(es.drop_last()).insert(es.last().0@, es.last().1.model())
    }
}

pub open spec fn distinct_keys(es: Seq<(Vec<u8>, Stats)>) -> bool {
    forall|i: int, j: int| 0 <= i < j < es.len() ==> es[i].0@ != es[j].0@
}

pub open spec fn wf_entries(es: Seq<(Vec<u8>, Stats)>) -> bool {
    &&& distinct_keys(es)
    &&& forall|i: int|
        0 <= i < es.len() ==> (#[trigger] es[i].1).wf() && es[i].1.model().count > 0
}

/// With distinct keys, the model holds exactly the listed keys, each mapped
/// to its own entry's aggregate.
pub proof fn lemma_entries_model_props(es: Seq<(Vec<u8>, Stats)>)
    requires
        distinct_keys(es),
    ensures
        forall|k: Seq<u8>|
            entries_model(es).contains_key(k) <==> exists|i: int|
                0 <= i < es.len() && (#[trigger] es[i]).0@ == k,
        forall|i: int|
            0 <= i < es.len() ==> entries_model(es).contains_key(#[trigger] es[i].0@)
                && entries_model(es)[es[i].0@] == es[i].1.model(),
    decreases es.len(),
{
    if es.len() > 0 {
        let e0 = es.drop_last();
        assert(distinct_keys(e0));
        lemma_entries_model_props(e0);
        assert(forall|i: int| 0 <= i < es.len() - 1 ==> es[i] == e0[i]);
        let m = entries_model(es);
        assert(m == entries_model(e0).insert(es.last().0@, es.last().1.model()));
        assert forall|k: Seq<u8>| m.contains_key(k) implies exists|i: int|
            0 <= i < es.len() && (#[trigger] es[i]).0@ == k by {
            if k == es.last().0@ {
                assert(es[es.len() - 1].0@ == k);
            } else {
                assert(entries_model(e0).contains_key(k));
                let i = choose|i: int| 0 <= i < e0.len() && (#[trigger] e0[i]).0@ == k;
                assert(es[i].0@ == k);
            }
        }
        assert forall|i: int| 0 <= i < es.len() implies m.contains_key(#[trigger] es[i].0@)
            && m[es[i].0@] == es[i].1.model() by {
            if i < es.len() - 1 {
                assert(e0[i].0@ == es[i].0@);
                assert(es[i].0@ != es[es.len() - 1].0@);
            }
        }
    }
}

/// Replacing the entry at `i` by one with the same key updates the model at
/// that key alone.
pub proof fn lemma_entries_model_update(es: Seq<(Vec<u8>, Stats)>, i: int, e: (Vec<u8>, Stats))
    requires
        distinct_keys(es),
        0 <= i < es.len(),
        e.0@ == es[i].0@,
    ensures
        entries_model(es.update(i, e)) == entries_model(es).insert(e.0@, e.1.model()),
    decreases es.len(),
{
    let up = es.update(i, e);
    if i == es.len() - 1 {
        assert(up.drop_last() =~= es.drop_last());
        assert(up.last() == e);
        assert(entries_model(up) == entries_model(es.drop_last()).insert(e.0@, e.1.model()));
        assert(entries_model(es.drop_last()).insert(e.0@, e.1.model()) =~= entries_model(
            es,
        ).insert(e.0@, e.1.model()));
    } else {
        let e0 = es.drop_last();
        assert(distinct_keys(e0));
        assert(e0[i] == es[i]);
        lemma_entries_model_update(e0, i, e);
        assert(up.drop_last() =~= e0.update(i, e));
        assert(up.last() == es.last());
        assert(es.last().0@ != e.0@);
        assert(entries_model(up) == entries_model(e0).insert(e.0@, e.1.model()).insert(
            es.last().0@,
            es.last().1.model(),
        ));
        assert(entries_model(e0).insert(e.0@, e.1.model()).insert(
            es.last().0@,
            es.last().1.model(),
        ) =~= entries_model(es).insert(e.0@, e.1.model()));
    }
}

/// With distinct keys, the entry count is the number of keys in the model.
pub proof fn lemma_entries_model_dom_len(es: Seq<(Vec<u8>, Stats)>)
    requires
        distinct_keys(es),
    ensures
        entries_model(es).dom().finite(),
        entries_model(es).dom().len() == es.len(),
    decreases es.len(),
{
    if es.len() == 0 {
        assert(entries_model(es).dom() =~= Set::<Seq<u8>>::empty());
    } else {
        let e0 = es.drop_last();
        assert(distinct_keys(e0));
        lemma_entries_model_dom_len(e0);
        lemma_entries_model_props(e0);
        let k = es.last().0@;
        assert(!entries_model(e0).contains_key(k)) by {
            if entries_model(e0).contains_key(k) {
                let i = choose|i: int| 0 <= i < e0.len() && (#[trigger] e0[i]).0@ == k;
                assert(es[i].0@ == es[es.len() - 1].0@);
            }
        }
        assert(entries_model(es).dom() =~= entries_model(e0).dom().insert(k));
        vstd::set::axiom_set_insert_len(entries_model(e0).dom(), k);
    }
}

/// A well-formed entry list denotes a well-formed aggregate map.
pub proof fn lemma_wf_entries_model(es: Seq<(Vec<u8>, Stats)>)
    requires
        wf_entries(es),
    ensures
        wf_agg_map(entries_model(es)),
{
    lemma_entries_model_props(es);
    let m = entries_model(es);
    assert forall|k: Seq<u8>| m.contains_key(k) implies wf_sstats(#[trigger] m[k])
        && m[k].count > 0 by {
        let i = choose|i: int| 0 <= i < es.len() && (#[trigger] es[i]).0@ == k;
        assert(m[es[i].0@] == es[i].1.model());
        assert(es[i].1.wf());
    }
}

/// Merging one key's aggregate into a map.
pub open spec fn merge_one(m: Map<Seq<u8>, SStats>, k: Seq<u8>, s: SStats) -> Map<Seq<u8>, SStats> {
    if m.contains_key(k) {
        m.insert(k, stats_merge(m[k], s))
    } else {
        m.insert(k, s)
    }
}

/// A merge can absorb the last entry of the right-hand map first.
pub proof fn lemma_merge_pull_one(
    a: Map<Seq<u8>, SStats>,
    rest: Map<Seq<u8>, SStats>,
    k: Seq<u8>,
    s: SStats,
)
    requires
        !rest.contains_key(k),
    ensures
        map_merge(a, rest.insert(k, s)) == map_merge(merge_one(a, k, s), rest),
{
    assert(map_merge(a, rest.insert(k, s)) =~= map_merge(merge_one(a, k, s), rest));
}

/// Byte-wise equality of a stored key and a probe.
fn bytes_eq(a: &Vec<u8>, b: &[u8]) -> (r: bool)
    ensures
        r <==> a@ == b@,
{
    if a.len() != b.len() {
        return false;
    }
    let mut i: usize = 0;
    while i < a.len()
        invariant
            0 <= i <= a@.len(),
            a@.len() == b@.len(),
            forall|j: int| 0 <= j < i ==> a@[j] == b@[j],
        decreases a@.len() - i,
    {
        if a[i] != b[i] {
            return false;
        }
        i += 1;
    }
    proof {
        assert(a@ =~= b@);
    }
    true
}

/// Mapping from key to partial aggregate, one entry per distinct key.
pub struct AggregateMap {
    pub entries: Vec<(Vec<u8>, Stats)>,
}

impl View for AggregateMap {
    type V = Map<Seq<u8>, SStats>;

    open spec fn view(&self) -> Map<Seq<u8>, SStats> {
        entries_model(self.entries@)
    }
}

impl AggregateMap {
    pub open spec fn wf(&self) -> bool {
        wf_entries(self.entries@)
    }

    /// The empty aggregate map.
    pub fn new() -> (m: AggregateMap)
        ensures
            m.wf(),
            m@ == Map::<Seq<u8>, SStats>::empty(),
    {
        AggregateMap { entries: Vec::new() }
    }

    /// Index of the entry holding `key`, if the key is present.
    fn find_idx(&self, key: &[u8]) -> (r: Option<usize>)
        requires
            self.wf(),
        ensures
            match r {
                Some(i) => i < self.entries@.len() && self.entries@[i as int].0@ == key@
                    && self@.contains_key(key@)
                    && self@[key@] == self.entries@[i as int].1.model(),
                None => !self@.contains_key(key@),
            },
    {
        let mut i: usize = 0;
        while i < self.entries.len()
            invariant
                self.wf(),
                0 <= i <= self.entries@.len(),
                forall|j: int| 0 <= j < i ==> (#[trigger] self.entries@[j]).0@ != key@,
            decreases self.entries@.len() - i,
        {
            if bytes_eq(&self.entries[i].0, key) {
                proof {
                    lemma_entries_model_props(self.entries@);
                }
                return Some(i);
            }
            i += 1;
        }
        proof {
            lemma_entries_model_props(self.entries@);
        }
        None
    }

    /// The aggregate held for `key`, if any samples with that key have been
    /// recorded.
    pub fn get_stats(&self, key: &[u8]) -> (r: Option<Stats>)
        requires
            self.wf(),
        ensures
            match r {
                Some(st) => self@.contains_key(key@) && st.model() == self@[key@] && st.wf()
                    && st.model().count > 0,
                None => !self@.contains_key(key@),
            },
    {
        match self.find_idx(key) {
            Some(i) => Some(self.entries[i].1),
            None => None,
        }
    }

    /// Number of distinct keys held.
    pub fn len(&self) -> (r: usize)
        requires
            self.wf(),
        ensures
            r == self@.dom().len(),
    {
        proof {
            lemma_entries_model_dom_len(self.entries@);
        }
        self.entries.len()
    }

    /// Folds one record into the map, creating the key's entry at its first
    /// sample.
    pub fn record_sample(&mut self, key: Vec<u8>, v: i64)
        requires
            old(self).wf(),
            sample_bounded(v as int),
            old(self)@.contains_key(key@) ==> old(self)@[key@].count < u64::MAX,
        ensures
            final(self).wf(),
            final(self)@ == agg_step(old(self)@, SRecord { key: key@, value: v as int }),
    {
        proof {
            lemma_entries_model_props(self.entries@);
        }
        match self.find_idx(key.as_slice()) {
            Some(i) => {
                let ghost es0 = self.entries@;
                let entry = vec_index_mut(&mut self.entries, i);
                entry.1.record(v);
                proof {
                    let es1 = self.entries@;
                    assert(es1 =~= es0.update(i as int, es1[i as int]));
                    assert(es1[i as int].0@ == key@);
                    lemma_entries_model_update(es0, i as int, es1[i as int]);
                    assert(forall|j: int|
                        0 <= j < es0.len() && j != i ==> es1[j] == #[trigger] es0[j]);
                }
            },
            None => {
                let mut st = Stats::identity();
                st.record(v);
                let ghost es0 = self.entries@;
                self.entries.push((key, st));
                proof {
                    assert(self.entries@.drop_last() =~= es0);
                    assert(forall|j: int|
                        0 <= j < es0.len() ==> (#[trigger] es0[j]).0@ != key@);
                }
            },
        }
    }

    /// Merges a worker's local map into this one, key-wise.
    pub fn merge_data(&mut self, local: AggregateMap)
        requires
            old(self).wf(),
            local.wf(),
            forall|k: Seq<u8>|
                old(self)@.contains_key(k) && local@.contains_key(k)
                    ==> (#[trigger] old(self)@[k]).count + local@[k].count <= u64::MAX,
        ensures
            final(self).wf(),
            final(self)@ == map_merge(old(self)@, local@),
    {
        let ghost m0 = self@;
        let ghost l0 = local@;
        let mut rem = local;
        while rem.entries.len() > 0
            invariant
                self.wf(),
                wf_entries(rem.entries@),
                map_merge(self@, entries_model(rem.entries@)) == map_merge(m0, l0),
                forall|k: Seq<u8>|
                    self@.contains_key(k) && entries_model(rem.entries@).contains_key(k) ==> (
                    #[trigger] self@[k]).count + entries_model(rem.entries@)[k].count
                        <= u64::MAX,
            decreases rem.entries@.len(),
        {
            let ghost rem0 = rem.entries@;
            proof {
                lemma_entries_model_props(rem0);
            }
            match rem.entries.pop() {
                None => {},
                Some((k, st)) => {
                    proof {
                        assert(rem.entries@ =~= rem0.drop_last());
                        assert(!entries_model(rem.entries@).contains_key(k@)) by {
                            lemma_entries_model_props(rem.entries@);
                            if entries_model(rem.entries@).contains_key(k@) {
                                let i = choose|i: int|
                                    0 <= i < rem.entries@.len()
                                        && (#[trigger] rem.entries@[i]).0@ == k@;
                                assert(rem0[i].0@ == rem0[rem0.len() - 1].0@);
                            }
                        }
                        lemma_merge_pull_one(
                            self@,
                            entries_model(rem.entries@),
                            k@,
                            st.model(),
                        );
                        assert(entries_model(rem0) == entries_model(rem.entries@).insert(
                            k@,
                            st.model(),
                        ));
                    }
                    let ghost selfm = self@;
                    match self.find_idx(k.as_slice()) {
                        Some(i) => {
                            let ghost es0 = self.entries@;
                            let entry = vec_index_mut(&mut self.entries, i);
                            entry.1.merge_from(&st);
                            proof {
                                let es1 = self.entries@;
                                assert(es1 =~= es0.update(i as int, es1[i as int]));
                                assert(es1[i as int].0@ == k@);
                                lemma_entries_model_update(es0, i as int, es1[i as int]);
                                assert(forall|j: int|
                                    0 <= j < es0.len() && j != i
                                        ==> es1[j] == #[trigger] es0[j]);
                                assert(self@ == merge_one(selfm, k@, st.model()));
                            }
                        },
                        None => {
                            let ghost es0 = self.entries@;
                            proof {
                                lemma_entries_model_props(es0);
                            }
                            self.entries.push((k, st));
                            proof {
                                assert(self.entries@.drop_last() =~= es0);
                                assert(forall|j: int|
                                    0 <= j < es0.len() ==> (#[trigger] es0[j]).0@ != k@);
                                assert(self@ == merge_one(selfm, k@, st.model()));
                            }
                        },
                    }
                    proof {
                        assert forall|kk: Seq<u8>|
                            self@.contains_key(kk) && entries_model(
                                rem.entries@,
                            ).contains_key(kk) implies (#[trigger] self@[kk]).count
                            + entries_model(rem.entries@)[kk].count <= u64::MAX by {
                            if kk != k@ {
                                assert(self@[kk] == selfm[kk]);
                                assert(entries_model(rem.entries@)[kk] == entries_model(
                                    rem0,
                                )[kk]);
                            }
                        }
                    }
                },
            }
        }
        proof {
            crate::aggspec::lemma_map_merge_identity(self@);
        }
    }

    /// Merges a worker's local map into this one, unless some key's counts
    /// would overflow. The merge is performed exactly when every key held by
    /// both maps has counts that fit in a `u64`; otherwise the map is left
    /// unchanged.
    pub fn try_merge_data(&mut self, local: AggregateMap) -> (ok: bool)
        requires
            old(self).wf(),
            local.wf(),
        ensures
            final(self).wf(),
            ok <==> (forall|k: Seq<u8>|
                old(self)@.contains_key(k) && local@.contains_key(k)
                    ==> (#[trigger] old(self)@[k]).count + local@[k].count <= u64::MAX),
            ok ==> final(self)@ == map_merge(old(self)@, local@),
            !ok ==> final(self)@ == old(self)@,
    {
        proof {
            lemma_entries_model_props(local.entries@);
        }
        let mut j: usize = 0;
        while j < local.entries.len()
            invariant
                0 <= j <= local.entries@.len(),
                self.wf(),
                local.wf(),
                self@ == old(self)@,
                forall|i: int|
                    0 <= i < j && self@.contains_key((#[trigger] local.entries@[i]).0@)
                        ==> self@[local.entries@[i].0@].count
                            + local.entries@[i].1.model().count <= u64::MAX,
            decreases local.entries@.len() - j,
        {
            let (k, st) = (&local.entries[j].0, &local.entries[j].1);
            match self.get_stats(k.as_slice()) {
                Some(mine) => {
                    if mine.count.checked_add(st.count).is_none() {
                        proof {
                            lemma_entries_model_props(local.entries@);
                            let kk = local.entries@[j as int].0@;
                            assert(local@.contains_key(kk));
                            assert(local@[kk] == local.entries@[j as int].1.model());
                            assert(old(self)@[kk].count + local@[kk].count > u64::MAX);
                        }
                        return false;
                    }
                },
                None => {},
            }
            j += 1;
        }
        proof {
            assert forall|k: Seq<u8>|
                self@.contains_key(k) && local@.contains_key(k)
                implies (#[trigger] self@[k]).count + local@[k].count <= u64::MAX by {
                let i = choose|i: int|
                    0 <= i < local.entries@.len() && (#[trigger] local.entries@[i]).0@ == k;
                assert(local@[k] == local.entries@[i].1.model());
            }
        }
        self.merge_data(local);
        true
    }
}

} // verus!
