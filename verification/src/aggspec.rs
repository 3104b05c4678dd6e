//! Mathematical model of aggregation: from a sequence of records to a map
//! of per-key aggregates, and the merge algebra on such maps.
//!
//! A record is a key (a byte string) with one sample value. `aggregate_of`
//! folds a record sequence into a map from key to aggregate; `map_merge`
//! combines the maps of two runs key-wise. The lemmas here are the laws of
//! that algebra: merge has the empty map as identity, is commutative and
//! associative, distributes over concatenation of record sequences, and the
//! aggregate of each key is exactly the fold of that key's own samples.

use vstd::prelude::*;

use crate::stats::{
    sample_bounded, stats_add, stats_identity, stats_merge, stats_of, wf_sstats, SStats,
    lemma_stats_of_wf,
};

verus! {

/// One parsed record: a key and its sample value in tenths.
pub ghost struct SRecord {
    pub key: Seq<u8>,
    pub value: int,
}

pub open spec fn wf_record(r: SRecord) -> bool {
    sample_bounded(r.value)
}

pub open spec fn wf_records(rs: Seq<SRecord>) -> bool {
    forall|i: int| 0 <= i < rs.len() ==> wf_record(#[trigger] rs[i])
}

/// One record folded into an aggregate map: the key's aggregate (or the
/// identity, for a new key) absorbs the sample.
pub open spec fn agg_step(m: Map<Seq<u8>, SStats>, r: SRecord) -> Map<Seq<u8>, SStats> {
    let prev = if m.contains_key(r.key) {
        m[r.key]
    } else {
        stats_identity()
    };
    m.insert(r.key, stats_add(prev, r.value))
}

/// The aggregate map of a whole record sequence.
pub open spec fn aggregate_of(rs: Seq<SRecord>) -> Map<Seq<u8>, SStats>
    decreases rs.len(),
{
    if rs.len() == 0 {
        Map::empty()
    } else {
        agg_step(aggregate_of(rs.drop_last()), rs.last())
    }
}

/// Key-wise merge of two aggregate maps: a key present in both gets the
/// merged aggregate, a key present in one keeps its aggregate.
pub open spec fn map_merge(
    a: Map<Seq<u8>, SStats>,
    b: Map<Seq<u8>, SStats>,
) -> Map<Seq<u8>, SStats> {
    Map::new(
        |k: Seq<u8>| a.contains_key(k) || b.contains_key(k),
        |k: Seq<u8>|
            if a.contains_key(k) && b.contains_key(k) {
                stats_merge(a[k], b[k])
            } else if b.contains_key(k) {
                b[k]
            } else {
                a[k]
            },
    )
}

/// Every aggregate in the map is well formed and holds at least one sample.
pub open spec fn wf_agg_map(m: Map<Seq<u8>, SStats>) -> bool {
    forall|k: Seq<u8>|
        m.contains_key(k) ==> wf_sstats(#[trigger] m[k]) && m[k].count > 0
}

/// The samples of one key, in record order.
pub open spec fn samples_of(rs: Seq<SRecord>, k: Seq<u8>) -> Seq<int>
    decreases rs.len(),
{
    if rs.len() == 0 {
        Seq::empty()
    } else {
        let pre = samples_of(rs.drop_last(), k);
        if rs.last().key == k {
            pre.push(rs.last().value)
        } else {
            pre
        }
    }
}

pub proof fn lemma_samples_of_len(rs: Seq<SRecord>, k: Seq<u8>)
    ensures
        samples_of(rs, k).len() <= rs.len(),
    decreases rs.len(),
{
    if rs.len() > 0 {
        lemma_samples_of_len(rs.drop_last(), k);
    }
}

/// Merging with the empty map changes nothing (the identity law).
pub proof fn lemma_map_merge_identity(m: Map<Seq<u8>, SStats>)
    ensures
        map_merge(m, Map::empty()) == m,
        map_merge(Map::empty(), m) == m,
{
    assert(map_merge(m, Map::empty()) =~= m);
    assert(map_merge(Map::empty(), m) =~= m);
}

/// Merging aggregate maps is exactly commutative.
pub proof fn lemma_map_merge_commutative(a: Map<Seq<u8>, SStats>, b: Map<Seq<u8>, SStats>)
    ensures
        map_merge(a, b) == map_merge(b, a),
{
    assert(map_merge(a, b) =~= map_merge(b, a));
}

/// Merging aggregate maps is exactly associative.
pub proof fn lemma_map_merge_associative(
    a: Map<Seq<u8>, SStats>,
    b: Map<Seq<u8>, SStats>,
    c: Map<Seq<u8>, SStats>,
)
    ensures
        map_merge(map_merge(a, b), c) == map_merge(a, map_merge(b, c)),
{
    assert(map_merge(map_merge(a, b), c) =~= map_merge(a, map_merge(b, c)));
}

/// Folding one more record into a run and then merging is the same as
/// merging first and folding the record into the result.
pub proof fn lemma_map_merge_step(
    a: Map<Seq<u8>, SStats>,
    b: Map<Seq<u8>, SStats>,
    r: SRecord,
)
    requires
        wf_record(r),
        wf_agg_map(a),
    ensures
        map_merge(a, agg_step(b, r)) == agg_step(map_merge(a, b), r),
{
    let lhs = map_merge(a, agg_step(b, r));
    let rhs = agg_step(map_merge(a, b), r);
    assert forall|k: Seq<u8>| lhs.contains_key(k) == rhs.contains_key(k) && (
        lhs.contains_key(k) ==> lhs[k] == rhs[k]) by {
        if k == r.key {
            if a.contains_key(k) && !b.contains_key(k) {
                assert(wf_sstats(a[k]));
                assert(stats_merge(a[k], stats_add(stats_identity(), r.value)) == stats_add(
                    a[k],
                    r.value,
                ));
            }
        }
    }
    assert(lhs =~= rhs);
}

/// The aggregate of two runs laid end to end is the merge of the runs'
/// aggregates: chunked aggregation agrees with aggregation in one pass.
pub proof fn lemma_aggregate_of_concat(a: Seq<SRecord>, b: Seq<SRecord>)
    requires
        wf_records(a),
        wf_records(b),
    ensures
        aggregate_of(a + b) == map_merge(aggregate_of(a), aggregate_of(b)),
    decreases b.len(),
{
    lemma_aggregate_of_wf(a);
    if b.len() == 0 {
        assert(a + b =~= a);
        lemma_map_merge_identity(aggregate_of(a));
    } else {
        let b0 = b.drop_last();
        assert(wf_records(b0));
        lemma_aggregate_of_concat(a, b0);
        assert((a + b).drop_last() =~= a + b0);
        assert((a + b).last() == b.last());
        lemma_map_merge_step(aggregate_of(a), aggregate_of(b0), b.last());
    }
}

/// Each key's aggregate is exactly the fold of that key's own samples; a key
/// is present exactly when it has at least one sample.
pub proof fn lemma_aggregate_of_per_key(rs: Seq<SRecord>, k: Seq<u8>)
    ensures
        aggregate_of(rs).contains_key(k) <==> samples_of(rs, k).len() > 0,
        aggregate_of(rs).contains_key(k) ==> aggregate_of(rs)[k] == stats_of(samples_of(rs, k)),
    decreases rs.len(),
{
    if rs.len() > 0 {
        lemma_aggregate_of_per_key(rs.drop_last(), k);
        if rs.last().key == k {
            let s = samples_of(rs, k);
            assert(s == samples_of(rs.drop_last(), k).push(rs.last().value));
            assert(s.drop_last() =~= samples_of(rs.drop_last(), k));
            assert(s.last() == rs.last().value);
            assert(stats_of(s) == stats_add(stats_of(samples_of(rs.drop_last(), k)), rs.last().value));
        }
    }
}

/// The samples of a key in a bounded record sequence are bounded.
pub proof fn lemma_samples_of_bounded(rs: Seq<SRecord>, k: Seq<u8>)
    requires
        wf_records(rs),
    ensures
        forall|i: int|
            0 <= i < samples_of(rs, k).len() ==> sample_bounded(#[trigger] samples_of(rs, k)[i]),
    decreases rs.len(),
{
    if rs.len() > 0 {
        let r0 = rs.drop_last();
        assert(wf_records(r0));
        lemma_samples_of_bounded(r0, k);
        if rs.last().key == k {
            assert(wf_record(rs.last()));
            assert(forall|i: int|
                0 <= i < samples_of(r0, k).len() ==> samples_of(rs, k)[i]
                    == #[trigger] samples_of(r0, k)[i]);
        }
    }
}

/// The monotonic-aggregate law: after aggregation, each present key's
/// aggregate is the fold of exactly that key's samples, so its count is the
/// number of valid records with that key and its min and max bracket every
/// one of those samples.
pub proof fn lemma_aggregate_bounds(rs: Seq<SRecord>, k: Seq<u8>)
    requires
        wf_records(rs),
        aggregate_of(rs).contains_key(k),
    ensures
        aggregate_of(rs)[k] == stats_of(samples_of(rs, k)),
        aggregate_of(rs)[k].count == samples_of(rs, k).len(),
        forall|i: int|
            0 <= i < samples_of(rs, k).len() ==> aggregate_of(rs)[k].min <= #[trigger] samples_of(
                rs,
                k,
            )[i] <= aggregate_of(rs)[k].max,
{
    lemma_aggregate_of_per_key(rs, k);
    lemma_samples_of_bounded(rs, k);
    lemma_stats_of_wf(samples_of(rs, k));
}

/// The aggregate map of any well-formed record sequence is well formed.
pub proof fn lemma_aggregate_of_wf(rs: Seq<SRecord>)
    requires
        wf_records(rs),
    ensures
        wf_agg_map(aggregate_of(rs)),
    decreases rs.len(),
{
    if rs.len() > 0 {
        let r0 = rs.drop_last();
        assert(wf_records(r0));
        lemma_aggregate_of_wf(r0);
        let m = aggregate_of(r0);
        let r = rs.last();
        assert forall|k: Seq<u8>| aggregate_of(rs).contains_key(k) implies wf_sstats(
            #[trigger] aggregate_of(rs)[k],
        ) && aggregate_of(rs)[k].count > 0 by {
            if k == r.key {
                assert(wf_record(r));
                if m.contains_key(k) {
                    assert(wf_sstats(m[k]));
                }
            }
        }
    }
}

/// Per-key counts are bounded by the length of the record sequence.
pub proof fn lemma_aggregate_of_count(rs: Seq<SRecord>, k: Seq<u8>)
    ensures
        aggregate_of(rs).contains_key(k) ==> aggregate_of(rs)[k].count <= rs.len(),
{
    lemma_aggregate_of_per_key(rs, k);
    lemma_samples_of_len(rs, k);
    if aggregate_of(rs).contains_key(k) {
        lemma_stats_of_count(samples_of(rs, k));
    }
}

/// The count of a fold is the number of samples folded.
pub proof fn lemma_stats_of_count(vs: Seq<int>)
    ensures
        stats_of(vs).count == vs.len(),
    decreases vs.len(),
{
    if vs.len() > 0 {
        lemma_stats_of_count(vs.drop_last());
    }
}

} // verus!
