//! The whole pipeline in one pass: partition, parse, merge, render.
//!
//! `run_pipeline` cuts the buffer into `n` line-aligned chunks, aggregates
//! each chunk on its own, merges the partial aggregates in order, and
//! renders the report. Its contract says the result is the report of the
//! whole buffer's records — the same for every `n >= 1` — which is what
//! entitles a caller to parse the chunks in parallel.

use vstd::prelude::*;
use vstd::slice::slice_subrange;

use crate::aggmap::AggregateMap;
use crate::aggspec::{
    aggregate_of, lemma_aggregate_of_concat, lemma_aggregate_of_count, lemma_map_merge_identity,
    map_merge,
};
use crate::parse::{
    lemma_records_aligned_split, lemma_records_in_wf, process_buffer, records_in,
};
use crate::partition::{partition, ranges_aligned, ranges_partition};
use crate::render::{render_report, report_of, report_prefix, sorted_key_entries};
use crate::stats::SStats;

verus! {

/// Structural failures of a run; malformed lines are not errors.
#[derive(Clone, Copy, Debug, PartialEq, Eq, Structural)]
pub enum PipelineError {
    /// A partition count of zero was requested.
    InvalidConfiguration,
    /// A parallel worker terminated abnormally.
    WorkerFailure,
}

/// Runs the whole pipeline over a buffer with `n` chunks: the report of the
/// buffer's records, whatever `n >= 1` is chosen.
pub fn run_pipeline(buffer: &[u8], n: usize) -> (r: Result<Vec<u8>, PipelineError>)
    ensures
        match r {
            Ok(out) => n >= 1 && exists|es: Seq<(Seq<u8>, SStats)>|
                #[trigger] sorted_key_entries(es, aggregate_of(records_in(buffer@)))
                    && out@ == report_prefix() + report_of(es),
            Err(e) => n == 0 && e == PipelineError::InvalidConfiguration,
        },
{
    let ranges = match partition(buffer, n) {
        Ok(rs) => rs,
        Err(e) => {
            return Err(e);
        },
    };
    let mut global = AggregateMap::new();
    proof {
        let pre0 = buffer@.subrange(0, 0);
        crate::value::lemma_find_byte(pre0, crate::value::NEWLINE, 0);
        assert(records_in(pre0) =~= Seq::<crate::aggspec::SRecord>::empty());
        assert(aggregate_of(records_in(pre0)) =~= Map::<Seq<u8>, SStats>::empty());
    }
    let mut i: usize = 0;
    while i < ranges.len()
        invariant
            0 <= i <= ranges@.len(),
            ranges_partition(ranges@, buffer@.len() as int),
            ranges_aligned(ranges@, buffer@),
            global.wf(),
            global@ == aggregate_of(
                records_in(
                    buffer@.subrange(
                        0,
                        if i == 0 {
                            0int
                        } else {
                            ranges@[i - 1].end as int
                        },
                    ),
                ),
            ),
        decreases ranges@.len() - i,
    {
        let start = ranges[i].start;
        let end = ranges[i].end;
        proof {
            assert(ranges@[i as int].start <= ranges@[i as int].end);
            assert(i == 0 ==> ranges@[0].start == 0);
            assert(i > 0 ==> ranges@[i - 1].end == ranges@[i as int].start);
            assert(end <= buffer@.len()) by {
                if i < ranges@.len() - 1 {
                    lemma_ranges_end_bounded(ranges@, i as int, buffer@.len() as int);
                }
            }
        }
        let chunk = slice_subrange(buffer, start, end);
        let mut local = AggregateMap::new();
        process_buffer(chunk, &mut local);
        let ghost pre_a = buffer@.subrange(0, start as int);
        let ghost pre_b = buffer@.subrange(0, end as int);
        proof {
            lemma_map_merge_identity(aggregate_of(records_in(chunk@)));
            assert(local@ == aggregate_of(records_in(chunk@)));
            lemma_records_aligned_split(pre_b, start as int);
            assert(pre_b.subrange(0, start as int) =~= pre_a);
            assert(pre_b.subrange(start as int, pre_b.len() as int) =~= chunk@);
            assert(records_in(pre_b) == records_in(pre_a) + records_in(chunk@));
            lemma_records_in_wf(pre_a);
            lemma_records_in_wf(chunk@);
            lemma_records_in_wf(pre_b);
            lemma_aggregate_of_concat(records_in(pre_a), records_in(chunk@));
            assert forall|k: Seq<u8>|
                global@.contains_key(k) && local@.contains_key(k) implies (
            #[trigger] global@[k]).count + local@[k].count <= u64::MAX by {
                lemma_aggregate_of_count(records_in(pre_a), k);
                lemma_aggregate_of_count(records_in(chunk@), k);
            }
        }
        global.merge_data(local);
        i += 1;
    }
    proof {
        assert(buffer@.subrange(0, buffer@.len() as int) =~= buffer@);
        if ranges@.len() > 0 {
            assert(ranges@[ranges@.len() - 1].end == buffer@.len());
        }
    }
    Ok(render_report(global))
}

/// Within a partition, every range ends at or before the buffer's end.
proof fn lemma_ranges_end_bounded(rs: Seq<crate::partition::ByteRange>, i: int, len: int)
    requires
        ranges_partition(rs, len),
        0 <= i < rs.len(),
    ensures
        rs[i].end <= len,
    decreases rs.len() - i,
{
    if i < rs.len() - 1 {
        assert(rs[i].end == rs[i + 1].start);
        lemma_ranges_end_bounded(rs, i + 1, len);
    }
}

} // verus!
