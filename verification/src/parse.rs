//! Record parsing: from a byte buffer to the records it holds.
//!
//! A buffer is a run of newline-terminated lines; a line is a record when it
//! has a `;` separator, its key is valid UTF-8 and its value token is a
//! representable decimal number. Any other line is skipped silently, and a
//! trailing fragment without a terminator is discarded. `records_in` is the
//! spec-level parse; `process_buffer` folds the records of a buffer into an
//! aggregate map and is proved against it. The aligned-split law shows that
//! parsing distributes over any cut placed just after a line terminator,
//! which is what makes chunked parsing agree with a single pass.

use vstd::prelude::*;
use vstd::slice::{slice_subrange, slice_to_vec};

use crate::aggmap::AggregateMap;
use crate::aggspec::{
    aggregate_of, agg_step, lemma_aggregate_of_count, lemma_map_merge_step, map_merge,
    wf_records, SRecord,
};
use crate::stats::sample_bounded;
use crate::value::{
    find_byte, lemma_find_byte, parse_tenths, parse_value, find_byte_from, NEWLINE, SEMICOLON,
};

verus! {

/// Whether a byte sequence is valid UTF-8, as `core::str::from_utf8`
/// decides it. The result is a function of the bytes alone.
pub uninterp spec fn is_valid_utf8(s: Seq<u8>) -> bool;

/// Every byte is in the ASCII range.
pub open spec fn all_ascii(s: Seq<u8>) -> bool {
    forall|i: int| 0 <= i < s.len() ==> s[i] < 128
}

/// Relies on core::str::from_utf8: it returns `Ok` exactly on valid UTF-8,
/// a property of the byte sequence alone; its documentation also states
/// that UTF-8 is a superset of ASCII, so an all-ASCII sequence is accepted.
#[verifier::external_body]
fn utf8_ok(s: &[u8]) -> (r: bool)
    ensures
        r == is_valid_utf8(s@),
        all_ascii(s@) ==> r,
{
    core::str::from_utf8(s).is_ok()
}

/// The record denoted by one line (without its terminator), if any: key up
/// to the first `;`, value after it.
pub open spec fn parse_line(line: Seq<u8>) -> Option<SRecord> {
    let semi = find_byte(line, SEMICOLON, 0);
    if semi == line.len() {
        None
    } else {
        let key = line.subrange(0, semi);
        let val = line.subrange(semi + 1, line.len() as int);
        if is_valid_utf8(key) {
            match parse_tenths(val) {
                Some(v) => Some(SRecord { key, value: v }),
                None => None,
            }
        } else {
            None
        }
    }
}

/// All records held by a buffer, in order; lines that parse to no record
/// contribute nothing, and a trailing unterminated fragment is discarded.
pub open spec fn records_in(s: Seq<u8>) -> Seq<SRecord>
    decreases s.len(),
{
    let nl = find_byte(s, NEWLINE, 0);
    if !(0 <= nl < s.len()) {
        Seq::empty()
    } else {
        let rest = records_in(s.subrange(nl + 1, s.len() as int));
        match parse_line(s.subrange(0, nl)) {
            Some(r) => seq![r] + rest,
            None => rest,
        }
    }
}

/// Records of a buffer are bounded-value records.
pub proof fn lemma_records_in_wf(s: Seq<u8>)
    ensures
        wf_records(records_in(s)),
        records_in(s).len() <= s.len(),
    decreases s.len(),
{
    let nl = find_byte(s, NEWLINE, 0);
    lemma_find_byte(s, NEWLINE, 0);
    if nl < s.len() {
        lemma_records_in_wf(s.subrange(nl + 1, s.len() as int));
        let line = s.subrange(0, nl);
        match parse_line(line) {
            Some(r) => {
                let semi = find_byte(line, SEMICOLON, 0);
                crate::value::lemma_parse_tenths_bounded(
                    line.subrange(semi + 1, line.len() as int),
                );
                assert(sample_bounded(r.value));
                assert(forall|j: int|
                    0 <= j < records_in(s).len() - 1 ==> records_in(s)[j + 1]
                        == #[trigger] records_in(s.subrange(nl + 1, s.len() as int))[j]);
            },
            None => {},
        }
    }
}

/// If `s[k]` is the first occurrence of `b`, `find_byte` returns `k`.
proof fn lemma_find_byte_at(s: Seq<u8>, b: u8, k: int)
    requires
        0 <= k < s.len(),
        s[k] == b,
        forall|j: int| 0 <= j < k ==> s[j] != b,
    ensures
        find_byte(s, b, 0) == k,
{
    lemma_find_byte(s, b, 0);
    let f = find_byte(s, b, 0);
    if f < k {
        assert(s[f] != b);
    }
    if f > k {
        assert(s[k] != b);
    }
}

/// No record is split at an aligned cut: a cut at the start of the buffer
/// or just after a line terminator parts the record sequence exactly, so
/// chunk-by-chunk parsing agrees with a single pass.
pub proof fn lemma_records_aligned_split(s: Seq<u8>, p: int)
    requires
        0 <= p <= s.len(),
        p == 0 || p == s.len() || s[p - 1] == NEWLINE,
    ensures
        records_in(s) == records_in(s.subrange(0, p)) + records_in(
            s.subrange(p, s.len() as int),
        ),
    decreases s.len(),
{
    if p == s.len() && p != 0 {
        assert(s.subrange(0, p) =~= s);
        let tail = s.subrange(p, s.len() as int);
        assert(tail.len() == 0);
        assert(records_in(tail) =~= Seq::<SRecord>::empty());
        assert(records_in(s.subrange(0, p)) + records_in(tail) =~= records_in(s));
    } else if p == 0 {
        assert(s.subrange(0, s.len() as int) =~= s);
        assert(records_in(s.subrange(0, 0)) =~= Seq::<SRecord>::empty());
        assert(records_in(s.subrange(0, 0)) + records_in(s.subrange(0, s.len() as int)) =~=
            records_in(s));
    } else {
        let nl = find_byte(s, NEWLINE, 0);
        lemma_find_byte(s, NEWLINE, 0);
        assert(nl <= p - 1) by {
            if nl > p - 1 {
                assert(s[p - 1] != NEWLINE);
            }
        }
        let take = s.subrange(0, p);
        let rest = s.subrange(nl + 1, s.len() as int);
        assert(forall|j: int| 0 <= j < nl ==> take[j] == s[j]);
        lemma_find_byte_at(take, NEWLINE, nl);
        assert(take.subrange(0, nl) =~= s.subrange(0, nl));
        let p2 = p - nl - 1;
        assert(p2 == 0 || rest[p2 - 1] == s[p - 1]);
        lemma_records_aligned_split(rest, p2);
        assert(rest.subrange(0, p2) =~= take.subrange(nl + 1, p));
        assert(rest.subrange(p2, rest.len() as int) =~= s.subrange(p, s.len() as int));
        let a = records_in(rest.subrange(0, p2));
        let b = records_in(s.subrange(p, s.len() as int));
        match parse_line(s.subrange(0, nl)) {
            Some(r) => {
                assert(records_in(s) == seq![r] + (a + b));
                assert(records_in(take) == seq![r] + a);
                assert((seq![r] + a) + b =~= seq![r] + (a + b));
            },
            None => {
                assert(records_in(s) == a + b);
                assert(records_in(take) == a);
            },
        }
    }
}

/// The single-key-stability law, and chunked aggregation in general: for a
/// cut that splits no record, aggregating the two sides separately and
/// merging gives exactly the single-pass aggregate of the whole buffer, for
/// every key.
pub proof fn lemma_chunked_parse_equals_single_pass(s: Seq<u8>, p: int)
    requires
        0 <= p <= s.len(),
        p == 0 || p == s.len() || s[p - 1] == NEWLINE,
    ensures
        map_merge(
            aggregate_of(records_in(s.subrange(0, p))),
            aggregate_of(records_in(s.subrange(p, s.len() as int))),
        ) == aggregate_of(records_in(s)),
{
    lemma_records_aligned_split(s, p);
    lemma_records_in_wf(s.subrange(0, p));
    lemma_records_in_wf(s.subrange(p, s.len() as int));
    crate::aggspec::lemma_aggregate_of_concat(
        records_in(s.subrange(0, p)),
        records_in(s.subrange(p, s.len() as int)),
    );
}

/// Parses one line into its key and value, if the line is a record.
fn parse_record(line: &[u8]) -> (r: Option<(Vec<u8>, i64)>)
    ensures
        match r {
            Some(kv) => parse_line(line@) == Some(SRecord { key: kv.0@, value: kv.1 as int })
                && sample_bounded(kv.1 as int),
            None => parse_line(line@) is None,
        },
{
    let semi = find_byte_from(line, SEMICOLON, 0);
    if semi == line.len() {
        return None;
    }
    let keyb = slice_subrange(line, 0, semi);
    let valb = slice_subrange(line, semi + 1, line.len());
    if !utf8_ok(keyb) {
        return None;
    }
    match parse_value(valb) {
        Some(v) => Some((slice_to_vec(keyb), v)),
        None => None,
    }
}

/// Scans a buffer for newline-terminated records and folds each into the
/// map: exactly the records of the buffer are merged into what the map
/// already held.
pub fn process_buffer(buffer: &[u8], city_data: &mut AggregateMap)
    requires
        old(city_data).wf(),
        forall|k: Seq<u8>|
            old(city_data)@.contains_key(k) ==> (#[trigger] old(city_data)@[k]).count
                + buffer@.len() <= u64::MAX,
    ensures
        final(city_data).wf(),
        final(city_data)@ == map_merge(old(city_data)@, aggregate_of(records_in(buffer@))),
{
    let ghost m0 = city_data@;
    let ghost mut done: Seq<SRecord> = Seq::empty();
    proof {
        crate::aggmap::lemma_wf_entries_model(old(city_data).entries@);
        assert(aggregate_of(done) =~= Map::<Seq<u8>, crate::stats::SStats>::empty());
        assert(map_merge(m0, aggregate_of(done)) =~= m0);
        assert(buffer@.subrange(0, buffer@.len() as int) =~= buffer@);
    }
    let mut start: usize = 0;
    let mut i: usize = 0;
    while i < buffer.len()
        invariant
            0 <= start <= i <= buffer@.len(),
            start == 0 || buffer@[start - 1] == NEWLINE,
            forall|j: int| start <= j < i ==> buffer@[j] != NEWLINE,
            city_data.wf(),
            crate::aggspec::wf_agg_map(m0),
            wf_records(done),
            done.len() <= start,
            city_data@ == map_merge(m0, aggregate_of(done)),
            done + records_in(buffer@.subrange(start as int, buffer@.len() as int))
                == records_in(buffer@),
            forall|k: Seq<u8>|
                m0.contains_key(k) ==> (#[trigger] m0[k]).count + buffer@.len() <= u64::MAX,
        decreases buffer@.len() - i,
    {
        if buffer[i] == NEWLINE {
            let line = slice_subrange(buffer, start, i);
            let ghost suf = buffer@.subrange(start as int, buffer@.len() as int);
            let ghost suf2 = buffer@.subrange(i + 1, buffer@.len() as int);
            proof {
                lemma_find_byte_at(suf, NEWLINE, i - start);
                assert(suf.subrange(0, i - start) =~= line@);
                assert(suf.subrange(i - start + 1, suf.len() as int) =~= suf2);
            }
            match parse_record(line) {
                Some((key, v)) => {
                    let ghost rec = SRecord { key: key@, value: v as int };
                    proof {
                        assert(records_in(suf) == seq![rec] + records_in(suf2));
                        if city_data@.contains_key(key@) {
                            lemma_aggregate_of_count(done, key@);
                            if m0.contains_key(key@) {
                                assert(city_data@[key@].count <= m0[key@].count + done.len());
                            } else {
                                assert(city_data@[key@].count <= done.len());
                            }
                        }
                    }
                    city_data.record_sample(key, v);
                    proof {
                        lemma_map_merge_step(m0, aggregate_of(done), rec);
                        let done2 = done.push(rec);
                        assert(done2.drop_last() =~= done);
                        assert(aggregate_of(done2) == agg_step(aggregate_of(done), rec));
                        assert(done2 + records_in(suf2) =~= done + (seq![rec] + records_in(
                            suf2,
                        )));
                        assert(forall|j: int|
                            0 <= j < done.len() ==> done2[j] == #[trigger] done[j]);
                        done = done2;
                        assert(wf_records(done));
                    }
                },
                None => {
                    proof {
                        assert(records_in(suf) == records_in(suf2));
                    }
                },
            }
            start = i + 1;
        }
        i += 1;
    }
    proof {
        let suf = buffer@.subrange(start as int, buffer@.len() as int);
        lemma_find_byte(suf, NEWLINE, 0);
        assert(find_byte(suf, NEWLINE, 0) == suf.len()) by {
            let f = find_byte(suf, NEWLINE, 0);
            if f < suf.len() {
                assert(buffer@[start + f] == suf[f]);
            }
        }
        assert(records_in(suf) =~= Seq::<SRecord>::empty());
        assert(done + records_in(suf) =~= done);
    }
}

} // verus!
