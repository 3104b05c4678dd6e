//! Chunk partitioning: dividing a buffer into line-aligned byte ranges.
//!
//! `partition` cuts a buffer into `n` contiguous half-open ranges that cover
//! it exactly, with every internal boundary placed just after a line
//! terminator, so no record spans two ranges. Degenerate empty ranges are
//! permitted when the buffer has fewer lines than ranges.

use vstd::prelude::*;

use crate::pipeline::PipelineError;
use crate::value::NEWLINE;

verus! {

/// Half-open span `[start, end)` of the input buffer.
#[derive(Clone, Copy, Debug, PartialEq, Eq, Structural)]
pub struct ByteRange {
    pub start: usize,
    pub end: usize,
}

/// A cut position is aligned when it is an edge of the buffer or sits just
/// after a line terminator.
pub open spec fn aligned(s: Seq<u8>, p: int) -> bool {
    p == 0 || p == s.len() || s[p - 1] == NEWLINE
}

/// The ranges are contiguous, ordered, and cover `[0, len)` exactly.
pub open spec fn ranges_partition(rs: Seq<ByteRange>, len: int) -> bool {
    &&& rs.len() > 0
    &&& rs[0].start == 0
    &&& rs[rs.len() - 1].end == len
    &&& forall|i: int| 0 <= i < rs.len() ==> (#[trigger] rs[i]).start <= rs[i].end
    &&& forall|i: int| 0 <= i < rs.len() - 1 ==> (#[trigger] rs[i]).end == rs[i + 1].start
}

/// Every range boundary is aligned: no record is split across ranges.
pub open spec fn ranges_aligned(rs: Seq<ByteRange>, s: Seq<u8>) -> bool {
    forall|i: int|
        0 <= i < rs.len() ==> aligned(s, (#[trigger] rs[i]).start as int) && aligned(
            s,
            rs[i].end as int,
        )
}

/// Moves a candidate cut forward to the next aligned position.
fn align_forward(buffer: &[u8], from: usize) -> (r: usize)
    requires
        from <= buffer@.len(),
    ensures
        from <= r <= buffer@.len(),
        aligned(buffer@, r as int),
{
    let mut e = from;
    while e < buffer.len() && !(e == 0 || buffer[e - 1] == NEWLINE)
        invariant
            from <= e <= buffer@.len(),
        decreases buffer@.len() - e,
    {
        e += 1;
    }
    e
}

/// Divides the buffer into `n` contiguous line-aligned ranges covering it
/// exactly; fails only when `n` is zero.
pub fn partition(buffer: &[u8], n: usize) -> (r: Result<Vec<ByteRange>, PipelineError>)
    ensures
        match r {
            Ok(rs) => n >= 1 && rs@.len() == n && ranges_partition(rs@, buffer@.len() as int)
                && ranges_aligned(rs@, buffer@),
            Err(e) => n == 0 && e == PipelineError::InvalidConfiguration,
        },
{
    if n == 0 {
        return Err(PipelineError::InvalidConfiguration);
    }
    let len = buffer.len();
    let target = len / n;
    let mut ranges: Vec<ByteRange> = Vec::new();
    let mut start: usize = 0;
    let mut i: usize = 0;
    while i < n
        invariant
            0 <= i <= n,
            n >= 1,
            len == buffer@.len(),
            ranges@.len() == i,
            start <= len,
            aligned(buffer@, start as int),
            i > 0 ==> ranges@[0].start == 0,
            i > 0 ==> ranges@[ranges@.len() - 1].end == start,
            i == 0 ==> start == 0,
            i == n ==> start == len,
            forall|j: int| 0 <= j < i ==> (#[trigger] ranges@[j]).start <= ranges@[j].end,
            forall|j: int|
                0 <= j < i - 1 ==> (#[trigger] ranges@[j]).end == ranges@[j + 1].start,
            forall|j: int|
                0 <= j < i ==> aligned(buffer@, (#[trigger] ranges@[j]).start as int)
                    && aligned(buffer@, ranges@[j].end as int),
        decreases n - i,
    {
        let end = if i == n - 1 {
            len
        } else {
            let ideal = if target < len - start {
                start + target
            } else {
                len
            };
            align_forward(buffer, ideal)
        };
        let ghost ranges0 = ranges@;
        ranges.push(ByteRange { start, end });
        proof {
            assert(forall|j: int|
                0 <= j < ranges0.len() ==> ranges@[j] == #[trigger] ranges0[j]);
        }
        start = end;
        i += 1;
    }
    Ok(ranges)
}

} // verus!
