use city_stats::partition::partition;
use city_stats::pipeline::PipelineError;

fn check_partition(buffer: &[u8], n: usize) {
    let ranges = partition(buffer, n).unwrap();
    assert_eq!(ranges.len(), n);
    assert_eq!(ranges[0].start, 0);
    assert_eq!(ranges[n - 1].end, buffer.len());
    for i in 0..n {
        assert!(ranges[i].start <= ranges[i].end);
        if i + 1 < n {
            assert_eq!(ranges[i].end, ranges[i + 1].start);
        }
        for p in [ranges[i].start, ranges[i].end] {
            assert!(p == 0 || p == buffer.len() || buffer[p - 1] == b'\n');
        }
    }
}

#[test]
fn zero_chunks_is_invalid_configuration() {
    assert_eq!(partition(b"A;1.0\n", 0), Err(PipelineError::InvalidConfiguration));
}

#[test]
fn partition_covers_buffer_exactly() {
    let buf = b"Hamburg;12.0\nBerlin;5.0\nHamburg;8.0\nMunich;1.5\n";
    for n in 1..=8 {
        check_partition(buf, n);
    }
}

#[test]
fn partition_boundaries_fall_after_newlines() {
    let buf = b"A;1.0\nBB;2.0\nCCC;3.0\n";
    let ranges = partition(buf, 3).unwrap();
    for r in &ranges {
        assert!(r.start == 0 || buf[r.start - 1] == b'\n');
    }
}

#[test]
fn more_chunks_than_lines_gives_degenerate_ranges() {
    check_partition(b"A;1.0\n", 5);
    check_partition(b"", 3);
    check_partition(b"no newline at all", 4);
}
