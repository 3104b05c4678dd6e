use city_stats::aggmap::AggregateMap;
use city_stats::parse::process_buffer;
use city_stats::stats::Stats;

fn map_of(input: &[u8]) -> AggregateMap {
    let mut map = AggregateMap::new();
    process_buffer(input, &mut map);
    map
}

fn assert_same_stats(a: &AggregateMap, b: &AggregateMap, key: &[u8]) {
    let sa = a.get_stats(key).unwrap();
    let sb = b.get_stats(key).unwrap();
    assert_eq!(sa.min, sb.min);
    assert_eq!(sa.sum, sb.sum);
    assert_eq!(sa.max, sb.max);
    assert_eq!(sa.count, sb.count);
}

#[test]
fn merging_with_empty_map_changes_nothing() {
    let mut map = map_of(b"A;1.0\nB;-2.0\n");
    map.merge_data(AggregateMap::new());
    let reference = map_of(b"A;1.0\nB;-2.0\n");
    assert_eq!(map.len(), 2);
    assert_same_stats(&map, &reference, b"A");
    assert_same_stats(&map, &reference, b"B");

    let mut empty = AggregateMap::new();
    empty.merge_data(map);
    assert_eq!(empty.len(), 2);
    assert_same_stats(&empty, &reference, b"A");
    assert_same_stats(&empty, &reference, b"B");
}

#[test]
fn merge_is_commutative_on_values() {
    let mut ab = map_of(b"A;1.0\nB;5.5\n");
    ab.merge_data(map_of(b"A;3.0\nC;-1.0\n"));
    let mut ba = map_of(b"A;3.0\nC;-1.0\n");
    ba.merge_data(map_of(b"A;1.0\nB;5.5\n"));
    assert_eq!(ab.len(), 3);
    assert_eq!(ba.len(), 3);
    for key in [b"A".as_slice(), b"B".as_slice(), b"C".as_slice()] {
        assert_same_stats(&ab, &ba, key);
    }
}

#[test]
fn merge_is_associative_on_values() {
    let (x, y, z) = (b"A;1.0\n".as_slice(), b"A;2.0\nB;1.0\n".as_slice(), b"A;4.0\n".as_slice());
    let mut left = map_of(x);
    left.merge_data(map_of(y));
    left.merge_data(map_of(z));
    let mut right_inner = map_of(y);
    right_inner.merge_data(map_of(z));
    let mut right = map_of(x);
    right.merge_data(right_inner);
    assert_same_stats(&left, &right, b"A");
    assert_same_stats(&left, &right, b"B");
    assert_eq!(left.get_stats(b"A").unwrap().count, 3);
    assert_eq!(left.get_stats(b"A").unwrap().sum, 70);
}

#[test]
fn merged_chunks_equal_single_pass() {
    let whole = map_of(b"A;1.0\nB;2.0\nA;3.0\nC;4.0\n");
    let mut merged = map_of(b"A;1.0\nB;2.0\n");
    merged.merge_data(map_of(b"A;3.0\nC;4.0\n"));
    assert_eq!(merged.len(), 3);
    for key in [b"A".as_slice(), b"B".as_slice(), b"C".as_slice()] {
        assert_same_stats(&merged, &whole, key);
    }
}

#[test]
fn stats_identity_element_absorbs_nothing() {
    let mut st = Stats::identity();
    assert_eq!(st.count, 0);
    st.record(-34);
    let ident = Stats::identity();
    st.merge_from(&ident);
    assert_eq!(st.min, -34);
    assert_eq!(st.sum, -34);
    assert_eq!(st.max, -34);
    assert_eq!(st.count, 1);
}

#[test]
fn try_merge_data_merges_when_counts_fit() {
    let mut map = map_of(b"A;1.0\n");
    let ok = map.try_merge_data(map_of(b"A;2.0\n"));
    assert!(ok);
    assert_eq!(map.get_stats(b"A").unwrap().count, 2);
}
