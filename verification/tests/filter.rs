use trine_kv::filter::PointKeyFilter;

#[test]
fn point_filter_bit_count_tracks_bits_per_key() {
    let keys = (0..128).map(|index| format!("key-{index:03}").into_bytes()).collect::<Vec<_>>();
    let slices = keys.iter().map(Vec::as_slice).collect::<Vec<_>>();
    let small = PointKeyFilter::from_keys(&slices, 4);
    let large = PointKeyFilter::from_keys(&slices, 12);

    assert_eq!(small.bit_count(), 512);
    assert_eq!(large.bit_count(), 1536);
    assert!(large.bytes().len() > small.bytes().len());
    assert!(small.hash_count() < large.hash_count());
}

#[test]
fn point_filter_round_trips_from_parts() {
    let keys = [b"alpha".as_slice(), b"beta".as_slice(), b"gamma".as_slice()];
    let filter = PointKeyFilter::from_keys(&keys, 10);
    let decoded =
        PointKeyFilter::from_parts(filter.bit_count(), filter.hash_count(), filter.bytes().to_vec())
            .expect("filter parts decode");

    for key in keys {
        assert!(decoded.may_contain_key(key));
    }
}

#[test]
fn malformed_bloom_parts_fail_closed() {
    let error = PointKeyFilter::from_parts(16, 1, vec![0]).expect_err("short bitset fails");
    assert!(error.describe().contains("byte length"));

    let error = PointKeyFilter::from_parts(16, 0, vec![0, 0]).expect_err("zero hash count fails");
    assert!(error.describe().contains("hash count"));
}

#[test]
fn every_inserted_key_may_be_contained() {
    let keys = (0..500).map(|index| format!("k{index}").into_bytes()).collect::<Vec<_>>();
    let slices = keys.iter().map(Vec::as_slice).collect::<Vec<_>>();
    let filter = PointKeyFilter::from_keys(&slices, 10);
    for key in &slices {
        assert!(filter.may_contain_key(key));
    }
}

#[test]
fn empty_filter_contains_nothing() {
    let filter = PointKeyFilter::from_keys(&[], 10);
    assert_eq!(filter.bit_count(), 0);
    assert_eq!(filter.hash_count(), 0);
    assert!(filter.bytes().is_empty());
    assert!(!filter.may_contain_key(b"anything"));
    assert!(PointKeyFilter::from_parts(0, 0, Vec::new()).is_ok());
    let error = PointKeyFilter::from_parts(0, 1, Vec::new()).expect_err("metadata fails");
    assert!(error.describe().contains("empty bloom filter has non-empty metadata"));
}

#[test]
fn zero_bits_per_key_still_uses_one_bit_and_one_hash() {
    let keys = [b"a".as_slice()];
    let filter = PointKeyFilter::from_keys(&keys, 0);
    assert_eq!(filter.bit_count(), 1);
    assert_eq!(filter.hash_count(), 1);
    assert!(filter.may_contain_key(b"a"));
}
