use index::{SegmentMapError, TieredSegmentMap};
use index::segment::parse_segment_suffix;

#[test]
fn insert_and_find_in_memory_segment() {
    let mut map = TieredSegmentMap::new("dir".to_string(), Vec::new()).unwrap();

    let entries = vec![("k1".to_string(), vec!["v1".to_string(), "v2".to_string()])];
    map.insert(entries).unwrap();

    let found = map.find("k1", Some(10)).unwrap();
    assert_eq!(found, ["v1", "v2"]);
}

#[test]
fn insert_large_segment_goes_to_disk() {
    let mut map = TieredSegmentMap::new("dir".to_string(), Vec::new()).unwrap();

    // 4097 unique values exceed the spill threshold of 4096.
    let values: Vec<String> = (0..4097).map(|i| format!("val{i}")).collect();
    let entries = vec![("bigkey".to_string(), values.clone())];
    map.insert(entries).unwrap();

    // All values come back, in ascending lexicographic order.
    let mut expected = values.clone();
    expected.sort();
    assert_eq!(map.find("bigkey", None).unwrap(), expected);

    // No in-memory segment remains; exactly one segment went to disk.
    assert!(map.memory.is_empty());
    assert_eq!(map.disk.len(), 1);
    assert_eq!(map.disk[0].0, 0);
    assert_eq!(map.disk[0].1.directory, "dir/seg-0");
    assert_eq!(map.counter, 1);
}

#[test]
fn find_limits_results() {
    let mut map = TieredSegmentMap::new("dir".to_string(), Vec::new()).unwrap();

    let entries = vec![(
        "key".to_string(),
        vec!["v1".to_string(), "v2".to_string(), "v3".to_string()],
    )];
    map.insert(entries).unwrap();

    let found = map.find("key", Some(2)).unwrap();
    assert_eq!(found.len(), 2);
}

#[test]
fn find_nonexistent_returns_empty() {
    let mut map = TieredSegmentMap::new("dir".to_string(), Vec::new()).unwrap();

    let entries = vec![("exists".to_string(), vec!["yes".to_string()])];
    map.insert(entries).unwrap();

    let found = map.find("nope", Some(10)).unwrap();
    assert!(found.is_empty());
}

#[test]
fn zero_limit_returns_nothing() {
    let mut map = TieredSegmentMap::new("dir".to_string(), Vec::new()).unwrap();
    map.insert(vec![("k".to_string(), vec!["v".to_string()])]).unwrap();
    assert_eq!(map.find("k", Some(0)).unwrap(), Vec::<String>::new());
}

#[test]
fn limit_spans_segments_oldest_first() {
    // Two memory segments; results come oldest segment first, and the
    // limit cuts across them.
    let mut map = TieredSegmentMap::new("dir".to_string(), Vec::new()).unwrap();
    map.insert(vec![("k".to_string(), vec!["old1".to_string(), "old2".to_string()])]).unwrap();
    map.insert(vec![("k".to_string(), vec!["new1".to_string()])]).unwrap();

    assert_eq!(map.find("k", None).unwrap(), ["old1", "old2", "new1"]);
    assert_eq!(map.find("k", Some(3)).unwrap(), ["old1", "old2", "new1"]);
    assert_eq!(map.find("k", Some(2)).unwrap(), ["old1", "old2"]);
    assert_eq!(map.find("k", Some(7)).unwrap().len(), 3);
}

#[test]
fn recovery_restores_disk_results() {
    // Spill a big segment, then rebuild the map from the written files:
    // every lookup answers the same.
    let mut map = TieredSegmentMap::new("dir".to_string(), Vec::new()).unwrap();
    let values: Vec<String> = (0..4097).map(|i| format!("val{i}")).collect();
    map.insert(vec![("bigkey".to_string(), values)]).unwrap();
    let before = map.find("bigkey", None).unwrap();

    let files = index::SegmentFiles {
        keys_data: map.disk[0].1.files.keys_data.clone(),
        keys_lookup: map.disk[0].1.files.keys_lookup.clone(),
        values_data: map.disk[0].1.files.values_data.clone(),
        values_lookup: map.disk[0].1.files.values_lookup.clone(),
        bloom: map.disk[0].1.files.bloom.clone(),
        entries: map.disk[0].1.files.entries.clone(),
    };
    let reopened = TieredSegmentMap::new("dir".to_string(), vec![("seg-0".to_string(), files)])
        .unwrap();
    assert_eq!(reopened.counter, 1);
    assert_eq!(reopened.find("bigkey", None).unwrap(), before);
    assert_eq!(
        reopened.find("other", Some(5)).unwrap(),
        map.find("other", Some(5)).unwrap()
    );
}

#[test]
fn segment_names_parse_back() {
    assert_eq!(parse_segment_suffix("seg-0"), Ok(0));
    assert_eq!(parse_segment_suffix("seg-42"), Ok(42));
    assert_eq!(parse_segment_suffix("seg-007"), Ok(7));
    assert_eq!(parse_segment_suffix("junk"), Err(SegmentMapError::UnknownFile));
    assert_eq!(parse_segment_suffix("seg-"), Err(SegmentMapError::InvalidIndex));
    assert_eq!(parse_segment_suffix("seg-1x2"), Err(SegmentMapError::InvalidIndex));
    assert_eq!(
        parse_segment_suffix("seg-99999999999999999999"),
        Err(SegmentMapError::InvalidIndex)
    );
}

#[test]
fn exhausted_counter_rejects_a_spill() {
    // A spilling batch needs a fresh segment name; at the counter's
    // ceiling there is none left.
    let mut map = TieredSegmentMap::new("dir".to_string(), Vec::new()).unwrap();
    map.counter = u64::MAX;
    let values: Vec<String> = (0..4097).map(|i| format!("val{i}")).collect();
    match map.insert(vec![("bigkey".to_string(), values)]) {
        Err(SegmentMapError::InvalidIndex) => {}
        _ => panic!("a spill with no segment name left must be rejected"),
    }
    // A batch that stays in memory is still accepted.
    map.insert(vec![("k".to_string(), vec!["v".to_string()])]).unwrap();
    assert_eq!(map.find("k", None).unwrap(), ["v"]);
}

#[test]
fn recovery_rejects_foreign_names() {
    let files = index::SegmentFiles {
        keys_data: Vec::new(),
        keys_lookup: Vec::new(),
        values_data: Vec::new(),
        values_lookup: Vec::new(),
        bloom: Vec::new(),
        entries: Vec::new(),
    };
    match TieredSegmentMap::new("dir".to_string(), vec![("stray.txt".to_string(), files)]) {
        Err(SegmentMapError::UnknownFile) => {}
        _ => panic!("a foreign directory entry must be rejected"),
    }
}
