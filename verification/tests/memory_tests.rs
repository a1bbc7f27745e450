use index::{CachedSegment, Entry};
use std::collections::HashSet;

#[test]
fn entry_compression_behavior() {
    let short = "short"; // not compressible enough
    let long = "aaaaaaaaaaaaaaaaaaaaaaaaabbbbbbbbbbbbbbbb"; // highly compressible

    let e1 = Entry::new(short);
    let e2 = Entry::new(long);

    match e1 {
        Entry::Uncompressed(_) => {}
        _ => panic!("Short string should not be compressed"),
    }

    match e2 {
        Entry::Compressed(_) => {}
        _ => panic!("Highly compressible string should be compressed"),
    }

    assert_eq!(e1.as_uncompressed().unwrap(), short);
    assert_eq!(e2.as_uncompressed().unwrap(), long);
}

#[test]
fn new_and_resolve_single_key_multiple_values() {
    let map = vec![(
        "key".to_string(),
        vec!["value".to_string(), "value".to_string(), "value2".to_string()],
    )];

    let seg = CachedSegment::new(map).unwrap();

    // Should contain unique key
    assert_eq!(seg.keys.len(), 1);

    // Should contain deduplicated values ("value", "value2")
    let unique_values: HashSet<_> = seg
        .values
        .iter()
        .map(|v| v.as_uncompressed().unwrap())
        .collect();
    assert_eq!(unique_values.len(), 2);

    // resolve should return a valid value for "key"
    let resolved = seg.find("key");
    assert_eq!(resolved, ["value", "value2"]);
}

#[test]
fn no_dup_keys_no_dup_values() {
    let map = vec![
        ("a".to_string(), vec!["1".to_string()]),
        ("b".to_string(), vec!["2".to_string()]),
    ];

    let seg = CachedSegment::new(map).unwrap();

    assert_eq!(seg.keys.len(), 2);
    assert_eq!(seg.values.len(), 2);
    assert_eq!(seg.entries.len(), 2);

    assert_eq!(seg.find("a"), ["1"]);
    assert_eq!(seg.find("b"), ["2"]);
}

#[test]
fn dup_keys_no_dup_values() {
    // Simulate duplicate keys by merging values before calling new()
    let map = vec![("a".to_string(), vec!["1".to_string(), "2".to_string()])];

    let seg = CachedSegment::new(map).unwrap();

    // Deduplicated keys (1 unique key)
    assert_eq!(seg.keys.len(), 1);
    // 2 unique values
    assert_eq!(seg.values.len(), 2);
    assert_eq!(seg.entries.len(), 2);

    // Resolve returns both values
    let resolved = seg.find("a");
    assert_eq!(resolved, ["1", "2"]);
}

#[test]
fn no_dup_keys_dup_values() {
    let map = vec![
        ("a".to_string(), vec!["1".to_string()]),
        ("b".to_string(), vec!["1".to_string()]),
    ];

    let seg = CachedSegment::new(map).unwrap();

    // 2 keys, 1 deduplicated value
    assert_eq!(seg.keys.len(), 2);
    assert_eq!(seg.values.len(), 1);
    assert_eq!(seg.entries.len(), 2);

    assert_eq!(seg.find("a"), ["1"]);
    assert_eq!(seg.find("b"), ["1"]);
}

#[test]
fn dup_keys_dup_values() {
    // Duplicates now merge under same key
    let map = vec![("a".to_string(), vec!["1".to_string(), "1".to_string()])];

    let seg = CachedSegment::new(map).unwrap();

    // 1 unique key, 1 unique value
    assert_eq!(seg.keys.len(), 1);
    assert_eq!(seg.values.len(), 1);
    assert_eq!(seg.entries.len(), 1);

    assert_eq!(seg.find("a"), ["1"]);
}

#[test]
fn empty_batch_is_rejected() {
    match CachedSegment::new(Vec::new()) {
        Err(index::SegmentMapError::EmptyInput) => {}
        _ => panic!("an empty batch must be rejected"),
    }
}

#[test]
fn unsorted_values_come_back_sorted() {
    // The segment stores distinct values sorted by text, whatever order
    // the batch supplied them in.
    let map = vec![(
        "k".to_string(),
        vec!["b".to_string(), "a".to_string(), "c".to_string(), "a".to_string()],
    )];
    let seg = CachedSegment::new(map).unwrap();
    assert_eq!(seg.find("k"), ["a", "b", "c"]);
}

#[test]
fn bloom_accepts_every_inserted_key() {
    let map = vec![
        ("alpha".to_string(), vec!["1".to_string()]),
        ("beta".to_string(), vec!["2".to_string()]),
        ("gamma".to_string(), vec!["3".to_string()]),
    ];
    let seg = CachedSegment::new(map).unwrap();
    assert!(seg.bloom.check("alpha"));
    assert!(seg.bloom.check("beta"));
    assert!(seg.bloom.check("gamma"));
}

#[test]
fn find_missing_key_in_segment_is_empty() {
    let map = vec![("exists".to_string(), vec!["yes".to_string()])];
    let seg = CachedSegment::new(map).unwrap();
    assert_eq!(seg.find("nope"), Vec::<String>::new());
}

#[test]
fn corrupt_compressed_entry_fails_to_decode() {
    let e = Entry::Compressed(vec![1, 2, 3]);
    match e.as_uncompressed() {
        Err(index::EntryError::CorruptCompressedEntry) => {}
        _ => panic!("garbage must not decode"),
    }
    let e2 = Entry::Compressed(vec![4, 5, 6]);
    match e2.into_uncompressed() {
        Err(index::EntryError::CorruptCompressedEntry) => {}
        _ => panic!("garbage must not decode"),
    }
}
