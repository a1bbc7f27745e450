use index::{CachedSegment, DiskSegment, DiskResolutionError, SegmentFiles};
use std::collections::HashSet;

fn empty_files() -> SegmentFiles {
    SegmentFiles {
        keys_data: Vec::new(),
        keys_lookup: Vec::new(),
        values_data: Vec::new(),
        values_lookup: Vec::new(),
        bloom: Vec::new(),
        entries: Vec::new(),
    }
}

#[test]
fn flush_and_find_single_key_multiple_values() {
    let map = vec![("key".to_string(), vec!["value".to_string(), "value2".to_string()])];

    let mem_seg = CachedSegment::new(map).unwrap();
    let mut disk_seg = DiskSegment::open_or_create_segment("seg".to_string(), empty_files());
    disk_seg.flush_memory_segment(&mem_seg).unwrap();

    let resolved = disk_seg.find("key").unwrap();
    let set: HashSet<_> = resolved.iter().cloned().collect();
    assert_eq!(
        set,
        HashSet::from(["value".to_string(), "value2".to_string()])
    );
}

#[test]
fn flush_and_find_no_dup_keys_no_dup_values() {
    let map = vec![
        ("a".to_string(), vec!["1".to_string()]),
        ("b".to_string(), vec!["2".to_string()]),
    ];

    let mem_seg = CachedSegment::new(map).unwrap();
    let mut disk_seg = DiskSegment::open_or_create_segment("seg".to_string(), empty_files());
    disk_seg.flush_memory_segment(&mem_seg).unwrap();

    assert_eq!(disk_seg.find("a").unwrap(), ["1"]);
    assert_eq!(disk_seg.find("b").unwrap(), ["2"]);
}

#[test]
fn flush_and_find_dup_keys_no_dup_values() {
    // Merge duplicate keys before insertion
    let map = vec![("a".to_string(), vec!["1".to_string(), "2".to_string()])];

    let mem_seg = CachedSegment::new(map).unwrap();
    let mut disk_seg = DiskSegment::open_or_create_segment("seg".to_string(), empty_files());
    disk_seg.flush_memory_segment(&mem_seg).unwrap();

    let resolved = disk_seg.find("a").unwrap();
    assert_eq!(resolved, ["1", "2"]);
}

#[test]
fn flush_and_find_no_dup_keys_dup_values() {
    let map = vec![
        ("a".to_string(), vec!["1".to_string()]),
        ("b".to_string(), vec!["1".to_string()]),
    ];

    let mem_seg = CachedSegment::new(map).unwrap();
    let mut disk_seg = DiskSegment::open_or_create_segment("seg".to_string(), empty_files());
    disk_seg.flush_memory_segment(&mem_seg).unwrap();

    assert_eq!(disk_seg.find("a").unwrap(), ["1"]);
    assert_eq!(disk_seg.find("b").unwrap(), ["1"]);
}

#[test]
fn flush_and_find_dup_keys_dup_values() {
    // Duplicate keys and values collapse into one entry
    let map = vec![("a".to_string(), vec!["1".to_string()])];

    let mem_seg = CachedSegment::new(map).unwrap();
    let mut disk_seg = DiskSegment::open_or_create_segment("seg".to_string(), empty_files());
    disk_seg.flush_memory_segment(&mem_seg).unwrap();

    assert_eq!(disk_seg.find("a").unwrap(), ["1"]);
}

#[test]
fn find_nonexistent_key_returns_empty() {
    let map = vec![
        ("x".to_string(), vec!["1".to_string()]),
        ("y".to_string(), vec!["2".to_string()]),
    ];

    let mem_seg = CachedSegment::new(map).unwrap();
    let mut disk_seg = DiskSegment::open_or_create_segment("seg".to_string(), empty_files());
    disk_seg.flush_memory_segment(&mem_seg).unwrap();

    assert_eq!(disk_seg.find("z").unwrap().len(), 0);
}

#[test]
fn memory_and_disk_segments_agree() {
    // Segment parity: both forms of the same segment answer alike.
    let map = vec![
        ("k1".to_string(), vec!["b".to_string(), "a".to_string()]),
        ("k2".to_string(), vec!["z".to_string(), "a".to_string(), "m".to_string()]),
    ];
    let mem_seg = CachedSegment::new(map).unwrap();
    let mut disk_seg = DiskSegment::open_or_create_segment("seg".to_string(), empty_files());
    disk_seg.flush_memory_segment(&mem_seg).unwrap();

    for key in ["k1", "k2", "missing"] {
        assert_eq!(mem_seg.find(key), disk_seg.find(key).unwrap());
    }
}

#[test]
fn garbage_bloom_file_fails_to_load() {
    let mut files = empty_files();
    files.bloom = vec![9, 9, 9];
    let seg = DiskSegment::open_or_create_segment("seg".to_string(), files);
    assert_eq!(seg.find("k"), Err(DiskResolutionError::BloomLoadError));
}

#[test]
fn empty_bitmap_bloom_file_fails_to_load() {
    // A header-only filter file deserializes to a filter with no bitmap
    // bits; probing such a filter would divide by zero, so it must be
    // rejected as unloadable instead.
    let mut bloom = vec![1u8]; // version
    bloom.extend_from_slice(&[0u8; 8]); // bitmap length: zero bytes
    bloom.extend_from_slice(&[7, 0, 0, 0]); // hash count
    bloom.extend_from_slice(&[0u8; 32]); // sip seed
    assert_eq!(bloom.len(), 45);
    let mut files = empty_files();
    files.bloom = bloom;
    let seg = DiskSegment::open_or_create_segment("seg".to_string(), files);
    assert_eq!(seg.find("k"), Err(DiskResolutionError::BloomLoadError));
}

#[test]
fn truncated_lookup_file_is_invalid() {
    let map = vec![("key".to_string(), vec!["v".to_string()])];
    let mem_seg = CachedSegment::new(map).unwrap();
    let mut disk_seg = DiskSegment::open_or_create_segment("seg".to_string(), empty_files());
    disk_seg.flush_memory_segment(&mem_seg).unwrap();

    disk_seg.files.keys_lookup.truncate(3);
    assert_eq!(disk_seg.find("key"), Err(DiskResolutionError::LookupInvalidSize));
}

#[test]
fn truncated_data_file_is_invalid() {
    let map = vec![("key".to_string(), vec!["v".to_string()])];
    let mem_seg = CachedSegment::new(map).unwrap();
    let mut disk_seg = DiskSegment::open_or_create_segment("seg".to_string(), empty_files());
    disk_seg.flush_memory_segment(&mem_seg).unwrap();

    disk_seg.files.keys_data.truncate(2);
    assert_eq!(disk_seg.find("key"), Err(DiskResolutionError::DataInvalidSize));
}

#[test]
fn corrupt_key_payload_is_a_decode_error() {
    // One uncompressed key "k": a four-byte header then the byte of "k".
    let map = vec![("k".to_string(), vec!["v".to_string()])];
    let mem_seg = CachedSegment::new(map).unwrap();
    let mut disk_seg = DiskSegment::open_or_create_segment("seg".to_string(), empty_files());
    disk_seg.flush_memory_segment(&mem_seg).unwrap();

    assert_eq!(disk_seg.files.keys_data, vec![0, 0, 0, 1, b'k']);
    disk_seg.files.keys_data[4] = 0xff; // not valid UTF-8
    assert_eq!(disk_seg.find("k"), Err(DiskResolutionError::Utf8Error));
}
