use index::PartitionMap;
use index::partition::partition_dir_name;

#[test]
fn index_and_search_one_partition() {
    let mut pm = PartitionMap::new("root".to_string()).unwrap();
    pm.index(vec![(
        "p1".to_string(),
        vec![("k1".to_string(), vec!["v1".to_string(), "v2".to_string()])],
    )])
    .unwrap();

    let found = pm
        .search(vec![("p1".to_string(), vec!["k1".to_string()])], Some(10))
        .unwrap();
    assert_eq!(found, ["v1", "v2"]);
}

#[test]
fn partitions_are_isolated() {
    // Indexing under one partition is invisible to another, and a query
    // naming both sees both, in query order.
    let mut pm = PartitionMap::new("root".to_string()).unwrap();
    pm.index(vec![
        ("p1".to_string(), vec![("k".to_string(), vec!["from-p1".to_string()])]),
        ("p2".to_string(), vec![("k".to_string(), vec!["from-p2".to_string()])]),
    ])
    .unwrap();

    let only_p1 = pm
        .search(vec![("p1".to_string(), vec!["k".to_string()])], None)
        .unwrap();
    assert_eq!(only_p1, ["from-p1"]);

    let both = pm
        .search(
            vec![
                ("p1".to_string(), vec!["k".to_string()]),
                ("p2".to_string(), vec!["k".to_string()]),
            ],
            None,
        )
        .unwrap();
    assert_eq!(both, ["from-p1", "from-p2"]);
}

#[test]
fn search_limit_is_shared_across_partitions() {
    let mut pm = PartitionMap::new("root".to_string()).unwrap();
    pm.index(vec![
        (
            "p1".to_string(),
            vec![("k".to_string(), vec!["a".to_string(), "b".to_string()])],
        ),
        (
            "p2".to_string(),
            vec![("k".to_string(), vec!["c".to_string(), "d".to_string()])],
        ),
    ])
    .unwrap();

    let q = vec![
        ("p1".to_string(), vec!["k".to_string()]),
        ("p2".to_string(), vec!["k".to_string()]),
    ];
    assert_eq!(pm.search(q.clone(), Some(3)).unwrap().len(), 3);
    assert_eq!(pm.search(q.clone(), Some(10)).unwrap().len(), 4);
    assert_eq!(pm.search(q, Some(0)).unwrap().len(), 0);
}

#[test]
fn searching_an_unknown_partition_is_empty() {
    let mut pm = PartitionMap::new("root".to_string()).unwrap();
    pm.index(vec![(
        "p1".to_string(),
        vec![("k".to_string(), vec!["v".to_string()])],
    )])
    .unwrap();
    let found = pm
        .search(vec![("ghosted".to_string(), vec!["k".to_string()])], None)
        .unwrap();
    assert!(found.is_empty());
}

#[test]
fn partition_directory_names_are_zbase32() {
    assert_eq!(partition_dir_name("p1"), "qyao");
    // The encoding separates distinct identifiers.
    assert_ne!(partition_dir_name("p1"), partition_dir_name("p2"));
}

#[test]
fn repeated_index_appends_segments() {
    let mut pm = PartitionMap::new("root".to_string()).unwrap();
    pm.index(vec![(
        "p".to_string(),
        vec![("k".to_string(), vec!["1".to_string()])],
    )])
    .unwrap();
    pm.index(vec![(
        "p".to_string(),
        vec![("k".to_string(), vec!["2".to_string()])],
    )])
    .unwrap();
    let found = pm
        .search(vec![("p".to_string(), vec!["k".to_string()])], None)
        .unwrap();
    assert_eq!(found, ["1", "2"]);
}
