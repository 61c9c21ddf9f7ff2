use m3u8dl::store::record_name_exec;
use m3u8dl::store::SegmentStore;

#[test]
fn enumerate_returns_paths_in_ordinal_order() {
    let mut store = SegmentStore::new(b"output".to_vec(), 3);
    store.put(0, b"A".to_vec());
    store.put(1, b"B".to_vec());
    store.put(2, b"C".to_vec());
    assert!(store.is_complete());
    let paths = store.enumerate();
    assert_eq!(paths.len(), 3);
    assert_eq!(paths[0], b"output/00000000000000000000.ts".to_vec());
    assert_eq!(paths[1], b"output/00000000000000000001.ts".to_vec());
    assert_eq!(paths[2], b"output/00000000000000000002.ts".to_vec());
    assert_ne!(paths[0], paths[1]);
    assert_ne!(paths[1], paths[2]);
}

#[test]
fn put_returns_the_record_path() {
    let mut store = SegmentStore::new(b"work".to_vec(), 2);
    let path = store.put(1, b"xyz".to_vec());
    assert_eq!(path, b"work/00000000000000000001.ts".to_vec());
}

#[test]
fn concatenation_follows_ordinal_order_not_completion_order() {
    let mut store = SegmentStore::new(b"output".to_vec(), 3);
    store.put(2, b"C".to_vec());
    store.put(0, b"A".to_vec());
    store.put(1, b"B".to_vec());
    assert!(store.is_complete());
    assert_eq!(store.concat_contents(), b"ABC".to_vec());
}

#[test]
fn round_trip_concatenation_matches_segment_bytes() {
    let parts: Vec<&[u8]> = vec![b"one", b"two", b"three", b""];
    let mut store = SegmentStore::new(b"output".to_vec(), 4);
    for (i, p) in parts.iter().enumerate() {
        store.put(i, p.to_vec());
    }
    assert_eq!(store.concat_contents(), b"onetwothree".to_vec());
}

#[test]
fn repeated_put_reuses_the_path_and_replaces_the_artifact() {
    let mut store = SegmentStore::new(b"output".to_vec(), 1);
    let first = store.put(0, b"old".to_vec());
    let second = store.put(0, b"new".to_vec());
    assert_eq!(first, second);
    assert_eq!(store.concat_contents(), b"new".to_vec());
}

#[test]
fn store_is_incomplete_until_every_ordinal_is_put() {
    let mut store = SegmentStore::new(b"output".to_vec(), 2);
    assert!(!store.is_complete());
    store.put(1, b"B".to_vec());
    assert!(!store.is_complete());
    store.put(0, b"A".to_vec());
    assert!(store.is_complete());
}

#[test]
fn record_names_sort_lexicographically_in_ordinal_order() {
    assert!(record_name_exec(2) < record_name_exec(10));
    assert!(record_name_exec(9) < record_name_exec(11));
    assert!(record_name_exec(0) < record_name_exec(1));
    let mut names: Vec<Vec<u8>> = (0..25).map(record_name_exec).collect();
    let in_order = names.clone();
    names.sort();
    assert_eq!(names, in_order);
}
