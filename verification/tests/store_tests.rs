use dumbdb::error::EngineError;
use dumbdb::store::{SegmentStore, WriteReceipt};

fn files(contents: &[&[u8]]) -> Vec<Vec<u8>> {
    contents.iter().map(|bytes| bytes.to_vec()).collect()
}

fn value(store: &SegmentStore, key: &[u8]) -> Option<Vec<u8>> {
    store.read(key).unwrap()
}

#[test]
fn last_write_wins_within_a_segment() {
    let mut store = SegmentStore::initialize(Vec::new(), 1000, None);
    store.write(b"k", b"v1").unwrap();
    store.write(b"k", b"v2").unwrap();
    assert_eq!(store.segment_count(), 1);
    assert_eq!(store.read(b"k"), Ok(Some(b"v2".to_vec())));
    assert_eq!(store.contents(), files(&[b"k,v1\nk,v2\n"]));
}

#[test]
fn newest_segment_wins_across_rotation() {
    let mut store = SegmentStore::initialize(Vec::new(), 7, None);
    store.write(b"k", b"a").unwrap();
    store.write(b"x", b"1").unwrap();
    store.write(b"k", b"b").unwrap();
    assert_eq!(store.contents(), files(&[b"k,a\nx,1\n", b"k,b\n"]));
    assert_eq!(store.read(b"k"), Ok(Some(b"b".to_vec())));
    assert_eq!(store.read(b"x"), Ok(Some(b"1".to_vec())));
}

#[test]
fn absent_key_is_no_error() {
    let mut store = SegmentStore::initialize(Vec::new(), 20, None);
    assert_eq!(store.read(b"never"), Ok(None));
    store.write(b"a", b"1").unwrap();
    assert_eq!(store.read(b"never"), Ok(None));
    assert_eq!(store.read(b""), Ok(None));
}

#[test]
fn receipt_says_where_the_record_went() {
    let mut store = SegmentStore::initialize(Vec::new(), 7, None);
    assert_eq!(
        store.write(b"a", b"1"),
        Ok(WriteReceipt { segment: 0, offset: 0, created: true, compacted: false })
    );
    assert_eq!(
        store.write(b"b", b"2"),
        Ok(WriteReceipt { segment: 0, offset: 4, created: false, compacted: false })
    );
    assert_eq!(
        store.write(b"c", b"3"),
        Ok(WriteReceipt { segment: 1, offset: 0, created: true, compacted: false })
    );
}

#[test]
fn write_refuses_what_cannot_be_encoded() {
    let mut store = SegmentStore::initialize(files(&[b"a,1\n"]), 20, Some(2));
    assert_eq!(store.write(b"", b"v"), Err(EngineError::MalformedRecord));
    assert_eq!(store.write(b"a,b", b"v"), Err(EngineError::MalformedRecord));
    assert_eq!(store.write(b"a", b"v\n"), Err(EngineError::MalformedRecord));
    assert_eq!(store.contents(), files(&[b"a,1\n"]));
    assert_eq!(store.read(b"a"), Ok(Some(b"1".to_vec())));
}

#[test]
fn write_compacts_when_the_segments_are_too_many() {
    let mut store = SegmentStore::initialize(Vec::new(), 7, Some(1));
    store.write(b"a", b"1").unwrap();
    store.write(b"b", b"2").unwrap();
    assert_eq!(
        store.write(b"a", b"3"),
        Ok(WriteReceipt { segment: 1, offset: 0, created: true, compacted: true })
    );
    assert_eq!(store.contents(), files(&[b"b,2\na,3\n"]));
    assert_eq!(store.read(b"a"), Ok(Some(b"3".to_vec())));
    assert_eq!(store.read(b"b"), Ok(Some(b"2".to_vec())));
}

#[test]
fn startup_rebuilds_the_same_store() {
    let mut store = SegmentStore::initialize(Vec::new(), 20, None);
    let mut keys: Vec<Vec<u8>> = Vec::new();
    for i in 0..40u32 {
        let key = format!("key{}", i % 13).into_bytes();
        let val = format!("value{}", i).into_bytes();
        store.write(&key, &val).unwrap();
        keys.push(key);
    }
    keys.push(b"missing".to_vec());
    let restarted = SegmentStore::initialize(store.contents(), 20, None);
    assert_eq!(restarted.contents(), store.contents());
    for key in keys.iter() {
        assert_eq!(restarted.read(key), store.read(key));
    }
    assert_eq!(value(&restarted, b"key0"), Some(b"value39".to_vec()));
    assert_eq!(value(&restarted, b"key12"), Some(b"value38".to_vec()));
}

#[test]
fn initialize_indexes_the_files_that_were_found() {
    let store = SegmentStore::initialize(files(&[b"a,1\nb,2\n", b"a,3\n", b""]), 20, None);
    assert_eq!(store.segment_count(), 3);
    assert_eq!(value(&store, b"a"), Some(b"3".to_vec()));
    assert_eq!(value(&store, b"b"), Some(b"2".to_vec()));
    assert_eq!(value(&store, b"c"), None);
}

#[test]
fn compaction_preserves_latest_values_and_reduces_size() {
    let mut store = SegmentStore::initialize(Vec::new(), 7, None);
    store.write(b"a", b"1").unwrap();
    store.write(b"b", b"2").unwrap();
    store.write(b"a", b"3").unwrap();
    store.write(b"c", b"4").unwrap();
    store.write(b"b", b"5").unwrap();
    assert_eq!(store.contents(), files(&[b"a,1\nb,2\n", b"a,3\nc,4\n", b"b,5\n"]));
    let before: usize = store.contents().iter().map(|bytes| bytes.len()).sum();
    let read_before =
        vec![store.read(b"a"), store.read(b"b"), store.read(b"c"), store.read(b"d")];
    store.compact();
    let read_after =
        vec![store.read(b"a"), store.read(b"b"), store.read(b"c"), store.read(b"d")];
    assert_eq!(read_after, read_before);
    assert_eq!(
        read_after,
        vec![Ok(Some(b"3".to_vec())), Ok(Some(b"5".to_vec())), Ok(Some(b"4".to_vec())), Ok(None)]
    );
    assert_eq!(store.contents(), files(&[b"a,3\nc,4\n", b"b,5\n"]));
    let after: usize = store.contents().iter().map(|bytes| bytes.len()).sum();
    assert_eq!((before, after), (20, 12));
}

#[test]
fn compaction_keeps_the_set_of_keys() {
    let mut store = SegmentStore::initialize(
        files(&[b"a,1\nno separator\nb,2\n", b"a,,\nc,3\n,4\n"]),
        1000,
        None,
    );
    let keys: Vec<&[u8]> = vec![b"a", b"b", b"c", b"no separator", b"", b"4"];
    let before: Vec<bool> = keys.iter().map(|k| store.read(k).unwrap().is_some()).collect();
    assert_eq!(before, vec![true, true, true, false, false, false]);
    store.compact();
    let after: Vec<bool> = keys.iter().map(|k| store.read(k).unwrap().is_some()).collect();
    assert_eq!(after, before);
    assert_eq!(store.contents(), files(&[b"a,1\nb,2\nc,3\n"]));
}

#[test]
fn malformed_line_tolerance() {
    let store = SegmentStore::initialize(files(&[b"a,1\nthis line has no separator\nb,2\n"]), 20, None);
    assert_eq!(store.read(b"a"), Ok(Some(b"1".to_vec())));
    assert_eq!(store.read(b"b"), Ok(Some(b"2".to_vec())));
    assert_eq!(store.read(b"this line has no separator"), Ok(None));
}

#[test]
fn reads_agree_with_the_file_after_every_write() {
    let mut store = SegmentStore::initialize(Vec::new(), 12, Some(3));
    for i in 0..60u32 {
        let key = format!("k{}", i % 7).into_bytes();
        let val = format!("{}", i * i).into_bytes();
        store.write(&key, &val).unwrap();
        assert_eq!(store.read(&key), Ok(Some(val)));
    }
    for k in 0..7u32 {
        let last = 53 + (k + 7 - 53 % 7) % 7;
        let key = format!("k{}", k).into_bytes();
        assert_eq!(store.read(&key), Ok(Some(format!("{}", last * last).into_bytes())));
    }
}

#[test]
fn partial_last_line_merges_with_the_next_record() {
    let mut store = SegmentStore::initialize(files(&[b"a,1\nb"]), 20, None);
    assert_eq!(store.read(b"a"), Ok(Some(b"1".to_vec())));
    assert_eq!(store.read(b"b"), Ok(None));
    assert_eq!(
        store.write(b"c", b"2"),
        Ok(WriteReceipt { segment: 0, offset: 5, created: false, compacted: false })
    );
    assert_eq!(store.contents(), files(&[b"a,1\nbc,2\n"]));
    assert_eq!(store.read(b"c"), Ok(Some(b"2".to_vec())));
    let restarted = SegmentStore::initialize(store.contents(), 20, None);
    assert_eq!(restarted.read(b"c"), Ok(None));
    assert_eq!(restarted.read(b"bc"), Ok(Some(b"2".to_vec())));
    assert_eq!(restarted.read(b"a"), Ok(Some(b"1".to_vec())));
}
