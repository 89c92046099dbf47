use dumbdb::codec::Record;
use dumbdb::error::EngineError;
use dumbdb::index::{hash, SegmentIndex};
use dumbdb::scan::{scan, Entry};
use dumbdb::segment::Segment;

fn entry(offset: u64, key: &[u8], value: &[u8]) -> Entry {
    Entry { offset, key: key.to_vec(), value: value.to_vec() }
}

#[test]
fn scan_finds_records_with_their_offsets() {
    assert_eq!(
        scan(b"a,1\nbb,22\nc,\n"),
        vec![entry(0, b"a", b"1"), entry(4, b"bb", b"22"), entry(10, b"c", b"")]
    );
    assert_eq!(scan(b""), Vec::<Entry>::new());
}

#[test]
fn scan_passes_over_malformed_lines_and_counts_their_bytes() {
    assert_eq!(
        scan(b"a,1\njunk\n\nx,y,z\nb,2\n"),
        vec![entry(0, b"a", b"1"), entry(16, b"b", b"2")]
    );
}

#[test]
fn scan_passes_over_a_partial_last_line() {
    assert_eq!(scan(b"a,1\nb,2"), vec![entry(0, b"a", b"1")]);
    assert_eq!(scan(b"a,1\nb"), vec![entry(0, b"a", b"1")]);
    assert_eq!(scan(b"only"), Vec::<Entry>::new());
}

#[test]
fn append_returns_the_size_before_the_append() {
    let mut segment = Segment::create();
    assert_eq!(segment.size(), 0);
    assert_eq!(segment.append(b"a,1\n"), 0);
    assert_eq!(segment.append(b"bb,22\n"), 4);
    assert_eq!(segment.append(b""), 10);
    assert_eq!(segment.size(), 10);
    assert_eq!(segment.bytes(), &b"a,1\nbb,22\n".to_vec());
}

#[test]
fn open_keeps_the_bytes_of_the_file() {
    let mut segment = Segment::open(b"a,1\n".to_vec());
    assert_eq!(segment.size(), 4);
    assert_eq!(segment.append(b"b,2\n"), 4);
    assert_eq!(segment.records(), vec![entry(0, b"a", b"1"), entry(4, b"b", b"2")]);
}

#[test]
fn read_record_at_reads_one_line() {
    let segment = Segment::open(b"a,1\nbb,22\n".to_vec());
    assert_eq!(
        segment.read_record_at(0, b"a"),
        Ok(Record { key: b"a".to_vec(), value: b"1".to_vec() })
    );
    assert_eq!(
        segment.read_record_at(4, b"bb"),
        Ok(Record { key: b"bb".to_vec(), value: b"22".to_vec() })
    );
}

#[test]
fn read_record_at_reports_index_corruption() {
    let segment = Segment::open(b"a,1\nbb,22\nc,3".to_vec());
    assert_eq!(segment.read_record_at(0, b"bb"), Err(EngineError::IndexCorruption));
    assert_eq!(segment.read_record_at(5, b"bb"), Err(EngineError::IndexCorruption));
    assert_eq!(segment.read_record_at(3, b"a"), Err(EngineError::IndexCorruption));
    assert_eq!(segment.read_record_at(10, b"c"), Err(EngineError::IndexCorruption));
    assert_eq!(segment.read_record_at(13, b"a"), Err(EngineError::IndexCorruption));
    assert_eq!(segment.read_record_at(1000, b"a"), Err(EngineError::IndexCorruption));
}

#[test]
fn hash_reads_the_bytes_as_digits() {
    assert_eq!(hash(b""), 0);
    assert_eq!(hash(b"a"), 97);
    assert_eq!(hash(b"ab"), 97 * 31 + 98);
    assert_eq!(hash(b"abc"), (97 * 31 + 98) * 31 + 99);
    assert_eq!(hash(&[255u8; 8]), 3963998323);
}

#[test]
fn index_records_and_overwrites() {
    let mut index = SegmentIndex::new();
    assert_eq!(index.lookup(b"a"), None);
    index.record(b"a", 0);
    index.record(b"b", 4);
    assert_eq!(index.lookup(b"a"), Some(0));
    assert_eq!(index.lookup(b"b"), Some(4));
    index.record(b"a", 8);
    assert_eq!(index.lookup(b"a"), Some(8));
    assert_eq!(index.lookup(b"b"), Some(4));
    assert_eq!(index.lookup(b"c"), None);
}

#[test]
fn index_holds_many_keys() {
    let mut index = SegmentIndex::new();
    for i in 0..2000u64 {
        index.record(format!("key{}", i).as_bytes(), i);
    }
    for i in 0..2000u64 {
        if i % 3 == 0 {
            index.record(format!("key{}", i).as_bytes(), i + 5000);
        }
    }
    for i in 0..2000u64 {
        let expected = if i % 3 == 0 { i + 5000 } else { i };
        assert_eq!(index.lookup(format!("key{}", i).as_bytes()), Some(expected));
    }
    assert_eq!(index.lookup(b"key2000"), None);
}

#[test]
fn index_keeps_keys_with_one_hash_apart() {
    // 31 * 1 + 32 == 31 * 2 + 1: the two keys have the same hash.
    assert_eq!(hash(&[1u8, 32u8]), hash(&[2u8, 1u8]));
    let mut index = SegmentIndex::new();
    index.record(&[1u8, 32u8], 7);
    assert_eq!(index.lookup(&[2u8, 1u8]), None);
    index.record(&[2u8, 1u8], 9);
    assert_eq!(index.lookup(&[1u8, 32u8]), Some(7));
    assert_eq!(index.lookup(&[2u8, 1u8]), Some(9));
    index.record(&[1u8, 32u8], 11);
    assert_eq!(index.lookup(&[1u8, 32u8]), Some(11));
    assert_eq!(index.lookup(&[2u8, 1u8]), Some(9));
}

#[test]
fn build_from_scan_keeps_the_latest_offset_of_each_key() {
    let segment = Segment::open(b"a,1\nb,2\na,3\n".to_vec());
    let index = SegmentIndex::build_from_scan(&segment);
    assert_eq!(index.lookup(b"a"), Some(8));
    assert_eq!(index.lookup(b"b"), Some(4));
    assert_eq!(index.lookup(b"c"), None);
}

#[test]
fn malformed_line_does_not_hide_the_lines_around_it() {
    let segment = Segment::open(b"a,1\nno separator here\nb,2\n".to_vec());
    let index = SegmentIndex::build_from_scan(&segment);
    assert_eq!(index.lookup(b"a"), Some(0));
    assert_eq!(index.lookup(b"b"), Some(22));
    assert_eq!(index.lookup(b"no separator here"), None);
    assert_eq!(segment.read_record_at(0, b"a").unwrap().value, b"1".to_vec());
    assert_eq!(segment.read_record_at(22, b"b").unwrap().value, b"2".to_vec());
}

#[test]
fn every_indexed_offset_reads_back_its_key() {
    let bytes = b"a,1\nbb,2\nbroken\na,3\nccc,\nbb,4\ntail".to_vec();
    let segment = Segment::open(bytes);
    let index = SegmentIndex::build_from_scan(&segment);
    let expected: Vec<(&[u8], u64, &[u8])> =
        vec![(b"a", 16, b"3"), (b"bb", 25, b"4"), (b"ccc", 20, b"")];
    for (key, offset, value) in expected {
        assert_eq!(index.lookup(key), Some(offset));
        let record = segment.read_record_at(offset, key).unwrap();
        assert_eq!(record.key, key.to_vec());
        assert_eq!(record.value, value.to_vec());
    }
    assert_eq!(index.lookup(b"broken"), None);
    assert_eq!(index.lookup(b"tail"), None);
}
