use dumbdb::error::EngineError;
use dumbdb::log::{Placement, SegmentLog};

fn files(contents: &[&[u8]]) -> Vec<Vec<u8>> {
    contents.iter().map(|bytes| bytes.to_vec()).collect()
}

#[test]
fn open_and_contents_agree() {
    let log = SegmentLog::open(files(&[b"a,1\n", b"", b"b,2\nc"]), 20);
    assert_eq!(log.segment_count(), 3);
    assert_eq!(log.limit(), 20);
    assert_eq!(log.contents(), files(&[b"a,1\n", b"", b"b,2\nc"]));
    assert_eq!(log.segment(0).bytes(), &b"a,1\n".to_vec());
    assert_eq!(log.segment(2).size(), 5);
}

#[test]
fn first_record_creates_segment_zero() {
    let mut log = SegmentLog::open(Vec::new(), 20);
    assert_eq!(log.segment_count(), 0);
    assert_eq!(
        log.append_record(b"k1", b"v1"),
        Ok(Placement { segment: 0, offset: 0, created: true })
    );
    assert_eq!(log.contents(), files(&[b"k1,v1\n"]));
}

#[test]
fn rotation_is_checked_before_the_write() {
    let mut log = SegmentLog::open(Vec::new(), 20);
    assert_eq!(log.append_record(b"k1", b"v1").unwrap().offset, 0);
    assert_eq!(log.append_record(b"k2", b"v2").unwrap().offset, 6);
    assert_eq!(log.append_record(b"k3", b"v3").unwrap().offset, 12);
    // 18 bytes are not more than 20: the fourth record still goes to segment 0.
    assert_eq!(
        log.append_record(b"k4", b"v4"),
        Ok(Placement { segment: 0, offset: 18, created: false })
    );
    // 24 bytes are more than 20: the fifth record opens segment 1.
    assert_eq!(
        log.append_record(b"k5", b"v5"),
        Ok(Placement { segment: 1, offset: 0, created: true })
    );
    assert_eq!(log.contents(), files(&[b"k1,v1\nk2,v2\nk3,v3\nk4,v4\n", b"k5,v5\n"]));
}

#[test]
fn segment_of_exactly_the_limit_takes_one_more_record() {
    let mut log = SegmentLog::open(files(&[b"0123456789,12345678\n"]), 20);
    assert_eq!(
        log.append_record(b"a", b"1"),
        Ok(Placement { segment: 0, offset: 20, created: false })
    );
    assert_eq!(
        log.append_record(b"b", b"2"),
        Ok(Placement { segment: 1, offset: 0, created: true })
    );
}

#[test]
fn limit_zero_rotates_on_every_record() {
    let mut log = SegmentLog::open(Vec::new(), 0);
    log.append_record(b"a", b"1").unwrap();
    log.append_record(b"b", b"2").unwrap();
    log.append_record(b"c", b"3").unwrap();
    assert_eq!(log.contents(), files(&[b"a,1\n", b"b,2\n", b"c,3\n"]));
}

#[test]
fn empty_last_segment_takes_the_record() {
    let mut log = SegmentLog::open(files(&[b"a,1\n", b""]), 2);
    assert_eq!(
        log.append_record(b"b", b"2"),
        Ok(Placement { segment: 1, offset: 0, created: false })
    );
}

#[test]
fn a_record_that_cannot_be_encoded_changes_nothing() {
    let mut log = SegmentLog::open(files(&[b"a,1\n"]), 20);
    assert_eq!(log.append_record(b"", b"v"), Err(EngineError::MalformedRecord));
    assert_eq!(log.append_record(b"k,", b"v"), Err(EngineError::MalformedRecord));
    assert_eq!(log.append_record(b"k", b"v\nw"), Err(EngineError::MalformedRecord));
    assert_eq!(log.contents(), files(&[b"a,1\n"]));
}

#[test]
fn find_takes_the_newest_segment_and_the_last_line() {
    let log = SegmentLog::open(files(&[b"a,1\nb,2\na,3\n", b"b,4\nc,5\n", b"junk\n"]), 20);
    assert_eq!(log.find(b"a"), Some(b"3".to_vec()));
    assert_eq!(log.find(b"b"), Some(b"4".to_vec()));
    assert_eq!(log.find(b"c"), Some(b"5".to_vec()));
    assert_eq!(log.find(b"d"), None);
    assert_eq!(log.find(b"junk"), None);
}

#[test]
fn find_returns_an_empty_value_of_the_newest_record() {
    let log = SegmentLog::open(files(&[b"a,old\n", b"a,\n"]), 20);
    assert_eq!(log.find(b"a"), Some(Vec::new()));
}

#[test]
fn compaction_keeps_the_latest_value_of_each_key() {
    let mut log = SegmentLog::open(Vec::new(), 1000);
    log.append_record(b"a", b"1").unwrap();
    log.append_record(b"b", b"2").unwrap();
    log.append_record(b"a", b"3").unwrap();
    log.append_record(b"c", b"4").unwrap();
    log.append_record(b"b", b"5").unwrap();
    let before: usize = log.contents().iter().map(|bytes| bytes.len()).sum();
    assert_eq!(before, 20);
    log.compact();
    assert_eq!(log.find(b"a"), Some(b"3".to_vec()));
    assert_eq!(log.find(b"b"), Some(b"5".to_vec()));
    assert_eq!(log.find(b"c"), Some(b"4".to_vec()));
    assert_eq!(log.contents(), files(&[b"a,3\nc,4\nb,5\n"]));
    let after: usize = log.contents().iter().map(|bytes| bytes.len()).sum();
    assert_eq!(after, 12);
    assert!(after < before);
}

#[test]
fn compaction_fills_segments_up_to_the_limit() {
    let mut log =
        SegmentLog::open(files(&[b"a,1\nb,2\n", b"a,3\nc,4\n", b"b,5\n"]), 7);
    log.compact();
    assert_eq!(log.contents(), files(&[b"a,3\nc,4\n", b"b,5\n"]));
    assert_eq!(log.limit(), 7);
}

#[test]
fn compaction_drops_malformed_lines_and_no_key() {
    let mut log = SegmentLog::open(
        files(&[b"a,1\nbroken line\nb,2\n", b"\n\nc,3\nx,y,z\n", b"d,4\npartial"]),
        1000,
    );
    log.compact();
    assert_eq!(log.contents(), files(&[b"a,1\nb,2\nc,3\nd,4\n"]));
    assert_eq!(log.find(b"a"), Some(b"1".to_vec()));
    assert_eq!(log.find(b"b"), Some(b"2".to_vec()));
    assert_eq!(log.find(b"c"), Some(b"3".to_vec()));
    assert_eq!(log.find(b"d"), Some(b"4".to_vec()));
    assert_eq!(log.find(b"broken line"), None);
    assert_eq!(log.find(b"partial"), None);
    assert_eq!(log.find(b"x"), None);
}

#[test]
fn compaction_of_nothing_leaves_no_segment() {
    let mut log = SegmentLog::open(files(&[b"", b"junk\n"]), 20);
    log.compact();
    assert_eq!(log.segment_count(), 0);
    let mut log = SegmentLog::open(Vec::new(), 20);
    log.compact();
    assert_eq!(log.segment_count(), 0);
}

#[test]
fn compaction_without_duplicates_keeps_the_size() {
    let mut log = SegmentLog::open(files(&[b"a,1\nb,2\n"]), 1000);
    log.compact();
    assert_eq!(log.contents(), files(&[b"a,1\nb,2\n"]));
}
