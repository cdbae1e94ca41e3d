use wal_local::recovery::SegmentFile;
use wal_local::region::{Region, RegionError, RegionState};

fn entry(seq: u64, key: &[u8], value: &[u8]) -> (u64, Vec<u8>, Vec<u8>) {
    (seq, key.to_vec(), value.to_vec())
}

#[test]
fn concrete_scenario() {
    let mut region = Region::new(1 << 20);
    assert_eq!(region.append(b"k1", b"v1"), Ok(0));
    assert_eq!(region.append(b"k2", b"v2"), Ok(1));
    assert_eq!(
        region.read(0, 2).unwrap(),
        vec![entry(0, b"k1", b"v1"), entry(1, b"k2", b"v2")]
    );
    assert!(region.delete_up_to(1).is_ok());
    assert_eq!(region.read(0, 2), Err(RegionError::RangeError { from: 0, to: 2 }));
    assert_eq!(region.read(1, 2).unwrap(), vec![entry(1, b"k2", b"v2")]);
}

#[test]
fn sequences_are_consecutive_and_survive_reopen() {
    let mut region = Region::new(64);
    for i in 0..20u64 {
        let key = format!("key{}", i);
        assert_eq!(region.append(key.as_bytes(), b"value"), Ok(i));
    }
    assert_eq!(region.high_watermark(), 20);
    assert!(region.segment_count() > 1);
    let files = region.segment_files();
    let (reopened, report) = Region::recover(&files, 64).unwrap();
    assert_eq!(report.next_sequence, 20);
    assert_eq!(report.recovered_records, 20);
    assert_eq!(report.truncated_bytes, 0);
    assert_eq!(reopened.high_watermark(), 20);
    let all = reopened.read(0, 20).unwrap();
    assert_eq!(all.len(), 20);
    assert_eq!(all[7], entry(7, b"key7", b"value"));
}

#[test]
fn append_batch_assigns_consecutive_sequences() {
    let mut region = Region::new(1 << 20);
    region.append(b"a", b"1").unwrap();
    let entries = vec![(b"b".to_vec(), b"2".to_vec()), (b"c".to_vec(), b"3".to_vec())];
    assert_eq!(region.append_batch(&entries), Ok(vec![1, 2]));
    assert_eq!(region.read(1, 3).unwrap(), vec![entry(1, b"b", b"2"), entry(2, b"c", b"3")]);
    assert_eq!(region.append_batch(&Vec::new()), Ok(vec![]));
    assert_eq!(region.high_watermark(), 3);
}

#[test]
fn retention_drops_whole_segments_only() {
    // Each frame of a one-byte key and value is 19 bytes; a threshold of 30
    // seals a segment after its second frame.
    let mut region = Region::new(30);
    for i in 0..6u8 {
        region.append(&[b'a' + i], &[b'0' + i]).unwrap();
    }
    assert_eq!(region.segment_count(), 4);
    assert_eq!(region.delete_up_to(3), Ok(1));
    assert_eq!(region.low_watermark(), 3);
    assert_eq!(region.segment_count(), 3);
    assert_eq!(region.read(2, 4), Err(RegionError::RangeError { from: 2, to: 4 }));
    assert_eq!(region.read(3, 6).unwrap().len(), 3);
    assert_eq!(region.delete_up_to(6), Ok(2));
    assert_eq!(region.segment_count(), 1);
    assert_eq!(region.read(6, 6).unwrap(), vec![]);
    assert_eq!(region.delete_up_to(7), Err(RegionError::RangeError { from: 7, to: 6 }));
}

#[test]
fn read_outside_watermarks_is_range_error() {
    let mut region = Region::new(1 << 20);
    region.append(b"k", b"v").unwrap();
    assert_eq!(region.read(0, 2), Err(RegionError::RangeError { from: 0, to: 2 }));
    assert_eq!(region.read(1, 0), Err(RegionError::RangeError { from: 1, to: 0 }));
    assert_eq!(region.read(0, 0).unwrap(), vec![]);
}

#[test]
fn closed_and_fatal_regions_refuse_work() {
    let mut region = Region::new(1 << 20);
    region.append(b"k", b"v").unwrap();
    assert_eq!(region.close(), Ok(()));
    assert_eq!(region.state(), RegionState::Closed);
    assert_eq!(region.append(b"k", b"v"), Err(RegionError::Closed));
    assert_eq!(region.read(0, 1), Err(RegionError::Closed));
    assert_eq!(region.close(), Err(RegionError::Closed));

    let mut region = Region::new(1 << 20);
    region.mark_fatal();
    assert_eq!(region.append(b"k", b"v"), Err(RegionError::RegionFatal));
    assert_eq!(region.read(0, 0), Err(RegionError::RegionFatal));
    assert_eq!(region.delete_up_to(0), Err(RegionError::RegionFatal));
}

#[test]
fn recovery_truncates_a_torn_tail() {
    let mut region = Region::new(1 << 20);
    region.append(b"k1", b"v1").unwrap();
    region.append(b"k2", b"v2").unwrap();
    let mut files = region.segment_files();
    let full = files[0].data.len();
    files[0].data.truncate(full - 3);
    let (reopened, report) = Region::recover(&files, 1 << 20).unwrap();
    assert_eq!(report.next_sequence, 1);
    assert_eq!(report.recovered_records, 1);
    assert_eq!(report.truncated_bytes, full - 3 - 21);
    assert_eq!(reopened.read(0, 1).unwrap(), vec![entry(0, b"k1", b"v1")]);
}

#[test]
fn recovery_of_corrupt_sealed_segment_is_fatal() {
    let mut region = Region::new(10);
    region.append(b"k1", b"v1").unwrap();
    region.append(b"k2", b"v2").unwrap();
    let mut files = region.segment_files();
    assert!(files.len() >= 2);
    let last = files[0].data.len() - 1;
    files[0].data[last] ^= 1;
    assert_eq!(Region::recover(&files, 10).err(), Some(RegionError::RegionFatal));
}

#[test]
fn recovery_of_no_files_starts_empty() {
    let (region, report) = Region::recover(&Vec::new(), 100).unwrap();
    assert_eq!(report.next_sequence, 0);
    assert_eq!(region.high_watermark(), 0);
    assert_eq!(region.low_watermark(), 0);
}

#[test]
fn recovery_keeps_starting_sequence_of_files() {
    let mut region = Region::new(1 << 20);
    region.append(b"k", b"v").unwrap();
    let data = region.segment_files().remove(0).data;
    let files = vec![SegmentFile { id: 4, start_seq: 10, data }];
    let (reopened, report) = Region::recover(&files, 1 << 20).unwrap();
    assert_eq!(report.next_sequence, 11);
    assert_eq!(reopened.low_watermark(), 10);
    assert_eq!(reopened.read(10, 11).unwrap(), vec![entry(10, b"k", b"v")]);
    assert_eq!(reopened.read(9, 11), Err(RegionError::RangeError { from: 9, to: 11 }));
}
