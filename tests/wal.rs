use simple_wal::error::LogError;
use simple_wal::log::{encode_entry, IndexBound, LogFile, LogIterator};

fn new_log() -> LogFile {
    LogFile::recover(Vec::new()).unwrap()
}

fn reopen(log: &LogFile) -> LogFile {
    LogFile::recover(log.image().to_vec()).unwrap()
}

fn collect(mut iter: LogIterator<'_>) -> Vec<Vec<u8>> {
    let mut out = Vec::new();
    while let Some(item) = iter.next() {
        out.push(item.unwrap());
    }
    out
}

fn read_all(log: &LogFile) -> Vec<Vec<u8>> {
    collect(log.iter(IndexBound::Unbounded, IndexBound::Unbounded).unwrap())
}

fn eight_entries() -> Vec<Vec<u8>> {
    vec![
        b"test".to_vec(),
        b"foobar".to_vec(),
        b"bbb".to_vec(),
        b"aaaaa".to_vec(),
        b"11".to_vec(),
        b"222".to_vec(),
        [9; 200].to_vec(),
        b"bar".to_vec(),
    ]
}

#[test]
fn it_works() {
    let entries = vec![b"test".to_vec(), b"foobar".to_vec()];
    let mut log = new_log();
    for entry in &entries {
        log.write(entry).unwrap();
    }
    for (read, written) in read_all(&log).iter().zip(entries.iter()) {
        assert_eq!(read, written);
    }

    let log = reopen(&log);
    assert_eq!(read_all(&log), entries);

    let entry = log.seek(1).unwrap();
    let mut content = vec![];
    let next = entry.read_to_next(&mut content).unwrap();
    assert_eq!(content, entries[1]);
    assert!(next.is_none());

    let entry = log.seek(1).unwrap();
    assert!(matches!(entry.seek(0), Err(LogError::OutOfBounds)), "Cannot seek backwards");
}

#[test]
fn compaction() {
    let entries = eight_entries();
    let mut log = new_log();
    for entry in &entries {
        log.write(entry).unwrap();
    }
    assert_eq!(log.first_index(), 0);
    log.compact(4).unwrap();
    assert_eq!(log.first_index(), 4);
    assert_eq!(read_all(&log), entries[4..].to_vec());

    let log = reopen(&log);
    assert_eq!(log.first_index(), 4);
    assert_eq!(read_all(&log), entries[4..].to_vec());
}

#[test]
fn restart() {
    let entries = eight_entries();
    let mut log = new_log();
    for entry in &entries {
        log.write(entry).unwrap();
    }
    assert_eq!(log.first_index(), 0);

    let mut log = reopen(&log);
    log.restart(3);
    assert_eq!(log.first_index(), 3);
    assert_eq!(read_all(&log).len(), 0);

    let log = reopen(&log);
    assert_eq!(log.first_index(), 3);
    assert_eq!(read_all(&log).len(), 0);
}

#[test]
fn handles_trimmed_wal() {
    let entries = vec![b"test".to_vec(), b"foobar".to_vec()];
    let mut log = new_log();
    for entry in &entries {
        log.write(entry).unwrap();
    }
    let mut bytes = log.image().to_vec();
    bytes.truncate(38);
    let log = LogFile::recover(bytes).unwrap();
    assert_eq!(read_all(&log), entries[..1].to_vec());
}

#[test]
fn round_trip_after_reopen() {
    let entries = vec![b"".to_vec(), b"x".to_vec(), vec![0xff; 1000], b"last".to_vec()];
    let mut log = new_log();
    for entry in &entries {
        log.write(entry).unwrap();
    }
    assert_eq!(read_all(&reopen(&log)), entries);
}

#[test]
fn index_continuity_from_restarted_start() {
    let mut log = new_log();
    log.restart(10);
    for entry in eight_entries() {
        log.write(&entry).unwrap();
    }
    assert_eq!(log.first_index(), 10);
    assert_eq!(log.len(), 8);
    assert_eq!(log.last_index(), 17);
}

#[test]
fn new_log_image_is_a_zero_header() {
    let log = new_log();
    assert_eq!(log.image(), &[0u8; 8][..]);
    assert_eq!(log.len(), 0);
    assert_eq!(log.first_index(), 0);
    let short = LogFile::recover(vec![1, 2, 3]).unwrap();
    assert_eq!(short.image(), &[0u8; 8][..]);
}

#[test]
fn crash_tail_is_truncated() {
    let entries = vec![b"test".to_vec(), b"foobar".to_vec()];
    let mut log = new_log();
    for entry in &entries {
        log.write(entry).unwrap();
    }
    let full = log.image().to_vec();
    for extra in [vec![5u8], vec![0u8; 8], vec![3, 0, 0, 0, 0, 0, 0, 0, b'a', b'b'], vec![100; 30]] {
        let mut bytes = full.clone();
        bytes.extend_from_slice(&extra);
        let recovered = LogFile::recover(bytes).unwrap();
        assert_eq!(recovered.len(), 2);
        assert_eq!(recovered.image(), &full[..]);
        assert_eq!(read_all(&recovered), entries);
    }
}

#[test]
fn seek_only_moves_forward() {
    let mut log = new_log();
    for entry in eight_entries() {
        log.write(&entry).unwrap();
    }
    let cursor = log.seek(3).unwrap();
    assert_eq!(cursor.index(), 3);
    let cursor = cursor.seek(5).unwrap();
    assert_eq!(cursor.index(), 5);
    assert!(matches!(cursor.seek(4), Err(LogError::OutOfBounds)));
    assert!(matches!(log.seek(9), Err(LogError::OutOfBounds)));
    let end = log.seek(8).unwrap();
    let mut sink = Vec::new();
    assert!(matches!(end.read_to_next(&mut sink), Err(LogError::OutOfBounds)));
    assert!(sink.is_empty());
}

#[test]
fn flipped_payload_byte_fails_checksum() {
    let entries = vec![b"test".to_vec(), b"foobar".to_vec(), b"tail".to_vec()];
    let mut log = new_log();
    for entry in &entries {
        log.write(entry).unwrap();
    }
    let mut bytes = log.image().to_vec();
    // header 8, first entry 8 + 4 + 4, then the second entry's length field.
    bytes[8 + 16 + 8 + 2] ^= 0x01;
    let log = LogFile::recover(bytes).unwrap();
    assert_eq!(log.len(), 3);
    let mut iter = log.iter(IndexBound::Unbounded, IndexBound::Unbounded).unwrap();
    assert_eq!(iter.next().unwrap().unwrap(), entries[0]);
    assert!(matches!(iter.next(), Some(Err(LogError::BadChecksum))));
    assert!(iter.next().is_none());
    let mut sink = Vec::new();
    let first = log.first_entry().unwrap();
    let second = first.read_to_next(&mut sink).unwrap().unwrap();
    assert_eq!(sink, entries[0]);
    assert!(matches!(second.read_to_next(&mut sink), Err(LogError::BadChecksum)));
    assert_eq!(sink, entries[0]);
}

#[test]
fn example_compaction_scenario() {
    let entries = eight_entries();
    let mut log = new_log();
    for entry in &entries {
        log.write(entry).unwrap();
    }
    assert_eq!(log.first_index(), 0);
    assert_eq!(log.last_index(), 7);
    log.compact(4).unwrap();
    assert_eq!(log.first_index(), 4);
    assert_eq!(log.len(), 4);
    let expected = vec![b"11".to_vec(), b"222".to_vec(), [9; 200].to_vec(), b"bar".to_vec()];
    assert_eq!(read_all(&log), expected);
    assert_eq!(read_all(&reopen(&log)), expected);
    assert!(matches!(log.seek(3), Err(LogError::OutOfBounds)));
}

#[test]
fn compaction_bounds() {
    let mut log = new_log();
    for entry in eight_entries() {
        log.write(&entry).unwrap();
    }
    log.compact(2).unwrap();
    assert!(matches!(log.compact(1), Err(LogError::OutOfBounds)));
    assert!(matches!(log.compact(9), Err(LogError::OutOfBounds)));
    assert_eq!(log.first_index(), 2);
    log.compact(8).unwrap();
    assert_eq!(log.len(), 0);
    assert_eq!(log.first_index(), 8);
    assert_eq!(log.image(), &8u64.to_le_bytes()[..]);
    let mut empty = new_log();
    empty.compact(0).unwrap();
    assert_eq!(empty.first_index(), 0);
}

#[test]
fn range_bounds() {
    let entries = eight_entries();
    let mut log = new_log();
    for entry in &entries {
        log.write(entry).unwrap();
    }
    let it = log.iter(IndexBound::Included(2), IndexBound::Excluded(5)).unwrap();
    assert_eq!(collect(it), entries[2..5].to_vec());
    let it = log.iter(IndexBound::Excluded(2), IndexBound::Included(5)).unwrap();
    assert_eq!(collect(it), entries[3..6].to_vec());
    let it = log.iter(IndexBound::Unbounded, IndexBound::Excluded(0)).unwrap();
    assert!(collect(it).is_empty());
    let it = log.iter(IndexBound::Included(6), IndexBound::Included(2)).unwrap();
    assert!(collect(it).is_empty());
    assert!(matches!(
        log.iter(IndexBound::Unbounded, IndexBound::Included(7)),
        Err(LogError::OutOfBounds)
    ));
    assert!(matches!(
        log.iter(IndexBound::Unbounded, IndexBound::Excluded(9)),
        Err(LogError::OutOfBounds)
    ));
    assert!(matches!(
        log.iter(IndexBound::Included(9), IndexBound::Unbounded),
        Err(LogError::OutOfBounds)
    ));
    let empty = new_log();
    let it = empty.iter(IndexBound::Included(5), IndexBound::Included(9)).unwrap();
    assert!(collect(it).is_empty());
}

#[test]
fn first_entry_of_empty_log_fails() {
    let log = new_log();
    assert!(matches!(log.first_entry(), Err(LogError::OutOfBounds)));
}

#[test]
fn entry_encoding_holds_length_payload_and_crc32() {
    let bytes = encode_entry(b"123456789");
    assert_eq!(&bytes[..8], &9u64.to_le_bytes()[..]);
    assert_eq!(&bytes[8..17], b"123456789");
    assert_eq!(&bytes[17..], &0xCBF4_3926u32.to_le_bytes()[..]);
}

#[test]
fn recovery_rejects_entries_past_the_largest_index() {
    let mut bytes = u64::MAX.to_le_bytes().to_vec();
    bytes.extend_from_slice(&encode_entry(b"a"));
    assert!(matches!(LogFile::recover(bytes), Err(LogError::OutOfBounds)));
    let mut log = LogFile::recover(Vec::new()).unwrap();
    log.restart(u64::MAX - 1);
    log.write(b"a").unwrap();
    assert!(matches!(log.write(b"b"), Err(LogError::OutOfBounds)));
    assert_eq!(log.len(), 1);
}
