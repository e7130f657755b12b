use commit_log::config::{Config, SegmentConfig};
use commit_log::error::LogError;
use commit_log::log::Log;
use commit_log::record::Record;
use commit_log::store::LEN_WIDTH;

#[test]
fn it_works() {
    // Append and read back.
    {
        let mut log = Log::new(Vec::new(), Config::default());
        let mut r1 = Record::new(vec![1, 2, 3]);
        let offset = log.append(&mut r1).unwrap();
        let g1 = log.read(offset).unwrap();
        assert_eq!(r1.value, g1.value);
    }
    // Out of range.
    {
        let log = Log::new(Vec::new(), Config::default());
        let r = log.read(1);
        assert!(r.is_err());
        assert!(r.err().unwrap().message().contains("out of range"));
    }
    // Close, then open the same files again.
    {
        let mut log = Log::new(Vec::new(), Config::default());
        for _i in 0..3 {
            let mut r1 = Record::new("hello world".to_owned().into_bytes());
            log.append(&mut r1).unwrap();
        }
        let files = log.close();
        let off = log.lowest_offset().unwrap();
        assert_eq!(0, off);
        let off = log.highest_offset().unwrap();
        assert_eq!(2, off);

        let log = Log::new(files, Config::default());
        let off = log.lowest_offset().unwrap();
        assert_eq!(0, off);
        let off = log.highest_offset().unwrap();
        assert_eq!(2, off);
    }
    // The bulk reader returns the raw frames.
    {
        let mut log = Log::new(Vec::new(), Config::default());
        let mut r1 = Record::new("hello world".to_owned().into_bytes());
        log.append(&mut r1).expect("append");
        let mut r = log.reader();
        let buf = r.read_to_end();
        assert_eq!(&buf[LEN_WIDTH as usize..], r1.value.as_slice());
    }
    // Truncate drops whole segments from the front.
    {
        let mut c = Config::default();
        c.segment.max_store_bytes = 32;
        let mut log = Log::new(Vec::new(), c);
        let mut r1 = Record::new("hello world".to_owned().into_bytes());
        for _i in 0..3 {
            log.append(&mut r1).unwrap();
        }
        log.truncate(1);
        assert!(log.read(0).is_err());
    }
}

// Scenario: basic round-trip on a fresh log with defaults.
#[test]
fn basic_roundtrip() {
    let mut log = Log::new(Vec::new(), Config::default());
    let mut r = Record::new(vec![1, 2, 3]);
    assert_eq!(log.append(&mut r).unwrap(), 0);
    assert_eq!(log.read(0).unwrap().value, vec![1, 2, 3]);
    assert_eq!(log.lowest_offset().unwrap(), 0);
    assert_eq!(log.highest_offset().unwrap(), 0);
}

// Scenario: reads outside the held range fail with "out of range", at both
// ends.
#[test]
fn out_of_range_message() {
    let log = Log::new(Vec::new(), Config::default());
    let e = log.read(1).unwrap_err();
    assert_eq!(e, LogError::OutOfRange);
    assert!(e.message().contains("out of range"));
}

// Scenario: rotation.  With a 32-byte store cap, three 19-byte frames force
// a second segment, and every offset still reads back.
#[test]
fn rotation() {
    let mut c = Config::default();
    c.segment.max_store_bytes = 32;
    let mut log = Log::new(Vec::new(), c);
    for k in 0..3u64 {
        let mut r = Record::new("hello world".to_owned().into_bytes());
        assert_eq!(log.append(&mut r).unwrap(), k);
        assert_eq!(r.offset, k);
    }
    let files = log.close();
    assert!(files.len() >= 2);
    assert_eq!(log.read(2).unwrap().value, "hello world".as_bytes());
    assert_eq!(log.read(0).unwrap().value, "hello world".as_bytes());
}

// The segment count grows by exactly one each time an append reaches the
// store cap, and not otherwise.
#[test]
fn rotation_counting() {
    let mut c = Config::default();
    c.segment.max_store_bytes = 32;
    let mut log = Log::new(Vec::new(), c);
    // 19-byte frames; the cap is reached on every second append.
    let mut r = Record::new("hello world".to_owned().into_bytes());
    log.append(&mut r).unwrap();
    assert_eq!(log.close().len(), 1);
    log.append(&mut r).unwrap();
    assert_eq!(log.close().len(), 2);
    log.append(&mut r).unwrap();
    assert_eq!(log.close().len(), 2);
    log.append(&mut r).unwrap();
    assert_eq!(log.close().len(), 3);
}

// Scenario: truncation.  After truncate(1) the first segment's offsets are
// out of range and the retained ones still read.
#[test]
fn truncate_drops_prefix() {
    let mut c = Config::default();
    c.segment.max_store_bytes = 32;
    let mut log = Log::new(Vec::new(), c);
    for _ in 0..3 {
        let mut r = Record::new("hello world".to_owned().into_bytes());
        log.append(&mut r).unwrap();
    }
    // Segments: offsets [0, 2) and [2, 3).
    let removed = log.truncate(1);
    assert_eq!(removed, vec![0]);
    assert_eq!(log.read(0).unwrap_err(), LogError::OutOfRange);
    assert_eq!(log.read(1).unwrap_err(), LogError::OutOfRange);
    assert_eq!(log.read(2).unwrap().value, "hello world".as_bytes());
    assert_eq!(log.lowest_offset().unwrap(), 2);
    assert_eq!(log.highest_offset().unwrap(), 2);
}

// Truncation removes whole segments only: a segment that spans the given
// offset keeps even its older records.
#[test]
fn truncate_never_splits_segments() {
    let mut c = Config::default();
    c.segment.max_store_bytes = 32;
    let mut log = Log::new(Vec::new(), c);
    for _ in 0..4 {
        let mut r = Record::new("hello world".to_owned().into_bytes());
        log.append(&mut r).unwrap();
    }
    // Segments: [0, 2), [2, 4).  Offset 2 sits mid-segment.
    let removed = log.truncate(2);
    assert_eq!(removed, vec![0]);
    // The spanning segment keeps offset 2 although 2 <= the cut.
    assert_eq!(log.read(2).unwrap().value, "hello world".as_bytes());
    assert_eq!(log.read(3).unwrap().value, "hello world".as_bytes());
    assert_eq!(log.lowest_offset().unwrap(), 2);
}

// Scenario: persistence.  Close, reopen over the files close wrote, and
// every record reads back; a further append continues the offsets.
#[test]
fn reopen_preserves_records() {
    let mut c = Config::default();
    c.segment.max_store_bytes = 32;
    let mut log = Log::new(Vec::new(), c);
    let payloads: Vec<Vec<u8>> = (0..5u8).map(|k| vec![k, k + 1, k + 2, 100]).collect();
    for p in &payloads {
        let mut r = Record::new(p.clone());
        log.append(&mut r).unwrap();
    }
    let mut log = Log::new(log.close(), c);
    assert_eq!(log.lowest_offset().unwrap(), 0);
    assert_eq!(log.highest_offset().unwrap(), 4);
    for (k, p) in payloads.iter().enumerate() {
        assert_eq!(&log.read(k as u64).unwrap().value, p);
    }
    let mut r = Record::new(vec![9]);
    assert_eq!(log.append(&mut r).unwrap(), 5);
}

// The offsets are dense: the span of offsets counts the appends.
#[test]
fn offsets_dense() {
    let mut c = Config::default();
    c.segment.max_store_bytes = 40;
    let mut log = Log::new(Vec::new(), c);
    for n in 1..20u64 {
        let mut r = Record::new(vec![n as u8; (n % 7) as usize]);
        log.append(&mut r).unwrap();
        assert_eq!(
            log.highest_offset().unwrap() - log.lowest_offset().unwrap() + 1,
            n
        );
    }
    for k in 0..19u64 {
        assert_eq!(log.read(k).unwrap().value, vec![k as u8 + 1; ((k + 1) % 7) as usize]);
    }
}

// Truncating away every segment leaves an empty log: every read falls out
// of range and the offset accessors report the emptiness.
#[test]
fn truncate_to_empty() {
    let mut log = Log::new(Vec::new(), Config::default());
    let mut r = Record::new(vec![5]);
    log.append(&mut r).unwrap();
    // The single segment holds only offset 0, so truncate(0) removes it.
    let removed = log.truncate(0);
    assert_eq!(removed, vec![0]);
    assert_eq!(log.lowest_offset().unwrap_err(), LogError::Empty);
    assert_eq!(log.highest_offset().unwrap_err(), LogError::Empty);
    assert!(log.lowest_offset().unwrap_err().message().contains("empty"));
    let e = log.read(0).unwrap_err();
    assert_eq!(e, LogError::OutOfRange);
    assert!(e.message().contains("out of range"));
    assert_eq!(log.read(7).unwrap_err(), LogError::OutOfRange);
    // Close and the bulk reader still work; they just have nothing to give.
    assert_eq!(log.close().len(), 0);
    assert_eq!(log.reader().read_to_end(), Vec::<u8>::new());
    // Truncating again removes nothing.
    assert_eq!(log.truncate(3), Vec::<u64>::new());
}

// A log that starts in an empty directory begins at the configured initial
// offset.
#[test]
fn initial_offset() {
    let c = Config {
        segment: SegmentConfig {
            max_store_bytes: 0,
            max_index_bytes: 0,
            initial_offset: 40,
        },
    };
    let mut log = Log::new(Vec::new(), c);
    assert_eq!(log.lowest_offset().unwrap(), 40);
    let mut r = Record::new(vec![1]);
    assert_eq!(log.append(&mut r).unwrap(), 40);
    assert_eq!(log.highest_offset().unwrap(), 40);
    assert_eq!(log.read(39).unwrap_err(), LogError::OutOfRange);
}
