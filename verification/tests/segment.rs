use commit_log::config::{Config, SegmentConfig};
use commit_log::error::LogError;
use commit_log::index::ENTRY_WIDTH;
use commit_log::record::Record;
use commit_log::segment::Segment;

#[test]
fn test_segment() {
    let config = Config {
        segment: SegmentConfig {
            max_store_bytes: 1024,
            max_index_bytes: 3 * ENTRY_WIDTH,
            initial_offset: 0,
        },
    };
    let mut segment = Segment::new(16, Vec::new(), Vec::new(), &config);
    assert_eq!(16, segment.next_offset);
    let mut r1 = Record::new(vec![1, 2, 3]);
    segment.append(&mut r1).unwrap();
    assert_eq!(16, r1.offset);
    let g1 = segment.read(16).unwrap();
    assert_eq!(g1.value, r1.value);
    segment.append(&mut r1).unwrap();
    assert_eq!(17, r1.offset);
    segment.append(&mut r1).unwrap();
    assert_eq!(18, r1.offset);

    let files = segment.close();
    let config = Config {
        segment: SegmentConfig {
            max_store_bytes: r1.value.len() as u64 * 3,  // store file is maxed out
            max_index_bytes: 1024,
            initial_offset: 0,
        },
    };
    let segment = Segment::new(16, files.store_bytes, files.index_bytes, &config);
    assert!(segment.is_maxed());
}

// Scenario: a segment whose index holds three entries at most.  Three
// appends succeed; after them the segment is maxed, so a log would rotate;
// the first record still reads back at its absolute offset.
#[test]
fn index_bounds() {
    let config = Config {
        segment: SegmentConfig {
            max_store_bytes: 1024,
            max_index_bytes: 3 * ENTRY_WIDTH,
            initial_offset: 0,
        },
    };
    let mut segment = Segment::new(16, Vec::new(), Vec::new(), &config);
    let v = vec![4, 5];
    for k in 0..3u64 {
        let mut r = Record::new(v.clone());
        assert_eq!(segment.append(&mut r).unwrap(), 16 + k);
        assert!(!segment.is_maxed() || k == 2);
    }
    assert!(segment.is_maxed());
    let mut r = Record::new(v.clone());
    assert_eq!(segment.append(&mut r), Err(LogError::IndexFull));
    assert_eq!(segment.next_offset, 19);
    assert_eq!(segment.read(16).unwrap().value, v);
}

// Recovery computes next_offset from the index: the base offset for an
// empty index, one past the last relative offset otherwise; records read
// back across the close.
#[test]
fn segment_reopen() {
    let config = Config {
        segment: SegmentConfig {
            max_store_bytes: 1024,
            max_index_bytes: 1024,
            initial_offset: 0,
        },
    };
    let mut segment = Segment::new(5, Vec::new(), Vec::new(), &config);
    let mut r = Record::new(b"abc".to_vec());
    segment.append(&mut r).unwrap();
    let mut r = Record::new(b"defg".to_vec());
    segment.append(&mut r).unwrap();
    let files = segment.close();
    assert_eq!(files.base_offset, 5);

    let reopened = Segment::new(5, files.store_bytes, files.index_bytes, &config);
    assert_eq!(reopened.next_offset, 7);
    assert_eq!(reopened.read(5).unwrap().value, b"abc".to_vec());
    assert_eq!(reopened.read(6).unwrap().value, b"defg".to_vec());

    let empty = Segment::new(9, Vec::new(), Vec::new(), &config);
    assert_eq!(empty.next_offset, 9);
}

// The read sets the record's offset to the offset asked for.
#[test]
fn read_assigns_offset() {
    let config = Config {
        segment: SegmentConfig {
            max_store_bytes: 1024,
            max_index_bytes: 1024,
            initial_offset: 0,
        },
    };
    let mut segment = Segment::new(0, Vec::new(), Vec::new(), &config);
    let mut r = Record::new(vec![1]);
    segment.append(&mut r).unwrap();
    let g = segment.read(0).unwrap();
    assert_eq!(g.offset, 0);
    assert_eq!(g.value, vec![1]);
}
