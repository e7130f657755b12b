use commit_log::config::{Config, SegmentConfig};
use commit_log::error::LogError;
use commit_log::index::{Index, ENTRY_WIDTH};

struct Entry {
    off: u32,
    pos: u64,
}

#[test]
fn test_index() {
    let config = Config {
        segment: SegmentConfig { max_index_bytes: 1024, ..Default::default() },
    };
    let mut index = Index::new(Vec::new(), &config);
    assert!(index.read(-1).is_err());

    for e in &vec![Entry { off: 0, pos: 0 }, Entry { off: 0, pos: 0 }] {
        assert!(index.write(e.off, e.pos).is_ok());

        let t = index.read(e.off as i64).unwrap();
        assert_eq!(t.0, e.off);
        assert_eq!(t.1, e.pos);
    }
    assert_eq!(index.size(), 2 * ENTRY_WIDTH);
}

// An index refuses a write once the map has no room for a whole entry, and
// refuses reads while it holds nothing.
#[test]
fn index_full_and_empty() {
    let config = Config {
        segment: SegmentConfig { max_index_bytes: 2 * ENTRY_WIDTH, ..Default::default() },
    };
    let mut index = Index::new(Vec::new(), &config);
    assert!(index.is_empty());
    assert_eq!(index.read(-1), Err(LogError::IndexEmpty));
    // An empty index answers IndexEmpty whatever row is asked for.
    assert_eq!(index.read(0), Err(LogError::IndexEmpty));
    assert_eq!(index.read(5), Err(LogError::IndexEmpty));
    assert_eq!(index.write(0, 0), Ok(()));
    assert_eq!(index.write(1, 12), Ok(()));
    assert_eq!(index.write(2, 24), Err(LogError::IndexFull));
    assert!(!index.is_empty());
    assert_eq!(index.size(), 2 * ENTRY_WIDTH);
    assert_eq!(index.read(-1).unwrap(), (1, 12));
}

// Close truncates the file back to the bytes written, so the next open can
// count the entries from the file's length; the entries read back the same.
#[test]
fn index_close_reopen() {
    let config = Config {
        segment: SegmentConfig { max_index_bytes: 1024, ..Default::default() },
    };
    let mut index = Index::new(Vec::new(), &config);
    index.write(0, 0).unwrap();
    index.write(1, 19).unwrap();
    let file = index.close();
    assert_eq!(file.len() as u64, 2 * ENTRY_WIDTH);

    let reopened = Index::new(file, &config);
    assert_eq!(reopened.size(), 2 * ENTRY_WIDTH);
    assert_eq!(reopened.read(0).unwrap(), (0, 0));
    assert_eq!(reopened.read(1).unwrap(), (1, 19));
    assert_eq!(reopened.read(-1).unwrap(), (1, 19));
}

// The on-disk entry layout: 4 bytes of relative offset, 8 of position, both
// little-endian.
#[test]
fn entry_layout() {
    let config = Config {
        segment: SegmentConfig { max_index_bytes: 1024, ..Default::default() },
    };
    let mut index = Index::new(Vec::new(), &config);
    index.write(7, 513).unwrap();
    let file = index.close();
    assert_eq!(file.len(), 12);
    assert_eq!(&file[0..4], &7u32.to_le_bytes());
    assert_eq!(&file[4..12], &513u64.to_le_bytes());
}
