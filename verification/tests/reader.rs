use commit_log::config::Config;
use commit_log::log::Log;
use commit_log::multi_reader::{MultiReader, StoreReader};
use commit_log::record::Record;

#[test]
fn multi_string_reader() {
    let s1 = "1234";
    let s2 = "56789";

    let c1 = StoreReader::new(s1.as_bytes().to_vec());
    let c2 = StoreReader::new(s2.as_bytes().to_vec());
    let mut mr = MultiReader::default();
    mr.push_back(c1);
    mr.push_back(c2);

    for i in 0..6 {
        let n = mr.read(2).len();
        if i < 4 {
            assert_eq!(n, 2);
        }
        if i == 4 {
            assert_eq!(n, 1);
        }
        if i == 5 {
            assert_eq!(n, 0);
        }
    }
}

// A read never crosses from one reader into the next: piece boundaries give
// short reads.
#[test]
fn reads_stop_at_piece_boundaries() {
    let mut mr = MultiReader::default();
    mr.push_back(StoreReader::new(vec![1, 2, 3]));
    mr.push_back(StoreReader::new(Vec::new()));
    mr.push_back(StoreReader::new(vec![4]));
    assert_eq!(mr.read(2), vec![1, 2]);
    assert_eq!(mr.read(10), vec![3]);
    assert_eq!(mr.read(10), vec![4]);
    assert_eq!(mr.read(10), Vec::<u8>::new());
    assert_eq!(mr.read(10), Vec::<u8>::new());
}

// Scenario: the bulk reader yields the byte-exact store contents, starting
// with the 8-byte little-endian length of the first record.
#[test]
fn bulk_reader_bytes() {
    let mut log = Log::new(Vec::new(), Config::default());
    let mut r = Record::new("hello world".to_owned().into_bytes());
    log.append(&mut r).unwrap();
    let buf = log.reader().read_to_end();
    assert_eq!(&buf[0..8], &11u64.to_le_bytes());
    assert_eq!(&buf[8..], "hello world".as_bytes());
    assert_eq!(buf.len(), 19);
}

// The bulk reader concatenates every segment's store, in base-offset order.
#[test]
fn bulk_reader_concatenates_segments() {
    let mut c = Config::default();
    c.segment.max_store_bytes = 32;
    let mut log = Log::new(Vec::new(), c);
    let mut expected: Vec<u8> = Vec::new();
    for k in 0..3u64 {
        let payload = "hello world".to_owned().into_bytes();
        expected.extend_from_slice(&(payload.len() as u64).to_le_bytes());
        expected.extend_from_slice(&payload);
        let mut r = Record::new(payload);
        log.append(&mut r).unwrap();
        let _ = k;
    }
    // Three frames over two segments; the stream does not show the seam.
    assert!(log.close().len() >= 2);
    assert_eq!(log.reader().read_to_end(), expected);
}
