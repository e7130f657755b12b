use commit_log::error::LogError;
use commit_log::multi_reader::{MultiReader, StoreReader};
use commit_log::store::{Store, LEN_WIDTH};

#[test]
fn test_store() {
    let mut store = Store::new(Vec::new());
    let r = store.append(&vec![1, 2, 3]);
    assert!(r.is_ok());
    let r = r.unwrap();
    assert_eq!(r.0, 11);
    assert_eq!(r.1, 0);

    let read = store.read(r.1).unwrap();
    assert_eq!(&read, &[1, 2, 3]);

    let ba = store.read_at(r.1, LEN_WIDTH as usize).unwrap();
    let width = u64::from_le_bytes(ba.as_slice().try_into().unwrap());
    assert_eq!(width, 3);
}

#[test]
fn store_reader() {
    let mut store1 = Store::new(Vec::new());
    store1.append(&vec![1, 1, 1, 1]).expect("");
    store1.append(&vec![2, 2, 2, 2]).expect("");
    let mut sr1 = StoreReader::new(store1.close());

    let n1 = sr1.read(12).len();
    assert_eq!(n1, 12);
    let n1 = sr1.read(12).len();
    assert_eq!(n1, 12);
    let n1 = sr1.read(12).len();
    assert_eq!(n1, 0);
}

#[test]
fn multi_store_reader() {
    let mut store1 = Store::new(Vec::new());
    store1.append(&vec![1, 1, 1, 1]).expect("");

    let mut store2 = Store::new(Vec::new());
    store2.append(&vec![2, 2, 2, 2]).expect("");

    let sr1 = StoreReader::new(store1.close());
    let sr2 = StoreReader::new(store2.close());

    let mut mr = MultiReader::default();
    mr.push_back(sr1);
    mr.push_back(sr2);

    for i in 0..3 {
        let n = mr.read(8 + 4).len();
        if i == 0 {
            assert_eq!(n, 12);
        }
        if i == 1 {
            assert_eq!(n, 12);
        }
        if i == 2 {
            assert_eq!(n, 0);
        }
    }
}

// Round trip of a single frame: append, then read back at the returned
// position, for several payloads in one store.
#[test]
fn frame_roundtrip() {
    let mut store = Store::new(Vec::new());
    let payloads: Vec<Vec<u8>> = vec![vec![9], b"hello world".to_vec(), vec![0; 300]];
    let mut positions = Vec::new();
    for p in &payloads {
        let (w, pos) = store.append(p).unwrap();
        assert_eq!(w, LEN_WIDTH + p.len() as u64);
        positions.push(pos);
    }
    for (p, pos) in payloads.iter().zip(positions.iter()) {
        assert_eq!(&store.read(*pos).unwrap(), p);
    }
    assert_eq!(store.size(), (8 + 1) + (8 + 11) + (8 + 300));
}

// A read that runs past the bytes written fails with Eof, both on the
// length prefix and on the payload.
#[test]
fn read_past_end() {
    let mut store = Store::new(Vec::new());
    assert_eq!(store.read(0), Err(LogError::Eof));
    store.append(&vec![5, 6, 7]).unwrap();
    // One byte past the last frame: no room for a length prefix.
    assert_eq!(store.read(4), Err(LogError::Eof));
    assert_eq!(store.read(1_000_000), Err(LogError::Eof));
    // A length prefix that promises more bytes than the store holds.
    let mut torn = Store::new(17u64.to_le_bytes().to_vec());
    assert_eq!(torn.read(0), Err(LogError::Eof));
    let _ = torn.append(&vec![]);
}

// read_at is frame-oblivious and short at end of store.
#[test]
fn read_at_short() {
    let mut store = Store::new(Vec::new());
    store.append(&vec![1, 2]).unwrap();
    // Frame is 10 bytes; ask for more.
    let all = store.read_at(0, 100).unwrap();
    assert_eq!(all.len(), 10);
    assert_eq!(&all[0..8], &2u64.to_le_bytes());
    assert_eq!(&all[8..], &[1, 2]);
    assert_eq!(store.read_at(9, 5).unwrap(), vec![2]);
    assert_eq!(store.read_at(10, 5).unwrap(), Vec::<u8>::new());
    assert_eq!(store.read_at(11, 5).unwrap(), Vec::<u8>::new());
}

// A store reopened over the bytes close wrote back serves the same reads.
#[test]
fn store_reopen() {
    let mut store = Store::new(Vec::new());
    let (_, pos) = store.append(&b"payload".to_vec()).unwrap();
    let file = store.close();
    let reopened = Store::new(file);
    assert_eq!(reopened.size(), store.size());
    assert_eq!(reopened.read(pos).unwrap(), b"payload".to_vec());
}
