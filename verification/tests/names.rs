use commit_log::numeral::{
    base_offsets_from_names, file_stem, format_u64, index_file_name, parse_u64, store_file_name,
};

#[test]
fn decimal_roundtrip() {
    for n in [0u64, 1, 9, 10, 99, 100, 1023, u64::MAX] {
        let s = format_u64(n);
        assert_eq!(parse_u64(&s), Some(n));
    }
    assert_eq!(format_u64(0), b"0".to_vec());
    assert_eq!(format_u64(1024), b"1024".to_vec());
    assert_eq!(parse_u64(&b"18446744073709551615".to_vec()), Some(u64::MAX));
}

#[test]
fn parse_rejects() {
    // Empty, non-digits, and overflow.
    assert_eq!(parse_u64(&Vec::new()), None);
    assert_eq!(parse_u64(&b"12a".to_vec()), None);
    assert_eq!(parse_u64(&b"-3".to_vec()), None);
    assert_eq!(parse_u64(&b"18446744073709551616".to_vec()), None);
    // Leading zeros are digits all the same.
    assert_eq!(parse_u64(&b"007".to_vec()), Some(7));
}

#[test]
fn segment_file_names() {
    assert_eq!(store_file_name(0), b"0.store".to_vec());
    assert_eq!(index_file_name(0), b"0.index".to_vec());
    assert_eq!(store_file_name(1024), b"1024.store".to_vec());
    assert_eq!(index_file_name(1024), b"1024.index".to_vec());
}

#[test]
fn stems() {
    assert_eq!(file_stem(&b"16.store".to_vec()), b"16".to_vec());
    assert_eq!(file_stem(&b"16.index".to_vec()), b"16".to_vec());
    assert_eq!(file_stem(&b"16".to_vec()), b"16".to_vec());
    assert_eq!(file_stem(&b"a.b.c".to_vec()), b"a".to_vec());
    assert_eq!(file_stem(&b".hidden".to_vec()), Vec::<u8>::new());
}

// The recovery plan: each base offset once, ascending, whatever order the
// directory listed the files in.
#[test]
fn recovery_plan() {
    let names: Vec<Vec<u8>> = vec![
        b"19.store".to_vec(),
        b"0.index".to_vec(),
        b"19.index".to_vec(),
        b"0.store".to_vec(),
        b"7.store".to_vec(),
        b"7.index".to_vec(),
    ];
    assert_eq!(base_offsets_from_names(&names), Some(vec![0, 7, 19]));
    assert_eq!(base_offsets_from_names(&Vec::new()), Some(Vec::new()));

    // A stray file whose stem is no number spoils the whole plan.
    let names: Vec<Vec<u8>> = vec![b"0.store".to_vec(), b"notes.txt".to_vec()];
    assert_eq!(base_offsets_from_names(&names), None);
}
