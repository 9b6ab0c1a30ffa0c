use lol_core::codec::{comparator_fn, encode_index, decode_index, encode_ballot, parse_ballot, parse_image};
use lol_core::storage::{Ballot, Storage, StorageError, Volume};
use std::cmp::Ordering;

#[test]
fn test_index_key_encoding() {
    // fixed-width little-endian
    assert_eq!(encode_index(1), vec![1, 0, 0, 0, 0, 0, 0, 0]);
    assert_eq!(encode_index(256), vec![0, 1, 0, 0, 0, 0, 0, 0]);
    assert_eq!(decode_index(&encode_index(0xDEAD_BEEF_u64)), 0xDEAD_BEEF_u64);
}

#[test]
fn test_comparator_orders_numerically() {
    // byte-lexicographic order would put key(1) after key(256); the
    // comparator must order by the index value instead
    let one = encode_index(1);
    let big = encode_index(256);
    assert_eq!(comparator_fn(&one, &big), Ordering::Less);
    assert_eq!(comparator_fn(&big, &one), Ordering::Greater);
    assert_eq!(comparator_fn(&one, &one), Ordering::Equal);
    assert!(one.as_slice() > big.as_slice());
}

#[test]
fn test_ballot_record_roundtrip() {
    let b = Ballot { cur_term: 9, voted_for: Some(3) };
    let bytes = encode_ballot(&b);
    assert_eq!(bytes.len(), 17);
    assert_eq!(parse_ballot(&bytes), Some(b.clone()));
    let none = Ballot { cur_term: 2, voted_for: None };
    assert_eq!(parse_ballot(&encode_ballot(&none)), Some(none));
    // a corrupt vote tag does not parse
    let mut bad = encode_ballot(&b);
    bad[8] = 7;
    assert_eq!(parse_ballot(&bad), None);
}

#[test]
fn test_create_open_destroy() {
    let mut v = Volume::new();
    assert_eq!(Storage::create(&mut v), Ok(()));
    // creating over a live instance is refused
    assert_eq!(Storage::create(&mut v), Err(StorageError::InitError));
    let s = Storage::open(&v).unwrap();
    assert_eq!(s.load_ballot(), Ok(Ballot { cur_term: 0, voted_for: None }));
    assert_eq!(s.get_head_index(), Ok(0));
    assert_eq!(s.get_last_index(), Ok(0));
    assert_eq!(Storage::destroy(&mut v), Ok(()));
    // opening a destroyed location fails
    assert!(matches!(Storage::open(&v), Err(StorageError::OpenError)));
    // and a fresh create succeeds again
    assert_eq!(Storage::create(&mut v), Ok(()));
}

#[test]
fn test_entry_operations_and_order() {
    let mut v = Volume::new();
    Storage::create(&mut v).unwrap();
    let mut s = Storage::open(&v).unwrap();
    // insert out of order; the scan must still ascend
    s.insert_entry(30, b"c".to_vec()).unwrap();
    s.insert_entry(10, b"a".to_vec()).unwrap();
    s.insert_entry(20, b"b".to_vec()).unwrap();
    assert_eq!(s.scan_indexes(), vec![10, 20, 30]);
    assert_eq!(s.get_head_index(), Ok(10));
    assert_eq!(s.get_last_index(), Ok(30));
    assert_eq!(s.get_entry(20), Ok(Some(b"b".to_vec())));
    assert_eq!(s.get_entry(25), Ok(None));
    // upsert overwrites in place
    s.insert_entry(20, b"B".to_vec()).unwrap();
    assert_eq!(s.get_entry(20), Ok(Some(b"B".to_vec())));
    assert_eq!(s.scan_indexes(), vec![10, 20, 30]);
    // delete narrows head/last
    s.delete_entry(10).unwrap();
    assert_eq!(s.get_head_index(), Ok(20));
    s.delete_entry(30).unwrap();
    assert_eq!(s.get_last_index(), Ok(20));
    s.delete_entry(20).unwrap();
    assert_eq!(s.get_head_index(), Ok(0));
    assert_eq!(s.get_last_index(), Ok(0));
}

#[test]
fn test_ballot_monotonicity() {
    let mut v = Volume::new();
    Storage::create(&mut v).unwrap();
    let mut s = Storage::open(&v).unwrap();
    let mut last_term = s.load_ballot().unwrap().cur_term;
    for (term, vote) in [(1u64, None), (1, Some(2)), (3, Some(1)), (7, None)] {
        s.save_ballot(Ballot { cur_term: term, voted_for: vote }).unwrap();
        let seen = s.load_ballot().unwrap();
        assert!(seen.cur_term >= last_term);
        last_term = seen.cur_term;
        assert_eq!(seen, Ballot { cur_term: term, voted_for: vote });
    }
}

#[test]
fn test_persistency() {
    let mut v = Volume::new();
    Storage::create(&mut v).unwrap();
    let mut s = Storage::open(&v).unwrap();
    s.insert_entry(1, b"alpha".to_vec()).unwrap();
    s.insert_entry(2, b"beta".to_vec()).unwrap();
    s.save_ballot(Ballot { cur_term: 5, voted_for: Some(1) }).unwrap();
    // close writes the image; reopening yields identical state
    s.close(&mut v);
    let reopened = Storage::open(&v).unwrap();
    assert_eq!(reopened.get_entry(1), Ok(Some(b"alpha".to_vec())));
    assert_eq!(reopened.get_entry(2), Ok(Some(b"beta".to_vec())));
    assert_eq!(reopened.load_ballot(), Ok(Ballot { cur_term: 5, voted_for: Some(1) }));
    assert_eq!(reopened.scan_indexes(), vec![1, 2]);
}

#[test]
fn test_corrupt_image_is_refused() {
    let mut v = Volume::new();
    Storage::create(&mut v).unwrap();
    let mut s = Storage::open(&v).unwrap();
    s.insert_entry(1, b"x".to_vec()).unwrap();
    s.close(&mut v);
    let bytes = v.bytes().clone().unwrap();
    // truncating the image makes it unparsable
    let cut = Volume::from_bytes(bytes[..bytes.len() - 1].to_vec());
    assert!(matches!(Storage::open(&cut), Err(StorageError::OpenError)));
    assert!(parse_image(&bytes[..bytes.len() - 1]).is_none());
    // the intact image still parses
    assert!(parse_image(&bytes).is_some());
}
