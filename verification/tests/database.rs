use nymp2p::database::{
    debug_bytes_text, get_type_prefix, key_bytes, last_path_segment, starts_with, type_prefix,
    keep_prefixed, lookup_outcome, AddressDB, DBError, DBWrapper, KeyValueInput, Lookup, TypedKey,
};

#[test]
fn type_prefix_of_paths() {
    assert_eq!(last_path_segment("nymp2p::net_addr::Address"), "Address");
    assert_eq!(last_path_segment("u32"), "u32");
    assert_eq!(last_path_segment("a:::b"), ":b");
    assert_eq!(last_path_segment("alloc::vec::Vec<nymp2p::Address>"), "Address>");
    assert_eq!(get_type_prefix("nymp2p::net_addr::Address"), "address:");
    assert_eq!(get_type_prefix("core::option::Option<u64>"), "option<u64>:");
    assert_eq!(type_prefix("x"), "x:");
}

#[test]
fn stored_keys() {
    assert_eq!(key_bytes("address:", &[1, 2]), vec![8, b'a', b'd', b'd', b'r', b'e', b's', b's', b':', 1, 2]);
    assert!(starts_with(&[1, 2, 3], &[1, 2]));
    assert!(!starts_with(&[1], &[1, 2]));
    assert!(!starts_with(&[1, 3], &[1, 2]));
}

#[test]
fn pairs_from_inputs() {
    let pairs = (7u32, 9u64).into_pairs("u64:".to_string());
    assert_eq!(pairs.len(), 1);
    assert_eq!(pairs[0].0.prefix, "u64:");
    assert_eq!(pairs[0].0.key, 7);
    assert_eq!(pairs[0].1, 9);
    let items = [(1u8, 'a'), (2u8, 'b')];
    let pairs = (&items[..]).into_pairs("char:".to_string());
    assert_eq!(pairs.len(), 2);
    assert_eq!(pairs[1].0.key, 2);
    assert_eq!(pairs[1].1, 'b');
}

#[test]
fn debug_form_of_keys() {
    assert_eq!(debug_bytes_text(&[]), "[]");
    assert_eq!(debug_bytes_text(&[0, 7, 42, 255]), format!("{:?}", vec![0u8, 7, 42, 255]));
}

#[test]
fn open_missing_directory_fails() {
    match DBWrapper::new("/nonexistent/nymp2p/db", "things", false, 1 << 20) {
        Err(e) => {
            match &e {
                DBError::Lmdb { database, key, .. } => {
                    assert_eq!(database.as_deref(), Some("things"));
                    assert!(key.is_none());
                }
                _ => panic!("expected an LMDB error"),
            }
            assert!(e.describe().starts_with("LMDB error: "));
            assert!(e.describe().ends_with(" in database 'things'"));
        }
        Ok(_) => panic!("opened a missing directory"),
    }
    assert!(AddressDB::new("/nonexistent/nymp2p/db", true, 1 << 20).is_err());
}

#[test]
fn error_messages() {
    let e = DBError::io(std::io::Error::new(std::io::ErrorKind::Other, "boom"), Some("db"), Some(&[1, 2]));
    assert_eq!(e.describe(), "I/O error: boom in database 'db' for key [1, 2]");
    let e: DBError = std::io::Error::new(std::io::ErrorKind::Other, "x").into();
    assert_eq!(e.describe(), "I/O error: x");
}

#[test]
fn manual_and_direct_writes() {
    // One environment per process: both databases live in it.
    let mut db = DBWrapper::new("/tmp", "nymp2p_manual_test", true, 1 << 24).expect("open");
    let stamp = std::time::SystemTime::now()
        .duration_since(std::time::UNIX_EPOCH)
        .expect("clock")
        .as_nanos()
        .to_le_bytes()
        .to_vec();
    let key = TypedKey { prefix: "u32:".to_string(), key: stamp.clone() };
    db.put(vec![(key.clone(), vec![10u8, 20])]).expect("put");
    // Manual mode: nothing is written before commit.
    assert_eq!(db.read("u32:", &stamp).expect("read"), None);
    db.commit().expect("commit");
    assert_eq!(db.read("u32:", &stamp).expect("read"), Some(vec![10, 20]));
    let all = db.iter("u32:").expect("iter");
    assert!(all.iter().any(|(k, v)| k == &key_bytes("u32:", &stamp) && v == &vec![10u8, 20]));
    assert!(db.iter("other:").expect("iter").is_empty());
    // Committing with nothing pending succeeds.
    db.commit().expect("commit");
}

#[test]
fn lookup_outcome_maps_each_case() {
    assert_eq!(lookup_outcome(Lookup::Found(vec![7, 8]), &[1, 2]).unwrap(), Some(vec![7, 8]));
    assert_eq!(lookup_outcome(Lookup::NotFound, &[1, 2]).unwrap(), None);
    match lookup_outcome(Lookup::Failed(lmdb::Error::Corrupted), &[1, 2]) {
        Err(DBError::Lmdb { error, database, key }) => {
            assert_eq!(error, lmdb::Error::Corrupted);
            assert_eq!(database, Some("db".to_string()));
            assert_eq!(key, Some(vec![1, 2]));
        }
        other => panic!("unexpected {:?}", other),
    }
}

#[test]
fn keep_prefixed_keeps_order() {
    let items = vec![
        (vec![3, b'a', b'b', b'c', 1], vec![10]),
        (vec![3, b'x', b'y', b'z', 1], vec![11]),
        (vec![3, b'a', b'b'], vec![12]),
        (vec![3, b'a', b'b', b'c'], vec![13]),
    ];
    let kept = keep_prefixed(items, &[3, b'a', b'b', b'c']);
    assert_eq!(
        kept,
        vec![(vec![3, b'a', b'b', b'c', 1], vec![10]), (vec![3, b'a', b'b', b'c'], vec![13])]
    );
}

#[test]
fn message_with_given_text() {
    let e = DBError::lmdb(lmdb::Error::Corrupted, Some("db"), Some(&[7]));
    assert_eq!(e.message_with("bad"), "LMDB error: bad in database 'db' for key [7]");
    let e = DBError::lmdb(lmdb::Error::Corrupted, None, None);
    assert_eq!(e.message_with(""), "LMDB error: ");
}
