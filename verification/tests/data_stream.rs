use nymp2p::data_stream::{DataStream, WireError};

#[test]
fn stream_reads_and_writes() {
    let mut s = DataStream::new_empty();
    assert!(s.empty());
    s.write(&[1, 2, 3, 4, 5, 6]);
    assert_eq!(s.size(), 6);
    assert_eq!(s.read_u32(), Ok(0x04030201));
    assert_eq!(s.begin_index(), 4);
    assert_eq!(s.end_index(), 6);
    assert_eq!(s.unread_str(), &[5, 6]);
    assert_eq!(s.read_u32(), Err(WireError::UnexpectedEof));
    assert_eq!(s.read_bytes(2), Ok(vec![5, 6]));
    s.compact();
    assert!(s.empty());
}

#[test]
fn stream_erase_and_ignore() {
    let mut s = DataStream::new(vec![0, 1, 2, 3, 4, 5]);
    s.ignore(2);
    s.erase(2, Some(4));
    assert_eq!(s.data, vec![0, 1, 4, 5]);
    assert_eq!(s.cursor, 2);
    s.erase(3, Some(1));
    assert_eq!(s.data, vec![0, 1, 4, 5]);
    s.erase(0, None);
    assert!(s.empty());
    assert_eq!(s.cursor, 0);
}

#[test]
fn compact_size_prefixes() {
    let mut s = DataStream::new_empty();
    s.stream_in_bytes(&[9]);
    assert_eq!(s.data, vec![1, 9]);
    let long = vec![0u8; 300];
    let mut s = DataStream::new_empty();
    s.stream_in_bytes(&long);
    assert_eq!(&s.data[..3], &[0xFD, 0x2C, 0x01]);
    assert_eq!(s.size(), 303);
    let big = vec![0u8; 70000];
    let mut s = DataStream::new_empty();
    s.stream_in_bytes(&big);
    assert_eq!(&s.data[..5], &[0xFE, 0x70, 0x11, 0x01, 0x00]);
}
