use nymp2p::data_stream::DataStream;
use nymp2p::net_msg_header::MessageHeader;
use nymp2p::net_msg_header::MESSAGE_HEADER_CONFIG;

#[test]
fn test_new_valid() {
    // A header made with a command and a size.
    let hdr = MessageHeader::new(Some("VERSION"), Some(100));
    assert_eq!(hdr.message_start, MESSAGE_HEADER_CONFIG::MESSAGE_START);
    assert_eq!(hdr.command, [86, 69, 82, 83, 73, 79, 78, 0, 0, 0, 0, 0]);
    assert_eq!(hdr.message_size, 100);
    assert!(hdr.is_valid());
}

#[test]
fn test_new_no_command() {
    // A header made with no command.
    let hdr = MessageHeader::new(None, None);
    assert_eq!(hdr.command, [0; 12]);
    assert_eq!(hdr.message_size, 0);
    assert!(hdr.is_valid());
}

#[test]
fn test_is_valid_invalid_start() {
    // Wrong magic bytes.
    let mut hdr = MessageHeader::new(Some("VERSION"), Some(0));
    hdr.message_start = [0, 0, 0, 0];
    assert!(!hdr.is_valid());
}

#[test]
fn test_default() {
    let hdr = MessageHeader::default();
    assert_eq!(hdr.message_start, MESSAGE_HEADER_CONFIG::MESSAGE_START);
    assert_eq!(hdr.command, [0; 12]);
    assert_eq!(hdr.message_size, 0);
    assert!(hdr.is_valid());
}

#[test]
fn test_serialization_with_payload() {
    // A header followed by a 4-byte integer payload, read back in turn.
    let version: i32 = 1;
    let hdr = MessageHeader::new(Some("VERSION"), Some(4));

    let mut stream = DataStream::new_empty();
    hdr.stream_in(&mut stream);
    stream.write(&version.to_le_bytes());
    let serialized = stream.data;

    let mut stream_out = DataStream::new_empty();
    stream_out.write(&serialized);
    let deserialized_hdr = MessageHeader::stream_out(&mut stream_out)
        .expect("Header deserialization failed");

    if deserialized_hdr.command() == Ok("VERSION") {
        let deserialized_version = stream_out
            .read_u32()
            .expect("Version deserialization failed") as i32;
        assert_eq!(deserialized_version, version);
    } else {
        panic!("command not read back");
    }
}

#[test]
fn test_serialization_with_cursor() {
    let hdr = MessageHeader::new(Some("VERSION"), Some(100));
    let mut buffer = Vec::new();
    hdr.serialize(&mut buffer, 0, 0).expect("Serialization failed");
    let mut cursor = DataStream::new(buffer);
    let mut deserialized = MessageHeader::default();
    deserialized.unserialize(&mut cursor, 0, 0).expect("Deserialization failed");
    assert_eq!(hdr, deserialized, "Deserialized header does not match original");
}

#[test]
fn test_serialization_with_datastream() {
    let hdr = MessageHeader::new(Some("VERSION"), Some(100));
    let mut stream = DataStream::new_empty();
    hdr.stream_in(&mut stream);
    let serialized = stream.data;

    let mut stream_out = DataStream::new_empty();
    stream_out.write(&serialized);
    let deserialized = MessageHeader::stream_out(&mut stream_out)
        .expect("DataStream deserialization failed");

    assert_eq!(hdr, deserialized, "Deserialized header does not match original");
}

#[test]
fn test_serialization_consistency() {
    let hdr = MessageHeader::new(Some("VERSION"), Some(100));

    let mut buffer = Vec::new();
    hdr.serialize(&mut buffer, 0, 0).expect("Serialization failed");

    let mut stream = DataStream::new_empty();
    hdr.stream_in(&mut stream);

    assert_eq!(buffer, stream.data, "Serialized output differs between Serialize and DataStream");
}

#[test]
fn header_wire_layout() {
    let hdr = MessageHeader::new(Some("PING"), Some(0x0102_0304));
    let b = hdr.to_bytes();
    assert_eq!(
        b,
        vec![
            0xFF, 0xFF, 0xFF, 0xF1, b'P', b'I', b'N', b'G', 0, 0, 0, 0, 0, 0, 0, 0, 0x04, 0x03,
            0x02, 0x01
        ]
    );
    assert_eq!(MessageHeader::from_bytes(&b), hdr);
}

#[test]
fn header_long_command_is_cut() {
    let hdr = MessageHeader::new(Some("ABCDEFGHIJKLMNOP"), None);
    assert_eq!(&hdr.command, b"ABCDEFGHIJKL");
    assert_eq!(hdr.command(), Ok("ABCDEFGHIJKL"));
    assert!(hdr.is_valid());
}

#[test]
fn header_command_name() {
    let hdr = MessageHeader::new(Some("GETADDR"), Some(3));
    assert_eq!(hdr.command(), Ok("GETADDR"));
    assert_eq!(MessageHeader::new(None, None).command(), Ok(""));
}

#[test]
fn header_invalid_commands() {
    // A non-zero byte after a zero byte.
    let mut hdr = MessageHeader::new(Some("PING"), None);
    hdr.command[6] = b'X';
    assert!(!hdr.is_valid());
    // A byte that is not printable.
    let mut hdr = MessageHeader::new(Some("PING"), None);
    hdr.command[1] = 0x07;
    assert!(!hdr.is_valid());
    // Bytes that are not UTF-8.
    let mut hdr = MessageHeader::new(None, None);
    hdr.command[0] = 0xC3;
    assert!(hdr.command().is_err());
    assert!(!hdr.is_valid());
}

#[test]
fn header_serialize_size() {
    let hdr = MessageHeader::default();
    assert_eq!(hdr.get_serialize_size(0, 0), 20);
}

#[test]
fn header_unserialize_short_input() {
    let mut s = DataStream::new(vec![0xFF, 0xFF, 0xFF]);
    let mut hdr = MessageHeader::new(Some("PONG"), Some(7));
    assert!(hdr.unserialize(&mut s, 0, 0).is_err());
    assert_eq!(hdr, MessageHeader::new(Some("PONG"), Some(7)));
    assert_eq!(s.cursor, 0);
}
