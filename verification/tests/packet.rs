use bytes::Bytes;
use utp::error::PacketParseError;
use utp::packet::{Extension, ExtensionType, Packet, PacketType};

fn new_packet(extensions: Vec<Extension>, data: Bytes) -> Packet {
    Packet::new(
        PacketType::State,
        1,
        12345,
        246810,
        40,
        4096,
        0,
        0,
        extensions,
        data,
    )
}

#[test]
fn into_bytes_test() {
    let packet = new_packet(vec![], Bytes::new());
    assert_eq!(
        packet.to_bytes().to_vec(),
        vec![0x02 << 4 | 0x01, 0x00, 0x30, 0x39,
             0x00, 0x03, 0xc4, 0x1a,
             0x00, 0x00, 0x00, 0x28,
             0x00, 0x00, 0x10, 0x00,
             0x00, 0x00, 0x00, 0x00]
    );
}

#[test]
fn into_bytes_with_extension_test() {
    let packet = new_packet(
        vec![Extension::new(
            ExtensionType::SelectiveAck,
            Bytes::from_static(&[0x00, 0x01, 0x00, 0x01]),
        )],
        Bytes::new(),
    );
    assert_eq!(
        packet.to_bytes().to_vec(),
        vec![0x02 << 4 | 0x01, 0x01, 0x30, 0x39,
             0x00, 0x03, 0xc4, 0x1a,
             0x00, 0x00, 0x00, 0x28,
             0x00, 0x00, 0x10, 0x00,
             0x00, 0x00, 0x00, 0x00,
             // selective ack extension with bitfield
             0x00, 0x04, 0x00, 0x01, 0x00, 0x01]
    );
}

#[test]
fn into_bytes_with_data_test() {
    let packet = new_packet(vec![], Bytes::from_static(&[0x01, 0x02, 0x03, 0x04, 0x05]));
    assert_eq!(
        packet.to_bytes().to_vec(),
        vec![0x02 << 4 | 0x01, 0x00, 0x30, 0x39,
             0x00, 0x03, 0xc4, 0x1a,
             0x00, 0x00, 0x00, 0x28,
             0x00, 0x00, 0x10, 0x00,
             0x00, 0x00, 0x00, 0x00,
             // data
             0x01, 0x02, 0x03, 0x04, 0x05]
    );
}

#[test]
fn into_bytes_with_extension_and_data_test() {
    let packet = new_packet(
        vec![Extension::new(
            ExtensionType::SelectiveAck,
            Bytes::from_static(&[0x00, 0x01, 0x00, 0x01]),
        )],
        Bytes::from_static(&[0x01, 0x02, 0x03, 0x04, 0x05]),
    );
    assert_eq!(
        packet.to_bytes().to_vec(),
        vec![0x02 << 4 | 0x01, 0x01, 0x30, 0x39,
             0x00, 0x03, 0xc4, 0x1a,
             0x00, 0x00, 0x00, 0x28,
             0x00, 0x00, 0x10, 0x00,
             0x00, 0x00, 0x00, 0x00,
             // selective ack extension with bitfield
             0x00, 0x04, 0x00, 0x01, 0x00, 0x01,
             // data
             0x01, 0x02, 0x03, 0x04, 0x05]
    );
}

#[test]
fn multiple_extensions_test() {
    let packet = new_packet(
        vec![
            Extension::new(
                ExtensionType::SelectiveAck,
                Bytes::from_static(&[0x00, 0x01, 0x00, 0x01]),
            ),
            Extension::new(
                ExtensionType::Bitfield,
                Bytes::from_static(&[0x01, 0x00, 0x00, 0x01]),
            ),
            Extension::new(
                ExtensionType::CloseReason,
                Bytes::from_static(&[0x00, 0x01, 0x01, 0x00]),
            ),
        ],
        Bytes::new(),
    );
    assert_eq!(
        packet.to_bytes().to_vec(),
        vec![0x02 << 4 | 0x01, 0x01, 0x30, 0x39,
             0x00, 0x03, 0xc4, 0x1a,
             0x00, 0x00, 0x00, 0x28,
             0x00, 0x00, 0x10, 0x00,
             0x00, 0x00, 0x00, 0x00,
             // 3 extension segments
             0x02, 0x04, 0x00, 0x01, 0x00, 0x01,
             0x03, 0x04, 0x01, 0x00, 0x00, 0x01,
             0x00, 0x04, 0x00, 0x01, 0x01, 0x00]
    );
}

#[test]
fn from_bytes_test() {
    assert_eq!(
        Packet::try_from(Bytes::from_static(
            &[0x02 << 4 | 0x01, 0x00, 0x30, 0x39,
              0x00, 0x03, 0xc4, 0x1a,
              0x00, 0x00, 0x00, 0x28,
              0x00, 0x00, 0x10, 0x00,
              0x00, 0x00, 0x00, 0x00])).unwrap(),
        new_packet(vec![], Bytes::new())
    );
}

#[test]
fn from_malformed_bytes_test() {
    assert!(
        Packet::try_from(Bytes::from_static(
            // invalid length
            &[0x02 << 4 | 0x01, 0x00, 0x30, 0x39,
              0x00, 0x00, 0x10, 0x00,
              0x00, 0x00, 0x00, 0x00])).is_err()
    );
    assert!(
        Packet::try_from(Bytes::from_static(
            // invalid type
            &[0xff << 4 | 0x01, 0x00, 0x30, 0x39,
              0x00, 0x03, 0xc4, 0x1a,
              0x00, 0x00, 0x00, 0x28,
              0x00, 0x00, 0x10, 0x00,
              0x00, 0x00, 0x00, 0x00])).is_err()
    );
    assert!(
        Packet::try_from(Bytes::from_static(
            // invalid version
            &[0x02 << 4 | 0xff, 0x00, 0x30, 0x39,
              0x00, 0x03, 0xc4, 0x1a,
              0x00, 0x00, 0x00, 0x28,
              0x00, 0x00, 0x10, 0x00,
              0x00, 0x00, 0x00, 0x00])).is_err()
    );
    assert!(
        Packet::try_from(Bytes::from_static(
            // give extension type, but no extension
            &[0x02 << 4 | 0x01, 0x01, 0x30, 0x39,
              0x00, 0x03, 0xc4, 0x1a,
              0x00, 0x00, 0x00, 0x28,
              0x00, 0x00, 0x10, 0x00,
              0x00, 0x00, 0x00, 0x00])).is_err()
    );
}

#[test]
fn from_bytes_with_extension_test() {
    assert_eq!(
        Packet::try_from(Bytes::from_static(
            &[0x02 << 4 | 0x01, 0x01, 0x30, 0x39,
              0x00, 0x03, 0xc4, 0x1a,
              0x00, 0x00, 0x00, 0x28,
              0x00, 0x00, 0x10, 0x00,
              0x00, 0x00, 0x00, 0x00,
              // selective ack extension with bitfield
              0x00, 0x04, 0x00, 0x01, 0x00, 0x01])).unwrap(),
        new_packet(
            vec![Extension::new(
                ExtensionType::SelectiveAck,
                Bytes::from_static(&[0x00, 0x01, 0x00, 0x01]),
            )],
            Bytes::new(),
        )
    );
}

#[test]
fn from_bytes_with_unknown_extension_test() {
    assert_eq!(
        Packet::try_from(Bytes::from_static(
            &[0x02 << 4 | 0x01, 0xff, 0x30, 0x39,
              0x00, 0x03, 0xc4, 0x1a,
              0x00, 0x00, 0x00, 0x28,
              0x00, 0x00, 0x10, 0x00,
              0x00, 0x00, 0x00, 0x00,
              // made-up extension with length 3
              0x00, 0x03, 0x00, 0x01, 0x00])).unwrap(),
        new_packet(
            vec![Extension::new(
                ExtensionType::Unknown(0xff),
                Bytes::from_static(&[0x00, 0x01, 0x00]),
            )],
            Bytes::new(),
        )
    );
}

#[test]
fn from_non_conforming_bytes_with_extension_test() {
    // This is ok because the length % 4 == 0 check is not enforced in practice
    assert!(
        Packet::try_from(Bytes::from_static(
            // a selective ack extension that the protocol does not have
            &[0x02 << 4 | 0x01, 0x01, 0x30, 0x39,
              0x00, 0x03, 0xc4, 0x1a,
              0x00, 0x00, 0x00, 0x28,
              0x00, 0x00, 0x10, 0x00,
              0x00, 0x00, 0x00, 0x00,
              // length is 1 rather than minimum of 4
              0x00, 0x01, 0xff])).is_ok()
    );
}

#[test]
fn from_malformed_bytes_with_extension_test() {
    assert!(
        Packet::try_from(Bytes::from_static(
            // invalid extension length
            &[0x02 << 4 | 0x01, 0xff, 0x30, 0x39,
              0x00, 0x03, 0xc4, 0x1a,
              0x00, 0x00, 0x00, 0x28,
              0x00, 0x00, 0x10, 0x00,
              0x00, 0x00, 0x00, 0x00,
              0x00, 0x02, 0xab])).is_err()
    );
    assert!(
        Packet::try_from(Bytes::from_static(
            // missing an extension
            &[0x02 << 4 | 0x01, 0xff, 0x30, 0x39,
              0x00, 0x03, 0xc4, 0x1a,
              0x00, 0x00, 0x00, 0x28,
              0x00, 0x00, 0x10, 0x00,
              0x00, 0x00, 0x00, 0x00,
              0x02, 0x01, 0x00])).is_err()
    );
}

#[test]
fn from_bytes_with_data_test() {
    assert_eq!(
        Packet::try_from(Bytes::from_static(
            &[0x02 << 4 | 0x01, 0x00, 0x30, 0x39,
              0x00, 0x03, 0xc4, 0x1a,
              0x00, 0x00, 0x00, 0x28,
              0x00, 0x00, 0x10, 0x00,
              0x00, 0x00, 0x00, 0x00,
              // data
              0x01, 0x02, 0x03, 0x04, 0x05])).unwrap(),
        new_packet(
            vec![],
            Bytes::from_static(&[0x01, 0x02, 0x03, 0x04, 0x05]),
        )
    );
}

#[test]
fn from_bytes_with_extension_and_data_test() {
    assert_eq!(
        Packet::try_from(Bytes::from_static(
            &[0x02 << 4 | 0x01, 0x03, 0x30, 0x39,
              0x00, 0x03, 0xc4, 0x1a,
              0x00, 0x00, 0x00, 0x28,
              0x00, 0x00, 0x10, 0x00,
              0x00, 0x00, 0x00, 0x00,
              // 'close reason' extension with random data
              0x00, 0x04, 0x00, 0x01, 0x00, 0x01,
              // data
              0x01, 0x02, 0x03, 0x04, 0x05])).unwrap(),
        new_packet(
            vec![Extension::new(
                ExtensionType::CloseReason,
                Bytes::from_static(&[0x00, 0x01, 0x00, 0x01]),
            )],
            Bytes::from_static(&[0x01, 0x02, 0x03, 0x04, 0x05]),
        )
    );
}

fn header(first: u8, announced: u8) -> Vec<u8> {
    vec![
        first, announced, 0x30, 0x39, 0x00, 0x03, 0xc4, 0x1a, 0x00, 0x00, 0x00, 0x28, 0x00, 0x00,
        0x10, 0x00, 0x00, 0x07, 0x00, 0x08,
    ]
}

fn parse(bytes: Vec<u8>) -> Result<Packet, PacketParseError> {
    Packet::try_from(Bytes::from(bytes))
}

#[test]
fn too_small_test() {
    assert_eq!(parse(vec![]), Err(PacketParseError::TooSmall));
    assert_eq!(parse(vec![0x21; 19]), Err(PacketParseError::TooSmall));
}

#[test]
fn invalid_packet_type_test() {
    assert_eq!(parse(header(0x51, 0)), Err(PacketParseError::InvalidPacketType(5)));
    assert_eq!(parse(header(0xf1, 0)), Err(PacketParseError::InvalidPacketType(15)));
    // The type is looked at before the version.
    assert_eq!(parse(header(0x52, 0)), Err(PacketParseError::InvalidPacketType(5)));
    assert_eq!(PacketType::try_from(9), Err(PacketParseError::InvalidPacketType(9)));
}

#[test]
fn unsupported_version_test() {
    assert_eq!(parse(header(0x20, 0)), Err(PacketParseError::UnsupportedVersion(0)));
    assert_eq!(parse(header(0x22, 0)), Err(PacketParseError::UnsupportedVersion(2)));
    // The version is looked at before the extensions.
    assert_eq!(parse(header(0x2f, 1)), Err(PacketParseError::UnsupportedVersion(15)));
}

#[test]
fn missing_extension_test() {
    assert_eq!(parse(header(0x21, 1)), Err(PacketParseError::MissingExtension(0)));
    let mut bytes = header(0x21, 1);
    bytes.push(0);
    assert_eq!(parse(bytes), Err(PacketParseError::MissingExtension(0)));
    let mut bytes = header(0x21, 1);
    bytes.extend([0x02, 0x01, 0xaa]);
    assert_eq!(parse(bytes), Err(PacketParseError::MissingExtension(1)));
}

#[test]
fn incomplete_extension_test() {
    let mut bytes = header(0x21, 1);
    bytes.extend([0x00, 0x02, 0xab]);
    assert_eq!(
        parse(bytes),
        Err(PacketParseError::IncompleteExtension { index: 0, length: 2, remaining: 1 })
    );
    let mut bytes = header(0x21, 1);
    bytes.extend([0x03, 0x01, 0xab, 0x00, 0xff]);
    assert_eq!(
        parse(bytes),
        Err(PacketParseError::IncompleteExtension { index: 1, length: 255, remaining: 0 })
    );
}

#[test]
fn every_packet_type_test() {
    let types = [
        (0x01, PacketType::Data),
        (0x11, PacketType::Fin),
        (0x21, PacketType::State),
        (0x31, PacketType::Reset),
        (0x41, PacketType::Syn),
    ];
    for (first, packet_type) in types {
        let packet = parse(header(first, 0)).unwrap();
        assert_eq!(packet.packet_type, packet_type);
        assert_eq!(packet_type.bits(), first >> 4);
        assert_eq!(packet.to_bytes().to_vec(), header(first, 0));
    }
}

#[test]
fn extension_types_test() {
    let types = [
        (0, ExtensionType::NoExtension),
        (1, ExtensionType::SelectiveAck),
        (2, ExtensionType::Bitfield),
        (3, ExtensionType::CloseReason),
        (4, ExtensionType::Unknown(4)),
        (255, ExtensionType::Unknown(255)),
    ];
    for (byte, extension_type) in types {
        assert_eq!(ExtensionType::from(byte), extension_type);
        assert_eq!(u8::from(extension_type), byte);
    }
}

#[test]
fn bytes_round_trip_test() {
    let mut bytes = header(0x01, 2);
    bytes.extend([0x01, 0x00, 0x00, 0x02, 0x0a, 0x0b, 0x64, 0x65]);
    let packet = parse(bytes.clone()).unwrap();
    assert_eq!(packet.connection_id, 0x3039);
    assert_eq!(packet.timestamp_micros, 246810);
    assert_eq!(packet.timestamp_delta_micros, 40);
    assert_eq!(packet.window_size, 4096);
    assert_eq!(packet.seq_number, 7);
    assert_eq!(packet.ack_number, 8);
    assert_eq!(packet.extensions.len(), 2);
    assert_eq!(packet.extensions[0].extension_type, ExtensionType::Bitfield);
    assert_eq!(packet.extensions[0].data.to_vec(), vec![]);
    assert_eq!(packet.extensions[1].extension_type, ExtensionType::SelectiveAck);
    assert_eq!(packet.extensions[1].data.to_vec(), vec![0x0a, 0x0b]);
    assert_eq!(packet.data.to_vec(), vec![0x64, 0x65]);
    assert_eq!(packet.to_bytes().to_vec(), bytes);
}

#[test]
fn packet_round_trip_test() {
    let packet = Packet::new(
        PacketType::Data,
        1,
        0xfedc,
        u32::MAX,
        0x0102_0304,
        0x8000_0001,
        0xffff,
        0x0100,
        vec![
            Extension::new(ExtensionType::Unknown(9), Bytes::from(vec![7; 255])),
            Extension::new(ExtensionType::CloseReason, Bytes::new()),
        ],
        Bytes::from_static(&[0, 1, 2]),
    );
    assert!(packet.fits());
    let again = Packet::try_from(packet.to_bytes()).unwrap();
    assert_eq!(again, packet);
    assert_eq!(again, packet.clone());
}

#[test]
fn long_extension_test() {
    // The length byte holds the length modulo 256, so that the rest is taken for data.
    let packet = new_packet(
        vec![Extension::new(ExtensionType::SelectiveAck, Bytes::from(vec![5; 258]))],
        Bytes::new(),
    );
    let bytes = packet.to_bytes().to_vec();
    assert_eq!(bytes.len(), 20 + 2 + 258);
    assert_eq!(bytes[21], 2);
    let again = parse(bytes).unwrap();
    assert_eq!(again.extensions[0].data.to_vec(), vec![5; 2]);
    assert_eq!(again.data.len(), 256);
}
