use niimprint_rs::{take_packets, NiimbotPacket, PacketError};

#[test]
fn packet_round_trip() {
    let packet = NiimbotPacket::new(0x40, vec![0x01, 0x02, 0x03]);
    let bytes = packet.to_bytes();
    let decoded = NiimbotPacket::from_bytes(&bytes).unwrap();
    assert_eq!(decoded, packet);
}

#[test]
fn to_bytes_writes_header_length_checksum_and_footer() {
    let packet = NiimbotPacket::new(0x40, vec![0x01, 0x02, 0x03]);
    assert_eq!(
        packet.to_bytes(),
        vec![0x55, 0x55, 0x40, 0x03, 0x01, 0x02, 0x03, 0x43, 0xAA, 0xAA]
    );
}

#[test]
fn empty_payload_frame_is_seven_bytes() {
    let packet = NiimbotPacket::new(0xdc, Vec::new());
    let bytes = packet.to_bytes();
    assert_eq!(bytes, vec![0x55, 0x55, 0xdc, 0x00, 0xdc, 0xAA, 0xAA]);
    assert_eq!(NiimbotPacket::from_bytes(&bytes).unwrap(), packet);
}

#[test]
fn largest_payload_round_trips() {
    let data: Vec<u8> = (0..255u32).map(|i| (i * 7) as u8).collect();
    let packet = NiimbotPacket::new(0x85, data.clone());
    let bytes = packet.to_bytes();
    assert_eq!(bytes.len(), 255 + 7);
    let decoded = NiimbotPacket::from_bytes(&bytes).unwrap();
    assert_eq!(decoded.packet_type(), 0x85);
    assert_eq!(decoded.data(), &data[..]);
    assert_eq!(decoded.into_data(), data);
}

#[test]
fn parsed_frame_serializes_to_the_same_bytes() {
    let bytes = vec![0x55, 0x55, 0x1b, 0x02, 0x10, 0x20, 0x1b ^ 0x02 ^ 0x10 ^ 0x20, 0xAA, 0xAA];
    let packet = NiimbotPacket::from_bytes(&bytes).unwrap();
    assert_eq!(packet.to_bytes(), bytes);
}

#[test]
fn too_short_input_is_rejected() {
    assert_eq!(
        NiimbotPacket::from_bytes(&[0x55, 0x55, 0x01, 0x00, 0x01, 0xAA]),
        Err(PacketError::TooShort(6))
    );
}

#[test]
fn bad_header_is_rejected() {
    assert_eq!(
        NiimbotPacket::from_bytes(&[0x55, 0x54, 0x01, 0x00, 0x01, 0xAA, 0xAA]),
        Err(PacketError::InvalidHeader)
    );
}

#[test]
fn bad_footer_is_rejected() {
    assert_eq!(
        NiimbotPacket::from_bytes(&[0x55, 0x55, 0x01, 0x00, 0x01, 0xAA, 0xAB]),
        Err(PacketError::InvalidFooter)
    );
}

#[test]
fn wrong_declared_length_is_rejected() {
    assert_eq!(
        NiimbotPacket::from_bytes(&[0x55, 0x55, 0x01, 0x02, 0x09, 0x01, 0xAA, 0xAA]),
        Err(PacketError::InvalidLength { declared: 2, actual: 8 })
    );
}

#[test]
fn wrong_checksum_is_rejected() {
    assert_eq!(
        NiimbotPacket::from_bytes(&[0x55, 0x55, 0x01, 0x01, 0x05, 0x00, 0xAA, 0xAA]),
        Err(PacketError::InvalidChecksum { expected: 0x05, actual: 0x00 })
    );
}

#[test]
fn take_packets_drains_complete_frames_and_keeps_the_rest() {
    let first = NiimbotPacket::new(0x02, vec![1]);
    let second = NiimbotPacket::new(0x14, vec![1, 0]);
    let mut buffer = first.to_bytes();
    buffer.extend(second.to_bytes());
    let partial = NiimbotPacket::new(0x31, vec![1]).to_bytes();
    buffer.extend(&partial[..5]);
    let packets = take_packets(&mut buffer).unwrap();
    assert_eq!(packets, vec![first, second]);
    assert_eq!(buffer, partial[..5].to_vec());
}

#[test]
fn stream_split_across_reads_yields_every_packet_once() {
    let packets = vec![
        NiimbotPacket::new(0x02, vec![1]),
        NiimbotPacket::new(0xb3, vec![0, 3, 100, 100]),
        NiimbotPacket::new(0xf4, vec![]),
    ];
    let stream: Vec<u8> = packets.iter().flat_map(|p| p.to_bytes()).collect();
    for cut in 0..=stream.len() {
        let mut buffer = stream[..cut].to_vec();
        let mut received = take_packets(&mut buffer).unwrap();
        buffer.extend_from_slice(&stream[cut..]);
        received.extend(take_packets(&mut buffer).unwrap());
        assert_eq!(received, packets, "cut at {cut}");
        assert!(buffer.is_empty());
    }
}

#[test]
fn invalid_frame_is_dropped_and_reported() {
    let mut buffer = vec![0x55, 0x55, 0x01, 0x00, 0x07, 0xAA, 0xAA, 0x55];
    assert_eq!(
        take_packets(&mut buffer),
        Err(PacketError::InvalidChecksum { expected: 0x01, actual: 0x07 })
    );
    assert_eq!(buffer, vec![0x55]);
}

#[test]
fn packet_error_messages() {
    assert_eq!(PacketError::TooShort(3).message(), "packet too short: 3 bytes");
    assert_eq!(PacketError::InvalidHeader.message(), "invalid packet header");
    assert_eq!(PacketError::InvalidFooter.message(), "invalid packet footer");
    assert_eq!(
        PacketError::InvalidLength { declared: 12, actual: 130 }.message(),
        "invalid packet length: declared 12, actual 130"
    );
    assert_eq!(
        PacketError::InvalidChecksum { expected: 0x0a, actual: 0xf0 }.message(),
        "invalid packet checksum: expected 0x0a, got 0xf0"
    );
}
