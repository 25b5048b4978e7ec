use walkie_talkie_engine::packet::{
    deframe, unwrap_packet, wrap_packet, PacketError, PACKET_HEADER_SIZE,
};

#[test]
fn wrap_writes_little_endian_header_then_payload() {
    let packet = wrap_packet(0x0102_0304, 0x0506, &[9, 8, 7]);
    assert_eq!(packet, vec![0x04, 0x03, 0x02, 0x01, 0x06, 0x05, 9, 8, 7]);
}

#[test]
fn wrap_of_empty_payload_is_header_only() {
    let packet = wrap_packet(1, 2, &[]);
    assert_eq!(packet, vec![1, 0, 0, 0, 2, 0]);
    assert_eq!(packet.len(), PACKET_HEADER_SIZE);
}

#[test]
fn wrap_extreme_header_values() {
    let packet = wrap_packet(u32::MAX, u16::MAX, &[0xAB]);
    assert_eq!(packet, vec![0xFF, 0xFF, 0xFF, 0xFF, 0xFF, 0xFF, 0xAB]);
    let packet = wrap_packet(0, 0, &[0xAB]);
    assert_eq!(packet, vec![0, 0, 0, 0, 0, 0, 0xAB]);
}

#[test]
fn unwrap_reads_little_endian_header() {
    let bytes = [0x78, 0x56, 0x34, 0x12, 0xCD, 0xAB, 1, 2, 3, 4];
    let (origin_id, seq, payload) = unwrap_packet(&bytes).unwrap();
    assert_eq!(origin_id, 0x1234_5678);
    assert_eq!(seq, 0xABCD);
    assert_eq!(payload, &[1, 2, 3, 4]);
}

#[test]
fn unwrap_of_wrap_gives_back_the_parts() {
    let cases: Vec<(u32, u16, Vec<u8>)> = vec![
        (0, 0, vec![]),
        (1, 1, vec![0]),
        (0xDEAD_BEEF, 65535, vec![1, 2, 3, 4, 5]),
        (u32::MAX, 32768, vec![0xFF; 512]),
        (256, 256, vec![0; 6]),
    ];
    for (origin_id, seq, payload) in cases {
        let packet = wrap_packet(origin_id, seq, &payload);
        assert_eq!(packet.len(), PACKET_HEADER_SIZE + payload.len());
        let (got_id, got_seq, got_payload) = unwrap_packet(&packet).unwrap();
        assert_eq!(got_id, origin_id);
        assert_eq!(got_seq, seq);
        assert_eq!(got_payload, payload.as_slice());
    }
}

#[test]
fn unwrap_rejects_everything_shorter_than_a_header() {
    let bytes = [1u8, 2, 3, 4, 5];
    for len in 0..PACKET_HEADER_SIZE {
        assert_eq!(unwrap_packet(&bytes[..len]), Err(PacketError::MalformedHeader));
    }
}

#[test]
fn unwrap_accepts_a_bare_header() {
    let (origin_id, seq, payload) = unwrap_packet(&[7, 0, 0, 0, 9, 0]).unwrap();
    assert_eq!(origin_id, 7);
    assert_eq!(seq, 9);
    assert!(payload.is_empty());
}

#[test]
fn unwrap_payload_is_a_view_of_the_input() {
    let bytes = vec![0u8, 0, 0, 0, 0, 0, 42, 43];
    let (_, _, payload) = unwrap_packet(&bytes).unwrap();
    assert_eq!(payload.as_ptr(), bytes[PACKET_HEADER_SIZE..].as_ptr());
}

#[test]
fn deframe_copies_the_parts_of_a_packet() {
    let packet = wrap_packet(0xCAFE_F00D, 513, &[5, 6, 7]);
    assert_eq!(deframe(&packet), Some((0xCAFE_F00D, 513, vec![5, 6, 7])));
}

#[test]
fn deframe_drops_short_and_header_only_packets() {
    let bytes = [1u8, 2, 3, 4, 5, 6];
    for len in 0..=PACKET_HEADER_SIZE {
        assert_eq!(deframe(&bytes[..len]), None);
    }
    assert_eq!(deframe(&[1, 2, 3, 4, 5, 6, 7]), Some((0x0403_0201, 0x0605, vec![7])));
}
