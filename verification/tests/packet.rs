use ptwop::protocol::packet::{
    Packet, FLAG_ACK, FLAG_DATA, FLAG_FIN, FLAG_PING, FLAG_SYN, HEADER_LEN, MAGIC,
};

#[test]
fn test_roundtrip() {
    let p = Packet {
        flags: FLAG_DATA | FLAG_ACK,
        connection_id: 0,
        stream_id: 42,
        seq_num: 1,
        ack_num: 0,
        payload: vec![1, 2, 3],
    };
    assert_eq!(Packet::decode(&p.encode()).unwrap(), p);
}

#[test]
fn test_decode_too_short() {
    assert!(Packet::decode(&[0; 30]).is_none());
}

#[test]
fn test_decode_bad_magic() {
    assert!(Packet::decode(&[0xff; 31]).is_none());
}

#[test]
fn test_empty_payload() {
    assert_eq!(
        Packet {
            flags: FLAG_SYN,
            connection_id: 0,
            stream_id: 1,
            seq_num: 0,
            ack_num: 0,
            payload: vec![]
        }
        .encode()
        .len(),
        HEADER_LEN
    );
}

#[test]
fn test_has_flag() {
    let p = Packet {
        flags: FLAG_DATA | FLAG_ACK,
        connection_id: 0,
        stream_id: 0,
        seq_num: 0,
        ack_num: 0,
        payload: vec![],
    };
    assert!(p.has_flag(FLAG_DATA));
    assert!(p.has_flag(FLAG_ACK));
    assert!(!p.has_flag(FLAG_SYN));
}

#[test]
fn test_packet_with_connection_id() {
    let p = Packet {
        flags: FLAG_DATA | FLAG_ACK,
        connection_id: 12345,
        stream_id: 42,
        seq_num: 0x123456789ABCDEF0,
        ack_num: 0xFEDCBA9876543210,
        payload: vec![1, 2, 3],
    };
    assert_eq!(Packet::decode(&p.encode()).unwrap(), p);
}

#[test]
fn test_probe_packet_format() {
    let p = Packet {
        flags: FLAG_PING,
        connection_id: 0,
        stream_id: 0,
        seq_num: 0,
        ack_num: 0,
        payload: b"PTP_PUNCH".to_vec(),
    };
    let encoded = p.encode();
    let decoded = Packet::decode(&encoded).unwrap();
    assert_eq!(p, decoded);
}

#[test]
fn wire_bytes_are_big_endian() {
    let p = Packet {
        flags: FLAG_FIN,
        connection_id: 0x0102030405060708,
        stream_id: 0x090a,
        seq_num: 0x0b0c0d0e0f101112,
        ack_num: 0x131415161718191a,
        payload: vec![0xaa, 0xbb],
    };
    let mut expected = MAGIC.to_vec();
    expected.push(0x08);
    expected.extend_from_slice(&[1, 2, 3, 4, 5, 6, 7, 8]);
    expected.extend_from_slice(&[9, 10]);
    expected.extend_from_slice(&[11, 12, 13, 14, 15, 16, 17, 18]);
    expected.extend_from_slice(&[19, 20, 21, 22, 23, 24, 25, 26]);
    expected.extend_from_slice(&[0xaa, 0xbb]);
    assert_eq!(p.encode(), expected);
}

#[test]
fn encoding_undoes_decoding() {
    let mut data = vec![0x50, 0x54, 0x50, 0x00, 0xff];
    for i in 0..30u8 {
        data.push(i.wrapping_mul(37));
    }
    let p = Packet::decode(&data).unwrap();
    assert_eq!(p.payload.len(), 4);
    assert_eq!(p.encode(), data);
}

#[test]
fn header_alone_is_a_packet() {
    let mut data = vec![0u8; HEADER_LEN];
    data[..4].copy_from_slice(&MAGIC);
    let p = Packet::decode(&data).unwrap();
    assert_eq!(p.payload.len(), 0);
    data[3] = 1;
    assert!(Packet::decode(&data).is_none());
}

#[test]
fn different_packets_have_different_datagrams() {
    let p = Packet {
        flags: FLAG_DATA,
        connection_id: 1,
        stream_id: 2,
        seq_num: 3,
        ack_num: 4,
        payload: vec![],
    };
    let mut q = p.clone();
    q.ack_num = 5;
    assert_ne!(p.encode(), q.encode());
    assert_eq!(p.encode(), p.clone().encode());
}
