use utp::packet::{decode, encode, DecodeError, Packet, PacketType};

fn sample(ty: PacketType, selective_ack: Option<Vec<u8>>, payload: Vec<u8>) -> Packet {
    Packet {
        ty,
        connection_id: 0xBEEF,
        timestamp: 0x0102_0304,
        timestamp_difference: 0x0A0B_0C0D,
        window_size: 0x0010_0000,
        seq_nr: 0x1234,
        ack_nr: 0xFFFE,
        selective_ack,
        payload,
    }
}

#[test]
fn encode_writes_the_header_big_endian() {
    let bytes = encode(&sample(PacketType::Data, None, vec![9, 8, 7]));
    assert_eq!(
        bytes,
        vec![
            0x01, 0x00, 0xBE, 0xEF, 0x01, 0x02, 0x03, 0x04, 0x0A, 0x0B, 0x0C, 0x0D, 0x00, 0x10,
            0x00, 0x00, 0x12, 0x34, 0xFF, 0xFE, 9, 8, 7
        ]
    );
}

#[test]
fn encode_writes_type_and_version_nibbles() {
    assert_eq!(encode(&sample(PacketType::Data, None, vec![]))[0], 0x01);
    assert_eq!(encode(&sample(PacketType::Fin, None, vec![]))[0], 0x11);
    assert_eq!(encode(&sample(PacketType::State, None, vec![]))[0], 0x21);
    assert_eq!(encode(&sample(PacketType::Reset, None, vec![]))[0], 0x31);
    assert_eq!(encode(&sample(PacketType::Syn, None, vec![]))[0], 0x41);
}

#[test]
fn encode_writes_the_selective_ack_as_an_extension() {
    let bytes = encode(&sample(PacketType::State, Some(vec![0x05, 0, 0, 0x80]), vec![]));
    assert_eq!(bytes.len(), 26);
    assert_eq!(bytes[1], 1);
    assert_eq!(&bytes[20..], &[0, 4, 0x05, 0, 0, 0x80]);
}

#[test]
fn decode_reads_what_encode_wrote() {
    let types = [
        PacketType::Data,
        PacketType::Fin,
        PacketType::State,
        PacketType::Reset,
        PacketType::Syn,
    ];
    let masks = [None, Some(vec![]), Some(vec![1, 2, 3, 4]), Some(vec![0xFF; 255])];
    let payloads = [vec![], vec![0], vec![0, 1, 0, 4, 1, 2, 3, 4], vec![7; 1_400]];
    for ty in types.iter() {
        for mask in masks.iter() {
            for payload in payloads.iter() {
                let packet = sample(*ty, mask.clone(), payload.clone());
                assert_eq!(decode(&encode(&packet)), Ok(packet));
            }
        }
    }
}

#[test]
fn decode_round_trips_extreme_field_values() {
    for v in [0u32, 1, 0xFF, 0x100, 0xFFFF, 0x1_0000, 0x00FF_FF00, u32::MAX] {
        let packet = Packet {
            ty: PacketType::Data,
            connection_id: v as u16,
            timestamp: v,
            timestamp_difference: !v,
            window_size: v.rotate_left(8),
            seq_nr: (v >> 8) as u16,
            ack_nr: !(v as u16),
            selective_ack: None,
            payload: vec![],
        };
        assert_eq!(decode(&encode(&packet)), Ok(packet));
    }
}

#[test]
fn decode_rejects_a_truncated_header() {
    assert_eq!(decode(&[]), Err(DecodeError::TruncatedHeader));
    assert_eq!(decode(&[0x01; 19]), Err(DecodeError::TruncatedHeader));
    let bytes = encode(&sample(PacketType::Data, None, vec![]));
    assert_eq!(decode(&bytes[..19]), Err(DecodeError::TruncatedHeader));
    assert!(decode(&bytes[..20]).is_ok());
}

#[test]
fn decode_rejects_an_unknown_type() {
    let mut bytes = encode(&sample(PacketType::Data, None, vec![]));
    for code in 5u8..16 {
        bytes[0] = code << 4 | 1;
        assert_eq!(decode(&bytes), Err(DecodeError::UnknownType));
    }
    bytes[0] = 4 << 4 | 1;
    assert_eq!(decode(&bytes).map(|p| p.ty), Ok(PacketType::Syn));
}

#[test]
fn decode_rejects_an_extension_that_overruns() {
    let mut bytes = encode(&sample(PacketType::State, Some(vec![1, 2, 3, 4]), vec![]));
    // the length byte claims one byte more than there is
    bytes[21] = 5;
    assert_eq!(decode(&bytes), Err(DecodeError::ExtensionOverrun));
    // an extension is announced and nothing follows
    let mut header = encode(&sample(PacketType::State, None, vec![]));
    header[1] = 1;
    assert_eq!(decode(&header), Err(DecodeError::ExtensionOverrun));
    // only the first byte of the extension header is there
    header.push(0);
    assert_eq!(decode(&header), Err(DecodeError::ExtensionOverrun));
    header.push(0);
    assert_eq!(decode(&header).map(|p| p.selective_ack), Ok(Some(vec![])));
}

#[test]
fn decode_skips_extensions_of_other_kinds() {
    let mut bytes = encode(&sample(PacketType::Data, None, vec![]));
    bytes[1] = 7;
    // kind 7, two bytes, followed by a selective ack of one byte, then payload
    bytes.extend_from_slice(&[1, 2, 0xAA, 0xBB, 0, 1, 0x03, 42, 43]);
    let packet = decode(&bytes).unwrap();
    assert_eq!(packet.selective_ack, Some(vec![0x03]));
    assert_eq!(packet.payload, vec![42, 43]);
}

#[test]
fn decode_keeps_the_first_selective_ack() {
    let mut bytes = encode(&sample(PacketType::Data, None, vec![]));
    bytes[1] = 1;
    bytes.extend_from_slice(&[1, 1, 0x11, 0, 1, 0x22, 5]);
    let packet = decode(&bytes).unwrap();
    assert_eq!(packet.selective_ack, Some(vec![0x11]));
    assert_eq!(packet.payload, vec![5]);
}

#[test]
fn packet_type_codes() {
    for (code, ty) in [
        (0u8, PacketType::Data),
        (1, PacketType::Fin),
        (2, PacketType::State),
        (3, PacketType::Reset),
        (4, PacketType::Syn),
    ] {
        assert_eq!(ty.to_code(), code);
        assert_eq!(PacketType::from_code(code), Some(ty));
    }
    assert_eq!(PacketType::from_code(5), None);
    assert_eq!(PacketType::from_code(255), None);
}
