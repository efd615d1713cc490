use asf::data::packets::{
    DataPacket, ErrorCorrectionFlag, FieldType, LengthTypeFlags, MultiplePayloadsFlag, Payload, PayloadData,
    PayloadFlags, PropertyFlags, StreamFlags,
};
use asf::data::DataObject;
use asf::error::{Context, ErrorKind};
use asf::guid::{Guid, DATA_OBJECT};
use asf::span::Span;

fn data_object_bytes(total_data_packets: u64, packets: &[u8]) -> Vec<u8> {
    let mut b = Guid(DATA_OBJECT).as_bytes_ms();
    b.extend_from_slice(&(50 + packets.len() as u64).to_le_bytes());
    b.extend_from_slice(&[0x11; 16]);
    b.extend_from_slice(&total_data_packets.to_le_bytes());
    b.extend_from_slice(&[0x01, 0x01]);
    b.extend_from_slice(packets);
    b
}

fn single_payload_packet(fill: u8) -> Vec<u8> {
    let mut p = vec![0x00, 0x00];
    p.extend_from_slice(&1000u32.to_le_bytes());
    p.extend_from_slice(&40u16.to_le_bytes());
    p.push(0x81);
    p.extend_from_slice(&[fill; 55]);
    p
}

#[test]
fn single_payload_packet_decodes() {
    let packet = single_payload_packet(0xAB);
    assert_eq!(packet.len(), 64);
    let bytes = data_object_bytes(1, &packet);
    let (rest, d) = DataObject::parse(Span::new(&bytes)).expect("data object");
    assert_eq!(rest.len(), 0);
    assert_eq!(d.total_data_packets, 1);
    assert_eq!(d.packets.len(), 1);
    let p = &d.packets[0];
    assert!(p.error_correction_data.is_none());
    assert_eq!(p.payload_parsing_data.send_time, 1000);
    assert_eq!(p.payload_parsing_data.duration, 40);
    assert_eq!(p.payload_parsing_data.packet_length, 0);
    assert_eq!(p.payload_parsing_data.padding_len, 0);
    assert_eq!(p.raw_payload.len(), 56);
    match &p.payload {
        PayloadData::SinglePayload(Payload::NormalPayload {
            stream_flags,
            media_object_number,
            offset_into_media_object,
            replicated_data,
            payload_data,
        }) => {
            assert_eq!(*stream_flags, StreamFlags { stream_number: 1, key_frame: true });
            assert_eq!(*media_object_number, 0);
            assert_eq!(*offset_into_media_object, 0);
            assert_eq!(replicated_data.len(), 0);
            assert_eq!(payload_data.len(), 55);
            assert_eq!(payload_data.fragment(), &[0xAB; 55][..]);
            assert_eq!(payload_data.location_offset(), 50 + 9);
        }
        other => panic!("unexpected payload {:?}", other),
    }
}

fn compressed_payload(stream: u8, fill: u8) -> Vec<u8> {
    let mut p = vec![stream, 0x01, 0x07, 15];
    for k in 0..3u8 {
        p.push(4);
        p.extend_from_slice(&[fill + k; 4]);
    }
    p
}

#[test]
fn multiple_compressed_payloads_decode() {
    let mut packet = vec![0x01, 0x01];
    packet.extend_from_slice(&7u32.to_le_bytes());
    packet.extend_from_slice(&3u16.to_le_bytes());
    packet.push(0x42);
    packet.extend_from_slice(&compressed_payload(2, 0x10));
    packet.extend_from_slice(&compressed_payload(3, 0x20));
    assert_eq!(packet.len(), 47);
    let bytes = data_object_bytes(1, &packet);
    let (rest, d) = DataObject::parse(Span::new(&bytes)).expect("data object");
    assert_eq!(rest.len(), 0);
    let p = &d.packets[0];
    assert_eq!(p.raw_payload.len(), 39);
    match &p.payload {
        PayloadData::MultiplePayloads(ps) => {
            assert_eq!(ps.len(), 2);
            for (i, pl) in ps.iter().enumerate() {
                match pl {
                    Payload::CompressedPayload {
                        stream_flags,
                        presentation_time,
                        presentation_time_delta,
                        sub_payload_data,
                        ..
                    } => {
                        assert_eq!(stream_flags.stream_number as usize, 2 + i);
                        assert!(!stream_flags.key_frame);
                        assert_eq!(*presentation_time, 0);
                        assert_eq!(*presentation_time_delta, 7);
                        assert_eq!(sub_payload_data.len(), 3);
                        for (k, s) in sub_payload_data.iter().enumerate() {
                            let fill = if i == 0 { 0x10 } else { 0x20 } + k as u8;
                            assert_eq!(s.fragment(), &[fill; 4][..]);
                        }
                    }
                    other => panic!("unexpected payload {:?}", other),
                }
            }
        }
        other => panic!("unexpected payload data {:?}", other),
    }
}

#[test]
fn packets_take_the_fixed_length() {
    let mut packets = single_payload_packet(1);
    packets.extend_from_slice(&single_payload_packet(2));
    packets.extend_from_slice(&single_payload_packet(3));
    let bytes = data_object_bytes(3, &packets);
    let (_, d) = DataObject::parse(Span::new(&bytes)).expect("data object");
    assert_eq!(d.packets.len(), 3);
    let mut total = 0;
    for (i, p) in d.packets.iter().enumerate() {
        let header = 8;
        let used = header + p.raw_payload.len() + p.payload_parsing_data.padding_len as usize;
        assert_eq!(used, 64);
        assert_eq!(p.raw_payload.location_offset(), 50 + 64 * i + header);
        total += used;
    }
    assert_eq!(total, bytes.len() - 50);
}

#[test]
fn padding_and_error_correction_are_read() {
    let mut packet = vec![0x82, 0x05, 0x06];
    packet.push(0x08);
    packet.push(0x00);
    packet.push(4);
    packet.extend_from_slice(&9u32.to_le_bytes());
    packet.extend_from_slice(&1u16.to_le_bytes());
    packet.push(0x05);
    packet.extend_from_slice(&[0xEE; 20]);
    packet.extend_from_slice(&[0, 0, 0, 0]);
    let bytes = data_object_bytes(1, &packet);
    let (_, d) = DataObject::parse(Span::new(&bytes)).expect("data object");
    let p = &d.packets[0];
    let ec = p.error_correction_data.expect("error correction block");
    assert_eq!((ec.flags, ec.ec_type, ec.ec_cycle), (0x82, 0x05, 0x06));
    assert_eq!(p.payload_parsing_data.padding_len, 4);
    assert_eq!(p.raw_payload.len(), 21);
}

#[test]
fn data_object_guid_mismatch_is_a_tag_error() {
    let mut bytes = data_object_bytes(1, &single_payload_packet(0));
    bytes[0] ^= 0xFF;
    let e = DataObject::parse(Span::new(&bytes)).expect_err("tag");
    assert_eq!(e.kind, ErrorKind::Tag);
    assert_eq!(e.context, vec![Context::DataObject]);
}

#[test]
fn truncated_packet_is_eof_with_context() {
    let mut packet = vec![0x20, 0x00, 200];
    packet.extend_from_slice(&[0; 61]);
    let bytes = data_object_bytes(1, &packet);
    let e = DataObject::parse(Span::new(&bytes)).expect_err("eof");
    assert_eq!(e.kind, ErrorKind::Eof);
    assert_eq!(e.context, vec![Context::DataPacket, Context::DataObject]);
    assert_eq!(e.offset, 50 + 9);
}

#[test]
fn every_prefix_of_a_data_object_fails_with_eof() {
    let bytes = data_object_bytes(1, &single_payload_packet(5));
    for n in 0..bytes.len() {
        let e = DataObject::parse(Span::new(&bytes[..n])).expect_err("prefix");
        assert_eq!(e.kind, ErrorKind::Eof, "prefix of {} bytes", n);
    }
}

#[test]
fn flag_bytes_decode_msb_first() {
    let l = LengthTypeFlags::parse(0b1_01_10_11_1);
    assert_eq!(l.error_correction_flag, ErrorCorrectionFlag::Present);
    assert_eq!(l.packet_len_type, FieldType::Byte);
    assert_eq!(l.padding_len_type, FieldType::Word);
    assert_eq!(l.sequence_type, FieldType::Dword);
    assert_eq!(l.multiple_payloads_present, MultiplePayloadsFlag::MultiplePayloads);
    let p = PropertyFlags::parse(0b00_01_10_11);
    assert_eq!(p.stream_number_len_type, FieldType::Zero);
    assert_eq!(p.media_object_number_len_type, FieldType::Byte);
    assert_eq!(p.offset_into_media_object_type, FieldType::Word);
    assert_eq!(p.replicated_data_len_type, FieldType::Dword);
    assert_eq!(PayloadFlags::parse(0x85), PayloadFlags { number_of_payloads: 5, payload_len_type: FieldType::Word });
    assert_eq!(StreamFlags::parse(0x7F), StreamFlags { stream_number: 127, key_frame: false });
}

#[test]
fn field_types_read_little_endian() {
    let b = [0x01, 0x02, 0x03, 0x04, 0x05];
    let s = Span::new(&b);
    assert_eq!(FieldType::Zero.field(s).unwrap().1, 0);
    assert_eq!(FieldType::Zero.field(s).unwrap().0.len(), 5);
    assert_eq!(FieldType::Byte.field(s).unwrap().1, 0x01);
    assert_eq!(FieldType::Word.field(s).unwrap().1, 0x0201);
    assert_eq!(FieldType::Dword.field(s).unwrap().1, 0x04030201);
    assert_eq!(FieldType::Dword.field(s.slice_from(2)).unwrap_err().kind, ErrorKind::Eof);
}

#[test]
fn declared_packet_length_sets_the_raw_payload() {
    let mut packet = vec![0x20, 0x00, 10];
    packet.extend_from_slice(&0u32.to_le_bytes());
    packet.extend_from_slice(&0u16.to_le_bytes());
    packet.push(0x01);
    packet.extend_from_slice(&[9; 9]);
    let s = Span::new(&packet);
    let (rest, p) = DataPacket::parser(s, 500).expect("packet");
    assert_eq!(p.payload_parsing_data.packet_length, 10);
    assert_eq!(p.raw_payload.len(), 10);
    assert_eq!(rest.len(), 0);
}

#[test]
fn packets_must_fill_the_data_object() {
    let mut packet = vec![0x20, 0x00, 10];
    packet.extend_from_slice(&0u32.to_le_bytes());
    packet.extend_from_slice(&0u16.to_le_bytes());
    packet.push(0x01);
    packet.extend_from_slice(&[9; 9]);
    packet.extend_from_slice(&[0; 6]);
    let bytes = data_object_bytes(1, &packet);
    let e = DataObject::parse(Span::new(&bytes)).expect_err("packet shorter than the fixed length");
    assert_eq!(e.kind, ErrorKind::Eof);
}

#[test]
fn data_object_without_packets_must_be_empty() {
    let bytes = data_object_bytes(0, &[1, 2, 3]);
    assert_eq!(DataObject::parse(Span::new(&bytes)).unwrap_err().kind, ErrorKind::Eof);
    let bytes = data_object_bytes(0, &[]);
    let (_, d) = DataObject::parse(Span::new(&bytes)).expect("empty data object");
    assert_eq!(d.packets.len(), 0);
}

#[test]
fn truncated_sub_payload_is_eof() {
    let mut packet = vec![0x00, 0x01];
    packet.extend_from_slice(&0u32.to_le_bytes());
    packet.extend_from_slice(&0u16.to_le_bytes());
    packet.extend_from_slice(&[0x02, 0x01, 0x03, 5, 1, 2]);
    let bytes = data_object_bytes(1, &packet);
    let e = DataObject::parse(Span::new(&bytes)).expect_err("sub-payload runs past its region");
    assert_eq!(e.kind, ErrorKind::Eof);
    assert!(e.context.contains(&Context::Payload));
}
