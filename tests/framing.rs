use asf::error::{Context, ErrorKind, WriteError};
use asf::guid::{
    Guid, CODEC_LIST_OBJECT, DATA_OBJECT, HEADER_EXTENSION_OBJECT, HEADER_OBJECT, LANGUAGE_LIST_OBJECT,
    MARKER_OBJECT, PADDING_OBJECT, SCRIPT_COMMAND_OBJECT,
};
use asf::header::bitrate_mutual_exclusion::BitrateMutualExclusionData;
use asf::header::content_branding::ContentBrandingData;
use asf::header::digital_signature::DigitalSignatureData;
use asf::header::error_correction::ErrorCorrectionData;
use asf::header::extended_content_description::{ContentDescriptor, ExtendedContentDescriptionData};
use asf::header::extended_content_encryption::ExtendedContentEncryptionData;
use asf::header::stream_bitrate_properties::{BitrateRecord, StreamBitratePropertiesData};
use asf::header::codec_list::{CodecEntry, CodecListData};
use asf::header::compatibility::CompatibilityData;
use asf::header::file_properties::FilePropertiesData;
use asf::header::header_extension::ExtensionHeaderObject;
use asf::header::language_list::LanguageListData;
use asf::header::marker::{Marker, MarkerData};
use asf::header::script_command::{Command, ScriptCommandData};
use asf::header::{HeaderObject, HeaderObjects};
use asf::index::IndexObjects;
use asf::object::object;
use asf::span::Span;
use asf::widestr::WideStr;

fn frame(guid: u128, body: &[u8]) -> Vec<u8> {
    let mut b = Guid(guid).as_bytes_ms();
    b.extend_from_slice(&(24 + body.len() as u64).to_le_bytes());
    b.extend_from_slice(body);
    b
}

fn written(o: &HeaderObject) -> Vec<u8> {
    let mut w = Vec::new();
    o.write(&mut w).expect("write");
    assert_eq!(w.len(), o.size_of());
    w
}

#[test]
fn unknown_object_is_kept_whole() {
    let mut bytes: Vec<u8> = (0u8..16).collect();
    bytes.extend_from_slice(&40u64.to_le_bytes());
    bytes.extend_from_slice(&[0xC3; 16]);
    let (rest, o) = HeaderObject::parse(Span::new(&bytes)).expect("unknown");
    assert_eq!(rest.len(), 0);
    match &o {
        HeaderObject::Unknown(obj) => {
            assert_eq!(obj.guid, Guid(0x03020100_0504_0706_08090a0b0c0d0e0f));
            assert_eq!(obj.data.fragment(), &[0xC3; 16][..]);
            assert_eq!(obj.data.location_offset(), 24);
        }
        other => panic!("unexpected {:?}", other),
    }
    assert_eq!(written(&o), bytes);
}

#[test]
fn guid_wire_form_swaps_the_first_three_fields() {
    let g = Guid(HEADER_OBJECT);
    assert_eq!(
        g.as_bytes_ms(),
        vec![0x30, 0x26, 0xB2, 0x75, 0x8E, 0x66, 0xCF, 0x11, 0xA6, 0xD9, 0x00, 0xAA, 0x00, 0x62, 0xCE, 0x6C]
    );
    for seed in 0u8..=255 {
        let b: Vec<u8> = (0..16u8).map(|i| seed.wrapping_mul(31).wrapping_add(i.wrapping_mul(17))).collect();
        assert_eq!(Guid::from_wire(&b).as_bytes_ms(), b);
    }
}

#[test]
fn unknown_objects_do_not_stop_the_header() {
    let compat = frame(asf::guid::COMPATIBILITY_OBJECT, &[1, 2]);
    let mut objects = frame(0x0123, &[9, 9, 9]);
    objects.extend_from_slice(&frame(PADDING_OBJECT, &[0; 5]));
    objects.extend_from_slice(&frame(0x0456, &compat));
    let mut header = Guid(HEADER_OBJECT).as_bytes_ms();
    header.extend_from_slice(&(30 + objects.len() as u64).to_le_bytes());
    header.extend_from_slice(&[1, 2]);
    header.extend_from_slice(&3u32.to_le_bytes());
    header.extend_from_slice(&objects);
    let (rest, h) = HeaderObjects::parse(Span::new(&header)).expect("header");
    assert_eq!(rest.len(), 0);
    assert_eq!((h.reserved1, h.reserved2), (1, 2));
    assert_eq!(h.objects.len(), 3);
    assert!(matches!(h.objects[0], HeaderObject::Unknown(_)));
    assert_eq!(h.objects[1], HeaderObject::Padding(5));
    assert!(matches!(h.objects[2], HeaderObject::Unknown(_)));
    let mut w = Vec::new();
    h.write(&mut w).expect("write");
    assert_eq!(w, header);
    assert_eq!(h.size_of(), header.len());
}

#[test]
fn header_guid_mismatch_is_a_tag_error() {
    let bytes = frame(DATA_OBJECT, &[0; 6]);
    let e = HeaderObjects::parse(Span::new(&bytes)).expect_err("tag");
    assert_eq!(e.kind, ErrorKind::Tag);
    assert_eq!(e.context, vec![Context::HeaderObjects]);
}

#[test]
fn every_prefix_of_an_object_fails_with_eof() {
    let bytes = frame(0x77, &[1, 2, 3, 4, 5, 6, 7]);
    for n in 0..bytes.len() {
        let e = object(Span::new(&bytes[..n])).expect_err("prefix");
        assert_eq!(e.kind, ErrorKind::Eof);
        let e = HeaderObject::parse(Span::new(&bytes[..n])).expect_err("prefix");
        assert_eq!(e.kind, ErrorKind::Eof);
    }
    assert!(object(Span::new(&bytes)).is_ok());
}

#[test]
fn object_size_below_frame_is_eof() {
    let mut bytes = frame(0x77, &[1, 2]);
    bytes[16] = 23;
    assert_eq!(object(Span::new(&bytes)).unwrap_err().kind, ErrorKind::Eof);
}

#[test]
fn padding_is_written_as_zeros() {
    let o = HeaderObject::Padding(3);
    assert_eq!(written(&o), frame(PADDING_OBJECT, &[0, 0, 0]));
}

#[test]
fn codec_list_round_trips() {
    let mut body = Guid(0x5).as_bytes_ms();
    body.extend_from_slice(&1u32.to_le_bytes());
    body.extend_from_slice(&2u16.to_le_bytes());
    body.extend_from_slice(&4u16.to_le_bytes());
    body.extend_from_slice(&[b'W', 0, b'M', 0]);
    body.extend_from_slice(&2u16.to_le_bytes());
    body.extend_from_slice(&[0, 0]);
    body.extend_from_slice(&3u16.to_le_bytes());
    body.extend_from_slice(&[7, 8, 9]);
    let bytes = frame(CODEC_LIST_OBJECT, &body);
    let (_, o) = HeaderObject::parse(Span::new(&bytes)).expect("codec list");
    match &o {
        HeaderObject::CodecList(CodecListData { reserved, codec_entries }) => {
            assert_eq!(*reserved, Guid(0x5));
            assert_eq!(codec_entries.len(), 1);
            let CodecEntry { codec_type, codec_name, codec_description, codec_information } = &codec_entries[0];
            assert_eq!(*codec_type, 2);
            assert_eq!(codec_name.to_str(), "WM");
            assert_eq!(codec_description.to_str(), "\0");
            assert_eq!(codec_information.fragment(), &[7, 8, 9][..]);
        }
        other => panic!("unexpected {:?}", other),
    }
    assert_eq!(written(&o), bytes);
}

#[test]
fn script_command_and_marker_round_trip() {
    let sc = ScriptCommandData {
        reserved: Guid(1),
        command_types: vec![WideStr::new("URL"), WideStr::new("")],
        commands: vec![Command { presentation_time: 5, type_index: 0, command_name: WideStr::new("x") }],
    };
    let o = HeaderObject::ScriptCommand(sc);
    let bytes = written(&o);
    assert_eq!(&bytes[..16], &Guid(SCRIPT_COMMAND_OBJECT).as_bytes_ms()[..]);
    assert_eq!(bytes.len(), 24 + 16 + 2 + 2 + (2 + 6) + 2 + (4 + 2 + 2 + 2));
    let (_, back) = HeaderObject::parse(Span::new(&bytes)).expect("script command");
    assert_eq!(back, o);

    let m = MarkerData {
        reserved_1: Guid(2),
        reserved_2: 0,
        name: WideStr::new("m"),
        markers: vec![Marker {
            offset: 1,
            presentation_time: 2,
            entry_length: 3,
            send_time: 4,
            flags: 5,
            marker_description: WideStr::new("ab"),
        }],
    };
    let o = HeaderObject::Marker(m);
    let bytes = written(&o);
    assert_eq!(&bytes[..16], &Guid(MARKER_OBJECT).as_bytes_ms()[..]);
    let (_, back) = HeaderObject::parse(Span::new(&bytes)).expect("marker");
    assert_eq!(back, o);
}

#[test]
fn header_extension_round_trips() {
    let ll = LanguageListData { language_id_records: vec![WideStr::new("en-us")] };
    let mut inner = Vec::new();
    ExtensionHeaderObject::LanguageList(ll).write(&mut inner).expect("language list");
    assert_eq!(&inner[..16], &Guid(LANGUAGE_LIST_OBJECT).as_bytes_ms()[..]);
    inner.extend_from_slice(&frame(0x99, &[4, 4]));
    let mut body = Guid(0xAB).as_bytes_ms();
    body.extend_from_slice(&6u16.to_le_bytes());
    body.extend_from_slice(&(inner.len() as u32).to_le_bytes());
    body.extend_from_slice(&inner);
    let bytes = frame(HEADER_EXTENSION_OBJECT, &body);
    let (_, o) = HeaderObject::parse(Span::new(&bytes)).expect("header extension");
    match &o {
        HeaderObject::HeaderExtension(d) => {
            assert_eq!(d.reserved_2, 6);
            assert_eq!(d.extension_objects.len(), 2);
            assert!(matches!(d.extension_objects[1], ExtensionHeaderObject::Unknown(_)));
        }
        other => panic!("unexpected {:?}", other),
    }
    assert_eq!(written(&o), bytes);
}

#[test]
fn fixed_records_need_their_length() {
    let b = [0u8; 80];
    assert!(FilePropertiesData::parse(Span::new(&b)).is_ok());
    assert_eq!(FilePropertiesData::parse(Span::new(&b[..79])).unwrap_err().kind, ErrorKind::Eof);
    let (rest, c) = CompatibilityData::parse(Span::new(&[2, 1, 0])).expect("compat");
    assert_eq!((c.profile, c.mode, rest.len()), (2, 1, 1));
}

#[test]
fn wide_strings() {
    assert_eq!(WideStr::from(vec![0x41, 0x42]), WideStr::new("AB"));
    let w = WideStr::new("hé");
    assert_eq!(w.len(), 2);
    assert!(!w.is_empty());
    assert!(WideStr::new("").is_empty());
    assert_eq!(w.size_of(), 4);
    assert_eq!(w.size_of_count16(), 6);
    assert_eq!(w.size_of_count32(), 8);
    assert_eq!(w.to_str(), "hé");
    let mut out = Vec::new();
    w.write_count16(&mut out).unwrap();
    assert_eq!(out, vec![4, 0, b'h', 0, 0xE9, 0]);
    let (rest, back) = WideStr::parse_count16(Span::new(&out)).unwrap();
    assert_eq!((back, rest.len()), (w, 0));
    let mut out = Vec::new();
    WideStr::new("a").write_count32(&mut out).unwrap();
    assert_eq!(out, vec![2, 0, 0, 0, b'a', 0]);
    let e = WideStr::parse(Span::new(&[1, 0, 2])).unwrap_err();
    assert_eq!((e.kind, e.offset), (ErrorKind::Eof, 2));
}

#[test]
fn lengths_that_overflow_their_prefix_fail_to_write() {
    let long = WideStr(vec![0x41; 0x8000]);
    let mut out = Vec::new();
    assert_eq!(long.write_count16(&mut out), Err(WriteError::FieldTooLarge));
    let ll = LanguageListData { language_id_records: vec![WideStr(vec![0x41; 0x80])] };
    let mut out = Vec::new();
    assert_eq!(ll.write(&mut out), Err(WriteError::FieldTooLarge));
}

#[test]
fn index_objects_stop_at_a_truncated_frame() {
    let mut bytes = frame(0x1, &[1]);
    bytes.extend_from_slice(&frame(0x2, &[]));
    bytes.extend_from_slice(&[0; 10]);
    let (rest, idx) = IndexObjects::parse(Span::new(&bytes));
    assert_eq!(idx.objects.len(), 2);
    assert_eq!(rest.len(), 10);
}

#[test]
fn whole_stream_parses() {
    let mut header_objs = frame(asf::guid::COMPATIBILITY_OBJECT, &[1, 2]);
    header_objs.extend_from_slice(&frame(PADDING_OBJECT, &[0; 2]));
    let mut bytes = Guid(HEADER_OBJECT).as_bytes_ms();
    bytes.extend_from_slice(&(30 + header_objs.len() as u64).to_le_bytes());
    bytes.extend_from_slice(&[1, 2]);
    bytes.extend_from_slice(&2u32.to_le_bytes());
    bytes.extend_from_slice(&header_objs);
    bytes.extend_from_slice(&Guid(DATA_OBJECT).as_bytes_ms());
    bytes.extend_from_slice(&50u64.to_le_bytes());
    bytes.extend_from_slice(&[0; 16]);
    bytes.extend_from_slice(&0u64.to_le_bytes());
    bytes.extend_from_slice(&[0, 0]);
    let index_start = bytes.len();
    bytes.extend_from_slice(&frame(asf::guid::SIMPLE_INDEX_OBJECT, &[1, 2, 3]));
    let c = asf::parse(&bytes).expect("stream");
    assert_eq!(c.header.objects.len(), 2);
    assert_eq!(c.data.packets.len(), 0);
    assert_eq!(c.indices.objects.len(), 1);
    for n in 0..bytes.len() {
        if n == index_start {
            let c = asf::parse(&bytes[..n]).expect("a stream without index objects");
            assert_eq!(c.indices.objects.len(), 0);
            continue;
        }
        let e = asf::parse(&bytes[..n]).expect_err("prefix");
        assert_eq!(e.kind, ErrorKind::Eof, "prefix of {} bytes", n);
    }
}

fn assert_round_trip(o: HeaderObject) {
    let bytes = written(&o);
    let (rest, back) = HeaderObject::parse(Span::new(&bytes)).expect("parse back");
    assert_eq!(rest.len(), 0);
    assert_eq!(written(&back), bytes);
}

#[test]
fn every_header_object_kind_round_trips() {
    let blob = [1u8, 2, 3, 4, 5, 6, 7, 8, 9];
    let s = Span::new(&blob);
    assert_round_trip(HeaderObject::FileProperties(FilePropertiesData {
        file_id: Guid(7),
        file_size: 1,
        creation_date: 2,
        data_packets_count: 3,
        play_duration: 4,
        send_duration: 5,
        preroll: 6,
        flags: 7,
        minimum_data_packet_size: 8,
        maximum_data_packet_size: 9,
        maximum_bitrate: 10,
    }));
    assert_round_trip(HeaderObject::BitrateMutualExclusion(BitrateMutualExclusionData {
        exclusion_type: Guid(3),
        stream_numbers: vec![1, 2, 3],
    }));
    assert_round_trip(HeaderObject::ErrorCorrection(ErrorCorrectionData {
        error_correction_type: Guid(4),
        error_correction_data: s.slice(0, 3),
    }));
    assert_round_trip(HeaderObject::ExtendedContentDescription(ExtendedContentDescriptionData {
        descriptors: vec![ContentDescriptor { name: WideStr::new("k"), value_type: 0, value: s.slice(3, 5) }],
    }));
    assert_round_trip(HeaderObject::StreamBitrateProperties(StreamBitratePropertiesData {
        bitrate_records: vec![BitrateRecord { flags: 1, average_bitrate: 64000 }],
    }));
    assert_round_trip(HeaderObject::ContentBranding(ContentBrandingData {
        banner_image_type: 1,
        banner_image_data: s.slice(0, 2),
        banner_image_url: s.slice(2, 2),
        copyright_url: s.slice_from(5),
    }));
    assert_round_trip(HeaderObject::ExtendedContentEncryption(ExtendedContentEncryptionData { data: s }));
    assert_round_trip(HeaderObject::DigitalSignature(DigitalSignatureData {
        signature_type: 2,
        signature_data: s.slice(1, 4),
    }));
}
