use asf::error::ErrorKind;
use asf::guid::{Guid, AUDIO_MEDIA, AUDIO_SPREAD};
use asf::header::content_description::ContentDescriptionData;
use asf::header::content_encryption::ContentEncryptionData;
use asf::header::stream_properties::StreamPropertiesData;
use asf::header::HeaderObject;
use asf::span::Span;
use asf::widestr::WideStr;

const BASIC_CONTENT_DESCRIPTOR_BYTES: &'static [u8] = &[
        0x33, 0x26, 0xB2, 0x75, 0x8E, 0x66, 0xCF, 0x11, 0xA6, 0xD9, 0x00, 0xAA, 0x00, 0x62, 0xCE,
        0x6C, 0x68, 0x00, 0x00, 0x00, 0x00, 0x00, 0x00, 0x00, 0x2E, 0x00, 0x12, 0x00, 0x02, 0x00,
        0x02, 0x00, 0x02, 0x00, 0x54, 0x00, 0x68, 0x00, 0x65, 0x00, 0x20, 0x00, 0x4D, 0x00, 0x61,
        0x00, 0x74, 0x00, 0x72, 0x00, 0x69, 0x00, 0x78, 0x00, 0x20, 0x00, 0x50, 0x00, 0x61, 0x00,
        0x72, 0x00, 0x74, 0x00, 0x20, 0x00, 0x32, 0x00, 0x20, 0x00, 0x6F, 0x00, 0x66, 0x00, 0x20,
        0x00, 0x32, 0x00, 0x00, 0x00, 0x63, 0x00, 0x6F, 0x00, 0x6E, 0x00, 0x66, 0x00, 0x75, 0x00,
        0x7A, 0x00, 0x65, 0x00, 0x64, 0x00, 0x00, 0x00, 0x00, 0x00, 0x00, 0x00, 0x00, 0x00,
    ];

const BASIC_CONTENT_ENCRYPTION_BYTES: &'static [u8] = &[
        0xFB, 0xB3, 0x11, 0x22, 0x23, 0xBD, 0xD2, 0x11, 0xB4, 0xB7, 0x00, 0xA0,
        0xC9, 0x55, 0xFC, 0x6E, 0xBC, 0x00, 0x00, 0x00, 0x00, 0x00, 0x00, 0x00,
        0x18, 0x00, 0x00, 0x00, 0xB8, 0xE8, 0x9C, 0xBB, 0x79, 0x31, 0x80, 0x5C,
        0x3D, 0x7F, 0xDD, 0x00, 0xC5, 0x5C, 0xE9, 0xBA, 0x80, 0x3B, 0x1A, 0x5C,
        0xFB, 0x81, 0xDA, 0xF9, 0x04, 0x00, 0x00, 0x00, 0x44, 0x52, 0x4D, 0x00,
        0x19, 0x00, 0x00, 0x00, 0x4C, 0x35, 0x33, 0x6C, 0x51, 0x67, 0x74, 0x71,
        0x53, 0x41, 0x45, 0x63, 0x46, 0x36, 0x30, 0x35, 0x43, 0x54, 0x4F, 0x74,
        0x37, 0x59, 0x55, 0x6A, 0x00, 0x5F, 0x00, 0x00, 0x00, 0x68, 0x74, 0x74,
        0x70, 0x3A, 0x2F, 0x2F, 0x67, 0x6F, 0x2E, 0x6D, 0x69, 0x63, 0x72, 0x6F,
        0x73, 0x6F, 0x66, 0x74, 0x2E, 0x63, 0x6F, 0x6D, 0x2F, 0x66, 0x77, 0x6C,
        0x69, 0x6E, 0x6B, 0x2F, 0x3F, 0x70, 0x72, 0x64, 0x3D, 0x38, 0x31, 0x36,
        0x26, 0x70, 0x76, 0x65, 0x72, 0x3D, 0x37, 0x2E, 0x31, 0x26, 0x73, 0x62,
        0x70, 0x3D, 0x44, 0x52, 0x4D, 0x26, 0x70, 0x6C, 0x63, 0x69, 0x64, 0x3D,
        0x30, 0x78, 0x34, 0x30, 0x39, 0x26, 0x63, 0x6C, 0x63, 0x69, 0x64, 0x3D,
        0x30, 0x78, 0x34, 0x30, 0x39, 0x26, 0x61, 0x72, 0x3D, 0x50, 0x65, 0x72,
        0x73, 0x6F, 0x6E, 0x61, 0x6C, 0x56, 0x32, 0x00,
    ];

const BASIC_STREAM_PROPERTIES_BYTES: &'static [u8] = &[
        0x91, 0x07, 0xDC, 0xB7, 0xB7, 0xA9, 0xCF, 0x11, 0x8E, 0xE6,
        0x00, 0xC0, 0x0C, 0x20, 0x53, 0x65, 0x72, 0x00, 0x00, 0x00, 
        0x00, 0x00, 0x00, 0x00, 0x40, 0x9E, 0x69, 0xF8, 0x4D, 0x5B, 
        0xCF, 0x11, 0xA8, 0xFD, 0x00, 0x80, 0x5F, 0x5C, 0x44, 0x2B, 
        0x50, 0xCD, 0xC3, 0xBF, 0x8F, 0x61, 0xCF, 0x11, 0x8B, 0xB2, 
        0x00, 0xAA, 0x00, 0xB4, 0xE2, 0x20, 0x00, 0x00, 0x00, 0x00, 
        0x00, 0x00, 0x00, 0x00, 0x1C, 0x00, 0x00, 0x00, 0x08, 0x00, 
        0x00, 0x00, 0x01, 0x00, 0x70, 0x33, 0x77, 0x00, 0x61, 0x01, 
        0x01, 0x00, 0x80, 0x3E, 0x00, 0x00, 0xD0, 0x07, 0x00, 0x00, 
        0x80, 0x02, 0x10, 0x00, 0x0A, 0x00, 0x00, 0x22, 0x00, 0x00, 
        0x0E, 0x00, 0x80, 0x07, 0x00, 0x00, 0x01, 0x80, 0x02, 0x80,
        0x02, 0x01, 0x00, 0x00,
    ];

fn basic_content_description_data() -> ContentDescriptionData {
    ContentDescriptionData {
        title: WideStr::new("The Matrix Part 2 of 2\0"),
        author: WideStr::new("confuzed\0"),
        copyright: WideStr::new("\0"),
        description: WideStr::new("\0"),
        rating: WideStr::new("\0"),
    }
}

fn basic_content_encryption_data() -> ContentEncryptionData<'static> {
    let span = Span::new(BASIC_CONTENT_ENCRYPTION_BYTES);
    ContentEncryptionData {
        secret_data: span.slice(28, 52),
        protection_type: span.slice(56, 60),
        key_id: span.slice(64, 89),
        license_url: span.slice_from(93),
    }
}

fn basic_stream_properties_data() -> StreamPropertiesData<'static> {
    let span = Span::new(BASIC_STREAM_PROPERTIES_BYTES);
    StreamPropertiesData {
        stream_type: Guid(AUDIO_MEDIA),
        error_correction_type: Guid(AUDIO_SPREAD),
        time_offset: 0,
        flags: 1,
        reserved: 7811952,
        type_specific_data: span.slice(78, 106),
        error_correction_data: span.slice_from(106),
    }
}

#[test]
fn broken_content_descriptor() {
    let err = HeaderObject::parse(Span::new(&[
            0x33, 0x26, 0xB2, 0x75, 0x8E, 0x66, 0xCF, 0x11, 0xA6, 0xD9, 0x00, 0xAA, 0x00, 0x62,
            0xCE, 0x6C, 0x67, 0x00, 0x00, 0x00, 0x00, 0x00, 0x00, 0x00, 0x2E, 0x00, 0x11, 0x00,
            0x02, 0x00, 0x02, 0x00, 0x02, 0x00, 0x54, 0x00, 0x68, 0x00, 0x65, 0x00, 0x20, 0x00,
            0x4D, 0x00, 0x61, 0x00, 0x74, 0x00, 0x72, 0x00, 0x69, 0x00, 0x78, 0x00, 0x20, 0x00,
            0x50, 0x00, 0x61, 0x00, 0x72, 0x00, 0x74, 0x00, 0x20, 0x00, 0x32, 0x00, 0x20, 0x00,
            0x6F, 0x00, 0x66, 0x00, 0x20, 0x00, 0x32, 0x00, 0x00, 0x00, 0x63, 0x00, 0x6F, 0x00,
            0x6E, 0x00, 0x66, 0x00, 0x75, 0x00, 0x7A, 0x00, 0x65, 0x00, 0x64, 0x00, 0x00, 0x00,
            0x00, 0x00, 0x00, 0x00, 0x00,
        ]))
    .expect_err("expected failure on broken header");
    match err.kind {
        ErrorKind::Eof => {}
        _ => panic!("expected eof error, got {:?}", err),
    }
}

#[test]
fn parse_basic_content_descriptor() {
    assert_eq!(
        HeaderObject::parse(Span::new(BASIC_CONTENT_DESCRIPTOR_BYTES))
            .expect("parse error")
            .1,
        HeaderObject::ContentDescription(basic_content_description_data())
    )
}

#[test]
fn write_basic_content_descriptor() {
    let mut buf = Vec::new();
    HeaderObject::ContentDescription(basic_content_description_data())
        .write(&mut buf)
        .expect("write to succeed");
    assert_eq!(buf.as_slice(), &BASIC_CONTENT_DESCRIPTOR_BYTES[..])
}

#[test]
fn size_of_basic_content_descriptor() {
    assert_eq!(
        HeaderObject::ContentDescription(basic_content_description_data()).size_of(),
        BASIC_CONTENT_DESCRIPTOR_BYTES.len()
    )
}

#[test]
fn parse_basic_content_encryption() {
    assert_eq!(
        HeaderObject::parse(Span::new(BASIC_CONTENT_ENCRYPTION_BYTES)).expect("parser error").1,
        HeaderObject::ContentEncryption(basic_content_encryption_data())
    )
}

#[test]
fn write_basic_content_encryption() {
    let mut buf = Vec::new();
    HeaderObject::ContentEncryption(basic_content_encryption_data()).write(&mut buf).expect("write to succeed");
    assert_eq!(buf.as_slice(), &BASIC_CONTENT_ENCRYPTION_BYTES[..])
}

#[test]
fn size_of_basic_content_encryption() {
    assert_eq!(
        HeaderObject::ContentEncryption(basic_content_encryption_data()).size_of(),
        BASIC_CONTENT_ENCRYPTION_BYTES.len()
    )
}

#[test]
fn parse_basic_stream_properties() {
    assert_eq!(
        HeaderObject::parse(Span::new(BASIC_STREAM_PROPERTIES_BYTES)).expect("parse error").1,
        HeaderObject::StreamProperties(basic_stream_properties_data()),
    );
}

#[test]
fn write_basic_stream_properties() {
    let mut buf = Vec::new();
    HeaderObject::StreamProperties(basic_stream_properties_data()).write(&mut buf).expect("write to succeed");
    assert_eq!(buf.as_slice(), &BASIC_STREAM_PROPERTIES_BYTES[..])
}

#[test]
fn size_of_basic_stream_properties() {
    assert_eq!(
        HeaderObject::StreamProperties(basic_stream_properties_data()).size_of(),
        BASIC_STREAM_PROPERTIES_BYTES.len()
    )
}
