use vstd::prelude::*;
use vstd::bytes::*;

use crate::error::{Error, ErrorKind, WriteError};
use crate::span::{splits, Span};
use crate::wire::{take, write_bytes, Wire};

verus! {

/// A 128-bit GUID, holding its logical value: the value whose big-endian
/// bytes are the usual textual reading of the GUID.
#[derive(Debug, PartialEq, Eq, Clone, Copy, Structural)]
pub struct Guid(pub u128);

/// The little-endian bytes of the value, read off the 16 wire bytes: the wire
/// form keeps the first three fields little-endian and the last eight bytes
/// in order.
pub open spec fn wire_to_le(b: Seq<u8>) -> Seq<u8> {
    seq![
        b[15], b[14], b[13], b[12], b[11], b[10], b[9], b[8],
        b[6], b[7], b[4], b[5], b[0], b[1], b[2], b[3],
    ]
}

/// The 16 wire bytes, read off the little-endian bytes of the value.
pub open spec fn le_to_wire(c: Seq<u8>) -> Seq<u8> {
    seq![
        c[12], c[13], c[14], c[15], c[10], c[11], c[8], c[9],
        c[7], c[6], c[5], c[4], c[3], c[2], c[1], c[0],
    ]
}

/// The logical value of a GUID given by its 16 wire bytes.
pub open spec fn guid_from_wire(b: Seq<u8>) -> u128 {
    spec_u128_from_le_bytes(wire_to_le(b))
}

/// The 16 wire bytes of a GUID with logical value `v`.
pub open spec fn guid_to_wire(v: u128) -> Seq<u8> {
    le_to_wire(spec_u128_to_le_bytes(v))
}

/// Turning wire bytes into a GUID and back gives the same 16 bytes.
pub proof fn lemma_guid_wire_round_trip(b: Seq<u8>)
    requires
        b.len() == 16,
    ensures
        guid_to_wire(guid_from_wire(b)) == b,
{
    lemma_auto_spec_u128_to_from_le_bytes();
    assert(wire_to_le(b).len() == 16);
    assert(le_to_wire(wire_to_le(b)) =~= b);
}

/// Turning a GUID into wire bytes and back gives the same GUID.
pub proof fn lemma_guid_value_round_trip(v: u128)
    ensures
        guid_from_wire(guid_to_wire(v)) == v,
        guid_to_wire(v).len() == 16,
{
    lemma_auto_spec_u128_to_from_le_bytes();
    let c = spec_u128_to_le_bytes(v);
    assert(wire_to_le(le_to_wire(c)) =~= c);
}

impl Guid {
    /// The GUID whose wire form is the 16 bytes `b`.
    pub fn from_wire(b: &[u8]) -> (r: Guid)
        requires
            b@.len() == 16,
        ensures
            r.0 == guid_from_wire(b@),
    {
        let mut c: Vec<u8> = Vec::new();
        c.push(b[15]); c.push(b[14]); c.push(b[13]); c.push(b[12]);
        c.push(b[11]); c.push(b[10]); c.push(b[9]); c.push(b[8]);
        c.push(b[6]); c.push(b[7]); c.push(b[4]); c.push(b[5]);
        c.push(b[0]); c.push(b[1]); c.push(b[2]); c.push(b[3]);
        proof {
            assert(c@ =~= wire_to_le(b@));
        }
        Guid(u128_from_le_bytes(c.as_slice()))
    }

    /// The wire form of the GUID.
    pub fn as_bytes_ms(&self) -> (r: Vec<u8>)
        ensures
            r@ == guid_to_wire(self.0),
    {
        let c = u128_to_le_bytes(self.0);
        let mut b: Vec<u8> = Vec::new();
        b.push(c[12]); b.push(c[13]); b.push(c[14]); b.push(c[15]);
        b.push(c[10]); b.push(c[11]); b.push(c[8]); b.push(c[9]);
        b.push(c[7]); b.push(c[6]); b.push(c[5]); b.push(c[4]);
        b.push(c[3]); b.push(c[2]); b.push(c[1]); b.push(c[0]);
        proof {
            assert(b@ =~= le_to_wire(c@));
        }
        b
    }
}

impl Wire for Guid {
    open spec fn spec_bytes(&self) -> Seq<u8> {
        guid_to_wire(self.0)
    }

    open spec fn writable(&self) -> bool {
        true
    }

    fn size_of(&self) -> (r: usize) {
        proof {
            lemma_guid_value_round_trip(self.0);
        }
        16
    }

    fn write(&self, w: &mut Vec<u8>) -> (r: Result<(), WriteError>) {
        let b = self.as_bytes_ms();
        write_bytes(w, b.as_slice());
        Ok(())
    }
}

/// Appends the wire form of `g`.
pub fn write_guid(w: &mut Vec<u8>, g: Guid)
    ensures
        final(w)@ == old(w)@ + guid_to_wire(g.0),
{
    let b = g.as_bytes_ms();
    write_bytes(w, b.as_slice());
}

/// Whether two byte slices hold the same bytes.
pub fn bytes_eq(a: &[u8], b: &[u8]) -> (r: bool)
    ensures
        r == (a@ == b@),
{
    if a.len() != b.len() {
        return false;
    }
    let mut i: usize = 0;
    while i < a.len()
        invariant
            i <= a@.len(),
            a@.len() == b@.len(),
            a@.take(i as int) == b@.take(i as int),
        decreases a@.len() - i,
    {
        if a[i] != b[i] {
            return false;
        }
        proof {
            assert(a@.take(i + 1) =~= a@.take(i as int).push(a@[i as int]));
            assert(b@.take(i + 1) =~= b@.take(i as int).push(b@[i as int]));
        }
        i = i + 1;
    }
    proof {
        assert(a@ =~= a@.take(i as int));
        assert(b@ =~= b@.take(i as int));
    }
    true
}

/// Consumes the 16 wire bytes of the GUID `expected`; fails with `Tag` when
/// other bytes stand there.
pub fn tag<'a>(input: Span<'a>, expected: Guid) -> (r: Result<Span<'a>, Error>)
    ensures
        r is Ok <==> 16 <= input.bytes().len() && input.bytes().take(16) == guid_to_wire(expected.0),
        r matches Ok(rest) ==> splits(input, guid_to_wire(expected.0), rest),
        r matches Err(e) ==> (e.kind == ErrorKind::Eof <==> input.bytes().len() < 16)
            && (e.kind == ErrorKind::Eof || e.kind == ErrorKind::Tag),
{
    let (rest, t) = take(input, 16)?;
    let w = expected.as_bytes_ms();
    if bytes_eq(t.fragment(), w.as_slice()) {
        Ok(rest)
    } else {
        Err(Error::new(ErrorKind::Tag, input.location_offset()))
    }
}

/// Reads a GUID from its 16 wire bytes.
pub fn guid<'a>(input: Span<'a>) -> (r: Result<(Span<'a>, Guid), Error>)
    ensures
        r is Ok <==> 16 <= input.bytes().len(),
        r matches Ok((rest, g)) ==> splits(input, guid_to_wire(g.0), rest)
            && g.0 == guid_from_wire(input.bytes().take(16)),
        r matches Err(e) ==> e.kind == ErrorKind::Eof,
{
    let (rest, t) = take(input, 16)?;
    let g = Guid::from_wire(t.fragment());
    proof {
        lemma_guid_wire_round_trip(t.bytes());
    }
    Ok((rest, g))
}

// Well-known GUIDs, as logical values: wrap one as `Guid(..)` to compare.
pub const HEADER_OBJECT: u128 = 0x75b22630668e11cfa6d900aa0062ce6c;
pub const DATA_OBJECT: u128 = 0x75b22636668e11cfa6d900aa0062ce6c;
pub const SIMPLE_INDEX_OBJECT: u128 = 0x33000890e5b111cf89f400a0c90349cb;
pub const INDEX_OBJECT: u128 = 0xd6e229d335da11d1903400a0c90349be;
pub const MEDIA_OBJECT_INDEX_OBJECT: u128 = 0xfeb103f812ad4c64840f2a1d2f7ad48c;
pub const TIMECODE_INDEX_OBJECT: u128 = 0x3cb73fd00c4a4803953dedf7b6228f0c;
pub const FILE_PROPERTIES_OBJECT: u128 = 0x8cabdca1a94711cf8ee400c00c205365;
pub const STREAM_PROPERTIES_OBJECT: u128 = 0xb7dc0791a9b711cf8ee600c00c205365;
pub const HEADER_EXTENSION_OBJECT: u128 = 0x5fbf03b5a92e11cf8ee300c00c205365;
pub const CODEC_LIST_OBJECT: u128 = 0x86d15240311d11d0a3a400a0c90348f6;
pub const SCRIPT_COMMAND_OBJECT: u128 = 0x1efb1a300b6211d0a39b00a0c90348f6;
pub const MARKER_OBJECT: u128 = 0xf487cd01a95111cf8ee600c00c205365;
pub const BITRATE_MUTUAL_EXCLUSION_OBJECT: u128 = 0xd6e229dc35da11d1903400a0c90349be;
pub const ERROR_CORRECTION_OBJECT: u128 = 0x75b22635668e11cfa6d900aa0062ce6c;
pub const CONTENT_DESCRIPTION_OBJECT: u128 = 0x75b22633668e11cfa6d900aa0062ce6c;
pub const EXTENDED_CONTENT_DESCRIPTION_OBJECT: u128 = 0xd2d0a440e30711d297f000a0c95ea850;
pub const CONTENT_BRANDING_OBJECT: u128 = 0x2211b3fabd2311d2b4b700a0c955fc6e;
pub const STREAM_BITRATE_PROPERTIES_OBJECT: u128 = 0x7bf875ce468d11d18d82006097c9a2b2;
pub const CONTENT_ENCRYPTION_OBJECT: u128 = 0x2211b3fbbd2311d2b4b700a0c955fc6e;
pub const EXTENDED_CONTENT_ENCRYPTION_OBJECT: u128 = 0x298ae61426224c17b935dae07ee9289c;
pub const DIGITAL_SIGNATURE_OBJECT: u128 = 0x2211b3fcbd2311d2b4b700a0c955fc6e;
pub const PADDING_OBJECT: u128 = 0x1806d474cadf4509a4ba9aabcb96aae8;
pub const EXTENDED_STREAM_PROPERTIES_OBJECT: u128 = 0x14e6a5cbc67243328399a96952065b5a;
pub const ADVANCED_MUTUAL_EXCLUSION_OBJECT: u128 = 0xa08649cf477546708a166e35357566cd;
pub const GROUP_MUTUAL_EXCLUSION_OBJECT: u128 = 0xd1465a405a794338b71be36b8fd6c249;
pub const STREAM_PRIORITIZATION_OBJECT: u128 = 0xd4fed15b88d3454f81f0ed5c45999e24;
pub const BANDWIDTH_SHARING_OBJECT: u128 = 0xa69609e6517b11d2b6af00c04fd908e9;
pub const LANGUAGE_LIST_OBJECT: u128 = 0x7c4346a9efe04bfcb229393ede415c85;
pub const METADATA_OBJECT: u128 = 0xc5f8cbea5baf48778467aa8c44fa4cca;
pub const METADATA_LIBRARY_OBJECT: u128 = 0x44231c94949849d1a1411d134e457054;
pub const INDEX_PARAMETERS_OBJECT: u128 = 0xd6e229df35da11d1903400a0c90349be;
pub const MEDIA_OBJECT_INDEX_PARAMETERS_OBJECT: u128 = 0x6b203bad3f1148e4aca8d7613de2cfa7;
pub const TIMECODE_INDEX_PARAMETERS_OBJECT: u128 = 0xf55e496d97974b5d8c8b604dfe9bfb24;
pub const COMPATIBILITY_OBJECT: u128 = 0x75b22630668e11cfa6d900aa0062ce6c;
pub const ADVANCED_CONTENT_ENCRYPTION_OBJECT: u128 = 0x43058533698149e69b74ad12cb86d58c;
pub const AUDIO_MEDIA: u128 = 0xf8699e405b4d11cfa8fd00805f5c442b;
pub const VIDEO_MEDIA: u128 = 0xbc19efc05b4d11cfa8fd00805f5c442b;
pub const COMMAND_MEDIA: u128 = 0x59dacfc059e611d0a3ac00a0c90348f6;
pub const JFIF_MEDIA: u128 = 0xb61be1005b4e11cfa8fd00805f5c442b;
pub const DEGRADABLE_JPEG_MEDIA: u128 = 0x35907de0e41511cfa91700805f5c442b;
pub const FILE_TRANSFER_MEDIA: u128 = 0x91bd222cf21c497a8b6d5aa86bfc0185;
pub const BINARY_MEDIA: u128 = 0x3afb65e247ef40f2ac2c70a90d71d343;
pub const WEB_STREAM_MEDIA_SUBTYPE: u128 = 0x776257d4c62741cb8f817ac7ff1c40cc;
pub const WEB_STREAM_FORMAT: u128 = 0xda1e6b1383594050b398388e965bf00c;
pub const NO_ERROR_CORRECTION: u128 = 0x20fb57005b5511cfa8fd00805f5c442b;
pub const AUDIO_SPREAD: u128 = 0xbfc3cd50618f11cf8bb200aa00b4e220;
pub const RESERVED_1: u128 = 0xabd3d211a9ba11cf8ee600c00c205365;
pub const RESERVED_2: u128 = 0x86d15241311d11d0a3a400a0c90348f6;
pub const RESERVED_3: u128 = 0x4b1acbe3100b11d0a39b00a0c90348f6;
pub const RESERVED_4: u128 = 0x4cfedb2075f611cf9c0f00a0c90349cb;
pub const MUTEX_LANGUAGE: u128 = 0xd6e22a0035da11d1903400a0c90349be;
pub const MUTEX_BITRATE: u128 = 0xd6e22a0135da11d1903400a0c90349be;
pub const MUTEX_UNKNOWN: u128 = 0xd6e22a0235da11d1903400a0c90349be;
pub const BANDWIDTH_SHARING_EXCLUSIVE: u128 = 0xaf6060aa519711d2b6af00c04fd908e9;
pub const BANDWIDTH_SHARING_PARTIAL: u128 = 0xaf6060ab519711d2b6af00c04fd908e9;
pub const PAYLOAD_EXTENSION_SYSTEM_TIMECODE: u128 = 0x399595ec86674e2d8fdb98814ce76c1e;
pub const PAYLOAD_EXTENSION_SYSTEM_FILE_NAME: u128 = 0xe165ec0e19ed45d7b4a725cbd1e28e9b;
pub const PAYLOAD_EXTENSION_SYSTEM_CONTENT_TYPE: u128 = 0xd590dc2007bc436c9cf7f3bbfbf1a4dc;
pub const PAYLOAD_EXTENSION_SYSTEM_PIXEL_ASPECT_RATIO: u128 = 0x1b1ee554f9ea4bc8821a376b74e4c4b8;
pub const PAYLOAD_EXTENSION_SYSTEM_SAMPLE_DURATION: u128 = 0xc6bd9450867f490783a3c77921b733ad;
pub const PAYLOAD_EXTENSION_SYSTEM_ENCRYPTION_SAMPLE_ID: u128 = 0x6698b84e0afa4330aeb21c0a98d7a44d;
} // verus!
