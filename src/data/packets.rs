use vstd::prelude::*;
use vstd::bytes::*;

use crate::error::{Context, Error, ErrorKind};
use crate::span::{lemma_splits_chain, lemma_splits_within, lemma_within_trans, splits, within, Span};
use crate::wire::{read_u16, read_u32, read_u8, take, take_u64};

verus! {

#[derive(Debug, PartialEq, Eq, Clone, Copy, Structural)]
pub enum MultiplePayloadsFlag {
    SinglePayload,
    MultiplePayloads,
}

#[derive(Debug, PartialEq, Eq, Clone, Copy, Structural)]
pub enum ErrorCorrectionFlag {
    Absent,
    Present,
}

/// The width of a variable-width integer field, from a two-bit code.
#[derive(Debug, PartialEq, Eq, Clone, Copy, Structural)]
pub enum FieldType {
    Zero,
    Byte,
    Word,
    Dword,
}

pub open spec fn field_type_of(code: u8) -> FieldType {
    if code == 1 {
        FieldType::Byte
    } else if code == 2 {
        FieldType::Word
    } else if code == 3 {
        FieldType::Dword
    } else {
        FieldType::Zero
    }
}

pub open spec fn field_code(t: FieldType) -> u8 {
    match t {
        FieldType::Zero => 0,
        FieldType::Byte => 1,
        FieldType::Word => 2,
        FieldType::Dword => 3,
    }
}

pub open spec fn field_width(t: FieldType) -> nat {
    match t {
        FieldType::Zero => 0,
        FieldType::Byte => 1,
        FieldType::Word => 2,
        FieldType::Dword => 4,
    }
}

/// The value `v` fits a field of type `t`.
pub open spec fn field_fits(t: FieldType, v: u32) -> bool {
    match t {
        FieldType::Zero => v == 0,
        FieldType::Byte => v <= 0xff,
        FieldType::Word => v <= 0xffff,
        FieldType::Dword => true,
    }
}

/// The wire form of `v` in a field of type `t`, little-endian.
pub open spec fn field_bytes(t: FieldType, v: u32) -> Seq<u8> {
    match t {
        FieldType::Zero => Seq::empty(),
        FieldType::Byte => seq![v as u8],
        FieldType::Word => spec_u16_to_le_bytes(v as u16),
        FieldType::Dword => spec_u32_to_le_bytes(v),
    }
}

pub open spec fn bit_of(b: bool) -> u8 {
    if b { 1 } else { 0 }
}

impl MultiplePayloadsFlag {
    /// Decodes the flag from its bit.
    pub fn parse(bit: u8) -> (r: MultiplePayloadsFlag)
        ensures
            r == (if bit == 1 { MultiplePayloadsFlag::MultiplePayloads } else { MultiplePayloadsFlag::SinglePayload }),
    {
        if bit == 1 {
            MultiplePayloadsFlag::MultiplePayloads
        } else {
            MultiplePayloadsFlag::SinglePayload
        }
    }
}

impl ErrorCorrectionFlag {
    /// Decodes the flag from its bit.
    pub fn parse(bit: u8) -> (r: ErrorCorrectionFlag)
        ensures
            r == (if bit == 1 { ErrorCorrectionFlag::Present } else { ErrorCorrectionFlag::Absent }),
    {
        if bit == 1 {
            ErrorCorrectionFlag::Present
        } else {
            ErrorCorrectionFlag::Absent
        }
    }
}

impl FieldType {
    /// Decodes a field type from its two-bit code.
    pub fn parse(code: u8) -> (r: FieldType)
        ensures
            r == field_type_of(code),
    {
        if code == 1 {
            FieldType::Byte
        } else if code == 2 {
            FieldType::Word
        } else if code == 3 {
            FieldType::Dword
        } else {
            FieldType::Zero
        }
    }

    /// Reads a field of this type, zero-extended to 32 bits. A `Zero` field
    /// reads nothing and yields 0.
    pub fn field<'a>(self, input: Span<'a>) -> (r: Result<(Span<'a>, u32), Error>)
        ensures
            r is Ok <==> field_width(self) <= input.bytes().len(),
            r matches Ok((rest, v)) ==> splits(input, field_bytes(self, v), rest) && field_fits(self, v),
            r matches Err(e) ==> e.kind == ErrorKind::Eof,
    {
        match self {
            FieldType::Zero => {
                proof {
                    assert(input.bytes() =~= Seq::<u8>::empty() + input.bytes());
                }
                Ok((input, 0))
            },
            FieldType::Byte => {
                let (rest, v) = read_u8(input)?;
                Ok((rest, v as u32))
            },
            FieldType::Word => {
                let (rest, v) = read_u16(input)?;
                Ok((rest, v as u32))
            },
            FieldType::Dword => {
                let (rest, v) = read_u32(input)?;
                Ok((rest, v))
            },
        }
    }
}


/// The first byte of the payload parsing information, MSB first: the
/// error-correction bit, then the packet-length, padding-length and
/// sequence field types, then the multiple-payloads bit.
#[derive(Debug, PartialEq, Eq, Clone, Copy, Structural)]
pub struct LengthTypeFlags {
    pub multiple_payloads_present: MultiplePayloadsFlag,
    pub sequence_type: FieldType,
    pub padding_len_type: FieldType,
    pub packet_len_type: FieldType,
    pub error_correction_flag: ErrorCorrectionFlag,
}

/// The second byte of the payload parsing information, MSB first: the field
/// types of the stream number, media object number, offset into media
/// object and replicated data length.
#[derive(Debug, PartialEq, Eq, Clone, Copy, Structural)]
pub struct PropertyFlags {
    pub replicated_data_len_type: FieldType,
    pub offset_into_media_object_type: FieldType,
    pub media_object_number_len_type: FieldType,
    pub stream_number_len_type: FieldType,
}

/// The flags byte of a multiple-payload packet: the payload length type in
/// the top two bits, the number of payloads in the low six.
#[derive(Debug, PartialEq, Eq, Clone, Copy, Structural)]
pub struct PayloadFlags {
    pub number_of_payloads: u8,
    pub payload_len_type: FieldType,
}

/// The stream flags byte of a payload: the key-frame bit on top, the stream
/// number in the low seven bits.
#[derive(Debug, PartialEq, Eq, Clone, Copy, Structural)]
pub struct StreamFlags {
    pub stream_number: u8,
    pub key_frame: bool,
}

impl LengthTypeFlags {
    pub open spec fn spec_byte(&self) -> u8 {
        ((bit_of(self.error_correction_flag == ErrorCorrectionFlag::Present) << 7u8)
            | (field_code(self.packet_len_type) << 5u8)
            | (field_code(self.padding_len_type) << 3u8)
            | (field_code(self.sequence_type) << 1u8)
            | bit_of(self.multiple_payloads_present == MultiplePayloadsFlag::MultiplePayloads)) as u8
    }

    /// Decodes the flags from their byte.
    pub fn parse(b: u8) -> (r: LengthTypeFlags)
        ensures
            r.spec_byte() == b,
            r.error_correction_flag == ErrorCorrectionFlag::Present <==> b >= 0x80,
            r.packet_len_type == field_type_of((b >> 5u8) & 3),
            r.padding_len_type == field_type_of((b >> 3u8) & 3),
            r.sequence_type == field_type_of((b >> 1u8) & 3),
    {
        let error_correction_flag = ErrorCorrectionFlag::parse(b >> 7);
        let packet_len_type = FieldType::parse((b >> 5) & 3);
        let padding_len_type = FieldType::parse((b >> 3) & 3);
        let sequence_type = FieldType::parse((b >> 1) & 3);
        let multiple_payloads_present = MultiplePayloadsFlag::parse(b & 1);
        let r = LengthTypeFlags {
            multiple_payloads_present,
            sequence_type,
            padding_len_type,
            packet_len_type,
            error_correction_flag,
        };
        proof {
            assert((b >> 7u8) <= 1 && ((b >> 5u8) & 3) < 4 && ((b >> 3u8) & 3) < 4 && ((b >> 1u8) & 3) < 4
                && (b & 1) <= 1) by (bit_vector);
            assert(b >= 0x80 <==> (b >> 7u8) == 1) by (bit_vector);
            let x7 = b >> 7u8;
            let x5 = (b >> 5u8) & 3;
            let x3 = (b >> 3u8) & 3;
            let x1 = (b >> 1u8) & 3;
            let x0 = b & 1;
            assert(b == ((x7 << 7u8) | (x5 << 5u8) | (x3 << 3u8) | (x1 << 1u8) | x0) as u8) by (bit_vector)
                requires x7 == b >> 7u8, x5 == (b >> 5u8) & 3, x3 == (b >> 3u8) & 3, x1 == (b >> 1u8) & 3, x0 == b & 1;
            lemma_field_code(x5);
            lemma_field_code(x3);
            lemma_field_code(x1);
        }
        r
    }
}

impl PropertyFlags {
    pub open spec fn spec_byte(&self) -> u8 {
        ((field_code(self.stream_number_len_type) << 6u8)
            | (field_code(self.media_object_number_len_type) << 4u8)
            | (field_code(self.offset_into_media_object_type) << 2u8)
            | field_code(self.replicated_data_len_type)) as u8
    }

    /// Decodes the flags from their byte.
    pub fn parse(b: u8) -> (r: PropertyFlags)
        ensures
            r.spec_byte() == b,
    {
        let stream_number_len_type = FieldType::parse((b >> 6) & 3);
        let media_object_number_len_type = FieldType::parse((b >> 4) & 3);
        let offset_into_media_object_type = FieldType::parse((b >> 2) & 3);
        let replicated_data_len_type = FieldType::parse(b & 3);
        proof {
            let x6 = (b >> 6u8) & 3;
            let x4 = (b >> 4u8) & 3;
            let x2 = (b >> 2u8) & 3;
            let x0 = b & 3;
            assert(x6 < 4 && x4 < 4 && x2 < 4 && x0 < 4
                && b == ((x6 << 6u8) | (x4 << 4u8) | (x2 << 2u8) | x0) as u8) by (bit_vector)
                requires x6 == (b >> 6u8) & 3, x4 == (b >> 4u8) & 3, x2 == (b >> 2u8) & 3, x0 == b & 3;
            lemma_field_code(x6);
            lemma_field_code(x4);
            lemma_field_code(x2);
            lemma_field_code(x0);
        }
        PropertyFlags {
            replicated_data_len_type,
            offset_into_media_object_type,
            media_object_number_len_type,
            stream_number_len_type,
        }
    }
}

impl PayloadFlags {
    pub open spec fn spec_byte(&self) -> u8 {
        ((field_code(self.payload_len_type) << 6u8) | self.number_of_payloads) as u8
    }

    /// Decodes the flags from their byte.
    pub fn parse(b: u8) -> (r: PayloadFlags)
        ensures
            r.spec_byte() == b,
            r.number_of_payloads < 64,
    {
        let payload_len_type = FieldType::parse((b >> 6) & 3);
        let number_of_payloads = b & 0x3f;
        proof {
            let x6 = (b >> 6u8) & 3;
            let n = b & 0x3f;
            assert(x6 < 4 && n < 64 && b == ((x6 << 6u8) | n) as u8) by (bit_vector)
                requires x6 == (b >> 6u8) & 3, n == b & 0x3f;
            lemma_field_code(x6);
        }
        PayloadFlags { number_of_payloads, payload_len_type }
    }
}

impl StreamFlags {
    pub open spec fn spec_byte(&self) -> u8 {
        ((bit_of(self.key_frame) << 7u8) | self.stream_number) as u8
    }

    /// Decodes the flags from their byte.
    pub fn parse(b: u8) -> (r: StreamFlags)
        ensures
            r.spec_byte() == b,
            r.stream_number < 128,
    {
        let key_frame = (b >> 7) == 1;
        let stream_number = b & 0x7f;
        proof {
            let k = b >> 7u8;
            let n = b & 0x7f;
            assert(k <= 1 && n < 128 && b == ((k << 7u8) | n) as u8) by (bit_vector)
                requires k == b >> 7u8, n == b & 0x7f;
        }
        StreamFlags { stream_number, key_frame }
    }
}

/// The optional error-correction block at the head of a packet.
#[derive(Debug, PartialEq, Eq, Clone, Copy, Structural)]
pub struct ErrorCorrectionData {
    pub flags: u8,
    pub ec_type: u8,
    pub ec_cycle: u8,
}

impl ErrorCorrectionData {
    pub open spec fn spec_bytes(&self) -> Seq<u8> {
        seq![self.flags, self.ec_type, self.ec_cycle]
    }

    pub fn parse<'a>(input: Span<'a>) -> (r: Result<(Span<'a>, ErrorCorrectionData), Error>)
        ensures
            r is Ok <==> 3 <= input.bytes().len(),
            r matches Ok((rest, v)) ==> splits(input, v.spec_bytes(), rest),
            r matches Err(e) ==> e.kind == ErrorKind::Eof,
    {
        match Self::parse_fields(input) {
            Ok(x) => Ok(x),
            Err(e) => Err(e.add_context(Context::ErrorCorrectionData)),
        }
    }

    fn parse_fields<'a>(input: Span<'a>) -> (r: Result<(Span<'a>, ErrorCorrectionData), Error>)
        ensures
            r is Ok <==> 3 <= input.bytes().len(),
            r matches Ok((rest, v)) ==> splits(input, v.spec_bytes(), rest),
            r matches Err(e) ==> e.kind == ErrorKind::Eof,
    {
        let (i1, flags) = read_u8(input)?;
        let (i2, ec_type) = read_u8(i1)?;
        let (i3, ec_cycle) = read_u8(i2)?;
        proof {
            lemma_splits_chain(input, seq![flags], i1, seq![ec_type], i2);
            lemma_splits_chain(input, seq![flags] + seq![ec_type], i2, seq![ec_cycle], i3);
            assert(seq![flags] + seq![ec_type] + seq![ec_cycle] =~= seq![flags, ec_type, ec_cycle]);
        }
        Ok((i3, ErrorCorrectionData { flags, ec_type, ec_cycle }))
    }
}

/// The payload parsing information of a packet: the two flag bytes, the
/// three variable-width fields they size, the send time and the duration.
#[derive(Debug, PartialEq, Eq, Clone, Copy, Structural)]
pub struct PayloadParsingData {
    pub length_type_flags: LengthTypeFlags,
    pub property_flags: PropertyFlags,
    pub packet_length: u32,
    pub sequence: u32,
    pub padding_len: u32,
    pub send_time: u32,
    pub duration: u16,
}

/// Bytes the payload parsing information takes, given its two flag bytes.
pub open spec fn payload_parsing_len(b0: u8, b1: u8) -> nat {
    2 + field_width(field_type_of((b0 >> 5u8) & 3)) + field_width(field_type_of((b0 >> 3u8) & 3))
        + field_width(field_type_of((b0 >> 1u8) & 3)) + 6
}

impl PayloadParsingData {
    /// The three variable-width fields fit their declared widths.
    pub open spec fn wf(&self) -> bool {
        &&& field_fits(self.length_type_flags.packet_len_type, self.packet_length)
        &&& field_fits(self.length_type_flags.sequence_type, self.sequence)
        &&& field_fits(self.length_type_flags.padding_len_type, self.padding_len)
    }

    pub open spec fn spec_bytes(&self) -> Seq<u8> {
        seq![self.length_type_flags.spec_byte()]
            + seq![self.property_flags.spec_byte()]
            + field_bytes(self.length_type_flags.packet_len_type, self.packet_length)
            + field_bytes(self.length_type_flags.sequence_type, self.sequence)
            + field_bytes(self.length_type_flags.padding_len_type, self.padding_len)
            + spec_u32_to_le_bytes(self.send_time)
            + spec_u16_to_le_bytes(self.duration)
    }

    pub fn parse<'a>(input: Span<'a>) -> (r: Result<(Span<'a>, PayloadParsingData), Error>)
        ensures
            r is Ok <==> 2 <= input.bytes().len() && payload_parsing_len(input.bytes()[0], input.bytes()[1]) <= input.bytes().len(),
            r matches Ok((rest, v)) ==> splits(input, v.spec_bytes(), rest) && v.wf(),
            r matches Err(e) ==> e.kind == ErrorKind::Eof,
            forall|w: PayloadParsingData, t: Seq<u8>| #[trigger] payload_parsing_encodes(input.bytes(), w, t)
                ==> (r matches Ok((rest, v)) && v == w),
    {
        let r = match Self::parse_fields(input) {
            Ok(x) => Ok(x),
            Err(e) => Err(e.add_context(Context::PayloadParsingData)),
        };
        proof {
            assert forall|w: PayloadParsingData, t: Seq<u8>| #[trigger] payload_parsing_encodes(input.bytes(), w, t)
                implies (r matches Ok((rest, v)) && v == w) by {
                let l = w.length_type_flags;
                lemma_length_type_flags_byte(l);
                lemma_field_bytes_len(l.packet_len_type);
                lemma_field_bytes_len(l.sequence_type);
                lemma_field_bytes_len(l.padding_len_type);
                crate::wire::lemma_int_bytes_len();
                assert(input.bytes()[0] == l.spec_byte());
                assert(input.bytes()[1] == w.property_flags.spec_byte());
                if let Ok((rest, v)) = r {
                    assert(input.bytes()[0] == v.length_type_flags.spec_byte());
                    assert(input.bytes()[1] == v.property_flags.spec_byte());
                    lemma_length_type_flags_injective(v.length_type_flags, l);
                    lemma_property_flags_injective(v.property_flags, w.property_flags);
                    crate::wire::lemma_cancel(input.bytes(), v.spec_bytes(), rest.bytes(), w.spec_bytes(), t);
                    lemma_payload_parsing_bytes_injective(v, w);
                }
            }
        }
        r
    }

    fn parse_fields<'a>(input: Span<'a>) -> (r: Result<(Span<'a>, PayloadParsingData), Error>)
        ensures
            r is Ok <==> 2 <= input.bytes().len() && payload_parsing_len(input.bytes()[0], input.bytes()[1]) <= input.bytes().len(),
            r matches Ok((rest, v)) ==> splits(input, v.spec_bytes(), rest) && v.wf(),
            r matches Err(e) ==> e.kind == ErrorKind::Eof,
    {
        proof {
            crate::wire::lemma_int_bytes_len();
        }
        let (i1, b0) = read_u8(input)?;
        let length_type_flags = LengthTypeFlags::parse(b0);
        let (i2, b1) = read_u8(i1)?;
        let property_flags = PropertyFlags::parse(b1);
        proof {
            assert(input.bytes()[0] == b0);
            assert(i1.bytes()[0] == b1);
            assert(input.bytes()[1] == i1.bytes()[0]);
            lemma_field_bytes_len(length_type_flags.packet_len_type);
            lemma_field_bytes_len(length_type_flags.sequence_type);
            lemma_field_bytes_len(length_type_flags.padding_len_type);
        }
        let (i3, packet_length) = length_type_flags.packet_len_type.field(i2)?;
        let (i4, sequence) = length_type_flags.sequence_type.field(i3)?;
        let (i5, padding_len) = length_type_flags.padding_len_type.field(i4)?;
        let (i6, send_time) = read_u32(i5)?;
        let (i7, duration) = read_u16(i6)?;
        let v = PayloadParsingData {
            length_type_flags,
            property_flags,
            packet_length,
            sequence,
            padding_len,
            send_time,
            duration,
        };
        proof {
            let s0 = seq![b0];
            let s1 = s0 + seq![b1];
            let s2 = s1 + field_bytes(length_type_flags.packet_len_type, packet_length);
            let s3 = s2 + field_bytes(length_type_flags.sequence_type, sequence);
            let s4 = s3 + field_bytes(length_type_flags.padding_len_type, padding_len);
            let s5 = s4 + spec_u32_to_le_bytes(send_time);
            lemma_splits_chain(input, s0, i1, seq![b1], i2);
            lemma_splits_chain(input, s1, i2, field_bytes(length_type_flags.packet_len_type, packet_length), i3);
            lemma_splits_chain(input, s2, i3, field_bytes(length_type_flags.sequence_type, sequence), i4);
            lemma_splits_chain(input, s3, i4, field_bytes(length_type_flags.padding_len_type, padding_len), i5);
            lemma_splits_chain(input, s4, i5, spec_u32_to_le_bytes(send_time), i6);
            lemma_splits_chain(input, s5, i6, spec_u16_to_le_bytes(duration), i7);
        }
        Ok((i7, v))
    }
}

/// One payload of a packet. Its byte regions are spans of the input.
#[derive(Debug, PartialEq, Eq)]
pub enum Payload<'a> {
    NormalPayload {
        stream_flags: StreamFlags,
        media_object_number: u32,
        offset_into_media_object: u32,
        replicated_data: Span<'a>,
        payload_data: Span<'a>,
    },
    CompressedPayload {
        stream_flags: StreamFlags,
        media_object_number: u32,
        presentation_time: u32,
        presentation_time_delta: u8,
        sub_payload_data: Vec<Span<'a>>,
    },
}

/// The payloads of a packet.
#[derive(Debug, PartialEq, Eq)]
pub enum PayloadData<'a> {
    SinglePayload(Payload<'a>),
    MultiplePayloads(Vec<Payload<'a>>),
}

/// The sub-payloads of a compressed payload, each with its one-byte length.
pub open spec fn sub_payload_bytes(s: Seq<Span>) -> Seq<u8>
    decreases s.len(),
{
    if s.len() == 0 {
        Seq::empty()
    } else {
        sub_payload_bytes(s.drop_last()) + seq![s.last().bytes().len() as u8] + s.last().bytes()
    }
}

/// The length prefix of a payload region: none in a single-payload packet,
/// a field of the payload length type in a multiple-payload one.
pub open spec fn length_prefix(len_type: Option<FieldType>, n: nat) -> Seq<u8> {
    match len_type {
        Some(t) => field_bytes(t, n as u32),
        None => Seq::empty(),
    }
}

/// The wire form of a payload, given the packet's property flags and payload
/// length type.
pub open spec fn payload_bytes(p: Payload, pf: PropertyFlags, len_type: Option<FieldType>) -> Seq<u8> {
    match p {
        Payload::NormalPayload {
            stream_flags,
            media_object_number,
            offset_into_media_object,
            replicated_data,
            payload_data,
        } => seq![stream_flags.spec_byte()]
            + field_bytes(pf.media_object_number_len_type, media_object_number)
            + field_bytes(pf.offset_into_media_object_type, offset_into_media_object)
            + field_bytes(pf.replicated_data_len_type, replicated_data.bytes().len() as u32)
            + replicated_data.bytes()
            + length_prefix(len_type, payload_data.bytes().len())
            + payload_data.bytes(),
        Payload::CompressedPayload {
            stream_flags,
            media_object_number,
            presentation_time,
            presentation_time_delta,
            sub_payload_data,
        } => seq![stream_flags.spec_byte()]
            + field_bytes(pf.media_object_number_len_type, media_object_number)
            + field_bytes(pf.offset_into_media_object_type, presentation_time)
            + field_bytes(pf.replicated_data_len_type, 1)
            + seq![presentation_time_delta]
            + length_prefix(len_type, sub_payload_bytes(sub_payload_data@).len())
            + sub_payload_bytes(sub_payload_data@),
    }
}

/// A normal payload does not declare a replicated data length of 1, which
/// marks a compressed payload; each sub-payload of a compressed payload fits
/// its one-byte length.
pub open spec fn payload_kind_ok(p: Payload) -> bool {
    match p {
        Payload::NormalPayload { replicated_data, .. } => replicated_data.bytes().len() != 1,
        Payload::CompressedPayload { sub_payload_data, .. } => forall|i: int|
            0 <= i < sub_payload_data@.len() ==> (#[trigger] sub_payload_data@[i]).bytes().len() <= 0xff,
    }
}

/// Every byte region of the payload lies inside `outer`.
pub open spec fn payload_within(p: Payload, outer: Span) -> bool {
    match p {
        Payload::NormalPayload { replicated_data, payload_data, .. } => within(replicated_data, outer)
            && within(payload_data, outer),
        Payload::CompressedPayload { sub_payload_data, .. } => forall|i: int|
            0 <= i < sub_payload_data@.len() ==> within(#[trigger] sub_payload_data@[i], outer),
    }
}

pub open spec fn payload_list_bytes(ps: Seq<Payload>, pf: PropertyFlags, len_type: FieldType) -> Seq<u8>
    decreases ps.len(),
{
    if ps.len() == 0 {
        Seq::empty()
    } else {
        payload_list_bytes(ps.drop_last(), pf, len_type) + payload_bytes(ps.last(), pf, Some(len_type))
    }
}

/// `raw` begins with the wire form of `pd`, decoded with property flags `pf`.
pub open spec fn payload_data_decodes(pd: PayloadData, pf: PropertyFlags, raw: Seq<u8>) -> bool {
    match pd {
        PayloadData::SinglePayload(p) => raw == payload_bytes(p, pf, None) && payload_kind_ok(p),
        PayloadData::MultiplePayloads(ps) => exists|flags: PayloadFlags|
            #![trigger flags.spec_byte()]
            {
                &&& flags.number_of_payloads == ps@.len()
                &&& (seq![flags.spec_byte()] + payload_list_bytes(ps@, pf, flags.payload_len_type)).is_prefix_of(raw)
                &&& forall|i: int| 0 <= i < ps@.len() ==> payload_kind_ok(#[trigger] ps@[i])
            },
    }
}

pub open spec fn payload_data_within(pd: PayloadData, outer: Span) -> bool {
    match pd {
        PayloadData::SinglePayload(p) => payload_within(p, outer),
        PayloadData::MultiplePayloads(ps) => forall|i: int|
            0 <= i < ps@.len() ==> payload_within(#[trigger] ps@[i], outer),
    }
}

/// Reads length-prefixed sub-payloads until the region is used up.
fn parse_sub_payloads<'a>(region: Span<'a>) -> (r: Result<Vec<Span<'a>>, Error>)
    ensures
        r matches Ok(v) ==> region.bytes() == sub_payload_bytes(v@)
            && (forall|i: int| 0 <= i < v@.len() ==> within(#[trigger] v@[i], region))
            && (forall|i: int| 0 <= i < v@.len() ==> (#[trigger] v@[i]).bytes().len() <= 0xff),
        r matches Err(e) ==> e.kind == ErrorKind::Eof,
        forall|subs: Seq<Span>| #[trigger] sub_payloads_encode(region.bytes(), subs) ==> r is Ok,
{
    let mut subs: Vec<Span<'a>> = Vec::new();
    let mut cur = region;
    proof {
        assert(region.bytes() =~= Seq::<u8>::empty() + cur.bytes());
        assert(cur.bytes() =~= region.bytes().subrange(0, region.bytes().len() as int));
        assert forall|ss: Seq<Span>| #[trigger] sub_payloads_encode(region.bytes(), ss)
            implies cur.bytes() == sub_payload_bytes_from(ss, 0) by {
            lemma_sub_payload_split(ss, 0);
            assert(ss.take(0).len() == 0);
            assert(sub_payload_bytes(ss) =~= sub_payload_bytes_from(ss, 0));
        }
    }
    while !cur.is_empty()
        invariant
            splits(region, sub_payload_bytes(subs@), cur),
            within(cur, region),
            forall|i: int| 0 <= i < subs@.len() ==> within(#[trigger] subs@[i], region),
            forall|i: int| 0 <= i < subs@.len() ==> (#[trigger] subs@[i]).bytes().len() <= 0xff,
            forall|ss: Seq<Span>| #[trigger] sub_payloads_encode(region.bytes(), ss)
                ==> cur.bytes() == sub_payload_bytes_from(ss, subs@.len() as int),
        decreases cur.bytes().len(),
    {
        let ghost k = subs@.len() as int;
        let (c1, n) = read_u8(cur)?;
        proof {
            assert forall|ss: Seq<Span>| #[trigger] sub_payloads_encode(region.bytes(), ss)
                implies k < ss.len() && n == ss[k].bytes().len() && c1.bytes() == ss[k].bytes() + sub_payload_bytes_from(ss, k + 1) by {
                if k >= ss.len() {
                    assert(sub_payload_bytes_from(ss, k).len() == 0);
                }
                crate::wire::lemma_cancel(cur.bytes(), seq![n], c1.bytes(), seq![ss[k].bytes().len() as u8],
                    ss[k].bytes() + sub_payload_bytes_from(ss, k + 1));
                assert(seq![n][0] == seq![ss[k].bytes().len() as u8][0]);
            }
        }
        let (c2, sub) = match take(c1, n as usize) {
            Ok(p) => p,
            Err(e) => {
                return Err(e);
            },
        };
        proof {
            lemma_splits_within(cur, seq![n], c1);
            lemma_within_trans(c1, cur, region);
            lemma_within_trans(sub, c1, region);
            lemma_within_trans(c2, c1, region);
            lemma_splits_chain(region, sub_payload_bytes(subs@), cur, seq![n], c1);
            lemma_splits_chain(region, sub_payload_bytes(subs@) + seq![n], c1, sub.bytes(), c2);
            assert(subs@.push(sub).drop_last() =~= subs@);
            assert forall|ss: Seq<Span>| #[trigger] sub_payloads_encode(region.bytes(), ss)
                implies c2.bytes() == sub_payload_bytes_from(ss, k + 1) by {
                crate::wire::lemma_cancel(c1.bytes(), sub.bytes(), c2.bytes(), ss[k].bytes(), sub_payload_bytes_from(ss, k + 1));
            }
        }
        subs.push(sub);
        cur = c2;
    }
    proof {
        assert(region.bytes() =~= sub_payload_bytes(subs@));
    }
    Ok(subs)
}

/// `b` is the sub-payloads `subs`, each with its one-byte length.
pub open spec fn sub_payloads_encode(b: Seq<u8>, subs: Seq<Span>) -> bool {
    &&& b == sub_payload_bytes(subs)
    &&& forall|i: int| 0 <= i < subs.len() ==> (#[trigger] subs[i]).bytes().len() <= 0xff
}

/// The sub-payloads of `subs` from index `i` on, each with its length.
pub open spec fn sub_payload_bytes_from(subs: Seq<Span>, i: int) -> Seq<u8>
    decreases subs.len() - i,
{
    if i < 0 || i >= subs.len() {
        Seq::empty()
    } else {
        seq![subs[i].bytes().len() as u8] + (subs[i].bytes() + sub_payload_bytes_from(subs, i + 1))
    }
}

proof fn lemma_sub_payload_split(subs: Seq<Span>, i: int)
    requires
        0 <= i <= subs.len(),
    ensures
        sub_payload_bytes(subs) == sub_payload_bytes(subs.take(i)) + sub_payload_bytes_from(subs, i),
    decreases subs.len() - i,
{
    if i == subs.len() {
        assert(subs.take(i) =~= subs);
        assert(sub_payload_bytes(subs) =~= sub_payload_bytes(subs.take(i)) + Seq::<u8>::empty());
    } else {
        lemma_sub_payload_split(subs, i + 1);
        assert(subs.take(i + 1).drop_last() =~= subs.take(i));
        let a = sub_payload_bytes(subs.take(i));
        let l = seq![subs[i].bytes().len() as u8];
        let x = subs[i].bytes();
        let f = sub_payload_bytes_from(subs, i + 1);
        assert(sub_payload_bytes(subs.take(i + 1)) == a + l + x);
        assert((a + l + x) + f =~= a + (l + (x + f)));
    }
}

/// `b` is the region `x` with its length prefix, then `t`; without a length
/// type the region runs to the end.
pub open spec fn region_encodes(b: Seq<u8>, len_type: Option<FieldType>, x: Seq<u8>, t: Seq<u8>) -> bool {
    &&& b == length_prefix(len_type, x.len()) + x + t
    &&& (len_type matches Some(ty) ==> x.len() <= u32::MAX && field_fits(ty, x.len() as u32))
    &&& (len_type is None ==> t.len() == 0)
}

/// Takes a payload region: prefixed by a field of `len_type` when one is
/// given, else the rest of the span.
fn take_region<'a>(input: Span<'a>, len_type: Option<FieldType>) -> (r: Result<(Span<'a>, Span<'a>), Error>)
    ensures
        r matches Ok((rest, region)) ==> {
            &&& splits(input, length_prefix(len_type, region.bytes().len()) + region.bytes(), rest)
            &&& within(region, input)
            &&& within(rest, input)
            &&& (len_type is None ==> rest.bytes().len() == 0)
        },
        r matches Err(e) ==> e.kind == ErrorKind::Eof,
        forall|x: Seq<u8>, t: Seq<u8>| #[trigger] region_encodes(input.bytes(), len_type, x, t)
            ==> (r matches Ok((rest, region)) && region.bytes() == x && rest.bytes() == t),
{
    match len_type {
        Some(t) => {
            proof {
                lemma_field_bytes_len(t);
            }
            let (i1, n) = t.field(input)?;
            proof {
                assert forall|x: Seq<u8>, u: Seq<u8>| #[trigger] region_encodes(input.bytes(), len_type, x, u)
                    implies n == x.len() && i1.bytes() == x + u by {
                    vstd::seq_lib::lemma_concat_associative(field_bytes(t, x.len() as u32), x, u);
                    crate::wire::lemma_cancel(input.bytes(), field_bytes(t, n), i1.bytes(), field_bytes(t, x.len() as u32), x + u);
                    lemma_field_bytes_injective(t, n, x.len() as u32);
                }
            }
            let (i2, region) = match take(i1, n as usize) {
                Ok(p) => p,
                Err(e) => {
                    return Err(e);
                },
            };
            proof {
                assert forall|x: Seq<u8>, u: Seq<u8>| #[trigger] region_encodes(input.bytes(), len_type, x, u)
                    implies region.bytes() == x && i2.bytes() == u by {
                    crate::wire::lemma_cancel(i1.bytes(), region.bytes(), i2.bytes(), x, u);
                }
                lemma_splits_within(input, field_bytes(t, n), i1);
                lemma_within_trans(region, i1, input);
                lemma_within_trans(i2, i1, input);
                lemma_splits_chain(input, field_bytes(t, n), i1, region.bytes(), i2);
                assert(region.bytes().len() as u32 == n);
            }
            Ok((i2, region))
        },
        None => {
            let n = input.len();
            let (region, rest) = input.split_at(n);
            proof {
                assert(region.bytes() =~= input.bytes());
                assert(input.bytes() =~= Seq::<u8>::empty() + region.bytes() + rest.bytes());
                assert forall|x: Seq<u8>, u: Seq<u8>| #[trigger] region_encodes(input.bytes(), len_type, x, u)
                    implies region.bytes() == x && rest.bytes() == u by {
                    assert(input.bytes() =~= x);
                    assert(rest.bytes() =~= u);
                }
            }
            Ok((rest, region))
        },
    }
}

/// The fields of a payload fit the widths its flags give them, so that
/// `payload_bytes` is what `write` of a payload format would emit.
pub open spec fn payload_wf(p: Payload, pf: PropertyFlags, len_type: Option<FieldType>) -> bool {
    match p {
        Payload::NormalPayload { stream_flags, media_object_number, offset_into_media_object, replicated_data, payload_data } => {
            &&& stream_flags.stream_number < 128
            &&& field_fits(pf.media_object_number_len_type, media_object_number)
            &&& field_fits(pf.offset_into_media_object_type, offset_into_media_object)
            &&& replicated_data.bytes().len() != 1
            &&& replicated_data.bytes().len() <= u32::MAX
            &&& field_fits(pf.replicated_data_len_type, replicated_data.bytes().len() as u32)
            &&& (len_type matches Some(ty) ==> payload_data.bytes().len() <= u32::MAX
                && field_fits(ty, payload_data.bytes().len() as u32))
        },
        Payload::CompressedPayload { stream_flags, media_object_number, presentation_time, sub_payload_data, .. } => {
            &&& stream_flags.stream_number < 128
            &&& field_fits(pf.media_object_number_len_type, media_object_number)
            &&& field_fits(pf.offset_into_media_object_type, presentation_time)
            &&& field_fits(pf.replicated_data_len_type, 1)
            &&& forall|i: int| 0 <= i < sub_payload_data@.len() ==> (#[trigger] sub_payload_data@[i]).bytes().len() <= 0xff
            &&& (len_type matches Some(ty) ==> sub_payload_bytes(sub_payload_data@).len() <= u32::MAX
                && field_fits(ty, sub_payload_bytes(sub_payload_data@).len() as u32))
        },
    }
}

/// `b` is the wire form of the well-formed payload `p`, then `t`; a payload
/// without a length type runs to the end.
pub open spec fn payload_encodes(b: Seq<u8>, p: Payload, pf: PropertyFlags, len_type: Option<FieldType>, t: Seq<u8>) -> bool {
    &&& b == payload_bytes(p, pf, len_type) + t
    &&& payload_wf(p, pf, len_type)
    &&& (len_type is None ==> t.len() == 0)
}

/// The payload fields before the replicated data or the time delta.
pub open spec fn head_bytes_of(pf: PropertyFlags, sb: u8, mon: u32, off: u32, rl: u32) -> Seq<u8> {
    seq![sb] + field_bytes(pf.media_object_number_len_type, mon)
        + field_bytes(pf.offset_into_media_object_type, off)
        + field_bytes(pf.replicated_data_len_type, rl)
}

proof fn lemma_head_fields(pf: PropertyFlags, sb: u8, mon: u32, off: u32, rl: u32, sb2: u8, mon2: u32, off2: u32, rl2: u32)
    requires
        head_bytes_of(pf, sb, mon, off, rl) == head_bytes_of(pf, sb2, mon2, off2, rl2),
        field_fits(pf.media_object_number_len_type, mon),
        field_fits(pf.offset_into_media_object_type, off),
        field_fits(pf.replicated_data_len_type, rl),
        field_fits(pf.media_object_number_len_type, mon2),
        field_fits(pf.offset_into_media_object_type, off2),
        field_fits(pf.replicated_data_len_type, rl2),
    ensures
        sb == sb2,
        mon == mon2,
        off == off2,
        rl == rl2,
{
    lemma_field_bytes_len(pf.media_object_number_len_type);
    lemma_field_bytes_len(pf.offset_into_media_object_type);
    lemma_field_bytes_len(pf.replicated_data_len_type);
    let a2 = seq![sb] + field_bytes(pf.media_object_number_len_type, mon);
    let b2 = seq![sb2] + field_bytes(pf.media_object_number_len_type, mon2);
    let a3 = a2 + field_bytes(pf.offset_into_media_object_type, off);
    let b3 = b2 + field_bytes(pf.offset_into_media_object_type, off2);
    crate::wire::lemma_cancel(head_bytes_of(pf, sb, mon, off, rl), a3, field_bytes(pf.replicated_data_len_type, rl),
        b3, field_bytes(pf.replicated_data_len_type, rl2));
    crate::wire::lemma_cancel(a3, a2, field_bytes(pf.offset_into_media_object_type, off), b2, field_bytes(pf.offset_into_media_object_type, off2));
    crate::wire::lemma_cancel(a2, seq![sb], field_bytes(pf.media_object_number_len_type, mon), seq![sb2], field_bytes(pf.media_object_number_len_type, mon2));
    assert(seq![sb][0] == seq![sb2][0]);
    lemma_field_bytes_injective(pf.media_object_number_len_type, mon, mon2);
    lemma_field_bytes_injective(pf.offset_into_media_object_type, off, off2);
    lemma_field_bytes_injective(pf.replicated_data_len_type, rl, rl2);
}

/// A normal payload encoded at the start of `b`, whose head was decoded as
/// `sb, mon, off, rl` with `rest` after it.
proof fn lemma_normal_head(b: Seq<u8>, p: Payload, pf: PropertyFlags, len_type: Option<FieldType>, t: Seq<u8>,
    sb: u8, mon: u32, off: u32, rl: u32, rest: Seq<u8>)
    requires
        p is NormalPayload,
        payload_encodes(b, p, pf, len_type, t),
        b == head_bytes_of(pf, sb, mon, off, rl) + rest,
        field_fits(pf.media_object_number_len_type, mon),
        field_fits(pf.offset_into_media_object_type, off),
        field_fits(pf.replicated_data_len_type, rl),
    ensures
        rl != 1,
        normal_tail_encodes(rest, rl, len_type, p->replicated_data.bytes(), p->payload_data.bytes(), t),
        sb == p->NormalPayload_stream_flags.spec_byte(),
        mon == p->NormalPayload_media_object_number,
        off == p->offset_into_media_object,
{
    lemma_field_bytes_len(pf.media_object_number_len_type);
    lemma_field_bytes_len(pf.offset_into_media_object_type);
    lemma_field_bytes_len(pf.replicated_data_len_type);
    let rep = p->replicated_data.bytes();
    let data = p->payload_data.bytes();
    let lp = length_prefix(len_type, data.len());
    let h = head_bytes_of(pf, p->NormalPayload_stream_flags.spec_byte(), p->NormalPayload_media_object_number,
        p->offset_into_media_object, rep.len() as u32);
    assert(payload_bytes(p, pf, len_type) == h + rep + lp + data);
    vstd::seq_lib::lemma_concat_associative(h, rep + lp, data);
    vstd::seq_lib::lemma_concat_associative(h, rep, lp);
    vstd::seq_lib::lemma_concat_associative(h, rep + lp + data, t);
    crate::wire::lemma_cancel(b, head_bytes_of(pf, sb, mon, off, rl), rest, h, rep + lp + data + t);
    lemma_head_fields(pf, sb, mon, off, rl, p->NormalPayload_stream_flags.spec_byte(), p->NormalPayload_media_object_number,
        p->offset_into_media_object, rep.len() as u32);
    assert(rest.take(rl as int) =~= rep);
    assert(rest.skip(rl as int) =~= lp + data + t);
}

/// A compressed payload encoded at the start of `b`, whose head was decoded
/// as `sb, mon, off, rl` with `rest` after it.
proof fn lemma_compressed_head(b: Seq<u8>, p: Payload, pf: PropertyFlags, len_type: Option<FieldType>, t: Seq<u8>,
    sb: u8, mon: u32, off: u32, rl: u32, rest: Seq<u8>)
    requires
        p is CompressedPayload,
        payload_encodes(b, p, pf, len_type, t),
        b == head_bytes_of(pf, sb, mon, off, rl) + rest,
        field_fits(pf.media_object_number_len_type, mon),
        field_fits(pf.offset_into_media_object_type, off),
        field_fits(pf.replicated_data_len_type, rl),
    ensures
        rl == 1,
        compressed_tail_encodes(rest, len_type, p->presentation_time_delta, p->sub_payload_data@, t),
        sb == p->CompressedPayload_stream_flags.spec_byte(),
        mon == p->CompressedPayload_media_object_number,
        off == p->presentation_time,
{
    lemma_field_bytes_len(pf.media_object_number_len_type);
    lemma_field_bytes_len(pf.offset_into_media_object_type);
    lemma_field_bytes_len(pf.replicated_data_len_type);
    let d = seq![p->presentation_time_delta];
    let sb_bytes = sub_payload_bytes(p->sub_payload_data@);
    let lp = length_prefix(len_type, sb_bytes.len());
    let h = head_bytes_of(pf, p->CompressedPayload_stream_flags.spec_byte(), p->CompressedPayload_media_object_number,
        p->presentation_time, 1);
    assert(payload_bytes(p, pf, len_type) == h + d + lp + sb_bytes);
    vstd::seq_lib::lemma_concat_associative(h, d + lp, sb_bytes);
    vstd::seq_lib::lemma_concat_associative(h, d, lp);
    vstd::seq_lib::lemma_concat_associative(h, d + lp + sb_bytes, t);
    crate::wire::lemma_cancel(b, head_bytes_of(pf, sb, mon, off, rl), rest, h, d + lp + sb_bytes + t);
    lemma_head_fields(pf, sb, mon, off, rl, p->CompressedPayload_stream_flags.spec_byte(), p->CompressedPayload_media_object_number,
        p->presentation_time, 1);
    assert(rest.skip(1) =~= lp + sb_bytes + t);
}

impl<'a> Payload<'a> {
    /// Decodes one payload. `len_type` is the payload length type of a
    /// multiple-payload packet, `None` in a single-payload one, where the
    /// payload runs to the end of the span.
    pub fn parser(input: Span<'a>, property_flags: PropertyFlags, len_type: Option<FieldType>) -> (r: Result<(Span<'a>, Payload<'a>), Error>)
        ensures
            r matches Ok((rest, p)) ==> {
                &&& splits(input, payload_bytes(p, property_flags, len_type), rest)
                &&& payload_kind_ok(p)
                &&& payload_within(p, input)
                &&& (len_type is None ==> rest.bytes().len() == 0)
            },
            r matches Err(e) ==> e.kind == ErrorKind::Eof,
            forall|p: Payload, t: Seq<u8>| #[trigger] payload_encodes(input.bytes(), p, property_flags, len_type, t)
                ==> (r matches Ok((rest, q)) && payload_bytes(q, property_flags, len_type) == payload_bytes(p, property_flags, len_type)),
    {
        match Self::parse_fields(input, property_flags, len_type) {
            Ok(x) => Ok(x),
            Err(e) => Err(e.add_context(Context::Payload)),
        }
    }

    fn parse_fields(input: Span<'a>, pf: PropertyFlags, len_type: Option<FieldType>) -> (r: Result<(Span<'a>, Payload<'a>), Error>)
        ensures
            r matches Ok((rest, p)) ==> {
                &&& splits(input, payload_bytes(p, pf, len_type), rest)
                &&& payload_kind_ok(p)
                &&& payload_within(p, input)
                &&& (len_type is None ==> rest.bytes().len() == 0)
            },
            r matches Err(e) ==> e.kind == ErrorKind::Eof,            forall|p: Payload, t: Seq<u8>| #[trigger] payload_encodes(input.bytes(), p, pf, len_type, t)
                ==> (r matches Ok((rest, q)) && payload_bytes(q, pf, len_type) == payload_bytes(p, pf, len_type)),
    {
        proof {
            lemma_field_bytes_len(pf.media_object_number_len_type);
            lemma_field_bytes_len(pf.offset_into_media_object_type);
            lemma_field_bytes_len(pf.replicated_data_len_type);
            assert forall|p: Payload, t: Seq<u8>| #[trigger] payload_encodes(input.bytes(), p, pf, len_type, t)
                implies input.bytes().len() >= 1 + field_width(pf.media_object_number_len_type)
                    + field_width(pf.offset_into_media_object_type) + field_width(pf.replicated_data_len_type) by {
                match p {
                    Payload::NormalPayload { .. } => {},
                    Payload::CompressedPayload { .. } => {},
                }
            }
        }
        let (i1, sfb) = read_u8(input)?;
        let stream_flags = StreamFlags::parse(sfb);
        let (i2, media_object_number) = pf.media_object_number_len_type.field(i1)?;
        let (i3, time_or_offset) = pf.offset_into_media_object_type.field(i2)?;
        let (i4, replicated_data_len) = pf.replicated_data_len_type.field(i3)?;
        let ghost s1 = seq![sfb];
        let ghost s2 = s1 + field_bytes(pf.media_object_number_len_type, media_object_number);
        let ghost s3 = s2 + field_bytes(pf.offset_into_media_object_type, time_or_offset);
        let ghost s4 = s3 + field_bytes(pf.replicated_data_len_type, replicated_data_len);
        proof {
            lemma_splits_chain(input, s1, i1, field_bytes(pf.media_object_number_len_type, media_object_number), i2);
            lemma_splits_chain(input, s2, i2, field_bytes(pf.offset_into_media_object_type, time_or_offset), i3);
            lemma_splits_chain(input, s3, i3, field_bytes(pf.replicated_data_len_type, replicated_data_len), i4);
            lemma_splits_within(input, s4, i4);
        }
        if replicated_data_len == 1 {
            let (i6, presentation_time_delta, sub_payload_data) = match parse_compressed_tail(i4, len_type) {
                Ok(x) => x,
                Err(e) => {
                    proof {
                        assert forall|p: Payload, t: Seq<u8>| #[trigger] payload_encodes(input.bytes(), p, pf, len_type, t) implies false by {
                            if p is NormalPayload {
                                lemma_normal_head(input.bytes(), p, pf, len_type, t, sfb, media_object_number, time_or_offset, replicated_data_len, i4.bytes());
                            } else {
                                lemma_compressed_head(input.bytes(), p, pf, len_type, t, sfb, media_object_number, time_or_offset, replicated_data_len, i4.bytes());
                            }
                        }
                    }
                    return Err(e);
                },
            };
            let p = Payload::CompressedPayload {
                stream_flags,
                media_object_number,
                presentation_time: time_or_offset,
                presentation_time_delta,
                sub_payload_data,
            };
            proof {
                let t = seq![presentation_time_delta] + length_prefix(len_type, sub_payload_bytes(p->sub_payload_data@).len())
                    + sub_payload_bytes(p->sub_payload_data@);
                let a = seq![presentation_time_delta];
                let b = length_prefix(len_type, sub_payload_bytes(p->sub_payload_data@).len());
                let c = sub_payload_bytes(p->sub_payload_data@);
                lemma_splits_chain(input, s4, i4, t, i6);
                vstd::seq_lib::lemma_concat_associative(s4, a + b, c);
                vstd::seq_lib::lemma_concat_associative(s4, a, b);
                assert(s4 + t == payload_bytes(p, pf, len_type));
                assert forall|i: int| 0 <= i < p->sub_payload_data@.len() implies within(#[trigger] p->sub_payload_data@[i], input) by {
                    lemma_within_trans(p->sub_payload_data@[i], i4, input);
                }
                assert forall|w: Payload, u: Seq<u8>| #[trigger] payload_encodes(input.bytes(), w, pf, len_type, u)
                    implies payload_bytes(p, pf, len_type) == payload_bytes(w, pf, len_type) by {
                    if w is NormalPayload {
                        lemma_normal_head(input.bytes(), w, pf, len_type, u, sfb, media_object_number, time_or_offset, replicated_data_len, i4.bytes());
                    } else {
                        lemma_compressed_head(input.bytes(), w, pf, len_type, u, sfb, media_object_number, time_or_offset, replicated_data_len, i4.bytes());
                        assert(compressed_tail_encodes(i4.bytes(), len_type, w->presentation_time_delta, w->sub_payload_data@, u));
                    }
                }
            }
            Ok((i6, p))
        } else {
            let (i6, replicated_data, payload_data) = match parse_normal_tail(i4, replicated_data_len, len_type) {
                Ok(x) => x,
                Err(e) => {
                    proof {
                        assert forall|p: Payload, t: Seq<u8>| #[trigger] payload_encodes(input.bytes(), p, pf, len_type, t) implies false by {
                            if p is NormalPayload {
                                lemma_normal_head(input.bytes(), p, pf, len_type, t, sfb, media_object_number, time_or_offset, replicated_data_len, i4.bytes());
                            } else {
                                lemma_compressed_head(input.bytes(), p, pf, len_type, t, sfb, media_object_number, time_or_offset, replicated_data_len, i4.bytes());
                            }
                        }
                    }
                    return Err(e);
                },
            };
            let p = Payload::NormalPayload {
                stream_flags,
                media_object_number,
                offset_into_media_object: time_or_offset,
                replicated_data,
                payload_data,
            };
            proof {
                let t = replicated_data.bytes() + length_prefix(len_type, payload_data.bytes().len()) + payload_data.bytes();
                let a = replicated_data.bytes();
                let b = length_prefix(len_type, payload_data.bytes().len());
                let c = payload_data.bytes();
                lemma_splits_chain(input, s4, i4, t, i6);
                vstd::seq_lib::lemma_concat_associative(s4, a + b, c);
                vstd::seq_lib::lemma_concat_associative(s4, a, b);
                assert(s4 + t == payload_bytes(p, pf, len_type));
                lemma_within_trans(replicated_data, i4, input);
                lemma_within_trans(payload_data, i4, input);
                assert forall|w: Payload, u: Seq<u8>| #[trigger] payload_encodes(input.bytes(), w, pf, len_type, u)
                    implies payload_bytes(p, pf, len_type) == payload_bytes(w, pf, len_type) by {
                    if w is NormalPayload {
                        lemma_normal_head(input.bytes(), w, pf, len_type, u, sfb, media_object_number, time_or_offset, replicated_data_len, i4.bytes());
                        assert(normal_tail_encodes(i4.bytes(), replicated_data_len, len_type, w->replicated_data.bytes(), w->payload_data.bytes(), u));
                    } else {
                        lemma_compressed_head(input.bytes(), w, pf, len_type, u, sfb, media_object_number, time_or_offset, replicated_data_len, i4.bytes());
                    }
                }
            }
            Ok((i6, p))
        }
    }
}

/// `b` is a presentation time delta byte, then the sub-payloads `subs` as a
/// region of the payload length type, then `t`.
pub open spec fn compressed_tail_encodes(b: Seq<u8>, len_type: Option<FieldType>, delta: u8, subs: Seq<Span>, t: Seq<u8>) -> bool {
    &&& 1 <= b.len()
    &&& b[0] == delta
    &&& region_encodes(b.skip(1), len_type, sub_payload_bytes(subs), t)
    &&& forall|i: int| 0 <= i < subs.len() ==> (#[trigger] subs[i]).bytes().len() <= 0xff
}

/// `b` is `rep_len` bytes of replicated data `rep`, then the payload data
/// `data` as a region of the payload length type, then `t`.
pub open spec fn normal_tail_encodes(b: Seq<u8>, rep_len: u32, len_type: Option<FieldType>, rep: Seq<u8>, data: Seq<u8>, t: Seq<u8>) -> bool {
    &&& rep.len() == rep_len
    &&& rep_len <= b.len()
    &&& b.take(rep_len as int) == rep
    &&& region_encodes(b.skip(rep_len as int), len_type, data, t)
}

/// The part of a compressed payload after its replicated data length.
fn parse_compressed_tail<'a>(input: Span<'a>, len_type: Option<FieldType>) -> (r: Result<(Span<'a>, u8, Vec<Span<'a>>), Error>)
    ensures
        r matches Ok((rest, delta, subs)) ==> {
            &&& splits(input, seq![delta] + length_prefix(len_type, sub_payload_bytes(subs@).len()) + sub_payload_bytes(subs@), rest)
            &&& forall|i: int| 0 <= i < subs@.len() ==> within(#[trigger] subs@[i], input)
            &&& forall|i: int| 0 <= i < subs@.len() ==> (#[trigger] subs@[i]).bytes().len() <= 0xff
            &&& (len_type is None ==> rest.bytes().len() == 0)
        },
        r matches Err(e) ==> e.kind == ErrorKind::Eof,
        forall|delta: u8, subs: Seq<Span>, t: Seq<u8>| #[trigger] compressed_tail_encodes(input.bytes(), len_type, delta, subs, t)
            ==> (r matches Ok((rest, d, v)) && d == delta && sub_payload_bytes(v@) == sub_payload_bytes(subs) && rest.bytes() == t),
{
    let (i5, delta) = read_u8(input)?;
    proof {
        assert forall|dl: u8, ss: Seq<Span>, t: Seq<u8>| #[trigger] compressed_tail_encodes(input.bytes(), len_type, dl, ss, t)
            implies delta == dl && region_encodes(i5.bytes(), len_type, sub_payload_bytes(ss), t) by {
            assert(input.bytes()[0] == delta);
            assert(i5.bytes() =~= input.bytes().skip(1));
        }
    }
    let (i6, region) = take_region(i5, len_type)?;
    let subs = match parse_sub_payloads(region) {
        Ok(v) => v,
        Err(e) => {
            proof {
                assert forall|dl: u8, ss: Seq<Span>, t: Seq<u8>| #[trigger] compressed_tail_encodes(input.bytes(), len_type, dl, ss, t)
                    implies false by {
                    assert(region_encodes(i5.bytes(), len_type, sub_payload_bytes(ss), t));
                    assert(sub_payloads_encode(region.bytes(), ss));
                }
            }
            return Err(e);
        },
    };
    proof {
        assert forall|dl: u8, ss: Seq<Span>, t: Seq<u8>| #[trigger] compressed_tail_encodes(input.bytes(), len_type, dl, ss, t)
            implies sub_payload_bytes(subs@) == sub_payload_bytes(ss) && i6.bytes() == t by {
            assert(region_encodes(i5.bytes(), len_type, sub_payload_bytes(ss), t));
        }
    }
    proof {
        lemma_splits_chain(input, seq![delta], i5, length_prefix(len_type, region.bytes().len()) + region.bytes(), i6);
        assert(seq![delta] + (length_prefix(len_type, region.bytes().len()) + region.bytes())
            =~= seq![delta] + length_prefix(len_type, region.bytes().len()) + region.bytes());
        lemma_splits_within(input, seq![delta], i5);
        lemma_within_trans(region, i5, input);
        assert forall|i: int| 0 <= i < subs@.len() implies within(#[trigger] subs@[i], input) by {
            lemma_within_trans(subs@[i], region, input);
        }
    }
    Ok((i6, delta, subs))
}

/// The part of a normal payload after its replicated data length.
fn parse_normal_tail<'a>(input: Span<'a>, replicated_data_len: u32, len_type: Option<FieldType>) -> (r: Result<(Span<'a>, Span<'a>, Span<'a>), Error>)
    ensures
        r matches Ok((rest, rep, data)) ==> {
            &&& splits(input, rep.bytes() + length_prefix(len_type, data.bytes().len()) + data.bytes(), rest)
            &&& rep.bytes().len() == replicated_data_len
            &&& within(rep, input)
            &&& within(data, input)
            &&& (len_type is None ==> rest.bytes().len() == 0)
        },
        r matches Err(e) ==> e.kind == ErrorKind::Eof,
        forall|rp: Seq<u8>, dt: Seq<u8>, t: Seq<u8>| #[trigger] normal_tail_encodes(input.bytes(), replicated_data_len, len_type, rp, dt, t)
            ==> (r matches Ok((rest, rep, data)) && rep.bytes() == rp && data.bytes() == dt && rest.bytes() == t),
{
    let (i5, rep) = match take(input, replicated_data_len as usize) {
        Ok(p) => p,
        Err(e) => {
            return Err(e);
        },
    };
    proof {
        assert forall|rp: Seq<u8>, dt: Seq<u8>, t: Seq<u8>| #[trigger] normal_tail_encodes(input.bytes(), replicated_data_len, len_type, rp, dt, t)
            implies rep.bytes() == rp && region_encodes(i5.bytes(), len_type, dt, t) by {
            assert(i5.bytes() =~= input.bytes().skip(replicated_data_len as int));
        }
    }
    let (i6, data) = match take_region(i5, len_type) {
        Ok(p) => p,
        Err(e) => {
            return Err(e);
        },
    };
    proof {
        lemma_splits_chain(input, rep.bytes(), i5, length_prefix(len_type, data.bytes().len()) + data.bytes(), i6);
        assert(rep.bytes() + (length_prefix(len_type, data.bytes().len()) + data.bytes())
            =~= rep.bytes() + length_prefix(len_type, data.bytes().len()) + data.bytes());
        lemma_within_trans(data, i5, input);
    }
    Ok((i6, rep, data))
}

impl<'a> PayloadData<'a> {
    /// Decodes the payloads of a packet from its raw payload region.
    pub fn parser(input: Span<'a>, multiple: MultiplePayloadsFlag, property_flags: PropertyFlags) -> (r: Result<(Span<'a>, PayloadData<'a>), Error>)
        ensures
            r matches Ok((rest, pd)) ==> {
                &&& payload_data_decodes(pd, property_flags, input.bytes())
                &&& payload_data_within(pd, input)
                &&& (pd is SinglePayload <==> multiple == MultiplePayloadsFlag::SinglePayload)
            },
            r matches Err(e) ==> e.kind == ErrorKind::Eof,
            multiple == MultiplePayloadsFlag::SinglePayload ==> forall|p: Payload|
                #[trigger] payload_encodes(input.bytes(), p, property_flags, None, Seq::empty()) ==> r is Ok,
            multiple == MultiplePayloadsFlag::MultiplePayloads ==> forall|fl: PayloadFlags, ps: Seq<Payload>, tt: Seq<u8>|
                #[trigger] multi_encodes(input.bytes(), fl, ps, property_flags, tt) ==> r is Ok,
    {
        match multiple {
            MultiplePayloadsFlag::SinglePayload => Self::parser_single(input, property_flags),
            MultiplePayloadsFlag::MultiplePayloads => Self::parser_multi(input, property_flags),
        }
    }

    /// One payload that runs to the end of the region.
    pub fn parser_single(input: Span<'a>, property_flags: PropertyFlags) -> (r: Result<(Span<'a>, PayloadData<'a>), Error>)
        ensures
            r matches Ok((rest, pd)) ==> {
                &&& payload_data_decodes(pd, property_flags, input.bytes())
                &&& payload_data_within(pd, input)
                &&& pd is SinglePayload
                &&& rest.bytes().len() == 0
            },
            r matches Err(e) ==> e.kind == ErrorKind::Eof,
            forall|p: Payload| #[trigger] payload_encodes(input.bytes(), p, property_flags, None, Seq::empty())
                ==> r is Ok,
    {
        let (rest, p) = match Payload::parser(input, property_flags, None) {
            Ok(x) => x,
            Err(e) => {
                proof {
                    assert forall|q: Payload| #[trigger] payload_encodes(input.bytes(), q, property_flags, None, Seq::empty())
                        implies false by {
                        assert(payload_encodes(input.bytes(), q, property_flags, None, Seq::<u8>::empty()));
                    }
                }
                return Err(e);
            },
        };
        proof {
            assert(input.bytes() =~= payload_bytes(p, property_flags, None));
        }
        Ok((rest, PayloadData::SinglePayload(p)))
    }

    /// A payload flags byte, then as many payloads as it counts, each with a
    /// length field of the type it names.
    pub fn parser_multi(input: Span<'a>, property_flags: PropertyFlags) -> (r: Result<(Span<'a>, PayloadData<'a>), Error>)
        ensures
            r matches Ok((rest, pd)) ==> {
                &&& payload_data_decodes(pd, property_flags, input.bytes())
                &&& payload_data_within(pd, input)
                &&& pd is MultiplePayloads
            },
            r matches Err(e) ==> e.kind == ErrorKind::Eof,
            forall|flags: PayloadFlags, ps: Seq<Payload>, t: Seq<u8>| #[trigger] multi_encodes(input.bytes(), flags, ps, property_flags, t)
                ==> r is Ok,
    {
        let (i1, b) = read_u8(input)?;
        let flags = PayloadFlags::parse(b);
        let n = flags.number_of_payloads;
        let ghost lt = flags.payload_len_type;
        proof {
            assert forall|fl: PayloadFlags, ps: Seq<Payload>, t: Seq<u8>| #[trigger] multi_encodes(input.bytes(), fl, ps, property_flags, t)
                implies fl == flags && i1.bytes() == payload_list_bytes_from(ps, property_flags, lt, 0) + t by {
                assert(input.bytes()[0] == b);
                assert((seq![fl.spec_byte()] + payload_list_bytes(ps, property_flags, fl.payload_len_type) + t)[0] == fl.spec_byte());
                lemma_payload_flags_injective(fl, flags);
                lemma_payload_list_split(ps, property_flags, lt, 0);
                assert(ps.take(0).len() == 0);
                assert(i1.bytes() =~= input.bytes().skip(1));
                assert(input.bytes().skip(1) =~= payload_list_bytes_from(ps, property_flags, lt, 0) + t);
            }
        }
        let mut payloads: Vec<Payload<'a>> = Vec::new();
        let mut cur = i1;
        let mut k: u8 = 0;
        proof {
            lemma_splits_within(input, seq![b], i1);
            assert(i1.bytes() =~= Seq::<u8>::empty() + cur.bytes());
        }
        while k < n
            invariant
                k <= n,
                n == flags.number_of_payloads,
                lt == flags.payload_len_type,
                payloads@.len() == k,
                splits(i1, payload_list_bytes(payloads@, property_flags, flags.payload_len_type), cur),
                within(i1, input),
                within(cur, input),
                forall|i: int| 0 <= i < payloads@.len() ==> payload_within(#[trigger] payloads@[i], input),
                forall|i: int| 0 <= i < payloads@.len() ==> payload_kind_ok(#[trigger] payloads@[i]),
                forall|fl: PayloadFlags, ps: Seq<Payload>, t: Seq<u8>| #[trigger] multi_encodes(input.bytes(), fl, ps, property_flags, t)
                    ==> fl == flags && cur.bytes() == payload_list_bytes_from(ps, property_flags, lt, k as int) + t,
            decreases n - k,
        {
            let ghost before = cur;
            let (next, p) = match Payload::parser(cur, property_flags, Some(flags.payload_len_type)) {
                Ok(x) => x,
                Err(e) => {
                    proof {
                        assert forall|fl: PayloadFlags, ps: Seq<Payload>, t: Seq<u8>| #[trigger] multi_encodes(input.bytes(), fl, ps, property_flags, t)
                            implies false by {
                            lemma_payload_list_from_step(ps, property_flags, lt, k as int, t);
                            assert(payload_encodes(before.bytes(), ps[k as int], property_flags, Some(lt),
                                payload_list_bytes_from(ps, property_flags, lt, k + 1) + t));
                        }
                    }
                    return Err(e);
                },
            };
            proof {
                lemma_splits_chain(i1, payload_list_bytes(payloads@, property_flags, flags.payload_len_type), cur,
                    payload_bytes(p, property_flags, Some(flags.payload_len_type)), next);
                assert(payloads@.push(p).drop_last() =~= payloads@);
                lemma_splits_within(cur, payload_bytes(p, property_flags, Some(flags.payload_len_type)), next);
                lemma_within_trans(next, cur, input);
                lemma_payload_within_trans(p, cur, input);
                assert forall|fl: PayloadFlags, ps: Seq<Payload>, t: Seq<u8>| #[trigger] multi_encodes(input.bytes(), fl, ps, property_flags, t)
                    implies next.bytes() == payload_list_bytes_from(ps, property_flags, lt, k + 1) + t by {
                    lemma_payload_list_from_step(ps, property_flags, lt, k as int, t);
                    assert(payload_encodes(before.bytes(), ps[k as int], property_flags, Some(lt),
                        payload_list_bytes_from(ps, property_flags, lt, k + 1) + t));
                    crate::wire::lemma_cancel(before.bytes(), payload_bytes(p, property_flags, Some(lt)), next.bytes(),
                        payload_bytes(ps[k as int], property_flags, Some(lt)), payload_list_bytes_from(ps, property_flags, lt, k + 1) + t);
                }
            }
            payloads.push(p);
            cur = next;
            k = k + 1;
        }
        let ghost list = payload_list_bytes(payloads@, property_flags, flags.payload_len_type);
        proof {
            lemma_splits_chain(input, seq![b], i1, list, cur);
            assert((seq![flags.spec_byte()] + list) =~= input.bytes().subrange(0, (seq![flags.spec_byte()] + list).len() as int));
        }
        Ok((cur, PayloadData::MultiplePayloads(payloads)))
    }
}

/// `b` is a payload flags byte, then the well-formed payloads `ps` it counts,
/// each with a length of the type it names, then `t`.
pub open spec fn multi_encodes(b: Seq<u8>, flags: PayloadFlags, ps: Seq<Payload>, pf: PropertyFlags, t: Seq<u8>) -> bool {
    &&& b == seq![flags.spec_byte()] + payload_list_bytes(ps, pf, flags.payload_len_type) + t
    &&& flags.number_of_payloads == ps.len()
    &&& flags.number_of_payloads < 64
    &&& forall|i: int| 0 <= i < ps.len() ==> payload_wf(#[trigger] ps[i], pf, Some(flags.payload_len_type))
}

/// The payloads of `ps` from index `i` on.
pub open spec fn payload_list_bytes_from(ps: Seq<Payload>, pf: PropertyFlags, len_type: FieldType, i: int) -> Seq<u8>
    decreases ps.len() - i,
{
    if i < 0 || i >= ps.len() {
        Seq::empty()
    } else {
        payload_bytes(ps[i], pf, Some(len_type)) + payload_list_bytes_from(ps, pf, len_type, i + 1)
    }
}

proof fn lemma_payload_list_split(ps: Seq<Payload>, pf: PropertyFlags, len_type: FieldType, i: int)
    requires
        0 <= i <= ps.len(),
    ensures
        payload_list_bytes(ps, pf, len_type) == payload_list_bytes(ps.take(i), pf, len_type) + payload_list_bytes_from(ps, pf, len_type, i),
    decreases ps.len() - i,
{
    if i == ps.len() {
        assert(ps.take(i) =~= ps);
        assert(payload_list_bytes(ps, pf, len_type) =~= payload_list_bytes(ps.take(i), pf, len_type) + Seq::<u8>::empty());
    } else {
        lemma_payload_list_split(ps, pf, len_type, i + 1);
        assert(ps.take(i + 1).drop_last() =~= ps.take(i));
        vstd::seq_lib::lemma_concat_associative(payload_list_bytes(ps.take(i), pf, len_type),
            payload_bytes(ps[i], pf, Some(len_type)), payload_list_bytes_from(ps, pf, len_type, i + 1));
    }
}

proof fn lemma_payload_list_from_step(ps: Seq<Payload>, pf: PropertyFlags, len_type: FieldType, i: int, t: Seq<u8>)
    requires
        0 <= i < ps.len(),
    ensures
        payload_list_bytes_from(ps, pf, len_type, i) + t
            == payload_bytes(ps[i], pf, Some(len_type)) + (payload_list_bytes_from(ps, pf, len_type, i + 1) + t),
{
    vstd::seq_lib::lemma_concat_associative(payload_bytes(ps[i], pf, Some(len_type)), payload_list_bytes_from(ps, pf, len_type, i + 1), t);
}

proof fn lemma_payload_flags_injective(a: PayloadFlags, b: PayloadFlags)
    requires
        a.spec_byte() == b.spec_byte(),
        a.number_of_payloads < 64,
        b.number_of_payloads < 64,
    ensures
        a == b,
{
    let ca = field_code(a.payload_len_type);
    let cb = field_code(b.payload_len_type);
    let na = a.number_of_payloads;
    let nb = b.number_of_payloads;
    assert(ca == cb && na == nb) by (bit_vector)
        requires
            ((ca << 6u8) | na) as u8 == ((cb << 6u8) | nb) as u8,
            ca < 4, cb < 4, na < 64, nb < 64;
}

/// A data packet: an optional error-correction block, the payload parsing
/// information, the raw payload region and the payloads decoded from it.
#[derive(Debug, PartialEq, Eq)]
pub struct DataPacket<'a> {
    pub error_correction_data: Option<ErrorCorrectionData>,
    pub payload_parsing_data: PayloadParsingData,
    pub payload: PayloadData<'a>,
    pub raw_payload: Span<'a>,
}

pub open spec fn error_correction_bytes(ec: Option<ErrorCorrectionData>) -> Seq<u8> {
    match ec {
        Some(e) => e.spec_bytes(),
        None => Seq::empty(),
    }
}

impl<'a> DataPacket<'a> {
    /// The packet header: the error-correction block, if any, and the
    /// payload parsing information.
    pub open spec fn header_bytes(&self) -> Seq<u8> {
        error_correction_bytes(self.error_correction_data) + self.payload_parsing_data.spec_bytes()
    }

    /// Bytes the packet takes: header, raw payload and padding.
    pub open spec fn wire_len(&self) -> nat {
        self.header_bytes().len() + self.raw_payload.bytes().len() + self.payload_parsing_data.padding_len as nat
    }

    /// The raw payload takes what the fixed packet length leaves after header
    /// and padding when the packet declares no length, else the declared length.
    pub open spec fn raw_len_rule(&self, fixed_packet_len: u64) -> bool {
        if self.payload_parsing_data.packet_length == 0 {
            self.raw_payload.bytes().len() + self.header_bytes().len() + self.payload_parsing_data.padding_len
                == fixed_packet_len
        } else {
            self.raw_payload.bytes().len() == self.payload_parsing_data.packet_length
        }
    }

    /// What a successful decode of `input` into this packet guarantees.
    pub open spec fn decoded_from(&self, input: Span, fixed_packet_len: u64, rest: Span) -> bool {
        &&& input.bytes().len() > 0
        &&& (self.error_correction_data is Some <==> input.bytes()[0] >= 0x80)
        &&& input.bytes().take(self.header_bytes().len() as int) == self.header_bytes()
        &&& self.raw_payload.start() == input.start() + self.header_bytes().len()
        &&& within(self.raw_payload, input)
        &&& self.raw_len_rule(fixed_packet_len)
        &&& self.wire_len() <= input.bytes().len()
        &&& splits(input, input.bytes().take(self.wire_len() as int), rest)
        &&& payload_data_decodes(self.payload, self.payload_parsing_data.property_flags, self.raw_payload.bytes())
        &&& (self.payload is SinglePayload <==> self.payload_parsing_data.length_type_flags.multiple_payloads_present
            == MultiplePayloadsFlag::SinglePayload)
        &&& payload_data_within(self.payload, self.raw_payload)
    }

    /// Decodes one packet of a data object whose packets are
    /// `fixed_packet_len` bytes long.
    pub fn parser(input: Span<'a>, fixed_packet_len: u64) -> (r: Result<(Span<'a>, DataPacket<'a>), Error>)
        ensures
            r matches Ok((rest, pkt)) ==> pkt.decoded_from(input, fixed_packet_len, rest),
            r matches Err(e) ==> e.kind == ErrorKind::Eof,
            forall|ec: Option<ErrorCorrectionData>, pp: PayloadParsingData, raw: Seq<u8>, pad: Seq<u8>, t: Seq<u8>|
                #[trigger] packet_encodes(input.bytes(), fixed_packet_len, ec, pp, raw, pad, t)
                ==> (r matches Ok((rest, pkt)) && rest.bytes() == t),
    {
        match Self::parse_fields(input, fixed_packet_len) {
            Ok(x) => Ok(x),
            Err(e) => Err(e.add_context(Context::DataPacket)),
        }
    }

    /// The error-correction block, if the first byte announces one, and the
    /// payload parsing information.
    #[verifier::rlimit(60)]
    fn parse_header(input: Span<'a>) -> (r: Result<(Span<'a>, Option<ErrorCorrectionData>, PayloadParsingData), Error>)
        ensures
            r matches Ok((rest, ec, pp)) ==> {
                &&& splits(input, error_correction_bytes(ec) + pp.spec_bytes(), rest)
                &&& input.bytes().len() > 0
                &&& (ec is Some <==> input.bytes()[0] >= 0x80)
                &&& pp.wf()
            },
            r matches Err(e) ==> e.kind == ErrorKind::Eof,
            forall|ec: Option<ErrorCorrectionData>, pp: PayloadParsingData, t: Seq<u8>|
                #[trigger] header_encodes(input.bytes(), ec, pp, t)
                ==> (r matches Ok((rest, e2, p2)) && e2 == ec && p2 == pp && rest.bytes() == t),
    {
        proof {
            assert forall|ec: Option<ErrorCorrectionData>, pp: PayloadParsingData, t: Seq<u8>|
                #[trigger] header_encodes(input.bytes(), ec, pp, t)
                implies pp.spec_bytes().len() >= 2
                    && input.bytes()[0] == (if ec is Some { ec->Some_0.flags } else { pp.length_type_flags.spec_byte() }) by {
                assert(pp.spec_bytes()[0] == pp.length_type_flags.spec_byte());
            }
        }
        let n = input.len();
        if n == 0 {
            return Err(Error::new(ErrorKind::Eof, input.location_offset()));
        }
        let first = input.byte_at(0);
        let (i1, error_correction_data) = if first >= 0x80 {
            let (r, e) = match ErrorCorrectionData::parse(input) {
                Ok(x) => x,
                Err(err) => {
                    proof {
                        assert forall|ec: Option<ErrorCorrectionData>, pp: PayloadParsingData, t: Seq<u8>|
                            #[trigger] header_encodes(input.bytes(), ec, pp, t) implies false by {
                            assert(ec is Some);
                        }
                    }
                    return Err(err);
                },
            };
            (r, Some(e))
        } else {
            proof {
                assert(input.bytes() =~= Seq::<u8>::empty() + input.bytes());
            }
            (input, None)
        };
        proof {
            assert forall|ec: Option<ErrorCorrectionData>, pp: PayloadParsingData, t: Seq<u8>|
                #[trigger] header_encodes(input.bytes(), ec, pp, t)
                implies ec == error_correction_data && i1.bytes() == pp.spec_bytes() + t by {
                let rem = pp.spec_bytes() + t;
                if first >= 0x80 {
                    let e = ec->Some_0;
                    let v = error_correction_data->Some_0;
                    crate::wire::lemma_cancel(input.bytes(), v.spec_bytes(), i1.bytes(), e.spec_bytes(), rem);
                    assert(v.spec_bytes()[0] == e.spec_bytes()[0]);
                    assert(v.spec_bytes()[1] == e.spec_bytes()[1]);
                    assert(v.spec_bytes()[2] == e.spec_bytes()[2]);
                } else {
                    assert(input.bytes() =~= rem);
                }
            }
        }
        let (i2, pp) = match PayloadParsingData::parse(i1) {
            Ok(x) => x,
            Err(err) => {
                proof {
                    assert forall|ec: Option<ErrorCorrectionData>, pq: PayloadParsingData, t: Seq<u8>|
                        #[trigger] header_encodes(input.bytes(), ec, pq, t) implies false by {
                        assert(payload_parsing_encodes(i1.bytes(), pq, t));
                    }
                }
                return Err(err);
            },
        };
        proof {
            lemma_splits_chain(input, error_correction_bytes(error_correction_data), i1, pp.spec_bytes(), i2);
            assert forall|ec: Option<ErrorCorrectionData>, pq: PayloadParsingData, t: Seq<u8>|
                #[trigger] header_encodes(input.bytes(), ec, pq, t)
                implies pq == pp && i2.bytes() == t by {
                assert(payload_parsing_encodes(i1.bytes(), pq, t));
                crate::wire::lemma_cancel(i1.bytes(), pp.spec_bytes(), i2.bytes(), pq.spec_bytes(), t);
            }
        }
        Ok((i2, error_correction_data, pp))
    }

    #[verifier::rlimit(100)]
    fn parse_fields(input: Span<'a>, fixed_packet_len: u64) -> (r: Result<(Span<'a>, DataPacket<'a>), Error>)
        ensures
            r matches Ok((rest, pkt)) ==> pkt.decoded_from(input, fixed_packet_len, rest),
            r matches Err(e) ==> e.kind == ErrorKind::Eof,
            forall|ec: Option<ErrorCorrectionData>, pp: PayloadParsingData, raw: Seq<u8>, pad: Seq<u8>, t: Seq<u8>|
                #[trigger] packet_encodes(input.bytes(), fixed_packet_len, ec, pp, raw, pad, t)
                ==> (r matches Ok((rest, pkt)) && rest.bytes() == t),
    {
        proof {
            assert forall|ec: Option<ErrorCorrectionData>, pp: PayloadParsingData, raw: Seq<u8>, pad: Seq<u8>, t: Seq<u8>|
                #[trigger] packet_encodes(input.bytes(), fixed_packet_len, ec, pp, raw, pad, t)
                implies header_encodes(input.bytes(), ec, pp, raw + (pad + t)) by {
                let e = error_correction_bytes(ec);
                let q = pp.spec_bytes();
                vstd::seq_lib::lemma_concat_associative(e + q + raw, pad, t);
                vstd::seq_lib::lemma_concat_associative(e + q, raw, pad + t);
                vstd::seq_lib::lemma_concat_associative(e, q, raw + (pad + t));
            }
        }
        let n = input.len();
        let (i2, error_correction_data, pp) = match Self::parse_header(input) {
            Ok(x) => x,
            Err(err) => {
                return Err(err);
            },
        };
        proof {
            assert forall|ec: Option<ErrorCorrectionData>, pq: PayloadParsingData, raw: Seq<u8>, pad: Seq<u8>, t: Seq<u8>|
                #[trigger] packet_encodes(input.bytes(), fixed_packet_len, ec, pq, raw, pad, t)
                implies ec == error_correction_data && pq == pp && i2.bytes() == raw + (pad + t) by {
                assert(header_encodes(input.bytes(), ec, pq, raw + (pad + t)));
            }
        }
        let ghost hdr = error_correction_bytes(error_correction_data) + pp.spec_bytes();
        let header_len = n - i2.len();
        let raw_len: u64 = if pp.packet_length == 0 {
            if fixed_packet_len < header_len as u64 || fixed_packet_len - (header_len as u64) < pp.padding_len as u64 {
                return Err(Error::new(ErrorKind::Eof, i2.location_offset()));
            }
            fixed_packet_len - header_len as u64 - pp.padding_len as u64
        } else {
            pp.packet_length as u64
        };
        let (i3, raw) = match take_u64(i2, raw_len) {
            Ok(x) => x,
            Err(err) => {
                return Err(err);
            },
        };
        proof {
            assert forall|ec: Option<ErrorCorrectionData>, pq: PayloadParsingData, rw: Seq<u8>, pad: Seq<u8>, t: Seq<u8>|
                #[trigger] packet_encodes(input.bytes(), fixed_packet_len, ec, pq, rw, pad, t)
                implies raw.bytes() == rw && i3.bytes() == pad + t by {
                crate::wire::lemma_cancel(i2.bytes(), raw.bytes(), i3.bytes(), rw, pad + t);
            }
        }
        let (_, payload) = match PayloadData::parser(raw, pp.length_type_flags.multiple_payloads_present, pp.property_flags) {
            Ok(x) => x,
            Err(err) => {
                proof {
                    assert forall|ec: Option<ErrorCorrectionData>, pq: PayloadParsingData, rw: Seq<u8>, pad: Seq<u8>, t: Seq<u8>|
                        #[trigger] packet_encodes(input.bytes(), fixed_packet_len, ec, pq, rw, pad, t) implies false by {
                        if pp.length_type_flags.multiple_payloads_present == MultiplePayloadsFlag::SinglePayload {
                            let p = choose|p: Payload| #[trigger] payload_encodes(rw, p, pp.property_flags, None, Seq::empty());
                            assert(payload_encodes(raw.bytes(), p, pp.property_flags, None, Seq::empty()));
                        } else {
                            let (fl, ps, tt) = choose|fl: PayloadFlags, ps: Seq<Payload>, tt: Seq<u8>|
                                #[trigger] multi_encodes(rw, fl, ps, pp.property_flags, tt);
                            assert(multi_encodes(raw.bytes(), fl, ps, pp.property_flags, tt));
                        }
                    }
                }
                return Err(err);
            },
        };
        let (i4, pad) = match take(i3, pp.padding_len as usize) {
            Ok(x) => x,
            Err(err) => {
                return Err(err);
            },
        };
        let pkt = DataPacket {
            error_correction_data,
            payload_parsing_data: pp,
            payload,
            raw_payload: raw,
        };
        proof {
            assert forall|ec: Option<ErrorCorrectionData>, pq: PayloadParsingData, rw: Seq<u8>, pd: Seq<u8>, t: Seq<u8>|
                #[trigger] packet_encodes(input.bytes(), fixed_packet_len, ec, pq, rw, pd, t)
                implies i4.bytes() == t by {
                crate::wire::lemma_cancel(i3.bytes(), pad.bytes(), i4.bytes(), pd, t);
            }
            lemma_splits_chain(input, hdr, i2, raw.bytes(), i3);
            lemma_splits_chain(input, hdr + raw.bytes(), i3, pad.bytes(), i4);
            assert(hdr == pkt.header_bytes());
            assert(input.bytes().take(hdr.len() as int) =~= hdr);
            assert(input.bytes().take(pkt.wire_len() as int) =~= hdr + raw.bytes() + pad.bytes());
            lemma_splits_within(input, hdr, i2);
            lemma_within_trans(raw, i2, input);
        }
        Ok((i4, pkt))
    }
}

/// `b` is the error-correction block `ec` (present exactly when the first
/// byte has its top bit set) and the well-formed payload parsing information
/// `pp`, then `t`.
pub open spec fn header_encodes(b: Seq<u8>, ec: Option<ErrorCorrectionData>, pp: PayloadParsingData, t: Seq<u8>) -> bool {
    &&& b == error_correction_bytes(ec) + (pp.spec_bytes() + t)
    &&& (ec matches Some(e) ==> e.flags >= 0x80)
    &&& (ec is None ==> pp.length_type_flags.spec_byte() < 0x80)
    &&& pp.wf()
}

/// The raw payload `raw` decodes under the flags of `pp`: one payload running
/// to its end, or a payload flags byte and the payloads it counts.
pub open spec fn payload_region_decodable(raw: Seq<u8>, pp: PayloadParsingData) -> bool {
    if pp.length_type_flags.multiple_payloads_present == MultiplePayloadsFlag::SinglePayload {
        exists|p: Payload| #[trigger] payload_encodes(raw, p, pp.property_flags, None, Seq::empty())
    } else {
        exists|fl: PayloadFlags, ps: Seq<Payload>, tt: Seq<u8>| #[trigger] multi_encodes(raw, fl, ps, pp.property_flags, tt)
    }
}

/// `b` is a packet of a data object with packets of `fixed_packet_len` bytes:
/// the error-correction block `ec` (present exactly when the first byte has
/// its top bit set), the payload parsing information `pp`, the raw payload
/// `raw` of the length the rules give and decodable under `pp`'s flags, and
/// `pad` padding bytes; then `t`.
pub open spec fn packet_encodes(b: Seq<u8>, fixed_packet_len: u64, ec: Option<ErrorCorrectionData>, pp: PayloadParsingData,
    raw: Seq<u8>, pad: Seq<u8>, t: Seq<u8>) -> bool {
    &&& b == error_correction_bytes(ec) + pp.spec_bytes() + raw + pad + t
    &&& (ec matches Some(e) ==> e.flags >= 0x80)
    &&& (ec is None ==> pp.length_type_flags.spec_byte() < 0x80)
    &&& pp.wf()
    &&& if pp.packet_length == 0 {
        raw.len() + error_correction_bytes(ec).len() + pp.spec_bytes().len() + pp.padding_len == fixed_packet_len
    } else {
        raw.len() == pp.packet_length
    }
    &&& pad.len() == pp.padding_len
    &&& payload_region_decodable(raw, pp)
}

/// Every payload, replicated-data and sub-payload span of a decoded packet
/// lies inside the span the packet was decoded from.
pub proof fn lemma_packet_spans_within_input(pkt: DataPacket, input: Span, fixed_packet_len: u64, rest: Span)
    requires
        pkt.decoded_from(input, fixed_packet_len, rest),
    ensures
        payload_data_within(pkt.payload, input),
{
    match pkt.payload {
        PayloadData::SinglePayload(p) => {
            lemma_payload_within_trans(p, pkt.raw_payload, input);
        },
        PayloadData::MultiplePayloads(ps) => {
            assert forall|i: int| 0 <= i < ps@.len() implies payload_within(#[trigger] ps@[i], input) by {
                lemma_payload_within_trans(ps@[i], pkt.raw_payload, input);
            }
        },
    }
}

pub proof fn lemma_payload_within_trans(p: Payload, a: Span, b: Span)
    requires
        payload_within(p, a),
        within(a, b),
    ensures
        payload_within(p, b),
{
    match p {
        Payload::NormalPayload { replicated_data, payload_data, .. } => {
            lemma_within_trans(replicated_data, a, b);
            lemma_within_trans(payload_data, a, b);
        },
        Payload::CompressedPayload { sub_payload_data, .. } => {
            assert forall|i: int| 0 <= i < sub_payload_data@.len() implies within(#[trigger] sub_payload_data@[i], b) by {
                lemma_within_trans(sub_payload_data@[i], a, b);
            }
        },
    }
}

proof fn lemma_field_code_injective(a: FieldType, b: FieldType)
    requires
        field_code(a) == field_code(b),
    ensures
        a == b,
{
}

pub proof fn lemma_field_type_code(t: FieldType)
    ensures
        field_type_of(field_code(t)) == t,
        field_code(t) < 4,
{
}

/// The flag byte of the payload parsing information gives back its fields.
pub proof fn lemma_length_type_flags_byte(l: LengthTypeFlags)
    ensures
        field_type_of((l.spec_byte() >> 5u8) & 3) == l.packet_len_type,
        field_type_of((l.spec_byte() >> 3u8) & 3) == l.padding_len_type,
        field_type_of((l.spec_byte() >> 1u8) & 3) == l.sequence_type,
{
    let x7 = bit_of(l.error_correction_flag == ErrorCorrectionFlag::Present);
    let x5 = field_code(l.packet_len_type);
    let x3 = field_code(l.padding_len_type);
    let x1 = field_code(l.sequence_type);
    let x0 = bit_of(l.multiple_payloads_present == MultiplePayloadsFlag::MultiplePayloads);
    lemma_field_type_code(l.packet_len_type);
    lemma_field_type_code(l.padding_len_type);
    lemma_field_type_code(l.sequence_type);
    let b = l.spec_byte();
    assert(((b >> 5u8) & 3) == x5 && ((b >> 3u8) & 3) == x3 && ((b >> 1u8) & 3) == x1) by (bit_vector)
        requires
            b == ((x7 << 7u8) | (x5 << 5u8) | (x3 << 3u8) | (x1 << 1u8) | x0) as u8,
            x7 <= 1, x5 < 4, x3 < 4, x1 < 4, x0 <= 1;
}

pub proof fn lemma_length_type_flags_injective(a: LengthTypeFlags, b: LengthTypeFlags)
    requires
        a.spec_byte() == b.spec_byte(),
    ensures
        a == b,
{
    let a7 = bit_of(a.error_correction_flag == ErrorCorrectionFlag::Present);
    let a5 = field_code(a.packet_len_type);
    let a3 = field_code(a.padding_len_type);
    let a1 = field_code(a.sequence_type);
    let a0 = bit_of(a.multiple_payloads_present == MultiplePayloadsFlag::MultiplePayloads);
    let b7 = bit_of(b.error_correction_flag == ErrorCorrectionFlag::Present);
    let b5 = field_code(b.packet_len_type);
    let b3 = field_code(b.padding_len_type);
    let b1 = field_code(b.sequence_type);
    let b0 = bit_of(b.multiple_payloads_present == MultiplePayloadsFlag::MultiplePayloads);
    assert(a7 == b7 && a5 == b5 && a3 == b3 && a1 == b1 && a0 == b0) by (bit_vector)
        requires
            ((a7 << 7u8) | (a5 << 5u8) | (a3 << 3u8) | (a1 << 1u8) | a0) as u8
                == ((b7 << 7u8) | (b5 << 5u8) | (b3 << 3u8) | (b1 << 1u8) | b0) as u8,
            a7 <= 1, a5 < 4, a3 < 4, a1 < 4, a0 <= 1, b7 <= 1, b5 < 4, b3 < 4, b1 < 4, b0 <= 1;
    lemma_field_code_injective(a.packet_len_type, b.packet_len_type);
    lemma_field_code_injective(a.padding_len_type, b.padding_len_type);
    lemma_field_code_injective(a.sequence_type, b.sequence_type);
}

pub proof fn lemma_property_flags_injective(a: PropertyFlags, b: PropertyFlags)
    requires
        a.spec_byte() == b.spec_byte(),
    ensures
        a == b,
{
    let a6 = field_code(a.stream_number_len_type);
    let a4 = field_code(a.media_object_number_len_type);
    let a2 = field_code(a.offset_into_media_object_type);
    let a0 = field_code(a.replicated_data_len_type);
    let b6 = field_code(b.stream_number_len_type);
    let b4 = field_code(b.media_object_number_len_type);
    let b2 = field_code(b.offset_into_media_object_type);
    let b0 = field_code(b.replicated_data_len_type);
    assert(a6 == b6 && a4 == b4 && a2 == b2 && a0 == b0) by (bit_vector)
        requires
            ((a6 << 6u8) | (a4 << 4u8) | (a2 << 2u8) | a0) as u8 == ((b6 << 6u8) | (b4 << 4u8) | (b2 << 2u8) | b0) as u8,
            a6 < 4, a4 < 4, a2 < 4, a0 < 4, b6 < 4, b4 < 4, b2 < 4, b0 < 4;
    lemma_field_code_injective(a.stream_number_len_type, b.stream_number_len_type);
    lemma_field_code_injective(a.media_object_number_len_type, b.media_object_number_len_type);
    lemma_field_code_injective(a.offset_into_media_object_type, b.offset_into_media_object_type);
    lemma_field_code_injective(a.replicated_data_len_type, b.replicated_data_len_type);
}

/// Equal wire forms of well-formed payload parsing information with equal
/// flags come from equal values.
proof fn lemma_payload_parsing_bytes_injective(v: PayloadParsingData, w: PayloadParsingData)
    requires
        v.spec_bytes() == w.spec_bytes(),
        v.length_type_flags == w.length_type_flags,
        v.property_flags == w.property_flags,
        v.wf(),
        w.wf(),
    ensures
        v == w,
{
    let l = v.length_type_flags;
    crate::wire::lemma_int_bytes_len();
    crate::wire::lemma_int_bytes_injective();
    lemma_field_bytes_len(l.packet_len_type);
    lemma_field_bytes_len(l.sequence_type);
    lemma_field_bytes_len(l.padding_len_type);
    let f0 = seq![l.spec_byte()] + seq![v.property_flags.spec_byte()];
    let v1 = f0 + field_bytes(l.packet_len_type, v.packet_length);
    let w1 = f0 + field_bytes(l.packet_len_type, w.packet_length);
    let v2 = v1 + field_bytes(l.sequence_type, v.sequence);
    let w2 = w1 + field_bytes(l.sequence_type, w.sequence);
    let v3 = v2 + field_bytes(l.padding_len_type, v.padding_len);
    let w3 = w2 + field_bytes(l.padding_len_type, w.padding_len);
    let v4 = v3 + spec_u32_to_le_bytes(v.send_time);
    let w4 = w3 + spec_u32_to_le_bytes(w.send_time);
    crate::wire::lemma_cancel(v.spec_bytes(), v4, spec_u16_to_le_bytes(v.duration), w4, spec_u16_to_le_bytes(w.duration));
    crate::wire::lemma_cancel(v4, v3, spec_u32_to_le_bytes(v.send_time), w3, spec_u32_to_le_bytes(w.send_time));
    crate::wire::lemma_cancel(v3, v2, field_bytes(l.padding_len_type, v.padding_len), w2, field_bytes(l.padding_len_type, w.padding_len));
    crate::wire::lemma_cancel(v2, v1, field_bytes(l.sequence_type, v.sequence), w1, field_bytes(l.sequence_type, w.sequence));
    crate::wire::lemma_cancel(v1, f0, field_bytes(l.packet_len_type, v.packet_length), f0, field_bytes(l.packet_len_type, w.packet_length));
    lemma_field_bytes_injective(l.padding_len_type, v.padding_len, w.padding_len);
    lemma_field_bytes_injective(l.sequence_type, v.sequence, w.sequence);
    lemma_field_bytes_injective(l.packet_len_type, v.packet_length, w.packet_length);
}

/// `b` is the wire form of the well-formed payload parsing information `w`,
/// then `t`.
pub open spec fn payload_parsing_encodes(b: Seq<u8>, w: PayloadParsingData, t: Seq<u8>) -> bool {
    &&& b == w.spec_bytes() + t
    &&& w.wf()
}

pub proof fn lemma_field_bytes_injective(t: FieldType, a: u32, b: u32)
    requires
        field_bytes(t, a) == field_bytes(t, b),
        field_fits(t, a),
        field_fits(t, b),
    ensures
        a == b,
{
    crate::wire::lemma_int_bytes_injective();
    match t {
        FieldType::Byte => {
            assert(field_bytes(t, a)[0] == field_bytes(t, b)[0]);
        },
        _ => {},
    }
}

pub proof fn lemma_field_bytes_len(t: FieldType)
    ensures
        forall|v: u32| #[trigger] field_bytes(t, v).len() == field_width(t),
{
    crate::wire::lemma_int_bytes_len();
}

pub proof fn lemma_field_code(x: u8)
    requires
        x < 4,
    ensures
        field_code(field_type_of(x)) == x,
{
}

} // verus!
