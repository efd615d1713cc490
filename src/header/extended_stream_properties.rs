use vstd::prelude::*;
use vstd::bytes::*;
use vstd::seq_lib::lemma_concat_associative;

use crate::error::{Error, WriteError};
use crate::span::{lemma_splits_chain, splits, Span};
use crate::guid::{guid, guid_to_wire, lemma_guid_value_round_trip, write_guid, Guid};
use crate::wire::{parsed, all_writable, encodes_seq, encodes, lemma_cancel, lemma_int_bytes_injective, lemma_int_bytes_len, parse_count, read_u16, read_u32, read_u64, seq_bytes, size_of_seq, take, write_bytes, write_seq, write_u16, write_u32, write_u64, Parse, Wire};
use crate::widestr::{lemma_wide_bytes_len, WideStr};
use crate::error::ErrorKind;
use crate::guid::STREAM_PROPERTIES_OBJECT;
use crate::object::{frame_bytes, frame_size, object, object_frame_ok};
use super::stream_properties::StreamPropertiesData;

verus! {

/// One stream name: a language index and the name.
#[derive(Debug, PartialEq, Eq)]
pub struct StreamName {
    pub language_id_index: u16,
    pub stream_name: WideStr,
}

impl StreamName {
    /// The number of bytes `write` emits, computed without writing.
    pub fn size_of(&self) -> (r: usize)
        requires
            self.spec_bytes().len() <= usize::MAX,
        ensures
            r == self.spec_bytes().len(),
    {
        proof {
            lemma_int_bytes_len();
        }
        let mut n: usize = 0;
        n = n + 2;
        n = n + 2;
        n = n + self.stream_name.size_of();
        n
    }

    /// Appends the wire form to `w`; fails when a length overflows its prefix.
    pub fn write(&self, w: &mut Vec<u8>) -> (r: Result<(), WriteError>)
        requires
            self.spec_bytes().len() <= usize::MAX,
        ensures
            r is Ok <==> self.writable(),
            r is Ok ==> final(w)@ == old(w)@ + self.spec_bytes(),
    {
        proof {
            lemma_int_bytes_len();
        }
        write_u16(w, self.language_id_index);
        let stream_name_len: usize = self.stream_name.size_of();
        if stream_name_len > 0xffff {
            return Err(WriteError::FieldTooLarge);
        }
        write_u16(w, stream_name_len as u16);
        proof {
            lemma_concat_associative(old(w)@, spec_u16_to_le_bytes(self.language_id_index), spec_u16_to_le_bytes((self.stream_name.spec_bytes().len()) as u16));
        }
        self.stream_name.write(w)?;
        proof {
            lemma_concat_associative(old(w)@, spec_u16_to_le_bytes(self.language_id_index) + spec_u16_to_le_bytes((self.stream_name.spec_bytes().len()) as u16), self.stream_name.spec_bytes());
        }
        Ok(())
    }
}

impl Wire for StreamName {
    open spec fn spec_bytes(&self) -> Seq<u8> {
        spec_u16_to_le_bytes(self.language_id_index)
            + spec_u16_to_le_bytes((self.stream_name.spec_bytes().len()) as u16)
            + self.stream_name.spec_bytes()
    }

    open spec fn writable(&self) -> bool {
        self.stream_name.spec_bytes().len() <= 0xffff
    }

    fn size_of(&self) -> (r: usize) {
        Self::size_of(self)
    }

    fn write(&self, w: &mut Vec<u8>) -> (r: Result<(), WriteError>) {
        Self::write(self, w)
    }
}

impl StreamName {
    /// Decodes one value; the bytes consumed are exactly what `write` emits for it.
    #[verifier::rlimit(100)]
    pub fn parse<'a>(input: Span<'a>) -> (r: Result<(Span<'a>, StreamName), Error>)
        ensures
            r matches Ok((rest, v)) ==> parsed(input, v, rest),
            r matches Err(e) ==> e.kind == ErrorKind::Eof,
            forall|w: Self, t: Seq<u8>| #[trigger] encodes(input.bytes(), w, t)
                ==> (r matches Ok((rest, v)) && v.spec_bytes() == w.spec_bytes()),
    {
        proof {
            lemma_int_bytes_len();
            lemma_int_bytes_injective();
        }
        proof {
            assert forall|w: StreamName, t: Seq<u8>| #[trigger] encodes(input.bytes(), w, t) implies input.bytes() == spec_u16_to_le_bytes(w.language_id_index) + (spec_u16_to_le_bytes((w.stream_name.spec_bytes().len()) as u16) + (w.stream_name.spec_bytes() + t)) by {
                lemma_concat_associative(spec_u16_to_le_bytes(w.language_id_index) + spec_u16_to_le_bytes((w.stream_name.spec_bytes().len()) as u16), w.stream_name.spec_bytes(), t);
                lemma_concat_associative(spec_u16_to_le_bytes(w.language_id_index), spec_u16_to_le_bytes((w.stream_name.spec_bytes().len()) as u16), (w.stream_name.spec_bytes() + t));
            }
        }
        let (i1, language_id_index) = match read_u16(input) {
            Ok(x) => x,
            Err(e) => {
                proof {
                    assert forall|w: StreamName, t: Seq<u8>| #[trigger] encodes(input.bytes(), w, t) implies false by {
                    }
                }
                return Err(e);
            },
        };
        let ghost consumed1 = spec_u16_to_le_bytes(language_id_index);
        proof {
            assert forall|w: StreamName, t: Seq<u8>| #[trigger] encodes(input.bytes(), w, t) implies spec_u16_to_le_bytes(language_id_index) == spec_u16_to_le_bytes(w.language_id_index) && i1.bytes() == spec_u16_to_le_bytes((w.stream_name.spec_bytes().len()) as u16) + (w.stream_name.spec_bytes() + t) by {
                lemma_cancel(input.bytes(), spec_u16_to_le_bytes(language_id_index), i1.bytes(), spec_u16_to_le_bytes(w.language_id_index), (spec_u16_to_le_bytes((w.stream_name.spec_bytes().len()) as u16) + (w.stream_name.spec_bytes() + t)));
            }
        }
        let (i2, stream_name_len) = match read_u16(i1) {
            Ok(x) => x,
            Err(e) => {
                proof {
                    assert forall|w: StreamName, t: Seq<u8>| #[trigger] encodes(input.bytes(), w, t) implies false by {
                    }
                }
                return Err(e);
            },
        };
        let ghost consumed2 = consumed1 + spec_u16_to_le_bytes(stream_name_len);
        proof {
            lemma_splits_chain(input, consumed1, i1, spec_u16_to_le_bytes(stream_name_len), i2);
            assert forall|w: StreamName, t: Seq<u8>| #[trigger] encodes(input.bytes(), w, t) implies spec_u16_to_le_bytes(stream_name_len) == spec_u16_to_le_bytes((w.stream_name.spec_bytes().len()) as u16) && i2.bytes() == w.stream_name.spec_bytes() + t by {
                lemma_cancel(i1.bytes(), spec_u16_to_le_bytes(stream_name_len), i2.bytes(), spec_u16_to_le_bytes((w.stream_name.spec_bytes().len()) as u16), (w.stream_name.spec_bytes() + t));
            }
        }
        let (i3, stream_name_region) = match take(i2, stream_name_len as usize) {
            Ok(x) => x,
            Err(e) => {
                proof {
                    assert forall|w: StreamName, t: Seq<u8>| #[trigger] encodes(input.bytes(), w, t) implies false by {
                        lemma_wide_bytes_len(w.stream_name.0@);
                    }
                }
                return Err(e);
            },
        };
        let (_, stream_name) = match WideStr::parse(stream_name_region) {
            Ok(x) => x,
            Err(e) => {
                proof {
                    assert forall|w: StreamName, t: Seq<u8>| #[trigger] encodes(input.bytes(), w, t) implies false by {
                        lemma_wide_bytes_len(w.stream_name.0@);
                        lemma_cancel(i2.bytes(), stream_name_region.bytes(), i3.bytes(), w.stream_name.spec_bytes(), t);
                    }
                }
                return Err(e);
            },
        };
        let ghost consumed3 = consumed2 + stream_name_region.bytes();
        proof {
            lemma_splits_chain(input, consumed2, i2, stream_name_region.bytes(), i3);
            assert forall|w: StreamName, t: Seq<u8>| #[trigger] encodes(input.bytes(), w, t) implies stream_name_region.bytes() == w.stream_name.spec_bytes() && i3.bytes() == t by {
                lemma_wide_bytes_len(w.stream_name.0@);
                lemma_cancel(i2.bytes(), stream_name_region.bytes(), i3.bytes(), w.stream_name.spec_bytes(), t);
            }
        }
        let v = StreamName { language_id_index, stream_name };
        proof {
            assert forall|w: StreamName, t: Seq<u8>| #[trigger] encodes(input.bytes(), w, t) implies v.spec_bytes() == w.spec_bytes() by {
            }
        }
        Ok((i3, v))
    }
}

impl<'a> Parse<'a> for StreamName {
    fn parse(input: Span<'a>) -> (r: Result<(Span<'a>, StreamName), Error>) {
        Self::parse(input)
    }
}

/// One payload extension system: its id, data size and information.
#[derive(Debug, PartialEq, Eq)]
pub struct PayloadExtensionSystem<'a> {
    pub id: Guid,
    pub data_size: u16,
    pub info: Span<'a>,
}

impl<'a> PayloadExtensionSystem<'a> {
    /// The number of bytes `write` emits, computed without writing.
    pub fn size_of(&self) -> (r: usize)
        requires
            self.spec_bytes().len() <= usize::MAX,
        ensures
            r == self.spec_bytes().len(),
    {
        proof {
            lemma_int_bytes_len();
            lemma_guid_value_round_trip(self.id.0);
        }
        let mut n: usize = 0;
        n = n + 16;
        n = n + 2;
        n = n + 4;
        n = n + self.info.len();
        n
    }

    /// Appends the wire form to `w`; fails when a length overflows its prefix.
    pub fn write(&self, w: &mut Vec<u8>) -> (r: Result<(), WriteError>)
        requires
            self.spec_bytes().len() <= usize::MAX,
        ensures
            r is Ok <==> self.writable(),
            r is Ok ==> final(w)@ == old(w)@ + self.spec_bytes(),
    {
        proof {
            lemma_int_bytes_len();
            lemma_guid_value_round_trip(self.id.0);
        }
        write_guid(w, self.id);
        write_u16(w, self.data_size);
        proof {
            lemma_concat_associative(old(w)@, guid_to_wire(self.id.0), spec_u16_to_le_bytes(self.data_size));
        }
        let info_len: usize = self.info.len();
        if info_len > 0xffff_ffff {
            return Err(WriteError::FieldTooLarge);
        }
        write_u32(w, info_len as u32);
        proof {
            lemma_concat_associative(old(w)@, guid_to_wire(self.id.0) + spec_u16_to_le_bytes(self.data_size), spec_u32_to_le_bytes((self.info.bytes().len()) as u32));
        }
        write_bytes(w, self.info.fragment());
        proof {
            lemma_concat_associative(old(w)@, guid_to_wire(self.id.0) + spec_u16_to_le_bytes(self.data_size) + spec_u32_to_le_bytes((self.info.bytes().len()) as u32), self.info.bytes());
        }
        Ok(())
    }
}

impl<'a> Wire for PayloadExtensionSystem<'a> {
    open spec fn spec_bytes(&self) -> Seq<u8> {
        guid_to_wire(self.id.0)
            + spec_u16_to_le_bytes(self.data_size)
            + spec_u32_to_le_bytes((self.info.bytes().len()) as u32)
            + self.info.bytes()
    }

    open spec fn writable(&self) -> bool {
        self.info.bytes().len() <= 0xffff_ffff
    }

    fn size_of(&self) -> (r: usize) {
        Self::size_of(self)
    }

    fn write(&self, w: &mut Vec<u8>) -> (r: Result<(), WriteError>) {
        Self::write(self, w)
    }
}

impl<'a> PayloadExtensionSystem<'a> {
    /// Decodes one value; the bytes consumed are exactly what `write` emits for it.
    pub fn parse(input: Span<'a>) -> (r: Result<(Span<'a>, PayloadExtensionSystem<'a>), Error>)
        ensures
            r matches Ok((rest, v)) ==> parsed(input, v, rest),
            r matches Err(e) ==> e.kind == ErrorKind::Eof,
            forall|w: Self, t: Seq<u8>| #[trigger] encodes(input.bytes(), w, t)
                ==> (r matches Ok((rest, v)) && v.spec_bytes() == w.spec_bytes()),
    {
        proof {
            lemma_int_bytes_len();
            lemma_int_bytes_injective();
        }
        proof {
            assert forall|w: PayloadExtensionSystem<'a>, t: Seq<u8>| #[trigger] encodes(input.bytes(), w, t) implies input.bytes() == guid_to_wire(w.id.0) + (spec_u16_to_le_bytes(w.data_size) + (spec_u32_to_le_bytes((w.info.bytes().len()) as u32) + (w.info.bytes() + t))) by {
                lemma_guid_value_round_trip(w.id.0);
                lemma_concat_associative(guid_to_wire(w.id.0) + spec_u16_to_le_bytes(w.data_size) + spec_u32_to_le_bytes((w.info.bytes().len()) as u32), w.info.bytes(), t);
                lemma_concat_associative(guid_to_wire(w.id.0) + spec_u16_to_le_bytes(w.data_size), spec_u32_to_le_bytes((w.info.bytes().len()) as u32), (w.info.bytes() + t));
                lemma_concat_associative(guid_to_wire(w.id.0), spec_u16_to_le_bytes(w.data_size), (spec_u32_to_le_bytes((w.info.bytes().len()) as u32) + (w.info.bytes() + t)));
            }
        }
        let (i1, id) = match guid(input) {
            Ok(x) => x,
            Err(e) => {
                proof {
                    assert forall|w: PayloadExtensionSystem<'a>, t: Seq<u8>| #[trigger] encodes(input.bytes(), w, t) implies false by {
                        lemma_guid_value_round_trip(w.id.0);
                    }
                }
                return Err(e);
            },
        };
        let ghost consumed1 = guid_to_wire(id.0);
        proof {
            lemma_guid_value_round_trip(id.0);
            assert forall|w: PayloadExtensionSystem<'a>, t: Seq<u8>| #[trigger] encodes(input.bytes(), w, t) implies guid_to_wire(id.0) == guid_to_wire(w.id.0) && i1.bytes() == spec_u16_to_le_bytes(w.data_size) + (spec_u32_to_le_bytes((w.info.bytes().len()) as u32) + (w.info.bytes() + t)) by {
                lemma_guid_value_round_trip(w.id.0);
                lemma_cancel(input.bytes(), guid_to_wire(id.0), i1.bytes(), guid_to_wire(w.id.0), (spec_u16_to_le_bytes(w.data_size) + (spec_u32_to_le_bytes((w.info.bytes().len()) as u32) + (w.info.bytes() + t))));
            }
        }
        let (i2, data_size) = match read_u16(i1) {
            Ok(x) => x,
            Err(e) => {
                proof {
                    assert forall|w: PayloadExtensionSystem<'a>, t: Seq<u8>| #[trigger] encodes(input.bytes(), w, t) implies false by {
                    }
                }
                return Err(e);
            },
        };
        let ghost consumed2 = consumed1 + spec_u16_to_le_bytes(data_size);
        proof {
            lemma_splits_chain(input, consumed1, i1, spec_u16_to_le_bytes(data_size), i2);
            assert forall|w: PayloadExtensionSystem<'a>, t: Seq<u8>| #[trigger] encodes(input.bytes(), w, t) implies spec_u16_to_le_bytes(data_size) == spec_u16_to_le_bytes(w.data_size) && i2.bytes() == spec_u32_to_le_bytes((w.info.bytes().len()) as u32) + (w.info.bytes() + t) by {
                lemma_cancel(i1.bytes(), spec_u16_to_le_bytes(data_size), i2.bytes(), spec_u16_to_le_bytes(w.data_size), (spec_u32_to_le_bytes((w.info.bytes().len()) as u32) + (w.info.bytes() + t)));
            }
        }
        let (i3, info_len) = match read_u32(i2) {
            Ok(x) => x,
            Err(e) => {
                proof {
                    assert forall|w: PayloadExtensionSystem<'a>, t: Seq<u8>| #[trigger] encodes(input.bytes(), w, t) implies false by {
                    }
                }
                return Err(e);
            },
        };
        let ghost consumed3 = consumed2 + spec_u32_to_le_bytes(info_len);
        proof {
            lemma_splits_chain(input, consumed2, i2, spec_u32_to_le_bytes(info_len), i3);
            assert forall|w: PayloadExtensionSystem<'a>, t: Seq<u8>| #[trigger] encodes(input.bytes(), w, t) implies spec_u32_to_le_bytes(info_len) == spec_u32_to_le_bytes((w.info.bytes().len()) as u32) && i3.bytes() == w.info.bytes() + t by {
                lemma_cancel(i2.bytes(), spec_u32_to_le_bytes(info_len), i3.bytes(), spec_u32_to_le_bytes((w.info.bytes().len()) as u32), (w.info.bytes() + t));
            }
        }
        let (i4, info) = match take(i3, info_len as usize) {
            Ok(x) => x,
            Err(e) => {
                proof {
                    assert forall|w: PayloadExtensionSystem<'a>, t: Seq<u8>| #[trigger] encodes(input.bytes(), w, t) implies false by {
                    }
                }
                return Err(e);
            },
        };
        let ghost consumed4 = consumed3 + info.bytes();
        proof {
            lemma_splits_chain(input, consumed3, i3, info.bytes(), i4);
            assert forall|w: PayloadExtensionSystem<'a>, t: Seq<u8>| #[trigger] encodes(input.bytes(), w, t) implies info.bytes() == w.info.bytes() && i4.bytes() == t by {
                lemma_cancel(i3.bytes(), info.bytes(), i4.bytes(), w.info.bytes(), t);
            }
        }
        let v = PayloadExtensionSystem { id, data_size, info };
        proof {
            assert forall|w: PayloadExtensionSystem<'a>, t: Seq<u8>| #[trigger] encodes(input.bytes(), w, t) implies v.spec_bytes() == w.spec_bytes() by {
            }
        }
        Ok((i4, v))
    }
}

impl<'a> Parse<'a> for PayloadExtensionSystem<'a> {
    fn parse(input: Span<'a>) -> (r: Result<(Span<'a>, PayloadExtensionSystem<'a>), Error>) {
        Self::parse(input)
    }
}

/// The extended stream properties object; a stream properties object may follow its fields.
#[derive(Debug, PartialEq, Eq)]
pub struct ExtendedStreamPropertiesData<'a> {
    pub start_time: u64,
    pub end_time: u64,
    pub data_bitrate: u32,
    pub buffer_size: u32,
    pub initial_buffer_fullness: u32,
    pub alternate_data_bitrate: u32,
    pub alternate_buffer_size: u32,
    pub alternate_initial_buffer_fullness: u32,
    pub maximum_object_size: u32,
    pub flags: u32,
    pub stream_number: u16,
    pub stream_language_id_index: u16,
    pub average_time_per_frame: u64,
    pub stream_names: Vec<StreamName>,
    pub payload_extension_systems: Vec<PayloadExtensionSystem<'a>>,
    pub stream_properties_object: Option<StreamPropertiesData<'a>>,
}

impl<'a> ExtendedStreamPropertiesData<'a> {
    /// Everything but the optional stream properties object.
    pub open spec fn head_bytes(&self) -> Seq<u8> {
        spec_u64_to_le_bytes(self.start_time)
            + spec_u64_to_le_bytes(self.end_time)
            + spec_u32_to_le_bytes(self.data_bitrate)
            + spec_u32_to_le_bytes(self.buffer_size)
            + spec_u32_to_le_bytes(self.initial_buffer_fullness)
            + spec_u32_to_le_bytes(self.alternate_data_bitrate)
            + spec_u32_to_le_bytes(self.alternate_buffer_size)
            + spec_u32_to_le_bytes(self.alternate_initial_buffer_fullness)
            + spec_u32_to_le_bytes(self.maximum_object_size)
            + spec_u32_to_le_bytes(self.flags)
            + spec_u16_to_le_bytes(self.stream_number)
            + spec_u16_to_le_bytes(self.stream_language_id_index)
            + spec_u64_to_le_bytes(self.average_time_per_frame)
            + spec_u16_to_le_bytes((self.stream_names@.len()) as u16)
            + spec_u16_to_le_bytes((self.payload_extension_systems@.len()) as u16)
            + seq_bytes(self.stream_names@)
            + seq_bytes(self.payload_extension_systems@)
    }

    pub open spec fn head_writable(&self) -> bool {
        self.stream_names@.len() <= 0xffff
        && self.payload_extension_systems@.len() <= 0xffff
        && all_writable(self.stream_names@)
        && all_writable(self.payload_extension_systems@)
    }
}

impl<'a> ExtendedStreamPropertiesData<'a> {
    /// The number of bytes `write` emits, computed without writing.
    pub fn size_of(&self) -> (r: usize)
        requires
            self.spec_bytes().len() <= usize::MAX,
        ensures
            r == self.spec_bytes().len(),
    {
        proof {
            lemma_int_bytes_len();
        }
        let mut n: usize = 0;
        n = n + 8;
        n = n + 8;
        n = n + 4;
        n = n + 4;
        n = n + 4;
        n = n + 4;
        n = n + 4;
        n = n + 4;
        n = n + 4;
        n = n + 4;
        n = n + 2;
        n = n + 2;
        n = n + 8;
        n = n + 2;
        n = n + 2;
        n = n + size_of_seq(&self.stream_names);
        n = n + size_of_seq(&self.payload_extension_systems);
        n = n + size_of_stream_properties_tail(&self.stream_properties_object);
        n
    }

    /// Appends the wire form to `w`; fails when a length overflows its prefix.
    pub fn write(&self, w: &mut Vec<u8>) -> (r: Result<(), WriteError>)
        requires
            self.spec_bytes().len() <= usize::MAX,
        ensures
            r is Ok <==> self.writable(),
            r is Ok ==> final(w)@ == old(w)@ + self.spec_bytes(),
    {
        proof {
            lemma_int_bytes_len();
        }
        write_u64(w, self.start_time);
        write_u64(w, self.end_time);
        proof {
            lemma_concat_associative(old(w)@, spec_u64_to_le_bytes(self.start_time), spec_u64_to_le_bytes(self.end_time));
        }
        write_u32(w, self.data_bitrate);
        proof {
            lemma_concat_associative(old(w)@, spec_u64_to_le_bytes(self.start_time) + spec_u64_to_le_bytes(self.end_time), spec_u32_to_le_bytes(self.data_bitrate));
        }
        write_u32(w, self.buffer_size);
        proof {
            lemma_concat_associative(old(w)@, spec_u64_to_le_bytes(self.start_time) + spec_u64_to_le_bytes(self.end_time) + spec_u32_to_le_bytes(self.data_bitrate), spec_u32_to_le_bytes(self.buffer_size));
        }
        write_u32(w, self.initial_buffer_fullness);
        proof {
            lemma_concat_associative(old(w)@, spec_u64_to_le_bytes(self.start_time) + spec_u64_to_le_bytes(self.end_time) + spec_u32_to_le_bytes(self.data_bitrate) + spec_u32_to_le_bytes(self.buffer_size), spec_u32_to_le_bytes(self.initial_buffer_fullness));
        }
        write_u32(w, self.alternate_data_bitrate);
        proof {
            lemma_concat_associative(old(w)@, spec_u64_to_le_bytes(self.start_time) + spec_u64_to_le_bytes(self.end_time) + spec_u32_to_le_bytes(self.data_bitrate) + spec_u32_to_le_bytes(self.buffer_size) + spec_u32_to_le_bytes(self.initial_buffer_fullness), spec_u32_to_le_bytes(self.alternate_data_bitrate));
        }
        write_u32(w, self.alternate_buffer_size);
        proof {
            lemma_concat_associative(old(w)@, spec_u64_to_le_bytes(self.start_time) + spec_u64_to_le_bytes(self.end_time) + spec_u32_to_le_bytes(self.data_bitrate) + spec_u32_to_le_bytes(self.buffer_size) + spec_u32_to_le_bytes(self.initial_buffer_fullness) + spec_u32_to_le_bytes(self.alternate_data_bitrate), spec_u32_to_le_bytes(self.alternate_buffer_size));
        }
        write_u32(w, self.alternate_initial_buffer_fullness);
        proof {
            lemma_concat_associative(old(w)@, spec_u64_to_le_bytes(self.start_time) + spec_u64_to_le_bytes(self.end_time) + spec_u32_to_le_bytes(self.data_bitrate) + spec_u32_to_le_bytes(self.buffer_size) + spec_u32_to_le_bytes(self.initial_buffer_fullness) + spec_u32_to_le_bytes(self.alternate_data_bitrate) + spec_u32_to_le_bytes(self.alternate_buffer_size), spec_u32_to_le_bytes(self.alternate_initial_buffer_fullness));
        }
        write_u32(w, self.maximum_object_size);
        proof {
            lemma_concat_associative(old(w)@, spec_u64_to_le_bytes(self.start_time) + spec_u64_to_le_bytes(self.end_time) + spec_u32_to_le_bytes(self.data_bitrate) + spec_u32_to_le_bytes(self.buffer_size) + spec_u32_to_le_bytes(self.initial_buffer_fullness) + spec_u32_to_le_bytes(self.alternate_data_bitrate) + spec_u32_to_le_bytes(self.alternate_buffer_size) + spec_u32_to_le_bytes(self.alternate_initial_buffer_fullness), spec_u32_to_le_bytes(self.maximum_object_size));
        }
        write_u32(w, self.flags);
        proof {
            lemma_concat_associative(old(w)@, spec_u64_to_le_bytes(self.start_time) + spec_u64_to_le_bytes(self.end_time) + spec_u32_to_le_bytes(self.data_bitrate) + spec_u32_to_le_bytes(self.buffer_size) + spec_u32_to_le_bytes(self.initial_buffer_fullness) + spec_u32_to_le_bytes(self.alternate_data_bitrate) + spec_u32_to_le_bytes(self.alternate_buffer_size) + spec_u32_to_le_bytes(self.alternate_initial_buffer_fullness) + spec_u32_to_le_bytes(self.maximum_object_size), spec_u32_to_le_bytes(self.flags));
        }
        write_u16(w, self.stream_number);
        proof {
            lemma_concat_associative(old(w)@, spec_u64_to_le_bytes(self.start_time) + spec_u64_to_le_bytes(self.end_time) + spec_u32_to_le_bytes(self.data_bitrate) + spec_u32_to_le_bytes(self.buffer_size) + spec_u32_to_le_bytes(self.initial_buffer_fullness) + spec_u32_to_le_bytes(self.alternate_data_bitrate) + spec_u32_to_le_bytes(self.alternate_buffer_size) + spec_u32_to_le_bytes(self.alternate_initial_buffer_fullness) + spec_u32_to_le_bytes(self.maximum_object_size) + spec_u32_to_le_bytes(self.flags), spec_u16_to_le_bytes(self.stream_number));
        }
        write_u16(w, self.stream_language_id_index);
        proof {
            lemma_concat_associative(old(w)@, spec_u64_to_le_bytes(self.start_time) + spec_u64_to_le_bytes(self.end_time) + spec_u32_to_le_bytes(self.data_bitrate) + spec_u32_to_le_bytes(self.buffer_size) + spec_u32_to_le_bytes(self.initial_buffer_fullness) + spec_u32_to_le_bytes(self.alternate_data_bitrate) + spec_u32_to_le_bytes(self.alternate_buffer_size) + spec_u32_to_le_bytes(self.alternate_initial_buffer_fullness) + spec_u32_to_le_bytes(self.maximum_object_size) + spec_u32_to_le_bytes(self.flags) + spec_u16_to_le_bytes(self.stream_number), spec_u16_to_le_bytes(self.stream_language_id_index));
        }
        write_u64(w, self.average_time_per_frame);
        proof {
            lemma_concat_associative(old(w)@, spec_u64_to_le_bytes(self.start_time) + spec_u64_to_le_bytes(self.end_time) + spec_u32_to_le_bytes(self.data_bitrate) + spec_u32_to_le_bytes(self.buffer_size) + spec_u32_to_le_bytes(self.initial_buffer_fullness) + spec_u32_to_le_bytes(self.alternate_data_bitrate) + spec_u32_to_le_bytes(self.alternate_buffer_size) + spec_u32_to_le_bytes(self.alternate_initial_buffer_fullness) + spec_u32_to_le_bytes(self.maximum_object_size) + spec_u32_to_le_bytes(self.flags) + spec_u16_to_le_bytes(self.stream_number) + spec_u16_to_le_bytes(self.stream_language_id_index), spec_u64_to_le_bytes(self.average_time_per_frame));
        }
        let stream_names_len: usize = self.stream_names.len();
        if stream_names_len > 0xffff {
            return Err(WriteError::FieldTooLarge);
        }
        write_u16(w, stream_names_len as u16);
        proof {
            lemma_concat_associative(old(w)@, spec_u64_to_le_bytes(self.start_time) + spec_u64_to_le_bytes(self.end_time) + spec_u32_to_le_bytes(self.data_bitrate) + spec_u32_to_le_bytes(self.buffer_size) + spec_u32_to_le_bytes(self.initial_buffer_fullness) + spec_u32_to_le_bytes(self.alternate_data_bitrate) + spec_u32_to_le_bytes(self.alternate_buffer_size) + spec_u32_to_le_bytes(self.alternate_initial_buffer_fullness) + spec_u32_to_le_bytes(self.maximum_object_size) + spec_u32_to_le_bytes(self.flags) + spec_u16_to_le_bytes(self.stream_number) + spec_u16_to_le_bytes(self.stream_language_id_index) + spec_u64_to_le_bytes(self.average_time_per_frame), spec_u16_to_le_bytes((self.stream_names@.len()) as u16));
        }
        let payload_extension_systems_len: usize = self.payload_extension_systems.len();
        if payload_extension_systems_len > 0xffff {
            return Err(WriteError::FieldTooLarge);
        }
        write_u16(w, payload_extension_systems_len as u16);
        proof {
            lemma_concat_associative(old(w)@, spec_u64_to_le_bytes(self.start_time) + spec_u64_to_le_bytes(self.end_time) + spec_u32_to_le_bytes(self.data_bitrate) + spec_u32_to_le_bytes(self.buffer_size) + spec_u32_to_le_bytes(self.initial_buffer_fullness) + spec_u32_to_le_bytes(self.alternate_data_bitrate) + spec_u32_to_le_bytes(self.alternate_buffer_size) + spec_u32_to_le_bytes(self.alternate_initial_buffer_fullness) + spec_u32_to_le_bytes(self.maximum_object_size) + spec_u32_to_le_bytes(self.flags) + spec_u16_to_le_bytes(self.stream_number) + spec_u16_to_le_bytes(self.stream_language_id_index) + spec_u64_to_le_bytes(self.average_time_per_frame) + spec_u16_to_le_bytes((self.stream_names@.len()) as u16), spec_u16_to_le_bytes((self.payload_extension_systems@.len()) as u16));
        }
        write_seq(&self.stream_names, w)?;
        proof {
            lemma_concat_associative(old(w)@, spec_u64_to_le_bytes(self.start_time) + spec_u64_to_le_bytes(self.end_time) + spec_u32_to_le_bytes(self.data_bitrate) + spec_u32_to_le_bytes(self.buffer_size) + spec_u32_to_le_bytes(self.initial_buffer_fullness) + spec_u32_to_le_bytes(self.alternate_data_bitrate) + spec_u32_to_le_bytes(self.alternate_buffer_size) + spec_u32_to_le_bytes(self.alternate_initial_buffer_fullness) + spec_u32_to_le_bytes(self.maximum_object_size) + spec_u32_to_le_bytes(self.flags) + spec_u16_to_le_bytes(self.stream_number) + spec_u16_to_le_bytes(self.stream_language_id_index) + spec_u64_to_le_bytes(self.average_time_per_frame) + spec_u16_to_le_bytes((self.stream_names@.len()) as u16) + spec_u16_to_le_bytes((self.payload_extension_systems@.len()) as u16), seq_bytes(self.stream_names@));
        }
        write_seq(&self.payload_extension_systems, w)?;
        proof {
            lemma_concat_associative(old(w)@, spec_u64_to_le_bytes(self.start_time) + spec_u64_to_le_bytes(self.end_time) + spec_u32_to_le_bytes(self.data_bitrate) + spec_u32_to_le_bytes(self.buffer_size) + spec_u32_to_le_bytes(self.initial_buffer_fullness) + spec_u32_to_le_bytes(self.alternate_data_bitrate) + spec_u32_to_le_bytes(self.alternate_buffer_size) + spec_u32_to_le_bytes(self.alternate_initial_buffer_fullness) + spec_u32_to_le_bytes(self.maximum_object_size) + spec_u32_to_le_bytes(self.flags) + spec_u16_to_le_bytes(self.stream_number) + spec_u16_to_le_bytes(self.stream_language_id_index) + spec_u64_to_le_bytes(self.average_time_per_frame) + spec_u16_to_le_bytes((self.stream_names@.len()) as u16) + spec_u16_to_le_bytes((self.payload_extension_systems@.len()) as u16) + seq_bytes(self.stream_names@), seq_bytes(self.payload_extension_systems@));
        }
        write_stream_properties_tail(&self.stream_properties_object, w)?;
        proof {
            lemma_concat_associative(old(w)@, self.head_bytes(), stream_properties_tail(self.stream_properties_object));
        }
        Ok(())
    }
}

impl<'a> Wire for ExtendedStreamPropertiesData<'a> {
    open spec fn spec_bytes(&self) -> Seq<u8> {
        self.head_bytes() + stream_properties_tail(self.stream_properties_object)
    }

    open spec fn writable(&self) -> bool {
        self.head_writable() && stream_properties_tail_writable(self.stream_properties_object)
    }

    fn size_of(&self) -> (r: usize) {
        Self::size_of(self)
    }

    fn write(&self, w: &mut Vec<u8>) -> (r: Result<(), WriteError>) {
        Self::write(self, w)
    }
}

impl<'a> ExtendedStreamPropertiesData<'a> {
    /// Decodes the fields before the optional stream properties object.
    fn parse_head(input: Span<'a>) -> (r: Result<(Span<'a>, ExtendedStreamPropertiesData<'a>), Error>)
        ensures
            r matches Ok((rest, v)) ==> {
                &&& splits(input, v.head_bytes(), rest)
                &&& v.head_writable()
                &&& v.stream_properties_object is None
            },
            r matches Err(e) ==> e.kind == ErrorKind::Eof,
            forall|w: ExtendedStreamPropertiesData<'a>, t: Seq<u8>| #[trigger] head_encodes(input.bytes(), w, t)
                ==> (r matches Ok((rest, v)) && v.head_bytes() == w.head_bytes()),
    {
        proof {
            lemma_int_bytes_len();
            lemma_int_bytes_injective();
        }
        proof {
            assert forall|w: ExtendedStreamPropertiesData<'a>, t: Seq<u8>| #[trigger] head_encodes(input.bytes(), w, t) implies input.bytes() == spec_u64_to_le_bytes(w.start_time) + (spec_u64_to_le_bytes(w.end_time) + (spec_u32_to_le_bytes(w.data_bitrate) + (spec_u32_to_le_bytes(w.buffer_size) + (spec_u32_to_le_bytes(w.initial_buffer_fullness) + (spec_u32_to_le_bytes(w.alternate_data_bitrate) + (spec_u32_to_le_bytes(w.alternate_buffer_size) + (spec_u32_to_le_bytes(w.alternate_initial_buffer_fullness) + (spec_u32_to_le_bytes(w.maximum_object_size) + (spec_u32_to_le_bytes(w.flags) + (spec_u16_to_le_bytes(w.stream_number) + (spec_u16_to_le_bytes(w.stream_language_id_index) + (spec_u64_to_le_bytes(w.average_time_per_frame) + (spec_u16_to_le_bytes((w.stream_names@.len()) as u16) + (spec_u16_to_le_bytes((w.payload_extension_systems@.len()) as u16) + (seq_bytes(w.stream_names@) + (seq_bytes(w.payload_extension_systems@) + t)))))))))))))))) by {
                lemma_concat_associative(spec_u64_to_le_bytes(w.start_time) + spec_u64_to_le_bytes(w.end_time) + spec_u32_to_le_bytes(w.data_bitrate) + spec_u32_to_le_bytes(w.buffer_size) + spec_u32_to_le_bytes(w.initial_buffer_fullness) + spec_u32_to_le_bytes(w.alternate_data_bitrate) + spec_u32_to_le_bytes(w.alternate_buffer_size) + spec_u32_to_le_bytes(w.alternate_initial_buffer_fullness) + spec_u32_to_le_bytes(w.maximum_object_size) + spec_u32_to_le_bytes(w.flags) + spec_u16_to_le_bytes(w.stream_number) + spec_u16_to_le_bytes(w.stream_language_id_index) + spec_u64_to_le_bytes(w.average_time_per_frame) + spec_u16_to_le_bytes((w.stream_names@.len()) as u16) + spec_u16_to_le_bytes((w.payload_extension_systems@.len()) as u16) + seq_bytes(w.stream_names@), seq_bytes(w.payload_extension_systems@), t);
                lemma_concat_associative(spec_u64_to_le_bytes(w.start_time) + spec_u64_to_le_bytes(w.end_time) + spec_u32_to_le_bytes(w.data_bitrate) + spec_u32_to_le_bytes(w.buffer_size) + spec_u32_to_le_bytes(w.initial_buffer_fullness) + spec_u32_to_le_bytes(w.alternate_data_bitrate) + spec_u32_to_le_bytes(w.alternate_buffer_size) + spec_u32_to_le_bytes(w.alternate_initial_buffer_fullness) + spec_u32_to_le_bytes(w.maximum_object_size) + spec_u32_to_le_bytes(w.flags) + spec_u16_to_le_bytes(w.stream_number) + spec_u16_to_le_bytes(w.stream_language_id_index) + spec_u64_to_le_bytes(w.average_time_per_frame) + spec_u16_to_le_bytes((w.stream_names@.len()) as u16) + spec_u16_to_le_bytes((w.payload_extension_systems@.len()) as u16), seq_bytes(w.stream_names@), (seq_bytes(w.payload_extension_systems@) + t));
                lemma_concat_associative(spec_u64_to_le_bytes(w.start_time) + spec_u64_to_le_bytes(w.end_time) + spec_u32_to_le_bytes(w.data_bitrate) + spec_u32_to_le_bytes(w.buffer_size) + spec_u32_to_le_bytes(w.initial_buffer_fullness) + spec_u32_to_le_bytes(w.alternate_data_bitrate) + spec_u32_to_le_bytes(w.alternate_buffer_size) + spec_u32_to_le_bytes(w.alternate_initial_buffer_fullness) + spec_u32_to_le_bytes(w.maximum_object_size) + spec_u32_to_le_bytes(w.flags) + spec_u16_to_le_bytes(w.stream_number) + spec_u16_to_le_bytes(w.stream_language_id_index) + spec_u64_to_le_bytes(w.average_time_per_frame) + spec_u16_to_le_bytes((w.stream_names@.len()) as u16), spec_u16_to_le_bytes((w.payload_extension_systems@.len()) as u16), (seq_bytes(w.stream_names@) + (seq_bytes(w.payload_extension_systems@) + t)));
                lemma_concat_associative(spec_u64_to_le_bytes(w.start_time) + spec_u64_to_le_bytes(w.end_time) + spec_u32_to_le_bytes(w.data_bitrate) + spec_u32_to_le_bytes(w.buffer_size) + spec_u32_to_le_bytes(w.initial_buffer_fullness) + spec_u32_to_le_bytes(w.alternate_data_bitrate) + spec_u32_to_le_bytes(w.alternate_buffer_size) + spec_u32_to_le_bytes(w.alternate_initial_buffer_fullness) + spec_u32_to_le_bytes(w.maximum_object_size) + spec_u32_to_le_bytes(w.flags) + spec_u16_to_le_bytes(w.stream_number) + spec_u16_to_le_bytes(w.stream_language_id_index) + spec_u64_to_le_bytes(w.average_time_per_frame), spec_u16_to_le_bytes((w.stream_names@.len()) as u16), (spec_u16_to_le_bytes((w.payload_extension_systems@.len()) as u16) + (seq_bytes(w.stream_names@) + (seq_bytes(w.payload_extension_systems@) + t))));
                lemma_concat_associative(spec_u64_to_le_bytes(w.start_time) + spec_u64_to_le_bytes(w.end_time) + spec_u32_to_le_bytes(w.data_bitrate) + spec_u32_to_le_bytes(w.buffer_size) + spec_u32_to_le_bytes(w.initial_buffer_fullness) + spec_u32_to_le_bytes(w.alternate_data_bitrate) + spec_u32_to_le_bytes(w.alternate_buffer_size) + spec_u32_to_le_bytes(w.alternate_initial_buffer_fullness) + spec_u32_to_le_bytes(w.maximum_object_size) + spec_u32_to_le_bytes(w.flags) + spec_u16_to_le_bytes(w.stream_number) + spec_u16_to_le_bytes(w.stream_language_id_index), spec_u64_to_le_bytes(w.average_time_per_frame), (spec_u16_to_le_bytes((w.stream_names@.len()) as u16) + (spec_u16_to_le_bytes((w.payload_extension_systems@.len()) as u16) + (seq_bytes(w.stream_names@) + (seq_bytes(w.payload_extension_systems@) + t)))));
                lemma_concat_associative(spec_u64_to_le_bytes(w.start_time) + spec_u64_to_le_bytes(w.end_time) + spec_u32_to_le_bytes(w.data_bitrate) + spec_u32_to_le_bytes(w.buffer_size) + spec_u32_to_le_bytes(w.initial_buffer_fullness) + spec_u32_to_le_bytes(w.alternate_data_bitrate) + spec_u32_to_le_bytes(w.alternate_buffer_size) + spec_u32_to_le_bytes(w.alternate_initial_buffer_fullness) + spec_u32_to_le_bytes(w.maximum_object_size) + spec_u32_to_le_bytes(w.flags) + spec_u16_to_le_bytes(w.stream_number), spec_u16_to_le_bytes(w.stream_language_id_index), (spec_u64_to_le_bytes(w.average_time_per_frame) + (spec_u16_to_le_bytes((w.stream_names@.len()) as u16) + (spec_u16_to_le_bytes((w.payload_extension_systems@.len()) as u16) + (seq_bytes(w.stream_names@) + (seq_bytes(w.payload_extension_systems@) + t))))));
                lemma_concat_associative(spec_u64_to_le_bytes(w.start_time) + spec_u64_to_le_bytes(w.end_time) + spec_u32_to_le_bytes(w.data_bitrate) + spec_u32_to_le_bytes(w.buffer_size) + spec_u32_to_le_bytes(w.initial_buffer_fullness) + spec_u32_to_le_bytes(w.alternate_data_bitrate) + spec_u32_to_le_bytes(w.alternate_buffer_size) + spec_u32_to_le_bytes(w.alternate_initial_buffer_fullness) + spec_u32_to_le_bytes(w.maximum_object_size) + spec_u32_to_le_bytes(w.flags), spec_u16_to_le_bytes(w.stream_number), (spec_u16_to_le_bytes(w.stream_language_id_index) + (spec_u64_to_le_bytes(w.average_time_per_frame) + (spec_u16_to_le_bytes((w.stream_names@.len()) as u16) + (spec_u16_to_le_bytes((w.payload_extension_systems@.len()) as u16) + (seq_bytes(w.stream_names@) + (seq_bytes(w.payload_extension_systems@) + t)))))));
                lemma_concat_associative(spec_u64_to_le_bytes(w.start_time) + spec_u64_to_le_bytes(w.end_time) + spec_u32_to_le_bytes(w.data_bitrate) + spec_u32_to_le_bytes(w.buffer_size) + spec_u32_to_le_bytes(w.initial_buffer_fullness) + spec_u32_to_le_bytes(w.alternate_data_bitrate) + spec_u32_to_le_bytes(w.alternate_buffer_size) + spec_u32_to_le_bytes(w.alternate_initial_buffer_fullness) + spec_u32_to_le_bytes(w.maximum_object_size), spec_u32_to_le_bytes(w.flags), (spec_u16_to_le_bytes(w.stream_number) + (spec_u16_to_le_bytes(w.stream_language_id_index) + (spec_u64_to_le_bytes(w.average_time_per_frame) + (spec_u16_to_le_bytes((w.stream_names@.len()) as u16) + (spec_u16_to_le_bytes((w.payload_extension_systems@.len()) as u16) + (seq_bytes(w.stream_names@) + (seq_bytes(w.payload_extension_systems@) + t))))))));
                lemma_concat_associative(spec_u64_to_le_bytes(w.start_time) + spec_u64_to_le_bytes(w.end_time) + spec_u32_to_le_bytes(w.data_bitrate) + spec_u32_to_le_bytes(w.buffer_size) + spec_u32_to_le_bytes(w.initial_buffer_fullness) + spec_u32_to_le_bytes(w.alternate_data_bitrate) + spec_u32_to_le_bytes(w.alternate_buffer_size) + spec_u32_to_le_bytes(w.alternate_initial_buffer_fullness), spec_u32_to_le_bytes(w.maximum_object_size), (spec_u32_to_le_bytes(w.flags) + (spec_u16_to_le_bytes(w.stream_number) + (spec_u16_to_le_bytes(w.stream_language_id_index) + (spec_u64_to_le_bytes(w.average_time_per_frame) + (spec_u16_to_le_bytes((w.stream_names@.len()) as u16) + (spec_u16_to_le_bytes((w.payload_extension_systems@.len()) as u16) + (seq_bytes(w.stream_names@) + (seq_bytes(w.payload_extension_systems@) + t)))))))));
                lemma_concat_associative(spec_u64_to_le_bytes(w.start_time) + spec_u64_to_le_bytes(w.end_time) + spec_u32_to_le_bytes(w.data_bitrate) + spec_u32_to_le_bytes(w.buffer_size) + spec_u32_to_le_bytes(w.initial_buffer_fullness) + spec_u32_to_le_bytes(w.alternate_data_bitrate) + spec_u32_to_le_bytes(w.alternate_buffer_size), spec_u32_to_le_bytes(w.alternate_initial_buffer_fullness), (spec_u32_to_le_bytes(w.maximum_object_size) + (spec_u32_to_le_bytes(w.flags) + (spec_u16_to_le_bytes(w.stream_number) + (spec_u16_to_le_bytes(w.stream_language_id_index) + (spec_u64_to_le_bytes(w.average_time_per_frame) + (spec_u16_to_le_bytes((w.stream_names@.len()) as u16) + (spec_u16_to_le_bytes((w.payload_extension_systems@.len()) as u16) + (seq_bytes(w.stream_names@) + (seq_bytes(w.payload_extension_systems@) + t))))))))));
                lemma_concat_associative(spec_u64_to_le_bytes(w.start_time) + spec_u64_to_le_bytes(w.end_time) + spec_u32_to_le_bytes(w.data_bitrate) + spec_u32_to_le_bytes(w.buffer_size) + spec_u32_to_le_bytes(w.initial_buffer_fullness) + spec_u32_to_le_bytes(w.alternate_data_bitrate), spec_u32_to_le_bytes(w.alternate_buffer_size), (spec_u32_to_le_bytes(w.alternate_initial_buffer_fullness) + (spec_u32_to_le_bytes(w.maximum_object_size) + (spec_u32_to_le_bytes(w.flags) + (spec_u16_to_le_bytes(w.stream_number) + (spec_u16_to_le_bytes(w.stream_language_id_index) + (spec_u64_to_le_bytes(w.average_time_per_frame) + (spec_u16_to_le_bytes((w.stream_names@.len()) as u16) + (spec_u16_to_le_bytes((w.payload_extension_systems@.len()) as u16) + (seq_bytes(w.stream_names@) + (seq_bytes(w.payload_extension_systems@) + t)))))))))));
                lemma_concat_associative(spec_u64_to_le_bytes(w.start_time) + spec_u64_to_le_bytes(w.end_time) + spec_u32_to_le_bytes(w.data_bitrate) + spec_u32_to_le_bytes(w.buffer_size) + spec_u32_to_le_bytes(w.initial_buffer_fullness), spec_u32_to_le_bytes(w.alternate_data_bitrate), (spec_u32_to_le_bytes(w.alternate_buffer_size) + (spec_u32_to_le_bytes(w.alternate_initial_buffer_fullness) + (spec_u32_to_le_bytes(w.maximum_object_size) + (spec_u32_to_le_bytes(w.flags) + (spec_u16_to_le_bytes(w.stream_number) + (spec_u16_to_le_bytes(w.stream_language_id_index) + (spec_u64_to_le_bytes(w.average_time_per_frame) + (spec_u16_to_le_bytes((w.stream_names@.len()) as u16) + (spec_u16_to_le_bytes((w.payload_extension_systems@.len()) as u16) + (seq_bytes(w.stream_names@) + (seq_bytes(w.payload_extension_systems@) + t))))))))))));
                lemma_concat_associative(spec_u64_to_le_bytes(w.start_time) + spec_u64_to_le_bytes(w.end_time) + spec_u32_to_le_bytes(w.data_bitrate) + spec_u32_to_le_bytes(w.buffer_size), spec_u32_to_le_bytes(w.initial_buffer_fullness), (spec_u32_to_le_bytes(w.alternate_data_bitrate) + (spec_u32_to_le_bytes(w.alternate_buffer_size) + (spec_u32_to_le_bytes(w.alternate_initial_buffer_fullness) + (spec_u32_to_le_bytes(w.maximum_object_size) + (spec_u32_to_le_bytes(w.flags) + (spec_u16_to_le_bytes(w.stream_number) + (spec_u16_to_le_bytes(w.stream_language_id_index) + (spec_u64_to_le_bytes(w.average_time_per_frame) + (spec_u16_to_le_bytes((w.stream_names@.len()) as u16) + (spec_u16_to_le_bytes((w.payload_extension_systems@.len()) as u16) + (seq_bytes(w.stream_names@) + (seq_bytes(w.payload_extension_systems@) + t)))))))))))));
                lemma_concat_associative(spec_u64_to_le_bytes(w.start_time) + spec_u64_to_le_bytes(w.end_time) + spec_u32_to_le_bytes(w.data_bitrate), spec_u32_to_le_bytes(w.buffer_size), (spec_u32_to_le_bytes(w.initial_buffer_fullness) + (spec_u32_to_le_bytes(w.alternate_data_bitrate) + (spec_u32_to_le_bytes(w.alternate_buffer_size) + (spec_u32_to_le_bytes(w.alternate_initial_buffer_fullness) + (spec_u32_to_le_bytes(w.maximum_object_size) + (spec_u32_to_le_bytes(w.flags) + (spec_u16_to_le_bytes(w.stream_number) + (spec_u16_to_le_bytes(w.stream_language_id_index) + (spec_u64_to_le_bytes(w.average_time_per_frame) + (spec_u16_to_le_bytes((w.stream_names@.len()) as u16) + (spec_u16_to_le_bytes((w.payload_extension_systems@.len()) as u16) + (seq_bytes(w.stream_names@) + (seq_bytes(w.payload_extension_systems@) + t))))))))))))));
                lemma_concat_associative(spec_u64_to_le_bytes(w.start_time) + spec_u64_to_le_bytes(w.end_time), spec_u32_to_le_bytes(w.data_bitrate), (spec_u32_to_le_bytes(w.buffer_size) + (spec_u32_to_le_bytes(w.initial_buffer_fullness) + (spec_u32_to_le_bytes(w.alternate_data_bitrate) + (spec_u32_to_le_bytes(w.alternate_buffer_size) + (spec_u32_to_le_bytes(w.alternate_initial_buffer_fullness) + (spec_u32_to_le_bytes(w.maximum_object_size) + (spec_u32_to_le_bytes(w.flags) + (spec_u16_to_le_bytes(w.stream_number) + (spec_u16_to_le_bytes(w.stream_language_id_index) + (spec_u64_to_le_bytes(w.average_time_per_frame) + (spec_u16_to_le_bytes((w.stream_names@.len()) as u16) + (spec_u16_to_le_bytes((w.payload_extension_systems@.len()) as u16) + (seq_bytes(w.stream_names@) + (seq_bytes(w.payload_extension_systems@) + t)))))))))))))));
                lemma_concat_associative(spec_u64_to_le_bytes(w.start_time), spec_u64_to_le_bytes(w.end_time), (spec_u32_to_le_bytes(w.data_bitrate) + (spec_u32_to_le_bytes(w.buffer_size) + (spec_u32_to_le_bytes(w.initial_buffer_fullness) + (spec_u32_to_le_bytes(w.alternate_data_bitrate) + (spec_u32_to_le_bytes(w.alternate_buffer_size) + (spec_u32_to_le_bytes(w.alternate_initial_buffer_fullness) + (spec_u32_to_le_bytes(w.maximum_object_size) + (spec_u32_to_le_bytes(w.flags) + (spec_u16_to_le_bytes(w.stream_number) + (spec_u16_to_le_bytes(w.stream_language_id_index) + (spec_u64_to_le_bytes(w.average_time_per_frame) + (spec_u16_to_le_bytes((w.stream_names@.len()) as u16) + (spec_u16_to_le_bytes((w.payload_extension_systems@.len()) as u16) + (seq_bytes(w.stream_names@) + (seq_bytes(w.payload_extension_systems@) + t))))))))))))))));
            }
        }
        let (i1, start_time) = match read_u64(input) {
            Ok(x) => x,
            Err(e) => {
                proof {
                    assert forall|w: ExtendedStreamPropertiesData<'a>, t: Seq<u8>| #[trigger] head_encodes(input.bytes(), w, t) implies false by {
                    }
                }
                return Err(e);
            },
        };
        let ghost consumed1 = spec_u64_to_le_bytes(start_time);
        proof {
            assert forall|w: ExtendedStreamPropertiesData<'a>, t: Seq<u8>| #[trigger] head_encodes(input.bytes(), w, t) implies spec_u64_to_le_bytes(start_time) == spec_u64_to_le_bytes(w.start_time) && i1.bytes() == spec_u64_to_le_bytes(w.end_time) + (spec_u32_to_le_bytes(w.data_bitrate) + (spec_u32_to_le_bytes(w.buffer_size) + (spec_u32_to_le_bytes(w.initial_buffer_fullness) + (spec_u32_to_le_bytes(w.alternate_data_bitrate) + (spec_u32_to_le_bytes(w.alternate_buffer_size) + (spec_u32_to_le_bytes(w.alternate_initial_buffer_fullness) + (spec_u32_to_le_bytes(w.maximum_object_size) + (spec_u32_to_le_bytes(w.flags) + (spec_u16_to_le_bytes(w.stream_number) + (spec_u16_to_le_bytes(w.stream_language_id_index) + (spec_u64_to_le_bytes(w.average_time_per_frame) + (spec_u16_to_le_bytes((w.stream_names@.len()) as u16) + (spec_u16_to_le_bytes((w.payload_extension_systems@.len()) as u16) + (seq_bytes(w.stream_names@) + (seq_bytes(w.payload_extension_systems@) + t))))))))))))))) by {
                lemma_cancel(input.bytes(), spec_u64_to_le_bytes(start_time), i1.bytes(), spec_u64_to_le_bytes(w.start_time), (spec_u64_to_le_bytes(w.end_time) + (spec_u32_to_le_bytes(w.data_bitrate) + (spec_u32_to_le_bytes(w.buffer_size) + (spec_u32_to_le_bytes(w.initial_buffer_fullness) + (spec_u32_to_le_bytes(w.alternate_data_bitrate) + (spec_u32_to_le_bytes(w.alternate_buffer_size) + (spec_u32_to_le_bytes(w.alternate_initial_buffer_fullness) + (spec_u32_to_le_bytes(w.maximum_object_size) + (spec_u32_to_le_bytes(w.flags) + (spec_u16_to_le_bytes(w.stream_number) + (spec_u16_to_le_bytes(w.stream_language_id_index) + (spec_u64_to_le_bytes(w.average_time_per_frame) + (spec_u16_to_le_bytes((w.stream_names@.len()) as u16) + (spec_u16_to_le_bytes((w.payload_extension_systems@.len()) as u16) + (seq_bytes(w.stream_names@) + (seq_bytes(w.payload_extension_systems@) + t)))))))))))))))));
            }
        }
        let (i2, end_time) = match read_u64(i1) {
            Ok(x) => x,
            Err(e) => {
                proof {
                    assert forall|w: ExtendedStreamPropertiesData<'a>, t: Seq<u8>| #[trigger] head_encodes(input.bytes(), w, t) implies false by {
                    }
                }
                return Err(e);
            },
        };
        let ghost consumed2 = consumed1 + spec_u64_to_le_bytes(end_time);
        proof {
            lemma_splits_chain(input, consumed1, i1, spec_u64_to_le_bytes(end_time), i2);
            assert forall|w: ExtendedStreamPropertiesData<'a>, t: Seq<u8>| #[trigger] head_encodes(input.bytes(), w, t) implies spec_u64_to_le_bytes(end_time) == spec_u64_to_le_bytes(w.end_time) && i2.bytes() == spec_u32_to_le_bytes(w.data_bitrate) + (spec_u32_to_le_bytes(w.buffer_size) + (spec_u32_to_le_bytes(w.initial_buffer_fullness) + (spec_u32_to_le_bytes(w.alternate_data_bitrate) + (spec_u32_to_le_bytes(w.alternate_buffer_size) + (spec_u32_to_le_bytes(w.alternate_initial_buffer_fullness) + (spec_u32_to_le_bytes(w.maximum_object_size) + (spec_u32_to_le_bytes(w.flags) + (spec_u16_to_le_bytes(w.stream_number) + (spec_u16_to_le_bytes(w.stream_language_id_index) + (spec_u64_to_le_bytes(w.average_time_per_frame) + (spec_u16_to_le_bytes((w.stream_names@.len()) as u16) + (spec_u16_to_le_bytes((w.payload_extension_systems@.len()) as u16) + (seq_bytes(w.stream_names@) + (seq_bytes(w.payload_extension_systems@) + t)))))))))))))) by {
                lemma_cancel(i1.bytes(), spec_u64_to_le_bytes(end_time), i2.bytes(), spec_u64_to_le_bytes(w.end_time), (spec_u32_to_le_bytes(w.data_bitrate) + (spec_u32_to_le_bytes(w.buffer_size) + (spec_u32_to_le_bytes(w.initial_buffer_fullness) + (spec_u32_to_le_bytes(w.alternate_data_bitrate) + (spec_u32_to_le_bytes(w.alternate_buffer_size) + (spec_u32_to_le_bytes(w.alternate_initial_buffer_fullness) + (spec_u32_to_le_bytes(w.maximum_object_size) + (spec_u32_to_le_bytes(w.flags) + (spec_u16_to_le_bytes(w.stream_number) + (spec_u16_to_le_bytes(w.stream_language_id_index) + (spec_u64_to_le_bytes(w.average_time_per_frame) + (spec_u16_to_le_bytes((w.stream_names@.len()) as u16) + (spec_u16_to_le_bytes((w.payload_extension_systems@.len()) as u16) + (seq_bytes(w.stream_names@) + (seq_bytes(w.payload_extension_systems@) + t))))))))))))))));
            }
        }
        let (i3, data_bitrate) = match read_u32(i2) {
            Ok(x) => x,
            Err(e) => {
                proof {
                    assert forall|w: ExtendedStreamPropertiesData<'a>, t: Seq<u8>| #[trigger] head_encodes(input.bytes(), w, t) implies false by {
                    }
                }
                return Err(e);
            },
        };
        let ghost consumed3 = consumed2 + spec_u32_to_le_bytes(data_bitrate);
        proof {
            lemma_splits_chain(input, consumed2, i2, spec_u32_to_le_bytes(data_bitrate), i3);
            assert forall|w: ExtendedStreamPropertiesData<'a>, t: Seq<u8>| #[trigger] head_encodes(input.bytes(), w, t) implies spec_u32_to_le_bytes(data_bitrate) == spec_u32_to_le_bytes(w.data_bitrate) && i3.bytes() == spec_u32_to_le_bytes(w.buffer_size) + (spec_u32_to_le_bytes(w.initial_buffer_fullness) + (spec_u32_to_le_bytes(w.alternate_data_bitrate) + (spec_u32_to_le_bytes(w.alternate_buffer_size) + (spec_u32_to_le_bytes(w.alternate_initial_buffer_fullness) + (spec_u32_to_le_bytes(w.maximum_object_size) + (spec_u32_to_le_bytes(w.flags) + (spec_u16_to_le_bytes(w.stream_number) + (spec_u16_to_le_bytes(w.stream_language_id_index) + (spec_u64_to_le_bytes(w.average_time_per_frame) + (spec_u16_to_le_bytes((w.stream_names@.len()) as u16) + (spec_u16_to_le_bytes((w.payload_extension_systems@.len()) as u16) + (seq_bytes(w.stream_names@) + (seq_bytes(w.payload_extension_systems@) + t))))))))))))) by {
                lemma_cancel(i2.bytes(), spec_u32_to_le_bytes(data_bitrate), i3.bytes(), spec_u32_to_le_bytes(w.data_bitrate), (spec_u32_to_le_bytes(w.buffer_size) + (spec_u32_to_le_bytes(w.initial_buffer_fullness) + (spec_u32_to_le_bytes(w.alternate_data_bitrate) + (spec_u32_to_le_bytes(w.alternate_buffer_size) + (spec_u32_to_le_bytes(w.alternate_initial_buffer_fullness) + (spec_u32_to_le_bytes(w.maximum_object_size) + (spec_u32_to_le_bytes(w.flags) + (spec_u16_to_le_bytes(w.stream_number) + (spec_u16_to_le_bytes(w.stream_language_id_index) + (spec_u64_to_le_bytes(w.average_time_per_frame) + (spec_u16_to_le_bytes((w.stream_names@.len()) as u16) + (spec_u16_to_le_bytes((w.payload_extension_systems@.len()) as u16) + (seq_bytes(w.stream_names@) + (seq_bytes(w.payload_extension_systems@) + t)))))))))))))));
            }
        }
        let (i4, buffer_size) = match read_u32(i3) {
            Ok(x) => x,
            Err(e) => {
                proof {
                    assert forall|w: ExtendedStreamPropertiesData<'a>, t: Seq<u8>| #[trigger] head_encodes(input.bytes(), w, t) implies false by {
                    }
                }
                return Err(e);
            },
        };
        let ghost consumed4 = consumed3 + spec_u32_to_le_bytes(buffer_size);
        proof {
            lemma_splits_chain(input, consumed3, i3, spec_u32_to_le_bytes(buffer_size), i4);
            assert forall|w: ExtendedStreamPropertiesData<'a>, t: Seq<u8>| #[trigger] head_encodes(input.bytes(), w, t) implies spec_u32_to_le_bytes(buffer_size) == spec_u32_to_le_bytes(w.buffer_size) && i4.bytes() == spec_u32_to_le_bytes(w.initial_buffer_fullness) + (spec_u32_to_le_bytes(w.alternate_data_bitrate) + (spec_u32_to_le_bytes(w.alternate_buffer_size) + (spec_u32_to_le_bytes(w.alternate_initial_buffer_fullness) + (spec_u32_to_le_bytes(w.maximum_object_size) + (spec_u32_to_le_bytes(w.flags) + (spec_u16_to_le_bytes(w.stream_number) + (spec_u16_to_le_bytes(w.stream_language_id_index) + (spec_u64_to_le_bytes(w.average_time_per_frame) + (spec_u16_to_le_bytes((w.stream_names@.len()) as u16) + (spec_u16_to_le_bytes((w.payload_extension_systems@.len()) as u16) + (seq_bytes(w.stream_names@) + (seq_bytes(w.payload_extension_systems@) + t)))))))))))) by {
                lemma_cancel(i3.bytes(), spec_u32_to_le_bytes(buffer_size), i4.bytes(), spec_u32_to_le_bytes(w.buffer_size), (spec_u32_to_le_bytes(w.initial_buffer_fullness) + (spec_u32_to_le_bytes(w.alternate_data_bitrate) + (spec_u32_to_le_bytes(w.alternate_buffer_size) + (spec_u32_to_le_bytes(w.alternate_initial_buffer_fullness) + (spec_u32_to_le_bytes(w.maximum_object_size) + (spec_u32_to_le_bytes(w.flags) + (spec_u16_to_le_bytes(w.stream_number) + (spec_u16_to_le_bytes(w.stream_language_id_index) + (spec_u64_to_le_bytes(w.average_time_per_frame) + (spec_u16_to_le_bytes((w.stream_names@.len()) as u16) + (spec_u16_to_le_bytes((w.payload_extension_systems@.len()) as u16) + (seq_bytes(w.stream_names@) + (seq_bytes(w.payload_extension_systems@) + t))))))))))))));
            }
        }
        let (i5, initial_buffer_fullness) = match read_u32(i4) {
            Ok(x) => x,
            Err(e) => {
                proof {
                    assert forall|w: ExtendedStreamPropertiesData<'a>, t: Seq<u8>| #[trigger] head_encodes(input.bytes(), w, t) implies false by {
                    }
                }
                return Err(e);
            },
        };
        let ghost consumed5 = consumed4 + spec_u32_to_le_bytes(initial_buffer_fullness);
        proof {
            lemma_splits_chain(input, consumed4, i4, spec_u32_to_le_bytes(initial_buffer_fullness), i5);
            assert forall|w: ExtendedStreamPropertiesData<'a>, t: Seq<u8>| #[trigger] head_encodes(input.bytes(), w, t) implies spec_u32_to_le_bytes(initial_buffer_fullness) == spec_u32_to_le_bytes(w.initial_buffer_fullness) && i5.bytes() == spec_u32_to_le_bytes(w.alternate_data_bitrate) + (spec_u32_to_le_bytes(w.alternate_buffer_size) + (spec_u32_to_le_bytes(w.alternate_initial_buffer_fullness) + (spec_u32_to_le_bytes(w.maximum_object_size) + (spec_u32_to_le_bytes(w.flags) + (spec_u16_to_le_bytes(w.stream_number) + (spec_u16_to_le_bytes(w.stream_language_id_index) + (spec_u64_to_le_bytes(w.average_time_per_frame) + (spec_u16_to_le_bytes((w.stream_names@.len()) as u16) + (spec_u16_to_le_bytes((w.payload_extension_systems@.len()) as u16) + (seq_bytes(w.stream_names@) + (seq_bytes(w.payload_extension_systems@) + t))))))))))) by {
                lemma_cancel(i4.bytes(), spec_u32_to_le_bytes(initial_buffer_fullness), i5.bytes(), spec_u32_to_le_bytes(w.initial_buffer_fullness), (spec_u32_to_le_bytes(w.alternate_data_bitrate) + (spec_u32_to_le_bytes(w.alternate_buffer_size) + (spec_u32_to_le_bytes(w.alternate_initial_buffer_fullness) + (spec_u32_to_le_bytes(w.maximum_object_size) + (spec_u32_to_le_bytes(w.flags) + (spec_u16_to_le_bytes(w.stream_number) + (spec_u16_to_le_bytes(w.stream_language_id_index) + (spec_u64_to_le_bytes(w.average_time_per_frame) + (spec_u16_to_le_bytes((w.stream_names@.len()) as u16) + (spec_u16_to_le_bytes((w.payload_extension_systems@.len()) as u16) + (seq_bytes(w.stream_names@) + (seq_bytes(w.payload_extension_systems@) + t)))))))))))));
            }
        }
        let (i6, alternate_data_bitrate) = match read_u32(i5) {
            Ok(x) => x,
            Err(e) => {
                proof {
                    assert forall|w: ExtendedStreamPropertiesData<'a>, t: Seq<u8>| #[trigger] head_encodes(input.bytes(), w, t) implies false by {
                    }
                }
                return Err(e);
            },
        };
        let ghost consumed6 = consumed5 + spec_u32_to_le_bytes(alternate_data_bitrate);
        proof {
            lemma_splits_chain(input, consumed5, i5, spec_u32_to_le_bytes(alternate_data_bitrate), i6);
            assert forall|w: ExtendedStreamPropertiesData<'a>, t: Seq<u8>| #[trigger] head_encodes(input.bytes(), w, t) implies spec_u32_to_le_bytes(alternate_data_bitrate) == spec_u32_to_le_bytes(w.alternate_data_bitrate) && i6.bytes() == spec_u32_to_le_bytes(w.alternate_buffer_size) + (spec_u32_to_le_bytes(w.alternate_initial_buffer_fullness) + (spec_u32_to_le_bytes(w.maximum_object_size) + (spec_u32_to_le_bytes(w.flags) + (spec_u16_to_le_bytes(w.stream_number) + (spec_u16_to_le_bytes(w.stream_language_id_index) + (spec_u64_to_le_bytes(w.average_time_per_frame) + (spec_u16_to_le_bytes((w.stream_names@.len()) as u16) + (spec_u16_to_le_bytes((w.payload_extension_systems@.len()) as u16) + (seq_bytes(w.stream_names@) + (seq_bytes(w.payload_extension_systems@) + t)))))))))) by {
                lemma_cancel(i5.bytes(), spec_u32_to_le_bytes(alternate_data_bitrate), i6.bytes(), spec_u32_to_le_bytes(w.alternate_data_bitrate), (spec_u32_to_le_bytes(w.alternate_buffer_size) + (spec_u32_to_le_bytes(w.alternate_initial_buffer_fullness) + (spec_u32_to_le_bytes(w.maximum_object_size) + (spec_u32_to_le_bytes(w.flags) + (spec_u16_to_le_bytes(w.stream_number) + (spec_u16_to_le_bytes(w.stream_language_id_index) + (spec_u64_to_le_bytes(w.average_time_per_frame) + (spec_u16_to_le_bytes((w.stream_names@.len()) as u16) + (spec_u16_to_le_bytes((w.payload_extension_systems@.len()) as u16) + (seq_bytes(w.stream_names@) + (seq_bytes(w.payload_extension_systems@) + t))))))))))));
            }
        }
        let (i7, alternate_buffer_size) = match read_u32(i6) {
            Ok(x) => x,
            Err(e) => {
                proof {
                    assert forall|w: ExtendedStreamPropertiesData<'a>, t: Seq<u8>| #[trigger] head_encodes(input.bytes(), w, t) implies false by {
                    }
                }
                return Err(e);
            },
        };
        let ghost consumed7 = consumed6 + spec_u32_to_le_bytes(alternate_buffer_size);
        proof {
            lemma_splits_chain(input, consumed6, i6, spec_u32_to_le_bytes(alternate_buffer_size), i7);
            assert forall|w: ExtendedStreamPropertiesData<'a>, t: Seq<u8>| #[trigger] head_encodes(input.bytes(), w, t) implies spec_u32_to_le_bytes(alternate_buffer_size) == spec_u32_to_le_bytes(w.alternate_buffer_size) && i7.bytes() == spec_u32_to_le_bytes(w.alternate_initial_buffer_fullness) + (spec_u32_to_le_bytes(w.maximum_object_size) + (spec_u32_to_le_bytes(w.flags) + (spec_u16_to_le_bytes(w.stream_number) + (spec_u16_to_le_bytes(w.stream_language_id_index) + (spec_u64_to_le_bytes(w.average_time_per_frame) + (spec_u16_to_le_bytes((w.stream_names@.len()) as u16) + (spec_u16_to_le_bytes((w.payload_extension_systems@.len()) as u16) + (seq_bytes(w.stream_names@) + (seq_bytes(w.payload_extension_systems@) + t))))))))) by {
                lemma_cancel(i6.bytes(), spec_u32_to_le_bytes(alternate_buffer_size), i7.bytes(), spec_u32_to_le_bytes(w.alternate_buffer_size), (spec_u32_to_le_bytes(w.alternate_initial_buffer_fullness) + (spec_u32_to_le_bytes(w.maximum_object_size) + (spec_u32_to_le_bytes(w.flags) + (spec_u16_to_le_bytes(w.stream_number) + (spec_u16_to_le_bytes(w.stream_language_id_index) + (spec_u64_to_le_bytes(w.average_time_per_frame) + (spec_u16_to_le_bytes((w.stream_names@.len()) as u16) + (spec_u16_to_le_bytes((w.payload_extension_systems@.len()) as u16) + (seq_bytes(w.stream_names@) + (seq_bytes(w.payload_extension_systems@) + t)))))))))));
            }
        }
        let (i8, alternate_initial_buffer_fullness) = match read_u32(i7) {
            Ok(x) => x,
            Err(e) => {
                proof {
                    assert forall|w: ExtendedStreamPropertiesData<'a>, t: Seq<u8>| #[trigger] head_encodes(input.bytes(), w, t) implies false by {
                    }
                }
                return Err(e);
            },
        };
        let ghost consumed8 = consumed7 + spec_u32_to_le_bytes(alternate_initial_buffer_fullness);
        proof {
            lemma_splits_chain(input, consumed7, i7, spec_u32_to_le_bytes(alternate_initial_buffer_fullness), i8);
            assert forall|w: ExtendedStreamPropertiesData<'a>, t: Seq<u8>| #[trigger] head_encodes(input.bytes(), w, t) implies spec_u32_to_le_bytes(alternate_initial_buffer_fullness) == spec_u32_to_le_bytes(w.alternate_initial_buffer_fullness) && i8.bytes() == spec_u32_to_le_bytes(w.maximum_object_size) + (spec_u32_to_le_bytes(w.flags) + (spec_u16_to_le_bytes(w.stream_number) + (spec_u16_to_le_bytes(w.stream_language_id_index) + (spec_u64_to_le_bytes(w.average_time_per_frame) + (spec_u16_to_le_bytes((w.stream_names@.len()) as u16) + (spec_u16_to_le_bytes((w.payload_extension_systems@.len()) as u16) + (seq_bytes(w.stream_names@) + (seq_bytes(w.payload_extension_systems@) + t)))))))) by {
                lemma_cancel(i7.bytes(), spec_u32_to_le_bytes(alternate_initial_buffer_fullness), i8.bytes(), spec_u32_to_le_bytes(w.alternate_initial_buffer_fullness), (spec_u32_to_le_bytes(w.maximum_object_size) + (spec_u32_to_le_bytes(w.flags) + (spec_u16_to_le_bytes(w.stream_number) + (spec_u16_to_le_bytes(w.stream_language_id_index) + (spec_u64_to_le_bytes(w.average_time_per_frame) + (spec_u16_to_le_bytes((w.stream_names@.len()) as u16) + (spec_u16_to_le_bytes((w.payload_extension_systems@.len()) as u16) + (seq_bytes(w.stream_names@) + (seq_bytes(w.payload_extension_systems@) + t))))))))));
            }
        }
        let (i9, maximum_object_size) = match read_u32(i8) {
            Ok(x) => x,
            Err(e) => {
                proof {
                    assert forall|w: ExtendedStreamPropertiesData<'a>, t: Seq<u8>| #[trigger] head_encodes(input.bytes(), w, t) implies false by {
                    }
                }
                return Err(e);
            },
        };
        let ghost consumed9 = consumed8 + spec_u32_to_le_bytes(maximum_object_size);
        proof {
            lemma_splits_chain(input, consumed8, i8, spec_u32_to_le_bytes(maximum_object_size), i9);
            assert forall|w: ExtendedStreamPropertiesData<'a>, t: Seq<u8>| #[trigger] head_encodes(input.bytes(), w, t) implies spec_u32_to_le_bytes(maximum_object_size) == spec_u32_to_le_bytes(w.maximum_object_size) && i9.bytes() == spec_u32_to_le_bytes(w.flags) + (spec_u16_to_le_bytes(w.stream_number) + (spec_u16_to_le_bytes(w.stream_language_id_index) + (spec_u64_to_le_bytes(w.average_time_per_frame) + (spec_u16_to_le_bytes((w.stream_names@.len()) as u16) + (spec_u16_to_le_bytes((w.payload_extension_systems@.len()) as u16) + (seq_bytes(w.stream_names@) + (seq_bytes(w.payload_extension_systems@) + t))))))) by {
                lemma_cancel(i8.bytes(), spec_u32_to_le_bytes(maximum_object_size), i9.bytes(), spec_u32_to_le_bytes(w.maximum_object_size), (spec_u32_to_le_bytes(w.flags) + (spec_u16_to_le_bytes(w.stream_number) + (spec_u16_to_le_bytes(w.stream_language_id_index) + (spec_u64_to_le_bytes(w.average_time_per_frame) + (spec_u16_to_le_bytes((w.stream_names@.len()) as u16) + (spec_u16_to_le_bytes((w.payload_extension_systems@.len()) as u16) + (seq_bytes(w.stream_names@) + (seq_bytes(w.payload_extension_systems@) + t)))))))));
            }
        }
        let (i10, flags) = match read_u32(i9) {
            Ok(x) => x,
            Err(e) => {
                proof {
                    assert forall|w: ExtendedStreamPropertiesData<'a>, t: Seq<u8>| #[trigger] head_encodes(input.bytes(), w, t) implies false by {
                    }
                }
                return Err(e);
            },
        };
        let ghost consumed10 = consumed9 + spec_u32_to_le_bytes(flags);
        proof {
            lemma_splits_chain(input, consumed9, i9, spec_u32_to_le_bytes(flags), i10);
            assert forall|w: ExtendedStreamPropertiesData<'a>, t: Seq<u8>| #[trigger] head_encodes(input.bytes(), w, t) implies spec_u32_to_le_bytes(flags) == spec_u32_to_le_bytes(w.flags) && i10.bytes() == spec_u16_to_le_bytes(w.stream_number) + (spec_u16_to_le_bytes(w.stream_language_id_index) + (spec_u64_to_le_bytes(w.average_time_per_frame) + (spec_u16_to_le_bytes((w.stream_names@.len()) as u16) + (spec_u16_to_le_bytes((w.payload_extension_systems@.len()) as u16) + (seq_bytes(w.stream_names@) + (seq_bytes(w.payload_extension_systems@) + t)))))) by {
                lemma_cancel(i9.bytes(), spec_u32_to_le_bytes(flags), i10.bytes(), spec_u32_to_le_bytes(w.flags), (spec_u16_to_le_bytes(w.stream_number) + (spec_u16_to_le_bytes(w.stream_language_id_index) + (spec_u64_to_le_bytes(w.average_time_per_frame) + (spec_u16_to_le_bytes((w.stream_names@.len()) as u16) + (spec_u16_to_le_bytes((w.payload_extension_systems@.len()) as u16) + (seq_bytes(w.stream_names@) + (seq_bytes(w.payload_extension_systems@) + t))))))));
            }
        }
        let (i11, stream_number) = match read_u16(i10) {
            Ok(x) => x,
            Err(e) => {
                proof {
                    assert forall|w: ExtendedStreamPropertiesData<'a>, t: Seq<u8>| #[trigger] head_encodes(input.bytes(), w, t) implies false by {
                    }
                }
                return Err(e);
            },
        };
        let ghost consumed11 = consumed10 + spec_u16_to_le_bytes(stream_number);
        proof {
            lemma_splits_chain(input, consumed10, i10, spec_u16_to_le_bytes(stream_number), i11);
            assert forall|w: ExtendedStreamPropertiesData<'a>, t: Seq<u8>| #[trigger] head_encodes(input.bytes(), w, t) implies spec_u16_to_le_bytes(stream_number) == spec_u16_to_le_bytes(w.stream_number) && i11.bytes() == spec_u16_to_le_bytes(w.stream_language_id_index) + (spec_u64_to_le_bytes(w.average_time_per_frame) + (spec_u16_to_le_bytes((w.stream_names@.len()) as u16) + (spec_u16_to_le_bytes((w.payload_extension_systems@.len()) as u16) + (seq_bytes(w.stream_names@) + (seq_bytes(w.payload_extension_systems@) + t))))) by {
                lemma_cancel(i10.bytes(), spec_u16_to_le_bytes(stream_number), i11.bytes(), spec_u16_to_le_bytes(w.stream_number), (spec_u16_to_le_bytes(w.stream_language_id_index) + (spec_u64_to_le_bytes(w.average_time_per_frame) + (spec_u16_to_le_bytes((w.stream_names@.len()) as u16) + (spec_u16_to_le_bytes((w.payload_extension_systems@.len()) as u16) + (seq_bytes(w.stream_names@) + (seq_bytes(w.payload_extension_systems@) + t)))))));
            }
        }
        let (i12, stream_language_id_index) = match read_u16(i11) {
            Ok(x) => x,
            Err(e) => {
                proof {
                    assert forall|w: ExtendedStreamPropertiesData<'a>, t: Seq<u8>| #[trigger] head_encodes(input.bytes(), w, t) implies false by {
                    }
                }
                return Err(e);
            },
        };
        let ghost consumed12 = consumed11 + spec_u16_to_le_bytes(stream_language_id_index);
        proof {
            lemma_splits_chain(input, consumed11, i11, spec_u16_to_le_bytes(stream_language_id_index), i12);
            assert forall|w: ExtendedStreamPropertiesData<'a>, t: Seq<u8>| #[trigger] head_encodes(input.bytes(), w, t) implies spec_u16_to_le_bytes(stream_language_id_index) == spec_u16_to_le_bytes(w.stream_language_id_index) && i12.bytes() == spec_u64_to_le_bytes(w.average_time_per_frame) + (spec_u16_to_le_bytes((w.stream_names@.len()) as u16) + (spec_u16_to_le_bytes((w.payload_extension_systems@.len()) as u16) + (seq_bytes(w.stream_names@) + (seq_bytes(w.payload_extension_systems@) + t)))) by {
                lemma_cancel(i11.bytes(), spec_u16_to_le_bytes(stream_language_id_index), i12.bytes(), spec_u16_to_le_bytes(w.stream_language_id_index), (spec_u64_to_le_bytes(w.average_time_per_frame) + (spec_u16_to_le_bytes((w.stream_names@.len()) as u16) + (spec_u16_to_le_bytes((w.payload_extension_systems@.len()) as u16) + (seq_bytes(w.stream_names@) + (seq_bytes(w.payload_extension_systems@) + t))))));
            }
        }
        let (i13, average_time_per_frame) = match read_u64(i12) {
            Ok(x) => x,
            Err(e) => {
                proof {
                    assert forall|w: ExtendedStreamPropertiesData<'a>, t: Seq<u8>| #[trigger] head_encodes(input.bytes(), w, t) implies false by {
                    }
                }
                return Err(e);
            },
        };
        let ghost consumed13 = consumed12 + spec_u64_to_le_bytes(average_time_per_frame);
        proof {
            lemma_splits_chain(input, consumed12, i12, spec_u64_to_le_bytes(average_time_per_frame), i13);
            assert forall|w: ExtendedStreamPropertiesData<'a>, t: Seq<u8>| #[trigger] head_encodes(input.bytes(), w, t) implies spec_u64_to_le_bytes(average_time_per_frame) == spec_u64_to_le_bytes(w.average_time_per_frame) && i13.bytes() == spec_u16_to_le_bytes((w.stream_names@.len()) as u16) + (spec_u16_to_le_bytes((w.payload_extension_systems@.len()) as u16) + (seq_bytes(w.stream_names@) + (seq_bytes(w.payload_extension_systems@) + t))) by {
                lemma_cancel(i12.bytes(), spec_u64_to_le_bytes(average_time_per_frame), i13.bytes(), spec_u64_to_le_bytes(w.average_time_per_frame), (spec_u16_to_le_bytes((w.stream_names@.len()) as u16) + (spec_u16_to_le_bytes((w.payload_extension_systems@.len()) as u16) + (seq_bytes(w.stream_names@) + (seq_bytes(w.payload_extension_systems@) + t)))));
            }
        }
        let (i14, stream_names_len) = match read_u16(i13) {
            Ok(x) => x,
            Err(e) => {
                proof {
                    assert forall|w: ExtendedStreamPropertiesData<'a>, t: Seq<u8>| #[trigger] head_encodes(input.bytes(), w, t) implies false by {
                    }
                }
                return Err(e);
            },
        };
        let ghost consumed14 = consumed13 + spec_u16_to_le_bytes(stream_names_len);
        proof {
            lemma_splits_chain(input, consumed13, i13, spec_u16_to_le_bytes(stream_names_len), i14);
            assert forall|w: ExtendedStreamPropertiesData<'a>, t: Seq<u8>| #[trigger] head_encodes(input.bytes(), w, t) implies spec_u16_to_le_bytes(stream_names_len) == spec_u16_to_le_bytes((w.stream_names@.len()) as u16) && i14.bytes() == spec_u16_to_le_bytes((w.payload_extension_systems@.len()) as u16) + (seq_bytes(w.stream_names@) + (seq_bytes(w.payload_extension_systems@) + t)) by {
                lemma_cancel(i13.bytes(), spec_u16_to_le_bytes(stream_names_len), i14.bytes(), spec_u16_to_le_bytes((w.stream_names@.len()) as u16), (spec_u16_to_le_bytes((w.payload_extension_systems@.len()) as u16) + (seq_bytes(w.stream_names@) + (seq_bytes(w.payload_extension_systems@) + t))));
            }
        }
        let (i15, payload_extension_systems_len) = match read_u16(i14) {
            Ok(x) => x,
            Err(e) => {
                proof {
                    assert forall|w: ExtendedStreamPropertiesData<'a>, t: Seq<u8>| #[trigger] head_encodes(input.bytes(), w, t) implies false by {
                    }
                }
                return Err(e);
            },
        };
        let ghost consumed15 = consumed14 + spec_u16_to_le_bytes(payload_extension_systems_len);
        proof {
            lemma_splits_chain(input, consumed14, i14, spec_u16_to_le_bytes(payload_extension_systems_len), i15);
            assert forall|w: ExtendedStreamPropertiesData<'a>, t: Seq<u8>| #[trigger] head_encodes(input.bytes(), w, t) implies spec_u16_to_le_bytes(payload_extension_systems_len) == spec_u16_to_le_bytes((w.payload_extension_systems@.len()) as u16) && i15.bytes() == seq_bytes(w.stream_names@) + (seq_bytes(w.payload_extension_systems@) + t) by {
                lemma_cancel(i14.bytes(), spec_u16_to_le_bytes(payload_extension_systems_len), i15.bytes(), spec_u16_to_le_bytes((w.payload_extension_systems@.len()) as u16), (seq_bytes(w.stream_names@) + (seq_bytes(w.payload_extension_systems@) + t)));
            }
        }
        let (i16, stream_names) = match parse_count::<StreamName>(i15, stream_names_len as usize) {
            Ok(x) => x,
            Err(e) => {
                proof {
                    assert forall|w: ExtendedStreamPropertiesData<'a>, t: Seq<u8>| #[trigger] head_encodes(input.bytes(), w, t) implies false by {
                        assert(encodes_seq(i15.bytes(), w.stream_names@, (seq_bytes(w.payload_extension_systems@) + t)));
                    }
                }
                return Err(e);
            },
        };
        let ghost consumed16 = consumed15 + seq_bytes(stream_names@);
        proof {
            lemma_splits_chain(input, consumed15, i15, seq_bytes(stream_names@), i16);
            assert forall|w: ExtendedStreamPropertiesData<'a>, t: Seq<u8>| #[trigger] head_encodes(input.bytes(), w, t) implies seq_bytes(stream_names@) == seq_bytes(w.stream_names@) && i16.bytes() == seq_bytes(w.payload_extension_systems@) + t by {
                assert(encodes_seq(i15.bytes(), w.stream_names@, (seq_bytes(w.payload_extension_systems@) + t)));
                lemma_cancel(i15.bytes(), seq_bytes(stream_names@), i16.bytes(), seq_bytes(w.stream_names@), (seq_bytes(w.payload_extension_systems@) + t));
            }
        }
        let (i17, payload_extension_systems) = match parse_count::<PayloadExtensionSystem>(i16, payload_extension_systems_len as usize) {
            Ok(x) => x,
            Err(e) => {
                proof {
                    assert forall|w: ExtendedStreamPropertiesData<'a>, t: Seq<u8>| #[trigger] head_encodes(input.bytes(), w, t) implies false by {
                        assert(encodes_seq(i16.bytes(), w.payload_extension_systems@, t));
                    }
                }
                return Err(e);
            },
        };
        let ghost consumed17 = consumed16 + seq_bytes(payload_extension_systems@);
        proof {
            lemma_splits_chain(input, consumed16, i16, seq_bytes(payload_extension_systems@), i17);
            assert forall|w: ExtendedStreamPropertiesData<'a>, t: Seq<u8>| #[trigger] head_encodes(input.bytes(), w, t) implies seq_bytes(payload_extension_systems@) == seq_bytes(w.payload_extension_systems@) && i17.bytes() == t by {
                assert(encodes_seq(i16.bytes(), w.payload_extension_systems@, t));
                lemma_cancel(i16.bytes(), seq_bytes(payload_extension_systems@), i17.bytes(), seq_bytes(w.payload_extension_systems@), t);
            }
        }
        let v = ExtendedStreamPropertiesData { start_time, end_time, data_bitrate, buffer_size, initial_buffer_fullness, alternate_data_bitrate, alternate_buffer_size, alternate_initial_buffer_fullness, maximum_object_size, flags, stream_number, stream_language_id_index, average_time_per_frame, stream_names, payload_extension_systems, stream_properties_object: None };
        proof {
            assert forall|w: ExtendedStreamPropertiesData<'a>, t: Seq<u8>| #[trigger] head_encodes(input.bytes(), w, t) implies v.head_bytes() == w.head_bytes() by {
            }
        }
        Ok((i17, v))
    }
}

impl<'a> ExtendedStreamPropertiesData<'a> {
    /// Decodes the fields, then, when bytes remain, one stream properties
    /// object. The bytes consumed are exactly `write`'s output when that
    /// object carries the stream properties GUID and its body is used up.
    pub fn parse(input: Span<'a>) -> (r: Result<(Span<'a>, ExtendedStreamPropertiesData<'a>), Error>)
        ensures
            r matches Ok((rest, v)) ==> {
                &&& v.head_writable()
                &&& stream_properties_tail_writable(v.stream_properties_object)
                &&& rest.bytes().len() == 0
                &&& rest.start() == input.end()
                &&& v.head_bytes().len() <= input.bytes().len()
                &&& v.spec_bytes().len() <= input.bytes().len()
                &&& input.bytes().take(v.head_bytes().len() as int) == v.head_bytes()
                &&& (v.stream_properties_object is None ==> input.bytes() == v.head_bytes())
                &&& (v.stream_properties_object matches Some(sp) ==> {
                    let tail = input.bytes().skip(v.head_bytes().len() as int);
                    &&& object_frame_ok(tail)
                    &&& frame_size(tail) == tail.len()
                    &&& sp.spec_bytes().is_prefix_of(tail.skip(24))
                    &&& (tail.take(16) == guid_to_wire(STREAM_PROPERTIES_OBJECT) && tail.len() == 24 + sp.spec_bytes().len()
                        ==> input.bytes() == v.spec_bytes())
                })
            },
            r matches Err(e) ==> e.kind == ErrorKind::Eof,
            forall|w: ExtendedStreamPropertiesData<'a>, t: Seq<u8>| #[trigger] encodes(input.bytes(), w, t) && t.len() == 0
                ==> r is Ok,
    {
        let (i17, head) = match Self::parse_head(input) {
            Ok(x) => x,
            Err(e) => {
                proof {
                    assert forall|w: ExtendedStreamPropertiesData<'a>, t: Seq<u8>| #[trigger] encodes(input.bytes(), w, t) && t.len() == 0
                        implies false by {
                        assert(w.spec_bytes() + t =~= w.head_bytes() + (stream_properties_tail(w.stream_properties_object) + t));
                        assert(head_encodes(input.bytes(), w, stream_properties_tail(w.stream_properties_object) + t));
                    }
                }
                return Err(e);
            },
        };
        let (rest, stream_properties_object) = match parse_stream_properties_tail(i17) {
            Ok(x) => x,
            Err(e) => {
                proof {
                    assert forall|w: ExtendedStreamPropertiesData<'a>, t: Seq<u8>| #[trigger] encodes(input.bytes(), w, t) && t.len() == 0
                        implies false by {
                        assert(w.spec_bytes() + t =~= w.head_bytes() + (stream_properties_tail(w.stream_properties_object) + t));
                        assert(head_encodes(input.bytes(), w, stream_properties_tail(w.stream_properties_object) + t));
                        crate::wire::lemma_cancel(input.bytes(), head.head_bytes(), i17.bytes(), w.head_bytes(),
                            stream_properties_tail(w.stream_properties_object) + t);
                        assert(i17.bytes() =~= stream_properties_tail(w.stream_properties_object));
                    }
                }
                return Err(e);
            },
        };
        let v = ExtendedStreamPropertiesData { stream_properties_object, ..head };
        proof {
            assert(v.head_bytes() == head.head_bytes());
            assert(v.head_bytes().len() + i17.bytes().len() == input.bytes().len());
            assert(input.bytes().take(v.head_bytes().len() as int) =~= v.head_bytes());
            assert(input.bytes().skip(v.head_bytes().len() as int) =~= i17.bytes());
            lemma_int_bytes_len();
            lemma_guid_value_round_trip(STREAM_PROPERTIES_OBJECT);
            if v.stream_properties_object is None {
                assert(input.bytes() =~= v.head_bytes());
            } else {
                let sp = v.stream_properties_object->Some_0;
                let tail = i17.bytes();
                if tail.take(16) == guid_to_wire(STREAM_PROPERTIES_OBJECT) && tail.len() == 24 + sp.spec_bytes().len() {
                    assert(tail =~= stream_properties_tail(v.stream_properties_object));
                    assert(input.bytes() =~= v.spec_bytes());
                }
            }
        }
        Ok((rest, v))
    }
}

/// `b` is the fields of `w` before its stream properties object, then `t`.
pub open spec fn head_encodes(b: Seq<u8>, w: ExtendedStreamPropertiesData, t: Seq<u8>) -> bool {
    &&& b == w.head_bytes() + t
    &&& w.head_writable()
}

/// The optional stream properties object that ends an extended stream
/// properties object, framed with its GUID and size.
pub open spec fn stream_properties_tail(sp: Option<StreamPropertiesData>) -> Seq<u8> {
    match sp {
        Some(d) => frame_bytes(STREAM_PROPERTIES_OBJECT, d.spec_bytes().len()) + d.spec_bytes(),
        None => Seq::empty(),
    }
}

pub open spec fn stream_properties_tail_writable(sp: Option<StreamPropertiesData>) -> bool {
    match sp {
        Some(d) => d.writable() && 24 + d.spec_bytes().len() <= u64::MAX,
        None => true,
    }
}

fn size_of_stream_properties_tail(sp: &Option<StreamPropertiesData>) -> (r: usize)
    requires
        stream_properties_tail(*sp).len() <= usize::MAX,
    ensures
        r == stream_properties_tail(*sp).len(),
{
    proof {
        lemma_int_bytes_len();
        lemma_guid_value_round_trip(STREAM_PROPERTIES_OBJECT);
    }
    match sp {
        Some(d) => 24 + d.size_of(),
        None => 0,
    }
}

fn write_stream_properties_tail(sp: &Option<StreamPropertiesData>, w: &mut Vec<u8>) -> (r: Result<(), WriteError>)
    requires
        stream_properties_tail(*sp).len() <= usize::MAX,
    ensures
        r is Ok <==> stream_properties_tail_writable(*sp),
        r is Ok ==> final(w)@ == old(w)@ + stream_properties_tail(*sp),
{
    proof {
        lemma_int_bytes_len();
        lemma_guid_value_round_trip(STREAM_PROPERTIES_OBJECT);
    }
    match sp {
        Some(d) => {
            let n = d.size_of();
            if n as u64 > u64::MAX - 24 {
                return Err(WriteError::FieldTooLarge);
            }
            write_guid(w, Guid(STREAM_PROPERTIES_OBJECT));
            write_u64(w, 24 + n as u64);
            d.write(w)?;
            proof {
                lemma_concat_associative(old(w)@, guid_to_wire(STREAM_PROPERTIES_OBJECT), spec_u64_to_le_bytes((24 + n) as u64));
                lemma_concat_associative(old(w)@, frame_bytes(STREAM_PROPERTIES_OBJECT, n as nat), d.spec_bytes());
            }
            Ok(())
        },
        None => {
            proof {
                assert(w@ =~= old(w)@ + stream_properties_tail(*sp));
            }
            Ok(())
        },
    }
}

/// When bytes remain, one object whose body decodes as stream properties.
fn parse_stream_properties_tail<'a>(input: Span<'a>) -> (r: Result<(Span<'a>, Option<StreamPropertiesData<'a>>), Error>)
    ensures
        r matches Ok((rest, sp)) ==> {
            &&& rest.bytes().len() == 0
            &&& rest.start() == input.end()
            &&& stream_properties_tail_writable(sp)
            &&& (sp is None <==> input.bytes().len() == 0)
            &&& (sp matches Some(d) ==> {
                &&& object_frame_ok(input.bytes())
                &&& frame_size(input.bytes()) == input.bytes().len()
                &&& d.spec_bytes().is_prefix_of(input.bytes().skip(24))
                &&& (input.bytes().len() == 24 + d.spec_bytes().len()
                    ==> input.bytes().skip(24) == d.spec_bytes()
                        && input.bytes().subrange(16, 24) == spec_u64_to_le_bytes((24 + d.spec_bytes().len()) as u64))
            })
        },
        r matches Err(e) ==> e.kind == ErrorKind::Eof,
        forall|sp: Option<StreamPropertiesData>| #[trigger] stream_properties_tail(sp) == input.bytes()
            && stream_properties_tail_writable(sp) ==> r is Ok,
{
    let n = input.len();
    if n == 0 {
        return Ok((input, None));
    }
    proof {
        lemma_int_bytes_len();
        lemma_guid_value_round_trip(STREAM_PROPERTIES_OBJECT);
        vstd::bytes::lemma_auto_spec_u64_to_from_le_bytes();
        assert forall|sp: Option<StreamPropertiesData>| #[trigger] stream_properties_tail(sp) == input.bytes()
            && stream_properties_tail_writable(sp) implies object_frame_ok(input.bytes())
                && frame_size(input.bytes()) == input.bytes().len() by {
            if let Some(d) = sp {
                assert(input.bytes().subrange(16, 24) =~= spec_u64_to_le_bytes((24 + d.spec_bytes().len()) as u64));
            }
        }
    }
    let (rest, o) = object(input)?;
    if rest.len() != 0 {
        return Err(Error::new(ErrorKind::Eof, rest.location_offset()));
    }
    let (_, d) = match StreamPropertiesData::parse(o.data) {
        Ok(x) => x,
        Err(e) => {
            proof {
                assert forall|sp: Option<StreamPropertiesData>| #[trigger] stream_properties_tail(sp) == input.bytes()
                    && stream_properties_tail_writable(sp) implies false by {
                    if let Some(dd) = sp {
                        assert(o.data.bytes() =~= input.bytes().skip(24));
                        assert(input.bytes().skip(24) =~= dd.spec_bytes());
                        assert(encodes(o.data.bytes(), dd, Seq::<u8>::empty()));
                    }
                }
            }
            return Err(e);
        },
    };
    proof {
        lemma_int_bytes_len();
        lemma_guid_value_round_trip(o.guid.0);
        assert(input.bytes() =~= o.spec_bytes());
        assert(input.bytes().skip(24) =~= o.data.bytes());
        assert(d.spec_bytes() =~= o.data.bytes().take(d.spec_bytes().len() as int));
        assert(input.bytes().subrange(16, 24) =~= spec_u64_to_le_bytes((24 + o.data.bytes().len()) as u64));
        if input.bytes().len() == 24 + d.spec_bytes().len() {
            assert(o.data.bytes() =~= d.spec_bytes());
        }
    }
    Ok((rest, Some(d)))
}

} // verus!
