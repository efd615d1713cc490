use vstd::prelude::*;
use vstd::bytes::*;
use vstd::seq_lib::lemma_concat_associative;

use crate::error::{Error, ErrorKind, WriteError};
use crate::span::{lemma_splits_chain, Span};
use crate::guid::{guid, guid_to_wire, lemma_guid_value_round_trip, write_guid, Guid};
use crate::wire::{parsed, all_writable, encodes_seq, encodes, lemma_cancel, lemma_int_bytes_injective, lemma_int_bytes_len, parse_count, read_u16, read_u32, seq_bytes, size_of_seq, write_seq, write_u16, write_u32, Parse, Wire};

verus! {

/// The bandwidth sharing object.
#[derive(Debug, PartialEq, Eq)]
pub struct BandwidthSharingData {
    pub sharing_type: Guid,
    pub data_bitrate: u32,
    pub buffer_size: u32,
    pub stream_numbers: Vec<u16>,
}

impl BandwidthSharingData {
    /// The number of bytes `write` emits, computed without writing.
    pub fn size_of(&self) -> (r: usize)
        requires
            self.spec_bytes().len() <= usize::MAX,
        ensures
            r == self.spec_bytes().len(),
    {
        proof {
            lemma_int_bytes_len();
            lemma_guid_value_round_trip(self.sharing_type.0);
        }
        let mut n: usize = 0;
        n = n + 16;
        n = n + 4;
        n = n + 4;
        n = n + 2;
        n = n + size_of_seq(&self.stream_numbers);
        n
    }

    /// Appends the wire form to `w`; fails when a length overflows its prefix.
    pub fn write(&self, w: &mut Vec<u8>) -> (r: Result<(), WriteError>)
        requires
            self.spec_bytes().len() <= usize::MAX,
        ensures
            r is Ok <==> self.writable(),
            r is Ok ==> final(w)@ == old(w)@ + self.spec_bytes(),
    {
        proof {
            lemma_int_bytes_len();
            lemma_guid_value_round_trip(self.sharing_type.0);
        }
        write_guid(w, self.sharing_type);
        write_u32(w, self.data_bitrate);
        proof {
            lemma_concat_associative(old(w)@, guid_to_wire(self.sharing_type.0), spec_u32_to_le_bytes(self.data_bitrate));
        }
        write_u32(w, self.buffer_size);
        proof {
            lemma_concat_associative(old(w)@, guid_to_wire(self.sharing_type.0) + spec_u32_to_le_bytes(self.data_bitrate), spec_u32_to_le_bytes(self.buffer_size));
        }
        let stream_numbers_len: usize = self.stream_numbers.len();
        if stream_numbers_len > 0xffff {
            return Err(WriteError::FieldTooLarge);
        }
        write_u16(w, stream_numbers_len as u16);
        proof {
            lemma_concat_associative(old(w)@, guid_to_wire(self.sharing_type.0) + spec_u32_to_le_bytes(self.data_bitrate) + spec_u32_to_le_bytes(self.buffer_size), spec_u16_to_le_bytes((self.stream_numbers@.len()) as u16));
        }
        write_seq(&self.stream_numbers, w)?;
        proof {
            lemma_concat_associative(old(w)@, guid_to_wire(self.sharing_type.0) + spec_u32_to_le_bytes(self.data_bitrate) + spec_u32_to_le_bytes(self.buffer_size) + spec_u16_to_le_bytes((self.stream_numbers@.len()) as u16), seq_bytes(self.stream_numbers@));
        }
        Ok(())
    }
}

impl Wire for BandwidthSharingData {
    open spec fn spec_bytes(&self) -> Seq<u8> {
        guid_to_wire(self.sharing_type.0)
            + spec_u32_to_le_bytes(self.data_bitrate)
            + spec_u32_to_le_bytes(self.buffer_size)
            + spec_u16_to_le_bytes((self.stream_numbers@.len()) as u16)
            + seq_bytes(self.stream_numbers@)
    }

    open spec fn writable(&self) -> bool {
        self.stream_numbers@.len() <= 0xffff
        && all_writable(self.stream_numbers@)
    }

    fn size_of(&self) -> (r: usize) {
        Self::size_of(self)
    }

    fn write(&self, w: &mut Vec<u8>) -> (r: Result<(), WriteError>) {
        Self::write(self, w)
    }
}

impl BandwidthSharingData {
    /// Decodes one value; the bytes consumed are exactly what `write` emits for it.
    pub fn parse<'a>(input: Span<'a>) -> (r: Result<(Span<'a>, BandwidthSharingData), Error>)
        ensures
            r matches Ok((rest, v)) ==> parsed(input, v, rest),
            r matches Err(e) ==> e.kind == ErrorKind::Eof,
            forall|w: Self, t: Seq<u8>| #[trigger] encodes(input.bytes(), w, t)
                ==> (r matches Ok((rest, v)) && v.spec_bytes() == w.spec_bytes()),
    {
        proof {
            lemma_int_bytes_len();
            lemma_int_bytes_injective();
        }
        proof {
            assert forall|w: BandwidthSharingData, t: Seq<u8>| #[trigger] encodes(input.bytes(), w, t) implies input.bytes() == guid_to_wire(w.sharing_type.0) + (spec_u32_to_le_bytes(w.data_bitrate) + (spec_u32_to_le_bytes(w.buffer_size) + (spec_u16_to_le_bytes((w.stream_numbers@.len()) as u16) + (seq_bytes(w.stream_numbers@) + t)))) by {
                lemma_guid_value_round_trip(w.sharing_type.0);
                lemma_concat_associative(guid_to_wire(w.sharing_type.0) + spec_u32_to_le_bytes(w.data_bitrate) + spec_u32_to_le_bytes(w.buffer_size) + spec_u16_to_le_bytes((w.stream_numbers@.len()) as u16), seq_bytes(w.stream_numbers@), t);
                lemma_concat_associative(guid_to_wire(w.sharing_type.0) + spec_u32_to_le_bytes(w.data_bitrate) + spec_u32_to_le_bytes(w.buffer_size), spec_u16_to_le_bytes((w.stream_numbers@.len()) as u16), (seq_bytes(w.stream_numbers@) + t));
                lemma_concat_associative(guid_to_wire(w.sharing_type.0) + spec_u32_to_le_bytes(w.data_bitrate), spec_u32_to_le_bytes(w.buffer_size), (spec_u16_to_le_bytes((w.stream_numbers@.len()) as u16) + (seq_bytes(w.stream_numbers@) + t)));
                lemma_concat_associative(guid_to_wire(w.sharing_type.0), spec_u32_to_le_bytes(w.data_bitrate), (spec_u32_to_le_bytes(w.buffer_size) + (spec_u16_to_le_bytes((w.stream_numbers@.len()) as u16) + (seq_bytes(w.stream_numbers@) + t))));
            }
        }
        let (i1, sharing_type) = match guid(input) {
            Ok(x) => x,
            Err(e) => {
                proof {
                    assert forall|w: BandwidthSharingData, t: Seq<u8>| #[trigger] encodes(input.bytes(), w, t) implies false by {
                        lemma_guid_value_round_trip(w.sharing_type.0);
                    }
                }
                return Err(e);
            },
        };
        let ghost consumed1 = guid_to_wire(sharing_type.0);
        proof {
            lemma_guid_value_round_trip(sharing_type.0);
            assert forall|w: BandwidthSharingData, t: Seq<u8>| #[trigger] encodes(input.bytes(), w, t) implies guid_to_wire(sharing_type.0) == guid_to_wire(w.sharing_type.0) && i1.bytes() == spec_u32_to_le_bytes(w.data_bitrate) + (spec_u32_to_le_bytes(w.buffer_size) + (spec_u16_to_le_bytes((w.stream_numbers@.len()) as u16) + (seq_bytes(w.stream_numbers@) + t))) by {
                lemma_guid_value_round_trip(w.sharing_type.0);
                lemma_cancel(input.bytes(), guid_to_wire(sharing_type.0), i1.bytes(), guid_to_wire(w.sharing_type.0), (spec_u32_to_le_bytes(w.data_bitrate) + (spec_u32_to_le_bytes(w.buffer_size) + (spec_u16_to_le_bytes((w.stream_numbers@.len()) as u16) + (seq_bytes(w.stream_numbers@) + t)))));
            }
        }
        let (i2, data_bitrate) = match read_u32(i1) {
            Ok(x) => x,
            Err(e) => {
                proof {
                    assert forall|w: BandwidthSharingData, t: Seq<u8>| #[trigger] encodes(input.bytes(), w, t) implies false by {
                    }
                }
                return Err(e);
            },
        };
        let ghost consumed2 = consumed1 + spec_u32_to_le_bytes(data_bitrate);
        proof {
            lemma_splits_chain(input, consumed1, i1, spec_u32_to_le_bytes(data_bitrate), i2);
            assert forall|w: BandwidthSharingData, t: Seq<u8>| #[trigger] encodes(input.bytes(), w, t) implies spec_u32_to_le_bytes(data_bitrate) == spec_u32_to_le_bytes(w.data_bitrate) && i2.bytes() == spec_u32_to_le_bytes(w.buffer_size) + (spec_u16_to_le_bytes((w.stream_numbers@.len()) as u16) + (seq_bytes(w.stream_numbers@) + t)) by {
                lemma_cancel(i1.bytes(), spec_u32_to_le_bytes(data_bitrate), i2.bytes(), spec_u32_to_le_bytes(w.data_bitrate), (spec_u32_to_le_bytes(w.buffer_size) + (spec_u16_to_le_bytes((w.stream_numbers@.len()) as u16) + (seq_bytes(w.stream_numbers@) + t))));
            }
        }
        let (i3, buffer_size) = match read_u32(i2) {
            Ok(x) => x,
            Err(e) => {
                proof {
                    assert forall|w: BandwidthSharingData, t: Seq<u8>| #[trigger] encodes(input.bytes(), w, t) implies false by {
                    }
                }
                return Err(e);
            },
        };
        let ghost consumed3 = consumed2 + spec_u32_to_le_bytes(buffer_size);
        proof {
            lemma_splits_chain(input, consumed2, i2, spec_u32_to_le_bytes(buffer_size), i3);
            assert forall|w: BandwidthSharingData, t: Seq<u8>| #[trigger] encodes(input.bytes(), w, t) implies spec_u32_to_le_bytes(buffer_size) == spec_u32_to_le_bytes(w.buffer_size) && i3.bytes() == spec_u16_to_le_bytes((w.stream_numbers@.len()) as u16) + (seq_bytes(w.stream_numbers@) + t) by {
                lemma_cancel(i2.bytes(), spec_u32_to_le_bytes(buffer_size), i3.bytes(), spec_u32_to_le_bytes(w.buffer_size), (spec_u16_to_le_bytes((w.stream_numbers@.len()) as u16) + (seq_bytes(w.stream_numbers@) + t)));
            }
        }
        let (i4, stream_numbers_len) = match read_u16(i3) {
            Ok(x) => x,
            Err(e) => {
                proof {
                    assert forall|w: BandwidthSharingData, t: Seq<u8>| #[trigger] encodes(input.bytes(), w, t) implies false by {
                    }
                }
                return Err(e);
            },
        };
        let ghost consumed4 = consumed3 + spec_u16_to_le_bytes(stream_numbers_len);
        proof {
            lemma_splits_chain(input, consumed3, i3, spec_u16_to_le_bytes(stream_numbers_len), i4);
            assert forall|w: BandwidthSharingData, t: Seq<u8>| #[trigger] encodes(input.bytes(), w, t) implies spec_u16_to_le_bytes(stream_numbers_len) == spec_u16_to_le_bytes((w.stream_numbers@.len()) as u16) && i4.bytes() == seq_bytes(w.stream_numbers@) + t by {
                lemma_cancel(i3.bytes(), spec_u16_to_le_bytes(stream_numbers_len), i4.bytes(), spec_u16_to_le_bytes((w.stream_numbers@.len()) as u16), (seq_bytes(w.stream_numbers@) + t));
            }
        }
        let (i5, stream_numbers) = match parse_count::<u16>(i4, stream_numbers_len as usize) {
            Ok(x) => x,
            Err(e) => {
                proof {
                    assert forall|w: BandwidthSharingData, t: Seq<u8>| #[trigger] encodes(input.bytes(), w, t) implies false by {
                        assert(encodes_seq(i4.bytes(), w.stream_numbers@, t));
                    }
                }
                return Err(e);
            },
        };
        let ghost consumed5 = consumed4 + seq_bytes(stream_numbers@);
        proof {
            lemma_splits_chain(input, consumed4, i4, seq_bytes(stream_numbers@), i5);
            assert forall|w: BandwidthSharingData, t: Seq<u8>| #[trigger] encodes(input.bytes(), w, t) implies seq_bytes(stream_numbers@) == seq_bytes(w.stream_numbers@) && i5.bytes() == t by {
                assert(encodes_seq(i4.bytes(), w.stream_numbers@, t));
                lemma_cancel(i4.bytes(), seq_bytes(stream_numbers@), i5.bytes(), seq_bytes(w.stream_numbers@), t);
            }
        }
        let v = BandwidthSharingData { sharing_type, data_bitrate, buffer_size, stream_numbers };
        proof {
            assert forall|w: BandwidthSharingData, t: Seq<u8>| #[trigger] encodes(input.bytes(), w, t) implies v.spec_bytes() == w.spec_bytes() by {
            }
        }
        Ok((i5, v))
    }
}

impl<'a> Parse<'a> for BandwidthSharingData {
    fn parse(input: Span<'a>) -> (r: Result<(Span<'a>, BandwidthSharingData), Error>) {
        Self::parse(input)
    }
}

} // verus!
