use vstd::prelude::*;
use vstd::bytes::*;
use vstd::seq_lib::lemma_concat_associative;

use crate::error::{Error, ErrorKind, WriteError};
use crate::span::{lemma_splits_chain, Span};
use crate::guid::{guid, guid_to_wire, lemma_guid_value_round_trip, write_guid, Guid};
use crate::wire::{parsed, all_writable, encodes_seq, encodes, lemma_cancel, lemma_int_bytes_injective, lemma_int_bytes_len, parse_count, read_u16, seq_bytes, size_of_seq, write_seq, write_u16, Parse, Wire};

verus! {

/// The bitrate mutual exclusion object: an exclusion type and the stream numbers it covers.
#[derive(Debug, PartialEq, Eq)]
pub struct BitrateMutualExclusionData {
    pub exclusion_type: Guid,
    pub stream_numbers: Vec<u16>,
}

impl BitrateMutualExclusionData {
    /// The number of bytes `write` emits, computed without writing.
    pub fn size_of(&self) -> (r: usize)
        requires
            self.spec_bytes().len() <= usize::MAX,
        ensures
            r == self.spec_bytes().len(),
    {
        proof {
            lemma_int_bytes_len();
            lemma_guid_value_round_trip(self.exclusion_type.0);
        }
        let mut n: usize = 0;
        n = n + 16;
        n = n + 2;
        n = n + size_of_seq(&self.stream_numbers);
        n
    }

    /// Appends the wire form to `w`; fails when a length overflows its prefix.
    pub fn write(&self, w: &mut Vec<u8>) -> (r: Result<(), WriteError>)
        requires
            self.spec_bytes().len() <= usize::MAX,
        ensures
            r is Ok <==> self.writable(),
            r is Ok ==> final(w)@ == old(w)@ + self.spec_bytes(),
    {
        proof {
            lemma_int_bytes_len();
            lemma_guid_value_round_trip(self.exclusion_type.0);
        }
        write_guid(w, self.exclusion_type);
        let stream_numbers_len: usize = self.stream_numbers.len();
        if stream_numbers_len > 0xffff {
            return Err(WriteError::FieldTooLarge);
        }
        write_u16(w, stream_numbers_len as u16);
        proof {
            lemma_concat_associative(old(w)@, guid_to_wire(self.exclusion_type.0), spec_u16_to_le_bytes((self.stream_numbers@.len()) as u16));
        }
        write_seq(&self.stream_numbers, w)?;
        proof {
            lemma_concat_associative(old(w)@, guid_to_wire(self.exclusion_type.0) + spec_u16_to_le_bytes((self.stream_numbers@.len()) as u16), seq_bytes(self.stream_numbers@));
        }
        Ok(())
    }
}

impl Wire for BitrateMutualExclusionData {
    open spec fn spec_bytes(&self) -> Seq<u8> {
        guid_to_wire(self.exclusion_type.0)
            + spec_u16_to_le_bytes((self.stream_numbers@.len()) as u16)
            + seq_bytes(self.stream_numbers@)
    }

    open spec fn writable(&self) -> bool {
        self.stream_numbers@.len() <= 0xffff
        && all_writable(self.stream_numbers@)
    }

    fn size_of(&self) -> (r: usize) {
        Self::size_of(self)
    }

    fn write(&self, w: &mut Vec<u8>) -> (r: Result<(), WriteError>) {
        Self::write(self, w)
    }
}

impl BitrateMutualExclusionData {
    /// Decodes one value; the bytes consumed are exactly what `write` emits for it.
    pub fn parse<'a>(input: Span<'a>) -> (r: Result<(Span<'a>, BitrateMutualExclusionData), Error>)
        ensures
            r matches Ok((rest, v)) ==> parsed(input, v, rest),
            r matches Err(e) ==> e.kind == ErrorKind::Eof,
            forall|w: Self, t: Seq<u8>| #[trigger] encodes(input.bytes(), w, t)
                ==> (r matches Ok((rest, v)) && v.spec_bytes() == w.spec_bytes()),
    {
        proof {
            lemma_int_bytes_len();
            lemma_int_bytes_injective();
        }
        proof {
            assert forall|w: BitrateMutualExclusionData, t: Seq<u8>| #[trigger] encodes(input.bytes(), w, t) implies input.bytes() == guid_to_wire(w.exclusion_type.0) + (spec_u16_to_le_bytes((w.stream_numbers@.len()) as u16) + (seq_bytes(w.stream_numbers@) + t)) by {
                lemma_guid_value_round_trip(w.exclusion_type.0);
                lemma_concat_associative(guid_to_wire(w.exclusion_type.0) + spec_u16_to_le_bytes((w.stream_numbers@.len()) as u16), seq_bytes(w.stream_numbers@), t);
                lemma_concat_associative(guid_to_wire(w.exclusion_type.0), spec_u16_to_le_bytes((w.stream_numbers@.len()) as u16), (seq_bytes(w.stream_numbers@) + t));
            }
        }
        let (i1, exclusion_type) = match guid(input) {
            Ok(x) => x,
            Err(e) => {
                proof {
                    assert forall|w: BitrateMutualExclusionData, t: Seq<u8>| #[trigger] encodes(input.bytes(), w, t) implies false by {
                        lemma_guid_value_round_trip(w.exclusion_type.0);
                    }
                }
                return Err(e);
            },
        };
        let ghost consumed1 = guid_to_wire(exclusion_type.0);
        proof {
            lemma_guid_value_round_trip(exclusion_type.0);
            assert forall|w: BitrateMutualExclusionData, t: Seq<u8>| #[trigger] encodes(input.bytes(), w, t) implies guid_to_wire(exclusion_type.0) == guid_to_wire(w.exclusion_type.0) && i1.bytes() == spec_u16_to_le_bytes((w.stream_numbers@.len()) as u16) + (seq_bytes(w.stream_numbers@) + t) by {
                lemma_guid_value_round_trip(w.exclusion_type.0);
                lemma_cancel(input.bytes(), guid_to_wire(exclusion_type.0), i1.bytes(), guid_to_wire(w.exclusion_type.0), (spec_u16_to_le_bytes((w.stream_numbers@.len()) as u16) + (seq_bytes(w.stream_numbers@) + t)));
            }
        }
        let (i2, stream_numbers_len) = match read_u16(i1) {
            Ok(x) => x,
            Err(e) => {
                proof {
                    assert forall|w: BitrateMutualExclusionData, t: Seq<u8>| #[trigger] encodes(input.bytes(), w, t) implies false by {
                    }
                }
                return Err(e);
            },
        };
        let ghost consumed2 = consumed1 + spec_u16_to_le_bytes(stream_numbers_len);
        proof {
            lemma_splits_chain(input, consumed1, i1, spec_u16_to_le_bytes(stream_numbers_len), i2);
            assert forall|w: BitrateMutualExclusionData, t: Seq<u8>| #[trigger] encodes(input.bytes(), w, t) implies spec_u16_to_le_bytes(stream_numbers_len) == spec_u16_to_le_bytes((w.stream_numbers@.len()) as u16) && i2.bytes() == seq_bytes(w.stream_numbers@) + t by {
                lemma_cancel(i1.bytes(), spec_u16_to_le_bytes(stream_numbers_len), i2.bytes(), spec_u16_to_le_bytes((w.stream_numbers@.len()) as u16), (seq_bytes(w.stream_numbers@) + t));
            }
        }
        let (i3, stream_numbers) = match parse_count::<u16>(i2, stream_numbers_len as usize) {
            Ok(x) => x,
            Err(e) => {
                proof {
                    assert forall|w: BitrateMutualExclusionData, t: Seq<u8>| #[trigger] encodes(input.bytes(), w, t) implies false by {
                        assert(encodes_seq(i2.bytes(), w.stream_numbers@, t));
                    }
                }
                return Err(e);
            },
        };
        let ghost consumed3 = consumed2 + seq_bytes(stream_numbers@);
        proof {
            lemma_splits_chain(input, consumed2, i2, seq_bytes(stream_numbers@), i3);
            assert forall|w: BitrateMutualExclusionData, t: Seq<u8>| #[trigger] encodes(input.bytes(), w, t) implies seq_bytes(stream_numbers@) == seq_bytes(w.stream_numbers@) && i3.bytes() == t by {
                assert(encodes_seq(i2.bytes(), w.stream_numbers@, t));
                lemma_cancel(i2.bytes(), seq_bytes(stream_numbers@), i3.bytes(), seq_bytes(w.stream_numbers@), t);
            }
        }
        let v = BitrateMutualExclusionData { exclusion_type, stream_numbers };
        proof {
            assert forall|w: BitrateMutualExclusionData, t: Seq<u8>| #[trigger] encodes(input.bytes(), w, t) implies v.spec_bytes() == w.spec_bytes() by {
            }
        }
        Ok((i3, v))
    }
}

impl<'a> Parse<'a> for BitrateMutualExclusionData {
    fn parse(input: Span<'a>) -> (r: Result<(Span<'a>, BitrateMutualExclusionData), Error>) {
        Self::parse(input)
    }
}

} // verus!
