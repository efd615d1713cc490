use vstd::prelude::*;
use vstd::bytes::*;
use vstd::seq_lib::lemma_concat_associative;

use crate::error::{Error, ErrorKind, WriteError};
use crate::span::{lemma_splits_chain, Span};
use crate::wire::{parsed, all_writable, encodes_seq, encodes, lemma_cancel, lemma_int_bytes_injective, lemma_int_bytes_len, parse_count, read_u16, read_u32, seq_bytes, size_of_seq, write_seq, write_u16, write_u32, Parse, Wire};

verus! {

/// The average bitrate of one stream.
#[derive(Debug, PartialEq, Eq)]
pub struct BitrateRecord {
    pub flags: u16,
    pub average_bitrate: u32,
}

impl BitrateRecord {
    /// The number of bytes `write` emits, computed without writing.
    pub fn size_of(&self) -> (r: usize)
        requires
            self.spec_bytes().len() <= usize::MAX,
        ensures
            r == self.spec_bytes().len(),
    {
        proof {
            lemma_int_bytes_len();
        }
        let mut n: usize = 0;
        n = n + 2;
        n = n + 4;
        n
    }

    /// Appends the wire form to `w`; fails when a length overflows its prefix.
    pub fn write(&self, w: &mut Vec<u8>) -> (r: Result<(), WriteError>)
        requires
            self.spec_bytes().len() <= usize::MAX,
        ensures
            r is Ok <==> self.writable(),
            r is Ok ==> final(w)@ == old(w)@ + self.spec_bytes(),
    {
        proof {
            lemma_int_bytes_len();
        }
        write_u16(w, self.flags);
        write_u32(w, self.average_bitrate);
        proof {
            lemma_concat_associative(old(w)@, spec_u16_to_le_bytes(self.flags), spec_u32_to_le_bytes(self.average_bitrate));
        }
        Ok(())
    }
}

impl Wire for BitrateRecord {
    open spec fn spec_bytes(&self) -> Seq<u8> {
        spec_u16_to_le_bytes(self.flags)
            + spec_u32_to_le_bytes(self.average_bitrate)
    }

    open spec fn writable(&self) -> bool {
        true
    }

    fn size_of(&self) -> (r: usize) {
        Self::size_of(self)
    }

    fn write(&self, w: &mut Vec<u8>) -> (r: Result<(), WriteError>) {
        Self::write(self, w)
    }
}

impl BitrateRecord {
    /// Decodes one value; the bytes consumed are exactly what `write` emits for it.
    pub fn parse<'a>(input: Span<'a>) -> (r: Result<(Span<'a>, BitrateRecord), Error>)
        ensures
            r is Ok <==> 6 <= input.bytes().len(),
            r matches Ok((rest, v)) ==> parsed(input, v, rest),
            r matches Err(e) ==> e.kind == ErrorKind::Eof,
            forall|w: Self, t: Seq<u8>| #[trigger] encodes(input.bytes(), w, t)
                ==> (r matches Ok((rest, v)) && v.spec_bytes() == w.spec_bytes()),
    {
        proof {
            lemma_int_bytes_len();
            lemma_int_bytes_injective();
        }
        proof {
            assert forall|w: BitrateRecord, t: Seq<u8>| #[trigger] encodes(input.bytes(), w, t) implies input.bytes() == spec_u16_to_le_bytes(w.flags) + (spec_u32_to_le_bytes(w.average_bitrate) + t) by {
                lemma_concat_associative(spec_u16_to_le_bytes(w.flags), spec_u32_to_le_bytes(w.average_bitrate), t);
            }
        }
        let (i1, flags) = match read_u16(input) {
            Ok(x) => x,
            Err(e) => {
                proof {
                    assert forall|w: BitrateRecord, t: Seq<u8>| #[trigger] encodes(input.bytes(), w, t) implies false by {
                    }
                }
                return Err(e);
            },
        };
        let ghost consumed1 = spec_u16_to_le_bytes(flags);
        proof {
            assert forall|w: BitrateRecord, t: Seq<u8>| #[trigger] encodes(input.bytes(), w, t) implies spec_u16_to_le_bytes(flags) == spec_u16_to_le_bytes(w.flags) && i1.bytes() == spec_u32_to_le_bytes(w.average_bitrate) + t by {
                lemma_cancel(input.bytes(), spec_u16_to_le_bytes(flags), i1.bytes(), spec_u16_to_le_bytes(w.flags), (spec_u32_to_le_bytes(w.average_bitrate) + t));
            }
        }
        let (i2, average_bitrate) = match read_u32(i1) {
            Ok(x) => x,
            Err(e) => {
                proof {
                    assert forall|w: BitrateRecord, t: Seq<u8>| #[trigger] encodes(input.bytes(), w, t) implies false by {
                    }
                }
                return Err(e);
            },
        };
        let ghost consumed2 = consumed1 + spec_u32_to_le_bytes(average_bitrate);
        proof {
            lemma_splits_chain(input, consumed1, i1, spec_u32_to_le_bytes(average_bitrate), i2);
            assert forall|w: BitrateRecord, t: Seq<u8>| #[trigger] encodes(input.bytes(), w, t) implies spec_u32_to_le_bytes(average_bitrate) == spec_u32_to_le_bytes(w.average_bitrate) && i2.bytes() == t by {
                lemma_cancel(i1.bytes(), spec_u32_to_le_bytes(average_bitrate), i2.bytes(), spec_u32_to_le_bytes(w.average_bitrate), t);
            }
        }
        let v = BitrateRecord { flags, average_bitrate };
        proof {
            assert forall|w: BitrateRecord, t: Seq<u8>| #[trigger] encodes(input.bytes(), w, t) implies v.spec_bytes() == w.spec_bytes() by {
            }
        }
        Ok((i2, v))
    }
}

impl<'a> Parse<'a> for BitrateRecord {
    fn parse(input: Span<'a>) -> (r: Result<(Span<'a>, BitrateRecord), Error>) {
        Self::parse(input)
    }
}

/// The stream bitrate properties object.
#[derive(Debug, PartialEq, Eq)]
pub struct StreamBitratePropertiesData {
    pub bitrate_records: Vec<BitrateRecord>,
}

impl StreamBitratePropertiesData {
    /// The number of bytes `write` emits, computed without writing.
    pub fn size_of(&self) -> (r: usize)
        requires
            self.spec_bytes().len() <= usize::MAX,
        ensures
            r == self.spec_bytes().len(),
    {
        proof {
            lemma_int_bytes_len();
        }
        let mut n: usize = 0;
        n = n + 2;
        n = n + size_of_seq(&self.bitrate_records);
        n
    }

    /// Appends the wire form to `w`; fails when a length overflows its prefix.
    pub fn write(&self, w: &mut Vec<u8>) -> (r: Result<(), WriteError>)
        requires
            self.spec_bytes().len() <= usize::MAX,
        ensures
            r is Ok <==> self.writable(),
            r is Ok ==> final(w)@ == old(w)@ + self.spec_bytes(),
    {
        proof {
            lemma_int_bytes_len();
        }
        let bitrate_records_len: usize = self.bitrate_records.len();
        if bitrate_records_len > 0xffff {
            return Err(WriteError::FieldTooLarge);
        }
        write_u16(w, bitrate_records_len as u16);
        write_seq(&self.bitrate_records, w)?;
        proof {
            lemma_concat_associative(old(w)@, spec_u16_to_le_bytes((self.bitrate_records@.len()) as u16), seq_bytes(self.bitrate_records@));
        }
        Ok(())
    }
}

impl Wire for StreamBitratePropertiesData {
    open spec fn spec_bytes(&self) -> Seq<u8> {
        spec_u16_to_le_bytes((self.bitrate_records@.len()) as u16)
            + seq_bytes(self.bitrate_records@)
    }

    open spec fn writable(&self) -> bool {
        self.bitrate_records@.len() <= 0xffff
        && all_writable(self.bitrate_records@)
    }

    fn size_of(&self) -> (r: usize) {
        Self::size_of(self)
    }

    fn write(&self, w: &mut Vec<u8>) -> (r: Result<(), WriteError>) {
        Self::write(self, w)
    }
}

impl StreamBitratePropertiesData {
    /// Decodes one value; the bytes consumed are exactly what `write` emits for it.
    pub fn parse<'a>(input: Span<'a>) -> (r: Result<(Span<'a>, StreamBitratePropertiesData), Error>)
        ensures
            r matches Ok((rest, v)) ==> parsed(input, v, rest),
            r matches Err(e) ==> e.kind == ErrorKind::Eof,
            forall|w: Self, t: Seq<u8>| #[trigger] encodes(input.bytes(), w, t)
                ==> (r matches Ok((rest, v)) && v.spec_bytes() == w.spec_bytes()),
    {
        proof {
            lemma_int_bytes_len();
            lemma_int_bytes_injective();
        }
        proof {
            assert forall|w: StreamBitratePropertiesData, t: Seq<u8>| #[trigger] encodes(input.bytes(), w, t) implies input.bytes() == spec_u16_to_le_bytes((w.bitrate_records@.len()) as u16) + (seq_bytes(w.bitrate_records@) + t) by {
                lemma_concat_associative(spec_u16_to_le_bytes((w.bitrate_records@.len()) as u16), seq_bytes(w.bitrate_records@), t);
            }
        }
        let (i1, bitrate_records_len) = match read_u16(input) {
            Ok(x) => x,
            Err(e) => {
                proof {
                    assert forall|w: StreamBitratePropertiesData, t: Seq<u8>| #[trigger] encodes(input.bytes(), w, t) implies false by {
                    }
                }
                return Err(e);
            },
        };
        let ghost consumed1 = spec_u16_to_le_bytes(bitrate_records_len);
        proof {
            assert forall|w: StreamBitratePropertiesData, t: Seq<u8>| #[trigger] encodes(input.bytes(), w, t) implies spec_u16_to_le_bytes(bitrate_records_len) == spec_u16_to_le_bytes((w.bitrate_records@.len()) as u16) && i1.bytes() == seq_bytes(w.bitrate_records@) + t by {
                lemma_cancel(input.bytes(), spec_u16_to_le_bytes(bitrate_records_len), i1.bytes(), spec_u16_to_le_bytes((w.bitrate_records@.len()) as u16), (seq_bytes(w.bitrate_records@) + t));
            }
        }
        let (i2, bitrate_records) = match parse_count::<BitrateRecord>(i1, bitrate_records_len as usize) {
            Ok(x) => x,
            Err(e) => {
                proof {
                    assert forall|w: StreamBitratePropertiesData, t: Seq<u8>| #[trigger] encodes(input.bytes(), w, t) implies false by {
                        assert(encodes_seq(i1.bytes(), w.bitrate_records@, t));
                    }
                }
                return Err(e);
            },
        };
        let ghost consumed2 = consumed1 + seq_bytes(bitrate_records@);
        proof {
            lemma_splits_chain(input, consumed1, i1, seq_bytes(bitrate_records@), i2);
            assert forall|w: StreamBitratePropertiesData, t: Seq<u8>| #[trigger] encodes(input.bytes(), w, t) implies seq_bytes(bitrate_records@) == seq_bytes(w.bitrate_records@) && i2.bytes() == t by {
                assert(encodes_seq(i1.bytes(), w.bitrate_records@, t));
                lemma_cancel(i1.bytes(), seq_bytes(bitrate_records@), i2.bytes(), seq_bytes(w.bitrate_records@), t);
            }
        }
        let v = StreamBitratePropertiesData { bitrate_records };
        proof {
            assert forall|w: StreamBitratePropertiesData, t: Seq<u8>| #[trigger] encodes(input.bytes(), w, t) implies v.spec_bytes() == w.spec_bytes() by {
            }
        }
        Ok((i2, v))
    }
}

impl<'a> Parse<'a> for StreamBitratePropertiesData {
    fn parse(input: Span<'a>) -> (r: Result<(Span<'a>, StreamBitratePropertiesData), Error>) {
        Self::parse(input)
    }
}

} // verus!
