use vstd::prelude::*;
use vstd::bytes::*;
use vstd::seq_lib::lemma_concat_associative;

use crate::error::{Error, ErrorKind, WriteError};
use crate::span::{lemma_splits_chain, Span};
use crate::wire::{parsed, all_writable, encodes_seq, encodes, lemma_cancel, lemma_int_bytes_injective, lemma_int_bytes_len, parse_count, read_u16, seq_bytes, size_of_seq, write_seq, write_u16, Parse, Wire};

verus! {

/// The priority of one stream.
#[derive(Debug, PartialEq, Eq)]
pub struct PriorityRecord {
    pub stream_number: u16,
    pub priority_flags: u16,
}

impl PriorityRecord {
    /// The number of bytes `write` emits, computed without writing.
    pub fn size_of(&self) -> (r: usize)
        requires
            self.spec_bytes().len() <= usize::MAX,
        ensures
            r == self.spec_bytes().len(),
    {
        proof {
            lemma_int_bytes_len();
        }
        let mut n: usize = 0;
        n = n + 2;
        n = n + 2;
        n
    }

    /// Appends the wire form to `w`; fails when a length overflows its prefix.
    pub fn write(&self, w: &mut Vec<u8>) -> (r: Result<(), WriteError>)
        requires
            self.spec_bytes().len() <= usize::MAX,
        ensures
            r is Ok <==> self.writable(),
            r is Ok ==> final(w)@ == old(w)@ + self.spec_bytes(),
    {
        proof {
            lemma_int_bytes_len();
        }
        write_u16(w, self.stream_number);
        write_u16(w, self.priority_flags);
        proof {
            lemma_concat_associative(old(w)@, spec_u16_to_le_bytes(self.stream_number), spec_u16_to_le_bytes(self.priority_flags));
        }
        Ok(())
    }
}

impl Wire for PriorityRecord {
    open spec fn spec_bytes(&self) -> Seq<u8> {
        spec_u16_to_le_bytes(self.stream_number)
            + spec_u16_to_le_bytes(self.priority_flags)
    }

    open spec fn writable(&self) -> bool {
        true
    }

    fn size_of(&self) -> (r: usize) {
        Self::size_of(self)
    }

    fn write(&self, w: &mut Vec<u8>) -> (r: Result<(), WriteError>) {
        Self::write(self, w)
    }
}

impl PriorityRecord {
    /// Decodes one value; the bytes consumed are exactly what `write` emits for it.
    pub fn parse<'a>(input: Span<'a>) -> (r: Result<(Span<'a>, PriorityRecord), Error>)
        ensures
            r is Ok <==> 4 <= input.bytes().len(),
            r matches Ok((rest, v)) ==> parsed(input, v, rest),
            r matches Err(e) ==> e.kind == ErrorKind::Eof,
            forall|w: Self, t: Seq<u8>| #[trigger] encodes(input.bytes(), w, t)
                ==> (r matches Ok((rest, v)) && v.spec_bytes() == w.spec_bytes()),
    {
        proof {
            lemma_int_bytes_len();
            lemma_int_bytes_injective();
        }
        proof {
            assert forall|w: PriorityRecord, t: Seq<u8>| #[trigger] encodes(input.bytes(), w, t) implies input.bytes() == spec_u16_to_le_bytes(w.stream_number) + (spec_u16_to_le_bytes(w.priority_flags) + t) by {
                lemma_concat_associative(spec_u16_to_le_bytes(w.stream_number), spec_u16_to_le_bytes(w.priority_flags), t);
            }
        }
        let (i1, stream_number) = match read_u16(input) {
            Ok(x) => x,
            Err(e) => {
                proof {
                    assert forall|w: PriorityRecord, t: Seq<u8>| #[trigger] encodes(input.bytes(), w, t) implies false by {
                    }
                }
                return Err(e);
            },
        };
        let ghost consumed1 = spec_u16_to_le_bytes(stream_number);
        proof {
            assert forall|w: PriorityRecord, t: Seq<u8>| #[trigger] encodes(input.bytes(), w, t) implies spec_u16_to_le_bytes(stream_number) == spec_u16_to_le_bytes(w.stream_number) && i1.bytes() == spec_u16_to_le_bytes(w.priority_flags) + t by {
                lemma_cancel(input.bytes(), spec_u16_to_le_bytes(stream_number), i1.bytes(), spec_u16_to_le_bytes(w.stream_number), (spec_u16_to_le_bytes(w.priority_flags) + t));
            }
        }
        let (i2, priority_flags) = match read_u16(i1) {
            Ok(x) => x,
            Err(e) => {
                proof {
                    assert forall|w: PriorityRecord, t: Seq<u8>| #[trigger] encodes(input.bytes(), w, t) implies false by {
                    }
                }
                return Err(e);
            },
        };
        let ghost consumed2 = consumed1 + spec_u16_to_le_bytes(priority_flags);
        proof {
            lemma_splits_chain(input, consumed1, i1, spec_u16_to_le_bytes(priority_flags), i2);
            assert forall|w: PriorityRecord, t: Seq<u8>| #[trigger] encodes(input.bytes(), w, t) implies spec_u16_to_le_bytes(priority_flags) == spec_u16_to_le_bytes(w.priority_flags) && i2.bytes() == t by {
                lemma_cancel(i1.bytes(), spec_u16_to_le_bytes(priority_flags), i2.bytes(), spec_u16_to_le_bytes(w.priority_flags), t);
            }
        }
        let v = PriorityRecord { stream_number, priority_flags };
        proof {
            assert forall|w: PriorityRecord, t: Seq<u8>| #[trigger] encodes(input.bytes(), w, t) implies v.spec_bytes() == w.spec_bytes() by {
            }
        }
        Ok((i2, v))
    }
}

impl<'a> Parse<'a> for PriorityRecord {
    fn parse(input: Span<'a>) -> (r: Result<(Span<'a>, PriorityRecord), Error>) {
        Self::parse(input)
    }
}

/// The stream prioritization object.
#[derive(Debug, PartialEq, Eq)]
pub struct StreamPrioritizationData {
    pub priority_records: Vec<PriorityRecord>,
}

impl StreamPrioritizationData {
    /// The number of bytes `write` emits, computed without writing.
    pub fn size_of(&self) -> (r: usize)
        requires
            self.spec_bytes().len() <= usize::MAX,
        ensures
            r == self.spec_bytes().len(),
    {
        proof {
            lemma_int_bytes_len();
        }
        let mut n: usize = 0;
        n = n + 2;
        n = n + size_of_seq(&self.priority_records);
        n
    }

    /// Appends the wire form to `w`; fails when a length overflows its prefix.
    pub fn write(&self, w: &mut Vec<u8>) -> (r: Result<(), WriteError>)
        requires
            self.spec_bytes().len() <= usize::MAX,
        ensures
            r is Ok <==> self.writable(),
            r is Ok ==> final(w)@ == old(w)@ + self.spec_bytes(),
    {
        proof {
            lemma_int_bytes_len();
        }
        let priority_records_len: usize = self.priority_records.len();
        if priority_records_len > 0xffff {
            return Err(WriteError::FieldTooLarge);
        }
        write_u16(w, priority_records_len as u16);
        write_seq(&self.priority_records, w)?;
        proof {
            lemma_concat_associative(old(w)@, spec_u16_to_le_bytes((self.priority_records@.len()) as u16), seq_bytes(self.priority_records@));
        }
        Ok(())
    }
}

impl Wire for StreamPrioritizationData {
    open spec fn spec_bytes(&self) -> Seq<u8> {
        spec_u16_to_le_bytes((self.priority_records@.len()) as u16)
            + seq_bytes(self.priority_records@)
    }

    open spec fn writable(&self) -> bool {
        self.priority_records@.len() <= 0xffff
        && all_writable(self.priority_records@)
    }

    fn size_of(&self) -> (r: usize) {
        Self::size_of(self)
    }

    fn write(&self, w: &mut Vec<u8>) -> (r: Result<(), WriteError>) {
        Self::write(self, w)
    }
}

impl StreamPrioritizationData {
    /// Decodes one value; the bytes consumed are exactly what `write` emits for it.
    pub fn parse<'a>(input: Span<'a>) -> (r: Result<(Span<'a>, StreamPrioritizationData), Error>)
        ensures
            r matches Ok((rest, v)) ==> parsed(input, v, rest),
            r matches Err(e) ==> e.kind == ErrorKind::Eof,
            forall|w: Self, t: Seq<u8>| #[trigger] encodes(input.bytes(), w, t)
                ==> (r matches Ok((rest, v)) && v.spec_bytes() == w.spec_bytes()),
    {
        proof {
            lemma_int_bytes_len();
            lemma_int_bytes_injective();
        }
        proof {
            assert forall|w: StreamPrioritizationData, t: Seq<u8>| #[trigger] encodes(input.bytes(), w, t) implies input.bytes() == spec_u16_to_le_bytes((w.priority_records@.len()) as u16) + (seq_bytes(w.priority_records@) + t) by {
                lemma_concat_associative(spec_u16_to_le_bytes((w.priority_records@.len()) as u16), seq_bytes(w.priority_records@), t);
            }
        }
        let (i1, priority_records_len) = match read_u16(input) {
            Ok(x) => x,
            Err(e) => {
                proof {
                    assert forall|w: StreamPrioritizationData, t: Seq<u8>| #[trigger] encodes(input.bytes(), w, t) implies false by {
                    }
                }
                return Err(e);
            },
        };
        let ghost consumed1 = spec_u16_to_le_bytes(priority_records_len);
        proof {
            assert forall|w: StreamPrioritizationData, t: Seq<u8>| #[trigger] encodes(input.bytes(), w, t) implies spec_u16_to_le_bytes(priority_records_len) == spec_u16_to_le_bytes((w.priority_records@.len()) as u16) && i1.bytes() == seq_bytes(w.priority_records@) + t by {
                lemma_cancel(input.bytes(), spec_u16_to_le_bytes(priority_records_len), i1.bytes(), spec_u16_to_le_bytes((w.priority_records@.len()) as u16), (seq_bytes(w.priority_records@) + t));
            }
        }
        let (i2, priority_records) = match parse_count::<PriorityRecord>(i1, priority_records_len as usize) {
            Ok(x) => x,
            Err(e) => {
                proof {
                    assert forall|w: StreamPrioritizationData, t: Seq<u8>| #[trigger] encodes(input.bytes(), w, t) implies false by {
                        assert(encodes_seq(i1.bytes(), w.priority_records@, t));
                    }
                }
                return Err(e);
            },
        };
        let ghost consumed2 = consumed1 + seq_bytes(priority_records@);
        proof {
            lemma_splits_chain(input, consumed1, i1, seq_bytes(priority_records@), i2);
            assert forall|w: StreamPrioritizationData, t: Seq<u8>| #[trigger] encodes(input.bytes(), w, t) implies seq_bytes(priority_records@) == seq_bytes(w.priority_records@) && i2.bytes() == t by {
                assert(encodes_seq(i1.bytes(), w.priority_records@, t));
                lemma_cancel(i1.bytes(), seq_bytes(priority_records@), i2.bytes(), seq_bytes(w.priority_records@), t);
            }
        }
        let v = StreamPrioritizationData { priority_records };
        proof {
            assert forall|w: StreamPrioritizationData, t: Seq<u8>| #[trigger] encodes(input.bytes(), w, t) implies v.spec_bytes() == w.spec_bytes() by {
            }
        }
        Ok((i2, v))
    }
}

impl<'a> Parse<'a> for StreamPrioritizationData {
    fn parse(input: Span<'a>) -> (r: Result<(Span<'a>, StreamPrioritizationData), Error>) {
        Self::parse(input)
    }
}

} // verus!
