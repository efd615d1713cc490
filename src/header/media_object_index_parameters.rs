use vstd::prelude::*;
use vstd::bytes::*;
use vstd::seq_lib::lemma_concat_associative;

use crate::error::{Error, ErrorKind, WriteError};
use crate::span::{lemma_splits_chain, Span};
use crate::wire::{parsed, all_writable, encodes_seq, encodes, lemma_cancel, lemma_int_bytes_injective, lemma_int_bytes_len, parse_count, read_u16, read_u32, seq_bytes, size_of_seq, write_seq, write_u16, write_u32, Parse, Wire};

verus! {

/// One index specifier: a stream number and an index type.
#[derive(Debug, PartialEq, Eq)]
pub struct IndexSpecifier {
    pub stream_number: u16,
    pub index_type: u16,
}

impl IndexSpecifier {
    /// The number of bytes `write` emits, computed without writing.
    pub fn size_of(&self) -> (r: usize)
        requires
            self.spec_bytes().len() <= usize::MAX,
        ensures
            r == self.spec_bytes().len(),
    {
        proof {
            lemma_int_bytes_len();
        }
        let mut n: usize = 0;
        n = n + 2;
        n = n + 2;
        n
    }

    /// Appends the wire form to `w`; fails when a length overflows its prefix.
    pub fn write(&self, w: &mut Vec<u8>) -> (r: Result<(), WriteError>)
        requires
            self.spec_bytes().len() <= usize::MAX,
        ensures
            r is Ok <==> self.writable(),
            r is Ok ==> final(w)@ == old(w)@ + self.spec_bytes(),
    {
        proof {
            lemma_int_bytes_len();
        }
        write_u16(w, self.stream_number);
        write_u16(w, self.index_type);
        proof {
            lemma_concat_associative(old(w)@, spec_u16_to_le_bytes(self.stream_number), spec_u16_to_le_bytes(self.index_type));
        }
        Ok(())
    }
}

impl Wire for IndexSpecifier {
    open spec fn spec_bytes(&self) -> Seq<u8> {
        spec_u16_to_le_bytes(self.stream_number)
            + spec_u16_to_le_bytes(self.index_type)
    }

    open spec fn writable(&self) -> bool {
        true
    }

    fn size_of(&self) -> (r: usize) {
        Self::size_of(self)
    }

    fn write(&self, w: &mut Vec<u8>) -> (r: Result<(), WriteError>) {
        Self::write(self, w)
    }
}

impl IndexSpecifier {
    /// Decodes one value; the bytes consumed are exactly what `write` emits for it.
    pub fn parse<'a>(input: Span<'a>) -> (r: Result<(Span<'a>, IndexSpecifier), Error>)
        ensures
            r is Ok <==> 4 <= input.bytes().len(),
            r matches Ok((rest, v)) ==> parsed(input, v, rest),
            r matches Err(e) ==> e.kind == ErrorKind::Eof,
            forall|w: Self, t: Seq<u8>| #[trigger] encodes(input.bytes(), w, t)
                ==> (r matches Ok((rest, v)) && v.spec_bytes() == w.spec_bytes()),
    {
        proof {
            lemma_int_bytes_len();
            lemma_int_bytes_injective();
        }
        proof {
            assert forall|w: IndexSpecifier, t: Seq<u8>| #[trigger] encodes(input.bytes(), w, t) implies input.bytes() == spec_u16_to_le_bytes(w.stream_number) + (spec_u16_to_le_bytes(w.index_type) + t) by {
                lemma_concat_associative(spec_u16_to_le_bytes(w.stream_number), spec_u16_to_le_bytes(w.index_type), t);
            }
        }
        let (i1, stream_number) = match read_u16(input) {
            Ok(x) => x,
            Err(e) => {
                proof {
                    assert forall|w: IndexSpecifier, t: Seq<u8>| #[trigger] encodes(input.bytes(), w, t) implies false by {
                    }
                }
                return Err(e);
            },
        };
        let ghost consumed1 = spec_u16_to_le_bytes(stream_number);
        proof {
            assert forall|w: IndexSpecifier, t: Seq<u8>| #[trigger] encodes(input.bytes(), w, t) implies spec_u16_to_le_bytes(stream_number) == spec_u16_to_le_bytes(w.stream_number) && i1.bytes() == spec_u16_to_le_bytes(w.index_type) + t by {
                lemma_cancel(input.bytes(), spec_u16_to_le_bytes(stream_number), i1.bytes(), spec_u16_to_le_bytes(w.stream_number), (spec_u16_to_le_bytes(w.index_type) + t));
            }
        }
        let (i2, index_type) = match read_u16(i1) {
            Ok(x) => x,
            Err(e) => {
                proof {
                    assert forall|w: IndexSpecifier, t: Seq<u8>| #[trigger] encodes(input.bytes(), w, t) implies false by {
                    }
                }
                return Err(e);
            },
        };
        let ghost consumed2 = consumed1 + spec_u16_to_le_bytes(index_type);
        proof {
            lemma_splits_chain(input, consumed1, i1, spec_u16_to_le_bytes(index_type), i2);
            assert forall|w: IndexSpecifier, t: Seq<u8>| #[trigger] encodes(input.bytes(), w, t) implies spec_u16_to_le_bytes(index_type) == spec_u16_to_le_bytes(w.index_type) && i2.bytes() == t by {
                lemma_cancel(i1.bytes(), spec_u16_to_le_bytes(index_type), i2.bytes(), spec_u16_to_le_bytes(w.index_type), t);
            }
        }
        let v = IndexSpecifier { stream_number, index_type };
        proof {
            assert forall|w: IndexSpecifier, t: Seq<u8>| #[trigger] encodes(input.bytes(), w, t) implies v.spec_bytes() == w.spec_bytes() by {
            }
        }
        Ok((i2, v))
    }
}

impl<'a> Parse<'a> for IndexSpecifier {
    fn parse(input: Span<'a>) -> (r: Result<(Span<'a>, IndexSpecifier), Error>) {
        Self::parse(input)
    }
}

/// The media object index parameters object.
#[derive(Debug, PartialEq, Eq)]
pub struct MediaObjectIndexParametersData {
    pub index_entry_count_interval: u32,
    pub index_specifiers: Vec<IndexSpecifier>,
}

impl MediaObjectIndexParametersData {
    /// The number of bytes `write` emits, computed without writing.
    pub fn size_of(&self) -> (r: usize)
        requires
            self.spec_bytes().len() <= usize::MAX,
        ensures
            r == self.spec_bytes().len(),
    {
        proof {
            lemma_int_bytes_len();
        }
        let mut n: usize = 0;
        n = n + 4;
        n = n + 2;
        n = n + size_of_seq(&self.index_specifiers);
        n
    }

    /// Appends the wire form to `w`; fails when a length overflows its prefix.
    pub fn write(&self, w: &mut Vec<u8>) -> (r: Result<(), WriteError>)
        requires
            self.spec_bytes().len() <= usize::MAX,
        ensures
            r is Ok <==> self.writable(),
            r is Ok ==> final(w)@ == old(w)@ + self.spec_bytes(),
    {
        proof {
            lemma_int_bytes_len();
        }
        write_u32(w, self.index_entry_count_interval);
        let index_specifiers_len: usize = self.index_specifiers.len();
        if index_specifiers_len > 0xffff {
            return Err(WriteError::FieldTooLarge);
        }
        write_u16(w, index_specifiers_len as u16);
        proof {
            lemma_concat_associative(old(w)@, spec_u32_to_le_bytes(self.index_entry_count_interval), spec_u16_to_le_bytes((self.index_specifiers@.len()) as u16));
        }
        write_seq(&self.index_specifiers, w)?;
        proof {
            lemma_concat_associative(old(w)@, spec_u32_to_le_bytes(self.index_entry_count_interval) + spec_u16_to_le_bytes((self.index_specifiers@.len()) as u16), seq_bytes(self.index_specifiers@));
        }
        Ok(())
    }
}

impl Wire for MediaObjectIndexParametersData {
    open spec fn spec_bytes(&self) -> Seq<u8> {
        spec_u32_to_le_bytes(self.index_entry_count_interval)
            + spec_u16_to_le_bytes((self.index_specifiers@.len()) as u16)
            + seq_bytes(self.index_specifiers@)
    }

    open spec fn writable(&self) -> bool {
        self.index_specifiers@.len() <= 0xffff
        && all_writable(self.index_specifiers@)
    }

    fn size_of(&self) -> (r: usize) {
        Self::size_of(self)
    }

    fn write(&self, w: &mut Vec<u8>) -> (r: Result<(), WriteError>) {
        Self::write(self, w)
    }
}

impl MediaObjectIndexParametersData {
    /// Decodes one value; the bytes consumed are exactly what `write` emits for it.
    pub fn parse<'a>(input: Span<'a>) -> (r: Result<(Span<'a>, MediaObjectIndexParametersData), Error>)
        ensures
            r matches Ok((rest, v)) ==> parsed(input, v, rest),
            r matches Err(e) ==> e.kind == ErrorKind::Eof,
            forall|w: Self, t: Seq<u8>| #[trigger] encodes(input.bytes(), w, t)
                ==> (r matches Ok((rest, v)) && v.spec_bytes() == w.spec_bytes()),
    {
        proof {
            lemma_int_bytes_len();
            lemma_int_bytes_injective();
        }
        proof {
            assert forall|w: MediaObjectIndexParametersData, t: Seq<u8>| #[trigger] encodes(input.bytes(), w, t) implies input.bytes() == spec_u32_to_le_bytes(w.index_entry_count_interval) + (spec_u16_to_le_bytes((w.index_specifiers@.len()) as u16) + (seq_bytes(w.index_specifiers@) + t)) by {
                lemma_concat_associative(spec_u32_to_le_bytes(w.index_entry_count_interval) + spec_u16_to_le_bytes((w.index_specifiers@.len()) as u16), seq_bytes(w.index_specifiers@), t);
                lemma_concat_associative(spec_u32_to_le_bytes(w.index_entry_count_interval), spec_u16_to_le_bytes((w.index_specifiers@.len()) as u16), (seq_bytes(w.index_specifiers@) + t));
            }
        }
        let (i1, index_entry_count_interval) = match read_u32(input) {
            Ok(x) => x,
            Err(e) => {
                proof {
                    assert forall|w: MediaObjectIndexParametersData, t: Seq<u8>| #[trigger] encodes(input.bytes(), w, t) implies false by {
                    }
                }
                return Err(e);
            },
        };
        let ghost consumed1 = spec_u32_to_le_bytes(index_entry_count_interval);
        proof {
            assert forall|w: MediaObjectIndexParametersData, t: Seq<u8>| #[trigger] encodes(input.bytes(), w, t) implies spec_u32_to_le_bytes(index_entry_count_interval) == spec_u32_to_le_bytes(w.index_entry_count_interval) && i1.bytes() == spec_u16_to_le_bytes((w.index_specifiers@.len()) as u16) + (seq_bytes(w.index_specifiers@) + t) by {
                lemma_cancel(input.bytes(), spec_u32_to_le_bytes(index_entry_count_interval), i1.bytes(), spec_u32_to_le_bytes(w.index_entry_count_interval), (spec_u16_to_le_bytes((w.index_specifiers@.len()) as u16) + (seq_bytes(w.index_specifiers@) + t)));
            }
        }
        let (i2, index_specifiers_len) = match read_u16(i1) {
            Ok(x) => x,
            Err(e) => {
                proof {
                    assert forall|w: MediaObjectIndexParametersData, t: Seq<u8>| #[trigger] encodes(input.bytes(), w, t) implies false by {
                    }
                }
                return Err(e);
            },
        };
        let ghost consumed2 = consumed1 + spec_u16_to_le_bytes(index_specifiers_len);
        proof {
            lemma_splits_chain(input, consumed1, i1, spec_u16_to_le_bytes(index_specifiers_len), i2);
            assert forall|w: MediaObjectIndexParametersData, t: Seq<u8>| #[trigger] encodes(input.bytes(), w, t) implies spec_u16_to_le_bytes(index_specifiers_len) == spec_u16_to_le_bytes((w.index_specifiers@.len()) as u16) && i2.bytes() == seq_bytes(w.index_specifiers@) + t by {
                lemma_cancel(i1.bytes(), spec_u16_to_le_bytes(index_specifiers_len), i2.bytes(), spec_u16_to_le_bytes((w.index_specifiers@.len()) as u16), (seq_bytes(w.index_specifiers@) + t));
            }
        }
        let (i3, index_specifiers) = match parse_count::<IndexSpecifier>(i2, index_specifiers_len as usize) {
            Ok(x) => x,
            Err(e) => {
                proof {
                    assert forall|w: MediaObjectIndexParametersData, t: Seq<u8>| #[trigger] encodes(input.bytes(), w, t) implies false by {
                        assert(encodes_seq(i2.bytes(), w.index_specifiers@, t));
                    }
                }
                return Err(e);
            },
        };
        let ghost consumed3 = consumed2 + seq_bytes(index_specifiers@);
        proof {
            lemma_splits_chain(input, consumed2, i2, seq_bytes(index_specifiers@), i3);
            assert forall|w: MediaObjectIndexParametersData, t: Seq<u8>| #[trigger] encodes(input.bytes(), w, t) implies seq_bytes(index_specifiers@) == seq_bytes(w.index_specifiers@) && i3.bytes() == t by {
                assert(encodes_seq(i2.bytes(), w.index_specifiers@, t));
                lemma_cancel(i2.bytes(), seq_bytes(index_specifiers@), i3.bytes(), seq_bytes(w.index_specifiers@), t);
            }
        }
        let v = MediaObjectIndexParametersData { index_entry_count_interval, index_specifiers };
        proof {
            assert forall|w: MediaObjectIndexParametersData, t: Seq<u8>| #[trigger] encodes(input.bytes(), w, t) implies v.spec_bytes() == w.spec_bytes() by {
            }
        }
        Ok((i3, v))
    }
}

impl<'a> Parse<'a> for MediaObjectIndexParametersData {
    fn parse(input: Span<'a>) -> (r: Result<(Span<'a>, MediaObjectIndexParametersData), Error>) {
        Self::parse(input)
    }
}

} // verus!
