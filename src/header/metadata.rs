use vstd::prelude::*;
use vstd::bytes::*;
use vstd::seq_lib::lemma_concat_associative;

use crate::error::{Error, ErrorKind, WriteError};
use crate::span::{lemma_splits_chain, Span};
use crate::wire::{parsed, all_writable, encodes_seq, encodes, lemma_cancel, lemma_int_bytes_injective, lemma_int_bytes_len, parse_count, read_u16, read_u32, seq_bytes, size_of_seq, take, write_bytes, write_seq, write_u16, write_u32, Parse, Wire};
use crate::widestr::{lemma_wide_bytes_len, WideStr};

verus! {

/// One metadata record: name and data lengths, then the name and the data.
#[derive(Debug, PartialEq, Eq)]
pub struct DescriptionRecord<'a> {
    pub reserved: u16,
    pub stream_number: u16,
    pub data_type: u16,
    pub name: WideStr,
    pub data: Span<'a>,
}

impl<'a> DescriptionRecord<'a> {
    /// The number of bytes `write` emits, computed without writing.
    pub fn size_of(&self) -> (r: usize)
        requires
            self.spec_bytes().len() <= usize::MAX,
        ensures
            r == self.spec_bytes().len(),
    {
        proof {
            lemma_int_bytes_len();
        }
        let mut n: usize = 0;
        n = n + 2;
        n = n + 2;
        n = n + 2;
        n = n + 2;
        n = n + 4;
        n = n + self.name.size_of();
        n = n + self.data.len();
        n
    }

    /// Appends the wire form to `w`; fails when a length overflows its prefix.
    pub fn write(&self, w: &mut Vec<u8>) -> (r: Result<(), WriteError>)
        requires
            self.spec_bytes().len() <= usize::MAX,
        ensures
            r is Ok <==> self.writable(),
            r is Ok ==> final(w)@ == old(w)@ + self.spec_bytes(),
    {
        proof {
            lemma_int_bytes_len();
        }
        write_u16(w, self.reserved);
        write_u16(w, self.stream_number);
        proof {
            lemma_concat_associative(old(w)@, spec_u16_to_le_bytes(self.reserved), spec_u16_to_le_bytes(self.stream_number));
        }
        let name_len: usize = self.name.size_of();
        if name_len > 0xffff {
            return Err(WriteError::FieldTooLarge);
        }
        write_u16(w, name_len as u16);
        proof {
            lemma_concat_associative(old(w)@, spec_u16_to_le_bytes(self.reserved) + spec_u16_to_le_bytes(self.stream_number), spec_u16_to_le_bytes((self.name.spec_bytes().len()) as u16));
        }
        write_u16(w, self.data_type);
        proof {
            lemma_concat_associative(old(w)@, spec_u16_to_le_bytes(self.reserved) + spec_u16_to_le_bytes(self.stream_number) + spec_u16_to_le_bytes((self.name.spec_bytes().len()) as u16), spec_u16_to_le_bytes(self.data_type));
        }
        let data_len: usize = self.data.len();
        if data_len > 0xffff_ffff {
            return Err(WriteError::FieldTooLarge);
        }
        write_u32(w, data_len as u32);
        proof {
            lemma_concat_associative(old(w)@, spec_u16_to_le_bytes(self.reserved) + spec_u16_to_le_bytes(self.stream_number) + spec_u16_to_le_bytes((self.name.spec_bytes().len()) as u16) + spec_u16_to_le_bytes(self.data_type), spec_u32_to_le_bytes((self.data.bytes().len()) as u32));
        }
        self.name.write(w)?;
        proof {
            lemma_concat_associative(old(w)@, spec_u16_to_le_bytes(self.reserved) + spec_u16_to_le_bytes(self.stream_number) + spec_u16_to_le_bytes((self.name.spec_bytes().len()) as u16) + spec_u16_to_le_bytes(self.data_type) + spec_u32_to_le_bytes((self.data.bytes().len()) as u32), self.name.spec_bytes());
        }
        write_bytes(w, self.data.fragment());
        proof {
            lemma_concat_associative(old(w)@, spec_u16_to_le_bytes(self.reserved) + spec_u16_to_le_bytes(self.stream_number) + spec_u16_to_le_bytes((self.name.spec_bytes().len()) as u16) + spec_u16_to_le_bytes(self.data_type) + spec_u32_to_le_bytes((self.data.bytes().len()) as u32) + self.name.spec_bytes(), self.data.bytes());
        }
        Ok(())
    }
}

impl<'a> Wire for DescriptionRecord<'a> {
    open spec fn spec_bytes(&self) -> Seq<u8> {
        spec_u16_to_le_bytes(self.reserved)
            + spec_u16_to_le_bytes(self.stream_number)
            + spec_u16_to_le_bytes((self.name.spec_bytes().len()) as u16)
            + spec_u16_to_le_bytes(self.data_type)
            + spec_u32_to_le_bytes((self.data.bytes().len()) as u32)
            + self.name.spec_bytes()
            + self.data.bytes()
    }

    open spec fn writable(&self) -> bool {
        self.name.spec_bytes().len() <= 0xffff
        && self.data.bytes().len() <= 0xffff_ffff
    }

    fn size_of(&self) -> (r: usize) {
        Self::size_of(self)
    }

    fn write(&self, w: &mut Vec<u8>) -> (r: Result<(), WriteError>) {
        Self::write(self, w)
    }
}

impl<'a> DescriptionRecord<'a> {
    /// Decodes one value; the bytes consumed are exactly what `write` emits for it.
    #[verifier::rlimit(100)]
    pub fn parse(input: Span<'a>) -> (r: Result<(Span<'a>, DescriptionRecord<'a>), Error>)
        ensures
            r matches Ok((rest, v)) ==> parsed(input, v, rest),
            r matches Err(e) ==> e.kind == ErrorKind::Eof,
            forall|w: Self, t: Seq<u8>| #[trigger] encodes(input.bytes(), w, t)
                ==> (r matches Ok((rest, v)) && v.spec_bytes() == w.spec_bytes()),
    {
        proof {
            lemma_int_bytes_len();
            lemma_int_bytes_injective();
        }
        proof {
            assert forall|w: DescriptionRecord<'a>, t: Seq<u8>| #[trigger] encodes(input.bytes(), w, t) implies input.bytes() == spec_u16_to_le_bytes(w.reserved) + (spec_u16_to_le_bytes(w.stream_number) + (spec_u16_to_le_bytes((w.name.spec_bytes().len()) as u16) + (spec_u16_to_le_bytes(w.data_type) + (spec_u32_to_le_bytes((w.data.bytes().len()) as u32) + (w.name.spec_bytes() + (w.data.bytes() + t)))))) by {
                lemma_concat_associative(spec_u16_to_le_bytes(w.reserved) + spec_u16_to_le_bytes(w.stream_number) + spec_u16_to_le_bytes((w.name.spec_bytes().len()) as u16) + spec_u16_to_le_bytes(w.data_type) + spec_u32_to_le_bytes((w.data.bytes().len()) as u32) + w.name.spec_bytes(), w.data.bytes(), t);
                lemma_concat_associative(spec_u16_to_le_bytes(w.reserved) + spec_u16_to_le_bytes(w.stream_number) + spec_u16_to_le_bytes((w.name.spec_bytes().len()) as u16) + spec_u16_to_le_bytes(w.data_type) + spec_u32_to_le_bytes((w.data.bytes().len()) as u32), w.name.spec_bytes(), (w.data.bytes() + t));
                lemma_concat_associative(spec_u16_to_le_bytes(w.reserved) + spec_u16_to_le_bytes(w.stream_number) + spec_u16_to_le_bytes((w.name.spec_bytes().len()) as u16) + spec_u16_to_le_bytes(w.data_type), spec_u32_to_le_bytes((w.data.bytes().len()) as u32), (w.name.spec_bytes() + (w.data.bytes() + t)));
                lemma_concat_associative(spec_u16_to_le_bytes(w.reserved) + spec_u16_to_le_bytes(w.stream_number) + spec_u16_to_le_bytes((w.name.spec_bytes().len()) as u16), spec_u16_to_le_bytes(w.data_type), (spec_u32_to_le_bytes((w.data.bytes().len()) as u32) + (w.name.spec_bytes() + (w.data.bytes() + t))));
                lemma_concat_associative(spec_u16_to_le_bytes(w.reserved) + spec_u16_to_le_bytes(w.stream_number), spec_u16_to_le_bytes((w.name.spec_bytes().len()) as u16), (spec_u16_to_le_bytes(w.data_type) + (spec_u32_to_le_bytes((w.data.bytes().len()) as u32) + (w.name.spec_bytes() + (w.data.bytes() + t)))));
                lemma_concat_associative(spec_u16_to_le_bytes(w.reserved), spec_u16_to_le_bytes(w.stream_number), (spec_u16_to_le_bytes((w.name.spec_bytes().len()) as u16) + (spec_u16_to_le_bytes(w.data_type) + (spec_u32_to_le_bytes((w.data.bytes().len()) as u32) + (w.name.spec_bytes() + (w.data.bytes() + t))))));
            }
        }
        let (i1, reserved) = match read_u16(input) {
            Ok(x) => x,
            Err(e) => {
                proof {
                    assert forall|w: DescriptionRecord<'a>, t: Seq<u8>| #[trigger] encodes(input.bytes(), w, t) implies false by {
                    }
                }
                return Err(e);
            },
        };
        let ghost consumed1 = spec_u16_to_le_bytes(reserved);
        proof {
            assert forall|w: DescriptionRecord<'a>, t: Seq<u8>| #[trigger] encodes(input.bytes(), w, t) implies spec_u16_to_le_bytes(reserved) == spec_u16_to_le_bytes(w.reserved) && i1.bytes() == spec_u16_to_le_bytes(w.stream_number) + (spec_u16_to_le_bytes((w.name.spec_bytes().len()) as u16) + (spec_u16_to_le_bytes(w.data_type) + (spec_u32_to_le_bytes((w.data.bytes().len()) as u32) + (w.name.spec_bytes() + (w.data.bytes() + t))))) by {
                lemma_cancel(input.bytes(), spec_u16_to_le_bytes(reserved), i1.bytes(), spec_u16_to_le_bytes(w.reserved), (spec_u16_to_le_bytes(w.stream_number) + (spec_u16_to_le_bytes((w.name.spec_bytes().len()) as u16) + (spec_u16_to_le_bytes(w.data_type) + (spec_u32_to_le_bytes((w.data.bytes().len()) as u32) + (w.name.spec_bytes() + (w.data.bytes() + t)))))));
            }
        }
        let (i2, stream_number) = match read_u16(i1) {
            Ok(x) => x,
            Err(e) => {
                proof {
                    assert forall|w: DescriptionRecord<'a>, t: Seq<u8>| #[trigger] encodes(input.bytes(), w, t) implies false by {
                    }
                }
                return Err(e);
            },
        };
        let ghost consumed2 = consumed1 + spec_u16_to_le_bytes(stream_number);
        proof {
            lemma_splits_chain(input, consumed1, i1, spec_u16_to_le_bytes(stream_number), i2);
            assert forall|w: DescriptionRecord<'a>, t: Seq<u8>| #[trigger] encodes(input.bytes(), w, t) implies spec_u16_to_le_bytes(stream_number) == spec_u16_to_le_bytes(w.stream_number) && i2.bytes() == spec_u16_to_le_bytes((w.name.spec_bytes().len()) as u16) + (spec_u16_to_le_bytes(w.data_type) + (spec_u32_to_le_bytes((w.data.bytes().len()) as u32) + (w.name.spec_bytes() + (w.data.bytes() + t)))) by {
                lemma_cancel(i1.bytes(), spec_u16_to_le_bytes(stream_number), i2.bytes(), spec_u16_to_le_bytes(w.stream_number), (spec_u16_to_le_bytes((w.name.spec_bytes().len()) as u16) + (spec_u16_to_le_bytes(w.data_type) + (spec_u32_to_le_bytes((w.data.bytes().len()) as u32) + (w.name.spec_bytes() + (w.data.bytes() + t))))));
            }
        }
        let (i3, name_len) = match read_u16(i2) {
            Ok(x) => x,
            Err(e) => {
                proof {
                    assert forall|w: DescriptionRecord<'a>, t: Seq<u8>| #[trigger] encodes(input.bytes(), w, t) implies false by {
                    }
                }
                return Err(e);
            },
        };
        let ghost consumed3 = consumed2 + spec_u16_to_le_bytes(name_len);
        proof {
            lemma_splits_chain(input, consumed2, i2, spec_u16_to_le_bytes(name_len), i3);
            assert forall|w: DescriptionRecord<'a>, t: Seq<u8>| #[trigger] encodes(input.bytes(), w, t) implies spec_u16_to_le_bytes(name_len) == spec_u16_to_le_bytes((w.name.spec_bytes().len()) as u16) && i3.bytes() == spec_u16_to_le_bytes(w.data_type) + (spec_u32_to_le_bytes((w.data.bytes().len()) as u32) + (w.name.spec_bytes() + (w.data.bytes() + t))) by {
                lemma_cancel(i2.bytes(), spec_u16_to_le_bytes(name_len), i3.bytes(), spec_u16_to_le_bytes((w.name.spec_bytes().len()) as u16), (spec_u16_to_le_bytes(w.data_type) + (spec_u32_to_le_bytes((w.data.bytes().len()) as u32) + (w.name.spec_bytes() + (w.data.bytes() + t)))));
            }
        }
        let (i4, data_type) = match read_u16(i3) {
            Ok(x) => x,
            Err(e) => {
                proof {
                    assert forall|w: DescriptionRecord<'a>, t: Seq<u8>| #[trigger] encodes(input.bytes(), w, t) implies false by {
                    }
                }
                return Err(e);
            },
        };
        let ghost consumed4 = consumed3 + spec_u16_to_le_bytes(data_type);
        proof {
            lemma_splits_chain(input, consumed3, i3, spec_u16_to_le_bytes(data_type), i4);
            assert forall|w: DescriptionRecord<'a>, t: Seq<u8>| #[trigger] encodes(input.bytes(), w, t) implies spec_u16_to_le_bytes(data_type) == spec_u16_to_le_bytes(w.data_type) && i4.bytes() == spec_u32_to_le_bytes((w.data.bytes().len()) as u32) + (w.name.spec_bytes() + (w.data.bytes() + t)) by {
                lemma_cancel(i3.bytes(), spec_u16_to_le_bytes(data_type), i4.bytes(), spec_u16_to_le_bytes(w.data_type), (spec_u32_to_le_bytes((w.data.bytes().len()) as u32) + (w.name.spec_bytes() + (w.data.bytes() + t))));
            }
        }
        let (i5, data_len) = match read_u32(i4) {
            Ok(x) => x,
            Err(e) => {
                proof {
                    assert forall|w: DescriptionRecord<'a>, t: Seq<u8>| #[trigger] encodes(input.bytes(), w, t) implies false by {
                    }
                }
                return Err(e);
            },
        };
        let ghost consumed5 = consumed4 + spec_u32_to_le_bytes(data_len);
        proof {
            lemma_splits_chain(input, consumed4, i4, spec_u32_to_le_bytes(data_len), i5);
            assert forall|w: DescriptionRecord<'a>, t: Seq<u8>| #[trigger] encodes(input.bytes(), w, t) implies spec_u32_to_le_bytes(data_len) == spec_u32_to_le_bytes((w.data.bytes().len()) as u32) && i5.bytes() == w.name.spec_bytes() + (w.data.bytes() + t) by {
                lemma_cancel(i4.bytes(), spec_u32_to_le_bytes(data_len), i5.bytes(), spec_u32_to_le_bytes((w.data.bytes().len()) as u32), (w.name.spec_bytes() + (w.data.bytes() + t)));
            }
        }
        let (i6, name_region) = match take(i5, name_len as usize) {
            Ok(x) => x,
            Err(e) => {
                proof {
                    assert forall|w: DescriptionRecord<'a>, t: Seq<u8>| #[trigger] encodes(input.bytes(), w, t) implies false by {
                        lemma_wide_bytes_len(w.name.0@);
                    }
                }
                return Err(e);
            },
        };
        let (_, name) = match WideStr::parse(name_region) {
            Ok(x) => x,
            Err(e) => {
                proof {
                    assert forall|w: DescriptionRecord<'a>, t: Seq<u8>| #[trigger] encodes(input.bytes(), w, t) implies false by {
                        lemma_wide_bytes_len(w.name.0@);
                        lemma_cancel(i5.bytes(), name_region.bytes(), i6.bytes(), w.name.spec_bytes(), (w.data.bytes() + t));
                    }
                }
                return Err(e);
            },
        };
        let ghost consumed6 = consumed5 + name_region.bytes();
        proof {
            lemma_splits_chain(input, consumed5, i5, name_region.bytes(), i6);
            assert forall|w: DescriptionRecord<'a>, t: Seq<u8>| #[trigger] encodes(input.bytes(), w, t) implies name_region.bytes() == w.name.spec_bytes() && i6.bytes() == w.data.bytes() + t by {
                lemma_wide_bytes_len(w.name.0@);
                lemma_cancel(i5.bytes(), name_region.bytes(), i6.bytes(), w.name.spec_bytes(), (w.data.bytes() + t));
            }
        }
        let (i7, data) = match take(i6, data_len as usize) {
            Ok(x) => x,
            Err(e) => {
                proof {
                    assert forall|w: DescriptionRecord<'a>, t: Seq<u8>| #[trigger] encodes(input.bytes(), w, t) implies false by {
                    }
                }
                return Err(e);
            },
        };
        let ghost consumed7 = consumed6 + data.bytes();
        proof {
            lemma_splits_chain(input, consumed6, i6, data.bytes(), i7);
            assert forall|w: DescriptionRecord<'a>, t: Seq<u8>| #[trigger] encodes(input.bytes(), w, t) implies data.bytes() == w.data.bytes() && i7.bytes() == t by {
                lemma_cancel(i6.bytes(), data.bytes(), i7.bytes(), w.data.bytes(), t);
            }
        }
        let v = DescriptionRecord { reserved, stream_number, data_type, name, data };
        proof {
            assert forall|w: DescriptionRecord<'a>, t: Seq<u8>| #[trigger] encodes(input.bytes(), w, t) implies v.spec_bytes() == w.spec_bytes() by {
            }
        }
        Ok((i7, v))
    }
}

impl<'a> Parse<'a> for DescriptionRecord<'a> {
    fn parse(input: Span<'a>) -> (r: Result<(Span<'a>, DescriptionRecord<'a>), Error>) {
        Self::parse(input)
    }
}

/// The metadata object.
#[derive(Debug, PartialEq, Eq)]
pub struct MetadataData<'a> {
    pub description_records: Vec<DescriptionRecord<'a>>,
}

impl<'a> MetadataData<'a> {
    /// The number of bytes `write` emits, computed without writing.
    pub fn size_of(&self) -> (r: usize)
        requires
            self.spec_bytes().len() <= usize::MAX,
        ensures
            r == self.spec_bytes().len(),
    {
        proof {
            lemma_int_bytes_len();
        }
        let mut n: usize = 0;
        n = n + 2;
        n = n + size_of_seq(&self.description_records);
        n
    }

    /// Appends the wire form to `w`; fails when a length overflows its prefix.
    pub fn write(&self, w: &mut Vec<u8>) -> (r: Result<(), WriteError>)
        requires
            self.spec_bytes().len() <= usize::MAX,
        ensures
            r is Ok <==> self.writable(),
            r is Ok ==> final(w)@ == old(w)@ + self.spec_bytes(),
    {
        proof {
            lemma_int_bytes_len();
        }
        let description_records_len: usize = self.description_records.len();
        if description_records_len > 0xffff {
            return Err(WriteError::FieldTooLarge);
        }
        write_u16(w, description_records_len as u16);
        write_seq(&self.description_records, w)?;
        proof {
            lemma_concat_associative(old(w)@, spec_u16_to_le_bytes((self.description_records@.len()) as u16), seq_bytes(self.description_records@));
        }
        Ok(())
    }
}

impl<'a> Wire for MetadataData<'a> {
    open spec fn spec_bytes(&self) -> Seq<u8> {
        spec_u16_to_le_bytes((self.description_records@.len()) as u16)
            + seq_bytes(self.description_records@)
    }

    open spec fn writable(&self) -> bool {
        self.description_records@.len() <= 0xffff
        && all_writable(self.description_records@)
    }

    fn size_of(&self) -> (r: usize) {
        Self::size_of(self)
    }

    fn write(&self, w: &mut Vec<u8>) -> (r: Result<(), WriteError>) {
        Self::write(self, w)
    }
}

impl<'a> MetadataData<'a> {
    /// Decodes one value; the bytes consumed are exactly what `write` emits for it.
    pub fn parse(input: Span<'a>) -> (r: Result<(Span<'a>, MetadataData<'a>), Error>)
        ensures
            r matches Ok((rest, v)) ==> parsed(input, v, rest),
            r matches Err(e) ==> e.kind == ErrorKind::Eof,
            forall|w: Self, t: Seq<u8>| #[trigger] encodes(input.bytes(), w, t)
                ==> (r matches Ok((rest, v)) && v.spec_bytes() == w.spec_bytes()),
    {
        proof {
            lemma_int_bytes_len();
            lemma_int_bytes_injective();
        }
        proof {
            assert forall|w: MetadataData<'a>, t: Seq<u8>| #[trigger] encodes(input.bytes(), w, t) implies input.bytes() == spec_u16_to_le_bytes((w.description_records@.len()) as u16) + (seq_bytes(w.description_records@) + t) by {
                lemma_concat_associative(spec_u16_to_le_bytes((w.description_records@.len()) as u16), seq_bytes(w.description_records@), t);
            }
        }
        let (i1, description_records_len) = match read_u16(input) {
            Ok(x) => x,
            Err(e) => {
                proof {
                    assert forall|w: MetadataData<'a>, t: Seq<u8>| #[trigger] encodes(input.bytes(), w, t) implies false by {
                    }
                }
                return Err(e);
            },
        };
        let ghost consumed1 = spec_u16_to_le_bytes(description_records_len);
        proof {
            assert forall|w: MetadataData<'a>, t: Seq<u8>| #[trigger] encodes(input.bytes(), w, t) implies spec_u16_to_le_bytes(description_records_len) == spec_u16_to_le_bytes((w.description_records@.len()) as u16) && i1.bytes() == seq_bytes(w.description_records@) + t by {
                lemma_cancel(input.bytes(), spec_u16_to_le_bytes(description_records_len), i1.bytes(), spec_u16_to_le_bytes((w.description_records@.len()) as u16), (seq_bytes(w.description_records@) + t));
            }
        }
        let (i2, description_records) = match parse_count::<DescriptionRecord>(i1, description_records_len as usize) {
            Ok(x) => x,
            Err(e) => {
                proof {
                    assert forall|w: MetadataData<'a>, t: Seq<u8>| #[trigger] encodes(input.bytes(), w, t) implies false by {
                        assert(encodes_seq(i1.bytes(), w.description_records@, t));
                    }
                }
                return Err(e);
            },
        };
        let ghost consumed2 = consumed1 + seq_bytes(description_records@);
        proof {
            lemma_splits_chain(input, consumed1, i1, seq_bytes(description_records@), i2);
            assert forall|w: MetadataData<'a>, t: Seq<u8>| #[trigger] encodes(input.bytes(), w, t) implies seq_bytes(description_records@) == seq_bytes(w.description_records@) && i2.bytes() == t by {
                assert(encodes_seq(i1.bytes(), w.description_records@, t));
                lemma_cancel(i1.bytes(), seq_bytes(description_records@), i2.bytes(), seq_bytes(w.description_records@), t);
            }
        }
        let v = MetadataData { description_records };
        proof {
            assert forall|w: MetadataData<'a>, t: Seq<u8>| #[trigger] encodes(input.bytes(), w, t) implies v.spec_bytes() == w.spec_bytes() by {
            }
        }
        Ok((i2, v))
    }
}

impl<'a> Parse<'a> for MetadataData<'a> {
    fn parse(input: Span<'a>) -> (r: Result<(Span<'a>, MetadataData<'a>), Error>) {
        Self::parse(input)
    }
}

} // verus!
