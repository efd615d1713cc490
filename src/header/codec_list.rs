use vstd::prelude::*;
use vstd::bytes::*;
use vstd::seq_lib::lemma_concat_associative;

use crate::error::{Error, ErrorKind, WriteError};
use crate::span::{lemma_splits_chain, Span};
use crate::guid::{guid, guid_to_wire, lemma_guid_value_round_trip, write_guid, Guid};
use crate::wire::{parsed, all_writable, encodes_seq, encodes, lemma_cancel, lemma_int_bytes_injective, lemma_int_bytes_len, parse_count, read_u16, read_u32, seq_bytes, size_of_seq, take, write_bytes, write_seq, write_u16, write_u32, Parse, Wire};
use crate::widestr::{encodes_count16, WideStr};

verus! {

/// One codec: its type, name, description and opaque information.
#[derive(Debug, PartialEq, Eq)]
pub struct CodecEntry<'a> {
    pub codec_type: u16,
    pub codec_name: WideStr,
    pub codec_description: WideStr,
    pub codec_information: Span<'a>,
}

impl<'a> CodecEntry<'a> {
    /// The number of bytes `write` emits, computed without writing.
    pub fn size_of(&self) -> (r: usize)
        requires
            self.spec_bytes().len() <= usize::MAX,
        ensures
            r == self.spec_bytes().len(),
    {
        proof {
            lemma_int_bytes_len();
        }
        let mut n: usize = 0;
        n = n + 2;
        n = n + self.codec_name.size_of_count16();
        n = n + self.codec_description.size_of_count16();
        n = n + 2;
        n = n + self.codec_information.len();
        n
    }

    /// Appends the wire form to `w`; fails when a length overflows its prefix.
    pub fn write(&self, w: &mut Vec<u8>) -> (r: Result<(), WriteError>)
        requires
            self.spec_bytes().len() <= usize::MAX,
        ensures
            r is Ok <==> self.writable(),
            r is Ok ==> final(w)@ == old(w)@ + self.spec_bytes(),
    {
        proof {
            lemma_int_bytes_len();
        }
        write_u16(w, self.codec_type);
        self.codec_name.write_count16(w)?;
        proof {
            lemma_concat_associative(old(w)@, spec_u16_to_le_bytes(self.codec_type), self.codec_name.spec_bytes_count16());
        }
        self.codec_description.write_count16(w)?;
        proof {
            lemma_concat_associative(old(w)@, spec_u16_to_le_bytes(self.codec_type) + self.codec_name.spec_bytes_count16(), self.codec_description.spec_bytes_count16());
        }
        let codec_information_len: usize = self.codec_information.len();
        if codec_information_len > 0xffff {
            return Err(WriteError::FieldTooLarge);
        }
        write_u16(w, codec_information_len as u16);
        proof {
            lemma_concat_associative(old(w)@, spec_u16_to_le_bytes(self.codec_type) + self.codec_name.spec_bytes_count16() + self.codec_description.spec_bytes_count16(), spec_u16_to_le_bytes((self.codec_information.bytes().len()) as u16));
        }
        write_bytes(w, self.codec_information.fragment());
        proof {
            lemma_concat_associative(old(w)@, spec_u16_to_le_bytes(self.codec_type) + self.codec_name.spec_bytes_count16() + self.codec_description.spec_bytes_count16() + spec_u16_to_le_bytes((self.codec_information.bytes().len()) as u16), self.codec_information.bytes());
        }
        Ok(())
    }
}

impl<'a> Wire for CodecEntry<'a> {
    open spec fn spec_bytes(&self) -> Seq<u8> {
        spec_u16_to_le_bytes(self.codec_type)
            + self.codec_name.spec_bytes_count16()
            + self.codec_description.spec_bytes_count16()
            + spec_u16_to_le_bytes((self.codec_information.bytes().len()) as u16)
            + self.codec_information.bytes()
    }

    open spec fn writable(&self) -> bool {
        self.codec_name.writable_count16()
        && self.codec_description.writable_count16()
        && self.codec_information.bytes().len() <= 0xffff
    }

    fn size_of(&self) -> (r: usize) {
        Self::size_of(self)
    }

    fn write(&self, w: &mut Vec<u8>) -> (r: Result<(), WriteError>) {
        Self::write(self, w)
    }
}

impl<'a> CodecEntry<'a> {
    /// Decodes one value; the bytes consumed are exactly what `write` emits for it.
    pub fn parse(input: Span<'a>) -> (r: Result<(Span<'a>, CodecEntry<'a>), Error>)
        ensures
            r matches Ok((rest, v)) ==> parsed(input, v, rest),
            r matches Err(e) ==> e.kind == ErrorKind::Eof,
            forall|w: Self, t: Seq<u8>| #[trigger] encodes(input.bytes(), w, t)
                ==> (r matches Ok((rest, v)) && v.spec_bytes() == w.spec_bytes()),
    {
        proof {
            lemma_int_bytes_len();
            lemma_int_bytes_injective();
        }
        proof {
            assert forall|w: CodecEntry<'a>, t: Seq<u8>| #[trigger] encodes(input.bytes(), w, t) implies input.bytes() == spec_u16_to_le_bytes(w.codec_type) + (w.codec_name.spec_bytes_count16() + (w.codec_description.spec_bytes_count16() + (spec_u16_to_le_bytes((w.codec_information.bytes().len()) as u16) + (w.codec_information.bytes() + t)))) by {
                lemma_concat_associative(spec_u16_to_le_bytes(w.codec_type) + w.codec_name.spec_bytes_count16() + w.codec_description.spec_bytes_count16() + spec_u16_to_le_bytes((w.codec_information.bytes().len()) as u16), w.codec_information.bytes(), t);
                lemma_concat_associative(spec_u16_to_le_bytes(w.codec_type) + w.codec_name.spec_bytes_count16() + w.codec_description.spec_bytes_count16(), spec_u16_to_le_bytes((w.codec_information.bytes().len()) as u16), (w.codec_information.bytes() + t));
                lemma_concat_associative(spec_u16_to_le_bytes(w.codec_type) + w.codec_name.spec_bytes_count16(), w.codec_description.spec_bytes_count16(), (spec_u16_to_le_bytes((w.codec_information.bytes().len()) as u16) + (w.codec_information.bytes() + t)));
                lemma_concat_associative(spec_u16_to_le_bytes(w.codec_type), w.codec_name.spec_bytes_count16(), (w.codec_description.spec_bytes_count16() + (spec_u16_to_le_bytes((w.codec_information.bytes().len()) as u16) + (w.codec_information.bytes() + t))));
            }
        }
        let (i1, codec_type) = match read_u16(input) {
            Ok(x) => x,
            Err(e) => {
                proof {
                    assert forall|w: CodecEntry<'a>, t: Seq<u8>| #[trigger] encodes(input.bytes(), w, t) implies false by {
                    }
                }
                return Err(e);
            },
        };
        let ghost consumed1 = spec_u16_to_le_bytes(codec_type);
        proof {
            assert forall|w: CodecEntry<'a>, t: Seq<u8>| #[trigger] encodes(input.bytes(), w, t) implies spec_u16_to_le_bytes(codec_type) == spec_u16_to_le_bytes(w.codec_type) && i1.bytes() == w.codec_name.spec_bytes_count16() + (w.codec_description.spec_bytes_count16() + (spec_u16_to_le_bytes((w.codec_information.bytes().len()) as u16) + (w.codec_information.bytes() + t))) by {
                lemma_cancel(input.bytes(), spec_u16_to_le_bytes(codec_type), i1.bytes(), spec_u16_to_le_bytes(w.codec_type), (w.codec_name.spec_bytes_count16() + (w.codec_description.spec_bytes_count16() + (spec_u16_to_le_bytes((w.codec_information.bytes().len()) as u16) + (w.codec_information.bytes() + t)))));
            }
        }
        let (i2, codec_name) = match WideStr::parse_count16(i1) {
            Ok(x) => x,
            Err(e) => {
                proof {
                    assert forall|w: CodecEntry<'a>, t: Seq<u8>| #[trigger] encodes(input.bytes(), w, t) implies false by {
                        assert(encodes_count16(i1.bytes(), w.codec_name, (w.codec_description.spec_bytes_count16() + (spec_u16_to_le_bytes((w.codec_information.bytes().len()) as u16) + (w.codec_information.bytes() + t)))));
                    }
                }
                return Err(e);
            },
        };
        let ghost consumed2 = consumed1 + codec_name.spec_bytes_count16();
        proof {
            lemma_splits_chain(input, consumed1, i1, codec_name.spec_bytes_count16(), i2);
            assert forall|w: CodecEntry<'a>, t: Seq<u8>| #[trigger] encodes(input.bytes(), w, t) implies codec_name.spec_bytes_count16() == w.codec_name.spec_bytes_count16() && i2.bytes() == w.codec_description.spec_bytes_count16() + (spec_u16_to_le_bytes((w.codec_information.bytes().len()) as u16) + (w.codec_information.bytes() + t)) by {
                assert(encodes_count16(i1.bytes(), w.codec_name, (w.codec_description.spec_bytes_count16() + (spec_u16_to_le_bytes((w.codec_information.bytes().len()) as u16) + (w.codec_information.bytes() + t)))));
                lemma_cancel(i1.bytes(), codec_name.spec_bytes_count16(), i2.bytes(), w.codec_name.spec_bytes_count16(), (w.codec_description.spec_bytes_count16() + (spec_u16_to_le_bytes((w.codec_information.bytes().len()) as u16) + (w.codec_information.bytes() + t))));
            }
        }
        let (i3, codec_description) = match WideStr::parse_count16(i2) {
            Ok(x) => x,
            Err(e) => {
                proof {
                    assert forall|w: CodecEntry<'a>, t: Seq<u8>| #[trigger] encodes(input.bytes(), w, t) implies false by {
                        assert(encodes_count16(i2.bytes(), w.codec_description, (spec_u16_to_le_bytes((w.codec_information.bytes().len()) as u16) + (w.codec_information.bytes() + t))));
                    }
                }
                return Err(e);
            },
        };
        let ghost consumed3 = consumed2 + codec_description.spec_bytes_count16();
        proof {
            lemma_splits_chain(input, consumed2, i2, codec_description.spec_bytes_count16(), i3);
            assert forall|w: CodecEntry<'a>, t: Seq<u8>| #[trigger] encodes(input.bytes(), w, t) implies codec_description.spec_bytes_count16() == w.codec_description.spec_bytes_count16() && i3.bytes() == spec_u16_to_le_bytes((w.codec_information.bytes().len()) as u16) + (w.codec_information.bytes() + t) by {
                assert(encodes_count16(i2.bytes(), w.codec_description, (spec_u16_to_le_bytes((w.codec_information.bytes().len()) as u16) + (w.codec_information.bytes() + t))));
                lemma_cancel(i2.bytes(), codec_description.spec_bytes_count16(), i3.bytes(), w.codec_description.spec_bytes_count16(), (spec_u16_to_le_bytes((w.codec_information.bytes().len()) as u16) + (w.codec_information.bytes() + t)));
            }
        }
        let (i4, codec_information_len) = match read_u16(i3) {
            Ok(x) => x,
            Err(e) => {
                proof {
                    assert forall|w: CodecEntry<'a>, t: Seq<u8>| #[trigger] encodes(input.bytes(), w, t) implies false by {
                    }
                }
                return Err(e);
            },
        };
        let ghost consumed4 = consumed3 + spec_u16_to_le_bytes(codec_information_len);
        proof {
            lemma_splits_chain(input, consumed3, i3, spec_u16_to_le_bytes(codec_information_len), i4);
            assert forall|w: CodecEntry<'a>, t: Seq<u8>| #[trigger] encodes(input.bytes(), w, t) implies spec_u16_to_le_bytes(codec_information_len) == spec_u16_to_le_bytes((w.codec_information.bytes().len()) as u16) && i4.bytes() == w.codec_information.bytes() + t by {
                lemma_cancel(i3.bytes(), spec_u16_to_le_bytes(codec_information_len), i4.bytes(), spec_u16_to_le_bytes((w.codec_information.bytes().len()) as u16), (w.codec_information.bytes() + t));
            }
        }
        let (i5, codec_information) = match take(i4, codec_information_len as usize) {
            Ok(x) => x,
            Err(e) => {
                proof {
                    assert forall|w: CodecEntry<'a>, t: Seq<u8>| #[trigger] encodes(input.bytes(), w, t) implies false by {
                    }
                }
                return Err(e);
            },
        };
        let ghost consumed5 = consumed4 + codec_information.bytes();
        proof {
            lemma_splits_chain(input, consumed4, i4, codec_information.bytes(), i5);
            assert forall|w: CodecEntry<'a>, t: Seq<u8>| #[trigger] encodes(input.bytes(), w, t) implies codec_information.bytes() == w.codec_information.bytes() && i5.bytes() == t by {
                lemma_cancel(i4.bytes(), codec_information.bytes(), i5.bytes(), w.codec_information.bytes(), t);
            }
        }
        let v = CodecEntry { codec_type, codec_name, codec_description, codec_information };
        proof {
            assert forall|w: CodecEntry<'a>, t: Seq<u8>| #[trigger] encodes(input.bytes(), w, t) implies v.spec_bytes() == w.spec_bytes() by {
            }
        }
        Ok((i5, v))
    }
}

impl<'a> Parse<'a> for CodecEntry<'a> {
    fn parse(input: Span<'a>) -> (r: Result<(Span<'a>, CodecEntry<'a>), Error>) {
        Self::parse(input)
    }
}

/// The codec list object.
#[derive(Debug, PartialEq, Eq)]
pub struct CodecListData<'a> {
    pub reserved: Guid,
    pub codec_entries: Vec<CodecEntry<'a>>,
}

impl<'a> CodecListData<'a> {
    /// The number of bytes `write` emits, computed without writing.
    pub fn size_of(&self) -> (r: usize)
        requires
            self.spec_bytes().len() <= usize::MAX,
        ensures
            r == self.spec_bytes().len(),
    {
        proof {
            lemma_int_bytes_len();
            lemma_guid_value_round_trip(self.reserved.0);
        }
        let mut n: usize = 0;
        n = n + 16;
        n = n + 4;
        n = n + size_of_seq(&self.codec_entries);
        n
    }

    /// Appends the wire form to `w`; fails when a length overflows its prefix.
    pub fn write(&self, w: &mut Vec<u8>) -> (r: Result<(), WriteError>)
        requires
            self.spec_bytes().len() <= usize::MAX,
        ensures
            r is Ok <==> self.writable(),
            r is Ok ==> final(w)@ == old(w)@ + self.spec_bytes(),
    {
        proof {
            lemma_int_bytes_len();
            lemma_guid_value_round_trip(self.reserved.0);
        }
        write_guid(w, self.reserved);
        let codec_entries_len: usize = self.codec_entries.len();
        if codec_entries_len > 0xffff_ffff {
            return Err(WriteError::FieldTooLarge);
        }
        write_u32(w, codec_entries_len as u32);
        proof {
            lemma_concat_associative(old(w)@, guid_to_wire(self.reserved.0), spec_u32_to_le_bytes((self.codec_entries@.len()) as u32));
        }
        write_seq(&self.codec_entries, w)?;
        proof {
            lemma_concat_associative(old(w)@, guid_to_wire(self.reserved.0) + spec_u32_to_le_bytes((self.codec_entries@.len()) as u32), seq_bytes(self.codec_entries@));
        }
        Ok(())
    }
}

impl<'a> Wire for CodecListData<'a> {
    open spec fn spec_bytes(&self) -> Seq<u8> {
        guid_to_wire(self.reserved.0)
            + spec_u32_to_le_bytes((self.codec_entries@.len()) as u32)
            + seq_bytes(self.codec_entries@)
    }

    open spec fn writable(&self) -> bool {
        self.codec_entries@.len() <= 0xffff_ffff
        && all_writable(self.codec_entries@)
    }

    fn size_of(&self) -> (r: usize) {
        Self::size_of(self)
    }

    fn write(&self, w: &mut Vec<u8>) -> (r: Result<(), WriteError>) {
        Self::write(self, w)
    }
}

impl<'a> CodecListData<'a> {
    /// Decodes one value; the bytes consumed are exactly what `write` emits for it.
    pub fn parse(input: Span<'a>) -> (r: Result<(Span<'a>, CodecListData<'a>), Error>)
        ensures
            r matches Ok((rest, v)) ==> parsed(input, v, rest),
            r matches Err(e) ==> e.kind == ErrorKind::Eof,
            forall|w: Self, t: Seq<u8>| #[trigger] encodes(input.bytes(), w, t)
                ==> (r matches Ok((rest, v)) && v.spec_bytes() == w.spec_bytes()),
    {
        proof {
            lemma_int_bytes_len();
            lemma_int_bytes_injective();
        }
        proof {
            assert forall|w: CodecListData<'a>, t: Seq<u8>| #[trigger] encodes(input.bytes(), w, t) implies input.bytes() == guid_to_wire(w.reserved.0) + (spec_u32_to_le_bytes((w.codec_entries@.len()) as u32) + (seq_bytes(w.codec_entries@) + t)) by {
                lemma_guid_value_round_trip(w.reserved.0);
                lemma_concat_associative(guid_to_wire(w.reserved.0) + spec_u32_to_le_bytes((w.codec_entries@.len()) as u32), seq_bytes(w.codec_entries@), t);
                lemma_concat_associative(guid_to_wire(w.reserved.0), spec_u32_to_le_bytes((w.codec_entries@.len()) as u32), (seq_bytes(w.codec_entries@) + t));
            }
        }
        let (i1, reserved) = match guid(input) {
            Ok(x) => x,
            Err(e) => {
                proof {
                    assert forall|w: CodecListData<'a>, t: Seq<u8>| #[trigger] encodes(input.bytes(), w, t) implies false by {
                        lemma_guid_value_round_trip(w.reserved.0);
                    }
                }
                return Err(e);
            },
        };
        let ghost consumed1 = guid_to_wire(reserved.0);
        proof {
            lemma_guid_value_round_trip(reserved.0);
            assert forall|w: CodecListData<'a>, t: Seq<u8>| #[trigger] encodes(input.bytes(), w, t) implies guid_to_wire(reserved.0) == guid_to_wire(w.reserved.0) && i1.bytes() == spec_u32_to_le_bytes((w.codec_entries@.len()) as u32) + (seq_bytes(w.codec_entries@) + t) by {
                lemma_guid_value_round_trip(w.reserved.0);
                lemma_cancel(input.bytes(), guid_to_wire(reserved.0), i1.bytes(), guid_to_wire(w.reserved.0), (spec_u32_to_le_bytes((w.codec_entries@.len()) as u32) + (seq_bytes(w.codec_entries@) + t)));
            }
        }
        let (i2, codec_entries_len) = match read_u32(i1) {
            Ok(x) => x,
            Err(e) => {
                proof {
                    assert forall|w: CodecListData<'a>, t: Seq<u8>| #[trigger] encodes(input.bytes(), w, t) implies false by {
                    }
                }
                return Err(e);
            },
        };
        let ghost consumed2 = consumed1 + spec_u32_to_le_bytes(codec_entries_len);
        proof {
            lemma_splits_chain(input, consumed1, i1, spec_u32_to_le_bytes(codec_entries_len), i2);
            assert forall|w: CodecListData<'a>, t: Seq<u8>| #[trigger] encodes(input.bytes(), w, t) implies spec_u32_to_le_bytes(codec_entries_len) == spec_u32_to_le_bytes((w.codec_entries@.len()) as u32) && i2.bytes() == seq_bytes(w.codec_entries@) + t by {
                lemma_cancel(i1.bytes(), spec_u32_to_le_bytes(codec_entries_len), i2.bytes(), spec_u32_to_le_bytes((w.codec_entries@.len()) as u32), (seq_bytes(w.codec_entries@) + t));
            }
        }
        let (i3, codec_entries) = match parse_count::<CodecEntry>(i2, codec_entries_len as usize) {
            Ok(x) => x,
            Err(e) => {
                proof {
                    assert forall|w: CodecListData<'a>, t: Seq<u8>| #[trigger] encodes(input.bytes(), w, t) implies false by {
                        assert(encodes_seq(i2.bytes(), w.codec_entries@, t));
                    }
                }
                return Err(e);
            },
        };
        let ghost consumed3 = consumed2 + seq_bytes(codec_entries@);
        proof {
            lemma_splits_chain(input, consumed2, i2, seq_bytes(codec_entries@), i3);
            assert forall|w: CodecListData<'a>, t: Seq<u8>| #[trigger] encodes(input.bytes(), w, t) implies seq_bytes(codec_entries@) == seq_bytes(w.codec_entries@) && i3.bytes() == t by {
                assert(encodes_seq(i2.bytes(), w.codec_entries@, t));
                lemma_cancel(i2.bytes(), seq_bytes(codec_entries@), i3.bytes(), seq_bytes(w.codec_entries@), t);
            }
        }
        let v = CodecListData { reserved, codec_entries };
        proof {
            assert forall|w: CodecListData<'a>, t: Seq<u8>| #[trigger] encodes(input.bytes(), w, t) implies v.spec_bytes() == w.spec_bytes() by {
            }
        }
        Ok((i3, v))
    }
}

impl<'a> Parse<'a> for CodecListData<'a> {
    fn parse(input: Span<'a>) -> (r: Result<(Span<'a>, CodecListData<'a>), Error>) {
        Self::parse(input)
    }
}

} // verus!
