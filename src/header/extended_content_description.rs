use vstd::prelude::*;
use vstd::bytes::*;
use vstd::seq_lib::lemma_concat_associative;

use crate::error::{Error, ErrorKind, WriteError};
use crate::span::{lemma_splits_chain, Span};
use crate::wire::{parsed, all_writable, encodes_seq, encodes, lemma_cancel, lemma_int_bytes_injective, lemma_int_bytes_len, parse_count, read_u16, seq_bytes, size_of_seq, take, write_bytes, write_seq, write_u16, Parse, Wire};
use crate::widestr::{encodes_count16, WideStr};

verus! {

/// One name/value descriptor; the value is kept as a span.
#[derive(Debug, PartialEq, Eq)]
pub struct ContentDescriptor<'a> {
    pub name: WideStr,
    pub value_type: u16,
    pub value: Span<'a>,
}

impl<'a> ContentDescriptor<'a> {
    /// The number of bytes `write` emits, computed without writing.
    pub fn size_of(&self) -> (r: usize)
        requires
            self.spec_bytes().len() <= usize::MAX,
        ensures
            r == self.spec_bytes().len(),
    {
        proof {
            lemma_int_bytes_len();
        }
        let mut n: usize = 0;
        n = n + self.name.size_of_count16();
        n = n + 2;
        n = n + 2;
        n = n + self.value.len();
        n
    }

    /// Appends the wire form to `w`; fails when a length overflows its prefix.
    pub fn write(&self, w: &mut Vec<u8>) -> (r: Result<(), WriteError>)
        requires
            self.spec_bytes().len() <= usize::MAX,
        ensures
            r is Ok <==> self.writable(),
            r is Ok ==> final(w)@ == old(w)@ + self.spec_bytes(),
    {
        proof {
            lemma_int_bytes_len();
        }
        self.name.write_count16(w)?;
        write_u16(w, self.value_type);
        proof {
            lemma_concat_associative(old(w)@, self.name.spec_bytes_count16(), spec_u16_to_le_bytes(self.value_type));
        }
        let value_len: usize = self.value.len();
        if value_len > 0xffff {
            return Err(WriteError::FieldTooLarge);
        }
        write_u16(w, value_len as u16);
        proof {
            lemma_concat_associative(old(w)@, self.name.spec_bytes_count16() + spec_u16_to_le_bytes(self.value_type), spec_u16_to_le_bytes((self.value.bytes().len()) as u16));
        }
        write_bytes(w, self.value.fragment());
        proof {
            lemma_concat_associative(old(w)@, self.name.spec_bytes_count16() + spec_u16_to_le_bytes(self.value_type) + spec_u16_to_le_bytes((self.value.bytes().len()) as u16), self.value.bytes());
        }
        Ok(())
    }
}

impl<'a> Wire for ContentDescriptor<'a> {
    open spec fn spec_bytes(&self) -> Seq<u8> {
        self.name.spec_bytes_count16()
            + spec_u16_to_le_bytes(self.value_type)
            + spec_u16_to_le_bytes((self.value.bytes().len()) as u16)
            + self.value.bytes()
    }

    open spec fn writable(&self) -> bool {
        self.name.writable_count16()
        && self.value.bytes().len() <= 0xffff
    }

    fn size_of(&self) -> (r: usize) {
        Self::size_of(self)
    }

    fn write(&self, w: &mut Vec<u8>) -> (r: Result<(), WriteError>) {
        Self::write(self, w)
    }
}

impl<'a> ContentDescriptor<'a> {
    /// Decodes one value; the bytes consumed are exactly what `write` emits for it.
    pub fn parse(input: Span<'a>) -> (r: Result<(Span<'a>, ContentDescriptor<'a>), Error>)
        ensures
            r matches Ok((rest, v)) ==> parsed(input, v, rest),
            r matches Err(e) ==> e.kind == ErrorKind::Eof,
            forall|w: Self, t: Seq<u8>| #[trigger] encodes(input.bytes(), w, t)
                ==> (r matches Ok((rest, v)) && v.spec_bytes() == w.spec_bytes()),
    {
        proof {
            lemma_int_bytes_len();
            lemma_int_bytes_injective();
        }
        proof {
            assert forall|w: ContentDescriptor<'a>, t: Seq<u8>| #[trigger] encodes(input.bytes(), w, t) implies input.bytes() == w.name.spec_bytes_count16() + (spec_u16_to_le_bytes(w.value_type) + (spec_u16_to_le_bytes((w.value.bytes().len()) as u16) + (w.value.bytes() + t))) by {
                lemma_concat_associative(w.name.spec_bytes_count16() + spec_u16_to_le_bytes(w.value_type) + spec_u16_to_le_bytes((w.value.bytes().len()) as u16), w.value.bytes(), t);
                lemma_concat_associative(w.name.spec_bytes_count16() + spec_u16_to_le_bytes(w.value_type), spec_u16_to_le_bytes((w.value.bytes().len()) as u16), (w.value.bytes() + t));
                lemma_concat_associative(w.name.spec_bytes_count16(), spec_u16_to_le_bytes(w.value_type), (spec_u16_to_le_bytes((w.value.bytes().len()) as u16) + (w.value.bytes() + t)));
            }
        }
        let (i1, name) = match WideStr::parse_count16(input) {
            Ok(x) => x,
            Err(e) => {
                proof {
                    assert forall|w: ContentDescriptor<'a>, t: Seq<u8>| #[trigger] encodes(input.bytes(), w, t) implies false by {
                        assert(encodes_count16(input.bytes(), w.name, (spec_u16_to_le_bytes(w.value_type) + (spec_u16_to_le_bytes((w.value.bytes().len()) as u16) + (w.value.bytes() + t)))));
                    }
                }
                return Err(e);
            },
        };
        let ghost consumed1 = name.spec_bytes_count16();
        proof {
            assert forall|w: ContentDescriptor<'a>, t: Seq<u8>| #[trigger] encodes(input.bytes(), w, t) implies name.spec_bytes_count16() == w.name.spec_bytes_count16() && i1.bytes() == spec_u16_to_le_bytes(w.value_type) + (spec_u16_to_le_bytes((w.value.bytes().len()) as u16) + (w.value.bytes() + t)) by {
                assert(encodes_count16(input.bytes(), w.name, (spec_u16_to_le_bytes(w.value_type) + (spec_u16_to_le_bytes((w.value.bytes().len()) as u16) + (w.value.bytes() + t)))));
                lemma_cancel(input.bytes(), name.spec_bytes_count16(), i1.bytes(), w.name.spec_bytes_count16(), (spec_u16_to_le_bytes(w.value_type) + (spec_u16_to_le_bytes((w.value.bytes().len()) as u16) + (w.value.bytes() + t))));
            }
        }
        let (i2, value_type) = match read_u16(i1) {
            Ok(x) => x,
            Err(e) => {
                proof {
                    assert forall|w: ContentDescriptor<'a>, t: Seq<u8>| #[trigger] encodes(input.bytes(), w, t) implies false by {
                    }
                }
                return Err(e);
            },
        };
        let ghost consumed2 = consumed1 + spec_u16_to_le_bytes(value_type);
        proof {
            lemma_splits_chain(input, consumed1, i1, spec_u16_to_le_bytes(value_type), i2);
            assert forall|w: ContentDescriptor<'a>, t: Seq<u8>| #[trigger] encodes(input.bytes(), w, t) implies spec_u16_to_le_bytes(value_type) == spec_u16_to_le_bytes(w.value_type) && i2.bytes() == spec_u16_to_le_bytes((w.value.bytes().len()) as u16) + (w.value.bytes() + t) by {
                lemma_cancel(i1.bytes(), spec_u16_to_le_bytes(value_type), i2.bytes(), spec_u16_to_le_bytes(w.value_type), (spec_u16_to_le_bytes((w.value.bytes().len()) as u16) + (w.value.bytes() + t)));
            }
        }
        let (i3, value_len) = match read_u16(i2) {
            Ok(x) => x,
            Err(e) => {
                proof {
                    assert forall|w: ContentDescriptor<'a>, t: Seq<u8>| #[trigger] encodes(input.bytes(), w, t) implies false by {
                    }
                }
                return Err(e);
            },
        };
        let ghost consumed3 = consumed2 + spec_u16_to_le_bytes(value_len);
        proof {
            lemma_splits_chain(input, consumed2, i2, spec_u16_to_le_bytes(value_len), i3);
            assert forall|w: ContentDescriptor<'a>, t: Seq<u8>| #[trigger] encodes(input.bytes(), w, t) implies spec_u16_to_le_bytes(value_len) == spec_u16_to_le_bytes((w.value.bytes().len()) as u16) && i3.bytes() == w.value.bytes() + t by {
                lemma_cancel(i2.bytes(), spec_u16_to_le_bytes(value_len), i3.bytes(), spec_u16_to_le_bytes((w.value.bytes().len()) as u16), (w.value.bytes() + t));
            }
        }
        let (i4, value) = match take(i3, value_len as usize) {
            Ok(x) => x,
            Err(e) => {
                proof {
                    assert forall|w: ContentDescriptor<'a>, t: Seq<u8>| #[trigger] encodes(input.bytes(), w, t) implies false by {
                    }
                }
                return Err(e);
            },
        };
        let ghost consumed4 = consumed3 + value.bytes();
        proof {
            lemma_splits_chain(input, consumed3, i3, value.bytes(), i4);
            assert forall|w: ContentDescriptor<'a>, t: Seq<u8>| #[trigger] encodes(input.bytes(), w, t) implies value.bytes() == w.value.bytes() && i4.bytes() == t by {
                lemma_cancel(i3.bytes(), value.bytes(), i4.bytes(), w.value.bytes(), t);
            }
        }
        let v = ContentDescriptor { name, value_type, value };
        proof {
            assert forall|w: ContentDescriptor<'a>, t: Seq<u8>| #[trigger] encodes(input.bytes(), w, t) implies v.spec_bytes() == w.spec_bytes() by {
            }
        }
        Ok((i4, v))
    }
}

impl<'a> Parse<'a> for ContentDescriptor<'a> {
    fn parse(input: Span<'a>) -> (r: Result<(Span<'a>, ContentDescriptor<'a>), Error>) {
        Self::parse(input)
    }
}

/// The extended content description object.
#[derive(Debug, PartialEq, Eq)]
pub struct ExtendedContentDescriptionData<'a> {
    pub descriptors: Vec<ContentDescriptor<'a>>,
}

impl<'a> ExtendedContentDescriptionData<'a> {
    /// The number of bytes `write` emits, computed without writing.
    pub fn size_of(&self) -> (r: usize)
        requires
            self.spec_bytes().len() <= usize::MAX,
        ensures
            r == self.spec_bytes().len(),
    {
        proof {
            lemma_int_bytes_len();
        }
        let mut n: usize = 0;
        n = n + 2;
        n = n + size_of_seq(&self.descriptors);
        n
    }

    /// Appends the wire form to `w`; fails when a length overflows its prefix.
    pub fn write(&self, w: &mut Vec<u8>) -> (r: Result<(), WriteError>)
        requires
            self.spec_bytes().len() <= usize::MAX,
        ensures
            r is Ok <==> self.writable(),
            r is Ok ==> final(w)@ == old(w)@ + self.spec_bytes(),
    {
        proof {
            lemma_int_bytes_len();
        }
        let descriptors_len: usize = self.descriptors.len();
        if descriptors_len > 0xffff {
            return Err(WriteError::FieldTooLarge);
        }
        write_u16(w, descriptors_len as u16);
        write_seq(&self.descriptors, w)?;
        proof {
            lemma_concat_associative(old(w)@, spec_u16_to_le_bytes((self.descriptors@.len()) as u16), seq_bytes(self.descriptors@));
        }
        Ok(())
    }
}

impl<'a> Wire for ExtendedContentDescriptionData<'a> {
    open spec fn spec_bytes(&self) -> Seq<u8> {
        spec_u16_to_le_bytes((self.descriptors@.len()) as u16)
            + seq_bytes(self.descriptors@)
    }

    open spec fn writable(&self) -> bool {
        self.descriptors@.len() <= 0xffff
        && all_writable(self.descriptors@)
    }

    fn size_of(&self) -> (r: usize) {
        Self::size_of(self)
    }

    fn write(&self, w: &mut Vec<u8>) -> (r: Result<(), WriteError>) {
        Self::write(self, w)
    }
}

impl<'a> ExtendedContentDescriptionData<'a> {
    /// Decodes one value; the bytes consumed are exactly what `write` emits for it.
    pub fn parse(input: Span<'a>) -> (r: Result<(Span<'a>, ExtendedContentDescriptionData<'a>), Error>)
        ensures
            r matches Ok((rest, v)) ==> parsed(input, v, rest),
            r matches Err(e) ==> e.kind == ErrorKind::Eof,
            forall|w: Self, t: Seq<u8>| #[trigger] encodes(input.bytes(), w, t)
                ==> (r matches Ok((rest, v)) && v.spec_bytes() == w.spec_bytes()),
    {
        proof {
            lemma_int_bytes_len();
            lemma_int_bytes_injective();
        }
        proof {
            assert forall|w: ExtendedContentDescriptionData<'a>, t: Seq<u8>| #[trigger] encodes(input.bytes(), w, t) implies input.bytes() == spec_u16_to_le_bytes((w.descriptors@.len()) as u16) + (seq_bytes(w.descriptors@) + t) by {
                lemma_concat_associative(spec_u16_to_le_bytes((w.descriptors@.len()) as u16), seq_bytes(w.descriptors@), t);
            }
        }
        let (i1, descriptors_len) = match read_u16(input) {
            Ok(x) => x,
            Err(e) => {
                proof {
                    assert forall|w: ExtendedContentDescriptionData<'a>, t: Seq<u8>| #[trigger] encodes(input.bytes(), w, t) implies false by {
                    }
                }
                return Err(e);
            },
        };
        let ghost consumed1 = spec_u16_to_le_bytes(descriptors_len);
        proof {
            assert forall|w: ExtendedContentDescriptionData<'a>, t: Seq<u8>| #[trigger] encodes(input.bytes(), w, t) implies spec_u16_to_le_bytes(descriptors_len) == spec_u16_to_le_bytes((w.descriptors@.len()) as u16) && i1.bytes() == seq_bytes(w.descriptors@) + t by {
                lemma_cancel(input.bytes(), spec_u16_to_le_bytes(descriptors_len), i1.bytes(), spec_u16_to_le_bytes((w.descriptors@.len()) as u16), (seq_bytes(w.descriptors@) + t));
            }
        }
        let (i2, descriptors) = match parse_count::<ContentDescriptor>(i1, descriptors_len as usize) {
            Ok(x) => x,
            Err(e) => {
                proof {
                    assert forall|w: ExtendedContentDescriptionData<'a>, t: Seq<u8>| #[trigger] encodes(input.bytes(), w, t) implies false by {
                        assert(encodes_seq(i1.bytes(), w.descriptors@, t));
                    }
                }
                return Err(e);
            },
        };
        let ghost consumed2 = consumed1 + seq_bytes(descriptors@);
        proof {
            lemma_splits_chain(input, consumed1, i1, seq_bytes(descriptors@), i2);
            assert forall|w: ExtendedContentDescriptionData<'a>, t: Seq<u8>| #[trigger] encodes(input.bytes(), w, t) implies seq_bytes(descriptors@) == seq_bytes(w.descriptors@) && i2.bytes() == t by {
                assert(encodes_seq(i1.bytes(), w.descriptors@, t));
                lemma_cancel(i1.bytes(), seq_bytes(descriptors@), i2.bytes(), seq_bytes(w.descriptors@), t);
            }
        }
        let v = ExtendedContentDescriptionData { descriptors };
        proof {
            assert forall|w: ExtendedContentDescriptionData<'a>, t: Seq<u8>| #[trigger] encodes(input.bytes(), w, t) implies v.spec_bytes() == w.spec_bytes() by {
            }
        }
        Ok((i2, v))
    }
}

impl<'a> Parse<'a> for ExtendedContentDescriptionData<'a> {
    fn parse(input: Span<'a>) -> (r: Result<(Span<'a>, ExtendedContentDescriptionData<'a>), Error>) {
        Self::parse(input)
    }
}

} // verus!
