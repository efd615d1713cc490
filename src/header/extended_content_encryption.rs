use vstd::prelude::*;
use vstd::bytes::*;
use vstd::seq_lib::lemma_concat_associative;

use crate::error::{Error, ErrorKind, WriteError};
use crate::span::{lemma_splits_chain, Span};
use crate::wire::{parsed, encodes, lemma_cancel, lemma_int_bytes_injective, lemma_int_bytes_len, read_u32, take, write_bytes, write_u32, Parse, Wire};

verus! {

/// The extended content encryption object: one length-prefixed blob.
#[derive(Debug, PartialEq, Eq)]
pub struct ExtendedContentEncryptionData<'a> {
    pub data: Span<'a>,
}

impl<'a> ExtendedContentEncryptionData<'a> {
    /// The number of bytes `write` emits, computed without writing.
    pub fn size_of(&self) -> (r: usize)
        requires
            self.spec_bytes().len() <= usize::MAX,
        ensures
            r == self.spec_bytes().len(),
    {
        proof {
            lemma_int_bytes_len();
        }
        let mut n: usize = 0;
        n = n + 4;
        n = n + self.data.len();
        n
    }

    /// Appends the wire form to `w`; fails when a length overflows its prefix.
    pub fn write(&self, w: &mut Vec<u8>) -> (r: Result<(), WriteError>)
        requires
            self.spec_bytes().len() <= usize::MAX,
        ensures
            r is Ok <==> self.writable(),
            r is Ok ==> final(w)@ == old(w)@ + self.spec_bytes(),
    {
        proof {
            lemma_int_bytes_len();
        }
        let data_len: usize = self.data.len();
        if data_len > 0xffff_ffff {
            return Err(WriteError::FieldTooLarge);
        }
        write_u32(w, data_len as u32);
        write_bytes(w, self.data.fragment());
        proof {
            lemma_concat_associative(old(w)@, spec_u32_to_le_bytes((self.data.bytes().len()) as u32), self.data.bytes());
        }
        Ok(())
    }
}

impl<'a> Wire for ExtendedContentEncryptionData<'a> {
    open spec fn spec_bytes(&self) -> Seq<u8> {
        spec_u32_to_le_bytes((self.data.bytes().len()) as u32)
            + self.data.bytes()
    }

    open spec fn writable(&self) -> bool {
        self.data.bytes().len() <= 0xffff_ffff
    }

    fn size_of(&self) -> (r: usize) {
        Self::size_of(self)
    }

    fn write(&self, w: &mut Vec<u8>) -> (r: Result<(), WriteError>) {
        Self::write(self, w)
    }
}

impl<'a> ExtendedContentEncryptionData<'a> {
    /// Decodes one value; the bytes consumed are exactly what `write` emits for it.
    pub fn parse(input: Span<'a>) -> (r: Result<(Span<'a>, ExtendedContentEncryptionData<'a>), Error>)
        ensures
            r matches Ok((rest, v)) ==> parsed(input, v, rest),
            r matches Err(e) ==> e.kind == ErrorKind::Eof,
            forall|w: Self, t: Seq<u8>| #[trigger] encodes(input.bytes(), w, t)
                ==> (r matches Ok((rest, v)) && v.spec_bytes() == w.spec_bytes()),
    {
        proof {
            lemma_int_bytes_len();
            lemma_int_bytes_injective();
        }
        proof {
            assert forall|w: ExtendedContentEncryptionData<'a>, t: Seq<u8>| #[trigger] encodes(input.bytes(), w, t) implies input.bytes() == spec_u32_to_le_bytes((w.data.bytes().len()) as u32) + (w.data.bytes() + t) by {
                lemma_concat_associative(spec_u32_to_le_bytes((w.data.bytes().len()) as u32), w.data.bytes(), t);
            }
        }
        let (i1, data_len) = match read_u32(input) {
            Ok(x) => x,
            Err(e) => {
                proof {
                    assert forall|w: ExtendedContentEncryptionData<'a>, t: Seq<u8>| #[trigger] encodes(input.bytes(), w, t) implies false by {
                    }
                }
                return Err(e);
            },
        };
        let ghost consumed1 = spec_u32_to_le_bytes(data_len);
        proof {
            assert forall|w: ExtendedContentEncryptionData<'a>, t: Seq<u8>| #[trigger] encodes(input.bytes(), w, t) implies spec_u32_to_le_bytes(data_len) == spec_u32_to_le_bytes((w.data.bytes().len()) as u32) && i1.bytes() == w.data.bytes() + t by {
                lemma_cancel(input.bytes(), spec_u32_to_le_bytes(data_len), i1.bytes(), spec_u32_to_le_bytes((w.data.bytes().len()) as u32), (w.data.bytes() + t));
            }
        }
        let (i2, data) = match take(i1, data_len as usize) {
            Ok(x) => x,
            Err(e) => {
                proof {
                    assert forall|w: ExtendedContentEncryptionData<'a>, t: Seq<u8>| #[trigger] encodes(input.bytes(), w, t) implies false by {
                    }
                }
                return Err(e);
            },
        };
        let ghost consumed2 = consumed1 + data.bytes();
        proof {
            lemma_splits_chain(input, consumed1, i1, data.bytes(), i2);
            assert forall|w: ExtendedContentEncryptionData<'a>, t: Seq<u8>| #[trigger] encodes(input.bytes(), w, t) implies data.bytes() == w.data.bytes() && i2.bytes() == t by {
                lemma_cancel(i1.bytes(), data.bytes(), i2.bytes(), w.data.bytes(), t);
            }
        }
        let v = ExtendedContentEncryptionData { data };
        proof {
            assert forall|w: ExtendedContentEncryptionData<'a>, t: Seq<u8>| #[trigger] encodes(input.bytes(), w, t) implies v.spec_bytes() == w.spec_bytes() by {
            }
        }
        Ok((i2, v))
    }
}

impl<'a> Parse<'a> for ExtendedContentEncryptionData<'a> {
    fn parse(input: Span<'a>) -> (r: Result<(Span<'a>, ExtendedContentEncryptionData<'a>), Error>) {
        Self::parse(input)
    }
}

} // verus!
