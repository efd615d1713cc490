use vstd::prelude::*;
use vstd::bytes::*;
use vstd::seq_lib::lemma_concat_associative;

use crate::error::{Error, ErrorKind, WriteError};
use crate::span::{lemma_splits_chain, Span};
use crate::guid::{guid, guid_to_wire, lemma_guid_value_round_trip, write_guid, Guid};
use crate::wire::{parsed, encodes, lemma_cancel, lemma_int_bytes_injective, lemma_int_bytes_len, read_u32, take, write_bytes, write_u32, Parse, Wire};

verus! {

/// The error correction object: a type and an opaque blob.
#[derive(Debug, PartialEq, Eq)]
pub struct ErrorCorrectionData<'a> {
    pub error_correction_type: Guid,
    pub error_correction_data: Span<'a>,
}

impl<'a> ErrorCorrectionData<'a> {
    /// The number of bytes `write` emits, computed without writing.
    pub fn size_of(&self) -> (r: usize)
        requires
            self.spec_bytes().len() <= usize::MAX,
        ensures
            r == self.spec_bytes().len(),
    {
        proof {
            lemma_int_bytes_len();
            lemma_guid_value_round_trip(self.error_correction_type.0);
        }
        let mut n: usize = 0;
        n = n + 16;
        n = n + 4;
        n = n + self.error_correction_data.len();
        n
    }

    /// Appends the wire form to `w`; fails when a length overflows its prefix.
    pub fn write(&self, w: &mut Vec<u8>) -> (r: Result<(), WriteError>)
        requires
            self.spec_bytes().len() <= usize::MAX,
        ensures
            r is Ok <==> self.writable(),
            r is Ok ==> final(w)@ == old(w)@ + self.spec_bytes(),
    {
        proof {
            lemma_int_bytes_len();
            lemma_guid_value_round_trip(self.error_correction_type.0);
        }
        write_guid(w, self.error_correction_type);
        let error_correction_data_len: usize = self.error_correction_data.len();
        if error_correction_data_len > 0xffff_ffff {
            return Err(WriteError::FieldTooLarge);
        }
        write_u32(w, error_correction_data_len as u32);
        proof {
            lemma_concat_associative(old(w)@, guid_to_wire(self.error_correction_type.0), spec_u32_to_le_bytes((self.error_correction_data.bytes().len()) as u32));
        }
        write_bytes(w, self.error_correction_data.fragment());
        proof {
            lemma_concat_associative(old(w)@, guid_to_wire(self.error_correction_type.0) + spec_u32_to_le_bytes((self.error_correction_data.bytes().len()) as u32), self.error_correction_data.bytes());
        }
        Ok(())
    }
}

impl<'a> Wire for ErrorCorrectionData<'a> {
    open spec fn spec_bytes(&self) -> Seq<u8> {
        guid_to_wire(self.error_correction_type.0)
            + spec_u32_to_le_bytes((self.error_correction_data.bytes().len()) as u32)
            + self.error_correction_data.bytes()
    }

    open spec fn writable(&self) -> bool {
        self.error_correction_data.bytes().len() <= 0xffff_ffff
    }

    fn size_of(&self) -> (r: usize) {
        Self::size_of(self)
    }

    fn write(&self, w: &mut Vec<u8>) -> (r: Result<(), WriteError>) {
        Self::write(self, w)
    }
}

impl<'a> ErrorCorrectionData<'a> {
    /// Decodes one value; the bytes consumed are exactly what `write` emits for it.
    pub fn parse(input: Span<'a>) -> (r: Result<(Span<'a>, ErrorCorrectionData<'a>), Error>)
        ensures
            r matches Ok((rest, v)) ==> parsed(input, v, rest),
            r matches Err(e) ==> e.kind == ErrorKind::Eof,
            forall|w: Self, t: Seq<u8>| #[trigger] encodes(input.bytes(), w, t)
                ==> (r matches Ok((rest, v)) && v.spec_bytes() == w.spec_bytes()),
    {
        proof {
            lemma_int_bytes_len();
            lemma_int_bytes_injective();
        }
        proof {
            assert forall|w: ErrorCorrectionData<'a>, t: Seq<u8>| #[trigger] encodes(input.bytes(), w, t) implies input.bytes() == guid_to_wire(w.error_correction_type.0) + (spec_u32_to_le_bytes((w.error_correction_data.bytes().len()) as u32) + (w.error_correction_data.bytes() + t)) by {
                lemma_guid_value_round_trip(w.error_correction_type.0);
                lemma_concat_associative(guid_to_wire(w.error_correction_type.0) + spec_u32_to_le_bytes((w.error_correction_data.bytes().len()) as u32), w.error_correction_data.bytes(), t);
                lemma_concat_associative(guid_to_wire(w.error_correction_type.0), spec_u32_to_le_bytes((w.error_correction_data.bytes().len()) as u32), (w.error_correction_data.bytes() + t));
            }
        }
        let (i1, error_correction_type) = match guid(input) {
            Ok(x) => x,
            Err(e) => {
                proof {
                    assert forall|w: ErrorCorrectionData<'a>, t: Seq<u8>| #[trigger] encodes(input.bytes(), w, t) implies false by {
                        lemma_guid_value_round_trip(w.error_correction_type.0);
                    }
                }
                return Err(e);
            },
        };
        let ghost consumed1 = guid_to_wire(error_correction_type.0);
        proof {
            lemma_guid_value_round_trip(error_correction_type.0);
            assert forall|w: ErrorCorrectionData<'a>, t: Seq<u8>| #[trigger] encodes(input.bytes(), w, t) implies guid_to_wire(error_correction_type.0) == guid_to_wire(w.error_correction_type.0) && i1.bytes() == spec_u32_to_le_bytes((w.error_correction_data.bytes().len()) as u32) + (w.error_correction_data.bytes() + t) by {
                lemma_guid_value_round_trip(w.error_correction_type.0);
                lemma_cancel(input.bytes(), guid_to_wire(error_correction_type.0), i1.bytes(), guid_to_wire(w.error_correction_type.0), (spec_u32_to_le_bytes((w.error_correction_data.bytes().len()) as u32) + (w.error_correction_data.bytes() + t)));
            }
        }
        let (i2, error_correction_data_len) = match read_u32(i1) {
            Ok(x) => x,
            Err(e) => {
                proof {
                    assert forall|w: ErrorCorrectionData<'a>, t: Seq<u8>| #[trigger] encodes(input.bytes(), w, t) implies false by {
                    }
                }
                return Err(e);
            },
        };
        let ghost consumed2 = consumed1 + spec_u32_to_le_bytes(error_correction_data_len);
        proof {
            lemma_splits_chain(input, consumed1, i1, spec_u32_to_le_bytes(error_correction_data_len), i2);
            assert forall|w: ErrorCorrectionData<'a>, t: Seq<u8>| #[trigger] encodes(input.bytes(), w, t) implies spec_u32_to_le_bytes(error_correction_data_len) == spec_u32_to_le_bytes((w.error_correction_data.bytes().len()) as u32) && i2.bytes() == w.error_correction_data.bytes() + t by {
                lemma_cancel(i1.bytes(), spec_u32_to_le_bytes(error_correction_data_len), i2.bytes(), spec_u32_to_le_bytes((w.error_correction_data.bytes().len()) as u32), (w.error_correction_data.bytes() + t));
            }
        }
        let (i3, error_correction_data) = match take(i2, error_correction_data_len as usize) {
            Ok(x) => x,
            Err(e) => {
                proof {
                    assert forall|w: ErrorCorrectionData<'a>, t: Seq<u8>| #[trigger] encodes(input.bytes(), w, t) implies false by {
                    }
                }
                return Err(e);
            },
        };
        let ghost consumed3 = consumed2 + error_correction_data.bytes();
        proof {
            lemma_splits_chain(input, consumed2, i2, error_correction_data.bytes(), i3);
            assert forall|w: ErrorCorrectionData<'a>, t: Seq<u8>| #[trigger] encodes(input.bytes(), w, t) implies error_correction_data.bytes() == w.error_correction_data.bytes() && i3.bytes() == t by {
                lemma_cancel(i2.bytes(), error_correction_data.bytes(), i3.bytes(), w.error_correction_data.bytes(), t);
            }
        }
        let v = ErrorCorrectionData { error_correction_type, error_correction_data };
        proof {
            assert forall|w: ErrorCorrectionData<'a>, t: Seq<u8>| #[trigger] encodes(input.bytes(), w, t) implies v.spec_bytes() == w.spec_bytes() by {
            }
        }
        Ok((i3, v))
    }
}

impl<'a> Parse<'a> for ErrorCorrectionData<'a> {
    fn parse(input: Span<'a>) -> (r: Result<(Span<'a>, ErrorCorrectionData<'a>), Error>) {
        Self::parse(input)
    }
}

} // verus!
