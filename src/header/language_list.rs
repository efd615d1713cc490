use vstd::prelude::*;
use vstd::bytes::*;
use vstd::seq_lib::lemma_concat_associative;

use crate::error::{Error, ErrorKind, WriteError};
use crate::span::{lemma_splits_chain, Span};
use crate::wire::{parsed, encodes, lemma_cancel, lemma_int_bytes_injective, lemma_int_bytes_len, read_u16, write_u16, Parse, Wire};
use crate::widestr::{encodes_wide8_list, WideStr, parse_wide8_list, size_of_wide8_list, wide8_list_bytes, wide8_list_writable, write_wide8_list};

verus! {

/// The language list object: language ids, each with an 8-bit byte length.
#[derive(Debug, PartialEq, Eq)]
pub struct LanguageListData {
    pub language_id_records: Vec<WideStr>,
}

impl LanguageListData {
    /// The number of bytes `write` emits, computed without writing.
    pub fn size_of(&self) -> (r: usize)
        requires
            self.spec_bytes().len() <= usize::MAX,
        ensures
            r == self.spec_bytes().len(),
    {
        proof {
            lemma_int_bytes_len();
        }
        let mut n: usize = 0;
        n = n + 2;
        n = n + size_of_wide8_list(&self.language_id_records);
        n
    }

    /// Appends the wire form to `w`; fails when a length overflows its prefix.
    pub fn write(&self, w: &mut Vec<u8>) -> (r: Result<(), WriteError>)
        requires
            self.spec_bytes().len() <= usize::MAX,
        ensures
            r is Ok <==> self.writable(),
            r is Ok ==> final(w)@ == old(w)@ + self.spec_bytes(),
    {
        proof {
            lemma_int_bytes_len();
        }
        let language_id_records_len: usize = self.language_id_records.len();
        if language_id_records_len > 0xffff {
            return Err(WriteError::FieldTooLarge);
        }
        write_u16(w, language_id_records_len as u16);
        write_wide8_list(&self.language_id_records, w)?;
        proof {
            lemma_concat_associative(old(w)@, spec_u16_to_le_bytes((self.language_id_records@.len()) as u16), wide8_list_bytes(self.language_id_records@));
        }
        Ok(())
    }
}

impl Wire for LanguageListData {
    open spec fn spec_bytes(&self) -> Seq<u8> {
        spec_u16_to_le_bytes((self.language_id_records@.len()) as u16)
            + wide8_list_bytes(self.language_id_records@)
    }

    open spec fn writable(&self) -> bool {
        self.language_id_records@.len() <= 0xffff
        && wide8_list_writable(self.language_id_records@)
    }

    fn size_of(&self) -> (r: usize) {
        Self::size_of(self)
    }

    fn write(&self, w: &mut Vec<u8>) -> (r: Result<(), WriteError>) {
        Self::write(self, w)
    }
}

impl LanguageListData {
    /// Decodes one value; the bytes consumed are exactly what `write` emits for it.
    pub fn parse<'a>(input: Span<'a>) -> (r: Result<(Span<'a>, LanguageListData), Error>)
        ensures
            r matches Ok((rest, v)) ==> parsed(input, v, rest),
            r matches Err(e) ==> e.kind == ErrorKind::Eof,
            forall|w: Self, t: Seq<u8>| #[trigger] encodes(input.bytes(), w, t)
                ==> (r matches Ok((rest, v)) && v.spec_bytes() == w.spec_bytes()),
    {
        proof {
            lemma_int_bytes_len();
            lemma_int_bytes_injective();
        }
        proof {
            assert forall|w: LanguageListData, t: Seq<u8>| #[trigger] encodes(input.bytes(), w, t) implies input.bytes() == spec_u16_to_le_bytes((w.language_id_records@.len()) as u16) + (wide8_list_bytes(w.language_id_records@) + t) by {
                lemma_concat_associative(spec_u16_to_le_bytes((w.language_id_records@.len()) as u16), wide8_list_bytes(w.language_id_records@), t);
            }
        }
        let (i1, language_id_records_len) = match read_u16(input) {
            Ok(x) => x,
            Err(e) => {
                proof {
                    assert forall|w: LanguageListData, t: Seq<u8>| #[trigger] encodes(input.bytes(), w, t) implies false by {
                    }
                }
                return Err(e);
            },
        };
        let ghost consumed1 = spec_u16_to_le_bytes(language_id_records_len);
        proof {
            assert forall|w: LanguageListData, t: Seq<u8>| #[trigger] encodes(input.bytes(), w, t) implies spec_u16_to_le_bytes(language_id_records_len) == spec_u16_to_le_bytes((w.language_id_records@.len()) as u16) && i1.bytes() == wide8_list_bytes(w.language_id_records@) + t by {
                lemma_cancel(input.bytes(), spec_u16_to_le_bytes(language_id_records_len), i1.bytes(), spec_u16_to_le_bytes((w.language_id_records@.len()) as u16), (wide8_list_bytes(w.language_id_records@) + t));
            }
        }
        let (i2, language_id_records) = match parse_wide8_list(i1, language_id_records_len as usize) {
            Ok(x) => x,
            Err(e) => {
                proof {
                    assert forall|w: LanguageListData, t: Seq<u8>| #[trigger] encodes(input.bytes(), w, t) implies false by {
                        assert(encodes_wide8_list(i1.bytes(), w.language_id_records@, t));
                    }
                }
                return Err(e);
            },
        };
        let ghost consumed2 = consumed1 + wide8_list_bytes(language_id_records@);
        proof {
            lemma_splits_chain(input, consumed1, i1, wide8_list_bytes(language_id_records@), i2);
            assert forall|w: LanguageListData, t: Seq<u8>| #[trigger] encodes(input.bytes(), w, t) implies wide8_list_bytes(language_id_records@) == wide8_list_bytes(w.language_id_records@) && i2.bytes() == t by {
                assert(encodes_wide8_list(i1.bytes(), w.language_id_records@, t));
                lemma_cancel(i1.bytes(), wide8_list_bytes(language_id_records@), i2.bytes(), wide8_list_bytes(w.language_id_records@), t);
            }
        }
        let v = LanguageListData { language_id_records };
        proof {
            assert forall|w: LanguageListData, t: Seq<u8>| #[trigger] encodes(input.bytes(), w, t) implies v.spec_bytes() == w.spec_bytes() by {
            }
        }
        Ok((i2, v))
    }
}

impl<'a> Parse<'a> for LanguageListData {
    fn parse(input: Span<'a>) -> (r: Result<(Span<'a>, LanguageListData), Error>) {
        Self::parse(input)
    }
}

} // verus!
