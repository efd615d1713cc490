use vstd::prelude::*;
use vstd::bytes::*;
use vstd::seq_lib::lemma_concat_associative;

use crate::error::{Error, ErrorKind, WriteError};
use crate::span::{lemma_splits_chain, Span};
use crate::wire::{parsed, encodes, lemma_cancel, lemma_int_bytes_injective, lemma_int_bytes_len, read_u32, take, write_bytes, write_u32, Parse, Wire};

verus! {

/// The content encryption object: four length-prefixed blobs.
#[derive(Debug, PartialEq, Eq)]
pub struct ContentEncryptionData<'a> {
    pub secret_data: Span<'a>,
    pub protection_type: Span<'a>,
    pub key_id: Span<'a>,
    pub license_url: Span<'a>,
}

impl<'a> ContentEncryptionData<'a> {
    /// The number of bytes `write` emits, computed without writing.
    pub fn size_of(&self) -> (r: usize)
        requires
            self.spec_bytes().len() <= usize::MAX,
        ensures
            r == self.spec_bytes().len(),
    {
        proof {
            lemma_int_bytes_len();
        }
        let mut n: usize = 0;
        n = n + 4;
        n = n + self.secret_data.len();
        n = n + 4;
        n = n + self.protection_type.len();
        n = n + 4;
        n = n + self.key_id.len();
        n = n + 4;
        n = n + self.license_url.len();
        n
    }

    /// Appends the wire form to `w`; fails when a length overflows its prefix.
    pub fn write(&self, w: &mut Vec<u8>) -> (r: Result<(), WriteError>)
        requires
            self.spec_bytes().len() <= usize::MAX,
        ensures
            r is Ok <==> self.writable(),
            r is Ok ==> final(w)@ == old(w)@ + self.spec_bytes(),
    {
        proof {
            lemma_int_bytes_len();
        }
        let secret_data_len: usize = self.secret_data.len();
        if secret_data_len > 0xffff_ffff {
            return Err(WriteError::FieldTooLarge);
        }
        write_u32(w, secret_data_len as u32);
        write_bytes(w, self.secret_data.fragment());
        proof {
            lemma_concat_associative(old(w)@, spec_u32_to_le_bytes((self.secret_data.bytes().len()) as u32), self.secret_data.bytes());
        }
        let protection_type_len: usize = self.protection_type.len();
        if protection_type_len > 0xffff_ffff {
            return Err(WriteError::FieldTooLarge);
        }
        write_u32(w, protection_type_len as u32);
        proof {
            lemma_concat_associative(old(w)@, spec_u32_to_le_bytes((self.secret_data.bytes().len()) as u32) + self.secret_data.bytes(), spec_u32_to_le_bytes((self.protection_type.bytes().len()) as u32));
        }
        write_bytes(w, self.protection_type.fragment());
        proof {
            lemma_concat_associative(old(w)@, spec_u32_to_le_bytes((self.secret_data.bytes().len()) as u32) + self.secret_data.bytes() + spec_u32_to_le_bytes((self.protection_type.bytes().len()) as u32), self.protection_type.bytes());
        }
        let key_id_len: usize = self.key_id.len();
        if key_id_len > 0xffff_ffff {
            return Err(WriteError::FieldTooLarge);
        }
        write_u32(w, key_id_len as u32);
        proof {
            lemma_concat_associative(old(w)@, spec_u32_to_le_bytes((self.secret_data.bytes().len()) as u32) + self.secret_data.bytes() + spec_u32_to_le_bytes((self.protection_type.bytes().len()) as u32) + self.protection_type.bytes(), spec_u32_to_le_bytes((self.key_id.bytes().len()) as u32));
        }
        write_bytes(w, self.key_id.fragment());
        proof {
            lemma_concat_associative(old(w)@, spec_u32_to_le_bytes((self.secret_data.bytes().len()) as u32) + self.secret_data.bytes() + spec_u32_to_le_bytes((self.protection_type.bytes().len()) as u32) + self.protection_type.bytes() + spec_u32_to_le_bytes((self.key_id.bytes().len()) as u32), self.key_id.bytes());
        }
        let license_url_len: usize = self.license_url.len();
        if license_url_len > 0xffff_ffff {
            return Err(WriteError::FieldTooLarge);
        }
        write_u32(w, license_url_len as u32);
        proof {
            lemma_concat_associative(old(w)@, spec_u32_to_le_bytes((self.secret_data.bytes().len()) as u32) + self.secret_data.bytes() + spec_u32_to_le_bytes((self.protection_type.bytes().len()) as u32) + self.protection_type.bytes() + spec_u32_to_le_bytes((self.key_id.bytes().len()) as u32) + self.key_id.bytes(), spec_u32_to_le_bytes((self.license_url.bytes().len()) as u32));
        }
        write_bytes(w, self.license_url.fragment());
        proof {
            lemma_concat_associative(old(w)@, spec_u32_to_le_bytes((self.secret_data.bytes().len()) as u32) + self.secret_data.bytes() + spec_u32_to_le_bytes((self.protection_type.bytes().len()) as u32) + self.protection_type.bytes() + spec_u32_to_le_bytes((self.key_id.bytes().len()) as u32) + self.key_id.bytes() + spec_u32_to_le_bytes((self.license_url.bytes().len()) as u32), self.license_url.bytes());
        }
        Ok(())
    }
}

impl<'a> Wire for ContentEncryptionData<'a> {
    open spec fn spec_bytes(&self) -> Seq<u8> {
        spec_u32_to_le_bytes((self.secret_data.bytes().len()) as u32)
            + self.secret_data.bytes()
            + spec_u32_to_le_bytes((self.protection_type.bytes().len()) as u32)
            + self.protection_type.bytes()
            + spec_u32_to_le_bytes((self.key_id.bytes().len()) as u32)
            + self.key_id.bytes()
            + spec_u32_to_le_bytes((self.license_url.bytes().len()) as u32)
            + self.license_url.bytes()
    }

    open spec fn writable(&self) -> bool {
        self.secret_data.bytes().len() <= 0xffff_ffff
        && self.protection_type.bytes().len() <= 0xffff_ffff
        && self.key_id.bytes().len() <= 0xffff_ffff
        && self.license_url.bytes().len() <= 0xffff_ffff
    }

    fn size_of(&self) -> (r: usize) {
        Self::size_of(self)
    }

    fn write(&self, w: &mut Vec<u8>) -> (r: Result<(), WriteError>) {
        Self::write(self, w)
    }
}

impl<'a> ContentEncryptionData<'a> {
    /// Decodes one value; the bytes consumed are exactly what `write` emits for it.
    pub fn parse(input: Span<'a>) -> (r: Result<(Span<'a>, ContentEncryptionData<'a>), Error>)
        ensures
            r matches Ok((rest, v)) ==> parsed(input, v, rest),
            r matches Err(e) ==> e.kind == ErrorKind::Eof,
            forall|w: Self, t: Seq<u8>| #[trigger] encodes(input.bytes(), w, t)
                ==> (r matches Ok((rest, v)) && v.spec_bytes() == w.spec_bytes()),
    {
        proof {
            lemma_int_bytes_len();
            lemma_int_bytes_injective();
        }
        proof {
            assert forall|w: ContentEncryptionData<'a>, t: Seq<u8>| #[trigger] encodes(input.bytes(), w, t) implies input.bytes() == spec_u32_to_le_bytes((w.secret_data.bytes().len()) as u32) + (w.secret_data.bytes() + (spec_u32_to_le_bytes((w.protection_type.bytes().len()) as u32) + (w.protection_type.bytes() + (spec_u32_to_le_bytes((w.key_id.bytes().len()) as u32) + (w.key_id.bytes() + (spec_u32_to_le_bytes((w.license_url.bytes().len()) as u32) + (w.license_url.bytes() + t))))))) by {
                lemma_concat_associative(spec_u32_to_le_bytes((w.secret_data.bytes().len()) as u32) + w.secret_data.bytes() + spec_u32_to_le_bytes((w.protection_type.bytes().len()) as u32) + w.protection_type.bytes() + spec_u32_to_le_bytes((w.key_id.bytes().len()) as u32) + w.key_id.bytes() + spec_u32_to_le_bytes((w.license_url.bytes().len()) as u32), w.license_url.bytes(), t);
                lemma_concat_associative(spec_u32_to_le_bytes((w.secret_data.bytes().len()) as u32) + w.secret_data.bytes() + spec_u32_to_le_bytes((w.protection_type.bytes().len()) as u32) + w.protection_type.bytes() + spec_u32_to_le_bytes((w.key_id.bytes().len()) as u32) + w.key_id.bytes(), spec_u32_to_le_bytes((w.license_url.bytes().len()) as u32), (w.license_url.bytes() + t));
                lemma_concat_associative(spec_u32_to_le_bytes((w.secret_data.bytes().len()) as u32) + w.secret_data.bytes() + spec_u32_to_le_bytes((w.protection_type.bytes().len()) as u32) + w.protection_type.bytes() + spec_u32_to_le_bytes((w.key_id.bytes().len()) as u32), w.key_id.bytes(), (spec_u32_to_le_bytes((w.license_url.bytes().len()) as u32) + (w.license_url.bytes() + t)));
                lemma_concat_associative(spec_u32_to_le_bytes((w.secret_data.bytes().len()) as u32) + w.secret_data.bytes() + spec_u32_to_le_bytes((w.protection_type.bytes().len()) as u32) + w.protection_type.bytes(), spec_u32_to_le_bytes((w.key_id.bytes().len()) as u32), (w.key_id.bytes() + (spec_u32_to_le_bytes((w.license_url.bytes().len()) as u32) + (w.license_url.bytes() + t))));
                lemma_concat_associative(spec_u32_to_le_bytes((w.secret_data.bytes().len()) as u32) + w.secret_data.bytes() + spec_u32_to_le_bytes((w.protection_type.bytes().len()) as u32), w.protection_type.bytes(), (spec_u32_to_le_bytes((w.key_id.bytes().len()) as u32) + (w.key_id.bytes() + (spec_u32_to_le_bytes((w.license_url.bytes().len()) as u32) + (w.license_url.bytes() + t)))));
                lemma_concat_associative(spec_u32_to_le_bytes((w.secret_data.bytes().len()) as u32) + w.secret_data.bytes(), spec_u32_to_le_bytes((w.protection_type.bytes().len()) as u32), (w.protection_type.bytes() + (spec_u32_to_le_bytes((w.key_id.bytes().len()) as u32) + (w.key_id.bytes() + (spec_u32_to_le_bytes((w.license_url.bytes().len()) as u32) + (w.license_url.bytes() + t))))));
                lemma_concat_associative(spec_u32_to_le_bytes((w.secret_data.bytes().len()) as u32), w.secret_data.bytes(), (spec_u32_to_le_bytes((w.protection_type.bytes().len()) as u32) + (w.protection_type.bytes() + (spec_u32_to_le_bytes((w.key_id.bytes().len()) as u32) + (w.key_id.bytes() + (spec_u32_to_le_bytes((w.license_url.bytes().len()) as u32) + (w.license_url.bytes() + t)))))));
            }
        }
        let (i1, secret_data_len) = match read_u32(input) {
            Ok(x) => x,
            Err(e) => {
                proof {
                    assert forall|w: ContentEncryptionData<'a>, t: Seq<u8>| #[trigger] encodes(input.bytes(), w, t) implies false by {
                    }
                }
                return Err(e);
            },
        };
        let ghost consumed1 = spec_u32_to_le_bytes(secret_data_len);
        proof {
            assert forall|w: ContentEncryptionData<'a>, t: Seq<u8>| #[trigger] encodes(input.bytes(), w, t) implies spec_u32_to_le_bytes(secret_data_len) == spec_u32_to_le_bytes((w.secret_data.bytes().len()) as u32) && i1.bytes() == w.secret_data.bytes() + (spec_u32_to_le_bytes((w.protection_type.bytes().len()) as u32) + (w.protection_type.bytes() + (spec_u32_to_le_bytes((w.key_id.bytes().len()) as u32) + (w.key_id.bytes() + (spec_u32_to_le_bytes((w.license_url.bytes().len()) as u32) + (w.license_url.bytes() + t)))))) by {
                lemma_cancel(input.bytes(), spec_u32_to_le_bytes(secret_data_len), i1.bytes(), spec_u32_to_le_bytes((w.secret_data.bytes().len()) as u32), (w.secret_data.bytes() + (spec_u32_to_le_bytes((w.protection_type.bytes().len()) as u32) + (w.protection_type.bytes() + (spec_u32_to_le_bytes((w.key_id.bytes().len()) as u32) + (w.key_id.bytes() + (spec_u32_to_le_bytes((w.license_url.bytes().len()) as u32) + (w.license_url.bytes() + t))))))));
            }
        }
        let (i2, secret_data) = match take(i1, secret_data_len as usize) {
            Ok(x) => x,
            Err(e) => {
                proof {
                    assert forall|w: ContentEncryptionData<'a>, t: Seq<u8>| #[trigger] encodes(input.bytes(), w, t) implies false by {
                    }
                }
                return Err(e);
            },
        };
        let ghost consumed2 = consumed1 + secret_data.bytes();
        proof {
            lemma_splits_chain(input, consumed1, i1, secret_data.bytes(), i2);
            assert forall|w: ContentEncryptionData<'a>, t: Seq<u8>| #[trigger] encodes(input.bytes(), w, t) implies secret_data.bytes() == w.secret_data.bytes() && i2.bytes() == spec_u32_to_le_bytes((w.protection_type.bytes().len()) as u32) + (w.protection_type.bytes() + (spec_u32_to_le_bytes((w.key_id.bytes().len()) as u32) + (w.key_id.bytes() + (spec_u32_to_le_bytes((w.license_url.bytes().len()) as u32) + (w.license_url.bytes() + t))))) by {
                lemma_cancel(i1.bytes(), secret_data.bytes(), i2.bytes(), w.secret_data.bytes(), (spec_u32_to_le_bytes((w.protection_type.bytes().len()) as u32) + (w.protection_type.bytes() + (spec_u32_to_le_bytes((w.key_id.bytes().len()) as u32) + (w.key_id.bytes() + (spec_u32_to_le_bytes((w.license_url.bytes().len()) as u32) + (w.license_url.bytes() + t)))))));
            }
        }
        let (i3, protection_type_len) = match read_u32(i2) {
            Ok(x) => x,
            Err(e) => {
                proof {
                    assert forall|w: ContentEncryptionData<'a>, t: Seq<u8>| #[trigger] encodes(input.bytes(), w, t) implies false by {
                    }
                }
                return Err(e);
            },
        };
        let ghost consumed3 = consumed2 + spec_u32_to_le_bytes(protection_type_len);
        proof {
            lemma_splits_chain(input, consumed2, i2, spec_u32_to_le_bytes(protection_type_len), i3);
            assert forall|w: ContentEncryptionData<'a>, t: Seq<u8>| #[trigger] encodes(input.bytes(), w, t) implies spec_u32_to_le_bytes(protection_type_len) == spec_u32_to_le_bytes((w.protection_type.bytes().len()) as u32) && i3.bytes() == w.protection_type.bytes() + (spec_u32_to_le_bytes((w.key_id.bytes().len()) as u32) + (w.key_id.bytes() + (spec_u32_to_le_bytes((w.license_url.bytes().len()) as u32) + (w.license_url.bytes() + t)))) by {
                lemma_cancel(i2.bytes(), spec_u32_to_le_bytes(protection_type_len), i3.bytes(), spec_u32_to_le_bytes((w.protection_type.bytes().len()) as u32), (w.protection_type.bytes() + (spec_u32_to_le_bytes((w.key_id.bytes().len()) as u32) + (w.key_id.bytes() + (spec_u32_to_le_bytes((w.license_url.bytes().len()) as u32) + (w.license_url.bytes() + t))))));
            }
        }
        let (i4, protection_type) = match take(i3, protection_type_len as usize) {
            Ok(x) => x,
            Err(e) => {
                proof {
                    assert forall|w: ContentEncryptionData<'a>, t: Seq<u8>| #[trigger] encodes(input.bytes(), w, t) implies false by {
                    }
                }
                return Err(e);
            },
        };
        let ghost consumed4 = consumed3 + protection_type.bytes();
        proof {
            lemma_splits_chain(input, consumed3, i3, protection_type.bytes(), i4);
            assert forall|w: ContentEncryptionData<'a>, t: Seq<u8>| #[trigger] encodes(input.bytes(), w, t) implies protection_type.bytes() == w.protection_type.bytes() && i4.bytes() == spec_u32_to_le_bytes((w.key_id.bytes().len()) as u32) + (w.key_id.bytes() + (spec_u32_to_le_bytes((w.license_url.bytes().len()) as u32) + (w.license_url.bytes() + t))) by {
                lemma_cancel(i3.bytes(), protection_type.bytes(), i4.bytes(), w.protection_type.bytes(), (spec_u32_to_le_bytes((w.key_id.bytes().len()) as u32) + (w.key_id.bytes() + (spec_u32_to_le_bytes((w.license_url.bytes().len()) as u32) + (w.license_url.bytes() + t)))));
            }
        }
        let (i5, key_id_len) = match read_u32(i4) {
            Ok(x) => x,
            Err(e) => {
                proof {
                    assert forall|w: ContentEncryptionData<'a>, t: Seq<u8>| #[trigger] encodes(input.bytes(), w, t) implies false by {
                    }
                }
                return Err(e);
            },
        };
        let ghost consumed5 = consumed4 + spec_u32_to_le_bytes(key_id_len);
        proof {
            lemma_splits_chain(input, consumed4, i4, spec_u32_to_le_bytes(key_id_len), i5);
            assert forall|w: ContentEncryptionData<'a>, t: Seq<u8>| #[trigger] encodes(input.bytes(), w, t) implies spec_u32_to_le_bytes(key_id_len) == spec_u32_to_le_bytes((w.key_id.bytes().len()) as u32) && i5.bytes() == w.key_id.bytes() + (spec_u32_to_le_bytes((w.license_url.bytes().len()) as u32) + (w.license_url.bytes() + t)) by {
                lemma_cancel(i4.bytes(), spec_u32_to_le_bytes(key_id_len), i5.bytes(), spec_u32_to_le_bytes((w.key_id.bytes().len()) as u32), (w.key_id.bytes() + (spec_u32_to_le_bytes((w.license_url.bytes().len()) as u32) + (w.license_url.bytes() + t))));
            }
        }
        let (i6, key_id) = match take(i5, key_id_len as usize) {
            Ok(x) => x,
            Err(e) => {
                proof {
                    assert forall|w: ContentEncryptionData<'a>, t: Seq<u8>| #[trigger] encodes(input.bytes(), w, t) implies false by {
                    }
                }
                return Err(e);
            },
        };
        let ghost consumed6 = consumed5 + key_id.bytes();
        proof {
            lemma_splits_chain(input, consumed5, i5, key_id.bytes(), i6);
            assert forall|w: ContentEncryptionData<'a>, t: Seq<u8>| #[trigger] encodes(input.bytes(), w, t) implies key_id.bytes() == w.key_id.bytes() && i6.bytes() == spec_u32_to_le_bytes((w.license_url.bytes().len()) as u32) + (w.license_url.bytes() + t) by {
                lemma_cancel(i5.bytes(), key_id.bytes(), i6.bytes(), w.key_id.bytes(), (spec_u32_to_le_bytes((w.license_url.bytes().len()) as u32) + (w.license_url.bytes() + t)));
            }
        }
        let (i7, license_url_len) = match read_u32(i6) {
            Ok(x) => x,
            Err(e) => {
                proof {
                    assert forall|w: ContentEncryptionData<'a>, t: Seq<u8>| #[trigger] encodes(input.bytes(), w, t) implies false by {
                    }
                }
                return Err(e);
            },
        };
        let ghost consumed7 = consumed6 + spec_u32_to_le_bytes(license_url_len);
        proof {
            lemma_splits_chain(input, consumed6, i6, spec_u32_to_le_bytes(license_url_len), i7);
            assert forall|w: ContentEncryptionData<'a>, t: Seq<u8>| #[trigger] encodes(input.bytes(), w, t) implies spec_u32_to_le_bytes(license_url_len) == spec_u32_to_le_bytes((w.license_url.bytes().len()) as u32) && i7.bytes() == w.license_url.bytes() + t by {
                lemma_cancel(i6.bytes(), spec_u32_to_le_bytes(license_url_len), i7.bytes(), spec_u32_to_le_bytes((w.license_url.bytes().len()) as u32), (w.license_url.bytes() + t));
            }
        }
        let (i8, license_url) = match take(i7, license_url_len as usize) {
            Ok(x) => x,
            Err(e) => {
                proof {
                    assert forall|w: ContentEncryptionData<'a>, t: Seq<u8>| #[trigger] encodes(input.bytes(), w, t) implies false by {
                    }
                }
                return Err(e);
            },
        };
        let ghost consumed8 = consumed7 + license_url.bytes();
        proof {
            lemma_splits_chain(input, consumed7, i7, license_url.bytes(), i8);
            assert forall|w: ContentEncryptionData<'a>, t: Seq<u8>| #[trigger] encodes(input.bytes(), w, t) implies license_url.bytes() == w.license_url.bytes() && i8.bytes() == t by {
                lemma_cancel(i7.bytes(), license_url.bytes(), i8.bytes(), w.license_url.bytes(), t);
            }
        }
        let v = ContentEncryptionData { secret_data, protection_type, key_id, license_url };
        proof {
            assert forall|w: ContentEncryptionData<'a>, t: Seq<u8>| #[trigger] encodes(input.bytes(), w, t) implies v.spec_bytes() == w.spec_bytes() by {
            }
        }
        Ok((i8, v))
    }
}

impl<'a> Parse<'a> for ContentEncryptionData<'a> {
    fn parse(input: Span<'a>) -> (r: Result<(Span<'a>, ContentEncryptionData<'a>), Error>) {
        Self::parse(input)
    }
}

} // verus!
