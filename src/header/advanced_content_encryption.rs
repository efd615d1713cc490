use vstd::prelude::*;
use vstd::bytes::*;
use vstd::seq_lib::lemma_concat_associative;

use crate::error::{Error, ErrorKind, WriteError};
use crate::span::{lemma_splits_chain, Span};
use crate::guid::{guid, guid_to_wire, lemma_guid_value_round_trip, write_guid, Guid};
use crate::wire::{parsed, all_writable, encodes_seq, encodes, lemma_cancel, lemma_int_bytes_injective, lemma_int_bytes_len, parse_count, read_u16, read_u32, seq_bytes, size_of_seq, take, write_bytes, write_seq, write_u16, write_u32, Parse, Wire};

verus! {

/// One encrypted object record: a type and its data.
#[derive(Debug, PartialEq, Eq)]
pub struct EncryptedObjectRecord<'a> {
    pub object_type: u16,
    pub data: Span<'a>,
}

impl<'a> EncryptedObjectRecord<'a> {
    /// The number of bytes `write` emits, computed without writing.
    pub fn size_of(&self) -> (r: usize)
        requires
            self.spec_bytes().len() <= usize::MAX,
        ensures
            r == self.spec_bytes().len(),
    {
        proof {
            lemma_int_bytes_len();
        }
        let mut n: usize = 0;
        n = n + 2;
        n = n + 2;
        n = n + self.data.len();
        n
    }

    /// Appends the wire form to `w`; fails when a length overflows its prefix.
    pub fn write(&self, w: &mut Vec<u8>) -> (r: Result<(), WriteError>)
        requires
            self.spec_bytes().len() <= usize::MAX,
        ensures
            r is Ok <==> self.writable(),
            r is Ok ==> final(w)@ == old(w)@ + self.spec_bytes(),
    {
        proof {
            lemma_int_bytes_len();
        }
        write_u16(w, self.object_type);
        let data_len: usize = self.data.len();
        if data_len > 0xffff {
            return Err(WriteError::FieldTooLarge);
        }
        write_u16(w, data_len as u16);
        proof {
            lemma_concat_associative(old(w)@, spec_u16_to_le_bytes(self.object_type), spec_u16_to_le_bytes((self.data.bytes().len()) as u16));
        }
        write_bytes(w, self.data.fragment());
        proof {
            lemma_concat_associative(old(w)@, spec_u16_to_le_bytes(self.object_type) + spec_u16_to_le_bytes((self.data.bytes().len()) as u16), self.data.bytes());
        }
        Ok(())
    }
}

impl<'a> Wire for EncryptedObjectRecord<'a> {
    open spec fn spec_bytes(&self) -> Seq<u8> {
        spec_u16_to_le_bytes(self.object_type)
            + spec_u16_to_le_bytes((self.data.bytes().len()) as u16)
            + self.data.bytes()
    }

    open spec fn writable(&self) -> bool {
        self.data.bytes().len() <= 0xffff
    }

    fn size_of(&self) -> (r: usize) {
        Self::size_of(self)
    }

    fn write(&self, w: &mut Vec<u8>) -> (r: Result<(), WriteError>) {
        Self::write(self, w)
    }
}

impl<'a> EncryptedObjectRecord<'a> {
    /// Decodes one value; the bytes consumed are exactly what `write` emits for it.
    pub fn parse(input: Span<'a>) -> (r: Result<(Span<'a>, EncryptedObjectRecord<'a>), Error>)
        ensures
            r matches Ok((rest, v)) ==> parsed(input, v, rest),
            r matches Err(e) ==> e.kind == ErrorKind::Eof,
            forall|w: Self, t: Seq<u8>| #[trigger] encodes(input.bytes(), w, t)
                ==> (r matches Ok((rest, v)) && v.spec_bytes() == w.spec_bytes()),
    {
        proof {
            lemma_int_bytes_len();
            lemma_int_bytes_injective();
        }
        proof {
            assert forall|w: EncryptedObjectRecord<'a>, t: Seq<u8>| #[trigger] encodes(input.bytes(), w, t) implies input.bytes() == spec_u16_to_le_bytes(w.object_type) + (spec_u16_to_le_bytes((w.data.bytes().len()) as u16) + (w.data.bytes() + t)) by {
                lemma_concat_associative(spec_u16_to_le_bytes(w.object_type) + spec_u16_to_le_bytes((w.data.bytes().len()) as u16), w.data.bytes(), t);
                lemma_concat_associative(spec_u16_to_le_bytes(w.object_type), spec_u16_to_le_bytes((w.data.bytes().len()) as u16), (w.data.bytes() + t));
            }
        }
        let (i1, object_type) = match read_u16(input) {
            Ok(x) => x,
            Err(e) => {
                proof {
                    assert forall|w: EncryptedObjectRecord<'a>, t: Seq<u8>| #[trigger] encodes(input.bytes(), w, t) implies false by {
                    }
                }
                return Err(e);
            },
        };
        let ghost consumed1 = spec_u16_to_le_bytes(object_type);
        proof {
            assert forall|w: EncryptedObjectRecord<'a>, t: Seq<u8>| #[trigger] encodes(input.bytes(), w, t) implies spec_u16_to_le_bytes(object_type) == spec_u16_to_le_bytes(w.object_type) && i1.bytes() == spec_u16_to_le_bytes((w.data.bytes().len()) as u16) + (w.data.bytes() + t) by {
                lemma_cancel(input.bytes(), spec_u16_to_le_bytes(object_type), i1.bytes(), spec_u16_to_le_bytes(w.object_type), (spec_u16_to_le_bytes((w.data.bytes().len()) as u16) + (w.data.bytes() + t)));
            }
        }
        let (i2, data_len) = match read_u16(i1) {
            Ok(x) => x,
            Err(e) => {
                proof {
                    assert forall|w: EncryptedObjectRecord<'a>, t: Seq<u8>| #[trigger] encodes(input.bytes(), w, t) implies false by {
                    }
                }
                return Err(e);
            },
        };
        let ghost consumed2 = consumed1 + spec_u16_to_le_bytes(data_len);
        proof {
            lemma_splits_chain(input, consumed1, i1, spec_u16_to_le_bytes(data_len), i2);
            assert forall|w: EncryptedObjectRecord<'a>, t: Seq<u8>| #[trigger] encodes(input.bytes(), w, t) implies spec_u16_to_le_bytes(data_len) == spec_u16_to_le_bytes((w.data.bytes().len()) as u16) && i2.bytes() == w.data.bytes() + t by {
                lemma_cancel(i1.bytes(), spec_u16_to_le_bytes(data_len), i2.bytes(), spec_u16_to_le_bytes((w.data.bytes().len()) as u16), (w.data.bytes() + t));
            }
        }
        let (i3, data) = match take(i2, data_len as usize) {
            Ok(x) => x,
            Err(e) => {
                proof {
                    assert forall|w: EncryptedObjectRecord<'a>, t: Seq<u8>| #[trigger] encodes(input.bytes(), w, t) implies false by {
                    }
                }
                return Err(e);
            },
        };
        let ghost consumed3 = consumed2 + data.bytes();
        proof {
            lemma_splits_chain(input, consumed2, i2, data.bytes(), i3);
            assert forall|w: EncryptedObjectRecord<'a>, t: Seq<u8>| #[trigger] encodes(input.bytes(), w, t) implies data.bytes() == w.data.bytes() && i3.bytes() == t by {
                lemma_cancel(i2.bytes(), data.bytes(), i3.bytes(), w.data.bytes(), t);
            }
        }
        let v = EncryptedObjectRecord { object_type, data };
        proof {
            assert forall|w: EncryptedObjectRecord<'a>, t: Seq<u8>| #[trigger] encodes(input.bytes(), w, t) implies v.spec_bytes() == w.spec_bytes() by {
            }
        }
        Ok((i3, v))
    }
}

impl<'a> Parse<'a> for EncryptedObjectRecord<'a> {
    fn parse(input: Span<'a>) -> (r: Result<(Span<'a>, EncryptedObjectRecord<'a>), Error>) {
        Self::parse(input)
    }
}

/// One content encryption record.
#[derive(Debug, PartialEq, Eq)]
pub struct ContentEncryptionRecord<'a> {
    pub system_id: Guid,
    pub system_version: u32,
    pub encrypted_object_records: Vec<EncryptedObjectRecord<'a>>,
    pub data: Span<'a>,
}

impl<'a> ContentEncryptionRecord<'a> {
    /// The number of bytes `write` emits, computed without writing.
    pub fn size_of(&self) -> (r: usize)
        requires
            self.spec_bytes().len() <= usize::MAX,
        ensures
            r == self.spec_bytes().len(),
    {
        proof {
            lemma_int_bytes_len();
            lemma_guid_value_round_trip(self.system_id.0);
        }
        let mut n: usize = 0;
        n = n + 16;
        n = n + 4;
        n = n + 2;
        n = n + size_of_seq(&self.encrypted_object_records);
        n = n + 4;
        n = n + self.data.len();
        n
    }

    /// Appends the wire form to `w`; fails when a length overflows its prefix.
    pub fn write(&self, w: &mut Vec<u8>) -> (r: Result<(), WriteError>)
        requires
            self.spec_bytes().len() <= usize::MAX,
        ensures
            r is Ok <==> self.writable(),
            r is Ok ==> final(w)@ == old(w)@ + self.spec_bytes(),
    {
        proof {
            lemma_int_bytes_len();
            lemma_guid_value_round_trip(self.system_id.0);
        }
        write_guid(w, self.system_id);
        write_u32(w, self.system_version);
        proof {
            lemma_concat_associative(old(w)@, guid_to_wire(self.system_id.0), spec_u32_to_le_bytes(self.system_version));
        }
        let encrypted_object_records_len: usize = self.encrypted_object_records.len();
        if encrypted_object_records_len > 0xffff {
            return Err(WriteError::FieldTooLarge);
        }
        write_u16(w, encrypted_object_records_len as u16);
        proof {
            lemma_concat_associative(old(w)@, guid_to_wire(self.system_id.0) + spec_u32_to_le_bytes(self.system_version), spec_u16_to_le_bytes((self.encrypted_object_records@.len()) as u16));
        }
        write_seq(&self.encrypted_object_records, w)?;
        proof {
            lemma_concat_associative(old(w)@, guid_to_wire(self.system_id.0) + spec_u32_to_le_bytes(self.system_version) + spec_u16_to_le_bytes((self.encrypted_object_records@.len()) as u16), seq_bytes(self.encrypted_object_records@));
        }
        let data_len: usize = self.data.len();
        if data_len > 0xffff_ffff {
            return Err(WriteError::FieldTooLarge);
        }
        write_u32(w, data_len as u32);
        proof {
            lemma_concat_associative(old(w)@, guid_to_wire(self.system_id.0) + spec_u32_to_le_bytes(self.system_version) + spec_u16_to_le_bytes((self.encrypted_object_records@.len()) as u16) + seq_bytes(self.encrypted_object_records@), spec_u32_to_le_bytes((self.data.bytes().len()) as u32));
        }
        write_bytes(w, self.data.fragment());
        proof {
            lemma_concat_associative(old(w)@, guid_to_wire(self.system_id.0) + spec_u32_to_le_bytes(self.system_version) + spec_u16_to_le_bytes((self.encrypted_object_records@.len()) as u16) + seq_bytes(self.encrypted_object_records@) + spec_u32_to_le_bytes((self.data.bytes().len()) as u32), self.data.bytes());
        }
        Ok(())
    }
}

impl<'a> Wire for ContentEncryptionRecord<'a> {
    open spec fn spec_bytes(&self) -> Seq<u8> {
        guid_to_wire(self.system_id.0)
            + spec_u32_to_le_bytes(self.system_version)
            + spec_u16_to_le_bytes((self.encrypted_object_records@.len()) as u16)
            + seq_bytes(self.encrypted_object_records@)
            + spec_u32_to_le_bytes((self.data.bytes().len()) as u32)
            + self.data.bytes()
    }

    open spec fn writable(&self) -> bool {
        self.encrypted_object_records@.len() <= 0xffff
        && all_writable(self.encrypted_object_records@)
        && self.data.bytes().len() <= 0xffff_ffff
    }

    fn size_of(&self) -> (r: usize) {
        Self::size_of(self)
    }

    fn write(&self, w: &mut Vec<u8>) -> (r: Result<(), WriteError>) {
        Self::write(self, w)
    }
}

impl<'a> ContentEncryptionRecord<'a> {
    /// Decodes one value; the bytes consumed are exactly what `write` emits for it.
    pub fn parse(input: Span<'a>) -> (r: Result<(Span<'a>, ContentEncryptionRecord<'a>), Error>)
        ensures
            r matches Ok((rest, v)) ==> parsed(input, v, rest),
            r matches Err(e) ==> e.kind == ErrorKind::Eof,
            forall|w: Self, t: Seq<u8>| #[trigger] encodes(input.bytes(), w, t)
                ==> (r matches Ok((rest, v)) && v.spec_bytes() == w.spec_bytes()),
    {
        proof {
            lemma_int_bytes_len();
            lemma_int_bytes_injective();
        }
        proof {
            assert forall|w: ContentEncryptionRecord<'a>, t: Seq<u8>| #[trigger] encodes(input.bytes(), w, t) implies input.bytes() == guid_to_wire(w.system_id.0) + (spec_u32_to_le_bytes(w.system_version) + (spec_u16_to_le_bytes((w.encrypted_object_records@.len()) as u16) + (seq_bytes(w.encrypted_object_records@) + (spec_u32_to_le_bytes((w.data.bytes().len()) as u32) + (w.data.bytes() + t))))) by {
                lemma_guid_value_round_trip(w.system_id.0);
                lemma_concat_associative(guid_to_wire(w.system_id.0) + spec_u32_to_le_bytes(w.system_version) + spec_u16_to_le_bytes((w.encrypted_object_records@.len()) as u16) + seq_bytes(w.encrypted_object_records@) + spec_u32_to_le_bytes((w.data.bytes().len()) as u32), w.data.bytes(), t);
                lemma_concat_associative(guid_to_wire(w.system_id.0) + spec_u32_to_le_bytes(w.system_version) + spec_u16_to_le_bytes((w.encrypted_object_records@.len()) as u16) + seq_bytes(w.encrypted_object_records@), spec_u32_to_le_bytes((w.data.bytes().len()) as u32), (w.data.bytes() + t));
                lemma_concat_associative(guid_to_wire(w.system_id.0) + spec_u32_to_le_bytes(w.system_version) + spec_u16_to_le_bytes((w.encrypted_object_records@.len()) as u16), seq_bytes(w.encrypted_object_records@), (spec_u32_to_le_bytes((w.data.bytes().len()) as u32) + (w.data.bytes() + t)));
                lemma_concat_associative(guid_to_wire(w.system_id.0) + spec_u32_to_le_bytes(w.system_version), spec_u16_to_le_bytes((w.encrypted_object_records@.len()) as u16), (seq_bytes(w.encrypted_object_records@) + (spec_u32_to_le_bytes((w.data.bytes().len()) as u32) + (w.data.bytes() + t))));
                lemma_concat_associative(guid_to_wire(w.system_id.0), spec_u32_to_le_bytes(w.system_version), (spec_u16_to_le_bytes((w.encrypted_object_records@.len()) as u16) + (seq_bytes(w.encrypted_object_records@) + (spec_u32_to_le_bytes((w.data.bytes().len()) as u32) + (w.data.bytes() + t)))));
            }
        }
        let (i1, system_id) = match guid(input) {
            Ok(x) => x,
            Err(e) => {
                proof {
                    assert forall|w: ContentEncryptionRecord<'a>, t: Seq<u8>| #[trigger] encodes(input.bytes(), w, t) implies false by {
                        lemma_guid_value_round_trip(w.system_id.0);
                    }
                }
                return Err(e);
            },
        };
        let ghost consumed1 = guid_to_wire(system_id.0);
        proof {
            lemma_guid_value_round_trip(system_id.0);
            assert forall|w: ContentEncryptionRecord<'a>, t: Seq<u8>| #[trigger] encodes(input.bytes(), w, t) implies guid_to_wire(system_id.0) == guid_to_wire(w.system_id.0) && i1.bytes() == spec_u32_to_le_bytes(w.system_version) + (spec_u16_to_le_bytes((w.encrypted_object_records@.len()) as u16) + (seq_bytes(w.encrypted_object_records@) + (spec_u32_to_le_bytes((w.data.bytes().len()) as u32) + (w.data.bytes() + t)))) by {
                lemma_guid_value_round_trip(w.system_id.0);
                lemma_cancel(input.bytes(), guid_to_wire(system_id.0), i1.bytes(), guid_to_wire(w.system_id.0), (spec_u32_to_le_bytes(w.system_version) + (spec_u16_to_le_bytes((w.encrypted_object_records@.len()) as u16) + (seq_bytes(w.encrypted_object_records@) + (spec_u32_to_le_bytes((w.data.bytes().len()) as u32) + (w.data.bytes() + t))))));
            }
        }
        let (i2, system_version) = match read_u32(i1) {
            Ok(x) => x,
            Err(e) => {
                proof {
                    assert forall|w: ContentEncryptionRecord<'a>, t: Seq<u8>| #[trigger] encodes(input.bytes(), w, t) implies false by {
                    }
                }
                return Err(e);
            },
        };
        let ghost consumed2 = consumed1 + spec_u32_to_le_bytes(system_version);
        proof {
            lemma_splits_chain(input, consumed1, i1, spec_u32_to_le_bytes(system_version), i2);
            assert forall|w: ContentEncryptionRecord<'a>, t: Seq<u8>| #[trigger] encodes(input.bytes(), w, t) implies spec_u32_to_le_bytes(system_version) == spec_u32_to_le_bytes(w.system_version) && i2.bytes() == spec_u16_to_le_bytes((w.encrypted_object_records@.len()) as u16) + (seq_bytes(w.encrypted_object_records@) + (spec_u32_to_le_bytes((w.data.bytes().len()) as u32) + (w.data.bytes() + t))) by {
                lemma_cancel(i1.bytes(), spec_u32_to_le_bytes(system_version), i2.bytes(), spec_u32_to_le_bytes(w.system_version), (spec_u16_to_le_bytes((w.encrypted_object_records@.len()) as u16) + (seq_bytes(w.encrypted_object_records@) + (spec_u32_to_le_bytes((w.data.bytes().len()) as u32) + (w.data.bytes() + t)))));
            }
        }
        let (i3, encrypted_object_records_len) = match read_u16(i2) {
            Ok(x) => x,
            Err(e) => {
                proof {
                    assert forall|w: ContentEncryptionRecord<'a>, t: Seq<u8>| #[trigger] encodes(input.bytes(), w, t) implies false by {
                    }
                }
                return Err(e);
            },
        };
        let ghost consumed3 = consumed2 + spec_u16_to_le_bytes(encrypted_object_records_len);
        proof {
            lemma_splits_chain(input, consumed2, i2, spec_u16_to_le_bytes(encrypted_object_records_len), i3);
            assert forall|w: ContentEncryptionRecord<'a>, t: Seq<u8>| #[trigger] encodes(input.bytes(), w, t) implies spec_u16_to_le_bytes(encrypted_object_records_len) == spec_u16_to_le_bytes((w.encrypted_object_records@.len()) as u16) && i3.bytes() == seq_bytes(w.encrypted_object_records@) + (spec_u32_to_le_bytes((w.data.bytes().len()) as u32) + (w.data.bytes() + t)) by {
                lemma_cancel(i2.bytes(), spec_u16_to_le_bytes(encrypted_object_records_len), i3.bytes(), spec_u16_to_le_bytes((w.encrypted_object_records@.len()) as u16), (seq_bytes(w.encrypted_object_records@) + (spec_u32_to_le_bytes((w.data.bytes().len()) as u32) + (w.data.bytes() + t))));
            }
        }
        let (i4, encrypted_object_records) = match parse_count::<EncryptedObjectRecord>(i3, encrypted_object_records_len as usize) {
            Ok(x) => x,
            Err(e) => {
                proof {
                    assert forall|w: ContentEncryptionRecord<'a>, t: Seq<u8>| #[trigger] encodes(input.bytes(), w, t) implies false by {
                        assert(encodes_seq(i3.bytes(), w.encrypted_object_records@, (spec_u32_to_le_bytes((w.data.bytes().len()) as u32) + (w.data.bytes() + t))));
                    }
                }
                return Err(e);
            },
        };
        let ghost consumed4 = consumed3 + seq_bytes(encrypted_object_records@);
        proof {
            lemma_splits_chain(input, consumed3, i3, seq_bytes(encrypted_object_records@), i4);
            assert forall|w: ContentEncryptionRecord<'a>, t: Seq<u8>| #[trigger] encodes(input.bytes(), w, t) implies seq_bytes(encrypted_object_records@) == seq_bytes(w.encrypted_object_records@) && i4.bytes() == spec_u32_to_le_bytes((w.data.bytes().len()) as u32) + (w.data.bytes() + t) by {
                assert(encodes_seq(i3.bytes(), w.encrypted_object_records@, (spec_u32_to_le_bytes((w.data.bytes().len()) as u32) + (w.data.bytes() + t))));
                lemma_cancel(i3.bytes(), seq_bytes(encrypted_object_records@), i4.bytes(), seq_bytes(w.encrypted_object_records@), (spec_u32_to_le_bytes((w.data.bytes().len()) as u32) + (w.data.bytes() + t)));
            }
        }
        let (i5, data_len) = match read_u32(i4) {
            Ok(x) => x,
            Err(e) => {
                proof {
                    assert forall|w: ContentEncryptionRecord<'a>, t: Seq<u8>| #[trigger] encodes(input.bytes(), w, t) implies false by {
                    }
                }
                return Err(e);
            },
        };
        let ghost consumed5 = consumed4 + spec_u32_to_le_bytes(data_len);
        proof {
            lemma_splits_chain(input, consumed4, i4, spec_u32_to_le_bytes(data_len), i5);
            assert forall|w: ContentEncryptionRecord<'a>, t: Seq<u8>| #[trigger] encodes(input.bytes(), w, t) implies spec_u32_to_le_bytes(data_len) == spec_u32_to_le_bytes((w.data.bytes().len()) as u32) && i5.bytes() == w.data.bytes() + t by {
                lemma_cancel(i4.bytes(), spec_u32_to_le_bytes(data_len), i5.bytes(), spec_u32_to_le_bytes((w.data.bytes().len()) as u32), (w.data.bytes() + t));
            }
        }
        let (i6, data) = match take(i5, data_len as usize) {
            Ok(x) => x,
            Err(e) => {
                proof {
                    assert forall|w: ContentEncryptionRecord<'a>, t: Seq<u8>| #[trigger] encodes(input.bytes(), w, t) implies false by {
                    }
                }
                return Err(e);
            },
        };
        let ghost consumed6 = consumed5 + data.bytes();
        proof {
            lemma_splits_chain(input, consumed5, i5, data.bytes(), i6);
            assert forall|w: ContentEncryptionRecord<'a>, t: Seq<u8>| #[trigger] encodes(input.bytes(), w, t) implies data.bytes() == w.data.bytes() && i6.bytes() == t by {
                lemma_cancel(i5.bytes(), data.bytes(), i6.bytes(), w.data.bytes(), t);
            }
        }
        let v = ContentEncryptionRecord { system_id, system_version, encrypted_object_records, data };
        proof {
            assert forall|w: ContentEncryptionRecord<'a>, t: Seq<u8>| #[trigger] encodes(input.bytes(), w, t) implies v.spec_bytes() == w.spec_bytes() by {
            }
        }
        Ok((i6, v))
    }
}

impl<'a> Parse<'a> for ContentEncryptionRecord<'a> {
    fn parse(input: Span<'a>) -> (r: Result<(Span<'a>, ContentEncryptionRecord<'a>), Error>) {
        Self::parse(input)
    }
}

/// The advanced content encryption object.
#[derive(Debug, PartialEq, Eq)]
pub struct AdvancedContentEncryptionData<'a> {
    pub content_encryption_records: Vec<ContentEncryptionRecord<'a>>,
}

impl<'a> AdvancedContentEncryptionData<'a> {
    /// The number of bytes `write` emits, computed without writing.
    pub fn size_of(&self) -> (r: usize)
        requires
            self.spec_bytes().len() <= usize::MAX,
        ensures
            r == self.spec_bytes().len(),
    {
        proof {
            lemma_int_bytes_len();
        }
        let mut n: usize = 0;
        n = n + 2;
        n = n + size_of_seq(&self.content_encryption_records);
        n
    }

    /// Appends the wire form to `w`; fails when a length overflows its prefix.
    pub fn write(&self, w: &mut Vec<u8>) -> (r: Result<(), WriteError>)
        requires
            self.spec_bytes().len() <= usize::MAX,
        ensures
            r is Ok <==> self.writable(),
            r is Ok ==> final(w)@ == old(w)@ + self.spec_bytes(),
    {
        proof {
            lemma_int_bytes_len();
        }
        let content_encryption_records_len: usize = self.content_encryption_records.len();
        if content_encryption_records_len > 0xffff {
            return Err(WriteError::FieldTooLarge);
        }
        write_u16(w, content_encryption_records_len as u16);
        write_seq(&self.content_encryption_records, w)?;
        proof {
            lemma_concat_associative(old(w)@, spec_u16_to_le_bytes((self.content_encryption_records@.len()) as u16), seq_bytes(self.content_encryption_records@));
        }
        Ok(())
    }
}

impl<'a> Wire for AdvancedContentEncryptionData<'a> {
    open spec fn spec_bytes(&self) -> Seq<u8> {
        spec_u16_to_le_bytes((self.content_encryption_records@.len()) as u16)
            + seq_bytes(self.content_encryption_records@)
    }

    open spec fn writable(&self) -> bool {
        self.content_encryption_records@.len() <= 0xffff
        && all_writable(self.content_encryption_records@)
    }

    fn size_of(&self) -> (r: usize) {
        Self::size_of(self)
    }

    fn write(&self, w: &mut Vec<u8>) -> (r: Result<(), WriteError>) {
        Self::write(self, w)
    }
}

impl<'a> AdvancedContentEncryptionData<'a> {
    /// Decodes one value; the bytes consumed are exactly what `write` emits for it.
    pub fn parse(input: Span<'a>) -> (r: Result<(Span<'a>, AdvancedContentEncryptionData<'a>), Error>)
        ensures
            r matches Ok((rest, v)) ==> parsed(input, v, rest),
            r matches Err(e) ==> e.kind == ErrorKind::Eof,
            forall|w: Self, t: Seq<u8>| #[trigger] encodes(input.bytes(), w, t)
                ==> (r matches Ok((rest, v)) && v.spec_bytes() == w.spec_bytes()),
    {
        proof {
            lemma_int_bytes_len();
            lemma_int_bytes_injective();
        }
        proof {
            assert forall|w: AdvancedContentEncryptionData<'a>, t: Seq<u8>| #[trigger] encodes(input.bytes(), w, t) implies input.bytes() == spec_u16_to_le_bytes((w.content_encryption_records@.len()) as u16) + (seq_bytes(w.content_encryption_records@) + t) by {
                lemma_concat_associative(spec_u16_to_le_bytes((w.content_encryption_records@.len()) as u16), seq_bytes(w.content_encryption_records@), t);
            }
        }
        let (i1, content_encryption_records_len) = match read_u16(input) {
            Ok(x) => x,
            Err(e) => {
                proof {
                    assert forall|w: AdvancedContentEncryptionData<'a>, t: Seq<u8>| #[trigger] encodes(input.bytes(), w, t) implies false by {
                    }
                }
                return Err(e);
            },
        };
        let ghost consumed1 = spec_u16_to_le_bytes(content_encryption_records_len);
        proof {
            assert forall|w: AdvancedContentEncryptionData<'a>, t: Seq<u8>| #[trigger] encodes(input.bytes(), w, t) implies spec_u16_to_le_bytes(content_encryption_records_len) == spec_u16_to_le_bytes((w.content_encryption_records@.len()) as u16) && i1.bytes() == seq_bytes(w.content_encryption_records@) + t by {
                lemma_cancel(input.bytes(), spec_u16_to_le_bytes(content_encryption_records_len), i1.bytes(), spec_u16_to_le_bytes((w.content_encryption_records@.len()) as u16), (seq_bytes(w.content_encryption_records@) + t));
            }
        }
        let (i2, content_encryption_records) = match parse_count::<ContentEncryptionRecord>(i1, content_encryption_records_len as usize) {
            Ok(x) => x,
            Err(e) => {
                proof {
                    assert forall|w: AdvancedContentEncryptionData<'a>, t: Seq<u8>| #[trigger] encodes(input.bytes(), w, t) implies false by {
                        assert(encodes_seq(i1.bytes(), w.content_encryption_records@, t));
                    }
                }
                return Err(e);
            },
        };
        let ghost consumed2 = consumed1 + seq_bytes(content_encryption_records@);
        proof {
            lemma_splits_chain(input, consumed1, i1, seq_bytes(content_encryption_records@), i2);
            assert forall|w: AdvancedContentEncryptionData<'a>, t: Seq<u8>| #[trigger] encodes(input.bytes(), w, t) implies seq_bytes(content_encryption_records@) == seq_bytes(w.content_encryption_records@) && i2.bytes() == t by {
                assert(encodes_seq(i1.bytes(), w.content_encryption_records@, t));
                lemma_cancel(i1.bytes(), seq_bytes(content_encryption_records@), i2.bytes(), seq_bytes(w.content_encryption_records@), t);
            }
        }
        let v = AdvancedContentEncryptionData { content_encryption_records };
        proof {
            assert forall|w: AdvancedContentEncryptionData<'a>, t: Seq<u8>| #[trigger] encodes(input.bytes(), w, t) implies v.spec_bytes() == w.spec_bytes() by {
            }
        }
        Ok((i2, v))
    }
}

impl<'a> Parse<'a> for AdvancedContentEncryptionData<'a> {
    fn parse(input: Span<'a>) -> (r: Result<(Span<'a>, AdvancedContentEncryptionData<'a>), Error>) {
        Self::parse(input)
    }
}

} // verus!
