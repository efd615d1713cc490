use vstd::prelude::*;
use vstd::bytes::*;
use vstd::seq_lib::lemma_concat_associative;

use crate::error::{Error, ErrorKind, WriteError};
use crate::span::{lemma_splits_chain, Span};
use crate::guid::{guid, guid_to_wire, lemma_guid_value_round_trip, write_guid, Guid};
use crate::wire::{parsed, encodes, lemma_cancel, lemma_int_bytes_injective, lemma_int_bytes_len, read_u16, read_u32, read_u64, take, write_bytes, write_u16, write_u32, write_u64, Parse, Wire};

verus! {

/// The stream properties object: stream and error-correction types, then the two codec-specific blobs, kept as spans.
#[derive(Debug, PartialEq, Eq)]
pub struct StreamPropertiesData<'a> {
    pub stream_type: Guid,
    pub error_correction_type: Guid,
    pub time_offset: u64,
    pub flags: u16,
    pub reserved: u32,
    pub type_specific_data: Span<'a>,
    pub error_correction_data: Span<'a>,
}

impl<'a> StreamPropertiesData<'a> {
    /// The number of bytes `write` emits, computed without writing.
    pub fn size_of(&self) -> (r: usize)
        requires
            self.spec_bytes().len() <= usize::MAX,
        ensures
            r == self.spec_bytes().len(),
    {
        proof {
            lemma_int_bytes_len();
            lemma_guid_value_round_trip(self.stream_type.0);
            lemma_guid_value_round_trip(self.error_correction_type.0);
        }
        let mut n: usize = 0;
        n = n + 16;
        n = n + 16;
        n = n + 8;
        n = n + 4;
        n = n + 4;
        n = n + 2;
        n = n + 4;
        n = n + self.type_specific_data.len();
        n = n + self.error_correction_data.len();
        n
    }

    /// Appends the wire form to `w`; fails when a length overflows its prefix.
    pub fn write(&self, w: &mut Vec<u8>) -> (r: Result<(), WriteError>)
        requires
            self.spec_bytes().len() <= usize::MAX,
        ensures
            r is Ok <==> self.writable(),
            r is Ok ==> final(w)@ == old(w)@ + self.spec_bytes(),
    {
        proof {
            lemma_int_bytes_len();
            lemma_guid_value_round_trip(self.stream_type.0);
            lemma_guid_value_round_trip(self.error_correction_type.0);
        }
        write_guid(w, self.stream_type);
        write_guid(w, self.error_correction_type);
        proof {
            lemma_concat_associative(old(w)@, guid_to_wire(self.stream_type.0), guid_to_wire(self.error_correction_type.0));
        }
        write_u64(w, self.time_offset);
        proof {
            lemma_concat_associative(old(w)@, guid_to_wire(self.stream_type.0) + guid_to_wire(self.error_correction_type.0), spec_u64_to_le_bytes(self.time_offset));
        }
        let type_specific_data_len: usize = self.type_specific_data.len();
        if type_specific_data_len > 0xffff_ffff {
            return Err(WriteError::FieldTooLarge);
        }
        write_u32(w, type_specific_data_len as u32);
        proof {
            lemma_concat_associative(old(w)@, guid_to_wire(self.stream_type.0) + guid_to_wire(self.error_correction_type.0) + spec_u64_to_le_bytes(self.time_offset), spec_u32_to_le_bytes((self.type_specific_data.bytes().len()) as u32));
        }
        let error_correction_data_len: usize = self.error_correction_data.len();
        if error_correction_data_len > 0xffff_ffff {
            return Err(WriteError::FieldTooLarge);
        }
        write_u32(w, error_correction_data_len as u32);
        proof {
            lemma_concat_associative(old(w)@, guid_to_wire(self.stream_type.0) + guid_to_wire(self.error_correction_type.0) + spec_u64_to_le_bytes(self.time_offset) + spec_u32_to_le_bytes((self.type_specific_data.bytes().len()) as u32), spec_u32_to_le_bytes((self.error_correction_data.bytes().len()) as u32));
        }
        write_u16(w, self.flags);
        proof {
            lemma_concat_associative(old(w)@, guid_to_wire(self.stream_type.0) + guid_to_wire(self.error_correction_type.0) + spec_u64_to_le_bytes(self.time_offset) + spec_u32_to_le_bytes((self.type_specific_data.bytes().len()) as u32) + spec_u32_to_le_bytes((self.error_correction_data.bytes().len()) as u32), spec_u16_to_le_bytes(self.flags));
        }
        write_u32(w, self.reserved);
        proof {
            lemma_concat_associative(old(w)@, guid_to_wire(self.stream_type.0) + guid_to_wire(self.error_correction_type.0) + spec_u64_to_le_bytes(self.time_offset) + spec_u32_to_le_bytes((self.type_specific_data.bytes().len()) as u32) + spec_u32_to_le_bytes((self.error_correction_data.bytes().len()) as u32) + spec_u16_to_le_bytes(self.flags), spec_u32_to_le_bytes(self.reserved));
        }
        write_bytes(w, self.type_specific_data.fragment());
        proof {
            lemma_concat_associative(old(w)@, guid_to_wire(self.stream_type.0) + guid_to_wire(self.error_correction_type.0) + spec_u64_to_le_bytes(self.time_offset) + spec_u32_to_le_bytes((self.type_specific_data.bytes().len()) as u32) + spec_u32_to_le_bytes((self.error_correction_data.bytes().len()) as u32) + spec_u16_to_le_bytes(self.flags) + spec_u32_to_le_bytes(self.reserved), self.type_specific_data.bytes());
        }
        write_bytes(w, self.error_correction_data.fragment());
        proof {
            lemma_concat_associative(old(w)@, guid_to_wire(self.stream_type.0) + guid_to_wire(self.error_correction_type.0) + spec_u64_to_le_bytes(self.time_offset) + spec_u32_to_le_bytes((self.type_specific_data.bytes().len()) as u32) + spec_u32_to_le_bytes((self.error_correction_data.bytes().len()) as u32) + spec_u16_to_le_bytes(self.flags) + spec_u32_to_le_bytes(self.reserved) + self.type_specific_data.bytes(), self.error_correction_data.bytes());
        }
        Ok(())
    }
}

impl<'a> Wire for StreamPropertiesData<'a> {
    open spec fn spec_bytes(&self) -> Seq<u8> {
        guid_to_wire(self.stream_type.0)
            + guid_to_wire(self.error_correction_type.0)
            + spec_u64_to_le_bytes(self.time_offset)
            + spec_u32_to_le_bytes((self.type_specific_data.bytes().len()) as u32)
            + spec_u32_to_le_bytes((self.error_correction_data.bytes().len()) as u32)
            + spec_u16_to_le_bytes(self.flags)
            + spec_u32_to_le_bytes(self.reserved)
            + self.type_specific_data.bytes()
            + self.error_correction_data.bytes()
    }

    open spec fn writable(&self) -> bool {
        self.type_specific_data.bytes().len() <= 0xffff_ffff
        && self.error_correction_data.bytes().len() <= 0xffff_ffff
    }

    fn size_of(&self) -> (r: usize) {
        Self::size_of(self)
    }

    fn write(&self, w: &mut Vec<u8>) -> (r: Result<(), WriteError>) {
        Self::write(self, w)
    }
}

impl<'a> StreamPropertiesData<'a> {
    /// Decodes one value; the bytes consumed are exactly what `write` emits for it.
    pub fn parse(input: Span<'a>) -> (r: Result<(Span<'a>, StreamPropertiesData<'a>), Error>)
        ensures
            r matches Ok((rest, v)) ==> parsed(input, v, rest),
            r matches Err(e) ==> e.kind == ErrorKind::Eof,
            forall|w: Self, t: Seq<u8>| #[trigger] encodes(input.bytes(), w, t)
                ==> (r matches Ok((rest, v)) && v.spec_bytes() == w.spec_bytes()),
    {
        proof {
            lemma_int_bytes_len();
            lemma_int_bytes_injective();
        }
        proof {
            assert forall|w: StreamPropertiesData<'a>, t: Seq<u8>| #[trigger] encodes(input.bytes(), w, t) implies input.bytes() == guid_to_wire(w.stream_type.0) + (guid_to_wire(w.error_correction_type.0) + (spec_u64_to_le_bytes(w.time_offset) + (spec_u32_to_le_bytes((w.type_specific_data.bytes().len()) as u32) + (spec_u32_to_le_bytes((w.error_correction_data.bytes().len()) as u32) + (spec_u16_to_le_bytes(w.flags) + (spec_u32_to_le_bytes(w.reserved) + (w.type_specific_data.bytes() + (w.error_correction_data.bytes() + t)))))))) by {
                lemma_guid_value_round_trip(w.stream_type.0);
                lemma_guid_value_round_trip(w.error_correction_type.0);
                lemma_concat_associative(guid_to_wire(w.stream_type.0) + guid_to_wire(w.error_correction_type.0) + spec_u64_to_le_bytes(w.time_offset) + spec_u32_to_le_bytes((w.type_specific_data.bytes().len()) as u32) + spec_u32_to_le_bytes((w.error_correction_data.bytes().len()) as u32) + spec_u16_to_le_bytes(w.flags) + spec_u32_to_le_bytes(w.reserved) + w.type_specific_data.bytes(), w.error_correction_data.bytes(), t);
                lemma_concat_associative(guid_to_wire(w.stream_type.0) + guid_to_wire(w.error_correction_type.0) + spec_u64_to_le_bytes(w.time_offset) + spec_u32_to_le_bytes((w.type_specific_data.bytes().len()) as u32) + spec_u32_to_le_bytes((w.error_correction_data.bytes().len()) as u32) + spec_u16_to_le_bytes(w.flags) + spec_u32_to_le_bytes(w.reserved), w.type_specific_data.bytes(), (w.error_correction_data.bytes() + t));
                lemma_concat_associative(guid_to_wire(w.stream_type.0) + guid_to_wire(w.error_correction_type.0) + spec_u64_to_le_bytes(w.time_offset) + spec_u32_to_le_bytes((w.type_specific_data.bytes().len()) as u32) + spec_u32_to_le_bytes((w.error_correction_data.bytes().len()) as u32) + spec_u16_to_le_bytes(w.flags), spec_u32_to_le_bytes(w.reserved), (w.type_specific_data.bytes() + (w.error_correction_data.bytes() + t)));
                lemma_concat_associative(guid_to_wire(w.stream_type.0) + guid_to_wire(w.error_correction_type.0) + spec_u64_to_le_bytes(w.time_offset) + spec_u32_to_le_bytes((w.type_specific_data.bytes().len()) as u32) + spec_u32_to_le_bytes((w.error_correction_data.bytes().len()) as u32), spec_u16_to_le_bytes(w.flags), (spec_u32_to_le_bytes(w.reserved) + (w.type_specific_data.bytes() + (w.error_correction_data.bytes() + t))));
                lemma_concat_associative(guid_to_wire(w.stream_type.0) + guid_to_wire(w.error_correction_type.0) + spec_u64_to_le_bytes(w.time_offset) + spec_u32_to_le_bytes((w.type_specific_data.bytes().len()) as u32), spec_u32_to_le_bytes((w.error_correction_data.bytes().len()) as u32), (spec_u16_to_le_bytes(w.flags) + (spec_u32_to_le_bytes(w.reserved) + (w.type_specific_data.bytes() + (w.error_correction_data.bytes() + t)))));
                lemma_concat_associative(guid_to_wire(w.stream_type.0) + guid_to_wire(w.error_correction_type.0) + spec_u64_to_le_bytes(w.time_offset), spec_u32_to_le_bytes((w.type_specific_data.bytes().len()) as u32), (spec_u32_to_le_bytes((w.error_correction_data.bytes().len()) as u32) + (spec_u16_to_le_bytes(w.flags) + (spec_u32_to_le_bytes(w.reserved) + (w.type_specific_data.bytes() + (w.error_correction_data.bytes() + t))))));
                lemma_concat_associative(guid_to_wire(w.stream_type.0) + guid_to_wire(w.error_correction_type.0), spec_u64_to_le_bytes(w.time_offset), (spec_u32_to_le_bytes((w.type_specific_data.bytes().len()) as u32) + (spec_u32_to_le_bytes((w.error_correction_data.bytes().len()) as u32) + (spec_u16_to_le_bytes(w.flags) + (spec_u32_to_le_bytes(w.reserved) + (w.type_specific_data.bytes() + (w.error_correction_data.bytes() + t)))))));
                lemma_concat_associative(guid_to_wire(w.stream_type.0), guid_to_wire(w.error_correction_type.0), (spec_u64_to_le_bytes(w.time_offset) + (spec_u32_to_le_bytes((w.type_specific_data.bytes().len()) as u32) + (spec_u32_to_le_bytes((w.error_correction_data.bytes().len()) as u32) + (spec_u16_to_le_bytes(w.flags) + (spec_u32_to_le_bytes(w.reserved) + (w.type_specific_data.bytes() + (w.error_correction_data.bytes() + t))))))));
            }
        }
        let (i1, stream_type) = match guid(input) {
            Ok(x) => x,
            Err(e) => {
                proof {
                    assert forall|w: StreamPropertiesData<'a>, t: Seq<u8>| #[trigger] encodes(input.bytes(), w, t) implies false by {
                        lemma_guid_value_round_trip(w.stream_type.0);
                    }
                }
                return Err(e);
            },
        };
        let ghost consumed1 = guid_to_wire(stream_type.0);
        proof {
            lemma_guid_value_round_trip(stream_type.0);
            assert forall|w: StreamPropertiesData<'a>, t: Seq<u8>| #[trigger] encodes(input.bytes(), w, t) implies guid_to_wire(stream_type.0) == guid_to_wire(w.stream_type.0) && i1.bytes() == guid_to_wire(w.error_correction_type.0) + (spec_u64_to_le_bytes(w.time_offset) + (spec_u32_to_le_bytes((w.type_specific_data.bytes().len()) as u32) + (spec_u32_to_le_bytes((w.error_correction_data.bytes().len()) as u32) + (spec_u16_to_le_bytes(w.flags) + (spec_u32_to_le_bytes(w.reserved) + (w.type_specific_data.bytes() + (w.error_correction_data.bytes() + t))))))) by {
                lemma_guid_value_round_trip(w.stream_type.0);
                lemma_cancel(input.bytes(), guid_to_wire(stream_type.0), i1.bytes(), guid_to_wire(w.stream_type.0), (guid_to_wire(w.error_correction_type.0) + (spec_u64_to_le_bytes(w.time_offset) + (spec_u32_to_le_bytes((w.type_specific_data.bytes().len()) as u32) + (spec_u32_to_le_bytes((w.error_correction_data.bytes().len()) as u32) + (spec_u16_to_le_bytes(w.flags) + (spec_u32_to_le_bytes(w.reserved) + (w.type_specific_data.bytes() + (w.error_correction_data.bytes() + t)))))))));
            }
        }
        let (i2, error_correction_type) = match guid(i1) {
            Ok(x) => x,
            Err(e) => {
                proof {
                    assert forall|w: StreamPropertiesData<'a>, t: Seq<u8>| #[trigger] encodes(input.bytes(), w, t) implies false by {
                        lemma_guid_value_round_trip(w.error_correction_type.0);
                    }
                }
                return Err(e);
            },
        };
        let ghost consumed2 = consumed1 + guid_to_wire(error_correction_type.0);
        proof {
            lemma_splits_chain(input, consumed1, i1, guid_to_wire(error_correction_type.0), i2);
            lemma_guid_value_round_trip(error_correction_type.0);
            assert forall|w: StreamPropertiesData<'a>, t: Seq<u8>| #[trigger] encodes(input.bytes(), w, t) implies guid_to_wire(error_correction_type.0) == guid_to_wire(w.error_correction_type.0) && i2.bytes() == spec_u64_to_le_bytes(w.time_offset) + (spec_u32_to_le_bytes((w.type_specific_data.bytes().len()) as u32) + (spec_u32_to_le_bytes((w.error_correction_data.bytes().len()) as u32) + (spec_u16_to_le_bytes(w.flags) + (spec_u32_to_le_bytes(w.reserved) + (w.type_specific_data.bytes() + (w.error_correction_data.bytes() + t)))))) by {
                lemma_guid_value_round_trip(w.error_correction_type.0);
                lemma_cancel(i1.bytes(), guid_to_wire(error_correction_type.0), i2.bytes(), guid_to_wire(w.error_correction_type.0), (spec_u64_to_le_bytes(w.time_offset) + (spec_u32_to_le_bytes((w.type_specific_data.bytes().len()) as u32) + (spec_u32_to_le_bytes((w.error_correction_data.bytes().len()) as u32) + (spec_u16_to_le_bytes(w.flags) + (spec_u32_to_le_bytes(w.reserved) + (w.type_specific_data.bytes() + (w.error_correction_data.bytes() + t))))))));
            }
        }
        let (i3, time_offset) = match read_u64(i2) {
            Ok(x) => x,
            Err(e) => {
                proof {
                    assert forall|w: StreamPropertiesData<'a>, t: Seq<u8>| #[trigger] encodes(input.bytes(), w, t) implies false by {
                    }
                }
                return Err(e);
            },
        };
        let ghost consumed3 = consumed2 + spec_u64_to_le_bytes(time_offset);
        proof {
            lemma_splits_chain(input, consumed2, i2, spec_u64_to_le_bytes(time_offset), i3);
            assert forall|w: StreamPropertiesData<'a>, t: Seq<u8>| #[trigger] encodes(input.bytes(), w, t) implies spec_u64_to_le_bytes(time_offset) == spec_u64_to_le_bytes(w.time_offset) && i3.bytes() == spec_u32_to_le_bytes((w.type_specific_data.bytes().len()) as u32) + (spec_u32_to_le_bytes((w.error_correction_data.bytes().len()) as u32) + (spec_u16_to_le_bytes(w.flags) + (spec_u32_to_le_bytes(w.reserved) + (w.type_specific_data.bytes() + (w.error_correction_data.bytes() + t))))) by {
                lemma_cancel(i2.bytes(), spec_u64_to_le_bytes(time_offset), i3.bytes(), spec_u64_to_le_bytes(w.time_offset), (spec_u32_to_le_bytes((w.type_specific_data.bytes().len()) as u32) + (spec_u32_to_le_bytes((w.error_correction_data.bytes().len()) as u32) + (spec_u16_to_le_bytes(w.flags) + (spec_u32_to_le_bytes(w.reserved) + (w.type_specific_data.bytes() + (w.error_correction_data.bytes() + t)))))));
            }
        }
        let (i4, type_specific_data_len) = match read_u32(i3) {
            Ok(x) => x,
            Err(e) => {
                proof {
                    assert forall|w: StreamPropertiesData<'a>, t: Seq<u8>| #[trigger] encodes(input.bytes(), w, t) implies false by {
                    }
                }
                return Err(e);
            },
        };
        let ghost consumed4 = consumed3 + spec_u32_to_le_bytes(type_specific_data_len);
        proof {
            lemma_splits_chain(input, consumed3, i3, spec_u32_to_le_bytes(type_specific_data_len), i4);
            assert forall|w: StreamPropertiesData<'a>, t: Seq<u8>| #[trigger] encodes(input.bytes(), w, t) implies spec_u32_to_le_bytes(type_specific_data_len) == spec_u32_to_le_bytes((w.type_specific_data.bytes().len()) as u32) && i4.bytes() == spec_u32_to_le_bytes((w.error_correction_data.bytes().len()) as u32) + (spec_u16_to_le_bytes(w.flags) + (spec_u32_to_le_bytes(w.reserved) + (w.type_specific_data.bytes() + (w.error_correction_data.bytes() + t)))) by {
                lemma_cancel(i3.bytes(), spec_u32_to_le_bytes(type_specific_data_len), i4.bytes(), spec_u32_to_le_bytes((w.type_specific_data.bytes().len()) as u32), (spec_u32_to_le_bytes((w.error_correction_data.bytes().len()) as u32) + (spec_u16_to_le_bytes(w.flags) + (spec_u32_to_le_bytes(w.reserved) + (w.type_specific_data.bytes() + (w.error_correction_data.bytes() + t))))));
            }
        }
        let (i5, error_correction_data_len) = match read_u32(i4) {
            Ok(x) => x,
            Err(e) => {
                proof {
                    assert forall|w: StreamPropertiesData<'a>, t: Seq<u8>| #[trigger] encodes(input.bytes(), w, t) implies false by {
                    }
                }
                return Err(e);
            },
        };
        let ghost consumed5 = consumed4 + spec_u32_to_le_bytes(error_correction_data_len);
        proof {
            lemma_splits_chain(input, consumed4, i4, spec_u32_to_le_bytes(error_correction_data_len), i5);
            assert forall|w: StreamPropertiesData<'a>, t: Seq<u8>| #[trigger] encodes(input.bytes(), w, t) implies spec_u32_to_le_bytes(error_correction_data_len) == spec_u32_to_le_bytes((w.error_correction_data.bytes().len()) as u32) && i5.bytes() == spec_u16_to_le_bytes(w.flags) + (spec_u32_to_le_bytes(w.reserved) + (w.type_specific_data.bytes() + (w.error_correction_data.bytes() + t))) by {
                lemma_cancel(i4.bytes(), spec_u32_to_le_bytes(error_correction_data_len), i5.bytes(), spec_u32_to_le_bytes((w.error_correction_data.bytes().len()) as u32), (spec_u16_to_le_bytes(w.flags) + (spec_u32_to_le_bytes(w.reserved) + (w.type_specific_data.bytes() + (w.error_correction_data.bytes() + t)))));
            }
        }
        let (i6, flags) = match read_u16(i5) {
            Ok(x) => x,
            Err(e) => {
                proof {
                    assert forall|w: StreamPropertiesData<'a>, t: Seq<u8>| #[trigger] encodes(input.bytes(), w, t) implies false by {
                    }
                }
                return Err(e);
            },
        };
        let ghost consumed6 = consumed5 + spec_u16_to_le_bytes(flags);
        proof {
            lemma_splits_chain(input, consumed5, i5, spec_u16_to_le_bytes(flags), i6);
            assert forall|w: StreamPropertiesData<'a>, t: Seq<u8>| #[trigger] encodes(input.bytes(), w, t) implies spec_u16_to_le_bytes(flags) == spec_u16_to_le_bytes(w.flags) && i6.bytes() == spec_u32_to_le_bytes(w.reserved) + (w.type_specific_data.bytes() + (w.error_correction_data.bytes() + t)) by {
                lemma_cancel(i5.bytes(), spec_u16_to_le_bytes(flags), i6.bytes(), spec_u16_to_le_bytes(w.flags), (spec_u32_to_le_bytes(w.reserved) + (w.type_specific_data.bytes() + (w.error_correction_data.bytes() + t))));
            }
        }
        let (i7, reserved) = match read_u32(i6) {
            Ok(x) => x,
            Err(e) => {
                proof {
                    assert forall|w: StreamPropertiesData<'a>, t: Seq<u8>| #[trigger] encodes(input.bytes(), w, t) implies false by {
                    }
                }
                return Err(e);
            },
        };
        let ghost consumed7 = consumed6 + spec_u32_to_le_bytes(reserved);
        proof {
            lemma_splits_chain(input, consumed6, i6, spec_u32_to_le_bytes(reserved), i7);
            assert forall|w: StreamPropertiesData<'a>, t: Seq<u8>| #[trigger] encodes(input.bytes(), w, t) implies spec_u32_to_le_bytes(reserved) == spec_u32_to_le_bytes(w.reserved) && i7.bytes() == w.type_specific_data.bytes() + (w.error_correction_data.bytes() + t) by {
                lemma_cancel(i6.bytes(), spec_u32_to_le_bytes(reserved), i7.bytes(), spec_u32_to_le_bytes(w.reserved), (w.type_specific_data.bytes() + (w.error_correction_data.bytes() + t)));
            }
        }
        let (i8, type_specific_data) = match take(i7, type_specific_data_len as usize) {
            Ok(x) => x,
            Err(e) => {
                proof {
                    assert forall|w: StreamPropertiesData<'a>, t: Seq<u8>| #[trigger] encodes(input.bytes(), w, t) implies false by {
                    }
                }
                return Err(e);
            },
        };
        let ghost consumed8 = consumed7 + type_specific_data.bytes();
        proof {
            lemma_splits_chain(input, consumed7, i7, type_specific_data.bytes(), i8);
            assert forall|w: StreamPropertiesData<'a>, t: Seq<u8>| #[trigger] encodes(input.bytes(), w, t) implies type_specific_data.bytes() == w.type_specific_data.bytes() && i8.bytes() == w.error_correction_data.bytes() + t by {
                lemma_cancel(i7.bytes(), type_specific_data.bytes(), i8.bytes(), w.type_specific_data.bytes(), (w.error_correction_data.bytes() + t));
            }
        }
        let (i9, error_correction_data) = match take(i8, error_correction_data_len as usize) {
            Ok(x) => x,
            Err(e) => {
                proof {
                    assert forall|w: StreamPropertiesData<'a>, t: Seq<u8>| #[trigger] encodes(input.bytes(), w, t) implies false by {
                    }
                }
                return Err(e);
            },
        };
        let ghost consumed9 = consumed8 + error_correction_data.bytes();
        proof {
            lemma_splits_chain(input, consumed8, i8, error_correction_data.bytes(), i9);
            assert forall|w: StreamPropertiesData<'a>, t: Seq<u8>| #[trigger] encodes(input.bytes(), w, t) implies error_correction_data.bytes() == w.error_correction_data.bytes() && i9.bytes() == t by {
                lemma_cancel(i8.bytes(), error_correction_data.bytes(), i9.bytes(), w.error_correction_data.bytes(), t);
            }
        }
        let v = StreamPropertiesData { stream_type, error_correction_type, time_offset, flags, reserved, type_specific_data, error_correction_data };
        proof {
            assert forall|w: StreamPropertiesData<'a>, t: Seq<u8>| #[trigger] encodes(input.bytes(), w, t) implies v.spec_bytes() == w.spec_bytes() by {
            }
        }
        Ok((i9, v))
    }
}

impl<'a> Parse<'a> for StreamPropertiesData<'a> {
    fn parse(input: Span<'a>) -> (r: Result<(Span<'a>, StreamPropertiesData<'a>), Error>) {
        Self::parse(input)
    }
}

} // verus!
