use vstd::prelude::*;
use vstd::bytes::*;
use vstd::seq_lib::lemma_concat_associative;

use crate::error::{Error, ErrorKind, WriteError};
use crate::span::{lemma_splits_chain, Span};
use crate::guid::{guid, guid_to_wire, lemma_guid_value_round_trip, write_guid, Guid};
use crate::wire::{parsed, all_writable, encodes_seq, encodes, lemma_cancel, lemma_int_bytes_injective, lemma_int_bytes_len, parse_count, read_u16, read_u32, read_u64, seq_bytes, size_of_seq, write_seq, write_u16, write_u32, write_u64, Parse, Wire};
use crate::widestr::{encodes_count16, encodes_count32, WideStr};

verus! {

/// One marker.
#[derive(Debug, PartialEq, Eq)]
pub struct Marker {
    pub offset: u64,
    pub presentation_time: u64,
    pub entry_length: u16,
    pub send_time: u32,
    pub flags: u32,
    pub marker_description: WideStr,
}

impl Marker {
    /// The number of bytes `write` emits, computed without writing.
    pub fn size_of(&self) -> (r: usize)
        requires
            self.spec_bytes().len() <= usize::MAX,
        ensures
            r == self.spec_bytes().len(),
    {
        proof {
            lemma_int_bytes_len();
        }
        let mut n: usize = 0;
        n = n + 8;
        n = n + 8;
        n = n + 2;
        n = n + 4;
        n = n + 4;
        n = n + self.marker_description.size_of_count32();
        n
    }

    /// Appends the wire form to `w`; fails when a length overflows its prefix.
    pub fn write(&self, w: &mut Vec<u8>) -> (r: Result<(), WriteError>)
        requires
            self.spec_bytes().len() <= usize::MAX,
        ensures
            r is Ok <==> self.writable(),
            r is Ok ==> final(w)@ == old(w)@ + self.spec_bytes(),
    {
        proof {
            lemma_int_bytes_len();
        }
        write_u64(w, self.offset);
        write_u64(w, self.presentation_time);
        proof {
            lemma_concat_associative(old(w)@, spec_u64_to_le_bytes(self.offset), spec_u64_to_le_bytes(self.presentation_time));
        }
        write_u16(w, self.entry_length);
        proof {
            lemma_concat_associative(old(w)@, spec_u64_to_le_bytes(self.offset) + spec_u64_to_le_bytes(self.presentation_time), spec_u16_to_le_bytes(self.entry_length));
        }
        write_u32(w, self.send_time);
        proof {
            lemma_concat_associative(old(w)@, spec_u64_to_le_bytes(self.offset) + spec_u64_to_le_bytes(self.presentation_time) + spec_u16_to_le_bytes(self.entry_length), spec_u32_to_le_bytes(self.send_time));
        }
        write_u32(w, self.flags);
        proof {
            lemma_concat_associative(old(w)@, spec_u64_to_le_bytes(self.offset) + spec_u64_to_le_bytes(self.presentation_time) + spec_u16_to_le_bytes(self.entry_length) + spec_u32_to_le_bytes(self.send_time), spec_u32_to_le_bytes(self.flags));
        }
        self.marker_description.write_count32(w)?;
        proof {
            lemma_concat_associative(old(w)@, spec_u64_to_le_bytes(self.offset) + spec_u64_to_le_bytes(self.presentation_time) + spec_u16_to_le_bytes(self.entry_length) + spec_u32_to_le_bytes(self.send_time) + spec_u32_to_le_bytes(self.flags), self.marker_description.spec_bytes_count32());
        }
        Ok(())
    }
}

impl Wire for Marker {
    open spec fn spec_bytes(&self) -> Seq<u8> {
        spec_u64_to_le_bytes(self.offset)
            + spec_u64_to_le_bytes(self.presentation_time)
            + spec_u16_to_le_bytes(self.entry_length)
            + spec_u32_to_le_bytes(self.send_time)
            + spec_u32_to_le_bytes(self.flags)
            + self.marker_description.spec_bytes_count32()
    }

    open spec fn writable(&self) -> bool {
        self.marker_description.writable_count32()
    }

    fn size_of(&self) -> (r: usize) {
        Self::size_of(self)
    }

    fn write(&self, w: &mut Vec<u8>) -> (r: Result<(), WriteError>) {
        Self::write(self, w)
    }
}

impl Marker {
    /// Decodes one value; the bytes consumed are exactly what `write` emits for it.
    pub fn parse<'a>(input: Span<'a>) -> (r: Result<(Span<'a>, Marker), Error>)
        ensures
            r matches Ok((rest, v)) ==> parsed(input, v, rest),
            r matches Err(e) ==> e.kind == ErrorKind::Eof,
            forall|w: Self, t: Seq<u8>| #[trigger] encodes(input.bytes(), w, t)
                ==> (r matches Ok((rest, v)) && v.spec_bytes() == w.spec_bytes()),
    {
        proof {
            lemma_int_bytes_len();
            lemma_int_bytes_injective();
        }
        proof {
            assert forall|w: Marker, t: Seq<u8>| #[trigger] encodes(input.bytes(), w, t) implies input.bytes() == spec_u64_to_le_bytes(w.offset) + (spec_u64_to_le_bytes(w.presentation_time) + (spec_u16_to_le_bytes(w.entry_length) + (spec_u32_to_le_bytes(w.send_time) + (spec_u32_to_le_bytes(w.flags) + (w.marker_description.spec_bytes_count32() + t))))) by {
                lemma_concat_associative(spec_u64_to_le_bytes(w.offset) + spec_u64_to_le_bytes(w.presentation_time) + spec_u16_to_le_bytes(w.entry_length) + spec_u32_to_le_bytes(w.send_time) + spec_u32_to_le_bytes(w.flags), w.marker_description.spec_bytes_count32(), t);
                lemma_concat_associative(spec_u64_to_le_bytes(w.offset) + spec_u64_to_le_bytes(w.presentation_time) + spec_u16_to_le_bytes(w.entry_length) + spec_u32_to_le_bytes(w.send_time), spec_u32_to_le_bytes(w.flags), (w.marker_description.spec_bytes_count32() + t));
                lemma_concat_associative(spec_u64_to_le_bytes(w.offset) + spec_u64_to_le_bytes(w.presentation_time) + spec_u16_to_le_bytes(w.entry_length), spec_u32_to_le_bytes(w.send_time), (spec_u32_to_le_bytes(w.flags) + (w.marker_description.spec_bytes_count32() + t)));
                lemma_concat_associative(spec_u64_to_le_bytes(w.offset) + spec_u64_to_le_bytes(w.presentation_time), spec_u16_to_le_bytes(w.entry_length), (spec_u32_to_le_bytes(w.send_time) + (spec_u32_to_le_bytes(w.flags) + (w.marker_description.spec_bytes_count32() + t))));
                lemma_concat_associative(spec_u64_to_le_bytes(w.offset), spec_u64_to_le_bytes(w.presentation_time), (spec_u16_to_le_bytes(w.entry_length) + (spec_u32_to_le_bytes(w.send_time) + (spec_u32_to_le_bytes(w.flags) + (w.marker_description.spec_bytes_count32() + t)))));
            }
        }
        let (i1, offset) = match read_u64(input) {
            Ok(x) => x,
            Err(e) => {
                proof {
                    assert forall|w: Marker, t: Seq<u8>| #[trigger] encodes(input.bytes(), w, t) implies false by {
                    }
                }
                return Err(e);
            },
        };
        let ghost consumed1 = spec_u64_to_le_bytes(offset);
        proof {
            assert forall|w: Marker, t: Seq<u8>| #[trigger] encodes(input.bytes(), w, t) implies spec_u64_to_le_bytes(offset) == spec_u64_to_le_bytes(w.offset) && i1.bytes() == spec_u64_to_le_bytes(w.presentation_time) + (spec_u16_to_le_bytes(w.entry_length) + (spec_u32_to_le_bytes(w.send_time) + (spec_u32_to_le_bytes(w.flags) + (w.marker_description.spec_bytes_count32() + t)))) by {
                lemma_cancel(input.bytes(), spec_u64_to_le_bytes(offset), i1.bytes(), spec_u64_to_le_bytes(w.offset), (spec_u64_to_le_bytes(w.presentation_time) + (spec_u16_to_le_bytes(w.entry_length) + (spec_u32_to_le_bytes(w.send_time) + (spec_u32_to_le_bytes(w.flags) + (w.marker_description.spec_bytes_count32() + t))))));
            }
        }
        let (i2, presentation_time) = match read_u64(i1) {
            Ok(x) => x,
            Err(e) => {
                proof {
                    assert forall|w: Marker, t: Seq<u8>| #[trigger] encodes(input.bytes(), w, t) implies false by {
                    }
                }
                return Err(e);
            },
        };
        let ghost consumed2 = consumed1 + spec_u64_to_le_bytes(presentation_time);
        proof {
            lemma_splits_chain(input, consumed1, i1, spec_u64_to_le_bytes(presentation_time), i2);
            assert forall|w: Marker, t: Seq<u8>| #[trigger] encodes(input.bytes(), w, t) implies spec_u64_to_le_bytes(presentation_time) == spec_u64_to_le_bytes(w.presentation_time) && i2.bytes() == spec_u16_to_le_bytes(w.entry_length) + (spec_u32_to_le_bytes(w.send_time) + (spec_u32_to_le_bytes(w.flags) + (w.marker_description.spec_bytes_count32() + t))) by {
                lemma_cancel(i1.bytes(), spec_u64_to_le_bytes(presentation_time), i2.bytes(), spec_u64_to_le_bytes(w.presentation_time), (spec_u16_to_le_bytes(w.entry_length) + (spec_u32_to_le_bytes(w.send_time) + (spec_u32_to_le_bytes(w.flags) + (w.marker_description.spec_bytes_count32() + t)))));
            }
        }
        let (i3, entry_length) = match read_u16(i2) {
            Ok(x) => x,
            Err(e) => {
                proof {
                    assert forall|w: Marker, t: Seq<u8>| #[trigger] encodes(input.bytes(), w, t) implies false by {
                    }
                }
                return Err(e);
            },
        };
        let ghost consumed3 = consumed2 + spec_u16_to_le_bytes(entry_length);
        proof {
            lemma_splits_chain(input, consumed2, i2, spec_u16_to_le_bytes(entry_length), i3);
            assert forall|w: Marker, t: Seq<u8>| #[trigger] encodes(input.bytes(), w, t) implies spec_u16_to_le_bytes(entry_length) == spec_u16_to_le_bytes(w.entry_length) && i3.bytes() == spec_u32_to_le_bytes(w.send_time) + (spec_u32_to_le_bytes(w.flags) + (w.marker_description.spec_bytes_count32() + t)) by {
                lemma_cancel(i2.bytes(), spec_u16_to_le_bytes(entry_length), i3.bytes(), spec_u16_to_le_bytes(w.entry_length), (spec_u32_to_le_bytes(w.send_time) + (spec_u32_to_le_bytes(w.flags) + (w.marker_description.spec_bytes_count32() + t))));
            }
        }
        let (i4, send_time) = match read_u32(i3) {
            Ok(x) => x,
            Err(e) => {
                proof {
                    assert forall|w: Marker, t: Seq<u8>| #[trigger] encodes(input.bytes(), w, t) implies false by {
                    }
                }
                return Err(e);
            },
        };
        let ghost consumed4 = consumed3 + spec_u32_to_le_bytes(send_time);
        proof {
            lemma_splits_chain(input, consumed3, i3, spec_u32_to_le_bytes(send_time), i4);
            assert forall|w: Marker, t: Seq<u8>| #[trigger] encodes(input.bytes(), w, t) implies spec_u32_to_le_bytes(send_time) == spec_u32_to_le_bytes(w.send_time) && i4.bytes() == spec_u32_to_le_bytes(w.flags) + (w.marker_description.spec_bytes_count32() + t) by {
                lemma_cancel(i3.bytes(), spec_u32_to_le_bytes(send_time), i4.bytes(), spec_u32_to_le_bytes(w.send_time), (spec_u32_to_le_bytes(w.flags) + (w.marker_description.spec_bytes_count32() + t)));
            }
        }
        let (i5, flags) = match read_u32(i4) {
            Ok(x) => x,
            Err(e) => {
                proof {
                    assert forall|w: Marker, t: Seq<u8>| #[trigger] encodes(input.bytes(), w, t) implies false by {
                    }
                }
                return Err(e);
            },
        };
        let ghost consumed5 = consumed4 + spec_u32_to_le_bytes(flags);
        proof {
            lemma_splits_chain(input, consumed4, i4, spec_u32_to_le_bytes(flags), i5);
            assert forall|w: Marker, t: Seq<u8>| #[trigger] encodes(input.bytes(), w, t) implies spec_u32_to_le_bytes(flags) == spec_u32_to_le_bytes(w.flags) && i5.bytes() == w.marker_description.spec_bytes_count32() + t by {
                lemma_cancel(i4.bytes(), spec_u32_to_le_bytes(flags), i5.bytes(), spec_u32_to_le_bytes(w.flags), (w.marker_description.spec_bytes_count32() + t));
            }
        }
        let (i6, marker_description) = match WideStr::parse_count32(i5) {
            Ok(x) => x,
            Err(e) => {
                proof {
                    assert forall|w: Marker, t: Seq<u8>| #[trigger] encodes(input.bytes(), w, t) implies false by {
                        assert(encodes_count32(i5.bytes(), w.marker_description, t));
                    }
                }
                return Err(e);
            },
        };
        let ghost consumed6 = consumed5 + marker_description.spec_bytes_count32();
        proof {
            lemma_splits_chain(input, consumed5, i5, marker_description.spec_bytes_count32(), i6);
            assert forall|w: Marker, t: Seq<u8>| #[trigger] encodes(input.bytes(), w, t) implies marker_description.spec_bytes_count32() == w.marker_description.spec_bytes_count32() && i6.bytes() == t by {
                assert(encodes_count32(i5.bytes(), w.marker_description, t));
                lemma_cancel(i5.bytes(), marker_description.spec_bytes_count32(), i6.bytes(), w.marker_description.spec_bytes_count32(), t);
            }
        }
        let v = Marker { offset, presentation_time, entry_length, send_time, flags, marker_description };
        proof {
            assert forall|w: Marker, t: Seq<u8>| #[trigger] encodes(input.bytes(), w, t) implies v.spec_bytes() == w.spec_bytes() by {
            }
        }
        Ok((i6, v))
    }
}

impl<'a> Parse<'a> for Marker {
    fn parse(input: Span<'a>) -> (r: Result<(Span<'a>, Marker), Error>) {
        Self::parse(input)
    }
}

/// The marker object: the marker count, a name, then the markers.
#[derive(Debug, PartialEq, Eq)]
pub struct MarkerData {
    pub reserved_1: Guid,
    pub reserved_2: u16,
    pub name: WideStr,
    pub markers: Vec<Marker>,
}

impl MarkerData {
    /// The number of bytes `write` emits, computed without writing.
    pub fn size_of(&self) -> (r: usize)
        requires
            self.spec_bytes().len() <= usize::MAX,
        ensures
            r == self.spec_bytes().len(),
    {
        proof {
            lemma_int_bytes_len();
            lemma_guid_value_round_trip(self.reserved_1.0);
        }
        let mut n: usize = 0;
        n = n + 16;
        n = n + 4;
        n = n + 2;
        n = n + self.name.size_of_count16();
        n = n + size_of_seq(&self.markers);
        n
    }

    /// Appends the wire form to `w`; fails when a length overflows its prefix.
    pub fn write(&self, w: &mut Vec<u8>) -> (r: Result<(), WriteError>)
        requires
            self.spec_bytes().len() <= usize::MAX,
        ensures
            r is Ok <==> self.writable(),
            r is Ok ==> final(w)@ == old(w)@ + self.spec_bytes(),
    {
        proof {
            lemma_int_bytes_len();
            lemma_guid_value_round_trip(self.reserved_1.0);
        }
        write_guid(w, self.reserved_1);
        let markers_len: usize = self.markers.len();
        if markers_len > 0xffff_ffff {
            return Err(WriteError::FieldTooLarge);
        }
        write_u32(w, markers_len as u32);
        proof {
            lemma_concat_associative(old(w)@, guid_to_wire(self.reserved_1.0), spec_u32_to_le_bytes((self.markers@.len()) as u32));
        }
        write_u16(w, self.reserved_2);
        proof {
            lemma_concat_associative(old(w)@, guid_to_wire(self.reserved_1.0) + spec_u32_to_le_bytes((self.markers@.len()) as u32), spec_u16_to_le_bytes(self.reserved_2));
        }
        self.name.write_count16(w)?;
        proof {
            lemma_concat_associative(old(w)@, guid_to_wire(self.reserved_1.0) + spec_u32_to_le_bytes((self.markers@.len()) as u32) + spec_u16_to_le_bytes(self.reserved_2), self.name.spec_bytes_count16());
        }
        write_seq(&self.markers, w)?;
        proof {
            lemma_concat_associative(old(w)@, guid_to_wire(self.reserved_1.0) + spec_u32_to_le_bytes((self.markers@.len()) as u32) + spec_u16_to_le_bytes(self.reserved_2) + self.name.spec_bytes_count16(), seq_bytes(self.markers@));
        }
        Ok(())
    }
}

impl Wire for MarkerData {
    open spec fn spec_bytes(&self) -> Seq<u8> {
        guid_to_wire(self.reserved_1.0)
            + spec_u32_to_le_bytes((self.markers@.len()) as u32)
            + spec_u16_to_le_bytes(self.reserved_2)
            + self.name.spec_bytes_count16()
            + seq_bytes(self.markers@)
    }

    open spec fn writable(&self) -> bool {
        self.markers@.len() <= 0xffff_ffff
        && self.name.writable_count16()
        && all_writable(self.markers@)
    }

    fn size_of(&self) -> (r: usize) {
        Self::size_of(self)
    }

    fn write(&self, w: &mut Vec<u8>) -> (r: Result<(), WriteError>) {
        Self::write(self, w)
    }
}

impl MarkerData {
    /// Decodes one value; the bytes consumed are exactly what `write` emits for it.
    pub fn parse<'a>(input: Span<'a>) -> (r: Result<(Span<'a>, MarkerData), Error>)
        ensures
            r matches Ok((rest, v)) ==> parsed(input, v, rest),
            r matches Err(e) ==> e.kind == ErrorKind::Eof,
            forall|w: Self, t: Seq<u8>| #[trigger] encodes(input.bytes(), w, t)
                ==> (r matches Ok((rest, v)) && v.spec_bytes() == w.spec_bytes()),
    {
        proof {
            lemma_int_bytes_len();
            lemma_int_bytes_injective();
        }
        proof {
            assert forall|w: MarkerData, t: Seq<u8>| #[trigger] encodes(input.bytes(), w, t) implies input.bytes() == guid_to_wire(w.reserved_1.0) + (spec_u32_to_le_bytes((w.markers@.len()) as u32) + (spec_u16_to_le_bytes(w.reserved_2) + (w.name.spec_bytes_count16() + (seq_bytes(w.markers@) + t)))) by {
                lemma_guid_value_round_trip(w.reserved_1.0);
                lemma_concat_associative(guid_to_wire(w.reserved_1.0) + spec_u32_to_le_bytes((w.markers@.len()) as u32) + spec_u16_to_le_bytes(w.reserved_2) + w.name.spec_bytes_count16(), seq_bytes(w.markers@), t);
                lemma_concat_associative(guid_to_wire(w.reserved_1.0) + spec_u32_to_le_bytes((w.markers@.len()) as u32) + spec_u16_to_le_bytes(w.reserved_2), w.name.spec_bytes_count16(), (seq_bytes(w.markers@) + t));
                lemma_concat_associative(guid_to_wire(w.reserved_1.0) + spec_u32_to_le_bytes((w.markers@.len()) as u32), spec_u16_to_le_bytes(w.reserved_2), (w.name.spec_bytes_count16() + (seq_bytes(w.markers@) + t)));
                lemma_concat_associative(guid_to_wire(w.reserved_1.0), spec_u32_to_le_bytes((w.markers@.len()) as u32), (spec_u16_to_le_bytes(w.reserved_2) + (w.name.spec_bytes_count16() + (seq_bytes(w.markers@) + t))));
            }
        }
        let (i1, reserved_1) = match guid(input) {
            Ok(x) => x,
            Err(e) => {
                proof {
                    assert forall|w: MarkerData, t: Seq<u8>| #[trigger] encodes(input.bytes(), w, t) implies false by {
                        lemma_guid_value_round_trip(w.reserved_1.0);
                    }
                }
                return Err(e);
            },
        };
        let ghost consumed1 = guid_to_wire(reserved_1.0);
        proof {
            lemma_guid_value_round_trip(reserved_1.0);
            assert forall|w: MarkerData, t: Seq<u8>| #[trigger] encodes(input.bytes(), w, t) implies guid_to_wire(reserved_1.0) == guid_to_wire(w.reserved_1.0) && i1.bytes() == spec_u32_to_le_bytes((w.markers@.len()) as u32) + (spec_u16_to_le_bytes(w.reserved_2) + (w.name.spec_bytes_count16() + (seq_bytes(w.markers@) + t))) by {
                lemma_guid_value_round_trip(w.reserved_1.0);
                lemma_cancel(input.bytes(), guid_to_wire(reserved_1.0), i1.bytes(), guid_to_wire(w.reserved_1.0), (spec_u32_to_le_bytes((w.markers@.len()) as u32) + (spec_u16_to_le_bytes(w.reserved_2) + (w.name.spec_bytes_count16() + (seq_bytes(w.markers@) + t)))));
            }
        }
        let (i2, markers_len) = match read_u32(i1) {
            Ok(x) => x,
            Err(e) => {
                proof {
                    assert forall|w: MarkerData, t: Seq<u8>| #[trigger] encodes(input.bytes(), w, t) implies false by {
                    }
                }
                return Err(e);
            },
        };
        let ghost consumed2 = consumed1 + spec_u32_to_le_bytes(markers_len);
        proof {
            lemma_splits_chain(input, consumed1, i1, spec_u32_to_le_bytes(markers_len), i2);
            assert forall|w: MarkerData, t: Seq<u8>| #[trigger] encodes(input.bytes(), w, t) implies spec_u32_to_le_bytes(markers_len) == spec_u32_to_le_bytes((w.markers@.len()) as u32) && i2.bytes() == spec_u16_to_le_bytes(w.reserved_2) + (w.name.spec_bytes_count16() + (seq_bytes(w.markers@) + t)) by {
                lemma_cancel(i1.bytes(), spec_u32_to_le_bytes(markers_len), i2.bytes(), spec_u32_to_le_bytes((w.markers@.len()) as u32), (spec_u16_to_le_bytes(w.reserved_2) + (w.name.spec_bytes_count16() + (seq_bytes(w.markers@) + t))));
            }
        }
        let (i3, reserved_2) = match read_u16(i2) {
            Ok(x) => x,
            Err(e) => {
                proof {
                    assert forall|w: MarkerData, t: Seq<u8>| #[trigger] encodes(input.bytes(), w, t) implies false by {
                    }
                }
                return Err(e);
            },
        };
        let ghost consumed3 = consumed2 + spec_u16_to_le_bytes(reserved_2);
        proof {
            lemma_splits_chain(input, consumed2, i2, spec_u16_to_le_bytes(reserved_2), i3);
            assert forall|w: MarkerData, t: Seq<u8>| #[trigger] encodes(input.bytes(), w, t) implies spec_u16_to_le_bytes(reserved_2) == spec_u16_to_le_bytes(w.reserved_2) && i3.bytes() == w.name.spec_bytes_count16() + (seq_bytes(w.markers@) + t) by {
                lemma_cancel(i2.bytes(), spec_u16_to_le_bytes(reserved_2), i3.bytes(), spec_u16_to_le_bytes(w.reserved_2), (w.name.spec_bytes_count16() + (seq_bytes(w.markers@) + t)));
            }
        }
        let (i4, name) = match WideStr::parse_count16(i3) {
            Ok(x) => x,
            Err(e) => {
                proof {
                    assert forall|w: MarkerData, t: Seq<u8>| #[trigger] encodes(input.bytes(), w, t) implies false by {
                        assert(encodes_count16(i3.bytes(), w.name, (seq_bytes(w.markers@) + t)));
                    }
                }
                return Err(e);
            },
        };
        let ghost consumed4 = consumed3 + name.spec_bytes_count16();
        proof {
            lemma_splits_chain(input, consumed3, i3, name.spec_bytes_count16(), i4);
            assert forall|w: MarkerData, t: Seq<u8>| #[trigger] encodes(input.bytes(), w, t) implies name.spec_bytes_count16() == w.name.spec_bytes_count16() && i4.bytes() == seq_bytes(w.markers@) + t by {
                assert(encodes_count16(i3.bytes(), w.name, (seq_bytes(w.markers@) + t)));
                lemma_cancel(i3.bytes(), name.spec_bytes_count16(), i4.bytes(), w.name.spec_bytes_count16(), (seq_bytes(w.markers@) + t));
            }
        }
        let (i5, markers) = match parse_count::<Marker>(i4, markers_len as usize) {
            Ok(x) => x,
            Err(e) => {
                proof {
                    assert forall|w: MarkerData, t: Seq<u8>| #[trigger] encodes(input.bytes(), w, t) implies false by {
                        assert(encodes_seq(i4.bytes(), w.markers@, t));
                    }
                }
                return Err(e);
            },
        };
        let ghost consumed5 = consumed4 + seq_bytes(markers@);
        proof {
            lemma_splits_chain(input, consumed4, i4, seq_bytes(markers@), i5);
            assert forall|w: MarkerData, t: Seq<u8>| #[trigger] encodes(input.bytes(), w, t) implies seq_bytes(markers@) == seq_bytes(w.markers@) && i5.bytes() == t by {
                assert(encodes_seq(i4.bytes(), w.markers@, t));
                lemma_cancel(i4.bytes(), seq_bytes(markers@), i5.bytes(), seq_bytes(w.markers@), t);
            }
        }
        let v = MarkerData { reserved_1, reserved_2, name, markers };
        proof {
            assert forall|w: MarkerData, t: Seq<u8>| #[trigger] encodes(input.bytes(), w, t) implies v.spec_bytes() == w.spec_bytes() by {
            }
        }
        Ok((i5, v))
    }
}

impl<'a> Parse<'a> for MarkerData {
    fn parse(input: Span<'a>) -> (r: Result<(Span<'a>, MarkerData), Error>) {
        Self::parse(input)
    }
}

} // verus!
