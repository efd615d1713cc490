use vstd::prelude::*;
use vstd::bytes::*;
use vstd::seq_lib::lemma_concat_associative;

use crate::error::{Error, ErrorKind, WriteError};
use crate::span::{lemma_splits_chain, Span};
use crate::guid::{guid, guid_to_wire, lemma_guid_value_round_trip, write_guid, Guid};
use crate::wire::{parsed, encodes, lemma_cancel, lemma_int_bytes_injective, lemma_int_bytes_len, read_u32, read_u64, write_u32, write_u64, Parse, Wire};

verus! {

/// The file properties object.
#[derive(Debug, PartialEq, Eq)]
pub struct FilePropertiesData {
    pub file_id: Guid,
    pub file_size: u64,
    pub creation_date: u64,
    pub data_packets_count: u64,
    pub play_duration: u64,
    pub send_duration: u64,
    pub preroll: u64,
    pub flags: u32,
    pub minimum_data_packet_size: u32,
    pub maximum_data_packet_size: u32,
    pub maximum_bitrate: u32,
}

impl FilePropertiesData {
    /// The number of bytes `write` emits, computed without writing.
    pub fn size_of(&self) -> (r: usize)
        requires
            self.spec_bytes().len() <= usize::MAX,
        ensures
            r == self.spec_bytes().len(),
    {
        proof {
            lemma_int_bytes_len();
            lemma_guid_value_round_trip(self.file_id.0);
        }
        let mut n: usize = 0;
        n = n + 16;
        n = n + 8;
        n = n + 8;
        n = n + 8;
        n = n + 8;
        n = n + 8;
        n = n + 8;
        n = n + 4;
        n = n + 4;
        n = n + 4;
        n = n + 4;
        n
    }

    /// Appends the wire form to `w`; fails when a length overflows its prefix.
    pub fn write(&self, w: &mut Vec<u8>) -> (r: Result<(), WriteError>)
        requires
            self.spec_bytes().len() <= usize::MAX,
        ensures
            r is Ok <==> self.writable(),
            r is Ok ==> final(w)@ == old(w)@ + self.spec_bytes(),
    {
        proof {
            lemma_int_bytes_len();
            lemma_guid_value_round_trip(self.file_id.0);
        }
        write_guid(w, self.file_id);
        write_u64(w, self.file_size);
        proof {
            lemma_concat_associative(old(w)@, guid_to_wire(self.file_id.0), spec_u64_to_le_bytes(self.file_size));
        }
        write_u64(w, self.creation_date);
        proof {
            lemma_concat_associative(old(w)@, guid_to_wire(self.file_id.0) + spec_u64_to_le_bytes(self.file_size), spec_u64_to_le_bytes(self.creation_date));
        }
        write_u64(w, self.data_packets_count);
        proof {
            lemma_concat_associative(old(w)@, guid_to_wire(self.file_id.0) + spec_u64_to_le_bytes(self.file_size) + spec_u64_to_le_bytes(self.creation_date), spec_u64_to_le_bytes(self.data_packets_count));
        }
        write_u64(w, self.play_duration);
        proof {
            lemma_concat_associative(old(w)@, guid_to_wire(self.file_id.0) + spec_u64_to_le_bytes(self.file_size) + spec_u64_to_le_bytes(self.creation_date) + spec_u64_to_le_bytes(self.data_packets_count), spec_u64_to_le_bytes(self.play_duration));
        }
        write_u64(w, self.send_duration);
        proof {
            lemma_concat_associative(old(w)@, guid_to_wire(self.file_id.0) + spec_u64_to_le_bytes(self.file_size) + spec_u64_to_le_bytes(self.creation_date) + spec_u64_to_le_bytes(self.data_packets_count) + spec_u64_to_le_bytes(self.play_duration), spec_u64_to_le_bytes(self.send_duration));
        }
        write_u64(w, self.preroll);
        proof {
            lemma_concat_associative(old(w)@, guid_to_wire(self.file_id.0) + spec_u64_to_le_bytes(self.file_size) + spec_u64_to_le_bytes(self.creation_date) + spec_u64_to_le_bytes(self.data_packets_count) + spec_u64_to_le_bytes(self.play_duration) + spec_u64_to_le_bytes(self.send_duration), spec_u64_to_le_bytes(self.preroll));
        }
        write_u32(w, self.flags);
        proof {
            lemma_concat_associative(old(w)@, guid_to_wire(self.file_id.0) + spec_u64_to_le_bytes(self.file_size) + spec_u64_to_le_bytes(self.creation_date) + spec_u64_to_le_bytes(self.data_packets_count) + spec_u64_to_le_bytes(self.play_duration) + spec_u64_to_le_bytes(self.send_duration) + spec_u64_to_le_bytes(self.preroll), spec_u32_to_le_bytes(self.flags));
        }
        write_u32(w, self.minimum_data_packet_size);
        proof {
            lemma_concat_associative(old(w)@, guid_to_wire(self.file_id.0) + spec_u64_to_le_bytes(self.file_size) + spec_u64_to_le_bytes(self.creation_date) + spec_u64_to_le_bytes(self.data_packets_count) + spec_u64_to_le_bytes(self.play_duration) + spec_u64_to_le_bytes(self.send_duration) + spec_u64_to_le_bytes(self.preroll) + spec_u32_to_le_bytes(self.flags), spec_u32_to_le_bytes(self.minimum_data_packet_size));
        }
        write_u32(w, self.maximum_data_packet_size);
        proof {
            lemma_concat_associative(old(w)@, guid_to_wire(self.file_id.0) + spec_u64_to_le_bytes(self.file_size) + spec_u64_to_le_bytes(self.creation_date) + spec_u64_to_le_bytes(self.data_packets_count) + spec_u64_to_le_bytes(self.play_duration) + spec_u64_to_le_bytes(self.send_duration) + spec_u64_to_le_bytes(self.preroll) + spec_u32_to_le_bytes(self.flags) + spec_u32_to_le_bytes(self.minimum_data_packet_size), spec_u32_to_le_bytes(self.maximum_data_packet_size));
        }
        write_u32(w, self.maximum_bitrate);
        proof {
            lemma_concat_associative(old(w)@, guid_to_wire(self.file_id.0) + spec_u64_to_le_bytes(self.file_size) + spec_u64_to_le_bytes(self.creation_date) + spec_u64_to_le_bytes(self.data_packets_count) + spec_u64_to_le_bytes(self.play_duration) + spec_u64_to_le_bytes(self.send_duration) + spec_u64_to_le_bytes(self.preroll) + spec_u32_to_le_bytes(self.flags) + spec_u32_to_le_bytes(self.minimum_data_packet_size) + spec_u32_to_le_bytes(self.maximum_data_packet_size), spec_u32_to_le_bytes(self.maximum_bitrate));
        }
        Ok(())
    }
}

impl Wire for FilePropertiesData {
    open spec fn spec_bytes(&self) -> Seq<u8> {
        guid_to_wire(self.file_id.0)
            + spec_u64_to_le_bytes(self.file_size)
            + spec_u64_to_le_bytes(self.creation_date)
            + spec_u64_to_le_bytes(self.data_packets_count)
            + spec_u64_to_le_bytes(self.play_duration)
            + spec_u64_to_le_bytes(self.send_duration)
            + spec_u64_to_le_bytes(self.preroll)
            + spec_u32_to_le_bytes(self.flags)
            + spec_u32_to_le_bytes(self.minimum_data_packet_size)
            + spec_u32_to_le_bytes(self.maximum_data_packet_size)
            + spec_u32_to_le_bytes(self.maximum_bitrate)
    }

    open spec fn writable(&self) -> bool {
        true
    }

    fn size_of(&self) -> (r: usize) {
        Self::size_of(self)
    }

    fn write(&self, w: &mut Vec<u8>) -> (r: Result<(), WriteError>) {
        Self::write(self, w)
    }
}

impl FilePropertiesData {
    /// Decodes one value; the bytes consumed are exactly what `write` emits for it.
    pub fn parse<'a>(input: Span<'a>) -> (r: Result<(Span<'a>, FilePropertiesData), Error>)
        ensures
            r is Ok <==> 80 <= input.bytes().len(),
            r matches Ok((rest, v)) ==> parsed(input, v, rest),
            r matches Err(e) ==> e.kind == ErrorKind::Eof,
            forall|w: Self, t: Seq<u8>| #[trigger] encodes(input.bytes(), w, t)
                ==> (r matches Ok((rest, v)) && v.spec_bytes() == w.spec_bytes()),
    {
        proof {
            lemma_int_bytes_len();
            lemma_int_bytes_injective();
        }
        proof {
            assert forall|w: FilePropertiesData, t: Seq<u8>| #[trigger] encodes(input.bytes(), w, t) implies input.bytes() == guid_to_wire(w.file_id.0) + (spec_u64_to_le_bytes(w.file_size) + (spec_u64_to_le_bytes(w.creation_date) + (spec_u64_to_le_bytes(w.data_packets_count) + (spec_u64_to_le_bytes(w.play_duration) + (spec_u64_to_le_bytes(w.send_duration) + (spec_u64_to_le_bytes(w.preroll) + (spec_u32_to_le_bytes(w.flags) + (spec_u32_to_le_bytes(w.minimum_data_packet_size) + (spec_u32_to_le_bytes(w.maximum_data_packet_size) + (spec_u32_to_le_bytes(w.maximum_bitrate) + t)))))))))) by {
                lemma_guid_value_round_trip(w.file_id.0);
                lemma_concat_associative(guid_to_wire(w.file_id.0) + spec_u64_to_le_bytes(w.file_size) + spec_u64_to_le_bytes(w.creation_date) + spec_u64_to_le_bytes(w.data_packets_count) + spec_u64_to_le_bytes(w.play_duration) + spec_u64_to_le_bytes(w.send_duration) + spec_u64_to_le_bytes(w.preroll) + spec_u32_to_le_bytes(w.flags) + spec_u32_to_le_bytes(w.minimum_data_packet_size) + spec_u32_to_le_bytes(w.maximum_data_packet_size), spec_u32_to_le_bytes(w.maximum_bitrate), t);
                lemma_concat_associative(guid_to_wire(w.file_id.0) + spec_u64_to_le_bytes(w.file_size) + spec_u64_to_le_bytes(w.creation_date) + spec_u64_to_le_bytes(w.data_packets_count) + spec_u64_to_le_bytes(w.play_duration) + spec_u64_to_le_bytes(w.send_duration) + spec_u64_to_le_bytes(w.preroll) + spec_u32_to_le_bytes(w.flags) + spec_u32_to_le_bytes(w.minimum_data_packet_size), spec_u32_to_le_bytes(w.maximum_data_packet_size), (spec_u32_to_le_bytes(w.maximum_bitrate) + t));
                lemma_concat_associative(guid_to_wire(w.file_id.0) + spec_u64_to_le_bytes(w.file_size) + spec_u64_to_le_bytes(w.creation_date) + spec_u64_to_le_bytes(w.data_packets_count) + spec_u64_to_le_bytes(w.play_duration) + spec_u64_to_le_bytes(w.send_duration) + spec_u64_to_le_bytes(w.preroll) + spec_u32_to_le_bytes(w.flags), spec_u32_to_le_bytes(w.minimum_data_packet_size), (spec_u32_to_le_bytes(w.maximum_data_packet_size) + (spec_u32_to_le_bytes(w.maximum_bitrate) + t)));
                lemma_concat_associative(guid_to_wire(w.file_id.0) + spec_u64_to_le_bytes(w.file_size) + spec_u64_to_le_bytes(w.creation_date) + spec_u64_to_le_bytes(w.data_packets_count) + spec_u64_to_le_bytes(w.play_duration) + spec_u64_to_le_bytes(w.send_duration) + spec_u64_to_le_bytes(w.preroll), spec_u32_to_le_bytes(w.flags), (spec_u32_to_le_bytes(w.minimum_data_packet_size) + (spec_u32_to_le_bytes(w.maximum_data_packet_size) + (spec_u32_to_le_bytes(w.maximum_bitrate) + t))));
                lemma_concat_associative(guid_to_wire(w.file_id.0) + spec_u64_to_le_bytes(w.file_size) + spec_u64_to_le_bytes(w.creation_date) + spec_u64_to_le_bytes(w.data_packets_count) + spec_u64_to_le_bytes(w.play_duration) + spec_u64_to_le_bytes(w.send_duration), spec_u64_to_le_bytes(w.preroll), (spec_u32_to_le_bytes(w.flags) + (spec_u32_to_le_bytes(w.minimum_data_packet_size) + (spec_u32_to_le_bytes(w.maximum_data_packet_size) + (spec_u32_to_le_bytes(w.maximum_bitrate) + t)))));
                lemma_concat_associative(guid_to_wire(w.file_id.0) + spec_u64_to_le_bytes(w.file_size) + spec_u64_to_le_bytes(w.creation_date) + spec_u64_to_le_bytes(w.data_packets_count) + spec_u64_to_le_bytes(w.play_duration), spec_u64_to_le_bytes(w.send_duration), (spec_u64_to_le_bytes(w.preroll) + (spec_u32_to_le_bytes(w.flags) + (spec_u32_to_le_bytes(w.minimum_data_packet_size) + (spec_u32_to_le_bytes(w.maximum_data_packet_size) + (spec_u32_to_le_bytes(w.maximum_bitrate) + t))))));
                lemma_concat_associative(guid_to_wire(w.file_id.0) + spec_u64_to_le_bytes(w.file_size) + spec_u64_to_le_bytes(w.creation_date) + spec_u64_to_le_bytes(w.data_packets_count), spec_u64_to_le_bytes(w.play_duration), (spec_u64_to_le_bytes(w.send_duration) + (spec_u64_to_le_bytes(w.preroll) + (spec_u32_to_le_bytes(w.flags) + (spec_u32_to_le_bytes(w.minimum_data_packet_size) + (spec_u32_to_le_bytes(w.maximum_data_packet_size) + (spec_u32_to_le_bytes(w.maximum_bitrate) + t)))))));
                lemma_concat_associative(guid_to_wire(w.file_id.0) + spec_u64_to_le_bytes(w.file_size) + spec_u64_to_le_bytes(w.creation_date), spec_u64_to_le_bytes(w.data_packets_count), (spec_u64_to_le_bytes(w.play_duration) + (spec_u64_to_le_bytes(w.send_duration) + (spec_u64_to_le_bytes(w.preroll) + (spec_u32_to_le_bytes(w.flags) + (spec_u32_to_le_bytes(w.minimum_data_packet_size) + (spec_u32_to_le_bytes(w.maximum_data_packet_size) + (spec_u32_to_le_bytes(w.maximum_bitrate) + t))))))));
                lemma_concat_associative(guid_to_wire(w.file_id.0) + spec_u64_to_le_bytes(w.file_size), spec_u64_to_le_bytes(w.creation_date), (spec_u64_to_le_bytes(w.data_packets_count) + (spec_u64_to_le_bytes(w.play_duration) + (spec_u64_to_le_bytes(w.send_duration) + (spec_u64_to_le_bytes(w.preroll) + (spec_u32_to_le_bytes(w.flags) + (spec_u32_to_le_bytes(w.minimum_data_packet_size) + (spec_u32_to_le_bytes(w.maximum_data_packet_size) + (spec_u32_to_le_bytes(w.maximum_bitrate) + t)))))))));
                lemma_concat_associative(guid_to_wire(w.file_id.0), spec_u64_to_le_bytes(w.file_size), (spec_u64_to_le_bytes(w.creation_date) + (spec_u64_to_le_bytes(w.data_packets_count) + (spec_u64_to_le_bytes(w.play_duration) + (spec_u64_to_le_bytes(w.send_duration) + (spec_u64_to_le_bytes(w.preroll) + (spec_u32_to_le_bytes(w.flags) + (spec_u32_to_le_bytes(w.minimum_data_packet_size) + (spec_u32_to_le_bytes(w.maximum_data_packet_size) + (spec_u32_to_le_bytes(w.maximum_bitrate) + t))))))))));
            }
        }
        let (i1, file_id) = match guid(input) {
            Ok(x) => x,
            Err(e) => {
                proof {
                    assert forall|w: FilePropertiesData, t: Seq<u8>| #[trigger] encodes(input.bytes(), w, t) implies false by {
                        lemma_guid_value_round_trip(w.file_id.0);
                    }
                }
                return Err(e);
            },
        };
        let ghost consumed1 = guid_to_wire(file_id.0);
        proof {
            lemma_guid_value_round_trip(file_id.0);
            assert forall|w: FilePropertiesData, t: Seq<u8>| #[trigger] encodes(input.bytes(), w, t) implies guid_to_wire(file_id.0) == guid_to_wire(w.file_id.0) && i1.bytes() == spec_u64_to_le_bytes(w.file_size) + (spec_u64_to_le_bytes(w.creation_date) + (spec_u64_to_le_bytes(w.data_packets_count) + (spec_u64_to_le_bytes(w.play_duration) + (spec_u64_to_le_bytes(w.send_duration) + (spec_u64_to_le_bytes(w.preroll) + (spec_u32_to_le_bytes(w.flags) + (spec_u32_to_le_bytes(w.minimum_data_packet_size) + (spec_u32_to_le_bytes(w.maximum_data_packet_size) + (spec_u32_to_le_bytes(w.maximum_bitrate) + t))))))))) by {
                lemma_guid_value_round_trip(w.file_id.0);
                lemma_cancel(input.bytes(), guid_to_wire(file_id.0), i1.bytes(), guid_to_wire(w.file_id.0), (spec_u64_to_le_bytes(w.file_size) + (spec_u64_to_le_bytes(w.creation_date) + (spec_u64_to_le_bytes(w.data_packets_count) + (spec_u64_to_le_bytes(w.play_duration) + (spec_u64_to_le_bytes(w.send_duration) + (spec_u64_to_le_bytes(w.preroll) + (spec_u32_to_le_bytes(w.flags) + (spec_u32_to_le_bytes(w.minimum_data_packet_size) + (spec_u32_to_le_bytes(w.maximum_data_packet_size) + (spec_u32_to_le_bytes(w.maximum_bitrate) + t)))))))))));
            }
        }
        let (i2, file_size) = match read_u64(i1) {
            Ok(x) => x,
            Err(e) => {
                proof {
                    assert forall|w: FilePropertiesData, t: Seq<u8>| #[trigger] encodes(input.bytes(), w, t) implies false by {
                    }
                }
                return Err(e);
            },
        };
        let ghost consumed2 = consumed1 + spec_u64_to_le_bytes(file_size);
        proof {
            lemma_splits_chain(input, consumed1, i1, spec_u64_to_le_bytes(file_size), i2);
            assert forall|w: FilePropertiesData, t: Seq<u8>| #[trigger] encodes(input.bytes(), w, t) implies spec_u64_to_le_bytes(file_size) == spec_u64_to_le_bytes(w.file_size) && i2.bytes() == spec_u64_to_le_bytes(w.creation_date) + (spec_u64_to_le_bytes(w.data_packets_count) + (spec_u64_to_le_bytes(w.play_duration) + (spec_u64_to_le_bytes(w.send_duration) + (spec_u64_to_le_bytes(w.preroll) + (spec_u32_to_le_bytes(w.flags) + (spec_u32_to_le_bytes(w.minimum_data_packet_size) + (spec_u32_to_le_bytes(w.maximum_data_packet_size) + (spec_u32_to_le_bytes(w.maximum_bitrate) + t)))))))) by {
                lemma_cancel(i1.bytes(), spec_u64_to_le_bytes(file_size), i2.bytes(), spec_u64_to_le_bytes(w.file_size), (spec_u64_to_le_bytes(w.creation_date) + (spec_u64_to_le_bytes(w.data_packets_count) + (spec_u64_to_le_bytes(w.play_duration) + (spec_u64_to_le_bytes(w.send_duration) + (spec_u64_to_le_bytes(w.preroll) + (spec_u32_to_le_bytes(w.flags) + (spec_u32_to_le_bytes(w.minimum_data_packet_size) + (spec_u32_to_le_bytes(w.maximum_data_packet_size) + (spec_u32_to_le_bytes(w.maximum_bitrate) + t))))))))));
            }
        }
        let (i3, creation_date) = match read_u64(i2) {
            Ok(x) => x,
            Err(e) => {
                proof {
                    assert forall|w: FilePropertiesData, t: Seq<u8>| #[trigger] encodes(input.bytes(), w, t) implies false by {
                    }
                }
                return Err(e);
            },
        };
        let ghost consumed3 = consumed2 + spec_u64_to_le_bytes(creation_date);
        proof {
            lemma_splits_chain(input, consumed2, i2, spec_u64_to_le_bytes(creation_date), i3);
            assert forall|w: FilePropertiesData, t: Seq<u8>| #[trigger] encodes(input.bytes(), w, t) implies spec_u64_to_le_bytes(creation_date) == spec_u64_to_le_bytes(w.creation_date) && i3.bytes() == spec_u64_to_le_bytes(w.data_packets_count) + (spec_u64_to_le_bytes(w.play_duration) + (spec_u64_to_le_bytes(w.send_duration) + (spec_u64_to_le_bytes(w.preroll) + (spec_u32_to_le_bytes(w.flags) + (spec_u32_to_le_bytes(w.minimum_data_packet_size) + (spec_u32_to_le_bytes(w.maximum_data_packet_size) + (spec_u32_to_le_bytes(w.maximum_bitrate) + t))))))) by {
                lemma_cancel(i2.bytes(), spec_u64_to_le_bytes(creation_date), i3.bytes(), spec_u64_to_le_bytes(w.creation_date), (spec_u64_to_le_bytes(w.data_packets_count) + (spec_u64_to_le_bytes(w.play_duration) + (spec_u64_to_le_bytes(w.send_duration) + (spec_u64_to_le_bytes(w.preroll) + (spec_u32_to_le_bytes(w.flags) + (spec_u32_to_le_bytes(w.minimum_data_packet_size) + (spec_u32_to_le_bytes(w.maximum_data_packet_size) + (spec_u32_to_le_bytes(w.maximum_bitrate) + t)))))))));
            }
        }
        let (i4, data_packets_count) = match read_u64(i3) {
            Ok(x) => x,
            Err(e) => {
                proof {
                    assert forall|w: FilePropertiesData, t: Seq<u8>| #[trigger] encodes(input.bytes(), w, t) implies false by {
                    }
                }
                return Err(e);
            },
        };
        let ghost consumed4 = consumed3 + spec_u64_to_le_bytes(data_packets_count);
        proof {
            lemma_splits_chain(input, consumed3, i3, spec_u64_to_le_bytes(data_packets_count), i4);
            assert forall|w: FilePropertiesData, t: Seq<u8>| #[trigger] encodes(input.bytes(), w, t) implies spec_u64_to_le_bytes(data_packets_count) == spec_u64_to_le_bytes(w.data_packets_count) && i4.bytes() == spec_u64_to_le_bytes(w.play_duration) + (spec_u64_to_le_bytes(w.send_duration) + (spec_u64_to_le_bytes(w.preroll) + (spec_u32_to_le_bytes(w.flags) + (spec_u32_to_le_bytes(w.minimum_data_packet_size) + (spec_u32_to_le_bytes(w.maximum_data_packet_size) + (spec_u32_to_le_bytes(w.maximum_bitrate) + t)))))) by {
                lemma_cancel(i3.bytes(), spec_u64_to_le_bytes(data_packets_count), i4.bytes(), spec_u64_to_le_bytes(w.data_packets_count), (spec_u64_to_le_bytes(w.play_duration) + (spec_u64_to_le_bytes(w.send_duration) + (spec_u64_to_le_bytes(w.preroll) + (spec_u32_to_le_bytes(w.flags) + (spec_u32_to_le_bytes(w.minimum_data_packet_size) + (spec_u32_to_le_bytes(w.maximum_data_packet_size) + (spec_u32_to_le_bytes(w.maximum_bitrate) + t))))))));
            }
        }
        let (i5, play_duration) = match read_u64(i4) {
            Ok(x) => x,
            Err(e) => {
                proof {
                    assert forall|w: FilePropertiesData, t: Seq<u8>| #[trigger] encodes(input.bytes(), w, t) implies false by {
                    }
                }
                return Err(e);
            },
        };
        let ghost consumed5 = consumed4 + spec_u64_to_le_bytes(play_duration);
        proof {
            lemma_splits_chain(input, consumed4, i4, spec_u64_to_le_bytes(play_duration), i5);
            assert forall|w: FilePropertiesData, t: Seq<u8>| #[trigger] encodes(input.bytes(), w, t) implies spec_u64_to_le_bytes(play_duration) == spec_u64_to_le_bytes(w.play_duration) && i5.bytes() == spec_u64_to_le_bytes(w.send_duration) + (spec_u64_to_le_bytes(w.preroll) + (spec_u32_to_le_bytes(w.flags) + (spec_u32_to_le_bytes(w.minimum_data_packet_size) + (spec_u32_to_le_bytes(w.maximum_data_packet_size) + (spec_u32_to_le_bytes(w.maximum_bitrate) + t))))) by {
                lemma_cancel(i4.bytes(), spec_u64_to_le_bytes(play_duration), i5.bytes(), spec_u64_to_le_bytes(w.play_duration), (spec_u64_to_le_bytes(w.send_duration) + (spec_u64_to_le_bytes(w.preroll) + (spec_u32_to_le_bytes(w.flags) + (spec_u32_to_le_bytes(w.minimum_data_packet_size) + (spec_u32_to_le_bytes(w.maximum_data_packet_size) + (spec_u32_to_le_bytes(w.maximum_bitrate) + t)))))));
            }
        }
        let (i6, send_duration) = match read_u64(i5) {
            Ok(x) => x,
            Err(e) => {
                proof {
                    assert forall|w: FilePropertiesData, t: Seq<u8>| #[trigger] encodes(input.bytes(), w, t) implies false by {
                    }
                }
                return Err(e);
            },
        };
        let ghost consumed6 = consumed5 + spec_u64_to_le_bytes(send_duration);
        proof {
            lemma_splits_chain(input, consumed5, i5, spec_u64_to_le_bytes(send_duration), i6);
            assert forall|w: FilePropertiesData, t: Seq<u8>| #[trigger] encodes(input.bytes(), w, t) implies spec_u64_to_le_bytes(send_duration) == spec_u64_to_le_bytes(w.send_duration) && i6.bytes() == spec_u64_to_le_bytes(w.preroll) + (spec_u32_to_le_bytes(w.flags) + (spec_u32_to_le_bytes(w.minimum_data_packet_size) + (spec_u32_to_le_bytes(w.maximum_data_packet_size) + (spec_u32_to_le_bytes(w.maximum_bitrate) + t)))) by {
                lemma_cancel(i5.bytes(), spec_u64_to_le_bytes(send_duration), i6.bytes(), spec_u64_to_le_bytes(w.send_duration), (spec_u64_to_le_bytes(w.preroll) + (spec_u32_to_le_bytes(w.flags) + (spec_u32_to_le_bytes(w.minimum_data_packet_size) + (spec_u32_to_le_bytes(w.maximum_data_packet_size) + (spec_u32_to_le_bytes(w.maximum_bitrate) + t))))));
            }
        }
        let (i7, preroll) = match read_u64(i6) {
            Ok(x) => x,
            Err(e) => {
                proof {
                    assert forall|w: FilePropertiesData, t: Seq<u8>| #[trigger] encodes(input.bytes(), w, t) implies false by {
                    }
                }
                return Err(e);
            },
        };
        let ghost consumed7 = consumed6 + spec_u64_to_le_bytes(preroll);
        proof {
            lemma_splits_chain(input, consumed6, i6, spec_u64_to_le_bytes(preroll), i7);
            assert forall|w: FilePropertiesData, t: Seq<u8>| #[trigger] encodes(input.bytes(), w, t) implies spec_u64_to_le_bytes(preroll) == spec_u64_to_le_bytes(w.preroll) && i7.bytes() == spec_u32_to_le_bytes(w.flags) + (spec_u32_to_le_bytes(w.minimum_data_packet_size) + (spec_u32_to_le_bytes(w.maximum_data_packet_size) + (spec_u32_to_le_bytes(w.maximum_bitrate) + t))) by {
                lemma_cancel(i6.bytes(), spec_u64_to_le_bytes(preroll), i7.bytes(), spec_u64_to_le_bytes(w.preroll), (spec_u32_to_le_bytes(w.flags) + (spec_u32_to_le_bytes(w.minimum_data_packet_size) + (spec_u32_to_le_bytes(w.maximum_data_packet_size) + (spec_u32_to_le_bytes(w.maximum_bitrate) + t)))));
            }
        }
        let (i8, flags) = match read_u32(i7) {
            Ok(x) => x,
            Err(e) => {
                proof {
                    assert forall|w: FilePropertiesData, t: Seq<u8>| #[trigger] encodes(input.bytes(), w, t) implies false by {
                    }
                }
                return Err(e);
            },
        };
        let ghost consumed8 = consumed7 + spec_u32_to_le_bytes(flags);
        proof {
            lemma_splits_chain(input, consumed7, i7, spec_u32_to_le_bytes(flags), i8);
            assert forall|w: FilePropertiesData, t: Seq<u8>| #[trigger] encodes(input.bytes(), w, t) implies spec_u32_to_le_bytes(flags) == spec_u32_to_le_bytes(w.flags) && i8.bytes() == spec_u32_to_le_bytes(w.minimum_data_packet_size) + (spec_u32_to_le_bytes(w.maximum_data_packet_size) + (spec_u32_to_le_bytes(w.maximum_bitrate) + t)) by {
                lemma_cancel(i7.bytes(), spec_u32_to_le_bytes(flags), i8.bytes(), spec_u32_to_le_bytes(w.flags), (spec_u32_to_le_bytes(w.minimum_data_packet_size) + (spec_u32_to_le_bytes(w.maximum_data_packet_size) + (spec_u32_to_le_bytes(w.maximum_bitrate) + t))));
            }
        }
        let (i9, minimum_data_packet_size) = match read_u32(i8) {
            Ok(x) => x,
            Err(e) => {
                proof {
                    assert forall|w: FilePropertiesData, t: Seq<u8>| #[trigger] encodes(input.bytes(), w, t) implies false by {
                    }
                }
                return Err(e);
            },
        };
        let ghost consumed9 = consumed8 + spec_u32_to_le_bytes(minimum_data_packet_size);
        proof {
            lemma_splits_chain(input, consumed8, i8, spec_u32_to_le_bytes(minimum_data_packet_size), i9);
            assert forall|w: FilePropertiesData, t: Seq<u8>| #[trigger] encodes(input.bytes(), w, t) implies spec_u32_to_le_bytes(minimum_data_packet_size) == spec_u32_to_le_bytes(w.minimum_data_packet_size) && i9.bytes() == spec_u32_to_le_bytes(w.maximum_data_packet_size) + (spec_u32_to_le_bytes(w.maximum_bitrate) + t) by {
                lemma_cancel(i8.bytes(), spec_u32_to_le_bytes(minimum_data_packet_size), i9.bytes(), spec_u32_to_le_bytes(w.minimum_data_packet_size), (spec_u32_to_le_bytes(w.maximum_data_packet_size) + (spec_u32_to_le_bytes(w.maximum_bitrate) + t)));
            }
        }
        let (i10, maximum_data_packet_size) = match read_u32(i9) {
            Ok(x) => x,
            Err(e) => {
                proof {
                    assert forall|w: FilePropertiesData, t: Seq<u8>| #[trigger] encodes(input.bytes(), w, t) implies false by {
                    }
                }
                return Err(e);
            },
        };
        let ghost consumed10 = consumed9 + spec_u32_to_le_bytes(maximum_data_packet_size);
        proof {
            lemma_splits_chain(input, consumed9, i9, spec_u32_to_le_bytes(maximum_data_packet_size), i10);
            assert forall|w: FilePropertiesData, t: Seq<u8>| #[trigger] encodes(input.bytes(), w, t) implies spec_u32_to_le_bytes(maximum_data_packet_size) == spec_u32_to_le_bytes(w.maximum_data_packet_size) && i10.bytes() == spec_u32_to_le_bytes(w.maximum_bitrate) + t by {
                lemma_cancel(i9.bytes(), spec_u32_to_le_bytes(maximum_data_packet_size), i10.bytes(), spec_u32_to_le_bytes(w.maximum_data_packet_size), (spec_u32_to_le_bytes(w.maximum_bitrate) + t));
            }
        }
        let (i11, maximum_bitrate) = match read_u32(i10) {
            Ok(x) => x,
            Err(e) => {
                proof {
                    assert forall|w: FilePropertiesData, t: Seq<u8>| #[trigger] encodes(input.bytes(), w, t) implies false by {
                    }
                }
                return Err(e);
            },
        };
        let ghost consumed11 = consumed10 + spec_u32_to_le_bytes(maximum_bitrate);
        proof {
            lemma_splits_chain(input, consumed10, i10, spec_u32_to_le_bytes(maximum_bitrate), i11);
            assert forall|w: FilePropertiesData, t: Seq<u8>| #[trigger] encodes(input.bytes(), w, t) implies spec_u32_to_le_bytes(maximum_bitrate) == spec_u32_to_le_bytes(w.maximum_bitrate) && i11.bytes() == t by {
                lemma_cancel(i10.bytes(), spec_u32_to_le_bytes(maximum_bitrate), i11.bytes(), spec_u32_to_le_bytes(w.maximum_bitrate), t);
            }
        }
        let v = FilePropertiesData { file_id, file_size, creation_date, data_packets_count, play_duration, send_duration, preroll, flags, minimum_data_packet_size, maximum_data_packet_size, maximum_bitrate };
        proof {
            assert forall|w: FilePropertiesData, t: Seq<u8>| #[trigger] encodes(input.bytes(), w, t) implies v.spec_bytes() == w.spec_bytes() by {
            }
        }
        Ok((i11, v))
    }
}

impl<'a> Parse<'a> for FilePropertiesData {
    fn parse(input: Span<'a>) -> (r: Result<(Span<'a>, FilePropertiesData), Error>) {
        Self::parse(input)
    }
}

} // verus!
