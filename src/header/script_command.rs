use vstd::prelude::*;
use vstd::bytes::*;
use vstd::seq_lib::lemma_concat_associative;

use crate::error::{Error, ErrorKind, WriteError};
use crate::span::{lemma_splits_chain, Span};
use crate::guid::{guid, guid_to_wire, lemma_guid_value_round_trip, write_guid, Guid};
use crate::wire::{parsed, all_writable, encodes_seq, encodes, lemma_cancel, lemma_int_bytes_injective, lemma_int_bytes_len, parse_count, read_u16, read_u32, seq_bytes, size_of_seq, write_seq, write_u16, write_u32, Parse, Wire};
use crate::widestr::{encodes_count16, encodes_wide16_list, WideStr, parse_wide16_list, size_of_wide16_list, wide16_list_bytes, wide16_list_writable, write_wide16_list};

verus! {

/// One script command: its time, the index of its type, and its name.
#[derive(Debug, PartialEq, Eq)]
pub struct Command {
    pub presentation_time: u32,
    pub type_index: u16,
    pub command_name: WideStr,
}

impl Command {
    /// The number of bytes `write` emits, computed without writing.
    pub fn size_of(&self) -> (r: usize)
        requires
            self.spec_bytes().len() <= usize::MAX,
        ensures
            r == self.spec_bytes().len(),
    {
        proof {
            lemma_int_bytes_len();
        }
        let mut n: usize = 0;
        n = n + 4;
        n = n + 2;
        n = n + self.command_name.size_of_count16();
        n
    }

    /// Appends the wire form to `w`; fails when a length overflows its prefix.
    pub fn write(&self, w: &mut Vec<u8>) -> (r: Result<(), WriteError>)
        requires
            self.spec_bytes().len() <= usize::MAX,
        ensures
            r is Ok <==> self.writable(),
            r is Ok ==> final(w)@ == old(w)@ + self.spec_bytes(),
    {
        proof {
            lemma_int_bytes_len();
        }
        write_u32(w, self.presentation_time);
        write_u16(w, self.type_index);
        proof {
            lemma_concat_associative(old(w)@, spec_u32_to_le_bytes(self.presentation_time), spec_u16_to_le_bytes(self.type_index));
        }
        self.command_name.write_count16(w)?;
        proof {
            lemma_concat_associative(old(w)@, spec_u32_to_le_bytes(self.presentation_time) + spec_u16_to_le_bytes(self.type_index), self.command_name.spec_bytes_count16());
        }
        Ok(())
    }
}

impl Wire for Command {
    open spec fn spec_bytes(&self) -> Seq<u8> {
        spec_u32_to_le_bytes(self.presentation_time)
            + spec_u16_to_le_bytes(self.type_index)
            + self.command_name.spec_bytes_count16()
    }

    open spec fn writable(&self) -> bool {
        self.command_name.writable_count16()
    }

    fn size_of(&self) -> (r: usize) {
        Self::size_of(self)
    }

    fn write(&self, w: &mut Vec<u8>) -> (r: Result<(), WriteError>) {
        Self::write(self, w)
    }
}

impl Command {
    /// Decodes one value; the bytes consumed are exactly what `write` emits for it.
    pub fn parse<'a>(input: Span<'a>) -> (r: Result<(Span<'a>, Command), Error>)
        ensures
            r matches Ok((rest, v)) ==> parsed(input, v, rest),
            r matches Err(e) ==> e.kind == ErrorKind::Eof,
            forall|w: Self, t: Seq<u8>| #[trigger] encodes(input.bytes(), w, t)
                ==> (r matches Ok((rest, v)) && v.spec_bytes() == w.spec_bytes()),
    {
        proof {
            lemma_int_bytes_len();
            lemma_int_bytes_injective();
        }
        proof {
            assert forall|w: Command, t: Seq<u8>| #[trigger] encodes(input.bytes(), w, t) implies input.bytes() == spec_u32_to_le_bytes(w.presentation_time) + (spec_u16_to_le_bytes(w.type_index) + (w.command_name.spec_bytes_count16() + t)) by {
                lemma_concat_associative(spec_u32_to_le_bytes(w.presentation_time) + spec_u16_to_le_bytes(w.type_index), w.command_name.spec_bytes_count16(), t);
                lemma_concat_associative(spec_u32_to_le_bytes(w.presentation_time), spec_u16_to_le_bytes(w.type_index), (w.command_name.spec_bytes_count16() + t));
            }
        }
        let (i1, presentation_time) = match read_u32(input) {
            Ok(x) => x,
            Err(e) => {
                proof {
                    assert forall|w: Command, t: Seq<u8>| #[trigger] encodes(input.bytes(), w, t) implies false by {
                    }
                }
                return Err(e);
            },
        };
        let ghost consumed1 = spec_u32_to_le_bytes(presentation_time);
        proof {
            assert forall|w: Command, t: Seq<u8>| #[trigger] encodes(input.bytes(), w, t) implies spec_u32_to_le_bytes(presentation_time) == spec_u32_to_le_bytes(w.presentation_time) && i1.bytes() == spec_u16_to_le_bytes(w.type_index) + (w.command_name.spec_bytes_count16() + t) by {
                lemma_cancel(input.bytes(), spec_u32_to_le_bytes(presentation_time), i1.bytes(), spec_u32_to_le_bytes(w.presentation_time), (spec_u16_to_le_bytes(w.type_index) + (w.command_name.spec_bytes_count16() + t)));
            }
        }
        let (i2, type_index) = match read_u16(i1) {
            Ok(x) => x,
            Err(e) => {
                proof {
                    assert forall|w: Command, t: Seq<u8>| #[trigger] encodes(input.bytes(), w, t) implies false by {
                    }
                }
                return Err(e);
            },
        };
        let ghost consumed2 = consumed1 + spec_u16_to_le_bytes(type_index);
        proof {
            lemma_splits_chain(input, consumed1, i1, spec_u16_to_le_bytes(type_index), i2);
            assert forall|w: Command, t: Seq<u8>| #[trigger] encodes(input.bytes(), w, t) implies spec_u16_to_le_bytes(type_index) == spec_u16_to_le_bytes(w.type_index) && i2.bytes() == w.command_name.spec_bytes_count16() + t by {
                lemma_cancel(i1.bytes(), spec_u16_to_le_bytes(type_index), i2.bytes(), spec_u16_to_le_bytes(w.type_index), (w.command_name.spec_bytes_count16() + t));
            }
        }
        let (i3, command_name) = match WideStr::parse_count16(i2) {
            Ok(x) => x,
            Err(e) => {
                proof {
                    assert forall|w: Command, t: Seq<u8>| #[trigger] encodes(input.bytes(), w, t) implies false by {
                        assert(encodes_count16(i2.bytes(), w.command_name, t));
                    }
                }
                return Err(e);
            },
        };
        let ghost consumed3 = consumed2 + command_name.spec_bytes_count16();
        proof {
            lemma_splits_chain(input, consumed2, i2, command_name.spec_bytes_count16(), i3);
            assert forall|w: Command, t: Seq<u8>| #[trigger] encodes(input.bytes(), w, t) implies command_name.spec_bytes_count16() == w.command_name.spec_bytes_count16() && i3.bytes() == t by {
                assert(encodes_count16(i2.bytes(), w.command_name, t));
                lemma_cancel(i2.bytes(), command_name.spec_bytes_count16(), i3.bytes(), w.command_name.spec_bytes_count16(), t);
            }
        }
        let v = Command { presentation_time, type_index, command_name };
        proof {
            assert forall|w: Command, t: Seq<u8>| #[trigger] encodes(input.bytes(), w, t) implies v.spec_bytes() == w.spec_bytes() by {
            }
        }
        Ok((i3, v))
    }
}

impl<'a> Parse<'a> for Command {
    fn parse(input: Span<'a>) -> (r: Result<(Span<'a>, Command), Error>) {
        Self::parse(input)
    }
}

/// The script command object: two counts, the command type names, then the commands.
#[derive(Debug, PartialEq, Eq)]
pub struct ScriptCommandData {
    pub reserved: Guid,
    pub command_types: Vec<WideStr>,
    pub commands: Vec<Command>,
}

impl ScriptCommandData {
    /// The number of bytes `write` emits, computed without writing.
    pub fn size_of(&self) -> (r: usize)
        requires
            self.spec_bytes().len() <= usize::MAX,
        ensures
            r == self.spec_bytes().len(),
    {
        proof {
            lemma_int_bytes_len();
            lemma_guid_value_round_trip(self.reserved.0);
        }
        let mut n: usize = 0;
        n = n + 16;
        n = n + 2;
        n = n + 2;
        n = n + size_of_wide16_list(&self.command_types);
        n = n + size_of_seq(&self.commands);
        n
    }

    /// Appends the wire form to `w`; fails when a length overflows its prefix.
    pub fn write(&self, w: &mut Vec<u8>) -> (r: Result<(), WriteError>)
        requires
            self.spec_bytes().len() <= usize::MAX,
        ensures
            r is Ok <==> self.writable(),
            r is Ok ==> final(w)@ == old(w)@ + self.spec_bytes(),
    {
        proof {
            lemma_int_bytes_len();
            lemma_guid_value_round_trip(self.reserved.0);
        }
        write_guid(w, self.reserved);
        let commands_len: usize = self.commands.len();
        if commands_len > 0xffff {
            return Err(WriteError::FieldTooLarge);
        }
        write_u16(w, commands_len as u16);
        proof {
            lemma_concat_associative(old(w)@, guid_to_wire(self.reserved.0), spec_u16_to_le_bytes((self.commands@.len()) as u16));
        }
        let command_types_len: usize = self.command_types.len();
        if command_types_len > 0xffff {
            return Err(WriteError::FieldTooLarge);
        }
        write_u16(w, command_types_len as u16);
        proof {
            lemma_concat_associative(old(w)@, guid_to_wire(self.reserved.0) + spec_u16_to_le_bytes((self.commands@.len()) as u16), spec_u16_to_le_bytes((self.command_types@.len()) as u16));
        }
        write_wide16_list(&self.command_types, w)?;
        proof {
            lemma_concat_associative(old(w)@, guid_to_wire(self.reserved.0) + spec_u16_to_le_bytes((self.commands@.len()) as u16) + spec_u16_to_le_bytes((self.command_types@.len()) as u16), wide16_list_bytes(self.command_types@));
        }
        write_seq(&self.commands, w)?;
        proof {
            lemma_concat_associative(old(w)@, guid_to_wire(self.reserved.0) + spec_u16_to_le_bytes((self.commands@.len()) as u16) + spec_u16_to_le_bytes((self.command_types@.len()) as u16) + wide16_list_bytes(self.command_types@), seq_bytes(self.commands@));
        }
        Ok(())
    }
}

impl Wire for ScriptCommandData {
    open spec fn spec_bytes(&self) -> Seq<u8> {
        guid_to_wire(self.reserved.0)
            + spec_u16_to_le_bytes((self.commands@.len()) as u16)
            + spec_u16_to_le_bytes((self.command_types@.len()) as u16)
            + wide16_list_bytes(self.command_types@)
            + seq_bytes(self.commands@)
    }

    open spec fn writable(&self) -> bool {
        self.commands@.len() <= 0xffff
        && self.command_types@.len() <= 0xffff
        && wide16_list_writable(self.command_types@)
        && all_writable(self.commands@)
    }

    fn size_of(&self) -> (r: usize) {
        Self::size_of(self)
    }

    fn write(&self, w: &mut Vec<u8>) -> (r: Result<(), WriteError>) {
        Self::write(self, w)
    }
}

impl ScriptCommandData {
    /// Decodes one value; the bytes consumed are exactly what `write` emits for it.
    pub fn parse<'a>(input: Span<'a>) -> (r: Result<(Span<'a>, ScriptCommandData), Error>)
        ensures
            r matches Ok((rest, v)) ==> parsed(input, v, rest),
            r matches Err(e) ==> e.kind == ErrorKind::Eof,
            forall|w: Self, t: Seq<u8>| #[trigger] encodes(input.bytes(), w, t)
                ==> (r matches Ok((rest, v)) && v.spec_bytes() == w.spec_bytes()),
    {
        proof {
            lemma_int_bytes_len();
            lemma_int_bytes_injective();
        }
        proof {
            assert forall|w: ScriptCommandData, t: Seq<u8>| #[trigger] encodes(input.bytes(), w, t) implies input.bytes() == guid_to_wire(w.reserved.0) + (spec_u16_to_le_bytes((w.commands@.len()) as u16) + (spec_u16_to_le_bytes((w.command_types@.len()) as u16) + (wide16_list_bytes(w.command_types@) + (seq_bytes(w.commands@) + t)))) by {
                lemma_guid_value_round_trip(w.reserved.0);
                lemma_concat_associative(guid_to_wire(w.reserved.0) + spec_u16_to_le_bytes((w.commands@.len()) as u16) + spec_u16_to_le_bytes((w.command_types@.len()) as u16) + wide16_list_bytes(w.command_types@), seq_bytes(w.commands@), t);
                lemma_concat_associative(guid_to_wire(w.reserved.0) + spec_u16_to_le_bytes((w.commands@.len()) as u16) + spec_u16_to_le_bytes((w.command_types@.len()) as u16), wide16_list_bytes(w.command_types@), (seq_bytes(w.commands@) + t));
                lemma_concat_associative(guid_to_wire(w.reserved.0) + spec_u16_to_le_bytes((w.commands@.len()) as u16), spec_u16_to_le_bytes((w.command_types@.len()) as u16), (wide16_list_bytes(w.command_types@) + (seq_bytes(w.commands@) + t)));
                lemma_concat_associative(guid_to_wire(w.reserved.0), spec_u16_to_le_bytes((w.commands@.len()) as u16), (spec_u16_to_le_bytes((w.command_types@.len()) as u16) + (wide16_list_bytes(w.command_types@) + (seq_bytes(w.commands@) + t))));
            }
        }
        let (i1, reserved) = match guid(input) {
            Ok(x) => x,
            Err(e) => {
                proof {
                    assert forall|w: ScriptCommandData, t: Seq<u8>| #[trigger] encodes(input.bytes(), w, t) implies false by {
                        lemma_guid_value_round_trip(w.reserved.0);
                    }
                }
                return Err(e);
            },
        };
        let ghost consumed1 = guid_to_wire(reserved.0);
        proof {
            lemma_guid_value_round_trip(reserved.0);
            assert forall|w: ScriptCommandData, t: Seq<u8>| #[trigger] encodes(input.bytes(), w, t) implies guid_to_wire(reserved.0) == guid_to_wire(w.reserved.0) && i1.bytes() == spec_u16_to_le_bytes((w.commands@.len()) as u16) + (spec_u16_to_le_bytes((w.command_types@.len()) as u16) + (wide16_list_bytes(w.command_types@) + (seq_bytes(w.commands@) + t))) by {
                lemma_guid_value_round_trip(w.reserved.0);
                lemma_cancel(input.bytes(), guid_to_wire(reserved.0), i1.bytes(), guid_to_wire(w.reserved.0), (spec_u16_to_le_bytes((w.commands@.len()) as u16) + (spec_u16_to_le_bytes((w.command_types@.len()) as u16) + (wide16_list_bytes(w.command_types@) + (seq_bytes(w.commands@) + t)))));
            }
        }
        let (i2, commands_len) = match read_u16(i1) {
            Ok(x) => x,
            Err(e) => {
                proof {
                    assert forall|w: ScriptCommandData, t: Seq<u8>| #[trigger] encodes(input.bytes(), w, t) implies false by {
                    }
                }
                return Err(e);
            },
        };
        let ghost consumed2 = consumed1 + spec_u16_to_le_bytes(commands_len);
        proof {
            lemma_splits_chain(input, consumed1, i1, spec_u16_to_le_bytes(commands_len), i2);
            assert forall|w: ScriptCommandData, t: Seq<u8>| #[trigger] encodes(input.bytes(), w, t) implies spec_u16_to_le_bytes(commands_len) == spec_u16_to_le_bytes((w.commands@.len()) as u16) && i2.bytes() == spec_u16_to_le_bytes((w.command_types@.len()) as u16) + (wide16_list_bytes(w.command_types@) + (seq_bytes(w.commands@) + t)) by {
                lemma_cancel(i1.bytes(), spec_u16_to_le_bytes(commands_len), i2.bytes(), spec_u16_to_le_bytes((w.commands@.len()) as u16), (spec_u16_to_le_bytes((w.command_types@.len()) as u16) + (wide16_list_bytes(w.command_types@) + (seq_bytes(w.commands@) + t))));
            }
        }
        let (i3, command_types_len) = match read_u16(i2) {
            Ok(x) => x,
            Err(e) => {
                proof {
                    assert forall|w: ScriptCommandData, t: Seq<u8>| #[trigger] encodes(input.bytes(), w, t) implies false by {
                    }
                }
                return Err(e);
            },
        };
        let ghost consumed3 = consumed2 + spec_u16_to_le_bytes(command_types_len);
        proof {
            lemma_splits_chain(input, consumed2, i2, spec_u16_to_le_bytes(command_types_len), i3);
            assert forall|w: ScriptCommandData, t: Seq<u8>| #[trigger] encodes(input.bytes(), w, t) implies spec_u16_to_le_bytes(command_types_len) == spec_u16_to_le_bytes((w.command_types@.len()) as u16) && i3.bytes() == wide16_list_bytes(w.command_types@) + (seq_bytes(w.commands@) + t) by {
                lemma_cancel(i2.bytes(), spec_u16_to_le_bytes(command_types_len), i3.bytes(), spec_u16_to_le_bytes((w.command_types@.len()) as u16), (wide16_list_bytes(w.command_types@) + (seq_bytes(w.commands@) + t)));
            }
        }
        let (i4, command_types) = match parse_wide16_list(i3, command_types_len as usize) {
            Ok(x) => x,
            Err(e) => {
                proof {
                    assert forall|w: ScriptCommandData, t: Seq<u8>| #[trigger] encodes(input.bytes(), w, t) implies false by {
                        assert(encodes_wide16_list(i3.bytes(), w.command_types@, (seq_bytes(w.commands@) + t)));
                    }
                }
                return Err(e);
            },
        };
        let ghost consumed4 = consumed3 + wide16_list_bytes(command_types@);
        proof {
            lemma_splits_chain(input, consumed3, i3, wide16_list_bytes(command_types@), i4);
            assert forall|w: ScriptCommandData, t: Seq<u8>| #[trigger] encodes(input.bytes(), w, t) implies wide16_list_bytes(command_types@) == wide16_list_bytes(w.command_types@) && i4.bytes() == seq_bytes(w.commands@) + t by {
                assert(encodes_wide16_list(i3.bytes(), w.command_types@, (seq_bytes(w.commands@) + t)));
                lemma_cancel(i3.bytes(), wide16_list_bytes(command_types@), i4.bytes(), wide16_list_bytes(w.command_types@), (seq_bytes(w.commands@) + t));
            }
        }
        let (i5, commands) = match parse_count::<Command>(i4, commands_len as usize) {
            Ok(x) => x,
            Err(e) => {
                proof {
                    assert forall|w: ScriptCommandData, t: Seq<u8>| #[trigger] encodes(input.bytes(), w, t) implies false by {
                        assert(encodes_seq(i4.bytes(), w.commands@, t));
                    }
                }
                return Err(e);
            },
        };
        let ghost consumed5 = consumed4 + seq_bytes(commands@);
        proof {
            lemma_splits_chain(input, consumed4, i4, seq_bytes(commands@), i5);
            assert forall|w: ScriptCommandData, t: Seq<u8>| #[trigger] encodes(input.bytes(), w, t) implies seq_bytes(commands@) == seq_bytes(w.commands@) && i5.bytes() == t by {
                assert(encodes_seq(i4.bytes(), w.commands@, t));
                lemma_cancel(i4.bytes(), seq_bytes(commands@), i5.bytes(), seq_bytes(w.commands@), t);
            }
        }
        let v = ScriptCommandData { reserved, command_types, commands };
        proof {
            assert forall|w: ScriptCommandData, t: Seq<u8>| #[trigger] encodes(input.bytes(), w, t) implies v.spec_bytes() == w.spec_bytes() by {
            }
        }
        Ok((i5, v))
    }
}

impl<'a> Parse<'a> for ScriptCommandData {
    fn parse(input: Span<'a>) -> (r: Result<(Span<'a>, ScriptCommandData), Error>) {
        Self::parse(input)
    }
}

} // verus!
