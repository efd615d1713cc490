use vstd::prelude::*;
use vstd::bytes::*;
use vstd::seq_lib::lemma_concat_associative;

use crate::error::{Error, ErrorKind, WriteError};
use crate::span::{lemma_splits_chain, Span};
use crate::wire::{parsed, encodes, lemma_cancel, lemma_int_bytes_injective, lemma_int_bytes_len, read_u8, write_u8, Parse, Wire};

verus! {

/// The compatibility object: a profile and a mode byte.
#[derive(Debug, PartialEq, Eq)]
pub struct CompatibilityData {
    pub profile: u8,
    pub mode: u8,
}

impl CompatibilityData {
    /// The number of bytes `write` emits, computed without writing.
    pub fn size_of(&self) -> (r: usize)
        requires
            self.spec_bytes().len() <= usize::MAX,
        ensures
            r == self.spec_bytes().len(),
    {
        proof {
            lemma_int_bytes_len();
        }
        let mut n: usize = 0;
        n = n + 1;
        n = n + 1;
        n
    }

    /// Appends the wire form to `w`; fails when a length overflows its prefix.
    pub fn write(&self, w: &mut Vec<u8>) -> (r: Result<(), WriteError>)
        requires
            self.spec_bytes().len() <= usize::MAX,
        ensures
            r is Ok <==> self.writable(),
            r is Ok ==> final(w)@ == old(w)@ + self.spec_bytes(),
    {
        proof {
            lemma_int_bytes_len();
        }
        write_u8(w, self.profile);
        write_u8(w, self.mode);
        proof {
            lemma_concat_associative(old(w)@, seq![self.profile], seq![self.mode]);
        }
        Ok(())
    }
}

impl Wire for CompatibilityData {
    open spec fn spec_bytes(&self) -> Seq<u8> {
        seq![self.profile]
            + seq![self.mode]
    }

    open spec fn writable(&self) -> bool {
        true
    }

    fn size_of(&self) -> (r: usize) {
        Self::size_of(self)
    }

    fn write(&self, w: &mut Vec<u8>) -> (r: Result<(), WriteError>) {
        Self::write(self, w)
    }
}

impl CompatibilityData {
    /// Decodes one value; the bytes consumed are exactly what `write` emits for it.
    pub fn parse<'a>(input: Span<'a>) -> (r: Result<(Span<'a>, CompatibilityData), Error>)
        ensures
            r is Ok <==> 2 <= input.bytes().len(),
            r matches Ok((rest, v)) ==> parsed(input, v, rest),
            r matches Err(e) ==> e.kind == ErrorKind::Eof,
            forall|w: Self, t: Seq<u8>| #[trigger] encodes(input.bytes(), w, t)
                ==> (r matches Ok((rest, v)) && v.spec_bytes() == w.spec_bytes()),
    {
        proof {
            lemma_int_bytes_len();
            lemma_int_bytes_injective();
        }
        proof {
            assert forall|w: CompatibilityData, t: Seq<u8>| #[trigger] encodes(input.bytes(), w, t) implies input.bytes() == seq![w.profile] + (seq![w.mode] + t) by {
                lemma_concat_associative(seq![w.profile], seq![w.mode], t);
            }
        }
        let (i1, profile) = match read_u8(input) {
            Ok(x) => x,
            Err(e) => {
                proof {
                    assert forall|w: CompatibilityData, t: Seq<u8>| #[trigger] encodes(input.bytes(), w, t) implies false by {
                    }
                }
                return Err(e);
            },
        };
        let ghost consumed1 = seq![profile];
        proof {
            assert forall|w: CompatibilityData, t: Seq<u8>| #[trigger] encodes(input.bytes(), w, t) implies seq![profile] == seq![w.profile] && i1.bytes() == seq![w.mode] + t by {
                lemma_cancel(input.bytes(), seq![profile], i1.bytes(), seq![w.profile], (seq![w.mode] + t));
            }
        }
        let (i2, mode) = match read_u8(i1) {
            Ok(x) => x,
            Err(e) => {
                proof {
                    assert forall|w: CompatibilityData, t: Seq<u8>| #[trigger] encodes(input.bytes(), w, t) implies false by {
                    }
                }
                return Err(e);
            },
        };
        let ghost consumed2 = consumed1 + seq![mode];
        proof {
            lemma_splits_chain(input, consumed1, i1, seq![mode], i2);
            assert forall|w: CompatibilityData, t: Seq<u8>| #[trigger] encodes(input.bytes(), w, t) implies seq![mode] == seq![w.mode] && i2.bytes() == t by {
                lemma_cancel(i1.bytes(), seq![mode], i2.bytes(), seq![w.mode], t);
            }
        }
        let v = CompatibilityData { profile, mode };
        proof {
            assert forall|w: CompatibilityData, t: Seq<u8>| #[trigger] encodes(input.bytes(), w, t) implies v.spec_bytes() == w.spec_bytes() by {
            }
        }
        Ok((i2, v))
    }
}

impl<'a> Parse<'a> for CompatibilityData {
    fn parse(input: Span<'a>) -> (r: Result<(Span<'a>, CompatibilityData), Error>) {
        Self::parse(input)
    }
}

} // verus!
