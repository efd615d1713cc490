use vstd::prelude::*;
use vstd::bytes::*;
use vstd::seq_lib::lemma_concat_associative;

use crate::error::{Error, ErrorKind, WriteError};
use crate::span::{lemma_splits_chain, Span};
use crate::wire::{parsed, encodes, lemma_cancel, lemma_int_bytes_injective, lemma_int_bytes_len, read_u16, take, write_u16, Parse, Wire};
use crate::widestr::{lemma_wide_bytes_len, WideStr};

verus! {

/// The content description object: five byte lengths, then the five strings.
#[derive(Debug, PartialEq, Eq)]
pub struct ContentDescriptionData {
    pub title: WideStr,
    pub author: WideStr,
    pub copyright: WideStr,
    pub description: WideStr,
    pub rating: WideStr,
}

impl ContentDescriptionData {
    /// The number of bytes `write` emits, computed without writing.
    pub fn size_of(&self) -> (r: usize)
        requires
            self.spec_bytes().len() <= usize::MAX,
        ensures
            r == self.spec_bytes().len(),
    {
        proof {
            lemma_int_bytes_len();
        }
        let mut n: usize = 0;
        n = n + 2;
        n = n + 2;
        n = n + 2;
        n = n + 2;
        n = n + 2;
        n = n + self.title.size_of();
        n = n + self.author.size_of();
        n = n + self.copyright.size_of();
        n = n + self.description.size_of();
        n = n + self.rating.size_of();
        n
    }

    /// Appends the wire form to `w`; fails when a length overflows its prefix.
    pub fn write(&self, w: &mut Vec<u8>) -> (r: Result<(), WriteError>)
        requires
            self.spec_bytes().len() <= usize::MAX,
        ensures
            r is Ok <==> self.writable(),
            r is Ok ==> final(w)@ == old(w)@ + self.spec_bytes(),
    {
        proof {
            lemma_int_bytes_len();
        }
        let title_len: usize = self.title.size_of();
        if title_len > 0xffff {
            return Err(WriteError::FieldTooLarge);
        }
        write_u16(w, title_len as u16);
        let author_len: usize = self.author.size_of();
        if author_len > 0xffff {
            return Err(WriteError::FieldTooLarge);
        }
        write_u16(w, author_len as u16);
        proof {
            lemma_concat_associative(old(w)@, spec_u16_to_le_bytes((self.title.spec_bytes().len()) as u16), spec_u16_to_le_bytes((self.author.spec_bytes().len()) as u16));
        }
        let copyright_len: usize = self.copyright.size_of();
        if copyright_len > 0xffff {
            return Err(WriteError::FieldTooLarge);
        }
        write_u16(w, copyright_len as u16);
        proof {
            lemma_concat_associative(old(w)@, spec_u16_to_le_bytes((self.title.spec_bytes().len()) as u16) + spec_u16_to_le_bytes((self.author.spec_bytes().len()) as u16), spec_u16_to_le_bytes((self.copyright.spec_bytes().len()) as u16));
        }
        let description_len: usize = self.description.size_of();
        if description_len > 0xffff {
            return Err(WriteError::FieldTooLarge);
        }
        write_u16(w, description_len as u16);
        proof {
            lemma_concat_associative(old(w)@, spec_u16_to_le_bytes((self.title.spec_bytes().len()) as u16) + spec_u16_to_le_bytes((self.author.spec_bytes().len()) as u16) + spec_u16_to_le_bytes((self.copyright.spec_bytes().len()) as u16), spec_u16_to_le_bytes((self.description.spec_bytes().len()) as u16));
        }
        let rating_len: usize = self.rating.size_of();
        if rating_len > 0xffff {
            return Err(WriteError::FieldTooLarge);
        }
        write_u16(w, rating_len as u16);
        proof {
            lemma_concat_associative(old(w)@, spec_u16_to_le_bytes((self.title.spec_bytes().len()) as u16) + spec_u16_to_le_bytes((self.author.spec_bytes().len()) as u16) + spec_u16_to_le_bytes((self.copyright.spec_bytes().len()) as u16) + spec_u16_to_le_bytes((self.description.spec_bytes().len()) as u16), spec_u16_to_le_bytes((self.rating.spec_bytes().len()) as u16));
        }
        self.title.write(w)?;
        proof {
            lemma_concat_associative(old(w)@, spec_u16_to_le_bytes((self.title.spec_bytes().len()) as u16) + spec_u16_to_le_bytes((self.author.spec_bytes().len()) as u16) + spec_u16_to_le_bytes((self.copyright.spec_bytes().len()) as u16) + spec_u16_to_le_bytes((self.description.spec_bytes().len()) as u16) + spec_u16_to_le_bytes((self.rating.spec_bytes().len()) as u16), self.title.spec_bytes());
        }
        self.author.write(w)?;
        proof {
            lemma_concat_associative(old(w)@, spec_u16_to_le_bytes((self.title.spec_bytes().len()) as u16) + spec_u16_to_le_bytes((self.author.spec_bytes().len()) as u16) + spec_u16_to_le_bytes((self.copyright.spec_bytes().len()) as u16) + spec_u16_to_le_bytes((self.description.spec_bytes().len()) as u16) + spec_u16_to_le_bytes((self.rating.spec_bytes().len()) as u16) + self.title.spec_bytes(), self.author.spec_bytes());
        }
        self.copyright.write(w)?;
        proof {
            lemma_concat_associative(old(w)@, spec_u16_to_le_bytes((self.title.spec_bytes().len()) as u16) + spec_u16_to_le_bytes((self.author.spec_bytes().len()) as u16) + spec_u16_to_le_bytes((self.copyright.spec_bytes().len()) as u16) + spec_u16_to_le_bytes((self.description.spec_bytes().len()) as u16) + spec_u16_to_le_bytes((self.rating.spec_bytes().len()) as u16) + self.title.spec_bytes() + self.author.spec_bytes(), self.copyright.spec_bytes());
        }
        self.description.write(w)?;
        proof {
            lemma_concat_associative(old(w)@, spec_u16_to_le_bytes((self.title.spec_bytes().len()) as u16) + spec_u16_to_le_bytes((self.author.spec_bytes().len()) as u16) + spec_u16_to_le_bytes((self.copyright.spec_bytes().len()) as u16) + spec_u16_to_le_bytes((self.description.spec_bytes().len()) as u16) + spec_u16_to_le_bytes((self.rating.spec_bytes().len()) as u16) + self.title.spec_bytes() + self.author.spec_bytes() + self.copyright.spec_bytes(), self.description.spec_bytes());
        }
        self.rating.write(w)?;
        proof {
            lemma_concat_associative(old(w)@, spec_u16_to_le_bytes((self.title.spec_bytes().len()) as u16) + spec_u16_to_le_bytes((self.author.spec_bytes().len()) as u16) + spec_u16_to_le_bytes((self.copyright.spec_bytes().len()) as u16) + spec_u16_to_le_bytes((self.description.spec_bytes().len()) as u16) + spec_u16_to_le_bytes((self.rating.spec_bytes().len()) as u16) + self.title.spec_bytes() + self.author.spec_bytes() + self.copyright.spec_bytes() + self.description.spec_bytes(), self.rating.spec_bytes());
        }
        Ok(())
    }
}

impl Wire for ContentDescriptionData {
    open spec fn spec_bytes(&self) -> Seq<u8> {
        spec_u16_to_le_bytes((self.title.spec_bytes().len()) as u16)
            + spec_u16_to_le_bytes((self.author.spec_bytes().len()) as u16)
            + spec_u16_to_le_bytes((self.copyright.spec_bytes().len()) as u16)
            + spec_u16_to_le_bytes((self.description.spec_bytes().len()) as u16)
            + spec_u16_to_le_bytes((self.rating.spec_bytes().len()) as u16)
            + self.title.spec_bytes()
            + self.author.spec_bytes()
            + self.copyright.spec_bytes()
            + self.description.spec_bytes()
            + self.rating.spec_bytes()
    }

    open spec fn writable(&self) -> bool {
        self.title.spec_bytes().len() <= 0xffff
        && self.author.spec_bytes().len() <= 0xffff
        && self.copyright.spec_bytes().len() <= 0xffff
        && self.description.spec_bytes().len() <= 0xffff
        && self.rating.spec_bytes().len() <= 0xffff
    }

    fn size_of(&self) -> (r: usize) {
        Self::size_of(self)
    }

    fn write(&self, w: &mut Vec<u8>) -> (r: Result<(), WriteError>) {
        Self::write(self, w)
    }
}

impl ContentDescriptionData {
    /// Decodes one value; the bytes consumed are exactly what `write` emits for it.
    #[verifier::rlimit(100)]
    pub fn parse<'a>(input: Span<'a>) -> (r: Result<(Span<'a>, ContentDescriptionData), Error>)
        ensures
            r matches Ok((rest, v)) ==> parsed(input, v, rest),
            r matches Err(e) ==> e.kind == ErrorKind::Eof,
            forall|w: Self, t: Seq<u8>| #[trigger] encodes(input.bytes(), w, t)
                ==> (r matches Ok((rest, v)) && v.spec_bytes() == w.spec_bytes()),
    {
        proof {
            lemma_int_bytes_len();
            lemma_int_bytes_injective();
        }
        proof {
            assert forall|w: ContentDescriptionData, t: Seq<u8>| #[trigger] encodes(input.bytes(), w, t) implies input.bytes() == spec_u16_to_le_bytes((w.title.spec_bytes().len()) as u16) + (spec_u16_to_le_bytes((w.author.spec_bytes().len()) as u16) + (spec_u16_to_le_bytes((w.copyright.spec_bytes().len()) as u16) + (spec_u16_to_le_bytes((w.description.spec_bytes().len()) as u16) + (spec_u16_to_le_bytes((w.rating.spec_bytes().len()) as u16) + (w.title.spec_bytes() + (w.author.spec_bytes() + (w.copyright.spec_bytes() + (w.description.spec_bytes() + (w.rating.spec_bytes() + t))))))))) by {
                lemma_concat_associative(spec_u16_to_le_bytes((w.title.spec_bytes().len()) as u16) + spec_u16_to_le_bytes((w.author.spec_bytes().len()) as u16) + spec_u16_to_le_bytes((w.copyright.spec_bytes().len()) as u16) + spec_u16_to_le_bytes((w.description.spec_bytes().len()) as u16) + spec_u16_to_le_bytes((w.rating.spec_bytes().len()) as u16) + w.title.spec_bytes() + w.author.spec_bytes() + w.copyright.spec_bytes() + w.description.spec_bytes(), w.rating.spec_bytes(), t);
                lemma_concat_associative(spec_u16_to_le_bytes((w.title.spec_bytes().len()) as u16) + spec_u16_to_le_bytes((w.author.spec_bytes().len()) as u16) + spec_u16_to_le_bytes((w.copyright.spec_bytes().len()) as u16) + spec_u16_to_le_bytes((w.description.spec_bytes().len()) as u16) + spec_u16_to_le_bytes((w.rating.spec_bytes().len()) as u16) + w.title.spec_bytes() + w.author.spec_bytes() + w.copyright.spec_bytes(), w.description.spec_bytes(), (w.rating.spec_bytes() + t));
                lemma_concat_associative(spec_u16_to_le_bytes((w.title.spec_bytes().len()) as u16) + spec_u16_to_le_bytes((w.author.spec_bytes().len()) as u16) + spec_u16_to_le_bytes((w.copyright.spec_bytes().len()) as u16) + spec_u16_to_le_bytes((w.description.spec_bytes().len()) as u16) + spec_u16_to_le_bytes((w.rating.spec_bytes().len()) as u16) + w.title.spec_bytes() + w.author.spec_bytes(), w.copyright.spec_bytes(), (w.description.spec_bytes() + (w.rating.spec_bytes() + t)));
                lemma_concat_associative(spec_u16_to_le_bytes((w.title.spec_bytes().len()) as u16) + spec_u16_to_le_bytes((w.author.spec_bytes().len()) as u16) + spec_u16_to_le_bytes((w.copyright.spec_bytes().len()) as u16) + spec_u16_to_le_bytes((w.description.spec_bytes().len()) as u16) + spec_u16_to_le_bytes((w.rating.spec_bytes().len()) as u16) + w.title.spec_bytes(), w.author.spec_bytes(), (w.copyright.spec_bytes() + (w.description.spec_bytes() + (w.rating.spec_bytes() + t))));
                lemma_concat_associative(spec_u16_to_le_bytes((w.title.spec_bytes().len()) as u16) + spec_u16_to_le_bytes((w.author.spec_bytes().len()) as u16) + spec_u16_to_le_bytes((w.copyright.spec_bytes().len()) as u16) + spec_u16_to_le_bytes((w.description.spec_bytes().len()) as u16) + spec_u16_to_le_bytes((w.rating.spec_bytes().len()) as u16), w.title.spec_bytes(), (w.author.spec_bytes() + (w.copyright.spec_bytes() + (w.description.spec_bytes() + (w.rating.spec_bytes() + t)))));
                lemma_concat_associative(spec_u16_to_le_bytes((w.title.spec_bytes().len()) as u16) + spec_u16_to_le_bytes((w.author.spec_bytes().len()) as u16) + spec_u16_to_le_bytes((w.copyright.spec_bytes().len()) as u16) + spec_u16_to_le_bytes((w.description.spec_bytes().len()) as u16), spec_u16_to_le_bytes((w.rating.spec_bytes().len()) as u16), (w.title.spec_bytes() + (w.author.spec_bytes() + (w.copyright.spec_bytes() + (w.description.spec_bytes() + (w.rating.spec_bytes() + t))))));
                lemma_concat_associative(spec_u16_to_le_bytes((w.title.spec_bytes().len()) as u16) + spec_u16_to_le_bytes((w.author.spec_bytes().len()) as u16) + spec_u16_to_le_bytes((w.copyright.spec_bytes().len()) as u16), spec_u16_to_le_bytes((w.description.spec_bytes().len()) as u16), (spec_u16_to_le_bytes((w.rating.spec_bytes().len()) as u16) + (w.title.spec_bytes() + (w.author.spec_bytes() + (w.copyright.spec_bytes() + (w.description.spec_bytes() + (w.rating.spec_bytes() + t)))))));
                lemma_concat_associative(spec_u16_to_le_bytes((w.title.spec_bytes().len()) as u16) + spec_u16_to_le_bytes((w.author.spec_bytes().len()) as u16), spec_u16_to_le_bytes((w.copyright.spec_bytes().len()) as u16), (spec_u16_to_le_bytes((w.description.spec_bytes().len()) as u16) + (spec_u16_to_le_bytes((w.rating.spec_bytes().len()) as u16) + (w.title.spec_bytes() + (w.author.spec_bytes() + (w.copyright.spec_bytes() + (w.description.spec_bytes() + (w.rating.spec_bytes() + t))))))));
                lemma_concat_associative(spec_u16_to_le_bytes((w.title.spec_bytes().len()) as u16), spec_u16_to_le_bytes((w.author.spec_bytes().len()) as u16), (spec_u16_to_le_bytes((w.copyright.spec_bytes().len()) as u16) + (spec_u16_to_le_bytes((w.description.spec_bytes().len()) as u16) + (spec_u16_to_le_bytes((w.rating.spec_bytes().len()) as u16) + (w.title.spec_bytes() + (w.author.spec_bytes() + (w.copyright.spec_bytes() + (w.description.spec_bytes() + (w.rating.spec_bytes() + t)))))))));
            }
        }
        let (i1, title_len) = match read_u16(input) {
            Ok(x) => x,
            Err(e) => {
                proof {
                    assert forall|w: ContentDescriptionData, t: Seq<u8>| #[trigger] encodes(input.bytes(), w, t) implies false by {
                    }
                }
                return Err(e);
            },
        };
        let ghost consumed1 = spec_u16_to_le_bytes(title_len);
        proof {
            assert forall|w: ContentDescriptionData, t: Seq<u8>| #[trigger] encodes(input.bytes(), w, t) implies spec_u16_to_le_bytes(title_len) == spec_u16_to_le_bytes((w.title.spec_bytes().len()) as u16) && i1.bytes() == spec_u16_to_le_bytes((w.author.spec_bytes().len()) as u16) + (spec_u16_to_le_bytes((w.copyright.spec_bytes().len()) as u16) + (spec_u16_to_le_bytes((w.description.spec_bytes().len()) as u16) + (spec_u16_to_le_bytes((w.rating.spec_bytes().len()) as u16) + (w.title.spec_bytes() + (w.author.spec_bytes() + (w.copyright.spec_bytes() + (w.description.spec_bytes() + (w.rating.spec_bytes() + t)))))))) by {
                lemma_cancel(input.bytes(), spec_u16_to_le_bytes(title_len), i1.bytes(), spec_u16_to_le_bytes((w.title.spec_bytes().len()) as u16), (spec_u16_to_le_bytes((w.author.spec_bytes().len()) as u16) + (spec_u16_to_le_bytes((w.copyright.spec_bytes().len()) as u16) + (spec_u16_to_le_bytes((w.description.spec_bytes().len()) as u16) + (spec_u16_to_le_bytes((w.rating.spec_bytes().len()) as u16) + (w.title.spec_bytes() + (w.author.spec_bytes() + (w.copyright.spec_bytes() + (w.description.spec_bytes() + (w.rating.spec_bytes() + t))))))))));
            }
        }
        let (i2, author_len) = match read_u16(i1) {
            Ok(x) => x,
            Err(e) => {
                proof {
                    assert forall|w: ContentDescriptionData, t: Seq<u8>| #[trigger] encodes(input.bytes(), w, t) implies false by {
                    }
                }
                return Err(e);
            },
        };
        let ghost consumed2 = consumed1 + spec_u16_to_le_bytes(author_len);
        proof {
            lemma_splits_chain(input, consumed1, i1, spec_u16_to_le_bytes(author_len), i2);
            assert forall|w: ContentDescriptionData, t: Seq<u8>| #[trigger] encodes(input.bytes(), w, t) implies spec_u16_to_le_bytes(author_len) == spec_u16_to_le_bytes((w.author.spec_bytes().len()) as u16) && i2.bytes() == spec_u16_to_le_bytes((w.copyright.spec_bytes().len()) as u16) + (spec_u16_to_le_bytes((w.description.spec_bytes().len()) as u16) + (spec_u16_to_le_bytes((w.rating.spec_bytes().len()) as u16) + (w.title.spec_bytes() + (w.author.spec_bytes() + (w.copyright.spec_bytes() + (w.description.spec_bytes() + (w.rating.spec_bytes() + t))))))) by {
                lemma_cancel(i1.bytes(), spec_u16_to_le_bytes(author_len), i2.bytes(), spec_u16_to_le_bytes((w.author.spec_bytes().len()) as u16), (spec_u16_to_le_bytes((w.copyright.spec_bytes().len()) as u16) + (spec_u16_to_le_bytes((w.description.spec_bytes().len()) as u16) + (spec_u16_to_le_bytes((w.rating.spec_bytes().len()) as u16) + (w.title.spec_bytes() + (w.author.spec_bytes() + (w.copyright.spec_bytes() + (w.description.spec_bytes() + (w.rating.spec_bytes() + t)))))))));
            }
        }
        let (i3, copyright_len) = match read_u16(i2) {
            Ok(x) => x,
            Err(e) => {
                proof {
                    assert forall|w: ContentDescriptionData, t: Seq<u8>| #[trigger] encodes(input.bytes(), w, t) implies false by {
                    }
                }
                return Err(e);
            },
        };
        let ghost consumed3 = consumed2 + spec_u16_to_le_bytes(copyright_len);
        proof {
            lemma_splits_chain(input, consumed2, i2, spec_u16_to_le_bytes(copyright_len), i3);
            assert forall|w: ContentDescriptionData, t: Seq<u8>| #[trigger] encodes(input.bytes(), w, t) implies spec_u16_to_le_bytes(copyright_len) == spec_u16_to_le_bytes((w.copyright.spec_bytes().len()) as u16) && i3.bytes() == spec_u16_to_le_bytes((w.description.spec_bytes().len()) as u16) + (spec_u16_to_le_bytes((w.rating.spec_bytes().len()) as u16) + (w.title.spec_bytes() + (w.author.spec_bytes() + (w.copyright.spec_bytes() + (w.description.spec_bytes() + (w.rating.spec_bytes() + t)))))) by {
                lemma_cancel(i2.bytes(), spec_u16_to_le_bytes(copyright_len), i3.bytes(), spec_u16_to_le_bytes((w.copyright.spec_bytes().len()) as u16), (spec_u16_to_le_bytes((w.description.spec_bytes().len()) as u16) + (spec_u16_to_le_bytes((w.rating.spec_bytes().len()) as u16) + (w.title.spec_bytes() + (w.author.spec_bytes() + (w.copyright.spec_bytes() + (w.description.spec_bytes() + (w.rating.spec_bytes() + t))))))));
            }
        }
        let (i4, description_len) = match read_u16(i3) {
            Ok(x) => x,
            Err(e) => {
                proof {
                    assert forall|w: ContentDescriptionData, t: Seq<u8>| #[trigger] encodes(input.bytes(), w, t) implies false by {
                    }
                }
                return Err(e);
            },
        };
        let ghost consumed4 = consumed3 + spec_u16_to_le_bytes(description_len);
        proof {
            lemma_splits_chain(input, consumed3, i3, spec_u16_to_le_bytes(description_len), i4);
            assert forall|w: ContentDescriptionData, t: Seq<u8>| #[trigger] encodes(input.bytes(), w, t) implies spec_u16_to_le_bytes(description_len) == spec_u16_to_le_bytes((w.description.spec_bytes().len()) as u16) && i4.bytes() == spec_u16_to_le_bytes((w.rating.spec_bytes().len()) as u16) + (w.title.spec_bytes() + (w.author.spec_bytes() + (w.copyright.spec_bytes() + (w.description.spec_bytes() + (w.rating.spec_bytes() + t))))) by {
                lemma_cancel(i3.bytes(), spec_u16_to_le_bytes(description_len), i4.bytes(), spec_u16_to_le_bytes((w.description.spec_bytes().len()) as u16), (spec_u16_to_le_bytes((w.rating.spec_bytes().len()) as u16) + (w.title.spec_bytes() + (w.author.spec_bytes() + (w.copyright.spec_bytes() + (w.description.spec_bytes() + (w.rating.spec_bytes() + t)))))));
            }
        }
        let (i5, rating_len) = match read_u16(i4) {
            Ok(x) => x,
            Err(e) => {
                proof {
                    assert forall|w: ContentDescriptionData, t: Seq<u8>| #[trigger] encodes(input.bytes(), w, t) implies false by {
                    }
                }
                return Err(e);
            },
        };
        let ghost consumed5 = consumed4 + spec_u16_to_le_bytes(rating_len);
        proof {
            lemma_splits_chain(input, consumed4, i4, spec_u16_to_le_bytes(rating_len), i5);
            assert forall|w: ContentDescriptionData, t: Seq<u8>| #[trigger] encodes(input.bytes(), w, t) implies spec_u16_to_le_bytes(rating_len) == spec_u16_to_le_bytes((w.rating.spec_bytes().len()) as u16) && i5.bytes() == w.title.spec_bytes() + (w.author.spec_bytes() + (w.copyright.spec_bytes() + (w.description.spec_bytes() + (w.rating.spec_bytes() + t)))) by {
                lemma_cancel(i4.bytes(), spec_u16_to_le_bytes(rating_len), i5.bytes(), spec_u16_to_le_bytes((w.rating.spec_bytes().len()) as u16), (w.title.spec_bytes() + (w.author.spec_bytes() + (w.copyright.spec_bytes() + (w.description.spec_bytes() + (w.rating.spec_bytes() + t))))));
            }
        }
        let (i6, title_region) = match take(i5, title_len as usize) {
            Ok(x) => x,
            Err(e) => {
                proof {
                    assert forall|w: ContentDescriptionData, t: Seq<u8>| #[trigger] encodes(input.bytes(), w, t) implies false by {
                        lemma_wide_bytes_len(w.title.0@);
                    }
                }
                return Err(e);
            },
        };
        let (_, title) = match WideStr::parse(title_region) {
            Ok(x) => x,
            Err(e) => {
                proof {
                    assert forall|w: ContentDescriptionData, t: Seq<u8>| #[trigger] encodes(input.bytes(), w, t) implies false by {
                        lemma_wide_bytes_len(w.title.0@);
                        lemma_cancel(i5.bytes(), title_region.bytes(), i6.bytes(), w.title.spec_bytes(), (w.author.spec_bytes() + (w.copyright.spec_bytes() + (w.description.spec_bytes() + (w.rating.spec_bytes() + t)))));
                    }
                }
                return Err(e);
            },
        };
        let ghost consumed6 = consumed5 + title_region.bytes();
        proof {
            lemma_splits_chain(input, consumed5, i5, title_region.bytes(), i6);
            assert forall|w: ContentDescriptionData, t: Seq<u8>| #[trigger] encodes(input.bytes(), w, t) implies title_region.bytes() == w.title.spec_bytes() && i6.bytes() == w.author.spec_bytes() + (w.copyright.spec_bytes() + (w.description.spec_bytes() + (w.rating.spec_bytes() + t))) by {
                lemma_wide_bytes_len(w.title.0@);
                lemma_cancel(i5.bytes(), title_region.bytes(), i6.bytes(), w.title.spec_bytes(), (w.author.spec_bytes() + (w.copyright.spec_bytes() + (w.description.spec_bytes() + (w.rating.spec_bytes() + t)))));
            }
        }
        let (i7, author_region) = match take(i6, author_len as usize) {
            Ok(x) => x,
            Err(e) => {
                proof {
                    assert forall|w: ContentDescriptionData, t: Seq<u8>| #[trigger] encodes(input.bytes(), w, t) implies false by {
                        lemma_wide_bytes_len(w.author.0@);
                    }
                }
                return Err(e);
            },
        };
        let (_, author) = match WideStr::parse(author_region) {
            Ok(x) => x,
            Err(e) => {
                proof {
                    assert forall|w: ContentDescriptionData, t: Seq<u8>| #[trigger] encodes(input.bytes(), w, t) implies false by {
                        lemma_wide_bytes_len(w.author.0@);
                        lemma_cancel(i6.bytes(), author_region.bytes(), i7.bytes(), w.author.spec_bytes(), (w.copyright.spec_bytes() + (w.description.spec_bytes() + (w.rating.spec_bytes() + t))));
                    }
                }
                return Err(e);
            },
        };
        let ghost consumed7 = consumed6 + author_region.bytes();
        proof {
            lemma_splits_chain(input, consumed6, i6, author_region.bytes(), i7);
            assert forall|w: ContentDescriptionData, t: Seq<u8>| #[trigger] encodes(input.bytes(), w, t) implies author_region.bytes() == w.author.spec_bytes() && i7.bytes() == w.copyright.spec_bytes() + (w.description.spec_bytes() + (w.rating.spec_bytes() + t)) by {
                lemma_wide_bytes_len(w.author.0@);
                lemma_cancel(i6.bytes(), author_region.bytes(), i7.bytes(), w.author.spec_bytes(), (w.copyright.spec_bytes() + (w.description.spec_bytes() + (w.rating.spec_bytes() + t))));
            }
        }
        let (i8, copyright_region) = match take(i7, copyright_len as usize) {
            Ok(x) => x,
            Err(e) => {
                proof {
                    assert forall|w: ContentDescriptionData, t: Seq<u8>| #[trigger] encodes(input.bytes(), w, t) implies false by {
                        lemma_wide_bytes_len(w.copyright.0@);
                    }
                }
                return Err(e);
            },
        };
        let (_, copyright) = match WideStr::parse(copyright_region) {
            Ok(x) => x,
            Err(e) => {
                proof {
                    assert forall|w: ContentDescriptionData, t: Seq<u8>| #[trigger] encodes(input.bytes(), w, t) implies false by {
                        lemma_wide_bytes_len(w.copyright.0@);
                        lemma_cancel(i7.bytes(), copyright_region.bytes(), i8.bytes(), w.copyright.spec_bytes(), (w.description.spec_bytes() + (w.rating.spec_bytes() + t)));
                    }
                }
                return Err(e);
            },
        };
        let ghost consumed8 = consumed7 + copyright_region.bytes();
        proof {
            lemma_splits_chain(input, consumed7, i7, copyright_region.bytes(), i8);
            assert forall|w: ContentDescriptionData, t: Seq<u8>| #[trigger] encodes(input.bytes(), w, t) implies copyright_region.bytes() == w.copyright.spec_bytes() && i8.bytes() == w.description.spec_bytes() + (w.rating.spec_bytes() + t) by {
                lemma_wide_bytes_len(w.copyright.0@);
                lemma_cancel(i7.bytes(), copyright_region.bytes(), i8.bytes(), w.copyright.spec_bytes(), (w.description.spec_bytes() + (w.rating.spec_bytes() + t)));
            }
        }
        let (i9, description_region) = match take(i8, description_len as usize) {
            Ok(x) => x,
            Err(e) => {
                proof {
                    assert forall|w: ContentDescriptionData, t: Seq<u8>| #[trigger] encodes(input.bytes(), w, t) implies false by {
                        lemma_wide_bytes_len(w.description.0@);
                    }
                }
                return Err(e);
            },
        };
        let (_, description) = match WideStr::parse(description_region) {
            Ok(x) => x,
            Err(e) => {
                proof {
                    assert forall|w: ContentDescriptionData, t: Seq<u8>| #[trigger] encodes(input.bytes(), w, t) implies false by {
                        lemma_wide_bytes_len(w.description.0@);
                        lemma_cancel(i8.bytes(), description_region.bytes(), i9.bytes(), w.description.spec_bytes(), (w.rating.spec_bytes() + t));
                    }
                }
                return Err(e);
            },
        };
        let ghost consumed9 = consumed8 + description_region.bytes();
        proof {
            lemma_splits_chain(input, consumed8, i8, description_region.bytes(), i9);
            assert forall|w: ContentDescriptionData, t: Seq<u8>| #[trigger] encodes(input.bytes(), w, t) implies description_region.bytes() == w.description.spec_bytes() && i9.bytes() == w.rating.spec_bytes() + t by {
                lemma_wide_bytes_len(w.description.0@);
                lemma_cancel(i8.bytes(), description_region.bytes(), i9.bytes(), w.description.spec_bytes(), (w.rating.spec_bytes() + t));
            }
        }
        let (i10, rating_region) = match take(i9, rating_len as usize) {
            Ok(x) => x,
            Err(e) => {
                proof {
                    assert forall|w: ContentDescriptionData, t: Seq<u8>| #[trigger] encodes(input.bytes(), w, t) implies false by {
                        lemma_wide_bytes_len(w.rating.0@);
                    }
                }
                return Err(e);
            },
        };
        let (_, rating) = match WideStr::parse(rating_region) {
            Ok(x) => x,
            Err(e) => {
                proof {
                    assert forall|w: ContentDescriptionData, t: Seq<u8>| #[trigger] encodes(input.bytes(), w, t) implies false by {
                        lemma_wide_bytes_len(w.rating.0@);
                        lemma_cancel(i9.bytes(), rating_region.bytes(), i10.bytes(), w.rating.spec_bytes(), t);
                    }
                }
                return Err(e);
            },
        };
        let ghost consumed10 = consumed9 + rating_region.bytes();
        proof {
            lemma_splits_chain(input, consumed9, i9, rating_region.bytes(), i10);
            assert forall|w: ContentDescriptionData, t: Seq<u8>| #[trigger] encodes(input.bytes(), w, t) implies rating_region.bytes() == w.rating.spec_bytes() && i10.bytes() == t by {
                lemma_wide_bytes_len(w.rating.0@);
                lemma_cancel(i9.bytes(), rating_region.bytes(), i10.bytes(), w.rating.spec_bytes(), t);
            }
        }
        let v = ContentDescriptionData { title, author, copyright, description, rating };
        proof {
            assert forall|w: ContentDescriptionData, t: Seq<u8>| #[trigger] encodes(input.bytes(), w, t) implies v.spec_bytes() == w.spec_bytes() by {
            }
        }
        Ok((i10, v))
    }
}

impl<'a> Parse<'a> for ContentDescriptionData {
    fn parse(input: Span<'a>) -> (r: Result<(Span<'a>, ContentDescriptionData), Error>) {
        Self::parse(input)
    }
}

} // verus!
