use vstd::prelude::*;
use vstd::bytes::*;
use vstd::seq_lib::lemma_concat_associative;

use crate::error::{Error, ErrorKind, WriteError};
use crate::span::{lemma_splits_chain, Span};
use crate::wire::{parsed, encodes, lemma_cancel, lemma_int_bytes_injective, lemma_int_bytes_len, read_u32, take, write_bytes, write_u32, Parse, Wire};

verus! {

/// The content branding object: banner type, banner image, banner URL and copyright URL.
#[derive(Debug, PartialEq, Eq)]
pub struct ContentBrandingData<'a> {
    pub banner_image_type: u32,
    pub banner_image_data: Span<'a>,
    pub banner_image_url: Span<'a>,
    pub copyright_url: Span<'a>,
}

impl<'a> ContentBrandingData<'a> {
    /// The number of bytes `write` emits, computed without writing.
    pub fn size_of(&self) -> (r: usize)
        requires
            self.spec_bytes().len() <= usize::MAX,
        ensures
            r == self.spec_bytes().len(),
    {
        proof {
            lemma_int_bytes_len();
        }
        let mut n: usize = 0;
        n = n + 4;
        n = n + 4;
        n = n + self.banner_image_data.len();
        n = n + 4;
        n = n + self.banner_image_url.len();
        n = n + 4;
        n = n + self.copyright_url.len();
        n
    }

    /// Appends the wire form to `w`; fails when a length overflows its prefix.
    pub fn write(&self, w: &mut Vec<u8>) -> (r: Result<(), WriteError>)
        requires
            self.spec_bytes().len() <= usize::MAX,
        ensures
            r is Ok <==> self.writable(),
            r is Ok ==> final(w)@ == old(w)@ + self.spec_bytes(),
    {
        proof {
            lemma_int_bytes_len();
        }
        write_u32(w, self.banner_image_type);
        let banner_image_data_len: usize = self.banner_image_data.len();
        if banner_image_data_len > 0xffff_ffff {
            return Err(WriteError::FieldTooLarge);
        }
        write_u32(w, banner_image_data_len as u32);
        proof {
            lemma_concat_associative(old(w)@, spec_u32_to_le_bytes(self.banner_image_type), spec_u32_to_le_bytes((self.banner_image_data.bytes().len()) as u32));
        }
        write_bytes(w, self.banner_image_data.fragment());
        proof {
            lemma_concat_associative(old(w)@, spec_u32_to_le_bytes(self.banner_image_type) + spec_u32_to_le_bytes((self.banner_image_data.bytes().len()) as u32), self.banner_image_data.bytes());
        }
        let banner_image_url_len: usize = self.banner_image_url.len();
        if banner_image_url_len > 0xffff_ffff {
            return Err(WriteError::FieldTooLarge);
        }
        write_u32(w, banner_image_url_len as u32);
        proof {
            lemma_concat_associative(old(w)@, spec_u32_to_le_bytes(self.banner_image_type) + spec_u32_to_le_bytes((self.banner_image_data.bytes().len()) as u32) + self.banner_image_data.bytes(), spec_u32_to_le_bytes((self.banner_image_url.bytes().len()) as u32));
        }
        write_bytes(w, self.banner_image_url.fragment());
        proof {
            lemma_concat_associative(old(w)@, spec_u32_to_le_bytes(self.banner_image_type) + spec_u32_to_le_bytes((self.banner_image_data.bytes().len()) as u32) + self.banner_image_data.bytes() + spec_u32_to_le_bytes((self.banner_image_url.bytes().len()) as u32), self.banner_image_url.bytes());
        }
        let copyright_url_len: usize = self.copyright_url.len();
        if copyright_url_len > 0xffff_ffff {
            return Err(WriteError::FieldTooLarge);
        }
        write_u32(w, copyright_url_len as u32);
        proof {
            lemma_concat_associative(old(w)@, spec_u32_to_le_bytes(self.banner_image_type) + spec_u32_to_le_bytes((self.banner_image_data.bytes().len()) as u32) + self.banner_image_data.bytes() + spec_u32_to_le_bytes((self.banner_image_url.bytes().len()) as u32) + self.banner_image_url.bytes(), spec_u32_to_le_bytes((self.copyright_url.bytes().len()) as u32));
        }
        write_bytes(w, self.copyright_url.fragment());
        proof {
            lemma_concat_associative(old(w)@, spec_u32_to_le_bytes(self.banner_image_type) + spec_u32_to_le_bytes((self.banner_image_data.bytes().len()) as u32) + self.banner_image_data.bytes() + spec_u32_to_le_bytes((self.banner_image_url.bytes().len()) as u32) + self.banner_image_url.bytes() + spec_u32_to_le_bytes((self.copyright_url.bytes().len()) as u32), self.copyright_url.bytes());
        }
        Ok(())
    }
}

impl<'a> Wire for ContentBrandingData<'a> {
    open spec fn spec_bytes(&self) -> Seq<u8> {
        spec_u32_to_le_bytes(self.banner_image_type)
            + spec_u32_to_le_bytes((self.banner_image_data.bytes().len()) as u32)
            + self.banner_image_data.bytes()
            + spec_u32_to_le_bytes((self.banner_image_url.bytes().len()) as u32)
            + self.banner_image_url.bytes()
            + spec_u32_to_le_bytes((self.copyright_url.bytes().len()) as u32)
            + self.copyright_url.bytes()
    }

    open spec fn writable(&self) -> bool {
        self.banner_image_data.bytes().len() <= 0xffff_ffff
        && self.banner_image_url.bytes().len() <= 0xffff_ffff
        && self.copyright_url.bytes().len() <= 0xffff_ffff
    }

    fn size_of(&self) -> (r: usize) {
        Self::size_of(self)
    }

    fn write(&self, w: &mut Vec<u8>) -> (r: Result<(), WriteError>) {
        Self::write(self, w)
    }
}

impl<'a> ContentBrandingData<'a> {
    /// Decodes one value; the bytes consumed are exactly what `write` emits for it.
    pub fn parse(input: Span<'a>) -> (r: Result<(Span<'a>, ContentBrandingData<'a>), Error>)
        ensures
            r matches Ok((rest, v)) ==> parsed(input, v, rest),
            r matches Err(e) ==> e.kind == ErrorKind::Eof,
            forall|w: Self, t: Seq<u8>| #[trigger] encodes(input.bytes(), w, t)
                ==> (r matches Ok((rest, v)) && v.spec_bytes() == w.spec_bytes()),
    {
        proof {
            lemma_int_bytes_len();
            lemma_int_bytes_injective();
        }
        proof {
            assert forall|w: ContentBrandingData<'a>, t: Seq<u8>| #[trigger] encodes(input.bytes(), w, t) implies input.bytes() == spec_u32_to_le_bytes(w.banner_image_type) + (spec_u32_to_le_bytes((w.banner_image_data.bytes().len()) as u32) + (w.banner_image_data.bytes() + (spec_u32_to_le_bytes((w.banner_image_url.bytes().len()) as u32) + (w.banner_image_url.bytes() + (spec_u32_to_le_bytes((w.copyright_url.bytes().len()) as u32) + (w.copyright_url.bytes() + t)))))) by {
                lemma_concat_associative(spec_u32_to_le_bytes(w.banner_image_type) + spec_u32_to_le_bytes((w.banner_image_data.bytes().len()) as u32) + w.banner_image_data.bytes() + spec_u32_to_le_bytes((w.banner_image_url.bytes().len()) as u32) + w.banner_image_url.bytes() + spec_u32_to_le_bytes((w.copyright_url.bytes().len()) as u32), w.copyright_url.bytes(), t);
                lemma_concat_associative(spec_u32_to_le_bytes(w.banner_image_type) + spec_u32_to_le_bytes((w.banner_image_data.bytes().len()) as u32) + w.banner_image_data.bytes() + spec_u32_to_le_bytes((w.banner_image_url.bytes().len()) as u32) + w.banner_image_url.bytes(), spec_u32_to_le_bytes((w.copyright_url.bytes().len()) as u32), (w.copyright_url.bytes() + t));
                lemma_concat_associative(spec_u32_to_le_bytes(w.banner_image_type) + spec_u32_to_le_bytes((w.banner_image_data.bytes().len()) as u32) + w.banner_image_data.bytes() + spec_u32_to_le_bytes((w.banner_image_url.bytes().len()) as u32), w.banner_image_url.bytes(), (spec_u32_to_le_bytes((w.copyright_url.bytes().len()) as u32) + (w.copyright_url.bytes() + t)));
                lemma_concat_associative(spec_u32_to_le_bytes(w.banner_image_type) + spec_u32_to_le_bytes((w.banner_image_data.bytes().len()) as u32) + w.banner_image_data.bytes(), spec_u32_to_le_bytes((w.banner_image_url.bytes().len()) as u32), (w.banner_image_url.bytes() + (spec_u32_to_le_bytes((w.copyright_url.bytes().len()) as u32) + (w.copyright_url.bytes() + t))));
                lemma_concat_associative(spec_u32_to_le_bytes(w.banner_image_type) + spec_u32_to_le_bytes((w.banner_image_data.bytes().len()) as u32), w.banner_image_data.bytes(), (spec_u32_to_le_bytes((w.banner_image_url.bytes().len()) as u32) + (w.banner_image_url.bytes() + (spec_u32_to_le_bytes((w.copyright_url.bytes().len()) as u32) + (w.copyright_url.bytes() + t)))));
                lemma_concat_associative(spec_u32_to_le_bytes(w.banner_image_type), spec_u32_to_le_bytes((w.banner_image_data.bytes().len()) as u32), (w.banner_image_data.bytes() + (spec_u32_to_le_bytes((w.banner_image_url.bytes().len()) as u32) + (w.banner_image_url.bytes() + (spec_u32_to_le_bytes((w.copyright_url.bytes().len()) as u32) + (w.copyright_url.bytes() + t))))));
            }
        }
        let (i1, banner_image_type) = match read_u32(input) {
            Ok(x) => x,
            Err(e) => {
                proof {
                    assert forall|w: ContentBrandingData<'a>, t: Seq<u8>| #[trigger] encodes(input.bytes(), w, t) implies false by {
                    }
                }
                return Err(e);
            },
        };
        let ghost consumed1 = spec_u32_to_le_bytes(banner_image_type);
        proof {
            assert forall|w: ContentBrandingData<'a>, t: Seq<u8>| #[trigger] encodes(input.bytes(), w, t) implies spec_u32_to_le_bytes(banner_image_type) == spec_u32_to_le_bytes(w.banner_image_type) && i1.bytes() == spec_u32_to_le_bytes((w.banner_image_data.bytes().len()) as u32) + (w.banner_image_data.bytes() + (spec_u32_to_le_bytes((w.banner_image_url.bytes().len()) as u32) + (w.banner_image_url.bytes() + (spec_u32_to_le_bytes((w.copyright_url.bytes().len()) as u32) + (w.copyright_url.bytes() + t))))) by {
                lemma_cancel(input.bytes(), spec_u32_to_le_bytes(banner_image_type), i1.bytes(), spec_u32_to_le_bytes(w.banner_image_type), (spec_u32_to_le_bytes((w.banner_image_data.bytes().len()) as u32) + (w.banner_image_data.bytes() + (spec_u32_to_le_bytes((w.banner_image_url.bytes().len()) as u32) + (w.banner_image_url.bytes() + (spec_u32_to_le_bytes((w.copyright_url.bytes().len()) as u32) + (w.copyright_url.bytes() + t)))))));
            }
        }
        let (i2, banner_image_data_len) = match read_u32(i1) {
            Ok(x) => x,
            Err(e) => {
                proof {
                    assert forall|w: ContentBrandingData<'a>, t: Seq<u8>| #[trigger] encodes(input.bytes(), w, t) implies false by {
                    }
                }
                return Err(e);
            },
        };
        let ghost consumed2 = consumed1 + spec_u32_to_le_bytes(banner_image_data_len);
        proof {
            lemma_splits_chain(input, consumed1, i1, spec_u32_to_le_bytes(banner_image_data_len), i2);
            assert forall|w: ContentBrandingData<'a>, t: Seq<u8>| #[trigger] encodes(input.bytes(), w, t) implies spec_u32_to_le_bytes(banner_image_data_len) == spec_u32_to_le_bytes((w.banner_image_data.bytes().len()) as u32) && i2.bytes() == w.banner_image_data.bytes() + (spec_u32_to_le_bytes((w.banner_image_url.bytes().len()) as u32) + (w.banner_image_url.bytes() + (spec_u32_to_le_bytes((w.copyright_url.bytes().len()) as u32) + (w.copyright_url.bytes() + t)))) by {
                lemma_cancel(i1.bytes(), spec_u32_to_le_bytes(banner_image_data_len), i2.bytes(), spec_u32_to_le_bytes((w.banner_image_data.bytes().len()) as u32), (w.banner_image_data.bytes() + (spec_u32_to_le_bytes((w.banner_image_url.bytes().len()) as u32) + (w.banner_image_url.bytes() + (spec_u32_to_le_bytes((w.copyright_url.bytes().len()) as u32) + (w.copyright_url.bytes() + t))))));
            }
        }
        let (i3, banner_image_data) = match take(i2, banner_image_data_len as usize) {
            Ok(x) => x,
            Err(e) => {
                proof {
                    assert forall|w: ContentBrandingData<'a>, t: Seq<u8>| #[trigger] encodes(input.bytes(), w, t) implies false by {
                    }
                }
                return Err(e);
            },
        };
        let ghost consumed3 = consumed2 + banner_image_data.bytes();
        proof {
            lemma_splits_chain(input, consumed2, i2, banner_image_data.bytes(), i3);
            assert forall|w: ContentBrandingData<'a>, t: Seq<u8>| #[trigger] encodes(input.bytes(), w, t) implies banner_image_data.bytes() == w.banner_image_data.bytes() && i3.bytes() == spec_u32_to_le_bytes((w.banner_image_url.bytes().len()) as u32) + (w.banner_image_url.bytes() + (spec_u32_to_le_bytes((w.copyright_url.bytes().len()) as u32) + (w.copyright_url.bytes() + t))) by {
                lemma_cancel(i2.bytes(), banner_image_data.bytes(), i3.bytes(), w.banner_image_data.bytes(), (spec_u32_to_le_bytes((w.banner_image_url.bytes().len()) as u32) + (w.banner_image_url.bytes() + (spec_u32_to_le_bytes((w.copyright_url.bytes().len()) as u32) + (w.copyright_url.bytes() + t)))));
            }
        }
        let (i4, banner_image_url_len) = match read_u32(i3) {
            Ok(x) => x,
            Err(e) => {
                proof {
                    assert forall|w: ContentBrandingData<'a>, t: Seq<u8>| #[trigger] encodes(input.bytes(), w, t) implies false by {
                    }
                }
                return Err(e);
            },
        };
        let ghost consumed4 = consumed3 + spec_u32_to_le_bytes(banner_image_url_len);
        proof {
            lemma_splits_chain(input, consumed3, i3, spec_u32_to_le_bytes(banner_image_url_len), i4);
            assert forall|w: ContentBrandingData<'a>, t: Seq<u8>| #[trigger] encodes(input.bytes(), w, t) implies spec_u32_to_le_bytes(banner_image_url_len) == spec_u32_to_le_bytes((w.banner_image_url.bytes().len()) as u32) && i4.bytes() == w.banner_image_url.bytes() + (spec_u32_to_le_bytes((w.copyright_url.bytes().len()) as u32) + (w.copyright_url.bytes() + t)) by {
                lemma_cancel(i3.bytes(), spec_u32_to_le_bytes(banner_image_url_len), i4.bytes(), spec_u32_to_le_bytes((w.banner_image_url.bytes().len()) as u32), (w.banner_image_url.bytes() + (spec_u32_to_le_bytes((w.copyright_url.bytes().len()) as u32) + (w.copyright_url.bytes() + t))));
            }
        }
        let (i5, banner_image_url) = match take(i4, banner_image_url_len as usize) {
            Ok(x) => x,
            Err(e) => {
                proof {
                    assert forall|w: ContentBrandingData<'a>, t: Seq<u8>| #[trigger] encodes(input.bytes(), w, t) implies false by {
                    }
                }
                return Err(e);
            },
        };
        let ghost consumed5 = consumed4 + banner_image_url.bytes();
        proof {
            lemma_splits_chain(input, consumed4, i4, banner_image_url.bytes(), i5);
            assert forall|w: ContentBrandingData<'a>, t: Seq<u8>| #[trigger] encodes(input.bytes(), w, t) implies banner_image_url.bytes() == w.banner_image_url.bytes() && i5.bytes() == spec_u32_to_le_bytes((w.copyright_url.bytes().len()) as u32) + (w.copyright_url.bytes() + t) by {
                lemma_cancel(i4.bytes(), banner_image_url.bytes(), i5.bytes(), w.banner_image_url.bytes(), (spec_u32_to_le_bytes((w.copyright_url.bytes().len()) as u32) + (w.copyright_url.bytes() + t)));
            }
        }
        let (i6, copyright_url_len) = match read_u32(i5) {
            Ok(x) => x,
            Err(e) => {
                proof {
                    assert forall|w: ContentBrandingData<'a>, t: Seq<u8>| #[trigger] encodes(input.bytes(), w, t) implies false by {
                    }
                }
                return Err(e);
            },
        };
        let ghost consumed6 = consumed5 + spec_u32_to_le_bytes(copyright_url_len);
        proof {
            lemma_splits_chain(input, consumed5, i5, spec_u32_to_le_bytes(copyright_url_len), i6);
            assert forall|w: ContentBrandingData<'a>, t: Seq<u8>| #[trigger] encodes(input.bytes(), w, t) implies spec_u32_to_le_bytes(copyright_url_len) == spec_u32_to_le_bytes((w.copyright_url.bytes().len()) as u32) && i6.bytes() == w.copyright_url.bytes() + t by {
                lemma_cancel(i5.bytes(), spec_u32_to_le_bytes(copyright_url_len), i6.bytes(), spec_u32_to_le_bytes((w.copyright_url.bytes().len()) as u32), (w.copyright_url.bytes() + t));
            }
        }
        let (i7, copyright_url) = match take(i6, copyright_url_len as usize) {
            Ok(x) => x,
            Err(e) => {
                proof {
                    assert forall|w: ContentBrandingData<'a>, t: Seq<u8>| #[trigger] encodes(input.bytes(), w, t) implies false by {
                    }
                }
                return Err(e);
            },
        };
        let ghost consumed7 = consumed6 + copyright_url.bytes();
        proof {
            lemma_splits_chain(input, consumed6, i6, copyright_url.bytes(), i7);
            assert forall|w: ContentBrandingData<'a>, t: Seq<u8>| #[trigger] encodes(input.bytes(), w, t) implies copyright_url.bytes() == w.copyright_url.bytes() && i7.bytes() == t by {
                lemma_cancel(i6.bytes(), copyright_url.bytes(), i7.bytes(), w.copyright_url.bytes(), t);
            }
        }
        let v = ContentBrandingData { banner_image_type, banner_image_data, banner_image_url, copyright_url };
        proof {
            assert forall|w: ContentBrandingData<'a>, t: Seq<u8>| #[trigger] encodes(input.bytes(), w, t) implies v.spec_bytes() == w.spec_bytes() by {
            }
        }
        Ok((i7, v))
    }
}

impl<'a> Parse<'a> for ContentBrandingData<'a> {
    fn parse(input: Span<'a>) -> (r: Result<(Span<'a>, ContentBrandingData<'a>), Error>) {
        Self::parse(input)
    }
}

} // verus!
