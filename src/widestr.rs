use vstd::prelude::*;
use vstd::bytes::*;

use crate::error::{Error, ErrorKind, WriteError};
use crate::span::{splits, Span};
use crate::wire::{
    lemma_int_bytes_len, read_u16, read_u32, read_u8, seq_bytes, take,
    write_seq, write_u16, write_u32, write_u8, Wire,
};

verus! {

/// A UTF-16 string as its code units, kept exactly as read.
#[derive(Debug, PartialEq, Eq)]
pub struct WideStr(pub Vec<u16>);

/// The UTF-16 code units of a string, as `str::encode_utf16` yields them.
pub uninterp spec fn utf16_of(s: Seq<char>) -> Seq<u16>;

/// The string `String::from_utf16_lossy` makes of some code units.
pub uninterp spec fn lossy_string_of(w: Seq<u16>) -> Seq<char>;

/// Relies on `str::encode_utf16`: the code units depend on the characters
/// alone, an empty string has none, and they are well-formed UTF-16, which
/// `String::from_utf16_lossy` decodes back to the same characters.
#[verifier::external_body]
fn encode_utf16(s: &str) -> (r: Vec<u16>)
    ensures
        r@ == utf16_of(s@),
        s@.len() == 0 ==> r@.len() == 0,
        lossy_string_of(r@) == s@,
{
    s.encode_utf16().collect()
}

/// Relies on `String::from_utf16_lossy`: the string depends on the code
/// units alone, and no code units give the empty string.
#[verifier::external_body]
fn from_utf16_lossy(w: &[u16]) -> (r: String)
    ensures
        r@ == lossy_string_of(w@),
        w@.len() == 0 ==> r@.len() == 0,
{
    String::from_utf16_lossy(w)
}

pub proof fn lemma_wide_bytes_len(w: Seq<u16>)
    ensures
        seq_bytes(w).len() == 2 * w.len(),
    decreases w.len(),
{
    lemma_int_bytes_len();
    if w.len() > 0 {
        lemma_wide_bytes_len(w.drop_last());
    }
}

impl From<Vec<u16>> for WideStr {
    /// The string with these code units.
    fn from(data: Vec<u16>) -> (r: WideStr) {
        WideStr(data)
    }
}

impl vstd::std_specs::convert::FromSpecImpl<Vec<u16>> for WideStr {
    open spec fn obeys_from_spec() -> bool {
        true
    }

    open spec fn from_spec(data: Vec<u16>) -> WideStr {
        WideStr(data)
    }
}

impl Wire for WideStr {
    /// The code units, little-endian, with no prefix.
    open spec fn spec_bytes(&self) -> Seq<u8> {
        seq_bytes(self.0@)
    }

    open spec fn writable(&self) -> bool {
        true
    }

    fn size_of(&self) -> (r: usize) {
        proof {
            lemma_wide_bytes_len(self.0@);
        }
        self.0.len() * 2
    }

    fn write(&self, w: &mut Vec<u8>) -> (r: Result<(), WriteError>) {
        proof {
            assert forall|i: int| 0 <= i < self.0@.len() implies #[trigger] self.0@[i].writable() by {}
        }
        write_seq(&self.0, w)
    }
}

impl WideStr {
    /// The wire form with a 16-bit byte-length prefix.
    pub open spec fn spec_bytes_count16(&self) -> Seq<u8> {
        spec_u16_to_le_bytes((2 * self.0@.len()) as u16) + self.spec_bytes()
    }

    /// The wire form with a 32-bit byte-length prefix.
    pub open spec fn spec_bytes_count32(&self) -> Seq<u8> {
        spec_u32_to_le_bytes((2 * self.0@.len()) as u32) + self.spec_bytes()
    }

    pub open spec fn writable_count16(&self) -> bool {
        2 * self.0@.len() <= 0xffff
    }

    pub open spec fn writable_count32(&self) -> bool {
        2 * self.0@.len() <= 0xffff_ffff
    }

    /// The UTF-16 form of `s`.
    pub fn new(s: &str) -> (r: WideStr)
        ensures
            r.0@ == utf16_of(s@),
            lossy_string_of(r.0@) == s@,
    {
        WideStr(encode_utf16(s))
    }

    /// The string the code units spell, with unpaired surrogates replaced.
    pub fn to_str(&self) -> (r: String)
        ensures
            r@ == lossy_string_of(self.0@),
    {
        from_utf16_lossy(self.0.as_slice())
    }

    /// Number of code units.
    pub fn len(&self) -> (r: usize)
        ensures
            r == self.0@.len(),
    {
        self.0.len()
    }

    pub fn is_empty(&self) -> (r: bool)
        ensures
            r <==> self.0@.len() == 0,
    {
        self.0.len() == 0
    }

    /// Decodes the whole span as little-endian code units. With an odd length
    /// the last code unit is cut short, which fails with `Eof` at its byte.
    pub fn parse<'a>(input: Span<'a>) -> (r: Result<(Span<'a>, WideStr), Error>)
        ensures
            r is Ok <==> input.bytes().len() % 2 == 0,
            r matches Ok((rest, ws)) ==> {
                &&& ws.spec_bytes() == input.bytes()
                &&& rest.bytes().len() == 0
                &&& rest.start() == input.end()
                &&& ws.0@.len() * 2 == input.bytes().len()
            },
            r matches Err(e) ==> e.kind == ErrorKind::Eof && e.offset == input.end() - 1,
    {
        let n = input.len();
        if n % 2 != 0 {
            return Err(Error::new(ErrorKind::Eof, input.location_offset() + (n - 1)));
        }
        let mut words: Vec<u16> = Vec::new();
        let mut i: usize = 0;
        while i < n / 2
            invariant
                n == input.bytes().len(),
                n % 2 == 0,
                i <= n / 2,
                words@.len() == i,
                seq_bytes(words@) == input.bytes().take(2 * i),
            decreases n / 2 - i,
        {
            let pair = input.slice(2 * i, 2 * i + 2);
            let word = u16_from_le_bytes(pair.fragment());
            proof {
                lemma_auto_spec_u16_to_from_le_bytes();
                assert(words@.push(word).drop_last() =~= words@);
                assert(input.bytes().take(2 * i + 2) =~= input.bytes().take(2 * i) + pair.bytes());
            }
            words.push(word);
            i = i + 1;
        }
        let rest = input.slice_from(n);
        proof {
            lemma_wide_bytes_len(words@);
            assert(input.bytes().take(2 * i) =~= input.bytes());
        }
        Ok((rest, WideStr(words)))
    }

    /// Appends the code units, little-endian.
    pub fn write(&self, w: &mut Vec<u8>) -> (r: Result<(), WriteError>)
        requires
            self.spec_bytes().len() <= usize::MAX,
        ensures
            r is Ok,
            final(w)@ == old(w)@ + self.spec_bytes(),
    {
        Wire::write(self, w)
    }

    /// Bytes `write` emits.
    pub fn size_of(&self) -> (r: usize)
        requires
            self.spec_bytes().len() <= usize::MAX,
        ensures
            r == self.spec_bytes().len(),
            r == 2 * self.0@.len(),
    {
        proof {
            lemma_wide_bytes_len(self.0@);
        }
        Wire::size_of(self)
    }

    /// Reads a 16-bit byte length, then that many bytes of code units.
    pub fn parse_count16<'a>(input: Span<'a>) -> (r: Result<(Span<'a>, WideStr), Error>)
        ensures
            r matches Ok((rest, ws)) ==> splits(input, ws.spec_bytes_count16(), rest) && ws.writable_count16(),
            r matches Err(e) ==> e.kind == ErrorKind::Eof,
            forall|w: WideStr, t: Seq<u8>| #[trigger] encodes_count16(input.bytes(), w, t)
                ==> (r matches Ok((rest, v)) && v.spec_bytes_count16() == w.spec_bytes_count16()),
    {
        proof {
            lemma_int_bytes_len();
            crate::wire::lemma_int_bytes_injective();
        }
        let (i1, n) = match read_u16(input) {
            Ok(x) => x,
            Err(e) => {
                return Err(e);
            },
        };
        proof {
            assert forall|w: WideStr, t: Seq<u8>| #[trigger] encodes_count16(input.bytes(), w, t)
                implies n == 2 * w.0@.len() && i1.bytes() == w.spec_bytes() + t by {
                lemma_wide_bytes_len(w.0@);
                vstd::seq_lib::lemma_concat_associative(spec_u16_to_le_bytes((2 * w.0@.len()) as u16), w.spec_bytes(), t);
                crate::wire::lemma_cancel(input.bytes(), spec_u16_to_le_bytes(n), i1.bytes(), spec_u16_to_le_bytes((2 * w.0@.len()) as u16), w.spec_bytes() + t);
            }
        }
        let (i2, region) = match take(i1, n as usize) {
            Ok(x) => x,
            Err(e) => {
                proof {
                    assert forall|w: WideStr, t: Seq<u8>| #[trigger] encodes_count16(input.bytes(), w, t) implies false by {
                        lemma_wide_bytes_len(w.0@);
                    }
                }
                return Err(e);
            },
        };
        let (_, ws) = match WideStr::parse(region) {
            Ok(x) => x,
            Err(e) => {
                proof {
                    assert forall|w: WideStr, t: Seq<u8>| #[trigger] encodes_count16(input.bytes(), w, t) implies false by {
                        lemma_wide_bytes_len(w.0@);
                    }
                }
                return Err(e);
            },
        };
        proof {
            assert forall|w: WideStr, t: Seq<u8>| #[trigger] encodes_count16(input.bytes(), w, t)
                implies ws.spec_bytes_count16() == w.spec_bytes_count16() by {
                lemma_wide_bytes_len(w.0@);
                lemma_wide_bytes_len(ws.0@);
                crate::wire::lemma_cancel(i1.bytes(), region.bytes(), i2.bytes(), w.spec_bytes(), t);
            }
        }
        proof {
            crate::span::lemma_splits_chain(input, spec_u16_to_le_bytes(n), i1, region.bytes(), i2);
        }
        Ok((i2, ws))
    }

    /// Appends the 16-bit byte length, then the code units.
    pub fn write_count16(&self, w: &mut Vec<u8>) -> (r: Result<(), WriteError>)
        requires
            self.spec_bytes().len() <= usize::MAX,
        ensures
            r is Ok <==> self.writable_count16(),
            r is Ok ==> final(w)@ == old(w)@ + self.spec_bytes_count16(),
    {
        if self.0.len() > 0x7fff {
            return Err(WriteError::FieldTooLarge);
        }
        write_u16(w, (self.0.len() * 2) as u16);
        let ghost mid = w@;
        self.write(w)?;
        proof {
            vstd::seq_lib::lemma_concat_associative(old(w)@, spec_u16_to_le_bytes((2 * self.0@.len()) as u16), self.spec_bytes());
        }
        Ok(())
    }

    pub fn size_of_count16(&self) -> (r: usize)
        requires
            self.spec_bytes_count16().len() <= usize::MAX,
        ensures
            r == self.spec_bytes_count16().len(),
    {
        proof {
            lemma_int_bytes_len();
        }
        2 + self.size_of()
    }

    /// The wire form with an 8-bit byte-length prefix.
    pub open spec fn spec_bytes_count8(&self) -> Seq<u8> {
        seq![(2 * self.0@.len()) as u8] + self.spec_bytes()
    }

    pub open spec fn writable_count8(&self) -> bool {
        2 * self.0@.len() <= 0xff
    }

    /// Reads an 8-bit byte length, then that many bytes of code units.
    pub fn parse_count8<'a>(input: Span<'a>) -> (r: Result<(Span<'a>, WideStr), Error>)
        ensures
            r matches Ok((rest, ws)) ==> splits(input, ws.spec_bytes_count8(), rest) && ws.writable_count8(),
            r matches Err(e) ==> e.kind == ErrorKind::Eof,
            forall|w: WideStr, t: Seq<u8>| #[trigger] encodes_count8(input.bytes(), w, t)
                ==> (r matches Ok((rest, v)) && v.spec_bytes_count8() == w.spec_bytes_count8()),
    {
        proof {
            lemma_int_bytes_len();
            crate::wire::lemma_int_bytes_injective();
        }
        let (i1, n) = match read_u8(input) {
            Ok(x) => x,
            Err(e) => {
                return Err(e);
            },
        };
        proof {
            assert forall|w: WideStr, t: Seq<u8>| #[trigger] encodes_count8(input.bytes(), w, t)
                implies n == 2 * w.0@.len() && i1.bytes() == w.spec_bytes() + t by {
                lemma_wide_bytes_len(w.0@);
                vstd::seq_lib::lemma_concat_associative(seq![(2 * w.0@.len()) as u8], w.spec_bytes(), t);
                crate::wire::lemma_cancel(input.bytes(), seq![n], i1.bytes(), seq![(2 * w.0@.len()) as u8], w.spec_bytes() + t);
            }
        }
        let (i2, region) = match take(i1, n as usize) {
            Ok(x) => x,
            Err(e) => {
                proof {
                    assert forall|w: WideStr, t: Seq<u8>| #[trigger] encodes_count8(input.bytes(), w, t) implies false by {
                        lemma_wide_bytes_len(w.0@);
                    }
                }
                return Err(e);
            },
        };
        let (_, ws) = match WideStr::parse(region) {
            Ok(x) => x,
            Err(e) => {
                proof {
                    assert forall|w: WideStr, t: Seq<u8>| #[trigger] encodes_count8(input.bytes(), w, t) implies false by {
                        lemma_wide_bytes_len(w.0@);
                    }
                }
                return Err(e);
            },
        };
        proof {
            assert forall|w: WideStr, t: Seq<u8>| #[trigger] encodes_count8(input.bytes(), w, t)
                implies ws.spec_bytes_count8() == w.spec_bytes_count8() by {
                lemma_wide_bytes_len(w.0@);
                lemma_wide_bytes_len(ws.0@);
                crate::wire::lemma_cancel(i1.bytes(), region.bytes(), i2.bytes(), w.spec_bytes(), t);
            }
        }
        proof {
            crate::span::lemma_splits_chain(input, seq![n], i1, region.bytes(), i2);
        }
        Ok((i2, ws))
    }

    /// Appends the 8-bit byte length, then the code units.
    pub fn write_count8(&self, w: &mut Vec<u8>) -> (r: Result<(), WriteError>)
        requires
            self.spec_bytes().len() <= usize::MAX,
        ensures
            r is Ok <==> self.writable_count8(),
            r is Ok ==> final(w)@ == old(w)@ + self.spec_bytes_count8(),
    {
        if self.0.len() > 0x7f {
            return Err(WriteError::FieldTooLarge);
        }
        write_u8(w, (self.0.len() * 2) as u8);
        self.write(w)?;
        proof {
            vstd::seq_lib::lemma_concat_associative(old(w)@, seq![(2 * self.0@.len()) as u8], self.spec_bytes());
        }
        Ok(())
    }

    pub fn size_of_count8(&self) -> (r: usize)
        requires
            self.spec_bytes_count8().len() <= usize::MAX,
        ensures
            r == self.spec_bytes_count8().len(),
    {
        1 + self.size_of()
    }

    /// Reads a 32-bit byte length, then that many bytes of code units.
    pub fn parse_count32<'a>(input: Span<'a>) -> (r: Result<(Span<'a>, WideStr), Error>)
        ensures
            r matches Ok((rest, ws)) ==> splits(input, ws.spec_bytes_count32(), rest) && ws.writable_count32(),
            r matches Err(e) ==> e.kind == ErrorKind::Eof,
            forall|w: WideStr, t: Seq<u8>| #[trigger] encodes_count32(input.bytes(), w, t)
                ==> (r matches Ok((rest, v)) && v.spec_bytes_count32() == w.spec_bytes_count32()),
    {
        proof {
            lemma_int_bytes_len();
            crate::wire::lemma_int_bytes_injective();
        }
        let (i1, n) = match read_u32(input) {
            Ok(x) => x,
            Err(e) => {
                return Err(e);
            },
        };
        proof {
            assert forall|w: WideStr, t: Seq<u8>| #[trigger] encodes_count32(input.bytes(), w, t)
                implies n == 2 * w.0@.len() && i1.bytes() == w.spec_bytes() + t by {
                lemma_wide_bytes_len(w.0@);
                vstd::seq_lib::lemma_concat_associative(spec_u32_to_le_bytes((2 * w.0@.len()) as u32), w.spec_bytes(), t);
                crate::wire::lemma_cancel(input.bytes(), spec_u32_to_le_bytes(n), i1.bytes(), spec_u32_to_le_bytes((2 * w.0@.len()) as u32), w.spec_bytes() + t);
            }
        }
        let (i2, region) = match take(i1, n as usize) {
            Ok(x) => x,
            Err(e) => {
                proof {
                    assert forall|w: WideStr, t: Seq<u8>| #[trigger] encodes_count32(input.bytes(), w, t) implies false by {
                        lemma_wide_bytes_len(w.0@);
                    }
                }
                return Err(e);
            },
        };
        let (_, ws) = match WideStr::parse(region) {
            Ok(x) => x,
            Err(e) => {
                proof {
                    assert forall|w: WideStr, t: Seq<u8>| #[trigger] encodes_count32(input.bytes(), w, t) implies false by {
                        lemma_wide_bytes_len(w.0@);
                    }
                }
                return Err(e);
            },
        };
        proof {
            assert forall|w: WideStr, t: Seq<u8>| #[trigger] encodes_count32(input.bytes(), w, t)
                implies ws.spec_bytes_count32() == w.spec_bytes_count32() by {
                lemma_wide_bytes_len(w.0@);
                lemma_wide_bytes_len(ws.0@);
                crate::wire::lemma_cancel(i1.bytes(), region.bytes(), i2.bytes(), w.spec_bytes(), t);
            }
        }
        proof {
            crate::span::lemma_splits_chain(input, spec_u32_to_le_bytes(n), i1, region.bytes(), i2);
        }
        Ok((i2, ws))
    }

    /// Appends the 32-bit byte length, then the code units.
    pub fn write_count32(&self, w: &mut Vec<u8>) -> (r: Result<(), WriteError>)
        requires
            self.spec_bytes().len() <= usize::MAX,
        ensures
            r is Ok <==> self.writable_count32(),
            r is Ok ==> final(w)@ == old(w)@ + self.spec_bytes_count32(),
    {
        if self.0.len() > 0x7fff_ffff {
            return Err(WriteError::FieldTooLarge);
        }
        write_u32(w, (self.0.len() * 2) as u32);
        self.write(w)?;
        proof {
            vstd::seq_lib::lemma_concat_associative(old(w)@, spec_u32_to_le_bytes((2 * self.0@.len()) as u32), self.spec_bytes());
        }
        Ok(())
    }

    pub fn size_of_count32(&self) -> (r: usize)
        requires
            self.spec_bytes_count32().len() <= usize::MAX,
        ensures
            r == self.spec_bytes_count32().len(),
    {
        proof {
            lemma_int_bytes_len();
        }
        4 + self.size_of()
    }
}

/// Strings one after the other, each with its 16-bit byte-length prefix.
pub open spec fn wide16_list_bytes(s: Seq<WideStr>) -> Seq<u8>
    decreases s.len(),
{
    if s.len() == 0 {
        Seq::empty()
    } else {
        wide16_list_bytes(s.drop_last()) + s.last().spec_bytes_count16()
    }
}

pub open spec fn wide16_list_writable(s: Seq<WideStr>) -> bool {
    forall|i: int| 0 <= i < s.len() ==> (#[trigger] s[i]).writable_count16()
}

proof fn lemma_wide16_list_step(s: Seq<WideStr>, i: int)
    requires
        0 <= i < s.len(),
    ensures
        wide16_list_bytes(s.take(i + 1)) == wide16_list_bytes(s.take(i)) + s[i].spec_bytes_count16(),
{
    assert(s.take(i + 1).drop_last() =~= s.take(i));
}

proof fn lemma_wide16_list_prefix_len(s: Seq<WideStr>, i: int)
    requires
        0 <= i <= s.len(),
    ensures
        wide16_list_bytes(s.take(i)).len() <= wide16_list_bytes(s).len(),
    decreases s.len() - i,
{
    if i < s.len() {
        lemma_wide16_list_step(s, i);
        lemma_wide16_list_prefix_len(s, i + 1);
    } else {
        assert(s.take(i) =~= s);
    }
}

/// Reads `n` strings, each with its 16-bit byte-length prefix.
pub fn parse_wide16_list<'a>(input: Span<'a>, n: usize) -> (r: Result<(Span<'a>, Vec<WideStr>), Error>)
    ensures
        r matches Ok((rest, v)) ==> {
            &&& splits(input, wide16_list_bytes(v@), rest)
            &&& v@.len() == n
            &&& wide16_list_writable(v@)
        },
        r matches Err(e) ==> e.kind == ErrorKind::Eof,
        forall|ws: Seq<WideStr>, t: Seq<u8>| #[trigger] encodes_wide16_list(input.bytes(), ws, t) && ws.len() == n
            ==> (r matches Ok((rest, v)) && wide16_list_bytes(v@) == wide16_list_bytes(ws)),
{
    let mut items: Vec<WideStr> = Vec::new();
    let mut cur = input;
    let mut i: usize = 0;
    proof {
        assert(input.bytes() =~= Seq::<u8>::empty() + cur.bytes());
        assert forall|ws: Seq<WideStr>, t: Seq<u8>| #[trigger] encodes_wide16_list(input.bytes(), ws, t) && ws.len() == n
            implies wide16_list_bytes(items@) == wide16_list_bytes(ws.take(0))
                && cur.bytes() == wide16_list_bytes_from(ws, 0) + t by {
            lemma_wide16_list_split(ws, 0);
            assert(ws.take(0).len() == 0);
            assert(wide16_list_bytes(ws) =~= wide16_list_bytes_from(ws, 0));
        }
    }
    while i < n
        invariant
            i <= n,
            items@.len() == i,
            splits(input, wide16_list_bytes(items@), cur),
            wide16_list_writable(items@),
            forall|ws: Seq<WideStr>, t: Seq<u8>| #[trigger] encodes_wide16_list(input.bytes(), ws, t) && ws.len() == n
                ==> wide16_list_bytes(items@) == wide16_list_bytes(ws.take(i as int))
                    && cur.bytes() == wide16_list_bytes_from(ws, i as int) + t,
        decreases n - i,
    {
        let ghost before = cur;
        match WideStr::parse_count16(cur) {
            Ok((rest, v)) => {
                proof {
                    let old_items = items@;
                    assert(old_items.push(v).drop_last() =~= old_items);
                    crate::span::lemma_splits_chain(input, wide16_list_bytes(old_items), cur, v.spec_bytes_count16(), rest);
                    assert forall|ws: Seq<WideStr>, t: Seq<u8>| #[trigger] encodes_wide16_list(input.bytes(), ws, t) && ws.len() == n
                        implies wide16_list_bytes(old_items.push(v)) == wide16_list_bytes(ws.take(i + 1))
                            && rest.bytes() == wide16_list_bytes_from(ws, i + 1) + t by {
                        vstd::seq_lib::lemma_concat_associative(ws[i as int].spec_bytes_count16(), wide16_list_bytes_from(ws, i + 1), t);
                        assert(encodes_count16(before.bytes(), ws[i as int], wide16_list_bytes_from(ws, i + 1) + t));
                        crate::wire::lemma_cancel(before.bytes(), v.spec_bytes_count16(), rest.bytes(), ws[i as int].spec_bytes_count16(), wide16_list_bytes_from(ws, i + 1) + t);
                        lemma_wide16_list_step(ws, i as int);
                    }
                }
                items.push(v);
                cur = rest;
                i = i + 1;
            },
            Err(e) => {
                proof {
                    assert forall|ws: Seq<WideStr>, t: Seq<u8>| #[trigger] encodes_wide16_list(input.bytes(), ws, t) && ws.len() == n
                        implies false by {
                        vstd::seq_lib::lemma_concat_associative(ws[i as int].spec_bytes_count16(), wide16_list_bytes_from(ws, i + 1), t);
                        assert(encodes_count16(before.bytes(), ws[i as int], wide16_list_bytes_from(ws, i + 1) + t));
                    }
                }
                return Err(e);
            },
        }
    }
    proof {
        assert forall|ws: Seq<WideStr>, t: Seq<u8>| #[trigger] encodes_wide16_list(input.bytes(), ws, t) && ws.len() == n
            implies wide16_list_bytes(items@) == wide16_list_bytes(ws) by {
            assert(ws.take(n as int) =~= ws);
        }
    }
    Ok((cur, items))
}

/// `b` is the strings `ws`, each with its prefix, followed by `t`.
pub open spec fn encodes_wide16_list(b: Seq<u8>, ws: Seq<WideStr>, t: Seq<u8>) -> bool {
    &&& b == wide16_list_bytes(ws) + t
    &&& wide16_list_writable(ws)
}

pub open spec fn wide16_list_bytes_from(ws: Seq<WideStr>, i: int) -> Seq<u8>
    decreases ws.len() - i,
{
    if i < 0 || i >= ws.len() {
        Seq::empty()
    } else {
        ws[i].spec_bytes_count16() + wide16_list_bytes_from(ws, i + 1)
    }
}

proof fn lemma_wide16_list_split(ws: Seq<WideStr>, i: int)
    requires
        0 <= i <= ws.len(),
    ensures
        wide16_list_bytes(ws) == wide16_list_bytes(ws.take(i)) + wide16_list_bytes_from(ws, i),
    decreases ws.len() - i,
{
    if i == ws.len() {
        assert(ws.take(i) =~= ws);
        assert(wide16_list_bytes(ws) =~= wide16_list_bytes(ws.take(i)) + Seq::<u8>::empty());
    } else {
        lemma_wide16_list_split(ws, i + 1);
        lemma_wide16_list_step(ws, i);
        vstd::seq_lib::lemma_concat_associative(wide16_list_bytes(ws.take(i)), ws[i].spec_bytes_count16(), wide16_list_bytes_from(ws, i + 1));
    }
}

/// Appends each string with its 16-bit byte-length prefix.
pub fn write_wide16_list(items: &Vec<WideStr>, w: &mut Vec<u8>) -> (r: Result<(), WriteError>)
    requires
        wide16_list_bytes(items@).len() <= usize::MAX,
    ensures
        r is Ok <==> wide16_list_writable(items@),
        r is Ok ==> final(w)@ == old(w)@ + wide16_list_bytes(items@),
{
    let mut i: usize = 0;
    proof {
        assert(items@.take(0) =~= Seq::<WideStr>::empty());
        assert(w@ =~= old(w)@ + Seq::<u8>::empty());
    }
    while i < items.len()
        invariant
            i <= items@.len(),
            wide16_list_bytes(items@).len() <= usize::MAX,
            w@ == old(w)@ + wide16_list_bytes(items@.take(i as int)),
            forall|j: int| 0 <= j < i ==> (#[trigger] items@[j]).writable_count16(),
        decreases items@.len() - i,
    {
        proof {
            lemma_wide16_list_step(items@, i as int);
            lemma_wide16_list_prefix_len(items@, i + 1);
        }
        items[i].write_count16(w)?;
        proof {
            assert(w@ =~= old(w)@ + wide16_list_bytes(items@.take(i + 1)));
        }
        i = i + 1;
    }
    proof {
        assert(items@.take(i as int) =~= items@);
    }
    Ok(())
}

/// Bytes `write_wide16_list` emits.
pub fn size_of_wide16_list(items: &Vec<WideStr>) -> (r: usize)
    requires
        wide16_list_bytes(items@).len() <= usize::MAX,
    ensures
        r == wide16_list_bytes(items@).len(),
{
    let mut total: usize = 0;
    let mut i: usize = 0;
    proof {
        assert(items@.take(0) =~= Seq::<WideStr>::empty());
    }
    while i < items.len()
        invariant
            i <= items@.len(),
            wide16_list_bytes(items@).len() <= usize::MAX,
            total == wide16_list_bytes(items@.take(i as int)).len(),
        decreases items@.len() - i,
    {
        proof {
            lemma_wide16_list_step(items@, i as int);
            lemma_wide16_list_prefix_len(items@, i + 1);
        }
        total = total + items[i].size_of_count16();
        i = i + 1;
    }
    proof {
        assert(items@.take(i as int) =~= items@);
    }
    total
}

/// Strings one after the other, each with its 8-bit byte-length prefix.
pub open spec fn wide8_list_bytes(s: Seq<WideStr>) -> Seq<u8>
    decreases s.len(),
{
    if s.len() == 0 {
        Seq::empty()
    } else {
        wide8_list_bytes(s.drop_last()) + s.last().spec_bytes_count8()
    }
}

pub open spec fn wide8_list_writable(s: Seq<WideStr>) -> bool {
    forall|i: int| 0 <= i < s.len() ==> (#[trigger] s[i]).writable_count8()
}

proof fn lemma_wide8_list_step(s: Seq<WideStr>, i: int)
    requires
        0 <= i < s.len(),
    ensures
        wide8_list_bytes(s.take(i + 1)) == wide8_list_bytes(s.take(i)) + s[i].spec_bytes_count8(),
{
    assert(s.take(i + 1).drop_last() =~= s.take(i));
}

proof fn lemma_wide8_list_prefix_len(s: Seq<WideStr>, i: int)
    requires
        0 <= i <= s.len(),
    ensures
        wide8_list_bytes(s.take(i)).len() <= wide8_list_bytes(s).len(),
    decreases s.len() - i,
{
    if i < s.len() {
        lemma_wide8_list_step(s, i);
        lemma_wide8_list_prefix_len(s, i + 1);
    } else {
        assert(s.take(i) =~= s);
    }
}

/// Reads `n` strings, each with its 8-bit byte-length prefix.
pub fn parse_wide8_list<'a>(input: Span<'a>, n: usize) -> (r: Result<(Span<'a>, Vec<WideStr>), Error>)
    ensures
        r matches Ok((rest, v)) ==> {
            &&& splits(input, wide8_list_bytes(v@), rest)
            &&& v@.len() == n
            &&& wide8_list_writable(v@)
        },
        r matches Err(e) ==> e.kind == ErrorKind::Eof,
        forall|ws: Seq<WideStr>, t: Seq<u8>| #[trigger] encodes_wide8_list(input.bytes(), ws, t) && ws.len() == n
            ==> (r matches Ok((rest, v)) && wide8_list_bytes(v@) == wide8_list_bytes(ws)),
{
    let mut items: Vec<WideStr> = Vec::new();
    let mut cur = input;
    let mut i: usize = 0;
    proof {
        assert(input.bytes() =~= Seq::<u8>::empty() + cur.bytes());
        assert forall|ws: Seq<WideStr>, t: Seq<u8>| #[trigger] encodes_wide8_list(input.bytes(), ws, t) && ws.len() == n
            implies wide8_list_bytes(items@) == wide8_list_bytes(ws.take(0))
                && cur.bytes() == wide8_list_bytes_from(ws, 0) + t by {
            lemma_wide8_list_split(ws, 0);
            assert(ws.take(0).len() == 0);
            assert(wide8_list_bytes(ws) =~= wide8_list_bytes_from(ws, 0));
        }
    }
    while i < n
        invariant
            i <= n,
            items@.len() == i,
            splits(input, wide8_list_bytes(items@), cur),
            wide8_list_writable(items@),
            forall|ws: Seq<WideStr>, t: Seq<u8>| #[trigger] encodes_wide8_list(input.bytes(), ws, t) && ws.len() == n
                ==> wide8_list_bytes(items@) == wide8_list_bytes(ws.take(i as int))
                    && cur.bytes() == wide8_list_bytes_from(ws, i as int) + t,
        decreases n - i,
    {
        let ghost before = cur;
        match WideStr::parse_count8(cur) {
            Ok((rest, v)) => {
                proof {
                    let old_items = items@;
                    assert(old_items.push(v).drop_last() =~= old_items);
                    crate::span::lemma_splits_chain(input, wide8_list_bytes(old_items), cur, v.spec_bytes_count8(), rest);
                    assert forall|ws: Seq<WideStr>, t: Seq<u8>| #[trigger] encodes_wide8_list(input.bytes(), ws, t) && ws.len() == n
                        implies wide8_list_bytes(old_items.push(v)) == wide8_list_bytes(ws.take(i + 1))
                            && rest.bytes() == wide8_list_bytes_from(ws, i + 1) + t by {
                        vstd::seq_lib::lemma_concat_associative(ws[i as int].spec_bytes_count8(), wide8_list_bytes_from(ws, i + 1), t);
                        assert(encodes_count8(before.bytes(), ws[i as int], wide8_list_bytes_from(ws, i + 1) + t));
                        crate::wire::lemma_cancel(before.bytes(), v.spec_bytes_count8(), rest.bytes(), ws[i as int].spec_bytes_count8(), wide8_list_bytes_from(ws, i + 1) + t);
                        lemma_wide8_list_step(ws, i as int);
                    }
                }
                items.push(v);
                cur = rest;
                i = i + 1;
            },
            Err(e) => {
                proof {
                    assert forall|ws: Seq<WideStr>, t: Seq<u8>| #[trigger] encodes_wide8_list(input.bytes(), ws, t) && ws.len() == n
                        implies false by {
                        vstd::seq_lib::lemma_concat_associative(ws[i as int].spec_bytes_count8(), wide8_list_bytes_from(ws, i + 1), t);
                        assert(encodes_count8(before.bytes(), ws[i as int], wide8_list_bytes_from(ws, i + 1) + t));
                    }
                }
                return Err(e);
            },
        }
    }
    proof {
        assert forall|ws: Seq<WideStr>, t: Seq<u8>| #[trigger] encodes_wide8_list(input.bytes(), ws, t) && ws.len() == n
            implies wide8_list_bytes(items@) == wide8_list_bytes(ws) by {
            assert(ws.take(n as int) =~= ws);
        }
    }
    Ok((cur, items))
}

/// `b` is the strings `ws`, each with its prefix, followed by `t`.
pub open spec fn encodes_wide8_list(b: Seq<u8>, ws: Seq<WideStr>, t: Seq<u8>) -> bool {
    &&& b == wide8_list_bytes(ws) + t
    &&& wide8_list_writable(ws)
}

pub open spec fn wide8_list_bytes_from(ws: Seq<WideStr>, i: int) -> Seq<u8>
    decreases ws.len() - i,
{
    if i < 0 || i >= ws.len() {
        Seq::empty()
    } else {
        ws[i].spec_bytes_count8() + wide8_list_bytes_from(ws, i + 1)
    }
}

proof fn lemma_wide8_list_split(ws: Seq<WideStr>, i: int)
    requires
        0 <= i <= ws.len(),
    ensures
        wide8_list_bytes(ws) == wide8_list_bytes(ws.take(i)) + wide8_list_bytes_from(ws, i),
    decreases ws.len() - i,
{
    if i == ws.len() {
        assert(ws.take(i) =~= ws);
        assert(wide8_list_bytes(ws) =~= wide8_list_bytes(ws.take(i)) + Seq::<u8>::empty());
    } else {
        lemma_wide8_list_split(ws, i + 1);
        lemma_wide8_list_step(ws, i);
        vstd::seq_lib::lemma_concat_associative(wide8_list_bytes(ws.take(i)), ws[i].spec_bytes_count8(), wide8_list_bytes_from(ws, i + 1));
    }
}

/// Appends each string with its 8-bit byte-length prefix.
pub fn write_wide8_list(items: &Vec<WideStr>, w: &mut Vec<u8>) -> (r: Result<(), WriteError>)
    requires
        wide8_list_bytes(items@).len() <= usize::MAX,
    ensures
        r is Ok <==> wide8_list_writable(items@),
        r is Ok ==> final(w)@ == old(w)@ + wide8_list_bytes(items@),
{
    let mut i: usize = 0;
    proof {
        assert(items@.take(0) =~= Seq::<WideStr>::empty());
        assert(w@ =~= old(w)@ + Seq::<u8>::empty());
    }
    while i < items.len()
        invariant
            i <= items@.len(),
            wide8_list_bytes(items@).len() <= usize::MAX,
            w@ == old(w)@ + wide8_list_bytes(items@.take(i as int)),
            forall|j: int| 0 <= j < i ==> (#[trigger] items@[j]).writable_count8(),
        decreases items@.len() - i,
    {
        proof {
            lemma_wide8_list_step(items@, i as int);
            lemma_wide8_list_prefix_len(items@, i + 1);
        }
        items[i].write_count8(w)?;
        proof {
            assert(w@ =~= old(w)@ + wide8_list_bytes(items@.take(i + 1)));
        }
        i = i + 1;
    }
    proof {
        assert(items@.take(i as int) =~= items@);
    }
    Ok(())
}

/// Bytes `write_wide8_list` emits.
pub fn size_of_wide8_list(items: &Vec<WideStr>) -> (r: usize)
    requires
        wide8_list_bytes(items@).len() <= usize::MAX,
    ensures
        r == wide8_list_bytes(items@).len(),
{
    let mut total: usize = 0;
    let mut i: usize = 0;
    proof {
        assert(items@.take(0) =~= Seq::<WideStr>::empty());
    }
    while i < items.len()
        invariant
            i <= items@.len(),
            wide8_list_bytes(items@).len() <= usize::MAX,
            total == wide8_list_bytes(items@.take(i as int)).len(),
        decreases items@.len() - i,
    {
        proof {
            lemma_wide8_list_step(items@, i as int);
            lemma_wide8_list_prefix_len(items@, i + 1);
        }
        total = total + items[i].size_of_count8();
        i = i + 1;
    }
    proof {
        assert(items@.take(i as int) =~= items@);
    }
    total
}

/// `b` is the wire form of `w` with a 16-bit byte-length prefix, followed by `t`.
pub open spec fn encodes_count16(b: Seq<u8>, w: WideStr, t: Seq<u8>) -> bool {
    &&& b == w.spec_bytes_count16() + t
    &&& w.writable_count16()
}

/// `b` is the wire form of `w` with a 32-bit byte-length prefix, followed by `t`.
pub open spec fn encodes_count32(b: Seq<u8>, w: WideStr, t: Seq<u8>) -> bool {
    &&& b == w.spec_bytes_count32() + t
    &&& w.writable_count32()
}

/// `b` is the wire form of `w` with a 8-bit byte-length prefix, followed by `t`.
pub open spec fn encodes_count8(b: Seq<u8>, w: WideStr, t: Seq<u8>) -> bool {
    &&& b == w.spec_bytes_count8() + t
    &&& w.writable_count8()
}

} // verus!
