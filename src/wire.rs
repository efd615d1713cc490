use vstd::prelude::*;
use vstd::bytes::*;

use crate::error::{Error, ErrorKind, WriteError};
use crate::span::{splits, within, Span};

verus! {

/// A value with a byte-exact wire form.
pub trait Wire: Sized {
    /// The bytes `write` emits for the value.
    spec fn spec_bytes(&self) -> Seq<u8>;

    /// Every length the value carries fits the width of its prefix field.
    spec fn writable(&self) -> bool;

    /// The number of bytes `write` emits, computed without writing.
    fn size_of(&self) -> (r: usize)
        requires
            self.spec_bytes().len() <= usize::MAX,
        ensures
            r == self.spec_bytes().len(),
    ;

    /// Appends the wire form to `w`; fails when a length overflows its prefix.
    fn write(&self, w: &mut Vec<u8>) -> (r: Result<(), WriteError>)
        requires
            self.spec_bytes().len() <= usize::MAX,
        ensures
            r is Ok <==> self.writable(),
            r is Ok ==> final(w)@ == old(w)@ + self.spec_bytes(),
    ;
}

/// A value decoded from the front of a span.
pub trait Parse<'a>: Wire {
    /// Decodes one value; on success the consumed bytes are exactly what
    /// `write` emits for the value, and the rest of the span follows them.
    /// Decoding succeeds whenever the span starts with what `write` emits for
    /// some value, and then consumes exactly those bytes.
    fn parse(input: Span<'a>) -> (r: Result<(Span<'a>, Self), Error>)
        ensures
            r matches Ok((rest, v)) ==> parsed(input, v, rest),
            r matches Err(e) ==> e.kind == ErrorKind::Eof,
            forall|w: Self, t: Seq<u8>| #[trigger] encodes(input.bytes(), w, t)
                ==> (r matches Ok((rest, v)) && v.spec_bytes() == w.spec_bytes()),
    ;
}

/// `b` starts with the wire form of some writable value of type `T`.
pub open spec fn decodable<T: Wire>(b: Seq<u8>) -> bool {
    exists|d: T, t: Seq<u8>| #[trigger] encodes(b, d, t)
}

/// `b` is the wire form of the writable value `w`, followed by `t`.
pub open spec fn encodes<T: Wire>(b: Seq<u8>, w: T, t: Seq<u8>) -> bool {
    &&& b == w.spec_bytes() + t
    &&& w.writable()
}

/// Two ways of cutting the same bytes after the same length agree.
pub proof fn lemma_cancel(b: Seq<u8>, x: Seq<u8>, s1: Seq<u8>, y: Seq<u8>, s2: Seq<u8>)
    requires
        b == x + s1,
        b == y + s2,
        x.len() == y.len(),
    ensures
        x == y,
        s1 == s2,
{
    assert(x =~= b.take(x.len() as int));
    assert(y =~= b.take(x.len() as int));
    assert(s1 =~= b.skip(x.len() as int));
    assert(s2 =~= b.skip(x.len() as int));
}

/// Little-endian encodings determine their values.
pub proof fn lemma_int_bytes_injective()
    ensures
        forall|a: u16, b: u16| #[trigger] spec_u16_to_le_bytes(a) == #[trigger] spec_u16_to_le_bytes(b) ==> a == b,
        forall|a: u32, b: u32| #[trigger] spec_u32_to_le_bytes(a) == #[trigger] spec_u32_to_le_bytes(b) ==> a == b,
        forall|a: u64, b: u64| #[trigger] spec_u64_to_le_bytes(a) == #[trigger] spec_u64_to_le_bytes(b) ==> a == b,
        forall|a: u8, b: u8| #[trigger] seq![a] == #[trigger] seq![b] ==> a == b,
{
    lemma_auto_spec_u16_to_from_le_bytes();
    lemma_auto_spec_u32_to_from_le_bytes();
    lemma_auto_spec_u64_to_from_le_bytes();
    assert forall|a: u16, b: u16| #[trigger] spec_u16_to_le_bytes(a) == #[trigger] spec_u16_to_le_bytes(b) implies a == b by {
        assert(spec_u16_to_le_bytes(a).len() == 2);
        assert(spec_u16_to_le_bytes(b).len() == 2);
        assert(spec_u16_from_le_bytes(spec_u16_to_le_bytes(a)) == a);
        assert(spec_u16_from_le_bytes(spec_u16_to_le_bytes(b)) == b);
    }
    assert forall|a: u32, b: u32| #[trigger] spec_u32_to_le_bytes(a) == #[trigger] spec_u32_to_le_bytes(b) implies a == b by {
        assert(spec_u32_to_le_bytes(a).len() == 4);
        assert(spec_u32_to_le_bytes(b).len() == 4);
        assert(spec_u32_from_le_bytes(spec_u32_to_le_bytes(a)) == a);
        assert(spec_u32_from_le_bytes(spec_u32_to_le_bytes(b)) == b);
    }
    assert forall|a: u64, b: u64| #[trigger] spec_u64_to_le_bytes(a) == #[trigger] spec_u64_to_le_bytes(b) implies a == b by {
        assert(spec_u64_to_le_bytes(a).len() == 8);
        assert(spec_u64_to_le_bytes(b).len() == 8);
        assert(spec_u64_from_le_bytes(spec_u64_to_le_bytes(a)) == a);
        assert(spec_u64_from_le_bytes(spec_u64_to_le_bytes(b)) == b);
    }
    assert forall|a: u8, b: u8| #[trigger] seq![a] == #[trigger] seq![b] implies a == b by {
        assert(seq![a][0] == seq![b][0]);
    }
}

/// `input` decodes to `v` followed by `rest`.
pub open spec fn parsed<T: Wire>(input: Span, v: T, rest: Span) -> bool {
    &&& splits(input, v.spec_bytes(), rest)
    &&& v.writable()
}

/// Writing a decoded value gives back exactly the bytes it was decoded from:
/// `write` succeeds on it and emits `spec_bytes`, which are the consumed bytes.
pub proof fn lemma_write_parse_round_trip<T: Wire>(input: Span, v: T, rest: Span)
    requires
        parsed(input, v, rest),
    ensures
        v.writable(),
        v.spec_bytes() == input.bytes().take(input.bytes().len() - rest.bytes().len()),
{
    assert(v.spec_bytes() =~= input.bytes().take(input.bytes().len() - rest.bytes().len()));
}

/// What `write` appends is exactly as long as `size_of` says.
pub proof fn lemma_size_of_matches_write<T: Wire>(v: T, before: Seq<u8>, after: Seq<u8>)
    requires
        after == before + v.spec_bytes(),
    ensures
        after.len() - before.len() == v.spec_bytes().len(),
{
}

/// The wire form of a sequence of values, one after the other.
pub open spec fn seq_bytes<T: Wire>(s: Seq<T>) -> Seq<u8>
    decreases s.len(),
{
    if s.len() == 0 {
        Seq::empty()
    } else {
        seq_bytes(s.drop_last()) + s.last().spec_bytes()
    }
}

pub open spec fn all_writable<T: Wire>(s: Seq<T>) -> bool {
    forall|i: int| 0 <= i < s.len() ==> #[trigger] s[i].writable()
}

pub proof fn lemma_seq_bytes_step<T: Wire>(s: Seq<T>, i: int)
    requires
        0 <= i < s.len(),
    ensures
        seq_bytes(s.take(i + 1)) == seq_bytes(s.take(i)) + s[i].spec_bytes(),
{
    assert(s.take(i + 1).drop_last() =~= s.take(i));
}

pub proof fn lemma_seq_bytes_prefix_len<T: Wire>(s: Seq<T>, i: int)
    requires
        0 <= i <= s.len(),
    ensures
        seq_bytes(s.take(i)).len() <= seq_bytes(s).len(),
    decreases s.len() - i,
{
    if i < s.len() {
        lemma_seq_bytes_step(s, i);
        lemma_seq_bytes_prefix_len(s, i + 1);
    } else {
        assert(s.take(i) =~= s);
    }
}

/// Decodes `n` values one after the other.
pub fn parse_count<'a, T: Parse<'a>>(input: Span<'a>, n: usize) -> (r: Result<(Span<'a>, Vec<T>), Error>)
    ensures
        r matches Ok((rest, v)) ==> {
            &&& splits(input, seq_bytes(v@), rest)
            &&& v@.len() == n
            &&& all_writable(v@)
        },
        r matches Err(e) ==> e.kind == ErrorKind::Eof,
        forall|ws: Seq<T>, t: Seq<u8>| #[trigger] encodes_seq(input.bytes(), ws, t) && ws.len() == n
            ==> (r matches Ok((rest, v)) && seq_bytes(v@) == seq_bytes(ws)),
{
    let mut items: Vec<T> = Vec::new();
    let mut cur = input;
    let mut i: usize = 0;
    proof {
        assert(input.bytes() =~= seq_bytes(items@) + cur.bytes());
        assert forall|ws: Seq<T>, t: Seq<u8>| #[trigger] encodes_seq(input.bytes(), ws, t) && ws.len() == n
            implies seq_bytes(items@) == seq_bytes(ws.take(0))
                && cur.bytes() == seq_bytes_from(ws, 0) + t by {
            lemma_seq_bytes_split(ws, 0);
            assert(ws.take(0).len() == 0);
            assert(seq_bytes(ws) =~= seq_bytes_from(ws, 0));
        }
    }
    while i < n
        invariant
            i <= n,
            items@.len() == i,
            splits(input, seq_bytes(items@), cur),
            all_writable(items@),
            forall|ws: Seq<T>, t: Seq<u8>| #[trigger] encodes_seq(input.bytes(), ws, t) && ws.len() == n
                ==> seq_bytes(items@) == seq_bytes(ws.take(i as int))
                    && cur.bytes() == seq_bytes_from(ws, i as int) + t,
        decreases n - i,
    {
        let ghost before = cur;
        match T::parse(cur) {
            Ok((rest, v)) => {
                proof {
                    let old_items = items@;
                    assert(old_items.push(v).drop_last() =~= old_items);
                    assert(input.bytes() =~= seq_bytes(old_items.push(v)) + rest.bytes());
                    assert forall|ws: Seq<T>, t: Seq<u8>| #[trigger] encodes_seq(input.bytes(), ws, t) && ws.len() == n
                        implies seq_bytes(old_items.push(v)) == seq_bytes(ws.take(i + 1))
                            && rest.bytes() == seq_bytes_from(ws, i + 1) + t by {
                        lemma_seq_bytes_from_step(ws, i as int, t);
                        assert(encodes(before.bytes(), ws[i as int], seq_bytes_from(ws, i + 1) + t));
                        lemma_cancel(before.bytes(), v.spec_bytes(), rest.bytes(), ws[i as int].spec_bytes(), seq_bytes_from(ws, i + 1) + t);
                        lemma_seq_bytes_step(ws, i as int);
                    }
                }
                items.push(v);
                cur = rest;
                i = i + 1;
            },
            Err(e) => {
                proof {
                    assert forall|ws: Seq<T>, t: Seq<u8>| #[trigger] encodes_seq(input.bytes(), ws, t) && ws.len() == n
                        implies false by {
                        lemma_seq_bytes_from_step(ws, i as int, t);
                        assert(encodes(before.bytes(), ws[i as int], seq_bytes_from(ws, i + 1) + t));
                    }
                }
                return Err(e);
            },
        }
    }
    proof {
        assert forall|ws: Seq<T>, t: Seq<u8>| #[trigger] encodes_seq(input.bytes(), ws, t) && ws.len() == n
            implies seq_bytes(items@) == seq_bytes(ws) by {
            assert(ws.take(n as int) =~= ws);
        }
    }
    Ok((cur, items))
}

/// `b` is the wire forms of the writable values `ws`, followed by `t`.
pub open spec fn encodes_seq<T: Wire>(b: Seq<u8>, ws: Seq<T>, t: Seq<u8>) -> bool {
    &&& b == seq_bytes(ws) + t
    &&& all_writable(ws)
}

/// The wire forms of the values of `ws` from index `i` on.
pub open spec fn seq_bytes_from<T: Wire>(ws: Seq<T>, i: int) -> Seq<u8>
    decreases ws.len() - i,
{
    if i < 0 || i >= ws.len() {
        Seq::empty()
    } else {
        ws[i].spec_bytes() + seq_bytes_from(ws, i + 1)
    }
}

pub proof fn lemma_seq_bytes_split<T: Wire>(ws: Seq<T>, i: int)
    requires
        0 <= i <= ws.len(),
    ensures
        seq_bytes(ws) == seq_bytes(ws.take(i)) + seq_bytes_from(ws, i),
    decreases ws.len() - i,
{
    if i == ws.len() {
        assert(ws.take(i) =~= ws);
        assert(seq_bytes(ws) =~= seq_bytes(ws.take(i)) + Seq::<u8>::empty());
    } else {
        lemma_seq_bytes_split(ws, i + 1);
        lemma_seq_bytes_step(ws, i);
        vstd::seq_lib::lemma_concat_associative(seq_bytes(ws.take(i)), ws[i].spec_bytes(), seq_bytes_from(ws, i + 1));
    }
}

/// Where the first `i` values have been read from `b`, the rest starts with
/// the wire form of value `i`.
pub proof fn lemma_seq_bytes_from_step<T: Wire>(ws: Seq<T>, i: int, t: Seq<u8>)
    requires
        0 <= i < ws.len(),
    ensures
        seq_bytes_from(ws, i) + t == ws[i].spec_bytes() + (seq_bytes_from(ws, i + 1) + t),
{
    vstd::seq_lib::lemma_concat_associative(ws[i].spec_bytes(), seq_bytes_from(ws, i + 1), t);
}

/// Appends the wire form of every item in order.
pub fn write_seq<T: Wire>(items: &Vec<T>, w: &mut Vec<u8>) -> (r: Result<(), WriteError>)
    requires
        seq_bytes(items@).len() <= usize::MAX,
    ensures
        r is Ok <==> all_writable(items@),
        r is Ok ==> final(w)@ == old(w)@ + seq_bytes(items@),
{
    let mut i: usize = 0;
    while i < items.len()
        invariant
            i <= items@.len(),
            seq_bytes(items@).len() <= usize::MAX,
            w@ == old(w)@ + seq_bytes(items@.take(i as int)),
            forall|j: int| 0 <= j < i ==> #[trigger] items@[j].writable(),
        decreases items@.len() - i,
    {
        proof {
            lemma_seq_bytes_step(items@, i as int);
            lemma_seq_bytes_prefix_len(items@, i + 1);
        }
        let ghost before = w@;
        match items[i].write(w) {
            Ok(()) => {},
            Err(e) => { return Err(e); },
        }
        proof {
            assert(w@ =~= old(w)@ + seq_bytes(items@.take(i + 1)));
        }
        i = i + 1;
    }
    proof {
        assert(items@.take(i as int) =~= items@);
    }
    Ok(())
}

/// The number of bytes `write_seq` emits for `items`.
pub fn size_of_seq<T: Wire>(items: &Vec<T>) -> (r: usize)
    requires
        seq_bytes(items@).len() <= usize::MAX,
    ensures
        r == seq_bytes(items@).len(),
{
    let mut total: usize = 0;
    let mut i: usize = 0;
    while i < items.len()
        invariant
            i <= items@.len(),
            seq_bytes(items@).len() <= usize::MAX,
            total == seq_bytes(items@.take(i as int)).len(),
        decreases items@.len() - i,
    {
        proof {
            lemma_seq_bytes_step(items@, i as int);
            lemma_seq_bytes_prefix_len(items@, i + 1);
        }
        total = total + items[i].size_of();
        i = i + 1;
    }
    proof {
        assert(items@.take(i as int) =~= items@);
    }
    total
}

/// Takes the first `n` bytes of the span.
pub fn take<'a>(input: Span<'a>, n: usize) -> (r: Result<(Span<'a>, Span<'a>), Error>)
    ensures
        r is Ok <==> n <= input.bytes().len(),
        r matches Ok((rest, t)) ==> {
            &&& t.bytes() == input.bytes().take(n as int)
            &&& t.start() == input.start()
            &&& splits(input, t.bytes(), rest)
            &&& within(t, input)
            &&& within(rest, input)
        },
        r matches Err(e) ==> e.kind == ErrorKind::Eof && e.offset == input.start(),
{
    if n <= input.len() {
        let (t, rest) = input.split_at(n);
        Ok((rest, t))
    } else {
        Err(Error::new(ErrorKind::Eof, input.location_offset()))
    }
}

/// Takes `n` bytes, for a count read from a 64-bit field.
pub fn take_u64<'a>(input: Span<'a>, n: u64) -> (r: Result<(Span<'a>, Span<'a>), Error>)
    ensures
        r is Ok <==> n <= input.bytes().len(),
        r matches Ok((rest, t)) ==> {
            &&& t.bytes() == input.bytes().take(n as int)
            &&& t.start() == input.start()
            &&& splits(input, t.bytes(), rest)
            &&& within(t, input)
            &&& within(rest, input)
        },
        r matches Err(e) ==> e.kind == ErrorKind::Eof && e.offset == input.start(),
{
    if n <= input.len() as u64 {
        take(input, n as usize)
    } else {
        Err(Error::new(ErrorKind::Eof, input.location_offset()))
    }
}

pub fn read_u8<'a>(input: Span<'a>) -> (r: Result<(Span<'a>, u8), Error>)
    ensures
        r is Ok <==> 1 <= input.bytes().len(),
        r matches Ok((rest, v)) ==> splits(input, seq![v], rest),
        r matches Err(e) ==> e.kind == ErrorKind::Eof && e.offset == input.start(),
{
    let (rest, t) = take(input, 1)?;
    let v = t.byte_at(0);
    proof {
        assert(t.bytes() =~= seq![v]);
    }
    Ok((rest, v))
}

pub fn read_u16<'a>(input: Span<'a>) -> (r: Result<(Span<'a>, u16), Error>)
    ensures
        r is Ok <==> 2 <= input.bytes().len(),
        r matches Ok((rest, v)) ==> splits(input, spec_u16_to_le_bytes(v), rest),
        r matches Err(e) ==> e.kind == ErrorKind::Eof && e.offset == input.start(),
{
    let (rest, t) = take(input, 2)?;
    let v = u16_from_le_bytes(t.fragment());
    proof {
        lemma_auto_spec_u16_to_from_le_bytes();
    }
    Ok((rest, v))
}

pub fn read_u32<'a>(input: Span<'a>) -> (r: Result<(Span<'a>, u32), Error>)
    ensures
        r is Ok <==> 4 <= input.bytes().len(),
        r matches Ok((rest, v)) ==> splits(input, spec_u32_to_le_bytes(v), rest),
        r matches Err(e) ==> e.kind == ErrorKind::Eof && e.offset == input.start(),
{
    let (rest, t) = take(input, 4)?;
    let v = u32_from_le_bytes(t.fragment());
    proof {
        lemma_auto_spec_u32_to_from_le_bytes();
    }
    Ok((rest, v))
}

pub fn read_u64<'a>(input: Span<'a>) -> (r: Result<(Span<'a>, u64), Error>)
    ensures
        r is Ok <==> 8 <= input.bytes().len(),
        r matches Ok((rest, v)) ==> splits(input, spec_u64_to_le_bytes(v), rest),
        r matches Err(e) ==> e.kind == ErrorKind::Eof && e.offset == input.start(),
{
    let (rest, t) = take(input, 8)?;
    let v = u64_from_le_bytes(t.fragment());
    proof {
        lemma_auto_spec_u64_to_from_le_bytes();
    }
    Ok((rest, v))
}

/// Appends the bytes of `b`.
pub fn write_bytes(w: &mut Vec<u8>, b: &[u8])
    ensures
        final(w)@ == old(w)@ + b@,
{
    let mut i: usize = 0;
    while i < b.len()
        invariant
            i <= b@.len(),
            w@ == old(w)@ + b@.take(i as int),
        decreases b@.len() - i,
    {
        w.push(b[i]);
        proof {
            assert(w@ =~= old(w)@ + b@.take(i + 1));
        }
        i = i + 1;
    }
    proof {
        assert(b@.take(i as int) =~= b@);
    }
}

/// Appends `n` zero bytes.
pub fn write_zeros(w: &mut Vec<u8>, n: usize)
    ensures
        final(w)@ == old(w)@ + Seq::new(n as nat, |i: int| 0u8),
{
    let mut i: usize = 0;
    while i < n
        invariant
            i <= n,
            w@ == old(w)@ + Seq::new(i as nat, |j: int| 0u8),
        decreases n - i,
    {
        w.push(0);
        proof {
            assert(w@ =~= old(w)@ + Seq::new((i + 1) as nat, |j: int| 0u8));
        }
        i = i + 1;
    }
}

pub fn write_u8(w: &mut Vec<u8>, v: u8)
    ensures
        final(w)@ == old(w)@ + seq![v],
{
    w.push(v);
    proof {
        assert(w@ =~= old(w)@ + seq![v]);
    }
}

pub fn write_u16(w: &mut Vec<u8>, v: u16)
    ensures
        final(w)@ == old(w)@ + spec_u16_to_le_bytes(v),
{
    let b = u16_to_le_bytes(v);
    write_bytes(w, b.as_slice());
}

pub fn write_u32(w: &mut Vec<u8>, v: u32)
    ensures
        final(w)@ == old(w)@ + spec_u32_to_le_bytes(v),
{
    let b = u32_to_le_bytes(v);
    write_bytes(w, b.as_slice());
}

pub fn write_u64(w: &mut Vec<u8>, v: u64)
    ensures
        final(w)@ == old(w)@ + spec_u64_to_le_bytes(v),
{
    let b = u64_to_le_bytes(v);
    write_bytes(w, b.as_slice());
}

pub proof fn lemma_int_bytes_len()
    ensures
        forall|x: u16| #[trigger] spec_u16_to_le_bytes(x).len() == 2,
        forall|x: u32| #[trigger] spec_u32_to_le_bytes(x).len() == 4,
        forall|x: u64| #[trigger] spec_u64_to_le_bytes(x).len() == 8,
{
    lemma_auto_spec_u16_to_from_le_bytes();
    lemma_auto_spec_u32_to_from_le_bytes();
    lemma_auto_spec_u64_to_from_le_bytes();
}

impl Wire for u16 {
    open spec fn spec_bytes(&self) -> Seq<u8> {
        spec_u16_to_le_bytes(*self)
    }

    open spec fn writable(&self) -> bool {
        true
    }

    fn size_of(&self) -> (r: usize) {
        proof {
            lemma_int_bytes_len();
        }
        2
    }

    fn write(&self, w: &mut Vec<u8>) -> (r: Result<(), WriteError>) {
        write_u16(w, *self);
        Ok(())
    }
}

impl<'a> Parse<'a> for u16 {
    fn parse(input: Span<'a>) -> (r: Result<(Span<'a>, u16), Error>) {
        let r = read_u16(input);
        proof {
            lemma_int_bytes_len();
            assert forall|w: u16, t: Seq<u8>| #[trigger] encodes(input.bytes(), w, t)
                implies (r matches Ok((rest, v)) && v.spec_bytes() == w.spec_bytes()) by {
                if let Ok((rest, v)) = r {
                    lemma_cancel(input.bytes(), spec_u16_to_le_bytes(v), rest.bytes(), spec_u16_to_le_bytes(w), t);
                }
            }
        }
        r
    }
}

/// A list of 16-bit values with a 16-bit count in front.
impl Wire for Vec<u16> {
    open spec fn spec_bytes(&self) -> Seq<u8> {
        spec_u16_to_le_bytes(self@.len() as u16) + seq_bytes(self@)
    }

    open spec fn writable(&self) -> bool {
        self@.len() <= 0xffff
    }

    fn size_of(&self) -> (r: usize) {
        proof {
            lemma_int_bytes_len();
        }
        2 + size_of_seq(self)
    }

    fn write(&self, w: &mut Vec<u8>) -> (r: Result<(), WriteError>) {
        proof {
            lemma_int_bytes_len();
        }
        if self.len() > 0xffff {
            return Err(WriteError::FieldTooLarge);
        }
        write_u16(w, self.len() as u16);
        proof {
            assert forall|i: int| 0 <= i < self@.len() implies #[trigger] self@[i].writable() by {}
        }
        write_seq(self, w)?;
        proof {
            vstd::seq_lib::lemma_concat_associative(old(w)@, spec_u16_to_le_bytes(self@.len() as u16), seq_bytes(self@));
        }
        Ok(())
    }
}

impl<'a> Parse<'a> for Vec<u16> {
    fn parse(input: Span<'a>) -> (r: Result<(Span<'a>, Vec<u16>), Error>) {
        proof {
            lemma_int_bytes_len();
            lemma_int_bytes_injective();
        }
        let (i1, n) = match read_u16(input) {
            Ok(x) => x,
            Err(e) => {
                return Err(e);
            },
        };
        proof {
            assert forall|w: Vec<u16>, t: Seq<u8>| #[trigger] encodes(input.bytes(), w, t)
                implies w@.len() == n && encodes_seq(i1.bytes(), w@, t) by {
                vstd::seq_lib::lemma_concat_associative(spec_u16_to_le_bytes(w@.len() as u16), seq_bytes(w@), t);
                lemma_cancel(input.bytes(), spec_u16_to_le_bytes(n), i1.bytes(), spec_u16_to_le_bytes(w@.len() as u16), seq_bytes(w@) + t);
                assert forall|i: int| 0 <= i < w@.len() implies #[trigger] w@[i].writable() by {}
            }
        }
        let (i2, v) = match parse_count::<u16>(i1, n as usize) {
            Ok(x) => x,
            Err(e) => {
                proof {
                    assert forall|w: Vec<u16>, t: Seq<u8>| #[trigger] encodes(input.bytes(), w, t) implies false by {
                        assert(encodes_seq(i1.bytes(), w@, t));
                    }
                }
                return Err(e);
            },
        };
        proof {
            crate::span::lemma_splits_chain(input, spec_u16_to_le_bytes(n), i1, seq_bytes(v@), i2);
            assert forall|w: Vec<u16>, t: Seq<u8>| #[trigger] encodes(input.bytes(), w, t)
                implies v.spec_bytes() == w.spec_bytes() by {
                assert(encodes_seq(i1.bytes(), w@, t));
            }
        }
        Ok((i2, v))
    }
}

} // verus!
