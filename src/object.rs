use vstd::prelude::*;
use vstd::bytes::*;

use crate::error::{Error, ErrorKind, WriteError};
use crate::guid::{guid, guid_from_wire, guid_to_wire, lemma_guid_value_round_trip, write_guid, Guid};
use crate::span::{lemma_splits_chain, lemma_splits_within, lemma_within_trans, splits, within, Span};
use crate::wire::{lemma_int_bytes_len, read_u64, take_u64, write_bytes, write_u64, Wire};

verus! {

/// The 24-byte frame of an object: its GUID and its total size, frame included.
#[derive(Debug, PartialEq, Eq, Clone, Copy, Structural)]
pub struct ObjectHeader {
    pub guid: Guid,
    pub size: u64,
}

/// An object as framed: its GUID and its body, undecoded.
#[derive(Debug, PartialEq, Eq)]
pub struct Object<'a> {
    pub guid: Guid,
    pub data: Span<'a>,
}

/// The size field of the frame at the start of `s`.
pub open spec fn frame_size(s: Seq<u8>) -> int {
    spec_u64_from_le_bytes(s.subrange(16, 24)) as int
}

/// `s` starts with a complete object: a frame whose size is at least 24 and
/// at most the bytes there are.
pub open spec fn object_frame_ok(s: Seq<u8>) -> bool {
    &&& 24 <= s.len()
    &&& 24 <= frame_size(s)
    &&& frame_size(s) <= s.len()
}

/// `s` starts with a whole object of at least `min` bytes framed with the
/// GUID `g`.
pub open spec fn tagged_frame_ok(s: Seq<u8>, g: u128, min: int) -> bool {
    &&& min <= s.len()
    &&& s.take(16) == guid_to_wire(g)
    &&& min <= frame_size(s)
    &&& frame_size(s) <= s.len()
}

/// The error for a frame that should carry the GUID `g`: `Tag` exactly when
/// 16 bytes are there and differ from it, else `Eof`.
pub open spec fn tag_error_kind(s: Seq<u8>, g: u128) -> ErrorKind {
    if 16 <= s.len() && s.take(16) != guid_to_wire(g) {
        ErrorKind::Tag
    } else {
        ErrorKind::Eof
    }
}

/// The frame of an object of `body_len` bytes with GUID `g`.
pub open spec fn frame_bytes(g: u128, body_len: nat) -> Seq<u8> {
    guid_to_wire(g) + spec_u64_to_le_bytes((24 + body_len) as u64)
}

/// Whole object frames one after the other.
pub open spec fn frames_bytes(f: Seq<Seq<u8>>) -> Seq<u8>
    decreases f.len(),
{
    if f.len() == 0 {
        Seq::empty()
    } else {
        frames_bytes(f.drop_last()) + f.last()
    }
}

pub proof fn lemma_seq_bytes_within_frames<T: Wire>(objs: Seq<T>, frames: Seq<Seq<u8>>)
    requires
        objs.len() == frames.len(),
        forall|i: int| 0 <= i < objs.len() ==> (#[trigger] objs[i]).spec_bytes().len() <= frames[i].len(),
    ensures
        crate::wire::seq_bytes(objs).len() <= frames_bytes(frames).len(),
    decreases objs.len(),
{
    if objs.len() > 0 {
        let n = objs.len() - 1;
        assert(objs[n].spec_bytes().len() <= frames[n].len());
        lemma_seq_bytes_within_frames(objs.drop_last(), frames.drop_last());
    }
}

impl ObjectHeader {
    pub open spec fn spec_bytes(&self) -> Seq<u8> {
        guid_to_wire(self.guid.0) + spec_u64_to_le_bytes(self.size)
    }
}

/// Reads an object frame.
pub fn object_header<'a>(input: Span<'a>) -> (r: Result<(Span<'a>, ObjectHeader), Error>)
    ensures
        r is Ok <==> 24 <= input.bytes().len(),
        r matches Ok((rest, h)) ==> {
            &&& splits(input, h.spec_bytes(), rest)
            &&& h.guid.0 == guid_from_wire(input.bytes().take(16))
            &&& h.size == frame_size(input.bytes())
        },
        r matches Err(e) ==> e.kind == ErrorKind::Eof,
{
    let (i1, g) = guid(input)?;
    let (i2, size) = read_u64(i1)?;
    proof {
        lemma_int_bytes_len();
        lemma_guid_value_round_trip(g.0);
        lemma_splits_chain(input, guid_to_wire(g.0), i1, spec_u64_to_le_bytes(size), i2);
        assert(input.bytes().subrange(16, 24) =~= spec_u64_to_le_bytes(size));
        vstd::bytes::lemma_auto_spec_u64_to_from_le_bytes();
    }
    Ok((i2, ObjectHeader { guid: g, size }))
}

/// Reads one object: its frame, then `size - 24` body bytes.
pub fn object<'a>(input: Span<'a>) -> (r: Result<(Span<'a>, Object<'a>), Error>)
    ensures
        r is Ok <==> object_frame_ok(input.bytes()),
        r matches Ok((rest, o)) ==> {
            &&& splits(input, o.spec_bytes(), rest)
            &&& o.spec_bytes().len() == frame_size(input.bytes())
            &&& o.guid.0 == guid_from_wire(input.bytes().take(16))
            &&& o.data.start() == input.start() + 24
            &&& within(o.data, input)
            &&& o.writable()
        },
        r matches Err(e) ==> e.kind == ErrorKind::Eof,
{
    let (i1, h) = object_header(input)?;
    proof {
        lemma_int_bytes_len();
        lemma_guid_value_round_trip(h.guid.0);
    }
    if h.size < 24 {
        return Err(Error::new(ErrorKind::Eof, input.location_offset()));
    }
    let (i2, data) = take_u64(i1, h.size - 24)?;
    proof {
        lemma_int_bytes_len();
        lemma_splits_chain(input, h.spec_bytes(), i1, data.bytes(), i2);
        lemma_splits_within(input, h.spec_bytes(), i1);
        lemma_within_trans(data, i1, input);
        assert(data.bytes().len() == h.size - 24);
        assert((24 + data.bytes().len()) as u64 == h.size);
    }
    Ok((i2, Object { guid: h.guid, data }))
}

/// A bounded object framed at the start of `s` cannot be framed from any
/// shorter prefix of `s`: a truncated object fails.
pub proof fn lemma_object_truncation(s: Seq<u8>, k: int)
    requires
        object_frame_ok(s),
        0 <= k < frame_size(s),
    ensures
        !object_frame_ok(s.take(k)),
{
    if k >= 24 {
        assert(s.take(k).subrange(16, 24) =~= s.subrange(16, 24));
    }
}

impl<'a> Wire for Object<'a> {
    /// The frame, then the body as it stands.
    open spec fn spec_bytes(&self) -> Seq<u8> {
        frame_bytes(self.guid.0, self.data.bytes().len()) + self.data.bytes()
    }

    open spec fn writable(&self) -> bool {
        24 + self.data.bytes().len() <= u64::MAX
    }

    fn size_of(&self) -> (r: usize) {
        proof {
            lemma_int_bytes_len();
            lemma_guid_value_round_trip(self.guid.0);
        }
        24 + self.data.len()
    }

    fn write(&self, w: &mut Vec<u8>) -> (r: Result<(), WriteError>) {
        let n = self.data.len();
        if n as u64 > u64::MAX - 24 {
            return Err(WriteError::FieldTooLarge);
        }
        write_guid(w, self.guid);
        write_u64(w, 24 + n as u64);
        write_bytes(w, self.data.fragment());
        proof {
            vstd::seq_lib::lemma_concat_associative(old(w)@, guid_to_wire(self.guid.0), spec_u64_to_le_bytes((24 + n) as u64));
            vstd::seq_lib::lemma_concat_associative(old(w)@, frame_bytes(self.guid.0, n as nat), self.data.bytes());
        }
        Ok(())
    }
}

} // verus!
