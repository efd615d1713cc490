//! A parser and writer for the Advanced Systems Format container.
//!
//! Parsing reads a byte buffer into header objects, a data object with its
//! packets, and index objects. Decoded values keep byte regions of the input
//! as spans instead of copying them. Every header object type can be written
//! back; the contracts state that writing a decoded value reproduces the
//! bytes it was decoded from.

pub mod data;
pub mod error;
pub mod guid;
pub mod header;
pub mod index;
pub mod object;
pub mod span;
pub mod widestr;
pub mod wire;

use vstd::prelude::*;

use crate::data::{data_object_encodes, DataObject, PacketParts};
use crate::error::{Error, ErrorKind};
use crate::guid::{DATA_OBJECT, HEADER_OBJECT};
use crate::object::{frame_size, tag_error_kind, tagged_frame_ok};
use crate::header::HeaderObjects;
use crate::index::{whole_frames, IndexObjects};
use crate::span::{Span, splits};

verus! {

/// A parsed stream: the header objects, the data object and the index objects.
#[derive(Debug, PartialEq, Eq)]
pub struct Container<'a> {
    pub header: HeaderObjects<'a>,
    pub data: DataObject<'a>,
    pub indices: IndexObjects,
}

impl<'a> Container<'a> {
    /// `input` holds the three sections in order, then `rest`.
    pub open spec fn decoded_from(&self, input: Span, rest: Span) -> bool {
        exists|mid: (Span, Span)| #[trigger] self.sections(input, mid, rest)
    }

    /// All of `b`, read from offset 0, decodes to this container.
    pub open spec fn decoded_whole(&self, b: Seq<u8>) -> bool {
        exists|s: Span, rest: Span| #![trigger self.decoded_from(s, rest)]
            s.bytes() == b && s.start() == 0 && rest.bytes().len() == 0 && self.decoded_from(s, rest)
    }

    /// The header ends where `mid.0` starts, the data object where `mid.1` starts.
    pub open spec fn sections(&self, input: Span, mid: (Span, Span), rest: Span) -> bool {
        &&& splits(input, input.bytes().take(input.bytes().len() - mid.0.bytes().len()), mid.0)
        &&& self.header.decodes(input.bytes().take(input.bytes().len() - mid.0.bytes().len()))
        &&& self.data.decoded_from(mid.0, (mid.0.bytes().len() - mid.1.bytes().len()) as nat, mid.1)
        &&& self.indices.decoded_from(mid.1, rest)
    }

    /// Decodes the header object, the data object, then the index objects.
    pub fn parse(input: Span<'a>) -> (r: Result<(Span<'a>, Container<'a>), Error>)
        ensures
            r matches Ok((rest, c)) ==> c.decoded_from(input, rest)
                && !crate::object::object_frame_ok(rest.bytes()),
            r matches Err(e) ==> stream_error_kind(input.bytes(), e.kind),
            r is Ok ==> tagged_frame_ok(input.bytes(), HEADER_OBJECT, 30),
            forall|ws: Seq<PacketParts>| #[trigger] stream_encodes(input.bytes(), ws)
                ==> (r matches Ok((rest, c)) && rest.bytes().len() == 0),
    {
        let (i1, header) = HeaderObjects::parse(input)?;
        let (i2, data) = DataObject::parse(i1)?;
        let (rest, indices) = IndexObjects::parse(i2);
        let c = Container { header, data, indices };
        proof {
            assert(c.sections(input, (i1, i2), rest));
        }
        Ok((rest, c))
    }
}

/// `b` is a whole stream: a header object, a data object whose packets are
/// `ws`, then whole index object frames to the end.
pub open spec fn stream_encodes(b: Seq<u8>, ws: Seq<PacketParts>) -> bool {
    &&& tagged_frame_ok(b, HEADER_OBJECT, 30)
    &&& data_object_encodes(b.skip(frame_size(b)), ws)
    &&& whole_frames(b.skip(frame_size(b)).skip(frame_size(b.skip(frame_size(b)))))
}

/// An error on the stream `b` is `Tag` only where 16 bytes stand at the
/// header object's or the data object's place and are not its GUID.
pub open spec fn stream_error_kind(b: Seq<u8>, k: ErrorKind) -> bool {
    ||| k == tag_error_kind(b, HEADER_OBJECT)
    ||| (tagged_frame_ok(b, HEADER_OBJECT, 30) && k == tag_error_kind(b.skip(frame_size(b)), DATA_OBJECT))
}

/// Parses a whole stream. Bytes after the last whole index object are a
/// truncated object, and fail with `Eof`.
pub fn parse<'a>(data: &'a [u8]) -> (r: Result<Container<'a>, Error>)
    ensures
        r matches Ok(c) ==> c.decoded_whole(data@),
        r matches Err(e) ==> stream_error_kind(data@, e.kind),
        forall|ws: Seq<PacketParts>| #[trigger] stream_encodes(data@, ws) ==> r is Ok,
{
    let input = Span::new(data);
    let (rest, c) = Container::parse(input)?;
    if !rest.is_empty() {
        return Err(Error::new(ErrorKind::Eof, rest.location_offset()));
    }
    proof {
        assert(c.decoded_from(input, rest));
        assert(input.bytes() == data@ && input.start() == 0 && rest.bytes().len() == 0);
        assert(c.decoded_whole(data@));
    }
    Ok(c)
}

} // verus!
