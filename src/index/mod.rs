use vstd::prelude::*;

use crate::error::{Context, Error};
use crate::object::{frame_size, frames_bytes, object, object_frame_ok};
use crate::span::{lemma_splits_chain, splits, Span};

verus! {

/// An index object; only its frame is read, its body is skipped.
#[derive(Debug, PartialEq, Eq)]
pub struct IndexObject {}

/// The index objects after the data object.
#[derive(Debug, PartialEq, Eq)]
pub struct IndexObjects {
    pub objects: Vec<IndexObject>,
}

impl IndexObject {
    /// Reads one object frame and skips its body.
    pub fn parse<'a>(input: Span<'a>) -> (r: Result<(Span<'a>, IndexObject), Error>)
        ensures
            r is Ok <==> object_frame_ok(input.bytes()),
            r matches Ok((rest, _)) ==> splits(input, input.bytes().take(frame_size(input.bytes())), rest),
    {
        match object(input) {
            Ok((rest, o)) => {
                proof {
                    assert(input.bytes().take(frame_size(input.bytes())) =~= crate::wire::Wire::spec_bytes(&o));
                }
                Ok((rest, IndexObject {}))
            },
            Err(e) => Err(e.add_context(Context::IndexObject)),
        }
    }
}

impl IndexObjects {
    /// `input` is the index object frames `frames`, then `rest`, where no
    /// further object can be framed.
    pub open spec fn decoded_from(&self, input: Span, rest: Span) -> bool {
        exists|frames: Seq<Seq<u8>>| #[trigger] index_frames(frames, self.objects@.len(), input, rest)
    }

    /// Reads index objects until no further object can be framed.
    pub fn parse<'a>(input: Span<'a>) -> (r: (Span<'a>, IndexObjects))
        ensures
            r.1.decoded_from(input, r.0),
            !object_frame_ok(r.0.bytes()),
            whole_frames(input.bytes()) ==> r.0.bytes().len() == 0,
    {
        let mut objects: Vec<IndexObject> = Vec::new();
        let mut cur = input;
        let ghost mut frames: Seq<Seq<u8>> = Seq::empty();
        proof {
            assert(input.bytes() =~= frames_bytes(frames) + cur.bytes());
        }
        loop
            invariant
                index_frames(frames, objects@.len(), input, cur),
                whole_frames(input.bytes()) ==> whole_frames(cur.bytes()),
            decreases cur.bytes().len(),
        {
            match IndexObject::parse(cur) {
                Ok((next, o)) => {
                    let ghost frame = cur.bytes().take(frame_size(cur.bytes()));
                    proof {
                        lemma_splits_chain(input, frames_bytes(frames), cur, frame, next);
                        assert(frames.push(frame).drop_last() =~= frames);
                        assert(frame.subrange(16, 24) =~= cur.bytes().subrange(16, 24));
                        assert(frames.push(frame)[frames.len() as int] == frame);
                        assert(next.bytes() =~= cur.bytes().skip(frame_size(cur.bytes())));
                    }
                    objects.push(o);
                    proof {
                        frames = frames.push(frame);
                    }
                    cur = next;
                },
                Err(_) => {
                    let r = (cur, IndexObjects { objects });
                    proof {
                        assert(index_frames(frames, r.1.objects@.len(), input, r.0));
                    }
                    return r;
                },
            }
        }
    }
}

/// `b` is whole object frames, one after another, to its end.
pub open spec fn whole_frames(b: Seq<u8>) -> bool
    decreases b.len(),
{
    if b.len() == 0 {
        true
    } else if object_frame_ok(b) {
        whole_frames(b.skip(frame_size(b)))
    } else {
        false
    }
}

/// `input` is `n` whole object frames, then `rest`.
pub open spec fn index_frames(frames: Seq<Seq<u8>>, n: nat, input: Span, rest: Span) -> bool {
    &&& frames.len() == n
    &&& forall|i: int| 0 <= i < frames.len() ==> object_frame_ok(#[trigger] frames[i]) && frame_size(frames[i]) == frames[i].len()
    &&& splits(input, frames_bytes(frames), rest)
}

} // verus!
