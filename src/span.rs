use vstd::prelude::*;

verus! {

/// An immutable view over part of the input buffer, together with the offset
/// of its first byte in that buffer. Parsed values keep spans instead of
/// copying bytes out of the input.
#[derive(Debug, PartialEq, Eq, Clone, Copy)]
pub struct Span<'a> {
    fragment: &'a [u8],
    offset: usize,
}

impl<'a> Span<'a> {
    #[verifier::type_invariant]
    spec fn inv(&self) -> bool {
        self.offset + self.fragment@.len() <= usize::MAX
    }

    /// The bytes the span covers.
    pub closed spec fn bytes(&self) -> Seq<u8> {
        self.fragment@
    }

    /// Offset of the first byte of the span in the whole input.
    pub closed spec fn start(&self) -> nat {
        self.offset as nat
    }

    /// Offset one past the last byte of the span.
    pub open spec fn end(&self) -> nat {
        self.start() + self.bytes().len()
    }

    /// A span over the whole of `data`, starting at offset 0.
    pub fn new(data: &'a [u8]) -> (r: Span<'a>)
        ensures
            r.bytes() == data@,
            r.start() == 0,
    {
        let _n: usize = data.len();
        Span { fragment: data, offset: 0 }
    }

    pub fn len(&self) -> (r: usize)
        ensures
            r == self.bytes().len(),
            self.end() <= usize::MAX,
    {
        proof {
            use_type_invariant(self);
        }
        self.fragment.len()
    }

    pub fn is_empty(&self) -> (r: bool)
        ensures
            r <==> self.bytes().len() == 0,
    {
        self.fragment.len() == 0
    }

    pub fn location_offset(&self) -> (r: usize)
        ensures
            r == self.start(),
    {
        self.offset
    }

    pub fn fragment(&self) -> (r: &'a [u8])
        ensures
            r@ == self.bytes(),
    {
        self.fragment
    }

    pub fn byte_at(&self, i: usize) -> (r: u8)
        requires
            i < self.bytes().len(),
        ensures
            r == self.bytes()[i as int],
    {
        self.fragment[i]
    }

    /// The sub-span of bytes `start .. end`; its offset moves by `start`.
    pub fn slice(&self, start: usize, end: usize) -> (r: Span<'a>)
        requires
            start <= end <= self.bytes().len(),
        ensures
            r.bytes() == self.bytes().subrange(start as int, end as int),
            r.start() == self.start() + start,
            within(r, *self),
    {
        proof {
            use_type_invariant(self);
        }
        Span { fragment: vstd::slice::slice_subrange(self.fragment, start, end), offset: self.offset + start }
    }

    /// The sub-span from `start` to the end.
    pub fn slice_from(&self, start: usize) -> (r: Span<'a>)
        requires
            start <= self.bytes().len(),
        ensures
            r.bytes() == self.bytes().subrange(start as int, self.bytes().len() as int),
            r.start() == self.start() + start,
            within(r, *self),
    {
        self.slice(start, self.len())
    }

    /// Splits the span after its first `n` bytes.
    pub fn split_at(&self, n: usize) -> (r: (Span<'a>, Span<'a>))
        requires
            n <= self.bytes().len(),
        ensures
            r.0.bytes() == self.bytes().take(n as int),
            r.0.start() == self.start(),
            splits(*self, r.0.bytes(), r.1),
            within(r.0, *self),
            within(r.1, *self),
    {
        let a = self.slice(0, n);
        let b = self.slice_from(n);
        proof {
            assert(self.bytes() =~= a.bytes() + b.bytes());
        }
        (a, b)
    }
}

/// `sub` lies inside `outer` and shows the bytes of `outer` at its offsets.
pub open spec fn within(sub: Span, outer: Span) -> bool {
    &&& outer.start() <= sub.start()
    &&& sub.end() <= outer.end()
    &&& sub.bytes() == outer.bytes().subrange(
        sub.start() - outer.start(),
        sub.end() - outer.start(),
    )
}

/// `input` is `prefix` followed by `rest`, and `rest` starts where `prefix` ends.
pub open spec fn splits(input: Span, prefix: Seq<u8>, rest: Span) -> bool {
    &&& input.bytes() == prefix + rest.bytes()
    &&& rest.start() == input.start() + prefix.len()
}

pub proof fn lemma_splits_chain(a: Span, x: Seq<u8>, b: Span, y: Seq<u8>, c: Span)
    requires
        splits(a, x, b),
        splits(b, y, c),
    ensures
        splits(a, x + y, c),
{
    assert(a.bytes() =~= (x + y) + c.bytes());
}

pub proof fn lemma_within_trans(a: Span, b: Span, c: Span)
    requires
        within(a, b),
        within(b, c),
    ensures
        within(a, c),
{
    assert(a.bytes() =~= c.bytes().subrange(a.start() - c.start(), a.end() - c.start()));
}

pub proof fn lemma_splits_within(input: Span, prefix: Seq<u8>, rest: Span)
    requires
        splits(input, prefix, rest),
    ensures
        within(rest, input),
{
    assert(rest.bytes() =~= input.bytes().subrange(
        rest.start() - input.start(),
        rest.end() - input.start(),
    ));
}

} // verus!
