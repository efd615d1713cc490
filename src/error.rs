use vstd::prelude::*;

verus! {

/// What went wrong while decoding.
#[derive(Debug, PartialEq, Eq, Clone, Copy, Structural)]
pub enum ErrorKind {
    /// A decoder asked for more bytes than remain in its span.
    Eof,
    /// A fixed GUID expected at this position did not match.
    Tag,
}

/// A label naming the decoder that was running when an error came up.
#[derive(Debug, PartialEq, Eq, Clone, Copy, Structural)]
pub enum Context {
    HeaderObjects,
    HeaderObject,
    ExtensionHeaderObject,
    DataObject,
    DataPacket,
    ErrorCorrectionData,
    PayloadParsingData,
    Payload,
    IndexObject,
}

/// A decoding error: its kind, the offset in the input where the failing
/// read started, and the labels of the decoders it passed through, innermost
/// first.
#[derive(Debug, PartialEq, Eq, Clone)]
pub struct Error {
    pub kind: ErrorKind,
    pub offset: usize,
    pub context: Vec<Context>,
}

impl Error {
    pub fn new(kind: ErrorKind, offset: usize) -> (r: Error)
        ensures
            r.kind == kind,
            r.offset == offset,
            r.context@ == Seq::<Context>::empty(),
    {
        Error { kind, offset, context: Vec::new() }
    }

    /// The same error, with `label` added as its outermost context.
    pub fn add_context(self, label: Context) -> (r: Error)
        ensures
            r.kind == self.kind,
            r.offset == self.offset,
            r.context@ == self.context@.push(label),
    {
        let mut e = self;
        e.context.push(label);
        e
    }
}

/// Why a value could not be written.
#[derive(Debug, PartialEq, Eq, Clone, Copy, Structural)]
pub enum WriteError {
    /// A length does not fit the width of its prefix field.
    FieldTooLarge,
}

} // verus!
