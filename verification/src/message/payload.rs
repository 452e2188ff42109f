//! Message bodies.
use vstd::prelude::*;

use crate::chunk::PackedRef;
use crate::message::error::Error;

verus! {

/// The longest inline body: the smallest chunk less the envelope.
pub const MAX_INLINE_BODY: usize = 192;

/// A message of fixed size, moved as raw bytes. Every sequence of that many
/// bytes is one.
pub trait Payload: Sized {
    /// The schema id in the envelope.
    open spec fn spec_schema_id() -> u32 {
        0
    }

    /// How many bytes a message has.
    open spec fn spec_size() -> nat {
        0
    }

    /// The bytes of the message.
    open spec fn wire(&self) -> Seq<u8> {
        seq![]
    }

    /// The schema id in the envelope.
    fn schema_id() -> (id: u32)
        ensures
            id == Self::spec_schema_id(),
    ;

    /// How many bytes a message has.
    fn size() -> (n: usize)
        ensures
            n == Self::spec_size(),
    ;

    /// The bytes of the message.
    fn as_bytes(&self) -> (b: Vec<u8>)
        ensures
            b@ == self.wire(),
            b@.len() == Self::spec_size(),
    ;

    /// The message with these bytes.
    fn read(b: &[u8]) -> (p: Self)
        requires
            b@.len() == Self::spec_size(),
        ensures
            p.wire() == b@,
    ;
}

/// Decode a message from exactly as many bytes as it has.
pub fn from_bytes<P: Payload>(bytes: &[u8]) -> (r: Result<P, Error>)
    ensures
        if bytes@.len() == P::spec_size() {
            r is Ok && r->Ok_0.wire() == bytes@
        } else {
            r is Err && r->Err_0 == (Error::BadPayload {
                expected: P::spec_size() as usize,
                got: bytes@.len() as usize,
            })
        },
{
    let expected: usize = P::size();
    let got: usize = bytes.len();
    if got != expected {
        return Err(Error::BadPayload { expected, got });
    }
    Ok(P::read(bytes))
}

/// A chunk on this host. It means nothing anywhere else.
#[derive(Clone, Copy, Debug, PartialEq, Eq, Structural)]
pub struct LocalRef(pub PackedRef);

impl LocalRef {
    /// The segment.
    pub fn segment_id(self) -> (s: u32)
        ensures
            s == self.0.spec_segment_id(),
    {
        self.0.segment_id()
    }

    /// The offset in the segment.
    pub fn offset(self) -> (o: u32)
        ensures
            o == self.0.spec_offset(),
    {
        self.0.offset()
    }
}

/// The inline body of a reply.
#[derive(Debug)]
pub struct InlineBody {
    pub schema: u32,
    pub body: Vec<u8>,
}

impl InlineBody {
    /// At most [`MAX_INLINE_BODY`] bytes.
    pub open spec fn wf(&self) -> bool {
        self.body@.len() <= 192
    }

    /// A body with these bytes.
    pub fn new(schema_id: u32, body: &[u8]) -> (r: Result<InlineBody, Error>)
        ensures
            if body@.len() > 192 {
                r is Err && r->Err_0 == (Error::BodyTooLarge { len: body@.len() as usize, max: 192 })
            } else {
                r is Ok && r->Ok_0.wf() && r->Ok_0.schema == schema_id && r->Ok_0.body@ == body@
            },
    {
        let n: usize = body.len();
        if n > MAX_INLINE_BODY {
            return Err(Error::BodyTooLarge { len: n, max: MAX_INLINE_BODY });
        }
        let mut v: Vec<u8> = Vec::new();
        crate::artifact::window::extend(&mut v, body);
        proof {
            assert(v@ =~= body@);
        }
        Ok(InlineBody { schema: schema_id, body: v })
    }

    /// The schema of the body.
    pub fn schema_id(&self) -> (id: u32)
        ensures
            id == self.schema,
    {
        self.schema
    }

    /// The length of the body.
    pub fn len(&self) -> (n: u16)
        requires
            self.wf(),
        ensures
            n == self.body@.len(),
    {
        self.body.len() as u16
    }

    pub fn is_empty(&self) -> (b: bool)
        ensures
            b == (self.body@.len() == 0),
    {
        self.body.len() == 0
    }

    /// The bytes of the body.
    pub fn bytes(&self) -> (b: &[u8])
        ensures
            b@ == self.body@,
    {
        self.body.as_slice()
    }
}

/// What a handler returns.
#[derive(Debug)]
pub enum Reply {
    /// Nothing to say.
    Empty,
    /// A body.
    Inline(InlineBody),
}

impl Reply {
    /// Reply with a message.
    pub fn of<P: Payload>(p: &P) -> (r: Result<Reply, Error>)
        ensures
            if P::spec_size() > 192 {
                r is Err && r->Err_0 == (Error::BodyTooLarge { len: P::spec_size() as usize, max: 192 })
            } else {
                &&& r is Ok
                &&& r->Ok_0 is Inline
                &&& r->Ok_0->Inline_0.wf()
                &&& r->Ok_0->Inline_0.schema == P::spec_schema_id()
                &&& r->Ok_0->Inline_0.body@ == p.wire()
            },
    {
        let b: Vec<u8> = p.as_bytes();
        match InlineBody::new(P::schema_id(), b.as_slice()) {
            Ok(x) => Ok(Reply::Inline(x)),
            Err(e) => Err(e),
        }
    }
}

} // verus!
