//! Messages in chunks.
//!
//! A message chunk is handed out by the pool and never loaned. Whoever holds
//! its descriptor owns it.
use vstd::prelude::*;

use crate::actor::error::Error;
use crate::artifact::pool::{
    chunk_ok, fits, lemma_at, lemma_has, overwritten, ChunkPool, ChunkState, ChunkView,
};
use crate::batch::write::{desc_of, handed_out, lemma_none_fits, lemma_pick, pick};
use crate::chunk::{packed_ref_round_trip, ChunkDesc, PackedRef};
use crate::message::envelope::{
    body_room, decode_message, encode_message, envelope_at, envelope_of, envelope_refusal,
    message_of, message_round_trip, Envelope, ENVELOPE_SIZE, SCHEMA_ENVELOPE,
};
use crate::message::error::Error as MessageError;
use crate::message::payload::LocalRef;

verus! {

/// The bytes of the chunk an asker lends for the reply.
pub const REPLY_CHUNK_BYTES: u32 = 256;

/// The messages in a pool.
pub struct MessagePool {
    pub pool: ChunkPool,
}

/// Whether `b` starts with the message.
pub open spec fn holds_message(b: Seq<u8>, env: Envelope, body: Seq<u8>) -> bool {
    &&& b.len() >= 64 + body.len()
    &&& envelope_at(b, 0, env)
    &&& b.subrange(64, 64 + body.len() as int) == body
}

/// Why a descriptor leads to no bytes.
pub open spec fn reachable(pool: &ChunkPool, d: ChunkDesc) -> bool {
    &&& pool.names(d.segment_id, d.offset)
    &&& d.len <= pool@[pool.at(d.offset)].len
}

/// Why a message cannot be written through a descriptor.
pub open spec fn write_refusal(pool: &ChunkPool, d: ChunkDesc, env: Envelope, body: Seq<u8>) -> Option<
    Error,
> {
    if !reachable(pool, d) {
        Some(Error::Core(MessageError::BadEnvelope))
    } else if body.len() != env.body_len || 64 + body.len() > d.len {
        Some(
            Error::Core(
                MessageError::BodyTooLarge {
                    len: body.len() as usize,
                    max: body_room(d.len as int),
                },
            ),
        )
    } else if pool@[pool.at(d.offset)].state == ChunkState::Published {
        Some(Error::Shm(crate::artifact::error::Error::BadState))
    } else {
        None
    }
}

/// What reading the message `d` names gives: the bytes, or why not.
pub open spec fn readable(pool: &ChunkPool, d: ChunkDesc) -> Result<Seq<u8>, Error> {
    if d.schema_id != SCHEMA_ENVELOPE {
        Err(Error::Core(MessageError::NotEnvelope(d.schema_id)))
    } else if !reachable(pool, d) {
        Err(Error::Core(MessageError::BadEnvelope))
    } else {
        Ok(pool@[pool.at(d.offset)].bytes.take(d.len as int))
    }
}

/// What reading the message `d` names gives: the message, or why not.
pub open spec fn read_of(pool: &ChunkPool, d: ChunkDesc) -> Result<(Envelope, Seq<u8>), Error> {
    match readable(pool, d) {
        Err(e) => Err(e),
        Ok(b) => match message_of(b) {
            Err(x) => Err(Error::Core(x)),
            Ok(m) => Ok(m),
        },
    }
}

/// The first `n` bytes of `b`.
fn front(b: &Vec<u8>, n: usize) -> (r: Vec<u8>)
    requires
        n <= b@.len(),
    ensures
        r@ == b@.take(n as int),
{
    let mut r: Vec<u8> = Vec::new();
    let mut i: usize = 0;
    while i < n
        invariant
            n <= b@.len(),
            i <= n,
            r@ == b@.take(i as int),
        decreases n - i,
    {
        r.push(b[i]);
        proof {
            assert(b@.take(i + 1) =~= b@.take(i as int).push(b@[i as int]));
        }
        i = i + 1;
    }
    r
}

impl MessagePool {
    pub open spec fn wf(&self) -> bool {
        self.pool.wf()
    }

    /// The messages of `pool`.
    pub fn new(pool: ChunkPool) -> (m: MessagePool)
        ensures
            m.pool == pool,
    {
        MessagePool { pool }
    }

    /// Write a message into a chunk the caller owns or was lent.
    pub fn write_message_into(&mut self, desc: &ChunkDesc, env: &Envelope, body: &[u8]) -> (r: Result<
        (),
        Error,
    >)
        requires
            old(self).wf(),
        ensures
            final(self).wf(),
            final(self).pool.same_place(&old(self).pool),
            forall|j: int|
                0 <= j < old(self).pool@.len() ==> #[trigger] final(self).pool.held(j) == old(self).pool.held(j),
            match write_refusal(&old(self).pool, *desc, *env, body@) {
                Some(e) => r == Err::<(), Error>(e) && final(self).pool@ == old(self).pool@,
                None => {
                    let k = old(self).pool.at(desc.offset);
                    let b = final(self).pool@[k].bytes;
                    &&& r == Ok::<(), Error>(())
                    &&& final(self).pool@ == old(self).pool@.update(
                        k,
                        ChunkView { bytes: b, ..old(self).pool@[k] },
                    )
                    &&& holds_message(b, *env, body@)
                },
            },
    {
        let ghost p = self.pool@;
        let k: usize = match self.pool.find(desc.segment_id, desc.offset) {
            None => {
                return Err(Error::Core(MessageError::BadEnvelope));
            },
            Some(k) => k,
        };
        proof {
            assert(p[k as int] == self.pool.chunks@[k as int]@);
            assert(chunk_ok(p[k as int]));
        }
        if desc.len > self.pool.chunks[k].len {
            return Err(Error::Core(MessageError::BadEnvelope));
        }
        let mut buf: Vec<u8> = front(&self.pool.chunks[k].bytes, desc.len as usize);
        match encode_message(buf.as_mut_slice(), env, body) {
            Ok(_) => {},
            Err(e) => {
                return Err(Error::Core(e));
            },
        }
        match self.pool.write(desc, buf.as_slice()) {
            Ok(_) => {},
            Err(_) => {
                return Err(Error::Shm(crate::artifact::error::Error::BadState));
            },
        }
        proof {
            let b = self.pool@[k as int].bytes;
            assert(b == overwritten(p[k as int].bytes, buf@));
            assert forall|i: int| 0 <= i < buf@.len() implies #[trigger] b[i] == buf@[i] by {}
            assert(b.subrange(64, 64 + body@.len() as int) =~= buf@.subrange(64, 64 + body@.len() as int));
            assert(envelope_at(b, 0, *env));
        }
        Ok(())
    }

    /// Write a message into a new chunk, the shortest that takes it.
    pub fn write_message(&mut self, env: &Envelope, body: &[u8]) -> (r: Result<ChunkDesc, Error>)
        requires
            old(self).wf(),
        ensures
            final(self).wf(),
            final(self).pool.same_place(&old(self).pool),
            r is Err ==> final(self).pool@ == old(self).pool@,
            match pick(old(self).pool@, 64 + body@.len() as int) {
                None => r == Err::<ChunkDesc, Error>(
                    Error::Shm(crate::artifact::error::Error::Exhausted),
                ),
                Some(k) => {
                    let d = desc_of(&old(self).pool, k, SCHEMA_ENVELOPE);
                    if body@.len() != env.body_len {
                        r == Err::<ChunkDesc, Error>(
                            Error::Core(
                                MessageError::BodyTooLarge {
                                    len: body@.len() as usize,
                                    max: body_room(d.len as int),
                                },
                            ),
                        )
                    } else {
                        let b = final(self).pool@[k].bytes;
                        &&& r == Ok::<ChunkDesc, Error>(d)
                        &&& final(self).pool@ == old(self).pool@.update(
                            k,
                            ChunkView { bytes: b, ..handed_out(old(self).pool@[k]) },
                        )
                        &&& holds_message(b, *env, body@)
                    }
                },
            },
    {
        let ghost p = self.pool@;
        let n: usize = body.len();
        if n > usize::MAX - ENVELOPE_SIZE {
            proof {
                lemma_none_fits(p, 64 + body@.len() as int);
            }
            return Err(Error::Shm(crate::artifact::error::Error::Exhausted));
        }
        let mut desc: ChunkDesc = match self.pool.allocate(ENVELOPE_SIZE + n) {
            Ok(d) => d,
            Err(e) => {
                proof {
                    lemma_none_fits(p, 64 + body@.len() as int);
                }
                return Err(Error::Shm(e));
            },
        };
        let ghost k = self.pool.at(desc.offset);
        proof {
            lemma_pick(p, k, 64 + body@.len() as int);
            lemma_has(self.pool.lay@, desc.offset);
            assert(fits(p[k], 64 + body@.len() as int));
            assert(chunk_ok(p[k]));
        }
        desc.schema_id = SCHEMA_ENVELOPE;
        let r: Result<(), Error> = self.write_message_into(&desc, env, body);
        match r {
            Ok(_) => {
                proof {
                    let b = self.pool@[k].bytes;
                    assert(self.pool@ =~= p.update(k, ChunkView { bytes: b, ..handed_out(p[k]) }));
                }
                Ok(desc)
            },
            Err(e) => {
                self.pool.free(&desc);
                proof {
                    assert(self.pool@ =~= p);
                }
                Err(e)
            },
        }
    }

    /// A new chunk for a reply, with zeros where the envelope will be: reading
    /// it before anyone wrote to it fails.
    pub fn alloc_reply(&mut self) -> (r: Result<ChunkDesc, Error>)
        requires
            old(self).wf(),
        ensures
            final(self).wf(),
            final(self).pool.same_place(&old(self).pool),
            match pick(old(self).pool@, 256) {
                None => {
                    &&& r == Err::<ChunkDesc, Error>(
                        Error::Shm(crate::artifact::error::Error::Exhausted),
                    )
                    &&& final(self).pool@ == old(self).pool@
                },
                Some(k) => {
                    let b = final(self).pool@[k].bytes;
                    &&& r == Ok::<ChunkDesc, Error>(desc_of(&old(self).pool, k, SCHEMA_ENVELOPE))
                    &&& final(self).pool@ == old(self).pool@.update(
                        k,
                        ChunkView { bytes: b, ..handed_out(old(self).pool@[k]) },
                    )
                    &&& forall|i: int| 0 <= i < 64 ==> #[trigger] b[i] == 0
                },
            },
    {
        let ghost p = self.pool@;
        let mut desc: ChunkDesc = match self.pool.allocate(REPLY_CHUNK_BYTES as usize) {
            Ok(d) => d,
            Err(e) => {
                proof {
                    lemma_none_fits(p, 256);
                }
                return Err(Error::Shm(e));
            },
        };
        let ghost k = self.pool.at(desc.offset);
        proof {
            lemma_pick(p, k, 256);
            lemma_has(self.pool.lay@, desc.offset);
            assert(fits(p[k], 256));
            assert(chunk_ok(p[k]));
        }
        desc.schema_id = SCHEMA_ENVELOPE;
        let blank: [u8; 64] = [0u8; 64];
        let r: Result<(), crate::artifact::error::Error> = self.pool.write(&desc, &blank);
        proof {
            assert(r is Ok);
            let b = self.pool@[k].bytes;
            assert(b == overwritten(p[k].bytes, blank@));
            assert forall|i: int| 0 <= i < 64 implies #[trigger] b[i] == 0 by {
                assert(b[i] == blank@[i]);
            }
            assert(self.pool@ =~= p.update(k, ChunkView { bytes: b, ..handed_out(p[k]) }));
        }
        Ok(desc)
    }

    /// The descriptor of the reply chunk a reference names.
    pub fn reply_desc(&self, r: LocalRef) -> (d: ChunkDesc)
        ensures
            d == (ChunkDesc {
                segment_id: r.0.spec_segment_id(),
                generation: 0,
                offset: r.0.spec_offset(),
                len: REPLY_CHUNK_BYTES,
                schema_id: SCHEMA_ENVELOPE,
                _pad: 0,
            }),
    {
        ChunkDesc {
            segment_id: r.segment_id(),
            generation: 0,
            offset: r.offset(),
            len: REPLY_CHUNK_BYTES,
            schema_id: SCHEMA_ENVELOPE,
            _pad: 0,
        }
    }

    /// Read and check the message a descriptor names.
    pub fn read_message(&self, desc: &ChunkDesc) -> (r: Result<(Envelope, Vec<u8>), Error>)
        requires
            self.wf(),
        ensures
            match read_of(&self.pool, *desc) {
                Err(e) => r is Err && r->Err_0 == e,
                Ok((e, b)) => r is Ok && r->Ok_0.0 == e && r->Ok_0.1@ == b,
            },
    {
        if desc.schema_id != SCHEMA_ENVELOPE {
            return Err(Error::Core(MessageError::NotEnvelope(desc.schema_id)));
        }
        let k: usize = match self.pool.find(desc.segment_id, desc.offset) {
            None => {
                return Err(Error::Core(MessageError::BadEnvelope));
            },
            Some(k) => k,
        };
        proof {
            assert(self.pool@[k as int] == self.pool.chunks@[k as int]@);
            assert(chunk_ok(self.pool@[k as int]));
        }
        if desc.len > self.pool.chunks[k].len {
            return Err(Error::Core(MessageError::BadEnvelope));
        }
        let buf: Vec<u8> = front(&self.pool.chunks[k].bytes, desc.len as usize);
        match decode_message(buf.as_slice()) {
            Ok((e, body)) => {
                let mut v: Vec<u8> = Vec::new();
                crate::artifact::window::extend(&mut v, body);
                proof {
                    assert(v@ =~= body@);
                }
                Ok((e, v))
            },
            Err(x) => Err(Error::Core(x)),
        }
    }

    /// Give a message chunk back.
    pub fn free(&mut self, desc: &ChunkDesc)
        requires
            old(self).wf(),
        ensures
            final(self).wf(),
            final(self).pool.same_place(&old(self).pool),
            final(self).pool@ == old(self).pool.freed(*desc),
    {
        self.pool.free(desc)
    }
}

/// A message that was written reads back as itself.
pub proof fn message_reads_back(pool: &ChunkPool, d: ChunkDesc, env: Envelope, body: Seq<u8>)
    requires
        pool.wf(),
        d.schema_id == SCHEMA_ENVELOPE,
        reachable(pool, d),
        holds_message(pool@[pool.at(d.offset)].bytes, env, body),
        64 + body.len() <= d.len,
        env.body_len == body.len(),
        env.spec_is_inline(),
        envelope_refusal(env) is None,
    ensures
        read_of(pool, d) == Ok::<(Envelope, Seq<u8>), Error>((env, body)),
{
    lemma_has(pool.lay@, d.offset);
    let c = pool@[pool.at(d.offset)];
    assert(chunk_ok(c));
    let b = c.bytes.take(d.len as int);
    assert(b.subrange(64, 64 + body.len() as int) =~= c.bytes.subrange(64, 64 + body.len() as int));
    assert(envelope_at(b, 0, env));
    message_round_trip(b, env, body);
}

/// Writing a message and giving its chunk back leaves every chunk where it
/// was.
pub proof fn write_then_free_leaks_nothing(p0: &ChunkPool, p1: &ChunkPool, k: int, b: Seq<u8>, j: int)
    requires
        p0.wf(),
        p1.wf(),
        p1.same_place(p0),
        0 <= k < p0@.len(),
        !p0@[k].allocated,
        p1@ == p0@.update(k, ChunkView { bytes: b, ..handed_out(p0@[k]) }),
        0 <= j < p0@.len(),
    ensures
        p1.freed(desc_of(p0, k, SCHEMA_ENVELOPE))[j].allocated == p0@[j].allocated,
        j != k ==> p1.freed(desc_of(p0, k, SCHEMA_ENVELOPE))[j] == p0@[j],
{
    assert(chunk_ok(p0@[k]));
    lemma_at(p0.lay@, k);
    assert(p1.lay@[k] == p0.lay@[k]);
}

/// A reply chunk nobody wrote to cannot be read.
pub proof fn blank_reply_is_refused(b: Seq<u8>)
    requires
        b.len() >= 64,
        forall|i: int| 0 <= i < 64 ==> #[trigger] b[i] == 0,
    ensures
        message_of(b) == Err::<(Envelope, Seq<u8>), MessageError>(MessageError::BadEnvelope),
{
    assert(b[52] == 0 && b[53] == 0 && b[54] == 0 && b[55] == 0);
    assert(envelope_of(b, 0).magic == 0);
}

/// The reply chunk is the one its reference names.
pub proof fn reply_ref_round_trip(d: ChunkDesc)
    ensures
        PackedRef::spec_pack(d.segment_id, d.offset).spec_segment_id() == d.segment_id,
        PackedRef::spec_pack(d.segment_id, d.offset).spec_offset() == d.offset,
{
    packed_ref_round_trip(PackedRef::spec_pack(d.segment_id, d.offset), d.segment_id, d.offset);
}

} // verus!
