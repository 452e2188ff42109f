//! A message from its sender to its handler, and the reply on its way back.
//!
//! The mailbox itself is a queue of descriptors elsewhere. What travels is here:
//! the sender writes the request and lends a chunk for the reply, the receiver
//! reads the one, has it handled, and writes into the other.
use vstd::prelude::*;

use crate::actor::ask::{answered, ask_result, due_at, ActorRef, Outcome};
use crate::actor::error::Error;
use crate::actor::host::{ActorSystem, Cx};
use crate::actor::mailbox::{after_handling, answer, completes, is_answer, step_for, Step};
use crate::actor::pool::{
    blank_reply_is_refused, holds_message, message_reads_back, reachable, read_of, write_refusal,
    MessagePool,
};
use crate::artifact::pool::{best_fit, chunk_ok, fits, lemma_at, ChunkPool, ChunkView};
use crate::batch::write::{desc_of, handed_out, lemma_pick, pick, unused_bytes_aside, with_bytes};
use crate::chunk::{packed_ref_round_trip, ChunkDesc, PackedRef};
use crate::message::envelope::{body_room, Envelope, MessageKind, SCHEMA_ENVELOPE};
use crate::message::error::Error as MessageError;
use crate::message::payload::{LocalRef, Payload, Reply};

verus! {

// ---- sending ----

/// A message that is ready to be submitted.
#[derive(Clone, Copy, Debug)]
pub struct Posted {
    /// The chunk that holds it.
    pub desc: ChunkDesc,
    pub env: Envelope,
    /// When it is due.
    pub deadline: u64,
}

/// An ask that is ready to be submitted.
#[derive(Clone, Copy, Debug)]
pub struct Asking {
    pub request: Posted,
    /// The chunk lent for the reply.
    pub reply: ChunkDesc,
}

/// Whether `p1` is `p0` with the message written to the chunk the pool picks
/// for it, which `d` names.
pub open spec fn message_written(
    p0: &ChunkPool,
    p1: &ChunkPool,
    d: ChunkDesc,
    env: Envelope,
    body: Seq<u8>,
) -> bool {
    match pick(p0@, 64 + body.len() as int) {
        None => false,
        Some(k) => {
            &&& d == desc_of(p0, k, SCHEMA_ENVELOPE)
            &&& p1@ == p0@.update(k, ChunkView { bytes: p1@[k].bytes, ..handed_out(p0@[k]) })
            &&& holds_message(p1@[k].bytes, env, body)
        },
    }
}

/// Why a body cannot be posted to the chunks `p`.
pub open spec fn post_refusal(p: Seq<ChunkView>, len: int) -> Option<Error> {
    match pick(p, 64 + len) {
        None => Some(Error::Shm(crate::artifact::error::Error::Exhausted)),
        Some(k) => if len > 65535 {
            Some(
                Error::Core(
                    MessageError::BodyTooLarge { len: len as usize, max: body_room(p[k].len as int) },
                ),
            )
        } else {
            None
        },
    }
}

/// Whether `p1` is `p0` with the request and a blank chunk for its reply.
pub open spec fn asked(p0: &ChunkPool, p1: &ChunkPool, a: Asking, body: Seq<u8>) -> bool {
    match pick(p0@, 256) {
        None => false,
        Some(k) => {
            let q = p0@.update(k, handed_out(p0@[k]));
            match pick(q, 64 + body.len() as int) {
                None => false,
                Some(m) => {
                    &&& k != m
                    &&& a.reply == desc_of(p0, k, SCHEMA_ENVELOPE)
                    &&& a.request.desc == desc_of(p0, m, SCHEMA_ENVELOPE)
                    &&& p1@ == p0@.update(
                        k,
                        ChunkView { bytes: p1@[k].bytes, ..handed_out(p0@[k]) },
                    ).update(m, ChunkView { bytes: p1@[m].bytes, ..handed_out(p0@[m]) })
                    &&& forall|i: int| 0 <= i < 64 ==> #[trigger] p1@[k].bytes[i] == 0
                    &&& holds_message(p1@[m].bytes, a.request.env, body)
                },
            }
        },
    }
}

proof fn lemma_pick_is(p: Seq<ChunkView>, size: int)
    ensures
        pick(p, size) matches Some(k) ==> best_fit(p, k, size) && 0 <= k < p.len() && fits(p[k], size),
        pick(p, size) is None ==> forall|k: int| !best_fit(p, k, size),
{
}

/// What is picked does not hang on what the chunks hold.
proof fn lemma_pick_ignores_bytes(p: Seq<ChunkView>, q: Seq<ChunkView>, size: int)
    requires
        p.len() == q.len(),
        forall|j: int|
            0 <= j < p.len() ==> (#[trigger] p[j]).len == q[j].len && p[j].allocated == q[j].allocated
                && p[j].state == q[j].state,
    ensures
        pick(p, size) == pick(q, size),
{
    assert forall|j: int| 0 <= j < p.len() implies fits(#[trigger] p[j], size) == fits(q[j], size) by {}
    assert forall|j: int| #[trigger] best_fit(p, j, size) == best_fit(q, j, size) by {
        if best_fit(p, j, size) {
            assert(fits(p[j], size));
            assert(best_fit(q, j, size)) by {
                assert forall|i: int| 0 <= i < q.len() && fits(#[trigger] q[i], size) implies fits(
                    p[i],
                    size,
                ) by {
                    assert(p[i].len == q[i].len);
                }
            }
        }
        if best_fit(q, j, size) {
            assert(0 <= j < p.len());
            assert(p[j].len == q[j].len);
            assert forall|i: int| 0 <= i < p.len() && fits(#[trigger] p[i], size) implies fits(
                q[i],
                size,
            ) by {
                assert(p[i].len == q[i].len);
            }
            assert(best_fit(p, j, size));
        }
    }
    if pick(p, size) is Some {
        let k = pick(p, size)->Some_0;
        assert(best_fit(p, k, size));
        assert(best_fit(q, k, size));
        lemma_pick(q, k, size);
    } else if pick(q, size) is Some {
        let k = pick(q, size)->Some_0;
        assert(best_fit(q, k, size));
        assert(best_fit(p, k, size));
    }
}

impl ActorRef {
    /// Write a message for the mailbox. The correlation id is spent even if
    /// that fails.
    pub fn post(
        &mut self,
        msgs: &mut MessagePool,
        kind: MessageKind,
        schema_id: u32,
        body: &[u8],
        now: u64,
        reply: Option<LocalRef>,
    ) -> (r: Result<Posted, Error>)
        requires
            old(msgs).wf(),
        ensures
            final(msgs).wf(),
            final(msgs).pool.same_place(&old(msgs).pool),
            *final(self) == old(self).after(kind),
            match post_refusal(old(msgs).pool@, body@.len() as int) {
                Some(e) => {
                    &&& r is Err && r->Err_0 == e
                    &&& final(msgs).pool@ == old(msgs).pool@
                },
                None => {
                    &&& r is Ok
                    &&& r->Ok_0.deadline == crate::actor::ask::due(now)
                    &&& old(self).is_request(
                        kind,
                        schema_id,
                        body@.len() as u16,
                        now,
                        reply,
                        r->Ok_0.env,
                    )
                    &&& message_written(
                        &old(msgs).pool,
                        &final(msgs).pool,
                        r->Ok_0.desc,
                        r->Ok_0.env,
                        body@,
                    )
                },
            },
    {
        let n: usize = body.len();
        let body_len: u16 = (n % 65536) as u16;
        let env: Envelope = self.request(kind, schema_id, body_len, now, reply);
        match msgs.write_message(&env, body) {
            Ok(desc) => Ok(Posted { desc, env, deadline: due_at(now) }),
            Err(e) => Err(e),
        }
    }

    /// Write a message that wants no reply.
    pub fn tell<P: Payload>(&mut self, msgs: &mut MessagePool, msg: &P, now: u64) -> (r: Result<
        Posted,
        Error,
    >)
        requires
            old(msgs).wf(),
        ensures
            final(msgs).wf(),
            final(msgs).pool.same_place(&old(msgs).pool),
            *final(self) == *old(self),
            match post_refusal(old(msgs).pool@, msg.wire().len() as int) {
                Some(e) => {
                    &&& r is Err && r->Err_0 == e
                    &&& final(msgs).pool@ == old(msgs).pool@
                },
                None => {
                    &&& r is Ok
                    &&& r->Ok_0.deadline == crate::actor::ask::due(now)
                    &&& old(self).is_request(
                        MessageKind::Tell,
                        P::spec_schema_id(),
                        msg.wire().len() as u16,
                        now,
                        None,
                        r->Ok_0.env,
                    )
                    &&& message_written(
                        &old(msgs).pool,
                        &final(msgs).pool,
                        r->Ok_0.desc,
                        r->Ok_0.env,
                        msg.wire(),
                    )
                },
            },
    {
        let body: Vec<u8> = msg.as_bytes();
        self.post(msgs, MessageKind::Tell, P::schema_id(), body.as_slice(), now, None)
    }

    /// Write an ask, and lend a chunk for its reply. If that fails, nothing is
    /// left behind.
    pub fn ask_raw(&mut self, msgs: &mut MessagePool, schema_id: u32, body: &[u8], now: u64) -> (r:
        Result<Asking, Error>)
        requires
            old(msgs).wf(),
        ensures
            final(msgs).wf(),
            final(msgs).pool.same_place(&old(msgs).pool),
            r is Err ==> unused_bytes_aside(old(msgs).pool@, final(msgs).pool@),
            match pick(old(msgs).pool@, 256) {
                None => {
                    &&& r is Err && r->Err_0 == Error::Shm(crate::artifact::error::Error::Exhausted)
                    &&& *final(self) == *old(self)
                },
                Some(k) => {
                    let q = old(msgs).pool@.update(k, handed_out(old(msgs).pool@[k]));
                    &&& *final(self) == old(self).after(MessageKind::Ask)
                    &&& match post_refusal(q, body@.len() as int) {
                        Some(e) => r is Err && r->Err_0 == e,
                        None => {
                            &&& r is Ok
                            &&& r->Ok_0.request.deadline == crate::actor::ask::due(now)
                            &&& old(self).is_request(
                                MessageKind::Ask,
                                schema_id,
                                body@.len() as u16,
                                now,
                                Some(
                                    LocalRef(
                                        PackedRef::spec_pack(
                                            r->Ok_0.reply.segment_id,
                                            r->Ok_0.reply.offset,
                                        ),
                                    ),
                                ),
                                r->Ok_0.request.env,
                            )
                            &&& asked(&old(msgs).pool, &final(msgs).pool, r->Ok_0, body@)
                        },
                    }
                },
            },
    {
        let ghost p0 = msgs.pool;
        let reply: ChunkDesc = match msgs.alloc_reply() {
            Ok(d) => d,
            Err(e) => {
                proof {
                    assert(msgs.pool@ =~= with_bytes(p0@, msgs.pool@));
                }
                return Err(e);
            },
        };
        let ghost p1 = msgs.pool;
        let ghost k = pick(p0@, 256)->Some_0;
        let ghost q = p0@.update(k, handed_out(p0@[k]));
        proof {
            lemma_pick_is(p0@, 256);
            lemma_pick_ignores_bytes(p1@, q, 64 + body@.len() as int);
            lemma_pick_is(q, 64 + body@.len() as int);
        }
        let r: LocalRef = LocalRef(PackedRef::from_desc(&reply));
        match self.post(msgs, MessageKind::Ask, schema_id, body, now, Some(r)) {
            Ok(request) => {
                proof {
                    let m = pick(q, 64 + body@.len() as int)->Some_0;
                    assert(fits(q[m], 64 + body@.len() as int));
                    assert(m != k);
                    let p2 = msgs.pool;
                    assert(p2@ =~= p0@.update(
                        k,
                        ChunkView { bytes: p2@[k].bytes, ..handed_out(p0@[k]) },
                    ).update(m, ChunkView { bytes: p2@[m].bytes, ..handed_out(p0@[m]) }));
                    assert(request.desc == desc_of(&p0, m, SCHEMA_ENVELOPE));
                }
                Ok(Asking { request, reply })
            },
            Err(e) => {
                proof {
                    lemma_at(p0.lay@, k);
                    assert(chunk_ok(p0@[k]));
                    assert(p0.lay@[k] == reply.offset);
                    if post_refusal(p1@, body@.len() as int) is Some {
                        assert(post_refusal(p1@, body@.len() as int) == post_refusal(
                            q,
                            body@.len() as int,
                        ));
                    }
                }
                msgs.free(&reply);
                proof {
                    assert(msgs.pool@ =~= with_bytes(p0@, msgs.pool@));
                    assert forall|j: int| 0 <= j < p0@.len() && p0@[j].allocated implies (
                    #[trigger] msgs.pool@[j]) == p0@[j] by {
                        assert(j != k);
                    }
                }
                Err(e)
            },
        }
    }

    /// Write an ask for a message.
    pub fn ask<P: Payload>(&mut self, msgs: &mut MessagePool, msg: &P, now: u64) -> (r: Result<
        Asking,
        Error,
    >)
        requires
            old(msgs).wf(),
        ensures
            final(msgs).wf(),
            final(msgs).pool.same_place(&old(msgs).pool),
            r is Err ==> unused_bytes_aside(old(msgs).pool@, final(msgs).pool@),
            match pick(old(msgs).pool@, 256) {
                None => {
                    &&& r is Err && r->Err_0 == Error::Shm(crate::artifact::error::Error::Exhausted)
                    &&& *final(self) == *old(self)
                },
                Some(k) => {
                    let q = old(msgs).pool@.update(k, handed_out(old(msgs).pool@[k]));
                    &&& *final(self) == old(self).after(MessageKind::Ask)
                    &&& match post_refusal(q, msg.wire().len() as int) {
                        Some(e) => r is Err && r->Err_0 == e,
                        None => {
                            &&& r is Ok
                            &&& r->Ok_0.request.deadline == crate::actor::ask::due(now)
                            &&& old(self).is_request(
                                MessageKind::Ask,
                                P::spec_schema_id(),
                                msg.wire().len() as u16,
                                now,
                                Some(
                                    LocalRef(
                                        PackedRef::spec_pack(
                                            r->Ok_0.reply.segment_id,
                                            r->Ok_0.reply.offset,
                                        ),
                                    ),
                                ),
                                r->Ok_0.request.env,
                            )
                            &&& asked(&old(msgs).pool, &final(msgs).pool, r->Ok_0, msg.wire())
                        },
                    }
                },
            },
    {
        let body: Vec<u8> = msg.as_bytes();
        self.ask_raw(msgs, P::schema_id(), body.as_slice(), now)
    }
}

impl MessagePool {
    /// Take back an ask that the mailbox refused.
    pub fn withdraw(&mut self, a: &Asking)
        requires
            old(self).wf(),
        ensures
            final(self).wf(),
            final(self).pool.same_place(&old(self).pool),
            exists|p: ChunkPool|
                p.same_place(&old(self).pool) && #[trigger] p@ == old(self).pool.freed(a.request.desc)
                    && final(self).pool@ == p.freed(a.reply),
    {
        self.free(&a.request.desc);
        let ghost p = self.pool;
        self.free(&a.reply);
        proof {
            assert(self.pool@ == p.freed(a.reply));
        }
    }

    /// Read the reply of an ask whose task ended, and give its chunk back.
    pub fn take_reply(&mut self, a: &Asking, outcome: Outcome) -> (r: Result<(Envelope, Vec<u8>), Error>)
        requires
            old(self).wf(),
        ensures
            final(self).wf(),
            final(self).pool.same_place(&old(self).pool),
            final(self).pool@ == old(self).pool.freed(a.reply),
            match answered(outcome, read_of(&old(self).pool, a.reply).ok(), a.request.env.corr) {
                Err(e) => r is Err && r->Err_0 == e,
                Ok((e, b)) => r is Ok && r->Ok_0.0 == e && r->Ok_0.1@ == b,
            },
    {
        let read: Result<(Envelope, Vec<u8>), Error> = self.read_message(&a.reply);
        self.free(&a.reply);
        ask_result(outcome, read, a.request.env.corr)
    }
}

// ---- receiving ----

/// What becomes of a message that was claimed.
#[derive(Debug)]
pub enum Received<H> {
    /// It is no message. The task fails, and the chunk is left alone: nobody
    /// knows whose it is.
    Unreadable,
    /// Nobody here takes it.
    Refused { env: Envelope, error: MessageError },
    /// Call the handler.
    Call { at: usize, handler: H, env: Envelope, body: Vec<u8>, cx: Cx },
}

/// What becomes of a task whose message was handled.
#[derive(Clone, Copy, Debug, PartialEq, Eq, Structural)]
pub enum Settled {
    Complete,
    Fail,
    /// Leave the claim to lapse.
    Lapse,
}

/// How a finished task ends.
pub open spec fn ended(complete: bool) -> Settled {
    if complete {
        Settled::Complete
    } else {
        Settled::Fail
    }
}

/// The descriptor of the reply chunk a reference names.
pub open spec fn lent(r: LocalRef) -> ChunkDesc {
    ChunkDesc {
        segment_id: r.0.spec_segment_id(),
        generation: 0,
        offset: r.0.spec_offset(),
        len: 256,
        schema_id: SCHEMA_ENVELOPE,
        _pad: 0,
    }
}

/// Whether `p1` is `p0` with the message written through `d`.
pub open spec fn written_through(
    p0: &ChunkPool,
    p1: &ChunkPool,
    d: ChunkDesc,
    env: Envelope,
    body: Seq<u8>,
) -> bool {
    let k = p0.at(d.offset);
    &&& write_refusal(p0, d, env, body) is None
    &&& p1@ == p0@.update(k, ChunkView { bytes: p1@[k].bytes, ..p0@[k] })
    &&& holds_message(p1@[k].bytes, env, body)
}

/// Whether the reply `env` and `body` was written to the chunk `to` names, or
/// could not be, and the task ends accordingly.
pub open spec fn replied(
    p0: &ChunkPool,
    p1: &ChunkPool,
    to: LocalRef,
    env: Envelope,
    body: Seq<u8>,
    handled: bool,
    s: Settled,
) -> bool {
    if write_refusal(p0, lent(to), env, body) is Some {
        s == Settled::Fail && p1@ == p0@
    } else {
        s == ended(handled) && written_through(p0, p1, lent(to), env, body)
    }
}

impl<H: Copy> ActorSystem<H> {
    /// Read the message of a claimed task, and find out who takes it.
    pub fn receive(&self, msgs: &MessagePool, req: &ChunkDesc, attempt: u32) -> (r: Received<H>)
        requires
            self.wf(),
            msgs.wf(),
        ensures
            match read_of(&msgs.pool, *req) {
                Err(_) => r is Unreadable,
                Ok((e, b)) => match self.taker(e) {
                    Err(x) => r == (Received::<H>::Refused { env: e, error: x }),
                    Ok((i, h)) => {
                        &&& r is Call
                        &&& r->at == i && r->handler == h && r->Call_env == e && r->body@ == b
                        &&& r->cx == (Cx {
                            self_id: crate::message::envelope::ActorId(e.to),
                            sender: crate::message::envelope::ActorId(e.from),
                            corr: e.corr,
                            attempt,
                        })
                    },
                },
            },
    {
        match msgs.read_message(req) {
            Err(_) => Received::Unreadable,
            Ok((env, body)) => match self.route(&env) {
                Err(error) => Received::Refused { env, error },
                Ok((at, handler)) => {
                    let cx: Cx = Cx::for_message(&env, attempt);
                    Received::Call { at, handler, env, body, cx }
                },
            },
        }
    }

    /// Answer the message `env`, claimed `elapsed` nanoseconds ago, with what
    /// its handler said.
    pub fn settle(
        &self,
        msgs: &mut MessagePool,
        env: &Envelope,
        outcome: &Result<Reply, MessageError>,
        elapsed: u64,
    ) -> (s: Settled)
        requires
            old(msgs).wf(),
            outcome matches Ok(Reply::Inline(b)) ==> b.wf(),
        ensures
            final(msgs).wf(),
            final(msgs).pool.same_place(&old(msgs).pool),
            match step_for(*env, outcome is Ok, elapsed, self.lease) {
                Step::Finish { complete } => s == ended(complete) && final(msgs).pool@ == old(
                    msgs,
                ).pool@,
                Step::Abandon => s == Settled::Lapse && final(msgs).pool@ == old(msgs).pool@,
                Step::Answer { to } => exists|e: Envelope, b: Seq<u8>| #[trigger]
                    is_answer(*env, *outcome, e, b) && replied(
                        &old(msgs).pool,
                        &final(msgs).pool,
                        to,
                        e,
                        b,
                        outcome is Ok,
                        s,
                    ),
            },
    {
        match after_handling(env, outcome.is_ok(), elapsed, self.lease) {
            Step::Finish { complete } => if complete {
                Settled::Complete
            } else {
                Settled::Fail
            },
            Step::Abandon => Settled::Lapse,
            Step::Answer { to } => {
                let d: ChunkDesc = msgs.reply_desc(to);
                let (e, b) = answer(env, outcome);
                let r: Result<(), Error> = msgs.write_message_into(&d, &e, b.as_slice());
                proof {
                    assert(is_answer(*env, *outcome, e, b@));
                    assert(d == lent(to));
                }
                if completes(outcome.is_ok(), r.is_ok()) {
                    Settled::Complete
                } else {
                    Settled::Fail
                }
            },
        }
    }

    /// Give the request back once its task ended; not if the task was `lost` to
    /// another attempt, which then owns the request.
    pub fn finish(&self, msgs: &mut MessagePool, req: &ChunkDesc, lost: bool)
        requires
            old(msgs).wf(),
        ensures
            final(msgs).wf(),
            final(msgs).pool.same_place(&old(msgs).pool),
            final(msgs).pool@ == if lost {
                old(msgs).pool@
            } else {
                old(msgs).pool.freed(*req)
            },
    {
        if !lost {
            msgs.free(req);
        }
    }
}

// ---- the whole way ----

/// The message that is received is the one that was asked.
pub proof fn an_ask_arrives(a: ActorRef, p0: &ChunkPool, p1: &ChunkPool, ask: Asking, schema_id: u32, body: Seq<u8>, now: u64)
    requires
        p0.wf(),
        p1.wf(),
        p1.same_place(p0),
        body.len() <= 65535,
        asked(p0, p1, ask, body),
        a.is_request(
            MessageKind::Ask,
            schema_id,
            body.len() as u16,
            now,
            Some(LocalRef(PackedRef::spec_pack(ask.reply.segment_id, ask.reply.offset))),
            ask.request.env,
        ),
    ensures
        read_of(p1, ask.request.desc) == Ok::<(Envelope, Seq<u8>), Error>((ask.request.env, body)),
        // nothing was answered yet
        read_of(p1, ask.reply) is Err,
{
    let k = pick(p0@, 256)->Some_0;
    let q = p0@.update(k, handed_out(p0@[k]));
    let m = pick(q, 64 + body.len() as int)->Some_0;
    lemma_pick_is(p0@, 256);
    lemma_pick_is(q, 64 + body.len() as int);
    lemma_at(p0.lay@, k);
    lemma_at(p0.lay@, m);
    assert(chunk_ok(p1@[k]));
    assert(chunk_ok(p1@[m]));
    message_reads_back(p1, ask.request.desc, ask.request.env, body);
    let b = p1@[k].bytes.take(ask.reply.len as int);
    assert forall|i: int| 0 <= i < 64 implies #[trigger] b[i] == 0 by {
        assert(p1@[k].bytes[i] == 0);
    }
    blank_reply_is_refused(b);
}

/// An ask that is handled in time is answered: the receiver is told to write to
/// the chunk that was lent, can do so, and the asker then reads what the handler
/// said, or that it failed.
pub proof fn an_answer_arrives(
    a: ActorRef,
    p0: &ChunkPool,
    p1: &ChunkPool,
    p2: &ChunkPool,
    ask: Asking,
    schema_id: u32,
    body: Seq<u8>,
    now: u64,
    outcome: Result<Reply, MessageError>,
    elapsed: u64,
    lease: u64,
    env: Envelope,
    said: Seq<u8>,
    s: Settled,
)
    requires
        p0.wf(),
        p1.wf(),
        p2.wf(),
        p1.same_place(p0),
        p2.same_place(p1),
        body.len() <= 65535,
        asked(p0, p1, ask, body),
        a.is_request(
            MessageKind::Ask,
            schema_id,
            body.len() as u16,
            now,
            Some(LocalRef(PackedRef::spec_pack(ask.reply.segment_id, ask.reply.offset))),
            ask.request.env,
        ),
        outcome matches Ok(Reply::Inline(b)) ==> b.wf(),
        elapsed <= lease / 2,
        is_answer(ask.request.env, outcome, env, said),
        step_for(ask.request.env, outcome is Ok, elapsed, lease) matches Step::Answer { to }
            ==> replied(p1, p2, to, env, said, outcome is Ok, s),
    ensures
        step_for(ask.request.env, outcome is Ok, elapsed, lease) is Answer,
        s == ended(outcome is Ok),
        read_of(p2, ask.reply) == Ok::<(Envelope, Seq<u8>), Error>((env, said)),
        outcome is Ok ==> answered(Outcome::Done, read_of(p2, ask.reply).ok(), ask.request.env.corr)
            == Ok::<(Envelope, Seq<u8>), Error>((env, said)),
        outcome matches Ok(Reply::Inline(b)) ==> env.schema_id == b.schema && said == b.body@,
        outcome is Err ==> answered(
            Outcome::Done,
            read_of(p2, ask.reply).ok(),
            ask.request.env.corr,
        ) == Err::<(Envelope, Seq<u8>), Error>(Error::Failed),
        // the request is untouched, so that it can be delivered again
        read_of(p2, ask.request.desc) == Ok::<(Envelope, Seq<u8>), Error>((ask.request.env, body)),
{
    let k = pick(p0@, 256)->Some_0;
    let q = p0@.update(k, handed_out(p0@[k]));
    let m = pick(q, 64 + body.len() as int)->Some_0;
    lemma_pick_is(p0@, 256);
    lemma_pick_is(q, 64 + body.len() as int);
    lemma_at(p0.lay@, k);
    lemma_at(p0.lay@, m);
    assert(chunk_ok(p0@[k]));
    assert(chunk_ok(p1@[k]));
    assert(chunk_ok(p2@[k]));
    let to = LocalRef(PackedRef::spec_pack(ask.reply.segment_id, ask.reply.offset));
    packed_ref_round_trip(to.0, ask.reply.segment_id, ask.reply.offset);
    let step = step_for(ask.request.env, outcome is Ok, elapsed, lease);
    assert(step == (Step::Answer { to }));
    assert(reachable(p1, lent(to)));
    assert(write_refusal(p1, lent(to), env, said) is None);
    assert(written_through(p1, p2, lent(to), env, said));
    message_reads_back(p2, ask.reply, env, said);
    crate::actor::ask::ask_gets_the_answer(ask.request.env, outcome, env, said);
    assert(p2@[m] == p1@[m]);
    message_reads_back(p2, ask.request.desc, ask.request.env, body);
}

/// An ask leaves nothing behind: once the asker gave the reply chunk back and
/// the receiver the request, what was handed out before is handed out, and
/// nothing else.
pub proof fn an_ask_leaves_nothing(
    p0: &ChunkPool,
    p1: &ChunkPool,
    p2: &ChunkPool,
    p3: &ChunkPool,
    ask: Asking,
    body: Seq<u8>,
    j: int,
)
    requires
        p0.wf(),
        p1.wf(),
        p1.same_place(p0),
        p2.same_place(p0),
        p3.same_place(p0),
        asked(p0, p1, ask, body),
        // written to or not, in between
        p2@ == with_bytes(p1@, p2@),
        p3@ == p2.freed(ask.request.desc),
        0 <= j < p0@.len(),
    ensures
        p3.freed(ask.reply)[j].allocated == p0@[j].allocated,
        p3.freed(ask.reply)[j].state == p0@[j].state,
        p3.freed(ask.reply)[j].generation == p0@[j].generation,
{
    let k = pick(p0@, 256)->Some_0;
    let q = p0@.update(k, handed_out(p0@[k]));
    let m = pick(q, 64 + body.len() as int)->Some_0;
    lemma_pick_is(p0@, 256);
    lemma_pick_is(q, 64 + body.len() as int);
    lemma_at(p0.lay@, k);
    lemma_at(p0.lay@, m);
    assert(chunk_ok(p0@[k]));
    assert(chunk_ok(p0@[m]));
    assert(fits(q[m], 64 + body.len() as int));
    assert(p2@[k].state == p0@[k].state && p2@[m].state == p0@[m].state);
}

} // verus!
