//! Asking: the request that is sent and what becomes of the answer.
use vstd::prelude::*;

use crate::actor::error::Error;
use crate::actor::mailbox::{is_answer, SUBMIT_HORIZON_NANOS};
use crate::message::envelope::{envelope_refusal, ActorId, Envelope, MessageKind};
use crate::message::error::Error as MessageError;
use crate::message::payload::{from_bytes, LocalRef, Payload, Reply};

verus! {

/// The two ends of a conversation and the next correlation id.
#[derive(Clone, Copy, Debug, PartialEq, Eq, Structural)]
pub struct ActorRef {
    pub to: ActorId,
    pub from: ActorId,
    pub next_corr: u64,
}

/// What a poll of a submitted task says.
#[derive(Clone, Copy, Debug, PartialEq, Eq, Structural)]
pub enum Poll {
    Queued,
    Claimed,
    Done,
    Failed,
    Cancelled,
    /// The handle is stale: the slot was reused, so the task is over.
    Stale,
}

/// How a task ended.
#[derive(Clone, Copy, Debug, PartialEq, Eq, Structural)]
pub enum Outcome {
    Done,
    Failed,
    Cancelled,
}

/// How the task ended, if it did.
pub open spec fn outcome_of(p: Poll) -> Option<Outcome> {
    match p {
        Poll::Queued | Poll::Claimed => None,
        Poll::Done | Poll::Stale => Some(Outcome::Done),
        Poll::Failed => Some(Outcome::Failed),
        Poll::Cancelled => Some(Outcome::Cancelled),
    }
}

/// How the task ended, if it did.
pub fn settled(p: Poll) -> (o: Option<Outcome>)
    ensures
        o == outcome_of(p),
{
    match p {
        Poll::Queued | Poll::Claimed => None,
        Poll::Done | Poll::Stale => Some(Outcome::Done),
        Poll::Failed => Some(Outcome::Failed),
        Poll::Cancelled => Some(Outcome::Cancelled),
    }
}

/// When a message submitted at `now` is due.
pub open spec fn due(now: u64) -> u64 {
    ((now + SUBMIT_HORIZON_NANOS) % 0x1_0000_0000_0000_0000) as u64
}

/// When a message submitted at `now` is due.
pub fn due_at(now: u64) -> (t: u64)
    ensures
        t == due(now),
{
    now.wrapping_add(SUBMIT_HORIZON_NANOS)
}

impl ActorRef {
    pub fn new(to: ActorId, from: ActorId) -> (a: ActorRef)
        ensures
            a == (ActorRef { to, from, next_corr: 1 }),
    {
        ActorRef { to, from, next_corr: 1 }
    }

    /// The ends, with the correlation id after the next message of that kind.
    pub open spec fn after(self, kind: MessageKind) -> ActorRef {
        ActorRef {
            next_corr: if kind == MessageKind::Tell {
                self.next_corr
            } else if self.next_corr == u64::MAX {
                0
            } else {
                (self.next_corr + 1) as u64
            },
            ..self
        }
    }

    /// Whether `e` is the envelope of the next message: a tell has no
    /// correlation id, every other message the next one.
    pub open spec fn is_request(
        self,
        kind: MessageKind,
        schema_id: u32,
        body_len: u16,
        now: u64,
        reply: Option<LocalRef>,
        e: Envelope,
    ) -> bool {
        &&& e.corr == if kind == MessageKind::Tell {
            0
        } else {
            self.next_corr
        }
        &&& e.deadline == (due(now) / 1_000_000) % 0x1_0000_0000
        &&& e.payload == match reply {
            Some(r) => r.0.0,
            None => 0,
        }
        &&& e.spec_has_ref() == (reply is Some)
        &&& e.spec_no_reply() == (kind == MessageKind::Tell)
        &&& e.spec_is_inline()
        &&& e.to == self.to.0
        &&& e.from == self.from.0
        &&& e.schema_id == schema_id
        &&& e.body_len == body_len
        &&& e.kind == kind.number()
        &&& e.version == 0 && e.epoch == 0
        &&& envelope_refusal(e) is None
    }

    /// The destination.
    pub fn to(&self) -> (id: ActorId)
        ensures
            id == self.to,
    {
        self.to
    }

    /// The sender.
    pub fn from(&self) -> (id: ActorId)
        ensures
            id == self.from,
    {
        self.from
    }

    /// The envelope of the next message.
    pub fn request(
        &mut self,
        kind: MessageKind,
        schema_id: u32,
        body_len: u16,
        now: u64,
        reply: Option<LocalRef>,
    ) -> (e: Envelope)
        ensures
            old(self).is_request(kind, schema_id, body_len, now, reply, e),
            *final(self) == old(self).after(kind),
    {
        let corr: u64 = if kind == MessageKind::Tell {
            0
        } else {
            let c: u64 = self.next_corr;
            self.next_corr = if c == u64::MAX {
                0
            } else {
                c + 1
            };
            c
        };
        let env: Envelope = Envelope::inline(kind, self.to, self.from, corr, schema_id, body_len)
            .with_deadline_nanos(due_at(now));
        match reply {
            Some(r) => env.with_reply_ref(r),
            None => env,
        }
    }
}

/// What an ask gives: how the task ended, what was read from the reply chunk,
/// and the ask's correlation id decide.
pub open spec fn answered(
    outcome: Outcome,
    read: Option<(Envelope, Seq<u8>)>,
    corr: u64,
) -> Result<(Envelope, Seq<u8>), Error> {
    match outcome {
        Outcome::Cancelled => Err(Error::Cancelled),
        Outcome::Failed => Err(Error::Failed),
        Outcome::Done => match read {
            None => Err(Error::Failed),
            Some((e, b)) => if !(1 <= e.kind <= 4) {
                Err(Error::Core(MessageError::BadKind(e.kind)))
            } else if e.kind == 3 && e.corr == corr {
                Ok((e, b))
            } else if e.kind == 4 && e.corr == corr {
                Err(Error::Failed)
            } else {
                Err(Error::BadReply { kind: e.kind, got: e.corr, expected: corr })
            },
        },
    }
}

/// What was read from the reply chunk, if it could be read.
pub open spec fn seen(read: Result<(Envelope, Vec<u8>), Error>) -> Option<(Envelope, Seq<u8>)> {
    match read {
        Ok(p) => Some((p.0, p.1@)),
        Err(_) => None,
    }
}

/// What an ask gives once its task ended. A reply chunk that cannot be read was
/// never written: the task went over without an answer.
pub fn ask_result(outcome: Outcome, read: Result<(Envelope, Vec<u8>), Error>, corr: u64) -> (r: Result<
    (Envelope, Vec<u8>),
    Error,
>)
    ensures
        match answered(outcome, seen(read), corr) {
            Err(e) => r is Err && r->Err_0 == e,
            Ok((e, b)) => r is Ok && r->Ok_0.0 == e && r->Ok_0.1@ == b,
        },
{
    match outcome {
        Outcome::Cancelled => {
            return Err(Error::Cancelled);
        },
        Outcome::Failed => {
            return Err(Error::Failed);
        },
        Outcome::Done => {},
    }
    match read {
        Err(_) => Err(Error::Failed),
        Ok((e, b)) => match e.kind() {
            Err(x) => Err(Error::Core(x)),
            Ok(k) => {
                if k == MessageKind::Reply && e.corr == corr {
                    return Ok((e, b));
                }
                if k == MessageKind::Failed && e.corr == corr {
                    return Err(Error::Failed);
                }
                Err(Error::BadReply { kind: e.kind, got: e.corr, expected: corr })
            },
        },
    }
}

/// The reply as a message of the type the asker wants.
pub fn typed_reply<R: Payload>(env: &Envelope, body: &Vec<u8>) -> (r: Result<R, Error>)
    ensures
        if env.schema_id != R::spec_schema_id() {
            r is Err && r->Err_0 == Error::Core(
                MessageError::SchemaMismatch { expected: R::spec_schema_id(), got: env.schema_id },
            )
        } else if body@.len() != R::spec_size() {
            r is Err && r->Err_0 == Error::Core(
                MessageError::BadPayload {
                    expected: R::spec_size() as usize,
                    got: body@.len() as usize,
                },
            )
        } else {
            r is Ok && r->Ok_0.wire() == body@
        },
{
    let expected: u32 = R::schema_id();
    if env.schema_id != expected {
        return Err(Error::Core(MessageError::SchemaMismatch { expected, got: env.schema_id }));
    }
    match from_bytes::<R>(body.as_slice()) {
        Ok(p) => Ok(p),
        Err(e) => Err(Error::Core(e)),
    }
}

/// The asker gets what the handler said: an answer to the ask, read back once
/// the task is done, is the handler's reply, or says that it failed.
pub proof fn ask_gets_the_answer(
    ask: Envelope,
    outcome: Result<Reply, MessageError>,
    env: Envelope,
    body: Seq<u8>,
)
    requires
        is_answer(ask, outcome, env, body),
    ensures
        outcome is Ok ==> answered(Outcome::Done, Some((env, body)), ask.corr) == Ok::<
            (Envelope, Seq<u8>),
            Error,
        >((env, body)),
        outcome is Err ==> answered(Outcome::Done, Some((env, body)), ask.corr) == Err::<
            (Envelope, Seq<u8>),
            Error,
        >(Error::Failed),
        outcome matches Ok(Reply::Inline(b)) ==> env.schema_id == b.schema && body == b.body@,
{
}

} // verus!
