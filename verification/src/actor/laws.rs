//! Who takes a message, what becomes of it, and what comes back.
use vstd::prelude::*;
use vstd::string::StringSliceAdditionalSpecFns;

use crate::actor::ask::{answered, due, outcome_of, ActorRef, Outcome, Poll};
use crate::actor::error::Error;
use crate::actor::exchange::{ended, post_refusal};
use crate::actor::host::{named_id, ActorSystem};
use crate::actor::mailbox::{is_answer, step_for, Step};
use crate::actor::pool::{read_of, write_refusal};
use crate::artifact::pool::{ChunkPool, ChunkState, ChunkView};
use crate::batch::write_laws::which_chunk_is_handed_out;
use crate::chunk::ChunkDesc;
use crate::message::envelope::{message_of, name_hash, Envelope, MessageKind};
use crate::message::error::Error as MessageError;
use crate::message::laws::flags_on_the_wire;
use crate::message::payload::{LocalRef, Reply};

verus! {

/// A name is the id of an actor on this host, and never of the actor `0`; names of
/// different hashes name different actors, but for the hashes `0` and `1`.
pub proof fn who_a_name_names(a: &str, b: &str)
    ensures
        named_id(a).spec_host() == 0,
        named_id(a).spec_local() != 0,
        ({
            let (h, g) = (name_hash(a.spec_bytes()), name_hash(b.spec_bytes()));
            named_id(a) == named_id(b) <==> h == g || (h <= 1 && g <= 1)
        }),
        name_hash(a.spec_bytes()) > 1 ==> named_id(a).0 == name_hash(a.spec_bytes()),
{
}

/// Who takes a message. Replies are taken by nobody. A request is taken by the
/// actor with the id it names, and there by the handler of its schema: so it is
/// taken if there are both, and otherwise refused for the first that is missing.
pub proof fn who_takes_a_message<H: Copy>(h: ActorSystem<H>, env: Envelope, i: int)
    requires
        h.wf(),
    ensures
        ({
            let t = h.taker(env);
            let asks = env.kind == 1 || env.kind == 2;
            &&& !asks ==> t == Err::<(int, H), MessageError>(MessageError::BadKind(env.kind))
            &&& asks && (forall|k: int| 0 <= k < h.ids@.len() ==> #[trigger] h.ids@[k] != env.to)
                ==> t == Err::<(int, H), MessageError>(MessageError::NoSuchActor(env.to))
            &&& asks && 0 <= i < h.ids@.len() && h.ids@[i] == env.to ==> {
                &&& h.actors@[i].handlers().dom().contains(env.schema_id) ==> t == Ok::<
                    (int, H),
                    MessageError,
                >((i, h.actors@[i].handlers()[env.schema_id]))
                &&& !h.actors@[i].handlers().dom().contains(env.schema_id) ==> t == Err::<
                    (int, H),
                    MessageError,
                >(MessageError::UnknownSchema(env.schema_id))
            }
        }),
{
    if h.ids@.contains(env.to) {
        let k = h.ids@.index_of(env.to);
        assert(h.ids@[k] == env.to);
        if 0 <= i < h.ids@.len() && h.ids@[i] == env.to {
            assert(i == k) by {
                if i < k {
                    assert(h.ids@[i] < h.ids@[k]);
                } else if k < i {
                    assert(h.ids@[k] < h.ids@[i]);
                }
            }
        }
    } else if 0 <= i < h.ids@.len() && h.ids@[i] == env.to {
        assert(h.ids@.contains(env.to));
    }
}

/// What becomes of a message. One that wants no reply ends as it was handled. One
/// that wants a reply but lends no chunk for it fails. Any other is answered into
/// the chunk it lends, as long as twice the time that passed is within the lease;
/// after that it is left alone, to be delivered again. Whether it was handled
/// makes no difference to an ask.
pub proof fn what_becomes_of_a_message(env: Envelope, handled: bool, elapsed: u64, lease: u64)
    ensures
        ({
            let s = step_for(env, handled, elapsed, lease);
            let silent = (env.flags / 4) % 2 == 1;
            let lends = (env.flags / 2) % 2 == 1;
            &&& silent ==> s == (Step::Finish { complete: handled })
            &&& !silent && !lends ==> s == (Step::Finish { complete: false })
            &&& !silent && lends && 2 * elapsed <= lease ==> s is Answer && s->to.0.0 == env.payload
            &&& !silent && lends && 2 * elapsed > lease ==> s is Abandon
        }),
        step_for(env, handled, elapsed, lease) is Answer <==> step_for(env, !handled, elapsed, lease) is Answer,
{
    flags_on_the_wire(env);
}

/// What a request says: from one end to the other, of which kind and schema, how long its
/// body is; for an ask the next number and where the reply goes, for a tell neither, and
/// that no reply is wanted; and by when it is due, in milliseconds.
pub proof fn what_a_request_says(
    a: ActorRef,
    kind: MessageKind,
    schema_id: u32,
    body_len: u16,
    now: u64,
    reply: Option<LocalRef>,
    e: Envelope,
)
    requires
        a.is_request(kind, schema_id, body_len, now, reply, e),
    ensures
        e.to == a.to.0 && e.from == a.from.0 && e.schema_id == schema_id && e.body_len == body_len,
        kind is Tell ==> e.kind == 1 && e.corr == 0,
        kind is Ask ==> e.kind == 2 && e.corr == a.next_corr,
        e.flags % 2 == 1,
        (e.flags / 2) % 2 == 1 <==> reply is Some,
        (e.flags / 4) % 2 == 1 <==> kind is Tell,
        reply matches Some(r) ==> e.payload == r.0.0,
        reply is None ==> e.payload == 0,
        now + 60_000_000_000 < 0x1_0000_0000 * 1_000_000 ==> {
            let late = now + 60_000_000_000 - e.deadline * 1_000_000;
            0 <= late < 1_000_000
        },
{
    flags_on_the_wire(e);
}

/// What an answer is: a message back to the asker, with the number and the epoch of
/// the ask, that holds what the handler said, or nothing; of the kind `3`, or `4` if
/// the handler failed. It wants no answer itself.
pub proof fn what_an_answer_is(ask: Envelope, outcome: Result<Reply, MessageError>, env: Envelope, body: Seq<u8>)
    requires
        is_answer(ask, outcome, env, body),
    ensures
        env.to == ask.from,
        env.from == ask.to,
        env.corr == ask.corr,
        env.epoch == ask.epoch,
        env.kind == if outcome is Ok {
            3u16
        } else {
            4u16
        },
        outcome matches Ok(Reply::Inline(b)) ==> body == b.body@ && env.schema_id == b.schema,
        !(outcome matches Ok(Reply::Inline(_))) ==> body.len() == 0 && env.schema_id == 0,
        env.flags % 2 == 1 && (env.flags / 2) % 2 == 0,
        env.body_len == body.len(),
        env.payload == 0 && env.version == 0 && env.deadline == 0,
{
}

/// What an ask gives back. Only what was read from the reply of a task that is
/// done, and only if that is a reply (kind `3`) to this very ask.
pub proof fn what_an_ask_gives_back(
    outcome: Outcome,
    read: Option<(Envelope, Seq<u8>)>,
    corr: u64,
    e: Envelope,
    b: Seq<u8>,
)
    ensures
        ({
            let r = answered(outcome, read, corr);
            &&& r == Ok::<(Envelope, Seq<u8>), Error>((e, b)) <==> outcome is Done && read == Some((e, b))
                && e.kind == 3 && e.corr == corr
            &&& outcome is Cancelled <==> r == Err::<(Envelope, Seq<u8>), Error>(Error::Cancelled)
            &&& r == Err::<(Envelope, Seq<u8>), Error>(Error::Failed) <==> outcome is Failed || (
            outcome is Done && match read {
                Some((x, _)) => x.kind == 4 && x.corr == corr,
                None => true,
            })
            &&& outcome is Done && read == Some((e, b)) && (e.kind == 0 || e.kind > 4) ==> r == Err::<
                (Envelope, Seq<u8>),
                Error,
            >(Error::Core(MessageError::BadKind(e.kind)))
            &&& outcome is Done && read == Some((e, b)) && 1 <= e.kind <= 4 && (e.corr != corr || e.kind
                <= 2) ==> r == Err::<(Envelope, Seq<u8>), Error>(
                Error::BadReply { kind: e.kind, got: e.corr, expected: corr },
            )
        }),
{
}

/// The ends after `n` asks.
pub open spec fn after_asks(a: ActorRef, n: nat) -> ActorRef
    decreases n,
{
    if n == 0 {
        a
    } else {
        after_asks(a, (n - 1) as nat).after(MessageKind::Ask)
    }
}

proof fn lemma_after_asks(a: ActorRef, n: nat)
    ensures
        after_asks(a, n).next_corr == (a.next_corr + n) % 0x1_0000_0000_0000_0000,
        after_asks(a, n).to == a.to && after_asks(a, n).from == a.from,
    decreases n,
{
    if n > 0 {
        lemma_after_asks(a, (n - 1) as nat);
    }
}

/// Asks are told apart by their numbers, as long as fewer than two to the power of
/// sixty-four lie between them. Tells use up none. Who speaks, and to whom, stays.
pub proof fn asks_are_told_apart(a: ActorRef, m: nat, n: nat)
    requires
        m < n,
        n - m < 0x1_0000_0000_0000_0000,
    ensures
        after_asks(a, m).next_corr != after_asks(a, n).next_corr,
        a.after(MessageKind::Tell) == a,
        after_asks(a, n).to == a.to && after_asks(a, n).from == a.from,
{
    lemma_after_asks(a, m);
    lemma_after_asks(a, n);
    let (x, y, w) = (a.next_corr + m, a.next_corr + n, 0x1_0000_0000_0000_0000int);
    if x % w == y % w {
        assert(y - x == w * (y / w - x / w));
        let d = y / w - x / w;
        assert(d <= 0 || w * d >= w);
    }
}

/// A message is due a minute after it was submitted, by a clock that goes round.
pub proof fn a_message_is_due_in_a_minute(now: u64)
    ensures
        now <= u64::MAX - 60_000_000_000 ==> due(now) - now == 60_000_000_000,
        now > u64::MAX - 60_000_000_000 ==> now - due(now) == 0x1_0000_0000_0000_0000 - 60_000_000_000,
{
}

/// When there is room for a message: if a free chunk has room for the envelope and
/// the body, and the body is no longer than its length can say.
pub proof fn when_there_is_room(p: Seq<ChunkView>, len: nat, j: int)
    ensures
        0 <= j < p.len() && !p[j].allocated && p[j].len >= 64 + len && len <= 0xffff ==> post_refusal(
            p,
            len as int,
        ) is None,
        post_refusal(p, len as int) is None ==> len <= 0xffff && exists|k: int|
            0 <= k < p.len() && !(#[trigger] p[k]).allocated && p[k].len >= 64 + len,
        post_refusal(p, len as int) == Some(Error::Shm(crate::artifact::error::Error::Exhausted)) <==> forall|k: int|
            0 <= k < p.len() && !(#[trigger] p[k]).allocated ==> p[k].len < 64 + len,
{
    which_chunk_is_handed_out(p, 64 + len as int, j);
    if let Some(k) = crate::batch::write::pick(p, 64 + len as int) {
        which_chunk_is_handed_out(p, 64 + len as int, k);
    }
    if exists|k: int| 0 <= k < p.len() && !(#[trigger] p[k]).allocated && p[k].len >= 64 + len {
        let k = choose|k: int| 0 <= k < p.len() && !(#[trigger] p[k]).allocated && p[k].len >= 64 + len;
        which_chunk_is_handed_out(p, 64 + len as int, k);
    }
}

/// When a message can be written through a descriptor: if the pool has the chunk,
/// which is at least as long as the descriptor says and was not published, the body
/// is as long as its envelope says, and both fit.
pub proof fn when_a_message_is_written(pool: &ChunkPool, d: ChunkDesc, env: Envelope, body: Seq<u8>, k: int)
    requires
        pool.wf(),
        0 <= k < pool@.len(),
    ensures
        d.segment_id == pool.segment_id && d.offset == pool.lay@[k] ==> (write_refusal(pool, d, env, body)
            is None <==> {
            &&& d.len <= pool@[k].len
            &&& body.len() == env.body_len
            &&& 64 + body.len() <= d.len
            &&& pool@[k].state != ChunkState::Published
        }),
        d.segment_id != pool.segment_id ==> write_refusal(pool, d, env, body) is Some,
{
    crate::artifact::pool::lemma_at(pool.lay@, k);
}

/// What is read through a descriptor: the message that its bytes are, as far as it
/// reaches, if it is one of a message and the pool has the chunk.
pub proof fn what_is_read_through_a_descriptor(pool: &ChunkPool, d: ChunkDesc, k: int)
    requires
        pool.wf(),
        0 <= k < pool@.len(),
        d.segment_id == pool.segment_id,
        d.offset == pool.lay@[k],
    ensures
        d.schema_id == 2 && d.len <= pool@[k].len ==> match message_of(
            pool@[k].bytes.take(d.len as int),
        ) {
            Ok(m) => read_of(pool, d) == Ok::<(Envelope, Seq<u8>), Error>(m),
            Err(x) => read_of(pool, d) == Err::<(Envelope, Seq<u8>), Error>(Error::Core(x)),
        },
        d.schema_id == 2 && d.len > pool@[k].len ==> read_of(pool, d) == Err::<(Envelope, Seq<u8>), Error>(
            Error::Core(MessageError::BadEnvelope),
        ),
        d.schema_id != 2 ==> read_of(pool, d) == Err::<(Envelope, Seq<u8>), Error>(
            Error::Core(MessageError::NotEnvelope(d.schema_id)),
        ),
{
    crate::artifact::pool::lemma_at(pool.lay@, k);
}

/// A task has ended unless it waits or is being worked on. One whose slot was given to
/// another was done.
pub proof fn when_a_task_has_ended(p: Poll)
    ensures
        outcome_of(p) is None <==> p is Queued || p is Claimed,
        outcome_of(p) == Some(Outcome::Failed) <==> p is Failed,
        outcome_of(p) == Some(Outcome::Cancelled) <==> p is Cancelled,
        outcome_of(p) == Some(Outcome::Done) <==> p is Done || p is Stale,
{
}

/// A task completes or fails, as it was said to.
pub proof fn a_task_ends_as_said(complete: bool)
    ensures
        ended(complete) is Complete <==> complete,
        ended(complete) is Fail <==> !complete,
{
}

} // verus!
