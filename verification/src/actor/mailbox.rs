//! What becomes of a message once it was handled.
use vstd::prelude::*;

use crate::message::envelope::{envelope_refusal, ActorId, Envelope, MessageKind};
use crate::message::error::Error as MessageError;
use crate::message::payload::{LocalRef, Reply};

verus! {

/// How long a claim on a message lasts unless told otherwise, in nanoseconds.
pub const DEFAULT_LEASE_NANOS: u64 = 500_000_000;

/// How long after its submission a message is due, in nanoseconds.
pub const SUBMIT_HORIZON_NANOS: u64 = 60_000_000_000;

/// What to do with a message that was handled.
#[derive(Clone, Copy, Debug, PartialEq, Eq, Structural)]
pub enum Step {
    /// Complete the task, or fail it, and give the request chunk back if that
    /// was accepted.
    Finish { complete: bool },
    /// Do nothing: the claim may have lapsed, and the message will be
    /// delivered again.
    Abandon,
    /// Write the reply into the chunk the asker lent, then finish.
    Answer { to: LocalRef },
}

/// What to do with a message that was handled.
pub open spec fn step_for(env: Envelope, handled: bool, elapsed: u64, lease: u64) -> Step {
    if env.spec_no_reply() {
        Step::Finish { complete: handled }
    } else if !env.spec_has_ref() {
        Step::Finish { complete: false }
    } else if elapsed > lease / 2 {
        Step::Abandon
    } else {
        Step::Answer { to: LocalRef(crate::chunk::PackedRef(env.payload)) }
    }
}

/// What to do with the message `env`, which was `handled` or failed. `elapsed`
/// is how long ago it was claimed and `lease` how long the claim lasts: past
/// half of that the asker may already have been answered by someone else, and
/// the reply chunk is not to be touched.
pub fn after_handling(env: &Envelope, handled: bool, elapsed: u64, lease: u64) -> (s: Step)
    ensures
        s == step_for(*env, handled, elapsed, lease),
{
    if env.no_reply() {
        return Step::Finish { complete: handled };
    }
    match env.payload_ref() {
        None => Step::Finish { complete: false },
        Some(to) => if elapsed > lease / 2 {
            Step::Abandon
        } else {
            Step::Answer { to }
        },
    }
}

/// Whether the task is completed once the reply was written, or failed.
pub fn completes(handled: bool, wrote: bool) -> (c: bool)
    ensures
        c == (handled && wrote),
{
    handled && wrote
}

/// The envelope and body of the reply to `ask`.
pub open spec fn is_answer(
    ask: Envelope,
    outcome: Result<Reply, MessageError>,
    env: Envelope,
    body: Seq<u8>,
) -> bool {
    let (kind, schema_id) = match outcome {
        Ok(Reply::Inline(b)) => (MessageKind::Reply, b.schema),
        Ok(Reply::Empty) => (MessageKind::Reply, 0u32),
        Err(_) => (MessageKind::Failed, 0u32),
    };
    &&& body == match outcome {
        Ok(Reply::Inline(b)) => b.body@,
        _ => seq![],
    }
    &&& env.epoch == ask.epoch
    &&& (Envelope { epoch: 0, ..env }).is_inline_of(
        kind,
        ActorId(ask.from),
        ActorId(ask.to),
        ask.corr,
        schema_id,
        body.len() as u16,
    )
    &&& envelope_refusal(env) is None
    &&& env.spec_is_inline()
    &&& env.body_len == body.len()
}

/// The envelope and body of the reply to `ask`: what the handler said, nothing,
/// or that it failed.
pub fn answer(ask: &Envelope, outcome: &Result<Reply, MessageError>) -> (r: (Envelope, Vec<u8>))
    requires
        outcome matches Ok(Reply::Inline(b)) ==> b.wf(),
    ensures
        is_answer(*ask, *outcome, r.0, r.1@),
{
    match outcome {
        Ok(Reply::Inline(b)) => {
            let mut v: Vec<u8> = Vec::new();
            crate::artifact::window::extend(&mut v, b.bytes());
            proof {
                assert(v@ =~= b.body@);
            }
            (Envelope::reply_to(ask, b.schema_id(), b.len()), v)
        },
        Ok(Reply::Empty) => {
            let v: Vec<u8> = Vec::new();
            proof {
                assert(v@ =~= seq![]);
            }
            (Envelope::reply_to(ask, 0, 0), v)
        },
        Err(_) => {
            let v: Vec<u8> = Vec::new();
            proof {
                assert(v@ =~= seq![]);
            }
            (Envelope::err_to(ask), v)
        },
    }
}

/// A message is abandoned only if its asker waits for a reply and the claim is
/// past its half: a tell is always finished.
pub proof fn tells_are_always_finished(env: Envelope, handled: bool, elapsed: u64, lease: u64)
    requires
        env.spec_no_reply(),
    ensures
        step_for(env, handled, elapsed, lease) == (Step::Finish { complete: handled }),
{
}

} // verus!
