//! Which actor takes a message.
use vstd::prelude::*;
use vstd::string::StringSliceAdditionalSpecFns;

use crate::actor::error::Error;
use crate::actor::mailbox::DEFAULT_LEASE_NANOS;
use crate::message::dispatch::Dispatch;
use crate::message::envelope::{name_hash, ActorId, Envelope, MessageKind};
use crate::message::error::Error as MessageError;

verus! {

/// The actors of a process, by id, each with the handlers of its messages. They
/// share one mailbox.
pub struct ActorSystem<H> {
    /// The ids, ascending.
    pub ids: Vec<u64>,
    pub actors: Vec<Dispatch<H>>,
    /// How long a claim on a message lasts, in nanoseconds.
    pub lease: u64,
    /// Whether the mailbox is polled rather than waited for.
    pub spin: bool,
}

/// The ids ascend.
pub open spec fn ascending(s: Seq<u64>) -> bool {
    forall|i: int, j: int| 0 <= i < j < s.len() ==> s[i] < s[j]
}

/// The id of a named actor.
pub open spec fn named_id(name: &str) -> ActorId {
    ActorId::spec_new(
        0,
        if name_hash(name.spec_bytes()) == 0 {
            1
        } else {
            name_hash(name.spec_bytes())
        },
    )
}

/// Where `id` is among the ascending `ids`, or where it belongs.
fn search(ids: &Vec<u64>, id: u64) -> (r: Result<usize, usize>)
    requires
        ascending(ids@),
    ensures
        match r {
            Ok(i) => i < ids@.len() && ids@[i as int] == id,
            Err(i) => {
                &&& i <= ids@.len()
                &&& !ids@.contains(id)
                &&& forall|k: int| 0 <= k < i ==> #[trigger] ids@[k] < id
                &&& forall|k: int| i <= k < ids@.len() ==> #[trigger] ids@[k] > id
            },
        },
{
    let n: usize = ids.len();
    let mut lo: usize = 0;
    let mut hi: usize = n;
    while lo < hi
        invariant
            n == ids@.len(),
            ascending(ids@),
            lo <= hi <= n,
            forall|k: int| 0 <= k < lo ==> #[trigger] ids@[k] < id,
            forall|k: int| hi <= k < n ==> #[trigger] ids@[k] > id,
        decreases hi - lo,
    {
        let mid: usize = lo + (hi - lo) / 2;
        let x: u64 = ids[mid];
        if x == id {
            return Ok(mid);
        }
        if x < id {
            proof {
                assert forall|k: int| 0 <= k < mid + 1 implies #[trigger] ids@[k] < id by {
                    if k < mid {
                        assert(ids@[k] < ids@[mid as int]);
                    }
                }
            }
            lo = mid + 1;
        } else {
            proof {
                assert forall|k: int| mid <= k < n implies #[trigger] ids@[k] > id by {
                    if mid < k {
                        assert(ids@[mid as int] < ids@[k]);
                    }
                }
            }
            hi = mid;
        }
    }
    proof {
        if ids@.contains(id) {
            let k = choose|k: int| 0 <= k < ids@.len() && ids@[k] == id;
            assert(ids@[k] == id);
        }
    }
    Err(lo)
}

impl<H: Copy> ActorSystem<H> {
    pub open spec fn wf(&self) -> bool {
        &&& ascending(self.ids@)
        &&& self.actors@.len() == self.ids@.len()
        &&& forall|i: int| 0 <= i < self.actors@.len() ==> (#[trigger] self.actors@[i]).wf()
    }

    /// A system without actors.
    pub fn new() -> (h: ActorSystem<H>)
        ensures
            h.wf(),
            h.ids@.len() == 0,
            h.lease == DEFAULT_LEASE_NANOS,
            !h.spin,
    {
        ActorSystem { ids: Vec::new(), actors: Vec::new(), lease: DEFAULT_LEASE_NANOS, spin: false }
    }

    /// How long a claim on a message lasts, in nanoseconds.
    pub fn set_lease(&mut self, nanos: u64)
        ensures
            *final(self) == (ActorSystem { lease: nanos, ..*old(self) }),
    {
        self.lease = nanos;
    }

    /// Whether the mailbox is polled rather than waited for.
    pub fn set_spin(&mut self, spin: bool)
        ensures
            *final(self) == (ActorSystem { spin, ..*old(self) }),
    {
        self.spin = spin;
    }

    /// Add an actor under a name. Two actors of one name are refused.
    pub fn spawn(&mut self, name: &str, actor: Dispatch<H>) -> (r: Result<ActorId, Error>)
        requires
            old(self).wf(),
            actor.wf(),
        ensures
            final(self).wf(),
            final(self).lease == old(self).lease && final(self).spin == old(self).spin,
            if old(self).ids@.contains(named_id(name).0) {
                &&& r == Err::<ActorId, Error>(Error::DuplicateActor(named_id(name).0))
                &&& final(self).ids@ == old(self).ids@
                &&& final(self).actors@ == old(self).actors@
            } else {
                &&& r == Ok::<ActorId, Error>(named_id(name))
                &&& exists|at: int|
                    0 <= at <= old(self).ids@.len() && final(self).ids@ == #[trigger] old(self).ids@.insert(
                        at,
                        named_id(name).0,
                    ) && final(self).actors@ == old(self).actors@.insert(at, actor)
            },
    {
        let id: ActorId = ActorId::named(name);
        proof {
            crate::message::envelope::actor_id_round_trip(id, id.spec_host(), id.spec_local());
        }
        let ghost h0 = *self;
        match search(&self.ids, id.0) {
            Ok(i) => {
                assert(self.ids@.contains(id.0));
                Err(Error::DuplicateActor(id.0))
            },
            Err(at) => {
                self.ids.insert(at, id.0);
                self.actors.insert(at, actor);
                proof {
                    let s = h0.ids@;
                    let t = self.ids@;
                    assert forall|x: int, y: int| 0 <= x < y < t.len() implies t[x] < t[y] by {
                        let x0 = if x < at { x } else { x - 1 };
                        let y0 = if y < at { y } else { y - 1 };
                        if x != at && y != at {
                            assert(t[x] == s[x0] && t[y] == s[y0]);
                            assert(s[x0] < s[y0]);
                        } else if x == at {
                            assert(t[y] == s[y0]);
                        } else {
                            assert(t[x] == s[x0]);
                        }
                    }
                    assert(t == s.insert(at as int, named_id(name).0));
                    assert forall|x: int| 0 <= x < self.actors@.len() implies (
                    #[trigger] self.actors@[x]).wf() by {
                        if x < at {
                            assert(self.actors@[x] == h0.actors@[x]);
                        } else if x > at {
                            assert(self.actors@[x] == h0.actors@[x - 1]);
                        }
                    }
                }
                Ok(id)
            },
        }
    }

    /// The ids of the actors, ascending.
    pub fn actor_ids(&self) -> (v: Vec<ActorId>)
        ensures
            v@ == Seq::new(self.ids@.len(), |i: int| ActorId(self.ids@[i])),
    {
        let n: usize = self.ids.len();
        let mut v: Vec<ActorId> = Vec::new();
        let mut i: usize = 0;
        while i < n
            invariant
                n == self.ids@.len(),
                i <= n,
                v@ == Seq::new(i as nat, |k: int| ActorId(self.ids@[k])),
            decreases n - i,
        {
            v.push(ActorId(self.ids[i]));
            proof {
                assert(v@ =~= Seq::new((i + 1) as nat, |k: int| ActorId(self.ids@[k])));
            }
            i = i + 1;
        }
        v
    }

    /// Whether the system can run: it needs an actor.
    pub fn ready(&self) -> (r: Result<(), Error>)
        ensures
            r == if self.ids@.len() == 0 {
                Err::<(), Error>(Error::NoActor)
            } else {
                Ok(())
            },
    {
        if self.ids.len() == 0 {
            Err(Error::NoActor)
        } else {
            Ok(())
        }
    }

    /// The actor and the handler that take a message: a request goes to the
    /// actor it names, and there to the handler of its schema.
    pub open spec fn taker(&self, env: Envelope) -> Result<(int, H), MessageError> {
        if !(1 <= env.kind <= 2) {
            Err(MessageError::BadKind(env.kind))
        } else if !self.ids@.contains(env.to) {
            Err(MessageError::NoSuchActor(env.to))
        } else {
            let i = self.ids@.index_of(env.to);
            let handlers = self.actors@[i].handlers();
            if handlers.dom().contains(env.schema_id) {
                Ok((i, handlers[env.schema_id]))
            } else {
                Err(MessageError::UnknownSchema(env.schema_id))
            }
        }
    }

    /// The actor and the handler that take a message.
    pub fn route(&self, env: &Envelope) -> (r: Result<(usize, H), MessageError>)
        requires
            self.wf(),
        ensures
            match self.taker(*env) {
                Err(e) => r is Err && r->Err_0 == e,
                Ok((i, h)) => r is Ok && r->Ok_0.0 == i && r->Ok_0.1 == h && i < self.ids@.len()
                    && self.ids@[i] == env.to,
            },
    {
        match env.kind() {
            Err(e) => Err(e),
            Ok(MessageKind::Tell) | Ok(MessageKind::Ask) => match search(&self.ids, env.to) {
                Ok(i) => {
                    proof {
                        lemma_place(self.ids@, i as int);
                    }
                    match self.actors[i].lookup(env.schema_id) {
                        Some(h) => Ok((i, h)),
                        None => Err(MessageError::UnknownSchema(env.schema_id)),
                    }
                },
                Err(_) => Err(MessageError::NoSuchActor(env.to)),
            },
            Ok(other) => Err(MessageError::BadKind(other.as_u16())),
        }
    }
}

proof fn lemma_place(s: Seq<u64>, i: int)
    requires
        ascending(s),
        0 <= i < s.len(),
    ensures
        s.contains(s[i]),
        s.index_of(s[i]) == i,
{
    assert(s.contains(s[i]));
    let k = s.index_of(s[i]);
    assert(0 <= k < s.len() && s[k] == s[i]);
    if k < i {
        assert(s[k] < s[i]);
    }
    if i < k {
        assert(s[i] < s[k]);
    }
}

/// What a handler knows of the message it handles.
#[derive(Clone, Copy, Debug, PartialEq, Eq, Structural)]
pub struct Cx {
    /// The actor.
    pub self_id: ActorId,
    /// Who sent the message.
    pub sender: ActorId,
    pub corr: u64,
    /// How often the message was delivered before.
    pub attempt: u32,
}

impl Cx {
    /// What the handler of `env` knows on its `attempt`th redelivery.
    pub fn for_message(env: &Envelope, attempt: u32) -> (c: Cx)
        ensures
            c == (Cx {
                self_id: ActorId(env.to),
                sender: ActorId(env.from),
                corr: env.corr,
                attempt,
            }),
    {
        Cx { self_id: env.to(), sender: env.from(), corr: env.corr, attempt }
    }

    pub fn self_id(&self) -> (id: ActorId)
        ensures
            id == self.self_id,
    {
        self.self_id
    }

    pub fn sender(&self) -> (id: ActorId)
        ensures
            id == self.sender,
    {
        self.sender
    }

    pub fn corr(&self) -> (c: u64)
        ensures
            c == self.corr,
    {
        self.corr
    }

    pub fn attempt(&self) -> (n: u32)
        ensures
            n == self.attempt,
    {
        self.attempt
    }
}

/// A cell of the keyed store, by key.
#[derive(Debug)]
pub struct CellRef {
    pub bytes: Vec<u8>,
}

impl CellRef {
    pub fn new(key: Vec<u8>) -> (c: CellRef)
        ensures
            c.bytes == key,
    {
        CellRef { bytes: key }
    }

    pub fn key(&self) -> (k: &[u8])
        ensures
            k@ == self.bytes@,
    {
        self.bytes.as_slice()
    }
}

} // verus!
