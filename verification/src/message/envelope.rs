//! The envelope: the 64 bytes in front of every message.
use core::arch::x86_64::__m512i;

use vstd::prelude::*;
use vstd::string::StringSliceAdditionalSpecFns;

use crate::chunk::PackedRef;
use crate::le::{get_u16, get_u32, get_u64, put_u16, put_u32, put_u64, u16_at, u32_at, u64_at};
use crate::message::error::Error;
use crate::message::payload::LocalRef;

verus! {

/// The ASCII of `"HOLN"`, most significant byte first.
pub const ENVELOPE_MAGIC: u32 = 0x484f_4c4e;

/// The version of the layout.
pub const ENVELOPE_ABI_VERSION: u16 = 1;

/// The bytes of an envelope.
pub const ENVELOPE_SIZE: usize = 64;

/// The schema id of a chunk that holds a message.
pub const SCHEMA_ENVELOPE: u32 = 2;

/// Flag: the body follows the envelope.
pub const FLAG_INLINE_PAYLOAD: u16 = 1;

/// Flag: `payload` is a reference to a chunk on this host.
pub const FLAG_LOCAL_REF: u16 = 2;

/// Flag: the sender waits for no reply.
pub const FLAG_NO_REPLY: u16 = 4;

/// A value of sixty-four bytes that is aligned to as many. None is ever made.
#[verifier::external_type_specification]
#[verifier::external_body]
pub struct ExLine(__m512i);

// ---- actors ----

/// A global actor id: the host in the high half, the actor there in the low.
#[derive(Clone, Copy, Debug, PartialEq, Eq, Hash, Structural)]
pub struct ActorId(pub u64);

/// Where the name hash starts.
pub const NAME_HASH_START: u32 = 0x811c_9dc5;

/// What the name hash is multiplied by for each byte.
pub const NAME_HASH_PRIME: u32 = 0x0100_0193;

/// The 32-bit FNV-1a hash of `b`.
pub open spec fn name_hash(b: Seq<u8>) -> u32
    decreases b.len(),
{
    if b.len() == 0 {
        NAME_HASH_START
    } else {
        (((name_hash(b.drop_last()) ^ (b.last() as u32)) as int * NAME_HASH_PRIME as int)
            % 0x1_0000_0000) as u32
    }
}

impl ActorId {
    /// No actor.
    pub fn none() -> (id: ActorId)
        ensures
            id == ActorId(0),
    {
        ActorId(0)
    }

    pub open spec fn spec_new(host: u32, local: u32) -> ActorId {
        ActorId((host * 0x1_0000_0000 + local) as u64)
    }

    pub open spec fn spec_host(self) -> u32 {
        (self.0 / 0x1_0000_0000) as u32
    }

    pub open spec fn spec_local(self) -> u32 {
        (self.0 % 0x1_0000_0000) as u32
    }

    /// The id of actor `local` on `host`.
    pub fn new(host: u32, local: u32) -> (id: ActorId)
        ensures
            id == ActorId::spec_new(host, local),
            id.spec_host() == host,
            id.spec_local() == local,
    {
        ActorId(host as u64 * 0x1_0000_0000 + local as u64)
    }

    /// The id of a named actor on this host: the hash of the name, never zero.
    pub fn named(name: &str) -> (id: ActorId)
        ensures
            id.spec_host() == 0,
            id.spec_local() != 0,
            id.spec_local() == if name_hash(name.spec_bytes()) == 0 {
                1
            } else {
                name_hash(name.spec_bytes())
            },
    {
        let b: &[u8] = name.as_bytes();
        let n: usize = b.len();
        let mut h: u32 = NAME_HASH_START;
        let mut i: usize = 0;
        while i < n
            invariant
                n == b@.len(),
                i <= n,
                h == name_hash(b@.take(i as int)),
            decreases n - i,
        {
            proof {
                assert(b@.take(i + 1).drop_last() =~= b@.take(i as int));
            }
            let x: u32 = h ^ (b[i] as u32);
            h = x.wrapping_mul(NAME_HASH_PRIME);
            i = i + 1;
        }
        proof {
            assert(b@.take(n as int) =~= b@);
        }
        ActorId::new(
            0,
            if h == 0 {
                1
            } else {
                h
            },
        )
    }

    /// The host half.
    pub fn host(self) -> (h: u32)
        ensures
            h == self.spec_host(),
    {
        (self.0 / 0x1_0000_0000) as u32
    }

    /// The local half.
    pub fn local(self) -> (l: u32)
        ensures
            l == self.spec_local(),
    {
        (self.0 % 0x1_0000_0000) as u32
    }
}

/// An id is its two halves.
pub proof fn actor_id_round_trip(id: ActorId, host: u32, local: u32)
    ensures
        ActorId::spec_new(id.spec_host(), id.spec_local()) == id,
        ActorId::spec_new(host, local).spec_host() == host,
        ActorId::spec_new(host, local).spec_local() == local,
{
}

// ---- kinds ----

/// The kinds of messages.
#[derive(Clone, Copy, Debug, PartialEq, Eq, Structural)]
pub enum MessageKind {
    /// No reply is awaited.
    Tell,
    /// A reply with the same correlation id is awaited.
    Ask,
    /// The reply to an `Ask`.
    Reply,
    /// An `Ask` failed.
    Failed,
}

impl MessageKind {
    pub open spec fn number(self) -> u16 {
        match self {
            MessageKind::Tell => 1,
            MessageKind::Ask => 2,
            MessageKind::Reply => 3,
            MessageKind::Failed => 4,
        }
    }

    /// The kind a number stands for.
    pub fn from_u16(v: u16) -> (r: Result<MessageKind, Error>)
        ensures
            1 <= v <= 4 ==> r is Ok && r->Ok_0.number() == v,
            !(1 <= v <= 4) ==> r == Err::<MessageKind, Error>(Error::BadKind(v)),
    {
        match v {
            1 => Ok(MessageKind::Tell),
            2 => Ok(MessageKind::Ask),
            3 => Ok(MessageKind::Reply),
            4 => Ok(MessageKind::Failed),
            other => Err(Error::BadKind(other)),
        }
    }

    /// The number of the kind.
    pub fn as_u16(self) -> (n: u16)
        ensures
            n == self.number(),
            1 <= n <= 4,
    {
        match self {
            MessageKind::Tell => 1,
            MessageKind::Ask => 2,
            MessageKind::Reply => 3,
            MessageKind::Failed => 4,
        }
    }
}

// ---- the envelope ----

/// The control word of a message: sixty-four bytes on a cache line of their
/// own.
///
/// | field         | offset |
/// |---------------|-------:|
/// | `to`          | 0      |
/// | `from`        | 8      |
/// | `corr`        | 16     |
/// | `payload`     | 24     |
/// | `schema_id`   | 32     |
/// | `version`     | 36     |
/// | `kind`        | 40     |
/// | `flags`       | 42     |
/// | `deadline`    | 44     |
/// | `epoch`       | 48     |
/// | `magic`       | 52     |
/// | `abi_version` | 56     |
/// | `body_len`    | 58     |
/// | `_reserved`   | 60     |
#[derive(Clone, Copy, Debug)]
#[verifier::ext_equal]
pub struct Envelope {
    /// The actor it goes to.
    pub to: u64,
    /// The actor it comes from.
    pub from: u64,
    /// Pairs a reply with its ask; `0` for a tell.
    pub corr: u64,
    /// A packed chunk reference if `FLAG_LOCAL_REF` is set, else `0`.
    pub payload: u64,
    /// The schema of the body.
    pub schema_id: u32,
    /// The version of the cell the payload was committed at; `0` inline.
    pub version: u32,
    /// The number of the [`MessageKind`].
    pub kind: u16,
    pub flags: u16,
    /// The low 32 bits of the deadline in milliseconds.
    pub deadline: u32,
    /// The fencing epoch.
    pub epoch: u32,
    pub magic: u32,
    pub abi_version: u16,
    /// The length of the inline body.
    pub body_len: u16,
    /// Zero.
    pub _reserved: u32,
    /// Takes no room; aligns the envelope to a cache line.
    pub _line: [__m512i; 0],
}

impl PartialEq for Envelope {
    fn eq(&self, other: &Envelope) -> (b: bool) {
        assert(self._line =~= other._line);
        self.to == other.to && self.from == other.from && self.corr == other.corr && self.payload
            == other.payload && self.schema_id == other.schema_id && self.version == other.version
            && self.kind == other.kind && self.flags == other.flags && self.deadline
            == other.deadline && self.epoch == other.epoch && self.magic == other.magic
            && self.abi_version == other.abi_version && self.body_len == other.body_len
            && self._reserved == other._reserved
    }
}

impl vstd::std_specs::cmp::PartialEqSpecImpl for Envelope {
    open spec fn obeys_eq_spec() -> bool {
        true
    }

    open spec fn eq_spec(&self, other: &Envelope) -> bool {
        *self == *other
    }
}

impl Eq for Envelope {

}

/// The envelope whose bytes start at `at`, read from `b`, with `line` for its
/// alignment.
pub open spec fn envelope_at(b: Seq<u8>, at: int, e: Envelope) -> bool {
    &&& e.to == u64_at(b, at)
    &&& e.from == u64_at(b, at + 8)
    &&& e.corr == u64_at(b, at + 16)
    &&& e.payload == u64_at(b, at + 24)
    &&& e.schema_id == u32_at(b, at + 32)
    &&& e.version == u32_at(b, at + 36)
    &&& e.kind == u16_at(b, at + 40)
    &&& e.flags == u16_at(b, at + 42)
    &&& e.deadline == u32_at(b, at + 44)
    &&& e.epoch == u32_at(b, at + 48)
    &&& e.magic == u32_at(b, at + 52)
    &&& e.abi_version == u16_at(b, at + 56)
    &&& e.body_len == u16_at(b, at + 58)
    &&& e._reserved == u32_at(b, at + 60)
}

/// Why an envelope is refused.
pub open spec fn envelope_refusal(e: Envelope) -> Option<Error> {
    if e.magic != ENVELOPE_MAGIC || e.abi_version != ENVELOPE_ABI_VERSION || e._reserved != 0 {
        Some(Error::BadEnvelope)
    } else if !(1 <= e.kind <= 4) {
        Some(Error::BadKind(e.kind))
    } else {
        None
    }
}

impl Envelope {
    /// Whether this is the envelope of an inline message with these parts.
    pub open spec fn is_inline_of(
        self,
        kind: MessageKind,
        to: ActorId,
        from: ActorId,
        corr: u64,
        schema_id: u32,
        body_len: u16,
    ) -> bool {
        &&& self.to == to.0
        &&& self.from == from.0
        &&& self.corr == corr
        &&& self.payload == 0
        &&& self.schema_id == schema_id
        &&& self.version == 0
        &&& self.kind == kind.number()
        &&& self.flags == if kind == MessageKind::Tell {
            5u16
        } else {
            1u16
        }
        &&& self.deadline == 0
        &&& self.epoch == 0
        &&& self.magic == ENVELOPE_MAGIC
        &&& self.abi_version == ENVELOPE_ABI_VERSION
        &&& self.body_len == body_len
        &&& self._reserved == 0
    }

    /// An envelope for an inline body of `body_len` bytes.
    pub fn inline(
        kind: MessageKind,
        to: ActorId,
        from: ActorId,
        corr: u64,
        schema_id: u32,
        body_len: u16,
    ) -> (e: Envelope)
        ensures
            e.is_inline_of(kind, to, from, corr, schema_id, body_len),
            envelope_refusal(e) is None,
            e.spec_is_inline(),
            e.spec_no_reply() == (kind == MessageKind::Tell),
            !e.spec_has_ref(),
    {
        let mut flags: u16 = FLAG_INLINE_PAYLOAD;
        if kind == MessageKind::Tell {
            flags = flags | FLAG_NO_REPLY;
        }
        proof {
            assert(1u16 | 4u16 == 5u16) by (bit_vector);
            assert(1u16 & 1u16 == 1u16 && 1u16 & 4u16 == 0u16 && 1u16 & 2u16 == 0u16) by (bit_vector);
            assert(5u16 & 1u16 == 1u16 && 5u16 & 4u16 == 4u16 && 5u16 & 2u16 == 0u16) by (bit_vector);
        }
        Envelope {
            to: to.0,
            from: from.0,
            corr,
            payload: 0,
            schema_id,
            version: 0,
            kind: kind.as_u16(),
            flags,
            deadline: 0,
            epoch: 0,
            magic: ENVELOPE_MAGIC,
            abi_version: ENVELOPE_ABI_VERSION,
            body_len,
            _reserved: 0,
            _line: [],
        }
    }

    /// The envelope of the reply to `ask`: addresses swapped, same correlation
    /// id and epoch.
    pub fn reply_to(ask: &Envelope, schema_id: u32, body_len: u16) -> (e: Envelope)
        ensures
            e.epoch == ask.epoch,
            (Envelope { epoch: 0, ..e }).is_inline_of(
                MessageKind::Reply,
                ActorId(ask.from),
                ActorId(ask.to),
                ask.corr,
                schema_id,
                body_len,
            ),
            envelope_refusal(e) is None,
            e.spec_is_inline(),
            !e.spec_no_reply(),
            !e.spec_has_ref(),
    {
        let mut e: Envelope = Envelope::inline(
            MessageKind::Reply,
            ActorId(ask.from),
            ActorId(ask.to),
            ask.corr,
            schema_id,
            body_len,
        );
        e.epoch = ask.epoch;
        e
    }

    /// The envelope that says that `ask` failed: addresses swapped, same
    /// correlation id and epoch, no body.
    pub fn err_to(ask: &Envelope) -> (e: Envelope)
        ensures
            e.epoch == ask.epoch,
            (Envelope { epoch: 0, ..e }).is_inline_of(
                MessageKind::Failed,
                ActorId(ask.from),
                ActorId(ask.to),
                ask.corr,
                0,
                0,
            ),
            envelope_refusal(e) is None,
            e.spec_is_inline(),
            !e.spec_no_reply(),
            !e.spec_has_ref(),
    {
        let mut e: Envelope = Envelope::reply_to(ask, 0, 0);
        e.kind = MessageKind::Failed.as_u16();
        e
    }

    /// Name the chunk the reply is to be written into.
    pub fn with_reply_ref(self, r: LocalRef) -> (e: Envelope)
        ensures
            e == (Envelope { payload: r.0.0, flags: self.flags | 2u16, ..self }),
            e.spec_has_ref(),
            e.spec_is_inline() == self.spec_is_inline(),
            e.spec_no_reply() == self.spec_no_reply(),
            envelope_refusal(e) == envelope_refusal(self),
    {
        let f: u16 = self.flags;
        proof {
            assert((f | 2u16) & 2u16 == 2u16) by (bit_vector);
            assert((f | 2u16) & 1u16 == f & 1u16) by (bit_vector);
            assert((f | 2u16) & 4u16 == f & 4u16) by (bit_vector);
        }
        let mut e: Envelope = self;
        e.payload = r.0.to_bits();
        e.flags = f | FLAG_LOCAL_REF;
        e
    }

    /// Set the deadline from nanoseconds.
    pub fn with_deadline_nanos(self, deadline_nanos: u64) -> (e: Envelope)
        ensures
            e == (Envelope { deadline: e.deadline, ..self }),
            e.deadline == (deadline_nanos / 1_000_000) % 0x1_0000_0000,
            envelope_refusal(e) == envelope_refusal(self),
    {
        let mut e: Envelope = self;
        e.deadline = ((deadline_nanos / 1_000_000) % 0x1_0000_0000) as u32;
        e
    }

    /// The kind.
    pub fn kind(&self) -> (r: Result<MessageKind, Error>)
        ensures
            1 <= self.kind <= 4 ==> r is Ok && r->Ok_0.number() == self.kind,
            !(1 <= self.kind <= 4) ==> r == Err::<MessageKind, Error>(Error::BadKind(self.kind)),
    {
        MessageKind::from_u16(self.kind)
    }

    /// The actor it goes to.
    pub fn to(&self) -> (id: ActorId)
        ensures
            id == ActorId(self.to),
    {
        ActorId(self.to)
    }

    /// The actor it comes from.
    pub fn from(&self) -> (id: ActorId)
        ensures
            id == ActorId(self.from),
    {
        ActorId(self.from)
    }

    pub open spec fn spec_is_inline(self) -> bool {
        self.flags & 1u16 != 0
    }

    pub open spec fn spec_no_reply(self) -> bool {
        self.flags & 4u16 != 0
    }

    pub open spec fn spec_has_ref(self) -> bool {
        self.flags & 2u16 != 0
    }

    /// Whether the body follows the envelope.
    pub fn is_inline(&self) -> (b: bool)
        ensures
            b == self.spec_is_inline(),
    {
        self.flags & FLAG_INLINE_PAYLOAD != 0
    }

    /// Whether the sender waits for no reply.
    pub fn no_reply(&self) -> (b: bool)
        ensures
            b == self.spec_no_reply(),
    {
        self.flags & FLAG_NO_REPLY != 0
    }

    /// The chunk the envelope names, if it names one.
    pub fn payload_ref(&self) -> (r: Option<LocalRef>)
        ensures
            r == if self.spec_has_ref() {
                Some(LocalRef(PackedRef(self.payload)))
            } else {
                None
            },
    {
        if self.flags & FLAG_LOCAL_REF != 0 {
            Some(LocalRef(PackedRef(self.payload)))
        } else {
            None
        }
    }

    /// Check magic, version, reserved word and kind.
    pub fn validate(&self) -> (r: Result<(), Error>)
        ensures
            r == match envelope_refusal(*self) {
                Some(e) => Err::<(), Error>(e),
                None => Ok(()),
            },
    {
        if self.magic != ENVELOPE_MAGIC || self.abi_version != ENVELOPE_ABI_VERSION
            || self._reserved != 0 {
            return Err(Error::BadEnvelope);
        }
        match MessageKind::from_u16(self.kind) {
            Ok(_) => Ok(()),
            Err(e) => Err(e),
        }
    }

    /// The 64 bytes of the envelope.
    pub fn to_bytes(&self) -> (b: [u8; 64])
        ensures
            envelope_at(b@, 0, *self),
    {
        let mut b: [u8; 64] = [0u8; 64];
        self.put(&mut b);
        b
    }

    /// Write the envelope to the start of `b`.
    pub(crate) fn put(&self, b: &mut [u8])
        requires
            old(b)@.len() >= 64,
        ensures
            final(b)@.len() == old(b)@.len(),
            envelope_at(final(b)@, 0, *self),
            forall|i: int| 64 <= i < old(b)@.len() ==> #[trigger] final(b)@[i] == old(b)@[i],
    {
        put_u64(b, 0, self.to);
        put_u64(b, 8, self.from);
        put_u64(b, 16, self.corr);
        put_u64(b, 24, self.payload);
        put_u32(b, 32, self.schema_id);
        put_u32(b, 36, self.version);
        put_u16(b, 40, self.kind);
        put_u16(b, 42, self.flags);
        put_u32(b, 44, self.deadline);
        put_u32(b, 48, self.epoch);
        put_u32(b, 52, self.magic);
        put_u16(b, 56, self.abi_version);
        put_u16(b, 58, self.body_len);
        put_u32(b, 60, self._reserved);
    }

    /// Read the envelope at the start of `b`.
    fn get(b: &[u8]) -> (e: Envelope)
        requires
            b@.len() >= 64,
        ensures
            envelope_at(b@, 0, e),
    {
        Envelope {
            to: get_u64(b, 0),
            from: get_u64(b, 8),
            corr: get_u64(b, 16),
            payload: get_u64(b, 24),
            schema_id: get_u32(b, 32),
            version: get_u32(b, 36),
            kind: get_u16(b, 40),
            flags: get_u16(b, 42),
            deadline: get_u32(b, 44),
            epoch: get_u32(b, 48),
            magic: get_u32(b, 52),
            abi_version: get_u16(b, 56),
            body_len: get_u16(b, 58),
            _reserved: get_u32(b, 60),
            _line: [],
        }
    }

    /// Read and check the envelope at the start of `bytes`.
    pub fn from_bytes(bytes: &[u8]) -> (r: Result<Envelope, Error>)
        ensures
            bytes@.len() < 64 ==> r == Err::<Envelope, Error>(Error::BadEnvelope),
            bytes@.len() >= 64 ==> r == match envelope_refusal(envelope_of(bytes@, 0)) {
                Some(x) => Err::<Envelope, Error>(x),
                None => Ok(envelope_of(bytes@, 0)),
            },
    {
        let n: usize = bytes.len();
        if n < ENVELOPE_SIZE {
            return Err(Error::BadEnvelope);
        }
        let env: Envelope = Envelope::get(bytes);
        proof {
            envelope_is_unique(bytes@, 0, env, envelope_of(bytes@, 0));
        }
        match env.validate() {
            Ok(_) => Ok(env),
            Err(e) => Err(e),
        }
    }
}

/// The envelope whose bytes start at `at`.
pub open spec fn envelope_of(b: Seq<u8>, at: int) -> Envelope {
    Envelope {
        to: u64_at(b, at),
        from: u64_at(b, at + 8),
        corr: u64_at(b, at + 16),
        payload: u64_at(b, at + 24),
        schema_id: u32_at(b, at + 32),
        version: u32_at(b, at + 36),
        kind: u16_at(b, at + 40),
        flags: u16_at(b, at + 42),
        deadline: u32_at(b, at + 44),
        epoch: u32_at(b, at + 48),
        magic: u32_at(b, at + 52),
        abi_version: u16_at(b, at + 56),
        body_len: u16_at(b, at + 58),
        _reserved: u32_at(b, at + 60),
        _line: arbitrary(),
    }
}

/// Bytes hold one envelope.
pub proof fn envelope_is_unique(b: Seq<u8>, at: int, e: Envelope, f: Envelope)
    requires
        envelope_at(b, at, e),
        envelope_at(b, at, f),
    ensures
        e == f,
{
    assert(e._line =~= f._line);
    assert(e =~= f);
}

// ---- messages ----

/// Copy `body` into `buf` behind the envelope.
fn put_body(buf: &mut [u8], body: &[u8])
    requires
        64 + body@.len() <= old(buf)@.len(),
    ensures
        final(buf)@.len() == old(buf)@.len(),
        final(buf)@.subrange(64, 64 + body@.len() as int) == body@,
        forall|i: int|
            0 <= i < old(buf)@.len() && !(64 <= i < 64 + body@.len()) ==> #[trigger] final(buf)@[i]
                == old(buf)@[i],
{
    let n: usize = body.len();
    let total: usize = buf.len();
    let mut i: usize = 0;
    while i < n
        invariant
            n == body@.len(),
            total == buf@.len(),
            total == old(buf)@.len(),
            64 + n <= total,
            i <= n,
            forall|k: int| 0 <= k < i ==> #[trigger] buf@[64 + k] == body@[k],
            forall|k: int|
                0 <= k < total && !(64 <= k < 64 + n) ==> #[trigger] buf@[k] == old(buf)@[k],
        decreases n - i,
    {
        buf[64 + i] = body[i];
        i = i + 1;
    }
    proof {
        assert(buf@.subrange(64, 64 + n) =~= body@) by {
            assert forall|k: int| 0 <= k < n implies buf@.subrange(64, 64 + n)[k] == body@[k] by {
                assert(buf@[64 + k] == body@[k]);
            }
        }
    }
}

/// The room for a body in `n` bytes.
pub open spec fn body_room(n: int) -> usize {
    if n < 64 {
        0
    } else {
        (n - 64) as usize
    }
}

/// Write a message to the start of `buf`: the envelope, then its body. The
/// number of bytes written.
pub fn encode_message(buf: &mut [u8], env: &Envelope, body: &[u8]) -> (r: Result<usize, Error>)
    ensures
        final(buf)@.len() == old(buf)@.len(),
        if body@.len() != env.body_len || 64 + body@.len() > old(buf)@.len() {
            &&& r == Err::<usize, Error>(
                Error::BodyTooLarge {
                    len: body@.len() as usize,
                    max: body_room(old(buf)@.len() as int),
                },
            )
            &&& final(buf)@ == old(buf)@
        } else {
            &&& r == Ok::<usize, Error>((64 + body@.len()) as usize)
            &&& envelope_at(final(buf)@, 0, *env)
            &&& final(buf)@.subrange(64, 64 + body@.len() as int) == body@
            &&& forall|i: int|
                64 + body@.len() <= i < old(buf)@.len() ==> #[trigger] final(buf)@[i] == old(buf)@[i]
        },
{
    let n: usize = body.len();
    let room: usize = buf.len();
    if n != env.body_len as usize || ENVELOPE_SIZE + n > room {
        return Err(
            Error::BodyTooLarge {
                len: n,
                max: if room < ENVELOPE_SIZE {
                    0
                } else {
                    room - ENVELOPE_SIZE
                },
            },
        );
    }
    env.put(buf);
    let ghost b1 = buf@;
    put_body(buf, body);
    proof {
        assert(envelope_at(buf@, 0, *env)) by {
            assert forall|i: int| 0 <= i < 64 implies #[trigger] buf@[i] == b1[i] by {}
        }
    }
    Ok(ENVELOPE_SIZE + n)
}

/// What decoding a message gives: the body, or why it is refused.
pub open spec fn message_body(b: Seq<u8>, e: Envelope) -> Result<Seq<u8>, Error> {
    match envelope_refusal(e) {
        Some(x) => Err(x),
        None => if !e.spec_is_inline() {
            Ok(seq![])
        } else if 64 + e.body_len > b.len() {
            Err(Error::BadEnvelope)
        } else {
            Ok(b.subrange(64, 64 + e.body_len))
        },
    }
}

/// The message at the start of `b`, or why there is none.
pub open spec fn message_of(b: Seq<u8>) -> Result<(Envelope, Seq<u8>), Error> {
    if b.len() < 64 {
        Err(Error::BadEnvelope)
    } else {
        match message_body(b, envelope_of(b, 0)) {
            Err(x) => Err(x),
            Ok(body) => Ok((envelope_of(b, 0), body)),
        }
    }
}

/// Read the message at the start of `buf`: the envelope and its inline body.
pub fn decode_message(buf: &[u8]) -> (r: Result<(Envelope, &[u8]), Error>)
    ensures
        match message_of(buf@) {
            Err(x) => r is Err && r->Err_0 == x,
            Ok((e, body)) => r is Ok && r->Ok_0.0 == e && r->Ok_0.1@ == body,
        },
{
    let env: Envelope = match Envelope::from_bytes(buf) {
        Ok(e) => e,
        Err(x) => {
            return Err(x);
        },
    };
    let n: usize = buf.len();
    if !env.is_inline() {
        let none: &[u8] = vstd::slice::slice_subrange(buf, 0, 0);
        assert(none@ =~= seq![]);
        return Ok((env, none));
    }
    let end: usize = ENVELOPE_SIZE + env.body_len as usize;
    if end > n {
        return Err(Error::BadEnvelope);
    }
    Ok((env, vstd::slice::slice_subrange(buf, ENVELOPE_SIZE, end)))
}

/// A message that was encoded decodes to itself.
pub proof fn message_round_trip(b: Seq<u8>, e: Envelope, body: Seq<u8>)
    requires
        envelope_refusal(e) is None,
        e.spec_is_inline(),
        e.body_len == body.len(),
        64 + body.len() <= b.len(),
        envelope_at(b, 0, e),
        b.subrange(64, 64 + body.len() as int) == body,
    ensures
        message_of(b) == Ok::<(Envelope, Seq<u8>), Error>((e, body)),
{
    envelope_is_unique(b, 0, e, envelope_of(b, 0));
}

} // verus!
