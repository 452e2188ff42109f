use std::sync::Arc;

use arrow_array::{Array, ArrayRef, Float64Array, RecordBatch};
use arrow_data::ArrayData;
use arrow_schema::{DataType, Field, Schema};
use holon::actor::ask::{
    ask_result, due_at, settled, typed_reply, ActorRef, Outcome, Poll,
};
use holon::actor::error::Error;
use holon::actor::exchange::{Asking, Received, Settled};
use holon::actor::host::{ActorSystem, CellRef, Cx};
use holon::actor::mailbox::{
    after_handling, answer, completes, Step, DEFAULT_LEASE_NANOS, SUBMIT_HORIZON_NANOS,
};
use holon::actor::pool::{MessagePool, REPLY_CHUNK_BYTES};
use holon::artifact::commit::Commit;
use holon::artifact::config::PoolConfig;
use holon::artifact::handle::Artifact;
use holon::artifact::head::ArtifactHead;
use holon::artifact::pool::ChunkPool;
use holon::batch::schema::SchemaRegistry;
use holon::batch::write::Batch;
use holon::chunk::{ChunkDesc, PackedRef};
use holon::demo::messages::{PriceReply, PriceRequest, RiskReply, RiskRequest};
use holon::demo::roles::{Pricer, Risk, CURVE_KEY, CURVE_TENORS, PRICER_NAME, RISK_NAME};
use holon::message::dispatch::Dispatch;
use holon::message::envelope::{ActorId, Envelope, MessageKind, SCHEMA_ENVELOPE};
use holon::message::error::Error as MessageError;
use holon::message::payload::{from_bytes, InlineBody, LocalRef, Payload, Reply};

fn pool() -> ChunkPool {
    ChunkPool::create(90_000, &PoolConfig::power_of_two(256, 8192, 8), 1 << 20).unwrap()
}

// ---- messages in chunks ----

#[test]
fn write_read_free_round_trip() {
    let mut msgs = MessagePool::new(pool());
    let free0 = msgs.pool.free_count();

    let body = [7u8; 24];
    let env = Envelope::inline(MessageKind::Ask, ActorId(1), ActorId(2), 9, 1001, 24);
    let desc = msgs.write_message(&env, &body).unwrap();
    assert_eq!(desc.schema_id, SCHEMA_ENVELOPE);
    assert_eq!(desc.len, 256, "smallest class holds envelope + 24 B body");
    let (got, got_body) = msgs.read_message(&desc).unwrap();
    assert_eq!(got, env);
    assert_eq!(got_body, &body);

    // A raw descriptor is not a message.
    let mut raw = desc;
    raw.schema_id = 0;
    assert!(matches!(
        msgs.read_message(&raw),
        Err(Error::Core(MessageError::NotEnvelope(0)))
    ));
    // A descriptor for another segment is rejected before any read.
    let mut other = desc;
    other.segment_id += 1;
    assert!(matches!(
        msgs.read_message(&other),
        Err(Error::Core(MessageError::BadEnvelope))
    ));

    // A reply chunk starts unreadable and becomes readable once written into.
    let reply = msgs.alloc_reply().unwrap();
    assert!(matches!(
        msgs.read_message(&reply),
        Err(Error::Core(MessageError::BadEnvelope))
    ));
    let r = LocalRef(PackedRef::from_desc(&reply));
    let rd = msgs.reply_desc(r);
    assert_eq!((rd.segment_id, rd.offset, rd.len), (reply.segment_id, reply.offset, 256));
    let renv = Envelope::reply_to(&env, 1002, 4);
    msgs.write_message_into(&rd, &renv, &[1, 2, 3, 4]).unwrap();
    let (got, got_body) = msgs.read_message(&reply).unwrap();
    assert_eq!(got, renv);
    assert_eq!(got_body, &[1, 2, 3, 4]);
    msgs.free(&reply);

    msgs.free(&desc);
    let free1 = msgs.pool.free_count();
    assert_eq!(free0, free1, "write + free is leak-free");

    // A body too big for any class is rejected and leaks nothing.
    let big = vec![0u8; 8192];
    let env = Envelope::inline(MessageKind::Ask, ActorId(1), ActorId(2), 9, 1, 8192);
    assert!(msgs.write_message(&env, &big).is_err());
    assert_eq!(free0, msgs.pool.free_count());
}

#[test]
fn messages_are_refused_where_they_do_not_fit() {
    let mut msgs = MessagePool::new(pool());
    let free0 = msgs.pool.free_count();
    let env = Envelope::inline(MessageKind::Tell, ActorId(1), ActorId(2), 0, 1, 5);
    assert_eq!(
        msgs.write_message(&env, &[0; 4]),
        Err(Error::Core(MessageError::BodyTooLarge { len: 4, max: 192 }))
    );
    assert_eq!(msgs.pool.free_count(), free0);
    let reply = msgs.alloc_reply().unwrap();
    assert_eq!(reply.len, REPLY_CHUNK_BYTES);
    let env = Envelope::inline(MessageKind::Reply, ActorId(1), ActorId(2), 0, 1, 193);
    assert_eq!(
        msgs.write_message_into(&reply, &env, &[0; 193]),
        Err(Error::Core(MessageError::BodyTooLarge { len: 193, max: 192 }))
    );
    let mut long = reply;
    long.len = 512;
    assert_eq!(
        msgs.write_message_into(&long, &env, &[0; 193]),
        Err(Error::Core(MessageError::BadEnvelope))
    );
}

// ---- routing ----

fn system() -> ActorSystem<u8> {
    let mut s = ActorSystem::new();
    s.spawn(PRICER_NAME, Dispatch::new().on(1001, 1)).unwrap();
    s.spawn(RISK_NAME, Dispatch::new().on(1003, 2).on(1001, 3)).unwrap();
    s
}

#[test]
fn actors_are_known_by_name_once() {
    let mut s: ActorSystem<u8> = ActorSystem::new();
    assert_eq!(s.ready(), Err(Error::NoActor));
    assert_eq!((s.lease, s.spin), (DEFAULT_LEASE_NANOS, false));
    s.set_lease(7);
    s.set_spin(true);
    assert_eq!((s.lease, s.spin), (7, true));
    let id = s.spawn(RISK_NAME, Dispatch::new()).unwrap();
    assert_eq!(id, ActorId::named(RISK_NAME));
    assert_eq!(s.spawn(RISK_NAME, Dispatch::new()), Err(Error::DuplicateActor(id.0)));
    s.spawn(PRICER_NAME, Dispatch::new()).unwrap();
    let ids = s.actor_ids();
    assert_eq!(ids.len(), 2);
    assert!(ids[0].0 < ids[1].0);
    assert!(ids.contains(&id));
    assert_eq!(s.ready(), Ok(()));
}

#[test]
fn messages_go_to_the_actor_and_handler_they_name() {
    let s = system();
    let (pricer, risk) = (ActorId::named(PRICER_NAME), ActorId::named(RISK_NAME));
    let to = |id: ActorId, kind: MessageKind, schema: u32| {
        s.route(&Envelope::inline(kind, id, ActorId(2), 9, schema, 0)).map(|(_, h)| h)
    };
    assert_eq!(to(pricer, MessageKind::Ask, 1001), Ok(1));
    assert_eq!(to(risk, MessageKind::Tell, 1003), Ok(2));
    assert_eq!(to(risk, MessageKind::Tell, 1001), Ok(3), "the same schema, another handler");
    assert_eq!(to(pricer, MessageKind::Ask, 1003), Err(MessageError::UnknownSchema(1003)));
    assert_eq!(to(ActorId(5), MessageKind::Ask, 1001), Err(MessageError::NoSuchActor(5)));
    assert_eq!(to(pricer, MessageKind::Reply, 1001), Err(MessageError::BadKind(3)));
    let mut e = Envelope::inline(MessageKind::Ask, pricer, ActorId(2), 9, 1001, 0);
    e.kind = 9;
    assert_eq!(s.route(&e), Err(MessageError::BadKind(9)));
}

// ---- the mailbox ----

#[test]
fn handled_messages_are_finished_answered_or_left() {
    let tell = Envelope::inline(MessageKind::Tell, ActorId(1), ActorId(2), 0, 1, 0);
    assert_eq!(after_handling(&tell, true, 999, 10), Step::Finish { complete: true });
    assert_eq!(after_handling(&tell, false, 0, 10), Step::Finish { complete: false });
    let ask = Envelope::inline(MessageKind::Ask, ActorId(1), ActorId(2), 9, 1, 0);
    assert_eq!(after_handling(&ask, true, 0, 10), Step::Finish { complete: false });
    let r = LocalRef(PackedRef::pack(3, 64));
    let ask = ask.with_reply_ref(r);
    assert_eq!(after_handling(&ask, true, 5, 10), Step::Answer { to: r });
    assert_eq!(after_handling(&ask, true, 6, 10), Step::Abandon);
    assert!(completes(true, true) && !completes(true, false) && !completes(false, true));

    let (e, b) = answer(&ask, &Ok(Reply::Inline(InlineBody::new(5, &[1, 2]).unwrap())));
    assert_eq!((e.kind, e.corr, e.schema_id, e.body_len, e.to, e.from), (3, 9, 5, 2, 2, 1));
    assert_eq!(b, vec![1, 2]);
    let (e, b) = answer(&ask, &Ok(Reply::Empty));
    assert_eq!((e.kind, e.schema_id, b.len()), (3, 0, 0));
    let (e, b) = answer(&ask, &Err(MessageError::Handler(String::new())));
    assert_eq!((e.kind, e.corr, b.len()), (4, 9, 0));
}

#[test]
fn a_handler_that_is_late_touches_nothing() {
    let s = system();
    let mut msgs = MessagePool::new(pool());
    let mut to_pricer = ActorRef::new(ActorId::named(PRICER_NAME), ActorId(7));
    let a = to_pricer.ask_raw(&mut msgs, 1001, &[1, 2, 3], 0).unwrap();
    let r = s.receive(&msgs, &a.request.desc, 2);
    let env = match r {
        Received::Call { handler, env, body, cx, .. } => {
            assert_eq!((handler, body), (1, vec![1, 2, 3]));
            assert_eq!(cx, Cx { self_id: to_pricer.to(), sender: ActorId(7), corr: 1, attempt: 2 });
            assert_eq!((cx.self_id(), cx.sender()), (to_pricer.to(), ActorId(7)));
            assert_eq!((cx.corr(), cx.attempt()), (1, 2));
            env
        }
        _ => panic!("nobody took it"),
    };
    let late = s.settle(&mut msgs, &env, &Ok(Reply::Empty), DEFAULT_LEASE_NANOS / 2 + 1);
    assert_eq!(late, Settled::Lapse);
    assert!(msgs.read_message(&a.reply).is_err());
    // It is delivered again, and this time in time.
    assert!(matches!(s.receive(&msgs, &a.request.desc, 3), Received::Call { .. }));
    let ok = s.settle(&mut msgs, &env, &Ok(Reply::Empty), DEFAULT_LEASE_NANOS / 2);
    assert_eq!(ok, Settled::Complete);
    s.finish(&mut msgs, &a.request.desc, true);
    assert!(msgs.read_message(&a.request.desc).is_ok(), "lost: not ours to free");
    s.finish(&mut msgs, &a.request.desc, false);
    let (e, b) = msgs.take_reply(&a, Outcome::Done).unwrap();
    assert_eq!((e.corr, b.len()), (1, 0));
    assert_eq!(msgs.pool.free_count(), pool().free_count());
}

#[test]
fn what_is_no_message_is_left_alone() {
    let s = system();
    let mut msgs = MessagePool::new(pool());
    let r = msgs.alloc_reply().unwrap();
    assert!(matches!(s.receive(&msgs, &r, 0), Received::Unreadable));
    assert!(matches!(s.receive(&msgs, &ChunkDesc::zero(), 0), Received::Unreadable));
}

#[test]
fn asks_that_cannot_be_written_leave_nothing() {
    let free0 = pool().free_count();
    let mut msgs = MessagePool::new(pool());
    let mut r = ActorRef::new(ActorId(1), ActorId(2));
    assert!(matches!(
        r.ask_raw(&mut msgs, 1, &[0; 9000], 0),
        Err(Error::Shm(holon::artifact::error::Error::Exhausted))
    ));
    assert_eq!(msgs.pool.free_count(), free0);
    assert_eq!(r.next_corr, 2, "the correlation id is spent");
    let a = r.ask_raw(&mut msgs, 1, &[0; 9], 0).unwrap();
    assert_eq!(a.request.env.corr, 2);
    assert_eq!(msgs.pool.free_count(), free0 - 2);
    msgs.withdraw(&a);
    assert_eq!(msgs.pool.free_count(), free0);

    let mut tiny = MessagePool::new(
        ChunkPool::create(1, &PoolConfig::power_of_two(128, 128, 4), 1 << 12).unwrap(),
    );
    assert!(r.ask_raw(&mut tiny, 1, &[], 0).is_err());
    assert_eq!(r.next_corr, 3, "no chunk for the reply: nothing was spent");
    let p = r.tell(&mut tiny, &PriceRequest { tenor_bits: 1, notional_bits: 2, seq: 3 }, 5).unwrap();
    assert_eq!((p.env.corr, p.env.kind, p.env.body_len), (0, 1, 24));
    assert_eq!(p.deadline, 5 + SUBMIT_HORIZON_NANOS);
    assert!(p.env.no_reply());
    assert_eq!(r.next_corr, 3);
}

#[test]
fn deadlines_wrap_and_are_kept_in_milliseconds() {
    assert_eq!(due_at(0), 60_000_000_000);
    assert_eq!(due_at(u64::MAX), 59_999_999_999);
    let mut r = ActorRef::new(ActorId(1), ActorId(2));
    let e = r.request(MessageKind::Ask, 4, 0, 1_000_000, None);
    assert_eq!(e.deadline, 60_001);
    assert!(e.payload_ref().is_none());
    assert_eq!((r.to(), r.from()), (ActorId(1), ActorId(2)));
}

#[test]
fn polls_settle() {
    assert_eq!(settled(Poll::Queued), None);
    assert_eq!(settled(Poll::Claimed), None);
    assert_eq!(settled(Poll::Done), Some(Outcome::Done));
    assert_eq!(settled(Poll::Stale), Some(Outcome::Done));
    assert_eq!(settled(Poll::Failed), Some(Outcome::Failed));
    assert_eq!(settled(Poll::Cancelled), Some(Outcome::Cancelled));
}

#[test]
fn an_ask_ends_in_a_reply_or_an_error() {
    let ask = Envelope::inline(MessageKind::Ask, ActorId(1), ActorId(2), 9, 1, 0);
    let good = Envelope::reply_to(&ask, 5, 1);
    let read = |e: Envelope| Ok((e, vec![8]));
    assert_eq!(ask_result(Outcome::Done, read(good), 9), Ok((good, vec![8])));
    assert_eq!(ask_result(Outcome::Cancelled, read(good), 9), Err(Error::Cancelled));
    assert_eq!(ask_result(Outcome::Failed, read(good), 9), Err(Error::Failed));
    assert_eq!(
        ask_result(Outcome::Done, Err(Error::Core(MessageError::BadEnvelope)), 9),
        Err(Error::Failed)
    );
    assert_eq!(ask_result(Outcome::Done, read(Envelope::err_to(&ask)), 9), Err(Error::Failed));
    assert_eq!(
        ask_result(Outcome::Done, read(good), 10),
        Err(Error::BadReply { kind: 3, got: 9, expected: 10 })
    );
    assert_eq!(
        ask_result(Outcome::Done, read(ask), 9),
        Err(Error::BadReply { kind: 2, got: 9, expected: 9 })
    );
    let mut odd = good;
    odd.kind = 77;
    assert_eq!(
        ask_result(Outcome::Done, read(odd), 9),
        Err(Error::Core(MessageError::BadKind(77)))
    );
}

#[test]
fn replies_are_typed() {
    let ask = Envelope::inline(MessageKind::Ask, ActorId(1), ActorId(2), 9, 1001, 24);
    let rep = PriceReply { px_bits: 1, curve_version: 2, incarnation: 3, attempt: 4 };
    let body = rep.as_bytes();
    let e = Envelope::reply_to(&ask, 1002, 24);
    assert_eq!(typed_reply::<PriceReply>(&e, &body).unwrap(), rep);
    assert_eq!(
        typed_reply::<RiskReply>(&e, &body),
        Err(Error::Core(MessageError::SchemaMismatch { expected: 1004, got: 1002 }))
    );
    assert_eq!(
        typed_reply::<PriceReply>(&e, &body[1..].to_vec()),
        Err(Error::Core(MessageError::BadPayload { expected: 24, got: 23 }))
    );
}

#[test]
fn cells_are_named() {
    assert_eq!(CellRef::new(b"curve".to_vec()).key(), CURVE_KEY.as_bytes());
}

// ---- the whole loop ----

fn curve_schema() -> Arc<Schema> {
    Arc::new(Schema::new(vec![
        Field::new("tenor", DataType::Float64, false),
        Field::new("rate", DataType::Float64, false),
    ]))
}

fn tenor_at(i: usize) -> f64 {
    0.25 + i as f64 * (30.0 - 0.25) / (CURVE_TENORS as f64 - 1.0)
}

fn curve_batch(bump_bp: f64) -> RecordBatch {
    let tenors: Vec<f64> = (0..CURVE_TENORS).map(tenor_at).collect();
    let rates: Vec<f64> =
        (0..CURVE_TENORS).map(|i| 0.03 + 0.0002 * i as f64 + bump_bp * 1e-4).collect();
    let cols: Vec<ArrayRef> =
        vec![Arc::new(Float64Array::from(tenors)), Arc::new(Float64Array::from(rates))];
    RecordBatch::try_new(curve_schema(), cols).unwrap()
}

fn interpolate(t: &[f64], r: &[f64], tenor: f64) -> f64 {
    let n = t.len();
    if tenor <= t[0] {
        return r[0];
    }
    if tenor >= t[n - 1] {
        return r[n - 1];
    }
    let hi = t.partition_point(|&x| x < tenor);
    let w = (tenor - t[hi - 1]) / (t[hi] - t[hi - 1]);
    r[hi - 1] + w * (r[hi] - r[hi - 1])
}

fn column(b: &RecordBatch, i: usize) -> Vec<f64> {
    b.column(i).as_any().downcast_ref::<Float64Array>().unwrap().values().to_vec()
}

fn rate_of(b: &RecordBatch, tenor: f64) -> f64 {
    interpolate(&column(b, 0), &column(b, 1), tenor)
}

fn price(rate: f64, tenor: f64, notional: f64) -> f64 {
    notional * (-rate * tenor).exp()
}

/// A process: the store with the curve, the mailbox's chunks, the actors.
struct World {
    store: ChunkPool,
    head: ArtifactHead,
    art: Artifact,
    reg: SchemaRegistry,
    msgs: MessagePool,
    sys: ActorSystem<u8>,
    pricer: Pricer,
    risk: Risk,
}

impl World {
    fn publish(&mut self, bump: f64) -> u64 {
        let b = curve_batch(bump);
        let cols: Vec<ArrayData> = b.columns().iter().map(|c| c.to_data()).collect();
        let batch = Batch::from_columns(b.schema(), &cols, b.num_rows()).unwrap();
        let v = self.art.current_version(&self.head);
        self.art
            .commit_optimistic(&mut self.head, &mut self.store, 1, v, Commit::Replace, &batch, &mut self.reg)
            .unwrap()
    }

    /// Pin the curve, read the rate and the version, unpin.
    fn curve(&mut self, tenor: f64) -> (f64, u64) {
        let pin = self.art.pin(&mut self.head, &self.store).unwrap();
        let read = pin.located_batches(&self.store, &self.reg).unwrap();
        let chunks = pin.data_chunks(&self.store).unwrap();
        let floats = |i: usize| -> Vec<f64> {
            let e = &read[0].columns[i].buffers[0];
            let b = self.store.bytes(&chunks[e.chunk_index as usize]).unwrap();
            b[e.offset as usize..(e.offset + e.len) as usize]
                .chunks(8)
                .map(|x| f64::from_le_bytes(x.try_into().unwrap()))
                .collect()
        };
        let rate = interpolate(&floats(0), &floats(1), tenor);
        let version = pin.version();
        self.art.unpin(&mut self.head, &mut self.store, pin);
        (rate, version)
    }

    fn handle(&mut self, handler: u8, body: &[u8], cx: &Cx) -> Result<Reply, MessageError> {
        if handler == 1 {
            let req: PriceRequest = from_bytes(body)?;
            let (tenor, notional) =
                (f64::from_bits(req.tenor_bits), f64::from_bits(req.notional_bits));
            let (rate, version) = self.curve(tenor);
            assert!(!self.pricer.count());
            let px = price(rate, tenor, notional);
            Reply::of(&self.pricer.answer(px.to_bits(), version, cx.attempt()))
        } else {
            let req: RiskRequest = from_bytes(body)?;
            let (tenor, notional) =
                (f64::from_bits(req.tenor_bits), f64::from_bits(req.notional_bits));
            let (rate, version) = self.curve(tenor);
            let px = price(rate, tenor, notional);
            let dv01 =
                (price(rate + 1e-4, tenor, notional) - price(rate - 1e-4, tenor, notional)) / 2.0;
            Reply::of(&self.risk.answer(dv01.to_bits(), px.to_bits(), version, cx.attempt()))
        }
    }

    fn serve(&mut self, req: &ChunkDesc) -> Outcome {
        let (env, outcome) = match self.sys.receive(&self.msgs, req, 0) {
            Received::Unreadable => return Outcome::Failed,
            Received::Refused { env, error } => (env, Err(error)),
            Received::Call { handler, env, body, cx, .. } => {
                let o = self.handle(handler, &body, &cx);
                (env, o)
            }
        };
        let s = self.sys.settle(&mut self.msgs, &env, &outcome, 0);
        self.sys.finish(&mut self.msgs, req, false);
        match s {
            Settled::Complete => Outcome::Done,
            _ => Outcome::Failed,
        }
    }

    fn answered(&mut self, a: Asking) -> Result<(Envelope, Vec<u8>), Error> {
        let outcome = self.serve(&a.request.desc);
        self.msgs.take_reply(&a, outcome)
    }

    fn ask<P: Payload, R: Payload>(&mut self, r: &mut ActorRef, msg: &P) -> Result<R, Error> {
        let a = r.ask(&mut self.msgs, msg, 0)?;
        let (e, b) = self.answered(a)?;
        typed_reply(&e, &b)
    }

    fn ask_raw(&mut self, r: &mut ActorRef, schema: u32, body: &[u8]) -> Error {
        let a = r.ask_raw(&mut self.msgs, schema, body, 0).unwrap();
        self.answered(a).unwrap_err()
    }
}

#[test]
fn ask_reply_single_process() {
    let store = ChunkPool::create(5, &PoolConfig::power_of_two(1024, 4096, 16), 1 << 20).unwrap();
    let mut head = ArtifactHead::fresh();
    let art = Artifact::create(1, &mut head, 1 << 16).unwrap();
    let mut sys: ActorSystem<u8> = ActorSystem::new();
    sys.spawn(PRICER_NAME, Dispatch::new().on(1001, 1)).unwrap();
    sys.spawn(RISK_NAME, Dispatch::new().on(1003, 2)).unwrap();
    assert!(
        matches!(sys.spawn(RISK_NAME, Dispatch::new()), Err(Error::DuplicateActor(_))),
        "a second spawn under the same name is refused"
    );
    assert_eq!(sys.actor_ids().len(), 2);
    let mut w = World {
        store,
        head,
        art,
        reg: SchemaRegistry::with_schemas(&[curve_schema()]),
        msgs: MessagePool::new(pool()),
        sys,
        pricer: Pricer::new(None, 77),
        risk: Risk::new(77),
    };
    let (baseline, store_baseline) = (w.msgs.pool.free_count(), w.store.free_count());
    assert_eq!(w.publish(0.0), 1);
    assert_eq!(w.art.current_version(&w.head), 1);

    let mut actor = ActorRef::new(ActorId::named(PRICER_NAME), ActorId::new(0, 9));
    let v1 = curve_batch(0.0);
    for seq in 0..20u64 {
        let tenor = 0.5 + seq as f64 * 1.3;
        let req = PriceRequest {
            tenor_bits: tenor.to_bits(),
            notional_bits: 1_000_000.0f64.to_bits(),
            seq,
        };
        let reply: PriceReply = w.ask(&mut actor, &req).expect("ask");
        let expected = price(rate_of(&v1, tenor), tenor, 1_000_000.0);
        let px = f64::from_bits(reply.px_bits);
        assert!((px - expected).abs() < 1e-6, "seq {seq}: px {px} != {expected}");
        assert_eq!(reply.curve_version, 1);
        assert_eq!(reply.attempt, 0);
        assert_eq!(reply.incarnation, 77);
    }
    assert_eq!(w.pricer.handled(), 20);

    // Market move: the next ask prices off v2.
    assert_eq!(w.publish(25.0), 2);
    let v2 = curve_batch(25.0);
    let req = PriceRequest {
        tenor_bits: 7.0f64.to_bits(),
        notional_bits: 1.0f64.to_bits(),
        seq: 99,
    };
    let reply: PriceReply = w.ask(&mut actor, &req).expect("ask after move");
    assert_eq!(reply.curve_version, 2);
    let expected = price(rate_of(&v2, 7.0), 7.0, 1.0);
    assert!((f64::from_bits(reply.px_bits) - expected).abs() < 1e-12);

    // An unknown schema fails the task.
    let err = w.ask_raw(&mut actor, 4242, &[0u8; 8]);
    assert!(matches!(err, Error::Failed), "got {err:?}");

    // The second actor, over the same mailbox, picked by `to`.
    let mut risk = ActorRef::new(ActorId::named(RISK_NAME), ActorId::new(0, 9));
    for seq in 0..10u64 {
        let tenor = 1.0 + seq as f64 * 2.5;
        let rep: RiskReply = w
            .ask(
                &mut risk,
                &RiskRequest {
                    tenor_bits: tenor.to_bits(),
                    notional_bits: 1_000_000.0f64.to_bits(),
                    seq,
                },
            )
            .expect("risk ask");
        let px = price(rate_of(&v2, tenor), tenor, 1_000_000.0);
        let want = -px * (tenor * 1e-4).sinh();
        assert!((f64::from_bits(rep.px_bits) - px).abs() < 1e-6);
        assert!((f64::from_bits(rep.dv01_bits) - want).abs() < 1e-9 * px);
        assert_eq!(rep.curve_version, 2);
        assert_eq!(rep.incarnation, 77);
    }
    assert_eq!(w.risk.handled(), 10);
    // Routing is by `to`, not by schema …
    let err = w.ask_raw(&mut risk, PriceRequest::schema_id(), &[0u8; 24]);
    assert!(matches!(err, Error::Failed), "got {err:?}");
    // … and an actor nobody hosts fails the ask rather than hanging it.
    let mut nobody = ActorRef::new(ActorId::named("nobody"), ActorId::new(0, 9));
    let err = w.ask_raw(&mut nobody, PriceRequest::schema_id(), &[0u8; 24]);
    assert!(matches!(err, Error::Failed), "got {err:?}");

    // A tell is served and leaves nothing either.
    let p = actor.tell(&mut w.msgs, &req, 0).expect("tell");
    assert_eq!(w.serve(&p.desc), Outcome::Done);

    w.art.evict_all(&mut w.head, &mut w.store).unwrap();
    assert_eq!(w.store.free_count(), store_baseline);
    assert_eq!(w.msgs.pool.free_count(), baseline, "pool did not return to baseline");
}

#[test]
fn an_ask_names_both_ends_and_spends_an_id() {
    let pool = ChunkPool::create(9, &PoolConfig::power_of_two(256, 256, 2), 1 << 16).unwrap();
    let mut msgs = MessagePool::new(pool);
    let mut r = ActorRef::new(ActorId(7), ActorId(8));
    let req = PriceRequest { tenor_bits: 1, notional_bits: 2, seq: 3 };
    let a = r.ask(&mut msgs, &req, 5).unwrap();
    let e = &a.request.env;
    assert_eq!((e.to, e.from, e.corr, e.schema_id), (7, 8, 1, PriceRequest::schema_id()));
    assert_eq!(a.request.deadline, due_at(5));
    assert_eq!(e.payload, PackedRef::from_desc(&a.reply).to_bits());
    let (read, body) = msgs.read_message(&a.request.desc).unwrap();
    assert_eq!((read.corr, body), (1, req.as_bytes()));
    // The pool is empty: nothing is spent, and nothing is left behind.
    assert!(r.ask(&mut msgs, &req, 5).is_err());
    msgs.withdraw(&a);
    assert_eq!(r.ask(&mut msgs, &req, 5).unwrap().request.env.corr, 2);
}
