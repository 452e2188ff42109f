use holon::chunk::PackedRef;
use holon::message::dispatch::Dispatch;
use holon::message::envelope::{
    decode_message, encode_message, ActorId, Envelope, MessageKind, ENVELOPE_MAGIC,
};
use holon::message::error::Error;
use holon::message::payload::{from_bytes, InlineBody, LocalRef, Payload, Reply, MAX_INLINE_BODY};

// ---- dispatch ----

struct Counter(u32);

type Handler = fn(&mut Counter, &Envelope, &[u8], &mut ()) -> Result<Reply, Error>;

fn inc(a: &mut Counter, _e: &Envelope, _b: &[u8], _c: &mut ()) -> Result<Reply, Error> {
    a.0 += 1;
    Ok(Reply::Empty)
}

fn dec(a: &mut Counter, _e: &Envelope, _b: &[u8], _c: &mut ()) -> Result<Reply, Error> {
    a.0 -= 1;
    Ok(Reply::Empty)
}

#[test]
fn register_lookup_replace() {
    let mut d: Dispatch<Handler> = Dispatch::new();
    assert!(d.is_empty());
    d.register(30, inc as Handler).register(10, inc as Handler).register(20, dec as Handler);
    assert_eq!(d.len(), 3);
    assert_eq!(d.schema_ids(), &[10, 20, 30]);
    assert!(d.lookup(40).is_none());

    let e = Envelope::inline(MessageKind::Tell, ActorId(1), ActorId(2), 0, 10, 0);
    let mut a = Counter(5);
    d.lookup(10).unwrap()(&mut a, &e, &[], &mut ()).unwrap();
    d.lookup(30).unwrap()(&mut a, &e, &[], &mut ()).unwrap();
    d.lookup(20).unwrap()(&mut a, &e, &[], &mut ()).unwrap();
    assert_eq!(a.0, 6);

    // Re-registering replaces in place.
    d.register(20, inc as Handler);
    assert_eq!(d.len(), 3);
    d.lookup(20).unwrap()(&mut a, &e, &[], &mut ()).unwrap();
    assert_eq!(a.0, 7);

    let d2: Dispatch<Handler> = Dispatch::new().on(1, inc as Handler);
    assert_eq!(d2.len(), 1);
}

#[test]
fn default_dispatch_is_empty() {
    let d: Dispatch<u8> = Dispatch::default();
    assert!(d.is_empty());
    assert_eq!(d.lookup(0), None);
    assert_eq!(d.on(7, 1).on(7, 2).lookup(7), Some(2));
}

// ---- envelope ----

#[test]
fn size_and_offsets_are_frozen() {
    assert_eq!(core::mem::size_of::<Envelope>(), 64);
    assert_eq!(core::mem::align_of::<Envelope>(), 64);
    assert_eq!(ENVELOPE_MAGIC, 0x484f_4c4e);
}

#[test]
fn wire_offsets() {
    let mut e = Envelope::inline(MessageKind::Ask, ActorId(0x11), ActorId(0x22), 0x33, 0x44, 0x55)
        .with_reply_ref(LocalRef(PackedRef(0x66)))
        .with_deadline_nanos(7_000_000);
    e.version = 0x77;
    e.epoch = 0x88;
    let b = e.to_bytes();
    assert_eq!(b.len(), 64);
    assert_eq!(b[0], 0x11);
    assert_eq!(b[8], 0x22);
    assert_eq!(b[16], 0x33);
    assert_eq!(b[24], 0x66);
    assert_eq!(b[32], 0x44);
    assert_eq!(b[36], 0x77);
    assert_eq!(b[40], 2);
    assert_eq!(b[42], 3);
    assert_eq!(b[44], 7);
    assert_eq!(b[48], 0x88);
    assert_eq!(&b[52..56], &ENVELOPE_MAGIC.to_le_bytes());
    assert_eq!(b[56], 1);
    assert_eq!(b[58], 0x55);
    assert_eq!(&b[60..64], &[0, 0, 0, 0]);
}

#[test]
fn round_trip_and_validation() {
    let e = Envelope::inline(
        MessageKind::Ask,
        ActorId::named("pricer"),
        ActorId::new(0, 7),
        42,
        1001,
        24,
    )
    .with_deadline_nanos(5_000_000_000);
    assert!(e.validate().is_ok());
    assert_eq!(e.deadline, 5000);
    assert_eq!(Envelope::from_bytes(&e.to_bytes()).unwrap(), e);

    let mut bad = e;
    bad.magic ^= 1;
    assert!(matches!(Envelope::from_bytes(&bad.to_bytes()), Err(Error::BadEnvelope)));
    let mut bad = e;
    bad.abi_version = 9;
    assert!(matches!(Envelope::from_bytes(&bad.to_bytes()), Err(Error::BadEnvelope)));
    let mut bad = e;
    bad.kind = 99;
    assert!(matches!(Envelope::from_bytes(&bad.to_bytes()), Err(Error::BadKind(99))));
    assert!(matches!(Envelope::from_bytes(&[0u8; 32]), Err(Error::BadEnvelope)));
    // Unaligned input decodes (the read copies out).
    let mut shifted = [0u8; 65];
    shifted[1..].copy_from_slice(&e.to_bytes());
    assert_eq!(Envelope::from_bytes(&shifted[1..]).unwrap(), e);
}

#[test]
fn reserved_word_is_checked() {
    let mut e = Envelope::inline(MessageKind::Tell, ActorId(1), ActorId(2), 0, 3, 0);
    e._reserved = 1;
    assert!(matches!(e.validate(), Err(Error::BadEnvelope)));
}

#[test]
fn reply_swaps_addresses_and_keeps_corr() {
    let ask = Envelope::inline(MessageKind::Ask, ActorId(5), ActorId(9), 77, 1, 0)
        .with_reply_ref(LocalRef(PackedRef::pack(3, 4096)));
    assert_eq!(ask.payload_ref(), Some(LocalRef(PackedRef::pack(3, 4096))));
    let e = Envelope::err_to(&ask);
    assert_eq!(e.kind().unwrap(), MessageKind::Failed);
    assert_eq!(e.corr, 77);
    assert!(e.payload_ref().is_none());
    let r = Envelope::reply_to(&ask, 2, 8);
    assert_eq!(r.to, 9);
    assert_eq!(r.from, 5);
    assert_eq!(r.corr, 77);
    assert_eq!(r.kind().unwrap(), MessageKind::Reply);
    assert!(!r.no_reply());
    let t = Envelope::inline(MessageKind::Tell, ActorId(5), ActorId(9), 0, 1, 0);
    assert!(t.no_reply());
}

#[test]
fn message_encode_decode() {
    let body = [1u8, 2, 3, 4, 5, 6, 7, 8];
    let e = Envelope::inline(MessageKind::Ask, ActorId(1), ActorId(2), 3, 4, 8);
    let mut buf = [0u8; 256];
    let n = encode_message(&mut buf, &e, &body).unwrap();
    assert_eq!(n, 72);
    let (got, got_body) = decode_message(&buf).unwrap();
    assert_eq!(got, e);
    assert_eq!(got_body, &body);

    // Body length must match the envelope's claim.
    assert!(matches!(
        encode_message(&mut buf, &e, &body[..4]),
        Err(Error::BodyTooLarge { .. })
    ));
    // A truncated buffer is rejected on decode.
    assert!(matches!(decode_message(&buf[..70]), Err(Error::BadEnvelope)));
    // A chunk too small for the body is rejected on encode.
    let mut tiny = [0u8; 66];
    assert!(matches!(
        encode_message(&mut tiny, &e, &body),
        Err(Error::BodyTooLarge { len: 8, max: 2 })
    ));
}

#[test]
fn a_message_without_inline_body_has_none() {
    let mut e = Envelope::inline(MessageKind::Ask, ActorId(1), ActorId(2), 3, 4, 0);
    e.flags = 0;
    let mut buf = [9u8; 64];
    encode_message(&mut buf, &e, &[]).unwrap();
    let (got, body) = decode_message(&buf).unwrap();
    assert_eq!(got, e);
    assert!(body.is_empty());
}

#[test]
fn actor_id_packing() {
    let id = ActorId::new(3, 0xdead);
    assert_eq!(id.host(), 3);
    assert_eq!(id.local(), 0xdead);
    assert_eq!(ActorId::named("pricer"), ActorId::named("pricer"));
    assert_ne!(ActorId::named("pricer"), ActorId::named("client"));
    assert_ne!(ActorId::named("").local(), 0);
}

#[test]
fn named_ids_are_the_name_hash() {
    // FNV-1a over no bytes is the offset basis; over "a" it is 0xe40c292c.
    assert_eq!(ActorId::named("").local(), 0x811c_9dc5);
    assert_eq!(ActorId::named("a").local(), 0xe40c_292c);
    assert_eq!(ActorId::named("foobar").local(), 0xbf9c_f968);
    assert_eq!(ActorId::named("a").host(), 0);
    assert_eq!(ActorId::none(), ActorId(0));
}

#[test]
fn kinds_and_numbers() {
    for (k, n) in [
        (MessageKind::Tell, 1),
        (MessageKind::Ask, 2),
        (MessageKind::Reply, 3),
        (MessageKind::Failed, 4),
    ] {
        assert_eq!(k.as_u16(), n);
        assert_eq!(MessageKind::from_u16(n).unwrap(), k);
    }
    assert!(matches!(MessageKind::from_u16(0), Err(Error::BadKind(0))));
    assert!(matches!(MessageKind::from_u16(5), Err(Error::BadKind(5))));
}

// ---- payload ----

#[derive(Clone, Copy, Debug, PartialEq)]
struct Ping {
    a: u64,
    b: f64,
}

impl Payload for Ping {
    fn schema_id() -> u32 {
        77
    }

    fn size() -> usize {
        16
    }

    fn as_bytes(&self) -> Vec<u8> {
        let mut v = self.a.to_le_bytes().to_vec();
        v.extend_from_slice(&self.b.to_le_bytes());
        v
    }

    fn read(b: &[u8]) -> Ping {
        Ping {
            a: u64::from_le_bytes(b[..8].try_into().unwrap()),
            b: f64::from_le_bytes(b[8..16].try_into().unwrap()),
        }
    }
}

#[test]
fn payload_round_trip_checks_size() {
    let p = Ping { a: 1, b: 2.5 };
    assert_eq!(Ping::schema_id(), 77);
    assert_eq!(from_bytes::<Ping>(&p.as_bytes()).unwrap(), p);
    assert!(matches!(
        from_bytes::<Ping>(&p.as_bytes()[..8]),
        Err(Error::BadPayload { expected: 16, got: 8 })
    ));
    // Unaligned bytes decode too.
    let mut v = [0u8; 17];
    v[1..].copy_from_slice(&p.as_bytes());
    assert_eq!(from_bytes::<Ping>(&v[1..]).unwrap(), p);
}

#[test]
fn reply_inline_caps_body() {
    let r = Reply::of(&Ping { a: 3, b: 4.0 }).unwrap();
    match r {
        Reply::Inline(b) => {
            assert_eq!(b.schema_id(), 77);
            assert_eq!(b.len(), 16);
            assert!(!b.is_empty());
            assert_eq!(b.bytes(), &Ping { a: 3, b: 4.0 }.as_bytes()[..]);
        }
        Reply::Empty => panic!("expected inline"),
    }
    assert!(matches!(
        InlineBody::new(1, &[0u8; MAX_INLINE_BODY + 1]),
        Err(Error::BodyTooLarge { .. })
    ));
    assert!(InlineBody::new(1, &[0u8; MAX_INLINE_BODY]).is_ok());
}

#[test]
fn local_ref_unpacks() {
    let r = LocalRef(PackedRef::pack(9, 4096));
    assert_eq!(r.segment_id(), 9);
    assert_eq!(r.offset(), 4096);
}
