use holon::bench::{next_power_of_two, pool_segment_bytes, suites, Suite};
use holon::demo::crash::{
    kill_time, kill_to_first_reply, restarts, seg_base, Act, ClientOpts, Heard, PricerOpts,
    Supervisor,
};
use holon::demo::messages::{PriceReply, PriceRequest, RiskReply, RiskRequest};
use holon::demo::opts::Opts;
use holon::demo::plan::{bench_runs, detour, BenchOpts};
use holon::demo::report::{order, read_kv, ClientReport, Incarnation};
use holon::demo::roles::{
    join, percentile, share, summarize, tenor_step, to_risk, Counted, Pricer, Risk, Role, Tally,
};
use holon::message::error::Error;
use holon::message::payload::{from_bytes, Payload};
use holon::text::{decimal, parse_u32, parse_u64, split, split_all, split_lines, trim};

fn strings(v: &[&str]) -> Vec<String> {
    v.iter().map(|s| s.to_string()).collect()
}

fn texts(v: Vec<Vec<u8>>) -> Vec<String> {
    v.into_iter().map(|b| String::from_utf8(b).unwrap()).collect()
}

fn text(v: Vec<u8>) -> String {
    String::from_utf8(v).unwrap()
}

// ---- command lines ----

#[test]
fn options_flags_and_leftovers() {
    let o = Opts::parse(&strings(&[
        "demo", "client", "--uds", "/a", "--spin", "--n", "12", "stray", "--n", "40", "--bad",
    ]));
    assert_eq!(o.role, "client");
    assert_eq!(o.get("uds"), Some("/a"));
    assert_eq!(o.num_u64("n"), Some(40), "the last one counts");
    assert_eq!(o.num_u32("uds"), None);
    assert_eq!(o.get("bad"), None, "no value follows");
    assert!(o.flag("--spin"));
    assert!(!o.flag("--bare"));
    assert_eq!(o.get("spin"), None);
    assert_eq!(Opts::parse(&strings(&["demo"])).role, "");
    assert_eq!(Opts::parse(&Vec::new()).role, "");
    assert_eq!(Opts::parse(&strings(&["demo", "x", "--n", "4294967296"])).num_u32("n"), None);
}

#[test]
fn roles_by_name() {
    assert_eq!(Role::parse("coordinator"), Some(Role::Coordinator));
    assert_eq!(Role::parse("curve-publish"), Some(Role::CurvePublish));
    assert_eq!(Role::parse("pricer"), Some(Role::Pricer));
    assert_eq!(Role::parse("client"), Some(Role::Client));
    assert_eq!(Role::parse("supervisor"), Some(Role::Supervisor));
    assert_eq!(Role::parse("bench"), Some(Role::Bench));
    assert_eq!(Role::parse("Bench"), None);
}

#[test]
fn command_lines_of_children() {
    let o = PricerOpts {
        spin: true,
        bare: true,
        parent_watch: false,
        lease_ms: Some(500),
        kill_after: None,
        result: Some(b"/r".to_vec()),
    };
    assert_eq!(
        texts(o.args(b"/u")),
        ["pricer", "--uds", "/u", "--spin", "--bare", "--lease-ms", "500", "--result", "/r"]
    );
    assert_eq!(
        texts(ClientOpts::parked(500).args(b"/u", b"/r")),
        ["client", "--uds", "/u", "--n", "500", "--clients", "1", "--result", "/r"]
    );
    let mixed = ClientOpts { clients: 4, mix: true, ..ClientOpts::parked(8) };
    assert_eq!(texts(mixed.args(b"/u", b"/r")).last().unwrap(), "--mix");
    // What one writes the other reads.
    let mut line = vec!["demo".to_string()];
    line.extend(texts(mixed.args(b"/u", b"/r")));
    let o = Opts::parse(&line);
    assert_eq!((o.num_u64("n"), o.num_u32("clients")), (Some(8), Some(4)));
    assert!(o.flag("--mix"));
}

#[test]
fn command_lines_have_defaults() {
    let none = Opts::parse(&strings(&["demo", "client"]));
    assert_eq!(ClientOpts::from_opts(&none), ClientOpts::parked(1000));
    let some = Opts::parse(&strings(&["demo", "client", "--n", "7", "--clients", "0", "--mix"]));
    assert_eq!(ClientOpts::from_opts(&some), ClientOpts { mix: true, ..ClientOpts::parked(7) });
    let b = BenchOpts { n: 100_000, runs: 2, crash_n: 2_000, kill_after: 50 };
    assert_eq!(BenchOpts::from_opts(&none), b);
    let some = Opts::parse(&strings(&["demo", "bench", "--runs", "1", "--crash-n", "9"]));
    assert_eq!(BenchOpts::from_opts(&some), BenchOpts { runs: 1, crash_n: 9, ..b });
}

#[test]
fn a_bench_has_seven_runs() {
    let v = bench_runs(5);
    assert_eq!(v.len(), 7);
    assert!(v.iter().all(|r| r.client.n == 5));
    assert_eq!(v[0].client, ClientOpts::parked(5));
    assert_eq!((v[3].pricers, v[3].client.clients), (4, 4));
    assert!(v[4].client.mix && v[5].client.bare && v[6].client.bare && v[6].client.spin);
    assert_eq!(detour(5, 8), -3);
}

// ---- the supervisor ----

#[test]
fn a_supervisor_restarts_and_logs() {
    let mut s = Supervisor {
        incarnation: 0,
        spin: false,
        lease_ms: Some(500),
        kill_after: Some(50),
        pricer_result: Some(b"/p".to_vec()),
    };
    assert_eq!(
        texts(s.child_args(b"/u")),
        [
            "pricer", "--uds", "/u", "--parent-watch", "--lease-ms", "500", "--kill-after", "50",
            "--result", "/p"
        ]
    );
    let mut log = String::new();
    match s.hear(Heard::Started { pid: 10, now: 1 }) {
        Act::LogAndWait { line } => log += &(text(line) + "\n"),
        _ => panic!("not logged"),
    }
    assert!(matches!(s.hear(Heard::Running), Act::Wait));
    match s.hear(Heard::Exited { pid: 10, code: -1, now: 2 }) {
        Act::LogAndStart { line } => log += &(text(line) + "\n"),
        _ => panic!("not restarted"),
    }
    assert_eq!(s.incarnation, 1);
    assert!(!texts(s.child_args(b"/u")).contains(&"--kill-after".to_string()), "dies once");
    match s.hear(Heard::Started { pid: 11, now: 3 }) {
        Act::LogAndWait { line } => log += &(text(line) + "\n"),
        _ => panic!("not logged"),
    }
    match s.hear(Heard::Term { now: 4 }) {
        Act::KillAndStop { line } => log += &(text(line) + "\n"),
        _ => panic!("not stopped"),
    }
    assert_eq!(log, "START 0 10 1\nEXIT 0 10 -1 2\nRESTART 1 11 3\nTERM 4\n");
    assert_eq!(restarts(log.as_bytes()), 1);
    assert!(matches!(s.hear(Heard::StartFailed), Act::GiveUp));
    assert!(matches!(s.hear(Heard::WaitFailed), Act::GiveUp));
}

#[test]
fn what_the_logs_say() {
    assert_eq!(restarts(b""), 0);
    assert_eq!(restarts(b"RESTART 1\r\nSTART\nRESTART 2"), 2);
    assert_eq!(kill_time(b"READY 1 2\nKILL 77 \nKILL 78\n"), Some(77));
    assert_eq!(kill_time(b"READY 1 2\n"), None);
    assert_eq!(kill_time(b"KILL x\nKILL 78\n"), None, "the first line decides");
    assert_eq!(kill_to_first_reply(Some(5), Some(9)), Some(4));
    assert_eq!(kill_to_first_reply(Some(9), Some(5)), None);
    assert_eq!(kill_to_first_reply(None, Some(5)), None);
    assert_eq!(seg_base(0, 2_000_001), 100_001);
    assert!((100_000..2_100_000).contains(&seg_base(123, 456)));
}

// ---- reports ----

fn inc(pid: u32, replies: u64, first: u64) -> Incarnation {
    Incarnation { pid, replies, first }
}

fn sample() -> ClientReport {
    ClientReport {
        asks: 500,
        replies: 498,
        errors: 1,
        redelivered: 1,
        risk_replies: 0,
        p50_ns: 10,
        p99_ns: 20,
        max_ns: 30,
        elapsed_ns: 40,
        throughput: b"12.5".to_vec(),
        version_changes: 2,
        incarnations: vec![inc(7, 49, 100), inc(8, 449, 200)],
    }
}

#[test]
fn report_text() {
    let r = sample();
    assert_eq!(
        text(r.to_kv()),
        "asks=500\nreplies=498\nerrors=1\nredelivered=1\nrisk_replies=0\np50_ns=10\np99_ns=20\n\
         max_ns=30\nelapsed_ns=40\nthroughput=12.5\nversion_changes=2\n\
         incarnations=7:49:100;8:449:200\n"
    );
    assert_eq!(r.lost(), 1);
    assert_eq!(ClientReport { replies: 900, ..sample() }.lost(), 0);
}

#[test]
fn reports_survive_their_file() {
    let back = ClientReport::from_text(&sample().to_kv());
    assert_eq!(text(back.to_kv()), text(sample().to_kv()));
    assert_eq!(back.incarnations, sample().incarnations);
}

#[test]
fn odd_report_files_are_read_leniently() {
    let r = ClientReport::from_text(
        b"noise\n asks = 7 \r\nasks=9\nreplies=x\nincarnations=3:1:9;;2:1;1:2:3;a:b:c\n",
    );
    assert_eq!((r.asks, r.replies), (9, 0));
    assert_eq!(r.incarnations, vec![inc(1, 2, 3), inc(3, 1, 9)], "by first reply");
    let kv = read_kv(b"a = b=c \nnothing\n");
    assert_eq!(kv.get(b"a"), Some(&b"b=c".to_vec()));
    assert_eq!(kv.get(b"nothing"), None);
    assert_eq!(kv.num(b"a"), 0);
    assert_eq!(ClientReport::from_text(b"").asks, 0);
}

#[test]
fn ordering_is_stable() {
    let v = vec![inc(1, 1, 5), inc(2, 1, 3), inc(3, 1, 5), inc(4, 1, 1)];
    assert_eq!(order(&v), vec![inc(4, 1, 1), inc(2, 1, 3), inc(1, 1, 5), inc(3, 1, 5)]);
    assert_eq!(order(&order(&v)), order(&v));
}

// ---- clients ----

#[test]
fn clients_share_the_asks() {
    let parts: Vec<u64> = (0..4).map(|i| share(4003, 4, i)).collect();
    assert_eq!(parts, vec![1000, 1000, 1000, 1003]);
    assert_eq!(parts.iter().sum::<u64>(), 4003);
    assert!(to_risk(true, 3) && !to_risk(true, 2) && !to_risk(false, 3));
    assert_eq!(tenor_step(0), 0);
    assert_eq!(tenor_step(1), 7919 % 2975);
    assert_eq!(tenor_step(u64::MAX), u64::MAX.wrapping_mul(7919) % 2975);
}

#[test]
fn tallies_count_and_merge() {
    let c = |risk: bool, v: u64, pid: u32, attempt: u32, now: u64| Counted {
        risk,
        curve_version: v,
        incarnation: pid,
        attempt,
        now,
    };
    let mut a = Tally::new();
    a.reply(c(false, 1, 10, 0, 100));
    a.reply(c(true, 2, 10, 1, 110));
    a.error();
    assert_eq!((a.replies, a.errors, a.redelivered, a.risk_replies), (2, 1, 1, 1));
    assert_eq!((a.version_changes, a.last_version), (1, Some(2)));
    assert_eq!(a.incarnations, vec![inc(10, 2, 100)]);
    let mut b = Tally::new();
    b.reply(c(false, 2, 11, 0, 90));
    b.reply(c(false, 2, 10, 0, 95));
    let r = summarize(5, &vec![a, b], &vec![1, 2, 3, 4, 100], 9, b"1.0".to_vec());
    assert_eq!((r.asks, r.replies, r.errors, r.lost()), (5, 4, 1, 0));
    assert_eq!((r.redelivered, r.risk_replies, r.version_changes), (1, 1, 1));
    assert_eq!((r.p50_ns, r.p99_ns, r.max_ns), (3, 100, 100));
    assert_eq!(r.incarnations, vec![inc(11, 1, 90), inc(10, 3, 95)]);
    let none = summarize(0, &vec![], &vec![], 0, vec![]);
    assert_eq!((none.p50_ns, none.max_ns, none.incarnations.len()), (0, 0, 0));
}

#[test]
fn joining_adds_up() {
    let mut v = vec![inc(1, 2, 5)];
    join(&mut v, inc(2, 1, 1));
    join(&mut v, inc(1, 3, 4));
    assert_eq!(v, vec![inc(1, 5, 4), inc(2, 1, 1)]);
}

#[test]
fn percentiles_by_nearest_rank() {
    let v: Vec<u64> = (1..=100).collect();
    assert_eq!(percentile(&v, 500), 50);
    assert_eq!(percentile(&v, 990), 99);
    assert_eq!(percentile(&v, 1000), 100);
    assert_eq!(percentile(&v, 0), 1);
    assert_eq!(percentile(&vec![7], 990), 7);
    assert_eq!(percentile(&vec![], 500), 0);
}

// ---- actors ----

#[test]
fn a_pricer_dies_on_the_message_it_is_told() {
    let mut p = Pricer::new(Some(2), 9);
    assert!(!p.count());
    assert!(p.count());
    assert!(!p.count());
    assert_eq!(p.handled(), 3);
    assert_eq!(
        p.answer(1, 2, 3),
        PriceReply { px_bits: 1, curve_version: 2, incarnation: 9, attempt: 3 }
    );
    assert!(!Pricer::new(None, 9).count());
    let mut r = Risk::new(4);
    assert_eq!(
        r.answer(1, 2, 3, 5),
        RiskReply { dv01_bits: 1, px_bits: 2, curve_version: 3, incarnation: 4, attempt: 5 }
    );
    assert_eq!(r.handled(), 1);
}

#[test]
fn messages_on_the_wire() {
    let q = PriceRequest { tenor_bits: 0.5f64.to_bits(), notional_bits: 2, seq: 3 };
    let b = q.as_bytes();
    assert_eq!(b.len(), 24);
    assert_eq!(&b[..8], &0.5f64.to_le_bytes());
    assert_eq!(&b[16..], &3u64.to_le_bytes());
    assert_eq!(from_bytes::<PriceRequest>(&b), Ok(q));
    let r = RiskRequest { tenor_bits: 1, notional_bits: 2, seq: 3 };
    assert_eq!(from_bytes::<RiskRequest>(&r.as_bytes()), Ok(r));
    let p = PriceReply { px_bits: 1, curve_version: 2, incarnation: 3, attempt: 4 };
    assert_eq!(from_bytes::<PriceReply>(&p.as_bytes()), Ok(p));
    assert_eq!(&p.as_bytes()[16..20], &3u32.to_le_bytes());
    let k = RiskReply { dv01_bits: 5, px_bits: 1, curve_version: 2, incarnation: 3, attempt: 4 };
    assert_eq!(k.as_bytes().len(), 32);
    assert_eq!(&k.as_bytes()[..8], &5u64.to_le_bytes());
    assert_eq!(from_bytes::<RiskReply>(&k.as_bytes()), Ok(k));
    assert_eq!(
        from_bytes::<RiskReply>(&b),
        Err(Error::BadPayload { expected: 32, got: 24 })
    );
    let ids = (
        PriceRequest::schema_id(),
        PriceReply::schema_id(),
        RiskRequest::schema_id(),
        RiskReply::schema_id(),
    );
    assert_eq!(ids, (1001, 1002, 1003, 1004));
}

// ---- measurements ----

#[test]
fn suites_by_name() {
    assert_eq!(
        suites("all"),
        Some(vec![
            Suite::Xproc,
            Suite::Ring,
            Suite::Pool,
            Suite::Artifact,
            Suite::Arrow,
            Suite::Task
        ])
    );
    assert_eq!(suites("ring"), Some(vec![Suite::Ring]));
    assert_eq!(suites("task"), Some(vec![Suite::Task]));
    assert_eq!(suites("xproc"), Some(vec![Suite::Xproc]));
    assert_eq!(suites("pool"), Some(vec![Suite::Pool]));
    assert_eq!(suites("artifact"), Some(vec![Suite::Artifact]));
    assert_eq!(suites("arrow"), Some(vec![Suite::Arrow]));
    assert_eq!(suites("other"), None);
}

#[test]
fn segments_are_powers_of_two() {
    assert_eq!(next_power_of_two(0), 1);
    assert_eq!(next_power_of_two(1), 1);
    assert_eq!(next_power_of_two(5), 8);
    assert_eq!(next_power_of_two(1 << 63), 1 << 63);
    assert_eq!(pool_segment_bytes(64, 4096), 1 << 19);
}

// ---- text ----

#[test]
fn numbers_and_pieces() {
    assert_eq!(text(decimal(0)), "0");
    assert_eq!(text(decimal(u64::MAX)), "18446744073709551615");
    assert_eq!(parse_u64(b"18446744073709551615"), Some(u64::MAX));
    assert_eq!(parse_u64(b"18446744073709551616"), None);
    assert_eq!(parse_u64(b""), None);
    assert_eq!(parse_u64(b"1x"), None);
    assert_eq!(parse_u32(b"4294967296"), None);
    assert_eq!(parse_u32(&decimal(4294967295)), Some(u32::MAX));
    assert_eq!(texts(split(b"a;;b;", 59)), ["a", "", "b"]);
    assert_eq!(texts(split_all(b"a::b", 58)), ["a", "", "b"]);
    assert_eq!(text(trim(b" \t a b\r ")), "a b");
    assert_eq!(texts(split_lines(b"a\r\n\nb")), ["a", "", "b"]);
}

fn parsed(args: Vec<Vec<u8>>) -> Opts {
    let mut line = vec!["demo".to_string()];
    line.extend(args.into_iter().map(|a| String::from_utf8(a).unwrap()));
    Opts::parse(&line)
}

#[test]
fn command_lines_read_back_as_the_options() {
    for (spin, bare, lease_ms, kill_after, result) in [
        (false, true, None, Some(u64::MAX), None),
        (true, false, Some(0), None, Some("--spin")),
        (true, true, Some(250), Some(7), Some("/r")),
        (false, false, None, None, None),
    ] {
        let o = PricerOpts {
            spin,
            bare,
            parent_watch: !spin,
            lease_ms,
            kill_after,
            result: result.map(|r: &str| r.as_bytes().to_vec()),
        };
        let p = parsed(o.args(b"/tmp/u"));
        assert_eq!(p.role, "pricer");
        assert_eq!(p.get("uds"), Some("/tmp/u"));
        assert_eq!(p.num_u64("lease-ms"), lease_ms);
        assert_eq!(p.num_u64("kill-after"), kill_after);
        assert_eq!(p.get("result"), result);
        assert_eq!((p.flag("--spin"), p.flag("--bare")), (spin, bare));
        assert_eq!((p.flag("--parent-watch"), p.flag("--mix")), (!spin, false));
    }
    let c = ClientOpts { clients: 4, mix: true, ..ClientOpts::parked(8) };
    let p = parsed(c.args(b"/u", b"/r"));
    assert_eq!((p.role.as_str(), p.get("uds"), p.get("result")), ("client", Some("/u"), Some("/r")));
    assert_eq!((p.num_u64("n"), p.num_u32("clients")), (Some(8), Some(4)));
    assert_eq!((p.flag("--mix"), p.flag("--spin"), p.flag("--bare")), (true, false, false));
}
