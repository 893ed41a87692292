use netto::ping::{
    ping_once, probe_result, request_with, resolve, rest_after, Address, Clients, Outcome,
    PingResult, PingService, Probe, ProbeKind, TargetLoop, PAYLOAD_LEN, PING_TIMEOUT, RETENTION,
};
use netto::sparkline::{bucketize, BUCKET_COUNT, BUCKET_SIZE};

const MS: u64 = 1_000_000;

fn echo(host: &str) -> Probe {
    Probe { host: host.to_string(), kind: ProbeKind::Echo }
}

#[test]
fn set_targets_reuses_unchanged_slots() {
    let mut svc = PingService::new(100 * MS);
    let plan = svc.set_targets(&[echo("127.0.0.1")]);
    svc.record(plan.spawn[0].task, 500 * MS, PingResult::Reply(MS));
    let first = svc.snapshot();
    assert!(matches!(first[0].current, PingResult::Reply(_)));

    svc.set_targets(&[echo("127.0.0.1"), echo("1.1.1.1")]);
    let immediate = svc.snapshot();
    assert!(
        matches!(immediate[0].current, PingResult::Reply(_)),
        "reused slot lost its result: {:?}",
        immediate[0]
    );
    assert!(matches!(immediate[1].current, PingResult::Pending));
}

#[test]
fn set_targets_starts_and_aborts() {
    let mut svc = PingService::new(MS);
    let first = svc.set_targets(&[echo("a"), echo("b"), echo("a")]);
    assert_eq!(first.spawn.len(), 3);
    assert!(first.abort.is_empty());
    let tasks: Vec<u64> = first.spawn.iter().map(|s| s.task).collect();
    svc.record(tasks[0], 1, PingResult::Reply(10));
    svc.record(tasks[2], 1, PingResult::Reply(30));

    // One of the two "a" goes, "b" goes, "c" comes.
    let second = svc.set_targets(&[echo("c"), echo("a")]);
    assert_eq!(second.spawn.len(), 1);
    assert_eq!(second.spawn[0].probe.host, "c");
    assert_eq!(second.abort, vec![tasks[1], tasks[2]]);
    let snap = svc.snapshot();
    assert!(matches!(snap[0].current, PingResult::Pending));
    assert!(matches!(snap[1].current, PingResult::Reply(10)));

    // A result of an aborted task is dropped.
    svc.record(tasks[2], 2, PingResult::Timeout);
    assert!(matches!(svc.snapshot()[1].current, PingResult::Reply(10)));
}

#[test]
fn repeated_hosts_keep_their_slots_in_order() {
    let mut svc = PingService::new(MS);
    let first = svc.set_targets(&[echo("a"), echo("b"), echo("a"), echo("a")]);
    for (i, s) in first.spawn.iter().enumerate() {
        svc.record(s.task, 1, PingResult::Reply(i as u64));
    }
    // Two of three "a" stay, behind a new host.
    let fewer = svc.set_targets(&[echo("c"), echo("a"), echo("a")]);
    assert_eq!(fewer.abort, vec![first.spawn[1].task, first.spawn[3].task]);
    let snap = svc.snapshot();
    assert!(matches!(snap[1].current, PingResult::Reply(0)));
    assert!(matches!(snap[2].current, PingResult::Reply(2)));
    // A third "a" is fresh.
    let more = svc.set_targets(&[echo("a"), echo("a"), echo("a")]);
    assert_eq!(more.spawn.len(), 1);
    let snap = svc.snapshot();
    assert!(matches!(snap[0].current, PingResult::Reply(0)));
    assert!(matches!(snap[1].current, PingResult::Reply(2)));
    assert!(matches!(snap[2].current, PingResult::Pending));
}

#[test]
fn same_targets_change_nothing() {
    let mut svc = PingService::new(MS);
    svc.set_targets(&[echo("a"), echo("b")]);
    let again = svc.set_targets(&[echo("a"), echo("b")]);
    assert!(again.spawn.is_empty());
    assert!(again.abort.is_empty());
}

#[test]
fn probe_kind_distinguishes_slots() {
    let mut svc = PingService::new(MS);
    let first = svc.set_targets(&[echo("10.0.0.1")]);
    let tcp = Probe { host: "10.0.0.1".to_string(), kind: ProbeKind::Tcp };
    let second = svc.set_targets(&[tcp]);
    assert_eq!(second.spawn.len(), 1);
    assert_eq!(second.abort, vec![first.spawn[0].task]);
}

#[test]
fn record_keeps_samples_for_the_retention_window() {
    let mut svc = PingService::new(MS);
    let task = svc.set_targets(&[echo("a")]).spawn[0].task;
    svc.record(task, 10, PingResult::Reply(1));
    svc.record(task, 20, PingResult::Error("down".to_string()));
    svc.record(task, RETENTION + 15, PingResult::Timeout);
    let snap = svc.snapshot();
    let times: Vec<u64> = snap[0].samples.iter().map(|s| s.at).collect();
    assert_eq!(times, vec![20, RETENTION + 15]);
    assert!(matches!(snap[0].current, PingResult::Timeout));
}

#[test]
fn retention_covers_the_sparkline() {
    assert_eq!(RETENTION, BUCKET_SIZE * BUCKET_COUNT as u64);
    let mut svc = PingService::new(MS);
    let task = svc.set_targets(&[echo("a")]).spawn[0].task;
    let mut all = Vec::new();
    for i in 0..40u64 {
        let at = i * 17_000 * MS;
        svc.record(task, at, PingResult::Reply(i));
        all.push(netto::ping::Sample { at, result: PingResult::Reply(i) });
    }
    let now = 40 * 17_000 * MS;
    let kept = &svc.snapshot()[0].samples;
    assert!(kept.len() < all.len());
    assert_eq!(bucketize(kept, now), bucketize(&all, now));
}

#[test]
fn task_numbers_do_not_run_out() {
    let mut svc = PingService::new(MS);
    assert!(svc.has_room(usize::MAX));
    svc.set_targets(&[echo("a")]);
    assert!(!svc.has_room(usize::MAX));
    assert!(svc.has_room(usize::MAX - 1));
}

#[test]
fn interval_can_be_set() {
    let mut svc = PingService::new(10);
    assert_eq!(svc.interval(), 10);
    svc.set_interval(3);
    assert_eq!(svc.interval(), 3);
}

#[test]
fn requests_count_up_and_wrap() {
    let mut l = TargetLoop::new();
    let first = l.next_request();
    assert_eq!(first.seq, 0);
    assert_eq!(first.payload, vec![0u8; PAYLOAD_LEN]);
    assert_eq!(first.timeout_ns, PING_TIMEOUT);
    let mut idents = vec![first.ident];
    for i in 1..=65_535u16 {
        let r = l.next_request();
        assert_eq!(r.seq, i);
        idents.push(r.ident);
    }
    assert_eq!(l.next_request().seq, 0);
    // Identifiers are drawn at random: they are not all alike.
    assert!(idents.iter().any(|i| *i != idents[0]));
}

#[test]
fn loop_rests_for_what_is_left() {
    assert_eq!(rest_after(3, 10), Some(7));
    assert_eq!(rest_after(10, 10), None);
    assert_eq!(rest_after(11, 10), None);
}

#[test]
fn resolve_prefers_the_literal_then_the_first() {
    let a = Address::V4(0x7f00_0001);
    let b = Address::V6(1);
    assert_eq!(resolve(Some(a), &Err("unused".to_string())), Ok(a));
    assert_eq!(resolve(None, &Ok(vec![b, a])), Ok(b));
    assert_eq!(resolve(None, &Ok(vec![])), Err("no address".to_string()));
    assert_eq!(resolve(None, &Err("lookup failed".to_string())), Err("lookup failed".to_string()));
}

#[test]
fn ping_once_needs_an_address_and_a_socket() {
    let clients = Clients { v4_error: None, v6_error: Some("no v6".to_string()) };
    let a = Address::V4(1);
    assert!(matches!(ping_once(Ok(a), &clients), Ok(x) if x == a));
    match ping_once(Ok(Address::V6(1)), &clients) {
        Err(PingResult::Error(e)) => assert_eq!(e, "no v6"),
        other => panic!("unexpected: {other:?}"),
    }
    match ping_once(Err("no address".to_string()), &clients) {
        Err(PingResult::Error(e)) => assert_eq!(e, "no address"),
        other => panic!("unexpected: {other:?}"),
    }
}

#[test]
fn a_request_carries_its_identifier() {
    let r = request_with(0xbeef, 7);
    assert_eq!((r.ident, r.seq, r.timeout_ns), (0xbeef, 7, PING_TIMEOUT));
    assert_eq!(r.payload, vec![0u8; PAYLOAD_LEN]);
}

#[test]
fn outcomes_become_results() {
    assert!(matches!(probe_result(Outcome::Answered(5)), PingResult::Reply(5)));
    assert!(matches!(probe_result(Outcome::Refused(6)), PingResult::Reply(6)));
    assert!(matches!(probe_result(Outcome::TimedOut), PingResult::Timeout));
    match probe_result(Outcome::Failed("no route".to_string())) {
        PingResult::Error(e) => assert_eq!(e, "no route"),
        other => panic!("unexpected: {other:?}"),
    }
}
