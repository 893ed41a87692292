use netto::menu::{
    aggregate_best, host_list, ip_entries, network_changed, pick_router_probe, public_ip,
    rebuild_menu_structure, tick, Cadence, MenuEntry, RowCounts,
};
use netto::netinfo::NetInfo;
use netto::ping::{HostSnapshot, PingResult, PingService, PingTarget, ProbeKind, Sample};
use netto::settings::AppPrefs;
use netto::sparkline::{BucketInfo, Tolerance, BUCKET_COUNT};
use netto::titles::{
    dns_label, format_bucket_tooltip, format_hint, format_result, set_chip, status_cells, tooltips,
    update_titles,
};
use netto::address::ChipKind;

const MS: u64 = 1_000_000;

fn some(s: &str) -> Option<String> {
    Some(s.to_string())
}

fn target(host: &str) -> PingTarget {
    PingTarget { host: host.to_string() }
}

fn snap(current: PingResult) -> HostSnapshot {
    HostSnapshot { current, samples: vec![] }
}

fn info() -> NetInfo {
    NetInfo {
        local_v4: some("10.0.0.17"),
        local_v6: None,
        router_v4: some("10.0.0.1"),
        router_v6: some("fe80::1%en0"),
        vpn_interface: some("utun4"),
        dns_ips: vec!["9.9.9.9".to_string(), "fe80::2%en0".to_string()],
    }
}

#[test]
fn router_is_probed_over_v6_first() {
    let p = pick_router_probe(&info()).unwrap();
    assert_eq!((p.host.as_str(), p.kind), ("fe80::1%en0", ProbeKind::Echo));
    let v4 = NetInfo { router_v6: None, ..info() };
    let p = pick_router_probe(&v4).unwrap();
    assert_eq!((p.host.as_str(), p.kind), ("10.0.0.1", ProbeKind::Tcp));
    let clat = NetInfo { router_v6: None, router_v4: some("192.0.0.1"), ..info() };
    assert!(pick_router_probe(&clat).is_none());
    assert!(pick_router_probe(&NetInfo::default()).is_none());
}

#[test]
fn addresses_are_listed_in_order() {
    let rows = ip_entries(&info(), &(None, some("2001:db8::1")));
    let labels: Vec<&str> = rows.iter().map(|e| e.label.as_str()).collect();
    assert_eq!(labels, vec!["Local", "Router", "Public"]);
    assert_eq!(rows[1].v4, some("10.0.0.1"));
    assert_eq!(rows[1].v6, some("fe80::1"));
    assert_eq!(rows[2].v4, None);
    assert_eq!(rows[2].v6, some("2001:db8::1"));
    assert!(ip_entries(&NetInfo::default(), &(None, None)).is_empty());
}

#[test]
fn probes_stand_in_order() {
    let list = host_list(&[target("google.com"), target("apple.com")], &info());
    let hosts: Vec<&str> = list.iter().map(|p| p.host.as_str()).collect();
    assert_eq!(hosts, vec!["google.com", "apple.com", "fe80::1%en0", "9.9.9.9", "fe80::2%en0"]);
    assert!(list.iter().all(|p| p.kind == ProbeKind::Echo));
}

#[test]
fn aggregate_is_best_of_n() {
    let e = || PingResult::Error("x".to_string());
    assert!(matches!(aggregate_best(&[]), PingResult::Pending));
    let r = aggregate_best(&[
        snap(PingResult::Timeout),
        snap(PingResult::Reply(9)),
        snap(PingResult::Reply(7)),
        snap(PingResult::Pending),
    ]);
    assert!(matches!(r, PingResult::Reply(7)));
    let r = aggregate_best(&[snap(e()), snap(PingResult::Timeout), snap(PingResult::Pending)]);
    assert!(matches!(r, PingResult::Pending));
    assert!(matches!(aggregate_best(&[snap(e()), snap(PingResult::Timeout)]), PingResult::Timeout));
    match aggregate_best(&[snap(e()), snap(e())]) {
        PingResult::Error(m) => assert_eq!(m, "all targets failed"),
        other => panic!("unexpected: {other:?}"),
    }
}

#[test]
fn public_answers_are_checked() {
    assert_eq!(public_ip(" 203.0.113.9\n"), some("203.0.113.9"));
    assert_eq!(public_ip(" \n"), None);
    assert_eq!(public_ip(&"x".repeat(64)), Some("x".repeat(64)));
    assert_eq!(public_ip(&"x".repeat(65)), None);
    // The limit is in bytes.
    assert_eq!(public_ip(&"\u{f6}".repeat(33)), None);
}

#[test]
fn a_changed_network_is_noticed() {
    assert!(network_changed(&NetInfo::default(), &info()));
    assert!(!network_changed(&info(), &info()));
    assert!(network_changed(&info(), &NetInfo { vpn_interface: None, ..info() }));
    assert!(network_changed(&info(), &NetInfo { local_v6: some("::1"), ..info() }));
    // Name servers do not count.
    assert!(!network_changed(&info(), &NetInfo { dns_ips: vec![], ..info() }));
}

#[test]
fn menu_is_built_and_then_left_alone() {
    let targets = [target("a"), target("b")];
    let public = (None, None);
    let (items, rows) = rebuild_menu_structure(&targets, &info(), &public);
    assert_eq!(rows, RowCounts { targets: 2, dns: 2, ips: 2 });
    assert_eq!(
        items,
        vec![
            MenuEntry::Internet,
            MenuEntry::Router,
            MenuEntry::Separator,
            MenuEntry::Target(0),
            MenuEntry::Target(1),
            MenuEntry::Separator,
            MenuEntry::Dns(0),
            MenuEntry::Dns(1),
            MenuEntry::Separator,
            MenuEntry::Vpn,
            MenuEntry::Ip(0),
            MenuEntry::Ip(1),
            MenuEntry::Separator,
            MenuEntry::Settings,
            MenuEntry::Separator,
            MenuEntry::Quit,
        ]
    );
    assert!(!tick(&info(), &info(), &public, &targets, &rows, false).rebuild);
    let (items, rows) = rebuild_menu_structure(&[], &NetInfo::default(), &public);
    assert_eq!(rows, RowCounts { targets: 0, dns: 1, ips: 0 });
    assert_eq!(items.len(), 10);
}

#[test]
fn menu_is_rebuilt_only_while_closed() {
    let targets = [target("a")];
    let public = (some("203.0.113.9"), None);
    let rows = RowCounts { targets: 1, dns: 2, ips: 2 };
    assert!(tick(&info(), &info(), &public, &targets, &rows, false).rebuild);
    assert!(!tick(&info(), &info(), &public, &targets, &rows, true).rebuild);
    let rows = RowCounts { targets: 1, dns: 2, ips: 3 };
    assert!(!tick(&info(), &info(), &public, &targets, &rows, false).rebuild);
    let no_vpn = NetInfo { vpn_interface: None, ..info() };
    assert!(tick(&info(), &no_vpn, &public, &targets, &rows, false).rebuild);
    let no_router = NetInfo { router_v6: None, router_v4: some("192.0.0.1"), ..info() };
    assert!(tick(&info(), &no_router, &public, &targets, &rows, false).rebuild);
    assert_eq!(tick(&info(), &info(), &public, &targets, &rows, true).hosts.len(), 4);
}

#[test]
fn cadence_follows_the_menu() {
    let prefs = AppPrefs { slow_ns: 10, fast_ns: 1, tolerance_ns: 30 };
    let mut c = Cadence::new(&prefs);
    assert_eq!(c.interval(), 10);
    assert_eq!(c.menu_will_open(), 1);
    assert_eq!(c.apply_prefs(&AppPrefs { slow_ns: 60, fast_ns: 5, tolerance_ns: 30 }), 5);
    assert_eq!(c.menu_did_close(), 60);
}

#[test]
fn results_as_rows_show_them() {
    assert_eq!(format_result(&PingResult::Reply(1_500_000)), "2ms");
    assert_eq!(format_result(&PingResult::Reply(1_499_999)), "1ms");
    assert_eq!(format_result(&PingResult::Reply(120 * MS)), "120ms");
    assert_eq!(format_result(&PingResult::Timeout), "timeout");
    assert_eq!(format_result(&PingResult::Error("no route".to_string())), "no route");
    assert_eq!(format_result(&PingResult::Pending), "...");
    assert_eq!(format_hint(&PingResult::Reply(12_345_678)), "Internet: 12.3 ms");
    assert_eq!(format_hint(&PingResult::Timeout), "Internet: timeout");
    assert_eq!(format_hint(&PingResult::Error("e".to_string())), "Internet: e");
    assert_eq!(format_hint(&PingResult::Pending), "Internet: …");
}

#[test]
fn tooltips_say_latency_and_loss() {
    let b = |samples, failed, max_ok_ns| BucketInfo { samples, failed, max_ok_ns };
    assert_eq!(format_bucket_tooltip(&b(0, 0, None)), "no data");
    assert_eq!(format_bucket_tooltip(&b(3, 0, Some(5 * MS))), "5.0 ms");
    assert_eq!(format_bucket_tooltip(&b(3, 1, Some(40_260_000))), "40.3 ms · 33% loss");
    assert_eq!(format_bucket_tooltip(&b(8, 1, Some(250_000))), "0.2 ms · 12% loss");
    assert_eq!(format_bucket_tooltip(&b(2, 2, None)), "all timeouts");
    assert_eq!(tooltips(&[b(0, 0, None), b(1, 0, Some(MS))]), vec!["no data", "1.0 ms"]);
    assert_eq!(format_bucket_tooltip(&b(1, 0, Some(50_000))), "0.1 ms");
    assert_eq!(format_bucket_tooltip(&b(40, 23, Some(12_350_000))), "12.3 ms · 57% loss");
    // Every tie up to a second, and a few other latencies.
    let ties = (0..10_000u64).map(|k| k * 100_000 + 50_000);
    for ns in ties.chain([0, 1, 1_249_999, 99_960_000, 123_456_789, u64::MAX, u64::MAX / 3]) {
        let ms = ns as f64 / 1e6;
        assert_eq!(format_bucket_tooltip(&b(1, 0, Some(ns))), format!("{ms:.1} ms"));
        assert_eq!(format_hint(&PingResult::Reply(ns)), format!("Internet: {ms:.1} ms"));
        assert_eq!(format_result(&PingResult::Reply(ns)), format!("{:.0}ms", ms.round()));
    }
}

#[test]
fn status_shows_the_last_slots() {
    let cell = |n| BucketInfo { samples: n, failed: 0, max_ok_ns: Some(1) };
    let row: Vec<BucketInfo> = (1..=6).map(cell).collect();
    assert_eq!(status_cells(&row), vec![cell(3), cell(4), cell(5), cell(6)]);
    let e = BucketInfo::empty();
    // Missing history is on the left: the newest slot stays rightmost.
    assert_eq!(status_cells(&row[..2]), vec![e, e, cell(1), cell(2)]);
    assert_eq!(status_cells(&row[..1]), vec![e, e, e, cell(1)]);
    assert_eq!(status_cells(&[]), vec![e; 4]);
}

#[test]
fn chips_show_addresses() {
    let c = set_chip(&some("10.0.0.1")).unwrap();
    assert_eq!((c.title.as_str(), c.shown.as_str()), ("10.0.0.1", " 10.0.0.1 "));
    assert!(set_chip(&some("")).is_none());
    assert!(set_chip(&None).is_none());
    let d = dns_label(&some("fe80::1"));
    assert_eq!((d.label.as_str(), d.kind), ("DNS", ChipKind::V6));
    assert_eq!(d.chip.unwrap().title, "fe80::1");
    let d = dns_label(&None);
    assert_eq!((d.label.as_str(), d.kind), ("DNS: unknown", ChipKind::V4));
    assert!(d.chip.is_none());
}

#[test]
fn rows_show_their_own_host() {
    let targets = [target("google.com"), target("apple.com")];
    let info = info();
    let mut svc = PingService::new(MS);
    let plan = svc.set_targets(&host_list(&targets, &info));
    for (i, s) in plan.spawn.iter().enumerate() {
        svc.record(s.task, 1_000, PingResult::Reply((i as u64 + 1) * 10 * MS));
    }
    let t = update_titles(
        &targets,
        &svc.snapshot(),
        &info,
        &(None, None),
        2_000,
        &Tolerance::new(),
    );
    assert_eq!((t.internet.label.as_str(), t.internet.value.as_str()), ("Internet", "10ms"));
    assert_eq!(t.hint, "Internet: 10.0 ms");
    assert_eq!(t.internet.buckets[BUCKET_COUNT - 1].max_ok_ns, Some(10 * MS));
    assert_eq!(t.status[3].max_ok_ns, Some(10 * MS));
    let rows: Vec<(&str, &str)> =
        t.targets.iter().map(|r| (r.label.as_str(), r.value.as_str())).collect();
    assert_eq!(rows, vec![("google.com", "10ms"), ("apple.com", "20ms")]);
    assert_eq!((t.router.label.as_str(), t.router.value.as_str()), ("Router", "30ms"));
    let dns: Vec<(Option<&str>, &str)> =
        t.dns.iter().map(|r| (r.ip.as_deref(), r.value.as_str())).collect();
    assert_eq!(dns, vec![(Some("9.9.9.9"), "40ms"), (Some("fe80::2"), "50ms")]);
    assert_eq!(t.vpn.unwrap().label, "VPN: active (utun4)");
    assert_eq!(t.ips[0].label, "Local:");
    assert_eq!(t.ips[1].v6, some("fe80::1"));
}

#[test]
fn rows_without_a_snapshot_are_pending() {
    let targets = [target("a"), target("b")];
    let early = [HostSnapshot {
        current: PingResult::Reply(MS),
        samples: vec![Sample { at: 0, result: PingResult::Reply(MS) }],
    }];
    let t = update_titles(
        &targets,
        &early,
        &NetInfo::default(),
        &(None, None),
        0,
        &Tolerance::new(),
    );
    assert_eq!(t.targets[0].value, "...");
    assert!(t.targets[0].buckets.is_empty());
    assert_eq!(t.internet.value, "...");
    assert!(t.internet.buckets.is_empty());
    assert_eq!(t.router.value, "unknown");
    assert_eq!(t.dns.len(), 1);
    assert_eq!(t.dns[0].ip, None);
    assert_eq!(t.dns[0].value, "");
    assert!(t.vpn.is_none());
    assert!(t.ips.is_empty());
}
