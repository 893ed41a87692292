use netto::ping::PingTarget;
use netto::preferences::{
    do_save_prefs, format_secs, launch_at_login, make_stepped_slider, slider_ticks, step_value,
    EntryRows, MAX_ENTRY_ROWS,
};
use netto::settings::{
    closest_step, initial_targets, load_prefs, load_targets, reload_settings, save_prefs,
    save_targets, snap_to_steps, targets_from, AppPrefs, StoredPrefs, FAST_STEPS, SLOW_DEFAULT,
    SLOW_STEPS, TOLERANCE_STEPS,
};

const SEC: i64 = 1_000_000_000;

fn target(host: &str) -> PingTarget {
    PingTarget { host: host.to_string() }
}

fn hosts(targets: &[PingTarget]) -> Vec<String> {
    targets.iter().map(|t| t.host.clone()).collect()
}

fn strings(list: &[&str]) -> Vec<String> {
    list.iter().map(|s| s.to_string()).collect()
}

#[test]
fn snaps_to_the_closest_step() {
    assert_eq!(snap_to_steps(&SLOW_STEPS, 7 * SEC), 5 * SEC);
    assert_eq!(snap_to_steps(&SLOW_STEPS, 8 * SEC), 10 * SEC);
    // Halfway between two steps, the first is taken.
    assert_eq!(snap_to_steps(&FAST_STEPS, 375_000_000), 250_000_000);
    assert_eq!(snap_to_steps(&SLOW_STEPS, i64::MIN), 2 * SEC);
    assert_eq!(snap_to_steps(&SLOW_STEPS, i64::MAX), 60 * SEC);
    assert_eq!(snap_to_steps(&[], 7), 7);
    for v in TOLERANCE_STEPS {
        assert_eq!(snap_to_steps(&TOLERANCE_STEPS, v), v);
    }
    assert_eq!(closest_step(&SLOW_STEPS, 11 * SEC), 2);
    assert_eq!(closest_step(&[], 11), 0);
}

#[test]
fn nothing_stored_means_defaults() {
    let p = load_prefs(None);
    assert_eq!(p, AppPrefs::default());
    assert_eq!(p, AppPrefs { slow_ns: 10 * SEC, fast_ns: SEC, tolerance_ns: 30_000_000 });
}

#[test]
fn stored_prefs_are_snapped() {
    let p = load_prefs(Some(StoredPrefs {
        slow_ns: Some(40 * SEC),
        fast_ns: None,
        tolerance_ns: Some(45_000_001),
    }));
    assert_eq!(p, AppPrefs { slow_ns: 30 * SEC, fast_ns: SEC, tolerance_ns: 60_000_000 });
}

#[test]
fn saved_prefs_load_back() {
    for slow in SLOW_STEPS {
        for fast in FAST_STEPS {
            for tolerance in TOLERANCE_STEPS {
                let p = AppPrefs { slow_ns: slow, fast_ns: fast, tolerance_ns: tolerance };
                assert_eq!(load_prefs(Some(save_prefs(&p))), p);
            }
        }
    }
}

#[test]
fn targets_are_stored_as_a_json_array() {
    assert_eq!(save_targets(&[target("a\"b"), target("1.1.1.1")]), "[\"a\\\"b\",\"1.1.1.1\"]");
    assert_eq!(save_targets(&[]), "[]");
}

#[test]
fn saved_targets_load_back() {
    let t = vec![target("google.com"), target("h\u{f6}st\n"), target("")];
    let back = load_targets(&Some(save_targets(&t)), None).unwrap();
    assert_eq!(hosts(&back), hosts(&t));
    assert!(load_targets(&Some(save_targets(&[])), None).is_none());
}

#[test]
fn legacy_targets_are_read_where_current_ones_are_not() {
    let text = Some("[{\"name\":\"G\",\"host\":\"google.com\"}]".to_string());
    let back = load_targets(&text, Some(strings(&["google.com"]))).unwrap();
    assert_eq!(hosts(&back), strings(&["google.com"]));
    // The current reading wins.
    let text = Some(" [\"x\"] ".to_string());
    let back = load_targets(&text, Some(strings(&["y"]))).unwrap();
    assert_eq!(hosts(&back), strings(&["x"]));
}

#[test]
fn unreadable_targets_are_none() {
    assert!(load_targets(&None, None).is_none());
    assert!(load_targets(&Some("{".to_string()), None).is_none());
    assert!(load_targets(&Some("[1]".to_string()), None).is_none());
    assert!(load_targets(&Some("[]".to_string()), Some(strings(&["y"]))).is_none());
    assert!(targets_from(None, Some(vec![])).is_none());
    assert_eq!(hosts(&targets_from(None, Some(strings(&["q"]))).unwrap()), strings(&["q"]));
}

#[test]
fn first_launch_saves_the_defaults() {
    let (t, save) = initial_targets(None);
    assert_eq!(hosts(&t), strings(&["google.com", "cloudflare.com", "apple.com"]));
    assert!(save);
    let (t, save) = initial_targets(Some(vec![target("x")]));
    assert_eq!(hosts(&t), strings(&["x"]));
    assert!(!save);
}

#[test]
fn a_reload_keeps_targets_that_cannot_be_read() {
    assert_eq!(hosts(&reload_settings(vec![target("a")], Some(vec![target("b")]))), strings(&["b"]));
    assert_eq!(hosts(&reload_settings(vec![target("a")], None)), strings(&["a"]));
}

#[test]
fn entry_rows_are_limited() {
    let many: Vec<PingTarget> = (0..20).map(|i| target(&format!("h{i}"))).collect();
    let mut rows = EntryRows::new(&many);
    assert_eq!(rows.entry_count(), MAX_ENTRY_ROWS);
    assert!(!rows.can_add());
    assert!(!rows.do_add_entry());
    rows.do_remove_entry(0);
    assert!(rows.can_add());
    assert_eq!(rows.do_save().len(), MAX_ENTRY_ROWS - 1);
    assert_eq!(rows.do_save()[0].host, "h1");
    assert!(rows.do_add_entry());
    assert_eq!(rows.entry_count(), MAX_ENTRY_ROWS);
    assert_eq!(rows.do_save().len(), MAX_ENTRY_ROWS - 1);
}

#[test]
fn edited_rows_are_saved() {
    let mut rows = EntryRows::new(&[target("a"), target("b")]);
    rows.do_add_entry_with("c");
    rows.edit_entry(1, "");
    rows.edit_entry(9, "nowhere");
    rows.do_remove_entry(9);
    assert_eq!(hosts(&rows.do_save()), strings(&["a", "c"]));
    rows.edit_entry(1, "bb");
    assert_eq!(hosts(&rows.do_save()), strings(&["a", "bb", "c"]));
}

#[test]
fn sliders_stand_at_the_closest_step() {
    let s = make_stepped_slider(&FAST_STEPS, SEC);
    assert_eq!((s.max, s.ticks, s.index), (5, 6, 2));
    let none = make_stepped_slider(&[], SEC);
    assert_eq!((none.max, none.ticks, none.index), (0, 1, 0));
    assert_eq!(step_value(&FAST_STEPS, s.index as i64, 0), SEC);
}

#[test]
fn slider_indices_out_of_range() {
    assert_eq!(step_value(&SLOW_STEPS, -1, SLOW_DEFAULT), SLOW_DEFAULT);
    assert_eq!(step_value(&SLOW_STEPS, 0, SLOW_DEFAULT), 2 * SEC);
    assert_eq!(step_value(&SLOW_STEPS, i64::MIN, SLOW_DEFAULT), SLOW_DEFAULT);
    assert_eq!(step_value(&SLOW_STEPS, 4, SLOW_DEFAULT), 60 * SEC);
    assert_eq!(step_value(&SLOW_STEPS, 5, SLOW_DEFAULT), SLOW_DEFAULT);
    assert_eq!(step_value(&[], -1, 9), 9);
    let p = do_save_prefs(0, 5, 99);
    assert_eq!(p, AppPrefs { slow_ns: 2 * SEC, fast_ns: 10 * SEC, tolerance_ns: 30_000_000 });
}

#[test]
fn durations_and_ticks() {
    assert_eq!(format_secs(250_000_000), "0.25s");
    assert_eq!(format_secs(1_000_000_999), "1s");
    assert_eq!(format_secs(999_999_001), "1s");
    assert_eq!(format_secs(2_000_001_000), "2.000001s");
    assert_eq!(format_secs(90_500_000_000), "90.5s");
    let t = slider_ticks();
    assert_eq!(t.slow, strings(&["2s", "5s", "10s", "30s", "60s"]));
    assert_eq!(t.fast, strings(&["0.25s", "0.5s", "1s", "2s", "5s", "10s"]));
    assert_eq!(t.tolerance, strings(&["20", "30", "60", "100", "200"]));
}

#[test]
fn refused_login_changes_are_taken_back() {
    assert!(launch_at_login(true, true, true));
    assert!(!launch_at_login(true, false, true));
    assert!(!launch_at_login(false, true, false));
    assert!(launch_at_login(false, false, true));
    assert!(!launch_at_login(false, false, false));
}

#[test]
fn durations_agree_with_format() {
    let mut all: Vec<u64> = vec![0, 1, 953, 954, 999, 1_000, 1_001, 8_388_608_000_000_000, 8_388_607_999_998_001];
    for k in 0..200u64 {
        for d in [998u64, 999, 1_000, 1_001, 123_456_789, 500_000_000, 250_000_000] {
            all.push(k * SEC as u64 + d);
            all.push((k + 1) * SEC as u64 - d);
        }
    }
    for ns in all {
        let v = ns as f64 / 1e9;
        let want = if (v - v.round()).abs() < 1e-6 {
            format!("{:.0}s", v.round())
        } else {
            format!("{v}s")
        };
        assert_eq!(format_secs(ns), want);
    }
}
