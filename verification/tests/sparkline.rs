use netto::fraction::{is_less, Fraction};
use netto::ping::{PingResult, Sample};
use netto::sparkline::{
    badness, best_of, bucketize, set_tolerance_ms, smoothstep, BucketInfo, Tolerance, BUCKET_COUNT,
    BUCKET_SIZE,
};

const SEC: u64 = 1_000_000_000;

fn ms(v: f64) -> u64 {
    (v * 1_000_000.0) as u64
}

fn value(f: Fraction) -> f64 {
    f.num as f64 / f.den as f64
}

/// Some time after the clock started.
fn clock() -> u64 {
    1_000_000 * SEC
}

fn sample(secs_ago: u64, result: PingResult) -> Sample {
    Sample { at: clock() - secs_ago * SEC, result }
}

#[test]
fn badness_low_when_fast_and_clean() {
    let b = BucketInfo { samples: 10, failed: 0, max_ok_ns: Some(ms(10.0)) };
    assert_eq!(badness(&b, &Tolerance::new()).map(value), Some(0.0));
}

#[test]
fn badness_high_for_total_loss() {
    let b = BucketInfo { samples: 5, failed: 5, max_ok_ns: None };
    assert_eq!(badness(&b, &Tolerance::new()).map(value), Some(1.0));
}

#[test]
fn badness_picks_worse_of_latency_and_loss() {
    // Low latency but 50% loss: badness is at least 0.5.
    let b = BucketInfo { samples: 10, failed: 5, max_ok_ns: Some(ms(10.0)) };
    assert!(value(badness(&b, &Tolerance::new()).unwrap()) >= 0.5);
}

#[test]
fn badness_of_nothing_is_none() {
    assert_eq!(badness(&BucketInfo::empty(), &Tolerance::new()), None);
    assert_eq!(BucketInfo::default(), BucketInfo::empty());
    assert!(BucketInfo::empty().is_empty());
}

#[test]
fn badness_follows_smoothstep() {
    // Halfway from 30 ms to 250 ms smoothstep is one half.
    let t = Tolerance::new();
    let half = BucketInfo { samples: 1, failed: 0, max_ok_ns: Some(ms(140.0)) };
    assert!((value(badness(&half, &t).unwrap()) - 0.5).abs() < 1e-12);
    // A quarter of the way it is 5/32.
    let quarter = BucketInfo { samples: 1, failed: 0, max_ok_ns: Some(ms(85.0)) };
    assert!((value(badness(&quarter, &t).unwrap()) - 0.15625).abs() < 1e-12);
    // At the bad threshold and beyond it is 1.
    let bad = BucketInfo { samples: 1, failed: 0, max_ok_ns: Some(ms(250.0)) };
    assert_eq!(badness(&bad, &t).map(value), Some(1.0));
    let worse = BucketInfo { samples: 1, failed: 0, max_ok_ns: Some(u64::MAX) };
    assert_eq!(badness(&worse, &t).map(value), Some(1.0));
}

#[test]
fn smoothstep_is_exact() {
    let half = smoothstep(10, 20, 15);
    assert_eq!((half.num, half.den), (500, 1000));
    let low = smoothstep(10, 20, 3);
    assert_eq!(low.num, 0);
    let high = smoothstep(10, 20, 99);
    assert_eq!(high.num, high.den);
}

#[test]
fn bucketize_places_recent_on_right() {
    let now = clock();
    let samples = vec![
        Sample { at: now, result: PingResult::Reply(ms(5.0)) },
        Sample {
            at: now - BUCKET_SIZE * (BUCKET_COUNT as u64 - 1),
            result: PingResult::Reply(ms(5.0)),
        },
    ];
    let buckets = bucketize(&samples, now);
    assert_eq!(buckets.len(), BUCKET_COUNT);
    assert_eq!(buckets[BUCKET_COUNT - 1].max_ok_ns, Some(ms(5.0)));
    assert_eq!(buckets[0].max_ok_ns, Some(ms(5.0)));
}

#[test]
fn bucketize_counts_loss() {
    let now = clock();
    let samples = vec![
        Sample { at: now, result: PingResult::Reply(ms(5.0)) },
        Sample { at: now, result: PingResult::Reply(ms(40.0)) },
        Sample { at: now, result: PingResult::Timeout },
    ];
    let last = bucketize(&samples, now)[BUCKET_COUNT - 1];
    assert_eq!(last.samples, 3);
    assert_eq!(last.failed, 1);
    assert_eq!(last.max_ok_ns, Some(ms(40.0)));
    assert!((value(last.loss_rate()) - 1.0 / 3.0).abs() < 1e-9);
}

#[test]
fn bucketize_ignores_pending_and_counts_errors() {
    let now = clock();
    let samples = vec![
        Sample { at: now, result: PingResult::Pending },
        Sample { at: now, result: PingResult::Error("no route".to_string()) },
    ];
    let last = bucketize(&samples, now)[BUCKET_COUNT - 1];
    assert_eq!(last, BucketInfo { samples: 1, failed: 1, max_ok_ns: None });
    assert_eq!(value(BucketInfo::empty().loss_rate()), 0.0);
}

#[test]
fn bucketize_splits_at_slot_bounds() {
    let now = clock();
    let just_inside = Sample { at: now - (BUCKET_SIZE - 1), result: PingResult::Reply(1) };
    let on_the_bound = Sample { at: now - BUCKET_SIZE, result: PingResult::Reply(2) };
    let ahead = Sample { at: now + 5, result: PingResult::Reply(3) };
    let buckets = bucketize(&[just_inside, on_the_bound, ahead], now);
    assert_eq!(buckets[BUCKET_COUNT - 1], BucketInfo { samples: 2, failed: 0, max_ok_ns: Some(3) });
    assert_eq!(buckets[BUCKET_COUNT - 2], BucketInfo { samples: 1, failed: 0, max_ok_ns: Some(2) });
}

#[test]
fn a_sparkline_is_thirty_slots_of_ten_seconds() {
    assert_eq!(BUCKET_COUNT, 30);
    assert_eq!(BUCKET_SIZE, 10 * SEC);
    let buckets = bucketize(&[sample(299, PingResult::Reply(7)), sample(25, PingResult::Timeout)], clock());
    assert_eq!(buckets.len(), 30);
    assert_eq!(buckets[0].max_ok_ns, Some(7));
    assert_eq!(buckets[27].failed, 1);
    assert!(bucketize(&[sample(300, PingResult::Timeout)], clock()).iter().all(|b| b.is_empty()));
}

#[test]
fn order_and_pending_samples_do_not_matter() {
    let a = [
        sample(3, PingResult::Reply(5)),
        sample(4, PingResult::Timeout),
        sample(50, PingResult::Reply(9)),
        sample(2, PingResult::Reply(8)),
    ];
    let b = [
        sample(50, PingResult::Reply(9)),
        sample(2, PingResult::Reply(8)),
        sample(1, PingResult::Pending),
        sample(4, PingResult::Timeout),
        sample(80, PingResult::Pending),
        sample(3, PingResult::Reply(5)),
    ];
    assert_eq!(bucketize(&a, clock()), bucketize(&b, clock()));
    assert!(bucketize(&b, clock())[BUCKET_COUNT - 1 - 8].is_empty());
}

#[test]
fn equal_ratios_score_alike() {
    // 140 ms at 30 ms and 210 ms at 45 ms: both are half way.
    let mut t = Tolerance::new();
    set_tolerance_ms(&mut t, 45_000_000);
    let a = BucketInfo { samples: 1, failed: 0, max_ok_ns: Some(ms(140.0)) };
    let b = BucketInfo { samples: 1, failed: 0, max_ok_ns: Some(ms(210.0)) };
    let (x, y) = (badness(&a, &Tolerance::new()).unwrap(), badness(&b, &t).unwrap());
    assert!(!is_less(x, y) && !is_less(y, x));
}

#[test]
fn drops_old_samples() {
    let now = clock();
    let beyond = BUCKET_SIZE / SEC * BUCKET_COUNT as u64 + 10;
    let too_old = sample(beyond, PingResult::Reply(ms(5.0)));
    let buckets = bucketize(&[too_old], now);
    assert!(buckets.iter().all(|b| b.is_empty()));
}

#[test]
fn best_of_picks_lowest_badness() {
    let fast_clean = BucketInfo { samples: 10, failed: 0, max_ok_ns: Some(ms(10.0)) };
    let lossy = BucketInfo { samples: 10, failed: 5, max_ok_ns: Some(ms(10.0)) };
    let empty = BucketInfo::empty();
    let agg = best_of(&[vec![lossy; 1], vec![fast_clean; 1], vec![empty; 1]], &Tolerance::new());
    assert_eq!(agg[0], fast_clean);
}

#[test]
fn best_of_takes_the_first_of_equals() {
    let a = BucketInfo { samples: 10, failed: 0, max_ok_ns: Some(ms(10.0)) };
    let b = BucketInfo { samples: 3, failed: 0, max_ok_ns: Some(ms(20.0)) };
    let agg = best_of(&[vec![b], vec![a]], &Tolerance::new());
    assert_eq!(agg, vec![b]);
}

#[test]
fn best_of_is_as_long_as_the_shortest_row() {
    let a = BucketInfo { samples: 1, failed: 1, max_ok_ns: None };
    let agg = best_of(&[vec![a; 3], vec![BucketInfo::empty(); 2]], &Tolerance::new());
    assert_eq!(agg, vec![a; 2]);
    assert!(best_of(&[], &Tolerance::new()).is_empty());
    let nothing = best_of(&[vec![BucketInfo::empty()], vec![BucketInfo::empty()]], &Tolerance::new());
    assert_eq!(nothing, vec![BucketInfo::empty()]);
}

#[test]
fn best_of_turns_bad_only_when_all_do() {
    let dead = BucketInfo { samples: 4, failed: 4, max_ok_ns: None };
    let slow = BucketInfo { samples: 4, failed: 0, max_ok_ns: Some(ms(400.0)) };
    let fine = BucketInfo { samples: 4, failed: 0, max_ok_ns: Some(ms(12.0)) };
    let t = Tolerance::new();
    let up = best_of(&[vec![dead], vec![slow], vec![fine]], &t);
    assert_eq!(badness(&up[0], &t).map(value), Some(0.0));
    let down = best_of(&[vec![dead], vec![slow]], &t);
    assert_eq!(badness(&down[0], &t).map(value), Some(1.0));
}

#[test]
fn tolerance_scales_both_thresholds() {
    let mut t = Tolerance::new();
    set_tolerance_ms(&mut t, 60_000_000);
    assert_eq!(t.thresholds(), (180_000_000, 1_500_000_000));
    let b = BucketInfo { samples: 1, failed: 0, max_ok_ns: Some(ms(280.0)) };
    assert!((value(badness(&b, &t).unwrap()) - 0.5).abs() < 1e-12);
    let fine = BucketInfo { samples: 1, failed: 0, max_ok_ns: Some(ms(60.0)) };
    assert_eq!(badness(&fine, &t).map(value), Some(0.0));
}

#[test]
fn higher_tolerance_scores_no_worse() {
    let b = BucketInfo { samples: 1, failed: 0, max_ok_ns: Some(ms(140.0)) };
    let mut strict = Tolerance::new();
    set_tolerance_ms(&mut strict, 20_000_000);
    let mut tolerant = Tolerance::new();
    set_tolerance_ms(&mut tolerant, 100_000_000);
    let (s, t) = (badness(&b, &strict).unwrap(), badness(&b, &tolerant).unwrap());
    assert!(is_less(t, s));
    assert!(!is_less(s, t));
}

#[test]
fn tolerance_falls_back_to_the_default() {
    let mut t = Tolerance::new();
    set_tolerance_ms(&mut t, 200_000_000);
    assert_eq!(t.good_ns, 200_000_000);
    set_tolerance_ms(&mut t, 500_000);
    assert_eq!(t.good_ns, 500_000);
    set_tolerance_ms(&mut t, 0);
    assert_eq!(t, Tolerance::new());
    set_tolerance_ms(&mut t, -5);
    assert_eq!(t.good_ns, 30_000_000);
}

#[test]
fn fractions_compare_without_overflow() {
    let big = Fraction { num: u128::MAX, den: u128::MAX - 1 };
    let one = Fraction { num: u128::MAX, den: u128::MAX };
    assert!(is_less(one, big));
    assert!(!is_less(big, one));
    assert!(!is_less(one, Fraction { num: 3, den: 3 }));
    assert!(is_less(Fraction { num: 1, den: 3 }, Fraction { num: 34, den: 100 }));
    assert!(!is_less(Fraction { num: 0, den: 7 }, Fraction { num: 0, den: 9 }));
}
