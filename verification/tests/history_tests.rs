use jev_sentinel::history::{
    history_points, DashboardHistory, ProbeObservation, Ring, Sample, SeriesStore, HISTORY_CAPACITY,
    VISIBLE_SAMPLES,
};

#[test]
fn ring_is_bounded_and_ordered_after_wrap() {
    assert_eq!(std::mem::size_of::<Sample>(), 40);
    let mut r = Ring::<u32, 3>::default();
    assert_eq!(r.recent(20).len(), 0);
    for i in 0..10 {
        r.push(i);
    }
    assert_eq!(r.recent(20), vec![7, 8, 9]);
    assert_eq!(r.recent(2), vec![8, 9]);
}

fn sample(t_ms: u64) -> Sample {
    Sample::from_parts(t_ms, true, Some(3000), None, Some(0), Some(10), None)
}

fn obs(id: &str, at_ns: u64, t_ms: u64) -> ProbeObservation {
    ProbeObservation { id: id.to_string(), observed_ns: Some(at_ns), sample: sample(t_ms) }
}

#[test]
fn zero_missing_and_timeout_are_distinct() {
    let s = Sample::from_parts(100, true, None, None, Some(0), Some(0), None);
    let p = s.point(false);
    assert_eq!(p.swap_mib, Some(0));
    assert_eq!(p.ram_used_bp, None);
    assert_eq!(p.latency_us, None);
    let timed_out = Sample::from_parts(200, false, None, None, None, None, None);
    assert_eq!(timed_out.point(false).latency_us, None);
    assert_eq!(timed_out.status, 0);
}

#[test]
fn http_polls_and_advisor_updates_cannot_refresh_observations() {
    let mut store = DashboardHistory::new(10);
    let snapshot = vec![obs("tcp_ping:one", 1_000, 0)];
    let view = store.observe(&snapshot);
    assert_eq!(view[0].history.len(), 1);
    assert_eq!(store.observe(&snapshot)[0].history.len(), 1);
}

#[test]
fn timeout_is_unknown_not_failed_and_restart_resets_history() {
    let mut a = DashboardHistory::new(60);
    let first = a.observe(&vec![obs("tcp_ping:one", 5, 0)]);
    assert_eq!(first[0].sequence, 1);
    let mut b = DashboardHistory::new(60);
    assert_eq!(b.observe(&vec![obs("tcp_ping:one", 5, 0)])[0].sequence, 1);
}

#[test]
fn long_gaps_are_explicit_and_api_never_exposes_more_than_twenty_samples() {
    let mut store = DashboardHistory::new(10);
    let second: u64 = 1_000_000_000;
    for i in 0..140u64 {
        let v = store.observe(&vec![obs("tcp_ping:one", 1 + i * 10 * second, i * 10_000)]);
        assert!(v[0].history.len() <= VISIBLE_SAMPLES);
    }
    let v = store.observe(&vec![obs("tcp_ping:one", 1 + 1500 * second, 1_500_000)]);
    assert!(v[0].history.last().unwrap().break_before);
    assert_eq!(v[0].sequence, 141);
    let mut series = SeriesStore::new();
    for i in 0..200u64 {
        series.observe(&"p".to_string(), Some(i + 1), sample(i));
    }
    let (seq, recent) = series.observe(&"p".to_string(), Some(1000), sample(1000));
    assert_eq!(seq, 201);
    assert_eq!(recent.len(), VISIBLE_SAMPLES);
    assert_eq!(HISTORY_CAPACITY, 128);
}

#[test]
fn histories_survive_reordering_but_not_removed_targets() {
    let mut store = DashboardHistory::new(10);
    let first = store.observe(&vec![obs("a", 10, 0), obs("b", 10, 0)]);
    assert_eq!(first[0].sequence, 1);
    assert_eq!(first[1].sequence, 1);
    let second = store.observe(&vec![obs("b", 20, 1), obs("a", 20, 1)]);
    assert_eq!(second[0].sequence, 2);
    assert_eq!(second[1].sequence, 2);
    store.observe(&vec![]);
    let again = store.observe(&vec![obs("a", 30, 2)]);
    assert_eq!(again[0].sequence, 1);
}

#[test]
fn older_or_repeated_observations_add_no_sample() {
    let mut series = SeriesStore::new();
    let id = "x".to_string();
    assert_eq!(series.observe(&id, Some(10), sample(1)).0, 1);
    assert_eq!(series.observe(&id, Some(10), sample(2)).0, 1);
    assert_eq!(series.observe(&id, Some(5), sample(3)).0, 1);
    assert_eq!(series.observe(&id, None, sample(4)).0, 1);
    let (seq, recent) = series.observe(&id, Some(11), sample(5));
    assert_eq!(seq, 2);
    assert_eq!(recent.len(), 2);
    assert_eq!(recent[1].t_ms, 5);
}

#[test]
fn history_points_mark_gaps_and_decode_valid_bits() {
    let samples = vec![sample(0), sample(5_000), sample(100_000)];
    let points = history_points(&samples, 30_000);
    assert!(!points[0].break_before);
    assert!(!points[1].break_before);
    assert!(points[2].break_before);
    assert_eq!(points[0].latency_us, Some(3000));
    assert_eq!(points[0].available_mib, None);
    assert_eq!(points[0].swap_mib, Some(0));
    let s = Sample::from_parts(7, true, Some(1), Some(2), Some(3), Some(4), Some(5));
    assert_eq!(s.valid, 31);
}
