use thermocouple_logger::capture::{
    channel_name, worker_step, Capture, ChannelStats, Sample, State, WorkerStep, PAUSE_POLL_MS,
};

fn sample(elapsed: u64, temps: [Option<i16>; 4]) -> Sample {
    Sample { elapsed, temps }
}

#[test]
fn new_session_is_idle_and_empty() {
    let c = Capture::new();
    assert_eq!(c.state(), State::Idle);
    assert_eq!(c.error(), None);
    assert_eq!(c.elapsed(12345), 0);
    let (s, m) = c.snapshot();
    assert!(s.is_empty());
    assert!(m.is_empty());
}

#[test]
fn start_clears_previous_data() {
    let mut c = Capture::new();
    c.start(0);
    c.record([Some(1), None, None, None], 10);
    c.add_marker("a".to_string(), 20);
    c.fail_open("gone");
    c.start(5000);
    assert_eq!(c.state(), State::Running);
    assert_eq!(c.error(), None);
    let (s, m) = c.snapshot();
    assert!(s.is_empty());
    assert!(m.is_empty());
    assert_eq!(c.elapsed(5000), 0);
    assert_eq!(c.elapsed(6250), 1250);
}

#[test]
fn pause_freezes_and_resume_continues() {
    let mut c = Capture::new();
    c.start(1_000);
    assert_eq!(c.elapsed(4_000), 3_000);
    c.pause(4_000);
    assert_eq!(c.state(), State::Paused);
    assert_eq!(c.elapsed(4_000), 3_000);
    assert_eq!(c.elapsed(60_000), 3_000);
    c.resume(10_000);
    assert_eq!(c.state(), State::Running);
    assert_eq!(c.elapsed(10_000), 3_000);
    assert_eq!(c.elapsed(12_500), 5_500);
    c.pause(13_000);
    c.resume(20_000);
    assert_eq!(c.elapsed(21_000), 7_000);
}

#[test]
fn clock_reading_before_start_counts_nothing() {
    let mut c = Capture::new();
    c.start(5_000);
    assert_eq!(c.elapsed(4_000), 0);
}

#[test]
fn stop_keeps_data() {
    let mut c = Capture::new();
    c.start(0);
    let s1 = sample(0, [Some(275), Some(273), Some(274), Some(275)]);
    c.record(s1.temps, 0);
    c.add_marker("contact".to_string(), 1_500);
    c.stop();
    assert_eq!(c.state(), State::Idle);
    let (s, m) = c.snapshot();
    assert_eq!(s.len(), 1);
    assert_eq!(s[0].temps, s1.temps);
    assert_eq!(m.len(), 1);
    assert_eq!(m[0].elapsed, 1_500);
    assert_eq!(m[0].label, "contact");
}

#[test]
fn markers_use_session_clock() {
    let mut c = Capture::new();
    c.start(100);
    c.pause(1_100);
    c.resume(5_100);
    c.add_marker("release".to_string(), 6_100);
    let (_, m) = c.snapshot();
    assert_eq!(m[0].elapsed, 2_000);
    assert_eq!(m[0].label, "release");
}

#[test]
fn open_failure_is_reported() {
    let mut c = Capture::new();
    c.start(0);
    c.fail_open("No such file or directory");
    assert_eq!(c.state(), State::Idle);
    assert_eq!(c.error(), Some("Failed to open port: No such file or directory".to_string()));
}

#[test]
fn worker_follows_state() {
    assert_eq!(worker_step(State::Idle), WorkerStep::Exit);
    assert_eq!(worker_step(State::Paused), WorkerStep::Wait { ms: PAUSE_POLL_MS });
    assert_eq!(PAUSE_POLL_MS, 50);
    assert_eq!(worker_step(State::Running), WorkerStep::Read);
}

#[test]
fn channel_names() {
    let names: Vec<&str> = (0..4).map(channel_name).collect();
    assert_eq!(names, vec!["T1", "T2", "T3", "T4"]);
}

#[test]
fn stats_skip_open_circuit() {
    let samples = vec![
        sample(0, [Some(250), None, Some(-10), None]),
        sample(1000, [Some(310), None, Some(-30), None]),
        sample(2000, [Some(280), None, None, None]),
        sample(3000, [None, None, Some(-20), None]),
    ];
    let t1 = ChannelStats::compute(&samples, 0);
    assert_eq!((t1.latest, t1.min, t1.max), (Some(280), Some(250), Some(310)));
    let t2 = ChannelStats::compute(&samples, 1);
    assert_eq!((t2.latest, t2.min, t2.max), (None, None, None));
    let t3 = ChannelStats::compute(&samples, 2);
    assert_eq!((t3.latest, t3.min, t3.max), (Some(-20), Some(-30), Some(-10)));
}

#[test]
fn stats_of_nothing() {
    let st = ChannelStats::compute(&[], 3);
    assert_eq!((st.latest, st.min, st.max), (None, None, None));
    let d = ChannelStats::default();
    assert_eq!((d.latest, d.min, d.max), (None, None, None));
}

#[test]
fn stats_bounds_hold() {
    let samples: Vec<Sample> = [5i16, -3, 12, 12, 0]
        .iter()
        .enumerate()
        .map(|(i, &v)| sample(i as u64, [Some(v); 4]))
        .collect();
    let st = ChannelStats::compute(&samples, 2);
    let (lo, last, hi) = (st.min.unwrap(), st.latest.unwrap(), st.max.unwrap());
    assert!(lo <= last && last <= hi);
    assert_eq!((lo, last, hi), (-3, 0, 12));
}

#[test]
fn samples_and_markers_share_one_time_axis() {
    let mut c = Capture::new();
    c.start(1_000);
    c.record([Some(200), None, None, None], 2_000);
    c.pause(3_000);
    c.resume(10_000);
    c.record([Some(210), None, None, None], 11_000);
    c.add_marker("contact".to_string(), 11_000);
    let (s, m) = c.snapshot();
    assert_eq!(s[0].elapsed, 1_000);
    assert_eq!(s[1].elapsed, 3_000);
    assert_eq!(m[0].elapsed, s[1].elapsed);
}

#[test]
fn stats_of_no_samples_accept_any_channel() {
    let st = ChannelStats::compute(&[], 9);
    assert_eq!((st.latest, st.min, st.max), (None, None, None));
}

#[test]
fn stats_ignore_order() {
    let a = vec![
        sample(0, [Some(5), None, None, None]),
        sample(1, [Some(-2), None, None, None]),
        sample(2, [Some(9), None, None, None]),
    ];
    let b = vec![a[2], a[0], a[1]];
    let sa = ChannelStats::compute(&a, 0);
    let sb = ChannelStats::compute(&b, 0);
    assert_eq!((sa.min, sa.max), (sb.min, sb.max));
    assert_eq!((sa.latest, sb.latest), (Some(9), Some(-2)));
}
