use thermocouple_logger::capture::{ChannelStats, State};
use thermocouple_logger::readout::{
    can_export, can_mark, format_clock, format_interval, format_range, format_reading,
    format_window, must_stop, shows_clock, transport_actions, visible_range, TransportAction,
};

#[test]
fn clock_is_minutes_and_seconds() {
    assert_eq!(format_clock(0), "00:00");
    assert_eq!(format_clock(999), "00:00");
    assert_eq!(format_clock(65_000), "01:05");
    assert_eq!(format_clock(3_599_999), "59:59");
    assert_eq!(format_clock(6_000_000), "100:00");
}

#[test]
fn readout_texts() {
    assert_eq!(format_reading(Some(275)), "27.5 °C");
    assert_eq!(format_reading(Some(-5)), "-0.5 °C");
    assert_eq!(format_reading(None), "—");
    let st = ChannelStats { latest: Some(280), min: Some(250), max: Some(310) };
    assert_eq!(format_range(&st), Some("↓25.0  ↑31.0".to_string()));
    let none = ChannelStats { latest: None, min: None, max: None };
    assert_eq!(format_range(&none), None);
}

#[test]
fn control_labels() {
    assert_eq!(format_interval(500), "500ms");
    assert_eq!(format_window(0), "All");
    assert_eq!(format_window(120), "120s");
}

#[test]
fn plot_window() {
    assert_eq!(visible_range(Some(100_000), 30_000), Some((70_000, 100_000)));
    assert_eq!(visible_range(Some(10_000), 30_000), Some((0, 10_000)));
    assert_eq!(visible_range(Some(10_000), 0), None);
    assert_eq!(visible_range(None, 30_000), None);
}

#[test]
fn control_rules() {
    assert!(must_stop(State::Running, true));
    assert!(must_stop(State::Paused, true));
    assert!(!must_stop(State::Idle, true));
    assert!(!must_stop(State::Running, false));
    assert!(can_mark(State::Running));
    assert!(!can_mark(State::Paused));
    assert!(!can_mark(State::Idle));
    assert!(can_export(1));
    assert!(!can_export(0));
    assert!(shows_clock(State::Paused));
    assert!(!shows_clock(State::Idle));
}

#[test]
fn transport_controls_per_state() {
    assert_eq!(transport_actions(State::Idle), vec![TransportAction::Start]);
    assert_eq!(transport_actions(State::Running), vec![TransportAction::Pause, TransportAction::Stop]);
    assert_eq!(transport_actions(State::Paused), vec![TransportAction::Resume, TransportAction::Stop]);
}
