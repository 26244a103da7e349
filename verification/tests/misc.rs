use scorch::cli::Flags;
use scorch::literals::{parse_bool, parses_as_float};
use scorch::timewindow::TimeWindow;
use std::time::Duration;

#[test]
fn float_literals() {
    for s in ["1", "1.5", "1.", ".5", "+2", "-2.5e10", "1E-3", "inf", "-Infinity", "NaN", "007"] {
        assert!(parses_as_float(s), "{} should read as a float", s);
        assert!(s.parse::<f64>().is_ok());
    }
    for s in ["", ".", "1.2.3", "e5", "1e", "1e+", "--1", "infin", "1a", " 1"] {
        assert!(!parses_as_float(s), "{} should not read as a float", s);
        assert!(s.parse::<f64>().is_err());
    }
}

#[test]
fn bool_literals() {
    assert_eq!(parse_bool("true"), Some(true));
    assert_eq!(parse_bool("false"), Some(false));
    assert_eq!(parse_bool("True"), None);
    assert_eq!(parse_bool(""), None);
}

#[test]
fn flags_from_arguments() {
    let args = vec!["prog".to_string(), "dump".to_string()];
    let f = Flags::new("/root".to_string(), &args);
    assert_eq!(f.proj_root, "/root");
    assert!(f.dump);
    assert!(!f.cli);
    assert!(!f.no_interpret);
    let args = vec!["cli".to_string(), "no-interpret".to_string()];
    let f = Flags::new(String::new(), &args);
    assert!(!f.dump);
    assert!(f.cli);
    assert!(f.no_interpret);
}

#[test]
fn no_windows_no_average() {
    let w = TimeWindow::new();
    assert_eq!(w.get_average_duration(), None);
}

#[test]
fn average_of_recorded_windows() {
    let mut w = TimeWindow::new();
    w.record(1_000);
    w.record(3_000);
    assert_eq!(w.get_average_duration(), Some(Duration::from_nanos(2_000)));
    w.record(2_500_000_001);
    assert_eq!(w.get_average_duration(), Some(Duration::new(0, 833_334_667)));
    assert_eq!(w.get_average_duration(), Some(Duration::from_nanos(2_500_004_001) / 3));
}

#[test]
fn closing_without_opening_changes_nothing() {
    let mut w = TimeWindow::new();
    assert!(w.close_window());
    assert_eq!(w.get_average_duration(), None);
}

#[test]
fn open_then_close_counts_one_window() {
    let mut w = TimeWindow::new();
    w.open_window();
    w.open_window();
    assert!(w.close_window());
    assert!(w.get_average_duration().is_some());
    w.record(0);
    assert!(w.get_average_duration().is_some());
}

#[test]
fn recording_respects_the_bounds() {
    let mut w = TimeWindow::new();
    assert!(w.record_elapsed(10));
    assert!(w.record_elapsed(30));
    assert_eq!(w.get_average_duration(), Some(Duration::from_nanos(20)));
    assert!(!w.record_elapsed(u128::MAX));
    assert_eq!(w.get_average_duration(), Some(Duration::from_nanos(20)));
    let max = 18_446_744_073_709_551_615_999_999_999u128;
    assert!(w.record_elapsed(max - 40));
    assert!(!w.record_elapsed(1));
}

#[test]
fn closing_an_open_window_records_it() {
    let mut w = TimeWindow::new();
    w.open_window();
    let since = std::time::Instant::now();
    while since.elapsed() < Duration::from_millis(2) {}
    assert!(w.close_window());
    let average = w.get_average_duration().unwrap();
    assert!(average >= Duration::from_millis(2));
    assert!(w.close_window());
    assert_eq!(w.get_average_duration(), Some(average));
}

#[test]
fn average_over_open_and_close_calls() {
    let started = std::time::Instant::now();
    let mut w = TimeWindow::new();
    assert!(w.close_window());
    assert_eq!(w.get_average_duration(), None);
    w.open_window();
    w.open_window();
    assert!(w.close_window());
    assert!(w.close_window());
    w.open_window();
    assert!(w.close_window());
    let whole = started.elapsed();
    let average = w.get_average_duration().unwrap();
    assert!(average * 2 <= whole);
}

#[test]
fn average_is_whole_nanoseconds() {
    let mut w = TimeWindow::new();
    assert!(w.record_elapsed(1_000_000_007));
    assert!(w.record_elapsed(2_000_000_000));
    assert_eq!(w.get_average_duration().unwrap().as_nanos(), 1_500_000_003);
}
