use sfmtory::pipeline::RunState;
use sfmtory::progress::{human_secs, Progress};

/// A duration of so many seconds, as it is shown.
fn shown(s: f64) -> String {
    if !s.is_finite() || s < 0.0 {
        return human_secs(None, "");
    }
    human_secs(Some(s.round() as u64), &format!("{s:.1}"))
}

#[test]
fn durations_read_as_two_units() {
    assert_eq!(shown(9.3), "9.3s");
    assert_eq!(shown(59.0), "59.0s");
    assert_eq!(shown(60.0), "1m00s");
    assert_eq!(shown(761.0), "12m41s");
    assert_eq!(shown(3599.0), "59m59s");
    assert_eq!(shown(3600.0), "1h00m");
    assert_eq!(shown(12683.0), "3h31m");
    assert_eq!(shown(f64::NAN), "?");
}

#[test]
fn every_item_is_counted_and_the_last_one_always_prints() {
    let mut p = Progress::new(250);
    let mut last = false;
    for _ in 0..250 {
        last = p.tick(0);
    }
    assert_eq!(p.done, 250);
    assert!(last);
    // step is total/100, so the final tick lands on the exact total even
    // when it is not a multiple of the step.
    let mut p = Progress::new(7);
    for _ in 0..7 {
        last = p.tick(0);
    }
    assert_eq!(p.done, 7);
    assert!(last);
}

#[test]
fn lines_are_spaced_in_count_and_time() {
    let mut p = Progress::new(500);
    assert_eq!(p.step, 5);
    // Not yet a step, and then a step too soon after the start.
    for _ in 0..4 {
        assert!(!p.tick(100_000));
    }
    assert!(p.tick(100_000));
    for _ in 0..5 {
        assert!(!p.tick(100_001));
    }
    assert_eq!(p.last_ms, 100_000);
}

#[test]
fn a_run_is_logged_and_only_one_at_a_time() {
    let mut state = RunState::new();
    assert!(!state.is_running());
    let args = vec!["map".to_string(), "--force".to_string()];
    assert!(state.begin(&args, "/data/set"));
    assert!(state.is_running());
    assert_eq!(state.last_stage, "map");
    assert_eq!(state.log.len(), 1);
    assert!(state.log[0].contains("map --force"), "{}", state.log[0]);
    assert!(!state.begin(&args, "/data/set"));
    assert_eq!(state.log.len(), 1);
    state.push("working".to_string());
    state.end();
    assert!(!state.is_running());
    assert!(state.take_finished());
    assert!(!state.take_finished());
    assert_eq!(state.log[1], "working");
}

#[test]
fn the_log_keeps_its_latest_lines() {
    let mut state = RunState::new();
    for i in 0..5000 {
        state.push(format!("line {i}"));
    }
    assert_eq!(state.log.last().unwrap(), "line 4999");
    assert!(state.log.len() < 5000);
    let first: usize = state.log[0]["line ".len()..].parse().unwrap();
    assert_eq!(first + state.log.len(), 5000);
}
