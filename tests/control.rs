use goat::control::{AppState, Decision, Event, TICK_MILLIS};
use goat::keymapping::parse_mappings;
use goat::timer::{duration_as_millis, TimeSpan};

fn span_ms(ms: u64) -> TimeSpan {
    TimeSpan { secs: ms / 1000, subsec_nanos: ((ms % 1000) * 1_000_000) as u32 }
}

fn state(secs: u64, entries: &[&str]) -> AppState {
    let table = parse_mappings(entries.iter().map(|e| e.to_string()).collect()).unwrap();
    AppState::new(TimeSpan { secs, subsec_nanos: 0 }, table, "GOAT".to_string())
}

#[test]
fn millis_of_span() {
    assert_eq!(duration_as_millis(&TimeSpan { secs: 2, subsec_nanos: 345_678_901 }), 2345);
    assert_eq!(duration_as_millis(&TimeSpan { secs: 0, subsec_nanos: 999_999 }), 0);
}

#[test]
fn percent_is_floor_of_millis_ratio() {
    let s = state(3, &[]);
    assert_eq!(s.progress_in_percent(&span_ms(0)), 0);
    assert_eq!(s.progress_in_percent(&span_ms(1000)), 33);
    assert_eq!(s.progress_in_percent(&span_ms(1500)), 50);
    assert_eq!(s.progress_in_percent(&span_ms(2999)), 99);
    assert_eq!(s.progress_in_percent(&span_ms(3000)), 100);
    assert_eq!(s.progress_in_percent(&span_ms(9000)), 100);
}

#[test]
fn percent_never_decreases() {
    let s = state(7, &[]);
    let mut last: u16 = 0;
    for ms in (0..10_000).step_by(37) {
        let p = s.progress_in_percent(&span_ms(ms));
        assert!(p >= last);
        assert!(p <= 100);
        last = p;
    }
    assert_eq!(last, 100);
}

#[test]
fn percent_with_zero_duration() {
    let s = state(0, &[]);
    assert_eq!(s.progress_in_percent(&span_ms(0)), 0);
    assert_eq!(s.progress_in_percent(&span_ms(1)), 100);
}

#[test]
fn expiry_is_strict() {
    let s = state(2, &[]);
    assert!(!s.at_end(&span_ms(2000)));
    assert!(s.at_end(&TimeSpan { secs: 2, subsec_nanos: 1 }));
    assert!(!s.at_end(&TimeSpan { secs: 1, subsec_nanos: 999_999_999 }));
    assert!(s.at_end(&span_ms(3000)));
}

#[test]
fn frame_shows_percent_and_seconds() {
    let s = state(4, &[]);
    let f = s.frame(&span_ms(2500));
    assert_eq!(f.percent, 62);
    assert_eq!(f.elapsed_secs, 2);
    assert_eq!(f.total_secs, 4);
}

#[test]
fn runs_to_expiry_without_keys() {
    let s = state(2, &[]);
    let mut t: u64 = 0;
    let mut outcome = None;
    while t <= 10_000 {
        match s.handle(Event::Tick, &span_ms(t)) {
            Decision::Redraw => {}
            other => {
                outcome = Some((t, other));
                break;
            }
        }
        t += TICK_MILLIS;
    }
    let (stopped_at, decision) = outcome.unwrap();
    assert_eq!(decision, Decision::Exit(0));
    assert!(stopped_at > 2000 && stopped_at <= 2000 + TICK_MILLIS);
}

#[test]
fn bound_key_stops_with_its_code() {
    let s = state(10, &["65:a:custom"]);
    assert_eq!(s.handle(Event::Tick, &span_ms(0)), Decision::Redraw);
    assert_eq!(s.handle(Event::Input('a'), &span_ms(700)), Decision::Exit(65));
}

#[test]
fn abort_key_stops_with_one() {
    let s = state(10, &[]);
    assert_eq!(s.handle(Event::Input('q'), &span_ms(100)), Decision::Exit(1));
    assert_eq!(s.handle(Event::Input('c'), &span_ms(100)), Decision::Exit(0));
}

#[test]
fn unbound_key_is_ignored() {
    let s = state(10, &[]);
    assert_eq!(s.handle(Event::Input('z'), &span_ms(100)), Decision::Ignore);
    assert_eq!(s.handle(Event::Input('z'), &span_ms(20_000)), Decision::Ignore);
}

#[test]
fn bad_mapping_stops_before_the_loop() {
    let r = parse_mappings(vec!["60:x:bad".to_string()]);
    assert!(r.is_err());
}
