use mythos::clock::{must_stop, time_budget, SearchLimits};
use mythos::types::Color;

#[test]
fn a_given_time_is_used_as_it_is() {
    let limits = SearchLimits { movetime_ms: Some(1000), ..SearchLimits::default() };
    assert_eq!(time_budget(Color::White, &limits), Some(1000));
    let limits = SearchLimits {
        movetime_ms: Some(3),
        infinite: true,
        wtime: Some(60_000),
        winc: Some(1000),
        ..SearchLimits::default()
    };
    assert_eq!(time_budget(Color::White, &limits), Some(3));
}

#[test]
fn the_clock_is_shared_out() {
    // A twentieth of the clock and half the increment.
    let limits = SearchLimits {
        wtime: Some(60_000),
        winc: Some(1000),
        btime: Some(400),
        binc: Some(10_000),
        ..SearchLimits::default()
    };
    assert_eq!(time_budget(Color::White, &limits), Some(3500));
    // Never more than two fifths of what is left.
    assert_eq!(time_budget(Color::Black, &limits), Some(160));
    // And never less than a little.
    let limits = SearchLimits { wtime: Some(4), ..SearchLimits::default() };
    assert_eq!(time_budget(Color::White, &limits), Some(5));
}

#[test]
fn without_a_clock_there_is_no_budget() {
    assert_eq!(time_budget(Color::White, &SearchLimits::default()), None);
    let limits = SearchLimits { infinite: true, wtime: Some(1000), ..SearchLimits::default() };
    assert_eq!(time_budget(Color::White, &limits), None);
}

#[test]
fn a_search_stops_for_each_reason() {
    assert!(!must_stop(false, 10, Some(11), 10, Some(11)));
    assert!(must_stop(true, 0, None, 0, None));
    assert!(must_stop(false, 11, Some(11), 0, None));
    assert!(must_stop(false, 0, None, 11, Some(11)));
}
