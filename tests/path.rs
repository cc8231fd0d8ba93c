use raytracer::path::{ends_dark, next_state, path_state, Bounce, PathEnd, PathState};

#[test]
fn zero_depth_is_terminal_black() {
    assert_eq!(path_state(0), PathState::Done(PathEnd::Exhausted));
    assert!(ends_dark(PathEnd::Exhausted));
}

#[test]
fn positive_depth_traces() {
    assert_eq!(path_state(5), PathState::Tracing { depth: 5 });
}

#[test]
fn miss_ends_at_sky() {
    assert_eq!(next_state(3, Bounce::Missed), PathState::Done(PathEnd::Escaped));
    assert!(!ends_dark(PathEnd::Escaped));
}

#[test]
fn absorption_ends_dark() {
    assert_eq!(next_state(3, Bounce::Absorbed), PathState::Done(PathEnd::Absorbed));
    assert!(ends_dark(PathEnd::Absorbed));
}

#[test]
fn scatter_spends_one_bounce() {
    assert_eq!(next_state(3, Bounce::Scattered), PathState::Tracing { depth: 2 });
    assert_eq!(next_state(1, Bounce::Scattered), PathState::Done(PathEnd::Exhausted));
}

#[test]
fn path_stops_within_budget() {
    let mut state = path_state(4);
    let mut traced = 0;
    while let PathState::Tracing { depth } = state {
        traced += 1;
        state = next_state(depth, Bounce::Scattered);
    }
    assert_eq!(traced, 4);
    assert_eq!(state, PathState::Done(PathEnd::Exhausted));
}
