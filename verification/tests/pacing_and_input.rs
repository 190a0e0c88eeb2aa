use crossterm::event::KeyCode;
use engine::pacer::pause_before_tick;
use engine::pacer::MIN_FRAME_NANOS;
use engine::Input;

#[test]
fn shortest_frame_is_forty_milliseconds() {
    assert_eq!(MIN_FRAME_NANOS, 40_000_000);
}

#[test]
fn early_tick_waits_for_the_rest_of_the_frame() {
    assert_eq!(pause_before_tick(0), 40_000_000);
    assert_eq!(pause_before_tick(1), 39_999_999);
    assert_eq!(pause_before_tick(15_000_000), 25_000_000);
    assert_eq!(pause_before_tick(39_999_999), 1);
}

#[test]
fn late_tick_does_not_wait() {
    assert_eq!(pause_before_tick(40_000_000), 0);
    assert_eq!(pause_before_tick(40_000_001), 0);
    assert_eq!(pause_before_tick(u64::MAX), 0);
}

#[test]
fn tick_starts_are_a_frame_apart() {
    for elapsed in [0u64, 1, 999, 20_000_000, 39_999_999, 40_000_000, 90_000_000] {
        assert!(elapsed + pause_before_tick(elapsed) >= MIN_FRAME_NANOS);
    }
}

#[test]
fn input_starts_without_keys() {
    let input = Input::new();
    assert_eq!(input.current_input, None);
    assert_eq!(input.last_input, None);
    assert!(!input.quit_requested());
}

#[test]
fn input_keeps_the_key_of_the_tick_before() {
    let mut input = Input::new();
    input.advance(Some(KeyCode::Left));
    assert_eq!(input.current_input, Some(KeyCode::Left));
    assert_eq!(input.last_input, None);
    input.advance(None);
    assert_eq!(input.current_input, None);
    assert_eq!(input.last_input, Some(KeyCode::Left));
    input.advance(Some(KeyCode::Up));
    assert_eq!(input.current_input, Some(KeyCode::Up));
    assert_eq!(input.last_input, None);
}

#[test]
fn only_the_latest_q_asks_to_quit() {
    let mut input = Input::new();
    input.advance(Some(KeyCode::Char('q')));
    assert!(input.quit_requested());
    input.advance(Some(KeyCode::Char('Q')));
    assert!(!input.quit_requested());
    input.advance(Some(KeyCode::Esc));
    assert!(!input.quit_requested());
    input.advance(None);
    assert!(!input.quit_requested());
    input.advance(Some(KeyCode::F(1)));
    assert!(!input.quit_requested());
}
