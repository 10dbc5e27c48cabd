use touch_maze::geometry::Point;
use touch_maze::gt911::{
    pointer_event, read_touch, TouchEvent, TouchSampler, TouchState, GT911_I2C_SLAVE_ADDR,
    MIN_POLL_INTERVAL_MS,
};

fn sample(x: i16, y: i16, pressed: bool) -> TouchState {
    TouchState { x, y, pressed }
}

#[test]
fn constants() {
    assert_eq!(GT911_I2C_SLAVE_ADDR, 0x5D);
    assert_eq!(MIN_POLL_INTERVAL_MS, 10);
}

#[test]
fn default_state_is_idle() {
    assert_eq!(TouchState::default(), sample(0, 0, false));
}

#[test]
fn debounce_collapses_repeated_presses() {
    let script = [
        sample(1, 1, true),
        sample(1, 1, true),
        sample(1, 1, true),
        sample(1, 1, false),
        sample(2, 2, true),
    ];
    let mut sampler = TouchSampler::new();
    let mut events = Vec::new();
    let mut now = 100;
    for raw in script {
        if let Some(event) = sampler.poll(now, raw) {
            events.push(event);
        }
        now += MIN_POLL_INTERVAL_MS;
    }
    assert_eq!(
        events,
        vec![
            TouchEvent::Pressed(Point { x: 1, y: 1 }),
            TouchEvent::Released,
            TouchEvent::Pressed(Point { x: 2, y: 2 }),
        ]
    );
}

#[test]
fn debounce_reports_each_change_once() {
    let script = [
        sample(1, 1, true),
        sample(1, 1, true),
        sample(1, 1, true),
        sample(1, 1, false),
        sample(2, 2, true),
    ];
    let mut sampler = TouchSampler::new();
    let mut reports = Vec::new();
    let mut now = 0;
    for raw in script {
        if let Some(state) = read_touch(&mut sampler, now, raw) {
            reports.push(state);
        }
        now += 10;
    }
    assert_eq!(reports, vec![sample(1, 1, true), sample(1, 1, false), sample(2, 2, true)]);
    for pair in reports.windows(2) {
        assert_ne!(pair[0], pair[1]);
    }
}

#[test]
fn first_poll_compares_with_the_idle_state() {
    let mut sampler = TouchSampler::new();
    assert!(sampler.due(0));
    assert_eq!(read_touch(&mut sampler, 0, sample(0, 0, false)), None);
    assert_eq!(sampler.last_poll, Some(0));
    let mut other = TouchSampler::new();
    assert_eq!(other.poll(0, sample(0, 0, true)), Some(TouchEvent::Pressed(Point { x: 0, y: 0 })));
}

#[test]
fn rate_limit_skips_the_second_poll() {
    let mut sampler = TouchSampler::new();
    assert_eq!(
        sampler.poll(50, sample(3, 4, true)),
        Some(TouchEvent::Pressed(Point { x: 3, y: 4 }))
    );
    assert!(!sampler.due(59));
    // Whatever the controller would say now is not looked at.
    assert_eq!(sampler.poll(59, sample(9, 9, false)), None);
    assert_eq!(sampler.last_poll, Some(50));
    assert_eq!(sampler.last_state, sample(3, 4, true));
    assert_eq!(read_touch(&mut sampler, 55, sample(7, 7, true)), None);
    assert_eq!(sampler.last_state, sample(3, 4, true));
    assert!(sampler.due(60));
    assert_eq!(sampler.poll(60, sample(9, 9, false)), Some(TouchEvent::Released));
    assert_eq!(sampler.last_poll, Some(60));
}

#[test]
fn a_clock_that_runs_backwards_reads_nothing() {
    let mut sampler = TouchSampler::new();
    assert_eq!(read_touch(&mut sampler, 100, sample(1, 1, true)), Some(sample(1, 1, true)));
    assert!(!sampler.due(20));
    assert_eq!(read_touch(&mut sampler, 20, sample(5, 5, true)), None);
    assert_eq!(sampler.last_poll, Some(100));
}

#[test]
fn the_cache_is_updated_on_every_read() {
    let mut sampler = TouchSampler::new();
    assert_eq!(read_touch(&mut sampler, 0, sample(1, 1, true)), Some(sample(1, 1, true)));
    assert_eq!(read_touch(&mut sampler, 10, sample(1, 1, true)), None);
    assert_eq!(sampler.last_poll, Some(10));
    assert_eq!(sampler.last_state, sample(1, 1, true));
    assert_eq!(read_touch(&mut sampler, 19, sample(2, 2, true)), None);
    assert_eq!(read_touch(&mut sampler, 20, sample(2, 2, true)), Some(sample(2, 2, true)));
}

#[test]
fn a_held_touch_that_moves_is_a_move() {
    let mut sampler = TouchSampler::new();
    assert_eq!(
        sampler.poll(0, sample(10, 10, true)),
        Some(TouchEvent::Pressed(Point { x: 10, y: 10 }))
    );
    assert_eq!(
        sampler.poll(10, sample(11, 10, true)),
        Some(TouchEvent::Moved(Point { x: 11, y: 10 }))
    );
    assert_eq!(sampler.poll(20, sample(11, 10, true)), None);
    assert_eq!(sampler.poll(30, sample(11, 10, false)), Some(TouchEvent::Released));
}

#[test]
fn a_lifted_touch_that_drifts_is_no_event() {
    let mut sampler = TouchSampler::new();
    assert_eq!(read_touch(&mut sampler, 0, sample(4, 4, false)), Some(sample(4, 4, false)));
    let mut other = TouchSampler::new();
    assert_eq!(other.poll(0, sample(4, 4, false)), None);
    assert_eq!(other.last_state, sample(4, 4, false));
}

#[test]
fn pointer_event_names_the_edge() {
    let up = sample(5, 6, false);
    let down = sample(5, 6, true);
    let moved = sample(-7, 6, true);
    assert_eq!(pointer_event(up, down), Some(TouchEvent::Pressed(Point { x: 5, y: 6 })));
    assert_eq!(pointer_event(down, moved), Some(TouchEvent::Moved(Point { x: -7, y: 6 })));
    assert_eq!(pointer_event(moved, up), Some(TouchEvent::Released));
    assert_eq!(pointer_event(down, down), None);
    assert_eq!(pointer_event(up, sample(1, 1, false)), None);
}
