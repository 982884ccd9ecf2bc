use caryatid::clock::{clock_topic, ClockState};

#[test]
fn ticks_are_numbered_from_zero() {
    let mut c = ClockState::new();
    let a = c.tick(0);
    let b = c.tick(1_000_000);
    let d = c.tick(2_000_000);
    assert_eq!(a.number, 0);
    assert_eq!(b.number, a.number + 1);
    assert_eq!(d.number, 2);
    assert_eq!(b.elapsed_micros - a.elapsed_micros, 1_000_000);
}

#[test]
fn clock_topic_defaults() {
    assert_eq!(clock_topic(None), "clock.tick");
    assert_eq!(clock_topic(Some("tick".to_string())), "tick");
}
