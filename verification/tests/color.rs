use raytracer::color::{channel, rgb};
use raytracer::math::Clamp;

fn level(v: f32) -> i64 {
    (v * 255.0).round() as i64
}

#[test]
fn clamp_forces_into_range() {
    assert_eq!(Clamp::clamp(5i64, 0, 10), 5);
    assert_eq!(Clamp::clamp(-5i64, 0, 10), 0);
    assert_eq!(Clamp::clamp(15i64, 0, 10), 10);
    assert_eq!(Clamp::clamp(0i64, 0, 10), 0);
    assert_eq!(Clamp::clamp(10i64, 0, 10), 10);
}

#[test]
fn clamp_with_crossed_bounds_gives_the_lower() {
    assert_eq!(Clamp::clamp(5i64, 10, 0), 10);
    assert_eq!(Clamp::clamp(-5i64, 10, 0), 10);
    assert_eq!(Clamp::clamp(50i64, 10, 0), 10);
}

#[test]
fn channel_bytes() {
    assert_eq!(channel(0), 0);
    assert_eq!(channel(255), 255);
    assert_eq!(channel(128), 128);
    assert_eq!(channel(-1), 0);
    assert_eq!(channel(256), 255);
    assert_eq!(channel(i64::MIN), 0);
    assert_eq!(channel(i64::MAX), 255);
}

#[test]
fn levels_are_scaled_rounded_and_clamped() {
    assert_eq!(channel(level(0.5)), 128);
    assert_eq!(channel(level(1.0)), 255);
    assert_eq!(channel(level(0.0)), 0);
    assert_eq!(channel(level(1.5)), 255);
    assert_eq!(channel(level(-0.25)), 0);
    assert_eq!(channel(level(0.530)), 135);
    assert_eq!(rgb(level(1.0), level(0.0), level(0.5)), (255, 0, 128));
    assert_eq!(rgb(300, -3, 7), (255, 0, 7));
}
