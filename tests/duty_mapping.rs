use servo_sequencer::duty::{
    to_duty, CalibratedRange, OutOfRange, DEFAULT_MAX_DIVISOR, DEFAULT_MIN_DIVISOR, MAX_ANGLE,
};

fn range() -> CalibratedRange {
    CalibratedRange::new(100, 800).unwrap()
}

#[test]
fn endpoints_map_to_range_ends() {
    let r = range();
    assert_eq!(to_duty(0, &r), Ok(100));
    assert_eq!(to_duty(180, &r), Ok(800));
}

#[test]
fn midpoint_is_interpolated() {
    assert_eq!(to_duty(90, &range()), Ok(450));
}

#[test]
fn interpolation_rounds_down() {
    // 1 * 700 / 180 = 3.88...
    assert_eq!(to_duty(1, &range()), Ok(103));
}

#[test]
fn out_of_range_angle_is_refused() {
    assert_eq!(to_duty(181, &range()), Err(OutOfRange { angle: 181 }));
    assert_eq!(to_duty(u32::MAX, &range()), Err(OutOfRange { angle: u32::MAX }));
}

#[test]
fn mapping_is_monotonic() {
    let r = CalibratedRange::new(409, 2047).unwrap();
    let mut prev = to_duty(0, &r).unwrap();
    for a in 1..=MAX_ANGLE {
        let d = to_duty(a, &r).unwrap();
        assert!(prev <= d);
        prev = d;
    }
}

#[test]
fn widest_range_does_not_overflow() {
    let r = CalibratedRange::new(0, u32::MAX).unwrap();
    assert_eq!(to_duty(180, &r), Ok(u32::MAX));
    assert_eq!(to_duty(179, &r), Ok(((179u64 * u32::MAX as u64) / 180) as u32));
}

#[test]
fn reversed_range_is_refused() {
    assert_eq!(CalibratedRange::new(800, 100), None);
    assert_eq!(
        CalibratedRange::new(5, 5),
        Some(CalibratedRange { min_duty: 5, max_duty: 5 })
    );
}

#[test]
fn range_from_full_duty() {
    // 14-bit resolution: full duty 16383.
    let r = CalibratedRange::from_max_duty(16383, DEFAULT_MIN_DIVISOR, DEFAULT_MAX_DIVISOR);
    assert_eq!(r, Some(CalibratedRange { min_duty: 409, max_duty: 2047 }));
    assert_eq!(CalibratedRange::from_max_duty(16383, 0, 8), None);
    assert_eq!(CalibratedRange::from_max_duty(16383, 8, 0), None);
    assert_eq!(CalibratedRange::from_max_duty(16383, 8, 40), None);
}
