//! Mapping of servo angles onto the calibrated duty-cycle range.
use vstd::prelude::*;

verus! {

/// Largest angle of the servo's safe travel, in degrees.
pub const MAX_ANGLE: u32 = 180;

/// Divisor of the channel's full duty range giving the low end of travel
/// in the usual hobby-servo calibration (a 0.5 ms pulse at 50 Hz).
pub const DEFAULT_MIN_DIVISOR: u32 = 40;

/// Divisor of the channel's full duty range giving the high end of travel
/// in the usual hobby-servo calibration (a 2.5 ms pulse at 50 Hz).
pub const DEFAULT_MAX_DIVISOR: u32 = 8;

/// The sub-range of raw duty values that corresponds to the servo's travel
/// from 0 to `MAX_ANGLE` degrees.
#[derive(Clone, Copy, Debug, PartialEq, Eq)]
pub struct CalibratedRange {
    pub min_duty: u32,
    pub max_duty: u32,
}

/// An angle outside `0..=MAX_ANGLE`.
#[derive(Clone, Copy, Debug, PartialEq, Eq)]
pub struct OutOfRange {
    pub angle: u32,
}

/// Linear interpolation of `angle` between `min` and `max` over 180 degrees,
/// rounded down.
pub open spec fn duty_of(angle: int, min: int, max: int) -> int {
    angle * (max - min) / 180 + min
}

impl CalibratedRange {
    pub open spec fn wf(&self) -> bool {
        self.min_duty <= self.max_duty
    }

    /// The duty value that `angle` maps to in this range.
    pub open spec fn spec_duty(&self, angle: int) -> int {
        duty_of(angle, self.min_duty as int, self.max_duty as int)
    }

    /// A range with the given ends; `None` when `min_duty > max_duty`.
    pub fn new(min_duty: u32, max_duty: u32) -> (r: Option<CalibratedRange>)
        ensures
            min_duty <= max_duty <==> r is Some,
            r matches Some(c) ==> c.min_duty == min_duty && c.max_duty == max_duty && c.wf(),
    {
        if min_duty <= max_duty {
            Some(CalibratedRange { min_duty, max_duty })
        } else {
            None
        }
    }

    /// The range derived from a channel's full duty range `max_duty_total`:
    /// `max_duty_total / min_divisor` to `max_duty_total / max_divisor`.
    /// `None` when a divisor is zero or the ends come out reversed.
    pub fn from_max_duty(max_duty_total: u32, min_divisor: u32, max_divisor: u32) -> (r: Option<
        CalibratedRange,
    >)
        ensures
            r is Some <==> (min_divisor != 0 && max_divisor != 0 && max_duty_total / min_divisor
                <= max_duty_total / max_divisor),
            r matches Some(c) ==> c.min_duty == max_duty_total / min_divisor && c.max_duty
                == max_duty_total / max_divisor && c.wf(),
    {
        if min_divisor == 0 || max_divisor == 0 {
            return None;
        }
        CalibratedRange::new(max_duty_total / min_divisor, max_duty_total / max_divisor)
    }
}

/// Lower and upper bounds of the interpolation, used to show the result fits
/// in `u32`.
proof fn lemma_duty_bounds(angle: int, min: int, max: int)
    requires
        0 <= angle <= 180,
        0 <= min <= max,
    ensures
        min <= duty_of(angle, min, max) <= max,
{
    let d = max - min;
    assert(0 <= angle * d <= 180 * d) by (nonlinear_arith)
        requires
            0 <= angle <= 180,
            0 <= d,
    ;
    assert(0 <= (angle * d) / 180 <= d) by (nonlinear_arith)
        requires
            0 <= angle * d <= 180 * d,
    ;
}

/// The duty value for `angle`, or `OutOfRange` when the angle lies beyond
/// `MAX_ANGLE`; out-of-range angles are refused rather than driving the servo
/// past its safe travel.
pub fn to_duty(angle: u32, range: &CalibratedRange) -> (r: Result<u32, OutOfRange>)
    requires
        range.wf(),
    ensures
        angle <= MAX_ANGLE ==> r == Ok::<u32, OutOfRange>(range.spec_duty(angle as int) as u32),
        angle > MAX_ANGLE ==> r == Err::<u32, OutOfRange>(OutOfRange { angle }),
        r matches Ok(d) ==> range.min_duty <= d <= range.max_duty,
{
    if angle > MAX_ANGLE {
        return Err(OutOfRange { angle });
    }
    proof {
        lemma_duty_bounds(angle as int, range.min_duty as int, range.max_duty as int);
    }
    let span = (range.max_duty - range.min_duty) as u64;
    assert(angle as u64 * span <= 180 * 0xffff_ffffu64) by (nonlinear_arith)
        requires
            angle <= 180,
            span <= 0xffff_ffff,
    ;
    let scaled = (angle as u64 * span) / 180;
    let d = scaled + range.min_duty as u64;
    Ok(d as u32)
}

/// Mapping keeps the order of angles: a larger angle never maps to a smaller
/// duty value.
pub proof fn lemma_duty_monotonic(range: CalibratedRange, a1: int, a2: int)
    requires
        range.wf(),
        0 <= a1 < a2 <= 180,
    ensures
        range.spec_duty(a1) <= range.spec_duty(a2),
{
    let d = range.max_duty - range.min_duty;
    assert(a1 * d <= a2 * d) by (nonlinear_arith)
        requires
            a1 < a2,
            0 <= d,
    ;
    vstd::arithmetic::div_mod::lemma_div_is_ordered(a1 * d, a2 * d, 180);
}

/// The ends of travel map exactly onto the ends of the range.
pub proof fn lemma_duty_endpoints(range: CalibratedRange)
    requires
        range.wf(),
    ensures
        range.spec_duty(0) == range.min_duty,
        range.spec_duty(180) == range.max_duty,
{
    let d = range.max_duty - range.min_duty;
    assert((180 * d) / 180 == d) by (nonlinear_arith);
    assert((0 * d) / 180 == 0) by (nonlinear_arith);
}

} // verus!
