//! Unit conversions on fixed-point quantities: distances in thousandths of a
//! foot, altitudes in millimetres, speeds in thousandths of a mile per hour.
use vstd::prelude::*;

verus! {

/// Feet in a statute mile.
pub const FT_IN_A_MILE: u64 = 5280;

/// The largest altitude difference, in millimetres, that `to_feet` converts.
pub const MAX_CONVERTED_MM: i64 = 10_000_000_000_000;

/// Speed in thousandths of a mile per hour for `distance_mft` thousandths of
/// a foot covered in `elapsed_ms` milliseconds, rounded down; no time, no speed.
/// Feet per second times 3600 / 5280 is miles per hour, and
/// 1000 * 3600 / 5280 = 7500 / 11.
pub open spec fn speed_of(distance_mft: nat, elapsed_ms: nat) -> nat {
    if elapsed_ms == 0 {
        0
    } else {
        (distance_mft * 7500) / (elapsed_ms * 11)
    }
}

/// `speed_of`, held to what a `u64` can carry.
pub open spec fn capped_speed(distance_mft: nat, elapsed_ms: nat) -> u64 {
    if speed_of(distance_mft, elapsed_ms) > u64::MAX {
        u64::MAX
    } else {
        speed_of(distance_mft, elapsed_ms) as u64
    }
}

/// Thousandths of a foot in `mm` millimetres (3.28084 feet per metre),
/// rounded toward zero.
pub open spec fn feet_of_mm(mm: int) -> int {
    if mm >= 0 {
        (mm * 328084) / 100000
    } else {
        -(((-mm) * 328084) / 100000)
    }
}

/// Speed, in thousandths of a mile per hour, of `distance_mft` thousandths of
/// a foot covered in `elapsed_ms` milliseconds; zero when no time has passed.
pub fn calculate_speed(distance_mft: u64, elapsed_ms: u64) -> (r: u64)
    ensures
        r == capped_speed(distance_mft as nat, elapsed_ms as nat),
{
    if elapsed_ms == 0 {
        return 0;
    }
    let num: u128 = distance_mft as u128 * 7500;
    let den: u128 = elapsed_ms as u128 * 11;
    let q: u128 = num / den;
    if q > u64::MAX as u128 {
        u64::MAX
    } else {
        q as u64
    }
}

/// Thousandths of a foot in `millimeters` millimetres, rounded toward zero.
pub fn to_feet(millimeters: i64) -> (r: i64)
    requires
        -MAX_CONVERTED_MM <= millimeters <= MAX_CONVERTED_MM,
    ensures
        r == feet_of_mm(millimeters as int),
{
    if millimeters >= 0 {
        (millimeters * 328084) / 100000
    } else {
        let pos: i64 = -millimeters;
        -((pos * 328084) / 100000)
    }
}

} // verus!
