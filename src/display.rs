//! What the display shows, decided from the engine's figures.
use vstd::prelude::*;

use crate::reader::FixQuality;

verus! {

/// The fix-quality mark: a letter for the kind of fix, with one or two `)`
/// for a tighter HDOP (in hundredths).
pub open spec fn quality_mark(fix: Option<FixQuality>, hdop: u32) -> Seq<char> {
    match fix {
        None => "N/A"@,
        Some(FixQuality::Invalid) => "X"@,
        Some(FixQuality::Gps) => if hdop < 100 {
            "O))"@
        } else if hdop < 200 {
            "O)"@
        } else {
            "O"@
        },
        Some(FixQuality::DGps) => if hdop < 100 {
            "D))"@
        } else if hdop < 200 {
            "D)"@
        } else {
            "D"@
        },
        Some(FixQuality::FloatRtk) => if hdop < 100 {
            "R)"@
        } else {
            "R"@
        },
        Some(FixQuality::Rtk) => "R))"@,
        Some(FixQuality::Other) => "??"@,
    }
}

/// The fix-quality mark shown for `fix` at HDOP `hdop` (in hundredths).
pub fn quality_text(fix: Option<FixQuality>, hdop: u32) -> (r: &'static str)
    ensures
        r@ == quality_mark(fix, hdop),
{
    match fix {
        None => "N/A",
        Some(FixQuality::Invalid) => "X",
        Some(FixQuality::Gps) => {
            if hdop < 100 {
                "O))"
            } else if hdop < 200 {
                "O)"
            } else {
                "O"
            }
        },
        Some(FixQuality::DGps) => {
            if hdop < 100 {
                "D))"
            } else if hdop < 200 {
                "D)"
            } else {
                "D"
            }
        },
        Some(FixQuality::FloatRtk) => {
            if hdop < 100 {
                "R)"
            } else {
                "R"
            }
        },
        Some(FixQuality::Rtk) => "R))",
        Some(FixQuality::Other) => "??",
    }
}

/// The recording mark.
pub fn recording_text(is_recording: bool) -> (r: &'static str)
    ensures
        is_recording ==> r@ == ">>"@,
        !is_recording ==> r@ == "--"@,
{
    if is_recording {
        ">>"
    } else {
        "--"
    }
}

/// Thousandths of a foot in a mile.
pub const MFT_IN_A_MILE: u64 = 5_280_000;

/// A distance as it is shown: `value / 10^scale` with `precision` fractional
/// digits, then `unit`.
pub struct DistanceReadout {
    pub value: i64,
    pub scale: u32,
    pub precision: u8,
    pub unit: &'static str,
}

/// How a distance of `total_mft` thousandths of a foot is shown: in whole
/// feet up to a mile, beyond that in miles to three places (cut off).
pub fn distance_readout(total_mft: u64) -> (r: DistanceReadout)
    ensures
        r.scale == 3,
        total_mft > MFT_IN_A_MILE ==> r.value == total_mft / 5280 && r.precision == 3 && r.unit@
            == "mi."@,
        total_mft <= MFT_IN_A_MILE ==> r.value == total_mft && r.precision == 0 && r.unit@ == "'"@,
{
    if total_mft > MFT_IN_A_MILE {
        DistanceReadout { value: (total_mft / 5280) as i64, scale: 3, precision: 3, unit: "mi." }
    } else {
        DistanceReadout { value: total_mft as i64, scale: 3, precision: 0, unit: "'" }
    }
}

/// Debounce state of the start/stop button, which reads high when released.
pub struct ButtonDebounce {
    pub last_high: bool,
}

impl ButtonDebounce {
    pub fn new(high: bool) -> (r: Self)
        ensures
            r.last_high == high,
    {
        ButtonDebounce { last_high: high }
    }

    /// Takes one sample; true when it is a press (high before, low now), which
    /// the caller confirms after the debounce delay.
    pub fn sample(&mut self, high: bool) -> (r: bool)
        ensures
            r == (old(self).last_high && !high),
            final(self).last_high == high,
    {
        let pressed = self.last_high && !high;
        self.last_high = high;
        pressed
    }
}

/// The recording flag after a press, given whether the button still reads
/// low after the debounce delay: a confirmed press toggles it.
pub fn confirm_press(still_low: bool, recording: bool) -> (r: bool)
    ensures
        r == (recording != still_low),
{
    if still_low {
        !recording
    } else {
        recording
    }
}

} // verus!
