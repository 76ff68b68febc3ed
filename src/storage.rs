//! The clock that stamps files written to the card: there is none on the
//! device, so every file carries the same fixed stamp.
use vstd::prelude::*;

verus! {

/// A file stamp, field by field as the card's file system stores it.
#[derive(Clone, Copy, Debug, PartialEq, Eq, Structural)]
pub struct FileStamp {
    pub year_since_1970: u8,
    pub zero_indexed_month: u8,
    pub zero_indexed_day: u8,
    pub hours: u8,
    pub minutes: u8,
    pub seconds: u8,
}

/// A time source that always reports the start of 1970.
#[derive(Clone, Copy, Debug, Default)]
pub struct DummyTimesource();

impl DummyTimesource {
    pub fn get_timestamp(&self) -> (r: FileStamp)
        ensures
            r == (FileStamp {
                year_since_1970: 0,
                zero_indexed_month: 0,
                zero_indexed_day: 0,
                hours: 0,
                minutes: 0,
                seconds: 0,
            }),
    {
        FileStamp {
            year_since_1970: 0,
            zero_indexed_month: 0,
            zero_indexed_day: 0,
            hours: 0,
            minutes: 0,
            seconds: 0,
        }
    }
}

} // verus!
