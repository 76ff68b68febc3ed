//! The consumer side of the hand-off between the sentence reader and the
//! control loop: the latest known fix grade, position and date.
use vstd::prelude::*;

use crate::reader::{FixQuality, GpsReaderResults, InternalDateDTO, ParseOut};

verus! {

pub struct LatestState {
    pub fix: Option<FixQuality>,
    pub position: Option<GpsReaderResults>,
    pub datetime: Option<InternalDateDTO>,
}

impl LatestState {
    /// Nothing known yet.
    pub fn new() -> (r: Self)
        ensures
            r.fix is None,
            r.position is None,
            r.datetime is None,
    {
        LatestState { fix: None, position: None, datetime: None }
    }

    /// Folds one outcome in: what it carries replaces what was known, and what
    /// it lacks is kept (a failed date sentence leaves the last good date).
    /// Returns the position to offer the trip engine, if any is known.
    pub fn absorb(&mut self, out: ParseOut) -> (r: Option<GpsReaderResults>)
        ensures
            final(self).fix == (if out.fix is Some {
                out.fix
            } else {
                old(self).fix
            }),
            final(self).position == (if out.reader_results is Some {
                out.reader_results
            } else {
                old(self).position
            }),
            out.reader_datetime is Some ==> final(self).datetime == out.reader_datetime,
            out.reader_datetime is None ==> final(self).datetime == old(self).datetime,
            r == final(self).position,
    {
        if out.reader_datetime.is_some() {
            self.datetime = out.reader_datetime;
        }
        if out.fix.is_some() {
            self.fix = out.fix;
        }
        if out.reader_results.is_some() {
            self.position = out.reader_results;
        }
        self.position
    }
}

} // verus!
