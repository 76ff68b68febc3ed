//! The trip engine: a ring buffer of recent accepted fixes and the running
//! distance, climb, speed and precision figures, behind a three-stage filter.
use vstd::prelude::*;

use crate::fns::{calculate_speed, capped_speed, feet_of_mm, to_feet};
use crate::reader::GpsReaderResults;

verus! {

/// How many accepted fixes the ring buffer keeps.
pub const MAX_ITEMS: usize = 16;

/// Fixes whose HDOP, in hundredths, exceeds this move no figure of the trip.
pub const HDOP_CEILING: u32 = 200;

/// Default least time between two accepted fixes, in milliseconds.
pub const DEFAULT_MIN_INTERVAL_MS: i64 = 1000;

/// Default least segment that counts as movement, in thousandths of a foot.
pub const DEFAULT_MIN_DISTANCE_MFT: u64 = 2000;

#[verifier::external_type_specification]
#[verifier::external_body]
#[verifier::reject_recursive_types(T)]
pub struct ExDeque<T, const N: usize>(heapless::Deque<T, N>);

/// The fixes held by the ring buffer, oldest first.
pub uninterp spec fn history_of(d: heapless::Deque<GpsReaderResults, 16>) -> Seq<GpsReaderResults>;

/// Relies on heapless::Deque::new: a new deque holds nothing.
#[verifier::external_body]
fn new_history() -> (r: heapless::Deque<GpsReaderResults, 16>)
    ensures
        history_of(r) == Seq::<GpsReaderResults>::empty(),
{
    heapless::Deque::new()
}

/// Relies on heapless::Deque::is_full: whether it holds its capacity of 16.
#[verifier::external_body]
fn history_is_full(d: &heapless::Deque<GpsReaderResults, 16>) -> (r: bool)
    ensures
        r == (history_of(*d).len() == 16),
{
    d.is_full()
}

/// Relies on heapless::Deque::push_back: appends at the back unless full, and
/// then hands the item back with nothing changed.
#[verifier::external_body]
fn history_push_back(d: &mut heapless::Deque<GpsReaderResults, 16>, item: GpsReaderResults) -> (r:
    bool)
    ensures
        r == (history_of(*old(d)).len() < 16),
        r ==> history_of(*final(d)) == history_of(*old(d)).push(item),
        !r ==> history_of(*final(d)) == history_of(*old(d)),
{
    d.push_back(item).is_ok()
}

/// Relies on heapless::Deque::pop_front: removes and returns the front item,
/// or `None` when empty.
#[verifier::external_body]
fn history_pop_front(d: &mut heapless::Deque<GpsReaderResults, 16>) -> (r: Option<
    GpsReaderResults,
>)
    ensures
        history_of(*old(d)).len() == 0 ==> r is None && history_of(*final(d)) == history_of(
            *old(d),
        ),
        history_of(*old(d)).len() > 0 ==> r == Some(history_of(*old(d))[0]) && history_of(
            *final(d),
        ) == history_of(*old(d)).drop_first(),
{
    d.pop_front()
}

/// Relies on heapless::Deque::back: the back item, or `None` when empty.
#[verifier::external_body]
fn history_back(d: &heapless::Deque<GpsReaderResults, 16>) -> (r: Option<GpsReaderResults>)
    ensures
        history_of(*d).len() == 0 ==> r is None,
        history_of(*d).len() > 0 ==> r == Some(history_of(*d).last()),
{
    d.back().copied()
}

/// The figures of a trip engine, with the ring buffer as a sequence.
pub struct TrackState {
    pub history: Seq<GpsReaderResults>,
    pub last_segment: u64,
    pub total_distance: u64,
    pub total_gain: u64,
    pub speed: u64,
    pub hdop: u32,
    pub min_interval: i64,
    pub min_distance: u64,
}

/// A fix with the four fields the filters need.
pub open spec fn complete(f: GpsReaderResults) -> bool {
    f.lat is Some && f.lon is Some && f.hdop is Some && f.timestamp is Some
}

/// The ring buffer after admitting `x`: the oldest leaves first when it is full.
pub open spec fn ring_push(h: Seq<GpsReaderResults>, x: GpsReaderResults) -> Seq<GpsReaderResults> {
    if h.len() < MAX_ITEMS {
        h.push(x)
    } else {
        h.drop_first().push(x)
    }
}

pub open spec fn sat_add(a: u64, b: u64) -> u64 {
    if a + b > u64::MAX {
        u64::MAX
    } else {
        (a + b) as u64
    }
}

/// Thousandths of a foot climbed from `prev` to `next`; nothing when either
/// altitude is unknown or the way leads down.
pub open spec fn climb_of(prev: GpsReaderResults, next: GpsReaderResults) -> u64 {
    match (prev.alt, next.alt) {
        (Some(a), Some(b)) => if feet_of_mm(b - a) > 0 {
            feet_of_mm(b - a) as u64
        } else {
            0
        },
        _ => 0,
    }
}

/// The engine after offered fix `f`, which lies `seg` thousandths of a foot
/// from the newest fix held, with recording on or off.
pub open spec fn track_step(s: TrackState, f: GpsReaderResults, seg: u64, rec: bool) -> TrackState {
    if !complete(f) {
        s
    } else if s.history.len() == 0 {
        TrackState { history: ring_push(s.history, f), hdop: f.hdop->0, ..s }
    } else {
        let prev = s.history.last();
        let dt = f.timestamp->0 - prev.timestamp->0;
        if dt < s.min_interval {
            s
        } else if f.hdop->0 > HDOP_CEILING || seg <= s.min_distance {
            TrackState { hdop: f.hdop->0, ..s }
        } else {
            let moved = TrackState {
                history: ring_push(s.history, f),
                hdop: f.hdop->0,
                speed: capped_speed(seg as nat, if dt > 0 { dt as nat } else { 0 }),
                ..s
            };
            if rec {
                TrackState {
                    last_segment: seg,
                    total_distance: sat_add(s.total_distance, seg),
                    total_gain: sat_add(s.total_gain, climb_of(prev, f)),
                    ..moved
                }
            } else {
                moved
            }
        }
    }
}

pub struct GeoStack {
    pub stack: heapless::Deque<GpsReaderResults, 16>,
    /// Last accepted segment while recording, in thousandths of a foot.
    pub last_segment_distance: u64,
    /// Distance covered while recording, in thousandths of a foot.
    pub total_distance: u64,
    /// Height climbed while recording, in thousandths of a foot.
    pub total_elevation_gain: u64,
    /// In thousandths of a mile per hour.
    pub current_speed_mph: u64,
    /// In hundredths.
    pub current_hdop: u32,
    pub min_time_interval_ms: i64,
    /// In thousandths of a foot.
    pub min_distance_threshold: u64,
}

impl View for GeoStack {
    type V = TrackState;

    open spec fn view(&self) -> TrackState {
        TrackState {
            history: history_of(self.stack),
            last_segment: self.last_segment_distance,
            total_distance: self.total_distance,
            total_gain: self.total_elevation_gain,
            speed: self.current_speed_mph,
            hdop: self.current_hdop,
            min_interval: self.min_time_interval_ms,
            min_distance: self.min_distance_threshold,
        }
    }
}

/// Every fix the ring buffer holds is complete, and it holds at most its capacity.
pub open spec fn history_wf(h: Seq<GpsReaderResults>) -> bool {
    h.len() <= MAX_ITEMS && forall|i: int| 0 <= i < h.len() ==> complete(#[trigger] h[i])
}

impl GeoStack {
    pub open spec fn wf(&self) -> bool {
        history_wf(history_of(self.stack))
    }

    /// An engine with nothing held, all figures zero and the default filters.
    pub fn new() -> (r: Self)
        ensures
            r.wf(),
            r@ == (TrackState {
                history: Seq::empty(),
                last_segment: 0,
                total_distance: 0,
                total_gain: 0,
                speed: 0,
                hdop: 0,
                min_interval: DEFAULT_MIN_INTERVAL_MS,
                min_distance: DEFAULT_MIN_DISTANCE_MFT,
            }),
    {
        GeoStack {
            stack: new_history(),
            last_segment_distance: 0,
            total_distance: 0,
            total_elevation_gain: 0,
            current_speed_mph: 0,
            current_hdop: 0,
            min_time_interval_ms: DEFAULT_MIN_INTERVAL_MS,
            min_distance_threshold: DEFAULT_MIN_DISTANCE_MFT,
        }
    }

    /// Appends `item`, evicting the oldest when the buffer is full.
    pub fn ring_buffer_push(&mut self, item: GpsReaderResults)
        requires
            old(self).wf(),
        ensures
            final(self)@ == (TrackState { history: ring_push(old(self)@.history, item), ..old(self)@ }),
    {
        if !history_is_full(&self.stack) {
            let _ = history_push_back(&mut self.stack, item);
        } else {
            let _ = history_pop_front(&mut self.stack);
            let _ = history_push_back(&mut self.stack, item);
        }
    }

    /// The newest fix held, if any.
    pub fn last(&self) -> (r: Option<GpsReaderResults>)
        ensures
            self@.history.len() == 0 ==> r is None,
            self@.history.len() > 0 ==> r == Some(self@.history.last()),
    {
        history_back(&self.stack)
    }

    /// Offers fix `coords`, which lies `distance_from_last` thousandths of a
    /// foot from the newest fix held (the caller measures it; it is not read
    /// when nothing is held or `coords` lacks a field the filters need).
    ///
    /// A fix without latitude, longitude, HDOP or timestamp is ignored. The
    /// first fix is held as it comes. Later ones are dropped when they come
    /// sooner than the least interval after the newest held; otherwise their
    /// HDOP becomes the current one, and they are held and move the speed
    /// only when their HDOP is within the ceiling and the segment exceeds the
    /// least distance. Recording decides whether such a segment also counts
    /// toward the last segment, the total distance and the climb.
    pub fn add_coords(&mut self, coords: GpsReaderResults, distance_from_last: u64, is_recording: bool)
        requires
            old(self).wf(),
        ensures
            final(self).wf(),
            final(self)@ == track_step(old(self)@, coords, distance_from_last, is_recording),
    {
        let hdop = match coords.hdop {
            Some(h) => h,
            None => return ,
        };
        let new_ts = match coords.timestamp {
            Some(t) => t,
            None => return ,
        };
        if coords.lat.is_none() || coords.lon.is_none() {
            return ;
        }
        let ghost s0 = self@;
        match history_back(&self.stack) {
            None => {
                self.current_hdop = hdop;
                self.ring_buffer_push(coords);
                proof {
                    lemma_ring_push_wf(s0.history, coords);
                }
            },
            Some(prev) => {
                proof {
                    assert(complete(s0.history[s0.history.len() - 1]));
                }
                let prev_ts = match prev.timestamp {
                    Some(t) => t,
                    None => return ,
                };
                let dt: i64 = new_ts as i64 - prev_ts as i64;
                if dt < self.min_time_interval_ms {
                    return ;
                }
                self.current_hdop = hdop;
                if hdop > HDOP_CEILING || distance_from_last <= self.min_distance_threshold {
                    return ;
                }
                self.ring_buffer_push(coords);
                proof {
                    lemma_ring_push_wf(s0.history, coords);
                }
                let elapsed: u64 = if dt > 0 {
                    dt as u64
                } else {
                    0
                };
                self.current_speed_mph = calculate_speed(distance_from_last, elapsed);
                if is_recording {
                    self.last_segment_distance = distance_from_last;
                    self.total_distance = self.total_distance.saturating_add(distance_from_last);
                    let gain = climb(prev.alt, coords.alt);
                    self.total_elevation_gain = self.total_elevation_gain.saturating_add(gain);
                }
            },
        }
    }
}

/// Thousandths of a foot climbed between two altitudes in millimetres.
fn climb(prev_alt: Option<i32>, next_alt: Option<i32>) -> (r: u64)
    ensures
        forall|p: GpsReaderResults, n: GpsReaderResults|
            p.alt == prev_alt && n.alt == next_alt ==> r == #[trigger] climb_of(p, n),
{
    match (prev_alt, next_alt) {
        (Some(a), Some(b)) => {
            let up: i64 = to_feet(b as i64 - a as i64);
            if up > 0 {
                up as u64
            } else {
                0
            }
        },
        _ => 0,
    }
}

proof fn lemma_ring_push_wf(h: Seq<GpsReaderResults>, x: GpsReaderResults)
    requires
        history_wf(h),
        complete(x),
    ensures
        history_wf(ring_push(h, x)),
{
    let r = ring_push(h, x);
    assert forall|i: int| 0 <= i < r.len() implies complete(#[trigger] r[i]) by {
        if h.len() < MAX_ITEMS {
            if i < h.len() {
                assert(r[i] == h[i]);
            }
        } else {
            if i < h.len() - 1 {
                assert(r[i] == h[i + 1]);
            }
        }
    }
}

/// The ring buffer after admitting each of `xs` in turn.
pub open spec fn ring_fill(h: Seq<GpsReaderResults>, xs: Seq<GpsReaderResults>) -> Seq<
    GpsReaderResults,
>
    decreases xs.len(),
{
    if xs.len() == 0 {
        h
    } else {
        ring_push(ring_fill(h, xs.drop_last()), xs.last())
    }
}

/// Admitting fixes one by one keeps exactly the newest `MAX_ITEMS` of all
/// those ever admitted, oldest first: once more than that many have come,
/// the buffer stays full, and every fix it holds came after every fix it evicted.
pub proof fn lemma_ring_keeps_newest(h: Seq<GpsReaderResults>, xs: Seq<GpsReaderResults>)
    requires
        h.len() <= MAX_ITEMS,
    ensures
        ({
            let all = h + xs;
            let kept = if all.len() > MAX_ITEMS {
                MAX_ITEMS as int
            } else {
                all.len() as int
            };
            ring_fill(h, xs) == all.subrange(all.len() - kept, all.len() as int)
        }),
    decreases xs.len(),
{
    let all = h + xs;
    if xs.len() == 0 {
        assert(all =~= h);
        assert(all.subrange(0, all.len() as int) =~= h);
    } else {
        lemma_ring_keeps_newest(h, xs.drop_last());
        let prev_all = h + xs.drop_last();
        assert(prev_all =~= all.drop_last());
        let m = prev_all.len() as int;
        let kept = if m > MAX_ITEMS {
            MAX_ITEMS as int
        } else {
            m
        };
        let prev = prev_all.subrange(m - kept, m);
        assert(all[m] == xs.last());
        if prev.len() < MAX_ITEMS {
            assert(prev.push(xs.last()) =~= all.subrange(0, m + 1));
        } else {
            assert(prev.drop_first().push(xs.last()) =~= all.subrange(m + 1 - MAX_ITEMS, m + 1));
        }
    }
}

/// The engine after offering each `(fix, distance from the newest held)` pair in turn.
pub open spec fn track_run(s: TrackState, offers: Seq<(GpsReaderResults, u64)>, rec: bool) -> TrackState
    decreases offers.len(),
{
    if offers.len() == 0 {
        s
    } else {
        let last = offers.last();
        track_step(track_run(s, offers.drop_last(), rec), last.0, last.1, rec)
    }
}

proof fn lemma_step_totals_grow(s: TrackState, f: GpsReaderResults, seg: u64, rec: bool)
    ensures
        s.total_distance <= track_step(s, f, seg, rec).total_distance,
        s.total_gain <= track_step(s, f, seg, rec).total_gain,
{
}

/// While recording, the total distance and the total climb never decrease:
/// after any prefix of a run of offers they are at most what they are after
/// any longer prefix.
pub proof fn lemma_totals_monotone(s: TrackState, offers: Seq<(GpsReaderResults, u64)>, i: int, j: int)
    requires
        0 <= i <= j <= offers.len(),
    ensures
        track_run(s, offers.subrange(0, i), true).total_distance <= track_run(
            s,
            offers.subrange(0, j),
            true,
        ).total_distance,
        track_run(s, offers.subrange(0, i), true).total_gain <= track_run(
            s,
            offers.subrange(0, j),
            true,
        ).total_gain,
    decreases j - i,
{
    if i < j {
        lemma_totals_monotone(s, offers, i, j - 1);
        let p = offers.subrange(0, j);
        assert(p.drop_last() =~= offers.subrange(0, j - 1));
        lemma_step_totals_grow(track_run(s, p.drop_last(), true), p.last().0, p.last().1, true);
    }
}

/// With recording off, a run of offers leaves the trip totals and the last
/// segment as they were, while the ring buffer, the speed and the HDOP move
/// exactly as they do for the same run with recording on.
pub proof fn lemma_recording_gates(s: TrackState, offers: Seq<(GpsReaderResults, u64)>)
    ensures
        track_run(s, offers, false).total_distance == s.total_distance,
        track_run(s, offers, false).total_gain == s.total_gain,
        track_run(s, offers, false).last_segment == s.last_segment,
        track_run(s, offers, false).history == track_run(s, offers, true).history,
        track_run(s, offers, false).speed == track_run(s, offers, true).speed,
        track_run(s, offers, false).hdop == track_run(s, offers, true).hdop,
        track_run(s, offers, false).min_interval == s.min_interval,
        track_run(s, offers, false).min_distance == s.min_distance,
        track_run(s, offers, true).min_interval == s.min_interval,
        track_run(s, offers, true).min_distance == s.min_distance,
    decreases offers.len(),
{
    if offers.len() > 0 {
        lemma_recording_gates(s, offers.drop_last());
    }
}

} // verus!
