//! Unwrapping of one generation's raw times into continuous time.

use crate::epoch;
use crate::model::RawTime;
use crate::time;
use crate::time::{Nanos, SECOND, WEEK};
use vstd::prelude::*;

verus! {

/// The largest magnitude of a GPS week, 2 to the power 31. Its start is then a time stamp,
/// and one reading adds no more than `READING_SPAN`.
pub const WEEK_LIMIT: i64 = 2_147_483_648;

/// What one reading can add to a clock's range, 2 to the power 93.
pub const READING_SPAN: i128 = 9_903_520_314_283_042_199_192_993_792;

/// The most readings that one clock takes, 2 to the power 24: that many times
/// `READING_SPAN` is within `SPAN_LIMIT`, so that no sum of times leaves the range of the
/// machine's widest integer.
pub const READINGS_LIMIT: u32 = 16_777_216;

/// Continuous time of one generation: the latest time so far, what week rollovers
/// have added to raw times, and the number of readings taken.
#[derive(Clone, Copy, Debug)]
pub struct Unwrapper {
    pub last: Option<Nanos>,
    pub offset: Nanos,
    pub readings: u32,
}

/// A raw time on the continuous scale.
#[derive(Clone, Copy, Debug)]
pub struct Resolved {
    pub t: Nanos,
    /// How far the time lies behind the latest one.
    pub backward: Nanos,
    pub week_rollover: bool,
    pub leap_adjusted: bool,
}

/// Whether raw time fields are within the range that is handled.
pub open spec fn in_range(raw: RawTime) -> bool {
    &&& time::is_stamp(raw.sow as int)
    &&& raw.week is Some ==> -WEEK_LIMIT <= raw.week->0 <= WEEK_LIMIT
}

/// A raw time before rollovers are added: the week, if there is one, the time of
/// week, and a second more in a leap second, which repeats the label before it.
pub open spec fn raw_time(raw: RawTime) -> int {
    let week = if raw.week is Some { raw.week->0 * WEEK } else { 0 };
    let leap = if raw.leap_second_flag { SECOND as int } else { 0 };
    week + raw.sow + leap
}

/// The whole weeks by which a step back is a rollover, or zero where it is none.
pub open spec fn rollover_weeks(step: int) -> int {
    let weeks = epoch::nearest_weeks(-step);
    if step < -epoch::LEAP_TOL && weeks >= 1 && -epoch::WEEK_TOL <= step + weeks * WEEK
        <= epoch::WEEK_TOL {
        weeks
    } else {
        0
    }
}

impl Unwrapper {
    /// The clock's numbers are within what its readings can reach.
    pub open spec fn wf(self) -> bool {
        &&& -self.readings * READING_SPAN <= self.offset <= self.readings * READING_SPAN
        &&& self.last is Some ==> -self.readings * READING_SPAN <= self.last->0 <= self.readings
            * READING_SPAN
    }

    /// The whole weeks that a reading rolls over.
    pub open spec fn weeks(self, raw: RawTime) -> int {
        match self.last {
            None => 0,
            Some(l) => rollover_weeks(raw_time(raw) + self.offset - l),
        }
    }

    /// A reading on the continuous scale.
    pub open spec fn continuous(self, raw: RawTime) -> int {
        raw_time(raw) + self.offset + self.weeks(raw) * WEEK
    }

    /// How far a reading that rolls no week over lies behind the latest one.
    pub open spec fn behind(self, raw: RawTime) -> int {
        match self.last {
            None => 0,
            Some(l) => if self.weeks(raw) == 0 && self.continuous(raw) < l {
                l - self.continuous(raw)
            } else {
                0
            },
        }
    }

    /// The clock after a reading.
    pub open spec fn after(self, raw: RawTime) -> Unwrapper {
        let t = self.continuous(raw);
        Unwrapper {
            last: Some(
                match self.last {
                    None => t as i128,
                    Some(l) => if t < l {
                        l
                    } else {
                        t as i128
                    },
                },
            ),
            offset: (self.offset + self.weeks(raw) * WEEK) as i128,
            readings: (self.readings + 1) as u32,
        }
    }

    pub fn new() -> (r: Unwrapper)
        ensures
            r == (Unwrapper { last: None, offset: 0, readings: 0 }),
            r.wf(),
    {
        Unwrapper { last: None, offset: 0, readings: 0 }
    }

    /// Takes a reading.
    pub fn resolve(&mut self, raw: &RawTime) -> (r: Resolved)
        requires
            in_range(*raw),
            old(self).wf(),
            old(self).readings < READINGS_LIMIT,
        ensures
            r.t == old(self).continuous(*raw),
            r.backward == old(self).behind(*raw),
            r.week_rollover == (old(self).weeks(*raw) > 0),
            r.leap_adjusted == raw.leap_second_flag,
            *final(self) == old(self).after(*raw),
            final(self).wf(),
            time::is_span(r.t as int),
    {
        let week: i128 = match raw.week {
            Some(w) => w as i128 * WEEK,
            None => 0,
        };
        let leap: i128 = if raw.leap_second_flag { SECOND } else { 0 };
        let base: i128 = week + raw.sow + leap;
        let leap_adjusted = raw.leap_second_flag;
        self.readings = self.readings + 1;
        match self.last {
            None => {
                let t: i128 = base + self.offset;
                self.last = Some(t);
                Resolved { t, backward: 0, week_rollover: false, leap_adjusted }
            },
            Some(l) => {
                let step: i128 = base + self.offset - l;
                if step < -epoch::LEAP_TOL {
                    let weeks: i128 = (-step + WEEK / 2) / WEEK;
                    let rest: i128 = step + weeks * WEEK;
                    if weeks >= 1 && -epoch::WEEK_TOL <= rest && rest <= epoch::WEEK_TOL {
                        self.offset = self.offset + weeks * WEEK;
                        let t: i128 = base + self.offset;
                        if t >= l {
                            self.last = Some(t);
                        }
                        return Resolved { t, backward: 0, week_rollover: true, leap_adjusted };
                    }
                }
                let t: i128 = base + self.offset;
                let backward: i128 = if t < l { l - t } else { 0 };
                if t >= l {
                    self.last = Some(t);
                }
                Resolved { t, backward, week_rollover: false, leap_adjusted }
            },
        }
    }
}

/// Whether a step back is too large for a late packet, so that a new generation
/// begins.
pub open spec fn breaks(backward: int) -> bool {
    backward > epoch::LEAP_TOL
}

/// Whether a step back is too large for a late packet, so that a new generation
/// begins.
pub fn is_generation_break(backward: Nanos) -> (r: bool)
    ensures
        r == breaks(backward as int),
{
    backward > epoch::LEAP_TOL
}

/// A reading that rolls over whole weeks, ahead by up to the tolerance, is ahead by
/// as much on the continuous scale, and is no step back.
pub proof fn law_rollover_carries_on(u: Unwrapper, raw: RawTime, weeks: int, ahead: int)
    requires
        u.last is Some,
        weeks >= 1,
        -epoch::WEEK_TOL <= ahead <= epoch::WEEK_TOL,
        raw_time(raw) + u.offset == u.last->0 + ahead - weeks * WEEK,
    ensures
        u.continuous(raw) == u.last->0 + ahead,
        u.behind(raw) == 0,
{
    assert(epoch::nearest_weeks(weeks * WEEK - ahead) == weeks);
}

/// A late reading does not move the latest time back.
pub proof fn law_latest_time_never_goes_back(u: Unwrapper, raw: RawTime)
    requires
        u.last is Some,
        i128::MIN <= u.continuous(raw) <= i128::MAX,
    ensures
        u.after(raw).last is Some,
        u.after(raw).last->0 >= u.last->0,
        u.after(raw).last->0 >= u.continuous(raw),
{
}

// ---- what a reading does, in plain numbers ----------------------------------------------------

/// The time that a reading's own fields tell: whole weeks, the time of the week, and the
/// second that a leap second adds.
pub open spec fn told(raw: RawTime) -> int {
    (if raw.week is Some { raw.week->0 as int } else { 0 }) * 604_800_000_000_000 + raw.sow + if
        raw.leap_second_flag { 1_000_000_000int } else { 0 }
}

/// The first reading is taken as it is.
pub proof fn law_first_reading_is_taken_as_it_is(u: Unwrapper, raw: RawTime)
    requires
        u.last is None,
        u.offset == 0,
        in_range(raw),
    ensures
        u.continuous(raw) == told(raw),
        u.behind(raw) == 0,
        u.weeks(raw) == 0,
        u.after(raw).last == Some(told(raw) as i128),
        u.after(raw).offset == 0,
{
}

/// A reading that is not behind the latest one by more than three seconds rolls no week
/// over: its continuous time is as far from the latest as what it tells, and what is added
/// to later readings stays the same.
pub proof fn law_reading_in_step_rolls_nothing_over(u: Unwrapper, raw: RawTime)
    requires
        u.last is Some,
        told(raw) + u.offset >= u.last->0 - 3_000_000_000,
    ensures
        u.weeks(raw) == 0,
        u.continuous(raw) - u.last->0 == told(raw) + u.offset - u.last->0,
        u.after(raw).offset == u.offset,
        u.behind(raw) == if told(raw) + u.offset < u.last->0 {
            u.last->0 - (told(raw) + u.offset)
        } else {
            0
        },
{
}

/// Two readings with no rollover between them keep their distance: their continuous times
/// differ by as much as what they tell.
pub proof fn law_readings_keep_their_distance(u: Unwrapper, raw: RawTime, later: RawTime)
    requires
        u.wf(),
        u.readings < READINGS_LIMIT,
        in_range(raw),
        in_range(later),
        u.last is Some ==> told(raw) + u.offset >= u.last->0 - 3_000_000_000,
        u.last is Some ==> told(later) + u.offset >= u.last->0 - 3_000_000_000,
        told(later) >= told(raw) - 3_000_000_000,
    ensures
        u.after(raw).continuous(later) - u.continuous(raw) == told(later) - told(raw),
        u.after(raw).weeks(later) == 0,
{
}

/// A reading behind the latest one by more than three seconds, and by so many weeks but
/// for five seconds, rolls those weeks over, and later readings with it; one behind by
/// anything else is that far behind.
pub proof fn law_reading_far_behind_is_weeks_or_late(u: Unwrapper, raw: RawTime, weeks: int)
    requires
        u.last is Some,
        u.wf(),
        u.readings < READINGS_LIMIT,
        in_range(raw),
        told(raw) + u.offset < u.last->0 - 3_000_000_000,
    ensures
        epoch::falls_by_weeks(told(raw) + u.offset - u.last->0, weeks) ==> {
            &&& u.weeks(raw) == weeks
            &&& u.continuous(raw) == told(raw) + u.offset + weeks * 604_800_000_000_000
            &&& u.after(raw).offset == u.offset + weeks * 604_800_000_000_000
            &&& u.behind(raw) == 0
        },
        (forall|n: int| !#[trigger]
            epoch::falls_by_weeks(told(raw) + u.offset - u.last->0, n)) ==> {
            &&& u.weeks(raw) == 0
            &&& u.continuous(raw) == told(raw) + u.offset
            &&& u.after(raw).offset == u.offset
            &&& u.behind(raw) == u.last->0 - (told(raw) + u.offset)
        },
{
    let step = told(raw) + u.offset - u.last->0;
    if epoch::falls_by_weeks(step, weeks) {
        assert(epoch::nearest_weeks(-step) == weeks);
    }
    let n = epoch::nearest_weeks(-step);
    assert(epoch::falls_by_weeks(step, n) == (n >= 1 && -epoch::WEEK_TOL <= step + n * WEEK
        <= epoch::WEEK_TOL));
}

/// The latest time of a clock is the later of the one before and the reading's.
pub proof fn law_latest_time_is_the_later_one(u: Unwrapper, raw: RawTime)
    requires
        u.wf(),
        u.readings < READINGS_LIMIT,
        in_range(raw),
        u.last is Some,
    ensures
        u.after(raw).last is Some,
        u.after(raw).last->0 == if u.continuous(raw) > u.last->0 {
            u.continuous(raw)
        } else {
            u.last->0 as int
        },
{
}

/// A step back of more than three seconds begins a generation, and no other does.
pub proof fn law_three_seconds_back_break_a_generation(backward: int)
    ensures
        breaks(backward) <==> backward > 3_000_000_000,
{
}

} // verus!
