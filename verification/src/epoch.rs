//! Acquisition epochs of one device.
//!
//! Week rollovers, leap seconds and sequence numbers that repeat after a restart
//! all rule out sorting by time stamp alone. Packets are fed in arrival order;
//! each gets the epoch it belongs to and an unwrapped time.

use crate::time;
use crate::time::{Nanos, WEEK};
use vstd::prelude::*;

verus! {

/// Backward steps below this are leap seconds or jitter and open no epoch.
pub const LEAP_TOL: Nanos = 3_000_000_000;

/// How far a backward step may be from whole weeks to count as a rollover.
pub const WEEK_TOL: Nanos = 5_000_000_000;

/// The epoch of a packet and its unwrapped time.
#[derive(Clone, Copy, Debug, PartialEq, Eq, Structural)]
pub struct Stamp {
    pub epoch: u32,
    pub t: Nanos,
}

/// Epoch splitter of one device.
#[derive(Clone, Copy, Debug, PartialEq, Eq, Structural)]
pub struct EpochSplitter {
    pub epoch: u32,
    pub started: bool,
    pub prev_seq: u64,
    pub prev_t: Nanos,
    /// Accumulated by week rollovers and leap seconds.
    pub offset: Nanos,
}

/// How a packet continues what came before it.
pub enum Step {
    /// The very first packet.
    First,
    /// A new epoch: a restart, or a backward step that nothing explains.
    Restart,
    /// The same epoch, with the offset raised by the given amount.
    Continue { raise: int },
}

/// The number of whole weeks nearest to a positive span.
pub open spec fn nearest_weeks(span: int) -> int {
    (span + WEEK / 2) / (WEEK as int)
}

impl EpochSplitter {
    /// The splitter's own bookkeeping is in range: the last raw time is a time
    /// stamp and the offset has room.
    pub open spec fn wf(self) -> bool {
        &&& self.started ==> time::is_stamp(self.prev_t - self.offset)
        &&& self.started ==> 0 <= self.offset <= time::SPAN_LIMIT
    }

    /// The step of raw time since the packet before, in unwrapped time.
    pub open spec fn raw_step(self, t_raw: int) -> int {
        t_raw + self.offset - self.prev_t
    }

    /// What a packet with this sequence number and raw time does.
    pub open spec fn step(self, seq: u64, t_raw: int) -> Step {
        let dt = self.raw_step(t_raw);
        if !self.started {
            Step::First
        } else if seq <= self.prev_seq && dt < LEAP_TOL {
            Step::Restart
        } else if dt < -LEAP_TOL {
            let weeks = nearest_weeks(-dt);
            if weeks >= 1 && -WEEK_TOL <= dt + weeks * WEEK <= WEEK_TOL {
                Step::Continue {
                    raise: if dt + weeks * WEEK < 0 {
                        -dt
                    } else {
                        weeks * WEEK
                    },
                }
            } else {
                Step::Restart
            }
        } else if dt < 0 {
            Step::Continue { raise: -dt }
        } else {
            Step::Continue { raise: 0 }
        }
    }

    /// The epoch that a packet gets.
    pub open spec fn epoch_after(self, seq: u64, t_raw: int) -> int {
        match self.step(seq, t_raw) {
            Step::First => 0,
            Step::Restart => self.epoch + 1,
            Step::Continue { raise } => self.epoch as int,
        }
    }

    /// The offset that holds for a packet.
    pub open spec fn offset_after(self, seq: u64, t_raw: int) -> int {
        match self.step(seq, t_raw) {
            Step::First => 0,
            Step::Restart => 0,
            Step::Continue { raise } => self.offset + raise,
        }
    }

    pub fn new() -> (r: EpochSplitter)
        ensures
            r == (EpochSplitter { epoch: 0, started: false, prev_seq: 0, prev_t: 0, offset: 0 }),
            r.wf(),
    {
        EpochSplitter { epoch: 0, started: false, prev_seq: 0, prev_t: 0, offset: 0 }
    }

    /// Takes the next packet in arrival order.
    pub fn push(&mut self, seq: u64, t_raw: Nanos) -> (r: Stamp)
        requires
            old(self).wf(),
            time::is_stamp(t_raw as int),
            old(self).epoch_after(seq, t_raw as int) <= u32::MAX,
            old(self).offset_after(seq, t_raw as int) <= time::SPAN_LIMIT,
        ensures
            r.epoch == old(self).epoch_after(seq, t_raw as int),
            r.t == t_raw + old(self).offset_after(seq, t_raw as int),
            *final(self) == (EpochSplitter {
                epoch: r.epoch,
                started: true,
                prev_seq: seq,
                prev_t: r.t,
                offset: (r.t - t_raw) as i128,
            }),
            final(self).wf(),
    {
        if !self.started {
            self.started = true;
            self.epoch = 0;
            self.offset = 0;
            self.prev_seq = seq;
            self.prev_t = t_raw;
            return Stamp { epoch: 0, t: t_raw };
        }
        let dt: i128 = t_raw - (self.prev_t - self.offset);
        if seq <= self.prev_seq && dt < LEAP_TOL {
            self.start_new_epoch(seq, t_raw);
            return Stamp { epoch: self.epoch, t: self.prev_t };
        }
        if dt < -LEAP_TOL {
            let weeks: i128 = (-dt + WEEK / 2) / WEEK;
            let rest: i128 = dt + weeks * WEEK;
            if weeks >= 1 && -WEEK_TOL <= rest && rest <= WEEK_TOL {
                self.offset = self.offset + if rest < 0 { -dt } else { weeks * WEEK };
            } else {
                self.start_new_epoch(seq, t_raw);
                return Stamp { epoch: self.epoch, t: self.prev_t };
            }
        } else if dt < 0 {
            self.offset = self.offset + (-dt);
        }
        let t: i128 = t_raw + self.offset;
        self.prev_seq = seq;
        self.prev_t = t;
        Stamp { epoch: self.epoch, t }
    }

    fn start_new_epoch(&mut self, seq: u64, t_raw: Nanos)
        requires
            old(self).epoch < u32::MAX,
        ensures
            *final(self) == (EpochSplitter {
                epoch: (old(self).epoch + 1) as u32,
                started: old(self).started,
                prev_seq: seq,
                prev_t: t_raw,
                offset: 0,
            }),
    {
        self.epoch = self.epoch + 1;
        self.offset = 0;
        self.prev_seq = seq;
        self.prev_t = t_raw;
    }

    /// Whether the next packet can be taken: neither the epoch counter nor the
    /// offset leaves its range.
    pub fn can_push(&self, seq: u64, t_raw: Nanos) -> (r: bool)
        requires
            self.wf(),
            time::is_stamp(t_raw as int),
        ensures
            r == (self.epoch_after(seq, t_raw as int) <= u32::MAX && self.offset_after(
                seq,
                t_raw as int,
            ) <= time::SPAN_LIMIT),
    {
        if !self.started {
            return true;
        }
        let dt: i128 = t_raw - (self.prev_t - self.offset);
        if seq <= self.prev_seq && dt < LEAP_TOL {
            return self.epoch < u32::MAX;
        }
        if dt < -LEAP_TOL {
            let weeks: i128 = (-dt + WEEK / 2) / WEEK;
            let rest: i128 = dt + weeks * WEEK;
            if weeks >= 1 && -WEEK_TOL <= rest && rest <= WEEK_TOL {
                self.offset + (if rest < 0 { -dt } else { weeks * WEEK }) <= time::SPAN_LIMIT
            } else {
                self.epoch < u32::MAX
            }
        } else if dt < 0 {
            self.offset - dt <= time::SPAN_LIMIT
        } else {
            true
        }
    }
}

/// Epochs never go back, and a packet opens at most one.
pub proof fn law_epochs_count_up(s: EpochSplitter, seq: u64, t_raw: int)
    requires
        s.started,
    ensures
        s.epoch <= s.epoch_after(seq, t_raw) <= s.epoch + 1,
{
}

/// Within an epoch unwrapped time never goes back.
pub proof fn law_unwrapped_time_is_monotone(s: EpochSplitter, seq: u64, t_raw: int)
    requires
        s.started,
        s.epoch_after(seq, t_raw) == s.epoch,
    ensures
        t_raw + s.offset_after(seq, t_raw) >= s.prev_t,
{
}

/// A week rollover stays in the epoch: where raw time falls by `weeks` whole
/// weeks less a step of up to the tolerance, and the sequence goes on, unwrapped
/// time goes on by that step, or stays where it was where the step is backward.
pub proof fn law_week_rollover_stays_in_epoch(
    s: EpochSplitter,
    seq: u64,
    t_raw: int,
    weeks: int,
    ahead: int,
)
    requires
        s.started,
        seq > s.prev_seq,
        weeks >= 1,
        -WEEK_TOL <= ahead <= WEEK_TOL,
        s.raw_step(t_raw) == ahead - weeks * WEEK,
    ensures
        s.epoch_after(seq, t_raw) == s.epoch,
        t_raw + s.offset_after(seq, t_raw) == s.prev_t + if ahead < 0 {
            0
        } else {
            ahead
        },
{
    assert(nearest_weeks(weeks * WEEK - ahead) == weeks);
}

/// A leap second stays in the epoch: a backward step of up to the tolerance, in
/// sequence, leaves unwrapped time where it was.
pub proof fn law_leap_second_stays_in_epoch(s: EpochSplitter, seq: u64, t_raw: int)
    requires
        s.started,
        seq > s.prev_seq,
        -LEAP_TOL <= s.raw_step(t_raw) <= 0,
    ensures
        s.epoch_after(seq, t_raw) == s.epoch,
        t_raw + s.offset_after(seq, t_raw) == s.prev_t,
{
}

/// A restart opens an epoch: a sequence number that does not go on, without time
/// going on by the tolerance, starts the next epoch at its own raw time.
pub proof fn law_restart_opens_an_epoch(s: EpochSplitter, seq: u64, t_raw: int)
    requires
        s.started,
        seq <= s.prev_seq,
        s.raw_step(t_raw) < LEAP_TOL,
    ensures
        s.epoch_after(seq, t_raw) == s.epoch + 1,
        s.offset_after(seq, t_raw) == 0,
{
}

// ---- what a packet does, in plain numbers ----------------------------------------------------

/// Whether a step of time is within five seconds of so many weeks back.
pub open spec fn falls_by_weeks(step: int, weeks: int) -> bool {
    weeks >= 1 && -5_000_000_000 <= step + weeks * 604_800_000_000_000 <= 5_000_000_000
}

/// A packet in sequence whose raw time does not step back stays in the epoch, and its
/// unwrapped time is as far from the one before as their raw times are.
pub proof fn law_forward_step_is_kept(s: EpochSplitter, seq: u64, t_raw: int)
    requires
        s.started,
        seq > s.prev_seq,
        t_raw >= s.prev_t - s.offset,
    ensures
        s.epoch_after(seq, t_raw) == s.epoch,
        t_raw + s.offset_after(seq, t_raw) - s.prev_t == t_raw - (s.prev_t - s.offset),
{
}

/// Two packets in sequence whose raw times do not step back keep their distance, whatever
/// came before.
pub proof fn law_two_packets_keep_their_distance(
    s: EpochSplitter,
    seq: u64,
    t_raw: int,
    after: EpochSplitter,
    seq2: u64,
    t_raw2: int,
)
    requires
        after.started,
        after.prev_seq == seq,
        after.epoch == s.epoch_after(seq, t_raw),
        after.prev_t == t_raw + s.offset_after(seq, t_raw),
        after.offset == s.offset_after(seq, t_raw),
        seq2 > seq,
        t_raw2 >= t_raw,
    ensures
        after.epoch_after(seq2, t_raw2) == s.epoch_after(seq, t_raw),
        (t_raw2 + after.offset_after(seq2, t_raw2)) - (t_raw + s.offset_after(seq, t_raw)) == t_raw2
            - t_raw,
{
}

/// The first packet opens epoch zero at its own raw time.
pub proof fn law_first_packet_opens_epoch_zero(s: EpochSplitter, seq: u64, t_raw: int)
    requires
        !s.started,
    ensures
        s.epoch_after(seq, t_raw) == 0,
        s.offset_after(seq, t_raw) == 0,
{
}

/// A sequence number that does not go on is a restart, unless raw time goes on by three
/// seconds or more: that is a wrapped counter, and the step is kept.
pub proof fn law_repeated_number_restarts_unless_time_goes_on(s: EpochSplitter, seq: u64, t_raw: int)
    requires
        s.started,
        seq <= s.prev_seq,
    ensures
        t_raw - (s.prev_t - s.offset) < 3_000_000_000 ==> s.epoch_after(seq, t_raw) == s.epoch + 1
            && s.offset_after(seq, t_raw) == 0,
        t_raw - (s.prev_t - s.offset) >= 3_000_000_000 ==> s.epoch_after(seq, t_raw) == s.epoch
            && t_raw + s.offset_after(seq, t_raw) - s.prev_t == t_raw - (s.prev_t - s.offset),
{
}

/// In sequence, a step back of up to three seconds leaves time where it was.
pub proof fn law_small_step_back_stands_still(s: EpochSplitter, seq: u64, t_raw: int)
    requires
        s.started,
        seq > s.prev_seq,
        -3_000_000_000 <= t_raw - (s.prev_t - s.offset) <= 0,
    ensures
        s.epoch_after(seq, t_raw) == s.epoch,
        t_raw + s.offset_after(seq, t_raw) == s.prev_t,
{
}

/// In sequence, a step back by so many weeks, but for five seconds, goes on by what is
/// left of it, or stands still where that is a step back; any other step back of more
/// than three seconds opens an epoch at its own raw time.
pub proof fn law_large_step_back_is_weeks_or_a_new_epoch(
    s: EpochSplitter,
    seq: u64,
    t_raw: int,
    weeks: int,
)
    requires
        s.started,
        seq > s.prev_seq,
        t_raw - (s.prev_t - s.offset) < -3_000_000_000,
    ensures
        ({
            let step = t_raw - (s.prev_t - s.offset);
            let left = step + weeks * 604_800_000_000_000;
            falls_by_weeks(step, weeks) ==> s.epoch_after(seq, t_raw) == s.epoch && t_raw
                + s.offset_after(seq, t_raw) == s.prev_t + if left < 0 {
                0
            } else {
                left
            }
        }),
        (forall|n: int| !#[trigger] falls_by_weeks(t_raw - (s.prev_t - s.offset), n))
            ==> s.epoch_after(seq, t_raw) == s.epoch + 1 && s.offset_after(seq, t_raw) == 0,
{
    let step = t_raw - (s.prev_t - s.offset);
    if falls_by_weeks(step, weeks) {
        assert(nearest_weeks(-step) == weeks);
    }
    assert(falls_by_weeks(step, nearest_weeks(-step)) || !(nearest_weeks(-step) >= 1 && -WEEK_TOL
        <= step + nearest_weeks(-step) * WEEK <= WEEK_TOL));
}

} // verus!
