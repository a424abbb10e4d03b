//! Packet ingest: packets are first assigned to acquisition generations, then late
//! and overlapping ones are recognised.
//!
//! Packets are never merely sorted by time stamp; generations follow from what the
//! device does. Raw time fields, frame, unit and summary are kept as they came.

use crate::geo;
use crate::geo::{CovarianceCheck, EigenvalueBound};
use crate::rows;
use crate::scalar::Scalar;
use crate::text;
use crate::time;
use crate::time::Nanos;
use vstd::prelude::*;
use vstd::string::*;

verus! {

/// How far outside a generation's window a late packet may lie.
pub const LATE_TOL: Nanos = 1_000_000_000;

/// How far apart two packets with one sequence number may be to overlap.
pub const OVERLAP_TOL: Nanos = 50_000_000;

/// How far behind the newest packet a late packet is at least.
pub const LATE_MARGIN: Nanos = 1_000;

/// Why the first packet of a stream opens a generation.
pub const FIRST_NOTE: &'static str = "首包";

/// Why a packet that starts a new sequence opens a generation.
pub const RESET_NOTE: &'static str = "序号重置（设备重启或周翻转后新序列）";

/// What a late packet is reported with.
pub const LATE_NOTE: &'static str = "迟到包归入既有代次";

/// The variance of every component of a pose without a covariance: the double
/// nearest to a thousandth.
pub const DEFAULT_VARIANCE: u64 = 0x3f50_624d_d2f1_a9fc;

/// The bound on the eigenvalues of a pose's covariance: the double nearest to ten
/// to the power minus twelve.
pub const LEAST_EIGENVALUE: u64 = 0x3d71_9799_812d_ea11;

/// A packet's own time fields. A time of week or a second that is not finite is `None`.
#[derive(Clone, Copy, Debug)]
pub enum RawTime {
    GpsWeekTow { week: i64, tow: Option<Nanos>, week_bits: u32 },
    Utc { y: i64, m: u32, d: u32, h: u32, min: u32, sec: Option<Nanos> },
}

impl RawTime {
    /// The time of week, or the second of a label.
    pub open spec fn field(self) -> Option<Nanos> {
        match self {
            RawTime::GpsWeekTow { week, tow, week_bits } => tow,
            RawTime::Utc { y, m, d, h, min, sec } => sec,
        }
    }

    /// Whether the fields are within the range that is handled.
    pub open spec fn in_range(self) -> bool {
        self.field() is Some ==> time::is_field(self.field()->0 as int)
    }
}

#[derive(Clone, Debug)]
pub struct IncomingPose {
    /// Quaternion x, y, z, w.
    pub q: [Scalar; 4],
    /// Translation in metres.
    pub t: [Scalar; 3],
    /// Six diagonal or 36 row-major numbers.
    pub cov: Option<serde_json::Value>,
}

#[derive(Clone, Debug)]
pub struct IncomingPacket {
    pub device_id: String,
    pub kind: String,
    pub seq: i64,
    pub time: RawTime,
    pub coord_system: String,
    pub unit: String,
    pub points: Vec<Vec<Scalar>>,
    pub pose: Option<IncomingPose>,
}

/// The coordinate system of a packet that names none.
pub fn default_coord() -> (r: String)
    ensures
        r@ == "sensor"@,
{
    "sensor".to_owned()
}

/// The unit of a packet that names none.
pub fn default_unit() -> (r: String)
    ensures
        r@ == "m"@,
{
    "m".to_owned()
}

/// What became of an ingested packet.
#[derive(Clone, Debug)]
pub struct IngestReport {
    pub packet_id: i64,
    pub gen_id: i64,
    pub new_generation: bool,
    pub generation_note: String,
    pub is_late: bool,
    pub is_duplicate: bool,
    pub unix_time: Nanos,
    pub time_desc: String,
    pub content_summary: String,
    pub point_count: usize,
}

/// An acquisition generation of one stream, a device and a kind of packet.
#[derive(Clone, Debug)]
pub struct Generation {
    pub id: i64,
    pub device_id: String,
    pub kind: String,
    pub seq_start: i64,
    /// The last number of the unbroken sequence from the start.
    pub seq_head: i64,
    pub t_start: Nanos,
    pub t_end: Nanos,
    pub note: String,
}

/// An ingested packet.
#[derive(Clone, Debug)]
pub struct StoredPacket {
    pub id: i64,
    pub device_id: String,
    pub kind: String,
    pub seq: i64,
    pub gen_id: i64,
    pub raw_time_json: String,
    pub time_desc: String,
    pub unix_time: Nanos,
    pub coord_system: String,
    pub unit: String,
    pub content_summary: String,
    pub received_order: i64,
    pub is_duplicate: bool,
    pub is_late: bool,
    pub duplicate_of: Option<i64>,
    pub raw_blob_len: usize,
}

/// A point of an ingested packet, in the unit it came in.
#[derive(Clone, Copy, Debug)]
pub struct StoredPoint {
    pub packet_id: i64,
    pub idx_in_packet: usize,
    pub x: Scalar,
    pub y: Scalar,
    pub z: Scalar,
    pub intensity: Scalar,
}

/// A pose of an ingested packet.
#[derive(Clone, Debug)]
pub struct StoredPose {
    pub packet_id: i64,
    pub q: [Scalar; 4],
    pub t: [Scalar; 3],
    pub cov: Vec<Scalar>,
}

/// Everything ingested so far; rows are only ever added.
#[derive(Clone, Debug)]
pub struct Archive {
    pub generations: Vec<Generation>,
    pub packets: Vec<StoredPacket>,
    pub points: Vec<StoredPoint>,
    pub poses: Vec<StoredPose>,
}

// ---- time -----------------------------------------------------------------------

/// The last completed GPS week of a device.
#[derive(Clone, Debug)]
pub struct DeviceWeek {
    pub device: String,
    pub week: i64,
}

/// Whether an entry is a device's.
pub open spec fn entry_of(s: Seq<DeviceWeek>, device: Seq<char>) -> spec_fn(int) -> bool {
    |i: int| s[i].device@ == device
}

/// The last completed GPS week of a device, if there was one.
pub open spec fn week_of(s: Seq<DeviceWeek>, device: Seq<char>) -> Option<i64> {
    match rows::first_where(s.len() as int, entry_of(s, device)) {
        Some(i) => Some(s[i].week),
        None => None,
    }
}

/// The GPS week that a raw week stands for after the last one of its device: the
/// nearest to it, which is that one where no bit of the week is left. The first week of a
/// device stands for itself.
pub open spec fn completed_week(week: int, week_bits: u32, last: Option<i64>) -> Option<int> {
    match last {
        None => Some(
            if week < 0 {
                0
            } else {
                week
            },
        ),
        Some(l) => if week_bits == 0 {
            Some(l as int)
        } else if time::week_fits(week, Some(week_bits), l as int) {
            Some(time::full_week(week, Some(week_bits), l as int))
        } else {
            None
        },
    }
}

/// The GPS week that a device's raw time fields leave it with, where they hold a week
/// that can be completed.
pub open spec fn week_after(raw: RawTime, last: Option<i64>) -> Option<int> {
    match raw {
        RawTime::GpsWeekTow { week, tow, week_bits } => completed_week(week as int, week_bits, last),
        RawTime::Utc { y, m, d, h, min, sec } => None,
    }
}

/// The continuous time of raw time fields; nothing where it is not finite, or where the
/// week cannot be completed.
pub open spec fn continuous_time(raw: RawTime, last: Option<i64>) -> Option<int> {
    match raw {
        RawTime::GpsWeekTow { week, tow, week_bits } => match (week_after(raw, last), tow) {
            (Some(w), Some(x)) => Some(time::unix_of_gps(w * time::WEEK + x)),
            _ => None,
        },
        RawTime::Utc { y, m, d, h, min, sec } => match sec {
            Some(x) => Some(
                time::unix_of_gps(
                    time::gps_of_label(
                        y as int,
                        m as int,
                        d as int,
                        h as int,
                        min as int,
                        x as int,
                    ),
                ),
            ),
            None => None,
        },
    }
}

/// The rendering of raw time fields that are finite, seconds to the nearest thousandth.
pub open spec fn description(raw: RawTime) -> Seq<char> {
    let seconds = time::shown(raw.field()->0 as int, 1_000_000, 3);
    match raw {
        RawTime::GpsWeekTow { week, tow, week_bits } => "gps(w="@ + text::decimal(week as int)
            + ",tow="@ + seconds + ","@ + text::decimal(week_bits as int) + "b)"@,
        RawTime::Utc { y, m, d, h, min, sec } => "utc("@ + text::decimal(y as int) + "-"@
            + text::decimal(m as int) + "-"@ + text::decimal(d as int) + "T"@ + text::decimal(
            h as int,
        ) + ":"@ + text::decimal(min as int) + ":"@ + seconds + ")"@,
    }
}

fn add_decimal(s: &mut String, n: i128)
    ensures
        final(s)@ == old(s)@ + text::decimal(n as int),
{
    let d = text::decimal_text(n);
    s.append(d.as_str());
}

fn add_seconds(s: &mut String, t: Nanos)
    requires
        time::is_field(t as int),
    ensures
        final(s)@ == old(s)@ + time::shown(t as int, 1_000_000, 3),
{
    let d = time::show(t, 1_000_000, 3);
    s.append(d.as_str());
}

impl RawTime {
    /// Renders the fields for display.
    pub fn describe(&self) -> (r: String)
        requires
            self.in_range(),
            self.field() is Some,
        ensures
            r@ == description(*self),
    {
        match *self {
            RawTime::GpsWeekTow { week, tow, week_bits } => {
                let mut s = "gps(w=".to_owned();
                add_decimal(&mut s, week as i128);
                s.append(",tow=");
                if let Some(x) = tow {
                    add_seconds(&mut s, x);
                }
                s.append(",");
                add_decimal(&mut s, week_bits as i128);
                s.append("b)");
                s
            },
            RawTime::Utc { y, m, d, h, min, sec } => {
                let mut s = "utc(".to_owned();
                add_decimal(&mut s, y as i128);
                s.append("-");
                add_decimal(&mut s, m as i128);
                s.append("-");
                add_decimal(&mut s, d as i128);
                s.append("T");
                add_decimal(&mut s, h as i128);
                s.append(":");
                add_decimal(&mut s, min as i128);
                s.append(":");
                if let Some(x) = sec {
                    add_seconds(&mut s, x);
                }
                s.append(")");
                s
            },
        }
    }
}

/// Ingests packets, keeping the last completed GPS week of each device.
#[derive(Clone, Debug)]
pub struct Ingester {
    pub week_state: Vec<DeviceWeek>,
}

impl Ingester {
    pub fn new() -> (r: Ingester)
        ensures
            forall|d: Seq<char>| #[trigger] week_of(r.week_state@, d) is None,
    {
        Ingester { week_state: Vec::new() }
    }

    fn find_week(&self, device: &str) -> (r: Option<usize>)
        ensures
            match r {
                Some(i) => rows::first_where(
                    self.week_state@.len() as int,
                    entry_of(self.week_state@, device@),
                ) == Some(i as int) && i < self.week_state@.len(),
                None => rows::first_where(
                    self.week_state@.len() as int,
                    entry_of(self.week_state@, device@),
                ) is None,
            },
    {
        let ghost holds = entry_of(self.week_state@, device@);
        let mut i: usize = 0;
        while i < self.week_state.len()
            invariant
                i <= self.week_state.len(),
                holds == entry_of(self.week_state@, device@),
                rows::first_where(i as int, holds) is None,
                forall|k: int| 0 <= k < i ==> !#[trigger] holds(k),
            decreases self.week_state.len() - i,
        {
            if text::same(self.week_state[i].device.as_str(), device) {
                proof {
                    rows::lemma_first_is(self.week_state@.len() as int, holds, i as int);
                }
                return Some(i);
            }
            i += 1;
        }
        None
    }

    fn set_week(&mut self, device: &str, week: i64)
        ensures
            forall|d: Seq<char>| #[trigger]
                week_of(final(self).week_state@, d) == if d == device@ {
                    Some(week)
                } else {
                    week_of(old(self).week_state@, d)
                },
    {
        let ghost before = self.week_state@;
        let n: usize = self.week_state.len();
        match self.find_week(device) {
            Some(i) => {
                self.week_state[i].week = week;
                proof {
                    let after = self.week_state@;
                    assert forall|d: Seq<char>| #[trigger] week_of(after, d) == if d == device@ {
                        Some(week)
                    } else {
                        week_of(before, d)
                    } by {
                        let h = entry_of(before, d);
                        let g = entry_of(after, d);
                        rows::lemma_first_where(n as int, h);
                        rows::lemma_first_where(n as int, g);
                        let hb = entry_of(before, device@);
                        rows::lemma_first_where(n as int, hb);
                        assert forall|k: int| 0 <= k < n implies #[trigger] h(k) == g(k) by {
                            assert(after[k].device == before[k].device);
                        }
                        match rows::first_where(n as int, h) {
                            Some(j) => {
                                assert forall|k: int| 0 <= k < j implies !#[trigger] g(k) by {
                                    assert(!h(k));
                                }
                                rows::lemma_first_is(n as int, g, j);
                            },
                            None => {
                                match rows::first_where(n as int, g) {
                                    Some(j) => {
                                        assert(h(j));
                                    },
                                    None => {},
                                }
                            },
                        }
                    }
                }
            },
            None => {
                self.week_state.push(DeviceWeek { device: device.to_owned(), week });
                proof {
                    let after = self.week_state@;
                    assert forall|d: Seq<char>| #[trigger] week_of(after, d) == if d == device@ {
                        Some(week)
                    } else {
                        week_of(before, d)
                    } by {
                        let h = entry_of(before, d);
                        let g = entry_of(after, d);
                        rows::lemma_first_where(n as int, h);
                        let hb = entry_of(before, device@);
                        rows::lemma_first_where(n as int, hb);
                        match rows::first_where(n as int, h) {
                            Some(j) => {
                                assert forall|k: int| 0 <= k < j implies !#[trigger] g(k) by {
                                    assert(!h(k));
                                }
                                assert(g(j));
                                rows::lemma_first_is(n as int + 1, g, j);
                                assert(hb(j) == (d == device@));
                            },
                            None => {
                                assert forall|k: int| 0 <= k < n implies !#[trigger] g(k) by {
                                    assert(!h(k));
                                }
                                rows::lemma_first_where(n as int + 1, g);
                                if d == device@ {
                                    rows::lemma_first_is(n as int + 1, g, n as int);
                                } else {
                                    assert(!g(n as int));
                                }
                            },
                        }
                    }
                }
            },
        }
    }

    /// The continuous time of raw time fields, and the device's week from then on, which a
    /// week that can be completed moves on even where the time is not finite.
    pub fn normalize(&mut self, device: &str, raw: &RawTime) -> (r: Option<Nanos>)
        requires
            raw.in_range(),
        ensures
            ({
                let last = week_of(old(self).week_state@, device@);
                let t = continuous_time(*raw, last);
                let week = week_after(*raw, last);
                &&& r is Some == t is Some
                &&& r is Some ==> r->0 == t->0 && time::is_span(r->0 as int)
                &&& forall|d: Seq<char>| #[trigger]
                    week_of(final(self).week_state@, d) == if d == device@ && week is Some {
                        Some(week->0 as i64)
                    } else {
                        week_of(old(self).week_state@, d)
                    }
            }),
    {
        match *raw {
            RawTime::GpsWeekTow { week, tow, week_bits } => {
                let completed: Option<i64> = match self.find_week(device) {
                    Some(i) => if week_bits == 0 {
                        Some(self.week_state[i].week)
                    } else {
                        time::try_unwrap_week(week, Some(week_bits), self.week_state[i].week)
                    },
                    None => Some(
                        if week < 0 {
                            0
                        } else {
                            week
                        },
                    ),
                };
                match completed {
                    Some(w) => {
                        self.set_week(device, w);
                        match tow {
                            Some(x) => Some(time::gps_to_unix(w, x)),
                            None => None,
                        }
                    },
                    None => None,
                }
            },
            RawTime::Utc { y, m, d, h, min, sec } => {
                match sec {
                    Some(x) => Some(time::utc_to_unix(y, m, d, h, min, x)),
                    None => None,
                }
            },
        }
    }
}

// ---- generations ----------------------------------------------------------------

/// Whether a generation belongs to a stream.
pub open spec fn in_stream(g: Generation, device: Seq<char>, kind: Seq<char>) -> bool {
    g.device_id@ == device && g.kind@ == kind
}

/// Whether a generation's window is exactly the span of its packets' times.
pub open spec fn window_is_exact(g: Generation, packets: Seq<StoredPacket>) -> bool {
    &&& forall|i: int|
        0 <= i < packets.len() && (#[trigger] packets[i]).gen_id == g.id ==> g.t_start
            <= packets[i].unix_time <= g.t_end
    &&& exists|i: int|
        0 <= i < packets.len() && (#[trigger] packets[i]).gen_id == g.id && packets[i].unix_time
            == g.t_start
    &&& exists|i: int|
        0 <= i < packets.len() && (#[trigger] packets[i]).gen_id == g.id && packets[i].unix_time
            == g.t_end
}

impl Archive {
    pub fn new() -> (r: Archive)
        ensures
            r.wf(),
            r.generations@.len() == 0,
            r.packets@.len() == 0,
            r.points@.len() == 0,
            r.poses@.len() == 0,
    {
        Archive {
            generations: Vec::new(),
            packets: Vec::new(),
            points: Vec::new(),
            poses: Vec::new(),
        }
    }

    /// Rows are numbered from one in the order they came in, every packet is in a
    /// generation of its own stream, and windows are exact.
    pub open spec fn wf(self) -> bool {
        let gens = self.generations@;
        let packets = self.packets@;
        &&& forall|i: int| 0 <= i < gens.len() ==> (#[trigger] gens[i]).id == i + 1
        &&& forall|i: int|
            0 <= i < packets.len() ==> (#[trigger] packets[i]).id == i + 1
                && packets[i].received_order == i + 1 && time::is_span(packets[i].unix_time as int)
        &&& forall|i: int|
            0 <= i < packets.len() ==> 1 <= (#[trigger] packets[i]).gen_id <= gens.len()
                && in_stream(gens[packets[i].gen_id - 1], packets[i].device_id@, packets[i].kind@)
        &&& forall|i: int| 0 <= i < gens.len() ==> window_is_exact(#[trigger] gens[i], packets)
    }
}

/// Whether a generation is one of a stream.
pub open spec fn of_stream(gens: Seq<Generation>, device: Seq<char>, kind: Seq<char>) -> spec_fn(
    int,
) -> bool {
    |i: int| in_stream(gens[i], device, kind)
}

/// Whether a packet is one that a new packet of its stream overlaps: it has the same
/// number at a time within the tolerance, and is no duplicate itself.
pub open spec fn overlapped(
    packets: Seq<StoredPacket>,
    device: Seq<char>,
    kind: Seq<char>,
    seq: int,
    t: int,
) -> spec_fn(int) -> bool {
    |i: int|
        packets[i].device_id@ == device && packets[i].kind@ == kind && packets[i].seq == seq
            && !packets[i].is_duplicate && time::distance(packets[i].unix_time as int, t)
            <= OVERLAP_TOL
}

/// Whether a generation is one of a stream whose window holds a time, give or take
/// the tolerance for late packets.
pub open spec fn holds_time(
    gens: Seq<Generation>,
    device: Seq<char>,
    kind: Seq<char>,
    t: int,
) -> spec_fn(int) -> bool {
    |i: int|
        in_stream(gens[i], device, kind) && gens[i].t_start - LATE_TOL <= t && t <= gens[i].t_end
            + LATE_TOL
}

/// Whether a packet is one of a generation that a new packet repeats: it has the
/// same number at a time within the tolerance, and is no duplicate itself.
pub open spec fn repeated(packets: Seq<StoredPacket>, gen_id: int, seq: int, t: int) -> spec_fn(
    int,
) -> bool {
    |i: int|
        packets[i].gen_id == gen_id && packets[i].seq == seq && !packets[i].is_duplicate
            && time::distance(packets[i].unix_time as int, t) <= OVERLAP_TOL
}

/// The greatest time among the packets of a generation that were not late, looking
/// at the first `n` packets.
pub open spec fn newest_on_time(packets: Seq<StoredPacket>, gen_id: int, n: int) -> Option<int>
    decreases n,
{
    if n <= 0 {
        None
    } else {
        let before = newest_on_time(packets, gen_id, n - 1);
        let p = packets[n - 1];
        if p.gen_id == gen_id && !p.is_late {
            match before {
                Some(x) => if x < p.unix_time {
                    Some(p.unix_time as int)
                } else {
                    before
                },
                None => Some(p.unix_time as int),
            }
        } else {
            before
        }
    }
}

/// The time that packets of a generation must come up to so as not to be late.
pub open spec fn head_time(db: Archive, g: int) -> int {
    match newest_on_time(db.packets@, db.generations@[g].id as int, db.packets@.len() as int) {
        Some(x) => x,
        None => db.generations@[g].t_start as int,
    }
}

/// Where a packet goes: to a generation by position, or to one that it opens, and
/// whether it is late.
pub struct Placement {
    pub gen: Option<int>,
    pub late: bool,
    pub note: Seq<char>,
}

/// Where a packet goes.
#[verifier::opaque]
pub open spec fn placement(
    db: Archive,
    device: Seq<char>,
    kind: Seq<char>,
    seq: int,
    t: int,
) -> Placement {
    let gens = db.generations@;
    let packets = db.packets@;
    match rows::last_where(gens.len() as int, of_stream(gens, device, kind)) {
        None => Placement { gen: None, late: false, note: FIRST_NOTE@ },
        Some(g) => match rows::first_where(
            packets.len() as int,
            overlapped(packets, device, kind, seq, t),
        ) {
            Some(k) => Placement {
                gen: Some(packets[k].gen_id - 1),
                late: false,
                note: gens[g].note@,
            },
            None => if seq < gens[g].seq_head || (seq == gens[g].seq_start && t < gens[g].t_start
                - LATE_TOL) {
                Placement { gen: None, late: false, note: RESET_NOTE@ }
            } else {
                match rows::last_where(gens.len() as int, holds_time(gens, device, kind, t)) {
                    Some(l) => if t < head_time(db, g) - LATE_MARGIN {
                        Placement { gen: Some(l), late: true, note: LATE_NOTE@ }
                    } else {
                        Placement { gen: Some(g), late: false, note: gens[g].note@ }
                    },
                    None => Placement { gen: Some(g), late: false, note: gens[g].note@ },
                }
            },
        },
    }
}

/// The position of the generation that a packet goes to.
pub open spec fn target(db: Archive, device: Seq<char>, kind: Seq<char>, seq: int, t: int) -> int {
    match placement(db, device, kind, seq, t).gen {
        Some(i) => i,
        None => db.generations@.len() as int,
    }
}

/// The packet that a new packet of a generation repeats, by position.
pub open spec fn original(db: Archive, gen_id: int, seq: int, t: int) -> Option<int> {
    rows::first_where(db.packets@.len() as int, repeated(db.packets@, gen_id, seq, t))
}

proof fn lemma_target(db: Archive, device: Seq<char>, kind: Seq<char>, seq: int, t: int)
    requires
        db.wf(),
    ensures
        ({
            let place = placement(db, device, kind, seq, t);
            match place.gen {
                Some(i) => 0 <= i < db.generations@.len() && in_stream(
                    db.generations@[i],
                    device,
                    kind,
                ),
                None => true,
            }
        }),
{
    reveal(placement);
    let gens = db.generations@;
    let packets = db.packets@;
    rows::lemma_last_where(gens.len() as int, of_stream(gens, device, kind));
    rows::lemma_first_where(packets.len() as int, overlapped(packets, device, kind, seq, t));
    rows::lemma_last_where(gens.len() as int, holds_time(gens, device, kind, t));
}

/// A generation that opens holds no packet yet, so its first packet is no duplicate.
proof fn lemma_fresh_generation(db: Archive, seq: int, t: int)
    requires
        db.wf(),
    ensures
        original(db, db.generations@.len() as int + 1, seq, t) is None,
{
    let holds = repeated(db.packets@, db.generations@.len() as int + 1, seq, t);
    rows::lemma_first_where(db.packets@.len() as int, holds);
    match rows::first_where(db.packets@.len() as int, holds) {
        Some(i) => {
            assert(db.packets@[i].gen_id <= db.generations@.len());
        },
        None => {},
    }
}

/// A packet that overlaps one of its stream joins that packet's generation and is a
/// duplicate of a packet of it.
pub proof fn law_overlapping_packet_is_a_duplicate(
    db: Archive,
    device: Seq<char>,
    kind: Seq<char>,
    seq: int,
    t: int,
    k: int,
)
    requires
        db.wf(),
        rows::first_where(
            db.packets@.len() as int,
            overlapped(db.packets@, device, kind, seq, t),
        ) == Some(k),
    ensures
        placement(db, device, kind, seq, t).gen == Some(db.packets@[k].gen_id - 1),
        original(db, target(db, device, kind, seq, t) + 1, seq, t) is Some,
{
    reveal(placement);
    let gens = db.generations@;
    let packets = db.packets@;
    let over = overlapped(packets, device, kind, seq, t);
    rows::lemma_first_where(packets.len() as int, over);
    assert(over(k));
    let g = packets[k].gen_id - 1;
    let stream = of_stream(gens, device, kind);
    assert(stream(g));
    rows::lemma_last_where(gens.len() as int, stream);
    let rep = repeated(packets, g + 1, seq, t);
    assert(rep(k));
    rows::lemma_first_where(packets.len() as int, rep);
}

/// A packet whose number is below its stream's newest sequence opens a generation,
/// unless it overlaps a packet that is there.
pub proof fn law_number_below_the_head_opens_a_generation(
    db: Archive,
    device: Seq<char>,
    kind: Seq<char>,
    seq: int,
    t: int,
    g: int,
)
    requires
        rows::last_where(db.generations@.len() as int, of_stream(db.generations@, device, kind))
            == Some(g),
        rows::first_where(
            db.packets@.len() as int,
            overlapped(db.packets@, device, kind, seq, t),
        ) is None,
        seq < db.generations@[g].seq_head,
    ensures
        placement(db, device, kind, seq, t).gen is None,
        !placement(db, device, kind, seq, t).late,
{
    reveal(placement);
}

/// A late packet joins a generation of its stream whose window holds its time.
pub proof fn law_late_packet_joins_a_window_that_holds_it(
    db: Archive,
    device: Seq<char>,
    kind: Seq<char>,
    seq: int,
    t: int,
)
    requires
        placement(db, device, kind, seq, t).late,
    ensures
        ({
            let i = placement(db, device, kind, seq, t).gen;
            &&& i is Some
            &&& 0 <= i->0 < db.generations@.len()
            &&& in_stream(db.generations@[i->0], device, kind)
            &&& db.generations@[i->0].t_start - LATE_TOL <= t
            &&& t <= db.generations@[i->0].t_end + LATE_TOL
        }),
{
    reveal(placement);
    rows::lemma_last_where(
        db.generations@.len() as int,
        holds_time(db.generations@, device, kind, t),
    );
}

fn apart(a: Nanos, b: Nanos) -> (r: Nanos)
    requires
        time::is_span(a as int),
        time::is_span(b as int),
    ensures
        r == time::distance(a as int, b as int),
{
    if a <= b {
        b - a
    } else {
        a - b
    }
}

impl Archive {
    fn load_latest_gen(&self, device: &str, kind: &str) -> (r: Option<usize>)
        ensures
            match r {
                Some(i) => rows::last_where(
                    self.generations@.len() as int,
                    of_stream(self.generations@, device@, kind@),
                ) == Some(i as int) && i < self.generations@.len(),
                None => rows::last_where(
                    self.generations@.len() as int,
                    of_stream(self.generations@, device@, kind@),
                ) is None,
            },
    {
        let ghost holds = of_stream(self.generations@, device@, kind@);
        let ghost all = rows::last_where(self.generations@.len() as int, holds);
        let mut i: usize = self.generations.len();
        while i > 0
            invariant
                i <= self.generations@.len(),
                holds == of_stream(self.generations@, device@, kind@),
                all == rows::last_where(self.generations@.len() as int, holds),
                all == rows::last_where(i as int, holds),
            decreases i,
        {
            let g = &self.generations[i - 1];
            assert(holds(i - 1) == in_stream(*g, device@, kind@));
            if text::same(g.device_id.as_str(), device) && text::same(g.kind.as_str(), kind) {
                return Some(i - 1);
            }
            i -= 1;
        }
        None
    }

    fn find_late_gen(&self, device: &str, kind: &str, t: Nanos) -> (r: Option<usize>)
        requires
            self.wf(),
            time::is_span(t as int),
        ensures
            match r {
                Some(i) => rows::last_where(
                    self.generations@.len() as int,
                    holds_time(self.generations@, device@, kind@, t as int),
                ) == Some(i as int) && i < self.generations@.len(),
                None => rows::last_where(
                    self.generations@.len() as int,
                    holds_time(self.generations@, device@, kind@, t as int),
                ) is None,
            },
    {
        let ghost holds = holds_time(self.generations@, device@, kind@, t as int);
        let ghost all = rows::last_where(self.generations@.len() as int, holds);
        let mut i: usize = self.generations.len();
        while i > 0
            invariant
                i <= self.generations@.len(),
                self.wf(),
                time::is_span(t as int),
                holds == holds_time(self.generations@, device@, kind@, t as int),
                all == rows::last_where(self.generations@.len() as int, holds),
                all == rows::last_where(i as int, holds),
            decreases i,
        {
            let g = &self.generations[i - 1];
            proof {
                lemma_window_span(*self, i - 1);
                assert(holds(i - 1) == (in_stream(*g, device@, kind@) && g.t_start - LATE_TOL <= t
                    && t <= g.t_end + LATE_TOL));
            }
            if text::same(g.device_id.as_str(), device) && text::same(g.kind.as_str(), kind)
                && g.t_start - LATE_TOL <= t && t <= g.t_end + LATE_TOL {
                return Some(i - 1);
            }
            i -= 1;
        }
        None
    }

    fn find_overlap(&self, device: &str, kind: &str, seq: i64, t: Nanos) -> (r: Option<usize>)
        requires
            self.wf(),
            time::is_span(t as int),
        ensures
            match r {
                Some(i) => rows::first_where(
                    self.packets@.len() as int,
                    overlapped(self.packets@, device@, kind@, seq as int, t as int),
                ) == Some(i as int) && i < self.packets@.len(),
                None => rows::first_where(
                    self.packets@.len() as int,
                    overlapped(self.packets@, device@, kind@, seq as int, t as int),
                ) is None,
            },
    {
        let ghost holds = overlapped(self.packets@, device@, kind@, seq as int, t as int);
        let mut i: usize = 0;
        while i < self.packets.len()
            invariant
                i <= self.packets@.len(),
                self.wf(),
                time::is_span(t as int),
                holds == overlapped(self.packets@, device@, kind@, seq as int, t as int),
                rows::first_where(i as int, holds) is None,
                forall|k: int| 0 <= k < i ==> !#[trigger] holds(k),
            decreases self.packets.len() - i,
        {
            let p = &self.packets[i];
            if p.seq == seq && !p.is_duplicate && apart(p.unix_time, t) <= OVERLAP_TOL
                && text::same(p.device_id.as_str(), device) && text::same(p.kind.as_str(), kind) {
                proof {
                    assert(holds(i as int));
                    rows::lemma_first_is(self.packets@.len() as int, holds, i as int);
                }
                return Some(i);
            }
            assert(!holds(i as int));
            i += 1;
        }
        None
    }

    fn find_same_seq(&self, gen_id: i64, seq: i64, t: Nanos) -> (r: Option<usize>)
        requires
            self.wf(),
            time::is_span(t as int),
        ensures
            match r {
                Some(i) => original(*self, gen_id as int, seq as int, t as int) == Some(i as int) && i
                    < self.packets@.len(),
                None => original(*self, gen_id as int, seq as int, t as int) is None,
            },
    {
        let ghost holds = repeated(self.packets@, gen_id as int, seq as int, t as int);
        let mut i: usize = 0;
        while i < self.packets.len()
            invariant
                i <= self.packets@.len(),
                self.wf(),
                time::is_span(t as int),
                holds == repeated(self.packets@, gen_id as int, seq as int, t as int),
                rows::first_where(i as int, holds) is None,
                forall|k: int| 0 <= k < i ==> !#[trigger] holds(k),
            decreases self.packets.len() - i,
        {
            let p = &self.packets[i];
            if p.gen_id == gen_id && p.seq == seq && !p.is_duplicate && apart(p.unix_time, t)
                <= OVERLAP_TOL {
                proof {
                    assert(holds(i as int));
                    rows::lemma_first_is(self.packets@.len() as int, holds, i as int);
                }
                return Some(i);
            }
            assert(!holds(i as int));
            i += 1;
        }
        None
    }

    fn head_of(&self, g: usize) -> (r: Nanos)
        requires
            self.wf(),
            g < self.generations@.len(),
        ensures
            r == head_time(*self, g as int),
            time::is_span(r as int),
    {
        let id: i64 = self.generations[g].id;
        let mut best: Option<Nanos> = None;
        let mut i: usize = 0;
        while i < self.packets.len()
            invariant
                i <= self.packets@.len(),
                self.wf(),
                best is Some == newest_on_time(self.packets@, id as int, i as int) is Some,
                best is Some ==> best->0 == newest_on_time(self.packets@, id as int, i as int)->0
                    && time::is_span(best->0 as int),
            decreases self.packets.len() - i,
        {
            let p = &self.packets[i];
            if p.gen_id == id && !p.is_late {
                best = match best {
                    Some(x) => if x < p.unix_time {
                        Some(p.unix_time)
                    } else {
                        Some(x)
                    },
                    None => Some(p.unix_time),
                };
            }
            i += 1;
        }
        match best {
            Some(x) => x,
            None => {
                proof {
                    lemma_window_span(*self, g as int);
                }
                self.generations[g].t_start
            },
        }
    }

    /// Where a packet goes.
    fn place(&self, device: &str, kind: &str, seq: i64, t: Nanos) -> (r: (
        Option<usize>,
        bool,
        String,
    ))
        requires
            self.wf(),
            time::is_span(t as int),
        ensures
            ({
                let p = placement(*self, device@, kind@, seq as int, t as int);
                &&& r.0 is Some == p.gen is Some
                &&& r.0 is Some ==> r.0->0 == p.gen->0 && r.0->0 < self.generations@.len()
                &&& r.1 == p.late
                &&& r.2@ == p.note
            }),
    {
        proof {
            reveal(placement);
            lemma_target(*self, device@, kind@, seq as int, t as int);
        }
        let g: usize = match self.load_latest_gen(device, kind) {
            None => {
                return (None, false, FIRST_NOTE.to_owned());
            },
            Some(g) => g,
        };
        if let Some(k) = self.find_overlap(device, kind, seq, t) {
            assert(1 <= self.packets@[k as int].gen_id <= self.generations.len());
            let at: usize = (self.packets[k].gen_id - 1) as usize;
            return (Some(at), false, self.generations[g].note.clone());
        }
        proof {
            lemma_window_span(*self, g as int);
        }
        if seq < self.generations[g].seq_head || (seq == self.generations[g].seq_start && t
            < self.generations[g].t_start - LATE_TOL) {
            return (None, false, RESET_NOTE.to_owned());
        }
        let late = self.find_late_gen(device, kind, t);
        match late {
            Some(l) => if t < self.head_of(g) - LATE_MARGIN {
                (Some(l), true, LATE_NOTE.to_owned())
            } else {
                (Some(g), false, self.generations[g].note.clone())
            },
            None => (Some(g), false, self.generations[g].note.clone()),
        }
    }
}

proof fn lemma_window_span(db: Archive, g: int)
    requires
        db.wf(),
        0 <= g < db.generations@.len(),
    ensures
        time::is_span(db.generations@[g].t_start as int),
        time::is_span(db.generations@[g].t_end as int),
{
    assert(window_is_exact(db.generations@[g], db.packets@));
}

// ---- ingest ---------------------------------------------------------------------

/// The 64-bit FNV-1a hash of the first `n` bytes.
pub open spec fn fnv1a64_of(bytes: Seq<u8>, n: int) -> u64
    decreases n,
{
    if n <= 0 {
        0xcbf2_9ce4_8422_2325
    } else {
        (fnv1a64_of(bytes, n - 1) ^ bytes[n - 1] as u64).wrapping_mul(0x100_0000_01b3)
    }
}

/// The 64-bit FNV-1a hash.
pub fn fnv1a64(bytes: &Vec<u8>) -> (r: u64)
    ensures
        r == fnv1a64_of(bytes@, bytes@.len() as int),
{
    let mut h: u64 = 0xcbf2_9ce4_8422_2325;
    let mut i: usize = 0;
    while i < bytes.len()
        invariant
            i <= bytes.len(),
            h == fnv1a64_of(bytes@, i as int),
        decreases bytes.len() - i,
    {
        h = (h ^ bytes[i] as u64).wrapping_mul(0x100_0000_01b3);
        i += 1;
    }
    h
}

/// The summary of a packet with `n` points and the given encoding.
pub open spec fn summary_of(n: int, payload: Seq<u8>) -> Seq<char> {
    "n="@ + text::decimal(n) + ";bytes="@ + text::decimal(payload.len() as int) + ";fnv1a64=0x"@
        + text::hex_padded(fnv1a64_of(payload, payload.len() as int) as nat, 16)
}

/// The summary of a packet with `n` points and the given encoding.
pub fn content_summary(n: usize, payload: &Vec<u8>) -> (r: String)
    ensures
        r@ == summary_of(n as int, payload@),
{
    let mut s = "n=".to_owned();
    add_decimal(&mut s, n as i128);
    s.append(";bytes=");
    add_decimal(&mut s, payload.len() as i128);
    s.append(";fnv1a64=0x");
    let h = text::hex_text(fnv1a64(payload), 16);
    s.append(h.as_str());
    s
}

/// Why a point is refused: it has too few coordinates, or one of the first three is
/// not finite.
pub open spec fn point_error(pt: Seq<Scalar>) -> Option<Seq<char>> {
    if pt.len() < 3 {
        Some("点至少需要 x,y,z"@)
    } else if !pt[0].finite() || !pt[1].finite() || !pt[2].finite() {
        Some("点坐标含非有限值"@)
    } else {
        None
    }
}

/// Why the first `n` points are refused: what is wrong with the first bad one.
pub open spec fn points_error(points: Seq<Vec<Scalar>>, n: int) -> Option<Seq<char>>
    decreases n,
{
    if n <= 0 {
        None
    } else {
        match points_error(points, n - 1) {
            Some(m) => Some(m),
            None => point_error(points[n - 1]@),
        }
    }
}

/// Whether all numbers of a pose are finite.
pub open spec fn pose_is_finite(pose: IncomingPose) -> bool {
    &&& forall|i: int| 0 <= i < 4 ==> (#[trigger] pose.q@[i]).finite()
    &&& forall|i: int| 0 <= i < 3 ==> (#[trigger] pose.t@[i]).finite()
}

/// Why a packet's payload is refused.
pub open spec fn payload_error(p: IncomingPacket) -> Option<Seq<char>> {
    if p.kind@ != "lidar"@ && p.kind@ != "pose"@ {
        Some("kind 必须是 lidar 或 pose"@)
    } else if p.kind@ == "lidar"@ && points_error(p.points@, p.points@.len() as int) is Some {
        points_error(p.points@, p.points@.len() as int)
    } else if p.pose is Some && !pose_is_finite(p.pose->0) {
        Some("姿态含非有限值"@)
    } else {
        None
    }
}

fn check_points(points: &Vec<Vec<Scalar>>) -> (r: Option<String>)
    ensures
        match r {
            Some(m) => points_error(points@, points@.len() as int) == Some(m@),
            None => points_error(points@, points@.len() as int) is None,
        },
{
    let mut i: usize = 0;
    while i < points.len()
        invariant
            i <= points.len(),
            points_error(points@, i as int) is None,
        decreases points.len() - i,
    {
        let pt = &points[i];
        if pt.len() < 3 {
            let m = "点至少需要 x,y,z".to_owned();
            proof {
                lemma_first_bad_point(points@, i as int, points@.len() as int);
            }
            return Some(m);
        }
        if !pt[0].is_finite() || !pt[1].is_finite() || !pt[2].is_finite() {
            let m = "点坐标含非有限值".to_owned();
            proof {
                lemma_first_bad_point(points@, i as int, points@.len() as int);
            }
            return Some(m);
        }
        i += 1;
    }
    None
}

proof fn lemma_first_bad_point(points: Seq<Vec<Scalar>>, i: int, n: int)
    requires
        0 <= i < n <= points.len(),
        points_error(points, i) is None,
        point_error(points[i]@) is Some,
    ensures
        points_error(points, n) == point_error(points[i]@),
    decreases n,
{
    if n - 1 > i {
        lemma_first_bad_point(points, i, n - 1);
    }
}

fn finite_pose(pose: &IncomingPose) -> (r: bool)
    ensures
        r == pose_is_finite(*pose),
{
    pose.q[0].is_finite() && pose.q[1].is_finite() && pose.q[2].is_finite()
        && pose.q[3].is_finite() && pose.t[0].is_finite() && pose.t[1].is_finite()
        && pose.t[2].is_finite()
}

fn check_payload(p: &IncomingPacket) -> (r: Option<String>)
    ensures
        match r {
            Some(m) => payload_error(*p) == Some(m@),
            None => payload_error(*p) is None,
        },
{
    let lidar = text::same(p.kind.as_str(), "lidar");
    if !lidar && !text::same(p.kind.as_str(), "pose") {
        return Some("kind 必须是 lidar 或 pose".to_owned());
    }
    if lidar {
        if let Some(m) = check_points(&p.points) {
            return Some(m);
        }
    }
    if let Some(pose) = &p.pose {
        if !finite_pose(pose) {
            return Some("姿态含非有限值".to_owned());
        }
    }
    None
}

/// A pose's covariance: the one that came with it, or the default.
pub open spec fn pose_covariance(pose: IncomingPose) -> Result<Seq<Scalar>, Seq<char>> {
    match pose.cov {
        Some(v) => geo::covariance(geo::json_numbers(v)),
        None => Ok(geo::identity_times(Scalar { bits: DEFAULT_VARIANCE })),
    }
}

/// The bound on the eigenvalues of a pose's covariance.
pub open spec fn pose_bound() -> EigenvalueBound {
    EigenvalueBound { value: Scalar { bits: LEAST_EIGENVALUE }, text: "1e-12" }
}

/// Why a pose's covariance is refused.
pub open spec fn covariance_error(pose: IncomingPose, check: CovarianceCheck) -> Option<Seq<char>> {
    match pose_covariance(pose) {
        Err(m) => Some(m),
        Ok(c) => geo::verdict(c, check, pose_bound()),
    }
}

fn checked_covariance(pose: &IncomingPose, check: &CovarianceCheck) -> (r: Result<
    Vec<Scalar>,
    String,
>)
    ensures
        match r {
            Ok(c) => covariance_error(*pose, *check) is None && pose_covariance(*pose) == Ok::<
                Seq<Scalar>,
                Seq<char>,
            >(c@),
            Err(m) => covariance_error(*pose, *check) == Some(m@),
        },
{
    let c: Vec<Scalar> = match &pose.cov {
        Some(v) => match geo::parse_cov(v) {
            Ok(c) => c,
            Err(m) => {
                return Err(m);
            },
        },
        None => geo::diag6(Scalar { bits: DEFAULT_VARIANCE }),
    };
    let bound = EigenvalueBound { value: Scalar { bits: LEAST_EIGENVALUE }, text: "1e-12" };
    match geo::validate_cov(&c, check, bound) {
        Ok(()) => Ok(c),
        Err(m) => Err(m),
    }
}

/// Why a packet is refused; `timed` tells whether its time is in range.
pub open spec fn refusal(p: IncomingPacket, timed: bool, check: CovarianceCheck) -> Option<
    Seq<char>,
> {
    if payload_error(p) is Some {
        payload_error(p)
    } else if !timed {
        Some("时间戳换算结果非有限"@)
    } else if p.pose is Some {
        covariance_error(p.pose->0, check)
    } else {
        None
    }
}

/// A packet's encodings: its time fields, and everything its summary is taken from.
#[derive(Clone, Debug)]
pub struct Encoded {
    pub raw_time_json: String,
    pub payload: Vec<u8>,
}

/// The rows of a packet's points.
pub open spec fn point_rows(points: Seq<Vec<Scalar>>, packet_id: i64) -> Seq<StoredPoint> {
    Seq::new(
        points.len(),
        |i: int|
            StoredPoint {
                packet_id,
                idx_in_packet: i as usize,
                x: points[i]@[0],
                y: points[i]@[1],
                z: points[i]@[2],
                intensity: if points[i]@.len() > 3 {
                    points[i]@[3]
                } else {
                    Scalar { bits: 0 }
                },
            },
    )
}

/// Whether `g` is the generation that a packet went to, after it: a new one, or the
/// one before with its window widened and its sequence carried on.
pub open spec fn joined(
    g: Generation,
    db: Archive,
    p: IncomingPacket,
    t: int,
    place: Placement,
    duplicate: bool,
) -> bool {
    match place.gen {
        None => {
            &&& g.id == db.generations@.len() + 1
            &&& in_stream(g, p.device_id@, p.kind@)
            &&& g.seq_start == p.seq
            &&& g.seq_head == p.seq
            &&& g.t_start == t
            &&& g.t_end == t
            &&& g.note@ == place.note
        },
        Some(i) => {
            let b = db.generations@[i];
            &&& g.id == b.id
            &&& g.device_id == b.device_id
            &&& g.kind == b.kind
            &&& g.seq_start == b.seq_start
            &&& g.note == b.note
            &&& g.seq_head == if !place.late && !duplicate && p.seq == b.seq_head + 1 {
                p.seq
            } else {
                b.seq_head
            }
            &&& g.t_start == if t < b.t_start { t } else { b.t_start as int }
            &&& g.t_end == if t > b.t_end { t } else { b.t_end as int }
        },
    }
}

/// Whether `row` is the stored form of a packet.
pub open spec fn is_row_of(
    row: StoredPacket,
    p: IncomingPacket,
    e: Encoded,
    t: int,
    id: int,
    gen_id: int,
    late: bool,
    duplicate_of: Option<int>,
) -> bool {
    &&& row.id == id
    &&& row.device_id@ == p.device_id@
    &&& row.kind@ == p.kind@
    &&& row.seq == p.seq
    &&& row.gen_id == gen_id
    &&& row.raw_time_json@ == e.raw_time_json@
    &&& row.time_desc@ == description(p.time)
    &&& row.unix_time == t
    &&& row.coord_system@ == p.coord_system@
    &&& row.unit@ == p.unit@
    &&& row.content_summary@ == summary_of(p.points@.len() as int, e.payload@)
    &&& row.received_order == id
    &&& row.is_late == late
    &&& row.is_duplicate == duplicate_of is Some
    &&& row.duplicate_of is Some == duplicate_of is Some
    &&& row.duplicate_of is Some ==> row.duplicate_of->0 == duplicate_of->0
    &&& row.raw_blob_len == e.payload@.len()
}

/// Whether `after` and the report are what ingesting a packet makes of `db`.
pub open spec fn ingested(
    db: Archive,
    after: Archive,
    p: IncomingPacket,
    e: Encoded,
    t: int,
    report: IngestReport,
) -> bool {
    let place = placement(db, p.device_id@, p.kind@, p.seq as int, t);
    let at = target(db, p.device_id@, p.kind@, p.seq as int, t);
    let dup = match original(db, at + 1, p.seq as int, t) {
        Some(k) => Some(db.packets@[k].id as int),
        None => None,
    };
    let id = db.packets@.len() + 1;
    &&& report.packet_id == id
    &&& report.gen_id == at + 1
    &&& report.new_generation == place.gen is None
    &&& report.generation_note@ == place.note
    &&& report.is_late == place.late
    &&& report.is_duplicate == dup is Some
    &&& report.unix_time == t
    &&& report.time_desc@ == description(p.time)
    &&& report.content_summary@ == summary_of(p.points@.len() as int, e.payload@)
    &&& report.point_count == p.points@.len()
    &&& after.generations@.len() == if place.gen is None {
        db.generations@.len() + 1
    } else {
        db.generations@.len()
    }
    &&& forall|i: int|
        0 <= i < db.generations@.len() && i != at ==> #[trigger] after.generations@[i]
            == db.generations@[i]
    &&& joined(after.generations@[at], db, p, t, place, dup is Some)
    &&& after.packets@.len() == id
    &&& after.packets@.drop_last() == db.packets@
    &&& is_row_of(after.packets@.last(), p, e, t, id as int, at + 1, place.late, dup)
    &&& after.points@ == db.points@ + point_rows(p.points@, id as i64)
    &&& match p.pose {
        None => after.poses@ == db.poses@,
        Some(pose) => {
            &&& after.poses@.len() == db.poses@.len() + 1
            &&& after.poses@.drop_last() == db.poses@
            &&& after.poses@.last().packet_id == id
            &&& after.poses@.last().q == pose.q
            &&& after.poses@.last().t == pose.t
            &&& pose_covariance(pose) == Ok::<Seq<Scalar>, Seq<char>>(after.poses@.last().cov@)
        },
    }
}

proof fn lemma_archive_grows(db: Archive, after: Archive, at: int, t: int)
    requires
        db.wf(),
        0 <= at <= db.generations@.len(),
        time::is_span(t),
        after.generations@.len() == if at == db.generations@.len() {
            db.generations@.len() + 1
        } else {
            db.generations@.len()
        },
        forall|i: int|
            0 <= i < db.generations@.len() && i != at ==> #[trigger] after.generations@[i]
                == db.generations@[i],
        after.generations@[at].id == at + 1,
        at < db.generations@.len() ==> {
            let b = db.generations@[at];
            let g = after.generations@[at];
            &&& g.device_id@ == b.device_id@
            &&& g.kind@ == b.kind@
            &&& g.t_start == if t < b.t_start { t } else { b.t_start as int }
            &&& g.t_end == if t > b.t_end { t } else { b.t_end as int }
        },
        at == db.generations@.len() ==> after.generations@[at].t_start == t
            && after.generations@[at].t_end == t,
        after.packets@.len() == db.packets@.len() + 1,
        after.packets@.drop_last() == db.packets@,
        after.packets@.last().id == db.packets@.len() + 1,
        after.packets@.last().received_order == db.packets@.len() + 1,
        after.packets@.last().unix_time == t,
        after.packets@.last().gen_id == at + 1,
        in_stream(
            after.generations@[at],
            after.packets@.last().device_id@,
            after.packets@.last().kind@,
        ),
    ensures
        after.wf(),
{
    let gens = after.generations@;
    let packets = after.packets@;
    let n = db.packets@.len() as int;
    assert forall|i: int| 0 <= i < n implies #[trigger] packets[i] == db.packets@[i] by {
        assert(packets.drop_last()[i] == packets[i]);
    }
    assert forall|i: int| 0 <= i < packets.len() implies 1 <= (#[trigger] packets[i]).gen_id
        <= gens.len() && in_stream(
        gens[packets[i].gen_id - 1],
        packets[i].device_id@,
        packets[i].kind@,
    ) by {
        if i < n {
            assert(packets[i] == db.packets@[i]);
        }
    }
    assert forall|i: int| 0 <= i < gens.len() implies window_is_exact(#[trigger] gens[i], packets) by {
        let g = gens[i];
        if i < db.generations@.len() {
            let b = db.generations@[i];
            assert(window_is_exact(b, db.packets@));
            let lo = choose|k: int|
                0 <= k < n && (#[trigger] db.packets@[k]).gen_id == b.id
                    && db.packets@[k].unix_time == b.t_start;
            let hi = choose|k: int|
                0 <= k < n && (#[trigger] db.packets@[k]).gen_id == b.id
                    && db.packets@[k].unix_time == b.t_end;
            assert(packets[lo] == db.packets@[lo]);
            assert(packets[hi] == db.packets@[hi]);
            assert(packets[n].unix_time == t);
            assert forall|k: int|
                0 <= k < packets.len() && (#[trigger] packets[k]).gen_id == g.id implies g.t_start
                <= packets[k].unix_time <= g.t_end by {
                if k < n {
                    assert(packets[k] == db.packets@[k]);
                }
            }
            assert(packets[if g.t_start == b.t_start { lo } else { n }].unix_time == g.t_start);
            assert(packets[if g.t_end == b.t_end { hi } else { n }].unix_time == g.t_end);
            assert(packets[if g.t_start == b.t_start { lo } else { n }].gen_id == g.id);
            assert(packets[if g.t_end == b.t_end { hi } else { n }].gen_id == g.id);
        } else {
            assert(packets[n].gen_id == g.id && packets[n].unix_time == t);
            assert forall|k: int|
                0 <= k < packets.len() && (#[trigger] packets[k]).gen_id == g.id implies g.t_start
                <= packets[k].unix_time <= g.t_end by {
                if k < n {
                    assert(packets[k] == db.packets@[k]);
                }
            }
        }
    }
    assert forall|i: int| 0 <= i < packets.len() implies (#[trigger] packets[i]).id == i + 1
        && packets[i].received_order == i + 1 && time::is_span(packets[i].unix_time as int) by {
        if i < n {
            assert(packets[i] == db.packets@[i]);
        }
    }
}

/// Opens a generation with its first packet.
fn insert_gen(db: &mut Archive, device: &str, kind: &str, seq: i64, t: Nanos, note: &str) -> (r:
    usize)
    requires
        old(db).generations@.len() < i64::MAX,
    ensures
        r == old(db).generations@.len(),
        final(db).generations@.len() == r + 1,
        final(db).generations@.drop_last() == old(db).generations@,
        ({
            let g = final(db).generations@.last();
            &&& g.id == r + 1
            &&& in_stream(g, device@, kind@)
            &&& g.seq_start == seq
            &&& g.seq_head == seq
            &&& g.t_start == t
            &&& g.t_end == t
            &&& g.note@ == note@
        }),
        final(db).packets == old(db).packets,
        final(db).points == old(db).points,
        final(db).poses == old(db).poses,
{
    let n: usize = db.generations.len();
    db.generations.push(
        Generation {
            id: n as i64 + 1,
            device_id: device.to_owned(),
            kind: kind.to_owned(),
            seq_start: seq,
            seq_head: seq,
            t_start: t,
            t_end: t,
            note: note.to_owned(),
        },
    );
    assert(db.generations@.drop_last() =~= old(db).generations@);
    n
}

fn add_points(out: &mut Vec<StoredPoint>, points: &Vec<Vec<Scalar>>, packet_id: i64)
    requires
        forall|i: int| 0 <= i < points@.len() ==> (#[trigger] points@[i])@.len() >= 3,
    ensures
        final(out)@ == old(out)@ + point_rows(points@, packet_id),
{
    let ghost start = out@;
    let ghost rows_all = point_rows(points@, packet_id);
    let mut i: usize = 0;
    while i < points.len()
        invariant
            i <= points.len(),
            rows_all == point_rows(points@, packet_id),
            forall|i: int| 0 <= i < points@.len() ==> (#[trigger] points@[i])@.len() >= 3,
            out@ == start + rows_all.take(i as int),
        decreases points.len() - i,
    {
        let pt = &points[i];
        let intensity = if pt.len() > 3 {
            pt[3]
        } else {
            Scalar { bits: 0 }
        };
        out.push(
            StoredPoint {
                packet_id,
                idx_in_packet: i,
                x: pt[0],
                y: pt[1],
                z: pt[2],
                intensity,
            },
        );
        i += 1;
        assert(rows_all.take(i as int) =~= rows_all.take(i - 1).push(rows_all[i - 1]));
    }
    assert(rows_all.take(points@.len() as int) =~= rows_all);
}

impl Ingester {
    /// Ingests a packet. A refused packet leaves the archive as it is; a packet whose
    /// payload is in order moves its device's GPS week on. The points of a
    /// packet of kind pose, if it has any, have three coordinates at least.
    pub fn ingest(
        &mut self,
        db: &mut Archive,
        p: IncomingPacket,
        e: Encoded,
        check: &CovarianceCheck,
    ) -> (r: Result<IngestReport, String>)
        requires
            old(db).wf(),
            old(db).generations@.len() < i64::MAX,
            old(db).packets@.len() < i64::MAX,
            p.time.in_range(),
            p.kind@ == "pose"@ ==> forall|i: int|
                0 <= i < p.points@.len() ==> (#[trigger] p.points@[i])@.len() >= 3,
        ensures
            final(db).wf(),
            ({
                let last = week_of(old(self).week_state@, p.device_id@);
                let t = continuous_time(p.time, last);
                let week = week_after(p.time, last);
                let refused = refusal(p, t is Some, *check);
                &&& match r {
                    Err(m) => refused == Some(m@) && *final(db) == *old(db),
                    Ok(report) => refused is None && ingested(
                        *old(db),
                        *final(db),
                        p,
                        e,
                        t->0,
                        report,
                    ),
                }
                &&& forall|d: Seq<char>| #[trigger]
                    week_of(final(self).week_state@, d) == if d == p.device_id@ && payload_error(
                        p,
                    ) is None && week is Some {
                        Some(week->0 as i64)
                    } else {
                        week_of(old(self).week_state@, d)
                    }
            }),
    {
        if let Some(m) = check_payload(&p) {
            return Err(m);
        }
        let t: Nanos = match self.normalize(p.device_id.as_str(), &p.time) {
            None => {
                return Err("时间戳换算结果非有限".to_owned());
            },
            Some(t) => t,
        };
        let covariance: Option<Vec<Scalar>> = match &p.pose {
            None => None,
            Some(pose) => match checked_covariance(pose, check) {
                Err(m) => {
                    return Err(m);
                },
                Ok(c) => Some(c),
            },
        };
        proof {
            assert forall|i: int| 0 <= i < p.points@.len() implies (
            #[trigger] p.points@[i])@.len() >= 3 by {
                if p.kind@ == "lidar"@ {
                    lemma_good_points(p.points@, i, p.points@.len() as int);
                }
            }
        }
        let report = store_packet(db, &p, &e, t);
        match (p.pose, covariance) {
            (Some(pose), Some(cov)) => {
                db.poses.push(
                    StoredPose { packet_id: report.packet_id, q: pose.q, t: pose.t, cov },
                );
                assert(db.poses@.drop_last() =~= old(db).poses@);
            },
            _ => {},
        }
        Ok(report)
    }
}

proof fn lemma_good_points(points: Seq<Vec<Scalar>>, i: int, n: int)
    requires
        0 <= i < n <= points.len(),
        points_error(points, n) is None,
    ensures
        point_error(points[i]@) is None,
    decreases n,
{
    if i < n - 1 {
        lemma_good_points(points, i, n - 1);
    }
}

/// The decisions about a packet: the position of its generation, whether it opens
/// it, whether it is late, the note to report, and the packet it repeats.
struct Decision {
    at: usize,
    opens: bool,
    late: bool,
    note: String,
    duplicate_of: Option<i64>,
}

impl Decision {
    spec fn decides(self, db: Archive, device: Seq<char>, kind: Seq<char>, seq: int, t: int) -> bool {
        let place = placement(db, device, kind, seq, t);
        let at = target(db, device, kind, seq, t);
        let dup = original(db, at + 1, seq, t);
        &&& self.at == at
        &&& self.opens == place.gen is None
        &&& self.late == place.late
        &&& self.note@ == place.note
        &&& self.duplicate_of is Some == dup is Some
        &&& dup is Some ==> self.duplicate_of->0 == db.packets@[dup->0].id
        &&& self.opens ==> at == db.generations@.len() && dup is None
        &&& !self.opens ==> 0 <= at < db.generations@.len() && in_stream(
            db.generations@[at],
            device,
            kind,
        )
    }
}

fn decide(db: &Archive, device: &str, kind: &str, seq: i64, t: Nanos) -> (r: Decision)
    requires
        db.wf(),
        db.generations@.len() < i64::MAX,
        time::is_span(t as int),
    ensures
        r.decides(*db, device@, kind@, seq as int, t as int),
{
    let (gen, late, note) = db.place(device, kind, seq, t);
    proof {
        lemma_target(*db, device@, kind@, seq as int, t as int);
        lemma_fresh_generation(*db, seq as int, t as int);
    }
    let opens = gen.is_none();
    let at: usize = match gen {
        Some(i) => i,
        None => db.generations.len(),
    };
    let duplicate_of: Option<i64> = match db.find_same_seq(at as i64 + 1, seq, t) {
        Some(k) => Some(db.packets[k].id),
        None => None,
    };
    Decision { at, opens, late, note, duplicate_of }
}

/// Brings a packet's generation up to date.
fn settle(db: &mut Archive, p: &IncomingPacket, t: Nanos, d: &Decision)
    requires
        old(db).wf(),
        old(db).generations@.len() < i64::MAX,
        d.decides(*old(db), p.device_id@, p.kind@, p.seq as int, t as int),
    ensures
        final(db).generations@.len() == if d.opens {
            old(db).generations@.len() + 1
        } else {
            old(db).generations@.len()
        },
        forall|i: int|
            0 <= i < old(db).generations@.len() && i != d.at ==> #[trigger] final(db).generations@[i]
                == old(db).generations@[i],
        joined(
            final(db).generations@[d.at as int],
            *old(db),
            *p,
            t as int,
            placement(*old(db), p.device_id@, p.kind@, p.seq as int, t as int),
            d.duplicate_of is Some,
        ),
        final(db).packets == old(db).packets,
        final(db).points == old(db).points,
        final(db).poses == old(db).poses,
{
    let ghost before = *db;
    let at: usize = d.at;
    if d.opens {
        let _at = insert_gen(
            db,
            p.device_id.as_str(),
            p.kind.as_str(),
            p.seq,
            t,
            d.note.as_str(),
        );
        assert forall|i: int| 0 <= i < before.generations@.len() implies
            #[trigger] db.generations@[i] == before.generations@[i] by {
            assert(db.generations@.drop_last()[i] == db.generations@[i]);
        }
    } else {
        let head: i64 = db.generations[at].seq_head;
        if !d.late && d.duplicate_of.is_none() && head < i64::MAX && p.seq == head + 1 {
            db.generations[at].seq_head = p.seq;
        }
        if t < db.generations[at].t_start {
            db.generations[at].t_start = t;
        }
        if t > db.generations[at].t_end {
            db.generations[at].t_end = t;
        }
    }
}

/// Stores a packet that is in order, all but its pose.
fn store_packet(db: &mut Archive, p: &IncomingPacket, e: &Encoded, t: Nanos) -> (r: IngestReport)
    requires
        old(db).wf(),
        old(db).generations@.len() < i64::MAX,
        old(db).packets@.len() < i64::MAX,
        time::is_span(t as int),
        p.time.in_range(),
        p.time.field() is Some,
        forall|i: int| 0 <= i < p.points@.len() ==> (#[trigger] p.points@[i])@.len() >= 3,
    ensures
        final(db).wf(),
        final(db).poses@ == old(db).poses@,
        ({
            let bare = IncomingPacket { pose: None, ..*p };
            ingested(*old(db), *final(db), bare, *e, t as int, r)
        }),
{
    let ghost before = *db;
    let d = decide(db, p.device_id.as_str(), p.kind.as_str(), p.seq, t);
    assert(!d.opens ==> before.generations@[d.at as int].id == d.at + 1);
    settle(db, p, t, &d);
    let packet_id: i64 = db.packets.len() as i64 + 1;
    let gen_id: i64 = d.at as i64 + 1;
    let time_desc = p.time.describe();
    let summary = content_summary(p.points.len(), &e.payload);
    db.packets.push(
        StoredPacket {
            id: packet_id,
            device_id: p.device_id.clone(),
            kind: p.kind.clone(),
            seq: p.seq,
            gen_id,
            raw_time_json: e.raw_time_json.clone(),
            time_desc: time_desc.clone(),
            unix_time: t,
            coord_system: p.coord_system.clone(),
            unit: p.unit.clone(),
            content_summary: summary.clone(),
            received_order: packet_id,
            is_duplicate: d.duplicate_of.is_some(),
            is_late: d.late,
            duplicate_of: d.duplicate_of,
            raw_blob_len: e.payload.len(),
        },
    );
    assert(db.packets@.drop_last() =~= before.packets@);
    add_points(&mut db.points, &p.points, packet_id);
    proof {
        lemma_archive_grows(before, *db, d.at as int, t as int);
    }
    IngestReport {
        packet_id,
        gen_id,
        new_generation: d.opens,
        generation_note: d.note,
        is_late: d.late,
        is_duplicate: d.duplicate_of.is_some(),
        unix_time: t,
        time_desc,
        content_summary: summary,
        point_count: p.points.len(),
    }
}

// ---- what becomes of a packet, in plain terms ---------------------------------------------------

/// Whether a stored packet is one that a packet of a stream repeats: same number, at most
/// fifty milliseconds apart, and itself no repetition.
pub open spec fn is_repetition_of(
    db: Archive,
    k: int,
    device: Seq<char>,
    kind: Seq<char>,
    seq: int,
    t: int,
) -> bool {
    &&& 0 <= k < db.packets@.len()
    &&& db.packets@[k].device_id@ == device
    &&& db.packets@[k].kind@ == kind
    &&& db.packets@[k].seq == seq
    &&& !db.packets@[k].is_duplicate
    &&& -50_000_000 <= db.packets@[k].unix_time - t <= 50_000_000
}

/// Whether a generation is of a stream, by position.
pub open spec fn is_of_stream(db: Archive, g: int, device: Seq<char>, kind: Seq<char>) -> bool {
    &&& 0 <= g < db.generations@.len()
    &&& db.generations@[g].device_id@ == device
    &&& db.generations@[g].kind@ == kind
}

/// Whether a generation is the newest of a stream.
pub open spec fn is_newest(db: Archive, g: int, device: Seq<char>, kind: Seq<char>) -> bool {
    is_of_stream(db, g, device, kind) && forall|h: int|
        h > g ==> !#[trigger] is_of_stream(db, h, device, kind)
}

/// Whether a generation of a stream spans a time, give or take a second.
pub open spec fn spans(db: Archive, g: int, device: Seq<char>, kind: Seq<char>, t: int) -> bool {
    &&& is_of_stream(db, g, device, kind)
    &&& db.generations@[g].t_start - 1_000_000_000 <= t
    &&& t <= db.generations@[g].t_end + 1_000_000_000
}

/// Whether a time is more than a microsecond behind the packets of a generation that came
/// on time, or behind its start where none did.
pub open spec fn is_behind(db: Archive, g: int, t: int) -> bool {
    let id = db.generations@[g].id;
    ||| exists|i: int|
        0 <= i < db.packets@.len() && (#[trigger] db.packets@[i]).gen_id == id
            && !db.packets@[i].is_late && t + 1_000 < db.packets@[i].unix_time
    ||| t + 1_000 < db.generations@[g].t_start && forall|i: int|
        0 <= i < db.packets@.len() && (#[trigger] db.packets@[i]).gen_id == id
            ==> db.packets@[i].is_late
}

/// The greatest time among the packets on time is that of one of them, and none of them
/// has a greater one.
pub proof fn law_newest_time_is_the_greatest(packets: Seq<StoredPacket>, gen_id: int, n: int)
    requires
        0 <= n <= packets.len(),
    ensures
        match newest_on_time(packets, gen_id, n) {
            Some(x) => {
                &&& exists|i: int|
                    0 <= i < n && (#[trigger] packets[i]).gen_id == gen_id && !packets[i].is_late
                        && packets[i].unix_time == x
                &&& forall|i: int|
                    0 <= i < n && (#[trigger] packets[i]).gen_id == gen_id && !packets[i].is_late
                        ==> packets[i].unix_time <= x
            },
            None => forall|i: int|
                0 <= i < n && (#[trigger] packets[i]).gen_id == gen_id ==> packets[i].is_late,
        },
    decreases n,
{
    if n > 0 {
        law_newest_time_is_the_greatest(packets, gen_id, n - 1);
        let p = packets[n - 1];
        if p.gen_id == gen_id && !p.is_late {
            assert(packets[n - 1].gen_id == gen_id);
        }
    }
}

proof fn lemma_behind(db: Archive, g: int, t: int)
    requires
        db.wf(),
        0 <= g < db.generations@.len(),
    ensures
        t < head_time(db, g) - LATE_MARGIN <==> is_behind(db, g, t),
{
    let id = db.generations@[g].id as int;
    law_newest_time_is_the_greatest(db.packets@, id, db.packets@.len() as int);
}

proof fn lemma_no_repetition_in_stream(
    db: Archive,
    g: int,
    device: Seq<char>,
    kind: Seq<char>,
    seq: int,
    t: int,
)
    requires
        db.wf(),
        is_of_stream(db, g, device, kind),
        forall|k: int| !#[trigger] is_repetition_of(db, k, device, kind, seq, t),
    ensures
        original(db, g + 1, seq, t) is None,
{
    let holds = repeated(db.packets@, g + 1, seq, t);
    rows::lemma_first_where(db.packets@.len() as int, holds);
    if let Some(k) = rows::first_where(db.packets@.len() as int, holds) {
        let p = db.packets@[k];
        assert(holds(k));
        assert(p.gen_id == g + 1);
        assert(in_stream(db.generations@[p.gen_id - 1], p.device_id@, p.kind@));
        assert(is_repetition_of(db, k, device, kind, seq, t));
    }
}

proof fn lemma_newest(db: Archive, g: int, device: Seq<char>, kind: Seq<char>)
    requires
        is_newest(db, g, device, kind),
    ensures
        rows::last_where(db.generations@.len() as int, of_stream(db.generations@, device, kind))
            == Some(g),
{
    let holds = of_stream(db.generations@, device, kind);
    let n = db.generations@.len() as int;
    rows::lemma_last_where(n, holds);
    assert(holds(g));
    let h = rows::last_where(n, holds)->0;
    assert(holds(h));
    assert(is_of_stream(db, h, device, kind));
    assert(h <= g);
}

proof fn lemma_no_overlap(db: Archive, device: Seq<char>, kind: Seq<char>, seq: int, t: int)
    requires
        forall|k: int| !#[trigger] is_repetition_of(db, k, device, kind, seq, t),
    ensures
        rows::first_where(
            db.packets@.len() as int,
            overlapped(db.packets@, device, kind, seq, t),
        ) is None,
{
    let holds = overlapped(db.packets@, device, kind, seq, t);
    rows::lemma_first_where(db.packets@.len() as int, holds);
    if let Some(k) = rows::first_where(db.packets@.len() as int, holds) {
        assert(holds(k));
        assert(is_repetition_of(db, k, device, kind, seq, t));
    }
}

/// The first packet of a stream opens a generation, neither late nor a repetition.
pub proof fn law_first_packet_of_a_stream(
    db: Archive,
    after: Archive,
    p: IncomingPacket,
    e: Encoded,
    t: int,
    report: IngestReport,
)
    requires
        db.wf(),
        ingested(db, after, p, e, t, report),
        forall|g: int| !#[trigger] is_of_stream(db, g, p.device_id@, p.kind@),
    ensures
        report.new_generation,
        !report.is_late,
        !report.is_duplicate,
        report.gen_id == db.generations@.len() + 1,
        report.generation_note@ == "首包"@,
{
    reveal(placement);
    let holds = of_stream(db.generations@, p.device_id@, p.kind@);
    let n = db.generations@.len() as int;
    rows::lemma_last_where(n, holds);
    if let Some(h) = rows::last_where(n, holds) {
        assert(holds(h));
        assert(is_of_stream(db, h, p.device_id@, p.kind@));
    }
    lemma_fresh_generation(db, p.seq as int, t);
}

/// A packet that repeats stored ones joins the generation of the earliest of them and is
/// told as its repetition, never as late.
pub proof fn law_repetition_joins_the_earliest(
    db: Archive,
    after: Archive,
    p: IncomingPacket,
    e: Encoded,
    t: int,
    report: IngestReport,
    k: int,
)
    requires
        db.wf(),
        ingested(db, after, p, e, t, report),
        is_repetition_of(db, k, p.device_id@, p.kind@, p.seq as int, t),
        forall|j: int|
            0 <= j < k ==> !#[trigger] is_repetition_of(
                db,
                j,
                p.device_id@,
                p.kind@,
                p.seq as int,
                t,
            ),
    ensures
        !report.new_generation,
        !report.is_late,
        report.is_duplicate,
        report.gen_id == db.packets@[k].gen_id,
        after.packets@.last().duplicate_of == Some(db.packets@[k].id),
{
    let packets = db.packets@;
    let n = packets.len() as int;
    let device = p.device_id@;
    let kind = p.kind@;
    let seq = p.seq as int;
    let over = overlapped(packets, device, kind, seq, t);
    assert forall|j: int| 0 <= j < k implies !#[trigger] over(j) by {
        assert(!is_repetition_of(db, j, device, kind, seq, t));
    }
    assert(over(k));
    rows::lemma_first_is(n, over, k);
    law_overlapping_packet_is_a_duplicate(db, device, kind, seq, t, k);
    reveal(placement);
    let g = packets[k].gen_id - 1;
    let stream = of_stream(db.generations@, device, kind);
    assert(in_stream(db.generations@[packets[k].gen_id - 1], packets[k].device_id@, packets[k].kind@));
    assert(stream(g));
    rows::lemma_last_where(db.generations@.len() as int, stream);
    let rep = repeated(packets, g + 1, seq, t);
    assert forall|j: int| 0 <= j < k implies !#[trigger] rep(j) by {
        if rep(j) {
            assert(packets[j].gen_id == g + 1);
            assert(in_stream(
                db.generations@[packets[j].gen_id - 1],
                packets[j].device_id@,
                packets[j].kind@,
            ));
            assert(is_repetition_of(db, j, device, kind, seq, t));
        }
    }
    assert(rep(k));
    rows::lemma_first_is(n, rep, k);
}

/// A packet that repeats none opens a generation where its number is below the head of the
/// newest one, or is the start of it at a time more than a second before it.
pub proof fn law_sequence_reset_opens_a_generation(
    db: Archive,
    after: Archive,
    p: IncomingPacket,
    e: Encoded,
    t: int,
    report: IngestReport,
    g: int,
)
    requires
        db.wf(),
        ingested(db, after, p, e, t, report),
        is_newest(db, g, p.device_id@, p.kind@),
        forall|k: int|
            !#[trigger] is_repetition_of(db, k, p.device_id@, p.kind@, p.seq as int, t),
    ensures
        report.new_generation <==> p.seq < db.generations@[g].seq_head || (p.seq
            == db.generations@[g].seq_start && t < db.generations@[g].t_start - 1_000_000_000),
        report.new_generation ==> !report.is_late && report.gen_id == db.generations@.len() + 1
            && report.generation_note@ == "序号重置（设备重启或周翻转后新序列）"@,
        !report.is_duplicate,
{
    reveal(placement);
    lemma_newest(db, g, p.device_id@, p.kind@);
    lemma_no_overlap(db, p.device_id@, p.kind@, p.seq as int, t);
    rows::lemma_last_where(
        db.generations@.len() as int,
        holds_time(db.generations@, p.device_id@, p.kind@, t),
    );
    let at = target(db, p.device_id@, p.kind@, p.seq as int, t);
    if at < db.generations@.len() {
        lemma_target(db, p.device_id@, p.kind@, p.seq as int, t);
        lemma_no_repetition_in_stream(db, at, p.device_id@, p.kind@, p.seq as int, t);
    } else {
        lemma_fresh_generation(db, p.seq as int, t);
    }
}

/// A packet that repeats none and opens no generation is late where it is behind the
/// newest generation and some generation of its stream spans its time: it then joins the
/// newest of these. Else it joins the newest generation.
pub proof fn law_late_packet_goes_back(
    db: Archive,
    after: Archive,
    p: IncomingPacket,
    e: Encoded,
    t: int,
    report: IngestReport,
    g: int,
    l: int,
)
    requires
        db.wf(),
        ingested(db, after, p, e, t, report),
        is_newest(db, g, p.device_id@, p.kind@),
        forall|k: int|
            !#[trigger] is_repetition_of(db, k, p.device_id@, p.kind@, p.seq as int, t),
        !report.new_generation,
    ensures
        report.is_late <==> is_behind(db, g, t) && exists|h: int| #[trigger]
            spans(db, h, p.device_id@, p.kind@, t),
        !report.is_late ==> report.gen_id == db.generations@[g].id,
        report.is_late && spans(db, l, p.device_id@, p.kind@, t) && (forall|h: int|
            h > l ==> !#[trigger] spans(db, h, p.device_id@, p.kind@, t)) ==> report.gen_id
            == db.generations@[l].id,
        !report.is_duplicate,
{
    let device = p.device_id@;
    let kind = p.kind@;
    let gens = db.generations@;
    reveal(placement);
    law_sequence_reset_opens_a_generation(db, after, p, e, t, report, g);
    lemma_newest(db, g, device, kind);
    lemma_no_overlap(db, device, kind, p.seq as int, t);
    lemma_behind(db, g, t);
    let holds = holds_time(gens, device, kind, t);
    rows::lemma_last_where(gens.len() as int, holds);
    if exists|h: int| #[trigger] spans(db, h, device, kind, t) {
        let h = choose|h: int| #[trigger] spans(db, h, device, kind, t);
        assert(holds(h));
    }
    if let Some(h) = rows::last_where(gens.len() as int, holds) {
        assert(holds(h));
        assert(spans(db, h, device, kind, t));
        if spans(db, l, device, kind, t) {
            assert(holds(l));
        }
    }
}

/// A packet widens the window of its generation to its time; it carries the sequence on
/// where it has the next number, came on time and repeats none. Other generations stay.
pub proof fn law_packet_carries_its_generation_on(
    db: Archive,
    after: Archive,
    p: IncomingPacket,
    e: Encoded,
    t: int,
    report: IngestReport,
    h: int,
)
    requires
        db.wf(),
        ingested(db, after, p, e, t, report),
        0 <= h < db.generations@.len(),
    ensures
        db.generations@.len() <= after.generations@.len(),
        db.generations@[h].id != report.gen_id ==> after.generations@[h] == db.generations@[h],
        db.generations@[h].id == report.gen_id ==> {
            let b = db.generations@[h];
            let a = after.generations@[h];
            &&& a.id == b.id
            &&& a.seq_start == b.seq_start
            &&& a.t_start <= t <= a.t_end
            &&& a.t_start == b.t_start || (a.t_start == t && t < b.t_start)
            &&& a.t_end == b.t_end || (a.t_end == t && t > b.t_end)
            &&& a.seq_head == b.seq_head || a.seq_head == b.seq_head + 1
            &&& a.seq_head == b.seq_head + 1 <==> !report.is_late && !report.is_duplicate && p.seq
                == b.seq_head + 1
        },
{
}

/// A generation that a packet opens starts with its number and its time.
pub proof fn law_opened_generation_starts_with_its_packet(
    db: Archive,
    after: Archive,
    p: IncomingPacket,
    e: Encoded,
    t: int,
    report: IngestReport,
)
    requires
        db.wf(),
        ingested(db, after, p, e, t, report),
        report.new_generation,
    ensures
        after.generations@.len() == db.generations@.len() + 1,
        ({
            let a = after.generations@[db.generations@.len() as int];
            &&& a.id == db.generations@.len() + 1
            &&& a.device_id@ == p.device_id@
            &&& a.kind@ == p.kind@
            &&& a.seq_start == p.seq
            &&& a.seq_head == p.seq
            &&& a.t_start == t
            &&& a.t_end == t
            &&& a.note@ == report.generation_note@
        }),
{
    reveal(placement);
}

/// A packet is kept as it came, after all that was there, with what was told of it.
pub proof fn law_packet_is_kept_as_it_came(
    db: Archive,
    after: Archive,
    p: IncomingPacket,
    e: Encoded,
    t: int,
    report: IngestReport,
)
    requires
        db.wf(),
        ingested(db, after, p, e, t, report),
    ensures
        after.packets@.len() == db.packets@.len() + 1,
        forall|i: int| 0 <= i < db.packets@.len() ==> after.packets@[i] == db.packets@[i],
        ({
            let row = after.packets@[db.packets@.len() as int];
            &&& row.id == db.packets@.len() + 1
            &&& row.received_order == db.packets@.len() + 1
            &&& row.id == report.packet_id
            &&& row.gen_id == report.gen_id
            &&& row.is_late == report.is_late
            &&& row.is_duplicate == report.is_duplicate
            &&& row.duplicate_of is Some == report.is_duplicate
            &&& row.unix_time == t
            &&& report.unix_time == t
            &&& row.seq == p.seq
            &&& row.device_id@ == p.device_id@
            &&& row.kind@ == p.kind@
            &&& row.unit@ == p.unit@
            &&& row.coord_system@ == p.coord_system@
            &&& row.raw_time_json@ == e.raw_time_json@
            &&& row.raw_blob_len == e.payload@.len()
            &&& row.time_desc@ == report.time_desc@
            &&& row.content_summary@ == report.content_summary@
        }),
        report.point_count == p.points@.len(),
{
    let n = db.packets@.len() as int;
    assert forall|i: int| 0 <= i < n implies after.packets@[i] == db.packets@[i] by {
        assert(after.packets@.drop_last()[i] == after.packets@[i]);
    }
}

/// The points of a packet are kept in their order behind those that were there, with no
/// intensity where a point has none; the same holds of its pose.
pub proof fn law_points_are_kept_in_order(
    db: Archive,
    after: Archive,
    p: IncomingPacket,
    e: Encoded,
    t: int,
    report: IngestReport,
    i: int,
)
    requires
        db.wf(),
        db.packets@.len() < i64::MAX,
        ingested(db, after, p, e, t, report),
        0 <= i < p.points@.len(),
    ensures
        after.points@.len() == db.points@.len() + p.points@.len(),
        forall|j: int| 0 <= j < db.points@.len() ==> after.points@[j] == db.points@[j],
        ({
            let row = after.points@[db.points@.len() + i];
            &&& row.packet_id == report.packet_id
            &&& row.idx_in_packet == i
            &&& row.x == p.points@[i]@[0]
            &&& row.y == p.points@[i]@[1]
            &&& row.z == p.points@[i]@[2]
            &&& p.points@[i]@.len() > 3 ==> row.intensity == p.points@[i]@[3]
            &&& p.points@[i]@.len() <= 3 ==> row.intensity.bits == 0
        }),
        p.pose is None ==> after.poses@ == db.poses@,
        p.pose is Some ==> after.poses@.len() == db.poses@.len() + 1
            && after.poses@[db.poses@.len() as int].packet_id == report.packet_id
            && after.poses@[db.poses@.len() as int].q == p.pose->0.q
            && after.poses@[db.poses@.len() as int].t == p.pose->0.t,
{
    vstd::std_specs::vec::axiom_spec_len(&p.points);
}

/// After a week of its device, a truncated week stands for the nearest one that ends in
/// the same bits; the first week of a device stands for itself, though none is below zero.
pub proof fn law_week_is_completed_near_the_last(
    week: i64,
    tow: Option<Nanos>,
    bits: u32,
    last: Option<i64>,
    other: int,
)
    ensures
        last is None ==> week_after(RawTime::GpsWeekTow { week, tow, week_bits: bits }, last)
            == Some(if week < 0 { 0int } else { week as int }),
        last is Some && bits == 0 ==> week_after(
            RawTime::GpsWeekTow { week, tow, week_bits: bits },
            last,
        ) == Some(last->0 as int),
        last is Some && bits > 0 ==> match week_after(
            RawTime::GpsWeekTow { week, tow, week_bits: bits },
            last,
        ) {
            Some(w) => {
                let period = vstd::arithmetic::power2::pow2(bits as nat) as int;
                &&& (w - week) % period == 0
                &&& (other - week) % period == 0 ==> {
                    let near = if w <= last->0 { last->0 - w } else { w - last->0 };
                    let far = if other <= last->0 { last->0 - other } else { other - last->0 };
                    near <= far
                }
            },
            None => bits > 62 || !(-0x8000_0000_0000_0000 <= time::full_week(
                week as int,
                Some(bits),
                last->0 as int,
            ) < 0x8000_0000_0000_0000),
        },
{
    if last is Some && bits > 0 {
        vstd::arithmetic::power2::lemma_pow2_pos(bits as nat);
        vstd::arithmetic::div_mod::lemma_small_mod(
            0,
            vstd::arithmetic::power2::pow2(bits as nat),
        );
        time::law_completed_week_is_nearest(week as int, bits, last->0 as int, week as int);
        if (other - week) % (vstd::arithmetic::power2::pow2(bits as nat) as int) == 0 {
            time::law_completed_week_is_nearest(week as int, bits, last->0 as int, other);
        }
    }
}

/// A GPS reading is its week and time of week, counted from 1970 with the leap seconds of
/// today; it has no time where a field is not finite or its week cannot be completed.
pub proof fn law_gps_reading_is_week_and_time_of_week(
    week: i64,
    tow: Option<Nanos>,
    bits: u32,
    last: Option<i64>,
)
    ensures
        ({
            let raw = RawTime::GpsWeekTow { week, tow, week_bits: bits };
            match continuous_time(raw, last) {
                Some(t) => tow is Some && week_after(raw, last) is Some && t == week_after(
                    raw,
                    last,
                )->0 * 604_800_000_000_000 + tow->0 + 315_964_782_000_000_000,
                None => tow is None || week_after(raw, last) is None,
            }
        }),
{
}

/// A label leaves the week of its device alone; two labels of a day are as far apart as
/// their clock times; from 2017 on a label has its Unix time.
pub proof fn law_label_readings(
    y: i64,
    m: u32,
    d: u32,
    h: u32,
    min: u32,
    sec: Option<Nanos>,
    last: Option<i64>,
)
    ensures
        week_after(RawTime::Utc { y, m, d, h, min, sec }, last) is None,
        continuous_time(RawTime::Utc { y, m, d, h, min, sec }, last) is None <==> sec is None,
        sec is Some ==> continuous_time(RawTime::Utc { y, m, d, h, min, sec }, last)->0
            == continuous_time(RawTime::Utc { y, m, d, h: 0, min: 0, sec: Some(0) }, last)->0 + h
            * 3_600_000_000_000 + min * 60_000_000_000 + sec->0,
        sec is Some && time::day_number(y as int, m as int, d as int) >= 17_167
            ==> continuous_time(RawTime::Utc { y, m, d, h, min, sec }, last)->0
            == time::day_number(y as int, m as int, d as int) * 86_400_000_000_000 + h
            * 3_600_000_000_000 + min * 60_000_000_000 + sec->0,
{
    time::law_leap_seconds_come_one_by_one(time::day_number(y as int, m as int, d as int));
}

/// A packet is refused unless it is of one of the two kinds, its points are points, its
/// pose is finite, its time is known, and the covariance of its pose is in order.
pub proof fn law_packet_is_taken_where_all_is_in_order(
    p: IncomingPacket,
    timed: bool,
    check: CovarianceCheck,
)
    ensures
        refusal(p, timed, check) is None <==> {
            &&& p.kind@ == "lidar"@ || p.kind@ == "pose"@
            &&& p.kind@ == "lidar"@ ==> forall|i: int|
                0 <= i < p.points@.len() ==> {
                    let q = (#[trigger] p.points@[i])@;
                    q.len() >= 3 && q[0].finite() && q[1].finite() && q[2].finite()
                }
            &&& p.pose is Some ==> {
                let q = p.pose->0;
                &&& q.q@[0].finite() && q.q@[1].finite() && q.q@[2].finite() && q.q@[3].finite()
                &&& q.t@[0].finite() && q.t@[1].finite() && q.t@[2].finite()
                &&& covariance_error(q, check) is None
            }
            &&& timed
        },
{
    lemma_points_in_order(p.points@, p.points@.len() as int);
}

proof fn lemma_points_in_order(points: Seq<Vec<Scalar>>, n: int)
    requires
        0 <= n <= points.len(),
    ensures
        points_error(points, n) is None <==> forall|i: int|
            0 <= i < n ==> {
                let q = (#[trigger] points[i])@;
                q.len() >= 3 && q[0].finite() && q[1].finite() && q[2].finite()
            },
    decreases n,
{
    if n > 0 {
        lemma_points_in_order(points, n - 1);
        assert(point_error(points[n - 1]@) is None <==> points[n - 1]@.len() >= 3
            && points[n - 1]@[0].finite() && points[n - 1]@[1].finite()
            && points[n - 1]@[2].finite());
    }
}

/// A hash takes bytes in one by one, from the offset basis of the hash on.
pub proof fn law_hash_takes_bytes_in_one_by_one(bytes: Seq<u8>, b: u8)
    ensures
        fnv1a64_of(Seq::<u8>::empty(), 0) == 0xcbf2_9ce4_8422_2325u64,
        fnv1a64_of(bytes.push(b), bytes.len() as int + 1) == (fnv1a64_of(
            bytes,
            bytes.len() as int,
        ) ^ b as u64).wrapping_mul(0x100_0000_01b3u64),
{
    lemma_hash_of_start(bytes, bytes.push(b), bytes.len() as int);
}

proof fn lemma_hash_of_start(a: Seq<u8>, b: Seq<u8>, n: int)
    requires
        0 <= n <= a.len(),
        n <= b.len(),
        forall|i: int| 0 <= i < n ==> a[i] == b[i],
    ensures
        fnv1a64_of(a, n) == fnv1a64_of(b, n),
    decreases n,
{
    if n > 0 {
        lemma_hash_of_start(a, b, n - 1);
    }
}

/// A pose without a covariance has a thousandth on the diagonal; a covariance is held to
/// eigenvalues of ten to the power minus twelve at least.
pub proof fn law_covariance_of_a_pose(pose: IncomingPose, check: CovarianceCheck, i: int, j: int)
    requires
        0 <= i < 6,
        0 <= j < 6,
    ensures
        pose.cov is None ==> pose_covariance(pose) is Ok && pose_covariance(pose)->Ok_0.len() == 36
            && pose_covariance(pose)->Ok_0[6 * i + j].bits == if i == j {
            0x3f50_624d_d2f1_a9fcu64
        } else {
            0u64
        },
        covariance_error(pose, check) is None <==> {
            &&& pose_covariance(pose) is Ok
            &&& crate::scalar::all_finite_spec(pose_covariance(pose)->Ok_0)
            &&& check.symmetric
            &&& forall|k: int|
                0 <= k < check.eigenvalues@.len() && (
                #[trigger] check.eigenvalues@[k]).is_number() ==> check.eigenvalues@[k].key()
                    >= 0x3d71_9799_812d_ea11
        },
{
    let k = 6 * i + j;
    assert(k / 6 == i && k % 6 == j);
    if pose_covariance(pose) is Ok {
        geo::law_which_covariances_pass(pose_covariance(pose)->Ok_0, check, pose_bound());
    }
}

/// The description of a GPS reading reads as its week, its time of week to the thousandth of
/// a second, and the number of its bits.
pub proof fn law_description_of_a_gps_reading(week: i64, tow: Nanos, bits: u32)
    ensures
        exists|w: Seq<char>, t: Seq<char>, b: Seq<char>|
            text::reads_as(w, week as int) && time::reads_near(t, tow as int, 1_000_000, 3)
                && text::reads_as(b, bits as int) && description(
                RawTime::GpsWeekTow { week, tow: Some(tow), week_bits: bits },
            ) == #[trigger] ("gps(w="@ + w + ",tow="@ + t + ","@ + b + "b)"@),
{
    let w = text::decimal(week as int);
    let t = time::shown(tow as int, 1_000_000, 3);
    let b = text::decimal(bits as int);
    text::law_decimal_reads_as_its_integer(week as int, 0);
    text::law_decimal_reads_as_its_integer(bits as int, 0);
    time::law_shown_time_reads_back(tow as int, 1_000_000, 3);
    let raw = RawTime::GpsWeekTow { week, tow: Some(tow), week_bits: bits };
    assert(description(raw) == "gps(w="@ + w + ",tow="@ + t + ","@ + b + "b)"@);
}

/// The description of a label reads as its date and its clock time, seconds to the
/// thousandth.
pub proof fn law_description_of_a_label(y: i64, m: u32, d: u32, h: u32, min: u32, sec: Nanos)
    ensures
        exists|
            a: Seq<char>,
            b: Seq<char>,
            c: Seq<char>,
            e: Seq<char>,
            f: Seq<char>,
            g: Seq<char>,
        |
            text::reads_as(a, y as int) && text::reads_as(b, m as int) && text::reads_as(c, d as int)
                && text::reads_as(e, h as int) && text::reads_as(f, min as int)
                && time::reads_near(g, sec as int, 1_000_000, 3) && description(
                RawTime::Utc { y, m, d, h, min, sec: Some(sec) },
            ) == #[trigger] ("utc("@ + a + "-"@ + b + "-"@ + c + "T"@ + e + ":"@ + f + ":"@ + g
                + ")"@),
{
    let raw = RawTime::Utc { y, m, d, h, min, sec: Some(sec) };
    let a = text::decimal(y as int);
    let b = text::decimal(m as int);
    let c = text::decimal(d as int);
    let e = text::decimal(h as int);
    let f = text::decimal(min as int);
    let g = time::shown(sec as int, 1_000_000, 3);
    text::law_decimal_reads_as_its_integer(y as int, 0);
    text::law_decimal_reads_as_its_integer(m as int, 0);
    text::law_decimal_reads_as_its_integer(d as int, 0);
    text::law_decimal_reads_as_its_integer(h as int, 0);
    text::law_decimal_reads_as_its_integer(min as int, 0);
    time::law_shown_time_reads_back(sec as int, 1_000_000, 3);
    assert(description(raw) == "utc("@ + a + "-"@ + b + "-"@ + c + "T"@ + e + ":"@ + f + ":"@ + g
        + ")"@);
}

/// The summary of a packet reads as the number of its points, the length of its encoding,
/// and the hash of it in sixteen hexadecimal digits.
pub proof fn law_summary_reads_back(n: int, payload: Seq<u8>)
    ensures
        exists|a: Seq<char>, b: Seq<char>, c: Seq<char>|
            text::reads_as(a, n) && text::reads_as(b, payload.len() as int) && c.len() == 16
                && text::read(c, 16) == fnv1a64_of(payload, payload.len() as int) && summary_of(
                n,
                payload,
            ) == #[trigger] ("n="@ + a + ";bytes="@ + b + ";fnv1a64=0x"@ + c),
{
    let a = text::decimal(n);
    let b = text::decimal(payload.len() as int);
    let h = fnv1a64_of(payload, payload.len() as int) as nat;
    let c = text::hex_padded(h, 16);
    text::law_decimal_reads_as_its_integer(n, 0);
    text::law_decimal_reads_as_its_integer(payload.len() as int, 0);
    reveal_with_fuel(text::sixteen_to, 17);
    assert(text::sixteen_to(16) == 0x1_0000_0000_0000_0000);
    text::law_hex_digits_read_back(h, 16);
    assert(summary_of(n, payload) == "n="@ + a + ";bytes="@ + b + ";fnv1a64=0x"@ + c);
}

/// The week of a device is that of the first entry that is its own; without one there is no
/// week yet.
pub proof fn law_week_of_a_device(s: Seq<DeviceWeek>, device: Seq<char>, i: int)
    ensures
        0 <= i < s.len() && s[i].device@ == device && (forall|k: int|
            0 <= k < i ==> (#[trigger] s[k]).device@ != device) ==> week_of(s, device) == Some(
            s[i].week,
        ),
        (forall|k: int| 0 <= k < s.len() ==> (#[trigger] s[k]).device@ != device) ==> week_of(
            s,
            device,
        ) is None,
{
    let holds = entry_of(s, device);
    let n = s.len() as int;
    rows::lemma_first_where(n, holds);
    if 0 <= i < n && s[i].device@ == device && (forall|k: int|
        0 <= k < i ==> (#[trigger] s[k]).device@ != device) {
        assert forall|k: int| 0 <= k < i implies !#[trigger] holds(k) by {
            assert(s[k].device@ != device);
        }
        assert(holds(i));
        rows::lemma_first_is(n, holds, i);
    }
    if forall|k: int| 0 <= k < n ==> (#[trigger] s[k]).device@ != device {
        if let Some(k) = rows::first_where(n, holds) {
            assert(holds(k));
            assert(s[k].device@ == device);
        }
    }
}

/// A late packet is told as such; one that is not late and opens no generation is told the
/// note of the newest generation of its stream.
pub proof fn law_note_of_a_report(
    db: Archive,
    after: Archive,
    p: IncomingPacket,
    e: Encoded,
    t: int,
    report: IngestReport,
    g: int,
)
    requires
        db.wf(),
        ingested(db, after, p, e, t, report),
        is_newest(db, g, p.device_id@, p.kind@),
    ensures
        report.is_late ==> report.generation_note@ == "迟到包归入既有代次"@,
        !report.is_late && !report.new_generation ==> report.generation_note@
            == db.generations@[g].note@,
{
    reveal(placement);
    lemma_newest(db, g, p.device_id@, p.kind@);
}

} // verus!
