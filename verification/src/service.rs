//! Import of packets: validation, partitioning into acquisition generations and
//! duplicate detection.
//!
//! Packets are taken in the order of receipt, before any sorting by time, so that
//! reboots, week rollovers and leap seconds are handled explicitly.

use crate::clock;
use crate::clock::Unwrapper;
use crate::db;
use crate::db::{GenerationRow, Ledger, PoseRow};
use crate::model;
use crate::model::{AppError, AppResult, PacketInput, PacketKind, PacketRecord, RawPoint, RawTime};
use crate::rows;
use crate::scalar;
use crate::scalar::Scalar;
use crate::text;
use crate::time;
use crate::time::Nanos;
use crate::units;
use crate::units::{AngleUnit, LengthUnit, UnitSpec};
use vstd::prelude::*;
use vstd::string::*;

verus! {

/// How far behind the newest sequence number a reset is at least.
pub const RESET_DISTANCE: i64 = 10;

/// How near in time a packet is that is merely late.
pub const NEAR: Nanos = 2_000_000_000;

/// What became of a list of packets.
#[derive(Clone, Debug)]
pub struct ImportReport {
    pub accepted: usize,
    pub duplicates: usize,
    pub rejected: usize,
    pub new_generations: Vec<i64>,
    pub errors: Vec<String>,
}

/// What serialisation and floating point tell of a packet: its encoding, and for a
/// pose the rotation, the position and the covariance in metres and radians.
#[derive(Clone, Debug)]
pub struct Reading {
    pub payload: String,
    pub q: [Scalar; 4],
    pub xyz: [Scalar; 3],
    pub cov: Vec<Scalar>,
    /// Whether the covariance is positive definite.
    pub positive_definite: bool,
}

/// An error by its code and message.
pub struct Refusal {
    pub code: Seq<char>,
    pub message: Seq<char>,
}

fn err<T>(code: &'static str, m: &str) -> (r: AppResult<T>)
    ensures
        r matches Err(e) && e.says(code@, m@),
{
    Err(AppError::new(code, m))
}

// ---- validation -------------------------------------------------------------------

/// The length unit of a packet; metres where it names none.
pub open spec fn length_unit_of(p: PacketInput) -> Option<LengthUnit> {
    match p.length_unit {
        None => Some(LengthUnit::Meter),
        Some(s) => units::length_named(text::normal(s@)),
    }
}

/// The angle unit of a packet; radians where it names none.
pub open spec fn angle_unit_of(p: PacketInput) -> Option<AngleUnit> {
    match p.angle_unit {
        None => Some(AngleUnit::Radian),
        Some(s) => units::angle_named(text::normal(s@)),
    }
}

/// Why a packet's units are refused.
pub open spec fn unit_refusal(p: PacketInput) -> Option<Refusal> {
    if length_unit_of(p) is None {
        Some(
            Refusal {
                code: "unit_error"@,
                message: "unknown length unit '"@ + p.length_unit->0@ + "'"@,
            },
        )
    } else if angle_unit_of(p) is None {
        Some(
            Refusal {
                code: "unit_error"@,
                message: "unknown angle unit '"@ + p.angle_unit->0@ + "'"@,
            },
        )
    } else {
        None
    }
}

/// The units of a packet. An unknown unit is an error.
pub fn parse_units(p: &PacketInput) -> (r: AppResult<UnitSpec>)
    ensures
        match r {
            Ok(u) => unit_refusal(*p) is None && length_unit_of(*p) == Some(u.length)
                && angle_unit_of(*p) == Some(u.angle),
            Err(e) => unit_refusal(*p) is Some && e.says(
                unit_refusal(*p)->0.code,
                unit_refusal(*p)->0.message,
            ),
        },
{
    let length = match &p.length_unit {
        None => LengthUnit::Meter,
        Some(s) => match LengthUnit::parse(s.as_str()) {
            Some(u) => u,
            None => {
                let m = text::join3("unknown length unit '", s.as_str(), "'");
                return Err(AppError::bad_unit(m.as_str()));
            },
        },
    };
    let angle = match &p.angle_unit {
        None => AngleUnit::Radian,
        Some(s) => match AngleUnit::parse(s.as_str()) {
            Some(u) => u,
            None => {
                let m = text::join3("unknown angle unit '", s.as_str(), "'");
                return Err(AppError::bad_unit(m.as_str()));
            },
        },
    };
    Ok(UnitSpec { length, angle })
}

/// The kind of a packet.
pub open spec fn kind_of(p: PacketInput) -> Option<PacketKind> {
    model::kind_named(text::normal(p.kind@))
}

/// Whether a covariance has a usable number of entries.
pub open spec fn covariance_fits(p: PacketInput) -> bool {
    p.cov is Some ==> p.cov->0@.len() == 36 || p.cov->0@.len() == 6
}

/// Why a packet is refused before anything is stored.
pub open spec fn refusal(p: PacketInput) -> Option<Refusal> {
    if kind_of(p) is None {
        Some(Refusal { code: "bad_kind"@, message: "unknown kind '"@ + p.kind@ + "'"@ })
    } else if text::normal(p.device_id@).len() == 0 {
        Some(Refusal { code: "bad_device"@, message: "device_id is required"@ })
    } else if unit_refusal(p) is Some {
        unit_refusal(p)
    } else if p.timestamp is None || p.timestamp->0 < 0 {
        Some(Refusal { code: "bad_time"@, message: "timestamp must be >= 0"@ })
    } else if kind_of(p) == Some(PacketKind::Gnss) && !covariance_fits(p) {
        Some(
            Refusal {
                code: "singular_covariance"@,
                message: "gnss covariance must have 6 or 36 entries"@,
            },
        )
    } else {
        None
    }
}

/// A packet's kind, units and time, once it is in order.
struct Checked {
    kind: PacketKind,
    units: UnitSpec,
    timestamp: Nanos,
}

fn check_packet(p: &PacketInput) -> (r: AppResult<Checked>)
    ensures
        match r {
            Ok(c) => {
                &&& refusal(*p) is None
                &&& kind_of(*p) == Some(c.kind)
                &&& length_unit_of(*p) == Some(c.units.length)
                &&& angle_unit_of(*p) == Some(c.units.angle)
                &&& p.timestamp == Some(c.timestamp)
                &&& c.timestamp >= 0
            },
            Err(e) => refusal(*p) is Some && e.says(refusal(*p)->0.code, refusal(*p)->0.message),
        },
{
    let kind = match PacketKind::parse(p.kind.as_str()) {
        Some(k) => k,
        None => {
            let m = text::join3("unknown kind '", p.kind.as_str(), "'");
            return err("bad_kind", m.as_str());
        },
    };
    let device = text::normal_chars(p.device_id.as_str());
    if device.len() == 0 {
        return err("bad_device", "device_id is required");
    }
    let units = match parse_units(p) {
        Ok(u) => u,
        Err(e) => {
            return Err(e);
        },
    };
    let timestamp: Nanos = match p.timestamp {
        Some(t) => t,
        None => {
            return err("bad_time", "timestamp must be >= 0");
        },
    };
    if timestamp < 0 {
        return err("bad_time", "timestamp must be >= 0");
    }
    if kind == PacketKind::Gnss {
        let fits = match &p.cov {
            None => true,
            Some(v) => v.len() == 36 || v.len() == 6,
        };
        if !fits {
            return Err(AppError::singular("gnss covariance must have 6 or 36 entries"));
        }
    }
    Ok(Checked { kind, units, timestamp })
}

/// The summary of a packet's content.
pub open spec fn summary_of(p: PacketInput, kind: PacketKind, units: UnitSpec) -> Seq<char> {
    match kind {
        PacketKind::Lidar => {
            let n = if p.points is Some { p.points->0@.len() as int } else { 0 };
            "lidar:"@ + text::decimal(n) + "pts("@ + units.length.label_spec() + ")"@
        },
        PacketKind::Gnss => "gnss:pose("@ + units.length.label_spec() + ","@
            + units.angle.label_spec() + ")"@,
    }
}

/// The summary of a packet's content: how many points, or a pose, and in which
/// units.
pub fn content_summary(kind: PacketKind, p: &PacketInput, units: &UnitSpec) -> (r: String)
    ensures
        r@ == summary_of(*p, kind, *units),
{
    match kind {
        PacketKind::Lidar => {
            let n: usize = match &p.points {
                Some(v) => v.len(),
                None => 0,
            };
            let mut s = "lidar:".to_owned();
            let d = text::decimal_text(n as i128);
            s.append(d.as_str());
            s.append("pts(");
            s.append(units.length.label());
            s.append(")");
            s
        },
        PacketKind::Gnss => {
            let mut s = "gnss:pose(".to_owned();
            s.append(units.length.label());
            s.append(",");
            s.append(units.angle.label());
            s.append(")");
            s
        },
    }
}

/// The body frame of a device.
pub fn body_frame_for(device_id: &str) -> (r: String)
    ensures
        r@ == "body/"@ + device_id@,
{
    text::join2("body/", device_id)
}

/// The lidar frame of a device.
pub fn lidar_frame_for(device_id: &str) -> (r: String)
    ensures
        r@ == "lidar/"@ + device_id@,
{
    text::join2("lidar/", device_id)
}

/// The frame of a packet: the one it names, or its device's.
pub open spec fn frame_of(p: PacketInput, kind: PacketKind) -> Seq<char> {
    match p.coord_frame {
        Some(f) => f@,
        None => match kind {
            PacketKind::Lidar => "lidar/"@ + p.device_id@,
            PacketKind::Gnss => "body/"@ + p.device_id@,
        },
    }
}

fn frame_for(p: &PacketInput, kind: PacketKind) -> (r: String)
    ensures
        r@ == frame_of(*p, kind),
{
    match &p.coord_frame {
        Some(f) => f.clone(),
        None => match kind {
            PacketKind::Lidar => lidar_frame_for(p.device_id.as_str()),
            PacketKind::Gnss => body_frame_for(p.device_id.as_str()),
        },
    }
}

// ---- generations --------------------------------------------------------------------

/// What is known of a device while its packets are partitioned.
#[derive(Clone, Debug)]
pub struct DeviceState {
    pub device: String,
    pub generation_id: Option<i64>,
    pub unwrapper: Unwrapper,
    pub last_gnss_seq: Option<i64>,
    pub last_lidar_seq: Option<i64>,
    pub boot_marker: Option<String>,
    pub boot_id: Option<i64>,
    /// The greatest raw time stamp of the generation.
    pub last_raw: Option<Nanos>,
}

/// What a device's state stands for.
pub struct DeviceValue {
    pub generation_id: Option<i64>,
    pub unwrapper: Unwrapper,
    pub last_gnss_seq: Option<i64>,
    pub last_lidar_seq: Option<i64>,
    pub boot_marker: Option<Seq<char>>,
    pub boot_id: Option<i64>,
    pub last_raw: Option<Nanos>,
}

impl View for DeviceState {
    type V = DeviceValue;

    open spec fn view(&self) -> DeviceValue {
        DeviceValue {
            generation_id: self.generation_id,
            unwrapper: self.unwrapper,
            last_gnss_seq: self.last_gnss_seq,
            last_lidar_seq: self.last_lidar_seq,
            boot_marker: text::text_of(self.boot_marker),
            boot_id: self.boot_id,
            last_raw: self.last_raw,
        }
    }
}

/// A device of which nothing is known.
pub open spec fn unknown_device() -> DeviceValue {
    DeviceValue {
        generation_id: None,
        unwrapper: fresh_clock(),
        last_gnss_seq: None,
        last_lidar_seq: None,
        boot_marker: None,
        boot_id: None,
        last_raw: None,
    }
}

/// A clock that has taken no reading.
pub open spec fn fresh_clock() -> Unwrapper {
    Unwrapper { last: None, offset: 0, readings: 0 }
}

/// Whether a state is a device's.
pub open spec fn state_of_device(s: Seq<DeviceState>, device: Seq<char>) -> spec_fn(int) -> bool {
    |i: int| s[i].device@ == device
}

/// What is known of a device.
pub open spec fn known(s: Seq<DeviceState>, device: Seq<char>) -> DeviceValue {
    match rows::first_where(s.len() as int, state_of_device(s, device)) {
        Some(i) => s[i]@,
        None => unknown_device(),
    }
}

/// A packet's raw time fields; the scale is GPS where it names none.
pub open spec fn is_raw_time(raw: RawTime, p: PacketInput) -> bool {
    &&& p.timestamp == Some(raw.sow)
    &&& raw.week == p.week
    &&& raw.leap_second_flag == p.leap_second_flag
    &&& raw.scale@ == match p.time_scale {
        Some(s) => s@,
        None => "gps"@,
    }
}

fn raw_time_of(p: &PacketInput, timestamp: Nanos) -> (r: RawTime)
    requires
        p.timestamp == Some(timestamp),
    ensures
        is_raw_time(r, *p),
{
    let scale = match &p.time_scale {
        Some(s) => s.clone(),
        None => "gps".to_owned(),
    };
    RawTime { sow: timestamp, week: p.week, leap_second_flag: p.leap_second_flag, scale }
}

/// The newest sequence number of a kind of packet.
pub open spec fn last_seq(d: DeviceValue, kind: PacketKind) -> Option<i64> {
    match kind {
        PacketKind::Gnss => d.last_gnss_seq,
        PacketKind::Lidar => d.last_lidar_seq,
    }
}

/// Why a packet opens a generation before its time is looked at: it is the device's
/// first, its boot marker or boot counter has changed, or its number is far below
/// the newest one without its time being near.
pub open spec fn opening_reason(d: DeviceValue, p: PacketInput, kind: PacketKind) -> Option<
    Seq<char>,
> {
    let marker = text::text_of(p.boot_marker);
    if d.generation_id is None {
        Some("first_packet"@)
    } else if marker is Some && d.boot_marker is Some && marker != d.boot_marker {
        Some("boot_marker_changed"@)
    } else if p.boot_id is Some && d.boot_id is Some && p.boot_id != d.boot_id {
        Some("boot_id_changed"@)
    } else if last_seq(d, kind) is Some && p.seq + RESET_DISTANCE < last_seq(d, kind)->0
        && d.last_raw is Some && time::distance(p.timestamp->0 as int, d.last_raw->0 as int)
        > NEAR {
        Some("seq_reset_reboot"@)
    } else {
        None
    }
}

/// Which generation a packet is admitted to, and at what continuous time.
pub struct Admission {
    /// Why it opens a generation, if it does.
    pub opens: Option<Seq<char>>,
    /// The time at which that generation opens.
    pub opened_at: int,
    pub t: int,
    pub unwrapper: Unwrapper,
}

/// Which generation a packet is admitted to: one that it opens, also where its time
/// steps back further than a late packet's would and neither a week rollover nor a
/// leap second explains it, or else the device's current one.
pub open spec fn admission(d: DeviceValue, p: PacketInput, kind: PacketKind, raw: RawTime)
    -> Admission {
    let fresh = fresh_clock();
    match opening_reason(d, p, kind) {
        Some(reason) => Admission {
            opens: Some(reason),
            opened_at: p.timestamp->0 as int,
            t: fresh.continuous(raw),
            unwrapper: fresh.after(raw),
        },
        None => if clock::breaks(d.unwrapper.behind(raw)) && d.unwrapper.weeks(raw) == 0
            && !raw.leap_second_flag {
            Admission {
                opens: Some("time_discontinuity"@),
                opened_at: d.unwrapper.continuous(raw),
                t: fresh.continuous(raw),
                unwrapper: fresh.after(raw),
            }
        } else {
            Admission {
                opens: None,
                opened_at: 0,
                t: d.unwrapper.continuous(raw),
                unwrapper: d.unwrapper.after(raw),
            }
        },
    }
}

/// The greater of two numbers, where the first may be missing.
pub open spec fn raised(before: Option<i64>, now: i64) -> Option<i64> {
    match before {
        Some(b) => if b > now {
            Some(b)
        } else {
            Some(now)
        },
        None => Some(now),
    }
}

/// What is known of a device once a packet is admitted and before it is counted: a
/// new generation forgets sequence numbers and times.
pub open spec fn admitted(d: DeviceValue, a: Admission, generation_id: i64) -> DeviceValue {
    DeviceValue {
        generation_id: Some(generation_id),
        unwrapper: a.unwrapper,
        last_gnss_seq: if a.opens is Some { None } else { d.last_gnss_seq },
        last_lidar_seq: if a.opens is Some { None } else { d.last_lidar_seq },
        boot_marker: d.boot_marker,
        boot_id: d.boot_id,
        last_raw: if a.opens is Some { None } else { d.last_raw },
    }
}

/// What is known of a device once a packet is counted: sequence numbers and times
/// only rise, so that a late packet does not hide a reset.
pub open spec fn counted(d: DeviceValue, p: PacketInput, kind: PacketKind) -> DeviceValue {
    let sow = p.timestamp->0;
    DeviceValue {
        generation_id: d.generation_id,
        unwrapper: d.unwrapper,
        last_gnss_seq: if kind is Gnss { raised(d.last_gnss_seq, p.seq) } else { d.last_gnss_seq },
        last_lidar_seq: if kind is Lidar {
            raised(d.last_lidar_seq, p.seq)
        } else {
            d.last_lidar_seq
        },
        boot_marker: text::text_of(p.boot_marker),
        boot_id: p.boot_id,
        last_raw: match d.last_raw {
            Some(l) => if l > sow {
                Some(l)
            } else {
                Some(sow)
            },
            None => Some(sow),
        },
    }
}

fn same_marker(a: &Option<String>, b: &Option<String>) -> (r: bool)
    ensures
        r == (text::text_of(*a) == text::text_of(*b)),
{
    match a {
        None => b.is_none(),
        Some(x) => match b {
            None => false,
            Some(y) => text::same(x.as_str(), y.as_str()),
        },
    }
}

fn reason_for(d: &DeviceState, p: &PacketInput, kind: PacketKind, timestamp: Nanos) -> (r: Option<
    &'static str,
>)
    requires
        p.timestamp == Some(timestamp),
        time::is_stamp(timestamp as int),
        d.last_raw is Some ==> time::is_stamp(d.last_raw->0 as int),
    ensures
        match r {
            Some(s) => opening_reason(d@, *p, kind) == Some(s@),
            None => opening_reason(d@, *p, kind) is None,
        },
{
    if d.generation_id.is_none() {
        return Some("first_packet");
    }
    if p.boot_marker.is_some() && d.boot_marker.is_some() && !same_marker(
        &p.boot_marker,
        &d.boot_marker,
    ) {
        return Some("boot_marker_changed");
    }
    if let (Some(a), Some(b)) = (p.boot_id, d.boot_id) {
        if a != b {
            return Some("boot_id_changed");
        }
    }
    let last: Option<i64> = if kind == PacketKind::Gnss {
        d.last_gnss_seq
    } else {
        d.last_lidar_seq
    };
    if let (Some(l), Some(raw)) = (last, d.last_raw) {
        let far = p.seq as i128 + (RESET_DISTANCE as i128) < l as i128;
        let gap: i128 = if timestamp <= raw {
            raw - timestamp
        } else {
            timestamp - raw
        };
        if far && gap > NEAR {
            return Some("seq_reset_reboot");
        }
    }
    None
}

/// Whether states are in order after at most `n` packets: clocks are in range, and
/// generations exist.
pub open spec fn states_wf(s: Seq<DeviceState>, generations: int, n: int) -> bool {
    forall|i: int|
        0 <= i < s.len() ==> {
            let d = #[trigger] s[i];
            &&& d.unwrapper.wf()
            &&& d.unwrapper.readings <= n
            &&& d.last_raw is Some ==> time::is_stamp(d.last_raw->0 as int)
            &&& d.generation_id is Some ==> 1 <= d.generation_id->0 <= generations
        }
}

proof fn lemma_state_replaced(before: Seq<DeviceState>, at: int, now: DeviceState)
    requires
        0 <= at < before.len(),
        now.device@ == before[at].device@,
        rows::first_where(
            before.len() as int,
            state_of_device(before, before[at].device@),
        ) == Some(at),
    ensures
        forall|d: Seq<char>| #[trigger]
            known(before.update(at, now), d) == if d == now.device@ {
                now@
            } else {
                known(before, d)
            },
{
    let after = before.update(at, now);
    let n = before.len() as int;
    assert forall|d: Seq<char>| #[trigger] known(after, d) == if d == now.device@ {
        now@
    } else {
        known(before, d)
    } by {
        let h = state_of_device(before, d);
        let g = state_of_device(after, d);
        rows::lemma_first_where(n, h);
        rows::lemma_first_where(n, g);
        assert forall|k: int| 0 <= k < n implies #[trigger] h(k) == g(k) by {
            if k == at {
                assert(after[k] == now);
            } else {
                assert(after[k] == before[k]);
            }
        }
        match rows::first_where(n, h) {
            Some(j) => {
                assert forall|k: int| 0 <= k < j implies !#[trigger] g(k) by {
                    assert(!h(k));
                }
                assert(g(j));
                rows::lemma_first_is(n, g, j);
            },
            None => {
                match rows::first_where(n, g) {
                    Some(j) => {
                        assert(h(j));
                    },
                    None => {},
                }
            },
        }
    }
}

proof fn lemma_state_added(before: Seq<DeviceState>, now: DeviceState)
    requires
        rows::first_where(before.len() as int, state_of_device(before, now.device@)) is None,
    ensures
        rows::first_where(
            before.len() as int + 1,
            state_of_device(before.push(now), now.device@),
        ) == Some(before.len() as int),
        forall|d: Seq<char>| #[trigger]
            known(before.push(now), d) == if d == now.device@ {
                now@
            } else {
                known(before, d)
            },
{
    let after = before.push(now);
    let n = before.len() as int;
    assert forall|d: Seq<char>| #![trigger known(after, d)]
        (d == now.device@ ==> rows::first_where(n + 1, state_of_device(after, d)) == Some(n))
            && known(after, d) == if d == now.device@ {
            now@
        } else {
            known(before, d)
        } by {
        let h = state_of_device(before, d);
        let g = state_of_device(after, d);
        rows::lemma_first_where(n, h);
        rows::lemma_first_where(n + 1, g);
        match rows::first_where(n, h) {
            Some(j) => {
                assert forall|k: int| 0 <= k < j implies !#[trigger] g(k) by {
                    assert(!h(k));
                }
                assert(g(j));
                rows::lemma_first_is(n + 1, g, j);
            },
            None => {
                assert forall|k: int| 0 <= k < n implies !#[trigger] g(k) by {
                    assert(!h(k));
                }
                if d == now.device@ {
                    assert(g(n));
                    rows::lemma_first_is(n + 1, g, n);
                } else {
                    assert(!g(n));
                }
            },
        }
    }
    assert(known(after, now.device@) == now@);
}

/// The position of a device's state, which is made if there is none.
fn entry(states: &mut Vec<DeviceState>, device: &str) -> (r: usize)
    ensures
        r < final(states)@.len(),
        final(states)@[r as int].device@ == device@,
        rows::first_where(
            final(states)@.len() as int,
            state_of_device(final(states)@, device@),
        ) == Some(r as int),
        final(states)@[r as int]@ == known(old(states)@, device@),
        forall|d: Seq<char>| #[trigger] known(final(states)@, d) == known(old(states)@, d),
        forall|g: int, n: int|
            n >= 0 && #[trigger] states_wf(old(states)@, g, n) ==> states_wf(
                final(states)@,
                g,
                n,
            ),
{
    let ghost start = states@;
    let ghost holds = state_of_device(start, device@);
    let mut i: usize = 0;
    while i < states.len()
        invariant
            i <= states@.len(),
            states@ == start,
            start == old(states)@,
            holds == state_of_device(start, device@),
            rows::first_where(i as int, holds) is None,
            forall|k: int| 0 <= k < i ==> !#[trigger] holds(k),
        decreases states.len() - i,
    {
        if text::same(states[i].device.as_str(), device) {
            proof {
                assert(holds(i as int));
                rows::lemma_first_is(start.len() as int, holds, i as int);
            }
            return i;
        }
        assert(!holds(i as int));
        i += 1;
    }
    states.push(
        DeviceState {
            device: device.to_owned(),
            generation_id: None,
            unwrapper: Unwrapper::new(),
            last_gnss_seq: None,
            last_lidar_seq: None,
            boot_marker: None,
            boot_id: None,
            last_raw: None,
        },
    );
    proof {
        lemma_state_added(start, states@.last());
        assert(states@ =~= start.push(states@.last()));
    }
    i
}

// ---- storing ------------------------------------------------------------------------

/// Whether a packet has the number and generation of a new one of its device.
pub open spec fn numbered(packets: Seq<PacketRecord>, device: Seq<char>, seq: int, gid: int)
    -> spec_fn(int) -> bool {
    |i: int|
        packets[i].device_id@ == device && packets[i].seq == seq && packets[i].generation_id == gid
}

/// The packet that a new one repeats: the first with its number in its generation,
/// where the content is the same too.
pub open spec fn repeated(
    packets: Seq<PacketRecord>,
    device: Seq<char>,
    seq: int,
    gid: int,
    payload: Seq<char>,
) -> Option<i64> {
    match rows::first_where(packets.len() as int, numbered(packets, device, seq, gid)) {
        Some(i) => if packets[i].payload@ == payload {
            Some(packets[i].id)
        } else {
            None
        },
        None => None,
    }
}

fn find_repeated(
    packets: &Vec<PacketRecord>,
    device: &str,
    seq: i64,
    gid: i64,
    payload: &str,
) -> (r: Option<i64>)
    ensures
        r == repeated(packets@, device@, seq as int, gid as int, payload@),
{
    let ghost holds = numbered(packets@, device@, seq as int, gid as int);
    let mut i: usize = 0;
    while i < packets.len()
        invariant
            i <= packets@.len(),
            holds == numbered(packets@, device@, seq as int, gid as int),
            rows::first_where(i as int, holds) is None,
            forall|k: int| 0 <= k < i ==> !#[trigger] holds(k),
        decreases packets.len() - i,
    {
        let p = &packets[i];
        if p.seq == seq && p.generation_id == gid && text::same(p.device_id.as_str(), device) {
            proof {
                assert(holds(i as int));
                rows::lemma_first_is(packets@.len() as int, holds, i as int);
            }
            if text::same(p.payload.as_str(), payload) {
                return Some(p.id);
            }
            return None;
        }
        assert(!holds(i as int));
        i += 1;
    }
    None
}

/// Why a packet's pose is refused; the packet itself is stored all the same.
pub open spec fn pose_refusal(p: PacketInput, reading: Reading) -> Option<Refusal> {
    if p.px is None || p.py is None || p.pz is None {
        Some(Refusal { code: "bad_pose"@, message: "gnss packet needs px,py,pz"@ })
    } else if p.quat is Some && !scalar::all_finite_spec(reading.q@) {
        Some(Refusal { code: "bad_pose"@, message: "non-finite quaternion"@ })
    } else if p.cov is Some && !reading.positive_definite {
        Some(
            Refusal {
                code: "singular_covariance"@,
                message: "gnss pose covariance is not positive definite"@,
            },
        )
    } else {
        None
    }
}

fn check_pose(p: &PacketInput, reading: &Reading) -> (r: AppResult<()>)
    ensures
        match r {
            Ok(()) => pose_refusal(*p, *reading) is None,
            Err(e) => pose_refusal(*p, *reading) is Some && e.says(
                pose_refusal(*p, *reading)->0.code,
                pose_refusal(*p, *reading)->0.message,
            ),
        },
{
    if p.px.is_none() || p.py.is_none() || p.pz.is_none() {
        return err("bad_pose", "gnss packet needs px,py,pz");
    }
    if p.quat.is_some() {
        let q = reading.q;
        if !(q[0].is_finite() && q[1].is_finite() && q[2].is_finite() && q[3].is_finite()) {
            return err("bad_pose", "non-finite quaternion");
        }
    }
    if p.cov.is_some() && !reading.positive_definite {
        return Err(AppError::singular("gnss pose covariance is not positive definite"));
    }
    Ok(())
}

/// The points of a packet.
pub open spec fn points_of(p: PacketInput) -> Seq<RawPoint> {
    match p.points {
        Some(v) => v@,
        None => Seq::empty(),
    }
}

fn copy_points(p: &PacketInput) -> (r: Vec<RawPoint>)
    ensures
        r@ == points_of(*p),
{
    let mut out: Vec<RawPoint> = Vec::new();
    match &p.points {
        None => {
            assert(out@ =~= points_of(*p));
        },
        Some(v) => {
            let mut i: usize = 0;
            while i < v.len()
                invariant
                    i <= v.len(),
                    out@ == v@.take(i as int),
                decreases v.len() - i,
            {
                out.push(v[i]);
                i += 1;
                assert(v@.take(i as int) =~= v@.take(i - 1).push(v@[i - 1]));
            }
            assert(v@.take(v.len() as int) =~= v@);
        },
    }
    out
}

/// Whether `row` is the stored form of a packet.
pub open spec fn is_record_of(
    row: PacketRecord,
    p: PacketInput,
    kind: PacketKind,
    payload: Seq<char>,
    id: int,
    generation_id: int,
    t: int,
    received_index: int,
    duplicate_of: Option<i64>,
) -> bool {
    &&& row.id == id
    &&& row.generation_id == generation_id
    &&& row.kind == kind
    &&& row.device_id@ == p.device_id@
    &&& row.seq == p.seq
    &&& row.boot_id == p.boot_id
    &&& text::text_of(row.boot_marker) == text::text_of(p.boot_marker)
    &&& is_raw_time(row.raw, p)
    &&& Some(row.units.length) == length_unit_of(p)
    &&& Some(row.units.angle) == angle_unit_of(p)
    &&& row.coord_frame@ == frame_of(p, kind)
    &&& row.continuous_time == t
    &&& row.received_index == received_index
    &&& row.duplicate_of == duplicate_of
    &&& row.content_summary@ == summary_of(p, kind, row.units)
    &&& row.points@ == points_of(p)
    &&& row.payload@ == payload
}

/// Whether `g` is the generation that a packet opens.
pub open spec fn is_generation_of(g: GenerationRow, p: PacketInput, a: Admission, id: int) -> bool {
    &&& g.id == id
    &&& g.created_order == id
    &&& g.device_id@ == p.device_id@
    &&& a.opens == Some(g.reason@)
    &&& g.opened_at == a.opened_at
}

/// Whether a pose row is a packet's.
pub open spec fn is_pose_of(row: PoseRow, reading: Reading, id: int, pid: int, gid: int, t: int) -> bool {
    &&& row.id == id
    &&& row.packet_id == pid
    &&& row.generation_id == gid
    &&& row.t == t
    &&& row.q == reading.q
    &&& row.xyz == reading.xyz
    &&& row.cov@ == reading.cov@
}

/// The outcome of a packet that is in order: an error only where its pose is refused.
pub open spec fn pose_outcome(p: PacketInput, reading: Reading) -> Option<Refusal> {
    if kind_of(p) == Some(PacketKind::Gnss) {
        pose_refusal(p, reading)
    } else {
        None
    }
}

/// The outcome of importing a packet.
pub open spec fn outcome(p: PacketInput, reading: Reading) -> Option<Refusal> {
    if refusal(p) is Some {
        refusal(p)
    } else {
        pose_outcome(p, reading)
    }
}

/// Whether the tables, the states and the report after a packet that is in order are
/// what importing it makes of those before.
pub open spec fn stored(
    l: Ledger,
    s: Seq<DeviceState>,
    rep: ImportReport,
    p: PacketInput,
    reading: Reading,
    received_index: int,
    l2: Ledger,
    s2: Seq<DeviceState>,
    rep2: ImportReport,
) -> bool {
    let kind = kind_of(p)->0;
    let device = p.device_id@;
    let row = l2.packets@.last();
    let d = known(s, device);
    let a = admission(d, p, kind, row.raw);
    let gid = if a.opens is Some { l.generations@.len() as int + 1 } else { d.generation_id->0 as int };
    let pid = l.packets@.len() as int + 1;
    let dup = repeated(l.packets@, device, p.seq as int, gid, reading.payload@);
    let mid = admitted(d, a, gid as i64);
    &&& l2.packets@.len() == pid
    &&& l2.packets@.drop_last() == l.packets@
    &&& is_record_of(row, p, kind, reading.payload@, pid, gid, a.t, received_index, dup)
    &&& if a.opens is Some {
        &&& l2.generations@.len() == gid
        &&& l2.generations@.drop_last() == l.generations@
        &&& is_generation_of(l2.generations@.last(), p, a, gid)
        &&& rep2.new_generations@ == rep.new_generations@.push(gid as i64)
    } else {
        &&& l2.generations@ == l.generations@
        &&& rep2.new_generations@ == rep.new_generations@
    }
    &&& if kind is Gnss && pose_refusal(p, reading) is None {
        &&& l2.poses@.len() == l.poses@.len() + 1
        &&& l2.poses@.drop_last() == l.poses@
        &&& is_pose_of(l2.poses@.last(), reading, l.poses@.len() as int + 1, pid, gid, a.t)
    } else {
        l2.poses@ == l.poses@
    }
    &&& l2.edges == l.edges
    &&& l2.frames == l.frames
    &&& l2.blocks == l.blocks
    &&& l2.points == l.points
    &&& rep2.accepted == rep.accepted + if dup is None { 1int } else { 0 }
    &&& rep2.duplicates == rep.duplicates + if dup is None { 0int } else { 1 }
    &&& rep2.rejected == rep.rejected
    &&& rep2.errors@ == rep.errors@
    &&& forall|x: Seq<char>| #[trigger]
        known(s2, x) == if x != device {
            known(s, x)
        } else if pose_outcome(p, reading) is Some {
            mid
        } else {
            counted(mid, p, kind)
        }
}

/// Whether nothing has changed.
pub open spec fn untouched(
    l: Ledger,
    s: Seq<DeviceState>,
    rep: ImportReport,
    l2: Ledger,
    s2: Seq<DeviceState>,
    rep2: ImportReport,
) -> bool {
    &&& l2 == l
    &&& rep2 == rep
    &&& forall|x: Seq<char>| #[trigger] known(s2, x) == known(s, x)
}

/// Whether the tables, the states and the report after a packet are what importing it
/// makes of those before.
pub open spec fn imported(
    l: Ledger,
    s: Seq<DeviceState>,
    rep: ImportReport,
    p: PacketInput,
    reading: Reading,
    received_index: int,
    l2: Ledger,
    s2: Seq<DeviceState>,
    rep2: ImportReport,
) -> bool {
    if refusal(p) is Some {
        untouched(l, s, rep, l2, s2, rep2)
    } else {
        stored(l, s, rep, p, reading, received_index, l2, s2, rep2)
    }
}

/// Whether a packet's time fields are within the range that is handled.
pub open spec fn time_in_range(p: PacketInput) -> bool {
    &&& p.timestamp is Some ==> time::is_stamp(p.timestamp->0 as int)
    &&& p.week is Some ==> -clock::WEEK_LIMIT <= p.week->0 <= clock::WEEK_LIMIT
}

/// Whether a packet's time fields are within the range that is handled.
pub fn time_ok(p: &PacketInput) -> (r: bool)
    ensures
        r == time_in_range(*p),
{
    let stamp = match p.timestamp {
        Some(t) => time::stamp_ok(t),
        None => true,
    };
    let week = match p.week {
        Some(w) => -clock::WEEK_LIMIT <= w && w <= clock::WEEK_LIMIT,
        None => true,
    };
    stamp && week
}

fn copy_text(s: &Option<String>) -> (r: Option<String>)
    ensures
        text::text_of(r) == text::text_of(*s),
{
    match s {
        Some(t) => Some(t.clone()),
        None => None,
    }
}

/// Opens a generation.
fn open_generation(
    db: &mut Ledger,
    device_id: &str,
    reason: &str,
    opened_at: Nanos,
    report: &mut ImportReport,
) -> (r: i64)
    requires
        old(db).generations@.len() < i64::MAX,
    ensures
        r == old(db).generations@.len() + 1,
        final(db).generations@.len() == r,
        final(db).generations@.drop_last() == old(db).generations@,
        ({
            let g = final(db).generations@.last();
            &&& g.id == r
            &&& g.created_order == r
            &&& g.device_id@ == device_id@
            &&& g.reason@ == reason@
            &&& g.opened_at == opened_at
        }),
        final(db).packets == old(db).packets,
        final(db).poses == old(db).poses,
        final(db).edges == old(db).edges,
        final(db).frames == old(db).frames,
        final(db).blocks == old(db).blocks,
        final(db).points == old(db).points,
        final(report).new_generations@ == old(report).new_generations@.push(r),
        final(report).accepted == old(report).accepted,
        final(report).duplicates == old(report).duplicates,
        final(report).rejected == old(report).rejected,
        final(report).errors == old(report).errors,
{
    let id: i64 = db.generations.len() as i64 + 1;
    db.generations.push(
        GenerationRow {
            id,
            device_id: device_id.to_owned(),
            reason: reason.to_owned(),
            opened_at,
            created_order: id,
        },
    );
    assert(db.generations@.drop_last() =~= old(db).generations@);
    report.new_generations.push(id);
    id
}

/// Admits a packet to a generation, and tells which and at what continuous time.
fn assign_generation(
    db: &mut Ledger,
    states: &mut Vec<DeviceState>,
    at: usize,
    p: &PacketInput,
    c: &Checked,
    raw: &RawTime,
    report: &mut ImportReport,
    Ghost(n): Ghost<int>,
) -> (r: (i64, Nanos))
    requires
        old(db).generations@.len() < i64::MAX,
        at < old(states)@.len(),
        old(states)@[at as int].device@ == p.device_id@,
        rows::first_where(
            old(states)@.len() as int,
            state_of_device(old(states)@, p.device_id@),
        ) == Some(at as int),
        states_wf(old(states)@, old(db).generations@.len() as int, n),
        0 <= n < clock::READINGS_LIMIT,
        p.timestamp == Some(c.timestamp),
        is_raw_time(*raw, *p),
        time_in_range(*p),
    ensures
        ({
            let d = old(states)@[at as int]@;
            let a = admission(d, *p, c.kind, *raw);
            let gid = if a.opens is Some {
                old(db).generations@.len() as int + 1
            } else {
                d.generation_id->0 as int
            };
            &&& r.0 == gid
            &&& r.1 == a.t
            &&& time::is_span(r.1 as int)
            &&& 1 <= gid <= final(db).generations@.len()
            &&& if a.opens is Some {
                &&& final(db).generations@.len() == gid
                &&& final(db).generations@.drop_last() == old(db).generations@
                &&& is_generation_of(final(db).generations@.last(), *p, a, gid)
                &&& final(report).new_generations@ == old(report).new_generations@.push(gid as i64)
            } else {
                &&& final(db).generations@ == old(db).generations@
                &&& final(report).new_generations@ == old(report).new_generations@
            }
            &&& final(states)@.len() == old(states)@.len()
            &&& final(states)@[at as int].device@ == p.device_id@
            &&& final(states)@[at as int]@ == admitted(d, a, gid as i64)
            &&& forall|i: int|
                0 <= i < old(states)@.len() && i != at ==> #[trigger] final(states)@[i]
                    == old(states)@[i]
        }),
        states_wf(final(states)@, final(db).generations@.len() as int, n + 1),
        final(db).packets == old(db).packets,
        final(db).poses == old(db).poses,
        final(db).edges == old(db).edges,
        final(db).frames == old(db).frames,
        final(db).blocks == old(db).blocks,
        final(db).points == old(db).points,
        final(report).accepted == old(report).accepted,
        final(report).duplicates == old(report).duplicates,
        final(report).rejected == old(report).rejected,
        final(report).errors == old(report).errors,
{
    let ghost before = states@;
    let device = p.device_id.as_str();
    assert(clock::in_range(*raw));
    let reason = reason_for(&states[at], p, c.kind, c.timestamp);
    let mut fresh = Unwrapper::new();
    let mut current: Unwrapper = states[at].unwrapper;
    if let Some(why) = reason {
        let gid: i64 = open_generation(db, device, why, c.timestamp, report);
        let resolved = fresh.resolve(raw);
        states[at].generation_id = Some(gid);
        states[at].unwrapper = fresh;
        states[at].last_gnss_seq = None;
        states[at].last_lidar_seq = None;
        states[at].last_raw = None;
        return (gid, resolved.t);
    }
    let resolved = current.resolve(raw);
    if clock::is_generation_break(resolved.backward) && !resolved.week_rollover
        && !resolved.leap_adjusted {
        let gid: i64 = open_generation(db, device, "time_discontinuity", resolved.t, report);
        let again = fresh.resolve(raw);
        states[at].generation_id = Some(gid);
        states[at].unwrapper = fresh;
        states[at].last_gnss_seq = None;
        states[at].last_lidar_seq = None;
        states[at].last_raw = None;
        return (gid, again.t);
    }
    states[at].unwrapper = current;
    let gid: i64 = match states[at].generation_id {
        Some(g) => g,
        None => 0,
    };
    (gid, resolved.t)
}

/// Stores a packet in its generation and counts it.
fn finish_insert(
    db: &mut Ledger,
    p: &PacketInput,
    c: &Checked,
    raw: RawTime,
    reading: &Reading,
    gid: i64,
    t: Nanos,
    received_index: i64,
    report: &mut ImportReport,
) -> (r: AppResult<()>)
    requires
        old(db).packets@.len() < i64::MAX,
        old(db).poses@.len() < i64::MAX,
        kind_of(*p) == Some(c.kind),
        length_unit_of(*p) == Some(c.units.length),
        angle_unit_of(*p) == Some(c.units.angle),
        is_raw_time(raw, *p),
        old(report).accepted < usize::MAX,
        old(report).duplicates < usize::MAX,
    ensures
        ({
            let dup = repeated(
                old(db).packets@,
                p.device_id@,
                p.seq as int,
                gid as int,
                reading.payload@,
            );
            let pid = old(db).packets@.len() as int + 1;
            let row = final(db).packets@.last();
            &&& final(db).packets@.len() == pid
            &&& final(db).packets@.drop_last() == old(db).packets@
            &&& row.raw == raw
            &&& is_record_of(
                row,
                *p,
                c.kind,
                reading.payload@,
                pid,
                gid as int,
                t as int,
                received_index as int,
                dup,
            )
            &&& final(report).accepted == old(report).accepted + if dup is None { 1int } else { 0 }
            &&& final(report).duplicates == old(report).duplicates + if dup is None {
                0int
            } else {
                1
            }
            &&& if c.kind is Gnss && pose_refusal(*p, *reading) is None {
                &&& final(db).poses@.len() == old(db).poses@.len() + 1
                &&& final(db).poses@.drop_last() == old(db).poses@
                &&& is_pose_of(
                    final(db).poses@.last(),
                    *reading,
                    old(db).poses@.len() as int + 1,
                    pid,
                    gid as int,
                    t as int,
                )
            } else {
                final(db).poses@ == old(db).poses@
            }
            &&& match r {
                Ok(()) => pose_outcome(*p, *reading) is None,
                Err(e) => pose_outcome(*p, *reading) is Some && e.says(
                    pose_outcome(*p, *reading)->0.code,
                    pose_outcome(*p, *reading)->0.message,
                ),
            }
        }),
        final(db).generations == old(db).generations,
        final(db).edges == old(db).edges,
        final(db).frames == old(db).frames,
        final(db).blocks == old(db).blocks,
        final(db).points == old(db).points,
        final(report).new_generations == old(report).new_generations,
        final(report).rejected == old(report).rejected,
        final(report).errors == old(report).errors,
{
    let duplicate_of = find_repeated(
        &db.packets,
        p.device_id.as_str(),
        p.seq,
        gid,
        reading.payload.as_str(),
    );
    let pid: i64 = db.packets.len() as i64 + 1;
    let summary = content_summary(c.kind, p, &c.units);
    db.packets.push(
        PacketRecord {
            id: pid,
            generation_id: gid,
            kind: c.kind,
            device_id: p.device_id.clone(),
            seq: p.seq,
            boot_id: p.boot_id,
            boot_marker: copy_text(&p.boot_marker),
            raw,
            units: c.units,
            coord_frame: frame_for(p, c.kind),
            continuous_time: t,
            received_index,
            duplicate_of,
            content_summary: summary,
            points: copy_points(p),
            payload: reading.payload.clone(),
        },
    );
    assert(db.packets@.drop_last() =~= old(db).packets@);
    if duplicate_of.is_some() {
        report.duplicates = report.duplicates + 1;
    } else {
        report.accepted = report.accepted + 1;
    }
    if c.kind == PacketKind::Gnss {
        match check_pose(p, reading) {
            Err(e) => {
                return Err(e);
            },
            Ok(()) => {},
        }
        let id: i64 = db.poses.len() as i64 + 1;
        db.poses.push(
            PoseRow {
                id,
                packet_id: pid,
                generation_id: gid,
                t,
                q: reading.q,
                xyz: reading.xyz,
                cov: scalar::copied(&reading.cov),
            },
        );
        assert(db.poses@.drop_last() =~= old(db).poses@);
    }
    Ok(())
}

proof fn lemma_ledger_grows(l: Ledger, l2: Ledger, gid: int, t: int)
    requires
        l.facts_wf(),
        time::is_span(t),
        l2.generations@ == l.generations@ && 1 <= gid <= l.generations@.len()
            || l2.generations@.len() == l.generations@.len() + 1 && l2.generations@.drop_last()
            == l.generations@ && gid == l2.generations@.len() && l2.generations@.last().id == gid
            && l2.generations@.last().created_order == gid,
        l2.packets@.len() <= usize::MAX,
        l2.packets@.len() == l.packets@.len() + 1,
        l2.packets@.drop_last() == l.packets@,
        l2.packets@.last().id == l.packets@.len() + 1,
        l2.packets@.last().generation_id == gid,
        l2.packets@.last().continuous_time == t,
        l2.poses@ == l.poses@ || l2.poses@.len() == l.poses@.len() + 1 && l2.poses@.drop_last()
            == l.poses@ && l2.poses@.last().id == l.poses@.len() + 1 && l2.poses@.last().t == t
            && l2.poses@.last().packet_id == l2.packets@.len() && l2.poses@.last().generation_id
            == gid,
        l2.edges == l.edges,
    ensures
        l2.facts_wf(),
{
    let n = l.packets@.len() as int;
    assert forall|i: int| 0 <= i < n implies #[trigger] l2.packets@[i] == l.packets@[i] by {
        assert(l2.packets@.drop_last()[i] == l2.packets@[i]);
    }
    assert forall|i: int| 0 <= i < l.generations@.len() implies #[trigger] l2.generations@[i]
        == l.generations@[i] by {
        if l2.generations@ != l.generations@ {
            assert(l2.generations@.drop_last()[i] == l2.generations@[i]);
        }
    }
    assert forall|i: int| 0 <= i < l.poses@.len() implies #[trigger] l2.poses@[i]
        == l.poses@[i] by {
        if l2.poses@ != l.poses@ {
            assert(l2.poses@.drop_last()[i] == l2.poses@[i]);
        }
    }
    assert forall|i: int| 0 <= i < l2.poses@.len() implies db::is_posed(
        l2.packets@,
        #[trigger] l2.poses@[i],
    ) by {
        if i < l.poses@.len() {
            assert(db::is_posed(l.packets@, l.poses@[i]));
        }
    }
    assert forall|i: int, j: int| #![trigger l2.poses@[i], l2.poses@[j]]
        0 <= i < j < l2.poses@.len() implies l2.poses@[i].packet_id < l2.poses@[j].packet_id by {
        assert(l2.poses@[i] == l.poses@[i]);
        assert(db::is_posed(l.packets@, l.poses@[i]));
        if j < l.poses@.len() {
            assert(l2.poses@[j] == l.poses@[j]);
        }
    }
    assert forall|g: int| 0 <= g < l2.generations@.len() implies db::has_packet(
        l2.packets@,
        (#[trigger] l2.generations@[g]).id,
    ) by {
        if g < l.generations@.len() {
            assert(db::has_packet(l.packets@, l.generations@[g].id));
            let i = choose|i: int|
                0 <= i < n && (#[trigger] l.packets@[i]).generation_id == l.generations@[g].id;
            assert(l2.packets@[i].generation_id == l2.generations@[g].id);
        } else {
            assert(l2.packets@[n].generation_id == l2.generations@[g].id);
        }
    }
}

/// Imports one packet. A packet that is refused leaves everything as it was; one whose
/// pose is refused is stored without it.
fn import_one(
    db: &mut Ledger,
    p: &PacketInput,
    reading: &Reading,
    received_index: i64,
    states: &mut Vec<DeviceState>,
    report: &mut ImportReport,
    Ghost(n): Ghost<int>,
) -> (r: AppResult<()>)
    requires
        old(db).wf(),
        old(db).generations@.len() < i64::MAX,
        old(db).packets@.len() < i64::MAX,
        old(db).poses@.len() < i64::MAX,
        states_wf(old(states)@, old(db).generations@.len() as int, n),
        0 <= n < clock::READINGS_LIMIT,
        old(report).accepted < usize::MAX,
        old(report).duplicates < usize::MAX,
        time_in_range(*p),
    ensures
        final(db).wf(),
        states_wf(final(states)@, final(db).generations@.len() as int, n + 1),
        match r {
            Ok(()) => outcome(*p, *reading) is None,
            Err(e) => outcome(*p, *reading) is Some && e.says(
                outcome(*p, *reading)->0.code,
                outcome(*p, *reading)->0.message,
            ),
        },
        imported(
            *old(db),
            old(states)@,
            *old(report),
            *p,
            *reading,
            received_index as int,
            *final(db),
            final(states)@,
            *final(report),
        ),
{
    let c = match check_packet(p) {
        Ok(c) => c,
        Err(e) => {
            return Err(e);
        },
    };
    let raw = raw_time_of(p, c.timestamp);
    let ghost start = states@;
    let ghost ledger = *db;
    let at: usize = entry(states, p.device_id.as_str());
    let ghost entered = states@;
    let (gid, t) = assign_generation(db, states, at, p, &c, &raw, report, Ghost(n));
    let ghost mid = states@;
    proof {
        assert(mid =~= entered.update(at as int, mid[at as int]));
        lemma_state_replaced(entered, at as int, mid[at as int]);
    }
    let r = finish_insert(db, p, &c, raw, reading, gid, t, received_index, report);
    assert(db.packets.len() <= usize::MAX);
    proof {
        lemma_ledger_grows(ledger, *db, gid as int, t as int);
    }
    match r {
        Err(e) => {
            return Err(e);
        },
        Ok(()) => {},
    }
    if c.kind == PacketKind::Gnss {
        states[at].last_gnss_seq = raise(states[at].last_gnss_seq, p.seq);
    } else {
        states[at].last_lidar_seq = raise(states[at].last_lidar_seq, p.seq);
    }
    states[at].boot_marker = copy_text(&p.boot_marker);
    states[at].boot_id = p.boot_id;
    states[at].last_raw = match states[at].last_raw {
        Some(l) => if l > c.timestamp {
            Some(l)
        } else {
            Some(c.timestamp)
        },
        None => Some(c.timestamp),
    };
    proof {
        assert(states@ =~= entered.update(at as int, states@[at as int]));
        lemma_state_replaced(entered, at as int, states@[at as int]);
    }
    Ok(())
}

fn raise(before: Option<i64>, now: i64) -> (r: Option<i64>)
    ensures
        r == raised(before, now),
{
    match before {
        Some(b) => if b > now {
            Some(b)
        } else {
            Some(now)
        },
        None => Some(now),
    }
}

/// Whether a report is another one with a packet's outcome added.
pub open spec fn reported(rep: ImportReport, e: Option<Refusal>, rep2: ImportReport) -> bool {
    &&& rep2.accepted == rep.accepted
    &&& rep2.duplicates == rep.duplicates
    &&& rep2.new_generations@ == rep.new_generations@
    &&& match e {
        None => rep2.rejected == rep.rejected && rep2.errors@ == rep.errors@,
        Some(e) => {
            &&& rep2.rejected == rep.rejected + 1
            &&& rep2.errors@.len() == rep.errors@.len() + 1
            &&& rep2.errors@.drop_last() == rep.errors@
            &&& rep2.errors@.last()@ == e.code + ": "@ + e.message
        },
    }
}

/// Whether taking in a packet leads from one state of affairs to another.
pub open spec fn taken(
    l: Ledger,
    s: Seq<DeviceState>,
    rep: ImportReport,
    p: PacketInput,
    reading: Reading,
    received_index: int,
    l2: Ledger,
    s2: Seq<DeviceState>,
    rep2: ImportReport,
) -> bool {
    exists|rep1: ImportReport| #[trigger]
        imported(l, s, rep, p, reading, received_index, l2, s2, rep1) && reported(
            rep1,
            outcome(p, reading),
            rep2,
        )
}

/// Whether taking in the first `n` packets in turn leads from one state of affairs to
/// another; the first is received as number `first`.
pub open spec fn run(
    l: Ledger,
    s: Seq<DeviceState>,
    rep: ImportReport,
    packets: Seq<PacketInput>,
    readings: Seq<Reading>,
    first: int,
    n: int,
    l2: Ledger,
    s2: Seq<DeviceState>,
    rep2: ImportReport,
) -> bool
    decreases n,
{
    if n <= 0 {
        l2 == l && s2 == s && rep2 == rep
    } else {
        exists|l1: Ledger, s1: Seq<DeviceState>, rep1: ImportReport|
            run(l, s, rep, packets, readings, first, n - 1, l1, s1, rep1) && #[trigger] taken(
                l1,
                s1,
                rep1,
                packets[n - 1],
                readings[n - 1],
                first + n - 1,
                l2,
                s2,
                rep2,
            )
    }
}

/// The greatest number that any of the first `n` packets was received as; zero where
/// there is none.
pub open spec fn last_index(packets: Seq<PacketRecord>, n: int) -> int
    decreases n,
{
    if n <= 0 {
        0
    } else if n == 1 {
        packets[0].received_index as int
    } else {
        let before = last_index(packets, n - 1);
        if packets[n - 1].received_index > before {
            packets[n - 1].received_index as int
        } else {
            before
        }
    }
}

fn find_last_index(packets: &Vec<PacketRecord>) -> (r: i64)
    ensures
        r == last_index(packets@, packets@.len() as int),
{
    if packets.len() == 0 {
        return 0;
    }
    let mut best: i64 = packets[0].received_index;
    let mut i: usize = 1;
    while i < packets.len()
        invariant
            1 <= i <= packets@.len(),
            best == last_index(packets@, i as int),
        decreases packets.len() - i,
    {
        if packets[i].received_index > best {
            best = packets[i].received_index;
        }
        i += 1;
    }
    best
}

/// Whether a report counts nothing yet.
pub open spec fn blank(rep: ImportReport) -> bool {
    &&& rep.accepted == 0
    &&& rep.duplicates == 0
    &&& rep.rejected == 0
    &&& rep.new_generations@.len() == 0
    &&& rep.errors@.len() == 0
}

/// Imports packets in the order of receipt, with a reading for each.
pub fn import_packets(db: &mut Ledger, packets: &Vec<PacketInput>, readings: &Vec<Reading>) -> (r:
    ImportReport)
    requires
        old(db).wf(),
        packets@.len() == readings@.len(),
        packets@.len() < clock::READINGS_LIMIT,
        old(db).generations@.len() < i64::MAX - clock::READINGS_LIMIT,
        old(db).packets@.len() < i64::MAX - clock::READINGS_LIMIT,
        old(db).poses@.len() < i64::MAX - clock::READINGS_LIMIT,
        last_index(old(db).packets@, old(db).packets@.len() as int) < i64::MAX
            - clock::READINGS_LIMIT,
        forall|i: int| 0 <= i < packets@.len() ==> time_in_range(#[trigger] packets@[i]),
    ensures
        final(db).wf(),
        exists|s2: Seq<DeviceState>, rep: ImportReport|
            blank(rep) && #[trigger] run(
                *old(db),
                Seq::empty(),
                rep,
                packets@,
                readings@,
                last_index(old(db).packets@, old(db).packets@.len() as int) + 1,
                packets@.len() as int,
                *final(db),
                s2,
                r,
            ),
{
    let mut report = ImportReport {
        accepted: 0,
        duplicates: 0,
        rejected: 0,
        new_generations: Vec::new(),
        errors: Vec::new(),
    };
    let ghost zero = report;
    let mut states: Vec<DeviceState> = Vec::new();
    let last: i64 = find_last_index(&db.packets);
    let ghost first = last + 1;
    let mut i: usize = 0;
    assert(states@ =~= Seq::<DeviceState>::empty());
    while i < packets.len()
        invariant
            i <= packets@.len(),
            packets@.len() == readings@.len(),
            packets@.len() < clock::READINGS_LIMIT,
            blank(zero),
            db.wf(),
            old(db).generations@.len() < i64::MAX - clock::READINGS_LIMIT,
            old(db).packets@.len() < i64::MAX - clock::READINGS_LIMIT,
            old(db).poses@.len() < i64::MAX - clock::READINGS_LIMIT,
            db.generations@.len() <= old(db).generations@.len() + i,
            db.packets@.len() <= old(db).packets@.len() + i,
            db.poses@.len() <= old(db).poses@.len() + i,
            first == last + 1,
            last < i64::MAX - clock::READINGS_LIMIT,
            report.accepted <= i,
            report.duplicates <= i,
            report.rejected <= i,
            states_wf(states@, db.generations@.len() as int, i as int),
            forall|k: int| 0 <= k < packets@.len() ==> time_in_range(#[trigger] packets@[k]),
            run(
                *old(db),
                Seq::empty(),
                zero,
                packets@,
                readings@,
                first,
                i as int,
                *db,
                states@,
                report,
            ),
        decreases packets.len() - i,
    {
        let ghost l1 = *db;
        let ghost s1 = states@;
        let ghost rep1 = report;
        let index: i64 = last + 1 + i as i64;
        assert(time_in_range(packets@[i as int]));
        let outcome_one = import_one(
            db,
            &packets[i],
            &readings[i],
            index,
            &mut states,
            &mut report,
            Ghost(i as int),
        );
        let ghost rep2 = report;
        match outcome_one {
            Ok(()) => {},
            Err(e) => {
                report.rejected = report.rejected + 1;
                let m = e.text();
                report.errors.push(m);
                assert(report.errors@.drop_last() =~= rep2.errors@);
            },
        }
        proof {
            let p = packets@[i as int];
            let reading = readings@[i as int];
            assert(imported(l1, s1, rep1, p, reading, first + i, *db, states@, rep2));
            assert(reported(rep2, outcome(p, reading), report));
            assert(taken(l1, s1, rep1, p, reading, first + i, *db, states@, report));
        }
        i += 1;
        assert(run(
            *old(db),
            Seq::empty(),
            zero,
            packets@,
            readings@,
            first,
            i as int,
            *db,
            states@,
            report,
        )) by {
            assert(run(
                *old(db),
                Seq::empty(),
                zero,
                packets@,
                readings@,
                first,
                i - 1,
                l1,
                s1,
                rep1,
            ));
            assert(taken(
                l1,
                s1,
                rep1,
                packets@[i - 1],
                readings@[i - 1],
                first + i - 1,
                *db,
                states@,
                report,
            ));
        }
    }
    report
}

/// Every packet is accounted for: each stored packet is counted as accepted or as a
/// duplicate, each error comes with a rejection, and no packet goes without either.
pub proof fn law_every_packet_is_accounted_for(
    l: Ledger,
    s: Seq<DeviceState>,
    rep: ImportReport,
    packets: Seq<PacketInput>,
    readings: Seq<Reading>,
    first: int,
    n: int,
    l2: Ledger,
    s2: Seq<DeviceState>,
    rep2: ImportReport,
)
    requires
        run(l, s, rep, packets, readings, first, n, l2, s2, rep2),
        blank(rep),
        0 <= n <= packets.len(),
    ensures
        l2.packets@.len() == l.packets@.len() + rep2.accepted + rep2.duplicates,
        rep2.errors@.len() == rep2.rejected,
        rep2.accepted + rep2.duplicates + rep2.rejected >= n,
        rep2.accepted + rep2.duplicates <= n,
        rep2.rejected <= n,
        l2.generations@.len() == l.generations@.len() + rep2.new_generations@.len(),
    decreases n,
{
    if n > 0 {
        let (l1, s1, rep1) = choose|l1: Ledger, s1: Seq<DeviceState>, rep1: ImportReport|
            run(l, s, rep, packets, readings, first, n - 1, l1, s1, rep1) && #[trigger] taken(
                l1,
                s1,
                rep1,
                packets[n - 1],
                readings[n - 1],
                first + n - 1,
                l2,
                s2,
                rep2,
            );
        law_every_packet_is_accounted_for(
            l,
            s,
            rep,
            packets,
            readings,
            first,
            n - 1,
            l1,
            s1,
            rep1,
        );
    }
}

/// Imported facts are never changed: every row that was there before an import is
/// there after it, in its place, and the cache is left alone.
pub proof fn law_import_only_adds_facts(
    l: Ledger,
    s: Seq<DeviceState>,
    rep: ImportReport,
    packets: Seq<PacketInput>,
    readings: Seq<Reading>,
    first: int,
    n: int,
    l2: Ledger,
    s2: Seq<DeviceState>,
    rep2: ImportReport,
)
    requires
        run(l, s, rep, packets, readings, first, n, l2, s2, rep2),
        0 <= n <= packets.len(),
    ensures
        l.generations@.is_prefix_of(l2.generations@),
        l.packets@.is_prefix_of(l2.packets@),
        l.poses@.is_prefix_of(l2.poses@),
        l2.edges == l.edges,
        l2.frames == l.frames,
        l2.blocks == l.blocks,
        l2.points == l.points,
    decreases n,
{
    if n > 0 {
        let (l1, s1, rep1) = choose|l1: Ledger, s1: Seq<DeviceState>, rep1: ImportReport|
            run(l, s, rep, packets, readings, first, n - 1, l1, s1, rep1) && #[trigger] taken(
                l1,
                s1,
                rep1,
                packets[n - 1],
                readings[n - 1],
                first + n - 1,
                l2,
                s2,
                rep2,
            );
        law_import_only_adds_facts(l, s, rep, packets, readings, first, n - 1, l1, s1, rep1);
        lemma_prefix_step(l.generations@, l1.generations@, l2.generations@);
        lemma_prefix_step(l.packets@, l1.packets@, l2.packets@);
        lemma_prefix_step(l.poses@, l1.poses@, l2.poses@);
    }
}

proof fn lemma_prefix_step<T>(a: Seq<T>, b: Seq<T>, c: Seq<T>)
    requires
        a.is_prefix_of(b),
        c == b || c.len() == b.len() + 1 && c.drop_last() == b,
    ensures
        a.is_prefix_of(c),
{
    if c != b {
        assert forall|i: int| 0 <= i < a.len() implies a[i] == c[i] by {
            assert(c.drop_last()[i] == c[i]);
            assert(a[i] == b[i]) by {
                assert(a =~= b.subrange(0, a.len() as int));
            }
        }
        assert(a =~= c.subrange(0, a.len() as int));
    }
}

/// The first packet of a device that is in order opens a generation, and so does any
/// packet with another boot counter than the one before it.
pub proof fn law_reboot_opens_a_generation(
    d: DeviceValue,
    p: PacketInput,
    kind: PacketKind,
    raw: RawTime,
)
    requires
        d.generation_id is None || (p.boot_id is Some && d.boot_id is Some && p.boot_id
            != d.boot_id),
    ensures
        admission(d, p, kind, raw).opens is Some,
{
}

/// A packet that rolls over the GPS week, in sequence and without a reboot, stays in
/// its generation.
pub proof fn law_week_rollover_stays_in_generation(
    d: DeviceValue,
    p: PacketInput,
    kind: PacketKind,
    raw: RawTime,
)
    requires
        opening_reason(d, p, kind) is None,
        d.unwrapper.weeks(raw) > 0,
    ensures
        admission(d, p, kind, raw).opens is None,
{
}

// ---- what an import does, in plain terms --------------------------------------------------------

/// A packet that is in order opens a generation where it is the first of its device, where
/// its boot marker or boot counter has changed, where its number is more than ten below
/// the newest one of its kind at a time more than two seconds from the newest, or where it
/// steps back by more than three seconds with neither a rollover nor a leap second; and
/// nowhere else.
pub proof fn law_when_a_generation_opens(
    l: Ledger,
    s: Seq<DeviceState>,
    rep: ImportReport,
    p: PacketInput,
    reading: Reading,
    received_index: int,
    l2: Ledger,
    s2: Seq<DeviceState>,
    rep2: ImportReport,
)
    requires
        stored(l, s, rep, p, reading, received_index, l2, s2, rep2),
        refusal(p) is None,
    ensures
        ({
            let d = known(s, p.device_id@);
            let raw = l2.packets@.last().raw;
            let newest = if kind_of(p) == Some(PacketKind::Gnss) {
                d.last_gnss_seq
            } else {
                d.last_lidar_seq
            };
            let first = d.generation_id is None;
            let marked = p.boot_marker is Some && d.boot_marker is Some && p.boot_marker->0@
                != d.boot_marker->0;
            let booted = p.boot_id is Some && d.boot_id is Some && p.boot_id->0 != d.boot_id->0;
            let reset = newest is Some && newest->0 - p.seq > 10 && d.last_raw is Some && !(
            -2_000_000_000 <= p.timestamp->0 - d.last_raw->0 <= 2_000_000_000);
            let stepped = d.unwrapper.behind(raw) > 3_000_000_000 && d.unwrapper.weeks(raw) == 0
                && !raw.leap_second_flag;
            &&& l2.generations@.len() == l.generations@.len() + 1 || l2.generations@
                == l.generations@
            &&& l2.generations@.len() == l.generations@.len() + 1 <==> first || marked || booted
                || reset || stepped
            &&& first ==> l2.generations@.last().reason@ == "first_packet"@
            &&& !first && marked ==> l2.generations@.last().reason@ == "boot_marker_changed"@
            &&& !first && !marked && booted ==> l2.generations@.last().reason@
                == "boot_id_changed"@
            &&& !first && !marked && !booted && reset ==> l2.generations@.last().reason@
                == "seq_reset_reboot"@
            &&& !first && !marked && !booted && !reset && stepped
                ==> l2.generations@.last().reason@ == "time_discontinuity"@
        }),
{
}

/// A packet goes to the generation that it opens, or else to the one of its device. A
/// generation that a packet opens is its device's, and starts a clock of its own: the
/// packet has the time that its fields tell.
pub proof fn law_packet_goes_to_its_generation(
    l: Ledger,
    s: Seq<DeviceState>,
    rep: ImportReport,
    p: PacketInput,
    reading: Reading,
    received_index: int,
    l2: Ledger,
    s2: Seq<DeviceState>,
    rep2: ImportReport,
)
    requires
        stored(l, s, rep, p, reading, received_index, l2, s2, rep2),
    ensures
        ({
            let d = known(s, p.device_id@);
            let row = l2.packets@.last();
            if l2.generations@.len() == l.generations@.len() + 1 {
                &&& row.generation_id == l.generations@.len() + 1
                &&& l2.generations@.last().id == l.generations@.len() + 1
                &&& l2.generations@.last().created_order == l.generations@.len() + 1
                &&& l2.generations@.last().device_id@ == p.device_id@
                &&& row.continuous_time == clock::told(row.raw)
                &&& rep2.new_generations@.len() == rep.new_generations@.len() + 1
                &&& rep2.new_generations@.last() == (l.generations@.len() + 1) as i64
            } else {
                &&& row.generation_id == d.generation_id->0
                &&& row.continuous_time == d.unwrapper.continuous(row.raw)
                &&& rep2.new_generations@ == rep.new_generations@
            }
        }),
{
}

/// Two packets of a device, one after the other and in one generation, are as far apart as
/// what their fields tell, where the first is the latest and the second is not behind it
/// by more than three seconds.
pub proof fn law_consecutive_packets_keep_their_distance(
    l: Ledger,
    s: Seq<DeviceState>,
    rep: ImportReport,
    p: PacketInput,
    reading: Reading,
    index: int,
    l2: Ledger,
    s2: Seq<DeviceState>,
    rep2: ImportReport,
    l3: Ledger,
    s3: Seq<DeviceState>,
    rep3: ImportReport,
    q: PacketInput,
    reading2: Reading,
    index2: int,
    l4: Ledger,
    s4: Seq<DeviceState>,
    rep4: ImportReport,
)
    requires
        stored(l, s, rep, p, reading, index, l2, s2, rep2),
        stored(l3, s3, rep3, q, reading2, index2, l4, s4, rep4),
        q.device_id@ == p.device_id@,
        known(s3, p.device_id@) == known(s2, p.device_id@),
        known(s, p.device_id@).unwrapper.wf(),
        known(s, p.device_id@).unwrapper.readings < clock::READINGS_LIMIT,
        clock::in_range(l2.packets@.last().raw),
        clock::in_range(l4.packets@.last().raw),
        l.generations@.len() < i64::MAX,
        l4.generations@ == l3.generations@,
        known(s2, p.device_id@).unwrapper.last == Some(l2.packets@.last().continuous_time),
        clock::told(l4.packets@.last().raw) >= clock::told(l2.packets@.last().raw)
            - 3_000_000_000,
    ensures
        l4.packets@.last().generation_id == l2.packets@.last().generation_id,
        l4.packets@.last().continuous_time - l2.packets@.last().continuous_time == clock::told(
            l4.packets@.last().raw,
        ) - clock::told(l2.packets@.last().raw),
{
    let d = known(s, p.device_id@);
    let raw = l2.packets@.last().raw;
    let a = admission(d, p, kind_of(p)->0, raw);
    let u = known(s2, p.device_id@).unwrapper;
    assert(u == a.unwrapper);
    assert(l2.packets@.last().continuous_time == clock::told(raw) + u.offset);
    clock::law_reading_in_step_rolls_nothing_over(u, l4.packets@.last().raw);
}

/// What is known of a device after a packet of it: its generation, the greatest numbers and
/// the greatest raw time of that generation, and the boot fields of the packet, unless its
/// pose was refused. Of other devices nothing changes.
pub proof fn law_what_is_known_of_a_device(
    l: Ledger,
    s: Seq<DeviceState>,
    rep: ImportReport,
    p: PacketInput,
    reading: Reading,
    received_index: int,
    l2: Ledger,
    s2: Seq<DeviceState>,
    rep2: ImportReport,
    other: Seq<char>,
)
    requires
        stored(l, s, rep, p, reading, received_index, l2, s2, rep2),
        refusal(p) is None,
        l.generations@.len() < i64::MAX,
    ensures
        other != p.device_id@ ==> known(s2, other) == known(s, other),
        ({
            let d = known(s, p.device_id@);
            let d2 = known(s2, p.device_id@);
            let opened = l2.generations@.len() == l.generations@.len() + 1;
            let gnss = kind_of(p) == Some(PacketKind::Gnss);
            &&& d2.generation_id == Some(l2.packets@.last().generation_id)
            &&& outcome(p, reading) is None ==> {
                &&& gnss ==> d2.last_gnss_seq is Some && d2.last_gnss_seq->0 >= p.seq
                &&& gnss && (opened || d.last_gnss_seq is None || d.last_gnss_seq->0 <= p.seq)
                    ==> d2.last_gnss_seq == Some(p.seq)
                &&& gnss && !opened && d.last_gnss_seq is Some && d.last_gnss_seq->0 >= p.seq
                    ==> d2.last_gnss_seq == d.last_gnss_seq
                &&& !gnss ==> d2.last_lidar_seq is Some && d2.last_lidar_seq->0 >= p.seq
                &&& !gnss && (opened || d.last_lidar_seq is None || d.last_lidar_seq->0 <= p.seq)
                    ==> d2.last_lidar_seq == Some(p.seq)
                &&& !gnss && !opened && d.last_lidar_seq is Some && d.last_lidar_seq->0 >= p.seq
                    ==> d2.last_lidar_seq == d.last_lidar_seq
                &&& gnss ==> d2.last_lidar_seq == if opened { None } else { d.last_lidar_seq }
                &&& !gnss ==> d2.last_gnss_seq == if opened { None } else { d.last_gnss_seq }
                &&& d2.last_raw is Some
                &&& opened || d.last_raw is None || d.last_raw->0 <= p.timestamp->0
                    ==> d2.last_raw == p.timestamp
                &&& !opened && d.last_raw is Some && d.last_raw->0 >= p.timestamp->0
                    ==> d2.last_raw == d.last_raw
                &&& d2.boot_id == p.boot_id
                &&& d2.boot_marker is Some == p.boot_marker is Some
                &&& p.boot_marker is Some ==> d2.boot_marker->0 == p.boot_marker->0@
            }
            &&& outcome(p, reading) is Some ==> {
                &&& d2.boot_id == d.boot_id
                &&& d2.boot_marker == d.boot_marker
                &&& opened ==> d2.last_gnss_seq is None && d2.last_lidar_seq is None
                    && d2.last_raw is None
                &&& !opened ==> d2.last_gnss_seq == d.last_gnss_seq && d2.last_lidar_seq
                    == d.last_lidar_seq && d2.last_raw == d.last_raw
            }
        }),
{
}

/// Whether a stored packet has the device, the number and the generation of a new one.
pub open spec fn is_namesake(packets: Seq<PacketRecord>, k: int, row: PacketRecord) -> bool {
    &&& 0 <= k < packets.len()
    &&& packets[k].device_id@ == row.device_id@
    &&& packets[k].seq == row.seq
    &&& packets[k].generation_id == row.generation_id
}

/// A packet is a duplicate of the first packet of its device, number and generation, where
/// there is one and its content is the same; a duplicate is counted as such, any other
/// packet as accepted.
pub proof fn law_duplicate_has_the_same_content(
    l: Ledger,
    s: Seq<DeviceState>,
    rep: ImportReport,
    p: PacketInput,
    reading: Reading,
    received_index: int,
    l2: Ledger,
    s2: Seq<DeviceState>,
    rep2: ImportReport,
    k: int,
)
    requires
        stored(l, s, rep, p, reading, received_index, l2, s2, rep2),
    ensures
        ({
            let row = l2.packets@.last();
            let packets = l.packets@;
            &&& is_namesake(packets, k, row) && (forall|j: int|
                0 <= j < k ==> !#[trigger] is_namesake(packets, j, row)) ==> row.duplicate_of
                == if packets[k].payload@ == reading.payload@ {
                Some(packets[k].id)
            } else {
                None
            }
            &&& (forall|j: int| !#[trigger] is_namesake(packets, j, row))
                ==> row.duplicate_of is None
            &&& row.duplicate_of is Some ==> rep2.duplicates == rep.duplicates + 1
                && rep2.accepted == rep.accepted
            &&& row.duplicate_of is None ==> rep2.duplicates == rep.duplicates && rep2.accepted
                == rep.accepted + 1
        }),
{
    let row = l2.packets@.last();
    let packets = l.packets@;
    let n = packets.len() as int;
    let holds = numbered(packets, p.device_id@, p.seq as int, row.generation_id as int);
    assert(row.duplicate_of == repeated(
        packets,
        p.device_id@,
        p.seq as int,
        row.generation_id as int,
        reading.payload@,
    ));
    assert forall|j: int| 0 <= j < n implies #[trigger] holds(j) == is_namesake(
        packets,
        j,
        row,
    ) by {}
    rows::lemma_first_where(n, holds);
    if is_namesake(packets, k, row) && (forall|j: int|
        0 <= j < k ==> !#[trigger] is_namesake(packets, j, row)) {
        assert(holds(k));
        assert forall|j: int| 0 <= j < k implies !#[trigger] holds(j) by {
            assert(!is_namesake(packets, j, row));
        }
        rows::lemma_first_is(n, holds, k);
    }
    if forall|j: int| !#[trigger] is_namesake(packets, j, row) {
        if let Some(f) = rows::first_where(n, holds) {
            assert(holds(f));
            assert(is_namesake(packets, f, row));
        }
    }
}

/// A stored packet keeps what came: its names, its number, its raw time fields, its points
/// and its content, behind all packets that were there.
pub proof fn law_stored_packet_keeps_what_came(
    l: Ledger,
    s: Seq<DeviceState>,
    rep: ImportReport,
    p: PacketInput,
    reading: Reading,
    received_index: int,
    l2: Ledger,
    s2: Seq<DeviceState>,
    rep2: ImportReport,
)
    requires
        stored(l, s, rep, p, reading, received_index, l2, s2, rep2),
        refusal(p) is None,
    ensures
        l2.packets@.len() == l.packets@.len() + 1,
        forall|i: int| 0 <= i < l.packets@.len() ==> l2.packets@[i] == l.packets@[i],
        ({
            let row = l2.packets@[l.packets@.len() as int];
            &&& row.id == l.packets@.len() + 1
            &&& row.received_index == received_index
            &&& row.device_id@ == p.device_id@
            &&& row.seq == p.seq
            &&& row.boot_id == p.boot_id
            &&& Some(row.raw.sow) == p.timestamp
            &&& row.raw.week == p.week
            &&& row.raw.leap_second_flag == p.leap_second_flag
            &&& p.time_scale is Some ==> row.raw.scale@ == p.time_scale->0@
            &&& p.time_scale is None ==> row.raw.scale@ == "gps"@
            &&& row.payload@ == reading.payload@
            &&& p.points is Some ==> row.points@ == p.points->0@
            &&& p.points is None ==> row.points@.len() == 0
            &&& p.coord_frame is Some ==> row.coord_frame@ == p.coord_frame->0@
            &&& p.coord_frame is None ==> row.coord_frame@ == (if row.kind is Lidar {
                "lidar/"@
            } else {
                "body/"@
            }) + p.device_id@
            &&& p.length_unit is None ==> row.units.length is Meter
            &&& p.angle_unit is None ==> row.units.angle is Radian
        }),
{
    assert forall|i: int| 0 <= i < l.packets@.len() implies l2.packets@[i] == l.packets@[i] by {
        assert(l2.packets@.drop_last()[i] == l2.packets@[i]);
    }
}

/// A pose is stored for a GNSS packet whose pose is complete and in order, and for no other
/// packet; it has the packet's time and generation.
pub proof fn law_when_a_pose_is_stored(
    l: Ledger,
    s: Seq<DeviceState>,
    rep: ImportReport,
    p: PacketInput,
    reading: Reading,
    received_index: int,
    l2: Ledger,
    s2: Seq<DeviceState>,
    rep2: ImportReport,
)
    requires
        stored(l, s, rep, p, reading, received_index, l2, s2, rep2),
        refusal(p) is None,
    ensures
        ({
            let complete = p.px is Some && p.py is Some && p.pz is Some;
            let turned = p.quat is Some ==> reading.q@[0].finite() && reading.q@[1].finite()
                && reading.q@[2].finite() && reading.q@[3].finite();
            let definite = p.cov is Some ==> reading.positive_definite;
            let kept = l2.packets@.last().kind is Gnss && complete && turned && definite;
            &&& kept ==> {
                let row = l2.poses@.last();
                let packet = l2.packets@.last();
                &&& l2.poses@.len() == l.poses@.len() + 1
                &&& row.packet_id == packet.id
                &&& row.generation_id == packet.generation_id
                &&& row.t == packet.continuous_time
                &&& row.q == reading.q
                &&& row.xyz == reading.xyz
                &&& row.cov@ == reading.cov@
            }
            &&& !kept ==> l2.poses@ == l.poses@
            &&& outcome(p, reading) is None <==> l2.packets@.last().kind is Lidar || kept
        }),
{
}

/// A packet is taken where it names a kind, a device and known units, has a time that is
/// not below zero, and, for a pose, a covariance of six or 36 entries if it has one.
pub proof fn law_which_packets_are_taken(p: PacketInput)
    ensures
        refusal(p) is None <==> {
            let kind = model::kind_named(text::normal(p.kind@));
            &&& kind is Some
            &&& text::normal(p.device_id@).len() > 0
            &&& p.length_unit is Some ==> units::length_named(
                text::normal(p.length_unit->0@),
            ) is Some
            &&& p.angle_unit is Some ==> units::angle_named(text::normal(p.angle_unit->0@)) is Some
            &&& p.timestamp is Some
            &&& p.timestamp->0 >= 0
            &&& kind->0 is Gnss && p.cov is Some ==> p.cov->0@.len() == 6 || p.cov->0@.len() == 36
        },
{
}

/// A refused packet leaves the tables and what is known of the devices as they are; it is
/// counted, with an error that tells its code.
pub proof fn law_refused_packet_changes_nothing(
    l: Ledger,
    s: Seq<DeviceState>,
    rep: ImportReport,
    p: PacketInput,
    reading: Reading,
    received_index: int,
    l2: Ledger,
    s2: Seq<DeviceState>,
    rep2: ImportReport,
    device: Seq<char>,
)
    requires
        taken(l, s, rep, p, reading, received_index, l2, s2, rep2),
        refusal(p) is Some,
    ensures
        l2 == l,
        known(s2, device) == known(s, device),
        rep2.accepted == rep.accepted,
        rep2.duplicates == rep.duplicates,
        rep2.rejected == rep.rejected + 1,
        rep2.errors@.len() == rep.errors@.len() + 1,
        rep2.errors@.last()@ == refusal(p)->0.code + ": "@ + refusal(p)->0.message,
        rep2.new_generations@ == rep.new_generations@,
{
}

/// The greatest index is that of some packet, and no packet has a greater one.
pub proof fn law_last_index_is_the_greatest(packets: Seq<PacketRecord>, n: int)
    requires
        0 < n <= packets.len(),
    ensures
        forall|i: int| 0 <= i < n ==> (#[trigger] packets[i]).received_index <= last_index(
            packets,
            n,
        ),
        exists|i: int| 0 <= i < n && (#[trigger] packets[i]).received_index == last_index(
            packets,
            n,
        ),
    decreases n,
{
    if n > 1 {
        law_last_index_is_the_greatest(packets, n - 1);
    }
}

/// Every packet of an import that is in order is stored, under the number at which it was
/// received, with its content.
pub proof fn law_every_packet_in_order_is_stored(
    l: Ledger,
    s: Seq<DeviceState>,
    rep: ImportReport,
    packets: Seq<PacketInput>,
    readings: Seq<Reading>,
    first: int,
    n: int,
    l2: Ledger,
    s2: Seq<DeviceState>,
    rep2: ImportReport,
    i: int,
)
    requires
        run(l, s, rep, packets, readings, first, n, l2, s2, rep2),
        0 <= i < n <= packets.len(),
        refusal(packets[i]) is None,
    ensures
        exists|k: int|
            l.packets@.len() <= k < l2.packets@.len() && (#[trigger] l2.packets@[k]).received_index
                == first + i && l2.packets@[k].seq == packets[i].seq && l2.packets@[k].device_id@
                == packets[i].device_id@ && l2.packets@[k].payload@ == readings[i].payload@
                && Some(l2.packets@[k].raw.sow) == packets[i].timestamp,
    decreases n,
{
    let (l1, s1, rep1) = choose|l1: Ledger, s1: Seq<DeviceState>, rep1: ImportReport|
        run(l, s, rep, packets, readings, first, n - 1, l1, s1, rep1) && #[trigger] taken(
            l1,
            s1,
            rep1,
            packets[n - 1],
            readings[n - 1],
            first + n - 1,
            l2,
            s2,
            rep2,
        );
    law_import_only_adds_facts(l, s, rep, packets, readings, first, n - 1, l1, s1, rep1);
    if i == n - 1 {
        let k = l2.packets@.len() - 1;
        assert(l2.packets@[k].received_index == first + i);
    } else {
        law_every_packet_in_order_is_stored(
            l,
            s,
            rep,
            packets,
            readings,
            first,
            n - 1,
            l1,
            s1,
            rep1,
            i,
        );
        let k = choose|k: int|
            l.packets@.len() <= k < l1.packets@.len() && (#[trigger] l1.packets@[k]).received_index
                == first + i && l1.packets@[k].seq == packets[i].seq && l1.packets@[k].device_id@
                == packets[i].device_id@ && l1.packets@[k].payload@ == readings[i].payload@
                && Some(l1.packets@[k].raw.sow) == packets[i].timestamp;
        if l2.packets@ != l1.packets@ {
            assert(l2.packets@.drop_last()[k] == l2.packets@[k]);
        }
        assert(l2.packets@[k] == l1.packets@[k]);
    }
}

/// The summary of a lidar packet reads as the number of its points and tells their unit;
/// that of a pose tells both of its units.
pub proof fn law_summary_of_a_packet(p: PacketInput, units: UnitSpec)
    ensures
        exists|n: Seq<char>|
            text::reads_as(
                n,
                if p.points is Some {
                    p.points->0@.len() as int
                } else {
                    0
                },
            ) && summary_of(p, PacketKind::Lidar, units) == #[trigger] ("lidar:"@ + n + "pts("@
                + units.length.label_spec() + ")"@),
        summary_of(p, PacketKind::Gnss, units) == "gnss:pose("@ + units.length.label_spec() + ","@
            + units.angle.label_spec() + ")"@,
{
    let k = if p.points is Some { p.points->0@.len() as int } else { 0 };
    let n = text::decimal(k);
    text::law_decimal_reads_as_its_integer(k, 0);
    assert(summary_of(p, PacketKind::Lidar, units) == "lidar:"@ + n + "pts("@
        + units.length.label_spec() + ")"@);
}

/// A generation is told to open at the raw time of its first packet; one that a step back
/// in time opens, at the time that the packet would have had in the generation before.
pub proof fn law_when_a_generation_is_told_to_open(
    l: Ledger,
    s: Seq<DeviceState>,
    rep: ImportReport,
    p: PacketInput,
    reading: Reading,
    received_index: int,
    l2: Ledger,
    s2: Seq<DeviceState>,
    rep2: ImportReport,
)
    requires
        stored(l, s, rep, p, reading, received_index, l2, s2, rep2),
        l2.generations@.len() == l.generations@.len() + 1,
    ensures
        l2.generations@.last().reason@ != "time_discontinuity"@
            ==> l2.generations@.last().opened_at == p.timestamp->0,
        opening_reason(known(s, p.device_id@), p, kind_of(p)->0) is None
            ==> l2.generations@.last().opened_at == known(s, p.device_id@).unwrapper.continuous(
            l2.packets@.last().raw,
        ),
{
}

} // verus!
