//! A small fixed data set, so that there is something to show without any download:
//! one lidar, two receivers of different precision, a gap between two generations, a
//! scan that comes late, one that comes twice and one in millimetres, and two receivers
//! that show a rollover of the ten-bit week and a leap second.

use crate::blocks;
use crate::order;
use crate::rows;
use crate::text;
use crate::time;
use crate::time::Nanos;
use vstd::prelude::*;
use vstd::string::*;

verus! {

/// A thousandth of a second.
pub const MILLI: Nanos = 1_000_000;

/// How many packets there are: six poses, four more after the gap, five scans, two poses
/// about a week rollover, two about a leap second, and three more scans.
pub const PACKETS: usize = 22;

/// The device whose week rolls over, and the one that sees a leap second.
pub const ROLLOVER_DEVICE: &'static str = "gnss-rollover";

pub const LEAP_DEVICE: &'static str = "gnss-leap";

/// How many points a scan has.
pub const SCAN_POINTS: u32 = 24;

/// What a packet holds: a pose in millionths of a metre and of a radian, or the scan with
/// a number.
#[derive(Clone, Copy, Debug, PartialEq, Eq, Structural)]
pub enum DemoContent {
    Pose { x: i64, y: i64, yaw: i64 },
    Scan { index: u32, points: u32 },
}

/// What a device's clock showed: continuous time, a week of so many bits with a time in
/// it, or a UTC label.
#[derive(Clone, Copy, Debug, PartialEq, Eq, Structural)]
pub enum DemoClock {
    Continuous,
    Week { week: i64, bits: u32, tow: Nanos },
    Utc { year: i64, month: u32, day: u32, hour: u32, minute: u32, second: Nanos },
}

#[derive(Clone, Debug)]
pub struct DemoPacket {
    pub device: &'static str,
    pub seq: u32,
    pub restart: bool,
    pub clock: DemoClock,
    pub t: Nanos,
    /// When it is received; packets are taken in in this order.
    pub received: Nanos,
    pub frame: &'static str,
    pub unit: &'static str,
    pub summary: String,
    pub content: DemoContent,
}

#[derive(Clone, Copy, Debug)]
pub struct DemoStream {
    pub device: &'static str,
    pub kind: &'static str,
    pub frame: &'static str,
    pub unit: &'static str,
}

/// A transform between two frames: fixed, in millionths of a metre, or that of a
/// receiver's poses. All variances are equal, in ten-thousandths.
#[derive(Clone, Copy, Debug)]
pub struct DemoEdge {
    pub name: &'static str,
    pub from: &'static str,
    pub to: &'static str,
    pub receiver: Option<&'static str>,
    pub x: i64,
    pub y: i64,
    pub z: i64,
    pub variance: u32,
}

#[derive(Clone, Debug)]
pub struct DemoPlan {
    pub streams: Vec<DemoStream>,
    pub edges: Vec<DemoEdge>,
    pub packets: Vec<DemoPacket>,
}

/// A pose: how many thousandths of a second after the start, where, and which way.
#[derive(Clone, Copy, Debug, PartialEq, Eq, Structural)]
pub struct Sample {
    pub ms: u32,
    pub x: i64,
    pub y: i64,
    pub yaw: i64,
}

/// The poses of the first generation, then those of the second.
pub open spec fn sample_at(i: int) -> Sample {
    if i == 0 {
        Sample { ms: 0, x: 0, y: 0, yaw: 0 }
    } else if i == 1 {
        Sample { ms: 100, x: 200_000, y: 50_000, yaw: 2_000 }
    } else if i == 2 {
        Sample { ms: 200, x: 400_000, y: 100_000, yaw: 4_000 }
    } else if i == 3 {
        Sample { ms: 0, x: 1_000_000, y: 200_000, yaw: 10_000 }
    } else {
        Sample { ms: 100, x: 1_200_000, y: 220_000, yaw: 12_000 }
    }
}

/// When a scan is taken, in thousandths of a second after the start.
pub open spec fn scan_ms(i: int) -> u32 {
    if i == 0 {
        50
    } else if i == 1 {
        150
    } else if i == 2 {
        200
    } else if i == 3 {
        2_500
    } else {
        4_050
    }
}

/// When the data set starts: at ten in the morning on the twentieth of September 2026.
pub open spec fn start() -> int {
    time::unix_of_gps(time::gps_of_label(2026, 9, 20, 10, 0, 0))
}

/// What a packet stands for.
pub struct PacketValue {
    pub device: Seq<char>,
    pub seq: int,
    pub restart: bool,
    pub clock: DemoClock,
    pub t: int,
    pub received: int,
    pub frame: Seq<char>,
    pub unit: Seq<char>,
    pub summary: Seq<char>,
    pub content: DemoContent,
}

impl View for DemoPacket {
    type V = PacketValue;

    open spec fn view(&self) -> PacketValue {
        PacketValue {
            device: self.device@,
            seq: self.seq as int,
            restart: self.restart,
            clock: self.clock,
            t: self.t as int,
            received: self.received as int,
            frame: self.frame@,
            unit: self.unit@,
            summary: self.summary@,
            content: self.content,
        }
    }
}

/// How far the second receiver is off, in millionths of a metre.
pub open spec fn offset_of(backup: bool) -> i64 {
    if backup {
        10_000
    } else {
        0
    }
}

/// The packets: each pose from both receivers, four seconds of nothing before the second
/// generation, then the scans, and then what is out of the ordinary.
pub open spec fn packet_at(k: int) -> PacketValue {
    if k < 10 {
        let s = sample_at(k / 2);
        let backup = k % 2 == 1;
        let off = offset_of(backup);
        let t = start() + (if k < 6 {
            0int
        } else {
            4_000
        } + s.ms) * MILLI;
        PacketValue {
            device: if backup {
                "gnss-backup"@
            } else {
                "gnss-primary"@
            },
            seq: s.ms as int,
            restart: s.ms == 0,
            clock: DemoClock::Continuous,
            t,
            received: t,
            frame: "body"@,
            unit: "m"@,
            summary: if k >= 6 {
                "pose gen2"@
            } else if backup {
                "backup pose +"@ + text::decimal(s.ms as int) + "ms"@
            } else {
                "primary pose +"@ + text::decimal(s.ms as int) + "ms"@
            },
            content: DemoContent::Pose {
                x: (s.x + off) as i64,
                y: (s.y - off) as i64,
                yaw: s.yaw,
            },
        }
    } else if k < 15 {
        scan_at(k - 10, k - 10, scan_ms(k - 10) as int, scan_ms(k - 10) as int, "m"@)
    } else if k < 17 {
        rollover_at(k - 15)
    } else if k < 19 {
        leap_at(k - 17)
    } else if k == 19 {
        // The second scan once more.
        scan_at(1, 1, scan_ms(1) as int, scan_ms(1) + 10, "m"@)
    } else if k == 20 {
        scan_at(5, 5, 4_080, 4_080, "mm"@)
    } else {
        // Taken before the scan that is received before it.
        scan_at(6, 6, 4_020, 4_095, "m"@)
    }
}

/// A scan with a number, taken and received so many thousandths of a second after the
/// start.
pub open spec fn scan_at(index: int, seq: int, ms: int, received_ms: int, unit: Seq<char>)
    -> PacketValue {
    PacketValue {
        device: "lidar-A"@,
        seq,
        restart: index == 0 || index == 4,
        clock: DemoClock::Continuous,
        t: start() + ms * MILLI,
        received: start() + received_ms * MILLI,
        frame: "lidar"@,
        unit,
        summary: "sparse scan "@ + text::decimal(index) + " (24 pts)"@,
        content: DemoContent::Scan { index: index as u32, points: SCAN_POINTS },
    }
}

/// The poses a second before and a second after the week counter of ten bits starts
/// again from zero: week 2047 shows as 1023, and week 2048 as 0.
pub open spec fn rollover_at(i: int) -> PacketValue {
    let t = time::unix_of_gps(2048 * time::WEEK - time::SECOND + 2 * i * time::SECOND);
    PacketValue {
        device: ROLLOVER_DEVICE@,
        seq: i,
        restart: i == 0,
        clock: if i == 0 {
            DemoClock::Week { week: 1023, bits: 10, tow: (time::WEEK - time::SECOND) as i128 }
        } else {
            DemoClock::Week { week: 0, bits: 10, tow: time::SECOND }
        },
        t,
        received: t,
        frame: "body"@,
        unit: "m"@,
        summary: "week rollover pose"@,
        content: DemoContent::Pose { x: i as i64, y: 0, yaw: 0 },
    }
}

/// The label of the pose within the leap second at the end of 2016, and of the one a
/// second later.
pub open spec fn leap_label(i: int) -> DemoClock {
    if i == 0 {
        DemoClock::Utc { year: 2016, month: 12, day: 31, hour: 23, minute: 59, second: LEAP_STAMP }
    } else {
        DemoClock::Utc { year: 2017, month: 1, day: 1, hour: 0, minute: 0, second: AFTER_LEAP }
    }
}

/// Half a second into the leap second, and half a second after it.
pub const LEAP_STAMP: Nanos = 60_500_000_000;

pub const AFTER_LEAP: Nanos = 500_000_000;

/// The poses within a leap second and a second later.
pub open spec fn leap_at(i: int) -> PacketValue {
    let t = if i == 0 {
        time::unix_of_gps(time::gps_of_label(2016, 12, 31, 23, 59, LEAP_STAMP as int))
    } else {
        time::unix_of_gps(time::gps_of_label(2017, 1, 1, 0, 0, AFTER_LEAP as int))
    };
    PacketValue {
        device: LEAP_DEVICE@,
        seq: i,
        restart: i == 0,
        clock: leap_label(i),
        t,
        received: t,
        frame: "body"@,
        unit: "m"@,
        summary: "leap second pose"@,
        content: DemoContent::Pose { x: i as i64, y: 0, yaw: 0 },
    }
}

// ---- what the packets show ------------------------------------------------------------------

/// What a list of packets stands for.
pub open spec fn packet_values(p: Seq<DemoPacket>) -> Seq<PacketValue> {
    p.map_values(|x: DemoPacket| x@)
}

/// A device's week of ten bits starts again from zero while time goes on.
pub open spec fn rolls_over(a: PacketValue, b: PacketValue) -> bool {
    &&& a.device == b.device
    &&& a.clock matches DemoClock::Week { week, bits, tow } && week == 1023 && bits == 10
    &&& b.clock matches DemoClock::Week { week, bits, tow } && week == 0 && bits == 10
    &&& a.t < b.t
}

/// A packet is labelled within a leap second.
pub open spec fn labels_leap_second(a: PacketValue) -> bool {
    a.clock matches DemoClock::Utc { year, month, day, hour, minute, second } && hour == 23
        && minute == 59 && second >= 60 * time::SECOND
}

/// A device starts again, and its numbers from zero.
pub open spec fn starts_again(a: PacketValue, b: PacketValue) -> bool {
    a.device == b.device && a.received < b.received && a.seq > 0 && b.restart && b.seq == 0
}

/// A packet is received after one that was taken later, without a restart between.
pub open spec fn comes_late(a: PacketValue, b: PacketValue) -> bool {
    a.device == b.device && a.received < b.received && b.t < a.t && a.seq < b.seq && !b.restart
}

/// A packet is received a second time.
pub open spec fn comes_twice(a: PacketValue, b: PacketValue) -> bool {
    a.device == b.device && a.seq == b.seq && a.t == b.t && a.content == b.content && a.unit
        == b.unit && a.received < b.received
}

/// Two poses of a device are too far apart to interpolate between, with none of it in
/// between.
pub open spec fn leaves_gap(p: Seq<PacketValue>, a: int, b: int) -> bool {
    &&& p[a].content is Pose && p[b].content is Pose
    &&& p[a].device == p[b].device
    &&& p[b].t - p[a].t > blocks::MAX_INTERP_GAP
    &&& forall|k: int|
        0 <= k < p.len() && (#[trigger] p[k]).device == p[a].device ==> p[k].t <= p[a].t || p[k].t
            >= p[b].t
}

/// A scan is in millimetres.
pub open spec fn in_millimetres(a: PacketValue) -> bool {
    a.content is Scan && a.unit == "mm"@
}

/// Whether packets show a rollover of the ten-bit week, a label within a leap second,
/// numbers that start again after a restart, a late packet, a repeated one, a gap between
/// poses, and a scan in millimetres.
pub open spec fn shows_everything(p: Seq<PacketValue>) -> bool {
    &&& exists|i: int, j: int| 0 <= i < p.len() && 0 <= j < p.len() && #[trigger] rolls_over(p[i], p[j])
    &&& exists|i: int| 0 <= i < p.len() && #[trigger] labels_leap_second(p[i])
    &&& exists|i: int, j: int|
        0 <= i < p.len() && 0 <= j < p.len() && #[trigger] starts_again(p[i], p[j])
    &&& exists|i: int, j: int| 0 <= i < p.len() && 0 <= j < p.len() && #[trigger] comes_late(p[i], p[j])
    &&& exists|i: int, j: int|
        0 <= i < p.len() && 0 <= j < p.len() && #[trigger] comes_twice(p[i], p[j])
    &&& exists|i: int, j: int| 0 <= i < p.len() && 0 <= j < p.len() && #[trigger] leaves_gap(p, i, j)
    &&& exists|i: int| 0 <= i < p.len() && #[trigger] in_millimetres(p[i])
}

/// Whether streams are those of the five devices.
pub open spec fn are_streams(s: Seq<DemoStream>) -> bool {
    &&& s.len() == 5
    &&& s[0].device@ == "lidar-A"@ && s[0].kind@ == "lidar"@ && s[0].frame@ == "lidar"@
    &&& s[1].device@ == "gnss-primary"@ && s[1].kind@ == "gnss"@ && s[1].frame@ == "body"@
    &&& s[2].device@ == "gnss-backup"@ && s[2].kind@ == "gnss"@ && s[2].frame@ == "body"@
    &&& s[3].device@ == ROLLOVER_DEVICE@ && s[3].kind@ == "gnss"@ && s[3].frame@ == "body"@
    &&& s[4].device@ == LEAP_DEVICE@ && s[4].kind@ == "gnss"@ && s[4].frame@ == "body"@
    &&& forall|i: int| 0 <= i < 5 ==> (#[trigger] s[i]).unit@ == "m"@
}

/// Whether an edge is a fixed one between two frames.
pub open spec fn is_calibration(e: DemoEdge) -> bool {
    &&& e.name@ == "calib_lidar"@
    &&& e.from@ == "lidar"@
    &&& e.to@ == "body"@
    &&& e.receiver is None
    &&& e.x == 250_000
    &&& e.y == 0
    &&& e.z == 1_600_000
    &&& e.variance == 2
}

/// Whether an edge is that of a receiver's poses.
pub open spec fn is_receiver(
    e: DemoEdge,
    name: Seq<char>,
    receiver: Seq<char>,
    variance: u32,
) -> bool {
    &&& e.name@ == name
    &&& e.from@ == "body"@
    &&& e.to@ == "map"@
    &&& e.receiver matches Some(r) && r@ == receiver
    &&& e.x == 0 && e.y == 0 && e.z == 0
    &&& e.variance == variance
}

/// Whether edges are the calibration and those of both receivers.
pub open spec fn are_edges(e: Seq<DemoEdge>) -> bool {
    &&& e.len() == 3
    &&& is_calibration(e[0])
    &&& is_receiver(e[1], "pose_primary"@, "gnss-primary"@, 5)
    &&& is_receiver(e[2], "pose_backup"@, "gnss-backup"@, 50)
}

fn get_sample(i: usize) -> (r: Sample)
    ensures
        r == sample_at(i as int),
{
    if i == 0 {
        Sample { ms: 0, x: 0, y: 0, yaw: 0 }
    } else if i == 1 {
        Sample { ms: 100, x: 200_000, y: 50_000, yaw: 2_000 }
    } else if i == 2 {
        Sample { ms: 200, x: 400_000, y: 100_000, yaw: 4_000 }
    } else if i == 3 {
        Sample { ms: 0, x: 1_000_000, y: 200_000, yaw: 10_000 }
    } else {
        Sample { ms: 100, x: 1_200_000, y: 220_000, yaw: 12_000 }
    }
}

fn get_scan_ms(i: usize) -> (r: u32)
    ensures
        r == scan_ms(i as int),
{
    if i == 0 {
        50
    } else if i == 1 {
        150
    } else if i == 2 {
        200
    } else if i == 3 {
        2_500
    } else {
        4_050
    }
}

fn make_scan(index: u32, ms: u32, received_ms: u32, unit: &'static str, base: Nanos) -> (r:
    DemoPacket)
    requires
        base == start(),
        time::is_span(base as int),
    ensures
        r@ == scan_at(index as int, index as int, ms as int, received_ms as int, unit@),
{
    let n = text::decimal_text(index as i128);
    let summary = text::join3("sparse scan ", n.as_str(), " (24 pts)");
    DemoPacket {
        device: "lidar-A",
        seq: index,
        restart: index == 0 || index == 4,
        clock: DemoClock::Continuous,
        t: base + ms as i128 * MILLI,
        received: base + received_ms as i128 * MILLI,
        frame: "lidar",
        unit,
        summary,
        content: DemoContent::Scan { index, points: SCAN_POINTS },
    }
}

fn make_rollover(i: u32) -> (r: DemoPacket)
    requires
        i < 2,
    ensures
        r@ == rollover_at(i as int),
{
    let t: Nanos = if i == 0 {
        time::gps_to_unix(2047, time::WEEK - time::SECOND)
    } else {
        time::gps_to_unix(2048, time::SECOND)
    };
    let clock = if i == 0 {
        DemoClock::Week { week: 1023, bits: 10, tow: time::WEEK - time::SECOND }
    } else {
        DemoClock::Week { week: 0, bits: 10, tow: time::SECOND }
    };
    DemoPacket {
        device: ROLLOVER_DEVICE,
        seq: i,
        restart: i == 0,
        clock,
        t,
        received: t,
        frame: "body",
        unit: "m",
        summary: "week rollover pose".to_owned(),
        content: DemoContent::Pose { x: i as i64, y: 0, yaw: 0 },
    }
}

fn make_leap(i: u32) -> (r: DemoPacket)
    requires
        i < 2,
    ensures
        r@ == leap_at(i as int),
{
    let t: Nanos = if i == 0 {
        time::utc_to_unix(2016, 12, 31, 23, 59, LEAP_STAMP)
    } else {
        time::utc_to_unix(2017, 1, 1, 0, 0, AFTER_LEAP)
    };
    let clock = if i == 0 {
        DemoClock::Utc { year: 2016, month: 12, day: 31, hour: 23, minute: 59, second: LEAP_STAMP }
    } else {
        DemoClock::Utc { year: 2017, month: 1, day: 1, hour: 0, minute: 0, second: AFTER_LEAP }
    };
    DemoPacket {
        device: LEAP_DEVICE,
        seq: i,
        restart: i == 0,
        clock,
        t,
        received: t,
        frame: "body",
        unit: "m",
        summary: "leap second pose".to_owned(),
        content: DemoContent::Pose { x: i as i64, y: 0, yaw: 0 },
    }
}

fn make_pose(k: usize, base: Nanos) -> (r: DemoPacket)
    requires
        k < 10,
        base == start(),
        time::is_span(base as int),
    ensures
        r@ == packet_at(k as int),
{
    let s = get_sample(k / 2);
    let backup = k % 2 == 1;
    let off: i64 = if backup {
        10_000
    } else {
        0
    };
    let ahead: u32 = if k < 6 {
        s.ms
    } else {
        4_000 + s.ms
    };
    let ms = text::decimal_text(s.ms as i128);
    let summary = if k >= 6 {
        "pose gen2".to_owned()
    } else if backup {
        text::join3("backup pose +", ms.as_str(), "ms")
    } else {
        text::join3("primary pose +", ms.as_str(), "ms")
    };
    let t: Nanos = base + ahead as i128 * MILLI;
    DemoPacket {
        device: if backup {
            "gnss-backup"
        } else {
            "gnss-primary"
        },
        seq: s.ms,
        restart: s.ms == 0,
        clock: DemoClock::Continuous,
        t,
        received: t,
        frame: "body",
        unit: "m",
        summary,
        content: DemoContent::Pose { x: s.x + off, y: s.y - off, yaw: s.yaw },
    }
}

fn make_packet(k: usize, base: Nanos) -> (r: DemoPacket)
    requires
        k < PACKETS,
        base == start(),
        time::is_span(base as int),
    ensures
        r@ == packet_at(k as int),
{
    if k < 10 {
        make_pose(k, base)
    } else if k < 15 {
        let i: usize = k - 10;
        let ms: u32 = get_scan_ms(i);
        make_scan(i as u32, ms, ms, "m", base)
    } else if k < 17 {
        make_rollover((k - 15) as u32)
    } else if k < 19 {
        make_leap((k - 17) as u32)
    } else if k == 19 {
        let ms: u32 = get_scan_ms(1);
        make_scan(1, ms, ms + 10, "m", base)
    } else if k == 20 {
        make_scan(5, 4_080, 4_080, "mm", base)
    } else {
        make_scan(6, 4_020, 4_095, "m", base)
    }
}

proof fn lemma_everything_is_shown(p: Seq<PacketValue>)
    requires
        p.len() == PACKETS,
        forall|k: int| 0 <= k < PACKETS ==> #[trigger] p[k] == packet_at(k),
    ensures
        shows_everything(p),
{
    reveal_strlit("gnss-primary");
    reveal_strlit("gnss-backup");
    reveal_strlit("lidar-A");
    reveal_strlit("gnss-rollover");
    reveal_strlit("gnss-leap");
    assert(rolls_over(p[15], p[16]));
    assert(labels_leap_second(p[17]));
    assert(starts_again(p[4], p[6]));
    assert(comes_late(p[14], p[21]));
    assert(comes_twice(p[11], p[19]));
    assert(p[4].device == "gnss-primary"@);
    assert forall|k: int|
        0 <= k < p.len() && (#[trigger] p[k]).device == p[4].device implies p[k].t <= p[4].t
        || p[k].t >= p[6].t by {
        assert(p[k] == packet_at(k));
        assert("gnss-primary"@.len() != "gnss-backup"@.len());
        assert("gnss-primary"@.len() != "lidar-A"@.len());
        assert("gnss-primary"@.len() != ROLLOVER_DEVICE@.len());
        assert("gnss-primary"@.len() != LEAP_DEVICE@.len());
    }
    assert(leaves_gap(p, 4, 6));
    assert(in_millimetres(p[20]));
}

/// Plans the data set. There is nothing to plan where streams are there already.
pub fn seed(streams: usize) -> (r: Option<DemoPlan>)
    ensures
        r is Some <==> streams == 0,
        r matches Some(plan) ==> {
            &&& are_streams(plan.streams@)
            &&& are_edges(plan.edges@)
            &&& plan.packets@.len() == PACKETS
            &&& forall|k: int| 0 <= k < PACKETS ==> (#[trigger] plan.packets@[k])@ == packet_at(k)
            &&& shows_everything(packet_values(plan.packets@))
        },
{
    if streams > 0 {
        return None;
    }
    let mut devices: Vec<DemoStream> = Vec::new();
    devices.push(DemoStream { device: "lidar-A", kind: "lidar", frame: "lidar", unit: "m" });
    devices.push(DemoStream { device: "gnss-primary", kind: "gnss", frame: "body", unit: "m" });
    devices.push(DemoStream { device: "gnss-backup", kind: "gnss", frame: "body", unit: "m" });
    devices.push(DemoStream { device: ROLLOVER_DEVICE, kind: "gnss", frame: "body", unit: "m" });
    devices.push(DemoStream { device: LEAP_DEVICE, kind: "gnss", frame: "body", unit: "m" });
    let mut edges: Vec<DemoEdge> = Vec::new();
    edges.push(
        DemoEdge {
            name: "calib_lidar",
            from: "lidar",
            to: "body",
            receiver: None,
            x: 250_000,
            y: 0,
            z: 1_600_000,
            variance: 2,
        },
    );
    edges.push(
        DemoEdge {
            name: "pose_primary",
            from: "body",
            to: "map",
            receiver: Some("gnss-primary"),
            x: 0,
            y: 0,
            z: 0,
            variance: 5,
        },
    );
    edges.push(
        DemoEdge {
            name: "pose_backup",
            from: "body",
            to: "map",
            receiver: Some("gnss-backup"),
            x: 0,
            y: 0,
            z: 0,
            variance: 50,
        },
    );
    let base: Nanos = time::utc_to_unix(2026, 9, 20, 10, 0, 0);
    let mut packets: Vec<DemoPacket> = Vec::new();
    let mut k: usize = 0;
    while k < PACKETS
        invariant
            k <= PACKETS,
            base == start(),
            time::is_span(base as int),
            packets@.len() == k,
            forall|i: int| 0 <= i < k ==> (#[trigger] packets@[i])@ == packet_at(i),
        decreases PACKETS - k,
    {
        packets.push(make_packet(k, base));
        k += 1;
    }
    proof {
        lemma_everything_is_shown(packet_values(packets@));
    }
    Some(DemoPlan { streams: devices, edges, packets })
}

/// The fourth scan lies in the gap: no pose is taken within a second and a half of it.
pub proof fn law_no_pose_is_near_the_scan_in_the_gap(k: int)
    requires
        0 <= k < PACKETS,
        packet_at(k).content is Pose,
    ensures
        packet_at(k).t <= packet_at(13).t - 1_500 * MILLI || packet_at(k).t >= packet_at(13).t
            + 1_500 * MILLI,
{
    assert(time::day_number(2026, 9, 20) == 20716);
    assert(time::day_number(2016, 12, 31) == 17166);
    assert(time::day_number(2017, 1, 1) == 17167);
    time::law_leap_seconds_never_decrease(17166, 20716);
    time::law_leap_seconds_never_decrease(17167, 20716);
}

// ---- receipt ----------------------------------------------------------------------------------

/// A packet as it is received: its position in the plan, and how often its device had
/// started again by then.
#[derive(Clone, Copy, Debug, PartialEq, Eq, Structural)]
pub struct Delivery {
    pub packet: usize,
    pub boot: usize,
}

/// The packets by position, in the order of receipt; of two received at one time, the
/// first of the plan comes first.
pub open spec fn receipt_order(p: Seq<PacketValue>) -> Seq<int> {
    order::order_of(p.map_values(|x: PacketValue| order::pair_key(x.received, 0)))
}

/// Whether a device sent one of the first `n` packets received.
pub open spec fn was_heard(p: Seq<PacketValue>, at: Seq<int>, n: int, device: Seq<char>) -> bool {
    exists|j: int| 0 <= j < n && p[#[trigger] at[j]].device == device
}

/// Whether a packet received is one with which a device that was heard before starts
/// again.
pub open spec fn boots_at(p: Seq<PacketValue>, at: Seq<int>, device: Seq<char>) -> spec_fn(
    int,
) -> bool {
    |i: int| p[at[i]].device == device && p[at[i]].restart && was_heard(p, at, i, device)
}

/// Lists the packets of a plan as they are received.
pub fn deliveries(packets: &Vec<DemoPacket>) -> (r: Vec<Delivery>)
    ensures
        ({
            let p = packet_values(packets@);
            let at = receipt_order(p);
            &&& r@.len() == p.len()
            &&& forall|k: int|
                0 <= k < r@.len() ==> (#[trigger] r@[k]).packet == at[k] && r@[k].boot
                    == rows::count_where(k + 1, boots_at(p, at, p[at[k]].device))
        }),
{
    let ghost p = packet_values(packets@);
    let ghost at = receipt_order(p);
    let mut pairs: Vec<(i128, i128)> = Vec::new();
    let mut i: usize = 0;
    while i < packets.len()
        invariant
            i <= packets@.len(),
            pairs@.len() == i,
            forall|k: int| 0 <= k < i ==> #[trigger] pairs@[k] == (packets@[k].received, 0i128),
        decreases packets.len() - i,
    {
        pairs.push((packets[i].received, 0));
        i += 1;
    }
    let o = order::order_by_pairs(&pairs);
    assert(order::pair_keys(pairs@) =~= p.map_values(
        |x: PacketValue| order::pair_key(x.received, 0),
    ));
    assert forall|k: int| 0 <= k < o@.len() implies #[trigger] at[k] == o@[k] by {
        assert(order::positions(o@)[k] == o@[k]);
    }
    let n: usize = o.len();
    let mut out: Vec<Delivery> = Vec::new();
    let mut k: usize = 0;
    while k < n
        invariant
            k <= n,
            n == o@.len(),
            at.len() == n,
            o@.len() == packets@.len(),
            p == packet_values(packets@),
            forall|k: int| 0 <= k < o@.len() ==> #[trigger] at[k] == o@[k],
            forall|k: int| 0 <= k < o@.len() ==> #[trigger] o@[k] < packets@.len(),
            out@.len() == k,
            forall|m: int|
                0 <= m < k ==> (#[trigger] out@[m]).packet == at[m] && out@[m].boot
                    == rows::count_where(m + 1, boots_at(p, at, p[at[m]].device)),
        decreases n - k,
    {
        let device: &'static str = packets[o[k]].device;
        let ghost holds = boots_at(p, at, device@);
        let mut boot: usize = 0;
        let mut heard = false;
        let mut i: usize = 0;
        assert(at[k as int] == o@[k as int]);
        while i <= k
            invariant
                k < n,
                n == o@.len(),
                at.len() == n,
                i <= k + 1,
                o@.len() == packets@.len(),
                p == packet_values(packets@),
                forall|k: int| 0 <= k < o@.len() ==> #[trigger] at[k] == o@[k],
                forall|k: int| 0 <= k < o@.len() ==> #[trigger] o@[k] < packets@.len(),
                holds == boots_at(p, at, device@),
                boot <= i,
                boot == rows::count_where(i as int, holds),
                heard == was_heard(p, at, i as int, device@),
            decreases k + 1 - i,
        {
            let q = &packets[o[i]];
            assert(at[i as int] == o@[i as int]);
            assert(p[at[i as int]] == q@);
            let ghost earlier = was_heard(p, at, i as int, device@);
            if text::same(q.device, device) {
                if q.restart && heard {
                    boot += 1;
                }
                heard = true;
            }
            proof {
                let later = was_heard(p, at, i + 1, device@);
                if earlier {
                    let j = choose|j: int| 0 <= j < i && p[#[trigger] at[j]].device == device@;
                    assert(0 <= j < i + 1 && p[at[j]].device == device@);
                }
                if later && q.device@ != device@ {
                    let j = choose|j: int|
                        0 <= j < i + 1 && p[#[trigger] at[j]].device == device@;
                    assert(j < i);
                }
            }
            i += 1;
        }
        out.push(Delivery { packet: o[k], boot });
        k += 1;
    }
    out
}

/// Packets are received once each, in the order of their times of receipt; of two received
/// at one time, the first of the plan comes first.
pub proof fn law_packets_are_received_in_order(p: Seq<PacketValue>, x: int, i: int, j: int)
    ensures
        receipt_order(p).len() == p.len(),
        0 <= x < p.len() ==> receipt_order(p).contains(x),
        0 <= i < j < p.len() ==> {
            let a = receipt_order(p)[i];
            let b = receipt_order(p)[j];
            p[a].received < p[b].received || (p[a].received == p[b].received && a < b)
        },
{
    let keys = p.map_values(|x: PacketValue| order::pair_key(x.received, 0));
    let at = receipt_order(p);
    order::law_order_is_unique(keys, at);
    if 0 <= i < j < p.len() {
        assert(order::precedes(keys, at[i], at[j]));
        order::lemma_pair_key_before(p[at[i]].received, 0, p[at[j]].received, 0);
    }
}

/// Of two packets of a device, received one after the other, the second is of the next boot
/// where the device starts again with it, and of the same one where it does not.
pub proof fn law_boots_count_restarts(p: Seq<PacketValue>, at: Seq<int>, k: int, m: int)
    requires
        0 <= k < m < at.len(),
        p[at[k]].device == p[at[m]].device,
        forall|j: int| k < j < m ==> p[#[trigger] at[j]].device != p[at[k]].device,
    ensures
        rows::count_where(m + 1, boots_at(p, at, p[at[m]].device)) == rows::count_where(
            k + 1,
            boots_at(p, at, p[at[k]].device),
        ) + if p[at[m]].restart { 1int } else { 0 },
{
    let holds = boots_at(p, at, p[at[m]].device);
    lemma_no_boots_between(p, at, p[at[m]].device, k + 1, m);
    assert(p[at[k]].device == p[at[m]].device);
    assert(was_heard(p, at, m, p[at[m]].device));
}

/// The first packet of a device is of its first boot, restart or not.
pub proof fn law_first_packet_is_of_the_first_boot(p: Seq<PacketValue>, at: Seq<int>, k: int)
    requires
        0 <= k < at.len(),
        forall|j: int| 0 <= j < k ==> p[#[trigger] at[j]].device != p[at[k]].device,
    ensures
        rows::count_where(k + 1, boots_at(p, at, p[at[k]].device)) == 0,
{
    lemma_no_boots_between(p, at, p[at[k]].device, 0, k);
}

proof fn lemma_no_boots_between(
    p: Seq<PacketValue>,
    at: Seq<int>,
    device: Seq<char>,
    from: int,
    to: int,
)
    requires
        0 <= from <= to <= at.len(),
        forall|j: int| from <= j < to ==> p[#[trigger] at[j]].device != device,
    ensures
        rows::count_where(to, boots_at(p, at, device)) == rows::count_where(
            from,
            boots_at(p, at, device),
        ),
    decreases to - from,
{
    if from < to {
        lemma_no_boots_between(p, at, device, from, to - 1);
        assert(p[at[to - 1]].device != device);
    }
}

/// A list of packets stands for what each of them holds.
pub proof fn law_packets_stand_for_their_fields(p: Seq<DemoPacket>, i: int)
    requires
        0 <= i < p.len(),
    ensures
        packet_values(p).len() == p.len(),
        packet_values(p)[i].device == p[i].device@,
        packet_values(p)[i].seq == p[i].seq,
        packet_values(p)[i].restart == p[i].restart,
        packet_values(p)[i].clock == p[i].clock,
        packet_values(p)[i].t == p[i].t,
        packet_values(p)[i].received == p[i].received,
        packet_values(p)[i].frame == p[i].frame@,
        packet_values(p)[i].unit == p[i].unit@,
        packet_values(p)[i].summary == p[i].summary@,
        packet_values(p)[i].content == p[i].content,
{
}

} // verus!
