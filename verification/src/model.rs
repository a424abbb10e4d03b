//! Plain data types shared by import, storage and the service rules.

use crate::geo;
use crate::scalar;
use crate::scalar::Scalar;
use crate::text;
use crate::time::Nanos;
use crate::units::UnitSpec;
use vstd::prelude::*;
use vstd::string::*;

verus! {

/// An error with a machine-readable code and a message.
#[derive(Clone, Debug)]
pub struct AppError {
    pub code: &'static str,
    pub message: String,
}

pub type AppResult<T> = Result<T, AppError>;

impl AppError {
    /// Whether the error has this code and this message.
    pub open spec fn says(self, code: Seq<char>, message: Seq<char>) -> bool {
        self.code@ == code && self.message@ == message
    }

    pub fn new(code: &'static str, message: &str) -> (r: AppError)
        ensures
            r.says(code@, message@),
    {
        AppError { code, message: message.to_owned() }
    }

    pub fn bad_unit(m: &str) -> (r: AppError)
        ensures
            r.says("unit_error"@, m@),
    {
        AppError::new("unit_error", m)
    }

    pub fn singular(m: &str) -> (r: AppError)
        ensures
            r.says("singular_covariance"@, m@),
    {
        AppError::new("singular_covariance", m)
    }

    pub fn cycle(m: &str) -> (r: AppError)
        ensures
            r.says("cycle_detected"@, m@),
    {
        AppError::new("cycle_detected", m)
    }

    pub fn not_found(m: &str) -> (r: AppError)
        ensures
            r.says("not_found"@, m@),
    {
        AppError::new("not_found", m)
    }

    /// The code and the message, joined by a colon and a space.
    pub fn text(&self) -> (r: String)
        ensures
            r@ == self.code@ + ": "@ + self.message@,
    {
        text::join3(self.code, ": ", self.message.as_str())
    }
}

#[derive(Clone, Copy, Debug, PartialEq, Eq, Structural)]
pub enum PacketKind {
    Lidar,
    Gnss,
}

/// The packet kind that a normalised name stands for.
pub open spec fn kind_named(name: Seq<char>) -> Option<PacketKind> {
    if name == "lidar"@ || name == "laser"@ || name == "scan"@ {
        Some(PacketKind::Lidar)
    } else if name == "gnss"@ || name == "ins"@ || name == "imu_gnss"@ || name == "pose"@ {
        Some(PacketKind::Gnss)
    } else {
        None
    }
}

impl PacketKind {
    /// The kind that a name stands for, whatever its case and surrounding space.
    pub fn parse(s: &str) -> (r: Option<PacketKind>)
        ensures
            r == kind_named(text::normal(s@)),
    {
        let name = text::normal_chars(s);
        if text::holds(&name, "lidar") || text::holds(&name, "laser") || text::holds(
            &name,
            "scan",
        ) {
            Some(PacketKind::Lidar)
        } else if text::holds(&name, "gnss") || text::holds(&name, "ins") || text::holds(
            &name,
            "imu_gnss",
        ) || text::holds(&name, "pose") {
            Some(PacketKind::Gnss)
        } else {
            None
        }
    }
}

/// One point of a lidar packet, in the sensor's own frame and units.
#[derive(Clone, Copy, Debug)]
pub struct RawPoint {
    pub x: Scalar,
    pub y: Scalar,
    pub z: Scalar,
    pub intensity: Option<Scalar>,
}

/// A packet's own time fields, as they arrived.
#[derive(Clone, Debug)]
pub struct RawTime {
    pub sow: Nanos,
    pub week: Option<i64>,
    pub leap_second_flag: bool,
    pub scale: String,
}

/// One packet to import. A time stamp that is not a number is `None`.
#[derive(Clone, Debug)]
pub struct PacketInput {
    pub kind: String,
    pub device_id: String,
    /// Per-device packet sequence number, which starts again on a reboot.
    pub seq: i64,
    /// Boot counter, where the device provides one.
    pub boot_id: Option<i64>,
    /// Free-form boot or session marker.
    pub boot_marker: Option<String>,
    pub timestamp: Option<Nanos>,
    pub week: Option<i64>,
    pub leap_second_flag: bool,
    pub time_scale: Option<String>,
    pub coord_frame: Option<String>,
    pub length_unit: Option<String>,
    pub angle_unit: Option<String>,
    pub px: Option<Scalar>,
    pub py: Option<Scalar>,
    pub pz: Option<Scalar>,
    pub roll: Option<Scalar>,
    pub pitch: Option<Scalar>,
    pub yaw: Option<Scalar>,
    pub quat: Option<[Scalar; 4]>,
    pub cov: Option<Vec<Scalar>>,
    pub points: Option<Vec<RawPoint>>,
}

/// How the rotation of a transform is given.
#[derive(Clone, Copy, Debug)]
pub enum Rotation {
    Quaternion([Scalar; 4]),
    Euler([Scalar; 3]),
    Identity,
}

impl PacketInput {
    /// The rotation that counts: the quaternion where there is one, else the angles
    /// where there are all three.
    pub open spec fn rotation_given(self) -> Rotation {
        match self.quat {
            Some(q) => Rotation::Quaternion(q),
            None => match (self.roll, self.pitch, self.yaw) {
                (Some(roll), Some(pitch), Some(yaw)) => Rotation::Euler([roll, pitch, yaw]),
                _ => Rotation::Identity,
            },
        }
    }

    /// The rotation that counts, in the angle unit of the packet.
    pub fn rotation(&self) -> (r: Rotation)
        ensures
            r == self.rotation_given(),
    {
        match self.quat {
            Some(q) => Rotation::Quaternion(q),
            None => match (self.roll, self.pitch, self.yaw) {
                (Some(roll), Some(pitch), Some(yaw)) => Rotation::Euler([roll, pitch, yaw]),
                _ => Rotation::Identity,
            },
        }
    }

    /// The covariance that counts.
    pub fn covariance(&self) -> (r: PoseCovariance)
        ensures
            match self.cov {
                Some(v) => r matches PoseCovariance::Given(c) && c@ == v@,
                None => r matches PoseCovariance::Assumed(c) && c@ == assumed_covariance(),
            },
    {
        match &self.cov {
            Some(v) => PoseCovariance::Given(scalar::copied(v)),
            None => {
                let p = Scalar { bits: POSITION_VARIANCE };
                let a = Scalar { bits: ANGLE_VARIANCE };
                let mut d: Vec<Scalar> = Vec::new();
                d.push(p);
                d.push(p);
                d.push(p);
                d.push(a);
                d.push(a);
                d.push(a);
                assert(d@ =~= seq![p, p, p, a, a, a]);
                PoseCovariance::Assumed(geo::diagonal(&d))
            },
        }
    }
}

/// The covariance of a pose: as given, in the units of its packet, or what is assumed
/// where none is given, in metres and radians.
#[derive(Clone, Debug)]
pub enum PoseCovariance {
    Given(Vec<Scalar>),
    Assumed(Vec<Scalar>),
}

/// The variance that is assumed of a coordinate: a ten-thousandth of a square metre.
pub const POSITION_VARIANCE: u64 = 0x3f1a_36e2_eb1c_432d;

/// The variance that is assumed of an angle: a millionth of a square radian.
pub const ANGLE_VARIANCE: u64 = 0x3eb0_c6f7_a0b5_ed8d;

/// The covariance that is assumed of a pose that gives none.
pub open spec fn assumed_covariance() -> Seq<Scalar> {
    let p = Scalar { bits: POSITION_VARIANCE };
    let a = Scalar { bits: ANGLE_VARIANCE };
    geo::diagonal_of(seq![p, p, p, a, a, a])
}

/// An imported packet, with its raw metadata retained.
#[derive(Clone, Debug)]
pub struct PacketRecord {
    pub id: i64,
    pub generation_id: i64,
    pub kind: PacketKind,
    pub device_id: String,
    pub seq: i64,
    pub boot_id: Option<i64>,
    pub boot_marker: Option<String>,
    pub raw: RawTime,
    pub units: UnitSpec,
    pub coord_frame: String,
    pub continuous_time: Nanos,
    pub received_index: i64,
    pub duplicate_of: Option<i64>,
    pub content_summary: String,
    pub points: Vec<RawPoint>,
    /// The packet as it was encoded.
    pub payload: String,
}

/// Every kind of packet is known by these names, and by no others.
pub proof fn law_names_of_packet_kinds(name: Seq<char>)
    ensures
        kind_named(name) == Some(PacketKind::Lidar) <==> name == "lidar"@ || name == "laser"@ || name
            == "scan"@,
        kind_named(name) == Some(PacketKind::Gnss) <==> name == "gnss"@ || name == "ins"@ || name
            == "imu_gnss"@ || name == "pose"@,
{
    reveal_strlit("lidar");
    reveal_strlit("laser");
    reveal_strlit("scan");
    reveal_strlit("gnss");
    reveal_strlit("ins");
    reveal_strlit("imu_gnss");
    reveal_strlit("pose");
    let first = name[0];
}

/// A quaternion counts before angles, and angles count where all three are there.
pub proof fn law_which_rotation_counts(p: PacketInput)
    ensures
        p.quat is Some ==> p.rotation_given() == Rotation::Quaternion(p.quat->0),
        p.quat is None && p.roll is Some && p.pitch is Some && p.yaw is Some ==> (
        p.rotation_given() matches Rotation::Euler(a) && a@[0] == p.roll->0 && a@[1] == p.pitch->0
            && a@[2] == p.yaw->0),
        p.quat is None && (p.roll is None || p.pitch is None || p.yaw is None)
            ==> p.rotation_given() is Identity,
{
}

/// Of a pose without a covariance, coordinates are assumed to vary by a ten-thousandth of a
/// square metre and angles by a millionth of a square radian, each by itself.
pub proof fn law_assumed_covariance(i: int, j: int)
    requires
        0 <= i < 6,
        0 <= j < 6,
    ensures
        assumed_covariance().len() == 36,
        i == j && i < 3 ==> assumed_covariance()[6 * i + j].bits == 0x3f1a_36e2_eb1c_432d,
        i == j && i >= 3 ==> assumed_covariance()[6 * i + j].bits == 0x3eb0_c6f7_a0b5_ed8d,
        i != j ==> assumed_covariance()[6 * i + j].bits == 0,
{
    let k = 6 * i + j;
    assert(k / 6 == i && k % 6 == j);
}

/// An error says one code and one message: its own.
pub proof fn law_error_says_its_code_and_message(e: AppError, code: Seq<char>, message: Seq<char>)
    ensures
        e.says(e.code@, e.message@),
        e.says(code, message) ==> code == e.code@ && message == e.message@,
{
}

} // verus!
