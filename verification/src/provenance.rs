//! Where a derived point comes from: the raw point, the chain of transforms it went
//! through and the routes that were considered.

use crate::scalar::Scalar;
use crate::time::Nanos;
use vstd::prelude::*;

verus! {

/// The raw point and the packet it came in.
#[derive(Clone, Debug)]
pub struct PointOrigin {
    pub packet_id: i64,
    pub generation_id: i64,
    pub point_index: usize,
    pub device_id: String,
    pub raw_seq: i64,
    pub raw_timestamp_sow: Nanos,
    pub raw_week: Option<i64>,
    pub time_scale: String,
    pub coord_frame: String,
    pub units: String,
    pub content_summary: String,
    pub raw_sensor_xyz: [Scalar; 3],
    pub si_sensor_xyz: [Scalar; 3],
}

/// One transform of a chain.
#[derive(Clone, Debug)]
pub struct ChainHop {
    pub from: String,
    pub to: String,
    pub arc_id: String,
    pub version: String,
    pub covariance_trace: Option<Scalar>,
}

/// A route that was considered.
#[derive(Clone, Debug)]
pub struct CandidateRoute {
    pub frames: Vec<String>,
    pub precision_cost: Scalar,
    pub version_score: i128,
    pub selected: bool,
    pub reason: String,
}

/// The whole account of a derived point.
#[derive(Clone, Debug)]
pub struct Provenance {
    pub point: PointOrigin,
    pub chain: Vec<ChainHop>,
    pub candidates: Vec<CandidateRoute>,
    pub final_sigma_position_m: Option<[Scalar; 3]>,
    pub final_map_xyz: Option<[Scalar; 3]>,
}

} // verus!
