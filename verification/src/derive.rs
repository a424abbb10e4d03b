//! Deriving blocks from packets: which poses and which calibration place a packet's
//! points in the map, and which packets are still to be derived.

use crate::rows;
use crate::scalar::Scalar;
use crate::store;
use crate::store::{
    Block, Chain, ChainLink, ChainValue, LinkValue, Packet, Pose, Store, StoreError, Transform,
};
use crate::text;
use crate::time;
use crate::time::Nanos;
use vstd::prelude::*;
use vstd::string::*;

verus! {

/// The widest gap between two poses that is interpolated across, two tenths of a
/// second.
pub const MAX_POSE_INTERVAL: Nanos = 200_000_000;

// ---- poses ------------------------------------------------------------------------------------

/// A pose of the body in the map at a time of an epoch.
#[derive(Clone, Copy, Debug)]
pub struct PoseSample {
    pub epoch: u32,
    pub t: Nanos,
    pub pose: Pose,
}

/// The samples that a time lies between, by position, how wide the gap is and how far
/// into it the time lies.
#[derive(Clone, Copy, Debug)]
pub struct Between {
    pub before: usize,
    pub after: usize,
    pub gap: Nanos,
    pub ahead: Nanos,
}

/// Whether a sample is of an epoch.
pub open spec fn of_epoch(poses: Seq<PoseSample>, epoch: u32) -> spec_fn(int) -> bool {
    |i: int| poses[i].epoch == epoch
}

/// The sample of an epoch at or before a time that is nearest to it, among the first
/// `n`; of equal ones the last.
pub open spec fn before_of(poses: Seq<PoseSample>, epoch: u32, t: int, n: int) -> Option<int>
    decreases n,
{
    if n <= 0 {
        None
    } else {
        let best = before_of(poses, epoch, t, n - 1);
        let p = poses[n - 1];
        if p.epoch == epoch && p.t <= t && (best is None || poses[best->0].t <= p.t) {
            Some(n - 1)
        } else {
            best
        }
    }
}

/// The sample of an epoch at or after a time that is nearest to it, among the first
/// `n`; of equal ones the last.
pub open spec fn after_of(poses: Seq<PoseSample>, epoch: u32, t: int, n: int) -> Option<int>
    decreases n,
{
    if n <= 0 {
        None
    } else {
        let best = after_of(poses, epoch, t, n - 1);
        let p = poses[n - 1];
        if p.epoch == epoch && p.t >= t && (best is None || p.t <= poses[best->0].t) {
            Some(n - 1)
        } else {
            best
        }
    }
}

/// The samples that a time is interpolated between. There is no such pair where the
/// epoch has fewer than two samples, where the time is before or after all of them, or
/// where they are too far apart.
pub open spec fn bracket(poses: Seq<PoseSample>, epoch: u32, t: int) -> Option<(int, int)> {
    let n = poses.len() as int;
    let mine = of_epoch(poses, epoch);
    match (before_of(poses, epoch, t, n), after_of(poses, epoch, t, n)) {
        (Some(b), Some(a)) => if rows::count_where(n, mine) < 2 {
            None
        } else if poses[a].t - poses[b].t > MAX_POSE_INTERVAL {
            None
        } else {
            Some((b, a))
        },
        _ => None,
    }
}

/// Whether every sample's time is within the range that is handled.
pub open spec fn in_range(poses: Seq<PoseSample>) -> bool {
    forall|i: int| 0 <= i < poses.len() ==> time::is_span((#[trigger] poses[i]).t as int)
}

/// Finds the samples of one epoch that a time is interpolated between.
pub fn interp_pose(poses: &Vec<PoseSample>, epoch: u32, t: Nanos) -> (r: Option<Between>)
    requires
        in_range(poses@),
        time::is_span(t as int),
    ensures
        match r {
            Some(x) => {
                &&& bracket(poses@, epoch, t as int) == Some((x.before as int, x.after as int))
                &&& x.before < poses@.len()
                &&& x.after < poses@.len()
                &&& x.gap == poses@[x.after as int].t - poses@[x.before as int].t
                &&& x.ahead == t - poses@[x.before as int].t
            },
            None => bracket(poses@, epoch, t as int) is None,
        },
{
    let ghost mine = of_epoch(poses@, epoch);
    let n: usize = poses.len();
    let mut before: Option<usize> = None;
    let mut after: Option<usize> = None;
    let mut count: usize = 0;
    let mut i: usize = 0;
    while i < n
        invariant
            i <= n,
            n == poses@.len(),
            mine == of_epoch(poses@, epoch),
            count == rows::count_where(i as int, mine),
            count <= i,
            match before {
                Some(k) => k < i && before_of(poses@, epoch, t as int, i as int) == Some(k as int),
                None => before_of(poses@, epoch, t as int, i as int) is None,
            },
            match after {
                Some(k) => k < i && after_of(poses@, epoch, t as int, i as int) == Some(k as int),
                None => after_of(poses@, epoch, t as int, i as int) is None,
            },
        decreases n - i,
    {
        let p = &poses[i];
        if p.epoch == epoch {
            assert(mine(i as int));
            count += 1;
            if p.t <= t {
                let nearer = match before {
                    None => true,
                    Some(b) => poses[b].t <= p.t,
                };
                if nearer {
                    before = Some(i);
                }
            }
            if p.t >= t {
                let nearer = match after {
                    None => true,
                    Some(a) => p.t <= poses[a].t,
                };
                if nearer {
                    after = Some(i);
                }
            }
        } else {
            assert(!mine(i as int));
        }
        i += 1;
    }
    if count < 2 {
        return None;
    }
    match (before, after) {
        (Some(b), Some(a)) => {
            assert(time::is_span(poses@[a as int].t as int) && time::is_span(
                poses@[b as int].t as int,
            ));
            let gap: Nanos = poses[a].t - poses[b].t;
            if gap > MAX_POSE_INTERVAL {
                return None;
            }
            Some(Between { before: b, after: a, gap, ahead: t - poses[b].t })
        },
        _ => None,
    }
}

/// Interpolation never crosses epochs, never extrapolates, and never bridges a gap wider
/// than allowed.
pub proof fn law_interpolation_never_crosses_epochs_or_gaps(
    poses: Seq<PoseSample>,
    epoch: u32,
    t: int,
    b: int,
    a: int,
)
    requires
        bracket(poses, epoch, t) == Some((b, a)),
    ensures
        0 <= b < poses.len(),
        0 <= a < poses.len(),
        poses[b].epoch == epoch,
        poses[a].epoch == epoch,
        poses[b].t <= t <= poses[a].t,
        poses[a].t - poses[b].t <= MAX_POSE_INTERVAL,
{
    lemma_before(poses, epoch, t, poses.len() as int);
    lemma_after(poses, epoch, t, poses.len() as int);
}

/// A time between two samples of an epoch that are close enough is interpolated.
pub proof fn law_time_between_close_samples_is_interpolated(
    poses: Seq<PoseSample>,
    epoch: u32,
    t: int,
    i: int,
    j: int,
)
    requires
        0 <= i < poses.len(),
        0 <= j < poses.len(),
        i != j,
        poses[i].epoch == epoch,
        poses[j].epoch == epoch,
        poses[i].t <= t <= poses[j].t,
        poses[j].t - poses[i].t <= MAX_POSE_INTERVAL,
    ensures
        bracket(poses, epoch, t) is Some,
{
    let n = poses.len() as int;
    let mine = of_epoch(poses, epoch);
    lemma_nearest(poses, epoch, t, n, i, j);
    rows::lemma_all_where(n, mine);
    assert(mine(i) && mine(j));
    let at = rows::all_where(n, mine);
    let x = choose|x: int| 0 <= x < at.len() && at[x] == i;
    let y = choose|y: int| 0 <= y < at.len() && at[y] == j;
    assert(x != y);
}

proof fn lemma_nearest(poses: Seq<PoseSample>, epoch: u32, t: int, n: int, i: int, j: int)
    requires
        0 <= n <= poses.len(),
        poses[i].epoch == epoch,
        poses[j].epoch == epoch,
        poses[i].t <= t <= poses[j].t,
    ensures
        0 <= i < n ==> before_of(poses, epoch, t, n) is Some && poses[before_of(
            poses,
            epoch,
            t,
            n,
        )->0].t >= poses[i].t,
        0 <= j < n ==> after_of(poses, epoch, t, n) is Some && poses[after_of(
            poses,
            epoch,
            t,
            n,
        )->0].t <= poses[j].t,
    decreases n,
{
    if n > 0 {
        lemma_nearest(poses, epoch, t, n - 1, i, j);
    }
}

proof fn lemma_before(poses: Seq<PoseSample>, epoch: u32, t: int, n: int)
    requires
        0 <= n <= poses.len(),
    ensures
        before_of(poses, epoch, t, n) matches Some(k) ==> 0 <= k < n && poses[k].epoch == epoch
            && poses[k].t <= t,
    decreases n,
{
    if n > 0 {
        lemma_before(poses, epoch, t, n - 1);
    }
}

proof fn lemma_after(poses: Seq<PoseSample>, epoch: u32, t: int, n: int)
    requires
        0 <= n <= poses.len(),
    ensures
        after_of(poses, epoch, t, n) matches Some(k) ==> 0 <= k < n && poses[k].epoch == epoch
            && poses[k].t >= t,
    decreases n,
{
    if n > 0 {
        lemma_after(poses, epoch, t, n - 1);
    }
}

// ---- calibrations -----------------------------------------------------------------------------

/// Whether a transform leads from one frame to another and holds at a time: from the
/// start of its window up to, but not at, its end.
pub open spec fn covers(e: Transform, src: Seq<char>, dst: Seq<char>, t: int) -> bool {
    &&& e.src@ == src
    &&& e.dst@ == dst
    &&& e.valid_from is None || t >= e.valid_from->0
    &&& e.valid_to is None || t < e.valid_to->0
}

/// Of the first `n` transforms that hold at a time, the one with the highest version; of
/// equal ones the last.
pub open spec fn best_at(ts: Seq<Transform>, src: Seq<char>, dst: Seq<char>, t: int, n: int) -> Option<
    int,
>
    decreases n,
{
    if n <= 0 {
        None
    } else {
        let best = best_at(ts, src, dst, t, n - 1);
        if covers(ts[n - 1], src, dst, t) && (best is None || ts[best->0].version
            <= ts[n - 1].version) {
            Some(n - 1)
        } else {
            best
        }
    }
}

/// The transform that is chosen at a time holds then, and none that does has a higher
/// version.
pub proof fn law_newest_valid_version_is_chosen(
    ts: Seq<Transform>,
    src: Seq<char>,
    dst: Seq<char>,
    t: int,
    n: int,
)
    requires
        0 <= n <= ts.len(),
    ensures
        match best_at(ts, src, dst, t, n) {
            Some(i) => 0 <= i < n && covers(ts[i], src, dst, t) && forall|k: int|
                0 <= k < n && covers(#[trigger] ts[k], src, dst, t) ==> ts[k].version
                    <= ts[i].version,
            None => forall|k: int| 0 <= k < n ==> !covers(#[trigger] ts[k], src, dst, t),
        },
    decreases n,
{
    if n > 0 {
        law_newest_valid_version_is_chosen(ts, src, dst, t, n - 1);
    }
}

/// Chooses the version of a transform that holds at a time, by position.
pub fn edge_at(ts: &Vec<Transform>, src: &str, dst: &str, t: Nanos) -> (r: Option<usize>)
    ensures
        match r {
            Some(i) => i < ts@.len() && best_at(ts@, src@, dst@, t as int, ts@.len() as int)
                == Some(i as int),
            None => best_at(ts@, src@, dst@, t as int, ts@.len() as int) is None,
        },
{
    let mut best: Option<usize> = None;
    let mut i: usize = 0;
    while i < ts.len()
        invariant
            i <= ts@.len(),
            match best {
                Some(k) => k < i && best_at(ts@, src@, dst@, t as int, i as int) == Some(k as int),
                None => best_at(ts@, src@, dst@, t as int, i as int) is None,
            },
        decreases ts.len() - i,
    {
        let e = &ts[i];
        let begun = match e.valid_from {
            Some(from) => t >= from,
            None => true,
        };
        let lasts = match e.valid_to {
            Some(to) => t < to,
            None => true,
        };
        if text::same(e.src.as_str(), src) && text::same(e.dst.as_str(), dst) && begun && lasts {
            assert(covers(*e, src@, dst@, t as int));
            match best {
                Some(k) => {
                    if ts[k].version <= e.version {
                        best = Some(i);
                    }
                },
                None => {
                    best = Some(i);
                },
            }
        } else {
            assert(!covers(*e, src@, dst@, t as int));
        }
        i += 1;
    }
    best
}

// ---- one packet -------------------------------------------------------------------------------

/// Why a packet cannot be derived.
pub enum Fault {
    Unit(Seq<char>),
    Input(Seq<char>),
}

/// Whether an error tells why a packet cannot be derived.
pub open spec fn tells(e: StoreError, f: Fault) -> bool {
    match f {
        Fault::Unit(u) => e.is_unit(u),
        Fault::Input(m) => e.is_input(m),
    }
}

/// The frames that points are taken through.
#[derive(Clone, Debug)]
pub struct Frames {
    pub sensor: String,
    pub body: String,
    pub map: String,
}

/// What places a packet's points in the map: the length unit, the samples around its
/// time, and the calibration.
#[derive(Clone, Copy, Debug)]
pub struct Plan {
    pub per_metre: u32,
    pub between: Between,
    pub calibration: usize,
}

/// What stands in the way of a packet's plan.
pub open spec fn obstacle(p: Packet, poses: Seq<PoseSample>, ts: Seq<Transform>, f: Frames)
    -> Option<Fault> {
    if store::per_metre(p.unit@) is None {
        Some(Fault::Unit(p.unit@))
    } else if bracket(poses, p.epoch, p.t as int) is None {
        Some(
            Fault::Input(
                "包 "@ + text::decimal(p.id as int) + " 无可用姿态（跨代次或间隔超限）"@,
            ),
        )
    } else if best_at(ts, f.sensor@, f.body@, p.t as int, ts.len() as int) is None {
        Some(
            Fault::Input(
                "包 "@ + text::decimal(p.id as int) + " 时刻无有效标定 "@ + store::edge_name(
                    f.sensor@,
                    f.body@,
                ),
            ),
        )
    } else {
        None
    }
}

/// Whether a plan is that of a packet.
pub open spec fn is_plan(
    plan: Plan,
    p: Packet,
    poses: Seq<PoseSample>,
    ts: Seq<Transform>,
    f: Frames,
) -> bool {
    let b = plan.between;
    &&& store::per_metre(p.unit@) == Some(plan.per_metre as int)
    &&& bracket(poses, p.epoch, p.t as int) == Some((b.before as int, b.after as int))
    &&& b.before < poses.len()
    &&& b.after < poses.len()
    &&& b.gap == poses[b.after as int].t - poses[b.before as int].t
    &&& b.ahead == p.t - poses[b.before as int].t
    &&& plan.calibration < ts.len()
    &&& best_at(ts, f.sensor@, f.body@, p.t as int, ts.len() as int) == Some(
        plan.calibration as int,
    )
}

/// Finds what places a packet's points in the map.
pub fn plan_one(p: &Packet, poses: &Vec<PoseSample>, ts: &Vec<Transform>, f: &Frames) -> (r: Result<
    Plan,
    StoreError,
>)
    requires
        in_range(poses@),
        time::is_span(p.t as int),
    ensures
        match r {
            Ok(plan) => obstacle(*p, poses@, ts@, *f) is None && is_plan(plan, *p, poses@, ts@, *f),
            Err(e) => obstacle(*p, poses@, ts@, *f) matches Some(x) && tells(e, x),
        },
{
    let (_, per_metre) = match store::unit_to_meters(p.unit.as_str()) {
        Ok(x) => x,
        Err(e) => {
            return Err(e);
        },
    };
    let between = match interp_pose(poses, p.epoch, p.t) {
        Some(b) => b,
        None => {
            let n = text::decimal_text(p.id as i128);
            return Err(
                StoreError::BadInput(
                    text::join3("包 ", n.as_str(), " 无可用姿态（跨代次或间隔超限）"),
                ),
            );
        },
    };
    match edge_at(ts, f.sensor.as_str(), f.body.as_str(), p.t) {
        Some(calibration) => Ok(Plan { per_metre, between, calibration }),
        None => {
            let n = text::decimal_text(p.id as i128);
            let mut m = text::join3("包 ", n.as_str(), " 时刻无有效标定 ");
            let edge = text::join3(f.sensor.as_str(), "->", f.body.as_str());
            m.append(edge.as_str());
            Err(StoreError::BadInput(m))
        },
    }
}

/// What is measured of a packet: its points in the map, where its payload holds points,
/// and the trace of their covariance.
#[derive(Debug)]
pub struct Measured {
    pub points: Result<Vec<[Scalar; 3]>, String>,
    pub cov_trace: Scalar,
}

/// Why a packet gets no block.
pub open spec fn fault_of(
    p: Packet,
    poses: Seq<PoseSample>,
    ts: Seq<Transform>,
    f: Frames,
    m: Measured,
) -> Option<Fault> {
    match obstacle(p, poses, ts, f) {
        Some(x) => Some(x),
        None => match m.points {
            Err(e) => Some(Fault::Input("点载荷解析失败: "@ + e@)),
            Ok(_) => None,
        },
    }
}

/// The chain of a packet's points: the calibration, then the pose.
pub open spec fn chain_of(p: Packet, ts: Seq<Transform>, f: Frames, m: Measured) -> ChainValue {
    let c = ts[best_at(ts, f.sensor@, f.body@, p.t as int, ts.len() as int)->0];
    ChainValue {
        packet_id: p.id,
        epoch: p.epoch,
        t: p.t,
        hops: seq![
            LinkValue {
                edge: store::edge_name(f.sensor@, f.body@),
                version: Some(c.version),
                valid_from: c.valid_from,
                valid_to: c.valid_to,
                source: None,
                epoch: None,
            },
            LinkValue {
                edge: store::edge_name(f.body@, f.map@),
                version: None,
                valid_from: None,
                valid_to: None,
                source: Some("gnss-pose-interp"@),
                epoch: Some(p.epoch),
            },
        ],
        cov_trace_map: m.cov_trace,
    }
}

fn copy_points(v: &Vec<[Scalar; 3]>) -> (r: Vec<[Scalar; 3]>)
    ensures
        r@ == v@,
{
    let mut out: Vec<[Scalar; 3]> = Vec::new();
    let mut i: usize = 0;
    while i < v.len()
        invariant
            i <= v@.len(),
            out@ == v@.take(i as int),
        decreases v.len() - i,
    {
        out.push(v[i]);
        i += 1;
        assert(v@.take(i as int) =~= v@.take(i - 1).push(v@[i - 1]));
    }
    assert(v@.take(v@.len() as int) =~= v@);
    out
}

/// Derives one packet: its points in the map, with the chain that they went through.
pub fn compute_one(
    p: &Packet,
    poses: &Vec<PoseSample>,
    ts: &Vec<Transform>,
    f: &Frames,
    m: &Measured,
) -> (r: Result<(Chain, Vec<[Scalar; 3]>), StoreError>)
    requires
        in_range(poses@),
        time::is_span(p.t as int),
    ensures
        match r {
            Ok((chain, points)) => {
                &&& fault_of(*p, poses@, ts@, *f, *m) is None
                &&& chain@ == chain_of(*p, ts@, *f, *m)
                &&& points@ == m.points->Ok_0@
            },
            Err(e) => fault_of(*p, poses@, ts@, *f, *m) matches Some(x) && tells(e, x),
        },
{
    let plan = match plan_one(p, poses, ts, f) {
        Ok(plan) => plan,
        Err(e) => {
            return Err(e);
        },
    };
    let points = match &m.points {
        Ok(v) => copy_points(v),
        Err(e) => {
            return Err(StoreError::BadInput(text::join2("点载荷解析失败: ", e.as_str())));
        },
    };
    let c = &ts[plan.calibration];
    let mut hops: Vec<ChainLink> = Vec::new();
    hops.push(
        ChainLink {
            edge: text::join3(f.sensor.as_str(), "->", f.body.as_str()),
            version: Some(c.version),
            valid_from: c.valid_from,
            valid_to: c.valid_to,
            source: None,
            epoch: None,
        },
    );
    hops.push(
        ChainLink {
            edge: text::join3(f.body.as_str(), "->", f.map.as_str()),
            version: None,
            valid_from: None,
            valid_to: None,
            source: Some("gnss-pose-interp".to_owned()),
            epoch: Some(p.epoch),
        },
    );
    let chain = Chain { packet_id: p.id, epoch: p.epoch, t: p.t, hops, cov_trace_map: m.cov_trace };
    assert(chain@.hops =~= chain_of(*p, ts@, *f, *m).hops);
    Ok((chain, points))
}

// ---- all packets ------------------------------------------------------------------------------

/// What a derivation has done.
#[derive(Clone, Copy, Debug, PartialEq, Eq, Structural)]
pub struct DeriveStats {
    pub computed: usize,
    pub skipped_complete: usize,
    pub failed: usize,
}

/// The samples of the first `n` packets: of those with a pose that could be read.
pub open spec fn samples(packets: Seq<Packet>, given: Seq<Option<Pose>>, n: int) -> Seq<PoseSample>
    decreases n,
{
    if n <= 0 {
        Seq::empty()
    } else {
        let before = samples(packets, given, n - 1);
        let p = packets[n - 1];
        if p.kind@ == "pose"@ && given[n - 1] is Some {
            before.push(PoseSample { epoch: p.epoch, t: p.t, pose: given[n - 1]->0 })
        } else {
            before
        }
    }
}

/// What a derivation works with: the poses that packets hold, the frames, and what is
/// measured of each packet.
pub struct Inputs {
    pub given: Seq<Option<Pose>>,
    pub frames: Frames,
    pub measured: Seq<Measured>,
}

/// Why a packet of a store gets no block.
pub open spec fn fault_at(s: Store, x: Inputs, i: int) -> Option<Fault> {
    let packets = s.packets@;
    fault_of(
        packets[i],
        samples(packets, x.given, packets.len() as int),
        s.transforms@,
        x.frames,
        x.measured[i],
    )
}

/// Whether `l2` is `l` with the finished block of a packet.
pub open spec fn wrote(l: Store, x: Inputs, i: int, l2: Store) -> bool {
    let p = l.packets@[i];
    let left = store::others(l.blocks@, p.id);
    let b = l2.blocks@.last();
    &&& l2.same_facts(l)
    &&& l2.last_block_id == l.last_block_id + 1
    &&& l2.blocks@.len() == left.len() + 1
    &&& l2.blocks@.drop_last() == left
    &&& b.id == l.last_block_id + 1
    &&& b.packet_id == p.id
    &&& b.status is Complete
    &&& b.chain@ == chain_of(p, l.transforms@, x.frames, x.measured[i])
    &&& b.points@ == x.measured[i].points->Ok_0@
    &&& b.t == p.t
}

/// Whether seeing to one packet leads from one state of affairs to another, where
/// `start` is what the derivation started from.
pub open spec fn stepped(
    start: Store,
    l: Store,
    a: DeriveStats,
    x: Inputs,
    i: int,
    l2: Store,
    b: DeriveStats,
) -> bool {
    let p = start.packets@[i];
    if p.kind@ != "lidar"@ {
        l2 == l && b == a
    } else if start.is_done(p.id) {
        &&& l2 == l
        &&& b.computed == a.computed
        &&& b.skipped_complete == a.skipped_complete + 1
        &&& b.failed == a.failed
    } else if fault_at(start, x, i) is Some {
        &&& l2 == l
        &&& b.computed == a.computed
        &&& b.skipped_complete == a.skipped_complete
        &&& b.failed == a.failed + 1
    } else {
        &&& wrote(l, x, i, l2)
        &&& b.computed == a.computed + 1
        &&& b.skipped_complete == a.skipped_complete
        &&& b.failed == a.failed
    }
}

/// Whether seeing to the first `n` packets in turn leads from a store to another.
pub open spec fn derived(start: Store, x: Inputs, n: int, l2: Store, stats: DeriveStats) -> bool
    decreases n,
{
    if n <= 0 {
        l2 == start && stats == (DeriveStats { computed: 0, skipped_complete: 0, failed: 0 })
    } else {
        exists|l1: Store, s1: DeriveStats|
            derived(start, x, n - 1, l1, s1) && #[trigger] stepped(
                start,
                l1,
                s1,
                x,
                n - 1,
                l2,
                stats,
            )
    }
}

/// Lists the samples of a store's packets.
pub fn pose_samples(packets: &Vec<Packet>, given: &Vec<Option<Pose>>) -> (r: Vec<PoseSample>)
    requires
        given@.len() == packets@.len(),
    ensures
        r@ == samples(packets@, given@, packets@.len() as int),
{
    let mut out: Vec<PoseSample> = Vec::new();
    let mut i: usize = 0;
    assert(out@ =~= samples(packets@, given@, 0));
    while i < packets.len()
        invariant
            i <= packets@.len(),
            given@.len() == packets@.len(),
            out@ == samples(packets@, given@, i as int),
        decreases packets.len() - i,
    {
        let p = &packets[i];
        if text::same(p.kind.as_str(), "pose") {
            match given[i] {
                Some(pose) => {
                    out.push(PoseSample { epoch: p.epoch, t: p.t, pose });
                },
                None => {},
            }
        }
        i += 1;
    }
    out
}

proof fn lemma_samples_in_range(packets: Seq<Packet>, given: Seq<Option<Pose>>, n: int)
    requires
        0 <= n <= packets.len(),
        forall|i: int| 0 <= i < packets.len() ==> time::is_span((#[trigger] packets[i]).t as int),
    ensures
        in_range(samples(packets, given, n)),
    decreases n,
{
    if n > 0 {
        lemma_samples_in_range(packets, given, n - 1);
        assert(time::is_span(packets[n - 1].t as int));
    }
}

/// Derives every lidar packet that has no finished block yet. A packet that cannot be
/// derived is counted and passed over; finished blocks stay as they are.
pub fn compute_missing(
    db: &mut Store,
    given: &Vec<Option<Pose>>,
    frames: &Frames,
    measured: &Vec<Measured>,
) -> (r: DeriveStats)
    requires
        old(db).wf(),
        given@.len() == old(db).packets@.len(),
        measured@.len() == old(db).packets@.len(),
        old(db).last_block_id + old(db).packets@.len() <= i64::MAX,
    ensures
        final(db).wf(),
        final(db).same_facts(*old(db)),
        derived(
            *old(db),
            (Inputs { given: given@, frames: *frames, measured: measured@ }),
            old(db).packets@.len() as int,
            *final(db),
            r,
        ),
{
    let ghost start = *db;
    let ghost x = Inputs { given: given@, frames: *frames, measured: measured@ };
    let poses = pose_samples(&db.packets, given);
    proof {
        store::lemma_times_in_range(*db);
        lemma_samples_in_range(db.packets@, given@, db.packets@.len() as int);
    }
    let done = db.complete_block_packet_ids();
    let n: usize = db.packets.len();
    let mut stats = DeriveStats { computed: 0, skipped_complete: 0, failed: 0 };
    let mut i: usize = 0;
    while i < n
        invariant
            i <= n,
            n == start.packets@.len(),
            start == *old(db),
            x == (Inputs { given: given@, frames: *frames, measured: measured@ }),
            db.wf(),
            db.same_facts(start),
            measured@.len() == n,
            poses@ == samples(start.packets@, given@, n as int),
            in_range(poses@),
            forall|i: int|
                0 <= i < start.packets@.len() ==> time::is_span(
                    (#[trigger] start.packets@[i]).t as int,
                ),
            forall|id: i64| #[trigger] done@.contains(id) <==> start.is_done(id),
            start.last_block_id + n <= i64::MAX,
            db.last_block_id <= start.last_block_id + i,
            stats.computed <= i,
            stats.skipped_complete <= i,
            stats.failed <= i,
            derived(start, x, i as int, *db, stats),
        decreases n - i,
    {
        let ghost l1 = *db;
        let ghost s1 = stats;
        let p = &db.packets[i];
        let id: i64 = p.id;
        assert(start.packets@[i as int] == *p);
        if text::same(p.kind.as_str(), "lidar") {
            if crate::db::has_id(&done, id) {
                stats.skipped_complete = stats.skipped_complete + 1;
            } else {
                let t: Nanos = p.t;
                match compute_one(p, &poses, &db.transforms, frames, &measured[i]) {
                    Ok((chain, points)) => {
                        db.write_block(id, t, chain, points);
                        assert(db.blocks@.drop_last() =~= store::others(l1.blocks@, id));
                        stats.computed = stats.computed + 1;
                    },
                    Err(_) => {
                        stats.failed = stats.failed + 1;
                    },
                }
            }
        }
        assert(stepped(start, l1, s1, x, i as int, *db, stats));
        i += 1;
        assert(derived(start, x, i as int, *db, stats)) by {
            assert(derived(start, x, i - 1, l1, s1));
            assert(stepped(start, l1, s1, x, i - 1, *db, stats));
        }
    }
    stats
}

// ---- what derivations keep to -----------------------------------------------------------------

proof fn lemma_derived(start: Store, x: Inputs, n: int, l2: Store, stats: DeriveStats)
    requires
        start.wf(),
        0 <= n <= start.packets@.len(),
        derived(start, x, n, l2, stats),
    ensures
        l2.same_facts(start),
        forall|b: Block| #[trigger]
            start.blocks@.contains(b) && b.status is Complete ==> l2.blocks@.contains(b),
        forall|i: int|
            0 <= i < n && (#[trigger] start.packets@[i]).kind@ == "lidar"@ && fault_at(start, x, i) is None
                ==> l2.is_done(start.packets@[i].id),
        (forall|i: int|
            0 <= i < n && (#[trigger] start.packets@[i]).kind@ == "lidar"@ && fault_at(
                start,
                x,
                i,
            ) is None ==> start.is_done(start.packets@[i].id)) ==> l2 == start && stats.computed
            == 0,
    decreases n,
{
    if n > 0 {
        let (l1, s1) = choose|l1: Store, s1: DeriveStats|
            derived(start, x, n - 1, l1, s1) && #[trigger] stepped(
                start,
                l1,
                s1,
                x,
                n - 1,
                l2,
                stats,
            );
        lemma_derived(start, x, n - 1, l1, s1);
        let p = start.packets@[n - 1];
        if p.kind@ == "lidar"@ && start.is_done(p.id) {
            let k = choose|k: int|
                0 <= k < start.blocks@.len() && (#[trigger] start.blocks@[k]).packet_id == p.id
                    && start.blocks@[k].status is Complete;
            assert(start.blocks@.contains(start.blocks@[k]));
            let m = choose|m: int|
                0 <= m < l2.blocks@.len() && l2.blocks@[m] == start.blocks@[k];
            assert(l2.blocks@[m].packet_id == p.id);
        } else if p.kind@ == "lidar"@ && fault_at(start, x, n - 1) is None {
            let left = store::others(l1.blocks@, p.id);
            let holds = |b: Block| b.packet_id != p.id;
            crate::db::lemma_filter_keeps_order(l1.blocks@, holds, |a: Block, b: Block| true);
            assert forall|b: Block| l1.blocks@.contains(b) && b.packet_id != p.id implies l2.blocks@.contains(
                b,
            ) by {
                assert(holds(b));
                assert(left.contains(b));
                let k = choose|k: int| 0 <= k < left.len() && left[k] == b;
                assert(l2.blocks@.drop_last()[k] == b);
                assert(l2.blocks@[k] == b);
            }
            let last = l2.blocks@.len() - 1;
            assert(l2.blocks@[last].packet_id == p.id);
            assert(l2.is_done(p.id));
            assert forall|b: Block| #[trigger]
                start.blocks@.contains(b) && b.status is Complete implies l2.blocks@.contains(b) by {
                if b.packet_id == p.id {
                    let k = choose|k: int| 0 <= k < start.blocks@.len() && start.blocks@[k] == b;
                    assert(start.blocks@[k].packet_id == p.id);
                }
                assert(l1.blocks@.contains(b));
            }
            assert forall|i: int|
                0 <= i < n && (#[trigger] start.packets@[i]).kind@ == "lidar"@ && fault_at(
                    start,
                    x,
                    i,
                ) is None implies l2.is_done(start.packets@[i].id) by {
                if i < n - 1 {
                    let id = start.packets@[i].id;
                    assert(l1.is_done(id));
                    let k = choose|k: int|
                        0 <= k < l1.blocks@.len() && (#[trigger] l1.blocks@[k]).packet_id == id
                            && l1.blocks@[k].status is Complete;
                    let b = l1.blocks@[k];
                    assert(l1.blocks@.contains(b));
                    assert(id != p.id);
                    let m = choose|m: int| 0 <= m < l2.blocks@.len() && l2.blocks@[m] == b;
                    assert(l2.blocks@[m].packet_id == id);
                }
            }
        }
    }
}

/// A derivation keeps every finished block as it is, and touches neither packets nor
/// transforms.
pub proof fn law_derivation_keeps_finished_blocks(
    start: Store,
    x: Inputs,
    l2: Store,
    stats: DeriveStats,
)
    requires
        start.wf(),
        derived(start, x, start.packets@.len() as int, l2, stats),
    ensures
        l2.same_facts(start),
        forall|b: Block| #[trigger]
            start.blocks@.contains(b) && b.status is Complete ==> l2.blocks@.contains(b),
{
    lemma_derived(start, x, start.packets@.len() as int, l2, stats);
}

/// After a derivation every lidar packet that can be derived has a finished block.
pub proof fn law_derivation_leaves_nothing_out(
    start: Store,
    x: Inputs,
    l2: Store,
    stats: DeriveStats,
    i: int,
)
    requires
        start.wf(),
        derived(start, x, start.packets@.len() as int, l2, stats),
        0 <= i < start.packets@.len(),
        start.packets@[i].kind@ == "lidar"@,
        fault_at(start, x, i) is None,
    ensures
        l2.is_done(start.packets@[i].id),
{
    lemma_derived(start, x, start.packets@.len() as int, l2, stats);
}

/// Lidar packets.
pub open spec fn is_scan(s: Store) -> spec_fn(int) -> bool {
    |i: int| s.packets@[i].kind@ == "lidar"@
}

/// Lidar packets that have a finished block.
pub open spec fn is_finished(s: Store) -> spec_fn(int) -> bool {
    |i: int| s.packets@[i].kind@ == "lidar"@ && s.is_done(s.packets@[i].id)
}

/// Lidar packets that have no finished block and cannot be derived.
pub open spec fn is_failing(s: Store, x: Inputs) -> spec_fn(int) -> bool {
    |i: int|
        s.packets@[i].kind@ == "lidar"@ && !s.is_done(s.packets@[i].id) && fault_at(
            s,
            x,
            i,
        ) is Some
}

/// Lidar packets that have no finished block and can be derived.
pub open spec fn is_missing(s: Store, x: Inputs) -> spec_fn(int) -> bool {
    |i: int|
        s.packets@[i].kind@ == "lidar"@ && !s.is_done(s.packets@[i].id) && fault_at(
            s,
            x,
            i,
        ) is None
}

proof fn lemma_counts(start: Store, x: Inputs, n: int, l2: Store, stats: DeriveStats)
    requires
        0 <= n <= start.packets@.len(),
        derived(start, x, n, l2, stats),
    ensures
        stats.skipped_complete == rows::count_where(n, is_finished(start)),
        stats.failed == rows::count_where(n, is_failing(start, x)),
        stats.computed == rows::count_where(n, is_missing(start, x)),
    decreases n,
{
    if n > 0 {
        let (l1, s1) = choose|l1: Store, s1: DeriveStats|
            derived(start, x, n - 1, l1, s1) && #[trigger] stepped(
                start,
                l1,
                s1,
                x,
                n - 1,
                l2,
                stats,
            );
        lemma_counts(start, x, n - 1, l1, s1);
        let a = is_finished(start)(n - 1);
        let b = is_failing(start, x)(n - 1);
        let c = is_missing(start, x)(n - 1);
    }
}

proof fn lemma_only_missing_are_written(
    start: Store,
    x: Inputs,
    n: int,
    l2: Store,
    stats: DeriveStats,
    k: int,
)
    requires
        start.wf(),
        0 <= n <= start.packets@.len(),
        derived(start, x, n, l2, stats),
        0 <= k < start.packets@.len(),
        l2.is_done(start.packets@[k].id),
    ensures
        start.is_done(start.packets@[k].id) || is_missing(start, x)(k),
    decreases n,
{
    if n > 0 {
        let (l1, s1) = choose|l1: Store, s1: DeriveStats|
            derived(start, x, n - 1, l1, s1) && #[trigger] stepped(
                start,
                l1,
                s1,
                x,
                n - 1,
                l2,
                stats,
            );
        let p = start.packets@[n - 1];
        let id = start.packets@[k].id;
        lemma_derived(start, x, n - 1, l1, s1);
        if is_missing(start, x)(n - 1) {
            assert(wrote(l1, x, n - 1, l2));
            let holds = |b: Block| b.packet_id != p.id;
            let left = store::others(l1.blocks@, p.id);
            crate::db::lemma_filter_keeps_order(l1.blocks@, holds, |a: Block, b: Block| true);
            if id == p.id {
                assert(k == n - 1);
            } else {
                let m = choose|m: int|
                    0 <= m < l2.blocks@.len() && (#[trigger] l2.blocks@[m]).packet_id == id
                        && l2.blocks@[m].status is Complete;
                assert(m < left.len());
                assert(l2.blocks@.drop_last()[m] == l2.blocks@[m]);
                assert(l1.blocks@.contains(left[m]));
                let j = choose|j: int| 0 <= j < l1.blocks@.len() && l1.blocks@[j] == left[m];
                assert(l1.blocks@[j].packet_id == id);
                assert(l1.is_done(id));
                lemma_only_missing_are_written(start, x, n - 1, l1, s1, k);
            }
        } else {
            assert(l2 == l1);
            lemma_only_missing_are_written(start, x, n - 1, l1, s1, k);
        }
    }
}

/// A derivation counts every lidar packet once: as computed, as skipped or as failed; and
/// a packet that fails gets no block.
pub proof fn law_derivation_counts_every_scan(
    start: Store,
    x: Inputs,
    l2: Store,
    stats: DeriveStats,
)
    requires
        start.wf(),
        derived(start, x, start.packets@.len() as int, l2, stats),
    ensures
        stats.computed + stats.skipped_complete + stats.failed == rows::count_where(
            start.packets@.len() as int,
            is_scan(start),
        ),
        forall|i: int|
            0 <= i < start.packets@.len() && #[trigger] is_failing(start, x)(i) ==> !l2.is_done(
                start.packets@[i].id,
            ),
{
    let n = start.packets@.len() as int;
    lemma_counts(start, x, n, l2, stats);
    let a = is_finished(start);
    let b = is_failing(start, x);
    let c = is_missing(start, x);
    let both = |i: int| b(i) || c(i);
    rows::lemma_count_of_both(n, b, c, both);
    rows::lemma_count_of_both(n, a, both, is_scan(start));
    assert forall|i: int| 0 <= i < n && #[trigger] is_failing(start, x)(i) implies !l2.is_done(
        start.packets@[i].id,
    ) by {
        if l2.is_done(start.packets@[i].id) {
            lemma_only_missing_are_written(start, x, n, l2, stats, i);
        }
    }
}

/// Deriving again with the same inputs computes nothing and changes nothing; it skips what
/// the first run computed or skipped, and fails where the first run failed.
pub proof fn law_second_derivation_computes_nothing(
    start: Store,
    x: Inputs,
    l2: Store,
    stats: DeriveStats,
    l3: Store,
    stats2: DeriveStats,
)
    requires
        start.wf(),
        l2.wf(),
        derived(start, x, start.packets@.len() as int, l2, stats),
        derived(l2, x, l2.packets@.len() as int, l3, stats2),
    ensures
        l3 == l2,
        stats2.computed == 0,
        stats2.skipped_complete == stats.computed + stats.skipped_complete,
        stats2.failed == stats.failed,
{
    lemma_derived(start, x, start.packets@.len() as int, l2, stats);
    assert forall|i: int|
        0 <= i < l2.packets@.len() && (#[trigger] l2.packets@[i]).kind@ == "lidar"@ && fault_at(
            l2,
            x,
            i,
        ) is None implies l2.is_done(l2.packets@[i].id) by {
        assert(fault_at(start, x, i) is None);
        assert(start.packets@[i] == l2.packets@[i]);
    }
    lemma_derived(l2, x, l2.packets@.len() as int, l3, stats2);
    let n = start.packets@.len() as int;
    lemma_counts(start, x, n, l2, stats);
    lemma_counts(l2, x, n, l3, stats2);
    assert forall|i: int| 0 <= i < n implies #[trigger] is_finished(l2)(i) == (is_finished(start)(i)
        || is_missing(start, x)(i)) && !(is_finished(start)(i) && is_missing(start, x)(i)) by {
        let p = start.packets@[i];
        assert(l2.packets@[i] == p);
        if l2.is_done(p.id) {
            lemma_only_missing_are_written(start, x, n, l2, stats, i);
        }
        if start.is_done(p.id) {
            let k = choose|k: int|
                0 <= k < start.blocks@.len() && (#[trigger] start.blocks@[k]).packet_id == p.id
                    && start.blocks@[k].status is Complete;
            assert(start.blocks@.contains(start.blocks@[k]));
            let m = choose|m: int|
                0 <= m < l2.blocks@.len() && l2.blocks@[m] == start.blocks@[k];
            assert(l2.blocks@[m].packet_id == p.id);
        }
    }
    rows::lemma_count_of_both(n, is_finished(start), is_missing(start, x), is_finished(l2));
    assert forall|i: int| 0 <= i < n implies #[trigger] is_failing(l2, x)(i) == is_failing(
        start,
        x,
    )(i) by {
        assert(is_finished(l2)(i) == (is_finished(start)(i) || is_missing(start, x)(i)));
        assert(fault_at(l2, x, i) == fault_at(start, x, i));
    }
    rows::lemma_same_rows(n, is_failing(l2, x), is_failing(start, x));
}

// ---- interpolation and calibration, in plain terms ----------------------------------------------

/// Interpolation skips no sample: every sample of the epoch is at or before the one that a
/// time is interpolated from, or at or after the one that it is interpolated to.
pub proof fn law_interpolation_skips_no_sample(
    poses: Seq<PoseSample>,
    epoch: u32,
    t: int,
    b: int,
    a: int,
    k: int,
)
    requires
        bracket(poses, epoch, t) == Some((b, a)),
        0 <= k < poses.len(),
        poses[k].epoch == epoch,
    ensures
        poses[k].t <= poses[b].t || poses[k].t >= poses[a].t,
        poses[k].t <= t ==> poses[k].t <= poses[b].t,
        poses[k].t >= t ==> poses[k].t >= poses[a].t,
        poses[b].epoch == epoch && poses[a].epoch == epoch,
        poses[b].t <= t <= poses[a].t,
        poses[a].t - poses[b].t <= 200_000_000,
{
    let n = poses.len() as int;
    lemma_before(poses, epoch, t, n);
    lemma_after(poses, epoch, t, n);
    if poses[k].t <= t {
        lemma_nearest(poses, epoch, t, n, k, a);
    }
    if poses[k].t >= t {
        lemma_nearest(poses, epoch, t, n, b, k);
    }
}

/// Whether a time lies between two samples of an epoch, or on one, that are at most a
/// fifth of a second apart.
pub open spec fn lies_between(poses: Seq<PoseSample>, epoch: u32, t: int, i: int, j: int) -> bool {
    &&& 0 <= i < poses.len()
    &&& 0 <= j < poses.len()
    &&& poses[i].epoch == epoch
    &&& poses[j].epoch == epoch
    &&& poses[i].t <= t <= poses[j].t
    &&& poses[j].t - poses[i].t <= 200_000_000
}

/// A time is interpolated where its epoch has two samples at least and it lies between two
/// close ones, and only there.
pub proof fn law_time_is_interpolated_between_close_samples_only(
    poses: Seq<PoseSample>,
    epoch: u32,
    t: int,
)
    ensures
        bracket(poses, epoch, t) is Some <==> {
            &&& exists|p: int, q: int| #![trigger poses[p], poses[q]]
                0 <= p < q < poses.len() && poses[p].epoch == epoch && poses[q].epoch == epoch
            &&& exists|i: int, j: int| #[trigger] lies_between(poses, epoch, t, i, j)
        },
{
    let n = poses.len() as int;
    let mine = of_epoch(poses, epoch);
    let at = rows::all_where(n, mine);
    rows::lemma_all_where(n, mine);
    if at.len() >= 2 {
        assert(mine(at[0]) && mine(at[1]) && at[0] < at[1]);
    }
    if exists|p: int, q: int| #![trigger poses[p], poses[q]]
        0 <= p < q < poses.len() && poses[p].epoch == epoch && poses[q].epoch == epoch {
        let (p, q) = choose|p: int, q: int| #![trigger poses[p], poses[q]]
            0 <= p < q < poses.len() && poses[p].epoch == epoch && poses[q].epoch == epoch;
        assert(mine(p) && mine(q));
        let x = choose|x: int| 0 <= x < at.len() && at[x] == p;
        let y = choose|y: int| 0 <= y < at.len() && at[y] == q;
        assert(x != y);
    }
    lemma_before(poses, epoch, t, n);
    lemma_after(poses, epoch, t, n);
    if bracket(poses, epoch, t) is Some {
        let (b, a) = bracket(poses, epoch, t)->0;
        assert(lies_between(poses, epoch, t, b, a));
    }
    if exists|i: int, j: int| #[trigger] lies_between(poses, epoch, t, i, j) {
        let (i, j) = choose|i: int, j: int| #[trigger] lies_between(poses, epoch, t, i, j);
        lemma_nearest(poses, epoch, t, n, i, j);
    }
}

/// The calibration that is chosen leads from the sensor to the body, has begun by then and
/// has not ended, and has the highest version of all that do; there is none only where
/// none does.
pub proof fn law_calibration_is_the_newest_that_holds(
    ts: Seq<Transform>,
    src: Seq<char>,
    dst: Seq<char>,
    t: int,
    k: int,
)
    requires
        0 <= k < ts.len(),
        ts[k].src@ == src,
        ts[k].dst@ == dst,
        ts[k].valid_from is Some ==> ts[k].valid_from->0 <= t,
        ts[k].valid_to is Some ==> t < ts[k].valid_to->0,
    ensures
        best_at(ts, src, dst, t, ts.len() as int) matches Some(i) && {
            &&& 0 <= i < ts.len()
            &&& ts[i].src@ == src
            &&& ts[i].dst@ == dst
            &&& ts[i].valid_from is Some ==> ts[i].valid_from->0 <= t
            &&& ts[i].valid_to is Some ==> t < ts[i].valid_to->0
            &&& ts[k].version <= ts[i].version
        },
{
    law_newest_valid_version_is_chosen(ts, src, dst, t, ts.len() as int);
    assert(covers(ts[k], src, dst, t));
}

/// A calibration that is chosen holds at its time.
pub proof fn law_chosen_calibration_holds(
    ts: Seq<Transform>,
    src: Seq<char>,
    dst: Seq<char>,
    t: int,
    i: int,
)
    requires
        best_at(ts, src, dst, t, ts.len() as int) == Some(i),
    ensures
        0 <= i < ts.len(),
        ts[i].src@ == src,
        ts[i].dst@ == dst,
        ts[i].valid_from is Some ==> ts[i].valid_from->0 <= t,
        ts[i].valid_to is Some ==> t < ts[i].valid_to->0,
{
    law_newest_valid_version_is_chosen(ts, src, dst, t, ts.len() as int);
}

/// The samples are the poses that could be read, each with the epoch and the time of its
/// packet.
pub proof fn law_samples_are_the_readable_poses(
    packets: Seq<Packet>,
    given: Seq<Option<Pose>>,
    n: int,
    x: PoseSample,
)
    requires
        0 <= n <= packets.len(),
    ensures
        samples(packets, given, n).contains(x) <==> exists|i: int|
            0 <= i < n && (#[trigger] packets[i]).kind@ == "pose"@ && given[i] == Some(x.pose)
                && x.epoch == packets[i].epoch && x.t == packets[i].t,
    decreases n,
{
    if n > 0 {
        law_samples_are_the_readable_poses(packets, given, n - 1, x);
        let before = samples(packets, given, n - 1);
        let after = samples(packets, given, n);
        let p = packets[n - 1];
        if p.kind@ == "pose"@ && given[n - 1] is Some {
            let y = PoseSample { epoch: p.epoch, t: p.t, pose: given[n - 1]->0 };
            assert(after == before.push(y));
            assert(after[before.len() as int] == y);
            if before.contains(x) {
                let k = choose|k: int| 0 <= k < before.len() && before[k] == x;
                assert(after[k] == x);
            }
            if after.contains(x) && x != y {
                let k = choose|k: int| 0 <= k < after.len() && after[k] == x;
                assert(before[k] == x);
            }
        }
    }
}

/// Whether a transform leads from one frame to another and holds at a time.
pub open spec fn is_in_force(e: Transform, src: Seq<char>, dst: Seq<char>, t: int) -> bool {
    &&& e.src@ == src
    &&& e.dst@ == dst
    &&& e.valid_from is Some ==> e.valid_from->0 <= t
    &&& e.valid_to is Some ==> t < e.valid_to->0
}

/// A packet's points can be placed where its unit is a length, its time lies between
/// close samples of its own epoch, and a calibration is in force; and only there.
pub proof fn law_packet_is_placed_where_everything_is_there(
    p: Packet,
    poses: Seq<PoseSample>,
    ts: Seq<Transform>,
    f: Frames,
)
    ensures
        obstacle(p, poses, ts, f) is None <==> {
            &&& p.unit@ == "m"@ || p.unit@ == "cm"@ || p.unit@ == "mm"@
            &&& exists|a: int, b: int| #![trigger poses[a], poses[b]]
                0 <= a < b < poses.len() && poses[a].epoch == p.epoch && poses[b].epoch == p.epoch
            &&& exists|i: int, j: int| #[trigger] lies_between(poses, p.epoch, p.t as int, i, j)
            &&& exists|k: int|
                0 <= k < ts.len() && is_in_force(#[trigger] ts[k], f.sensor@, f.body@, p.t as int)
        },
{
    law_time_is_interpolated_between_close_samples_only(poses, p.epoch, p.t as int);
    law_newest_valid_version_is_chosen(ts, f.sensor@, f.body@, p.t as int, ts.len() as int);
    let best = best_at(ts, f.sensor@, f.body@, p.t as int, ts.len() as int);
    if best is Some {
        assert(is_in_force(ts[best->0], f.sensor@, f.body@, p.t as int));
    } else if exists|k: int|
        0 <= k < ts.len() && is_in_force(#[trigger] ts[k], f.sensor@, f.body@, p.t as int) {
        let k = choose|k: int|
            0 <= k < ts.len() && is_in_force(#[trigger] ts[k], f.sensor@, f.body@, p.t as int);
        assert(covers(ts[k], f.sensor@, f.body@, p.t as int));
    }
}

/// A hundred centimetres and a thousand millimetres make a metre, and no other unit is a
/// length.
pub proof fn law_length_units(unit: Seq<char>)
    ensures
        store::per_metre(unit) matches Some(n) ==> {
            ||| unit == "m"@ && n == 1
            ||| unit == "cm"@ && n == 100
            ||| unit == "mm"@ && n == 1_000
        },
        unit == "m"@ || unit == "cm"@ || unit == "mm"@ ==> store::per_metre(unit) is Some,
{
    reveal_strlit("m");
    reveal_strlit("cm");
    reveal_strlit("mm");
}

/// Whether a block tells of a packet: its points, its time, and a chain of two steps, the
/// first along the newest calibration in force, the second along the pose of the packet's
/// own epoch.
pub open spec fn tells_packet(b: Block, p: Packet, ts: Seq<Transform>, f: Frames, m: Measured) -> bool {
    &&& b.packet_id == p.id
    &&& b.status is Complete
    &&& b.t == p.t
    &&& m.points is Ok
    &&& b.points@ == m.points->Ok_0@
    &&& b.chain@.packet_id == p.id
    &&& b.chain@.epoch == p.epoch
    &&& b.chain@.t == p.t
    &&& b.chain@.cov_trace_map == m.cov_trace
    &&& b.chain@.hops.len() == 2
    &&& b.chain@.hops[0].edge == f.sensor@ + "->"@ + f.body@
    &&& b.chain@.hops[0].source is None
    &&& b.chain@.hops[0].epoch is None
    &&& exists|k: int|
        0 <= k < ts.len() && is_in_force(#[trigger] ts[k], f.sensor@, f.body@, p.t as int)
            && b.chain@.hops[0].version == Some(ts[k].version) && b.chain@.hops[0].valid_from
            == ts[k].valid_from && b.chain@.hops[0].valid_to == ts[k].valid_to && (forall|o: int|
            0 <= o < ts.len() && is_in_force(#[trigger] ts[o], f.sensor@, f.body@, p.t as int)
                ==> ts[o].version <= ts[k].version)
    &&& b.chain@.hops[1].edge == f.body@ + "->"@ + f.map@
    &&& b.chain@.hops[1].version is None
    &&& b.chain@.hops[1].source == Some("gnss-pose-interp"@)
    &&& b.chain@.hops[1].epoch == Some(p.epoch)
}

proof fn lemma_written_block_tells(p: Packet, ts: Seq<Transform>, f: Frames, m: Measured, b: Block)
    requires
        b.packet_id == p.id,
        b.status is Complete,
        b.t == p.t,
        m.points is Ok,
        b.points@ == m.points->Ok_0@,
        b.chain@ == chain_of(p, ts, f, m),
        best_at(ts, f.sensor@, f.body@, p.t as int, ts.len() as int) is Some,
    ensures
        tells_packet(b, p, ts, f, m),
{
    let n = ts.len() as int;
    law_newest_valid_version_is_chosen(ts, f.sensor@, f.body@, p.t as int, n);
    let k = best_at(ts, f.sensor@, f.body@, p.t as int, n)->0;
    assert(is_in_force(ts[k], f.sensor@, f.body@, p.t as int));
    assert forall|o: int|
        0 <= o < ts.len() && is_in_force(
            #[trigger] ts[o],
            f.sensor@,
            f.body@,
            p.t as int,
        ) implies ts[o].version <= ts[k].version by {
        assert(covers(ts[o], f.sensor@, f.body@, p.t as int));
    }
}

proof fn lemma_missing_is_written(
    start: Store,
    x: Inputs,
    n: int,
    l2: Store,
    stats: DeriveStats,
    i: int,
)
    requires
        start.wf(),
        0 <= i < n <= start.packets@.len(),
        derived(start, x, n, l2, stats),
        is_missing(start, x)(i),
    ensures
        exists|b: Block| #[trigger]
            l2.blocks@.contains(b) && tells_packet(
                b,
                start.packets@[i],
                start.transforms@,
                x.frames,
                x.measured[i],
            ),
    decreases n,
{
    let (l1, s1) = choose|l1: Store, s1: DeriveStats|
        derived(start, x, n - 1, l1, s1) && #[trigger] stepped(start, l1, s1, x, n - 1, l2, stats);
    lemma_derived(start, x, n - 1, l1, s1);
    let p = start.packets@[i];
    let q = start.packets@[n - 1];
    if i == n - 1 {
        assert(wrote(l1, x, i, l2));
        let b = l2.blocks@.last();
        lemma_written_block_tells(p, start.transforms@, x.frames, x.measured[i], b);
        assert(l2.blocks@[l2.blocks@.len() - 1] == b);
        assert(l2.blocks@.contains(b));
    } else {
        lemma_missing_is_written(start, x, n - 1, l1, s1, i);
        let b = choose|b: Block| #[trigger]
            l1.blocks@.contains(b) && tells_packet(
                b,
                p,
                start.transforms@,
                x.frames,
                x.measured[i],
            );
        if is_missing(start, x)(n - 1) {
            assert(wrote(l1, x, n - 1, l2));
            let holds = |b: Block| b.packet_id != q.id;
            let left = store::others(l1.blocks@, q.id);
            crate::db::lemma_filter_keeps_order(l1.blocks@, holds, |a: Block, b: Block| true);
            assert(holds(b));
            assert(left.contains(b));
            let k = choose|k: int| 0 <= k < left.len() && left[k] == b;
            assert(l2.blocks@.drop_last()[k] == l2.blocks@[k]);
            assert(l2.blocks@[k] == b);
        } else {
            assert(l2 == l1);
        }
        assert(l2.blocks@.contains(b));
    }
}

/// A derivation gives every lidar packet that had no finished block, and whose points can
/// be placed, a finished block that tells of it.
pub proof fn law_derived_block_tells_of_its_packet(
    start: Store,
    x: Inputs,
    l2: Store,
    stats: DeriveStats,
    i: int,
)
    requires
        start.wf(),
        derived(start, x, start.packets@.len() as int, l2, stats),
        0 <= i < start.packets@.len(),
        start.packets@[i].kind@ == "lidar"@,
        !start.is_done(start.packets@[i].id),
        obstacle(
            start.packets@[i],
            samples(start.packets@, x.given, start.packets@.len() as int),
            start.transforms@,
            x.frames,
        ) is None,
        x.measured[i].points is Ok,
    ensures
        exists|b: Block| #[trigger]
            l2.blocks@.contains(b) && tells_packet(
                b,
                start.packets@[i],
                start.transforms@,
                x.frames,
                x.measured[i],
            ),
{
    assert(is_missing(start, x)(i));
    lemma_missing_is_written(start, x, start.packets@.len() as int, l2, stats, i);
}

/// A plan places a packet's time between two samples of its epoch, no more than two tenths
/// of a second apart, and tells how far into their gap it lies.
pub proof fn law_plan_lies_between_its_samples(
    plan: Plan,
    p: Packet,
    poses: Seq<PoseSample>,
    ts: Seq<Transform>,
    f: Frames,
)
    requires
        is_plan(plan, p, poses, ts, f),
    ensures
        ({
            let a = poses[plan.between.before as int];
            let b = poses[plan.between.after as int];
            &&& a.epoch == p.epoch
            &&& b.epoch == p.epoch
            &&& a.t + plan.between.ahead == p.t
            &&& a.t + plan.between.gap == b.t
            &&& 0 <= plan.between.ahead <= plan.between.gap <= 200_000_000
            &&& is_in_force(ts[plan.calibration as int], f.sensor@, f.body@, p.t as int)
            &&& p.unit@ == "m"@ <==> plan.per_metre == 1
            &&& p.unit@ == "cm"@ <==> plan.per_metre == 100
            &&& p.unit@ == "mm"@ <==> plan.per_metre == 1_000
        }),
{
    law_interpolation_never_crosses_epochs_or_gaps(
        poses,
        p.epoch,
        p.t as int,
        plan.between.before as int,
        plan.between.after as int,
    );
    law_newest_valid_version_is_chosen(ts, f.sensor@, f.body@, p.t as int, ts.len() as int);
    law_length_units(p.unit@);
    reveal_strlit("m");
    reveal_strlit("cm");
    reveal_strlit("mm");
    assert("m"@.len() == 1 && "cm"@[0] == 'c' && "mm"@[0] == 'm');
}

/// A packet gets no block where something stands in its way or its points cannot be read,
/// and only there.
pub proof fn law_when_a_packet_gets_no_block(
    p: Packet,
    poses: Seq<PoseSample>,
    ts: Seq<Transform>,
    f: Frames,
    m: Measured,
)
    ensures
        fault_of(p, poses, ts, f, m) is None <==> obstacle(p, poses, ts, f) is None
            && m.points is Ok,
{
}

/// Of samples at one time the last is interpolated from.
pub proof fn law_last_of_equal_samples_counts(
    poses: Seq<PoseSample>,
    epoch: u32,
    t: int,
    b: int,
    a: int,
    i: int,
)
    requires
        bracket(poses, epoch, t) == Some((b, a)),
        0 <= i < poses.len(),
        poses[i].epoch == epoch,
    ensures
        poses[i].t == poses[b].t ==> i <= b,
        poses[i].t == poses[a].t ==> i <= a,
{
    lemma_last_of_equals(poses, epoch, t, poses.len() as int);
}

proof fn lemma_last_of_equals(poses: Seq<PoseSample>, epoch: u32, t: int, n: int)
    requires
        0 <= n <= poses.len(),
    ensures
        before_of(poses, epoch, t, n) matches Some(b) ==> 0 <= b < n && poses[b].t <= t && forall|
            i: int|
            0 <= i < n && (#[trigger] poses[i]).epoch == epoch && poses[i].t == poses[b].t ==> i
                <= b,
        before_of(poses, epoch, t, n) matches Some(b) ==> forall|i: int|
            0 <= i < n && (#[trigger] poses[i]).epoch == epoch && poses[i].t <= t ==> poses[i].t
                <= poses[b].t,
        before_of(poses, epoch, t, n) is None ==> forall|i: int|
            0 <= i < n && (#[trigger] poses[i]).epoch == epoch ==> poses[i].t > t,
        after_of(poses, epoch, t, n) matches Some(a) ==> 0 <= a < n && poses[a].t >= t && forall|
            i: int|
            0 <= i < n && (#[trigger] poses[i]).epoch == epoch && poses[i].t == poses[a].t ==> i
                <= a,
        after_of(poses, epoch, t, n) matches Some(a) ==> forall|i: int|
            0 <= i < n && (#[trigger] poses[i]).epoch == epoch && poses[i].t >= t ==> poses[i].t
                >= poses[a].t,
        after_of(poses, epoch, t, n) is None ==> forall|i: int|
            0 <= i < n && (#[trigger] poses[i]).epoch == epoch ==> poses[i].t < t,
    decreases n,
{
    if n > 0 {
        lemma_last_of_equals(poses, epoch, t, n - 1);
    }
}

} // verus!
