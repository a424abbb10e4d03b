//! What is shown of the tables: every generation, edge, pose, block and point in a
//! steady order, the gaps that no chain may cross, and one route for each sensor.

use crate::blocks;
use crate::db::{BlockRow, BlockStatus, EdgeRow, GenerationRow, Ledger, PointRow, PoseRow};
use crate::model::{AppError, AppResult, PacketRecord};
use crate::order;
use crate::provenance::{CandidateRoute, ChainHop, Provenance};
use crate::rows;
use crate::scalar::Scalar;
use crate::text;
use crate::time;
use crate::time::Nanos;
use vstd::prelude::*;
use vstd::string::*;

verus! {

// ---- rows as they are shown ----------------------------------------------------------------

#[derive(Clone, Debug)]
pub struct GenView {
    pub id: i64,
    pub device_id: String,
    pub reason: String,
    pub t0: Nanos,
    pub packet_count: usize,
}

#[derive(Clone, Debug)]
pub struct EdgeView {
    pub id: i64,
    pub source: String,
    pub target: String,
    pub version: i64,
    pub valid_from: Option<Nanos>,
    pub valid_to: Option<Nanos>,
    pub origin: String,
    pub sigma_trace: Scalar,
}

#[derive(Clone, Copy, Debug)]
pub struct PoseView {
    pub generation_id: i64,
    pub t: Nanos,
    pub x: Scalar,
    pub y: Scalar,
    pub z: Scalar,
}

#[derive(Clone, Debug)]
pub struct BlockView {
    pub id: i64,
    pub generation_id: i64,
    pub start: Nanos,
    pub end: Nanos,
    pub status: String,
}

#[derive(Clone, Copy, Debug)]
pub struct PointView {
    pub id: i64,
    pub generation_id: i64,
    pub t: Nanos,
    pub x: Option<Scalar>,
    pub y: Option<Scalar>,
    pub z: Option<Scalar>,
    pub aligned: bool,
    pub color_group: i64,
}

/// Whether a packet is of a generation.
pub open spec fn of_generation(packets: Seq<PacketRecord>, gid: i64) -> spec_fn(int) -> bool {
    |i: int| packets[i].generation_id == gid
}

/// Whether a generation is shown as it is, with the number of its packets.
pub open spec fn shows_generation(v: GenView, g: GenerationRow, packets: Seq<PacketRecord>) -> bool {
    &&& v.id == g.id
    &&& v.device_id@ == g.device_id@
    &&& v.reason@ == g.reason@
    &&& v.t0 == g.opened_at
    &&& v.packet_count == rows::count_where(packets.len() as int, of_generation(packets, g.id))
}

/// Whether an edge is shown as it is.
pub open spec fn shows_edge(v: EdgeView, e: EdgeRow) -> bool {
    &&& v.id == e.id
    &&& v.source@ == e.source@
    &&& v.target@ == e.target@
    &&& v.version == e.version
    &&& v.valid_from == e.valid_from
    &&& v.valid_to == e.valid_to
    &&& v.origin@ == e.origin@
    &&& v.sigma_trace == e.sigma_trace
}

/// How a pose is shown.
pub open spec fn pose_view(p: PoseRow) -> PoseView {
    PoseView { generation_id: p.generation_id, t: p.t, x: p.xyz[0], y: p.xyz[1], z: p.xyz[2] }
}

/// The name of a block's status.
pub open spec fn status_name(s: BlockStatus) -> Seq<char> {
    match s {
        BlockStatus::Pending => "pending"@,
        BlockStatus::Complete => "complete"@,
    }
}

/// Whether a block is shown as it is.
pub open spec fn shows_block(v: BlockView, b: BlockRow) -> bool {
    &&& v.id == b.id
    &&& v.generation_id == b.generation_id
    &&& v.start == b.start
    &&& v.end == b.end
    &&& v.status@ == status_name(b.status)
}

/// One coordinate of a position, where there is one.
pub open spec fn coordinate(xyz: Option<[Scalar; 3]>, i: int) -> Option<Scalar> {
    match xyz {
        Some(a) => Some(a[i]),
        None => None,
    }
}

/// How a point is shown; points of one generation have one colour.
pub open spec fn point_view(p: PointRow) -> PointView {
    PointView {
        id: p.id,
        generation_id: p.generation_id,
        t: p.t,
        x: coordinate(p.map_xyz, 0),
        y: coordinate(p.map_xyz, 1),
        z: coordinate(p.map_xyz, 2),
        aligned: p.map_xyz is Some,
        color_group: p.generation_id,
    }
}

/// The order of poses: by generation, then by time.
pub open spec fn pose_order(poses: Seq<PoseRow>) -> Seq<int> {
    order::order_of(
        poses.map_values(|p: PoseRow| order::pair_key(p.generation_id as int, p.t as int)),
    )
}

/// The order of blocks: by generation, then by time.
pub open spec fn block_order(blocks: Seq<BlockRow>) -> Seq<int> {
    order::order_of(
        blocks.map_values(|b: BlockRow| order::pair_key(b.generation_id as int, b.start as int)),
    )
}

/// The order of points: by time, then by id.
pub open spec fn point_order(points: Seq<PointRow>) -> Seq<int> {
    order::order_of(points.map_values(|p: PointRow| order::pair_key(p.t as int, p.id as int)))
}

fn order_poses(poses: &Vec<PoseRow>) -> (r: Vec<usize>)
    ensures
        order::positions(r@) == pose_order(poses@),
        r@.len() == poses@.len(),
        forall|i: int| 0 <= i < r@.len() ==> #[trigger] r@[i] < poses@.len(),
{
    let mut pairs: Vec<(i128, i128)> = Vec::new();
    let mut i: usize = 0;
    while i < poses.len()
        invariant
            i <= poses@.len(),
            pairs@.len() == i,
            forall|k: int|
                0 <= k < i ==> #[trigger] pairs@[k] == (
                    poses@[k].generation_id as i128,
                    poses@[k].t,
                ),
        decreases poses.len() - i,
    {
        pairs.push((poses[i].generation_id as i128, poses[i].t));
        i += 1;
    }
    assert(order::pair_keys(pairs@) =~= poses@.map_values(
        |p: PoseRow| order::pair_key(p.generation_id as int, p.t as int),
    ));
    order::order_by_pairs(&pairs)
}

fn order_blocks(blocks: &Vec<BlockRow>) -> (r: Vec<usize>)
    ensures
        order::positions(r@) == block_order(blocks@),
        r@.len() == blocks@.len(),
        forall|i: int| 0 <= i < r@.len() ==> #[trigger] r@[i] < blocks@.len(),
{
    let mut pairs: Vec<(i128, i128)> = Vec::new();
    let mut i: usize = 0;
    while i < blocks.len()
        invariant
            i <= blocks@.len(),
            pairs@.len() == i,
            forall|k: int|
                0 <= k < i ==> #[trigger] pairs@[k] == (
                    blocks@[k].generation_id as i128,
                    blocks@[k].start,
                ),
        decreases blocks.len() - i,
    {
        pairs.push((blocks[i].generation_id as i128, blocks[i].start));
        i += 1;
    }
    assert(order::pair_keys(pairs@) =~= blocks@.map_values(
        |b: BlockRow| order::pair_key(b.generation_id as int, b.start as int),
    ));
    order::order_by_pairs(&pairs)
}

fn order_points(points: &Vec<PointRow>) -> (r: Vec<usize>)
    ensures
        order::positions(r@) == point_order(points@),
        r@.len() == points@.len(),
        forall|i: int| 0 <= i < r@.len() ==> #[trigger] r@[i] < points@.len(),
{
    let mut pairs: Vec<(i128, i128)> = Vec::new();
    let mut i: usize = 0;
    while i < points.len()
        invariant
            i <= points@.len(),
            pairs@.len() == i,
            forall|k: int|
                0 <= k < i ==> #[trigger] pairs@[k] == (points@[k].t, points@[k].id as i128),
        decreases points.len() - i,
    {
        pairs.push((points[i].t, points[i].id as i128));
        i += 1;
    }
    assert(order::pair_keys(pairs@) =~= points@.map_values(
        |p: PointRow| order::pair_key(p.t as int, p.id as int),
    ));
    order::order_by_pairs(&pairs)
}

fn count_packets(packets: &Vec<PacketRecord>, gid: i64) -> (r: usize)
    ensures
        r == rows::count_where(packets@.len() as int, of_generation(packets@, gid)),
{
    let ghost holds = of_generation(packets@, gid);
    let mut n: usize = 0;
    let mut i: usize = 0;
    while i < packets.len()
        invariant
            i <= packets@.len(),
            holds == of_generation(packets@, gid),
            n == rows::count_where(i as int, holds),
            n <= i,
        decreases packets.len() - i,
    {
        if packets[i].generation_id == gid {
            assert(holds(i as int));
            n += 1;
        } else {
            assert(!holds(i as int));
        }
        i += 1;
    }
    n
}

fn show_generations(db: &Ledger) -> (r: Vec<GenView>)
    ensures
        r@.len() == db.generations@.len(),
        forall|i: int|
            0 <= i < r@.len() ==> shows_generation(
                #[trigger] r@[i],
                db.generations@[i],
                db.packets@,
            ),
{
    let mut out: Vec<GenView> = Vec::new();
    let mut i: usize = 0;
    while i < db.generations.len()
        invariant
            i <= db.generations@.len(),
            out@.len() == i,
            forall|k: int|
                0 <= k < i ==> shows_generation(
                    #[trigger] out@[k],
                    db.generations@[k],
                    db.packets@,
                ),
        decreases db.generations.len() - i,
    {
        let g = &db.generations[i];
        out.push(
            GenView {
                id: g.id,
                device_id: g.device_id.clone(),
                reason: g.reason.clone(),
                t0: g.opened_at,
                packet_count: count_packets(&db.packets, g.id),
            },
        );
        i += 1;
    }
    out
}

fn show_edges(edges: &Vec<EdgeRow>) -> (r: Vec<EdgeView>)
    ensures
        r@.len() == edges@.len(),
        forall|i: int| 0 <= i < r@.len() ==> shows_edge(#[trigger] r@[i], edges@[i]),
{
    let mut out: Vec<EdgeView> = Vec::new();
    let mut i: usize = 0;
    while i < edges.len()
        invariant
            i <= edges@.len(),
            out@.len() == i,
            forall|k: int| 0 <= k < i ==> shows_edge(#[trigger] out@[k], edges@[k]),
        decreases edges.len() - i,
    {
        let e = &edges[i];
        out.push(
            EdgeView {
                id: e.id,
                source: e.source.clone(),
                target: e.target.clone(),
                version: e.version,
                valid_from: e.valid_from,
                valid_to: e.valid_to,
                origin: e.origin.clone(),
                sigma_trace: e.sigma_trace,
            },
        );
        i += 1;
    }
    out
}

fn show_poses(poses: &Vec<PoseRow>) -> (r: Vec<PoseView>)
    ensures
        r@ == pose_order(poses@).map_values(|i: int| pose_view(poses@[i])),
{
    let at = order_poses(poses);
    let ghost av = order::positions(at@);
    let mut out: Vec<PoseView> = Vec::new();
    let mut i: usize = 0;
    while i < at.len()
        invariant
            i <= at@.len(),
            av == order::positions(at@),
            forall|k: int| 0 <= k < at@.len() ==> #[trigger] at@[k] < poses@.len(),
            out@.len() == i,
            forall|k: int| 0 <= k < i ==> #[trigger] out@[k] == pose_view(poses@[av[k]]),
        decreases at.len() - i,
    {
        let p = &poses[at[i]];
        out.push(
            PoseView {
                generation_id: p.generation_id,
                t: p.t,
                x: p.xyz[0],
                y: p.xyz[1],
                z: p.xyz[2],
            },
        );
        i += 1;
    }
    assert(out@ =~= av.map_values(|i: int| pose_view(poses@[i])));
    out
}

fn show_blocks(blocks: &Vec<BlockRow>) -> (r: Vec<BlockView>)
    ensures
        r@.len() == blocks@.len(),
        forall|i: int|
            0 <= i < r@.len() ==> shows_block(
                #[trigger] r@[i],
                blocks@[block_order(blocks@)[i]],
            ),
{
    let at = order_blocks(blocks);
    let ghost av = order::positions(at@);
    let mut out: Vec<BlockView> = Vec::new();
    let mut i: usize = 0;
    while i < at.len()
        invariant
            i <= at@.len(),
            av == order::positions(at@),
            forall|k: int| 0 <= k < at@.len() ==> #[trigger] at@[k] < blocks@.len(),
            out@.len() == i,
            forall|k: int| 0 <= k < i ==> shows_block(#[trigger] out@[k], blocks@[av[k]]),
        decreases at.len() - i,
    {
        let b = &blocks[at[i]];
        let status = match b.status {
            BlockStatus::Pending => "pending",
            BlockStatus::Complete => "complete",
        };
        out.push(
            BlockView {
                id: b.id,
                generation_id: b.generation_id,
                start: b.start,
                end: b.end,
                status: status.to_owned(),
            },
        );
        i += 1;
    }
    out
}

fn show_points(points: &Vec<PointRow>) -> (r: Vec<PointView>)
    ensures
        r@ == point_order(points@).map_values(|i: int| point_view(points@[i])),
{
    let at = order_points(points);
    let ghost av = order::positions(at@);
    let mut out: Vec<PointView> = Vec::new();
    let mut i: usize = 0;
    while i < at.len()
        invariant
            i <= at@.len(),
            av == order::positions(at@),
            forall|k: int| 0 <= k < at@.len() ==> #[trigger] at@[k] < points@.len(),
            out@.len() == i,
            forall|k: int| 0 <= k < i ==> #[trigger] out@[k] == point_view(points@[av[k]]),
        decreases at.len() - i,
    {
        let p = &points[at[i]];
        let (x, y, z, aligned): (Option<Scalar>, Option<Scalar>, Option<Scalar>, bool) =
            match p.map_xyz {
            Some(a) => (Some(a[0]), Some(a[1]), Some(a[2]), true),
            None => (None, None, None, false),
        };
        out.push(
            PointView {
                id: p.id,
                generation_id: p.generation_id,
                t: p.t,
                x,
                y,
                z,
                aligned,
                color_group: p.generation_id,
            },
        );
        i += 1;
    }
    assert(out@ =~= av.map_values(|i: int| point_view(points@[i])));
    out
}

// ---- gaps ---------------------------------------------------------------------------------

/// A stretch of time that no chain may cross.
#[derive(Clone, Debug)]
pub struct GapView {
    pub generation_id: i64,
    pub from_t: Nanos,
    pub to_t: Nanos,
    pub seconds: Nanos,
    pub kind: String,
}

/// What a gap stands for.
pub struct GapValue {
    pub generation_id: int,
    pub from_t: int,
    pub to_t: int,
    pub seconds: int,
    pub kind: Seq<char>,
}

impl View for GapView {
    type V = GapValue;

    open spec fn view(&self) -> GapValue {
        GapValue {
            generation_id: self.generation_id as int,
            from_t: self.from_t as int,
            to_t: self.to_t as int,
            seconds: self.seconds as int,
            kind: self.kind@,
        }
    }
}

/// What a list of gaps stands for.
pub open spec fn gap_values(g: Seq<GapView>) -> Seq<GapValue> {
    g.map_values(|x: GapView| x@)
}

/// A gap between two times.
pub open spec fn gap(gid: int, from: int, to: int, kind: Seq<char>) -> GapValue {
    GapValue { generation_id: gid, from_t: from, to_t: to, seconds: to - from, kind }
}

/// The gaps between poses next to each other, within one generation, that are too wide
/// to be interpolated across, among the first `n` poses in order.
pub open spec fn pose_gaps(poses: Seq<PoseRow>, at: Seq<int>, n: int) -> Seq<GapValue>
    decreases n,
{
    if n <= 1 {
        Seq::empty()
    } else {
        let before = pose_gaps(poses, at, n - 1);
        let a = poses[at[n - 2]];
        let b = poses[at[n - 1]];
        if a.generation_id == b.generation_id && b.t - a.t > blocks::MAX_INTERP_GAP {
            before.push(gap(b.generation_id as int, a.t as int, b.t as int, "pose_gap"@))
        } else {
            before
        }
    }
}

/// When a generation's first packet was taken.
pub open spec fn begins(l: Ledger, g: int) -> int {
    blocks::first_time(
        l.packets@,
        l.generations@[g].id as int,
        l.packets@.len() as int,
    )->0
}

/// When a generation's last packet was taken.
pub open spec fn ends(l: Ledger, g: int) -> int {
    blocks::last_time(l.packets@, l.generations@[g].id as int, l.packets@.len() as int)->0
}

/// The order of generations: by the time of their first packets.
pub open spec fn generation_order(l: Ledger) -> Seq<int> {
    order::order_of(
        Seq::new(l.generations@.len(), |g: int| order::pair_key(begins(l, g), g + 1)),
    )
}

/// The boundaries between generations next to each other, among the first `n` in order.
pub open spec fn boundaries(l: Ledger, at: Seq<int>, n: int) -> Seq<GapValue>
    decreases n,
{
    if n <= 1 {
        Seq::empty()
    } else {
        boundaries(l, at, n - 1).push(
            gap(
                l.generations@[at[n - 1]].id as int,
                ends(l, at[n - 2]),
                begins(l, at[n - 1]),
                "generation_boundary"@,
            ),
        )
    }
}

/// Gaps by the time that they start at; those that start together keep their order.
pub open spec fn gaps_in_order(g: Seq<GapValue>) -> Seq<GapValue> {
    order::order_of(g.map_values(|x: GapValue| order::pair_key(x.from_t, 0))).map_values(
        |i: int| g[i],
    )
}

/// Every gap: between poses, and between generations.
pub open spec fn all_gaps(l: Ledger) -> Seq<GapValue> {
    let poses = pose_order(l.poses@);
    let gens = generation_order(l);
    gaps_in_order(
        pose_gaps(l.poses@, poses, poses.len() as int) + boundaries(l, gens, gens.len() as int),
    )
}

fn copy_gap(g: &GapView) -> (r: GapView)
    ensures
        r@ == g@,
{
    GapView {
        generation_id: g.generation_id,
        from_t: g.from_t,
        to_t: g.to_t,
        seconds: g.seconds,
        kind: g.kind.clone(),
    }
}

fn list_pose_gaps(db: &Ledger, out: &mut Vec<GapView>)
    requires
        db.wf(),
        old(out)@.len() == 0,
    ensures
        gap_values(final(out)@) == pose_gaps(
            db.poses@,
            pose_order(db.poses@),
            pose_order(db.poses@).len() as int,
        ),
{
    let at = order_poses(&db.poses);
    let ghost av = order::positions(at@);
    let mut i: usize = 1;
    assert(gap_values(out@) =~= pose_gaps(db.poses@, av, 1));
    if at.len() == 0 {
        return ;
    }
    while i < at.len()
        invariant
            1 <= i <= at@.len(),
            db.wf(),
            av == order::positions(at@),
            forall|k: int| 0 <= k < at@.len() ==> #[trigger] at@[k] < db.poses@.len(),
            gap_values(out@) == pose_gaps(db.poses@, av, i as int),
        decreases at.len() - i,
    {
        assert(at@[i - 1] < db.poses@.len() && at@[i as int] < db.poses@.len());
        let a = &db.poses[at[i - 1]];
        let b = &db.poses[at[i]];
        assert(time::is_span(a.t as int) && time::is_span(b.t as int));
        let ghost before = out@;
        if a.generation_id == b.generation_id && b.t - a.t > blocks::MAX_INTERP_GAP {
            out.push(
                GapView {
                    generation_id: b.generation_id,
                    from_t: a.t,
                    to_t: b.t,
                    seconds: b.t - a.t,
                    kind: "pose_gap".to_owned(),
                },
            );
            assert(gap_values(out@) =~= gap_values(before).push(out@.last()@));
        }
        i += 1;
    }
}

proof fn lemma_range(l: Ledger, gid: i64, n: int)
    requires
        l.wf(),
        0 <= n <= l.packets@.len(),
    ensures
        (exists|i: int|
            0 <= i < n && (#[trigger] l.packets@[i]).generation_id == gid) ==> blocks::first_time(
            l.packets@,
            gid as int,
            n,
        ) is Some && blocks::last_time(l.packets@, gid as int, n) is Some,
        blocks::first_time(l.packets@, gid as int, n) is Some ==> time::is_span(
            blocks::first_time(l.packets@, gid as int, n)->0,
        ),
        blocks::last_time(l.packets@, gid as int, n) is Some ==> time::is_span(
            blocks::last_time(l.packets@, gid as int, n)->0,
        ),
    decreases n,
{
    if n > 0 {
        lemma_range(l, gid, n - 1);
        assert(time::is_span(l.packets@[n - 1].continuous_time as int));
    }
}

fn list_boundaries(db: &Ledger, out: &mut Vec<GapView>)
    requires
        db.wf(),
    ensures
        gap_values(final(out)@) == gap_values(old(out)@) + boundaries(
            *db,
            generation_order(*db),
            generation_order(*db).len() as int,
        ),
{
    let ghost start = gap_values(out@);
    let mut ranges: Vec<(Nanos, Nanos)> = Vec::new();
    let mut pairs: Vec<(i128, i128)> = Vec::new();
    let mut g: usize = 0;
    while g < db.generations.len()
        invariant
            g <= db.generations@.len(),
            db.wf(),
            ranges@.len() == g,
            pairs@.len() == g,
            forall|k: int|
                0 <= k < g ==> {
                    &&& (#[trigger] ranges@[k]).0 == begins(*db, k)
                    &&& ranges@[k].1 == ends(*db, k)
                    &&& time::is_span(ranges@[k].0 as int)
                    &&& time::is_span(ranges@[k].1 as int)
                },
            forall|k: int|
                0 <= k < g ==> #[trigger] pairs@[k].0 == begins(*db, k) && pairs@[k].1 == k + 1,
        decreases db.generations.len() - g,
    {
        let id: i64 = db.generations[g].id;
        proof {
            assert(crate::db::has_packet(db.packets@, db.generations@[g as int].id));
            lemma_range(*db, id, db.packets@.len() as int);
        }
        match blocks::time_range(&db.packets, id) {
            Some((lo, hi)) => {
                ranges.push((lo, hi));
                pairs.push((lo, g as i128 + 1));
            },
            None => {},
        }
        g += 1;
    }
    assert(order::pair_keys(pairs@) =~= Seq::new(
        db.generations@.len(),
        |g: int| order::pair_key(begins(*db, g), g + 1),
    ));
    let at = order::order_by_pairs(&pairs);
    let ghost av = order::positions(at@);
    let mut i: usize = 1;
    assert(gap_values(out@) =~= start + boundaries(*db, av, 1));
    if at.len() == 0 {
        return ;
    }
    while i < at.len()
        invariant
            1 <= i <= at@.len(),
            db.wf(),
            av == order::positions(at@),
            ranges@.len() == db.generations@.len(),
            forall|k: int| 0 <= k < at@.len() ==> #[trigger] at@[k] < db.generations@.len(),
            forall|k: int|
                0 <= k < ranges@.len() ==> {
                    &&& (#[trigger] ranges@[k]).0 == begins(*db, k)
                    &&& ranges@[k].1 == ends(*db, k)
                    &&& time::is_span(ranges@[k].0 as int)
                    &&& time::is_span(ranges@[k].1 as int)
                },
            gap_values(out@) == start + boundaries(*db, av, i as int),
        decreases at.len() - i,
    {
        let a: usize = at[i - 1];
        let b: usize = at[i];
        assert(a == av[i - 1] && b == av[i as int]);
        let (lo, _): (Nanos, Nanos) = ranges[b];
        let (_, hi): (Nanos, Nanos) = ranges[a];
        let ghost before = out@;
        out.push(
            GapView {
                generation_id: db.generations[b].id,
                from_t: hi,
                to_t: lo,
                seconds: lo - hi,
                kind: "generation_boundary".to_owned(),
            },
        );
        assert(gap_values(out@) =~= gap_values(before).push(out@.last()@));
        i += 1;
        assert(gap_values(out@) =~= start + boundaries(*db, av, i as int));
    }
}

/// Lists every gap, by the time that it starts at.
pub fn compute_gaps(db: &Ledger) -> (r: Vec<GapView>)
    requires
        db.wf(),
    ensures
        gap_values(r@) == all_gaps(*db),
{
    let mut found: Vec<GapView> = Vec::new();
    list_pose_gaps(db, &mut found);
    list_boundaries(db, &mut found);
    let ghost fv = gap_values(found@);
    let mut pairs: Vec<(i128, i128)> = Vec::new();
    let mut i: usize = 0;
    while i < found.len()
        invariant
            i <= found@.len(),
            pairs@.len() == i,
            forall|k: int| 0 <= k < i ==> #[trigger] pairs@[k] == (found@[k].from_t, 0i128),
        decreases found.len() - i,
    {
        pairs.push((found[i].from_t, 0));
        i += 1;
    }
    assert(order::pair_keys(pairs@) =~= fv.map_values(
        |x: GapValue| order::pair_key(x.from_t, 0),
    ));
    let at = order::order_by_pairs(&pairs);
    let ghost av = order::positions(at@);
    let mut out: Vec<GapView> = Vec::new();
    let mut k: usize = 0;
    while k < at.len()
        invariant
            k <= at@.len(),
            av == order::positions(at@),
            fv == gap_values(found@),
            forall|j: int| 0 <= j < at@.len() ==> #[trigger] at@[j] < found@.len(),
            out@.len() == k,
            forall|j: int| 0 <= j < k ==> (#[trigger] out@[j])@ == fv[av[j]],
        decreases at.len() - k,
    {
        out.push(copy_gap(&found[at[k]]));
        k += 1;
    }
    assert(gap_values(out@) =~= av.map_values(|i: int| fv[i]));
    out
}

/// What is known of two poses that are next to each other in order.
proof fn lemma_pose_order(poses: Seq<PoseRow>)
    ensures
        ({
            let at = pose_order(poses);
            &&& at.len() == poses.len()
            &&& forall|i: int| 0 <= i < at.len() ==> 0 <= #[trigger] at[i] < poses.len()
            &&& forall|x: int| 0 <= x < poses.len() ==> #[trigger] at.contains(x)
            &&& forall|i: int, j: int| #![trigger at[i], at[j]]
                0 <= i < j < at.len() ==> {
                    let a = poses[at[i]];
                    let b = poses[at[j]];
                    a.generation_id < b.generation_id || (a.generation_id == b.generation_id && (
                    a.t < b.t || (a.t == b.t && at[i] < at[j])))
                }
        }),
{
    let keys = poses.map_values(
        |p: PoseRow| order::pair_key(p.generation_id as int, p.t as int),
    );
    let at = pose_order(poses);
    order::law_order_is_unique(keys, at);
    assert forall|i: int, j: int| #![trigger at[i], at[j]]
        0 <= i < j < at.len() implies ({
        let a = poses[at[i]];
        let b = poses[at[j]];
        a.generation_id < b.generation_id || (a.generation_id == b.generation_id && (a.t < b.t || (
        a.t == b.t && at[i] < at[j])))
    }) by {
        let a = poses[at[i]];
        let b = poses[at[j]];
        assert(order::precedes(keys, at[i], at[j]));
        order::lemma_pair_key_before(
            a.generation_id as int,
            a.t as int,
            b.generation_id as int,
            b.t as int,
        );
    }
}

proof fn lemma_pose_gaps(poses: Seq<PoseRow>, at: Seq<int>, n: int, g: GapValue)
    requires
        0 <= n <= at.len(),
    ensures
        pose_gaps(poses, at, n).contains(g) <==> exists|k: int|
            0 <= k && k + 1 < n && is_pose_gap(poses, at, #[trigger] spot(k), g),
    decreases n,
{
    let now = pose_gaps(poses, at, n);
    if n > 1 {
        lemma_pose_gaps(poses, at, n - 1, g);
        let before = pose_gaps(poses, at, n - 1);
        if now.contains(g) {
            let i = choose|i: int| 0 <= i < now.len() && now[i] == g;
            if i < before.len() {
                assert(before[i] == g);
                assert(before.contains(g));
            } else {
                assert(is_pose_gap(poses, at, spot(n - 2), g));
            }
        }
        if exists|k: int| 0 <= k && k + 1 < n && is_pose_gap(poses, at, #[trigger] spot(k), g) {
            let k = choose|k: int|
                0 <= k && k + 1 < n && is_pose_gap(poses, at, #[trigger] spot(k), g);
            if k + 1 < n - 1 {
                assert(before.contains(g));
                let i = choose|i: int| 0 <= i < before.len() && before[i] == g;
                assert(now[i] == g);
            } else {
                assert(now[before.len() as int] == g);
            }
        }
    }
}

spec fn spot(k: int) -> int {
    k
}

spec fn is_pose_gap(poses: Seq<PoseRow>, at: Seq<int>, k: int, g: GapValue) -> bool {
    let a = poses[at[k]];
    let b = poses[at[k + 1]];
    &&& a.generation_id == b.generation_id
    &&& b.t - a.t > blocks::MAX_INTERP_GAP
    &&& g == gap(b.generation_id as int, a.t as int, b.t as int, "pose_gap"@)
}

proof fn lemma_boundary_kind(l: Ledger, at: Seq<int>, n: int)
    ensures
        forall|i: int|
            0 <= i < boundaries(l, at, n).len() ==> (#[trigger] boundaries(l, at, n)[i]).kind
                == "generation_boundary"@,
    decreases n,
{
    if n > 1 {
        lemma_boundary_kind(l, at, n - 1);
        let before = boundaries(l, at, n - 1);
        let now = boundaries(l, at, n);
        assert forall|i: int| 0 <= i < now.len() implies (#[trigger] now[i]).kind
            == "generation_boundary"@ by {
            if i < before.len() {
                assert(now[i] == before[i]);
            }
        }
    }
}

proof fn lemma_gap_listed(l: Ledger, g: GapValue)
    ensures
        ({
            let at = pose_order(l.poses@);
            g.kind == "pose_gap"@ ==> (all_gaps(l).contains(g) <==> pose_gaps(
                l.poses@,
                at,
                at.len() as int,
            ).contains(g))
        }),
{
    let at = pose_order(l.poses@);
    let gens = generation_order(l);
    let first = pose_gaps(l.poses@, at, at.len() as int);
    let second = boundaries(l, gens, gens.len() as int);
    let both = first + second;
    let keys = both.map_values(|x: GapValue| order::pair_key(x.from_t, 0));
    let o = order::order_of(keys);
    order::law_order_is_unique(keys, o);
    lemma_boundary_kind(l, gens, gens.len() as int);
    reveal_strlit("pose_gap");
    reveal_strlit("generation_boundary");
    if g.kind == "pose_gap"@ {
        if all_gaps(l).contains(g) {
            let i = choose|i: int| 0 <= i < all_gaps(l).len() && all_gaps(l)[i] == g;
            assert(both[o[i]] == g);
            if o[i] >= first.len() {
                assert(second[o[i] - first.len()].kind == "generation_boundary"@);
                assert(g.kind.len() == 8);
            }
            assert(first[o[i]] == g);
        }
        if first.contains(g) {
            let i = choose|i: int| 0 <= i < first.len() && first[i] == g;
            assert(both[i] == g);
            assert(o.contains(i));
            let k = choose|k: int| 0 <= k < o.len() && o[k] == i;
            assert(all_gaps(l)[k] == g);
        }
    }
}

/// No pose is interpolated inside a gap between poses: the gap is given as the reason.
pub proof fn law_no_pose_is_interpolated_inside_a_gap(l: Ledger, g: GapValue, t: int)
    requires
        l.wf(),
        all_gaps(l).contains(g),
        g.kind == "pose_gap"@,
        g.from_t < t < g.to_t,
    ensures
        blocks::bracket(l.poses@, g.generation_id, t) == Err::<(int, int), Seq<char>>(
            "pose gap exceeds allowed interpolation interval"@,
        ),
{
    let poses = l.poses@;
    let at = pose_order(poses);
    let n = poses.len() as int;
    lemma_gap_listed(l, g);
    lemma_pose_gaps(poses, at, at.len() as int, g);
    lemma_pose_order(poses);
    let k = choose|k: int|
        0 <= k && k + 1 < at.len() && is_pose_gap(poses, at, #[trigger] spot(k), g);
    let a = at[k];
    let b = at[k + 1];
    let gid = g.generation_id;
    assert forall|i: int|
        0 <= i < n && (#[trigger] poses[i]).generation_id == gid implies poses[i].t
        <= poses[a].t || poses[i].t >= poses[b].t by {
        assert(at.contains(i));
        let p = choose|p: int| 0 <= p < at.len() && at[p] == i;
        if p < k {
            assert(at[p] == i && at[k] == a);
        } else if p > k + 1 {
            assert(at[p] == i && at[k + 1] == b);
        }
    }
    blocks::lemma_left(poses, gid, t, n);
    blocks::lemma_right(poses, gid, t, n);
    assert(poses[a].t <= t && poses[b].t >= t);
    let left = blocks::left_of(poses, gid, t, n)->0;
    let right = blocks::right_of(poses, gid, t, n)->0;
    assert(poses[left].t == poses[a].t && poses[right].t == poses[b].t);
    if left < right {
        assert(poses[left].packet_id != poses[right].packet_id);
    } else {
        assert(poses[right].packet_id != poses[left].packet_id);
    }
}

/// Where the width of a gap keeps a pose from being interpolated, that gap is listed.
pub proof fn law_every_gap_that_forbids_interpolation_is_listed(l: Ledger, gid: int, t: int)
    requires
        blocks::bracket(l.poses@, gid, t) == Err::<(int, int), Seq<char>>(
            "pose gap exceeds allowed interpolation interval"@,
        ),
    ensures
        exists|g: GapValue| #[trigger]
            all_gaps(l).contains(g) && g.kind == "pose_gap"@ && g.generation_id == gid && g.from_t
                <= t <= g.to_t,
{
    let poses = l.poses@;
    let at = pose_order(poses);
    let n = poses.len() as int;
    reveal_strlit("pose gap exceeds allowed interpolation interval");
    reveal_strlit("no pose at or before time (new generation edge?)");
    reveal_strlit("no pose at or after time");
    reveal_strlit("degenerate pose interval");
    let wide = "pose gap exceeds allowed interpolation interval"@;
    assert(wide.len() == 47);
    assert("no pose at or before time (new generation edge?)"@.len() == 48);
    assert("no pose at or after time"@.len() == 24);
    assert("degenerate pose interval"@.len() == 24);
    lemma_pose_order(poses);
    blocks::lemma_left(poses, gid, t, n);
    blocks::lemma_right(poses, gid, t, n);
    let left = blocks::left_of(poses, gid, t, n)->0;
    let right = blocks::right_of(poses, gid, t, n)->0;
    assert(poses[right].t - poses[left].t > blocks::MAX_INTERP_GAP);
    assert(at.contains(left) && at.contains(right));
    let k = choose|k: int| 0 <= k < at.len() && at[k] == left;
    let m = choose|m: int| 0 <= m < at.len() && at[m] == right;
    assert(k < m);
    if k + 1 < m {
        let x = at[k + 1];
        assert(at[k] == left && at[m] == right && at[k + 1] == x);
        assert(poses[x].generation_id == gid);
        assert(poses[x].t <= t || poses[x].t >= t);
    }
    assert(m == k + 1);
    let g = gap(gid, poses[left].t as int, poses[right].t as int, "pose_gap"@);
    assert(is_pose_gap(poses, at, spot(k), g));
    lemma_pose_gaps(poses, at, at.len() as int, g);
    lemma_gap_listed(l, g);
    assert(all_gaps(l).contains(g));
}

// ---- routes -------------------------------------------------------------------------------

/// The route by which the points of one sensor were placed in the map.
#[derive(Clone, Debug)]
pub struct RouteSummary {
    pub sensor: String,
    pub t: Nanos,
    pub selected: Vec<String>,
    pub cost: Scalar,
    pub candidates: Vec<CandidateRoute>,
}

/// The texts of a list.
pub open spec fn texts(v: Seq<String>) -> Seq<Seq<char>> {
    v.map_values(|s: String| s@)
}

/// Whether a candidate is the same as another.
pub open spec fn same_candidate(a: CandidateRoute, b: CandidateRoute) -> bool {
    &&& texts(a.frames@) == texts(b.frames@)
    &&& a.precision_cost == b.precision_cost
    &&& a.version_score == b.version_score
    &&& a.selected == b.selected
    &&& a.reason@ == b.reason@
}

/// The frames that a chain goes through: where it starts, then where each hop leads.
pub open spec fn frame_order(chain: Seq<ChainHop>) -> Seq<Seq<char>> {
    if chain.len() == 0 {
        Seq::empty()
    } else {
        seq![chain[0].from@] + chain.map_values(|h: ChainHop| h.to@)
    }
}

/// The cost of the first candidate that was selected, or zero.
pub open spec fn selected_cost(candidates: Seq<CandidateRoute>) -> Scalar {
    match rows::first_where(candidates.len() as int, |i: int| candidates[i].selected) {
        Some(i) => candidates[i].precision_cost,
        None => Scalar { bits: 0 },
    }
}

/// Whether a point is aligned and no aligned point before it, in order, is of its sensor.
pub open spec fn first_of_sensor(points: Seq<PointRow>, at: Seq<int>) -> spec_fn(int) -> bool {
    |k: int|
        points[at[k]].map_xyz is Some && forall|j: int|
            0 <= j < k && (#[trigger] points[at[j]]).map_xyz is Some ==> sensor_of(points[at[j]])
                != sensor_of(points[at[k]])
}

/// The sensor that a point came from.
pub open spec fn sensor_of(p: PointRow) -> Seq<char> {
    p.provenance.point.coord_frame@
}

/// Whether a summary tells the route of a point.
pub open spec fn summarizes(s: RouteSummary, p: PointRow) -> bool {
    let chain = p.provenance.chain@;
    let candidates = p.provenance.candidates@;
    &&& s.sensor@ == sensor_of(p)
    &&& s.t == p.t
    &&& texts(s.selected@) == if chain.len() == 0 {
        seq![sensor_of(p), "map"@]
    } else {
        frame_order(chain)
    }
    &&& s.cost == selected_cost(candidates)
    &&& s.candidates@.len() == candidates.len()
    &&& forall|i: int|
        0 <= i < candidates.len() ==> same_candidate(#[trigger] s.candidates@[i], candidates[i])
}

/// The points, by position, that stand for their sensors.
pub open spec fn representatives(points: Seq<PointRow>) -> Seq<int> {
    let at = point_order(points);
    rows::all_where(at.len() as int, first_of_sensor(points, at)).map_values(|k: int| at[k])
}

/// The frames that a chain goes through.
pub fn rebuild_frame_order(prov: &Provenance) -> (r: Vec<String>)
    ensures
        texts(r@) == frame_order(prov.chain@),
{
    let ghost chain = prov.chain@;
    let mut f: Vec<String> = Vec::new();
    if prov.chain.len() == 0 {
        assert(texts(f@) =~= frame_order(chain));
        return f;
    }
    f.push(prov.chain[0].from.clone());
    let mut i: usize = 0;
    while i < prov.chain.len()
        invariant
            i <= prov.chain@.len(),
            chain == prov.chain@,
            0 < chain.len(),
            f@.len() == i + 1,
            f@[0]@ == chain[0].from@,
            forall|k: int| 0 <= k < i ==> #[trigger] f@[k + 1]@ == chain[k].to@,
        decreases prov.chain.len() - i,
    {
        f.push(prov.chain[i].to.clone());
        i += 1;
    }
    assert forall|k: int| 0 <= k < f@.len() implies #[trigger] texts(f@)[k] == frame_order(
        chain,
    )[k] by {
        if k > 0 {
            assert(f@[(k - 1) + 1]@ == chain[k - 1].to@);
        }
    }
    assert(texts(f@) =~= frame_order(chain));
    f
}

fn copy_candidate(c: &CandidateRoute) -> (r: CandidateRoute)
    ensures
        same_candidate(r, *c),
{
    let mut frames: Vec<String> = Vec::new();
    let mut i: usize = 0;
    while i < c.frames.len()
        invariant
            i <= c.frames@.len(),
            frames@.len() == i,
            forall|k: int| 0 <= k < i ==> (#[trigger] frames@[k])@ == c.frames@[k]@,
        decreases c.frames.len() - i,
    {
        frames.push(c.frames[i].clone());
        i += 1;
    }
    assert(texts(frames@) =~= texts(c.frames@));
    CandidateRoute {
        frames,
        precision_cost: c.precision_cost,
        version_score: c.version_score,
        selected: c.selected,
        reason: c.reason.clone(),
    }
}

fn find_cost(candidates: &Vec<CandidateRoute>) -> (r: Scalar)
    ensures
        r == selected_cost(candidates@),
{
    let ghost holds = |i: int| candidates@[i].selected;
    let mut i: usize = 0;
    while i < candidates.len()
        invariant
            i <= candidates@.len(),
            holds == (|i: int| candidates@[i].selected),
            forall|k: int| 0 <= k < i ==> !#[trigger] holds(k),
        decreases candidates.len() - i,
    {
        if candidates[i].selected {
            proof {
                assert(holds(i as int));
                rows::lemma_first_is(candidates@.len() as int, holds, i as int);
            }
            return candidates[i].precision_cost;
        }
        assert(!holds(i as int));
        i += 1;
    }
    proof {
        rows::lemma_first_where(candidates@.len() as int, holds);
    }
    Scalar { bits: 0 }
}

fn summarize(p: &PointRow) -> (r: RouteSummary)
    ensures
        summarizes(r, *p),
{
    let prov = &p.provenance;
    let sensor = prov.point.coord_frame.clone();
    let selected = if prov.chain.len() == 0 {
        let mut f: Vec<String> = Vec::new();
        f.push(prov.point.coord_frame.clone());
        f.push("map".to_owned());
        assert(texts(f@) =~= seq![sensor_of(*p), "map"@]);
        f
    } else {
        rebuild_frame_order(prov)
    };
    let mut candidates: Vec<CandidateRoute> = Vec::new();
    let mut i: usize = 0;
    while i < prov.candidates.len()
        invariant
            i <= prov.candidates@.len(),
            candidates@.len() == i,
            forall|k: int|
                0 <= k < i ==> same_candidate(#[trigger] candidates@[k], prov.candidates@[k]),
        decreases prov.candidates.len() - i,
    {
        candidates.push(copy_candidate(&prov.candidates[i]));
        i += 1;
    }
    RouteSummary { sensor, t: p.t, selected, cost: find_cost(&prov.candidates), candidates }
}

fn seen_before(points: &Vec<PointRow>, at: &Vec<usize>, k: usize) -> (r: bool)
    requires
        k < at@.len(),
        forall|i: int| 0 <= i < at@.len() ==> #[trigger] at@[i] < points@.len(),
    ensures
        r == exists|j: int|
            0 <= j < k && (#[trigger] points@[order::positions(at@)[j]]).map_xyz is Some
                && sensor_of(points@[order::positions(at@)[j]]) == sensor_of(
                points@[order::positions(at@)[k as int]],
            ),
{
    let ghost av = order::positions(at@);
    let mut j: usize = 0;
    while j < k
        invariant
            j <= k,
            k < at@.len(),
            av == order::positions(at@),
            forall|i: int| 0 <= i < at@.len() ==> #[trigger] at@[i] < points@.len(),
            forall|i: int|
                0 <= i < j && (#[trigger] points@[av[i]]).map_xyz is Some ==> sensor_of(
                    points@[av[i]],
                ) != sensor_of(points@[av[k as int]]),
        decreases k - j,
    {
        let a: usize = at[j];
        let b: usize = at[k];
        assert(a == av[j as int] && b == av[k as int]);
        if points[a].map_xyz.is_some() && text::same(
            points[a].provenance.point.coord_frame.as_str(),
            points[b].provenance.point.coord_frame.as_str(),
        ) {
            assert(points@[av[j as int]].map_xyz is Some);
            return true;
        }
        j += 1;
    }
    false
}

/// One route for each sensor: that of its first aligned point.
pub fn route_summaries(db: &Ledger) -> (r: Vec<RouteSummary>)
    ensures
        r@.len() == representatives(db.points@).len(),
        forall|i: int|
            0 <= i < r@.len() ==> summarizes(
                #[trigger] r@[i],
                db.points@[representatives(db.points@)[i]],
            ),
{
    let at = order_points(&db.points);
    let ghost av = point_order(db.points@);
    let ghost holds = first_of_sensor(db.points@, av);
    let mut out: Vec<RouteSummary> = Vec::new();
    let mut k: usize = 0;
    while k < at.len()
        invariant
            k <= at@.len(),
            av == order::positions(at@),
            holds == first_of_sensor(db.points@, av),
            forall|i: int| 0 <= i < at@.len() ==> #[trigger] at@[i] < db.points@.len(),
            out@.len() == rows::all_where(k as int, holds).len(),
            forall|i: int|
                0 <= i < out@.len() ==> summarizes(
                    #[trigger] out@[i],
                    db.points@[av[rows::all_where(k as int, holds)[i]]],
                ),
        decreases at.len() - k,
    {
        let i: usize = at[k];
        assert(i == av[k as int]);
        let seen = seen_before(&db.points, &at, k);
        if db.points[i].map_xyz.is_some() && !seen {
            assert(holds(k as int));
            out.push(summarize(&db.points[i]));
        } else {
            assert(!holds(k as int));
        }
        k += 1;
    }
    out
}

// ---- everything ---------------------------------------------------------------------------

#[derive(Clone, Debug)]
pub struct StateView {
    pub generations: Vec<GenView>,
    pub edges: Vec<EdgeView>,
    pub poses: Vec<PoseView>,
    pub blocks: Vec<BlockView>,
    pub points: Vec<PointView>,
    pub gaps: Vec<GapView>,
    pub routes: Vec<RouteSummary>,
}

/// Shows all tables: generations and edges in the order in which they came, poses and
/// blocks by generation and time, points by time.
pub fn state_view(db: &Ledger) -> (r: StateView)
    requires
        db.wf(),
    ensures
        r.generations@.len() == db.generations@.len(),
        forall|i: int|
            0 <= i < r.generations@.len() ==> shows_generation(
                #[trigger] r.generations@[i],
                db.generations@[i],
                db.packets@,
            ),
        r.edges@.len() == db.edges@.len(),
        forall|i: int| 0 <= i < r.edges@.len() ==> shows_edge(#[trigger] r.edges@[i], db.edges@[i]),
        r.poses@ == pose_order(db.poses@).map_values(|i: int| pose_view(db.poses@[i])),
        r.blocks@.len() == db.blocks@.len(),
        forall|i: int|
            0 <= i < r.blocks@.len() ==> shows_block(
                #[trigger] r.blocks@[i],
                db.blocks@[block_order(db.blocks@)[i]],
            ),
        r.points@ == point_order(db.points@).map_values(|i: int| point_view(db.points@[i])),
        gap_values(r.gaps@) == all_gaps(*db),
        r.routes@.len() == representatives(db.points@).len(),
        forall|i: int|
            0 <= i < r.routes@.len() ==> summarizes(
                #[trigger] r.routes@[i],
                db.points@[representatives(db.points@)[i]],
            ),
{
    StateView {
        generations: show_generations(db),
        edges: show_edges(&db.edges),
        poses: show_poses(&db.poses),
        blocks: show_blocks(&db.blocks),
        points: show_points(&db.points),
        gaps: compute_gaps(db),
        routes: route_summaries(db),
    }
}

/// The whole account of a derived point.
pub fn point_provenance(db: &Ledger, id: i64) -> (r: AppResult<&Provenance>)
    requires
        db.wf(),
    ensures
        match r {
            Ok(p) => exists|i: int|
                0 <= i < db.points@.len() && (#[trigger] db.points@[i]).id == id && *p
                    == db.points@[i].provenance,
            Err(e) => {
                &&& forall|i: int| 0 <= i < db.points@.len() ==> (#[trigger] db.points@[i]).id != id
                &&& e.says("not_found"@, "derived point "@ + text::decimal(id as int))
            },
        },
{
    let mut i: usize = 0;
    while i < db.points.len()
        invariant
            i <= db.points@.len(),
            forall|k: int| 0 <= k < i ==> (#[trigger] db.points@[k]).id != id,
        decreases db.points.len() - i,
    {
        if db.points[i].id == id {
            return Ok(&db.points[i].provenance);
        }
        i += 1;
    }
    let n = text::decimal_text(id as i128);
    let message = text::join2("derived point ", n.as_str());
    Err(AppError::not_found(message.as_str()))
}

// ---- what is shown, in plain terms ------------------------------------------------------------

/// The gaps between poses that are told are those of two times of one generation with no
/// pose of it between them, more than two tenths of a second apart: all of them, and no
/// others.
pub proof fn law_pose_gaps_are_complete(l: Ledger, g: GapValue)
    requires
        g.kind == "pose_gap"@,
    ensures
        all_gaps(l).contains(g) <==> {
            &&& g.to_t - g.from_t > 200_000_000
            &&& g.seconds == g.to_t - g.from_t
            &&& exists|a: int|
                0 <= a < l.poses@.len() && (#[trigger] l.poses@[a]).generation_id
                    == g.generation_id && l.poses@[a].t == g.from_t
            &&& exists|b: int|
                0 <= b < l.poses@.len() && (#[trigger] l.poses@[b]).generation_id
                    == g.generation_id && l.poses@[b].t == g.to_t
            &&& forall|c: int|
                0 <= c < l.poses@.len() && (#[trigger] l.poses@[c]).generation_id
                    == g.generation_id ==> l.poses@[c].t <= g.from_t || l.poses@[c].t >= g.to_t
        },
{
    let poses = l.poses@;
    let at = pose_order(poses);
    let n = at.len() as int;
    lemma_gap_listed(l, g);
    lemma_pose_gaps(poses, at, n, g);
    lemma_pose_order(poses);
    if all_gaps(l).contains(g) {
        let k = choose|k: int|
            0 <= k && k + 1 < at.len() && is_pose_gap(poses, at, #[trigger] spot(k), g);
        let a = at[k];
        let b = at[k + 1];
        assert(poses[a].t == g.from_t && poses[b].t == g.to_t);
        assert forall|c: int|
            0 <= c < poses.len() && (#[trigger] poses[c]).generation_id
                == g.generation_id implies poses[c].t <= g.from_t || poses[c].t >= g.to_t by {
            assert(at.contains(c));
            let p = choose|p: int| 0 <= p < at.len() && at[p] == c;
            if p < k {
                assert(at[p] == c && at[k] == a);
            } else if p > k + 1 {
                assert(at[p] == c && at[k + 1] == b);
            }
        }
    }
    if g.to_t - g.from_t > 200_000_000 && g.seconds == g.to_t - g.from_t && (exists|a: int|
        0 <= a < poses.len() && (#[trigger] poses[a]).generation_id == g.generation_id && poses[a].t
            == g.from_t) && (exists|b: int|
        0 <= b < poses.len() && (#[trigger] poses[b]).generation_id == g.generation_id && poses[b].t
            == g.to_t) && (forall|c: int|
        0 <= c < poses.len() && (#[trigger] poses[c]).generation_id == g.generation_id
            ==> poses[c].t <= g.from_t || poses[c].t >= g.to_t) {
        let a = choose|a: int|
            0 <= a < poses.len() && (#[trigger] poses[a]).generation_id == g.generation_id
                && poses[a].t == g.from_t;
        let b = choose|b: int|
            0 <= b < poses.len() && (#[trigger] poses[b]).generation_id == g.generation_id
                && poses[b].t == g.to_t;
        assert(at.contains(a) && at.contains(b));
        let x = choose|x: int| 0 <= x < at.len() && at[x] == a;
        let y = choose|y: int| 0 <= y < at.len() && at[y] == b;
        assert(x < y);
        let k = lemma_last_before(poses, at, g, x, y);
        assert(is_pose_gap(poses, at, spot(k), g));
    }
}

/// Between two places of the order with times on both sides of a gap there are two
/// neighbours with the same times.
proof fn lemma_last_before(poses: Seq<PoseRow>, at: Seq<int>, g: GapValue, x: int, y: int) -> (k:
    int)
    requires
        at == pose_order(poses),
        0 <= x < y < at.len(),
        g.kind == "pose_gap"@,
        g.to_t - g.from_t > 200_000_000,
        g.seconds == g.to_t - g.from_t,
        poses[at[x]].generation_id == g.generation_id,
        poses[at[y]].generation_id == g.generation_id,
        poses[at[x]].t == g.from_t,
        poses[at[y]].t == g.to_t,
        forall|c: int|
            0 <= c < poses.len() && (#[trigger] poses[c]).generation_id == g.generation_id
                ==> poses[c].t <= g.from_t || poses[c].t >= g.to_t,
    ensures
        0 <= k,
        k + 1 < at.len(),
        is_pose_gap(poses, at, k, g),
    decreases y - x,
{
    lemma_pose_order(poses);
    if x + 1 == y {
        x
    } else {
        let c = at[x + 1];
        assert(at[x + 1] == c);
        assert(poses[c].generation_id == g.generation_id);
        if poses[c].t == g.from_t {
            lemma_last_before(poses, at, g, x + 1, y)
        } else {
            assert(poses[c].t == g.to_t);
            lemma_last_before(poses, at, g, x, x + 1)
        }
    }
}

/// Whether a generation's first packet was taken at a time.
pub open spec fn opens_at(l: Ledger, g: int, t: int) -> bool {
    &&& 0 <= g < l.generations@.len()
    &&& exists|i: int|
        0 <= i < l.packets@.len() && (#[trigger] l.packets@[i]).generation_id
            == l.generations@[g].id && l.packets@[i].continuous_time == t
    &&& forall|i: int|
        0 <= i < l.packets@.len() && (#[trigger] l.packets@[i]).generation_id
            == l.generations@[g].id ==> t <= l.packets@[i].continuous_time
}

/// Whether a generation's last packet was taken at a time.
pub open spec fn closes_at(l: Ledger, g: int, t: int) -> bool {
    &&& 0 <= g < l.generations@.len()
    &&& exists|i: int|
        0 <= i < l.packets@.len() && (#[trigger] l.packets@[i]).generation_id
            == l.generations@[g].id && l.packets@[i].continuous_time == t
    &&& forall|i: int|
        0 <= i < l.packets@.len() && (#[trigger] l.packets@[i]).generation_id
            == l.generations@[g].id ==> l.packets@[i].continuous_time <= t
}

proof fn lemma_generation_times(l: Ledger, g: int, t: int)
    requires
        l.wf(),
        0 <= g < l.generations@.len(),
    ensures
        opens_at(l, g, t) <==> t == begins(l, g),
        closes_at(l, g, t) <==> t == ends(l, g),
{
    let n = l.packets@.len() as int;
    let id = l.generations@[g].id;
    assert(crate::db::has_packet(l.packets@, l.generations@[g].id));
    blocks::law_first_and_last_time(l.packets@, id as int, n);
    let k = choose|k: int| 0 <= k < n && (#[trigger] l.packets@[k]).generation_id == id;
    assert(l.packets@[k].generation_id == id);
    let a = choose|a: int|
        0 <= a < n && (#[trigger] l.packets@[a]).generation_id == id
            && l.packets@[a].continuous_time == begins(l, g);
    let b = choose|b: int|
        0 <= b < n && (#[trigger] l.packets@[b]).generation_id == id
            && l.packets@[b].continuous_time == ends(l, g);
    assert(l.packets@[a].continuous_time == begins(l, g));
    assert(l.packets@[b].continuous_time == ends(l, g));
}

proof fn lemma_generation_order(l: Ledger)
    ensures
        ({
            let at = generation_order(l);
            &&& at.len() == l.generations@.len()
            &&& forall|i: int| 0 <= i < at.len() ==> 0 <= #[trigger] at[i] < l.generations@.len()
            &&& forall|x: int| 0 <= x < l.generations@.len() ==> #[trigger] at.contains(x)
            &&& forall|i: int, j: int| #![trigger at[i], at[j]]
                0 <= i < j < at.len() ==> begins(l, at[i]) < begins(l, at[j]) || (begins(l, at[i])
                    == begins(l, at[j]) && at[i] < at[j])
        }),
{
    let keys = Seq::new(l.generations@.len(), |g: int| order::pair_key(begins(l, g), g + 1));
    let at = generation_order(l);
    order::law_order_is_unique(keys, at);
    assert forall|i: int, j: int| #![trigger at[i], at[j]]
        0 <= i < j < at.len() implies begins(l, at[i]) < begins(l, at[j]) || (begins(l, at[i])
        == begins(l, at[j]) && at[i] < at[j]) by {
        assert(order::precedes(keys, at[i], at[j]));
        order::lemma_pair_key_before(
            begins(l, at[i]),
            at[i] + 1,
            begins(l, at[j]),
            at[j] + 1,
        );
    }
}

proof fn lemma_boundary_at(l: Ledger, at: Seq<int>, n: int, k: int)
    requires
        0 <= k < n - 1,
    ensures
        boundaries(l, at, n).len() == n - 1,
        boundaries(l, at, n)[k] == gap(
            l.generations@[at[k + 1]].id as int,
            ends(l, at[k]),
            begins(l, at[k + 1]),
            "generation_boundary"@,
        ),
    decreases n,
{
    assert(boundaries(l, at, 1).len() == 0);
    if n > 2 {
        lemma_boundary_at(l, at, n - 1, if k < n - 2 { k } else { 0 });
    }
}

/// A boundary is told for every generation but the first in the order of their first
/// packets: from the last packet of the generation before it to its own first packet.
pub proof fn law_boundary_before_every_generation_but_the_first(
    l: Ledger,
    g: int,
    h: int,
    a: int,
    b: int,
    c: int,
)
    requires
        l.wf(),
        opens_at(l, g, a),
        opens_at(l, h, b),
        closes_at(l, g, c),
        a < b || (a == b && g < h),
        forall|k: int, t: int| #[trigger]
            opens_at(l, k, t) ==> !((a < t || (a == t && g < k)) && (t < b || (t == b && k < h))),
    ensures
        all_gaps(l).contains(
            (GapValue {
                generation_id: l.generations@[h].id as int,
                from_t: c,
                to_t: b,
                seconds: b - c,
                kind: "generation_boundary"@,
            }),
        ),
{
    let at = generation_order(l);
    let n = at.len() as int;
    lemma_generation_order(l);
    lemma_generation_times(l, g, a);
    lemma_generation_times(l, h, b);
    lemma_generation_times(l, g, c);
    assert(at.contains(g) && at.contains(h));
    let k = choose|k: int| 0 <= k < at.len() && at[k] == g;
    let m = choose|m: int| 0 <= m < at.len() && at[m] == h;
    assert(k < m);
    if k + 1 < m {
        let x = at[k + 1];
        lemma_generation_times(l, x, begins(l, x));
        assert(opens_at(l, x, begins(l, x)));
        assert(at[k] == g && at[k + 1] == x && at[m] == h);
    }
    lemma_boundary_at(l, at, n, k);
    let w = boundaries(l, at, n)[k];
    lemma_gap_kept(l, w);
}

proof fn lemma_gap_kept(l: Ledger, g: GapValue)
    ensures
        ({
            let poses = pose_order(l.poses@);
            let gens = generation_order(l);
            all_gaps(l).contains(g) <==> pose_gaps(l.poses@, poses, poses.len() as int).contains(g)
                || boundaries(l, gens, gens.len() as int).contains(g)
        }),
{
    let poses = pose_order(l.poses@);
    let gens = generation_order(l);
    let first = pose_gaps(l.poses@, poses, poses.len() as int);
    let second = boundaries(l, gens, gens.len() as int);
    let both = first + second;
    let keys = both.map_values(|x: GapValue| order::pair_key(x.from_t, 0));
    let o = order::order_of(keys);
    order::law_order_is_unique(keys, o);
    if all_gaps(l).contains(g) {
        let i = choose|i: int| 0 <= i < all_gaps(l).len() && all_gaps(l)[i] == g;
        assert(both[o[i]] == g);
        if o[i] < first.len() {
            assert(first[o[i]] == g);
        } else {
            assert(second[o[i] - first.len()] == g);
        }
    }
    if first.contains(g) {
        let i = choose|i: int| 0 <= i < first.len() && first[i] == g;
        assert(both[i] == g);
        assert(o.contains(i));
        let k = choose|k: int| 0 <= k < o.len() && o[k] == i;
        assert(all_gaps(l)[k] == g);
    }
    if second.contains(g) {
        let i = choose|i: int| 0 <= i < second.len() && second[i] == g;
        assert(both[first.len() + i] == g);
        assert(o.contains(first.len() + i));
        let k = choose|k: int| 0 <= k < o.len() && o[k] == first.len() + i;
        assert(all_gaps(l)[k] == g);
    }
}

/// Gaps are told in the order of their starts.
pub proof fn law_gaps_are_told_in_order(l: Ledger, i: int, j: int)
    requires
        0 <= i < j < all_gaps(l).len(),
    ensures
        all_gaps(l)[i].from_t <= all_gaps(l)[j].from_t,
{
    let poses = pose_order(l.poses@);
    let gens = generation_order(l);
    let both = pose_gaps(l.poses@, poses, poses.len() as int) + boundaries(
        l,
        gens,
        gens.len() as int,
    );
    let keys = both.map_values(|x: GapValue| order::pair_key(x.from_t, 0));
    let o = order::order_of(keys);
    order::law_order_is_unique(keys, o);
    assert(order::precedes(keys, o[i], o[j]));
    order::lemma_pair_key_before(both[o[i]].from_t, 0, both[o[j]].from_t, 0);
}

/// Poses and blocks are shown by generation, then by time, points by time, then by id; each
/// row is shown once.
pub proof fn law_rows_are_shown_in_order(l: Ledger, i: int, j: int)
    ensures
        pose_order(l.poses@).len() == l.poses@.len(),
        block_order(l.blocks@).len() == l.blocks@.len(),
        point_order(l.points@).len() == l.points@.len(),
        0 <= i < j < l.poses@.len() ==> {
            let a = l.poses@[pose_order(l.poses@)[i]];
            let b = l.poses@[pose_order(l.poses@)[j]];
            &&& pose_order(l.poses@)[i] != pose_order(l.poses@)[j]
            &&& a.generation_id < b.generation_id || (a.generation_id == b.generation_id && a.t
                <= b.t)
        },
        0 <= i < j < l.blocks@.len() ==> {
            let a = l.blocks@[block_order(l.blocks@)[i]];
            let b = l.blocks@[block_order(l.blocks@)[j]];
            &&& block_order(l.blocks@)[i] != block_order(l.blocks@)[j]
            &&& a.generation_id < b.generation_id || (a.generation_id == b.generation_id && a.start
                <= b.start)
        },
        0 <= i < j < l.points@.len() ==> {
            let a = l.points@[point_order(l.points@)[i]];
            let b = l.points@[point_order(l.points@)[j]];
            &&& point_order(l.points@)[i] != point_order(l.points@)[j]
            &&& a.t < b.t || (a.t == b.t && a.id <= b.id)
        },
{
    lemma_pose_order(l.poses@);
    let bk = l.blocks@.map_values(
        |b: BlockRow| order::pair_key(b.generation_id as int, b.start as int),
    );
    let pk = l.points@.map_values(|p: PointRow| order::pair_key(p.t as int, p.id as int));
    let bo = block_order(l.blocks@);
    let po = point_order(l.points@);
    order::law_order_is_unique(bk, bo);
    order::law_order_is_unique(pk, po);
    if 0 <= i < j < l.poses@.len() {
        assert(pose_order(l.poses@)[i] != pose_order(l.poses@)[j]);
    }
    if 0 <= i < j < l.blocks@.len() {
        let a = l.blocks@[bo[i]];
        let b = l.blocks@[bo[j]];
        assert(order::precedes(bk, bo[i], bo[j]));
        order::law_key_order_is_strict_and_total(bk[bo[i]], bk[bo[j]], bk[bo[i]]);
        order::lemma_pair_key_before(
            a.generation_id as int,
            a.start as int,
            b.generation_id as int,
            b.start as int,
        );
    }
    if 0 <= i < j < l.points@.len() {
        let a = l.points@[po[i]];
        let b = l.points@[po[j]];
        assert(order::precedes(pk, po[i], po[j]));
        order::law_key_order_is_strict_and_total(pk[po[i]], pk[po[j]], pk[po[i]]);
        order::lemma_pair_key_before(a.t as int, a.id as int, b.t as int, b.id as int);
    }
}

/// A point is shown where it is in the map, or without coordinates where it has no place
/// there; a pose is shown where it is.
pub proof fn law_points_and_poses_are_shown_where_they_are(p: PointRow, q: PoseRow)
    ensures
        point_view(p).id == p.id,
        point_view(p).generation_id == p.generation_id,
        point_view(p).t == p.t,
        point_view(p).color_group == p.generation_id,
        point_view(p).aligned == p.map_xyz is Some,
        p.map_xyz is Some ==> point_view(p).x == Some(p.map_xyz->0@[0]) && point_view(p).y == Some(
            p.map_xyz->0@[1],
        ) && point_view(p).z == Some(p.map_xyz->0@[2]),
        p.map_xyz is None ==> point_view(p).x is None && point_view(p).y is None && point_view(
            p,
        ).z is None,
        pose_view(q).generation_id == q.generation_id,
        pose_view(q).t == q.t,
        pose_view(q).x == q.xyz@[0],
        pose_view(q).y == q.xyz@[1],
        pose_view(q).z == q.xyz@[2],
{
}

/// Every sensor with an aligned point has one representative, and it is the first of its
/// aligned points in time.
pub proof fn law_first_aligned_point_stands_for_its_sensor(points: Seq<PointRow>, x: int, i: int)
    requires
        0 <= x < points.len(),
        points[x].map_xyz is Some,
    ensures
        0 <= i < representatives(points).len() ==> 0 <= representatives(points)[i] < points.len()
            && points[representatives(points)[i]].map_xyz is Some,
        0 <= i < representatives(points).len() && points[representatives(
            points,
        )[i]].provenance.point.coord_frame@ == points[x].provenance.point.coord_frame@
            ==> points[representatives(points)[i]].t <= points[x].t,
        exists|k: int|
            0 <= k < representatives(points).len() && points[#[trigger] representatives(
                points,
            )[k]].provenance.point.coord_frame@ == points[x].provenance.point.coord_frame@,
        forall|k: int|
            0 <= k < representatives(points).len() && 0 <= i < representatives(points).len()
                && points[#[trigger] representatives(points)[k]].provenance.point.coord_frame@
                == points[representatives(points)[i]].provenance.point.coord_frame@ ==> k == i,
{
    let at = point_order(points);
    let n = at.len() as int;
    let holds = first_of_sensor(points, at);
    let keys = points.map_values(|p: PointRow| order::pair_key(p.t as int, p.id as int));
    order::law_order_is_unique(keys, at);
    rows::lemma_all_where(n, holds);
    let sel = rows::all_where(n, holds);
    let reps = representatives(points);
    assert(at.contains(x));
    let y = choose|y: int| 0 <= y < at.len() && at[y] == x;
    if 0 <= i < reps.len() {
        assert(holds(sel[i]));
        assert(reps[i] == at[sel[i]]);
        if sensor_of(points[reps[i]]) == sensor_of(points[x]) {
            if y < sel[i] {
                assert(points[at[y]].map_xyz is Some);
            } else if sel[i] < y {
                assert(order::precedes(keys, at[sel[i]], at[y]));
                order::law_key_order_is_strict_and_total(
                    keys[at[sel[i]]],
                    keys[at[y]],
                    keys[at[sel[i]]],
                );
                order::lemma_pair_key_before(
                    points[at[sel[i]]].t as int,
                    points[at[sel[i]]].id as int,
                    points[at[y]].t as int,
                    points[at[y]].id as int,
                );
            }
        }
    }
    let f = lemma_first_aligned(points, at, y);
    assert(holds(f));
    assert(sel.contains(f));
    let k = choose|k: int| 0 <= k < sel.len() && sel[k] == f;
    assert(reps[k] == at[f]);
    assert forall|k: int|
        0 <= k < reps.len() && 0 <= i < reps.len()
            && points[#[trigger] reps[k]].provenance.point.coord_frame@
            == points[reps[i]].provenance.point.coord_frame@ implies k == i by {
        assert(holds(sel[k]) && holds(sel[i]));
        assert(reps[k] == at[sel[k]] && reps[i] == at[sel[i]]);
        if sel[k] < sel[i] {
            assert(points[at[sel[k]]].map_xyz is Some);
        } else if sel[i] < sel[k] {
            assert(points[at[sel[i]]].map_xyz is Some);
        }
        if k < i {
            assert(sel[k] < sel[i]);
        } else if i < k {
            assert(sel[i] < sel[k]);
        }
    }
}

proof fn lemma_first_aligned(points: Seq<PointRow>, at: Seq<int>, y: int) -> (f: int)
    requires
        0 <= y < at.len(),
        points[at[y]].map_xyz is Some,
    ensures
        0 <= f <= y,
        first_of_sensor(points, at)(f),
        sensor_of(points[at[f]]) == sensor_of(points[at[y]]),
    decreases y,
{
    if forall|j: int|
        0 <= j < y && (#[trigger] points[at[j]]).map_xyz is Some ==> sensor_of(points[at[j]])
            != sensor_of(points[at[y]]) {
        y
    } else {
        let j = choose|j: int|
            0 <= j < y && (#[trigger] points[at[j]]).map_xyz is Some && sensor_of(points[at[j]])
                == sensor_of(points[at[y]]);
        lemma_first_aligned(points, at, j)
    }
}

/// The cost that is told is that of the first candidate that was selected.
pub proof fn law_cost_is_that_of_the_selected_route(candidates: Seq<CandidateRoute>, i: int)
    requires
        0 <= i < candidates.len(),
        candidates[i].selected,
        forall|j: int| 0 <= j < i ==> !(#[trigger] candidates[j]).selected,
    ensures
        selected_cost(candidates) == candidates[i].precision_cost,
{
    let holds = |k: int| candidates[k].selected;
    assert forall|k: int| 0 <= k < i implies !#[trigger] holds(k) by {
        assert(!candidates[k].selected);
    }
    rows::lemma_first_is(candidates.len() as int, holds, i);
}

/// The frames of a chain are where it starts and where each of its hops leads.
pub proof fn law_frames_of_a_chain(chain: Seq<ChainHop>, i: int)
    requires
        0 <= i < chain.len(),
    ensures
        frame_order(chain).len() == chain.len() + 1,
        frame_order(chain)[0] == chain[0].from@,
        frame_order(chain)[i + 1] == chain[i].to@,
{
}

/// Generations, edges and blocks are shown as they are.
pub proof fn law_rows_are_shown_as_they_are(
    g: GenView,
    row: GenerationRow,
    packets: Seq<PacketRecord>,
    e: EdgeView,
    edge: EdgeRow,
    b: BlockView,
    block: BlockRow,
)
    requires
        shows_generation(g, row, packets),
        shows_edge(e, edge),
        shows_block(b, block),
    ensures
        g.id == row.id,
        g.device_id@ == row.device_id@,
        g.reason@ == row.reason@,
        g.t0 == row.opened_at,
        g.packet_count == 0 <==> forall|i: int|
            0 <= i < packets.len() ==> (#[trigger] packets[i]).generation_id != row.id,
        e.id == edge.id,
        e.source@ == edge.source@,
        e.target@ == edge.target@,
        e.version == edge.version,
        e.valid_from == edge.valid_from,
        e.valid_to == edge.valid_to,
        e.origin@ == edge.origin@,
        e.sigma_trace == edge.sigma_trace,
        b.id == block.id,
        b.generation_id == block.generation_id,
        b.start == block.start,
        b.end == block.end,
        block.status is Complete ==> b.status@ == "complete"@,
        block.status is Pending ==> b.status@ == "pending"@,
{
    let n = packets.len() as int;
    let holds = of_generation(packets, row.id);
    rows::law_rows_are_counted_one_by_one(n, holds);
    rows::lemma_all_where(n, holds);
    if g.packet_count == 0 {
        assert forall|i: int| 0 <= i < n implies (#[trigger] packets[i]).generation_id
            != row.id by {
            if holds(i) {
                assert(rows::all_where(n, holds).contains(i));
            }
        }
    }
    if forall|i: int| 0 <= i < n ==> (#[trigger] packets[i]).generation_id != row.id {
        assert forall|i: int| 0 <= i < n implies !#[trigger] holds(i) by {
            assert(packets[i].generation_id != row.id);
        }
    }
}

/// A summary tells the sensor and the time of its point, the frames of the point's chain,
/// and every candidate as it was.
pub proof fn law_summary_tells_the_route_of_its_point(s: RouteSummary, p: PointRow, i: int)
    requires
        summarizes(s, p),
    ensures
        s.sensor@ == p.provenance.point.coord_frame@,
        s.t == p.t,
        s.candidates@.len() == p.provenance.candidates@.len(),
        0 <= i < p.provenance.candidates@.len() ==> {
            let a = s.candidates@[i];
            let b = p.provenance.candidates@[i];
            &&& a.precision_cost == b.precision_cost
            &&& a.version_score == b.version_score
            &&& a.selected == b.selected
            &&& a.reason@ == b.reason@
            &&& a.frames@.len() == b.frames@.len()
            &&& forall|k: int| 0 <= k < a.frames@.len() ==> (#[trigger] a.frames@[k])@
                == b.frames@[k]@
        },
        0 <= i < p.provenance.chain@.len() ==> {
            &&& s.selected@.len() == p.provenance.chain@.len() + 1
            &&& s.selected@[0]@ == p.provenance.chain@[0].from@
            &&& s.selected@[i + 1]@ == p.provenance.chain@[i].to@
        },
{
    if 0 <= i < p.provenance.candidates@.len() {
        let a = s.candidates@[i];
        let b = p.provenance.candidates@[i];
        assert(same_candidate(a, b));
        assert(texts(a.frames@).len() == a.frames@.len());
        assert(texts(b.frames@).len() == b.frames@.len());
        assert forall|k: int| 0 <= k < a.frames@.len() implies (#[trigger] a.frames@[k])@
            == b.frames@[k]@ by {
            assert(texts(a.frames@)[k] == texts(b.frames@)[k]);
        }
    }
    if 0 <= i < p.provenance.chain@.len() {
        let f = texts(s.selected@);
        assert(f.len() == s.selected@.len());
        assert(f == frame_order(p.provenance.chain@));
        assert(f[0] == s.selected@[0]@);
        assert(f[i + 1] == s.selected@[i + 1]@);
    }
}

/// A list of gaps is shown gap by gap, each with its own generation and times.
pub proof fn law_gaps_are_shown_as_they_are(g: Seq<GapView>, i: int)
    requires
        0 <= i < g.len(),
    ensures
        gap_values(g).len() == g.len(),
        gap_values(g)[i].generation_id == g[i].generation_id,
        gap_values(g)[i].from_t == g[i].from_t,
        gap_values(g)[i].to_t == g[i].to_t,
        gap_values(g)[i].seconds == g[i].seconds,
        gap_values(g)[i].kind == g[i].kind@,
{
}

} // verus!
