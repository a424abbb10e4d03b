//! Derived blocks: pose interpolation, block windows and signatures.

use crate::db;
use crate::db::{EdgeRow, Ledger, PoseRow};
use crate::model::PacketRecord;
use crate::order;
use crate::order::Part;
use crate::rows;
use crate::text;
use crate::time;
use crate::time::Nanos;
use vstd::prelude::*;
use vstd::string::*;

verus! {

/// The length of a block's window, half a second.
pub const BLOCK: Nanos = 500_000_000;

/// The widest gap between two poses that is interpolated across, two tenths of a
/// second.
pub const MAX_INTERP_GAP: Nanos = 200_000_000;

// ---- interpolation ------------------------------------------------------------------

/// The pose of a generation at or before a time that is nearest to it, among the
/// first `n` poses; of equal ones the last.
pub open spec fn left_of(poses: Seq<PoseRow>, gid: int, t: int, n: int) -> Option<int>
    decreases n,
{
    if n <= 0 {
        None
    } else {
        let best = left_of(poses, gid, t, n - 1);
        let p = poses[n - 1];
        if p.generation_id == gid && p.t <= t && (best is None || poses[best->0].t <= p.t) {
            Some(n - 1)
        } else {
            best
        }
    }
}

/// The pose of a generation at or after a time that is nearest to it, among the first
/// `n` poses; of equal ones the first.
pub open spec fn right_of(poses: Seq<PoseRow>, gid: int, t: int, n: int) -> Option<int>
    decreases n,
{
    if n <= 0 {
        None
    } else {
        let best = right_of(poses, gid, t, n - 1);
        let p = poses[n - 1];
        if p.generation_id == gid && t <= p.t && (best is None || p.t < poses[best->0].t) {
            Some(n - 1)
        } else {
            best
        }
    }
}

/// The two poses that a time is interpolated between, or why it cannot be.
pub open spec fn bracket(poses: Seq<PoseRow>, gid: int, t: int) -> Result<(int, int), Seq<char>> {
    let n = poses.len() as int;
    match left_of(poses, gid, t, n) {
        None => Err("no pose at or before time (new generation edge?)"@),
        Some(l) => match right_of(poses, gid, t, n) {
            None => Err("no pose at or after time"@),
            Some(r) => if poses[l].packet_id == poses[r].packet_id {
                Ok((l, r))
            } else if poses[r].t - poses[l].t > MAX_INTERP_GAP {
                Err("pose gap exceeds allowed interpolation interval"@)
            } else if poses[r].t - poses[l].t <= 0 {
                Err("degenerate pose interval"@)
            } else {
                Ok((l, r))
            },
        },
    }
}

/// The poses that a time lies between, by position, and how wide the gap is.
#[derive(Clone, Copy, Debug)]
pub struct InterpPose {
    pub left: usize,
    pub right: usize,
    pub left_packet_id: i64,
    pub right_packet_id: i64,
    pub gap: Nanos,
    /// How far into the gap the time lies.
    pub ahead: Nanos,
}

/// Why a pose cannot be interpolated.
#[derive(Clone, Debug)]
pub struct InterpError {
    pub reason: String,
}

/// The pose found on the left of a time is the nearest one there; of equal ones the last.
pub proof fn lemma_left(poses: Seq<PoseRow>, gid: int, t: int, n: int)
    requires
        0 <= n <= poses.len(),
    ensures
        match left_of(poses, gid, t, n) {
            Some(l) => {
                &&& 0 <= l < n
                &&& poses[l].generation_id == gid
                &&& poses[l].t <= t
                &&& forall|i: int|
                    0 <= i < n && (#[trigger] poses[i]).generation_id == gid && poses[i].t <= t
                        ==> poses[i].t < poses[l].t || (poses[i].t == poses[l].t && i <= l)
            },
            None => forall|i: int|
                0 <= i < n && (#[trigger] poses[i]).generation_id == gid ==> poses[i].t > t,
        },
    decreases n,
{
    if n > 0 {
        lemma_left(poses, gid, t, n - 1);
    }
}

/// The pose found on the right of a time is the nearest one there; of equal ones the
/// first.
pub proof fn lemma_right(poses: Seq<PoseRow>, gid: int, t: int, n: int)
    requires
        0 <= n <= poses.len(),
    ensures
        match right_of(poses, gid, t, n) {
            Some(r) => {
                &&& 0 <= r < n
                &&& poses[r].generation_id == gid
                &&& poses[r].t >= t
                &&& forall|i: int|
                    0 <= i < n && (#[trigger] poses[i]).generation_id == gid && poses[i].t >= t
                        ==> poses[i].t > poses[r].t || (poses[i].t == poses[r].t && i >= r)
            },
            None => forall|i: int|
                0 <= i < n && (#[trigger] poses[i]).generation_id == gid ==> poses[i].t < t,
        },
    decreases n,
{
    if n > 0 {
        lemma_right(poses, gid, t, n - 1);
    }
}

/// Interpolation never crosses generations, never extrapolates, never bridges a gap
/// wider than allowed, and never skips a pose: both poses are of the generation asked
/// for, one not after and one not before the time, and no pose of it lies between
/// them.
pub proof fn law_interpolation_stays_within_generation_and_gap(
    poses: Seq<PoseRow>,
    gid: int,
    t: int,
    l: int,
    r: int,
)
    requires
        bracket(poses, gid, t) == Ok::<(int, int), Seq<char>>((l, r)),
    ensures
        0 <= l < poses.len(),
        0 <= r < poses.len(),
        poses[l].generation_id == gid,
        poses[r].generation_id == gid,
        poses[l].t <= t <= poses[r].t,
        poses[l].packet_id == poses[r].packet_id || poses[r].t - poses[l].t <= MAX_INTERP_GAP,
        forall|i: int|
            0 <= i < poses.len() && (#[trigger] poses[i]).generation_id == gid ==> poses[i].t
                <= poses[l].t || poses[i].t >= poses[r].t,
{
    lemma_left(poses, gid, t, poses.len() as int);
    lemma_right(poses, gid, t, poses.len() as int);
}

/// Where a generation has poses on both sides of a time, no further apart than allowed,
/// and none at the time itself, the time is interpolated.
pub proof fn law_time_between_close_poses_is_interpolated(
    poses: Seq<PoseRow>,
    gid: int,
    t: int,
    l: int,
    r: int,
)
    requires
        0 <= l < poses.len(),
        0 <= r < poses.len(),
        poses[l].generation_id == gid,
        poses[r].generation_id == gid,
        poses[l].t < t < poses[r].t,
        poses[r].t - poses[l].t <= MAX_INTERP_GAP,
        forall|i: int|
            0 <= i < poses.len() && (#[trigger] poses[i]).generation_id == gid ==> poses[i].t != t,
    ensures
        bracket(poses, gid, t) is Ok,
{
    lemma_left(poses, gid, t, poses.len() as int);
    lemma_right(poses, gid, t, poses.len() as int);
    assert(poses[l].t <= t && poses[r].t >= t);
}

/// Finds the poses of one generation that a time lies between. It fails where the
/// time is outside the poses, or where they are further apart than allowed.
pub fn interpolate_pose(db: &Ledger, generation_id: i64, t: Nanos) -> (r: Result<
    InterpPose,
    InterpError,
>)
    requires
        db.wf(),
        time::is_span(t as int),
    ensures
        match r {
            Ok(p) => {
                &&& bracket(db.poses@, generation_id as int, t as int) == Ok::<
                    (int, int),
                    Seq<char>,
                >((p.left as int, p.right as int))
                &&& p.left < db.poses@.len()
                &&& p.right < db.poses@.len()
                &&& p.left_packet_id == db.poses@[p.left as int].packet_id
                &&& p.right_packet_id == db.poses@[p.right as int].packet_id
                &&& p.gap == gap_of(db.poses@, p.left as int, p.right as int)
                &&& p.ahead == t - db.poses@[p.left as int].t
                &&& time::is_span(p.gap as int)
            },
            Err(e) => bracket(db.poses@, generation_id as int, t as int) == Err::<
                (int, int),
                Seq<char>,
            >(e.reason@),
        },
{
    let mut left: Option<usize> = None;
    let mut right: Option<usize> = None;
    let n: usize = db.poses.len();
    let mut i: usize = 0;
    while i < n
        invariant
            i <= n,
            n == db.poses@.len(),
            left is Some == left_of(db.poses@, generation_id as int, t as int, i as int) is Some,
            left is Some ==> left->0 == left_of(
                db.poses@,
                generation_id as int,
                t as int,
                i as int,
            )->0 && left->0 < i,
            right is Some == right_of(db.poses@, generation_id as int, t as int, i as int) is Some,
            right is Some ==> right->0 == right_of(
                db.poses@,
                generation_id as int,
                t as int,
                i as int,
            )->0 && right->0 < i,
        decreases n - i,
    {
        let p = &db.poses[i];
        if p.generation_id == generation_id {
            if p.t <= t {
                let nearer = match left {
                    None => true,
                    Some(b) => db.poses[b].t <= p.t,
                };
                if nearer {
                    left = Some(i);
                }
            }
            if t <= p.t {
                let nearer = match right {
                    None => true,
                    Some(b) => p.t < db.poses[b].t,
                };
                if nearer {
                    right = Some(i);
                }
            }
        }
        i += 1;
    }
    let l: usize = match left {
        None => {
            return Err(
                InterpError {
                    reason: "no pose at or before time (new generation edge?)".to_owned(),
                },
            );
        },
        Some(l) => l,
    };
    let r: usize = match right {
        None => {
            return Err(InterpError { reason: "no pose at or after time".to_owned() });
        },
        Some(r) => r,
    };
    let a = &db.poses[l];
    let b = &db.poses[r];
    let ahead: Nanos = t - a.t;
    if a.packet_id == b.packet_id {
        return Ok(
            InterpPose {
                left: l,
                right: r,
                left_packet_id: a.packet_id,
                right_packet_id: b.packet_id,
                gap: 0,
                ahead,
            },
        );
    }
    let gap: Nanos = b.t - a.t;
    if gap > MAX_INTERP_GAP {
        return Err(
            InterpError { reason: "pose gap exceeds allowed interpolation interval".to_owned() },
        );
    }
    if gap <= 0 {
        return Err(InterpError { reason: "degenerate pose interval".to_owned() });
    }
    Ok(
        InterpPose {
            left: l,
            right: r,
            left_packet_id: a.packet_id,
            right_packet_id: b.packet_id,
            gap,
            ahead,
        },
    )
}

/// The gap between two poses; none between poses of one packet.
pub open spec fn gap_of(poses: Seq<PoseRow>, l: int, r: int) -> int {
    if poses[l].packet_id == poses[r].packet_id {
        0
    } else {
        poses[r].t - poses[l].t
    }
}

// ---- windows ------------------------------------------------------------------------

/// The start of the window that holds a time.
pub open spec fn window_start(t: int) -> int {
    t / (BLOCK as int) * BLOCK
}

/// The start of the window that holds a time.
pub fn block_start(t: Nanos) -> (r: Nanos)
    requires
        time::is_span(t as int),
    ensures
        r == window_start(t as int),
        r <= t < r + BLOCK,
        r % BLOCK == 0,
{
    let q: i128 = t / BLOCK;
    let f: i128 = if t >= 0 || q * BLOCK == t { q } else { q - 1 };
    f * BLOCK
}

/// Every time lies in exactly one window: the one that its start gives.
pub proof fn law_windows_tile_time(t: int, start: int)
    requires
        start % (BLOCK as int) == 0,
    ensures
        start <= t < start + BLOCK <==> start == window_start(t),
{
}

/// One window of one generation.
#[derive(Clone, Copy, Debug, PartialEq, Eq, Structural)]
pub struct Window {
    pub generation_id: i64,
    pub start: Nanos,
    pub end: Nanos,
}

/// The windows of a generation from one start up to a time.
pub open spec fn windows_from(gid: i64, start: int, last: int) -> Seq<Window>
    decreases last - start + BLOCK,
{
    if start > last {
        Seq::empty()
    } else {
        seq![Window { generation_id: gid, start: start as i128, end: (start + BLOCK) as i128 }]
            + windows_from(gid, start + BLOCK, last)
    }
}

/// The least time among the first `n` packets of a generation.
pub open spec fn first_time(packets: Seq<PacketRecord>, gid: int, n: int) -> Option<int>
    decreases n,
{
    if n <= 0 {
        None
    } else {
        let best = first_time(packets, gid, n - 1);
        let p = packets[n - 1];
        if p.generation_id == gid && (best is None || p.continuous_time < best->0) {
            Some(p.continuous_time as int)
        } else {
            best
        }
    }
}

/// The greatest time among the first `n` packets of a generation.
pub open spec fn last_time(packets: Seq<PacketRecord>, gid: int, n: int) -> Option<int>
    decreases n,
{
    if n <= 0 {
        None
    } else {
        let best = last_time(packets, gid, n - 1);
        let p = packets[n - 1];
        if p.generation_id == gid && (best is None || p.continuous_time > best->0) {
            Some(p.continuous_time as int)
        } else {
            best
        }
    }
}

/// The windows of a generation: from the one that holds its first packet to the one
/// that holds its last.
pub open spec fn windows_of(packets: Seq<PacketRecord>, gid: i64) -> Seq<Window> {
    let n = packets.len() as int;
    match (first_time(packets, gid as int, n), last_time(packets, gid as int, n)) {
        (Some(a), Some(b)) => windows_from(gid, window_start(a), b),
        _ => Seq::empty(),
    }
}

/// The windows of the first `n` generations.
pub open spec fn windows_among(l: Ledger, n: int) -> Seq<Window>
    decreases n,
{
    if n <= 0 {
        Seq::empty()
    } else {
        windows_among(l, n - 1) + windows_of(l.packets@, l.generations@[n - 1].id)
    }
}

/// The windows of all generations.
pub open spec fn all_windows(l: Ledger) -> Seq<Window> {
    windows_among(l, l.generations@.len() as int)
}

/// The least and the greatest time of a generation's packets.
pub fn time_range(packets: &Vec<PacketRecord>, gid: i64) -> (r: Option<(Nanos, Nanos)>)
    requires
        forall|i: int|
            0 <= i < packets@.len() ==> time::is_span((#[trigger] packets@[i]).continuous_time as int),
    ensures
        match r {
            Some(x) => first_time(packets@, gid as int, packets@.len() as int) == Some(x.0 as int)
                && last_time(packets@, gid as int, packets@.len() as int) == Some(x.1 as int)
                && time::is_span(x.0 as int) && time::is_span(x.1 as int),
            None => first_time(packets@, gid as int, packets@.len() as int) is None && last_time(
                packets@,
                gid as int,
                packets@.len() as int,
            ) is None,
        },
{
    let mut best: Option<(Nanos, Nanos)> = None;
    let mut i: usize = 0;
    while i < packets.len()
        invariant
            i <= packets@.len(),
            forall|i: int|
                0 <= i < packets@.len() ==> time::is_span(
                    (#[trigger] packets@[i]).continuous_time as int,
                ),
            match best {
                Some(x) => first_time(packets@, gid as int, i as int) == Some(x.0 as int)
                    && last_time(packets@, gid as int, i as int) == Some(x.1 as int)
                    && time::is_span(x.0 as int) && time::is_span(x.1 as int),
                None => first_time(packets@, gid as int, i as int) is None && last_time(
                    packets@,
                    gid as int,
                    i as int,
                ) is None,
            },
        decreases packets.len() - i,
    {
        let p = &packets[i];
        if p.generation_id == gid {
            let t: Nanos = p.continuous_time;
            best = match best {
                None => Some((t, t)),
                Some((a, b)) => Some(
                    (
                        if t < a {
                            t
                        } else {
                            a
                        },
                        if t > b {
                            t
                        } else {
                            b
                        },
                    ),
                ),
            };
        }
        i += 1;
    }
    best
}

/// Lists the windows of all generations.
pub fn list_windows(db: &Ledger) -> (r: Vec<Window>)
    requires
        db.wf(),
    ensures
        r@ == all_windows(*db),
{
    let mut out: Vec<Window> = Vec::new();
    let mut i: usize = 0;
    assert(out@ =~= windows_among(*db, 0));
    while i < db.generations.len()
        invariant
            i <= db.generations@.len(),
            db.wf(),
            out@ == windows_among(*db, i as int),
        decreases db.generations.len() - i,
    {
        let gid: i64 = db.generations[i].id;
        match time_range(&db.packets, gid) {
            Some((a, b)) => {
                let first: Nanos = block_start(a);
                add_windows(&mut out, gid, first, b, a);
            },
            None => {
                assert(out@ + Seq::<Window>::empty() =~= out@);
            },
        }
        i += 1;
    }
    out
}

fn add_windows(out: &mut Vec<Window>, gid: i64, first: Nanos, last: Nanos, at: Nanos)
    requires
        first <= at < first + BLOCK,
        time::is_span(at as int),
        time::is_span(last as int),
    ensures
        final(out)@ == old(out)@ + windows_from(gid, first as int, last as int),
{
    let ghost before = out@;
    let ghost all = windows_from(gid, first as int, last as int);
    let mut start: Nanos = first;
    assert(out@ + all =~= before + all);
    while start <= last
        invariant
            time::is_span(last as int),
            time::is_span(at as int),
            first <= at < first + BLOCK,
            first <= start,
            start <= last + BLOCK || start == first,
            out@ + windows_from(gid, start as int, last as int) == before + all,
        decreases last - start + BLOCK,
    {
        let ghost sofar = out@;
        let w = Window { generation_id: gid, start, end: start + BLOCK };
        out.push(w);
        assert(out@ + windows_from(gid, start + BLOCK, last as int) =~= sofar + windows_from(
            gid,
            start as int,
            last as int,
        ));
        start = start + BLOCK;
    }
    assert(out@ + Seq::<Window>::empty() =~= out@);
}

// ---- signatures ---------------------------------------------------------------------

/// Texts, one after the other.
pub open spec fn joined(parts: Seq<Seq<char>>) -> Seq<char>
    decreases parts.len(),
{
    if parts.len() == 0 {
        Seq::empty()
    } else {
        joined(parts.drop_last()) + parts.last()
    }
}

proof fn lemma_joined_push(parts: Seq<Seq<char>>, x: Seq<char>)
    ensures
        joined(parts.push(x)) == joined(parts) + x,
{
    assert(parts.push(x).drop_last() =~= parts);
}

/// What stands for an open start in signatures.
pub const NO_START: Nanos = -1_000_000_000_000_000_000_000_000_000;

/// What stands for an open end in signatures.
pub const NO_END: Nanos = 1_000_000_000_000_000_000_000_000_000;

/// A bound, or what stands for an open one.
pub open spec fn bound_or(b: Option<Nanos>, open: Nanos) -> int {
    match b {
        Some(x) => x as int,
        None => open as int,
    }
}

/// A pose in a signature: its id and its time in millionths of a second.
pub open spec fn pose_part(p: PoseRow) -> Seq<char> {
    "p"@ + text::decimal(p.id as int) + "@"@ + time::shown(p.t as int, 1_000, 6)
        + ";"@
}

/// An edge in a signature: its id, its version, and its window in thousandths of a
/// second.
pub open spec fn edge_part(e: EdgeRow) -> Seq<char> {
    "e"@ + text::decimal(e.id as int) + "v"@ + text::decimal(e.version as int) + "@"@
        + time::shown(bound_or(e.valid_from, NO_START), 1_000_000, 3) + "-"@
        + time::shown(bound_or(e.valid_to, NO_END), 1_000_000, 3) + ";"@
}

/// A packet in a signature: its id, its number, its time and its summary.
pub open spec fn packet_part(p: PacketRecord) -> Seq<char> {
    "k"@ + text::decimal(p.id as int) + "/"@ + text::decimal(p.seq as int) + "@"@ + time::shown(
        p.continuous_time as int,
        1_000,
        6,
    ) + "/"@ + p.content_summary@ + ";"@
}

/// Whether a pose can bracket a time in a window.
pub open spec fn pose_matters(poses: Seq<PoseRow>, w: Window) -> spec_fn(int) -> bool {
    |i: int|
        poses[i].generation_id == w.generation_id && w.start - MAX_INTERP_GAP <= poses[i].t
            && poses[i].t <= w.end + MAX_INTERP_GAP
}

/// Whether an edge holds at some time in a window.
pub open spec fn edge_matters(edges: Seq<EdgeRow>, w: Window) -> spec_fn(int) -> bool {
    |i: int|
        (edges[i].valid_from is None || edges[i].valid_from->0 < w.end) && (
        edges[i].valid_to is None || edges[i].valid_to->0 > w.start)
}

/// Whether a packet lies in a window.
pub open spec fn packet_matters(packets: Seq<PacketRecord>, w: Window) -> spec_fn(int) -> bool {
    |i: int|
        packets[i].generation_id == w.generation_id && w.start <= packets[i].continuous_time
            && packets[i].continuous_time < w.end
}

/// What poses are sorted by: their time, then their id.
pub open spec fn pose_key(poses: Seq<PoseRow>) -> spec_fn(int) -> Seq<order::PartValue> {
    |i: int| order::pair_key(poses[i].t as int, poses[i].id as int)
}

/// The poses of a signature, by position, in order of time and id.
pub open spec fn poses_in_order(poses: Seq<PoseRow>, w: Window) -> Seq<int> {
    order::listed(poses.len() as int, pose_matters(poses, w), pose_key(poses))
}

/// The signature of a block: the version of the derivation, and every input that can
/// affect the block's points.
pub open spec fn signature_of(l: Ledger, w: Window) -> Seq<char> {
    let poses = l.poses@;
    let edges = l.edges@;
    let packets = l.packets@;
    db::ALGO_VERSION@ + "|"@ + joined(
        poses_in_order(poses, w).map_values(|i: int| pose_part(poses[i])),
    ) + joined(
        rows::all_where(edges.len() as int, edge_matters(edges, w)).map_values(
            |i: int| edge_part(edges[i]),
        ),
    ) + joined(
        rows::all_where(packets.len() as int, packet_matters(packets, w)).map_values(
            |i: int| packet_part(packets[i]),
        ),
    )
}

fn add_number(s: &mut String, n: i128)
    ensures
        final(s)@ == old(s)@ + text::decimal(n as int),
{
    let d = text::decimal_text(n);
    s.append(d.as_str());
}

fn add_fixed(s: &mut String, t: Nanos, unit: Nanos, places: u32)
    requires
        time::is_span(t as int),
        0 < unit <= 1_000_000_000,
        places <= 9,
    ensures
        final(s)@ == old(s)@ + time::shown(t as int, unit as int, places as nat),
{
    let d = time::show(t, unit, places);
    s.append(d.as_str());
}

fn add_pose(s: &mut String, p: &PoseRow)
    requires
        time::is_span(p.t as int),
    ensures
        final(s)@ == old(s)@ + pose_part(*p),
{
    let ghost before = s@;
    s.append("p");
    add_number(s, p.id as i128);
    s.append("@");
    add_fixed(s, p.t, 1_000, 6);
    s.append(";");
    assert(s@ =~= before + pose_part(*p));
}

fn add_edge_part(s: &mut String, e: &EdgeRow)
    requires
        db::bound_in_range(e.valid_from),
        db::bound_in_range(e.valid_to),
    ensures
        final(s)@ == old(s)@ + edge_part(*e),
{
    let ghost before = s@;
    s.append("e");
    add_number(s, e.id as i128);
    s.append("v");
    add_number(s, e.version as i128);
    s.append("@");
    let from: Nanos = match e.valid_from {
        Some(x) => x,
        None => NO_START,
    };
    let to: Nanos = match e.valid_to {
        Some(x) => x,
        None => NO_END,
    };
    add_fixed(s, from, 1_000_000, 3);
    s.append("-");
    add_fixed(s, to, 1_000_000, 3);
    s.append(";");
    assert(s@ =~= before + edge_part(*e));
}

fn add_packet(s: &mut String, p: &PacketRecord)
    requires
        time::is_span(p.continuous_time as int),
    ensures
        final(s)@ == old(s)@ + packet_part(*p),
{
    let ghost before = s@;
    s.append("k");
    add_number(s, p.id as i128);
    s.append("/");
    add_number(s, p.seq as i128);
    s.append("@");
    add_fixed(s, p.continuous_time, 1_000, 6);
    s.append("/");
    s.append(p.content_summary.as_str());
    s.append(";");
    assert(s@ =~= before + packet_part(*p));
}

/// Whether a window's bounds are within the range that is handled.
pub open spec fn window_in_range(w: Window) -> bool {
    &&& -time::SPAN_LIMIT - BLOCK <= w.start
    &&& w.start <= w.end
    &&& w.end <= time::SPAN_LIMIT + BLOCK
}

fn ordered_poses(db: &Ledger, w: Window) -> (r: Vec<usize>)
    requires
        window_in_range(w),
    ensures
        order::positions(r@) == poses_in_order(db.poses@, w),
        forall|i: int| 0 <= i < r@.len() ==> #[trigger] r@[i] < db.poses@.len(),
{
    let ghost shown = pose_matters(db.poses@, w);
    let ghost key_of = pose_key(db.poses@);
    let mut at: Vec<usize> = Vec::new();
    let mut keys: Vec<Vec<Part>> = Vec::new();
    let mut i: usize = 0;
    assert(order::positions(at@) =~= rows::all_where(0, shown));
    while i < db.poses.len()
        invariant
            i <= db.poses@.len(),
            window_in_range(w),
            shown == pose_matters(db.poses@, w),
            key_of == pose_key(db.poses@),
            order::positions(at@) == rows::all_where(i as int, shown),
            keys@.len() == at@.len(),
            forall|k: int|
                0 <= k < keys@.len() ==> order::key_value((#[trigger] keys@[k])@) == key_of(
                    at@[k] as int,
                ),
        decreases db.poses.len() - i,
    {
        let p = &db.poses[i];
        if p.generation_id == w.generation_id && w.start - MAX_INTERP_GAP <= p.t && p.t <= w.end
            + MAX_INTERP_GAP {
            assert(shown(i as int));
            let ghost before = order::positions(at@);
            at.push(i);
            assert(order::positions(at@) =~= before.push(i as int));
            let mut key: Vec<Part> = Vec::new();
            key.push(Part::Number(p.t));
            key.push(Part::Number(p.id as i128));
            assert(order::key_value(key@) =~= key_of(i as int));
            keys.push(key);
        } else {
            assert(!shown(i as int));
        }
        i += 1;
    }
    order::arrange(&at, &keys, Ghost(db.poses@.len() as int), Ghost(shown), Ghost(key_of))
}

/// The signature of a block.
pub fn block_signature(db: &Ledger, w: Window) -> (r: String)
    requires
        db.wf(),
        window_in_range(w),
    ensures
        r@ == signature_of(*db, w),
{
    let mut s = db::ALGO_VERSION.to_owned();
    s.append("|");
    let ghost head = s@;
    let at = ordered_poses(db, w);
    let ghost in_order = poses_in_order(db.poses@, w);
    let mut i: usize = 0;
    assert(in_order.take(0).map_values(|i: int| pose_part(db.poses@[i])) =~= Seq::<
        Seq<char>,
    >::empty());
    assert(s@ =~= head + joined(in_order.take(0).map_values(|i: int| pose_part(db.poses@[i]))));
    while i < at.len()
        invariant
            i <= at@.len(),
            db.wf(),
            in_order == order::positions(at@),
            forall|k: int| 0 <= k < at@.len() ==> #[trigger] at@[k] < db.poses@.len(),
            s@ == head + joined(
                in_order.take(i as int).map_values(|i: int| pose_part(db.poses@[i])),
            ),
        decreases at.len() - i,
    {
        let ghost parts = in_order.take(i as int).map_values(|i: int| pose_part(db.poses@[i]));
        add_pose(&mut s, &db.poses[at[i]]);
        proof {
            let x = pose_part(db.poses@[at@[i as int] as int]);
            lemma_joined_push(parts, x);
            assert(in_order.take(i + 1).map_values(|i: int| pose_part(db.poses@[i]))
                =~= parts.push(x));
            assert(s@ =~= head + joined(parts.push(x)));
        }
        i += 1;
    }
    assert(in_order.take(in_order.len() as int) =~= in_order);
    let ghost head2 = s@;
    let ghost emat = edge_matters(db.edges@, w);
    let mut j: usize = 0;
    assert(rows::all_where(0, emat).map_values(|i: int| edge_part(db.edges@[i])) =~= Seq::<
        Seq<char>,
    >::empty());
    assert(s@ =~= head2 + joined(
        rows::all_where(0, emat).map_values(|i: int| edge_part(db.edges@[i])),
    ));
    while j < db.edges.len()
        invariant
            j <= db.edges@.len(),
            db.wf(),
            emat == edge_matters(db.edges@, w),
            s@ == head2 + joined(
                rows::all_where(j as int, emat).map_values(|i: int| edge_part(db.edges@[i])),
            ),
        decreases db.edges.len() - j,
    {
        let e = &db.edges[j];
        let ghost parts = rows::all_where(j as int, emat).map_values(
            |i: int| edge_part(db.edges@[i]),
        );
        let starts = match e.valid_from {
            None => true,
            Some(a) => a < w.end,
        };
        let ends = match e.valid_to {
            None => true,
            Some(b) => b > w.start,
        };
        if starts && ends {
            add_edge_part(&mut s, e);
            proof {
                lemma_joined_push(parts, edge_part(*e));
                assert(emat(j as int));
                assert(rows::all_where(j + 1, emat).map_values(|i: int| edge_part(db.edges@[i]))
                    =~= parts.push(edge_part(*e)));
                assert(s@ =~= head2 + joined(parts.push(edge_part(*e))));
            }
        }
        j += 1;
    }
    let ghost head3 = s@;
    let ghost pmat = packet_matters(db.packets@, w);
    let mut k: usize = 0;
    assert(rows::all_where(0, pmat).map_values(|i: int| packet_part(db.packets@[i])) =~= Seq::<
        Seq<char>,
    >::empty());
    assert(s@ =~= head3 + joined(
        rows::all_where(0, pmat).map_values(|i: int| packet_part(db.packets@[i])),
    ));
    while k < db.packets.len()
        invariant
            k <= db.packets@.len(),
            db.wf(),
            pmat == packet_matters(db.packets@, w),
            s@ == head3 + joined(
                rows::all_where(k as int, pmat).map_values(|i: int| packet_part(db.packets@[i])),
            ),
        decreases db.packets.len() - k,
    {
        let p = &db.packets[k];
        let ghost parts = rows::all_where(k as int, pmat).map_values(
            |i: int| packet_part(db.packets@[i]),
        );
        if p.generation_id == w.generation_id && w.start <= p.continuous_time && p.continuous_time
            < w.end {
            add_packet(&mut s, p);
            proof {
                lemma_joined_push(parts, packet_part(*p));
                assert(pmat(k as int));
                assert(rows::all_where(k + 1, pmat).map_values(
                    |i: int| packet_part(db.packets@[i]),
                ) =~= parts.push(packet_part(*p)));
                assert(s@ =~= head3 + joined(parts.push(packet_part(*p))));
            }
        }
        k += 1;
    }
    s
}

/// How many characters the parts of some rows take.
spec fn length_of(at: Seq<int>, part: spec_fn(int) -> Seq<char>) -> int
    decreases at.len(),
{
    if at.len() == 0 {
        0
    } else {
        length_of(at.drop_last(), part) + part(at.last()).len()
    }
}

proof fn lemma_joined_length(at: Seq<int>, part: spec_fn(int) -> Seq<char>)
    ensures
        joined(at.map_values(part)).len() == length_of(at, part),
    decreases at.len(),
{
    if at.len() > 0 {
        lemma_joined_length(at.drop_last(), part);
        assert(at.map_values(part).drop_last() =~= at.drop_last().map_values(part));
    }
}

proof fn lemma_length_without(at: Seq<int>, part: spec_fn(int) -> Seq<char>, j: int)
    requires
        0 <= j < at.len(),
    ensures
        length_of(at, part) == length_of(at.remove(j), part) + part(at[j]).len(),
    decreases at.len(),
{
    if j == at.len() - 1 {
        assert(at.remove(j) =~= at.drop_last());
    } else {
        lemma_length_without(at.drop_last(), part, j);
        assert(at.remove(j).drop_last() =~= at.drop_last().remove(j));
        assert(at.remove(j).last() == at.last());
    }
}

/// Rows among others take no more characters than those, and fewer where a row with
/// a part that is not empty is left out.
proof fn lemma_length_grows(
    a: Seq<int>,
    b: Seq<int>,
    part: spec_fn(int) -> Seq<char>,
    more: spec_fn(int) -> Seq<char>,
)
    requires
        a.no_duplicates(),
        b.no_duplicates(),
        forall|x: int| #[trigger] a.contains(x) ==> b.contains(x) && more(x) == part(x),
    ensures
        length_of(a, part) <= length_of(b, more),
        forall|y: int| #[trigger] b.contains(y) && !a.contains(y) && more(y).len() > 0 ==> length_of(
            a,
            part,
        ) < length_of(b, more),
    decreases a.len(),
{
    if a.len() == 0 {
        lemma_length_is_natural(b, more);
        assert forall|y: int| #[trigger] b.contains(y) && more(y).len() > 0 implies length_of(
            b,
            more,
        ) > 0 by {
            let j = choose|j: int| 0 <= j < b.len() && b[j] == y;
            lemma_length_without(b, more, j);
            lemma_length_is_natural(b.remove(j), more);
        }
    } else {
        let x = a.last();
        let d = a.drop_last();
        assert(a[a.len() - 1] == x);
        assert(a.contains(x));
        let j = choose|j: int| 0 <= j < b.len() && b[j] == x;
        let c = b.remove(j);
        lemma_length_without(b, more, j);
        assert forall|y: int| b.contains(y) && y != x implies #[trigger] c.contains(y) by {
            let k = choose|k: int| 0 <= k < b.len() && b[k] == y;
            if k < j {
                assert(c[k] == y);
            } else {
                assert(c[k - 1] == y);
            }
        }
        assert(c.no_duplicates()) by {
            assert forall|p: int, q: int| 0 <= p < c.len() && 0 <= q < c.len() && p != q implies c[p]
                != c[q] by {
                let p2 = if p < j { p } else { p + 1 };
                let q2 = if q < j { q } else { q + 1 };
                assert(c[p] == b[p2] && c[q] == b[q2]);
            }
        }
        assert forall|y: int| #[trigger] d.contains(y) implies c.contains(y) && more(y) == part(y)
            && y != x by {
            let k = choose|k: int| 0 <= k < d.len() && d[k] == y;
            assert(a[k] == y);
            assert(a.contains(y));
        }
        lemma_length_grows(d, c, part, more);
        assert forall|y: int| #[trigger] b.contains(y) && !a.contains(y) && more(y).len()
            > 0 implies length_of(a, part) < length_of(b, more) by {
            assert(c.contains(y));
            if d.contains(y) {
                let k = choose|k: int| 0 <= k < d.len() && d[k] == y;
                assert(a[k] == y);
            }
        }
    }
}

proof fn lemma_length_is_natural(at: Seq<int>, part: spec_fn(int) -> Seq<char>)
    ensures
        length_of(at, part) >= 0,
    decreases at.len(),
{
    if at.len() > 0 {
        lemma_length_is_natural(at.drop_last(), part);
    }
}

/// The chosen ones among `n` rows are also chosen among more, where the choice is the
/// same for the first `n`.
proof fn lemma_chosen_among_more(
    n: int,
    m: int,
    f: spec_fn(int) -> bool,
    g: spec_fn(int) -> bool,
    part: spec_fn(int) -> Seq<char>,
    more: spec_fn(int) -> Seq<char>,
)
    requires
        0 <= n <= m,
        forall|i: int| 0 <= i < n ==> #[trigger] f(i) == g(i),
        forall|i: int| 0 <= i < n ==> #[trigger] part(i) == more(i),
    ensures
        length_of(rows::all_where(n, f), part) <= length_of(rows::all_where(m, g), more),
        forall|i: int|
            n <= i < m && #[trigger] g(i) && more(i).len() > 0 ==> length_of(
                rows::all_where(n, f),
                part,
            ) < length_of(rows::all_where(m, g), more),
{
    let a = rows::all_where(n, f);
    let b = rows::all_where(m, g);
    rows::lemma_all_where(n, f);
    rows::lemma_all_where(m, g);
    assert forall|x: int| #[trigger] a.contains(x) implies b.contains(x) && more(x) == part(x)
        && 0 <= x < n by {
        let k = choose|k: int| 0 <= k < a.len() && a[k] == x;
        assert(f(a[k]));
        assert(part(x) == more(x));
    }
    lemma_length_grows(a, b, part, more);
    assert forall|i: int| n <= i < m && #[trigger] g(i) && more(i).len() > 0 implies length_of(
        a,
        part,
    ) < length_of(b, more) by {
        assert(b.contains(i));
        assert(!a.contains(i));
    }
}

/// A listing takes as many characters as the rows that it lists.
proof fn lemma_listing_length(
    n: int,
    shown: spec_fn(int) -> bool,
    key: spec_fn(int) -> Seq<order::PartValue>,
    part: spec_fn(int) -> Seq<char>,
)
    ensures
        length_of(order::listed(n, shown, key), part) == length_of(rows::all_where(n, shown), part),
{
    let a = rows::all_where(n, shown);
    let b = order::listed(n, shown, key);
    rows::lemma_all_where(n, shown);
    order::law_listing_holds_what_is_shown(n, shown, key);
    assert forall|x: int| #[trigger] a.contains(x) implies b.contains(x) by {
        let k = choose|k: int| 0 <= k < a.len() && a[k] == x;
        assert(shown(a[k]));
    }
    assert forall|x: int| #[trigger] b.contains(x) implies a.contains(x) by {
        let k = choose|k: int| 0 <= k < b.len() && b[k] == x;
        assert(shown(b[k]));
    }
    lemma_length_grows(a, b, part, part);
    lemma_length_grows(b, a, part, part);
}

/// Whether a ledger holds every imported fact of another, in the same place.
pub open spec fn extends(l2: Ledger, l: Ledger) -> bool {
    &&& l.poses@.is_prefix_of(l2.poses@)
    &&& l.edges@.is_prefix_of(l2.edges@)
    &&& l.packets@.is_prefix_of(l2.packets@)
}

/// A further pose that can bracket a time in the window, a further edge that holds at
/// some time in it, and a further packet that lies in it each change the signature of its
/// block.
pub proof fn law_further_input_changes_signature(l: Ledger, l2: Ledger, w: Window, i: int)
    requires
        extends(l2, l),
        ({
            ||| l.poses@.len() <= i < l2.poses@.len() && pose_matters(l2.poses@, w)(i)
            ||| l.edges@.len() <= i < l2.edges@.len() && edge_matters(l2.edges@, w)(i)
            ||| l.packets@.len() <= i < l2.packets@.len() && packet_matters(l2.packets@, w)(i)
        }),
    ensures
        signature_of(l2, w) != signature_of(l, w),
{
    let p = l.poses@;
    let p2 = l2.poses@;
    let e = l.edges@;
    let e2 = l2.edges@;
    let k = l.packets@;
    let k2 = l2.packets@;
    let pp = |i: int| pose_part(p[i]);
    let pp2 = |i: int| pose_part(p2[i]);
    let ep = |i: int| edge_part(e[i]);
    let ep2 = |i: int| edge_part(e2[i]);
    let kp = |i: int| packet_part(k[i]);
    let kp2 = |i: int| packet_part(k2[i]);
    let n = p.len() as int;
    lemma_joined_length(poses_in_order(p, w), pp);
    lemma_joined_length(poses_in_order(p2, w), pp2);
    lemma_joined_length(rows::all_where(e.len() as int, edge_matters(e, w)), ep);
    lemma_joined_length(rows::all_where(e2.len() as int, edge_matters(e2, w)), ep2);
    lemma_joined_length(rows::all_where(k.len() as int, packet_matters(k, w)), kp);
    lemma_joined_length(rows::all_where(k2.len() as int, packet_matters(k2, w)), kp2);
    lemma_listing_length(n, pose_matters(p, w), pose_key(p), pp);
    lemma_listing_length(p2.len() as int, pose_matters(p2, w), pose_key(p2), pp2);
    lemma_chosen_among_more(n, p2.len() as int, pose_matters(p, w), pose_matters(p2, w), pp, pp2);
    lemma_chosen_among_more(
        e.len() as int,
        e2.len() as int,
        edge_matters(e, w),
        edge_matters(e2, w),
        ep,
        ep2,
    );
    lemma_chosen_among_more(
        k.len() as int,
        k2.len() as int,
        packet_matters(k, w),
        packet_matters(k2, w),
        kp,
        kp2,
    );
    reveal_strlit(";");
    assert(pp2(i).len() > 0 && ep2(i).len() > 0 && kp2(i).len() > 0);
    assert(signature_of(l2, w).len() > signature_of(l, w).len());
}

/// A signature depends on imported facts alone, not on what has been derived.
pub proof fn law_signature_depends_on_facts_alone(a: Ledger, b: Ledger, w: Window)
    requires
        a.same_facts(b),
    ensures
        signature_of(a, w) == signature_of(b, w),
{
}

// ---- poses, windows and signatures, in plain terms ------------------------------------------------

/// Whether a pose is the one of a generation nearest to a time on its left; of equal ones
/// the last.
pub open spec fn is_left(poses: Seq<PoseRow>, gid: int, t: int, l: int) -> bool {
    &&& 0 <= l < poses.len()
    &&& poses[l].generation_id == gid
    &&& poses[l].t <= t
    &&& forall|i: int|
        0 <= i < poses.len() && (#[trigger] poses[i]).generation_id == gid && poses[i].t <= t
            ==> poses[i].t < poses[l].t || (poses[i].t == poses[l].t && i <= l)
}

/// Whether a pose is the one of a generation nearest to a time on its right; of equal ones
/// the first.
pub open spec fn is_right(poses: Seq<PoseRow>, gid: int, t: int, r: int) -> bool {
    &&& 0 <= r < poses.len()
    &&& poses[r].generation_id == gid
    &&& poses[r].t >= t
    &&& forall|i: int|
        0 <= i < poses.len() && (#[trigger] poses[i]).generation_id == gid && poses[i].t >= t
            ==> poses[i].t > poses[r].t || (poses[i].t == poses[r].t && i >= r)
}

/// A time is interpolated between the nearest poses on its two sides, where they come from
/// one packet or are apart, but not by more than two tenths of a second; and nowhere else.
pub proof fn law_nearest_poses_are_interpolated(
    poses: Seq<PoseRow>,
    gid: int,
    t: int,
    l: int,
    r: int,
)
    ensures
        is_left(poses, gid, t, l) && is_right(poses, gid, t, r) ==> {
            let close = poses[l].packet_id == poses[r].packet_id || 0 < poses[r].t - poses[l].t
                <= 200_000_000;
            &&& close ==> bracket(poses, gid, t) == Ok::<(int, int), Seq<char>>((l, r))
            &&& !close ==> bracket(poses, gid, t) is Err
            &&& !close && poses[r].t - poses[l].t > 200_000_000 ==> bracket(poses, gid, t)
                == Err::<(int, int), Seq<char>>(
                "pose gap exceeds allowed interpolation interval"@,
            )
        },
        bracket(poses, gid, t) matches Ok((x, y)) ==> is_left(poses, gid, t, x) && is_right(
            poses,
            gid,
            t,
            y,
        ),
        (forall|i: int|
            0 <= i < poses.len() && (#[trigger] poses[i]).generation_id == gid ==> poses[i].t > t)
            ==> bracket(poses, gid, t) == Err::<(int, int), Seq<char>>(
            "no pose at or before time (new generation edge?)"@,
        ),
{
    lemma_left(poses, gid, t, poses.len() as int);
    lemma_right(poses, gid, t, poses.len() as int);
    if let Some(x) = left_of(poses, gid, t, poses.len() as int) {
        assert(poses[x].generation_id == gid);
    }
    if let Some(y) = right_of(poses, gid, t, poses.len() as int) {
        assert(poses[y].generation_id == gid);
    }
    if is_left(poses, gid, t, l) && is_right(poses, gid, t, r) {
        assert(poses[l].generation_id == gid && poses[r].generation_id == gid);
    }
}

/// The gap between two poses is the time between them, none between poses of one packet.
pub proof fn law_gap_is_the_time_between(poses: Seq<PoseRow>, l: int, r: int)
    ensures
        poses[l].packet_id != poses[r].packet_id ==> poses[l].t + gap_of(poses, l, r)
            == poses[r].t,
        poses[l].packet_id == poses[r].packet_id ==> gap_of(poses, l, r) == 0,
{
}

/// A window starts at a whole number of half seconds, at or before its times and less than
/// half a second before them.
pub proof fn law_window_is_half_a_second(t: int)
    ensures
        window_start(t) % 500_000_000 == 0,
        window_start(t) <= t < window_start(t) + 500_000_000,
{
}

proof fn lemma_window_from(gid: i64, start: int, last: int, w: Window)
    requires
        -time::SPAN_LIMIT - BLOCK <= start,
        last <= time::SPAN_LIMIT,
    ensures
        windows_from(gid, start, last).contains(w) <==> {
            &&& w.generation_id == gid
            &&& (w.start - start) % 500_000_000 == 0
            &&& start <= w.start <= last
            &&& w.end == w.start + 500_000_000
        },
    decreases last - start + BLOCK,
{
    let all = windows_from(gid, start, last);
    if start <= last {
        let head = Window { generation_id: gid, start: start as i128, end: (start + BLOCK) as i128 };
        let rest = windows_from(gid, start + BLOCK, last);
        lemma_window_from(gid, start + BLOCK, last, w);
        assert(all == seq![head] + rest);
        assert(all[0] == head);
        if all.contains(w) {
            let i = choose|i: int| 0 <= i < all.len() && all[i] == w;
            if i > 0 {
                assert(rest[i - 1] == w);
                assert(rest.contains(w));
            }
        }
        if rest.contains(w) {
            let i = choose|i: int| 0 <= i < rest.len() && rest[i] == w;
            assert(all[i + 1] == w);
        }
        if w.generation_id == gid && (w.start - start) % 500_000_000 == 0 && start <= w.start
            <= last && w.end == w.start + 500_000_000 {
            if w.start == start {
                assert(all[0] == w);
            } else {
                assert(w.start >= start + 500_000_000);
                assert((w.start - (start + BLOCK)) % 500_000_000 == 0);
            }
        }
    }
}

/// The first and the last time of a generation are those of packets of it, and all its
/// packets lie between them.
pub proof fn law_first_and_last_time(packets: Seq<PacketRecord>, gid: int, n: int)
    requires
        0 <= n <= packets.len(),
    ensures
        first_time(packets, gid, n) is Some == last_time(packets, gid, n) is Some,
        first_time(packets, gid, n) is Some ==> (exists|i: int|
            0 <= i < n && (#[trigger] packets[i]).generation_id == gid && packets[i].continuous_time
                == first_time(packets, gid, n)->0) && (exists|i: int|
            0 <= i < n && (#[trigger] packets[i]).generation_id == gid && packets[i].continuous_time
                == last_time(packets, gid, n)->0),
        forall|i: int|
            0 <= i < n && (#[trigger] packets[i]).generation_id == gid ==> first_time(
                packets,
                gid,
                n,
            ) is Some && first_time(packets, gid, n)->0 <= packets[i].continuous_time <= last_time(
                packets,
                gid,
                n,
            )->0,
    decreases n,
{
    if n > 0 {
        law_first_and_last_time(packets, gid, n - 1);
        let p = packets[n - 1];
        if p.generation_id == gid {
            assert(packets[n - 1].generation_id == gid);
        }
    }
}

/// Of two starts of windows, one that holds a time and another, the second is not before the
/// first where its window ends after the time.
proof fn lemma_aligned(s: int, x: int, a: int)
    requires
        s % 500_000_000 == 0,
        s <= a < s + 500_000_000,
    ensures
        (x - s) % 500_000_000 == 0 <==> x % 500_000_000 == 0,
        x % 500_000_000 == 0 ==> (s <= x <==> a < x + 500_000_000),
{
}

/// The windows of a generation are the half seconds from the one of its first packet to the
/// one of its last: every packet lies in one, and no window lies outside its packets.
#[verifier::spinoff_prover]
pub proof fn law_windows_of_a_generation(l: Ledger, gid: i64, w: Window)
    requires
        l.wf(),
    ensures
        windows_of(l.packets@, gid).contains(w) <==> {
            &&& w.generation_id == gid
            &&& w.start as int % 500_000_000 == 0
            &&& w.end == w.start + 500_000_000
            &&& exists|i: int|
                0 <= i < l.packets@.len() && (#[trigger] l.packets@[i]).generation_id == gid
                    && l.packets@[i].continuous_time < w.end
            &&& exists|i: int|
                0 <= i < l.packets@.len() && (#[trigger] l.packets@[i]).generation_id == gid
                    && w.start <= l.packets@[i].continuous_time
        },
{
    let packets = l.packets@;
    let n = packets.len() as int;
    law_first_and_last_time(packets, gid as int, n);
    if first_time(packets, gid as int, n) is Some {
        let a = first_time(packets, gid as int, n)->0;
        let b = last_time(packets, gid as int, n)->0;
        let i = choose|i: int|
            0 <= i < n && (#[trigger] packets[i]).generation_id == gid && packets[i].continuous_time
                == a;
        let j = choose|j: int|
            0 <= j < n && (#[trigger] packets[j]).generation_id == gid && packets[j].continuous_time
                == b;
        assert(time::is_span(packets[i].continuous_time as int));
        assert(time::is_span(packets[j].continuous_time as int));
        lemma_window_from(gid, window_start(a), b, w);
        lemma_aligned(window_start(a), w.start as int, a);
        assert(packets[i].continuous_time == a && packets[j].continuous_time == b);
        if w.generation_id == gid && w.start as int % 500_000_000 == 0 && w.end == w.start
            + 500_000_000 {
            assert(window_start(a) <= w.start <==> a < w.end);
            if w.start <= b {
                assert(w.start <= packets[j].continuous_time);
            }
            if a < w.end {
                assert(packets[i].continuous_time < w.end);
            }
        }
    }
}

/// Every packet of a generation that is there lies in a listed window.
pub proof fn law_every_packet_lies_in_a_window(l: Ledger, g: int, i: int)
    requires
        l.wf(),
        0 <= g < l.generations@.len(),
        0 <= i < l.packets@.len(),
        l.packets@[i].generation_id == l.generations@[g].id,
    ensures
        exists|w: Window| #[trigger]
            all_windows(l).contains(w) && w.generation_id == l.packets@[i].generation_id
                && w.start <= l.packets@[i].continuous_time < w.end && w.end == w.start
                + 500_000_000,
{
    let p = l.packets@[i];
    assert(time::is_span(p.continuous_time as int));
    let start = window_start(p.continuous_time as int);
    let w = Window {
        generation_id: p.generation_id,
        start: start as i128,
        end: (start + BLOCK) as i128,
    };
    law_windows_of_a_generation(l, p.generation_id, w);
    assert(l.packets@[i].continuous_time < w.end && w.start <= l.packets@[i].continuous_time);
    lemma_windows_among(l, l.generations@.len() as int, w);
    assert(windows_of(l.packets@, l.generations@[g].id).contains(w));
    assert(all_windows(l).contains(w));
}

proof fn lemma_windows_among(l: Ledger, n: int, w: Window)
    requires
        0 <= n <= l.generations@.len(),
    ensures
        windows_among(l, n).contains(w) <==> exists|g: int|
            0 <= g < n && windows_of(l.packets@, (#[trigger] l.generations@[g]).id).contains(w),
    decreases n,
{
    if n > 0 {
        lemma_windows_among(l, n - 1, w);
        let a = windows_among(l, n - 1);
        let b = windows_of(l.packets@, l.generations@[n - 1].id);
        let all = windows_among(l, n);
        assert(all == a + b);
        if all.contains(w) {
            let i = choose|i: int| 0 <= i < all.len() && all[i] == w;
            if i < a.len() {
                assert(a[i] == w);
                assert(a.contains(w));
            } else {
                assert(b[i - a.len()] == w);
                assert(b.contains(w));
                assert(windows_of(l.packets@, l.generations@[n - 1].id).contains(w));
            }
        }
        if a.contains(w) {
            let i = choose|i: int| 0 <= i < a.len() && a[i] == w;
            assert(all[i] == w);
        }
        if b.contains(w) {
            let i = choose|i: int| 0 <= i < b.len() && b[i] == w;
            assert(all[a.len() + i] == w);
        }
        if exists|g: int|
            0 <= g < n && windows_of(l.packets@, (#[trigger] l.generations@[g]).id).contains(w) {
            let g = choose|g: int|
                0 <= g < n && windows_of(l.packets@, (#[trigger] l.generations@[g]).id).contains(w);
            if g < n - 1 {
                assert(a.contains(w));
            } else {
                assert(b.contains(w));
            }
        }
    }
}

/// The windows that are listed are those of the generations.
pub proof fn law_listed_windows_are_those_of_the_generations(l: Ledger, w: Window)
    ensures
        all_windows(l).contains(w) <==> exists|g: int|
            0 <= g < l.generations@.len() && windows_of(
                l.packets@,
                (#[trigger] l.generations@[g]).id,
            ).contains(w),
{
    lemma_windows_among(l, l.generations@.len() as int, w);
}

/// A further pose of the generation changes a block's signature where it lies no more than
/// two tenths of a second outside the window, a further edge where its validity meets the
/// window, a further packet of the generation where it lies in the window.
pub proof fn law_input_near_a_window_changes_its_signature(l: Ledger, l2: Ledger, w: Window, i: int)
    requires
        extends(l2, l),
        ({
            ||| l.poses@.len() <= i < l2.poses@.len() && l2.poses@[i].generation_id
                == w.generation_id && w.start - 200_000_000 <= l2.poses@[i].t <= w.end
                + 200_000_000
            ||| l.edges@.len() <= i < l2.edges@.len() && (l2.edges@[i].valid_from is None
                || l2.edges@[i].valid_from->0 < w.end) && (l2.edges@[i].valid_to is None
                || l2.edges@[i].valid_to->0 > w.start)
            ||| l.packets@.len() <= i < l2.packets@.len() && l2.packets@[i].generation_id
                == w.generation_id && w.start <= l2.packets@[i].continuous_time < w.end
        }),
    ensures
        signature_of(l2, w) != signature_of(l, w),
{
    law_further_input_changes_signature(l, l2, w, i);
}

proof fn lemma_unlisted_row(
    n: int,
    f: spec_fn(int) -> bool,
    g: spec_fn(int) -> bool,
    part: spec_fn(int) -> Seq<char>,
    more: spec_fn(int) -> Seq<char>,
)
    requires
        n >= 0,
        forall|i: int| 0 <= i < n ==> #[trigger] f(i) == g(i),
        forall|i: int| 0 <= i < n ==> #[trigger] part(i) == more(i),
        !g(n),
    ensures
        rows::all_where(n + 1, g) == rows::all_where(n, f),
        rows::all_where(n + 1, g).map_values(more) == rows::all_where(n, f).map_values(part),
{
    rows::lemma_same_rows(n, f, g);
    rows::lemma_all_where(n, f);
    assert(rows::all_where(n + 1, g).map_values(more) =~= rows::all_where(n, f).map_values(part));
}

/// A further pose of another generation, or more than two tenths of a second outside the
/// window, leaves a block's signature as it is; so does an edge whose validity misses the
/// window, and a packet of another generation or outside the window.
pub proof fn law_input_far_from_a_window_leaves_its_signature(l: Ledger, l2: Ledger, w: Window)
    requires
        ({
            ||| {
                &&& l2.edges@ == l.edges@
                &&& l2.packets@ == l.packets@
                &&& l2.poses@.len() == l.poses@.len() + 1
                &&& l2.poses@.drop_last() == l.poses@
                &&& l2.poses@.last().generation_id != w.generation_id || l2.poses@.last().t
                    < w.start - 200_000_000 || l2.poses@.last().t > w.end + 200_000_000
            }
            ||| {
                &&& l2.poses@ == l.poses@
                &&& l2.packets@ == l.packets@
                &&& l2.edges@.len() == l.edges@.len() + 1
                &&& l2.edges@.drop_last() == l.edges@
                &&& (l2.edges@.last().valid_from is Some && l2.edges@.last().valid_from->0
                    >= w.end) || (l2.edges@.last().valid_to is Some && l2.edges@.last().valid_to->0
                    <= w.start)
            }
            ||| {
                &&& l2.poses@ == l.poses@
                &&& l2.edges@ == l.edges@
                &&& l2.packets@.len() == l.packets@.len() + 1
                &&& l2.packets@.drop_last() == l.packets@
                &&& l2.packets@.last().generation_id != w.generation_id
                    || l2.packets@.last().continuous_time < w.start
                    || l2.packets@.last().continuous_time >= w.end
            }
        }),
    ensures
        signature_of(l2, w) == signature_of(l, w),
{
    let p = l.poses@;
    let p2 = l2.poses@;
    let e = l.edges@;
    let e2 = l2.edges@;
    let k = l.packets@;
    let k2 = l2.packets@;
    if p2 != p {
        let n = p.len() as int;
        assert forall|i: int| 0 <= i < n implies p2[i] == p[i] by {
            assert(p2.drop_last()[i] == p2[i]);
        }
        let f = pose_matters(p, w);
        let g = pose_matters(p2, w);
        let pp = |i: int| pose_part(p[i]);
        let pp2 = |i: int| pose_part(p2[i]);
        assert(p2[n] == p2.last());
        assert(!g(n));
        lemma_unlisted_row(n, f, g, pp, pp2);
        let at = rows::all_where(n, f);
        rows::lemma_all_where(n, f);
        let key = pose_key(p);
        let key2 = pose_key(p2);
        assert(at.map_values(key2) =~= at.map_values(key));
        assert(poses_in_order(p2, w) == poses_in_order(p, w));
        order::law_listing_holds_what_is_shown(n, f, key);
        let shown = poses_in_order(p, w);
        assert forall|i: int| 0 <= i < shown.len() implies pp2(#[trigger] shown[i]) == pp(
            shown[i],
        ) by {
            assert(0 <= order::listed(n, f, key)[i] < n);
        }
        assert(shown.map_values(pp2) =~= shown.map_values(pp));
    }
    if e2 != e {
        let n = e.len() as int;
        assert forall|i: int| 0 <= i < n implies e2[i] == e[i] by {
            assert(e2.drop_last()[i] == e2[i]);
        }
        assert(e2[n] == e2.last());
        assert(!edge_matters(e2, w)(n));
        lemma_unlisted_row(
            n,
            edge_matters(e, w),
            edge_matters(e2, w),
            |i: int| edge_part(e[i]),
            |i: int| edge_part(e2[i]),
        );
    }
    if k2 != k {
        let n = k.len() as int;
        assert forall|i: int| 0 <= i < n implies k2[i] == k[i] by {
            assert(k2.drop_last()[i] == k2[i]);
        }
        assert(k2[n] == k2.last());
        assert(!packet_matters(k2, w)(n));
        lemma_unlisted_row(
            n,
            packet_matters(k, w),
            packet_matters(k2, w),
            |i: int| packet_part(k[i]),
            |i: int| packet_part(k2[i]),
        );
    }
}

/// A pose's part of a signature reads as its id and its time, to the millionth of a second.
pub proof fn law_pose_part_reads_back(p: PoseRow)
    ensures
        exists|x: Seq<char>, y: Seq<char>|
            text::reads_as(x, p.id as int) && time::reads_near(y, p.t as int, 1_000, 6)
                && pose_part(p) == #[trigger] ("p"@ + x + "@"@ + y + ";"@),
{
    let x = text::decimal(p.id as int);
    let y = time::shown(p.t as int, 1_000, 6);
    text::law_decimal_reads_as_its_integer(p.id as int, 0);
    time::law_shown_time_reads_back(p.t as int, 1_000, 6);
    assert(pose_part(p) == "p"@ + x + "@"@ + y + ";"@);
}

/// An edge's part of a signature reads as its id, its version, and the bounds of its
/// window, to the thousandth of a second, with times far out for open ones.
pub proof fn law_edge_part_reads_back(e: EdgeRow)
    ensures
        exists|x: Seq<char>, v: Seq<char>, a: Seq<char>, b: Seq<char>|
            text::reads_as(x, e.id as int) && text::reads_as(v, e.version as int)
                && time::reads_near(
                a,
                if e.valid_from is Some {
                    e.valid_from->0 as int
                } else {
                    -1_000_000_000_000_000_000_000_000_000
                },
                1_000_000,
                3,
            ) && time::reads_near(
                b,
                if e.valid_to is Some {
                    e.valid_to->0 as int
                } else {
                    1_000_000_000_000_000_000_000_000_000
                },
                1_000_000,
                3,
            ) && edge_part(e) == #[trigger] ("e"@ + x + "v"@ + v + "@"@ + a + "-"@ + b + ";"@),
{
    let x = text::decimal(e.id as int);
    let v = text::decimal(e.version as int);
    let a = time::shown(bound_or(e.valid_from, NO_START), 1_000_000, 3);
    let b = time::shown(bound_or(e.valid_to, NO_END), 1_000_000, 3);
    text::law_decimal_reads_as_its_integer(e.id as int, 0);
    text::law_decimal_reads_as_its_integer(e.version as int, 0);
    time::law_shown_time_reads_back(bound_or(e.valid_from, NO_START), 1_000_000, 3);
    time::law_shown_time_reads_back(bound_or(e.valid_to, NO_END), 1_000_000, 3);
    assert(edge_part(e) == "e"@ + x + "v"@ + v + "@"@ + a + "-"@ + b + ";"@);
}

/// A packet's part of a signature reads as its id, its number, its time to the millionth of
/// a second, and its summary.
pub proof fn law_packet_part_reads_back(p: PacketRecord)
    ensures
        exists|x: Seq<char>, n: Seq<char>, y: Seq<char>|
            text::reads_as(x, p.id as int) && text::reads_as(n, p.seq as int) && time::reads_near(
                y,
                p.continuous_time as int,
                1_000,
                6,
            ) && packet_part(p) == #[trigger] ("k"@ + x + "/"@ + n + "@"@ + y + "/"@
                + p.content_summary@ + ";"@),
{
    let x = text::decimal(p.id as int);
    let n = text::decimal(p.seq as int);
    let y = time::shown(p.continuous_time as int, 1_000, 6);
    text::law_decimal_reads_as_its_integer(p.id as int, 0);
    text::law_decimal_reads_as_its_integer(p.seq as int, 0);
    time::law_shown_time_reads_back(p.continuous_time as int, 1_000, 6);
    assert(packet_part(p) == "k"@ + x + "/"@ + n + "@"@ + y + "/"@ + p.content_summary@ + ";"@);
}

/// The poses of a signature are those of its generation up to two tenths of a second from
/// the window, earlier ones first, and of those at one time the ones with smaller ids.
pub proof fn law_poses_of_a_signature_are_in_order(
    poses: Seq<PoseRow>,
    w: Window,
    x: int,
    i: int,
    j: int,
)
    ensures
        poses_in_order(poses, w).contains(x) <==> 0 <= x < poses.len() && poses[x].generation_id
            == w.generation_id && w.start - 200_000_000 <= poses[x].t <= w.end + 200_000_000,
        0 <= i < j < poses_in_order(poses, w).len() ==> {
            let a = poses[poses_in_order(poses, w)[i]];
            let b = poses[poses_in_order(poses, w)[j]];
            a.t < b.t || (a.t == b.t && a.id <= b.id)
        },
{
    let n = poses.len() as int;
    let shown = pose_matters(poses, w);
    let key = pose_key(poses);
    order::law_listing_holds_what_is_shown(n, shown, key);
    let l = poses_in_order(poses, w);
    if l.contains(x) {
        let k = choose|k: int| 0 <= k < l.len() && l[k] == x;
        assert(shown(l[k]));
    }
    if 0 <= x < n && poses[x].generation_id == w.generation_id && w.start - 200_000_000
        <= poses[x].t <= w.end + 200_000_000 {
        assert(shown(x));
    }
    if 0 <= i < j < l.len() {
        let a = poses[l[i]];
        let b = poses[l[j]];
        assert(!order::key_before(key(l[j]), key(l[i])));
        order::lemma_pair_key_before(b.t as int, b.id as int, a.t as int, a.id as int);
    }
}

} // verus!
