//! What the web pages list: counts, streams, packets, blocks, poses, and derived points
//! grouped by the frame that they came in.

use crate::order;
use crate::order::Part;
use crate::rows;
use crate::scalar::Scalar;
use crate::text;
use vstd::prelude::*;
use vstd::string::*;

verus! {

/// A point in the map with the raw point that it was made from.
#[derive(Clone, Copy, Debug)]
pub struct MapPoint {
    pub id: i64,
    pub map: [Scalar; 3],
    pub raw: [Scalar; 3],
}

/// A row of points in order of frame time: a frame, and one of its points if it has any.
#[derive(Clone, Debug)]
pub struct FramePoint {
    pub frame_id: i64,
    pub time_ms: i64,
    pub generation: i64,
    pub status: String,
    pub point: Option<MapPoint>,
}

/// A frame with its points.
#[derive(Clone, Debug)]
pub struct FrameGroup {
    pub frame_id: i64,
    pub time_ms: i64,
    pub generation: i64,
    pub status: String,
    pub points: Vec<MapPoint>,
}

/// What a frame with its points stands for.
pub struct GroupValue {
    pub frame_id: i64,
    pub time_ms: i64,
    pub generation: i64,
    pub status: Seq<char>,
    pub points: Seq<MapPoint>,
}

impl View for FrameGroup {
    type V = GroupValue;

    open spec fn view(&self) -> GroupValue {
        GroupValue {
            frame_id: self.frame_id,
            time_ms: self.time_ms,
            generation: self.generation,
            status: self.status@,
            points: self.points@,
        }
    }
}

/// What a list of frames stands for.
pub open spec fn group_values(g: Seq<FrameGroup>) -> Seq<GroupValue> {
    g.map_values(|x: FrameGroup| x@)
}

/// The point of a row, as a list.
pub open spec fn point_of(r: FramePoint) -> Seq<MapPoint> {
    match r.point {
        Some(p) => seq![p],
        None => Seq::empty(),
    }
}

/// A frame that starts with a row.
pub open spec fn opened(r: FramePoint) -> GroupValue {
    GroupValue {
        frame_id: r.frame_id,
        time_ms: r.time_ms,
        generation: r.generation,
        status: r.status@,
        points: point_of(r),
    }
}

/// A frame with one more row.
pub open spec fn extended(g: GroupValue, r: FramePoint) -> GroupValue {
    GroupValue { points: g.points + point_of(r), ..g }
}

/// The frames of the first `n` rows: rows next to each other with one frame id make one
/// frame.
pub open spec fn grouped(rows: Seq<FramePoint>, n: int) -> Seq<GroupValue>
    decreases n,
{
    if n <= 0 {
        Seq::empty()
    } else {
        let before = grouped(rows, n - 1);
        let r = rows[n - 1];
        if before.len() > 0 && before.last().frame_id == r.frame_id {
            before.update(before.len() - 1, extended(before.last(), r))
        } else {
            before.push(opened(r))
        }
    }
}

/// The points of the first `n` rows.
pub open spec fn points_in(rows: Seq<FramePoint>, n: int) -> Seq<MapPoint>
    decreases n,
{
    if n <= 0 {
        Seq::empty()
    } else {
        points_in(rows, n - 1) + point_of(rows[n - 1])
    }
}

/// The points of the first `n` frames.
pub open spec fn points_of(groups: Seq<GroupValue>, n: int) -> Seq<MapPoint>
    decreases n,
{
    if n <= 0 {
        Seq::empty()
    } else {
        points_of(groups, n - 1) + groups[n - 1].points
    }
}

/// Groups rows by frame.
pub fn group_frames(rows: &Vec<FramePoint>) -> (r: Vec<FrameGroup>)
    ensures
        group_values(r@) == grouped(rows@, rows@.len() as int),
{
    let mut out: Vec<FrameGroup> = Vec::new();
    let mut i: usize = 0;
    assert(group_values(out@) =~= grouped(rows@, 0));
    while i < rows.len()
        invariant
            i <= rows@.len(),
            group_values(out@) == grouped(rows@, i as int),
        decreases rows.len() - i,
    {
        let r = &rows[i];
        let n: usize = out.len();
        let ghost before = group_values(out@);
        assert(before.len() == n);
        if n > 0 && out[n - 1].frame_id == r.frame_id {
            let ghost last = out@[n - 1]@;
            assert(before.last() == last);
            if let Some(p) = r.point {
                out[n - 1].points.push(p);
                assert(out@[n - 1]@.points =~= last.points + seq![p]);
            } else {
                assert(last.points + Seq::<MapPoint>::empty() =~= last.points);
            }
            assert(group_values(out@) =~= before.update(n - 1, extended(last, *r)));
        } else {
            let mut points: Vec<MapPoint> = Vec::new();
            if let Some(p) = r.point {
                points.push(p);
            }
            assert(points@ =~= point_of(*r));
            out.push(
                FrameGroup {
                    frame_id: r.frame_id,
                    time_ms: r.time_ms,
                    generation: r.generation,
                    status: r.status.clone(),
                    points,
                },
            );
            assert(group_values(out@) =~= before.push(opened(*r)));
        }
        i += 1;
    }
    out
}

proof fn lemma_points_updated(groups: Seq<GroupValue>, g: GroupValue, n: int)
    requires
        0 <= n < groups.len(),
    ensures
        points_of(groups.update(groups.len() - 1, g), n) == points_of(groups, n),
    decreases n,
{
    if n > 0 {
        lemma_points_updated(groups, g, n - 1);
    }
}

proof fn lemma_points_pushed(groups: Seq<GroupValue>, g: GroupValue, n: int)
    requires
        0 <= n <= groups.len(),
    ensures
        points_of(groups.push(g), n) == points_of(groups, n),
    decreases n,
{
    if n > 0 {
        lemma_points_pushed(groups, g, n - 1);
    }
}

/// Grouping loses no point, adds none, and keeps their order; and frames next to each
/// other are different frames.
pub proof fn law_grouping_keeps_every_point(rows: Seq<FramePoint>, n: int)
    requires
        0 <= n <= rows.len(),
    ensures
        points_of(grouped(rows, n), grouped(rows, n).len() as int) == points_in(rows, n),
        forall|i: int|
            0 < i < grouped(rows, n).len() ==> (#[trigger] grouped(rows, n)[i]).frame_id
                != grouped(rows, n)[i - 1].frame_id,
    decreases n,
{
    if n > 0 {
        law_grouping_keeps_every_point(rows, n - 1);
        let before = grouped(rows, n - 1);
        let now = grouped(rows, n);
        let r = rows[n - 1];
        let len = before.len() as int;
        if len > 0 && before.last().frame_id == r.frame_id {
            let g = extended(before.last(), r);
            lemma_points_updated(before, g, len - 1);
            assert(points_of(now, len) =~= points_of(before, len) + point_of(r));
            assert forall|i: int| 0 < i < now.len() implies (#[trigger] now[i]).frame_id != now[i
                - 1].frame_id by {
                assert(before[i].frame_id != before[i - 1].frame_id);
            }
        } else {
            lemma_points_pushed(before, opened(r), len);
            assert forall|i: int| 0 < i < now.len() implies (#[trigger] now[i]).frame_id != now[i
                - 1].frame_id by {
                if i < len {
                    assert(before[i].frame_id != before[i - 1].frame_id);
                }
            }
        }
    }
}

// ---- tables ---------------------------------------------------------------------------------

/// A stream of packets of one device.
#[derive(Clone, Debug)]
pub struct StreamRow {
    pub id: i64,
    pub device_id: String,
    pub kind: String,
    pub coord_frame: String,
    pub unit: String,
}

/// A packet of a stream.
#[derive(Clone, Debug)]
pub struct PacketRow {
    pub id: i64,
    pub stream_id: i64,
    pub generation: i64,
    pub seq: i64,
    pub gps_ms: i64,
    pub raw_clock: String,
    pub raw_ts: String,
    pub coord_frame: String,
    pub unit: String,
    pub content_summary: String,
    pub flag: String,
    pub received_order: i64,
}

/// A lidar frame. Of frames that repeat each other one is canonical.
#[derive(Clone, Copy, Debug)]
pub struct FrameRow {
    pub id: i64,
    pub time_ms: i64,
    pub generation: i64,
    pub canonical: bool,
}

/// A point of a lidar frame.
#[derive(Clone, Copy, Debug)]
pub struct RawPointRow {
    pub id: i64,
    pub frame_id: i64,
    pub idx: i64,
    pub xyz: [Scalar; 3],
}

/// The block that is derived from a lidar frame.
#[derive(Clone, Debug)]
pub struct BlockRow {
    pub id: i64,
    pub frame_id: i64,
    pub source_frame: String,
    pub target_frame: String,
    pub status: String,
    pub error: Option<String>,
    pub edge_versions: String,
}

/// A point of a block.
#[derive(Clone, Copy, Debug)]
pub struct MapPointRow {
    pub id: i64,
    pub block_id: i64,
    pub raw_point_id: i64,
    pub xyz: [Scalar; 3],
}

/// A pose of a stream.
#[derive(Clone, Copy, Debug)]
pub struct PoseRow {
    pub stream_id: i64,
    pub generation: i64,
    pub time_ms: i64,
    pub t: [Scalar; 3],
}

/// The tables that are listed.
#[derive(Clone, Debug)]
pub struct Tables {
    pub streams: Vec<StreamRow>,
    pub packets: Vec<PacketRow>,
    pub frames: Vec<FrameRow>,
    pub raw_points: Vec<RawPointRow>,
    pub blocks: Vec<BlockRow>,
    pub map_points: Vec<MapPointRow>,
    pub poses: Vec<PoseRow>,
    /// How many edges there are.
    pub edges: usize,
}

/// Whether a stream has an id.
pub open spec fn is_stream(streams: Seq<StreamRow>, id: i64) -> spec_fn(int) -> bool {
    |i: int| streams[i].id == id
}

/// The stream with an id, by position.
pub open spec fn stream_with(streams: Seq<StreamRow>, id: i64) -> Option<int> {
    rows::first_where(streams.len() as int, is_stream(streams, id))
}

/// Whether a frame has an id.
pub open spec fn is_frame(frames: Seq<FrameRow>, id: i64) -> spec_fn(int) -> bool {
    |i: int| frames[i].id == id
}

/// The frame with an id, by position.
pub open spec fn frame_with(frames: Seq<FrameRow>, id: i64) -> Option<int> {
    rows::first_where(frames.len() as int, is_frame(frames, id))
}

/// Whether a block has an id.
pub open spec fn is_block(blocks: Seq<BlockRow>, id: i64) -> spec_fn(int) -> bool {
    |i: int| blocks[i].id == id
}

/// The block with an id, by position.
pub open spec fn block_with(blocks: Seq<BlockRow>, id: i64) -> Option<int> {
    rows::first_where(blocks.len() as int, is_block(blocks, id))
}

/// Whether a raw point has an id.
pub open spec fn is_raw_point(points: Seq<RawPointRow>, id: i64) -> spec_fn(int) -> bool {
    |i: int| points[i].id == id
}

/// The raw point with an id, by position.
pub open spec fn raw_point_with(points: Seq<RawPointRow>, id: i64) -> Option<int> {
    rows::first_where(points.len() as int, is_raw_point(points, id))
}

/// Whether a found position is the one that is meant.
pub open spec fn is_at(r: Option<usize>, at: Option<int>) -> bool {
    match (r, at) {
        (Some(i), Some(j)) => i == j,
        (None, None) => true,
        _ => false,
    }
}

fn find_stream(streams: &Vec<StreamRow>, id: i64) -> (r: Option<usize>)
    ensures
        is_at(r, stream_with(streams@, id)),
        r is Some ==> r->0 < streams@.len(),
{
    let ghost holds = is_stream(streams@, id);
    let mut i: usize = 0;
    while i < streams.len()
        invariant
            i <= streams@.len(),
            holds == is_stream(streams@, id),
            forall|k: int| 0 <= k < i ==> !#[trigger] holds(k),
        decreases streams.len() - i,
    {
        if streams[i].id == id {
            proof {
                rows::lemma_first_is(streams@.len() as int, holds, i as int);
            }
            return Some(i);
        }
        assert(!holds(i as int));
        i += 1;
    }
    proof {
        rows::lemma_first_where(streams@.len() as int, holds);
    }
    None
}

fn find_frame(frames: &Vec<FrameRow>, id: i64) -> (r: Option<usize>)
    ensures
        is_at(r, frame_with(frames@, id)),
        r is Some ==> r->0 < frames@.len(),
{
    let ghost holds = is_frame(frames@, id);
    let mut i: usize = 0;
    while i < frames.len()
        invariant
            i <= frames@.len(),
            holds == is_frame(frames@, id),
            forall|k: int| 0 <= k < i ==> !#[trigger] holds(k),
        decreases frames.len() - i,
    {
        if frames[i].id == id {
            proof {
                rows::lemma_first_is(frames@.len() as int, holds, i as int);
            }
            return Some(i);
        }
        assert(!holds(i as int));
        i += 1;
    }
    proof {
        rows::lemma_first_where(frames@.len() as int, holds);
    }
    None
}

fn find_block(blocks: &Vec<BlockRow>, id: i64) -> (r: Option<usize>)
    ensures
        is_at(r, block_with(blocks@, id)),
        r is Some ==> r->0 < blocks@.len(),
{
    let ghost holds = is_block(blocks@, id);
    let mut i: usize = 0;
    while i < blocks.len()
        invariant
            i <= blocks@.len(),
            holds == is_block(blocks@, id),
            forall|k: int| 0 <= k < i ==> !#[trigger] holds(k),
        decreases blocks.len() - i,
    {
        if blocks[i].id == id {
            proof {
                rows::lemma_first_is(blocks@.len() as int, holds, i as int);
            }
            return Some(i);
        }
        assert(!holds(i as int));
        i += 1;
    }
    proof {
        rows::lemma_first_where(blocks@.len() as int, holds);
    }
    None
}

fn find_raw_point(points: &Vec<RawPointRow>, id: i64) -> (r: Option<usize>)
    ensures
        is_at(r, raw_point_with(points@, id)),
        r is Some ==> r->0 < points@.len(),
{
    let ghost holds = is_raw_point(points@, id);
    let mut i: usize = 0;
    while i < points.len()
        invariant
            i <= points@.len(),
            holds == is_raw_point(points@, id),
            forall|k: int| 0 <= k < i ==> !#[trigger] holds(k),
        decreases points.len() - i,
    {
        if points[i].id == id {
            proof {
                rows::lemma_first_is(points@.len() as int, holds, i as int);
            }
            return Some(i);
        }
        assert(!holds(i as int));
        i += 1;
    }
    proof {
        rows::lemma_first_where(points@.len() as int, holds);
    }
    None
}

// ---- counts ---------------------------------------------------------------------------------

/// How many rows there are of everything.
#[derive(Clone, Copy, Debug, PartialEq, Eq, Structural)]
pub struct State {
    pub streams: usize,
    pub packets: usize,
    pub frames: usize,
    pub poses: usize,
    pub edges: usize,
    pub blocks_done: usize,
    pub blocks_blocked: usize,
    pub blocks_pending: usize,
    pub map_points: usize,
}

/// Whether a block is done.
pub open spec fn is_done(blocks: Seq<BlockRow>) -> spec_fn(int) -> bool {
    |i: int| blocks[i].status@ == "done"@
}

/// Whether a block is blocked.
pub open spec fn is_blocked(blocks: Seq<BlockRow>) -> spec_fn(int) -> bool {
    |i: int| blocks[i].status@ == "blocked"@
}

/// Whether a block is still to be derived, or derived anew.
pub open spec fn is_pending(blocks: Seq<BlockRow>) -> spec_fn(int) -> bool {
    |i: int|
        blocks[i].status@ == "pending"@ || blocks[i].status@ == "building"@ || blocks[i].status@
            == "stale"@
}

/// Counts the rows, and the blocks by how far they are.
pub fn state(t: &Tables) -> (r: State)
    ensures
        r.streams == t.streams@.len(),
        r.packets == t.packets@.len(),
        r.frames == t.frames@.len(),
        r.poses == t.poses@.len(),
        r.edges == t.edges,
        r.blocks_done == rows::count_where(t.blocks@.len() as int, is_done(t.blocks@)),
        r.blocks_blocked == rows::count_where(t.blocks@.len() as int, is_blocked(t.blocks@)),
        r.blocks_pending == rows::count_where(t.blocks@.len() as int, is_pending(t.blocks@)),
        r.map_points == t.map_points@.len(),
{
    let ghost done = is_done(t.blocks@);
    let ghost blocked = is_blocked(t.blocks@);
    let ghost pending = is_pending(t.blocks@);
    let mut d: usize = 0;
    let mut b: usize = 0;
    let mut p: usize = 0;
    let mut i: usize = 0;
    while i < t.blocks.len()
        invariant
            i <= t.blocks@.len(),
            done == is_done(t.blocks@),
            blocked == is_blocked(t.blocks@),
            pending == is_pending(t.blocks@),
            d == rows::count_where(i as int, done),
            b == rows::count_where(i as int, blocked),
            p == rows::count_where(i as int, pending),
            d <= i,
            b <= i,
            p <= i,
        decreases t.blocks.len() - i,
    {
        let status = t.blocks[i].status.as_str();
        let is_d = text::same(status, "done");
        let is_b = text::same(status, "blocked");
        let is_p = text::same(status, "pending") || text::same(status, "building") || text::same(
            status,
            "stale",
        );
        assert(done(i as int) == is_d);
        assert(blocked(i as int) == is_b);
        assert(pending(i as int) == is_p);
        if is_d {
            d += 1;
        }
        if is_b {
            b += 1;
        }
        if is_p {
            p += 1;
        }
        i += 1;
    }
    State {
        streams: t.streams.len(),
        packets: t.packets.len(),
        frames: t.frames.len(),
        poses: t.poses.len(),
        edges: t.edges,
        blocks_done: d,
        blocks_blocked: b,
        blocks_pending: p,
        map_points: t.map_points.len(),
    }
}

// ---- streams --------------------------------------------------------------------------------

/// Every row is listed.
pub open spec fn every() -> spec_fn(int) -> bool {
    |i: int| true
}

/// What streams are listed by: their id.
pub open spec fn stream_key(t: Tables) -> spec_fn(int) -> Seq<order::PartValue> {
    |i: int| seq![order::PartValue::Number(t.streams@[i].id as int)]
}

/// The streams, by position, by id.
pub open spec fn stream_order(t: Tables) -> Seq<int> {
    order::listed(t.streams@.len() as int, every(), stream_key(t))
}

/// Whether a stream is told as it is.
pub open spec fn tells_stream(l: StreamRow, s: StreamRow) -> bool {
    &&& l.id == s.id
    &&& l.device_id@ == s.device_id@
    &&& l.kind@ == s.kind@
    &&& l.coord_frame@ == s.coord_frame@
    &&& l.unit@ == s.unit@
}

/// Lists the streams by id.
pub fn streams(t: &Tables) -> (r: Vec<StreamRow>)
    ensures
        r@.len() == stream_order(*t).len(),
        forall|i: int|
            0 <= i < r@.len() ==> tells_stream(
                #[trigger] r@[i],
                t.streams@[stream_order(*t)[i]],
            ),
{
    let ghost shown = every();
    let ghost key_of = stream_key(*t);
    let mut at: Vec<usize> = Vec::new();
    let mut keys: Vec<Vec<Part>> = Vec::new();
    let mut i: usize = 0;
    assert(order::positions(at@) =~= rows::all_where(0, shown));
    while i < t.streams.len()
        invariant
            i <= t.streams@.len(),
            shown == every(),
            key_of == stream_key(*t),
            order::positions(at@) == rows::all_where(i as int, shown),
            keys@.len() == at@.len(),
            forall|k: int|
                0 <= k < keys@.len() ==> order::key_value((#[trigger] keys@[k])@) == key_of(
                    at@[k] as int,
                ),
        decreases t.streams.len() - i,
    {
        let mut key: Vec<Part> = Vec::new();
        key.push(Part::Number(t.streams[i].id as i128));
        assert(order::key_value(key@) =~= key_of(i as int));
        let ghost before = order::positions(at@);
        at.push(i);
        keys.push(key);
        assert(shown(i as int));
        assert(order::positions(at@) =~= before.push(i as int));
        i += 1;
    }
    let places = order::arrange(
        &at,
        &keys,
        Ghost(t.streams@.len() as int),
        Ghost(shown),
        Ghost(key_of),
    );
    let mut out: Vec<StreamRow> = Vec::new();
    let mut k: usize = 0;
    while k < places.len()
        invariant
            k <= places@.len(),
            order::positions(places@) == stream_order(*t),
            forall|j: int|
                0 <= j < places@.len() ==> #[trigger] places@[j] < t.streams@.len() as int,
            out@.len() == k,
            forall|j: int|
                0 <= j < k ==> tells_stream(#[trigger] out@[j], t.streams@[stream_order(*t)[j]]),
        decreases places.len() - k,
    {
        assert(places@[k as int] < t.streams@.len());
        assert(stream_order(*t)[k as int] == places@[k as int]);
        let s = &t.streams[places[k]];
        out.push(
            StreamRow {
                id: s.id,
                device_id: s.device_id.clone(),
                kind: s.kind.clone(),
                coord_frame: s.coord_frame.clone(),
                unit: s.unit.clone(),
            },
        );
        k += 1;
    }
    out
}

// ---- packets --------------------------------------------------------------------------------

/// A packet with the device of its stream.
#[derive(Clone, Debug)]
pub struct PacketLine {
    pub id: i64,
    pub device_id: String,
    pub generation: i64,
    pub seq: i64,
    pub gps_ms: i64,
    pub raw_clock: String,
    pub raw_ts: String,
    pub coord_frame: String,
    pub unit: String,
    pub content_summary: String,
    pub flag: String,
    pub received_order: i64,
}

/// Packets are listed whose stream is there.
pub open spec fn packet_listed(t: Tables) -> spec_fn(int) -> bool {
    |i: int| stream_with(t.streams@, t.packets@[i].stream_id) is Some
}

/// What packets are listed by: the order that they were received in.
pub open spec fn packet_key(t: Tables) -> spec_fn(int) -> Seq<order::PartValue> {
    |i: int| seq![order::PartValue::Number(t.packets@[i].received_order as int)]
}

/// The packets that are listed, by position, as they were received.
pub open spec fn packet_order(t: Tables) -> Seq<int> {
    order::listed(t.packets@.len() as int, packet_listed(t), packet_key(t))
}

/// Whether a packet is told as it is, with the device of its stream.
pub open spec fn tells_packet(l: PacketLine, t: Tables, i: int) -> bool {
    let p = t.packets@[i];
    &&& l.id == p.id
    &&& l.device_id@ == t.streams@[stream_with(t.streams@, p.stream_id)->0].device_id@
    &&& l.generation == p.generation
    &&& l.seq == p.seq
    &&& l.gps_ms == p.gps_ms
    &&& l.raw_clock@ == p.raw_clock@
    &&& l.raw_ts@ == p.raw_ts@
    &&& l.coord_frame@ == p.coord_frame@
    &&& l.unit@ == p.unit@
    &&& l.content_summary@ == p.content_summary@
    &&& l.flag@ == p.flag@
    &&& l.received_order == p.received_order
}

/// Lists the packets as they were received, with their devices.
pub fn packets(t: &Tables) -> (r: Vec<PacketLine>)
    ensures
        r@.len() == packet_order(*t).len(),
        forall|i: int|
            0 <= i < r@.len() ==> tells_packet(#[trigger] r@[i], *t, packet_order(*t)[i]),
{
    let ghost shown = packet_listed(*t);
    let ghost key_of = packet_key(*t);
    let mut at: Vec<usize> = Vec::new();
    let mut keys: Vec<Vec<Part>> = Vec::new();
    let mut i: usize = 0;
    assert(order::positions(at@) =~= rows::all_where(0, shown));
    while i < t.packets.len()
        invariant
            i <= t.packets@.len(),
            shown == packet_listed(*t),
            key_of == packet_key(*t),
            order::positions(at@) == rows::all_where(i as int, shown),
            keys@.len() == at@.len(),
            forall|k: int|
                0 <= k < keys@.len() ==> order::key_value((#[trigger] keys@[k])@) == key_of(
                    at@[k] as int,
                ),
        decreases t.packets.len() - i,
    {
        let found = find_stream(&t.streams, t.packets[i].stream_id);
        assert(shown(i as int) == found is Some);
        if found.is_some() {
            let mut key: Vec<Part> = Vec::new();
            key.push(Part::Number(t.packets[i].received_order as i128));
            assert(order::key_value(key@) =~= key_of(i as int));
            let ghost before = order::positions(at@);
            at.push(i);
            keys.push(key);
            assert(order::positions(at@) =~= before.push(i as int));
        }
        i += 1;
    }
    let places = order::arrange(
        &at,
        &keys,
        Ghost(t.packets@.len() as int),
        Ghost(shown),
        Ghost(key_of),
    );
    let mut out: Vec<PacketLine> = Vec::new();
    let mut k: usize = 0;
    while k < places.len()
        invariant
            k <= places@.len(),
            shown == packet_listed(*t),
            order::positions(places@) == packet_order(*t),
            forall|j: int|
                0 <= j < places@.len() ==> #[trigger] places@[j] < t.packets@.len() as int
                    && shown(places@[j] as int),
            out@.len() == k,
            forall|j: int|
                0 <= j < k ==> tells_packet(#[trigger] out@[j], *t, packet_order(*t)[j]),
        decreases places.len() - k,
    {
        assert(places@[k as int] < t.packets@.len());
        assert(packet_order(*t)[k as int] == places@[k as int]);
        let p = &t.packets[places[k]];
        if let Some(s) = find_stream(&t.streams, p.stream_id) {
            out.push(
                PacketLine {
                    id: p.id,
                    device_id: t.streams[s].device_id.clone(),
                    generation: p.generation,
                    seq: p.seq,
                    gps_ms: p.gps_ms,
                    raw_clock: p.raw_clock.clone(),
                    raw_ts: p.raw_ts.clone(),
                    coord_frame: p.coord_frame.clone(),
                    unit: p.unit.clone(),
                    content_summary: p.content_summary.clone(),
                    flag: p.flag.clone(),
                    received_order: p.received_order,
                },
            );
        }
        k += 1;
    }
    out
}

// ---- blocks ---------------------------------------------------------------------------------

/// A block with the time and the generation of its frame.
#[derive(Clone, Debug)]
pub struct BlockLine {
    pub block_id: i64,
    pub frame_id: i64,
    pub source_frame: String,
    pub target_frame: String,
    pub status: String,
    pub error: Option<String>,
    pub edge_versions: String,
    pub time_ms: i64,
    pub generation: i64,
}

/// Blocks are listed whose frame is there.
pub open spec fn block_listed(t: Tables) -> spec_fn(int) -> bool {
    |i: int| frame_with(t.frames@, t.blocks@[i].frame_id) is Some
}

/// The frame of a block.
pub open spec fn frame_of_block(t: Tables, i: int) -> FrameRow {
    t.frames@[frame_with(t.frames@, t.blocks@[i].frame_id)->0]
}

/// What blocks are listed by: the time of their frame, and their id.
pub open spec fn block_key(t: Tables) -> spec_fn(int) -> Seq<order::PartValue> {
    |i: int| order::pair_key(frame_of_block(t, i).time_ms as int, t.blocks@[i].id as int)
}

/// The blocks that are listed, by position, by time.
pub open spec fn block_order(t: Tables) -> Seq<int> {
    order::listed(t.blocks@.len() as int, block_listed(t), block_key(t))
}

/// Whether a block is told as it is, with the time and the generation of its frame.
pub open spec fn tells_block(l: BlockLine, t: Tables, i: int) -> bool {
    let b = t.blocks@[i];
    let f = frame_of_block(t, i);
    &&& l.block_id == b.id
    &&& l.frame_id == b.frame_id
    &&& l.source_frame@ == b.source_frame@
    &&& l.target_frame@ == b.target_frame@
    &&& l.status@ == b.status@
    &&& text::text_of(l.error) == text::text_of(b.error)
    &&& l.edge_versions@ == b.edge_versions@
    &&& l.time_ms == f.time_ms
    &&& l.generation == f.generation
}

/// Lists the blocks by the time of their frames.
pub fn blocks(t: &Tables) -> (r: Vec<BlockLine>)
    ensures
        r@.len() == block_order(*t).len(),
        forall|i: int|
            0 <= i < r@.len() ==> tells_block(#[trigger] r@[i], *t, block_order(*t)[i]),
{
    let ghost shown = block_listed(*t);
    let ghost key_of = block_key(*t);
    let mut at: Vec<usize> = Vec::new();
    let mut keys: Vec<Vec<Part>> = Vec::new();
    let mut i: usize = 0;
    assert(order::positions(at@) =~= rows::all_where(0, shown));
    while i < t.blocks.len()
        invariant
            i <= t.blocks@.len(),
            shown == block_listed(*t),
            key_of == block_key(*t),
            order::positions(at@) == rows::all_where(i as int, shown),
            keys@.len() == at@.len(),
            forall|k: int|
                0 <= k < keys@.len() ==> order::key_value((#[trigger] keys@[k])@) == key_of(
                    at@[k] as int,
                ),
        decreases t.blocks.len() - i,
    {
        let found = find_frame(&t.frames, t.blocks[i].frame_id);
        assert(shown(i as int) == found is Some);
        if let Some(f) = found {
            let mut key: Vec<Part> = Vec::new();
            key.push(Part::Number(t.frames[f].time_ms as i128));
            key.push(Part::Number(t.blocks[i].id as i128));
            assert(order::key_value(key@) =~= key_of(i as int));
            let ghost before = order::positions(at@);
            at.push(i);
            keys.push(key);
            assert(order::positions(at@) =~= before.push(i as int));
        }
        i += 1;
    }
    let places = order::arrange(
        &at,
        &keys,
        Ghost(t.blocks@.len() as int),
        Ghost(shown),
        Ghost(key_of),
    );
    let mut out: Vec<BlockLine> = Vec::new();
    let mut k: usize = 0;
    while k < places.len()
        invariant
            k <= places@.len(),
            shown == block_listed(*t),
            order::positions(places@) == block_order(*t),
            forall|j: int|
                0 <= j < places@.len() ==> #[trigger] places@[j] < t.blocks@.len() as int
                    && shown(places@[j] as int),
            out@.len() == k,
            forall|j: int| 0 <= j < k ==> tells_block(#[trigger] out@[j], *t, block_order(*t)[j]),
        decreases places.len() - k,
    {
        assert(places@[k as int] < t.blocks@.len());
        assert(block_order(*t)[k as int] == places@[k as int]);
        let b = &t.blocks[places[k]];
        if let Some(f) = find_frame(&t.frames, b.frame_id) {
            let error = match &b.error {
                Some(e) => Some(e.clone()),
                None => None,
            };
            out.push(
                BlockLine {
                    block_id: b.id,
                    frame_id: b.frame_id,
                    source_frame: b.source_frame.clone(),
                    target_frame: b.target_frame.clone(),
                    status: b.status.clone(),
                    error,
                    edge_versions: b.edge_versions.clone(),
                    time_ms: t.frames[f].time_ms,
                    generation: t.frames[f].generation,
                },
            );
        }
        k += 1;
    }
    out
}

// ---- poses ----------------------------------------------------------------------------------

/// A pose with the device of its stream.
#[derive(Clone, Debug)]
pub struct PoseLine {
    pub device: String,
    pub generation: i64,
    pub time_ms: i64,
    pub t: [Scalar; 3],
}

/// Poses are listed whose stream is there.
pub open spec fn pose_listed(t: Tables) -> spec_fn(int) -> bool {
    |i: int| stream_with(t.streams@, t.poses@[i].stream_id) is Some
}

/// The device of a pose.
pub open spec fn pose_device(t: Tables, i: int) -> Seq<char> {
    t.streams@[stream_with(t.streams@, t.poses@[i].stream_id)->0].device_id@
}

/// What poses are listed by: their device and their time.
pub open spec fn pose_key(t: Tables) -> spec_fn(int) -> Seq<order::PartValue> {
    |i: int|
        seq![
            order::PartValue::Text(pose_device(t, i)),
            order::PartValue::Number(t.poses@[i].time_ms as int),
        ]
}

/// The poses that are listed, by position, by device and time.
pub open spec fn pose_order(t: Tables) -> Seq<int> {
    order::listed(t.poses@.len() as int, pose_listed(t), pose_key(t))
}

/// Whether a pose is told as it is, with its device.
pub open spec fn tells_pose(l: PoseLine, t: Tables, i: int) -> bool {
    &&& l.device@ == pose_device(t, i)
    &&& l.generation == t.poses@[i].generation
    &&& l.time_ms == t.poses@[i].time_ms
    &&& l.t == t.poses@[i].t
}

/// Lists the poses by device and time.
pub fn trajectory(t: &Tables) -> (r: Vec<PoseLine>)
    ensures
        r@.len() == pose_order(*t).len(),
        forall|i: int| 0 <= i < r@.len() ==> tells_pose(#[trigger] r@[i], *t, pose_order(*t)[i]),
{
    let ghost shown = pose_listed(*t);
    let ghost key_of = pose_key(*t);
    let mut at: Vec<usize> = Vec::new();
    let mut keys: Vec<Vec<Part>> = Vec::new();
    let mut i: usize = 0;
    assert(order::positions(at@) =~= rows::all_where(0, shown));
    while i < t.poses.len()
        invariant
            i <= t.poses@.len(),
            shown == pose_listed(*t),
            key_of == pose_key(*t),
            order::positions(at@) == rows::all_where(i as int, shown),
            keys@.len() == at@.len(),
            forall|k: int|
                0 <= k < keys@.len() ==> order::key_value((#[trigger] keys@[k])@) == key_of(
                    at@[k] as int,
                ),
        decreases t.poses.len() - i,
    {
        let found = find_stream(&t.streams, t.poses[i].stream_id);
        assert(shown(i as int) == found is Some);
        if let Some(s) = found {
            let mut key: Vec<Part> = Vec::new();
            key.push(Part::Text(t.streams[s].device_id.clone()));
            key.push(Part::Number(t.poses[i].time_ms as i128));
            assert(order::key_value(key@) =~= key_of(i as int));
            let ghost before = order::positions(at@);
            at.push(i);
            keys.push(key);
            assert(order::positions(at@) =~= before.push(i as int));
        }
        i += 1;
    }
    let places = order::arrange(
        &at,
        &keys,
        Ghost(t.poses@.len() as int),
        Ghost(shown),
        Ghost(key_of),
    );
    let mut out: Vec<PoseLine> = Vec::new();
    let mut k: usize = 0;
    while k < places.len()
        invariant
            k <= places@.len(),
            shown == pose_listed(*t),
            order::positions(places@) == pose_order(*t),
            forall|j: int|
                0 <= j < places@.len() ==> #[trigger] places@[j] < t.poses@.len() as int && shown(
                    places@[j] as int,
                ),
            out@.len() == k,
            forall|j: int| 0 <= j < k ==> tells_pose(#[trigger] out@[j], *t, pose_order(*t)[j]),
        decreases places.len() - k,
    {
        assert(places@[k as int] < t.poses@.len());
        assert(pose_order(*t)[k as int] == places@[k as int]);
        let p = &t.poses[places[k]];
        if let Some(s) = find_stream(&t.streams, p.stream_id) {
            out.push(
                PoseLine {
                    device: t.streams[s].device_id.clone(),
                    generation: p.generation,
                    time_ms: p.time_ms,
                    t: p.t,
                },
            );
        }
        k += 1;
    }
    out
}

// ---- points ---------------------------------------------------------------------------------

/// What a derived point was made from, by position.
pub struct Source {
    pub block: int,
    pub frame: int,
    pub raw: int,
}

/// What a derived point was made from: its block, the block's frame, which is a canonical
/// one, and a raw point of that frame.
pub open spec fn source_of(t: Tables, i: int) -> Option<Source> {
    let m = t.map_points@[i];
    match (
        block_with(t.blocks@, m.block_id),
        raw_point_with(t.raw_points@, m.raw_point_id),
    ) {
        (Some(b), Some(p)) => match frame_with(t.frames@, t.blocks@[b].frame_id) {
            Some(f) => if t.frames@[f].canonical && t.raw_points@[p].frame_id == t.frames@[f].id {
                Some(Source { block: b, frame: f, raw: p })
            } else {
                None
            },
            None => None,
        },
        _ => None,
    }
}

/// Points are listed of which all that they were made from is there.
pub open spec fn point_listed(t: Tables) -> spec_fn(int) -> bool {
    |i: int| source_of(t, i) is Some
}

/// What points are listed by: the time of their frame, and their place in it.
pub open spec fn point_key(t: Tables) -> spec_fn(int) -> Seq<order::PartValue> {
    |i: int|
        order::pair_key(
            t.frames@[source_of(t, i)->0.frame].time_ms as int,
            t.raw_points@[source_of(t, i)->0.raw].idx as int,
        )
}

/// The points that are listed, by position, by time.
pub open spec fn point_order(t: Tables) -> Seq<int> {
    order::listed(t.map_points@.len() as int, point_listed(t), point_key(t))
}

/// Whether a row is a derived point with its frame and its block's status.
pub open spec fn tells_point(r: FramePoint, t: Tables, i: int) -> bool {
    let m = t.map_points@[i];
    let s = source_of(t, i)->0;
    let f = t.frames@[s.frame];
    &&& r.frame_id == f.id
    &&& r.time_ms == f.time_ms
    &&& r.generation == f.generation
    &&& r.status@ == t.blocks@[s.block].status@
    &&& r.point == Some(MapPoint { id: m.id, map: m.xyz, raw: t.raw_points@[s.raw].xyz })
}

/// Whether rows are the derived points by time.
pub open spec fn lists_points(rows: Seq<FramePoint>, t: Tables) -> bool {
    &&& rows.len() == point_order(t).len()
    &&& forall|i: int|
        0 <= i < rows.len() ==> tells_point(#[trigger] rows[i], t, point_order(t)[i])
}

/// Whether frames are the derived points by time, grouped by frame.
pub open spec fn shows_points(groups: Seq<GroupValue>, t: Tables) -> bool {
    exists|rows: Seq<FramePoint>|
        lists_points(rows, t) && groups == #[trigger] grouped(rows, rows.len() as int)
}

fn find_source(t: &Tables, i: usize) -> (r: Option<(usize, usize, usize)>)
    requires
        i < t.map_points@.len(),
    ensures
        match r {
            Some((b, f, p)) => source_of(*t, i as int) == Some(
                (Source { block: b as int, frame: f as int, raw: p as int }),
            ) && b < t.blocks@.len() && f < t.frames@.len() && p < t.raw_points@.len(),
            None => source_of(*t, i as int) is None,
        },
{
    let m = &t.map_points[i];
    let block = find_block(&t.blocks, m.block_id);
    let raw = find_raw_point(&t.raw_points, m.raw_point_id);
    match (block, raw) {
        (Some(b), Some(p)) => match find_frame(&t.frames, t.blocks[b].frame_id) {
            Some(f) => if t.frames[f].canonical && t.raw_points[p].frame_id == t.frames[f].id {
                Some((b, f, p))
            } else {
                None
            },
            None => None,
        },
        _ => None,
    }
}

/// Lists the derived points of canonical frames by time.
pub fn point_rows(t: &Tables) -> (r: Vec<FramePoint>)
    ensures
        lists_points(r@, *t),
{
    let ghost shown = point_listed(*t);
    let ghost key_of = point_key(*t);
    let mut at: Vec<usize> = Vec::new();
    let mut keys: Vec<Vec<Part>> = Vec::new();
    let mut i: usize = 0;
    assert(order::positions(at@) =~= rows::all_where(0, shown));
    while i < t.map_points.len()
        invariant
            i <= t.map_points@.len(),
            shown == point_listed(*t),
            key_of == point_key(*t),
            order::positions(at@) == rows::all_where(i as int, shown),
            keys@.len() == at@.len(),
            forall|k: int|
                0 <= k < keys@.len() ==> order::key_value((#[trigger] keys@[k])@) == key_of(
                    at@[k] as int,
                ),
        decreases t.map_points.len() - i,
    {
        let found = find_source(t, i);
        assert(shown(i as int) == found is Some);
        if let Some((_, f, p)) = found {
            let mut key: Vec<Part> = Vec::new();
            key.push(Part::Number(t.frames[f].time_ms as i128));
            key.push(Part::Number(t.raw_points[p].idx as i128));
            assert(order::key_value(key@) =~= key_of(i as int));
            let ghost before = order::positions(at@);
            at.push(i);
            keys.push(key);
            assert(order::positions(at@) =~= before.push(i as int));
        }
        i += 1;
    }
    let places = order::arrange(
        &at,
        &keys,
        Ghost(t.map_points@.len() as int),
        Ghost(shown),
        Ghost(key_of),
    );
    let mut out: Vec<FramePoint> = Vec::new();
    let mut k: usize = 0;
    while k < places.len()
        invariant
            k <= places@.len(),
            shown == point_listed(*t),
            order::positions(places@) == point_order(*t),
            forall|j: int|
                0 <= j < places@.len() ==> #[trigger] places@[j] < t.map_points@.len() as int
                    && shown(places@[j] as int),
            out@.len() == k,
            forall|j: int| 0 <= j < k ==> tells_point(#[trigger] out@[j], *t, point_order(*t)[j]),
        decreases places.len() - k,
    {
        assert(places@[k as int] < t.map_points@.len());
        assert(point_order(*t)[k as int] == places@[k as int]);
        if let Some((b, f, p)) = find_source(t, places[k]) {
            let m = &t.map_points[places[k]];
            out.push(
                FramePoint {
                    frame_id: t.frames[f].id,
                    time_ms: t.frames[f].time_ms,
                    generation: t.frames[f].generation,
                    status: t.blocks[b].status.clone(),
                    point: Some(MapPoint { id: m.id, map: m.xyz, raw: t.raw_points[p].xyz }),
                },
            );
        }
        k += 1;
    }
    out
}

/// Lists the derived points of canonical frames by time, grouped by frame.
pub fn points(t: &Tables) -> (r: Vec<FrameGroup>)
    ensures
        shows_points(group_values(r@), *t),
{
    let list = point_rows(t);
    let r = group_frames(&list);
    assert(group_values(r@) == grouped(list@, list@.len() as int));
    r
}

/// Points are listed by time, and only those of canonical frames.
pub proof fn law_points_are_listed_by_time(rows: Seq<FramePoint>, t: Tables)
    requires
        lists_points(rows, t),
    ensures
        forall|i: int, j: int| #![trigger rows[i], rows[j]]
            0 <= i < j < rows.len() ==> rows[i].time_ms <= rows[j].time_ms,
        forall|i: int|
            0 <= i < rows.len() ==> frame_with(t.frames@, (#[trigger] rows[i]).frame_id) is Some
                && t.frames@[frame_with(t.frames@, rows[i].frame_id)->0].canonical,
{
    let n = t.map_points@.len() as int;
    let shown = point_listed(t);
    let key = point_key(t);
    let at = point_order(t);
    order::law_listing_holds_what_is_shown(n, shown, key);
    assert forall|i: int, j: int| #![trigger rows[i], rows[j]] 0 <= i < j
        < rows.len() implies rows[i].time_ms <= rows[j].time_ms by {
        assert(tells_point(rows[i], t, at[i]) && tells_point(rows[j], t, at[j]));
        let a = source_of(t, at[i])->0;
        let b = source_of(t, at[j])->0;
        order::lemma_pair_key_before(
            t.frames@[b.frame].time_ms as int,
            t.raw_points@[b.raw].idx as int,
            t.frames@[a.frame].time_ms as int,
            t.raw_points@[a.raw].idx as int,
        );
        assert(!order::key_before(key(at[j]), key(at[i])));
    }
    assert forall|i: int| 0 <= i < rows.len() implies frame_with(
        t.frames@,
        (#[trigger] rows[i]).frame_id,
    ) is Some && t.frames@[frame_with(t.frames@, rows[i].frame_id)->0].canonical by {
        assert(tells_point(rows[i], t, at[i]));
        assert(shown(at[i]));
        let s = source_of(t, at[i])->0;
        let id = t.blocks@[s.block].frame_id;
        rows::lemma_first_where(t.frames@.len() as int, is_frame(t.frames@, id));
        assert(is_frame(t.frames@, id)(s.frame));
    }
}

// ---- listings, in plain terms -----------------------------------------------------------------

/// A row goes to the frame of the row before it where both have one frame id, and opens a
/// frame of its own where they have not.
pub proof fn law_rows_of_one_frame_stay_together(rows: Seq<FramePoint>, n: int)
    requires
        0 < n <= rows.len(),
    ensures
        grouped(rows, n).len() > 0,
        grouped(rows, n).last().frame_id == rows[n - 1].frame_id,
        n > 1 && rows[n - 1].frame_id == rows[n - 2].frame_id ==> grouped(rows, n).len()
            == grouped(rows, n - 1).len(),
        n > 1 && rows[n - 1].frame_id != rows[n - 2].frame_id ==> grouped(rows, n).len()
            == grouped(rows, n - 1).len() + 1,
        (n == 1 || rows[n - 1].frame_id != rows[n - 2].frame_id) ==> {
            let g = grouped(rows, n).last();
            &&& g.time_ms == rows[n - 1].time_ms
            &&& g.generation == rows[n - 1].generation
            &&& g.status == rows[n - 1].status@
            &&& rows[n - 1].point is Some ==> g.points.len() == 1 && g.points[0]
                == rows[n - 1].point->0
            &&& rows[n - 1].point is None ==> g.points.len() == 0
        },
        forall|i: int|
            0 <= i < grouped(rows, n - 1).len() - 1 ==> grouped(rows, n)[i] == grouped(
                rows,
                n - 1,
            )[i],
    decreases n,
{
    assert(grouped(rows, 0).len() == 0);
    if n > 1 {
        law_rows_of_one_frame_stay_together(rows, n - 1);
    }
}

/// Streams are listed once each, by id.
pub proof fn law_streams_are_listed_by_id(t: Tables, x: int, i: int, j: int)
    ensures
        0 <= x < t.streams@.len() ==> stream_order(t).contains(x),
        0 <= i < stream_order(t).len() ==> 0 <= stream_order(t)[i] < t.streams@.len(),
        0 <= i < j < stream_order(t).len() ==> stream_order(t)[i] != stream_order(t)[j]
            && t.streams@[stream_order(t)[i]].id <= t.streams@[stream_order(t)[j]].id,
{
    let n = t.streams@.len() as int;
    order::law_listing_holds_what_is_shown(n, every(), stream_key(t));
    assert(every()(x));
    let l = stream_order(t);
    if 0 <= i < j < l.len() {
        let a = stream_key(t)(l[i]);
        let b = stream_key(t)(l[j]);
        assert(!order::key_before(stream_key(t)(l[j]), stream_key(t)(l[i])));
        if t.streams@[l[i]].id != t.streams@[l[j]].id {
            assert(a[0] != b[0]);
            order::law_first_difference_decides(b, a, 0);
        }
    }
}

/// The packets that are listed are those whose stream is there, each once, in the order in
/// which they were received.
pub proof fn law_packets_are_listed_as_received(t: Tables, x: int, i: int, j: int)
    ensures
        packet_order(t).contains(x) <==> 0 <= x < t.packets@.len() && exists|s: int|
            0 <= s < t.streams@.len() && (#[trigger] t.streams@[s]).id == t.packets@[x].stream_id,
        0 <= i < j < packet_order(t).len() ==> packet_order(t)[i] != packet_order(t)[j]
            && t.packets@[packet_order(t)[i]].received_order
            <= t.packets@[packet_order(t)[j]].received_order,
{
    let n = t.packets@.len() as int;
    let shown = packet_listed(t);
    let key = packet_key(t);
    order::law_listing_holds_what_is_shown(n, shown, key);
    let l = packet_order(t);
    lemma_stream_found(t, t.packets@[x].stream_id);
    if l.contains(x) {
        let k = choose|k: int| 0 <= k < l.len() && l[k] == x;
        assert(shown(l[k]));
    }
    if 0 <= x < n && stream_with(t.streams@, t.packets@[x].stream_id) is Some {
        assert(shown(x));
    }
    if 0 <= i < j < l.len() {
        let a = key(l[i]);
        let b = key(l[j]);
        assert(!order::key_before(key(l[j]), key(l[i])));
        if t.packets@[l[i]].received_order != t.packets@[l[j]].received_order {
            assert(a[0] != b[0]);
            order::law_first_difference_decides(b, a, 0);
        }
    }
}

proof fn lemma_stream_found(t: Tables, id: i64)
    ensures
        stream_with(t.streams@, id) is Some <==> exists|s: int|
            0 <= s < t.streams@.len() && (#[trigger] t.streams@[s]).id == id,
        stream_with(t.streams@, id) matches Some(s) ==> 0 <= s < t.streams@.len()
            && t.streams@[s].id == id,
{
    let holds = is_stream(t.streams@, id);
    let n = t.streams@.len() as int;
    rows::lemma_first_where(n, holds);
    if let Some(s) = stream_with(t.streams@, id) {
        assert(holds(s));
    }
    if exists|s: int| 0 <= s < t.streams@.len() && (#[trigger] t.streams@[s]).id == id {
        let s = choose|s: int| 0 <= s < t.streams@.len() && (#[trigger] t.streams@[s]).id == id;
        assert(holds(s));
    }
}

proof fn lemma_frame_found(t: Tables, id: i64)
    ensures
        frame_with(t.frames@, id) is Some <==> exists|s: int|
            0 <= s < t.frames@.len() && (#[trigger] t.frames@[s]).id == id,
        frame_with(t.frames@, id) matches Some(s) ==> 0 <= s < t.frames@.len() && t.frames@[s].id
            == id,
{
    let holds = is_frame(t.frames@, id);
    let n = t.frames@.len() as int;
    rows::lemma_first_where(n, holds);
    if let Some(s) = frame_with(t.frames@, id) {
        assert(holds(s));
    }
    if exists|s: int| 0 <= s < t.frames@.len() && (#[trigger] t.frames@[s]).id == id {
        let s = choose|s: int| 0 <= s < t.frames@.len() && (#[trigger] t.frames@[s]).id == id;
        assert(holds(s));
    }
}

/// The blocks that are listed are those whose frame is there, each once, by the time of
/// their frame, then by id.
pub proof fn law_blocks_are_listed_by_time(t: Tables, x: int, i: int, j: int)
    ensures
        block_order(t).contains(x) <==> 0 <= x < t.blocks@.len() && exists|s: int|
            0 <= s < t.frames@.len() && (#[trigger] t.frames@[s]).id == t.blocks@[x].frame_id,
        block_order(t).contains(x) ==> frame_of_block(t, x).id == t.blocks@[x].frame_id,
        0 <= i < j < block_order(t).len() ==> {
            let a = block_order(t)[i];
            let b = block_order(t)[j];
            &&& a != b
            &&& frame_of_block(t, a).time_ms < frame_of_block(t, b).time_ms || (frame_of_block(
                t,
                a,
            ).time_ms == frame_of_block(t, b).time_ms && t.blocks@[a].id <= t.blocks@[b].id)
        },
{
    let n = t.blocks@.len() as int;
    let shown = block_listed(t);
    let key = block_key(t);
    order::law_listing_holds_what_is_shown(n, shown, key);
    let l = block_order(t);
    lemma_frame_found(t, t.blocks@[x].frame_id);
    if l.contains(x) {
        let k = choose|k: int| 0 <= k < l.len() && l[k] == x;
        assert(shown(l[k]));
    }
    if 0 <= x < n && frame_with(t.frames@, t.blocks@[x].frame_id) is Some {
        assert(shown(x));
    }
    if 0 <= i < j < l.len() {
        assert(!order::key_before(key(l[j]), key(l[i])));
        order::lemma_pair_key_before(
            frame_of_block(t, l[j]).time_ms as int,
            t.blocks@[l[j]].id as int,
            frame_of_block(t, l[i]).time_ms as int,
            t.blocks@[l[i]].id as int,
        );
    }
}

/// The poses that are listed are those whose stream is there, each once, by the name of
/// their device, then by time.
pub proof fn law_poses_are_listed_by_device_and_time(t: Tables, x: int, i: int, j: int)
    ensures
        pose_order(t).contains(x) <==> 0 <= x < t.poses@.len() && exists|s: int|
            0 <= s < t.streams@.len() && (#[trigger] t.streams@[s]).id == t.poses@[x].stream_id,
        pose_order(t).contains(x) ==> exists|s: int|
            0 <= s < t.streams@.len() && (#[trigger] t.streams@[s]).id == t.poses@[x].stream_id
                && pose_device(t, x) == t.streams@[s].device_id@,
        0 <= i < j < pose_order(t).len() ==> {
            let a = pose_order(t)[i];
            let b = pose_order(t)[j];
            &&& a != b
            &&& text::before(pose_device(t, a), pose_device(t, b)) || (pose_device(t, a)
                == pose_device(t, b) && t.poses@[a].time_ms <= t.poses@[b].time_ms)
        },
{
    let n = t.poses@.len() as int;
    let shown = pose_listed(t);
    let key = pose_key(t);
    order::law_listing_holds_what_is_shown(n, shown, key);
    let l = pose_order(t);
    lemma_stream_found(t, t.poses@[x].stream_id);
    if l.contains(x) {
        let k = choose|k: int| 0 <= k < l.len() && l[k] == x;
        assert(shown(l[k]));
    }
    if 0 <= x < n && stream_with(t.streams@, t.poses@[x].stream_id) is Some {
        assert(shown(x));
    }
    if 0 <= i < j < l.len() {
        let a = key(l[i]);
        let b = key(l[j]);
        assert(!order::key_before(key(l[j]), key(l[i])));
        if pose_device(t, l[i]) != pose_device(t, l[j]) {
            assert(a[0] != b[0]);
            order::law_first_difference_decides(b, a, 0);
            text::law_before_is_a_strict_total_order(
                pose_device(t, l[i]),
                pose_device(t, l[j]),
                pose_device(t, l[i]),
            );
        } else if t.poses@[l[i]].time_ms != t.poses@[l[j]].time_ms {
            assert(a[0] == b[0] && a[1] != b[1]);
            order::law_first_difference_decides(b, a, 1);
        }
    }
}

/// A point that is listed has a block, a frame that counts and a raw point of that frame;
/// points are listed once each, by the time of their frame, then by their place in it.
pub proof fn law_points_are_listed_with_their_source(t: Tables, x: int, i: int, j: int)
    ensures
        point_order(t).contains(x) ==> 0 <= x < t.map_points@.len() && exists|b: int, f: int, r: int|
         #![trigger t.blocks@[b], t.frames@[f], t.raw_points@[r]]
            0 <= b < t.blocks@.len() && 0 <= f < t.frames@.len() && 0 <= r < t.raw_points@.len()
                && t.blocks@[b].id == t.map_points@[x].block_id && t.raw_points@[r].id
                == t.map_points@[x].raw_point_id && t.blocks@[b].frame_id == t.frames@[f].id
                && t.raw_points@[r].frame_id == t.frames@[f].id && t.frames@[f].canonical,
        0 <= i < j < point_order(t).len() ==> {
            let a = point_order(t)[i];
            let b = point_order(t)[j];
            let ta = t.frames@[source_of(t, a)->0.frame].time_ms;
            let tb = t.frames@[source_of(t, b)->0.frame].time_ms;
            &&& a != b
            &&& ta < tb || (ta == tb && t.raw_points@[source_of(t, a)->0.raw].idx
                <= t.raw_points@[source_of(t, b)->0.raw].idx)
        },
{
    let n = t.map_points@.len() as int;
    let shown = point_listed(t);
    let key = point_key(t);
    order::law_listing_holds_what_is_shown(n, shown, key);
    let l = point_order(t);
    if l.contains(x) {
        let k = choose|k: int| 0 <= k < l.len() && l[k] == x;
        assert(shown(l[k]));
        let m = t.map_points@[x];
        let s = source_of(t, x)->0;
        let hb = is_block(t.blocks@, m.block_id);
        let hr = is_raw_point(t.raw_points@, m.raw_point_id);
        rows::lemma_first_where(t.blocks@.len() as int, hb);
        rows::lemma_first_where(t.raw_points@.len() as int, hr);
        assert(hb(s.block) && hr(s.raw));
        lemma_frame_found(t, t.blocks@[s.block].frame_id);
        assert(t.frames@[s.frame].canonical);
        assert(t.blocks@[s.block].frame_id == t.frames@[s.frame].id && t.raw_points@[s.raw].frame_id
            == t.frames@[s.frame].id);
    }
    if 0 <= i < j < l.len() {
        let a = l[i];
        let b = l[j];
        assert(!order::key_before(key(l[j]), key(l[i])));
        order::lemma_pair_key_before(
            t.frames@[source_of(t, b)->0.frame].time_ms as int,
            t.raw_points@[source_of(t, b)->0.raw].idx as int,
            t.frames@[source_of(t, a)->0.frame].time_ms as int,
            t.raw_points@[source_of(t, a)->0.raw].idx as int,
        );
    }
}

/// No block is counted twice by how far it is, and only the five known words are counted.
pub proof fn law_blocks_are_counted_once(blocks: Seq<BlockRow>, i: int)
    ensures
        !(is_done(blocks)(i) && is_blocked(blocks)(i)),
        !(is_done(blocks)(i) && is_pending(blocks)(i)),
        !(is_blocked(blocks)(i) && is_pending(blocks)(i)),
        is_done(blocks)(i) <==> blocks[i].status@ == "done"@,
        is_blocked(blocks)(i) <==> blocks[i].status@ == "blocked"@,
        is_pending(blocks)(i) <==> blocks[i].status@ == "pending"@ || blocks[i].status@
            == "building"@ || blocks[i].status@ == "stale"@,
{
    reveal_strlit("done");
    reveal_strlit("blocked");
    reveal_strlit("pending");
    reveal_strlit("building");
    reveal_strlit("stale");
    assert("done"@.len() == 4 && "blocked"@.len() == 7 && "pending"@.len() == 7 && "building"@.len()
        == 8 && "stale"@.len() == 5);
    assert("blocked"@[0] == 'b' && "pending"@[0] == 'p');
}

/// A point is listed where its block, the frame of that block, which counts, and its raw
/// point, which is of that frame, are there.
pub proof fn law_point_with_a_source_is_listed(t: Tables, x: int, b: int, f: int, r: int)
    requires
        0 <= x < t.map_points@.len(),
        0 <= b < t.blocks@.len(),
        0 <= f < t.frames@.len(),
        0 <= r < t.raw_points@.len(),
        t.blocks@[b].id == t.map_points@[x].block_id,
        t.raw_points@[r].id == t.map_points@[x].raw_point_id,
        t.frames@[f].id == t.blocks@[b].frame_id,
        t.raw_points@[r].frame_id == t.frames@[f].id,
        t.frames@[f].canonical,
        forall|k: int| 0 <= k < b ==> (#[trigger] t.blocks@[k]).id != t.blocks@[b].id,
        forall|k: int| 0 <= k < f ==> (#[trigger] t.frames@[k]).id != t.frames@[f].id,
        forall|k: int| 0 <= k < r ==> (#[trigger] t.raw_points@[k]).id != t.raw_points@[r].id,
    ensures
        point_order(t).contains(x),
        source_of(t, x) == Some((Source { block: b, frame: f, raw: r })),
{
    let hb = is_block(t.blocks@, t.blocks@[b].id);
    let hf = is_frame(t.frames@, t.frames@[f].id);
    let hr = is_raw_point(t.raw_points@, t.raw_points@[r].id);
    assert forall|k: int| 0 <= k < b implies !#[trigger] hb(k) by {
        assert(t.blocks@[k].id != t.blocks@[b].id);
    }
    assert forall|k: int| 0 <= k < f implies !#[trigger] hf(k) by {
        assert(t.frames@[k].id != t.frames@[f].id);
    }
    assert forall|k: int| 0 <= k < r implies !#[trigger] hr(k) by {
        assert(t.raw_points@[k].id != t.raw_points@[r].id);
    }
    rows::lemma_first_is(t.blocks@.len() as int, hb, b);
    rows::lemma_first_is(t.frames@.len() as int, hf, f);
    rows::lemma_first_is(t.raw_points@.len() as int, hr, r);
    order::law_listing_holds_what_is_shown(t.map_points@.len() as int, point_listed(t), point_key(t));
    assert(point_listed(t)(x));
}

/// A packet is told as it is, with the device of a stream that has its id; so is a pose. A
/// block is told with the time and the generation of the frame that it is of.
pub proof fn law_what_is_told_of_listed_rows(
    t: Tables,
    p: PacketLine,
    x: int,
    q: PoseLine,
    y: int,
    b: BlockLine,
    z: int,
)
    requires
        tells_packet(p, t, x),
        packet_order(t).contains(x),
        tells_pose(q, t, y),
        pose_order(t).contains(y),
        tells_block(b, t, z),
        block_order(t).contains(z),
    ensures
        p.id == t.packets@[x].id,
        p.generation == t.packets@[x].generation,
        p.seq == t.packets@[x].seq,
        p.gps_ms == t.packets@[x].gps_ms,
        p.raw_clock@ == t.packets@[x].raw_clock@,
        p.raw_ts@ == t.packets@[x].raw_ts@,
        p.coord_frame@ == t.packets@[x].coord_frame@,
        p.unit@ == t.packets@[x].unit@,
        p.content_summary@ == t.packets@[x].content_summary@,
        p.flag@ == t.packets@[x].flag@,
        p.received_order == t.packets@[x].received_order,
        exists|s: int|
            0 <= s < t.streams@.len() && (#[trigger] t.streams@[s]).id == t.packets@[x].stream_id
                && p.device_id@ == t.streams@[s].device_id@,
        q.generation == t.poses@[y].generation,
        q.time_ms == t.poses@[y].time_ms,
        q.t == t.poses@[y].t,
        exists|s: int|
            0 <= s < t.streams@.len() && (#[trigger] t.streams@[s]).id == t.poses@[y].stream_id
                && q.device@ == t.streams@[s].device_id@,
        b.block_id == t.blocks@[z].id,
        b.frame_id == t.blocks@[z].frame_id,
        b.source_frame@ == t.blocks@[z].source_frame@,
        b.target_frame@ == t.blocks@[z].target_frame@,
        b.status@ == t.blocks@[z].status@,
        text::text_of(b.error) == text::text_of(t.blocks@[z].error),
        b.edge_versions@ == t.blocks@[z].edge_versions@,
        exists|f: int|
            0 <= f < t.frames@.len() && (#[trigger] t.frames@[f]).id == t.blocks@[z].frame_id
                && b.time_ms == t.frames@[f].time_ms && b.generation == t.frames@[f].generation,
{
    law_packets_are_listed_as_received(t, x, 0, 0);
    law_poses_are_listed_by_device_and_time(t, y, 0, 0);
    law_blocks_are_listed_by_time(t, z, 0, 0);
    lemma_stream_found(t, t.packets@[x].stream_id);
    lemma_stream_found(t, t.poses@[y].stream_id);
    lemma_frame_found(t, t.blocks@[z].frame_id);
    let s = stream_with(t.streams@, t.packets@[x].stream_id)->0;
    assert(t.streams@[s].id == t.packets@[x].stream_id);
    let f = frame_with(t.frames@, t.blocks@[z].frame_id)->0;
    assert(t.frames@[f].id == t.blocks@[z].frame_id);
}

/// A stream is told as it is; a point with its frame, the status of its block, and both of
/// its positions.
pub proof fn law_what_is_told_of_streams_and_points(
    l: StreamRow,
    s: StreamRow,
    r: FramePoint,
    t: Tables,
    i: int,
)
    requires
        tells_stream(l, s),
        tells_point(r, t, i),
        source_of(t, i) is Some,
    ensures
        l.id == s.id,
        l.device_id@ == s.device_id@,
        l.kind@ == s.kind@,
        l.coord_frame@ == s.coord_frame@,
        l.unit@ == s.unit@,
        r.frame_id == t.frames@[source_of(t, i)->0.frame].id,
        r.time_ms == t.frames@[source_of(t, i)->0.frame].time_ms,
        r.generation == t.frames@[source_of(t, i)->0.frame].generation,
        r.status@ == t.blocks@[source_of(t, i)->0.block].status@,
        r.point is Some,
        r.point->0.id == t.map_points@[i].id,
        r.point->0.map == t.map_points@[i].xyz,
        r.point->0.raw == t.raw_points@[source_of(t, i)->0.raw].xyz,
{
}

/// A list of frames stands for what each of them holds.
pub proof fn law_frames_stand_for_their_fields(g: Seq<FrameGroup>, i: int)
    requires
        0 <= i < g.len(),
    ensures
        group_values(g).len() == g.len(),
        group_values(g)[i].frame_id == g[i].frame_id,
        group_values(g)[i].time_ms == g[i].time_ms,
        group_values(g)[i].generation == g[i].generation,
        group_values(g)[i].status == g[i].status@,
        group_values(g)[i].points == g[i].points@,
{
}

} // verus!
