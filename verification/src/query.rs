//! Read-only queries over what was ingested and what was derived from it: generations,
//! packets, gaps in time, the point cloud, where a point comes from, and counts.

use crate::ingest;
use crate::ingest::{Archive, Generation, StoredPacket, StoredPoint, StoredPose};
use crate::order;
use crate::order::Part;
use crate::rows;
use crate::scalar::Scalar;
use crate::text;
use crate::time;
use crate::time::Nanos;
use vstd::prelude::*;
use vstd::string::*;

verus! {

// ---- derived rows -----------------------------------------------------------------------------

/// How far the derivation of a packet has come.
#[derive(Clone, Copy, Debug, PartialEq, Eq, Structural)]
pub enum Progress {
    Building,
    Ready,
    Error,
}

/// The derived block of a packet.
#[derive(Clone, Debug)]
pub struct DerivedBlock {
    pub id: i64,
    pub packet_id: i64,
    pub status: Progress,
    pub error: String,
}

/// A derived point.
#[derive(Clone, Copy, Debug)]
pub struct DerivedPoint {
    pub id: i64,
    pub raw_point_id: i64,
    pub block_id: i64,
    pub xyz: [Scalar; 3],
    pub cov: [Scalar; 3],
    pub path_score: Scalar,
}

/// One step of the chain of a derived point.
#[derive(Clone, Debug)]
pub struct PointStep {
    pub derived_point_id: i64,
    pub step: i64,
    pub edge_key: String,
    pub edge_version: i64,
    pub edge_kind: String,
    pub valid_from: Option<Nanos>,
    pub valid_to: Option<Nanos>,
    pub cov_trace: Scalar,
}

/// A version of an edge, and whether it is in use.
#[derive(Clone, Debug)]
pub struct EdgeVersion {
    pub key: String,
    pub version: i64,
    pub active: bool,
}

/// Everything that was derived.
#[derive(Clone, Debug)]
pub struct Derived {
    pub blocks: Vec<DerivedBlock>,
    pub points: Vec<DerivedPoint>,
    pub steps: Vec<PointStep>,
    pub edges: Vec<EdgeVersion>,
}

// ---- generations and packets --------------------------------------------------------------------

#[derive(Clone, Debug)]
pub struct GenerationDto {
    pub id: i64,
    pub device_id: String,
    pub kind: String,
    pub seq_start: i64,
    pub t_start: Nanos,
    pub t_end: Nanos,
    pub note: String,
    pub packet_count: usize,
}

#[derive(Clone, Debug)]
pub struct PacketDto {
    pub id: i64,
    pub device_id: String,
    pub kind: String,
    pub seq: i64,
    pub gen_id: i64,
    pub time_desc: String,
    pub unix_time: Nanos,
    pub coord_system: String,
    pub unit: String,
    pub content_summary: String,
    pub received_order: i64,
    pub is_duplicate: bool,
    pub is_late: bool,
    pub duplicate_of: Option<i64>,
    pub point_count: usize,
    pub block_status: Option<Progress>,
    pub block_error: String,
}

/// Whether a packet is of a generation.
pub open spec fn in_generation(packets: Seq<StoredPacket>, gen_id: i64) -> spec_fn(int) -> bool {
    |i: int| packets[i].gen_id == gen_id
}

/// Whether a point is of a packet.
pub open spec fn in_packet(points: Seq<StoredPoint>, packet_id: i64) -> spec_fn(int) -> bool {
    |i: int| points[i].packet_id == packet_id
}

/// Whether a block is of a packet.
pub open spec fn of_packet(blocks: Seq<DerivedBlock>, packet_id: i64) -> spec_fn(int) -> bool {
    |i: int| blocks[i].packet_id == packet_id
}

/// The block of a packet, by position.
pub open spec fn block_of(blocks: Seq<DerivedBlock>, packet_id: i64) -> Option<int> {
    rows::first_where(blocks.len() as int, of_packet(blocks, packet_id))
}

/// Whether a generation is told as it is, with the number of its packets.
pub open spec fn tells_generation(d: GenerationDto, g: Generation, packets: Seq<StoredPacket>)
    -> bool {
    &&& d.id == g.id
    &&& d.device_id@ == g.device_id@
    &&& d.kind@ == g.kind@
    &&& d.seq_start == g.seq_start
    &&& d.t_start == g.t_start
    &&& d.t_end == g.t_end
    &&& d.note@ == g.note@
    &&& d.packet_count == rows::count_where(packets.len() as int, in_generation(packets, g.id))
}

/// Whether a packet is told as it is, with the number of its points and what became of
/// its block.
pub open spec fn tells_packet(d: PacketDto, p: StoredPacket, db: Archive, x: Derived) -> bool {
    &&& d.id == p.id
    &&& d.device_id@ == p.device_id@
    &&& d.kind@ == p.kind@
    &&& d.seq == p.seq
    &&& d.gen_id == p.gen_id
    &&& d.time_desc@ == p.time_desc@
    &&& d.unix_time == p.unix_time
    &&& d.coord_system@ == p.coord_system@
    &&& d.unit@ == p.unit@
    &&& d.content_summary@ == p.content_summary@
    &&& d.received_order == p.received_order
    &&& d.is_duplicate == p.is_duplicate
    &&& d.is_late == p.is_late
    &&& d.duplicate_of == p.duplicate_of
    &&& d.point_count == rows::count_where(db.points@.len() as int, in_packet(db.points@, p.id))
    &&& match block_of(x.blocks@, p.id) {
        Some(i) => d.block_status == Some(x.blocks@[i].status) && d.block_error@
            == x.blocks@[i].error@,
        None => d.block_status is None && d.block_error@ == ""@,
    }
}

/// Whether a packet is of the kind asked for, where one is.
pub open spec fn of_kind(packets: Seq<StoredPacket>, kind: Option<Seq<char>>) -> spec_fn(int) -> bool {
    |i: int| kind is None || packets[i].kind@ == kind->0
}

fn count_in_generation(packets: &Vec<StoredPacket>, gen_id: i64) -> (r: usize)
    ensures
        r == rows::count_where(packets@.len() as int, in_generation(packets@, gen_id)),
{
    let ghost holds = in_generation(packets@, gen_id);
    let mut n: usize = 0;
    let mut i: usize = 0;
    while i < packets.len()
        invariant
            i <= packets@.len(),
            holds == in_generation(packets@, gen_id),
            n == rows::count_where(i as int, holds),
            n <= i,
        decreases packets.len() - i,
    {
        if packets[i].gen_id == gen_id {
            assert(holds(i as int));
            n += 1;
        } else {
            assert(!holds(i as int));
        }
        i += 1;
    }
    n
}

fn count_in_packet(points: &Vec<StoredPoint>, packet_id: i64) -> (r: usize)
    ensures
        r == rows::count_where(points@.len() as int, in_packet(points@, packet_id)),
{
    let ghost holds = in_packet(points@, packet_id);
    let mut n: usize = 0;
    let mut i: usize = 0;
    while i < points.len()
        invariant
            i <= points@.len(),
            holds == in_packet(points@, packet_id),
            n == rows::count_where(i as int, holds),
            n <= i,
        decreases points.len() - i,
    {
        if points[i].packet_id == packet_id {
            assert(holds(i as int));
            n += 1;
        } else {
            assert(!holds(i as int));
        }
        i += 1;
    }
    n
}

fn find_block(blocks: &Vec<DerivedBlock>, packet_id: i64) -> (r: Option<usize>)
    ensures
        match r {
            Some(i) => i < blocks@.len() && block_of(blocks@, packet_id) == Some(i as int),
            None => block_of(blocks@, packet_id) is None,
        },
{
    let ghost holds = of_packet(blocks@, packet_id);
    let mut i: usize = 0;
    while i < blocks.len()
        invariant
            i <= blocks@.len(),
            holds == of_packet(blocks@, packet_id),
            forall|k: int| 0 <= k < i ==> !#[trigger] holds(k),
        decreases blocks.len() - i,
    {
        if blocks[i].packet_id == packet_id {
            proof {
                assert(holds(i as int));
                rows::lemma_first_is(blocks@.len() as int, holds, i as int);
            }
            return Some(i);
        }
        assert(!holds(i as int));
        i += 1;
    }
    proof {
        rows::lemma_first_where(blocks@.len() as int, holds);
    }
    None
}

/// Lists the generations in the order in which they were opened.
pub fn generations(db: &Archive) -> (r: Vec<GenerationDto>)
    ensures
        r@.len() == db.generations@.len(),
        forall|i: int|
            0 <= i < r@.len() ==> tells_generation(
                #[trigger] r@[i],
                db.generations@[i],
                db.packets@,
            ),
{
    let mut out: Vec<GenerationDto> = Vec::new();
    let mut i: usize = 0;
    while i < db.generations.len()
        invariant
            i <= db.generations@.len(),
            out@.len() == i,
            forall|k: int|
                0 <= k < i ==> tells_generation(
                    #[trigger] out@[k],
                    db.generations@[k],
                    db.packets@,
                ),
        decreases db.generations.len() - i,
    {
        let g = &db.generations[i];
        out.push(
            GenerationDto {
                id: g.id,
                device_id: g.device_id.clone(),
                kind: g.kind.clone(),
                seq_start: g.seq_start,
                t_start: g.t_start,
                t_end: g.t_end,
                note: g.note.clone(),
                packet_count: count_in_generation(&db.packets, g.id),
            },
        );
        i += 1;
    }
    out
}

fn tell_packet(p: &StoredPacket, db: &Archive, x: &Derived) -> (r: PacketDto)
    ensures
        tells_packet(r, *p, *db, *x),
{
    let (block_status, block_error): (Option<Progress>, String) = match find_block(
        &x.blocks,
        p.id,
    ) {
        Some(i) => (Some(x.blocks[i].status), x.blocks[i].error.clone()),
        None => (None, "".to_owned()),
    };
    PacketDto {
        id: p.id,
        device_id: p.device_id.clone(),
        kind: p.kind.clone(),
        seq: p.seq,
        gen_id: p.gen_id,
        time_desc: p.time_desc.clone(),
        unix_time: p.unix_time,
        coord_system: p.coord_system.clone(),
        unit: p.unit.clone(),
        content_summary: p.content_summary.clone(),
        received_order: p.received_order,
        is_duplicate: p.is_duplicate,
        is_late: p.is_late,
        duplicate_of: p.duplicate_of,
        point_count: count_in_packet(&db.points, p.id),
        block_status,
        block_error,
    }
}

/// Lists packets in the order in which they were received, all or those of one kind.
pub fn packets(db: &Archive, x: &Derived, kind: Option<&str>) -> (r: Vec<PacketDto>)
    ensures
        ({
            let k = match kind {
                Some(s) => Some(s@),
                None => None,
            };
            let at = rows::all_where(db.packets@.len() as int, of_kind(db.packets@, k));
            &&& r@.len() == at.len()
            &&& forall|i: int|
                0 <= i < r@.len() ==> tells_packet(#[trigger] r@[i], db.packets@[at[i]], *db, *x)
        }),
{
    let ghost k = match kind {
        Some(s) => Some(s@),
        None => None,
    };
    let ghost holds = of_kind(db.packets@, k);
    let mut out: Vec<PacketDto> = Vec::new();
    let mut i: usize = 0;
    while i < db.packets.len()
        invariant
            i <= db.packets@.len(),
            k == match kind {
                Some(s) => Some(s@),
                None => None,
            },
            holds == of_kind(db.packets@, k),
            out@.len() == rows::all_where(i as int, holds).len(),
            forall|j: int|
                0 <= j < out@.len() ==> tells_packet(
                    #[trigger] out@[j],
                    db.packets@[rows::all_where(i as int, holds)[j]],
                    *db,
                    *x,
                ),
        decreases db.packets.len() - i,
    {
        let wanted = match kind {
            Some(s) => text::same(db.packets[i].kind.as_str(), s),
            None => true,
        };
        assert(wanted == holds(i as int));
        if wanted {
            out.push(tell_packet(&db.packets[i], db, x));
        }
        i += 1;
    }
    out
}

// ---- gaps ---------------------------------------------------------------------------------------

#[derive(Clone, Debug)]
pub struct GapDto {
    pub device_id: String,
    pub gen_id: i64,
    pub from_packet: i64,
    pub to_packet: i64,
    pub from_time: Nanos,
    pub to_time: Nanos,
    pub gap_sec: Nanos,
    pub kind: String,
}

/// What a gap stands for.
pub struct GapValue {
    pub device_id: Seq<char>,
    pub gen_id: int,
    pub from_packet: int,
    pub to_packet: int,
    pub from_time: int,
    pub to_time: int,
    pub gap_sec: int,
    pub kind: Seq<char>,
}

impl View for GapDto {
    type V = GapValue;

    open spec fn view(&self) -> GapValue {
        GapValue {
            device_id: self.device_id@,
            gen_id: self.gen_id as int,
            from_packet: self.from_packet as int,
            to_packet: self.to_packet as int,
            from_time: self.from_time as int,
            to_time: self.to_time as int,
            gap_sec: self.gap_sec as int,
            kind: self.kind@,
        }
    }
}

/// What a list of gaps stands for.
pub open spec fn gap_values(g: Seq<GapDto>) -> Seq<GapValue> {
    g.map_values(|x: GapDto| x@)
}

/// Whether a packet repeats no other.
pub open spec fn is_original(packets: Seq<StoredPacket>) -> spec_fn(int) -> bool {
    |i: int| !packets[i].is_duplicate
}

/// What packets are sorted by to find gaps: their stream, their generation, their time,
/// and the order in which they were received.
pub open spec fn gap_key(p: StoredPacket) -> Seq<order::PartValue> {
    seq![
        order::PartValue::Text(p.device_id@),
        order::PartValue::Text(p.kind@),
        order::PartValue::Number(p.gen_id as int),
        order::PartValue::Number(p.unix_time as int),
        order::PartValue::Number(p.received_order as int),
    ]
}

/// The packets that repeat no other, by position, in that order.
pub open spec fn gap_order(packets: Seq<StoredPacket>) -> Seq<int> {
    let at = rows::all_where(packets.len() as int, is_original(packets));
    order::order_of(at.map_values(|i: int| gap_key(packets[i]))).map_values(|k: int| at[k])
}

/// Whether there is a gap between two packets: they are of one generation and further
/// apart than a threshold.
pub open spec fn parted(a: StoredPacket, b: StoredPacket, threshold: int) -> bool {
    a.gen_id == b.gen_id && b.unix_time - a.unix_time > threshold
}

/// The gap between two packets.
pub open spec fn gap_between(a: StoredPacket, b: StoredPacket) -> GapValue {
    GapValue {
        device_id: a.device_id@,
        gen_id: a.gen_id as int,
        from_packet: a.id as int,
        to_packet: b.id as int,
        from_time: a.unix_time as int,
        to_time: b.unix_time as int,
        gap_sec: b.unix_time - a.unix_time,
        kind: a.kind@,
    }
}

/// The gaps between neighbours among the first `n` packets of an order.
pub open spec fn gaps_among(packets: Seq<StoredPacket>, at: Seq<int>, threshold: int, n: int) -> Seq<
    GapValue,
>
    decreases n,
{
    if n <= 1 {
        Seq::empty()
    } else {
        let before = gaps_among(packets, at, threshold, n - 1);
        let a = packets[at[n - 2]];
        let b = packets[at[n - 1]];
        if parted(a, b, threshold) {
            before.push(gap_between(a, b))
        } else {
            before
        }
    }
}

fn order_for_gaps(packets: &Vec<StoredPacket>) -> (r: Vec<usize>)
    ensures
        order::positions(r@) == gap_order(packets@),
        forall|i: int| 0 <= i < r@.len() ==> #[trigger] r@[i] < packets@.len(),
{
    let ghost holds = is_original(packets@);
    let mut at: Vec<usize> = Vec::new();
    let mut keys: Vec<Vec<Part>> = Vec::new();
    let mut i: usize = 0;
    assert(order::positions(at@) =~= rows::all_where(0, holds));
    while i < packets.len()
        invariant
            i <= packets@.len(),
            holds == is_original(packets@),
            order::positions(at@) == rows::all_where(i as int, holds),
            forall|k: int| 0 <= k < at@.len() ==> #[trigger] at@[k] < packets@.len(),
            keys@.len() == at@.len(),
            forall|k: int|
                0 <= k < at@.len() ==> order::key_value((#[trigger] keys@[k])@) == gap_key(
                    packets@[at@[k] as int],
                ),
        decreases packets.len() - i,
    {
        let p = &packets[i];
        if !p.is_duplicate {
            let ghost before = order::positions(at@);
            at.push(i);
            assert(order::positions(at@) =~= before.push(i as int));
            assert(holds(i as int));
            let mut key: Vec<Part> = Vec::new();
            key.push(Part::Text(p.device_id.clone()));
            key.push(Part::Text(p.kind.clone()));
            key.push(Part::Number(p.gen_id as i128));
            key.push(Part::Number(p.unix_time));
            key.push(Part::Number(p.received_order as i128));
            assert(order::key_value(key@) =~= gap_key(*p));
            keys.push(key);
        } else {
            assert(!holds(i as int));
        }
        i += 1;
    }
    let ghost sel = order::positions(at@);
    assert(order::key_values(keys@) =~= sel.map_values(|i: int| gap_key(packets@[i])));
    let o = order::sorted_order(&keys);
    order::pick(&at, &o)
}

/// Lists the gaps between neighbouring packets of a generation, repeated packets left
/// out, that are wider than a threshold.
pub fn gaps(db: &Archive, threshold: Nanos) -> (r: Vec<GapDto>)
    requires
        db.wf(),
    ensures
        gap_values(r@) == gaps_among(
            db.packets@,
            gap_order(db.packets@),
            threshold as int,
            gap_order(db.packets@).len() as int,
        ),
{
    let at = order_for_gaps(&db.packets);
    let ghost av = order::positions(at@);
    let mut out: Vec<GapDto> = Vec::new();
    let mut i: usize = 1;
    assert(gap_values(out@) =~= gaps_among(db.packets@, av, threshold as int, 1));
    if at.len() == 0 {
        return out;
    }
    while i < at.len()
        invariant
            1 <= i <= at@.len(),
            db.wf(),
            av == order::positions(at@),
            forall|k: int| 0 <= k < at@.len() ==> #[trigger] at@[k] < db.packets@.len(),
            gap_values(out@) == gaps_among(db.packets@, av, threshold as int, i as int),
        decreases at.len() - i,
    {
        assert(at@[i - 1] < db.packets@.len() && at@[i as int] < db.packets@.len());
        let a = &db.packets[at[i - 1]];
        let b = &db.packets[at[i]];
        assert(time::is_span(a.unix_time as int) && time::is_span(b.unix_time as int));
        let ghost before = out@;
        let gap: Nanos = b.unix_time - a.unix_time;
        if a.gen_id == b.gen_id && gap > threshold {
            out.push(
                GapDto {
                    device_id: a.device_id.clone(),
                    gen_id: a.gen_id,
                    from_packet: a.id,
                    to_packet: b.id,
                    from_time: a.unix_time,
                    to_time: b.unix_time,
                    gap_sec: gap,
                    kind: a.kind.clone(),
                },
            );
            assert(gap_values(out@) =~= gap_values(before).push(out@.last()@));
        }
        i += 1;
    }
    out
}

proof fn lemma_gaps_among(
    packets: Seq<StoredPacket>,
    at: Seq<int>,
    threshold: int,
    n: int,
    g: GapValue,
)
    requires
        0 <= n <= at.len(),
        gaps_among(packets, at, threshold, n).contains(g),
    ensures
        exists|k: int| #![trigger at[k]]
            0 <= k && k + 1 < n && parted(packets[at[k]], packets[at[k + 1]], threshold) && g
                == gap_between(packets[at[k]], packets[at[k + 1]]),
    decreases n,
{
    let now = gaps_among(packets, at, threshold, n);
    if n > 1 {
        let before = gaps_among(packets, at, threshold, n - 1);
        let i = choose|i: int| 0 <= i < now.len() && now[i] == g;
        if i < before.len() {
            assert(before[i] == g);
            assert(before.contains(g));
            lemma_gaps_among(packets, at, threshold, n - 1, g);
        } else {
            assert(parted(packets[at[n - 2]], packets[at[(n - 2) + 1]], threshold));
        }
    }
}

/// Every gap lies between two packets of one generation, neither of which repeats
/// another, and is wider than the threshold: gaps are never told across generations.
pub proof fn law_gaps_stay_within_a_generation(db: Archive, threshold: int, g: GapValue)
    requires
        db.wf(),
        ({
            let at = gap_order(db.packets@);
            gaps_among(db.packets@, at, threshold, at.len() as int).contains(g)
        }),
    ensures
        exists|a: int, b: int| #![trigger db.packets@[a], db.packets@[b]]
            {
                &&& 0 <= a < db.packets@.len()
                &&& 0 <= b < db.packets@.len()
                &&& g == gap_between(db.packets@[a], db.packets@[b])
                &&& db.packets@[a].gen_id == db.packets@[b].gen_id
                &&& db.packets@[a].device_id@ == db.packets@[b].device_id@
                &&& db.packets@[a].kind@ == db.packets@[b].kind@
                &&& !db.packets@[a].is_duplicate
                &&& !db.packets@[b].is_duplicate
            },
        g.gap_sec > threshold,
{
    let packets = db.packets@;
    let holds = is_original(packets);
    let sel = rows::all_where(packets.len() as int, holds);
    let keys = sel.map_values(|i: int| gap_key(packets[i]));
    let o = order::order_of(keys);
    let at = gap_order(packets);
    order::law_order_is_unique(keys, o);
    rows::lemma_all_where(packets.len() as int, holds);
    lemma_gaps_among(packets, at, threshold, at.len() as int, g);
    let k = choose|k: int| #![trigger at[k]]
        0 <= k && k + 1 < at.len() && parted(packets[at[k]], packets[at[k + 1]], threshold) && g
            == gap_between(packets[at[k]], packets[at[k + 1]]);
    assert(at[k] == sel[o[k]] && at[k + 1] == sel[o[k + 1]]);
    let a = at[k];
    let b = at[k + 1];
    assert(holds(a) && holds(b));
    assert(ingest::in_stream(
        db.generations@[packets[a].gen_id - 1],
        packets[a].device_id@,
        packets[a].kind@,
    ));
    assert(ingest::in_stream(
        db.generations@[packets[b].gen_id - 1],
        packets[b].device_id@,
        packets[b].kind@,
    ));
}

// ---- the point cloud ------------------------------------------------------------------------------

#[derive(Clone, Debug)]
pub struct DerivedPointDto {
    pub id: i64,
    pub raw_point_id: i64,
    pub block_id: i64,
    pub xyz: [Scalar; 3],
    pub cov: [Scalar; 3],
    pub path_score: Scalar,
    pub raw: [Scalar; 3],
    pub raw_unit: String,
    pub device_id: String,
    pub packet_id: i64,
    pub gen_id: i64,
    pub unix_time: Nanos,
    pub seq: i64,
}

#[derive(Clone, Debug)]
pub struct ChainStepDto {
    pub step: i64,
    pub edge_key: String,
    pub edge_version: i64,
    pub edge_kind: String,
    pub valid_from: Option<Nanos>,
    pub valid_to: Option<Nanos>,
    pub cov_trace: Scalar,
}

#[derive(Clone, Debug)]
pub struct PointCloudResp {
    pub points: Vec<DerivedPointDto>,
    pub gen_count: usize,
    pub block_count: usize,
}

/// Whether a block has an id.
pub open spec fn has_block_id(blocks: Seq<DerivedBlock>, id: i64) -> spec_fn(int) -> bool {
    |i: int| blocks[i].id == id
}

/// What a derived point was made from, by position: its block, its packet and its raw
/// point. Raw points are numbered from one.
pub struct Trace {
    pub block: int,
    pub packet: int,
    pub raw: int,
}

/// What a derived point was made from, where all of it is there.
pub open spec fn trace_of(d: DerivedPoint, db: Archive, x: Derived) -> Option<Trace> {
    match rows::first_where(x.blocks@.len() as int, has_block_id(x.blocks@, d.block_id)) {
        None => None,
        Some(b) => if 1 <= x.blocks@[b].packet_id <= db.packets@.len() && 1 <= d.raw_point_id
            <= db.points@.len() {
            Some(Trace { block: b, packet: x.blocks@[b].packet_id - 1, raw: d.raw_point_id - 1 })
        } else {
            None
        },
    }
}

/// Whether a derived point is told as it is, with what it was made from.
pub open spec fn tells_point(r: DerivedPointDto, d: DerivedPoint, db: Archive, x: Derived) -> bool {
    let t = trace_of(d, db, x)->0;
    let p = db.packets@[t.packet];
    let q = db.points@[t.raw];
    &&& trace_of(d, db, x) is Some
    &&& r.id == d.id
    &&& r.raw_point_id == d.raw_point_id
    &&& r.block_id == d.block_id
    &&& r.xyz == d.xyz
    &&& r.cov == d.cov
    &&& r.path_score == d.path_score
    &&& r.raw@ == seq![q.x, q.y, q.z]
    &&& r.raw_unit@ == p.unit@
    &&& r.device_id@ == p.device_id@
    &&& r.packet_id == p.id
    &&& r.gen_id == p.gen_id
    &&& r.unix_time == p.unix_time
    &&& r.seq == p.seq
}

/// Whether a derived point is shown: its block is ready.
pub open spec fn is_shown(db: Archive, x: Derived) -> spec_fn(int) -> bool {
    |i: int|
        match trace_of(x.points@[i], db, x) {
            Some(t) => x.blocks@[t.block].status is Ready,
            None => false,
        }
}

/// What derived points are sorted by: the generation, the time and the number of their
/// packets, then their own ids.
pub open spec fn cloud_key(d: DerivedPoint, db: Archive, x: Derived) -> Seq<order::PartValue> {
    let p = db.packets@[trace_of(d, db, x)->0.packet];
    seq![
        order::PartValue::Number(p.gen_id as int),
        order::PartValue::Number(p.unix_time as int),
        order::PartValue::Number(p.seq as int),
        order::PartValue::Number(d.id as int),
    ]
}

/// The derived points that are shown, by position, in that order.
pub open spec fn cloud_order(db: Archive, x: Derived) -> Seq<int> {
    let at = rows::all_where(x.points@.len() as int, is_shown(db, x));
    order::order_of(at.map_values(|i: int| cloud_key(x.points@[i], db, x))).map_values(
        |k: int| at[k],
    )
}

/// How many points are shown under a limit; a negative one is none.
pub open spec fn limited(limit: i64, n: int) -> int {
    if 0 <= limit < n {
        limit as int
    } else {
        n
    }
}

/// Whether a block has a status.
pub open spec fn has_status(blocks: Seq<DerivedBlock>, status: Progress) -> spec_fn(int) -> bool {
    |i: int| blocks[i].status == status
}

/// What a derived point was made from, by position.
#[derive(Clone, Copy, Debug)]
struct Origin {
    block: usize,
    packet: usize,
    raw: usize,
}

fn find_origin(d: &DerivedPoint, db: &Archive, x: &Derived) -> (r: Option<Origin>)
    ensures
        match r {
            Some(o) => {
                &&& trace_of(*d, *db, *x) == Some(
                    Trace { block: o.block as int, packet: o.packet as int, raw: o.raw as int },
                )
                &&& o.block < x.blocks@.len()
                &&& o.packet < db.packets@.len()
                &&& o.raw < db.points@.len()
            },
            None => trace_of(*d, *db, *x) is None,
        },
{
    let ghost holds = has_block_id(x.blocks@, d.block_id);
    let mut i: usize = 0;
    while i < x.blocks.len()
        invariant
            i <= x.blocks@.len(),
            holds == has_block_id(x.blocks@, d.block_id),
            forall|k: int| 0 <= k < i ==> !#[trigger] holds(k),
        decreases x.blocks.len() - i,
    {
        if x.blocks[i].id == d.block_id {
            proof {
                assert(holds(i as int));
                rows::lemma_first_is(x.blocks@.len() as int, holds, i as int);
            }
            let p: i64 = x.blocks[i].packet_id;
            let q: i64 = d.raw_point_id;
            if 1 <= p && p as i128 <= db.packets.len() as i128 && 1 <= q && q as i128
                <= db.points.len() as i128 {
                return Some(
                    Origin { block: i, packet: (p - 1) as usize, raw: (q - 1) as usize },
                );
            }
            return None;
        }
        assert(!holds(i as int));
        i += 1;
    }
    proof {
        rows::lemma_first_where(x.blocks@.len() as int, holds);
    }
    None
}

fn tell_point(d: &DerivedPoint, o: Origin, db: &Archive, x: &Derived) -> (r: DerivedPointDto)
    requires
        trace_of(*d, *db, *x) == Some(
            (Trace { block: o.block as int, packet: o.packet as int, raw: o.raw as int }),
        ),
        o.packet < db.packets@.len(),
        o.raw < db.points@.len(),
    ensures
        tells_point(r, *d, *db, *x),
{
    let p = &db.packets[o.packet];
    let q = &db.points[o.raw];
    let raw = [q.x, q.y, q.z];
    assert(raw@ =~= seq![q.x, q.y, q.z]);
    DerivedPointDto {
        id: d.id,
        raw_point_id: d.raw_point_id,
        block_id: d.block_id,
        xyz: d.xyz,
        cov: d.cov,
        path_score: d.path_score,
        raw,
        raw_unit: p.unit.clone(),
        device_id: p.device_id.clone(),
        packet_id: p.id,
        gen_id: p.gen_id,
        unix_time: p.unix_time,
        seq: p.seq,
    }
}

fn order_cloud(db: &Archive, x: &Derived) -> (r: Vec<usize>)
    ensures
        order::positions(r@) == cloud_order(*db, *x),
        forall|i: int|
            0 <= i < r@.len() ==> #[trigger] r@[i] < x.points@.len() && trace_of(
                x.points@[r@[i] as int],
                *db,
                *x,
            ) is Some,
{
    let ghost holds = is_shown(*db, *x);
    let mut at: Vec<usize> = Vec::new();
    let mut keys: Vec<Vec<Part>> = Vec::new();
    let mut i: usize = 0;
    assert(order::positions(at@) =~= rows::all_where(0, holds));
    while i < x.points.len()
        invariant
            i <= x.points@.len(),
            holds == is_shown(*db, *x),
            order::positions(at@) == rows::all_where(i as int, holds),
            forall|k: int|
                0 <= k < at@.len() ==> #[trigger] at@[k] < x.points@.len() && trace_of(
                    x.points@[at@[k] as int],
                    *db,
                    *x,
                ) is Some,
            keys@.len() == at@.len(),
            forall|k: int|
                0 <= k < at@.len() ==> order::key_value((#[trigger] keys@[k])@) == cloud_key(
                    x.points@[at@[k] as int],
                    *db,
                    *x,
                ),
        decreases x.points.len() - i,
    {
        let d = &x.points[i];
        let found = find_origin(d, db, x);
        let shown = match found {
            Some(o) => x.blocks[o.block].status == Progress::Ready,
            None => false,
        };
        assert(shown == holds(i as int));
        if shown {
            match found {
                Some(o) => {
                    let p = &db.packets[o.packet];
                    let ghost before = order::positions(at@);
                    at.push(i);
                    assert(order::positions(at@) =~= before.push(i as int));
                    let mut key: Vec<Part> = Vec::new();
                    key.push(Part::Number(p.gen_id as i128));
                    key.push(Part::Number(p.unix_time));
                    key.push(Part::Number(p.seq as i128));
                    key.push(Part::Number(d.id as i128));
                    assert(order::key_value(key@) =~= cloud_key(*d, *db, *x));
                    keys.push(key);
                },
                None => {},
            }
        }
        i += 1;
    }
    let ghost sel = order::positions(at@);
    assert(order::key_values(keys@) =~= sel.map_values(
        |i: int| cloud_key(x.points@[i], *db, *x),
    ));
    let o = order::sorted_order(&keys);
    let r = order::pick(&at, &o);
    assert forall|i: int| 0 <= i < r@.len() implies #[trigger] r@[i] < x.points@.len() && trace_of(
        x.points@[r@[i] as int],
        *db,
        *x,
    ) is Some by {
        assert(at@.contains(r@[i]));
        let k = choose|k: int| 0 <= k < at@.len() && at@[k] == r@[i];
        assert(at@[k] < x.points@.len());
    }
    r
}

fn count_status(blocks: &Vec<DerivedBlock>, status: Progress) -> (r: usize)
    ensures
        r == rows::count_where(blocks@.len() as int, has_status(blocks@, status)),
{
    let ghost holds = has_status(blocks@, status);
    let mut n: usize = 0;
    let mut i: usize = 0;
    while i < blocks.len()
        invariant
            i <= blocks@.len(),
            holds == has_status(blocks@, status),
            n == rows::count_where(i as int, holds),
            n <= i,
        decreases blocks.len() - i,
    {
        if blocks[i].status == status {
            assert(holds(i as int));
            n += 1;
        } else {
            assert(!holds(i as int));
        }
        i += 1;
    }
    n
}

/// Lists the derived points of ready blocks by generation, time and number, up to a
/// limit, with the numbers of generations and of ready blocks.
pub fn point_cloud(db: &Archive, x: &Derived, limit: i64) -> (r: PointCloudResp)
    ensures
        r.points@.len() == limited(limit, cloud_order(*db, *x).len() as int),
        forall|i: int|
            0 <= i < r.points@.len() ==> tells_point(
                #[trigger] r.points@[i],
                x.points@[cloud_order(*db, *x)[i]],
                *db,
                *x,
            ),
        r.gen_count == db.generations@.len(),
        r.block_count == rows::count_where(
            x.blocks@.len() as int,
            has_status(x.blocks@, Progress::Ready),
        ),
{
    let at = order_cloud(db, x);
    let ghost av = cloud_order(*db, *x);
    let n: usize = if 0 <= limit && (limit as i128) < at.len() as i128 {
        limit as usize
    } else {
        at.len()
    };
    let mut points: Vec<DerivedPointDto> = Vec::new();
    let mut i: usize = 0;
    while i < n
        invariant
            i <= n,
            n <= at@.len(),
            av == order::positions(at@),
            forall|k: int|
                0 <= k < at@.len() ==> #[trigger] at@[k] < x.points@.len() && trace_of(
                    x.points@[at@[k] as int],
                    *db,
                    *x,
                ) is Some,
            points@.len() == i,
            forall|k: int|
                0 <= k < i ==> tells_point(#[trigger] points@[k], x.points@[av[k]], *db, *x),
        decreases n - i,
    {
        assert(at@[i as int] < x.points@.len());
        let d = &x.points[at[i]];
        match find_origin(d, db, x) {
            Some(o) => {
                points.push(tell_point(d, o, db, x));
            },
            None => {},
        }
        i += 1;
    }
    PointCloudResp {
        points,
        gen_count: db.generations.len(),
        block_count: count_status(&x.blocks, Progress::Ready),
    }
}

/// Whether a step is of a derived point.
pub open spec fn of_point(steps: Seq<PointStep>, id: i64) -> spec_fn(int) -> bool {
    |i: int| steps[i].derived_point_id == id
}

/// The steps of a derived point, by position, in their order.
pub open spec fn step_order(steps: Seq<PointStep>, id: i64) -> Seq<int> {
    let at = rows::all_where(steps.len() as int, of_point(steps, id));
    order::order_of(
        at.map_values(|i: int| order::pair_key(steps[i].step as int, 0)),
    ).map_values(|k: int| at[k])
}

/// Whether a step is told as it is.
pub open spec fn tells_step(d: ChainStepDto, s: PointStep) -> bool {
    &&& d.step == s.step
    &&& d.edge_key@ == s.edge_key@
    &&& d.edge_version == s.edge_version
    &&& d.edge_kind@ == s.edge_kind@
    &&& d.valid_from == s.valid_from
    &&& d.valid_to == s.valid_to
    &&& d.cov_trace == s.cov_trace
}

/// Whether a derived point has an id and all that it was made from is there.
pub open spec fn is_point(db: Archive, x: Derived, id: i64) -> spec_fn(int) -> bool {
    |i: int| x.points@[i].id == id && trace_of(x.points@[i], db, x) is Some
}

fn list_steps(steps: &Vec<PointStep>, id: i64) -> (r: Vec<ChainStepDto>)
    ensures
        r@.len() == step_order(steps@, id).len(),
        forall|i: int|
            0 <= i < r@.len() ==> tells_step(
                #[trigger] r@[i],
                steps@[step_order(steps@, id)[i]],
            ),
{
    let ghost holds = of_point(steps@, id);
    let mut at: Vec<usize> = Vec::new();
    let mut pairs: Vec<(i128, i128)> = Vec::new();
    let mut i: usize = 0;
    assert(order::positions(at@) =~= rows::all_where(0, holds));
    while i < steps.len()
        invariant
            i <= steps@.len(),
            holds == of_point(steps@, id),
            order::positions(at@) == rows::all_where(i as int, holds),
            forall|k: int| 0 <= k < at@.len() ==> #[trigger] at@[k] < steps@.len(),
            pairs@.len() == at@.len(),
            forall|k: int|
                0 <= k < at@.len() ==> #[trigger] pairs@[k] == (
                    steps@[at@[k] as int].step as i128,
                    0i128,
                ),
        decreases steps.len() - i,
    {
        if steps[i].derived_point_id == id {
            let ghost before = order::positions(at@);
            at.push(i);
            assert(order::positions(at@) =~= before.push(i as int));
            assert(holds(i as int));
            pairs.push((steps[i].step as i128, 0));
        } else {
            assert(!holds(i as int));
        }
        i += 1;
    }
    let ghost sel = order::positions(at@);
    assert(order::pair_keys(pairs@) =~= sel.map_values(
        |i: int| order::pair_key(steps@[i].step as int, 0),
    ));
    let o = order::order_by_pairs(&pairs);
    let places = order::pick(&at, &o);
    let ghost pv = order::positions(places@);
    let mut out: Vec<ChainStepDto> = Vec::new();
    let mut k: usize = 0;
    assert forall|j: int| 0 <= j < places@.len() implies #[trigger] places@[j] < steps@.len() by {
        assert(at@.contains(places@[j]));
        let m = choose|m: int| 0 <= m < at@.len() && at@[m] == places@[j];
        assert(at@[m] < steps@.len());
    }
    while k < places.len()
        invariant
            k <= places@.len(),
            pv == order::positions(places@),
            forall|j: int| 0 <= j < places@.len() ==> #[trigger] places@[j] < steps@.len(),
            out@.len() == k,
            forall|j: int| 0 <= j < k ==> tells_step(#[trigger] out@[j], steps@[pv[j]]),
        decreases places.len() - k,
    {
        let s = &steps[places[k]];
        out.push(
            ChainStepDto {
                step: s.step,
                edge_key: s.edge_key.clone(),
                edge_version: s.edge_version,
                edge_kind: s.edge_kind.clone(),
                valid_from: s.valid_from,
                valid_to: s.valid_to,
                cov_trace: s.cov_trace,
            },
        );
        k += 1;
    }
    out
}

/// Tells a derived point with its chain.
pub fn point_detail(db: &Archive, x: &Derived, derived_id: i64) -> (r: Option<
    (DerivedPointDto, Vec<ChainStepDto>),
>)
    ensures
        match r {
            None => rows::first_where(
                x.points@.len() as int,
                is_point(*db, *x, derived_id),
            ) is None,
            Some((d, steps)) => {
                let found = rows::first_where(
                    x.points@.len() as int,
                    is_point(*db, *x, derived_id),
                );
                let at = step_order(x.steps@, derived_id);
                &&& found is Some
                &&& tells_point(d, x.points@[found->0], *db, *x)
                &&& steps@.len() == at.len()
                &&& forall|i: int|
                    0 <= i < steps@.len() ==> tells_step(#[trigger] steps@[i], x.steps@[at[i]])
            },
        },
{
    let ghost holds = is_point(*db, *x, derived_id);
    let mut i: usize = 0;
    while i < x.points.len()
        invariant
            i <= x.points@.len(),
            holds == is_point(*db, *x, derived_id),
            forall|k: int| 0 <= k < i ==> !#[trigger] holds(k),
        decreases x.points.len() - i,
    {
        let d = &x.points[i];
        if d.id == derived_id {
            match find_origin(d, db, x) {
                Some(o) => {
                    proof {
                        assert(holds(i as int));
                        rows::lemma_first_is(x.points@.len() as int, holds, i as int);
                    }
                    return Some((tell_point(d, o, db, x), list_steps(&x.steps, derived_id)));
                },
                None => {},
            }
        }
        assert(!holds(i as int));
        i += 1;
    }
    proof {
        rows::lemma_first_where(x.points@.len() as int, holds);
    }
    None
}

// ---- the trajectory -------------------------------------------------------------------------------

#[derive(Clone, Debug)]
pub struct TrajectoryPoint {
    pub t: Nanos,
    pub x: Scalar,
    pub y: Scalar,
    pub z: Scalar,
    pub device_id: String,
    pub gen_id: i64,
}

/// Whether a pose is on the trajectory: its packet is there and repeats no other.
pub open spec fn on_trajectory(db: Archive) -> spec_fn(int) -> bool {
    |i: int|
        1 <= db.poses@[i].packet_id <= db.packets@.len() && !db.packets@[db.poses@[i].packet_id
            - 1].is_duplicate
}

/// What poses are sorted by: their device, their generation and their time.
pub open spec fn trajectory_key(s: StoredPose, db: Archive) -> Seq<order::PartValue> {
    let p = db.packets@[s.packet_id - 1];
    seq![
        order::PartValue::Text(p.device_id@),
        order::PartValue::Number(p.gen_id as int),
        order::PartValue::Number(p.unix_time as int),
    ]
}

/// The poses of the trajectory, by position, in that order.
pub open spec fn trajectory_order(db: Archive) -> Seq<int> {
    let at = rows::all_where(db.poses@.len() as int, on_trajectory(db));
    order::order_of(at.map_values(|i: int| trajectory_key(db.poses@[i], db))).map_values(
        |k: int| at[k],
    )
}

/// Whether a pose is told as it is.
pub open spec fn tells_pose(d: TrajectoryPoint, s: StoredPose, db: Archive) -> bool {
    let p = db.packets@[s.packet_id - 1];
    &&& d.t == p.unix_time
    &&& d.x == s.t[0]
    &&& d.y == s.t[1]
    &&& d.z == s.t[2]
    &&& d.device_id@ == p.device_id@
    &&& d.gen_id == p.gen_id
}

/// Lists the poses by device, generation and time, those of repeated packets left out.
pub fn trajectory(db: &Archive) -> (r: Vec<TrajectoryPoint>)
    ensures
        r@.len() == trajectory_order(*db).len(),
        forall|i: int|
            0 <= i < r@.len() ==> tells_pose(
                #[trigger] r@[i],
                db.poses@[trajectory_order(*db)[i]],
                *db,
            ),
{
    let ghost holds = on_trajectory(*db);
    let mut at: Vec<usize> = Vec::new();
    let mut keys: Vec<Vec<Part>> = Vec::new();
    let mut i: usize = 0;
    assert(order::positions(at@) =~= rows::all_where(0, holds));
    while i < db.poses.len()
        invariant
            i <= db.poses@.len(),
            holds == on_trajectory(*db),
            order::positions(at@) == rows::all_where(i as int, holds),
            forall|k: int|
                0 <= k < at@.len() ==> #[trigger] at@[k] < db.poses@.len() && 1
                    <= db.poses@[at@[k] as int].packet_id <= db.packets@.len(),
            keys@.len() == at@.len(),
            forall|k: int|
                0 <= k < at@.len() ==> order::key_value((#[trigger] keys@[k])@) == trajectory_key(
                    db.poses@[at@[k] as int],
                    *db,
                ),
        decreases db.poses.len() - i,
    {
        let id: i64 = db.poses[i].packet_id;
        if 1 <= id && id as i128 <= db.packets.len() as i128 && !db.packets[(id
            - 1) as usize].is_duplicate {
            let p = &db.packets[(id - 1) as usize];
            let ghost before = order::positions(at@);
            at.push(i);
            assert(order::positions(at@) =~= before.push(i as int));
            assert(holds(i as int));
            let mut key: Vec<Part> = Vec::new();
            key.push(Part::Text(p.device_id.clone()));
            key.push(Part::Number(p.gen_id as i128));
            key.push(Part::Number(p.unix_time));
            assert(order::key_value(key@) =~= trajectory_key(db.poses@[i as int], *db));
            keys.push(key);
        } else {
            assert(!holds(i as int));
        }
        i += 1;
    }
    let ghost sel = order::positions(at@);
    assert(order::key_values(keys@) =~= sel.map_values(
        |i: int| trajectory_key(db.poses@[i], *db),
    ));
    let o = order::sorted_order(&keys);
    let places = order::pick(&at, &o);
    let ghost pv = order::positions(places@);
    assert forall|j: int| 0 <= j < places@.len() implies #[trigger] places@[j] < db.poses@.len() && 1
        <= db.poses@[places@[j] as int].packet_id <= db.packets@.len() by {
        assert(at@.contains(places@[j]));
        let m = choose|m: int| 0 <= m < at@.len() && at@[m] == places@[j];
        assert(at@[m] < db.poses@.len());
    }
    let mut out: Vec<TrajectoryPoint> = Vec::new();
    let mut k: usize = 0;
    while k < places.len()
        invariant
            k <= places@.len(),
            pv == order::positions(places@),
            forall|j: int|
                0 <= j < places@.len() ==> #[trigger] places@[j] < db.poses@.len() && 1
                    <= db.poses@[places@[j] as int].packet_id <= db.packets@.len(),
            out@.len() == k,
            forall|j: int| 0 <= j < k ==> tells_pose(#[trigger] out@[j], db.poses@[pv[j]], *db),
        decreases places.len() - k,
    {
        assert(places@[k as int] < db.poses@.len());
        let s = &db.poses[places[k]];
        assert(s.packet_id <= db.packets.len());
        let p = &db.packets[(s.packet_id - 1) as usize];
        out.push(
            TrajectoryPoint {
                t: p.unix_time,
                x: s.t[0],
                y: s.t[1],
                z: s.t[2],
                device_id: p.device_id.clone(),
                gen_id: p.gen_id,
            },
        );
        k += 1;
    }
    out
}

// ---- counts -----------------------------------------------------------------------------------------

#[derive(Clone, Copy, Debug, PartialEq, Eq, Structural)]
pub struct Stats {
    pub packets: usize,
    pub duplicates: usize,
    pub late: usize,
    pub generations: usize,
    pub raw_points: usize,
    pub ready_blocks: usize,
    pub building_blocks: usize,
    pub error_blocks: usize,
    pub derived_points: usize,
    pub edges_active: usize,
    pub edges_versions: usize,
}

/// Whether a packet repeats another.
pub open spec fn repeats(packets: Seq<StoredPacket>) -> spec_fn(int) -> bool {
    |i: int| packets[i].is_duplicate
}

/// Whether a packet came late.
pub open spec fn came_late(packets: Seq<StoredPacket>) -> spec_fn(int) -> bool {
    |i: int| packets[i].is_late
}

/// Whether a version of an edge is in use.
pub open spec fn in_use(edges: Seq<EdgeVersion>) -> spec_fn(int) -> bool {
    |i: int| edges[i].active
}

fn count_flags(flags: &Vec<bool>) -> (r: usize)
    ensures
        r == rows::count_where(flags@.len() as int, flagged(flags@)),
{
    let ghost holds = flagged(flags@);
    let mut n: usize = 0;
    let mut i: usize = 0;
    while i < flags.len()
        invariant
            i <= flags@.len(),
            holds == flagged(flags@),
            n == rows::count_where(i as int, holds),
            n <= i,
        decreases flags.len() - i,
    {
        if flags[i] {
            assert(holds(i as int));
            n += 1;
        } else {
            assert(!holds(i as int));
        }
        i += 1;
    }
    n
}

spec fn flagged(flags: Seq<bool>) -> spec_fn(int) -> bool {
    |i: int| flags[i]
}

/// Counts everything.
pub fn stats(db: &Archive, x: &Derived) -> (r: Stats)
    ensures
        r.packets == db.packets@.len(),
        r.duplicates == rows::count_where(db.packets@.len() as int, repeats(db.packets@)),
        r.late == rows::count_where(db.packets@.len() as int, came_late(db.packets@)),
        r.generations == db.generations@.len(),
        r.raw_points == db.points@.len(),
        r.ready_blocks == rows::count_where(
            x.blocks@.len() as int,
            has_status(x.blocks@, Progress::Ready),
        ),
        r.building_blocks == rows::count_where(
            x.blocks@.len() as int,
            has_status(x.blocks@, Progress::Building),
        ),
        r.error_blocks == rows::count_where(
            x.blocks@.len() as int,
            has_status(x.blocks@, Progress::Error),
        ),
        r.derived_points == x.points@.len(),
        r.edges_active == rows::count_where(x.edges@.len() as int, in_use(x.edges@)),
        r.edges_versions == x.edges@.len(),
{
    let mut duplicate: Vec<bool> = Vec::new();
    let mut late: Vec<bool> = Vec::new();
    let mut i: usize = 0;
    while i < db.packets.len()
        invariant
            i <= db.packets@.len(),
            duplicate@.len() == i,
            late@.len() == i,
            forall|k: int| 0 <= k < i ==> #[trigger] duplicate@[k] == db.packets@[k].is_duplicate,
            forall|k: int| 0 <= k < i ==> #[trigger] late@[k] == db.packets@[k].is_late,
        decreases db.packets.len() - i,
    {
        duplicate.push(db.packets[i].is_duplicate);
        late.push(db.packets[i].is_late);
        i += 1;
    }
    let mut active: Vec<bool> = Vec::new();
    let mut k: usize = 0;
    while k < x.edges.len()
        invariant
            k <= x.edges@.len(),
            active@.len() == k,
            forall|j: int| 0 <= j < k ==> #[trigger] active@[j] == x.edges@[j].active,
        decreases x.edges.len() - k,
    {
        active.push(x.edges[k].active);
        k += 1;
    }
    proof {
        rows::lemma_same_rows(
            db.packets@.len() as int,
            flagged(duplicate@),
            repeats(db.packets@),
        );
        rows::lemma_same_rows(db.packets@.len() as int, flagged(late@), came_late(db.packets@));
        rows::lemma_same_rows(x.edges@.len() as int, flagged(active@), in_use(x.edges@));
    }
    Stats {
        packets: db.packets.len(),
        duplicates: count_flags(&duplicate),
        late: count_flags(&late),
        generations: db.generations.len(),
        raw_points: db.points.len(),
        ready_blocks: count_status(&x.blocks, Progress::Ready),
        building_blocks: count_status(&x.blocks, Progress::Building),
        error_blocks: count_status(&x.blocks, Progress::Error),
        derived_points: x.points.len(),
        edges_active: count_flags(&active),
        edges_versions: x.edges.len(),
    }
}

// ---- gaps, in plain terms -----------------------------------------------------------------------

/// Whether one packet comes before another: by time, then by the order of reception.
pub open spec fn comes_before(a: StoredPacket, b: StoredPacket) -> bool {
    a.unix_time < b.unix_time || (a.unix_time == b.unix_time && a.received_order
        < b.received_order)
}

/// Whether two packets follow each other in their generation: neither repeats another, and
/// no packet that repeats no other lies between them.
pub open spec fn follow_each_other(packets: Seq<StoredPacket>, a: int, b: int) -> bool {
    &&& 0 <= a < packets.len()
    &&& 0 <= b < packets.len()
    &&& packets[a].gen_id == packets[b].gen_id
    &&& !packets[a].is_duplicate
    &&& !packets[b].is_duplicate
    &&& comes_before(packets[a], packets[b])
    &&& forall|c: int|
        0 <= c < packets.len() && (#[trigger] packets[c]).gen_id == packets[a].gen_id
            && !packets[c].is_duplicate ==> !(comes_before(packets[a], packets[c])
            && comes_before(packets[c], packets[b]))
}

proof fn lemma_gap_key_order(a: StoredPacket, b: StoredPacket)
    requires
        a.device_id@ == b.device_id@,
        a.kind@ == b.kind@,
        a.gen_id == b.gen_id,
    ensures
        order::key_before(gap_key(a), gap_key(b)) == comes_before(a, b),
{
    let x = gap_key(a);
    let y = gap_key(b);
    if a.unix_time != b.unix_time {
        order::law_first_difference_decides(x, y, 3);
    } else if a.received_order != b.received_order {
        order::law_first_difference_decides(x, y, 4);
    } else {
        assert(x =~= y);
        order::law_key_order_is_strict_and_total(x, y, x);
    }
}

proof fn lemma_same_generation_same_stream(db: Archive, a: int, b: int)
    requires
        db.wf(),
        0 <= a < db.packets@.len(),
        0 <= b < db.packets@.len(),
        db.packets@[a].gen_id == db.packets@[b].gen_id,
    ensures
        db.packets@[a].device_id@ == db.packets@[b].device_id@,
        db.packets@[a].kind@ == db.packets@[b].kind@,
{
    let p = db.packets@[a];
    let q = db.packets@[b];
    assert(ingest::in_stream(db.generations@[p.gen_id - 1], p.device_id@, p.kind@));
    assert(ingest::in_stream(db.generations@[q.gen_id - 1], q.device_id@, q.kind@));
}

proof fn lemma_gap_order(packets: Seq<StoredPacket>)
    ensures
        ({
            let at = gap_order(packets);
            &&& forall|i: int|
                0 <= i < at.len() ==> 0 <= #[trigger] at[i] < packets.len()
                    && !packets[at[i]].is_duplicate
            &&& forall|x: int|
                0 <= x < packets.len() && !(#[trigger] packets[x]).is_duplicate ==> at.contains(x)
            &&& forall|i: int, j: int| #![trigger at[i], at[j]]
                0 <= i < j < at.len() ==> at[i] != at[j] && !order::key_before(
                    gap_key(packets[at[j]]),
                    gap_key(packets[at[i]]),
                )
        }),
{
    let n = packets.len() as int;
    let holds = is_original(packets);
    let key = |i: int| gap_key(packets[i]);
    assert(gap_order(packets) == order::listed(n, holds, key));
    order::law_listing_holds_what_is_shown(n, holds, key);
    let at = gap_order(packets);
    assert forall|i: int| 0 <= i < at.len() implies 0 <= #[trigger] at[i] < packets.len()
        && !packets[at[i]].is_duplicate by {
        assert(holds(order::listed(n, holds, key)[i]));
    }
    assert forall|x: int| 0 <= x < packets.len() && !(#[trigger] packets[x]).is_duplicate implies at.contains(
        x,
    ) by {
        assert(holds(x));
    }
    assert forall|i: int, j: int| #![trigger at[i], at[j]]
        0 <= i < j < at.len() implies at[i] != at[j] && !order::key_before(
        gap_key(packets[at[j]]),
        gap_key(packets[at[i]]),
    ) by {
        let l = order::listed(n, holds, key);
        assert(l[i] != l[j]);
        assert(key(l[i]) == gap_key(packets[at[i]]));
        assert(key(l[j]) == gap_key(packets[at[j]]));
    }
}

/// Packets that stand next to each other in the order for gaps, and are of one generation,
/// are those that follow each other in it.
proof fn lemma_neighbours_follow_each_other(db: Archive, k: int)
    requires
        db.wf(),
        0 <= k,
        k + 1 < gap_order(db.packets@).len(),
        db.packets@[gap_order(db.packets@)[k]].gen_id == db.packets@[gap_order(
            db.packets@,
        )[k + 1]].gen_id,
    ensures
        follow_each_other(
            db.packets@,
            gap_order(db.packets@)[k],
            gap_order(db.packets@)[k + 1],
        ),
{
    let packets = db.packets@;
    let at = gap_order(packets);
    let a = at[k];
    let b = at[k + 1];
    lemma_gap_order(packets);
    lemma_same_generation_same_stream(db, a, b);
    lemma_gap_key_order(packets[b], packets[a]);
    assert(packets[a].received_order == a + 1 && packets[b].received_order == b + 1);
    assert forall|c: int|
        0 <= c < packets.len() && (#[trigger] packets[c]).gen_id == packets[a].gen_id
            && !packets[c].is_duplicate implies !(comes_before(packets[a], packets[c])
        && comes_before(packets[c], packets[b])) by {
        lemma_same_generation_same_stream(db, a, c);
        lemma_gap_key_order(packets[a], packets[c]);
        lemma_gap_key_order(packets[c], packets[b]);
        assert(at.contains(c));
        let m = choose|m: int| 0 <= m < at.len() && at[m] == c;
        if m < k {
            assert(!order::key_before(gap_key(packets[at[k]]), gap_key(packets[at[m]])));
        } else if m > k + 1 {
            assert(!order::key_before(gap_key(packets[at[m]]), gap_key(packets[at[k + 1]])));
        }
    }
}

/// Packets that follow each other in their generation stand next to each other in the
/// order for gaps.
proof fn lemma_following_packets_are_neighbours(db: Archive, a: int, b: int) -> (k: int)
    requires
        db.wf(),
        follow_each_other(db.packets@, a, b),
    ensures
        0 <= k,
        k + 1 < gap_order(db.packets@).len(),
        gap_order(db.packets@)[k] == a,
        gap_order(db.packets@)[k + 1] == b,
{
    let packets = db.packets@;
    let at = gap_order(packets);
    lemma_gap_order(packets);
    lemma_same_generation_same_stream(db, a, b);
    lemma_gap_key_order(packets[a], packets[b]);
    assert(at.contains(a) && at.contains(b));
    let k = choose|k: int| 0 <= k < at.len() && at[k] == a;
    let m = choose|m: int| 0 <= m < at.len() && at[m] == b;
    if m < k {
        assert(!order::key_before(gap_key(packets[at[k]]), gap_key(packets[at[m]])));
    }
    assert(k < m);
    if k + 1 < m {
        let c = at[k + 1];
        let x = gap_key(packets[a]);
        let y = gap_key(packets[c]);
        let z = gap_key(packets[b]);
        assert(!order::key_before(gap_key(packets[at[k + 1]]), gap_key(packets[at[k]])));
        assert(!order::key_before(gap_key(packets[at[m]]), gap_key(packets[at[k + 1]])));
        order::law_key_order_is_strict_and_total(x, y, x);
        order::law_key_order_is_strict_and_total(y, z, y);
        assert(forall|i: int| 0 <= i < 3 ==> x[i] == z[i]);
        order::law_key_between_shares_the_start(x, y, z, 3);
        assert(x[2] == y[2]);
        lemma_same_generation_same_stream(db, a, c);
        lemma_gap_key_order(packets[a], packets[c]);
        lemma_gap_key_order(packets[c], packets[b]);
        assert(x[4] == order::PartValue::Number(packets[a].received_order as int));
        assert(y[4] == order::PartValue::Number(packets[c].received_order as int));
        assert(z[4] == order::PartValue::Number(packets[b].received_order as int));
        assert(packets[a].received_order == a + 1 && packets[c].received_order == c + 1
            && packets[b].received_order == b + 1);
        assert(at[k] != at[k + 1] && at[k + 1] != at[m]);
        assert(comes_before(packets[a], packets[c]) && comes_before(packets[c], packets[b]));
    }
    k
}

proof fn lemma_parted_neighbours_are_listed(
    packets: Seq<StoredPacket>,
    at: Seq<int>,
    threshold: int,
    n: int,
    k: int,
)
    requires
        0 <= k,
        k + 1 < n <= at.len(),
        parted(packets[at[k]], packets[at[k + 1]], threshold),
    ensures
        gaps_among(packets, at, threshold, n).contains(
            gap_between(packets[at[k]], packets[at[k + 1]]),
        ),
    decreases n,
{
    let now = gaps_among(packets, at, threshold, n);
    let before = gaps_among(packets, at, threshold, n - 1);
    let g = gap_between(packets[at[k]], packets[at[k + 1]]);
    if k + 1 == n - 1 {
        assert(now[before.len() as int] == g);
    } else {
        lemma_parted_neighbours_are_listed(packets, at, threshold, n - 1, k);
        let i = choose|i: int| 0 <= i < before.len() && before[i] == g;
        assert(now[i] == g);
    }
}

/// The gaps that are told are those between packets that follow each other in their
/// generation and are further apart than the threshold: none is left out, whatever the
/// numbers of the packets, and no other is told.
pub proof fn law_gaps_are_complete(db: Archive, threshold: int, g: GapValue)
    requires
        db.wf(),
    ensures
        gaps_among(
            db.packets@,
            gap_order(db.packets@),
            threshold,
            gap_order(db.packets@).len() as int,
        ).contains(g) <==> exists|a: int, b: int| #[trigger]
            follow_each_other(db.packets@, a, b) && {
                let p = db.packets@[a];
                let q = db.packets@[b];
                &&& q.unix_time - p.unix_time > threshold
                &&& g.device_id == p.device_id@
                &&& g.kind == p.kind@
                &&& g.gen_id == p.gen_id
                &&& g.from_packet == p.id
                &&& g.to_packet == q.id
                &&& g.from_time == p.unix_time
                &&& g.to_time == q.unix_time
                &&& g.gap_sec == q.unix_time - p.unix_time
            },
{
    let packets = db.packets@;
    let at = gap_order(packets);
    let n = at.len() as int;
    let all = gaps_among(packets, at, threshold, n);
    if all.contains(g) {
        lemma_gaps_among(packets, at, threshold, n, g);
        let k = choose|k: int| #![trigger at[k]]
            0 <= k && k + 1 < n && parted(packets[at[k]], packets[at[k + 1]], threshold) && g
                == gap_between(packets[at[k]], packets[at[k + 1]]);
        lemma_neighbours_follow_each_other(db, k);
    }
    if exists|a: int, b: int| #[trigger]
        follow_each_other(packets, a, b) && packets[b].unix_time - packets[a].unix_time > threshold
            && g == gap_between(packets[a], packets[b]) {
        let (a, b) = choose|a: int, b: int| #[trigger]
            follow_each_other(packets, a, b) && packets[b].unix_time - packets[a].unix_time
                > threshold && g == gap_between(packets[a], packets[b]);
        let k = lemma_following_packets_are_neighbours(db, a, b);
        lemma_parted_neighbours_are_listed(packets, at, threshold, n, k);
    }
}

/// No gap is told twice, and those of a generation are told in the order of time.
pub proof fn law_gaps_are_told_once_and_in_order(db: Archive, threshold: int, i: int, j: int)
    requires
        db.wf(),
        0 <= i < j < gaps_among(
            db.packets@,
            gap_order(db.packets@),
            threshold,
            gap_order(db.packets@).len() as int,
        ).len(),
    ensures
        ({
            let at = gap_order(db.packets@);
            let all = gaps_among(db.packets@, at, threshold, at.len() as int);
            &&& all[i].from_packet != all[j].from_packet
            &&& all[i].gen_id == all[j].gen_id ==> all[i].from_time <= all[j].from_time
        }),
{
    lemma_gaps_in_order(db, threshold, gap_order(db.packets@).len() as int, i, j);
}

proof fn lemma_gaps_in_order(db: Archive, threshold: int, n: int, i: int, j: int)
    requires
        db.wf(),
        0 <= n <= gap_order(db.packets@).len(),
        0 <= i < j < gaps_among(db.packets@, gap_order(db.packets@), threshold, n).len(),
    ensures
        ({
            let all = gaps_among(db.packets@, gap_order(db.packets@), threshold, n);
            &&& all[i].from_packet != all[j].from_packet
            &&& all[i].gen_id == all[j].gen_id ==> all[i].from_time <= all[j].from_time
        }),
    decreases n,
{
    let packets = db.packets@;
    let at = gap_order(packets);
    let all = gaps_among(packets, at, threshold, n);
    let before = gaps_among(packets, at, threshold, n - 1);
    if j < before.len() {
        assert(all[i] == before[i] && all[j] == before[j]);
        lemma_gaps_in_order(db, threshold, n - 1, i, j);
    } else {
        assert(all[i] == before[i]);
        assert(before.contains(before[i]));
        lemma_gaps_among(packets, at, threshold, n - 1, before[i]);
        let k = choose|k: int| #![trigger at[k]]
            0 <= k && k + 1 < n - 1 && parted(packets[at[k]], packets[at[k + 1]], threshold)
                && before[i] == gap_between(packets[at[k]], packets[at[k + 1]]);
        lemma_gap_order(packets);
        assert(at[k] != at[n - 2]);
        assert(packets[at[k]].id == at[k] + 1 && packets[at[n - 2]].id == at[n - 2] + 1);
        if packets[at[k]].gen_id == packets[at[n - 2]].gen_id {
            lemma_same_generation_same_stream(db, at[k], at[n - 2]);
            lemma_gap_key_order(packets[at[n - 2]], packets[at[k]]);
        }
    }
}

// ---- listings and counts, in plain terms ----------------------------------------------------------

/// The packets that are listed are those of the kind asked for, or all where none is, in
/// the order in which they were received.
pub proof fn law_packets_are_listed_as_received(
    db: Archive,
    kind: Option<Seq<char>>,
    x: int,
    i: int,
    j: int,
)
    requires
        db.wf(),
    ensures
        rows::all_where(db.packets@.len() as int, of_kind(db.packets@, kind)).contains(x) <==> 0
            <= x < db.packets@.len() && (kind is Some ==> db.packets@[x].kind@ == kind->0),
        ({
            let at = rows::all_where(db.packets@.len() as int, of_kind(db.packets@, kind));
            0 <= i < j < at.len() ==> db.packets@[at[i]].received_order
                < db.packets@[at[j]].received_order
        }),
{
    let n = db.packets@.len() as int;
    let holds = of_kind(db.packets@, kind);
    let at = rows::all_where(n, holds);
    rows::lemma_all_where(n, holds);
    if at.contains(x) {
        let k = choose|k: int| 0 <= k < at.len() && at[k] == x;
        assert(holds(at[k]));
    }
    if 0 <= x < n && (kind is Some ==> db.packets@[x].kind@ == kind->0) {
        assert(holds(x));
    }
    if 0 <= i < j < at.len() {
        assert(at[i] < at[j]);
        assert(db.packets@[at[i]].received_order == at[i] + 1);
        assert(db.packets@[at[j]].received_order == at[j] + 1);
    }
}

/// A derived point is shown where the block with its id is ready, and its packet and its raw
/// point are there.
pub proof fn law_points_of_ready_blocks_are_shown(db: Archive, x: Derived, i: int, b: int)
    requires
        0 <= i < x.points@.len(),
        0 <= b < x.blocks@.len(),
        x.blocks@[b].id == x.points@[i].block_id,
        forall|k: int| 0 <= k < b ==> (#[trigger] x.blocks@[k]).id != x.points@[i].block_id,
    ensures
        cloud_order(db, x).contains(i) <==> {
            &&& x.blocks@[b].status is Ready
            &&& 1 <= x.blocks@[b].packet_id <= db.packets@.len()
            &&& 1 <= x.points@[i].raw_point_id <= db.points@.len()
        },
{
    let d = x.points@[i];
    let holds = has_block_id(x.blocks@, d.block_id);
    assert forall|k: int| 0 <= k < b implies !#[trigger] holds(k) by {
        assert(x.blocks@[k].id != d.block_id);
    }
    assert(holds(b));
    rows::lemma_first_is(x.blocks@.len() as int, holds, b);
    let n = x.points@.len() as int;
    let shown = is_shown(db, x);
    let key = |i: int| cloud_key(x.points@[i], db, x);
    assert(cloud_order(db, x) == order::listed(n, shown, key));
    order::law_listing_holds_what_is_shown(n, shown, key);
    let l = cloud_order(db, x);
    if l.contains(i) {
        let k = choose|k: int| 0 <= k < l.len() && l[k] == i;
        assert(shown(order::listed(n, shown, key)[k]));
    }
    if trace_of(d, db, x) is Some && x.blocks@[b].status is Ready {
        assert(shown(i));
    }
}

/// Whether the packet of one derived point comes before that of another: by generation,
/// then by time, then by number.
pub open spec fn packet_before(p: StoredPacket, q: StoredPacket) -> bool {
    ||| p.gen_id < q.gen_id
    ||| p.gen_id == q.gen_id && p.unix_time < q.unix_time
    ||| p.gen_id == q.gen_id && p.unix_time == q.unix_time && p.seq < q.seq
}

/// Derived points are shown once each, by the generation, the time and the number of their
/// packets, then by id.
pub proof fn law_points_are_shown_in_order(db: Archive, x: Derived, i: int, j: int)
    requires
        0 <= i < j < cloud_order(db, x).len(),
    ensures
        ({
            let a = x.points@[cloud_order(db, x)[i]];
            let b = x.points@[cloud_order(db, x)[j]];
            let p = db.packets@[trace_of(a, db, x)->0.packet];
            let q = db.packets@[trace_of(b, db, x)->0.packet];
            &&& cloud_order(db, x)[i] != cloud_order(db, x)[j]
            &&& packet_before(p, q) || (!packet_before(q, p) && a.id <= b.id)
        }),
{
    let n = x.points@.len() as int;
    let shown = is_shown(db, x);
    let key = |i: int| cloud_key(x.points@[i], db, x);
    assert(cloud_order(db, x) == order::listed(n, shown, key));
    order::law_listing_holds_what_is_shown(n, shown, key);
    let l = order::listed(n, shown, key);
    let a = x.points@[l[i]];
    let b = x.points@[l[j]];
    let p = db.packets@[trace_of(a, db, x)->0.packet];
    let q = db.packets@[trace_of(b, db, x)->0.packet];
    assert(!order::key_before(key(l[j]), key(l[i])));
    let u = cloud_key(b, db, x);
    let v = cloud_key(a, db, x);
    assert(u[0] == order::PartValue::Number(q.gen_id as int));
    assert(v[0] == order::PartValue::Number(p.gen_id as int));
    assert(u[1] == order::PartValue::Number(q.unix_time as int));
    assert(v[1] == order::PartValue::Number(p.unix_time as int));
    assert(u[2] == order::PartValue::Number(q.seq as int));
    assert(v[2] == order::PartValue::Number(p.seq as int));
    assert(u[3] == order::PartValue::Number(b.id as int));
    assert(v[3] == order::PartValue::Number(a.id as int));
    if p.gen_id != q.gen_id {
        order::law_first_difference_decides(u, v, 0);
    } else if p.unix_time != q.unix_time {
        order::law_first_difference_decides(u, v, 1);
    } else if p.seq != q.seq {
        order::law_first_difference_decides(u, v, 2);
    } else if a.id != b.id {
        order::law_first_difference_decides(u, v, 3);
    }
}

/// A limit that is not below zero is kept to; one below zero is no limit.
pub proof fn law_limit_is_kept_to(limit: i64, n: int)
    requires
        n >= 0,
    ensures
        limited(limit, n) <= n,
        limit >= 0 ==> limited(limit, n) <= limit,
        limit < 0 || limit >= n ==> limited(limit, n) == n,
        limit >= 0 && limit <= n ==> limited(limit, n) == limit,
{
}

/// The trajectory has the poses whose packets are there and repeat none, each once, by
/// device, then by generation, then by time.
pub proof fn law_trajectory_has_every_original_pose(db: Archive, x: int, i: int, j: int)
    ensures
        trajectory_order(db).contains(x) <==> {
            &&& 0 <= x < db.poses@.len()
            &&& 1 <= db.poses@[x].packet_id <= db.packets@.len()
            &&& !db.packets@[db.poses@[x].packet_id - 1].is_duplicate
        },
        0 <= i < j < trajectory_order(db).len() ==> {
            let p = db.packets@[db.poses@[trajectory_order(db)[i]].packet_id - 1];
            let q = db.packets@[db.poses@[trajectory_order(db)[j]].packet_id - 1];
            &&& trajectory_order(db)[i] != trajectory_order(db)[j]
            &&& text::before(p.device_id@, q.device_id@) || (p.device_id@ == q.device_id@ && (
            p.gen_id < q.gen_id || (p.gen_id == q.gen_id && p.unix_time <= q.unix_time)))
        },
{
    let n = db.poses@.len() as int;
    let shown = on_trajectory(db);
    let key = |i: int| trajectory_key(db.poses@[i], db);
    assert(trajectory_order(db) == order::listed(n, shown, key));
    order::law_listing_holds_what_is_shown(n, shown, key);
    let l = order::listed(n, shown, key);
    if l.contains(x) {
        let k = choose|k: int| 0 <= k < l.len() && l[k] == x;
        assert(shown(l[k]));
    }
    if 0 <= x < n && 1 <= db.poses@[x].packet_id <= db.packets@.len()
        && !db.packets@[db.poses@[x].packet_id - 1].is_duplicate {
        assert(shown(x));
    }
    if 0 <= i < j < l.len() {
        let p = db.packets@[db.poses@[l[i]].packet_id - 1];
        let q = db.packets@[db.poses@[l[j]].packet_id - 1];
        let u = trajectory_key(db.poses@[l[j]], db);
        let v = trajectory_key(db.poses@[l[i]], db);
        assert(!order::key_before(key(l[j]), key(l[i])));
        assert(u[0] == order::PartValue::Text(q.device_id@));
        assert(v[0] == order::PartValue::Text(p.device_id@));
        assert(u[1] == order::PartValue::Number(q.gen_id as int));
        assert(v[1] == order::PartValue::Number(p.gen_id as int));
        assert(u[2] == order::PartValue::Number(q.unix_time as int));
        assert(v[2] == order::PartValue::Number(p.unix_time as int));
        if p.device_id@ != q.device_id@ {
            order::law_first_difference_decides(u, v, 0);
            text::law_before_is_a_strict_total_order(p.device_id@, q.device_id@, p.device_id@);
        } else if p.gen_id != q.gen_id {
            order::law_first_difference_decides(u, v, 1);
        } else if p.unix_time != q.unix_time {
            order::law_first_difference_decides(u, v, 2);
        }
    }
}

/// The steps of a point are all that have its id, each once, by their numbers.
pub proof fn law_steps_of_a_point_are_in_order(steps: Seq<PointStep>, id: i64, x: int, i: int, j: int)
    ensures
        step_order(steps, id).contains(x) <==> 0 <= x < steps.len() && steps[x].derived_point_id
            == id,
        0 <= i < j < step_order(steps, id).len() ==> step_order(steps, id)[i] != step_order(
            steps,
            id,
        )[j] && steps[step_order(steps, id)[i]].step <= steps[step_order(steps, id)[j]].step,
{
    let n = steps.len() as int;
    let shown = of_point(steps, id);
    let key = |i: int| order::pair_key(steps[i].step as int, 0);
    assert(step_order(steps, id) == order::listed(n, shown, key));
    order::law_listing_holds_what_is_shown(n, shown, key);
    let l = order::listed(n, shown, key);
    if l.contains(x) {
        let k = choose|k: int| 0 <= k < l.len() && l[k] == x;
        assert(shown(l[k]));
    }
    if 0 <= x < n && steps[x].derived_point_id == id {
        assert(shown(x));
    }
    if 0 <= i < j < l.len() {
        assert(!order::key_before(key(l[j]), key(l[i])));
        order::lemma_pair_key_before(steps[l[j]].step as int, 0, steps[l[i]].step as int, 0);
    }
}

/// Every block is counted by its status, once.
pub proof fn law_blocks_are_counted_by_status(blocks: Seq<DerivedBlock>, n: int)
    requires
        0 <= n <= blocks.len(),
    ensures
        rows::count_where(n, has_status(blocks, Progress::Ready)) + rows::count_where(
            n,
            has_status(blocks, Progress::Building),
        ) + rows::count_where(n, has_status(blocks, Progress::Error)) == n,
    decreases n,
{
    if n > 0 {
        law_blocks_are_counted_by_status(blocks, n - 1);
    }
}

/// How many packets the first `n` generations have.
pub open spec fn packets_of_first(db: Archive, n: int) -> int
    decreases n,
{
    if n <= 0 {
        0
    } else {
        packets_of_first(db, n - 1) + rows::count_where(
            db.packets@.len() as int,
            in_generation(db.packets@, db.generations@[n - 1].id),
        )
    }
}

/// Every packet is counted in one generation: the counts of all generations add up to the
/// number of packets.
pub proof fn law_packets_are_counted_in_one_generation(db: Archive)
    requires
        db.wf(),
    ensures
        packets_of_first(db, db.generations@.len() as int) == db.packets@.len(),
{
    let n = db.packets@.len() as int;
    lemma_packets_of_first(db, db.generations@.len() as int);
    let all = |i: int| db.packets@[i].gen_id <= db.generations@.len();
    assert forall|i: int| 0 <= i < n implies #[trigger] all(i) by {
        assert(db.packets@[i].gen_id <= db.generations@.len());
    }
    rows::law_rows_are_counted_one_by_one(n, all);
}

proof fn lemma_packets_of_first(db: Archive, n: int)
    requires
        db.wf(),
        0 <= n <= db.generations@.len(),
    ensures
        packets_of_first(db, n) == rows::count_where(
            db.packets@.len() as int,
            |i: int| db.packets@[i].gen_id <= n,
        ),
    decreases n,
{
    let m = db.packets@.len() as int;
    let now = |i: int| db.packets@[i].gen_id <= n;
    if n == 0 {
        assert forall|i: int| 0 <= i < m implies !#[trigger] now(i) by {
            assert(db.packets@[i].gen_id >= 1);
        }
        rows::law_rows_are_counted_one_by_one(m, now);
    } else {
        lemma_packets_of_first(db, n - 1);
        assert(db.generations@[n - 1].id == n);
        lemma_counts_add_up(db.packets@, n, m);
    }
}

proof fn lemma_counts_add_up(packets: Seq<StoredPacket>, n: int, m: int)
    requires
        0 <= m <= packets.len(),
        i64::MIN <= n <= i64::MAX,
    ensures
        rows::count_where(m, |i: int| packets[i].gen_id <= n) == rows::count_where(
            m,
            |i: int| packets[i].gen_id <= n - 1,
        ) + rows::count_where(m, in_generation(packets, n as i64)),
    decreases m,
{
    if m > 0 {
        lemma_counts_add_up(packets, n, m - 1);
    }
}

// ---- what is told of a row --------------------------------------------------------------------

/// A generation is told as it was opened and as its window is now; it is told to have no
/// packets only where none is of it.
pub proof fn law_what_is_told_of_a_generation(d: GenerationDto, g: Generation, packets: Seq<StoredPacket>)
    requires
        tells_generation(d, g, packets),
    ensures
        d.id == g.id,
        d.device_id@ == g.device_id@,
        d.kind@ == g.kind@,
        d.seq_start == g.seq_start,
        d.t_start == g.t_start,
        d.t_end == g.t_end,
        d.note@ == g.note@,
        d.packet_count == 0 <==> forall|i: int|
            0 <= i < packets.len() ==> (#[trigger] packets[i]).gen_id != g.id,
        (forall|i: int| 0 <= i < packets.len() ==> (#[trigger] packets[i]).gen_id == g.id)
            ==> d.packet_count == packets.len(),
{
    let n = packets.len() as int;
    let holds = in_generation(packets, g.id);
    rows::law_rows_are_counted_one_by_one(n, holds);
    rows::lemma_all_where(n, holds);
    if forall|i: int| 0 <= i < packets.len() ==> (#[trigger] packets[i]).gen_id == g.id {
        assert forall|i: int| 0 <= i < n implies #[trigger] holds(i) by {
            assert(packets[i].gen_id == g.id);
        }
    }
    if forall|i: int| 0 <= i < packets.len() ==> (#[trigger] packets[i]).gen_id != g.id {
        assert forall|i: int| 0 <= i < n implies !#[trigger] holds(i) by {
            assert(packets[i].gen_id != g.id);
        }
    }
    if d.packet_count == 0 {
        assert forall|i: int| 0 <= i < packets.len() implies (#[trigger] packets[i]).gen_id
            != g.id by {
            if holds(i) {
                assert(rows::all_where(n, holds).contains(i));
            }
        }
    }
}

/// A packet is told as it was stored, with the status and the error of the first block that
/// is its own, or with neither where it has none.
pub proof fn law_what_is_told_of_a_packet(
    d: PacketDto,
    p: StoredPacket,
    db: Archive,
    x: Derived,
    b: int,
)
    requires
        tells_packet(d, p, db, x),
    ensures
        d.id == p.id,
        d.device_id@ == p.device_id@,
        d.kind@ == p.kind@,
        d.seq == p.seq,
        d.gen_id == p.gen_id,
        d.time_desc@ == p.time_desc@,
        d.unix_time == p.unix_time,
        d.coord_system@ == p.coord_system@,
        d.unit@ == p.unit@,
        d.content_summary@ == p.content_summary@,
        d.received_order == p.received_order,
        d.is_duplicate == p.is_duplicate,
        d.is_late == p.is_late,
        d.duplicate_of == p.duplicate_of,
        d.point_count == 0 <==> forall|i: int|
            0 <= i < db.points@.len() ==> (#[trigger] db.points@[i]).packet_id != p.id,
        0 <= b < x.blocks@.len() && x.blocks@[b].packet_id == p.id && (forall|k: int|
            0 <= k < b ==> (#[trigger] x.blocks@[k]).packet_id != p.id) ==> d.block_status == Some(
            x.blocks@[b].status,
        ) && d.block_error@ == x.blocks@[b].error@,
        (forall|k: int| 0 <= k < x.blocks@.len() ==> (#[trigger] x.blocks@[k]).packet_id != p.id)
            ==> d.block_status is None && d.block_error@ == ""@,
{
    let n = db.points@.len() as int;
    let holds = in_packet(db.points@, p.id);
    rows::law_rows_are_counted_one_by_one(n, holds);
    rows::lemma_all_where(n, holds);
    if d.point_count == 0 {
        assert forall|i: int| 0 <= i < n implies (#[trigger] db.points@[i]).packet_id != p.id by {
            if holds(i) {
                assert(rows::all_where(n, holds).contains(i));
            }
        }
    }
    if forall|i: int| 0 <= i < n ==> (#[trigger] db.points@[i]).packet_id != p.id {
        assert forall|i: int| 0 <= i < n implies !#[trigger] holds(i) by {
            assert(db.points@[i].packet_id != p.id);
        }
    }
    let m = x.blocks@.len() as int;
    let own = of_packet(x.blocks@, p.id);
    rows::lemma_first_where(m, own);
    if 0 <= b < m && x.blocks@[b].packet_id == p.id && (forall|k: int|
        0 <= k < b ==> (#[trigger] x.blocks@[k]).packet_id != p.id) {
        assert forall|k: int| 0 <= k < b implies !#[trigger] own(k) by {
            assert(x.blocks@[k].packet_id != p.id);
        }
        assert(own(b));
        rows::lemma_first_is(m, own, b);
    }
    if forall|k: int| 0 <= k < m ==> (#[trigger] x.blocks@[k]).packet_id != p.id {
        if let Some(k) = block_of(x.blocks@, p.id) {
            assert(own(k));
            assert(x.blocks@[k].packet_id == p.id);
        }
    }
}

/// A derived point is told with its own position, the raw position that it came from, and
/// the packet of its block.
pub proof fn law_what_is_told_of_a_point(r: DerivedPointDto, d: DerivedPoint, db: Archive, x: Derived)
    requires
        tells_point(r, d, db, x),
    ensures
        r.id == d.id,
        r.raw_point_id == d.raw_point_id,
        r.block_id == d.block_id,
        r.xyz == d.xyz,
        r.cov == d.cov,
        r.path_score == d.path_score,
        1 <= d.raw_point_id <= db.points@.len(),
        r.raw@[0] == db.points@[d.raw_point_id - 1].x,
        r.raw@[1] == db.points@[d.raw_point_id - 1].y,
        r.raw@[2] == db.points@[d.raw_point_id - 1].z,
        exists|b: int|
            0 <= b < x.blocks@.len() && (#[trigger] x.blocks@[b]).id == d.block_id && 1
                <= x.blocks@[b].packet_id <= db.packets@.len() && {
                let p = db.packets@[x.blocks@[b].packet_id - 1];
                &&& r.packet_id == p.id
                &&& r.raw_unit@ == p.unit@
                &&& r.device_id@ == p.device_id@
                &&& r.gen_id == p.gen_id
                &&& r.unix_time == p.unix_time
                &&& r.seq == p.seq
            },
{
    let holds = has_block_id(x.blocks@, d.block_id);
    rows::lemma_first_where(x.blocks@.len() as int, holds);
    let b = trace_of(d, db, x)->0.block;
    assert(holds(b));
    assert(x.blocks@[b].id == d.block_id);
}

/// A step and a pose are told as they are, a pose with the time, the device and the
/// generation of its packet.
pub proof fn law_what_is_told_of_steps_and_poses(
    d: ChainStepDto,
    s: PointStep,
    t: TrajectoryPoint,
    q: StoredPose,
    db: Archive,
)
    requires
        tells_step(d, s),
        tells_pose(t, q, db),
    ensures
        d.step == s.step,
        d.edge_key@ == s.edge_key@,
        d.edge_version == s.edge_version,
        d.edge_kind@ == s.edge_kind@,
        d.valid_from == s.valid_from,
        d.valid_to == s.valid_to,
        d.cov_trace == s.cov_trace,
        t.t == db.packets@[q.packet_id - 1].unix_time,
        t.device_id@ == db.packets@[q.packet_id - 1].device_id@,
        t.gen_id == db.packets@[q.packet_id - 1].gen_id,
        t.x == q.t@[0],
        t.y == q.t@[1],
        t.z == q.t@[2],
{
}

/// A list of gaps is told gap by gap, each with its own device, packets and times.
pub proof fn law_gaps_are_told_as_they_are(g: Seq<GapDto>, i: int)
    requires
        0 <= i < g.len(),
    ensures
        gap_values(g).len() == g.len(),
        gap_values(g)[i].device_id == g[i].device_id@,
        gap_values(g)[i].gen_id == g[i].gen_id,
        gap_values(g)[i].from_packet == g[i].from_packet,
        gap_values(g)[i].to_packet == g[i].to_packet,
        gap_values(g)[i].from_time == g[i].from_time,
        gap_values(g)[i].to_time == g[i].to_time,
        gap_values(g)[i].gap_sec == g[i].gap_sec,
        gap_values(g)[i].kind == g[i].kind@,
{
}

/// A packet is counted among the duplicates where it is marked as one, among the late ones
/// where it is marked late; an edge is counted as active where it is.
pub proof fn law_what_is_counted(packets: Seq<StoredPacket>, edges: Seq<EdgeVersion>, i: int)
    ensures
        0 <= i < packets.len() ==> (repeats(packets)(i) <==> packets[i].is_duplicate),
        0 <= i < packets.len() ==> (came_late(packets)(i) <==> packets[i].is_late),
        0 <= i < edges.len() ==> (in_use(edges)(i) <==> edges[i].active),
        rows::count_where(packets.len() as int, repeats(packets)) == 0 <==> forall|k: int|
            0 <= k < packets.len() ==> !(#[trigger] packets[k]).is_duplicate,
        rows::count_where(packets.len() as int, came_late(packets)) == 0 <==> forall|k: int|
            0 <= k < packets.len() ==> !(#[trigger] packets[k]).is_late,
{
    let n = packets.len() as int;
    rows::law_rows_are_counted_one_by_one(n, repeats(packets));
    rows::law_rows_are_counted_one_by_one(n, came_late(packets));
    rows::lemma_all_where(n, repeats(packets));
    rows::lemma_all_where(n, came_late(packets));
    if rows::count_where(n, repeats(packets)) == 0 {
        assert forall|k: int| 0 <= k < n implies !(#[trigger] packets[k]).is_duplicate by {
            if repeats(packets)(k) {
                assert(rows::all_where(n, repeats(packets)).contains(k));
            }
        }
    }
    if forall|k: int| 0 <= k < n ==> !(#[trigger] packets[k]).is_duplicate {
        assert forall|k: int| 0 <= k < n implies !#[trigger] repeats(packets)(k) by {
            assert(!packets[k].is_duplicate);
        }
    }
    if rows::count_where(n, came_late(packets)) == 0 {
        assert forall|k: int| 0 <= k < n implies !(#[trigger] packets[k]).is_late by {
            if came_late(packets)(k) {
                assert(rows::all_where(n, came_late(packets)).contains(k));
            }
        }
    }
    if forall|k: int| 0 <= k < n ==> !(#[trigger] packets[k]).is_late {
        assert forall|k: int| 0 <= k < n implies !#[trigger] came_late(packets)(k) by {
            assert(!packets[k].is_late);
        }
    }
}

/// A point that is asked for by its id is the one that has it.
pub proof fn law_point_asked_for_has_the_id(db: Archive, x: Derived, id: i64, i: int)
    requires
        rows::first_where(x.points@.len() as int, is_point(db, x, id)) == Some(i),
    ensures
        0 <= i < x.points@.len(),
        x.points@[i].id == id,
        forall|k: int|
            0 <= k < i && (#[trigger] x.points@[k]).id == id ==> trace_of(x.points@[k], db, x)
                is None,
{
    let holds = is_point(db, x, id);
    rows::lemma_first_where(x.points@.len() as int, holds);
    assert(holds(i));
    assert forall|k: int| 0 <= k < i && (#[trigger] x.points@[k]).id == id implies trace_of(
        x.points@[k],
        db,
        x,
    ) is None by {
        assert(!holds(k));
    }
}

} // verus!
