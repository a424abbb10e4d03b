//! The tables. Imported facts are only ever added; blocks and derived points are a
//! cache that can be dropped and built again without touching them.

use crate::model::PacketRecord;
use crate::provenance::Provenance;
use crate::rows;
use crate::scalar::Scalar;
use crate::text;
use crate::time;
use crate::time::Nanos;
use vstd::prelude::*;
use vstd::string::*;

verus! {

pub const SCHEMA_VERSION: i64 = 1;

/// The version of the derivation that block signatures start with.
pub const ALGO_VERSION: &'static str = "pjm-1";

/// An acquisition generation of one device.
#[derive(Clone, Debug)]
pub struct GenerationRow {
    pub id: i64,
    pub device_id: String,
    pub reason: String,
    pub opened_at: Nanos,
    pub created_order: i64,
}

/// A pose of the body in the map, from a packet of a generation.
#[derive(Clone, Debug)]
pub struct PoseRow {
    pub id: i64,
    pub packet_id: i64,
    pub generation_id: i64,
    pub t: Nanos,
    pub q: [Scalar; 4],
    pub xyz: [Scalar; 3],
    pub cov: Vec<Scalar>,
}

/// A version of a transform between two frames. It holds from the start of its
/// window up to, but not at, its end; an open side is unbounded.
#[derive(Clone, Debug)]
pub struct EdgeRow {
    pub id: i64,
    pub source: String,
    pub target: String,
    pub version: i64,
    pub supersedes: Option<i64>,
    pub valid_from: Option<Nanos>,
    pub valid_to: Option<Nanos>,
    pub q: [Scalar; 4],
    pub xyz: [Scalar; 3],
    pub cov: Vec<Scalar>,
    pub sigma_trace: Scalar,
    pub origin: String,
    pub created_at: Nanos,
}

/// How far a block has been built.
#[derive(Clone, Copy, Debug, PartialEq, Eq, Structural)]
pub enum BlockStatus {
    Pending,
    Complete,
}

/// A block of derived points: one window of one generation.
#[derive(Clone, Debug)]
pub struct BlockRow {
    pub id: i64,
    pub generation_id: i64,
    pub start: Nanos,
    pub end: Nanos,
    pub status: BlockStatus,
    pub signature: String,
    pub built_at: Option<Nanos>,
}

/// A derived point.
#[derive(Clone, Debug)]
pub struct PointRow {
    pub id: i64,
    pub packet_id: i64,
    pub block_id: i64,
    pub generation_id: i64,
    pub point_index: usize,
    pub t: Nanos,
    pub sensor_xyz: [Scalar; 3],
    pub map_xyz: Option<[Scalar; 3]>,
    pub provenance: Provenance,
}

/// A named frame.
#[derive(Clone, Debug)]
pub struct FrameRow {
    pub name: String,
    pub kind: String,
}

/// All tables.
#[derive(Clone, Debug)]
pub struct Ledger {
    pub generations: Vec<GenerationRow>,
    pub packets: Vec<PacketRecord>,
    pub poses: Vec<PoseRow>,
    pub edges: Vec<EdgeRow>,
    pub frames: Vec<FrameRow>,
    pub blocks: Vec<BlockRow>,
    pub points: Vec<PointRow>,
}

/// Whether a bound of a window is within the range that is handled.
pub open spec fn bound_in_range(b: Option<Nanos>) -> bool {
    b is Some ==> time::is_span(b->0 as int)
}

/// Whether a generation has a packet.
pub open spec fn has_packet(packets: Seq<PacketRecord>, generation_id: i64) -> bool {
    exists|i: int|
        0 <= i < packets.len() && (#[trigger] packets[i]).generation_id == generation_id
}

/// Whether a point is in a block that is there, of its own generation.
pub open spec fn in_block(blocks: Seq<BlockRow>, p: PointRow) -> bool {
    exists|k: int|
        0 <= k < blocks.len() && (#[trigger] blocks[k]).id == p.block_id && blocks[k].generation_id
            == p.generation_id
}

/// Whether every point is in a block that is there, of its own generation.
pub open spec fn linked(blocks: Seq<BlockRow>, points: Seq<PointRow>) -> bool {
    forall|i: int| 0 <= i < points.len() ==> in_block(blocks, #[trigger] points[i])
}

/// Whether a pose is that of a packet that is there, and of its generation.
pub open spec fn is_posed(packets: Seq<PacketRecord>, p: PoseRow) -> bool {
    1 <= p.packet_id <= packets.len() && packets[p.packet_id - 1].generation_id == p.generation_id
}

/// Whether every pose is that of a packet that is there, in the order of the packets and
/// one for each at most.
pub open spec fn posed(packets: Seq<PacketRecord>, poses: Seq<PoseRow>) -> bool {
    &&& forall|i: int| 0 <= i < poses.len() ==> is_posed(packets, #[trigger] poses[i])
    &&& forall|i: int, j: int| #![trigger poses[i], poses[j]]
        0 <= i < j < poses.len() ==> poses[i].packet_id < poses[j].packet_id
}

/// Whether no two frames have one name.
pub open spec fn named_once(frames: Seq<FrameRow>) -> bool {
    forall|i: int, j: int| #![trigger frames[i], frames[j]]
        0 <= i < j < frames.len() ==> frames[i].name@ != frames[j].name@
}

impl Ledger {
    pub fn new() -> (r: Ledger)
        ensures
            r.wf(),
            r.generations@.len() == 0,
            r.packets@.len() == 0,
            r.poses@.len() == 0,
            r.edges@.len() == 0,
            r.frames@.len() == 0,
            r.blocks@.len() == 0,
            r.points@.len() == 0,
    {
        Ledger {
            generations: Vec::new(),
            packets: Vec::new(),
            poses: Vec::new(),
            edges: Vec::new(),
            frames: Vec::new(),
            blocks: Vec::new(),
            points: Vec::new(),
        }
    }

    /// Imported facts are in order: rows are numbered from one, packets belong to
    /// generations that exist, every generation has a packet, and every pose has a packet
    /// of its own.
    pub open spec fn facts_wf(self) -> bool {
        let gens = self.generations@;
        let packets = self.packets@;
        let poses = self.poses@;
        let edges = self.edges@;
        &&& forall|i: int|
            0 <= i < gens.len() ==> (#[trigger] gens[i]).id == i + 1 && gens[i].created_order == i
                + 1
        &&& forall|i: int|
            0 <= i < packets.len() ==> (#[trigger] packets[i]).id == i + 1 && 1
                <= packets[i].generation_id <= gens.len() && time::is_span(
                packets[i].continuous_time as int,
            )
        &&& forall|i: int|
            0 <= i < poses.len() ==> (#[trigger] poses[i]).id == i + 1 && time::is_span(
                poses[i].t as int,
            )
        &&& forall|i: int|
            0 <= i < edges.len() ==> (#[trigger] edges[i]).id == i + 1 && bound_in_range(
                edges[i].valid_from,
            ) && bound_in_range(edges[i].valid_to)
        &&& forall|g: int| 0 <= g < gens.len() ==> has_packet(packets, (#[trigger] gens[g]).id)
        &&& posed(packets, poses)
        &&& packets.len() <= usize::MAX
    }

    /// Cached blocks and points are in order: ids ascend, and no two blocks are of
    /// one window.
    pub open spec fn cache_wf(self) -> bool {
        let blocks = self.blocks@;
        let points = self.points@;
        &&& forall|i: int, j: int| #![trigger blocks[i], blocks[j]]
            0 <= i < j < blocks.len() ==> blocks[i].id < blocks[j].id && !(
            blocks[i].generation_id == blocks[j].generation_id && blocks[i].start
                == blocks[j].start)
        &&& forall|i: int, j: int| #![trigger points[i], points[j]]
            0 <= i < j < points.len() ==> points[i].id < points[j].id
    }

    pub open spec fn wf(self) -> bool {
        &&& self.facts_wf()
        &&& self.cache_wf()
        &&& linked(self.blocks@, self.points@)
        &&& named_once(self.frames@)
    }

    /// Whether another ledger holds the same imported facts.
    pub open spec fn same_facts(self, other: Ledger) -> bool {
        &&& self.generations == other.generations
        &&& self.packets == other.packets
        &&& self.poses == other.poses
        &&& self.edges == other.edges
        &&& self.frames == other.frames
    }
}

fn bound_ok(b: Option<Nanos>) -> (r: bool)
    ensures
        r == bound_in_range(b),
{
    match b {
        Some(t) => time::span_ok(t),
        None => true,
    }
}

fn find_packet(packets: &Vec<PacketRecord>, generation_id: i64) -> (r: bool)
    ensures
        r == has_packet(packets@, generation_id),
{
    let mut i: usize = 0;
    while i < packets.len()
        invariant
            i <= packets@.len(),
            forall|k: int| 0 <= k < i ==> (#[trigger] packets@[k]).generation_id != generation_id,
        decreases packets.len() - i,
    {
        if packets[i].generation_id == generation_id {
            assert(packets@[i as int].generation_id == generation_id);
            return true;
        }
        i += 1;
    }
    false
}

impl Ledger {
    fn facts_ok(&self) -> (r: bool)
        ensures
            r == self.facts_wf(),
    {
        let n: usize = self.generations.len();
        let mut i: usize = 0;
        while i < n
            invariant
                i <= n,
                n == self.generations@.len(),
                forall|k: int|
                    0 <= k < i ==> (#[trigger] self.generations@[k]).id == k + 1
                        && self.generations@[k].created_order == k + 1 && has_packet(
                        self.packets@,
                        self.generations@[k].id,
                    ),
            decreases n - i,
        {
            let g = &self.generations[i];
            if g.id as i128 != i as i128 + 1 || g.created_order as i128 != i as i128 + 1
                || !find_packet(&self.packets, g.id) {
                assert(self.generations@[i as int] == *g);
                return false;
            }
            i += 1;
        }
        let mut j: usize = 0;
        while j < self.packets.len()
            invariant
                j <= self.packets@.len(),
                n == self.generations@.len(),
                forall|k: int|
                    0 <= k < j ==> (#[trigger] self.packets@[k]).id == k + 1 && 1
                        <= self.packets@[k].generation_id <= n && time::is_span(
                        self.packets@[k].continuous_time as int,
                    ),
            decreases self.packets.len() - j,
        {
            let p = &self.packets[j];
            if p.id as i128 != j as i128 + 1 || p.generation_id < 1 || p.generation_id as i128
                > n as i128 || !time::span_ok(p.continuous_time) {
                assert(self.packets@[j as int] == *p);
                return false;
            }
            j += 1;
        }
        let mut k: usize = 0;
        let mut last: i64 = 0;
        while k < self.poses.len()
            invariant
                k <= self.poses@.len(),
                0 <= last <= self.packets@.len(),
                k > 0 ==> last == self.poses@[k - 1].packet_id,
                k == 0 ==> last == 0,
                posed(self.packets@, self.poses@.take(k as int)),
                forall|m: int|
                    0 <= m < k ==> (#[trigger] self.poses@[m]).id == m + 1 && time::is_span(
                        self.poses@[m].t as int,
                    ),
            decreases self.poses.len() - k,
        {
            let p = &self.poses[k];
            if p.id as i128 != k as i128 + 1 || !time::span_ok(p.t) {
                assert(self.poses@[k as int] == *p);
                return false;
            }
            let ghost before = self.poses@.take(k as int);
            let ghost now = self.poses@.take(k + 1);
            if p.packet_id <= last || p.packet_id as i128 > self.packets.len() as i128
                || self.packets[(p.packet_id - 1) as usize].generation_id != p.generation_id {
                proof {
                    assert(self.poses@[k as int] == *p);
                    if k > 0 {
                        assert(self.poses@[k - 1].packet_id == last);
                    }
                    if posed(self.packets@, self.poses@) {
                        assert(is_posed(self.packets@, self.poses@[k as int]));
                    }
                }
                return false;
            }
            proof {
                assert forall|m: int| 0 <= m < now.len() implies is_posed(
                    self.packets@,
                    #[trigger] now[m],
                ) by {
                    if m < k {
                        assert(now[m] == before[m]);
                    }
                }
                assert forall|x: int, y: int| #![trigger now[x], now[y]]
                    0 <= x < y < now.len() implies now[x].packet_id < now[y].packet_id by {
                    assert(now[x] == before[x]);
                    if y < k {
                        assert(now[y] == before[y]);
                    } else if x < k - 1 {
                        assert(before[x].packet_id < before[k - 1].packet_id);
                    }
                }
            }
            last = p.packet_id;
            k += 1;
        }
        assert(self.poses@.take(self.poses@.len() as int) =~= self.poses@);
        let mut m: usize = 0;
        while m < self.edges.len()
            invariant
                m <= self.edges@.len(),
                forall|x: int|
                    0 <= x < m ==> (#[trigger] self.edges@[x]).id == x + 1 && bound_in_range(
                        self.edges@[x].valid_from,
                    ) && bound_in_range(self.edges@[x].valid_to),
            decreases self.edges.len() - m,
        {
            let e = &self.edges[m];
            if e.id as i128 != m as i128 + 1 || !bound_ok(e.valid_from) || !bound_ok(e.valid_to) {
                assert(self.edges@[m as int] == *e);
                return false;
            }
            m += 1;
        }
        true
    }

    fn cache_ok(&self) -> (r: bool)
        ensures
            r == self.cache_wf(),
    {
        let blocks = &self.blocks;
        let mut j: usize = 0;
        while j < blocks.len()
            invariant
                j <= blocks@.len(),
                *blocks == self.blocks,
                forall|a: int, b: int| #![trigger blocks@[a], blocks@[b]]
                    0 <= a < b < j ==> blocks@[a].id < blocks@[b].id && !(
                    blocks@[a].generation_id == blocks@[b].generation_id && blocks@[a].start
                        == blocks@[b].start),
            decreases blocks.len() - j,
        {
            let mut i: usize = 0;
            while i < j
                invariant
                    i <= j < blocks@.len(),
                    *blocks == self.blocks,
                    forall|a: int|
                        0 <= a < i ==> (#[trigger] blocks@[a]).id < blocks@[j as int].id && !(
                        blocks@[a].generation_id == blocks@[j as int].generation_id
                            && blocks@[a].start == blocks@[j as int].start),
                decreases j - i,
            {
                if blocks[i].id >= blocks[j].id || (blocks[i].generation_id
                    == blocks[j].generation_id && blocks[i].start == blocks[j].start) {
                    assert(self.blocks@[i as int] == blocks@[i as int] && self.blocks@[j as int]
                        == blocks@[j as int]);
                    return false;
                }
                i += 1;
            }
            j += 1;
        }
        let points = &self.points;
        let mut k: usize = 0;
        while k < points.len()
            invariant
                k <= points@.len(),
                *points == self.points,
                forall|a: int, b: int| #![trigger points@[a], points@[b]]
                    0 <= a < b < k ==> points@[a].id < points@[b].id,
            decreases points.len() - k,
        {
            if k > 0 {
                if points[k - 1].id >= points[k].id {
                    assert(self.points@[k - 1] == points@[k - 1] && self.points@[k as int]
                        == points@[k as int]);
                    return false;
                }
                assert forall|a: int| 0 <= a < k implies (#[trigger] points@[a]).id
                    < points@[k as int].id by {
                    if a < k - 1 {
                        assert(points@[a].id < points@[k - 1].id);
                    }
                }
            }
            k += 1;
        }
        true
    }

    fn links_ok(&self) -> (r: bool)
        ensures
            r == linked(self.blocks@, self.points@),
    {
        let mut i: usize = 0;
        while i < self.points.len()
            invariant
                i <= self.points@.len(),
                forall|k: int| 0 <= k < i ==> in_block(self.blocks@, #[trigger] self.points@[k]),
            decreases self.points.len() - i,
        {
            let p = &self.points[i];
            let mut found = false;
            let mut k: usize = 0;
            while k < self.blocks.len() && !found
                invariant
                    k <= self.blocks@.len(),
                    i < self.points@.len(),
                    *p == self.points@[i as int],
                    found ==> in_block(self.blocks@, *p),
                    !found ==> forall|j: int|
                        0 <= j < k ==> !((#[trigger] self.blocks@[j]).id == p.block_id
                            && self.blocks@[j].generation_id == p.generation_id),
                decreases self.blocks.len() - k,
            {
                let b = &self.blocks[k];
                if b.id == p.block_id && b.generation_id == p.generation_id {
                    assert(self.blocks@[k as int].id == p.block_id);
                    found = true;
                }
                k += 1;
            }
            if !found {
                assert(!in_block(self.blocks@, self.points@[i as int]));
                return false;
            }
            i += 1;
        }
        true
    }

    /// Whether all tables are in order.
    pub fn is_wf(&self) -> (r: bool)
        ensures
            r == self.wf(),
    {
        self.facts_ok() && self.cache_ok() && self.links_ok() && self.names_ok()
    }

    fn names_ok(&self) -> (r: bool)
        ensures
            r == named_once(self.frames@),
    {
        let ghost frames = self.frames@;
        let mut i: usize = 0;
        while i < self.frames.len()
            invariant
                i <= frames.len(),
                frames == self.frames@,
                forall|a: int, b: int| #![trigger frames[a], frames[b]]
                    0 <= a < i && a < b < frames.len() ==> frames[a].name@ != frames[b].name@,
            decreases self.frames.len() - i,
        {
            let mut j: usize = i + 1;
            while j < self.frames.len()
                invariant
                    i < j <= frames.len(),
                    frames == self.frames@,
                    forall|b: int|
                        i < b < j ==> frames[i as int].name@ != (#[trigger] frames[b]).name@,
                decreases self.frames.len() - j,
            {
                if text::same(self.frames[i].name.as_str(), self.frames[j].name.as_str()) {
                    assert(frames[i as int].name@ == frames[j as int].name@);
                    return false;
                }
                j += 1;
            }
            i += 1;
        }
        true
    }
}

/// Whether a block is one of those with the given ids.
pub open spec fn block_listed(ids: Seq<i64>, b: BlockRow) -> bool {
    ids.contains(b.id)
}

/// Whether a point is in one of the blocks with the given ids.
pub open spec fn point_listed(ids: Seq<i64>, p: PointRow) -> bool {
    ids.contains(p.block_id)
}

/// The blocks without those with the given ids.
pub open spec fn blocks_without(blocks: Seq<BlockRow>, ids: Seq<i64>) -> Seq<BlockRow> {
    blocks.filter(|b: BlockRow| !block_listed(ids, b))
}

/// The points without those of the blocks with the given ids.
pub open spec fn points_without(points: Seq<PointRow>, ids: Seq<i64>) -> Seq<PointRow> {
    points.filter(|p: PointRow| !point_listed(ids, p))
}

/// Whether an id is in a list.
pub fn has_id(ids: &Vec<i64>, id: i64) -> (r: bool)
    ensures
        r == ids@.contains(id),
{
    let mut i: usize = 0;
    while i < ids.len()
        invariant
            i <= ids.len(),
            forall|k: int| 0 <= k < i ==> ids@[k] != id,
        decreases ids.len() - i,
    {
        if ids[i] == id {
            assert(ids@[i as int] == id);
            return true;
        }
        i += 1;
    }
    false
}

/// A filtered list keeps the order of what it holds.
pub proof fn lemma_filter_keeps_order<T>(
    s: Seq<T>,
    holds: spec_fn(T) -> bool,
    related: spec_fn(T, T) -> bool,
)
    requires
        forall|i: int, j: int| #![trigger s[i], s[j]]
            0 <= i < j < s.len() ==> related(s[i], s[j]),
    ensures
        ({
            let f = s.filter(holds);
            &&& f.len() <= s.len()
            &&& forall|i: int, j: int| #![trigger f[i], f[j]]
                0 <= i < j < f.len() ==> related(f[i], f[j])
            &&& forall|i: int| 0 <= i < f.len() ==> holds(#[trigger] f[i]) && s.contains(f[i])
            &&& forall|x: T| s.contains(x) && holds(x) ==> f.contains(x)
        }),
    decreases s.len(),
{
    reveal(Seq::filter);
    if s.len() > 0 {
        let d = s.drop_last();
        assert forall|i: int, j: int| #![trigger d[i], d[j]]
            0 <= i < j < d.len() implies related(d[i], d[j]) by {
            assert(d[i] == s[i] && d[j] == s[j]);
        }
        lemma_filter_keeps_order(d, holds, related);
        let f = s.filter(holds);
        let g = d.filter(holds);
        assert forall|i: int| 0 <= i < f.len() implies holds(#[trigger] f[i]) && s.contains(
            f[i],
        ) by {
            if i < g.len() {
                assert(f[i] == g[i]);
                assert(d.contains(g[i]));
                let k = choose|k: int| 0 <= k < d.len() && d[k] == g[i];
                assert(s[k] == f[i]);
            } else {
                assert(s[s.len() - 1] == f[i]);
            }
        }
        assert forall|i: int, j: int| #![trigger f[i], f[j]]
            0 <= i < j < f.len() implies related(f[i], f[j]) by {
            assert(f[i] == g[i]);
            if j < g.len() {
                assert(f[j] == g[j]);
            } else {
                assert(d.contains(g[i]));
                let k = choose|k: int| 0 <= k < d.len() && d[k] == g[i];
                assert(s[k] == f[i] && s[s.len() - 1] == f[j]);
                assert(related(s[k], s[s.len() - 1]));
            }
        }
        assert forall|x: T| s.contains(x) && holds(x) implies f.contains(x) by {
            let k = choose|k: int| 0 <= k < s.len() && s[k] == x;
            if k < d.len() {
                assert(d[k] == x);
                assert(g.contains(x));
                let m = choose|m: int| 0 <= m < g.len() && g[m] == x;
                assert(f[m] == x);
            } else {
                assert(f[f.len() - 1] == x);
            }
        }
    }
}

/// Filtering keeps the cache in order.
pub proof fn lemma_cache_filtered(
    before: Ledger,
    after: Ledger,
    keep_block: spec_fn(BlockRow) -> bool,
    keep_point: spec_fn(PointRow) -> bool,
)
    requires
        before.cache_wf(),
        after.blocks@ == before.blocks@.filter(keep_block),
        after.points@ == before.points@.filter(keep_point),
    ensures
        after.cache_wf(),
{
    lemma_filter_keeps_order(
        before.blocks@,
        keep_block,
        |a: BlockRow, b: BlockRow|
            a.id < b.id && !(a.generation_id == b.generation_id && a.start == b.start),
    );
    lemma_filter_keeps_order(before.points@, keep_point, |a: PointRow, b: PointRow| a.id < b.id);
}

/// Where blocks go together with their points, every other point keeps its block.
pub proof fn lemma_links_stay(blocks: Seq<BlockRow>, points: Seq<PointRow>, ids: Seq<i64>)
    requires
        linked(blocks, points),
    ensures
        linked(blocks_without(blocks, ids), points_without(points, ids)),
{
    let left = blocks_without(blocks, ids);
    let kept = points_without(points, ids);
    let keep_block = |b: BlockRow| !block_listed(ids, b);
    let keep_point = |p: PointRow| !point_listed(ids, p);
    lemma_filter_keeps_order(blocks, keep_block, |a: BlockRow, b: BlockRow| true);
    lemma_filter_keeps_order(points, keep_point, |a: PointRow, b: PointRow| true);
    assert forall|i: int| 0 <= i < kept.len() implies in_block(left, #[trigger] kept[i]) by {
        let p = kept[i];
        assert(keep_point(p));
        assert(points.contains(p));
        let j = choose|j: int| 0 <= j < points.len() && points[j] == p;
        assert(in_block(blocks, points[j]));
        let k = choose|k: int|
            0 <= k < blocks.len() && (#[trigger] blocks[k]).id == p.block_id
                && blocks[k].generation_id == p.generation_id;
        assert(blocks.contains(blocks[k]));
        assert(keep_block(blocks[k]));
        let m = choose|m: int| 0 <= m < left.len() && left[m] == blocks[k];
        assert(left[m].id == p.block_id);
    }
}

impl Ledger {
    /// Drops the blocks with the given ids together with their points.
    pub fn drop_blocks(&mut self, ids: &Vec<i64>)
        ensures
            final(self).blocks@ == blocks_without(old(self).blocks@, ids@),
            final(self).points@ == points_without(old(self).points@, ids@),
            final(self).same_facts(*old(self)),
            old(self).wf() ==> final(self).wf(),
    {
        let ghost before = *self;
        let mut keep: Vec<bool> = Vec::new();
        let mut i: usize = 0;
        while i < self.blocks.len()
            invariant
                i <= self.blocks@.len(),
                keep@.len() == i,
                forall|k: int|
                    0 <= k < i ==> #[trigger] keep@[k] == !block_listed(ids@, self.blocks@[k]),
            decreases self.blocks.len() - i,
        {
            keep.push(!has_id(ids, self.blocks[i].id));
            i += 1;
        }
        let ghost keep_block = |b: BlockRow| !block_listed(ids@, b);
        proof {
            rows::lemma_kept_by(self.blocks@, keep@, keep_block);
        }
        rows::retain(&mut self.blocks, &keep);
        let mut keep_points: Vec<bool> = Vec::new();
        let mut j: usize = 0;
        while j < self.points.len()
            invariant
                j <= self.points@.len(),
                keep_points@.len() == j,
                forall|k: int|
                    0 <= k < j ==> #[trigger] keep_points@[k] == !point_listed(
                        ids@,
                        self.points@[k],
                    ),
            decreases self.points.len() - j,
        {
            keep_points.push(!has_id(ids, self.points[j].block_id));
            j += 1;
        }
        let ghost keep_point = |p: PointRow| !point_listed(ids@, p);
        proof {
            rows::lemma_kept_by(self.points@, keep_points@, keep_point);
        }
        rows::retain(&mut self.points, &keep_points);
        proof {
            if before.wf() {
                lemma_cache_filtered(before, *self, keep_block, keep_point);
                lemma_links_stay(before.blocks@, before.points@, ids@);
            }
        }
    }

    /// The ids of the blocks that were not finished.
    pub open spec fn pending_ids(self) -> Seq<i64> {
        self.blocks@.filter(|b: BlockRow| b.status is Pending).map_values(|b: BlockRow| b.id)
    }
}

/// Recovers from an interruption: blocks that were not finished are dropped together
/// with their points, so that the next build starts them from scratch. Finished
/// blocks stay. The answer is 0, whatever was dropped.
pub fn recover_pending(c: &mut Ledger) -> (r: usize)
    ensures
        r == 0,
        final(c).blocks@ == blocks_without(old(c).blocks@, old(c).pending_ids()),
        final(c).points@ == points_without(old(c).points@, old(c).pending_ids()),
        final(c).same_facts(*old(c)),
        old(c).wf() ==> final(c).wf(),
{
    let mut ids: Vec<i64> = Vec::new();
    let mut i: usize = 0;
    let ghost pending = |b: BlockRow| b.status is Pending;
    proof {
        reveal(Seq::filter);
        assert(c.blocks@.take(0) =~= Seq::<BlockRow>::empty());
        assert(ids@ =~= c.blocks@.take(0).filter(pending).map_values(|b: BlockRow| b.id));
    }
    while i < c.blocks.len()
        invariant
            i <= c.blocks@.len(),
            *c == *old(c),
            pending == (|b: BlockRow| b.status is Pending),
            ids@ == c.blocks@.take(i as int).filter(pending).map_values(|b: BlockRow| b.id),
        decreases c.blocks.len() - i,
    {
        proof {
            reveal(Seq::filter);
            assert(c.blocks@.take(i + 1).drop_last() =~= c.blocks@.take(i as int));
        }
        let ghost before = ids@;
        if c.blocks[i].status == BlockStatus::Pending {
            ids.push(c.blocks[i].id);
        }
        i += 1;
        assert(ids@ =~= c.blocks@.take(i as int).filter(pending).map_values(|b: BlockRow| b.id));
    }
    assert(c.blocks@.take(c.blocks@.len() as int) =~= c.blocks@);
    c.drop_blocks(&ids);
    0
}

/// After recovery no unfinished block is left, and every finished block is, with all
/// of its points.
pub proof fn law_recovery_leaves_finished_blocks_only(before: Ledger, after: Ledger)
    requires
        before.cache_wf(),
        after.blocks@ == blocks_without(before.blocks@, before.pending_ids()),
        after.points@ == points_without(before.points@, before.pending_ids()),
    ensures
        forall|i: int| 0 <= i < after.blocks@.len() ==> (#[trigger] after.blocks@[i]).status is Complete,
        forall|b: BlockRow|
            before.blocks@.contains(b) && b.status is Complete ==> after.blocks@.contains(b),
        forall|p: PointRow, b: BlockRow| #![trigger before.points@.contains(p), before.blocks@.contains(b)]
            before.points@.contains(p) && before.blocks@.contains(b) && b.status is Complete
                && p.block_id == b.id ==> after.points@.contains(p),
        forall|p: PointRow, b: BlockRow| #![trigger after.points@.contains(p), before.blocks@.contains(b)]
            before.blocks@.contains(b) && b.status is Pending && p.block_id == b.id
                ==> !after.points@.contains(p),
{
    let ids = before.pending_ids();
    let pending = |b: BlockRow| b.status is Pending;
    let found = before.blocks@.filter(pending);
    let any_block = |a: BlockRow, b: BlockRow|
        a.id < b.id && !(a.generation_id == b.generation_id && a.start == b.start);
    let any_point = |a: PointRow, b: PointRow| a.id < b.id;
    lemma_filter_keeps_order(before.blocks@, pending, any_block);
    lemma_filter_keeps_order(before.blocks@, |b: BlockRow| !block_listed(ids, b), any_block);
    lemma_filter_keeps_order(before.points@, |p: PointRow| !point_listed(ids, p), any_point);
    assert forall|b: BlockRow| before.blocks@.contains(b) implies ids.contains(b.id)
        == b.status is Pending by {
        if b.status is Pending {
            assert(pending(b));
            assert(found.contains(b));
            let k = choose|k: int| 0 <= k < found.len() && found[k] == b;
            assert(ids[k] == b.id);
        }
        if ids.contains(b.id) {
            let k = choose|k: int| 0 <= k < ids.len() && ids[k] == b.id;
            let other = found[k];
            assert(pending(other));
            let x = choose|x: int| 0 <= x < before.blocks@.len() && before.blocks@[x] == b;
            let y = choose|y: int| 0 <= y < before.blocks@.len() && before.blocks@[y] == other;
            assert(x == y);
        }
    }
    assert forall|i: int| 0 <= i < after.blocks@.len() implies (
    #[trigger] after.blocks@[i]).status is Complete by {
        assert(before.blocks@.contains(after.blocks@[i]));
    }
}

/// Recovering twice is recovering once.
pub proof fn law_recovery_is_idempotent(before: Ledger, once: Ledger, twice: Ledger)
    requires
        before.cache_wf(),
        once.blocks@ == blocks_without(before.blocks@, before.pending_ids()),
        once.points@ == points_without(before.points@, before.pending_ids()),
        twice.blocks@ == blocks_without(once.blocks@, once.pending_ids()),
        twice.points@ == points_without(once.points@, once.pending_ids()),
    ensures
        twice.blocks@ == once.blocks@,
        twice.points@ == once.points@,
{
    law_recovery_leaves_finished_blocks_only(before, once);
    lemma_nothing_to_recover(once);
}

/// Where every block is finished there is nothing to recover from.
pub proof fn lemma_nothing_to_recover(l: Ledger)
    requires
        forall|i: int| 0 <= i < l.blocks@.len() ==> (#[trigger] l.blocks@[i]).status is Complete,
    ensures
        blocks_without(l.blocks@, l.pending_ids()) == l.blocks@,
        points_without(l.points@, l.pending_ids()) == l.points@,
{
    lemma_filter_none(l.blocks@, |b: BlockRow| b.status is Pending);
    assert(l.pending_ids() =~= Seq::<i64>::empty());
    lemma_filter_all(l.blocks@, |b: BlockRow| !block_listed(l.pending_ids(), b));
    lemma_filter_all(l.points@, |p: PointRow| !point_listed(l.pending_ids(), p));
}

proof fn lemma_filter_none<T>(s: Seq<T>, holds: spec_fn(T) -> bool)
    requires
        forall|i: int| 0 <= i < s.len() ==> !holds(#[trigger] s[i]),
    ensures
        s.filter(holds).len() == 0,
    decreases s.len(),
{
    reveal(Seq::filter);
    if s.len() > 0 {
        let d = s.drop_last();
        assert forall|i: int| 0 <= i < d.len() implies !holds(#[trigger] d[i]) by {
            assert(d[i] == s[i]);
        }
        lemma_filter_none(d, holds);
        assert(!holds(s[s.len() - 1]));
    }
}

proof fn lemma_filter_all<T>(s: Seq<T>, holds: spec_fn(T) -> bool)
    requires
        forall|i: int| 0 <= i < s.len() ==> holds(#[trigger] s[i]),
    ensures
        s.filter(holds) == s,
    decreases s.len(),
{
    reveal(Seq::filter);
    if s.len() > 0 {
        let d = s.drop_last();
        assert forall|i: int| 0 <= i < d.len() implies holds(#[trigger] d[i]) by {
            assert(d[i] == s[i]);
        }
        lemma_filter_all(d, holds);
        assert(holds(s[s.len() - 1]));
        assert(s.filter(holds) =~= s);
    } else {
        assert(s.filter(holds) =~= s);
    }
}

/// The kind of a frame, where there is a frame of that name.
pub open spec fn frame_kind(frames: Seq<FrameRow>, name: Seq<char>) -> Option<Seq<char>> {
    match rows::first_where(frames.len() as int, frame_named(frames, name)) {
        Some(i) => Some(frames[i].kind@),
        None => None,
    }
}

/// Whether a frame has a name.
pub open spec fn frame_named(frames: Seq<FrameRow>, name: Seq<char>) -> spec_fn(int) -> bool {
    |i: int| frames[i].name@ == name
}

fn find_frame(frames: &Vec<FrameRow>, name: &str) -> (r: Option<usize>)
    ensures
        match r {
            Some(i) => i < frames@.len() && rows::first_where(
                frames@.len() as int,
                frame_named(frames@, name@),
            ) == Some(i as int),
            None => rows::first_where(frames@.len() as int, frame_named(frames@, name@)) is None,
        },
{
    let ghost holds = frame_named(frames@, name@);
    let mut i: usize = 0;
    while i < frames.len()
        invariant
            i <= frames@.len(),
            holds == frame_named(frames@, name@),
            rows::first_where(i as int, holds) is None,
            forall|k: int| 0 <= k < i ==> !#[trigger] holds(k),
        decreases frames.len() - i,
    {
        if text::same(frames[i].name.as_str(), name) {
            proof {
                assert(holds(i as int));
                rows::lemma_first_is(frames@.len() as int, holds, i as int);
            }
            return Some(i);
        }
        assert(!holds(i as int));
        i += 1;
    }
    None
}

/// What a frame's kind is once the first `n` of some names have been seen to: the
/// kind it had, else the one that comes with its name first.
pub open spec fn ensured_kind(
    frames: Seq<FrameRow>,
    wanted: Seq<(&'static str, &'static str)>,
    n: int,
    name: Seq<char>,
) -> Option<Seq<char>>
    decreases n,
{
    if n <= 0 {
        frame_kind(frames, name)
    } else {
        match ensured_kind(frames, wanted, n - 1, name) {
            Some(k) => Some(k),
            None => if wanted[n - 1].0@ == name {
                Some(wanted[n - 1].1@)
            } else {
                None
            },
        }
    }
}

proof fn lemma_frame_pushed(frames: Seq<FrameRow>, row: FrameRow, name: Seq<char>)
    ensures
        frame_kind(frames.push(row), name) == match frame_kind(frames, name) {
            Some(k) => Some(k),
            None => if row.name@ == name {
                Some(row.kind@)
            } else {
                None
            },
        },
{
    let n = frames.len() as int;
    let after = frames.push(row);
    let h = frame_named(frames, name);
    let g = frame_named(after, name);
    rows::lemma_first_where(n, h);
    rows::lemma_first_where(n + 1, g);
    match rows::first_where(n, h) {
        Some(i) => {
            assert forall|k: int| 0 <= k < i implies !#[trigger] g(k) by {
                assert(!h(k));
            }
            assert(g(i));
            rows::lemma_first_is(n + 1, g, i);
        },
        None => {
            assert forall|k: int| 0 <= k < n implies !#[trigger] g(k) by {
                assert(!h(k));
            }
            if row.name@ == name {
                assert(g(n));
                rows::lemma_first_is(n + 1, g, n);
            } else {
                assert(!g(n));
            }
        },
    }
}

/// Makes sure that frames exist, once each; one that does keeps its row.
pub fn ensure_frames(c: &mut Ledger, names: &Vec<(&'static str, &'static str)>)
    requires
        named_once(old(c).frames@),
    ensures
        named_once(final(c).frames@),
        old(c).frames@.is_prefix_of(final(c).frames@),
        forall|name: Seq<char>| #[trigger]
            frame_kind(final(c).frames@, name) == ensured_kind(
                old(c).frames@,
                names@,
                names@.len() as int,
                name,
            ),
        final(c).generations == old(c).generations,
        final(c).packets == old(c).packets,
        final(c).poses == old(c).poses,
        final(c).edges == old(c).edges,
        final(c).blocks == old(c).blocks,
        final(c).points == old(c).points,
{
    let ghost start = c.frames@;
    let mut i: usize = 0;
    while i < names.len()
        invariant
            i <= names@.len(),
            start == old(c).frames@,
            named_once(c.frames@),
            start.is_prefix_of(c.frames@),
            forall|name: Seq<char>| #[trigger]
                frame_kind(c.frames@, name) == ensured_kind(start, names@, i as int, name),
            c.generations == old(c).generations,
            c.packets == old(c).packets,
            c.poses == old(c).poses,
            c.edges == old(c).edges,
            c.blocks == old(c).blocks,
            c.points == old(c).points,
        decreases names.len() - i,
    {
        let (name, kind) = names[i];
        let ghost before = c.frames@;
        match find_frame(&c.frames, name) {
            Some(_) => {
                assert(frame_kind(before, name@) is Some);
                assert forall|x: Seq<char>| #[trigger] frame_kind(c.frames@, x) == ensured_kind(
                    start,
                    names@,
                    i + 1,
                    x,
                ) by {
                    assert(frame_kind(before, x) == ensured_kind(start, names@, i as int, x));
                }
            },
            None => {
                proof {
                    rows::lemma_first_where(before.len() as int, frame_named(before, name@));
                    assert forall|k: int| 0 <= k < before.len() implies (
                    #[trigger] before[k]).name@ != name@ by {
                        assert(!frame_named(before, name@)(k));
                    }
                }
                c.frames.push(FrameRow { name: name.to_owned(), kind: kind.to_owned() });
                assert forall|x: Seq<char>| #[trigger] frame_kind(c.frames@, x) == ensured_kind(
                    start,
                    names@,
                    i + 1,
                    x,
                ) by {
                    lemma_frame_pushed(before, c.frames@.last(), x);
                    assert(frame_kind(before, x) == ensured_kind(start, names@, i as int, x));
                }
            },
        }
        i += 1;
    }
}

/// Every pose has a stored packet, and no other pose has the same one.
pub proof fn law_every_pose_has_a_packet_of_its_own(l: Ledger, i: int, j: int)
    requires
        l.wf(),
        0 <= i < l.poses@.len(),
        0 <= j < l.poses@.len(),
    ensures
        exists|k: int|
            0 <= k < l.packets@.len() && (#[trigger] l.packets@[k]).id == l.poses@[i].packet_id
                && l.packets@[k].generation_id == l.poses@[i].generation_id,
        l.poses@[i].packet_id == l.poses@[j].packet_id ==> i == j,
{
    assert(is_posed(l.packets@, l.poses@[i]));
    let k = l.poses@[i].packet_id - 1;
    assert(l.packets@[k].id == l.poses@[i].packet_id);
}

/// A frame that was there keeps its kind; one that was not has the kind that comes with its
/// name first among those that are wanted; and no other frame comes to be.
pub proof fn law_frames_keep_their_kinds(
    frames: Seq<FrameRow>,
    wanted: Seq<(&'static str, &'static str)>,
    n: int,
    name: Seq<char>,
    i: int,
)
    requires
        0 <= n <= wanted.len(),
    ensures
        frame_kind(frames, name) is Some ==> ensured_kind(frames, wanted, n, name) == frame_kind(
            frames,
            name,
        ),
        frame_kind(frames, name) is None && 0 <= i < n && wanted[i].0@ == name && (forall|k: int|
            0 <= k < i ==> (#[trigger] wanted[k]).0@ != name) ==> ensured_kind(
            frames,
            wanted,
            n,
            name,
        ) == Some(wanted[i].1@),
        frame_kind(frames, name) is None && (forall|k: int|
            0 <= k < n ==> (#[trigger] wanted[k]).0@ != name) ==> ensured_kind(
            frames,
            wanted,
            n,
            name,
        ) is None,
    decreases n,
{
    if n > 0 {
        law_frames_keep_their_kinds(frames, wanted, n - 1, name, i);
        if 0 <= i < n && (forall|k: int| 0 <= k < i ==> (#[trigger] wanted[k]).0@ != name) && i == n
            - 1 {
            assert forall|k: int| 0 <= k < n - 1 implies (#[trigger] wanted[k]).0@ != name by {}
        }
    }
}

/// Dropping blocks takes away those with the ids that are given, with their points, and no
/// others.
pub proof fn law_dropping_takes_away_what_is_named(
    blocks: Seq<BlockRow>,
    points: Seq<PointRow>,
    ids: Seq<i64>,
    b: BlockRow,
    p: PointRow,
)
    ensures
        blocks_without(blocks, ids).contains(b) <==> blocks.contains(b) && !ids.contains(b.id),
        points_without(points, ids).contains(p) <==> points.contains(p) && !ids.contains(
            p.block_id,
        ),
{
    let left = |x: BlockRow| !block_listed(ids, x);
    let left_points = |x: PointRow| !point_listed(ids, x);
    lemma_filter_keeps_order(blocks, left, |x: BlockRow, y: BlockRow| true);
    lemma_filter_keeps_order(points, left_points, |x: PointRow, y: PointRow| true);
    let f = blocks_without(blocks, ids);
    let g = points_without(points, ids);
    if f.contains(b) {
        let k = choose|k: int| 0 <= k < f.len() && f[k] == b;
        assert(left(f[k]));
    }
    if blocks.contains(b) && !ids.contains(b.id) {
        assert(left(b));
    }
    if g.contains(p) {
        let k = choose|k: int| 0 <= k < g.len() && g[k] == p;
        assert(left_points(g[k]));
    }
    if points.contains(p) && !ids.contains(p.block_id) {
        assert(left_points(p));
    }
}

} // verus!
