//! Building derived blocks: which are stale, what they hold, and what a build changes.
//!
//! A block is stored only when it is finished, together with all of its points and
//! their provenance, so that a build that stops in between leaves no half block.

use crate::blocks;
use crate::blocks::Window;
use crate::db;
use crate::db::{BlockRow, BlockStatus, Ledger, PointRow};
use crate::model::{PacketKind, PacketRecord};
use crate::order;
use crate::order::Part;
use crate::provenance::Provenance;
use crate::routes;
use crate::routes::{PendingPoint, PointMeasure};
use crate::rows;
use crate::text;
use crate::time;
use crate::time::Nanos;
use vstd::prelude::*;
use vstd::string::*;

verus! {

// ---- points to derive -----------------------------------------------------------------

/// Whether a packet's points are derived in a window: it is a lidar packet that lies in
/// it and repeats no other.
pub open spec fn derived_in(packets: Seq<PacketRecord>, w: Window) -> spec_fn(int) -> bool {
    |i: int|
        packets[i].kind is Lidar && packets[i].duplicate_of is None && packets[i].generation_id
            == w.generation_id && w.start <= packets[i].continuous_time
            && packets[i].continuous_time < w.end
}

/// What packets are sorted by: their time, then their id.
pub open spec fn packet_key(packets: Seq<PacketRecord>) -> spec_fn(int) -> Seq<order::PartValue> {
    |i: int| order::pair_key(packets[i].continuous_time as int, packets[i].id as int)
}

/// The packets whose points are derived in a window, by position, in order of time and
/// id.
pub open spec fn packets_in_order(packets: Seq<PacketRecord>, w: Window) -> Seq<int> {
    order::listed(packets.len() as int, derived_in(packets, w), packet_key(packets))
}

/// The points of one packet.
pub open spec fn points_in(packets: Seq<PacketRecord>, i: int) -> Seq<PendingPoint> {
    Seq::new(
        packets[i].points@.len(),
        |j: int| PendingPoint { packet: i as usize, index: j as usize },
    )
}

/// The points of the first `n` packets of a list.
pub open spec fn points_among(packets: Seq<PacketRecord>, at: Seq<int>, n: int) -> Seq<PendingPoint>
    decreases n,
{
    if n <= 0 {
        Seq::empty()
    } else {
        points_among(packets, at, n - 1) + points_in(packets, at[n - 1])
    }
}

/// The points that are derived in a window, in order.
pub open spec fn pending(packets: Seq<PacketRecord>, w: Window) -> Seq<PendingPoint> {
    let at = packets_in_order(packets, w);
    points_among(packets, at, at.len() as int)
}

fn ordered_packets(db: &Ledger, w: Window) -> (r: Vec<usize>)
    ensures
        order::positions(r@) == packets_in_order(db.packets@, w),
        forall|i: int| 0 <= i < r@.len() ==> #[trigger] r@[i] < db.packets@.len(),
{
    let ghost shown = derived_in(db.packets@, w);
    let ghost key_of = packet_key(db.packets@);
    let mut at: Vec<usize> = Vec::new();
    let mut keys: Vec<Vec<Part>> = Vec::new();
    let mut i: usize = 0;
    assert(order::positions(at@) =~= rows::all_where(0, shown));
    while i < db.packets.len()
        invariant
            i <= db.packets@.len(),
            shown == derived_in(db.packets@, w),
            key_of == packet_key(db.packets@),
            order::positions(at@) == rows::all_where(i as int, shown),
            keys@.len() == at@.len(),
            forall|k: int|
                0 <= k < keys@.len() ==> order::key_value((#[trigger] keys@[k])@) == key_of(
                    at@[k] as int,
                ),
        decreases db.packets.len() - i,
    {
        let p = &db.packets[i];
        if p.kind == PacketKind::Lidar && p.duplicate_of.is_none() && p.generation_id
            == w.generation_id && w.start <= p.continuous_time && p.continuous_time < w.end {
            assert(shown(i as int));
            let ghost before = order::positions(at@);
            at.push(i);
            assert(order::positions(at@) =~= before.push(i as int));
            let mut key: Vec<Part> = Vec::new();
            key.push(Part::Number(p.continuous_time));
            key.push(Part::Number(p.id as i128));
            assert(order::key_value(key@) =~= key_of(i as int));
            keys.push(key);
        } else {
            assert(!shown(i as int));
        }
        i += 1;
    }
    order::arrange(&at, &keys, Ghost(db.packets@.len() as int), Ghost(shown), Ghost(key_of))
}

/// Lists the points that are derived in a window, in order.
pub fn pending_points(db: &Ledger, w: Window) -> (r: Vec<PendingPoint>)
    ensures
        r@ == pending(db.packets@, w),
        forall|i: int|
            0 <= i < r@.len() ==> (#[trigger] r@[i]).packet < db.packets@.len() && r@[i].index
                < db.packets@[r@[i].packet as int].points@.len(),
{
    let at = ordered_packets(db, w);
    let ghost av = packets_in_order(db.packets@, w);
    let mut out: Vec<PendingPoint> = Vec::new();
    let mut i: usize = 0;
    assert(out@ =~= points_among(db.packets@, av, 0));
    while i < at.len()
        invariant
            i <= at@.len(),
            av == order::positions(at@),
            forall|k: int| 0 <= k < at@.len() ==> #[trigger] at@[k] < db.packets@.len(),
            out@ == points_among(db.packets@, av, i as int),
            forall|k: int|
                0 <= k < out@.len() ==> (#[trigger] out@[k]).packet < db.packets@.len()
                    && out@[k].index < db.packets@[out@[k].packet as int].points@.len(),
        decreases at.len() - i,
    {
        let packet: usize = at[i];
        let n: usize = db.packets[packet].points.len();
        let ghost before = out@;
        let ghost more = points_in(db.packets@, packet as int);
        let mut j: usize = 0;
        assert(out@ =~= before + more.take(0));
        while j < n
            invariant
                j <= n,
                packet < db.packets@.len(),
                n == db.packets@[packet as int].points@.len(),
                more == points_in(db.packets@, packet as int),
                out@ == before + more.take(j as int),
                forall|k: int|
                    0 <= k < out@.len() ==> (#[trigger] out@[k]).packet < db.packets@.len()
                        && out@[k].index < db.packets@[out@[k].packet as int].points@.len(),
            decreases n - j,
        {
            out.push(PendingPoint { packet, index: j });
            j += 1;
            assert(more.take(j as int) =~= more.take(j - 1).push(more[j - 1]));
        }
        assert(more.take(n as int) =~= more);
        assert(av[i as int] == packet);
        i += 1;
    }
    out
}

proof fn lemma_points_among(packets: Seq<PacketRecord>, at: Seq<int>, n: int, pp: PendingPoint)
    requires
        0 <= n <= at.len(),
        forall|i: int| 0 <= i < at.len() ==> 0 <= #[trigger] at[i] < packets.len(),
        packets.len() <= usize::MAX,
        forall|i: int| 0 <= i < packets.len() ==> (#[trigger] packets[i]).points@.len() <= usize::MAX,
    ensures
        points_among(packets, at, n).contains(pp) <==> at.take(n).contains(pp.packet as int)
            && pp.index < packets[pp.packet as int].points@.len(),
    decreases n,
{
    if n > 0 {
        lemma_points_among(packets, at, n - 1, pp);
        let before = points_among(packets, at, n - 1);
        let more = points_in(packets, at[n - 1]);
        let now = points_among(packets, at, n);
        assert(now == before + more);
        let first = at.take(n - 1);
        let all = at.take(n);
        assert(all =~= first.push(at[n - 1]));
        if now.contains(pp) {
            let i = choose|i: int| 0 <= i < now.len() && now[i] == pp;
            if i < before.len() {
                assert(before[i] == pp);
                assert(before.contains(pp));
                let k = choose|k: int| 0 <= k < first.len() && first[k] == pp.packet;
                assert(all[k] == pp.packet);
            } else {
                assert(more[i - before.len()] == pp);
                assert(packets[at[n - 1]].points@.len() <= usize::MAX);
                assert(all[n - 1] == pp.packet);
            }
        }
        if all.contains(pp.packet as int) && pp.index < packets[pp.packet as int].points@.len() {
            let k = choose|k: int| 0 <= k < all.len() && all[k] == pp.packet;
            if k < n - 1 {
                assert(first[k] == pp.packet);
                assert(before.contains(pp));
                let i = choose|i: int| 0 <= i < before.len() && before[i] == pp;
                assert(now[i] == pp);
            } else {
                assert(more[pp.index as int] == pp);
                assert(now[before.len() + pp.index] == pp);
            }
        }
    }
}

/// A point is derived in a window exactly where it is one of a lidar packet that lies in
/// the window and repeats no other: packets that repeat others are never derived.
pub proof fn law_only_original_points_are_derived(db: Ledger, w: Window, pp: PendingPoint)
    requires
        db.packets@.len() <= usize::MAX,
        forall|i: int|
            0 <= i < db.packets@.len() ==> (#[trigger] db.packets@[i]).points@.len() <= usize::MAX,
    ensures
        pending(db.packets@, w).contains(pp) <==> {
            &&& pp.packet < db.packets@.len()
            &&& derived_in(db.packets@, w)(pp.packet as int)
            &&& pp.index < db.packets@[pp.packet as int].points@.len()
        },
{
    let packets = db.packets@;
    let n = packets.len() as int;
    let holds = derived_in(packets, w);
    let at = packets_in_order(packets, w);
    order::law_listing_holds_what_is_shown(n, holds, packet_key(packets));
    lemma_points_among(packets, at, at.len() as int, pp);
    assert(at.take(at.len() as int) =~= at);
    let p = pp.packet as int;
    if at.contains(p) {
        let i = choose|i: int| 0 <= i < at.len() && at[i] == p;
        assert(holds(at[i]));
    }
    if 0 <= p < n && holds(p) {
        assert(at.contains(p));
    }
}

proof fn lemma_pending_lies_in_window(packets: Seq<PacketRecord>, w: Window, i: int)
    requires
        packets.len() <= usize::MAX,
        0 <= i < pending(packets, w).len(),
    ensures
        0 <= pending(packets, w)[i].packet < packets.len(),
        derived_in(packets, w)(pending(packets, w)[i].packet as int),
{
    let n = packets.len() as int;
    let at = packets_in_order(packets, w);
    order::law_listing_holds_what_is_shown(n, derived_in(packets, w), packet_key(packets));
    lemma_points_come_from(packets, at, at.len() as int, i);
}

proof fn lemma_points_come_from(packets: Seq<PacketRecord>, at: Seq<int>, n: int, i: int)
    requires
        packets.len() <= usize::MAX,
        0 <= n <= at.len(),
        forall|k: int| 0 <= k < at.len() ==> 0 <= #[trigger] at[k] < packets.len(),
        0 <= i < points_among(packets, at, n).len(),
    ensures
        at.contains(points_among(packets, at, n)[i].packet as int),
    decreases n,
{
    if n > 0 {
        let before = points_among(packets, at, n - 1);
        if i < before.len() {
            lemma_points_come_from(packets, at, n - 1, i);
        } else {
            assert(points_among(packets, at, n)[i] == points_in(packets, at[n - 1])[i
                - before.len()]);
            assert(at[n - 1] == points_among(packets, at, n)[i].packet);
        }
    }
}

// ---- one block --------------------------------------------------------------------------

/// Whether a block is the one of a window.
pub open spec fn at_window(b: BlockRow, w: Window) -> bool {
    b.generation_id == w.generation_id && b.start == w.start
}

/// The ids of the blocks of a window.
pub open spec fn ids_at(blocks: Seq<BlockRow>, w: Window) -> Seq<i64> {
    blocks.filter(|b: BlockRow| at_window(b, w)).map_values(|b: BlockRow| b.id)
}

/// The id that the next block gets.
pub open spec fn next_block_id(blocks: Seq<BlockRow>) -> int {
    if blocks.len() == 0 {
        1
    } else {
        blocks.last().id + 1
    }
}

/// The id that the next point gets.
pub open spec fn next_point_id(points: Seq<PointRow>) -> int {
    if points.len() == 0 {
        1
    } else {
        points.last().id + 1
    }
}

/// Whether a row is a point that was derived.
pub open spec fn is_point_row(
    row: PointRow,
    l: Ledger,
    pp: PendingPoint,
    m: PointMeasure,
    id: int,
    block_id: int,
) -> bool {
    let p = l.packets@[pp.packet as int];
    &&& row.id == id
    &&& row.packet_id == p.id
    &&& row.block_id == block_id
    &&& row.generation_id == p.generation_id
    &&& row.point_index == pp.index
    &&& row.t == p.continuous_time
    &&& row.sensor_xyz == m.si_xyz
    &&& row.map_xyz == row.provenance.final_map_xyz
    &&& routes::accounts_for(row.provenance, l, p, pp.index as int, m)
}

/// Whether measures are those of a window's points.
pub open spec fn measured(l: Ledger, w: Window, m: Seq<PointMeasure>) -> bool {
    let points = pending(l.packets@, w);
    &&& m.len() == points.len()
    &&& forall|i: int|
        0 <= i < m.len() ==> routes::measures(
            l,
            l.packets@[points[i].packet as int],
            #[trigger] m[i],
        )
}

/// How many of a number of points from a position on are aligned, or are not.
pub open spec fn aligned_count(points: Seq<PointRow>, from: int, n: int, aligned: bool) -> int
    decreases n,
{
    if n <= 0 {
        0
    } else {
        aligned_count(points, from, n - 1, aligned) + if (points[from + n - 1].map_xyz is Some)
            == aligned {
            1int
        } else {
            0
        }
    }
}

/// Whether a block's row is that of a finished block.
pub open spec fn is_finished(b: BlockRow, w: Window, signature: Seq<char>, id: int, now: Nanos) -> bool {
    &&& b.id == id
    &&& b.generation_id == w.generation_id
    &&& b.start == w.start
    &&& b.end == w.end
    &&& b.status is Complete
    &&& b.signature@ == signature
    &&& b.built_at == Some(now)
}

/// Whether `l2` is what building a window's block makes of `l`: the block that was
/// there, with its points, is replaced by a finished one with a row for each of the
/// window's points.
pub open spec fn built(
    l: Ledger,
    w: Window,
    signature: Seq<char>,
    m: Seq<PointMeasure>,
    now: Nanos,
    l2: Ledger,
) -> bool {
    let ids = ids_at(l.blocks@, w);
    let blocks_left = db::blocks_without(l.blocks@, ids);
    let points_left = db::points_without(l.points@, ids);
    let points = pending(l.packets@, w);
    let block_id = next_block_id(blocks_left);
    let n = points_left.len() as int;
    &&& l2.same_facts(l)
    &&& l2.blocks@.len() == blocks_left.len() + 1
    &&& l2.blocks@.drop_last() == blocks_left
    &&& is_finished(l2.blocks@.last(), w, signature, block_id, now)
    &&& l2.points@.len() == n + points.len()
    &&& l2.points@.take(n) == points_left
    &&& forall|i: int|
        0 <= i < points.len() ==> is_point_row(
            #[trigger] l2.points@[n + i],
            l,
            points[i],
            m[i],
            next_point_id(points_left) + i,
            block_id,
        )
}

/// How many points a window's block has, aligned or not, right after it was built.
pub open spec fn new_points(l: Ledger, w: Window, l2: Ledger, aligned: bool) -> int {
    aligned_count(
        l2.points@,
        db::points_without(l.points@, ids_at(l.blocks@, w)).len() as int,
        pending(l.packets@, w).len() as int,
        aligned,
    )
}

fn block_ids_at(blocks: &Vec<BlockRow>, w: Window) -> (r: Vec<i64>)
    ensures
        r@ == ids_at(blocks@, w),
{
    let mut ids: Vec<i64> = Vec::new();
    let ghost holds = |b: BlockRow| at_window(b, w);
    let mut i: usize = 0;
    proof {
        reveal(Seq::filter);
        assert(blocks@.take(0) =~= Seq::<BlockRow>::empty());
        assert(ids@ =~= blocks@.take(0).filter(holds).map_values(|b: BlockRow| b.id));
    }
    while i < blocks.len()
        invariant
            i <= blocks@.len(),
            holds == (|b: BlockRow| at_window(b, w)),
            ids@ == blocks@.take(i as int).filter(holds).map_values(|b: BlockRow| b.id),
        decreases blocks.len() - i,
    {
        proof {
            reveal(Seq::filter);
            assert(blocks@.take(i + 1).drop_last() =~= blocks@.take(i as int));
        }
        if blocks[i].generation_id == w.generation_id && blocks[i].start == w.start {
            ids.push(blocks[i].id);
        }
        i += 1;
        assert(ids@ =~= blocks@.take(i as int).filter(holds).map_values(|b: BlockRow| b.id));
    }
    assert(blocks@.take(blocks@.len() as int) =~= blocks@);
    ids
}

/// Whether there is room for more blocks and points.
pub open spec fn has_room(l: Ledger, blocks: int, points: int) -> bool {
    &&& forall|i: int| 0 <= i < l.blocks@.len() ==> (#[trigger] l.blocks@[i]).id < i64::MAX - blocks
    &&& forall|i: int| 0 <= i < l.points@.len() ==> (#[trigger] l.points@[i]).id < i64::MAX - points
    &&& 0 <= blocks < i64::MAX - 1
    &&& 0 <= points < i64::MAX - 1
}

/// Whether there is room for more blocks and points.
pub fn room_for(db: &Ledger, blocks: i64, points: i64) -> (r: bool)
    ensures
        r == has_room(*db, blocks as int, points as int),
{
    if blocks < 0 || blocks >= i64::MAX - 1 || points < 0 || points >= i64::MAX - 1 {
        return false;
    }
    let mut i: usize = 0;
    while i < db.blocks.len()
        invariant
            i <= db.blocks@.len(),
            0 <= blocks < i64::MAX - 1,
            forall|k: int| 0 <= k < i ==> (#[trigger] db.blocks@[k]).id < i64::MAX - blocks,
        decreases db.blocks.len() - i,
    {
        if db.blocks[i].id >= i64::MAX - blocks {
            assert(db.blocks@[i as int].id >= i64::MAX - blocks);
            return false;
        }
        i += 1;
    }
    let mut j: usize = 0;
    while j < db.points.len()
        invariant
            j <= db.points@.len(),
            0 <= points < i64::MAX - 1,
            forall|k: int| 0 <= k < j ==> (#[trigger] db.points@[k]).id < i64::MAX - points,
        decreases db.points.len() - j,
    {
        if db.points[j].id >= i64::MAX - points {
            assert(db.points@[j as int].id >= i64::MAX - points);
            return false;
        }
        j += 1;
    }
    true
}

fn align_points(db: &Ledger, points: &Vec<PendingPoint>, m: &Vec<PointMeasure>) -> (r: Option<
    Vec<Provenance>,
>)
    requires
        db.wf(),
        db.edges@.len() < i64::MAX - 1,
        db.edges@.len() < usize::MAX - 1,
        points@.len() == m@.len(),
        forall|i: int|
            0 <= i < points@.len() ==> (#[trigger] points@[i]).packet < db.packets@.len()
                && points@[i].index < db.packets@[points@[i].packet as int].points@.len(),
    ensures
        r is Some <==> forall|i: int|
            0 <= i < m@.len() ==> routes::measures(
                *db,
                db.packets@[points@[i].packet as int],
                #[trigger] m@[i],
            ),
        r is Some ==> r->0@.len() == m@.len() && forall|i: int|
            0 <= i < m@.len() ==> routes::accounts_for(
                #[trigger] r->0@[i],
                *db,
                db.packets@[points@[i].packet as int],
                points@[i].index as int,
                m@[i],
            ),
{
    let mut out: Vec<Provenance> = Vec::new();
    let mut i: usize = 0;
    while i < m.len()
        invariant
            i <= m@.len(),
            db.wf(),
            db.edges@.len() < i64::MAX - 1,
            db.edges@.len() < usize::MAX - 1,
            points@.len() == m@.len(),
            forall|i: int|
                0 <= i < points@.len() ==> (#[trigger] points@[i]).packet < db.packets@.len()
                    && points@[i].index < db.packets@[points@[i].packet as int].points@.len(),
            out@.len() == i,
            forall|k: int|
                0 <= k < i ==> routes::measures(
                    *db,
                    db.packets@[points@[k].packet as int],
                    #[trigger] m@[k],
                ),
            forall|k: int|
                0 <= k < i ==> routes::accounts_for(
                    #[trigger] out@[k],
                    *db,
                    db.packets@[points@[k].packet as int],
                    points@[k].index as int,
                    m@[k],
                ),
        decreases m.len() - i,
    {
        assert(points@[i as int].packet < db.packets@.len());
        match routes::align_point(db, points[i], &m[i]) {
            None => {
                assert(!routes::measures(
                    *db,
                    db.packets@[points@[i as int].packet as int],
                    m@[i as int],
                ));
                return None;
            },
            Some(p) => {
                out.push(p);
            },
        }
        i += 1;
    }
    Some(out)
}

proof fn lemma_left_below(l: Ledger, ids: Seq<i64>, blocks: int, points: int)
    requires
        l.cache_wf(),
        has_room(l, blocks, points),
    ensures
        next_block_id(db::blocks_without(l.blocks@, ids)) <= i64::MAX - blocks,
        next_point_id(db::points_without(l.points@, ids)) <= i64::MAX - points,
        forall|i: int|
            0 <= i < db::blocks_without(l.blocks@, ids).len() ==> (#[trigger] db::blocks_without(
                l.blocks@,
                ids,
            )[i]).id < i64::MAX - blocks,
        forall|i: int|
            0 <= i < db::points_without(l.points@, ids).len() ==> (#[trigger] db::points_without(
                l.points@,
                ids,
            )[i]).id < i64::MAX - points,
{
    let b = db::blocks_without(l.blocks@, ids);
    let p = db::points_without(l.points@, ids);
    db::lemma_filter_keeps_order(
        l.blocks@,
        |x: BlockRow| !db::block_listed(ids, x),
        |x: BlockRow, y: BlockRow| x.id < y.id,
    );
    db::lemma_filter_keeps_order(
        l.points@,
        |x: PointRow| !db::point_listed(ids, x),
        |x: PointRow, y: PointRow| x.id < y.id,
    );
    assert forall|i: int| 0 <= i < b.len() implies (#[trigger] b[i]).id < i64::MAX - blocks by {
        assert(l.blocks@.contains(b[i]));
    }
    assert forall|i: int| 0 <= i < p.len() implies (#[trigger] p[i]).id < i64::MAX - points by {
        assert(l.points@.contains(p[i]));
    }
}

proof fn lemma_none_left_at(blocks: Seq<BlockRow>, w: Window)
    ensures
        forall|i: int|
            0 <= i < db::blocks_without(blocks, ids_at(blocks, w)).len() ==> !at_window(
                #[trigger] db::blocks_without(blocks, ids_at(blocks, w))[i],
                w,
            ),
{
    let ids = ids_at(blocks, w);
    let holds = |b: BlockRow| at_window(b, w);
    let found = blocks.filter(holds);
    let left = db::blocks_without(blocks, ids);
    let any = |a: BlockRow, b: BlockRow| true;
    db::lemma_filter_keeps_order(blocks, holds, any);
    db::lemma_filter_keeps_order(blocks, |b: BlockRow| !db::block_listed(ids, b), any);
    assert forall|i: int| 0 <= i < left.len() implies !at_window(#[trigger] left[i], w) by {
        let b = left[i];
        if at_window(b, w) {
            assert(blocks.contains(b));
            assert(holds(b));
            assert(found.contains(b));
            let k = choose|k: int| 0 <= k < found.len() && found[k] == b;
            assert(ids[k] == b.id);
        }
    }
}

/// The points to store, from what was aligned.
fn make_rows(
    db: &Ledger,
    points: &Vec<PendingPoint>,
    m: &Vec<PointMeasure>,
    provs: Vec<Provenance>,
    first_id: i64,
    block_id: i64,
) -> (r: (Vec<PointRow>, usize, usize))
    requires
        points@.len() == m@.len(),
        provs@.len() == m@.len(),
        m@.len() <= i64::MAX,
        first_id + m@.len() <= i64::MAX,
        forall|i: int|
            0 <= i < points@.len() ==> (#[trigger] points@[i]).packet < db.packets@.len()
                && points@[i].index < db.packets@[points@[i].packet as int].points@.len(),
        forall|i: int|
            0 <= i < m@.len() ==> routes::accounts_for(
                #[trigger] provs@[i],
                *db,
                db.packets@[points@[i].packet as int],
                points@[i].index as int,
                m@[i],
            ),
    ensures
        r.0@.len() == m@.len(),
        forall|i: int|
            0 <= i < m@.len() ==> is_point_row(
                #[trigger] r.0@[i],
                *db,
                points@[i],
                m@[i],
                first_id + i,
                block_id as int,
            ),
        r.1 == aligned_count(r.0@, 0, m@.len() as int, true),
        r.2 == aligned_count(r.0@, 0, m@.len() as int, false),
{
    let n: usize = m.len();
    let ghost all = provs@;
    let mut rest = provs;
    let mut back: Vec<Provenance> = Vec::new();
    while rest.len() > 0
        invariant
            n == all.len(),
            rest@.len() + back@.len() == n,
            rest@ == all.take(n - back@.len()),
            forall|k: int| 0 <= k < back@.len() ==> #[trigger] back@[k] == all[n - 1 - k],
        decreases rest@.len(),
    {
        let ghost before = rest@;
        match rest.pop() {
            Some(p) => {
                assert(before.last() == all[n - 1 - back@.len()]);
                back.push(p);
            },
            None => {},
        }
        assert(rest@ =~= all.take(n - back@.len()));
    }
    let mut out: Vec<PointRow> = Vec::new();
    let mut aligned: usize = 0;
    let mut unaligned: usize = 0;
    let mut i: usize = 0;
    while i < n
        invariant
            i <= n,
            n == m@.len(),
            n == all.len(),
            points@.len() == m@.len(),
            back@.len() == n - i,
            forall|k: int| 0 <= k < back@.len() ==> #[trigger] back@[k] == all[n - 1 - k],
            n <= i64::MAX,
            first_id + n <= i64::MAX,
            forall|i: int|
                0 <= i < points@.len() ==> (#[trigger] points@[i]).packet < db.packets@.len()
                    && points@[i].index < db.packets@[points@[i].packet as int].points@.len(),
            forall|i: int|
                0 <= i < m@.len() ==> routes::accounts_for(
                    #[trigger] all[i],
                    *db,
                    db.packets@[points@[i].packet as int],
                    points@[i].index as int,
                    m@[i],
                ),
            out@.len() == i,
            forall|k: int|
                0 <= k < i ==> is_point_row(
                    #[trigger] out@[k],
                    *db,
                    points@[k],
                    m@[k],
                    first_id + k,
                    block_id as int,
                ),
            aligned == aligned_count(out@, 0, i as int, true),
            unaligned == aligned_count(out@, 0, i as int, false),
            aligned <= i,
            unaligned <= i,
        decreases n - i,
    {
        assert(back@.last() == all[i as int]);
        match back.pop() {
            Some(provenance) => {
                let pp = points[i];
                assert(points@[i as int].packet < db.packets@.len());
                let p = &db.packets[pp.packet];
                let map_xyz = provenance.final_map_xyz;
                let is_aligned = map_xyz.is_some();
                let ghost before = out@;
                out.push(
                    PointRow {
                        id: first_id + i as i64,
                        packet_id: p.id,
                        block_id,
                        generation_id: p.generation_id,
                        point_index: pp.index,
                        t: p.continuous_time,
                        sensor_xyz: m[i].si_xyz,
                        map_xyz,
                        provenance,
                    },
                );
                proof {
                    lemma_count_extends(before, out@, 0, i as int, true);
                    lemma_count_extends(before, out@, 0, i as int, false);
                }
                if is_aligned {
                    aligned += 1;
                } else {
                    unaligned += 1;
                }
            },
            None => {},
        }
        i += 1;
    }
    (out, aligned, unaligned)
}

proof fn lemma_count_extends(a: Seq<PointRow>, b: Seq<PointRow>, from: int, n: int, aligned: bool)
    requires
        0 <= from,
        0 <= n,
        from + n <= a.len(),
        from + n <= b.len(),
        forall|i: int| from <= i < from + n ==> #[trigger] a[i] == b[i],
    ensures
        aligned_count(a, from, n, aligned) == aligned_count(b, from, n, aligned),
    decreases n,
{
    if n > 0 {
        lemma_count_extends(a, b, from, n - 1, aligned);
        assert(a[from + n - 1] == b[from + n - 1]);
    }
}

proof fn lemma_count_shifted(
    a: Seq<PointRow>,
    b: Seq<PointRow>,
    shift: int,
    n: int,
    aligned: bool,
)
    requires
        0 <= shift,
        0 <= n <= a.len(),
        shift + n <= b.len(),
        forall|i: int| 0 <= i < n ==> #[trigger] a[i] == b[shift + i],
    ensures
        aligned_count(a, 0, n, aligned) == aligned_count(b, shift, n, aligned),
    decreases n,
{
    if n > 0 {
        lemma_count_shifted(a, b, shift, n - 1, aligned);
        assert(a[n - 1] == b[shift + n - 1]);
    }
}

fn id_after_blocks(blocks: &Vec<BlockRow>) -> (r: i64)
    requires
        next_block_id(blocks@) <= i64::MAX,
    ensures
        r == next_block_id(blocks@),
{
    let n: usize = blocks.len();
    if n == 0 {
        1
    } else {
        blocks[n - 1].id + 1
    }
}

fn id_after_points(points: &Vec<PointRow>) -> (r: i64)
    requires
        next_point_id(points@) <= i64::MAX,
    ensures
        r == next_point_id(points@),
{
    let n: usize = points.len();
    if n == 0 {
        1
    } else {
        points[n - 1].id + 1
    }
}

proof fn lemma_built_keeps_order(
    l: Ledger,
    w: Window,
    signature: Seq<char>,
    m: Seq<PointMeasure>,
    now: Nanos,
    l2: Ledger,
)
    requires
        l.wf(),
        built(l, w, signature, m, now, l2),
    ensures
        l2.wf(),
        ({
            let left = db::blocks_without(l.blocks@, ids_at(l.blocks@, w));
            forall|i: int| 0 <= i < left.len() ==> #[trigger] l2.blocks@[i] == left[i]
        }),
        ({
            let left = db::points_without(l.points@, ids_at(l.blocks@, w));
            &&& forall|i: int| 0 <= i < left.len() ==> #[trigger] l2.points@[i] == left[i]
            &&& forall|i: int|
                left.len() <= i < l2.points@.len() ==> (#[trigger] l2.points@[i]).id
                    == next_point_id(left) + i - left.len()
        }),
{
    let ids = ids_at(l.blocks@, w);
    let bl = db::blocks_without(l.blocks@, ids);
    let pl = db::points_without(l.points@, ids);
    let n = pl.len() as int;
    lemma_none_left_at(l.blocks@, w);
    db::lemma_filter_keeps_order(
        l.blocks@,
        |x: BlockRow| !db::block_listed(ids, x),
        |a: BlockRow, b: BlockRow|
            a.id < b.id && !(a.generation_id == b.generation_id && a.start == b.start),
    );
    db::lemma_filter_keeps_order(
        l.points@,
        |x: PointRow| !db::point_listed(ids, x),
        |a: PointRow, b: PointRow| a.id < b.id,
    );
    let b2 = l2.blocks@;
    let p2 = l2.points@;
    assert forall|i: int| 0 <= i < bl.len() implies #[trigger] b2[i] == bl[i] by {
        assert(b2.drop_last()[i] == b2[i]);
    }
    assert forall|i: int| 0 <= i < n implies #[trigger] p2[i] == pl[i] by {
        assert(p2.take(n)[i] == p2[i]);
    }
    assert forall|i: int, j: int| #![trigger b2[i], b2[j]]
        0 <= i < j < b2.len() implies b2[i].id < b2[j].id && !(b2[i].generation_id
        == b2[j].generation_id && b2[i].start == b2[j].start) by {
        assert(b2[i] == bl[i]);
        if j < bl.len() {
            assert(b2[j] == bl[j]);
        } else {
            assert(!at_window(bl[i], w));
            assert(bl[i].id <= bl.last().id) by {
                if i < bl.len() - 1 {
                    assert(bl[i].id < bl[bl.len() - 1].id);
                }
            }
        }
    }
    assert forall|i: int| n <= i < p2.len() implies (#[trigger] p2[i]).id == next_point_id(pl) + i
        - n by {
        assert(p2[n + (i - n)] == p2[i]);
    }
    assert forall|i: int, j: int| #![trigger p2[i], p2[j]]
        0 <= i < j < p2.len() implies p2[i].id < p2[j].id by {
        if j < n {
            assert(p2[i] == pl[i] && p2[j] == pl[j]);
        } else if i < n {
            assert(p2[i] == pl[i]);
            assert(pl[i].id <= pl.last().id) by {
                if i < n - 1 {
                    assert(pl[i].id < pl[n - 1].id);
                }
            }
        }
    }
    db::lemma_links_stay(l.blocks@, l.points@, ids);
    assert forall|i: int| 0 <= i < p2.len() implies db::in_block(b2, #[trigger] p2[i]) by {
        if i < n {
            assert(p2[i] == pl[i]);
            assert(db::in_block(bl, pl[i]));
            let k = choose|k: int|
                0 <= k < bl.len() && (#[trigger] bl[k]).id == pl[i].block_id && bl[k].generation_id
                    == pl[i].generation_id;
            assert(b2[k] == bl[k]);
        } else {
            assert(p2[n + (i - n)] == p2[i]);
            lemma_pending_lies_in_window(l.packets@, w, i - n);
            assert(b2[bl.len() as int].id == p2[i].block_id);
        }
    }
}

proof fn lemma_built_is_wf(
    l: Ledger,
    w: Window,
    signature: Seq<char>,
    m: Seq<PointMeasure>,
    now: Nanos,
    l2: Ledger,
    blocks: int,
    points: int,
)
    requires
        l.wf(),
        built(l, w, signature, m, now, l2),
        has_room(l, blocks, points),
        blocks >= 1,
        m.len() == pending(l.packets@, w).len(),
        points >= m.len(),
    ensures
        l2.wf(),
        has_room(l2, blocks - 1, points - m.len()),
{
    let ids = ids_at(l.blocks@, w);
    let bl = db::blocks_without(l.blocks@, ids);
    let pl = db::points_without(l.points@, ids);
    lemma_left_below(l, ids, blocks, points);
    lemma_built_keeps_order(l, w, signature, m, now, l2);
    let b2 = l2.blocks@;
    let p2 = l2.points@;
    assert forall|i: int| 0 <= i < b2.len() implies (#[trigger] b2[i]).id < i64::MAX - (blocks
        - 1) by {
        if i < bl.len() {
            assert(b2[i] == bl[i]);
        }
    }
    assert forall|i: int| 0 <= i < p2.len() implies (#[trigger] p2[i]).id < i64::MAX - (points
        - m.len()) by {
        if i < pl.len() {
            assert(p2[i] == pl[i]);
        }
    }
}

/// Builds the block of a window, given the measures of its points. The block that was
/// there is replaced. Where the measures are not those of the points, nothing changes.
pub fn build_block(
    db: &mut Ledger,
    w: Window,
    signature: String,
    m: &Vec<PointMeasure>,
    now: Nanos,
) -> (r: Option<(usize, usize)>)
    requires
        old(db).wf(),
        old(db).edges@.len() < i64::MAX - 1,
        old(db).edges@.len() < usize::MAX - 1,
        has_room(*old(db), 1, m@.len() as int),
    ensures
        final(db).wf(),
        r is Some <==> measured(*old(db), w, m@),
        r is None ==> *final(db) == *old(db),
        r matches Some(counts) ==> {
            &&& built(*old(db), w, signature@, m@, now, *final(db))
            &&& counts.0 == new_points(*old(db), w, *final(db), true)
            &&& counts.1 == new_points(*old(db), w, *final(db), false)
        },
{
    let ghost before = *db;
    let points = pending_points(db, w);
    if points.len() != m.len() {
        return None;
    }
    let provs = match align_points(db, &points, m) {
        None => {
            assert(!measured(before, w, m@)) by {
                let i = choose|i: int|
                    0 <= i < m@.len() && !routes::measures(
                        before,
                        before.packets@[points@[i].packet as int],
                        #[trigger] m@[i],
                    );
                assert(!routes::measures(
                    before,
                    before.packets@[pending(before.packets@, w)[i].packet as int],
                    m@[i],
                ));
            }
            return None;
        },
        Some(p) => p,
    };
    let ids = block_ids_at(&db.blocks, w);
    db.drop_blocks(&ids);
    proof {
        lemma_left_below(before, ids@, 1, m@.len() as int);
    }
    let block_id: i64 = id_after_blocks(&db.blocks);
    let first_id: i64 = id_after_points(&db.points);
    let (rows_new, aligned, unaligned) = make_rows(db, &points, m, provs, first_id, block_id);
    let ghost left_blocks = db.blocks@;
    let ghost left_points = db.points@;
    let ghost more = rows_new@;
    db.blocks.push(
        BlockRow {
            id: block_id,
            generation_id: w.generation_id,
            start: w.start,
            end: w.end,
            status: BlockStatus::Complete,
            signature,
            built_at: Some(now),
        },
    );
    assert(db.blocks@.drop_last() =~= left_blocks);
    let mut rows_left = rows_new;
    db.points.append(&mut rows_left);
    assert(db.points@ =~= left_points + more);
    assert(db.points@.take(left_points.len() as int) =~= left_points);
    proof {
        let n = left_points.len() as int;
        assert forall|i: int| 0 <= i < points@.len() implies is_point_row(
            #[trigger] db.points@[n + i],
            before,
            points@[i],
            m@[i],
            next_point_id(left_points) + i,
            block_id as int,
        ) by {
            assert(db.points@[n + i] == more[i]);
            lemma_row_of_same_facts(
                more[i],
                *db,
                before,
                points@[i],
                m@[i],
                first_id + i,
                block_id as int,
            );
        }
        lemma_count_shifted(more, db.points@, n, m@.len() as int, true);
        lemma_count_shifted(more, db.points@, n, m@.len() as int, false);
        assert(built(before, w, signature@, m@, now, *db));
        lemma_built_is_wf(before, w, signature@, m@, now, *db, 1, m@.len() as int);
    }
    Some((aligned, unaligned))
}

proof fn lemma_row_of_same_facts(
    row: PointRow,
    a: Ledger,
    b: Ledger,
    pp: PendingPoint,
    m: PointMeasure,
    id: int,
    block_id: int,
)
    requires
        a.same_facts(b),
        is_point_row(row, a, pp, m, id, block_id),
    ensures
        is_point_row(row, b, pp, m, id, block_id),
{
}

// ---- all blocks -------------------------------------------------------------------------

/// What a build has done.
#[derive(Clone, Copy, Debug)]
pub struct BuildReport {
    pub blocks_complete: usize,
    pub blocks_rebuilt: usize,
    pub blocks_skipped: usize,
    pub points_aligned: u128,
    pub points_unaligned: u128,
}

/// Whether a window has a finished block whose inputs have not changed since.
pub open spec fn up_to_date(l: Ledger, w: Window) -> bool {
    exists|i: int| #![trigger l.blocks@[i]]
        0 <= i < l.blocks@.len() && at_window(l.blocks@[i], w) && l.blocks@[i].status is Complete
            && l.blocks@[i].signature@ == blocks::signature_of(l, w)
}

/// Whether a window has a block at all.
pub open spec fn has_block(l: Ledger, w: Window) -> bool {
    exists|i: int| 0 <= i < l.blocks@.len() && at_window(#[trigger] l.blocks@[i], w)
}

/// Whether a point is one of a window's block, aligned or not.
pub open spec fn counted_at(l: Ledger, w: Window, aligned: bool) -> spec_fn(int) -> bool {
    |i: int|
        l.points@[i].generation_id == w.generation_id && (l.points@[i].map_xyz is Some) == aligned
            && starts_at(l.blocks@, l.points@[i].block_id, w.start as int)
}

/// Whether a block with an id starts at a time.
pub open spec fn starts_at(blocks: Seq<BlockRow>, id: i64, start: int) -> bool {
    exists|k: int| 0 <= k < blocks.len() && (#[trigger] blocks[k]).id == id && blocks[k].start == start
}

/// How many points a window's block has, aligned or not.
pub open spec fn point_count(l: Ledger, w: Window, aligned: bool) -> int {
    rows::count_where(l.points@.len() as int, counted_at(l, w, aligned))
}

/// Whether a build of one window leads from one state of affairs to another: a block
/// that is up to date is kept and counted, any other is built.
pub open spec fn stepped(
    l: Ledger,
    rep: BuildReport,
    w: Window,
    m: Seq<PointMeasure>,
    now: Nanos,
    l2: Ledger,
    rep2: BuildReport,
) -> bool {
    if up_to_date(l, w) {
        &&& l2 == l
        &&& rep2.blocks_complete == rep.blocks_complete
        &&& rep2.blocks_rebuilt == rep.blocks_rebuilt
        &&& rep2.blocks_skipped == rep.blocks_skipped + 1
        &&& rep2.points_aligned == rep.points_aligned + point_count(l, w, true)
        &&& rep2.points_unaligned == rep.points_unaligned + point_count(l, w, false)
    } else {
        &&& measured(l, w, m)
        &&& built(l, w, blocks::signature_of(l, w), m, now, l2)
        &&& rep2.blocks_complete == rep.blocks_complete + 1
        &&& rep2.blocks_rebuilt == rep.blocks_rebuilt + if has_block(l, w) { 1int } else { 0 }
        &&& rep2.blocks_skipped == rep.blocks_skipped
        &&& rep2.points_aligned == rep.points_aligned + new_points(l, w, l2, true)
        &&& rep2.points_unaligned == rep.points_unaligned + new_points(l, w, l2, false)
    }
}

/// Whether building the first `n` windows in turn leads from one state of affairs to
/// another, using the first `used` lists of measures.
pub open spec fn build_run(
    l: Ledger,
    rep: BuildReport,
    ws: Seq<Window>,
    ms: Seq<Vec<PointMeasure>>,
    now: Nanos,
    n: int,
    used: int,
    l2: Ledger,
    rep2: BuildReport,
) -> bool
    decreases n,
{
    if n <= 0 {
        l2 == l && rep2 == rep && used == 0
    } else {
        exists|l1: Ledger, rep1: BuildReport, used1: int|
            build_run(l, rep, ws, ms, now, n - 1, used1, l1, rep1) && #[trigger] stepped(
                l1,
                rep1,
                ws[n - 1],
                ms[used1]@,
                now,
                l2,
                rep2,
            ) && used == used1 + if up_to_date(l1, ws[n - 1]) { 0int } else { 1 } && used
                <= ms.len()
    }
}

/// A report that counts nothing yet.
pub open spec fn nothing_built() -> BuildReport {
    BuildReport {
        blocks_complete: 0,
        blocks_rebuilt: 0,
        blocks_skipped: 0,
        points_aligned: 0,
        points_unaligned: 0,
    }
}

/// How many measures there are in the first `n` lists.
pub open spec fn measure_total(ms: Seq<Vec<PointMeasure>>, n: int) -> int
    decreases n,
{
    if n <= 0 {
        0
    } else {
        measure_total(ms, n - 1) + ms[n - 1]@.len()
    }
}

proof fn lemma_measure_total(ms: Seq<Vec<PointMeasure>>, a: int, b: int)
    requires
        0 <= a <= b <= ms.len(),
    ensures
        0 <= measure_total(ms, a) <= measure_total(ms, b),
        a < b ==> measure_total(ms, a) + ms[a]@.len() <= measure_total(ms, b),
    decreases b,
{
    if a < b {
        lemma_measure_total(ms, a, b - 1);
    } else if a > 0 {
        lemma_measure_total(ms, a - 1, a - 1);
    }
}

proof fn lemma_windows_from(gid: i64, start: int, last: int, i: int)
    requires
        0 <= i < blocks::windows_from(gid, start, last).len(),
        -time::SPAN_LIMIT - blocks::BLOCK <= start,
        last <= time::SPAN_LIMIT,
    ensures
        ({
            let w = blocks::windows_from(gid, start, last)[i];
            &&& w.generation_id == gid
            &&& start <= w.start <= last
            &&& w.end == w.start + blocks::BLOCK
            &&& blocks::window_in_range(w)
        }),
    decreases last - start + blocks::BLOCK,
{
    if start <= last && i > 0 {
        lemma_windows_from(gid, start + blocks::BLOCK, last, i - 1);
    }
}

proof fn lemma_windows_among(l: Ledger, n: int, i: int)
    requires
        l.wf(),
        0 <= n <= l.generations@.len(),
        0 <= i < blocks::windows_among(l, n).len(),
    ensures
        ({
            let w = blocks::windows_among(l, n)[i];
            w.end == w.start + blocks::BLOCK && blocks::window_in_range(w)
        }),
    decreases n,
{
    if n > 0 {
        let before = blocks::windows_among(l, n - 1);
        let gid = l.generations@[n - 1].id;
        let more = blocks::windows_of(l.packets@, gid);
        if i < before.len() {
            lemma_windows_among(l, n - 1, i);
        } else {
            let k = l.packets@.len() as int;
            lemma_times_in_range(l, gid as int, k);
            let a = blocks::first_time(l.packets@, gid as int, k);
            let b = blocks::last_time(l.packets@, gid as int, k);
            assert(more[i - before.len()] == blocks::windows_among(l, n)[i]);
            assert(a is Some && b is Some);
            lemma_windows_from(gid, blocks::window_start(a->0), b->0, i - before.len());
        }
    }
}

proof fn lemma_times_in_range(l: Ledger, gid: int, n: int)
    requires
        l.wf(),
        0 <= n <= l.packets@.len(),
    ensures
        blocks::first_time(l.packets@, gid, n) is Some ==> time::is_span(
            blocks::first_time(l.packets@, gid, n)->0,
        ),
        blocks::last_time(l.packets@, gid, n) is Some ==> time::is_span(
            blocks::last_time(l.packets@, gid, n)->0,
        ),
    decreases n,
{
    if n > 0 {
        lemma_times_in_range(l, gid, n - 1);
        assert(time::is_span(l.packets@[n - 1].continuous_time as int));
    }
}

fn find_block(db: &Ledger, w: Window) -> (r: Option<usize>)
    ensures
        match r {
            Some(i) => i < db.blocks@.len() && at_window(db.blocks@[i as int], w),
            None => !has_block(*db, w),
        },
{
    let mut i: usize = 0;
    while i < db.blocks.len()
        invariant
            i <= db.blocks@.len(),
            forall|k: int| 0 <= k < i ==> !at_window(#[trigger] db.blocks@[k], w),
        decreases db.blocks.len() - i,
    {
        if db.blocks[i].generation_id == w.generation_id && db.blocks[i].start == w.start {
            return Some(i);
        }
        i += 1;
    }
    None
}

fn has_start(blocks: &Vec<BlockRow>, id: i64, start: Nanos) -> (r: bool)
    ensures
        r == starts_at(blocks@, id, start as int),
{
    let mut i: usize = 0;
    while i < blocks.len()
        invariant
            i <= blocks@.len(),
            forall|k: int|
                0 <= k < i ==> !((#[trigger] blocks@[k]).id == id && blocks@[k].start == start),
        decreases blocks.len() - i,
    {
        if blocks[i].id == id && blocks[i].start == start {
            assert(blocks@[i as int].id == id);
            return true;
        }
        i += 1;
    }
    false
}

/// Counts the points of a window's block, aligned ones and others.
pub fn block_point_counts(db: &Ledger, w: Window) -> (r: (usize, usize))
    ensures
        r.0 == point_count(*db, w, true),
        r.1 == point_count(*db, w, false),
{
    let ghost yes = counted_at(*db, w, true);
    let ghost no = counted_at(*db, w, false);
    let mut a: usize = 0;
    let mut u: usize = 0;
    let mut i: usize = 0;
    while i < db.points.len()
        invariant
            i <= db.points@.len(),
            yes == counted_at(*db, w, true),
            no == counted_at(*db, w, false),
            a == rows::count_where(i as int, yes),
            u == rows::count_where(i as int, no),
            a <= i,
            u <= i,
        decreases db.points.len() - i,
    {
        let p = &db.points[i];
        if p.generation_id == w.generation_id && has_start(&db.blocks, p.block_id, w.start) {
            if p.map_xyz.is_some() {
                assert(yes(i as int) && !no(i as int));
                a += 1;
            } else {
                assert(!yes(i as int) && no(i as int));
                u += 1;
            }
        } else {
            assert(!yes(i as int) && !no(i as int));
        }
        i += 1;
    }
    (a, u)
}

proof fn lemma_unique_block(l: Ledger, w: Window, i: int)
    requires
        l.cache_wf(),
        0 <= i < l.blocks@.len(),
        at_window(l.blocks@[i], w),
    ensures
        up_to_date(l, w) == (l.blocks@[i].status is Complete && l.blocks@[i].signature@
            == blocks::signature_of(l, w)),
{
    if up_to_date(l, w) {
        let k = choose|k: int| #![trigger l.blocks@[k]]
            0 <= k < l.blocks@.len() && at_window(l.blocks@[k], w)
                && l.blocks@[k].status is Complete && l.blocks@[k].signature@
                == blocks::signature_of(l, w);
        if k < i {
            assert(l.blocks@[k].id < l.blocks@[i].id);
        }
        if i < k {
            assert(l.blocks@[i].id < l.blocks@[k].id);
        }
    }
}

/// Whether `l2` is `l` after recovery.
pub open spec fn recovered(l: Ledger, l2: Ledger) -> bool {
    &&& l2.blocks@ == db::blocks_without(l.blocks@, l.pending_ids())
    &&& l2.points@ == db::points_without(l.points@, l.pending_ids())
    &&& l2.same_facts(l)
}

/// Whether a whole build leads from one ledger to another: half blocks are dropped, then
/// every window is seen to in turn.
pub open spec fn built_all(
    l: Ledger,
    ms: Seq<Vec<PointMeasure>>,
    now: Nanos,
    l2: Ledger,
    rep: BuildReport,
) -> bool {
    let ws = blocks::all_windows(l);
    exists|l0: Ledger, used: int|
        recovered(l, l0) && #[trigger] build_run(
            l0,
            nothing_built(),
            ws,
            ms,
            now,
            ws.len() as int,
            used,
            l2,
            rep,
        )
}

/// Whether a build comes to a stop: at some window that is not up to date the measures
/// have run out or are not those of its points, and the windows before it are done.
pub open spec fn stopped(l: Ledger, ms: Seq<Vec<PointMeasure>>, now: Nanos, l2: Ledger) -> bool {
    let ws = blocks::all_windows(l);
    exists|l0: Ledger, n: int, used: int, rep: BuildReport|
        recovered(l, l0) && 0 <= n < ws.len() && #[trigger] build_run(
            l0,
            nothing_built(),
            ws,
            ms,
            now,
            n,
            used,
            l2,
            rep,
        ) && !up_to_date(l2, ws[n]) && (used >= ms.len() || !measured(l2, ws[n], ms[used]@))
}

/// Builds every block that is not up to date, in the order of generations and time,
/// given the measures of the points of each. Half blocks are dropped first. The build
/// stops with nothing where the measures of the next block are not those of its points;
/// the blocks before it stay finished.
pub fn build_all(db: &mut Ledger, ms: &Vec<Vec<PointMeasure>>, now: Nanos) -> (r: Option<
    BuildReport,
>)
    requires
        old(db).wf(),
        old(db).edges@.len() < i64::MAX - 1,
        old(db).edges@.len() < usize::MAX - 1,
        has_room(
            *old(db),
            blocks::all_windows(*old(db)).len() as int,
            measure_total(ms@, ms@.len() as int),
        ),
    ensures
        final(db).wf(),
        final(db).same_facts(*old(db)),
        r matches Some(rep) ==> built_all(*old(db), ms@, now, *final(db), rep),
        r is None ==> stopped(*old(db), ms@, now, *final(db)),
{
    let ghost start = *db;
    let ghost total = measure_total(ms@, ms@.len() as int);
    let ws = blocks::list_windows(db);
    let ghost wv = blocks::all_windows(start);
    let _none: usize = db::recover_pending(db);
    let ghost l0 = *db;
    proof {
        lemma_left_below(
            start,
            start.pending_ids(),
            wv.len() as int,
            total,
        );
    }
    let mut report = BuildReport {
        blocks_complete: 0,
        blocks_rebuilt: 0,
        blocks_skipped: 0,
        points_aligned: 0,
        points_unaligned: 0,
    };
    let mut used: usize = 0;
    let mut i: usize = 0;
    while i < ws.len()
        invariant
            i <= ws@.len(),
            ws@ == wv,
            wv == blocks::all_windows(start),
            start == *old(db),
            recovered(start, l0),
            start.wf(),
            db.wf(),
            db.same_facts(start),
            start.edges@.len() < i64::MAX - 1,
            start.edges@.len() < usize::MAX - 1,
            total == measure_total(ms@, ms@.len() as int),
            used <= ms@.len(),
            used <= i,
            has_room(*db, wv.len() - i, total - measure_total(ms@, used as int)),
            report.blocks_complete <= i,
            report.blocks_rebuilt <= i,
            report.blocks_skipped <= i,
            report.points_aligned <= i * usize::MAX,
            report.points_unaligned <= i * usize::MAX,
            build_run(
                l0,
                nothing_built(),
                wv,
                ms@,
                now,
                i as int,
                used as int,
                *db,
                report,
            ),
        decreases ws.len() - i,
    {
        let w = ws[i];
        let ghost l1 = *db;
        let ghost rep1 = report;
        let ghost used1 = used as int;
        proof {
            lemma_windows_among(start, start.generations@.len() as int, i as int);
            blocks::law_signature_depends_on_facts_alone(*db, start, w);
            assert(i + 1 <= 0xffff_ffff_ffff_ffff && usize::MAX <= 0xffff_ffff_ffff_ffff);
            assert((i + 1) * usize::MAX <= 0xffff_ffff_ffff_ffff * 0xffff_ffff_ffff_ffff)
                by (nonlinear_arith)
                requires
                    0 <= i,
                    i + 1 <= 0xffff_ffff_ffff_ffff,
                    usize::MAX <= 0xffff_ffff_ffff_ffff,
            ;
            assert((i + 1) * usize::MAX == i * usize::MAX + usize::MAX) by (nonlinear_arith);
        }
        let signature = blocks::block_signature(db, w);
        let existing = find_block(db, w);
        let fresh = match existing {
            Some(k) => {
                proof {
                    lemma_unique_block(*db, w, k as int);
                }
                db.blocks[k].status == BlockStatus::Complete && text::same(
                    db.blocks[k].signature.as_str(),
                    signature.as_str(),
                )
            },
            None => false,
        };
        assert(fresh == up_to_date(*db, w));
        if fresh {
            let (a, u) = block_point_counts(db, w);
            report.blocks_skipped = report.blocks_skipped + 1;
            report.points_aligned = report.points_aligned + a as u128;
            report.points_unaligned = report.points_unaligned + u as u128;
            assert(stepped(l1, rep1, wv[i as int], ms@[used1]@, now, *db, report));
        } else {
            if used >= ms.len() {
                return None;
            }
            proof {
                lemma_measure_total(ms@, used as int, ms@.len() as int);
                lemma_measure_total(ms@, used as int + 1, ms@.len() as int);
                lemma_room_for(
                    *db,
                    wv.len() - i,
                    total - measure_total(ms@, used as int),
                    1,
                    ms@[used as int]@.len() as int,
                );
            }
            match build_block(db, w, signature, &ms[used], now) {
                None => {
                    return None;
                },
                Some((a, u)) => {
                    proof {
                        lemma_built_is_wf(
                            l1,
                            w,
                            blocks::signature_of(l1, w),
                            ms@[used as int]@,
                            now,
                            *db,
                            wv.len() - i,
                            total - measure_total(ms@, used as int),
                        );
                    }
                    if existing.is_some() {
                        report.blocks_rebuilt = report.blocks_rebuilt + 1;
                    }
                    report.blocks_complete = report.blocks_complete + 1;
                    report.points_aligned = report.points_aligned + a as u128;
                    report.points_unaligned = report.points_unaligned + u as u128;
                    used = used + 1;
                    assert(stepped(l1, rep1, wv[i as int], ms@[used1]@, now, *db, report));
                },
            }
        }
        i += 1;
        assert(build_run(
            l0,
            nothing_built(),
            wv,
            ms@,
            now,
            i as int,
            used as int,
            *db,
            report,
        )) by {
            assert(build_run(l0, nothing_built(), wv, ms@, now, i - 1, used1, l1, rep1));
            assert(stepped(l1, rep1, wv[i - 1], ms@[used1]@, now, *db, report));
        }
    }
    Some(report)
}

proof fn lemma_room_for(l: Ledger, blocks: int, points: int, b: int, p: int)
    requires
        has_room(l, blocks, points),
        0 <= b <= blocks,
        0 <= p <= points,
    ensures
        has_room(l, b, p),
{
}

// ---- what builds keep to ----------------------------------------------------------------

/// Whether every block is finished.
pub open spec fn all_complete(l: Ledger) -> bool {
    forall|i: int| 0 <= i < l.blocks@.len() ==> (#[trigger] l.blocks@[i]).status is Complete
}

proof fn lemma_step(
    l: Ledger,
    rep: BuildReport,
    w: Window,
    m: Seq<PointMeasure>,
    now: Nanos,
    l2: Ledger,
    rep2: BuildReport,
)
    requires
        l.wf(),
        stepped(l, rep, w, m, now, l2, rep2),
        w.end == w.start + blocks::BLOCK,
    ensures
        l2.wf(),
        l2.same_facts(l),
        up_to_date(l2, w),
        all_complete(l) ==> all_complete(l2),
        forall|v: Window|
            v.end == v.start + blocks::BLOCK && #[trigger] up_to_date(l, v) ==> up_to_date(l2, v),
{
    if !up_to_date(l, w) {
        lemma_built_keeps_order(l, w, blocks::signature_of(l, w), m, now, l2);
        let ids = ids_at(l.blocks@, w);
        let left = db::blocks_without(l.blocks@, ids);
        let holds = |b: BlockRow| at_window(b, w);
        let found = l.blocks@.filter(holds);
        let any = |a: BlockRow, b: BlockRow| true;
        db::lemma_filter_keeps_order(l.blocks@, holds, any);
        db::lemma_filter_keeps_order(l.blocks@, |b: BlockRow| !db::block_listed(ids, b), any);
        blocks::law_signature_depends_on_facts_alone(l2, l, w);
        let last = l2.blocks@.len() - 1;
        assert(at_window(l2.blocks@[last], w));
        assert(up_to_date(l2, w));
        assert forall|v: Window|
            v.end == v.start + blocks::BLOCK && #[trigger] up_to_date(l, v) implies up_to_date(
            l2,
            v,
        ) by {
            if v.generation_id == w.generation_id && v.start == w.start {
                assert(v == w);
            } else {
                blocks::law_signature_depends_on_facts_alone(l2, l, v);
                let i = choose|i: int| #![trigger l.blocks@[i]]
                    0 <= i < l.blocks@.len() && at_window(l.blocks@[i], v)
                        && l.blocks@[i].status is Complete && l.blocks@[i].signature@
                        == blocks::signature_of(l, v);
                let b = l.blocks@[i];
                assert(l.blocks@.contains(b));
                if db::block_listed(ids, b) {
                    let k = choose|k: int| 0 <= k < ids.len() && ids[k] == b.id;
                    let other = found[k];
                    assert(holds(other));
                    let y = choose|y: int| 0 <= y < l.blocks@.len() && l.blocks@[y] == other;
                    assert(y == i);
                }
                assert(left.contains(b));
                let j = choose|j: int| 0 <= j < left.len() && left[j] == b;
                assert(l2.blocks@[j] == left[j]);
            }
        }
        if all_complete(l) {
            assert forall|i: int| 0 <= i < l2.blocks@.len() implies (
            #[trigger] l2.blocks@[i]).status is Complete by {
                if i < left.len() {
                    assert(l2.blocks@[i] == left[i]);
                    assert(l.blocks@.contains(left[i]));
                }
            }
        }
    }
}

proof fn lemma_run(
    l: Ledger,
    rep: BuildReport,
    ws: Seq<Window>,
    ms: Seq<Vec<PointMeasure>>,
    now: Nanos,
    n: int,
    used: int,
    l2: Ledger,
    rep2: BuildReport,
)
    requires
        l.wf(),
        0 <= n <= ws.len(),
        build_run(l, rep, ws, ms, now, n, used, l2, rep2),
        forall|k: int| 0 <= k < ws.len() ==> (#[trigger] ws[k]).end == ws[k].start + blocks::BLOCK,
    ensures
        l2.wf(),
        l2.same_facts(l),
        all_complete(l) ==> all_complete(l2),
        forall|k: int| 0 <= k < n ==> up_to_date(l2, #[trigger] ws[k]),
        (forall|k: int| 0 <= k < n ==> up_to_date(l, #[trigger] ws[k])) ==> {
            &&& l2 == l
            &&& used == 0
            &&& rep2.blocks_complete == rep.blocks_complete
            &&& rep2.blocks_rebuilt == rep.blocks_rebuilt
            &&& rep2.blocks_skipped == rep.blocks_skipped + n
        },
    decreases n,
{
    if n > 0 {
        let (l1, rep1, used1) = choose|l1: Ledger, rep1: BuildReport, used1: int|
            build_run(l, rep, ws, ms, now, n - 1, used1, l1, rep1) && #[trigger] stepped(
                l1,
                rep1,
                ws[n - 1],
                ms[used1]@,
                now,
                l2,
                rep2,
            ) && used == used1 + if up_to_date(l1, ws[n - 1]) { 0int } else { 1 } && used
                <= ms.len();
        lemma_run(l, rep, ws, ms, now, n - 1, used1, l1, rep1);
        lemma_step(l1, rep1, ws[n - 1], ms[used1]@, now, l2, rep2);
    }
}

proof fn lemma_all_windows(l: Ledger)
    requires
        l.wf(),
    ensures
        forall|k: int|
            0 <= k < blocks::all_windows(l).len() ==> (#[trigger] blocks::all_windows(l)[k]).end
                == blocks::all_windows(l)[k].start + blocks::BLOCK,
{
    assert forall|k: int| 0 <= k < blocks::all_windows(l).len() implies (
    #[trigger] blocks::all_windows(l)[k]).end == blocks::all_windows(l)[k].start
        + blocks::BLOCK by {
        lemma_windows_among(l, l.generations@.len() as int, k);
    }
}

proof fn lemma_recovered(l: Ledger, l0: Ledger)
    requires
        l.wf(),
        recovered(l, l0),
    ensures
        l0.wf(),
        all_complete(l0),
        all_complete(l) ==> l0.blocks@ == l.blocks@ && l0.points@ == l.points@,
{
    let ids = l.pending_ids();
    db::lemma_cache_filtered(
        l,
        l0,
        |b: BlockRow| !db::block_listed(ids, b),
        |p: PointRow| !db::point_listed(ids, p),
    );
    db::lemma_links_stay(l.blocks@, l.points@, ids);
    db::law_recovery_leaves_finished_blocks_only(l, l0);
    if all_complete(l) {
        db::lemma_nothing_to_recover(l);
    }
}

/// How many points the blocks of the first `n` windows have, aligned or not.
spec fn point_total(l: Ledger, ws: Seq<Window>, n: int, aligned: bool) -> int
    decreases n,
{
    if n <= 0 {
        0
    } else {
        point_total(l, ws, n - 1, aligned) + point_count(l, ws[n - 1], aligned)
    }
}

/// Whether a point is in the block of a window.
spec fn belongs(blocks: Seq<BlockRow>, w: Window, p: PointRow) -> bool {
    exists|k: int|
        0 <= k < blocks.len() && (#[trigger] blocks[k]).id == p.block_id && at_window(blocks[k], w)
}

proof fn lemma_one_with_id(l: Ledger, j: int, k: int)
    requires
        l.wf(),
        0 <= j < l.blocks@.len(),
        0 <= k < l.blocks@.len(),
        l.blocks@[j].id == l.blocks@[k].id,
    ensures
        j == k,
{
    if j < k {
        assert(l.blocks@[j].id < l.blocks@[k].id);
    }
    if k < j {
        assert(l.blocks@[k].id < l.blocks@[j].id);
    }
}

/// The points counted for a window are those in its block.
proof fn lemma_counted(l: Ledger, w: Window, i: int, aligned: bool)
    requires
        l.wf(),
        0 <= i < l.points@.len(),
    ensures
        counted_at(l, w, aligned)(i) == ((l.points@[i].map_xyz is Some) == aligned && belongs(
            l.blocks@,
            w,
            l.points@[i],
        )),
{
    let p = l.points@[i];
    let blocks = l.blocks@;
    assert(db::in_block(blocks, p));
    let m = choose|m: int|
        0 <= m < blocks.len() && (#[trigger] blocks[m]).id == p.block_id && blocks[m].generation_id
            == p.generation_id;
    if p.generation_id == w.generation_id && starts_at(blocks, p.block_id, w.start as int) {
        let j = choose|j: int|
            0 <= j < blocks.len() && (#[trigger] blocks[j]).id == p.block_id && blocks[j].start
                == w.start;
        lemma_one_with_id(l, j, m);
    }
    if belongs(blocks, w, p) {
        let j = choose|j: int|
            0 <= j < blocks.len() && (#[trigger] blocks[j]).id == p.block_id && at_window(
                blocks[j],
                w,
            );
        lemma_one_with_id(l, j, m);
    }
}

proof fn lemma_count_of_filtered(
    s: Seq<PointRow>,
    keep: spec_fn(PointRow) -> bool,
    f: spec_fn(PointRow) -> bool,
)
    requires
        forall|i: int| 0 <= i < s.len() && f(#[trigger] s[i]) ==> keep(s[i]),
    ensures
        rows::count_where(s.len() as int, |i: int| f(s[i])) == rows::count_where(
            s.filter(keep).len() as int,
            |i: int| f(s.filter(keep)[i]),
        ),
    decreases s.len(),
{
    reveal(Seq::filter);
    if s.len() > 0 {
        let d = s.drop_last();
        let n = d.len() as int;
        let g = d.filter(keep);
        let h = s.filter(keep);
        lemma_count_of_filtered(d, keep, f);
        rows::lemma_same_rows(n, |i: int| f(s[i]), |i: int| f(d[i]));
        rows::lemma_same_rows(g.len() as int, |i: int| f(h[i]), |i: int| f(g[i]));
        if keep(s.last()) {
            assert(h == g.push(s.last()));
            assert(h[g.len() as int] == s[n]);
        } else {
            assert(!f(s[n]));
        }
    }
}

/// The rows from `from` on that are counted are those with the right alignment, where
/// nothing before is counted.
proof fn lemma_count_of_new(
    points: Seq<PointRow>,
    from: int,
    n: int,
    aligned: bool,
    f: spec_fn(int) -> bool,
)
    requires
        0 <= from,
        0 <= n,
        forall|i: int| 0 <= i < from ==> !#[trigger] f(i),
        forall|i: int|
            from <= i < from + n ==> #[trigger] f(i) == ((points[i].map_xyz is Some) == aligned),
    ensures
        rows::count_where(from + n, f) == aligned_count(points, from, n, aligned),
    decreases from, n,
{
    if n > 0 {
        lemma_count_of_new(points, from, n - 1, aligned, f);
        assert(f(from + n - 1) == ((points[from + n - 1].map_xyz is Some) == aligned));
    } else if from > 0 {
        lemma_count_of_new(points, from - 1, 0, aligned, f);
        assert(!f(from - 1));
    }
}

proof fn lemma_count_of_first(n: int, m: int, f: spec_fn(int) -> bool)
    requires
        0 <= n <= m,
        forall|i: int| n <= i < m ==> !#[trigger] f(i),
    ensures
        rows::count_where(m, f) == rows::count_where(n, f),
    decreases m,
{
    if n < m {
        lemma_count_of_first(n, m - 1, f);
        assert(!f(m - 1));
    }
}

/// After a window's block was built, its points are the new ones.
proof fn lemma_points_of_built(
    l: Ledger,
    w: Window,
    signature: Seq<char>,
    m: Seq<PointMeasure>,
    now: Nanos,
    l2: Ledger,
    aligned: bool,
)
    requires
        l.wf(),
        built(l, w, signature, m, now, l2),
    ensures
        point_count(l2, w, aligned) == new_points(l, w, l2, aligned),
{
    let ids = ids_at(l.blocks@, w);
    let bl = db::blocks_without(l.blocks@, ids);
    let pl = db::points_without(l.points@, ids);
    let n = pl.len() as int;
    let count = pending(l.packets@, w).len() as int;
    let f = counted_at(l2, w, aligned);
    lemma_built_keeps_order(l, w, signature, m, now, l2);
    lemma_none_left_at(l.blocks@, w);
    db::lemma_links_stay(l.blocks@, l.points@, ids);
    let last = bl.len() as int;
    assert forall|i: int| 0 <= i < n implies !#[trigger] f(i) by {
        lemma_counted(l2, w, i, aligned);
        assert(l2.points@[i] == pl[i]);
        assert(db::in_block(bl, pl[i]));
        let k = choose|k: int|
            0 <= k < bl.len() && (#[trigger] bl[k]).id == pl[i].block_id && bl[k].generation_id
                == pl[i].generation_id;
        assert(l2.blocks@[k] == bl[k]);
        if belongs(l2.blocks@, w, pl[i]) {
            let j = choose|j: int|
                0 <= j < l2.blocks@.len() && (#[trigger] l2.blocks@[j]).id == pl[i].block_id
                    && at_window(l2.blocks@[j], w);
            lemma_one_with_id(l2, j, k);
            assert(!at_window(bl[k], w));
        }
    }
    assert forall|i: int| n <= i < n + count implies #[trigger] f(i) == ((
    l2.points@[i].map_xyz is Some) == aligned) by {
        lemma_counted(l2, w, i, aligned);
        assert(l2.points@[n + (i - n)] == l2.points@[i]);
        assert(l2.blocks@[last].id == l2.points@[i].block_id);
        assert(at_window(l2.blocks@[last], w));
    }
    lemma_count_of_new(l2.points@, n, count, aligned, f);
}

/// Building a window's block leaves the points of every other window as they were.
proof fn lemma_points_elsewhere(
    l: Ledger,
    w: Window,
    signature: Seq<char>,
    m: Seq<PointMeasure>,
    now: Nanos,
    l2: Ledger,
    v: Window,
    aligned: bool,
)
    requires
        l.wf(),
        built(l, w, signature, m, now, l2),
        !(v.generation_id == w.generation_id && v.start == w.start),
    ensures
        point_count(l2, v, aligned) == point_count(l, v, aligned),
{
    let ids = ids_at(l.blocks@, w);
    let bl = db::blocks_without(l.blocks@, ids);
    let pl = db::points_without(l.points@, ids);
    let n = pl.len() as int;
    let last = bl.len() as int;
    let any = |a: BlockRow, b: BlockRow| true;
    let at_w = |b: BlockRow| at_window(b, w);
    let found = l.blocks@.filter(at_w);
    let keep_block = |b: BlockRow| !db::block_listed(ids, b);
    let keep = |p: PointRow| !db::point_listed(ids, p);
    let f = |p: PointRow| (p.map_xyz is Some) == aligned && belongs(l.blocks@, v, p);
    let new = counted_at(l2, v, aligned);
    lemma_built_keeps_order(l, w, signature, m, now, l2);
    db::lemma_links_stay(l.blocks@, l.points@, ids);
    db::lemma_filter_keeps_order(l.blocks@, at_w, any);
    db::lemma_filter_keeps_order(l.blocks@, keep_block, any);
    db::lemma_filter_keeps_order(l.points@, keep, |a: PointRow, b: PointRow| true);
    assert forall|i: int| 0 <= i < l.points@.len() && f(#[trigger] l.points@[i]) implies keep(
        l.points@[i],
    ) by {
        let p = l.points@[i];
        if db::point_listed(ids, p) {
            let k = choose|k: int| 0 <= k < ids.len() && ids[k] == p.block_id;
            assert(at_w(found[k]));
            assert(l.blocks@.contains(found[k]));
            let y = choose|y: int| 0 <= y < l.blocks@.len() && l.blocks@[y] == found[k];
            let j = choose|j: int|
                0 <= j < l.blocks@.len() && (#[trigger] l.blocks@[j]).id == p.block_id
                    && at_window(l.blocks@[j], v);
            lemma_one_with_id(l, j, y);
        }
    }
    lemma_count_of_filtered(l.points@, keep, f);
    assert forall|i: int| 0 <= i < l.points@.len() implies #[trigger] counted_at(l, v, aligned)(i)
        == f(l.points@[i]) by {
        lemma_counted(l, v, i, aligned);
    }
    rows::lemma_same_rows(
        l.points@.len() as int,
        counted_at(l, v, aligned),
        |i: int| f(l.points@[i]),
    );
    assert forall|i: int| 0 <= i < n implies #[trigger] new(i) == f(pl[i]) by {
        lemma_counted(l2, v, i, aligned);
        let p = pl[i];
        assert(l2.points@[i] == p);
        assert(keep(p));
        if belongs(l.blocks@, v, p) {
            let j = choose|j: int|
                0 <= j < l.blocks@.len() && (#[trigger] l.blocks@[j]).id == p.block_id
                    && at_window(l.blocks@[j], v);
            assert(l.blocks@.contains(l.blocks@[j]));
            assert(keep_block(l.blocks@[j]));
            let k = choose|k: int| 0 <= k < bl.len() && bl[k] == l.blocks@[j];
            assert(l2.blocks@[k] == bl[k]);
        }
        if belongs(l2.blocks@, v, p) {
            let j = choose|j: int|
                0 <= j < l2.blocks@.len() && (#[trigger] l2.blocks@[j]).id == p.block_id
                    && at_window(l2.blocks@[j], v);
            assert(j < last);
            assert(l2.blocks@[j] == bl[j]);
            assert(l.blocks@.contains(bl[j]));
            let y = choose|y: int| 0 <= y < l.blocks@.len() && l.blocks@[y] == bl[j];
            assert(l.blocks@[y].id == p.block_id);
        }
    }
    rows::lemma_same_rows(n, new, |i: int| f(pl[i]));
    assert forall|i: int| n <= i < l2.points@.len() implies !#[trigger] new(i) by {
        lemma_counted(l2, v, i, aligned);
        assert(l2.points@[n + (i - n)] == l2.points@[i]);
        assert(l2.blocks@[last].id == l2.points@[i].block_id);
        if belongs(l2.blocks@, v, l2.points@[i]) {
            let j = choose|j: int|
                0 <= j < l2.blocks@.len() && (#[trigger] l2.blocks@[j]).id
                    == l2.points@[i].block_id && at_window(l2.blocks@[j], v);
            lemma_one_with_id(l2, j, last);
        }
    }
    lemma_count_of_first(n, l2.points@.len() as int, new);
}

proof fn lemma_total_stays(a: Ledger, b: Ledger, ws: Seq<Window>, n: int, aligned: bool)
    requires
        forall|k: int|
            0 <= k < n ==> point_count(a, #[trigger] ws[k], aligned) == point_count(
                b,
                ws[k],
                aligned,
            ),
    ensures
        point_total(a, ws, n, aligned) == point_total(b, ws, n, aligned),
    decreases n,
{
    if n > 0 {
        lemma_total_stays(a, b, ws, n - 1, aligned);
        assert(point_count(a, ws[n - 1], aligned) == point_count(b, ws[n - 1], aligned));
    }
}

/// A run counts every window, built or kept, and all the points of their blocks.
proof fn lemma_run_counts(
    l: Ledger,
    l0: Ledger,
    ms: Seq<Vec<PointMeasure>>,
    now: Nanos,
    n: int,
    used: int,
    l2: Ledger,
    rep2: BuildReport,
)
    requires
        l.wf(),
        l0.wf(),
        0 <= n <= blocks::all_windows(l).len(),
        build_run(l0, nothing_built(), blocks::all_windows(l), ms, now, n, used, l2, rep2),
    ensures
        l2.wf(),
        rep2.blocks_complete + rep2.blocks_skipped == n,
        rep2.points_aligned == point_total(l2, blocks::all_windows(l), n, true),
        rep2.points_unaligned == point_total(l2, blocks::all_windows(l), n, false),
    decreases n,
{
    let ws = blocks::all_windows(l);
    lemma_all_windows(l);
    lemma_run(l0, nothing_built(), ws, ms, now, n, used, l2, rep2);
    if n > 0 {
        let (l1, rep1, used1) = choose|l1: Ledger, rep1: BuildReport, used1: int|
            build_run(l0, nothing_built(), ws, ms, now, n - 1, used1, l1, rep1)
                && #[trigger] stepped(l1, rep1, ws[n - 1], ms[used1]@, now, l2, rep2) && used
                == used1 + if up_to_date(l1, ws[n - 1]) { 0int } else { 1 } && used <= ms.len();
        lemma_run_counts(l, l0, ms, now, n - 1, used1, l1, rep1);
        let w = ws[n - 1];
        if !up_to_date(l1, w) {
            let s = blocks::signature_of(l1, w);
            let m = ms[used1]@;
            lemma_points_of_built(l1, w, s, m, now, l2, true);
            lemma_points_of_built(l1, w, s, m, now, l2, false);
            assert forall|k: int| 0 <= k < n - 1 implies point_count(l2, #[trigger] ws[k], true)
                == point_count(l1, ws[k], true) && point_count(l2, ws[k], false) == point_count(
                l1,
                ws[k],
                false,
            ) by {
                lemma_windows_differ(l, l.generations@.len() as int, k, n - 1);
                lemma_points_elsewhere(l1, w, s, m, now, l2, ws[k], true);
                lemma_points_elsewhere(l1, w, s, m, now, l2, ws[k], false);
            }
        }
        lemma_total_stays(l2, l1, ws, n - 1, true);
        lemma_total_stays(l2, l1, ws, n - 1, false);
    }
}

/// A build that comes to its end leaves every block finished and up to date, and touches
/// no imported fact.
pub proof fn law_build_brings_every_window_up_to_date(
    l: Ledger,
    ms: Seq<Vec<PointMeasure>>,
    now: Nanos,
    l2: Ledger,
    rep: BuildReport,
)
    requires
        l.wf(),
        built_all(l, ms, now, l2, rep),
    ensures
        l2.wf(),
        l2.same_facts(l),
        all_complete(l2),
        forall|k: int|
            0 <= k < blocks::all_windows(l).len() ==> up_to_date(
                l2,
                #[trigger] blocks::all_windows(l)[k],
            ),
{
    let ws = blocks::all_windows(l);
    let (l0, used) = choose|l0: Ledger, used: int|
        recovered(l, l0) && #[trigger] build_run(
            l0,
            nothing_built(),
            ws,
            ms,
            now,
            ws.len() as int,
            used,
            l2,
            rep,
        );
    lemma_recovered(l, l0);
    lemma_all_windows(l);
    lemma_run(l0, nothing_built(), ws, ms, now, ws.len() as int, used, l2, rep);
}

/// Building again at once builds nothing: every block is kept as it is and counted as
/// skipped, and as many points are reported as before.
pub proof fn law_second_build_changes_nothing(
    l: Ledger,
    ms: Seq<Vec<PointMeasure>>,
    now: Nanos,
    l2: Ledger,
    rep: BuildReport,
    ms2: Seq<Vec<PointMeasure>>,
    now2: Nanos,
    l3: Ledger,
    rep2: BuildReport,
)
    requires
        l.wf(),
        built_all(l, ms, now, l2, rep),
        built_all(l2, ms2, now2, l3, rep2),
    ensures
        l3.blocks@ == l2.blocks@,
        l3.points@ == l2.points@,
        l3.same_facts(l2),
        rep2.blocks_complete == 0,
        rep2.blocks_rebuilt == 0,
        rep2.blocks_skipped == blocks::all_windows(l).len(),
        rep2.blocks_skipped == rep.blocks_complete + rep.blocks_skipped,
        rep2.points_aligned == rep.points_aligned,
        rep2.points_unaligned == rep.points_unaligned,
{
    law_build_brings_every_window_up_to_date(l, ms, now, l2, rep);
    let ws = blocks::all_windows(l2);
    assert(ws == blocks::all_windows(l)) by {
        lemma_windows_depend_on_facts(l, l2, l.generations@.len() as int);
    }
    let (l0, used) = choose|l0: Ledger, used: int|
        recovered(l2, l0) && #[trigger] build_run(
            l0,
            nothing_built(),
            ws,
            ms2,
            now2,
            ws.len() as int,
            used,
            l3,
            rep2,
        );
    lemma_recovered(l2, l0);
    lemma_all_windows(l2);
    assert forall|k: int| 0 <= k < ws.len() implies up_to_date(l0, #[trigger] ws[k]) by {
        assert(up_to_date(l2, ws[k]));
        blocks::law_signature_depends_on_facts_alone(l0, l2, ws[k]);
        let i = choose|i: int| #![trigger l2.blocks@[i]]
            0 <= i < l2.blocks@.len() && at_window(l2.blocks@[i], ws[k])
                && l2.blocks@[i].status is Complete && l2.blocks@[i].signature@
                == blocks::signature_of(l2, ws[k]);
        assert(at_window(l0.blocks@[i], ws[k]));
    }
    lemma_run(l0, nothing_built(), ws, ms2, now2, ws.len() as int, used, l3, rep2);
    let (l1, used1) = choose|l1: Ledger, used1: int|
        recovered(l, l1) && #[trigger] build_run(
            l1,
            nothing_built(),
            ws,
            ms,
            now,
            ws.len() as int,
            used1,
            l2,
            rep,
        );
    lemma_recovered(l, l1);
    lemma_run_counts(l, l1, ms, now, ws.len() as int, used1, l2, rep);
    lemma_run_counts(l, l0, ms2, now2, ws.len() as int, used, l3, rep2);
    assert forall|k: int| 0 <= k < ws.len() implies point_count(l3, #[trigger] ws[k], true)
        == point_count(l2, ws[k], true) && point_count(l3, ws[k], false) == point_count(
        l2,
        ws[k],
        false,
    ) by {
        let n = l2.points@.len() as int;
        rows::lemma_same_rows(n, counted_at(l3, ws[k], true), counted_at(l2, ws[k], true));
        rows::lemma_same_rows(n, counted_at(l3, ws[k], false), counted_at(l2, ws[k], false));
    }
    lemma_total_stays(l3, l2, ws, ws.len() as int, true);
    lemma_total_stays(l3, l2, ws, ws.len() as int, false);
}

proof fn lemma_windows_depend_on_facts(a: Ledger, b: Ledger, n: int)
    requires
        a.same_facts(b),
    ensures
        blocks::windows_among(a, n) == blocks::windows_among(b, n),
    decreases n,
{
    if n > 0 {
        lemma_windows_depend_on_facts(a, b, n - 1);
    }
}

// ---- what a build needs -------------------------------------------------------------------

/// The windows that a build has to see to: those that are not up to date, in order.
pub open spec fn stale_windows(l: Ledger) -> Seq<Window> {
    rows::all_where(blocks::all_windows(l).len() as int, is_stale(l)).map_values(
        |i: int| blocks::all_windows(l)[i],
    )
}

/// Whether a window is not up to date.
pub open spec fn is_stale(l: Ledger) -> spec_fn(int) -> bool {
    |i: int| !up_to_date(l, blocks::all_windows(l)[i])
}

/// Lists the windows that a build has to see to, so that the points of each can be
/// measured beforehand.
pub fn windows_to_build(db: &Ledger) -> (r: Vec<Window>)
    requires
        db.wf(),
    ensures
        r@ == stale_windows(*db),
{
    let ws = blocks::list_windows(db);
    let ghost holds = is_stale(*db);
    let ghost pick = |i: int| blocks::all_windows(*db)[i];
    let mut out: Vec<Window> = Vec::new();
    let mut i: usize = 0;
    assert(out@ =~= rows::all_where(0, holds).map_values(pick));
    while i < ws.len()
        invariant
            i <= ws@.len(),
            ws@ == blocks::all_windows(*db),
            db.wf(),
            holds == is_stale(*db),
            pick == (|i: int| blocks::all_windows(*db)[i]),
            out@ == rows::all_where(i as int, holds).map_values(pick),
        decreases ws.len() - i,
    {
        let w = ws[i];
        let ghost before = out@;
        proof {
            lemma_windows_among(*db, db.generations@.len() as int, i as int);
        }
        let signature = blocks::block_signature(db, w);
        let fresh = match find_block(db, w) {
            Some(k) => {
                proof {
                    lemma_unique_block(*db, w, k as int);
                }
                db.blocks[k].status == BlockStatus::Complete && text::same(
                    db.blocks[k].signature.as_str(),
                    signature.as_str(),
                )
            },
            None => false,
        };
        assert(fresh == !holds(i as int));
        if !fresh {
            out.push(w);
            assert(rows::all_where(i + 1, holds).map_values(pick) =~= before.push(w));
        }
        i += 1;
    }
    out
}

proof fn lemma_window_starts(gid: i64, start: int, last: int, i: int)
    requires
        0 <= i < blocks::windows_from(gid, start, last).len(),
        -time::SPAN_LIMIT - blocks::BLOCK <= start,
        last <= time::SPAN_LIMIT,
    ensures
        blocks::windows_from(gid, start, last)[i].start == start + i * blocks::BLOCK,
    decreases i,
{
    if i > 0 {
        lemma_window_starts(gid, start + blocks::BLOCK, last, i - 1);
    }
}

proof fn lemma_windows_differ(l: Ledger, n: int, i: int, j: int)
    requires
        l.wf(),
        0 <= n <= l.generations@.len(),
        0 <= i < j < blocks::windows_among(l, n).len(),
    ensures
        ({
            let ws = blocks::windows_among(l, n);
            !(ws[i].generation_id == ws[j].generation_id && ws[i].start == ws[j].start)
        }),
    decreases n,
{
    if n > 0 {
        let before = blocks::windows_among(l, n - 1);
        let now = blocks::windows_among(l, n);
        let gid = l.generations@[n - 1].id;
        let more = blocks::windows_of(l.packets@, gid);
        let k = l.packets@.len() as int;
        if j < before.len() {
            lemma_windows_differ(l, n - 1, i, j);
        } else {
            lemma_times_in_range(l, gid as int, k);
            let a = blocks::first_time(l.packets@, gid as int, k)->0;
            let b = blocks::last_time(l.packets@, gid as int, k)->0;
            assert(now[j] == more[j - before.len()]);
            lemma_windows_from(gid, blocks::window_start(a), b, j - before.len());
            if i < before.len() {
                lemma_window_generations(l, n - 1, i);
                assert(now[i] == before[i]);
            } else {
                assert(now[i] == more[i - before.len()]);
                lemma_window_starts(gid, blocks::window_start(a), b, i - before.len());
                lemma_window_starts(gid, blocks::window_start(a), b, j - before.len());
            }
        }
    }
}

proof fn lemma_window_generations(l: Ledger, n: int, i: int)
    requires
        l.wf(),
        0 <= n <= l.generations@.len(),
        0 <= i < blocks::windows_among(l, n).len(),
    ensures
        blocks::windows_among(l, n)[i].generation_id <= n,
    decreases n,
{
    if n > 0 {
        let before = blocks::windows_among(l, n - 1);
        let gid = l.generations@[n - 1].id;
        let more = blocks::windows_of(l.packets@, gid);
        let k = l.packets@.len() as int;
        if i < before.len() {
            lemma_window_generations(l, n - 1, i);
        } else {
            lemma_times_in_range(l, gid as int, k);
            let a = blocks::first_time(l.packets@, gid as int, k)->0;
            let b = blocks::last_time(l.packets@, gid as int, k)->0;
            assert(blocks::windows_among(l, n)[i] == more[i - before.len()]);
            lemma_windows_from(gid, blocks::window_start(a), b, i - before.len());
        }
    }
}

/// Building a window's block brings no other window up to date.
proof fn lemma_step_elsewhere(
    l: Ledger,
    rep: BuildReport,
    w: Window,
    m: Seq<PointMeasure>,
    now: Nanos,
    l2: Ledger,
    rep2: BuildReport,
    v: Window,
)
    requires
        l.wf(),
        stepped(l, rep, w, m, now, l2, rep2),
        !(v.generation_id == w.generation_id && v.start == w.start),
        up_to_date(l2, v),
    ensures
        up_to_date(l, v),
{
    if !up_to_date(l, w) {
        lemma_built_keeps_order(l, w, blocks::signature_of(l, w), m, now, l2);
        let ids = ids_at(l.blocks@, w);
        let left = db::blocks_without(l.blocks@, ids);
        db::lemma_filter_keeps_order(
            l.blocks@,
            |b: BlockRow| !db::block_listed(ids, b),
            |a: BlockRow, b: BlockRow| true,
        );
        blocks::law_signature_depends_on_facts_alone(l2, l, v);
        let i = choose|i: int| #![trigger l2.blocks@[i]]
            0 <= i < l2.blocks@.len() && at_window(l2.blocks@[i], v)
                && l2.blocks@[i].status is Complete && l2.blocks@[i].signature@
                == blocks::signature_of(l2, v);
        assert(i < left.len());
        assert(l2.blocks@[i] == left[i]);
        assert(l.blocks@.contains(left[i]));
        let k = choose|k: int| 0 <= k < l.blocks@.len() && l.blocks@[k] == left[i];
        assert(at_window(l.blocks@[k], v));
    }
}

/// A run over the first `n` windows leaves the later ones as they were, and uses one list
/// of measures for each of the first that was not up to date.
proof fn lemma_run_elsewhere(
    l: Ledger,
    l0: Ledger,
    ms: Seq<Vec<PointMeasure>>,
    now: Nanos,
    n: int,
    used: int,
    l2: Ledger,
    rep2: BuildReport,
)
    requires
        l.wf(),
        l0.wf(),
        l0.same_facts(l),
        0 <= n <= blocks::all_windows(l).len(),
        forall|k: int|
            0 <= k < blocks::all_windows(l).len() ==> up_to_date(
                l0,
                #[trigger] blocks::all_windows(l)[k],
            ) == up_to_date(l, blocks::all_windows(l)[k]),
        build_run(l0, nothing_built(), blocks::all_windows(l), ms, now, n, used, l2, rep2),
    ensures
        l2.same_facts(l),
        l2.wf(),
        used == rows::count_where(n, is_stale(l)),
        forall|k: int|
            n <= k < blocks::all_windows(l).len() ==> up_to_date(
                l2,
                #[trigger] blocks::all_windows(l)[k],
            ) == up_to_date(l, blocks::all_windows(l)[k]),
    decreases n,
{
    let ws = blocks::all_windows(l);
    lemma_all_windows(l);
    lemma_run(l0, nothing_built(), ws, ms, now, n, used, l2, rep2);
    if n > 0 {
        let (l1, rep1, used1) = choose|l1: Ledger, rep1: BuildReport, used1: int|
            build_run(l0, nothing_built(), ws, ms, now, n - 1, used1, l1, rep1)
                && #[trigger] stepped(l1, rep1, ws[n - 1], ms[used1]@, now, l2, rep2) && used
                == used1 + if up_to_date(l1, ws[n - 1]) { 0int } else { 1 } && used <= ms.len();
        lemma_run_elsewhere(l, l0, ms, now, n - 1, used1, l1, rep1);
        lemma_step(l1, rep1, ws[n - 1], ms[used1]@, now, l2, rep2);
        let holds = is_stale(l);
        assert(holds(n - 1) == !up_to_date(l1, ws[n - 1]));
        assert forall|k: int| n <= k < ws.len() implies up_to_date(l2, #[trigger] ws[k])
            == up_to_date(l, ws[k]) by {
            lemma_windows_differ(l, l.generations@.len() as int, n - 1, k);
            assert(up_to_date(l1, ws[k]) == up_to_date(l, ws[k]));
            if up_to_date(l2, ws[k]) {
                lemma_step_elsewhere(
                    l1,
                    rep1,
                    ws[n - 1],
                    ms[used1]@,
                    now,
                    l2,
                    rep2,
                    ws[k],
                );
            }
        }
    }
}

proof fn lemma_recovered_as_fresh(l: Ledger, l0: Ledger, v: Window)
    requires
        l.wf(),
        recovered(l, l0),
    ensures
        up_to_date(l0, v) == up_to_date(l, v),
{
    lemma_recovered(l, l0);
    db::law_recovery_leaves_finished_blocks_only(l, l0);
    blocks::law_signature_depends_on_facts_alone(l0, l, v);
    let ids = l.pending_ids();
    db::lemma_filter_keeps_order(
        l.blocks@,
        |b: BlockRow| !db::block_listed(ids, b),
        |a: BlockRow, b: BlockRow| true,
    );
    if up_to_date(l, v) {
        let i = choose|i: int| #![trigger l.blocks@[i]]
            0 <= i < l.blocks@.len() && at_window(l.blocks@[i], v)
                && l.blocks@[i].status is Complete && l.blocks@[i].signature@
                == blocks::signature_of(l, v);
        assert(l.blocks@.contains(l.blocks@[i]));
        assert(l0.blocks@.contains(l.blocks@[i]));
        let k = choose|k: int| 0 <= k < l0.blocks@.len() && l0.blocks@[k] == l.blocks@[i];
        assert(at_window(l0.blocks@[k], v));
    }
    if up_to_date(l0, v) {
        let i = choose|i: int| #![trigger l0.blocks@[i]]
            0 <= i < l0.blocks@.len() && at_window(l0.blocks@[i], v)
                && l0.blocks@[i].status is Complete && l0.blocks@[i].signature@
                == blocks::signature_of(l0, v);
        assert(l.blocks@.contains(l0.blocks@[i]));
        let k = choose|k: int| 0 <= k < l.blocks@.len() && l.blocks@[k] == l0.blocks@[i];
        assert(at_window(l.blocks@[k], v));
    }
}

proof fn lemma_measured_depends_on_facts(a: Ledger, b: Ledger, w: Window, m: Seq<PointMeasure>)
    requires
        a.same_facts(b),
        measured(a, w, m),
    ensures
        measured(b, w, m),
{
    let points = pending(a.packets@, w);
    assert forall|i: int| 0 <= i < m.len() implies routes::measures(
        b,
        b.packets@[points[i].packet as int],
        #[trigger] m[i],
    ) by {
        assert(routes::measures(a, a.packets@[points[i].packet as int], m[i]));
    }
}

/// A build comes to its end where there are measures for the points of every window that
/// is not up to date.
pub proof fn law_build_with_all_measures_comes_to_its_end(
    l: Ledger,
    ms: Seq<Vec<PointMeasure>>,
    now: Nanos,
    l2: Ledger,
)
    requires
        l.wf(),
        ms.len() >= stale_windows(l).len(),
        forall|k: int|
            0 <= k < stale_windows(l).len() ==> measured(l, #[trigger] stale_windows(l)[k], ms[k]@),
    ensures
        !stopped(l, ms, now, l2),
{
    if stopped(l, ms, now, l2) {
        let ws = blocks::all_windows(l);
        let holds = is_stale(l);
        let (l0, n, used, rep) = choose|l0: Ledger, n: int, used: int, rep: BuildReport|
            recovered(l, l0) && 0 <= n < ws.len() && #[trigger] build_run(
                l0,
                nothing_built(),
                ws,
                ms,
                now,
                n,
                used,
                l2,
                rep,
            ) && !up_to_date(l2, ws[n]) && (used >= ms.len() || !measured(
                l2,
                ws[n],
                ms[used]@,
            ));
        lemma_recovered(l, l0);
        assert forall|k: int| 0 <= k < ws.len() implies up_to_date(l0, #[trigger] ws[k])
            == up_to_date(l, ws[k]) by {
            lemma_recovered_as_fresh(l, l0, ws[k]);
        }
        lemma_run_elsewhere(l, l0, ms, now, n, used, l2, rep);
        assert(holds(n));
        lemma_place_among(ws.len() as int, holds, n);
        let at = rows::all_where(ws.len() as int, holds);
        assert(stale_windows(l)[used] == ws[at[used]]);
        lemma_measured_depends_on_facts(l, l2, ws[n], ms[used]@);
    }
}

/// The place that a row has among those that a condition holds for.
proof fn lemma_place_among(n: int, holds: spec_fn(int) -> bool, i: int)
    requires
        0 <= i < n,
        holds(i),
    ensures
        rows::count_where(i, holds) < rows::all_where(n, holds).len(),
        rows::all_where(n, holds)[rows::count_where(i, holds)] == i,
    decreases n,
{
    if i < n - 1 {
        lemma_place_among(n - 1, holds, i);
    }
}

// ---- what a build does, in plain terms --------------------------------------------------------

/// The points that are derived in a window are those of the lidar packets of its generation
/// from its start up to its end, repetitions left out: all of them, and no others.
pub proof fn law_points_of_a_window(db: Ledger, w: Window, pp: PendingPoint)
    requires
        db.packets@.len() <= usize::MAX,
        forall|i: int|
            0 <= i < db.packets@.len() ==> (#[trigger] db.packets@[i]).points@.len() <= usize::MAX,
    ensures
        pending(db.packets@, w).contains(pp) <==> pp.packet < db.packets@.len() && {
            let p = db.packets@[pp.packet as int];
            &&& p.kind is Lidar
            &&& p.duplicate_of is None
            &&& p.generation_id == w.generation_id
            &&& w.start <= p.continuous_time < w.end
            &&& pp.index < p.points@.len()
        },
{
    law_only_original_points_are_derived(db, w, pp);
}

proof fn lemma_points_in_turn(packets: Seq<PacketRecord>, at: Seq<int>, n: int, i: int, j: int)
    requires
        packets.len() <= usize::MAX,
        0 <= n <= at.len(),
        forall|k: int| 0 <= k < at.len() ==> 0 <= #[trigger] at[k] < packets.len(),
        forall|k: int| 0 <= k < packets.len() ==> (#[trigger] packets[k]).points@.len() <= usize::MAX,
        0 <= i < j < points_among(packets, at, n).len(),
    ensures
        ({
            let a = points_among(packets, at, n)[i];
            let b = points_among(packets, at, n)[j];
            ||| a.packet == b.packet && a.index < b.index
            ||| exists|k: int, m: int| #![trigger at[k], at[m]]
                0 <= k < m < n && at[k] == a.packet && at[m] == b.packet
        }),
    decreases n,
{
    let before = points_among(packets, at, n - 1);
    let more = points_in(packets, at[n - 1]);
    let now = points_among(packets, at, n);
    assert(now == before + more);
    assert(packets[at[n - 1]].points@.len() <= usize::MAX);
    if j < before.len() {
        lemma_points_in_turn(packets, at, n - 1, i, j);
        assert(now[i] == before[i] && now[j] == before[j]);
    } else if i < before.len() {
        lemma_points_of_first(packets, at, n - 1, i);
        let k = choose|k: int| 0 <= k < n - 1 && at[k] == before[i].packet;
        assert(now[j] == more[j - before.len()]);
        assert(at[k] == now[i].packet && at[n - 1] == now[j].packet);
    } else {
        assert(now[i] == more[i - before.len()] && now[j] == more[j - before.len()]);
    }
}

proof fn lemma_points_of_first(packets: Seq<PacketRecord>, at: Seq<int>, n: int, i: int)
    requires
        packets.len() <= usize::MAX,
        0 <= n <= at.len(),
        forall|k: int| 0 <= k < at.len() ==> 0 <= #[trigger] at[k] < packets.len(),
        0 <= i < points_among(packets, at, n).len(),
    ensures
        exists|k: int| 0 <= k < n && at[k] == points_among(packets, at, n)[i].packet,
    decreases n,
{
    let before = points_among(packets, at, n - 1);
    if i < before.len() {
        lemma_points_of_first(packets, at, n - 1, i);
    } else {
        assert(points_among(packets, at, n)[i] == points_in(packets, at[n - 1])[i - before.len()]);
        assert(at[n - 1] == points_among(packets, at, n)[i].packet);
    }
}

/// The points of a window come in the order of time, then of packets, then of the places
/// that they have in their packets; none comes twice.
pub proof fn law_points_of_a_window_are_in_order(db: Ledger, w: Window, i: int, j: int)
    requires
        db.wf(),
        db.packets@.len() <= usize::MAX,
        forall|k: int|
            0 <= k < db.packets@.len() ==> (#[trigger] db.packets@[k]).points@.len() <= usize::MAX,
        0 <= i < j < pending(db.packets@, w).len(),
    ensures
        ({
            let a = pending(db.packets@, w)[i];
            let b = pending(db.packets@, w)[j];
            let p = db.packets@[a.packet as int];
            let q = db.packets@[b.packet as int];
            ||| a.packet == b.packet && a.index < b.index
            ||| p.continuous_time < q.continuous_time
            ||| p.continuous_time == q.continuous_time && p.id < q.id
        }),
{
    let packets = db.packets@;
    let n = packets.len() as int;
    let at = packets_in_order(packets, w);
    let key = packet_key(packets);
    order::law_listing_holds_what_is_shown(n, derived_in(packets, w), key);
    lemma_points_in_turn(packets, at, at.len() as int, i, j);
    let a = pending(packets, w)[i];
    let b = pending(packets, w)[j];
    if !(a.packet == b.packet && a.index < b.index) {
        let (k, m) = choose|k: int, m: int| #![trigger at[k], at[m]]
            0 <= k < m < at.len() && at[k] == a.packet && at[m] == b.packet;
        let p = packets[at[k]];
        let q = packets[at[m]];
        let l = order::listed(n, derived_in(packets, w), key);
        assert(l[k] != l[m] && !order::key_before(key(l[m]), key(l[k])));
        assert(p.id == at[k] + 1 && q.id == at[m] + 1);
        order::lemma_pair_key_before(
            q.continuous_time as int,
            q.id as int,
            p.continuous_time as int,
            p.id as int,
        );
    }
}

/// Every point of a window is aligned or not: the two counts add up to the number of its
/// points.
pub proof fn law_points_are_aligned_or_not(points: Seq<PointRow>, from: int, n: int)
    requires
        n >= 0,
    ensures
        aligned_count(points, from, n, true) + aligned_count(points, from, n, false) == n,
        0 <= aligned_count(points, from, n, true) <= n,
        (forall|i: int| from <= i < from + n ==> (#[trigger] points[i]).map_xyz is Some)
            ==> aligned_count(points, from, n, true) == n,
        (forall|i: int| from <= i < from + n ==> (#[trigger] points[i]).map_xyz is None)
            ==> aligned_count(points, from, n, true) == 0,
    decreases n,
{
    if n > 0 {
        law_points_are_aligned_or_not(points, from, n - 1);
    }
}

/// Building a window leaves it with one block, finished, as long as the window; blocks of
/// other windows stay, and so does every imported fact.
pub proof fn law_built_block_takes_the_place_of_the_old(
    l: Ledger,
    w: Window,
    signature: Seq<char>,
    m: Seq<PointMeasure>,
    now: Nanos,
    l2: Ledger,
    b: BlockRow,
)
    requires
        l.wf(),
        built(l, w, signature, m, now, l2),
    ensures
        b.generation_id == w.generation_id && b.start == w.start ==> (l2.blocks@.contains(b) <==> b
            == l2.blocks@.last()),
        !(b.generation_id == w.generation_id && b.start == w.start) ==> (l2.blocks@.contains(b)
            <==> l.blocks@.contains(b)),
        l2.blocks@.last().generation_id == w.generation_id,
        l2.blocks@.last().start == w.start,
        l2.blocks@.last().end == w.end,
        l2.blocks@.last().status is Complete,
        l2.blocks@.last().signature@ == signature,
        l2.blocks@.last().built_at == Some(now),
        l2.packets == l.packets,
        l2.poses == l.poses,
        l2.edges == l.edges,
{
    let holds = |x: BlockRow| at_window(x, w);
    let ids = ids_at(l.blocks@, w);
    let found = l.blocks@.filter(holds);
    let apart = |x: BlockRow, y: BlockRow|
        x.id < y.id && !(x.generation_id == y.generation_id && x.start == y.start);
    let left = |x: BlockRow| !db::block_listed(ids, x);
    db::lemma_filter_keeps_order(l.blocks@, holds, apart);
    db::lemma_filter_keeps_order(l.blocks@, left, apart);
    let kept = db::blocks_without(l.blocks@, ids);
    let last = l2.blocks@.len() - 1;
    assert forall|x: BlockRow| l.blocks@.contains(x) implies ids.contains(x.id) == at_window(
        x,
        w,
    ) by {
        if at_window(x, w) {
            assert(holds(x));
            assert(found.contains(x));
            let k = choose|k: int| 0 <= k < found.len() && found[k] == x;
            assert(ids[k] == x.id);
        }
        if ids.contains(x.id) {
            let k = choose|k: int| 0 <= k < ids.len() && ids[k] == x.id;
            let other = found[k];
            assert(holds(other));
            let i = choose|i: int| 0 <= i < l.blocks@.len() && l.blocks@[i] == x;
            let j = choose|j: int| 0 <= j < l.blocks@.len() && l.blocks@[j] == other;
            assert(i == j);
        }
    }
    if l2.blocks@.contains(b) {
        let k = choose|k: int| 0 <= k < l2.blocks@.len() && l2.blocks@[k] == b;
        if k < last {
            assert(l2.blocks@.drop_last()[k] == b);
            assert(kept[k] == b);
            assert(left(kept[k]));
            assert(l.blocks@.contains(b));
        }
    }
    assert(l2.blocks@[last] == l2.blocks@.last());
    if l.blocks@.contains(b) && !at_window(b, w) {
        assert(left(b));
        assert(kept.contains(b));
        let k = choose|k: int| 0 <= k < kept.len() && kept[k] == b;
        assert(l2.blocks@.drop_last()[k] == l2.blocks@[k]);
        assert(l2.blocks@[k] == b);
    }
}

/// A built block has a row for each point of its window, in their order: with the packet,
/// the time and the place of the point, and in the map where its route leads there.
pub proof fn law_built_block_has_a_row_for_each_point(
    l: Ledger,
    w: Window,
    signature: Seq<char>,
    m: Seq<PointMeasure>,
    now: Nanos,
    l2: Ledger,
    i: int,
)
    requires
        l.wf(),
        built(l, w, signature, m, now, l2),
        0 <= i < pending(l.packets@, w).len(),
    ensures
        ({
            let pp = pending(l.packets@, w)[i];
            let p = l.packets@[pp.packet as int];
            let row = l2.points@[l2.points@.len() - pending(l.packets@, w).len() + i];
            &&& row.block_id == l2.blocks@.last().id
            &&& row.packet_id == p.id
            &&& row.generation_id == p.generation_id
            &&& row.point_index == pp.index
            &&& row.t == p.continuous_time
            &&& row.sensor_xyz == m[i].si_xyz
            &&& row.map_xyz is Some <==> routes::packet_routes(l, p, m[i].costs@).len() > 0
            &&& row.map_xyz is Some ==> row.map_xyz->0 == m[i].map_xyz
        }),
{
    let n = db::points_without(l.points@, ids_at(l.blocks@, w)).len() as int;
    assert(is_point_row(
        l2.points@[n + i],
        l,
        pending(l.packets@, w)[i],
        m[i],
        next_point_id(db::points_without(l.points@, ids_at(l.blocks@, w))) + i,
        next_block_id(db::blocks_without(l.blocks@, ids_at(l.blocks@, w))),
    ));
}

/// A window is to be built where it is listed and has no finished block with the signature
/// that its inputs give now.
pub proof fn law_windows_to_build(l: Ledger, w: Window)
    ensures
        stale_windows(l).contains(w) <==> blocks::all_windows(l).contains(w) && forall|i: int|
            0 <= i < l.blocks@.len() ==> !((#[trigger] l.blocks@[i]).generation_id
                == w.generation_id && l.blocks@[i].start == w.start
                && l.blocks@[i].status is Complete && l.blocks@[i].signature@
                == blocks::signature_of(l, w)),
{
    let ws = blocks::all_windows(l);
    let holds = is_stale(l);
    let at = rows::all_where(ws.len() as int, holds);
    rows::lemma_all_where(ws.len() as int, holds);
    let stale = stale_windows(l);
    if stale.contains(w) {
        let k = choose|k: int| 0 <= k < stale.len() && stale[k] == w;
        assert(holds(at[k]));
        assert(ws[at[k]] == w);
        assert(!up_to_date(l, w));
        assert forall|i: int| 0 <= i < l.blocks@.len() implies !((
        #[trigger] l.blocks@[i]).generation_id == w.generation_id && l.blocks@[i].start == w.start
            && l.blocks@[i].status is Complete && l.blocks@[i].signature@ == blocks::signature_of(
            l,
            w,
        )) by {
            if at_window(l.blocks@[i], w) && l.blocks@[i].status is Complete
                && l.blocks@[i].signature@ == blocks::signature_of(l, w) {
                assert(up_to_date(l, w));
            }
        }
    }
    if ws.contains(w) && !up_to_date(l, w) {
        let i = choose|i: int| 0 <= i < ws.len() && ws[i] == w;
        assert(holds(i));
        assert(at.contains(i));
        let k = choose|k: int| 0 <= k < at.len() && at[k] == i;
        assert(stale[k] == w);
    }
}

/// A step of a build leaves a window alone, and counts it as skipped, where it has a
/// finished block with the signature that its inputs give; else it builds it.
pub proof fn law_step_of_a_build(
    l: Ledger,
    rep: BuildReport,
    w: Window,
    m: Seq<PointMeasure>,
    now: Nanos,
    l2: Ledger,
    rep2: BuildReport,
)
    requires
        l.wf(),
        stepped(l, rep, w, m, now, l2, rep2),
    ensures
        ({
            let kept = exists|i: int|
                0 <= i < l.blocks@.len() && (#[trigger] l.blocks@[i]).generation_id
                    == w.generation_id && l.blocks@[i].start == w.start
                    && l.blocks@[i].status is Complete && l.blocks@[i].signature@
                    == blocks::signature_of(l, w);
            &&& kept ==> l2 == l && rep2.blocks_skipped == rep.blocks_skipped + 1
                && rep2.blocks_complete == rep.blocks_complete
            &&& !kept ==> rep2.blocks_complete == rep.blocks_complete + 1 && rep2.blocks_skipped
                == rep.blocks_skipped && rep2.points_aligned + rep2.points_unaligned
                == rep.points_aligned + rep.points_unaligned + pending(l.packets@, w).len()
            &&& !kept ==> (rep2.blocks_rebuilt == rep.blocks_rebuilt + 1 || rep2.blocks_rebuilt
                == rep.blocks_rebuilt)
            &&& !kept ==> (rep2.blocks_rebuilt == rep.blocks_rebuilt + 1 <==> exists|i: int|
                0 <= i < l.blocks@.len() && (#[trigger] l.blocks@[i]).generation_id
                    == w.generation_id && l.blocks@[i].start == w.start)
        }),
{
    if exists|i: int|
        0 <= i < l.blocks@.len() && (#[trigger] l.blocks@[i]).generation_id == w.generation_id
            && l.blocks@[i].start == w.start && l.blocks@[i].status is Complete
            && l.blocks@[i].signature@ == blocks::signature_of(l, w) {
        let i = choose|i: int|
            0 <= i < l.blocks@.len() && (#[trigger] l.blocks@[i]).generation_id == w.generation_id
                && l.blocks@[i].start == w.start && l.blocks@[i].status is Complete
                && l.blocks@[i].signature@ == blocks::signature_of(l, w);
        assert(at_window(l.blocks@[i], w));
    }
    if exists|i: int|
        0 <= i < l.blocks@.len() && (#[trigger] l.blocks@[i]).generation_id == w.generation_id
            && l.blocks@[i].start == w.start {
        let i = choose|i: int|
            0 <= i < l.blocks@.len() && (#[trigger] l.blocks@[i]).generation_id == w.generation_id
                && l.blocks@[i].start == w.start;
        assert(at_window(l.blocks@[i], w));
        assert(has_block(l, w));
    }
    law_points_are_aligned_or_not(
        l2.points@,
        db::points_without(l.points@, ids_at(l.blocks@, w)).len() as int,
        pending(l.packets@, w).len() as int,
    );
}

} // verus!
