//! Calibration edges: adding versions of transforms, and dropping the derived blocks
//! that a new version touches.

use crate::blocks;
use crate::blocks::Window;
use crate::builder;
use crate::db;
use crate::db::{BlockRow, BlockStatus, EdgeRow, Ledger, PointRow};
use crate::geo;
use crate::graph;
use crate::graph::{Hop, HopValue, LoopMeasure};
use crate::model::{AppError, AppResult, Rotation};
use crate::rows;
use crate::scalar;
use crate::scalar::Scalar;
use crate::text;
use crate::time::Nanos;
use vstd::prelude::*;
use vstd::string::*;

verus! {

// ---- input ------------------------------------------------------------------------------

/// A transform to add. Its rotation is a quaternion, or else three angles, or else none.
#[derive(Clone, Debug)]
pub struct EdgeInput {
    pub source: String,
    pub target: String,
    pub valid_from: Option<Nanos>,
    pub valid_to: Option<Nanos>,
    pub translation: [Scalar; 3],
    pub quat: Option<[Scalar; 4]>,
    pub euler_rpy: Option<[Scalar; 3]>,
    pub covariance: Vec<Scalar>,
    pub origin: Option<String>,
}

/// What is measured of a transform: its unit quaternion, whether its covariance is
/// positive definite, and the trace that routes are ranked by.
#[derive(Clone, Copy, Debug)]
pub struct EdgeMeasure {
    pub q: [Scalar; 4],
    pub positive_definite: bool,
    pub sigma_trace: Scalar,
}

impl EdgeInput {
    /// The rotation that counts: the quaternion where there is one, else the angles.
    pub open spec fn rotation_given(self) -> Rotation {
        match self.quat {
            Some(q) => Rotation::Quaternion(q),
            None => match self.euler_rpy {
                Some(rpy) => Rotation::Euler(rpy),
                None => Rotation::Identity,
            },
        }
    }

    /// The rotation that counts.
    pub fn rotation(&self) -> (r: Rotation)
        ensures
            r == self.rotation_given(),
    {
        match self.quat {
            Some(q) => Rotation::Quaternion(q),
            None => match self.euler_rpy {
                Some(rpy) => Rotation::Euler(rpy),
                None => Rotation::Identity,
            },
        }
    }

    /// The whole covariance, where six diagonal or 36 row-major entries are given.
    pub open spec fn full_covariance(self) -> Seq<Scalar> {
        if self.covariance@.len() == 6 {
            geo::diagonal_of(self.covariance@)
        } else {
            self.covariance@
        }
    }
}

// ---- what stands in the way of an edge ----------------------------------------------------

/// The links that a list of edges makes, each in the direction of its edge.
pub open spec fn edge_links(edges: Seq<EdgeRow>) -> Seq<HopValue> {
    edges.map_values(
        |e: EdgeRow|
            HopValue {
                edge_id: e.id as int,
                version: e.version as int,
                from: e.source@,
                to: e.target@,
                reversed: false,
                precision: e.sigma_trace,
            },
    )
}

/// Whether a new edge would close a loop with the edges there are.
pub open spec fn closes(edges: Seq<EdgeRow>, input: EdgeInput) -> bool {
    graph::closes_loop(edge_links(edges), input.source@, input.target@)
}

/// Whether 36 row-major entries are those of a symmetric matrix, but for what rounding
/// leaves; a diagonal always is. Entries that are not finite are left to the test of
/// definiteness.
pub open spec fn symmetric(c: Seq<Scalar>) -> bool {
    c.len() == 36 ==> forall|i: int, j: int|
        0 <= i < 6 && 0 <= j < 6 ==> #[trigger] entries_agree(c, 6 * i + j, 6 * j + i)
}

/// Whether two entries are near each other, or one of them is not finite.
pub open spec fn entries_agree(c: Seq<Scalar>, a: int, b: int) -> bool {
    c[a].finite() && c[b].finite() ==> c[a].near(c[b])
}

fn is_symmetric(c: &Vec<Scalar>) -> (r: bool)
    ensures
        r == symmetric(c@),
{
    if c.len() != 36 {
        return true;
    }
    let mut i: usize = 0;
    while i < 6
        invariant
            i <= 6,
            c@.len() == 36,
            forall|x: int, y: int|
                0 <= x < i && 0 <= y < 6 ==> #[trigger] entries_agree(c@, 6 * x + y, 6 * y + x),
        decreases 6 - i,
    {
        let mut j: usize = 0;
        while j < 6
            invariant
                i < 6,
                j <= 6,
                c@.len() == 36,
                forall|y: int|
                    0 <= y < j ==> #[trigger] entries_agree(c@, 6 * i + y, 6 * y + i),
            decreases 6 - j,
        {
            let a = &c[6 * i + j];
            let b = &c[6 * j + i];
            if a.is_finite() && b.is_finite() && !a.is_near(b) {
                assert(!entries_agree(c@, 6 * i + j, 6 * j + i));
                return false;
            }
            j += 1;
        }
        i += 1;
    }
    true
}

/// What is wrong with an edge by itself, as a code and a message.
pub open spec fn fault(input: EdgeInput, m: EdgeMeasure) -> Option<(Seq<char>, Seq<char>)> {
    if input.covariance@.len() != 6 && input.covariance@.len() != 36 {
        Some(("singular_covariance"@, "covariance must contain 6 (diagonal) or 36 entries"@))
    } else if !symmetric(input.covariance@) {
        Some(("singular_covariance"@, "edge covariance is not symmetric"@))
    } else if !m.positive_definite {
        Some(("singular_covariance"@, "edge covariance is not positive definite"@))
    } else if input.valid_from is Some && input.valid_to is Some && input.valid_from->0
        >= input.valid_to->0 {
        Some(("bad_window"@, "valid_from must be smaller than valid_to"@))
    } else {
        None
    }
}

/// What is said of a new edge that would close a loop with the edges there are.
pub open spec fn loop_message(edges: Seq<EdgeRow>, input: EdgeInput, m: LoopMeasure) -> Seq<char> {
    "edge closes a frame loop: "@ + graph::loop_words(
        graph::loop_frames(
            graph::loop_walk(edge_links(edges), input.source@, input.target@)->0,
            input.target@,
        ),
        m,
    )
}

fn list_links(edges: &Vec<EdgeRow>) -> (r: Vec<Hop>)
    ensures
        graph::hop_values(r@) == edge_links(edges@),
        r@.len() == edges@.len(),
{
    let mut out: Vec<Hop> = Vec::new();
    let mut i: usize = 0;
    while i < edges.len()
        invariant
            i <= edges@.len(),
            graph::hop_values(out@) == edge_links(edges@).take(i as int),
            out@.len() == i,
        decreases edges.len() - i,
    {
        let e = &edges[i];
        let ghost before = out@;
        out.push(
            Hop {
                edge_id: e.id,
                version: e.version,
                from: e.source.clone(),
                to: e.target.clone(),
                reversed: false,
                precision: e.sigma_trace,
            },
        );
        assert(graph::hop_values(out@) =~= graph::hop_values(before).push(
            edge_links(edges@)[i as int],
        ));
        i += 1;
        assert(edge_links(edges@).take(i as int) =~= edge_links(edges@).take(i - 1).push(
            edge_links(edges@)[i - 1],
        ));
    }
    assert(edge_links(edges@).take(edges@.len() as int) =~= edge_links(edges@));
    out
}

// ---- versions ---------------------------------------------------------------------------

/// Whether an edge is of a pair of frames.
pub open spec fn of_pair(edges: Seq<EdgeRow>, source: Seq<char>, target: Seq<char>) -> spec_fn(
    int,
) -> bool {
    |i: int| edges[i].source@ == source && edges[i].target@ == target
}

/// The position of the newest version of a pair of frames among the first `n` edges.
pub open spec fn newest(edges: Seq<EdgeRow>, source: Seq<char>, target: Seq<char>, n: int) -> Option<
    int,
>
    decreases n,
{
    if n <= 0 {
        None
    } else {
        let before = newest(edges, source, target, n - 1);
        if of_pair(edges, source, target)(n - 1) && (before is None || edges[before->0].version
            <= edges[n - 1].version) {
            Some(n - 1)
        } else {
            before
        }
    }
}

/// The version that the next edge of a pair of frames gets.
pub open spec fn next_version(edges: Seq<EdgeRow>, source: Seq<char>, target: Seq<char>) -> int {
    match newest(edges, source, target, edges.len() as int) {
        Some(i) => edges[i].version + 1,
        None => 1,
    }
}

/// The newest version of a pair of frames is of that pair, and none of the pair is newer.
pub proof fn law_newest_version_is_newest(
    edges: Seq<EdgeRow>,
    source: Seq<char>,
    target: Seq<char>,
    n: int,
)
    requires
        0 <= n <= edges.len(),
    ensures
        match newest(edges, source, target, n) {
            Some(i) => 0 <= i < n && of_pair(edges, source, target)(i) && forall|k: int|
                0 <= k < n && edges[k].source@ == source && edges[k].target@ == target ==> (
                #[trigger] edges[k]).version <= edges[i].version,
            None => forall|k: int|
                0 <= k < n ==> !((#[trigger] edges[k]).source@ == source && edges[k].target@
                    == target),
        },
    decreases n,
{
    if n > 0 {
        law_newest_version_is_newest(edges, source, target, n - 1);
    }
}

fn find_newest(edges: &Vec<EdgeRow>, source: &str, target: &str) -> (r: Option<usize>)
    ensures
        match r {
            Some(i) => i < edges@.len() && newest(
                edges@,
                source@,
                target@,
                edges@.len() as int,
            ) == Some(i as int),
            None => newest(edges@, source@, target@, edges@.len() as int) is None,
        },
{
    let mut best: Option<usize> = None;
    let mut i: usize = 0;
    while i < edges.len()
        invariant
            i <= edges@.len(),
            match best {
                Some(k) => k < i && newest(edges@, source@, target@, i as int) == Some(k as int),
                None => newest(edges@, source@, target@, i as int) is None,
            },
        decreases edges.len() - i,
    {
        if text::same(edges[i].source.as_str(), source) && text::same(
            edges[i].target.as_str(),
            target,
        ) {
            assert(of_pair(edges@, source@, target@)(i as int));
            match best {
                Some(k) => {
                    if edges[k].version <= edges[i].version {
                        best = Some(i);
                    }
                },
                None => {
                    best = Some(i);
                },
            }
        } else {
            assert(!of_pair(edges@, source@, target@)(i as int));
        }
        i += 1;
    }
    best
}

// ---- blocks that a window touches ----------------------------------------------------------

/// Whether a block's window has a time in common with one that is open where a bound is
/// missing.
pub open spec fn touches(b: BlockRow, from: Option<Nanos>, to: Option<Nanos>) -> bool {
    (to is None || b.start < to->0) && (from is None || b.end > from->0)
}

/// The ids of the blocks that a condition holds for.
pub open spec fn ids_where(blocks: Seq<BlockRow>, holds: spec_fn(BlockRow) -> bool) -> Seq<i64> {
    blocks.filter(holds).map_values(|b: BlockRow| b.id)
}

/// Whether `l2` is `l` without the blocks that a condition holds for, and without their
/// points.
pub open spec fn dropped(l: Ledger, holds: spec_fn(BlockRow) -> bool, l2: Ledger) -> bool {
    let ids = ids_where(l.blocks@, holds);
    &&& l2.blocks@ == db::blocks_without(l.blocks@, ids)
    &&& l2.points@ == db::points_without(l.points@, ids)
    &&& l2.same_facts(l)
}

/// Finished blocks that a window touches.
pub open spec fn finished_in(from: Option<Nanos>, to: Option<Nanos>) -> spec_fn(BlockRow) -> bool {
    |b: BlockRow| b.status is Complete && touches(b, from, to)
}

/// Whether a point went from one frame straight to another.
pub open spec fn point_uses(p: PointRow, source: Seq<char>, target: Seq<char>) -> bool {
    exists|k: int|
        0 <= k < p.provenance.chain@.len() && (#[trigger] p.provenance.chain@[k]).from@ == source
            && p.provenance.chain@[k].to@ == target
}

/// Whether a point of a block went from one frame straight to another.
pub open spec fn uses(l: Ledger, b: BlockRow, source: Seq<char>, target: Seq<char>) -> bool {
    exists|i: int|
        0 <= i < l.points@.len() && (#[trigger] l.points@[i]).block_id == b.id && point_uses(
            l.points@[i],
            source,
            target,
        )
}

/// Finished blocks that a window touches and whose points went from one frame straight
/// to another.
pub open spec fn stale_by(
    l: Ledger,
    source: Seq<char>,
    target: Seq<char>,
    from: Option<Nanos>,
    to: Option<Nanos>,
) -> spec_fn(BlockRow) -> bool {
    |b: BlockRow| b.status is Complete && touches(b, from, to) && uses(l, b, source, target)
}

/// Whether `l2` is `l` without the finished blocks that a window touches.
pub open spec fn invalidated(l: Ledger, from: Option<Nanos>, to: Option<Nanos>, l2: Ledger) -> bool {
    dropped(l, finished_in(from, to), l2)
}

fn in_window(b: &BlockRow, from: Option<Nanos>, to: Option<Nanos>) -> (r: bool)
    ensures
        r == (b.status is Complete && touches(*b, from, to)),
{
    let starts_before = match to {
        Some(t) => b.start < t,
        None => true,
    };
    let ends_after = match from {
        Some(t) => b.end > t,
        None => true,
    };
    b.status == BlockStatus::Complete && starts_before && ends_after
}

/// Drops the finished blocks that a window touches, with their points, and tells how
/// many there were.
pub fn invalidate_for_window(db: &mut Ledger, from: Option<Nanos>, to: Option<Nanos>) -> (r: usize)
    ensures
        r == ids_where(old(db).blocks@, finished_in(from, to)).len(),
        invalidated(*old(db), from, to, *final(db)),
        old(db).wf() ==> final(db).wf(),
{
    let ghost holds = finished_in(from, to);
    let mut ids: Vec<i64> = Vec::new();
    let mut i: usize = 0;
    proof {
        reveal(Seq::filter);
        assert(db.blocks@.take(0) =~= Seq::<BlockRow>::empty());
        assert(ids@ =~= ids_where(db.blocks@.take(0), holds));
    }
    while i < db.blocks.len()
        invariant
            i <= db.blocks@.len(),
            *db == *old(db),
            holds == finished_in(from, to),
            ids@ == ids_where(db.blocks@.take(i as int), holds),
        decreases db.blocks.len() - i,
    {
        proof {
            reveal(Seq::filter);
            assert(db.blocks@.take(i + 1).drop_last() =~= db.blocks@.take(i as int));
        }
        if in_window(&db.blocks[i], from, to) {
            ids.push(db.blocks[i].id);
        }
        i += 1;
        assert(ids@ =~= ids_where(db.blocks@.take(i as int), holds));
    }
    assert(db.blocks@.take(db.blocks@.len() as int) =~= db.blocks@);
    let n: usize = ids.len();
    db.drop_blocks(&ids);
    n
}

fn goes_straight(p: &PointRow, source: &str, target: &str) -> (r: bool)
    ensures
        r == point_uses(*p, source@, target@),
{
    let mut k: usize = 0;
    while k < p.provenance.chain.len()
        invariant
            k <= p.provenance.chain@.len(),
            forall|j: int|
                0 <= j < k ==> !((#[trigger] p.provenance.chain@[j]).from@ == source@
                    && p.provenance.chain@[j].to@ == target@),
        decreases p.provenance.chain.len() - k,
    {
        let h = &p.provenance.chain[k];
        if text::same(h.from.as_str(), source) && text::same(h.to.as_str(), target) {
            assert(p.provenance.chain@[k as int].from@ == source@);
            return true;
        }
        k += 1;
    }
    false
}

fn block_uses(db: &Ledger, b: &BlockRow, source: &str, target: &str) -> (r: bool)
    ensures
        r == uses(*db, *b, source@, target@),
{
    let mut i: usize = 0;
    while i < db.points.len()
        invariant
            i <= db.points@.len(),
            forall|k: int|
                0 <= k < i ==> !((#[trigger] db.points@[k]).block_id == b.id && point_uses(
                    db.points@[k],
                    source@,
                    target@,
                )),
        decreases db.points.len() - i,
    {
        if db.points[i].block_id == b.id && goes_straight(&db.points[i], source, target) {
            assert(db.points@[i as int].block_id == b.id);
            return true;
        }
        i += 1;
    }
    false
}

/// Drops the finished blocks that a window touches and whose points went from one frame
/// straight to another, with their points, and tells how many there were.
pub fn invalidate_for_edge(
    db: &mut Ledger,
    source: &str,
    target: &str,
    from: Option<Nanos>,
    to: Option<Nanos>,
) -> (r: usize)
    ensures
        r == ids_where(
            old(db).blocks@,
            stale_by(*old(db), source@, target@, from, to),
        ).len(),
        dropped(*old(db), stale_by(*old(db), source@, target@, from, to), *final(db)),
        old(db).wf() ==> final(db).wf(),
{
    let ghost holds = stale_by(*db, source@, target@, from, to);
    let mut ids: Vec<i64> = Vec::new();
    let mut i: usize = 0;
    proof {
        reveal(Seq::filter);
        assert(db.blocks@.take(0) =~= Seq::<BlockRow>::empty());
        assert(ids@ =~= ids_where(db.blocks@.take(0), holds));
    }
    while i < db.blocks.len()
        invariant
            i <= db.blocks@.len(),
            *db == *old(db),
            holds == stale_by(*db, source@, target@, from, to),
            ids@ == ids_where(db.blocks@.take(i as int), holds),
        decreases db.blocks.len() - i,
    {
        proof {
            reveal(Seq::filter);
            assert(db.blocks@.take(i + 1).drop_last() =~= db.blocks@.take(i as int));
        }
        if in_window(&db.blocks[i], from, to) && block_uses(db, &db.blocks[i], source, target) {
            ids.push(db.blocks[i].id);
        }
        i += 1;
        assert(ids@ =~= ids_where(db.blocks@.take(i as int), holds));
    }
    assert(db.blocks@.take(db.blocks@.len() as int) =~= db.blocks@);
    let n: usize = ids.len();
    db.drop_blocks(&ids);
    n
}

proof fn lemma_only_these_go(l: Ledger, holds: spec_fn(BlockRow) -> bool, l2: Ledger)
    requires
        l.cache_wf(),
        dropped(l, holds, l2),
    ensures
        forall|b: BlockRow|
            #![trigger l2.blocks@.contains(b)]
            l2.blocks@.contains(b) <==> l.blocks@.contains(b) && !holds(b),
        forall|p: PointRow, b: BlockRow|
            #![trigger l.points@.contains(p), l.blocks@.contains(b)]
            l.points@.contains(p) && l.blocks@.contains(b) && p.block_id == b.id ==> (
            l2.points@.contains(p) <==> !holds(b)),
{
    let ids = ids_where(l.blocks@, holds);
    let found = l.blocks@.filter(holds);
    let any_block = |a: BlockRow, b: BlockRow|
        a.id < b.id && !(a.generation_id == b.generation_id && a.start == b.start);
    let any_point = |a: PointRow, b: PointRow| a.id < b.id;
    let left = |b: BlockRow| !db::block_listed(ids, b);
    let left_points = |p: PointRow| !db::point_listed(ids, p);
    db::lemma_filter_keeps_order(l.blocks@, holds, any_block);
    db::lemma_filter_keeps_order(l.blocks@, left, any_block);
    db::lemma_filter_keeps_order(l.points@, left_points, any_point);
    assert forall|b: BlockRow| l.blocks@.contains(b) implies ids.contains(b.id) == holds(b) by {
        if holds(b) {
            assert(found.contains(b));
            let k = choose|k: int| 0 <= k < found.len() && found[k] == b;
            assert(ids[k] == b.id);
        }
        if ids.contains(b.id) {
            let k = choose|k: int| 0 <= k < ids.len() && ids[k] == b.id;
            let other = found[k];
            assert(holds(other));
            let x = choose|x: int| 0 <= x < l.blocks@.len() && l.blocks@[x] == b;
            let y = choose|y: int| 0 <= y < l.blocks@.len() && l.blocks@[y] == other;
            assert(x == y);
        }
    }
    assert forall|b: BlockRow|
        #![trigger l2.blocks@.contains(b)]
        l2.blocks@.contains(b) implies l.blocks@.contains(b) && !holds(b) by {
        let k = choose|k: int| 0 <= k < l2.blocks@.len() && l2.blocks@[k] == b;
        assert(left(l2.blocks@[k]));
    }
    assert forall|b: BlockRow|
        #![trigger l2.blocks@.contains(b)]
        l.blocks@.contains(b) && !holds(b) implies l2.blocks@.contains(b) by {
        assert(left(b));
    }
    assert forall|p: PointRow, b: BlockRow|
        #![trigger l.points@.contains(p), l.blocks@.contains(b)]
        l.points@.contains(p) && l.blocks@.contains(b) && p.block_id == b.id implies (
    l2.points@.contains(p) <==> !holds(b)) by {
        if !holds(b) {
            assert(left_points(p));
        }
        if l2.points@.contains(p) {
            let k = choose|k: int| 0 <= k < l2.points@.len() && l2.points@[k] == p;
            assert(left_points(l2.points@[k]));
        }
    }
}

/// Invalidation is local: finished blocks that the window does not touch stay, with
/// their points, and those that it touches are gone, with theirs.
pub proof fn law_invalidation_is_local(l: Ledger, from: Option<Nanos>, to: Option<Nanos>, l2: Ledger)
    requires
        l.cache_wf(),
        invalidated(l, from, to, l2),
    ensures
        forall|b: BlockRow|
            #![trigger l2.blocks@.contains(b)]
            l2.blocks@.contains(b) <==> l.blocks@.contains(b) && !(b.status is Complete && touches(
                b,
                from,
                to,
            )),
        forall|p: PointRow, b: BlockRow|
            #![trigger l.points@.contains(p), l.blocks@.contains(b)]
            l.points@.contains(p) && l.blocks@.contains(b) && p.block_id == b.id ==> (
            l2.points@.contains(p) <==> !(b.status is Complete && touches(b, from, to))),
{
    lemma_only_these_go(l, finished_in(from, to), l2);
}

// ---- adding an edge -----------------------------------------------------------------------

/// Whether a row is that of an edge that was added.
pub open spec fn is_edge_row(
    row: EdgeRow,
    edges: Seq<EdgeRow>,
    input: EdgeInput,
    m: EdgeMeasure,
    now: Nanos,
) -> bool {
    &&& row.id == edges.len() + 1
    &&& row.source@ == input.source@
    &&& row.target@ == input.target@
    &&& row.version == next_version(edges, input.source@, input.target@)
    &&& row.supersedes == match newest(edges, input.source@, input.target@, edges.len() as int) {
        Some(i) => Some(edges[i].id),
        None => None,
    }
    &&& row.valid_from == input.valid_from
    &&& row.valid_to == input.valid_to
    &&& row.q == m.q
    &&& row.xyz == input.translation
    &&& row.cov@ == input.full_covariance()
    &&& row.sigma_trace == m.sigma_trace
    &&& row.origin@ == match input.origin {
        Some(o) => o@,
        None => "manual"@,
    }
    &&& row.created_at == now
}

/// Whether `mid` is `l` with one more edge.
pub open spec fn extended(
    l: Ledger,
    input: EdgeInput,
    m: EdgeMeasure,
    now: Nanos,
    mid: Ledger,
) -> bool {
    &&& mid.edges@.len() == l.edges@.len() + 1
    &&& mid.edges@.drop_last() == l.edges@
    &&& is_edge_row(mid.edges@.last(), l.edges@, input, m, now)
    &&& mid.generations == l.generations
    &&& mid.packets == l.packets
    &&& mid.poses == l.poses
    &&& mid.frames == l.frames
    &&& mid.blocks == l.blocks
    &&& mid.points == l.points
}

/// Whether `l2` is `l` without the blocks that a new version of an edge makes stale.
pub open spec fn revised(l: Ledger, input: EdgeInput, l2: Ledger) -> bool {
    dropped(
        l,
        stale_by(l, input.source@, input.target@, input.valid_from, input.valid_to),
        l2,
    )
}

/// Whether adding an edge leads from one ledger to another: the edge is there as a new
/// version, and the finished blocks that its window touches and whose points went along
/// an edge of its pair of frames are gone.
pub open spec fn added(
    l: Ledger,
    input: EdgeInput,
    m: EdgeMeasure,
    now: Nanos,
    l2: Ledger,
) -> bool {
    exists|mid: Ledger| #[trigger] extended(l, input, m, now, mid) && revised(mid, input, l2)
}

/// The walk back that a new edge would close a loop with, to be measured before the edge
/// is added.
pub fn loop_of(db: &Ledger, input: &EdgeInput) -> (r: Option<Vec<Hop>>)
    requires
        db.edges@.len() < usize::MAX,
    ensures
        match r {
            Some(w) => graph::loop_walk(edge_links(db.edges@), input.source@, input.target@)
                == Some(graph::hop_values(w@)),
            None => graph::loop_walk(edge_links(db.edges@), input.source@, input.target@) is None,
        },
{
    let links = list_links(&db.edges);
    assert(graph::hop_values(links@).len() == links@.len());
    graph::find_loop(&links, input.source.as_str(), input.target.as_str())
}

/// Adds a transform as the next version of its pair of frames and drops the derived
/// blocks that its window touches and that went along an older one. Gives the edge's id and version.
/// `closing` is the measure of the loop that `loop_of` finds.
pub fn add_edge(
    db: &mut Ledger,
    input: &EdgeInput,
    m: &EdgeMeasure,
    closing: &LoopMeasure,
    now: Nanos,
) -> (r: AppResult<(i64, i64)>)
    requires
        old(db).wf(),
        old(db).edges@.len() < i64::MAX,
        old(db).edges@.len() < usize::MAX,
        next_version(old(db).edges@, input.source@, input.target@) <= i64::MAX,
        db::bound_in_range(input.valid_from),
        db::bound_in_range(input.valid_to),
    ensures
        final(db).wf(),
        match r {
            Ok((id, version)) => {
                &&& fault(*input, *m) is None
                &&& !closes(old(db).edges@, *input)
                &&& added(*old(db), *input, *m, now, *final(db))
                &&& id == old(db).edges@.len() + 1
                &&& version == next_version(old(db).edges@, input.source@, input.target@)
            },
            Err(e) => {
                &&& *final(db) == *old(db)
                &&& match fault(*input, *m) {
                    Some(f) => e.says(f.0, f.1),
                    None => closes(old(db).edges@, *input) && e.code@ == "cycle_detected"@
                        && e.message@ == loop_message(old(db).edges@, *input, *closing),
                }
            },
        },
{
    if input.covariance.len() != 6 && input.covariance.len() != 36 {
        return Err(AppError::singular("covariance must contain 6 (diagonal) or 36 entries"));
    }
    if !is_symmetric(&input.covariance) {
        return Err(AppError::singular("edge covariance is not symmetric"));
    }
    if !m.positive_definite {
        return Err(AppError::singular("edge covariance is not positive definite"));
    }
    if let Some(a) = input.valid_from {
        if let Some(b) = input.valid_to {
            if a >= b {
                return Err(
                    AppError::new("bad_window", "valid_from must be smaller than valid_to"),
                );
            }
        }
    }
    let links = list_links(&db.edges);
    match graph::check_cycle(&links, input.source.as_str(), input.target.as_str(), closing) {
        Ok(()) => {},
        Err(e) => {
            let words = graph::say_loop(&e.cycle, closing);
            let message = text::join2("edge closes a frame loop: ", words.as_str());
            assert(message@ == loop_message(db.edges@, *input, *closing));
            return Err(AppError::cycle(message.as_str()));
        },
    }
    let ghost before = *db;
    let (version, supersedes): (i64, Option<i64>) = match find_newest(
        &db.edges,
        input.source.as_str(),
        input.target.as_str(),
    ) {
        Some(i) => (db.edges[i].version + 1, Some(db.edges[i].id)),
        None => (1, None),
    };
    let cov = if input.covariance.len() == 6 {
        geo::diagonal(&input.covariance)
    } else {
        scalar::copied(&input.covariance)
    };
    let origin = match &input.origin {
        Some(o) => o.clone(),
        None => "manual".to_owned(),
    };
    let id: i64 = db.edges.len() as i64 + 1;
    db.edges.push(
        EdgeRow {
            id,
            source: input.source.clone(),
            target: input.target.clone(),
            version,
            supersedes,
            valid_from: input.valid_from,
            valid_to: input.valid_to,
            q: m.q,
            xyz: input.translation,
            cov,
            sigma_trace: m.sigma_trace,
            origin,
            created_at: now,
        },
    );
    let ghost mid = *db;
    assert(mid.edges@.drop_last() =~= before.edges@);
    assert(extended(before, *input, *m, now, mid));
    assert(mid.wf()) by {
        assert forall|i: int| 0 <= i < mid.edges@.len() implies (#[trigger] mid.edges@[i]).id == i
            + 1 && db::bound_in_range(mid.edges@[i].valid_from) && db::bound_in_range(
            mid.edges@[i].valid_to,
        ) by {
            if i < before.edges@.len() {
                assert(mid.edges@[i] == before.edges@[i]);
            }
        }
    }
    let _dropped: usize = invalidate_for_edge(
        db,
        input.source.as_str(),
        input.target.as_str(),
        input.valid_from,
        input.valid_to,
    );
    Ok((id, version))
}

/// Whether a window has a time in common with one that is open where a bound is missing.
pub open spec fn meets(w: Window, from: Option<Nanos>, to: Option<Nanos>) -> bool {
    (to is None || w.start < to->0) && (from is None || w.end > from->0)
}

/// Adding an edge drops those finished blocks that its window touches and whose points
/// went along an edge of its pair of frames, with their points, and no others.
pub proof fn law_revision_drops_only_what_uses_the_edge(
    l: Ledger,
    input: EdgeInput,
    m: EdgeMeasure,
    now: Nanos,
    l2: Ledger,
)
    requires
        l.cache_wf(),
        added(l, input, m, now, l2),
    ensures
        forall|b: BlockRow|
            #![trigger l2.blocks@.contains(b)]
            l2.blocks@.contains(b) <==> l.blocks@.contains(b) && !(b.status is Complete && touches(
                b,
                input.valid_from,
                input.valid_to,
            ) && uses(l, b, input.source@, input.target@)),
        forall|p: PointRow, b: BlockRow|
            #![trigger l.points@.contains(p), l.blocks@.contains(b)]
            l.points@.contains(p) && l.blocks@.contains(b) && p.block_id == b.id ==> (
            l2.points@.contains(p) <==> !(b.status is Complete && touches(
                b,
                input.valid_from,
                input.valid_to,
            ) && uses(l, b, input.source@, input.target@))),
{
    let mid = choose|mid: Ledger| #[trigger]
        extended(l, input, m, now, mid) && revised(mid, input, l2);
    let stale = stale_by(mid, input.source@, input.target@, input.valid_from, input.valid_to);
    lemma_only_these_go(mid, stale, l2);
    assert forall|b: BlockRow| uses(mid, b, input.source@, input.target@) == uses(
        l,
        b,
        input.source@,
        input.target@,
    ) by {
        assert(mid.points@ == l.points@);
    }
    assert(forall|b: BlockRow|
        #![trigger l2.blocks@.contains(b)]
        l2.blocks@.contains(b) <==> mid.blocks@.contains(b) && !stale(b));
    assert(forall|p: PointRow, b: BlockRow|
        #![trigger mid.points@.contains(p), mid.blocks@.contains(b)]
        mid.points@.contains(p) && mid.blocks@.contains(b) && p.block_id == b.id ==> (
        l2.points@.contains(p) <==> !stale(b)));
}

/// Adding an edge leaves every block outside the edge's window as it was and up to date,
/// so that the next build keeps it.
pub proof fn law_revision_keeps_blocks_outside_its_window(
    l: Ledger,
    input: EdgeInput,
    m: EdgeMeasure,
    now: Nanos,
    l2: Ledger,
    w: Window,
)
    requires
        l.wf(),
        added(l, input, m, now, l2),
        !meets(w, input.valid_from, input.valid_to),
    ensures
        blocks::signature_of(l2, w) == blocks::signature_of(l, w),
        builder::up_to_date(l, w) && (forall|i: int|
            0 <= i < l.blocks@.len() && builder::at_window(#[trigger] l.blocks@[i], w)
                ==> l.blocks@[i].end == w.end) ==> builder::up_to_date(l2, w),
{
    let mid = choose|mid: Ledger| #[trigger]
        extended(l, input, m, now, mid) && revised(mid, input, l2);
    let a = l.edges@;
    let b = mid.edges@;
    let n = a.len() as int;
    assert forall|i: int| 0 <= i < n implies a[i] == b[i] by {
        assert(b.drop_last()[i] == b[i]);
    }
    rows::lemma_same_rows(
        n,
        blocks::edge_matters(a, w),
        blocks::edge_matters(b, w),
    );
    let at = rows::all_where(n, blocks::edge_matters(a, w));
    assert(!blocks::edge_matters(b, w)(n));
    assert(rows::all_where(n + 1, blocks::edge_matters(b, w)) == at);
    rows::lemma_all_where(n, blocks::edge_matters(a, w));
    assert(at.map_values(|i: int| blocks::edge_part(a[i])) =~= at.map_values(
        |i: int| blocks::edge_part(b[i]),
    ));
    assert(blocks::signature_of(mid, w) == blocks::signature_of(l, w));
    blocks::law_signature_depends_on_facts_alone(l2, mid, w);
    if builder::up_to_date(l, w) && (forall|i: int|
        0 <= i < l.blocks@.len() && builder::at_window(#[trigger] l.blocks@[i], w)
            ==> l.blocks@[i].end == w.end) {
        let i = choose|i: int| #![trigger l.blocks@[i]]
            0 <= i < l.blocks@.len() && builder::at_window(l.blocks@[i], w)
                && l.blocks@[i].status is Complete && l.blocks@[i].signature@
                == blocks::signature_of(l, w);
        let kept = l.blocks@[i];
        assert(mid.blocks@.contains(kept));
        lemma_only_these_go(
            mid,
            stale_by(mid, input.source@, input.target@, input.valid_from, input.valid_to),
            l2,
        );
        assert(l2.blocks@.contains(kept));
        let k = choose|k: int| 0 <= k < l2.blocks@.len() && l2.blocks@[k] == kept;
        assert(builder::at_window(l2.blocks@[k], w));
    }
}

/// Frames that no chain of edges leads back to themselves stay so: an edge is added only
/// where it closes no loop.
pub proof fn law_added_edge_keeps_frames_loop_free(
    l: Ledger,
    input: EdgeInput,
    m: EdgeMeasure,
    now: Nanos,
    l2: Ledger,
)
    requires
        graph::loop_free(edge_links(l.edges@)),
        !closes(l.edges@, input),
        added(l, input, m, now, l2),
    ensures
        graph::loop_free(edge_links(l2.edges@)),
{
    let mid = choose|mid: Ledger| #[trigger]
        extended(l, input, m, now, mid) && revised(mid, input, l2);
    let links = edge_links(l.edges@);
    let link = edge_links(mid.edges@).last();
    graph::law_link_that_closes_no_loop_keeps_links_loop_free(links, link);
    assert forall|i: int| 0 <= i < links.len() implies #[trigger] links[i] == edge_links(
        mid.edges@,
    )[i] by {
        assert(mid.edges@.drop_last()[i] == mid.edges@[i]);
    }
    assert(edge_links(mid.edges@) =~= links.push(link));
}

/// Without edges there is no loop.
pub proof fn law_no_edges_make_no_loop(edges: Seq<EdgeRow>)
    requires
        edges.len() == 0,
    ensures
        graph::loop_free(edge_links(edges)),
{
    let links = edge_links(edges);
    assert forall|chain: Seq<HopValue>| #[trigger] graph::is_trail(links, chain) implies
        chain.last().to != chain[0].from by {
        assert(links.contains(chain[0]));
    }
}

// ---- adding an edge, in plain terms ---------------------------------------------------------------

/// An added edge stands behind all others, with the version after the highest of its two
/// frames, and tells which edge it supersedes; the first of its frames has version one.
pub proof fn law_added_edge_is_the_next_version(
    l: Ledger,
    input: EdgeInput,
    m: EdgeMeasure,
    now: Nanos,
    l2: Ledger,
    k: int,
)
    requires
        l.wf(),
        added(l, input, m, now, l2),
    ensures
        l2.edges@.len() == l.edges@.len() + 1,
        0 <= k < l.edges@.len() ==> l2.edges@[k] == l.edges@[k],
        ({
            let row = l2.edges@[l.edges@.len() as int];
            &&& row.id == l.edges@.len() + 1
            &&& row.source@ == input.source@
            &&& row.target@ == input.target@
            &&& row.valid_from == input.valid_from
            &&& row.valid_to == input.valid_to
            &&& row.xyz == input.translation
            &&& row.q == m.q
            &&& row.sigma_trace == m.sigma_trace
            &&& row.created_at == now
            &&& input.origin is Some ==> row.origin@ == input.origin->0@
            &&& input.origin is None ==> row.origin@ == "manual"@
            &&& 0 <= k < l.edges@.len() && l.edges@[k].source@ == input.source@
                && l.edges@[k].target@ == input.target@ ==> l.edges@[k].version < row.version
            &&& row.supersedes is None ==> row.version == 1 && forall|i: int|
                0 <= i < l.edges@.len() ==> !((#[trigger] l.edges@[i]).source@ == input.source@
                    && l.edges@[i].target@ == input.target@)
            &&& row.supersedes matches Some(id) ==> {
                &&& 1 <= id <= l.edges@.len()
                &&& l.edges@[id - 1].id == id
                &&& l.edges@[id - 1].source@ == input.source@
                &&& l.edges@[id - 1].target@ == input.target@
                &&& l.edges@[id - 1].version + 1 == row.version
            }
        }),
{
    let mid = choose|mid: Ledger| #[trigger]
        extended(l, input, m, now, mid) && revised(mid, input, l2);
    let n = l.edges@.len() as int;
    law_newest_version_is_newest(l.edges@, input.source@, input.target@, n);
    if 0 <= k < n {
        assert(mid.edges@.drop_last()[k] == mid.edges@[k]);
        assert(l.edges@[k].id == k + 1);
    }
    if let Some(i) = newest(l.edges@, input.source@, input.target@, n) {
        assert(of_pair(l.edges@, input.source@, input.target@)(i));
        assert(l.edges@[i].id == i + 1);
    }
}

/// Adding an edge drops a finished block where the block starts before the edge's window
/// ends and ends after it starts, and some point of the block went straight from the one
/// frame to the other; it drops no other block.
pub proof fn law_added_edge_drops_blocks_that_went_along_it(
    l: Ledger,
    input: EdgeInput,
    m: EdgeMeasure,
    now: Nanos,
    l2: Ledger,
    b: BlockRow,
)
    requires
        l.cache_wf(),
        added(l, input, m, now, l2),
        l.blocks@.contains(b),
    ensures
        !l2.blocks@.contains(b) <==> {
            &&& b.status is Complete
            &&& input.valid_to is Some ==> b.start < input.valid_to->0
            &&& input.valid_from is Some ==> b.end > input.valid_from->0
            &&& exists|i: int, k: int| #![trigger l.points@[i].provenance.chain@[k]]
                0 <= i < l.points@.len() && l.points@[i].block_id == b.id && 0 <= k
                    < l.points@[i].provenance.chain@.len()
                    && l.points@[i].provenance.chain@[k].from@ == input.source@
                    && l.points@[i].provenance.chain@[k].to@ == input.target@
        },
{
    law_revision_drops_only_what_uses_the_edge(l, input, m, now, l2);
    if uses(l, b, input.source@, input.target@) {
        let i = choose|i: int|
            0 <= i < l.points@.len() && (#[trigger] l.points@[i]).block_id == b.id && point_uses(
                l.points@[i],
                input.source@,
                input.target@,
            );
        let p = l.points@[i];
        let k = choose|k: int|
            0 <= k < p.provenance.chain@.len() && (#[trigger] p.provenance.chain@[k]).from@
                == input.source@ && p.provenance.chain@[k].to@ == input.target@;
        assert(l.points@[i].provenance.chain@[k].from@ == input.source@);
    }
    if exists|i: int, k: int| #![trigger l.points@[i].provenance.chain@[k]]
        0 <= i < l.points@.len() && l.points@[i].block_id == b.id && 0 <= k
            < l.points@[i].provenance.chain@.len() && l.points@[i].provenance.chain@[k].from@
            == input.source@ && l.points@[i].provenance.chain@[k].to@ == input.target@ {
        let (i, k) = choose|i: int, k: int| #![trigger l.points@[i].provenance.chain@[k]]
            0 <= i < l.points@.len() && l.points@[i].block_id == b.id && 0 <= k
                < l.points@[i].provenance.chain@.len() && l.points@[i].provenance.chain@[k].from@
                == input.source@ && l.points@[i].provenance.chain@[k].to@ == input.target@;
        assert(point_uses(l.points@[i], input.source@, input.target@));
        assert(uses(l, b, input.source@, input.target@));
    }
}

/// Invalidating a span drops the finished blocks that start before it ends and end after it
/// starts, and no others; imported facts stay.
pub proof fn law_span_drops_the_blocks_that_meet_it(
    l: Ledger,
    from: Option<Nanos>,
    to: Option<Nanos>,
    l2: Ledger,
    b: BlockRow,
)
    requires
        l.cache_wf(),
        invalidated(l, from, to, l2),
        l.blocks@.contains(b),
    ensures
        !l2.blocks@.contains(b) <==> {
            &&& b.status is Complete
            &&& to is Some ==> b.start < to->0
            &&& from is Some ==> b.end > from->0
        },
        l2.edges == l.edges,
        l2.packets == l.packets,
        l2.poses == l.poses,
{
    law_invalidation_is_local(l, from, to, l2);
}

/// An edge is in order where it has six or 36 entries of covariance, symmetric and positive
/// definite, and a window that does not end before it starts or as it does.
pub proof fn law_which_edges_are_in_order(input: EdgeInput, m: EdgeMeasure)
    ensures
        fault(input, m) is None <==> {
            &&& input.covariance@.len() == 6 || input.covariance@.len() == 36
            &&& input.covariance@.len() == 36 ==> forall|i: int, j: int|
                0 <= i < 6 && 0 <= j < 6 ==> #[trigger] entries_agree(
                    input.covariance@,
                    6 * i + j,
                    6 * j + i,
                )
            &&& m.positive_definite
            &&& input.valid_from is Some && input.valid_to is Some ==> input.valid_from->0
                < input.valid_to->0
        },
        fault(input, m) matches Some((code, message)) ==> (code == "bad_window"@ <==> (
        input.covariance@.len() == 6 || input.covariance@.len() == 36) && symmetric(
            input.covariance@,
        ) && m.positive_definite),
{
    reveal_strlit("bad_window");
    reveal_strlit("singular_covariance");
    assert("bad_window"@.len() == 10 && "singular_covariance"@.len() == 19);
}

/// Where a quaternion is given it counts, whether or not angles are given too; angles count
/// where there is none, and without either an edge does not turn.
pub proof fn law_quaternion_counts_before_angles(input: EdgeInput)
    ensures
        input.quat matches Some(q) ==> input.rotation_given() == Rotation::Quaternion(q),
        input.quat is None && input.euler_rpy is Some ==> input.rotation_given()
            == Rotation::Euler(input.euler_rpy->0),
        input.quat is None && input.euler_rpy is None ==> input.rotation_given()
            == Rotation::Identity,
{
}

/// Six entries of covariance are the diagonal of one that is zero elsewhere; others are the
/// covariance as they are.
pub proof fn law_six_entries_are_a_diagonal(input: EdgeInput, i: int, j: int)
    requires
        0 <= i < 6,
        0 <= j < 6,
    ensures
        input.covariance@.len() == 6 ==> {
            &&& input.full_covariance().len() == 36
            &&& input.full_covariance()[7 * i] == input.covariance@[i]
            &&& i != j ==> input.full_covariance()[6 * i + j].bits == 0
        },
        input.covariance@.len() != 6 ==> input.full_covariance() == input.covariance@,
{
    assert((7 * i) / 6 == i && (7 * i) % 6 == i);
    assert((6 * i + j) / 6 == i && (6 * i + j) % 6 == j);
}

/// Whether there is an edge from one frame to another.
pub open spec fn leads_to(edges: Seq<EdgeRow>, from: Seq<char>, to: Seq<char>) -> bool {
    exists|k: int| 0 <= k < edges.len() && (#[trigger] edges[k]).source@ == from
        && edges[k].target@ == to
}

/// Whether frames are those of the loop that an edge closes: from its target along edges to
/// its source, and along the edge itself back to its target.
pub open spec fn goes_round(
    edges: Seq<EdgeRow>,
    source: Seq<char>,
    target: Seq<char>,
    f: Seq<Seq<char>>,
) -> bool {
    &&& f.len() >= 2
    &&& f[0] == target
    &&& f[f.len() - 2] == source
    &&& f[f.len() - 1] == target
    &&& forall|i: int| 0 <= i < f.len() - 2 ==> leads_to(edges, #[trigger] f[i], f[i + 1])
}

/// An edge that closes a loop is refused with the frames of that loop, its residuals and
/// the trace of its covariance.
pub proof fn law_refused_edge_is_told_its_loop(
    edges: Seq<EdgeRow>,
    input: EdgeInput,
    m: LoopMeasure,
)
    requires
        closes(edges, input),
    ensures
        exists|f: Seq<Seq<char>>| #[trigger]
            goes_round(edges, input.source@, input.target@, f) && loop_message(edges, input, m)
                == "edge closes a frame loop: "@ + (graph::arrows(f) + "; residual "@
                + m.residual.trans_text@ + " m, "@ + m.residual.rot_text@
                + " rad; covariance trace "@ + m.trace_text@),
{
    let links = edge_links(edges);
    let src = input.source@;
    let dst = input.target@;
    graph::law_loop_is_found_where_there_is_one(links, src, dst);
    let w = graph::loop_walk(links, src, dst)->0;
    let f = graph::loop_frames(w, dst);
    if src != dst {
        assert(f.len() == w.len() + 2);
        assert(f[w.len() as int] == w[w.len() - 1].to);
        assert forall|i: int| 0 <= i < f.len() - 2 implies leads_to(edges, #[trigger] f[i], f[i + 1]) by {
            assert(links.contains(w[i]));
            let k = choose|k: int| 0 <= k < links.len() && links[k] == w[i];
            assert(edges[k].source@ == w[i].from && edges[k].target@ == w[i].to);
            if i > 0 {
                assert(graph::extends(w.take(i), w[i]));
                assert(w.take(i).last() == w[i - 1]);
            }
            assert(f[i + 1] == w[i].to);
        }
    }
    assert(goes_round(edges, src, dst, f));
}

/// An added edge has the covariance that was given: 36 entries as they are, six on the
/// diagonal with zeros elsewhere.
pub proof fn law_added_edge_has_the_covariance_given(
    l: Ledger,
    input: EdgeInput,
    m: EdgeMeasure,
    now: Nanos,
    l2: Ledger,
    i: int,
    j: int,
)
    requires
        l.wf(),
        added(l, input, m, now, l2),
        0 <= i < 6,
        0 <= j < 6,
    ensures
        ({
            let cov = l2.edges@[l.edges@.len() as int].cov@;
            &&& input.covariance@.len() == 36 ==> cov == input.covariance@
            &&& input.covariance@.len() == 6 ==> {
                &&& cov.len() == 36
                &&& cov[7 * i] == input.covariance@[i]
                &&& i != j ==> cov[6 * i + j].bits == 0
            }
        }),
{
    let mid = choose|mid: Ledger| #[trigger]
        extended(l, input, m, now, mid) && revised(mid, input, l2);
    law_six_entries_are_a_diagonal(input, i, j);
    assert(l2.edges@ == mid.edges@);
    assert(mid.edges@[l.edges@.len() as int] == mid.edges@.last());
}

} // verus!
