//! Transform graph: versioned edges with validity windows, loop checks, and
//! deterministic enumeration and ranking of paths between frames.

use crate::order;
use crate::order::Part;
use crate::rows;
use crate::scalar::Scalar;
use crate::text;
use crate::time::Nanos;
use vstd::prelude::*;
use vstd::string::*;

verus! {

/// The most hops a path of the transform graph may have.
pub const MAX_HOPS: usize = 8;

// ---- hops and walks -------------------------------------------------------

/// One step from a frame to a neighbouring frame.
#[derive(Clone, Debug)]
pub struct Hop {
    pub edge_id: i64,
    pub version: i64,
    pub from: String,
    pub to: String,
    /// Whether the step goes against the direction of its edge.
    pub reversed: bool,
    pub precision: Scalar,
}

/// What a hop stands for.
pub struct HopValue {
    pub edge_id: int,
    pub version: int,
    pub from: Seq<char>,
    pub to: Seq<char>,
    pub reversed: bool,
    pub precision: Scalar,
}

impl View for Hop {
    type V = HopValue;

    open spec fn view(&self) -> HopValue {
        HopValue {
            edge_id: self.edge_id as int,
            version: self.version as int,
            from: self.from@,
            to: self.to@,
            reversed: self.reversed,
            precision: self.precision,
        }
    }
}

/// What a list of hops stands for.
pub open spec fn hop_values(h: Seq<Hop>) -> Seq<HopValue> {
    h.map_values(|x: Hop| x@)
}

/// What a list of hop lists stands for.
pub open spec fn walk_values(w: Seq<Vec<Hop>>) -> Seq<Seq<HopValue>> {
    w.map_values(|x: Vec<Hop>| hop_values(x@))
}

/// Whether a chain of hops touches a frame.
pub open spec fn visits(chain: Seq<HopValue>, frame: Seq<char>) -> bool {
    exists|i: int|
        0 <= i < chain.len() && ((#[trigger] chain[i]).from == frame || chain[i].to == frame)
}

/// Whether a link goes on from the end of a chain to a frame it has not touched.
pub open spec fn extends(chain: Seq<HopValue>, link: HopValue) -> bool {
    link.from == chain.last().to && !visits(chain, link.to)
}

/// The walks that start with `chain`, enter no frame again, stop at `to` and have
/// at most `limit` hops, in the order in which a depth-first search meets them.
pub open spec fn walks(links: Seq<HopValue>, chain: Seq<HopValue>, to: Seq<char>, limit: int)
    -> Seq<Seq<HopValue>>
    decreases limit - chain.len(), links.len() + 1,
{
    if chain.last().to == to {
        seq![chain]
    } else if chain.len() >= limit {
        Seq::empty()
    } else {
        walks_via(links, chain, to, limit, links.len() as int)
    }
}

/// The walks among them whose next hop is one of the first `k` links.
pub open spec fn walks_via(
    links: Seq<HopValue>,
    chain: Seq<HopValue>,
    to: Seq<char>,
    limit: int,
    k: int,
) -> Seq<Seq<HopValue>>
    decreases limit - chain.len(), k,
{
    if k <= 0 || k > links.len() || chain.len() >= limit {
        Seq::empty()
    } else {
        let rest = walks_via(links, chain, to, limit, k - 1);
        if extends(chain, links[k - 1]) {
            rest + walks(links, chain.push(links[k - 1]), to, limit)
        } else {
            rest
        }
    }
}

/// The walks from one frame to another whose first hop is one of the first `k`
/// links, those of later links first.
pub open spec fn walks_from(
    links: Seq<HopValue>,
    from: Seq<char>,
    to: Seq<char>,
    limit: int,
    k: int,
) -> Seq<Seq<HopValue>>
    decreases k,
{
    if k <= 0 {
        Seq::empty()
    } else {
        let rest = walks_from(links, from, to, limit, k - 1);
        if links[k - 1].from == from {
            walks(links, seq![links[k - 1]], to, limit) + rest
        } else {
            rest
        }
    }
}

/// All walks from one frame to another.
pub open spec fn all_walks(links: Seq<HopValue>, from: Seq<char>, to: Seq<char>, limit: int)
    -> Seq<Seq<HopValue>> {
    walks_from(links, from, to, limit, links.len() as int)
}

/// Whether a chain of hops is a walk along `links` that starts at `from`, enters
/// no frame a second time, reaches `to` with its last hop and not before, and has
/// at most `limit` hops.
pub open spec fn is_walk(
    links: Seq<HopValue>,
    chain: Seq<HopValue>,
    from: Seq<char>,
    to: Seq<char>,
    limit: int,
) -> bool {
    &&& 1 <= chain.len() <= limit
    &&& chain[0].from == from
    &&& chain.last().to == to
    &&& forall|i: int| 0 <= i < chain.len() ==> #[trigger] links.contains(chain[i])
    &&& forall|i: int| 1 <= i < chain.len() ==> extends(#[trigger] chain.take(i), chain[i])
    &&& forall|i: int| 0 <= i < chain.len() - 1 ==> (#[trigger] chain[i]).to != to
}

/// Whether a chain can be the start of a walk.
spec fn is_start(
    links: Seq<HopValue>,
    chain: Seq<HopValue>,
    from: Seq<char>,
    to: Seq<char>,
    limit: int,
) -> bool {
    &&& 1 <= chain.len() <= limit
    &&& chain[0].from == from
    &&& forall|i: int| 0 <= i < chain.len() ==> #[trigger] links.contains(chain[i])
    &&& forall|i: int| 1 <= i < chain.len() ==> extends(#[trigger] chain.take(i), chain[i])
    &&& forall|i: int| 0 <= i < chain.len() - 1 ==> (#[trigger] chain[i]).to != to
}

proof fn lemma_longer_start(
    links: Seq<HopValue>,
    chain: Seq<HopValue>,
    from: Seq<char>,
    to: Seq<char>,
    limit: int,
    link: HopValue,
)
    requires
        is_start(links, chain, from, to, limit),
        chain.len() < limit,
        chain.last().to != to,
        links.contains(link),
        extends(chain, link),
    ensures
        is_start(links, chain.push(link), from, to, limit),
{
    let c = chain.push(link);
    assert forall|i: int| 1 <= i < c.len() implies extends(#[trigger] c.take(i), c[i]) by {
        if i < chain.len() {
            assert(c.take(i) =~= chain.take(i));
        } else {
            assert(c.take(i) =~= chain);
        }
    }
}

proof fn lemma_walks_are_sound(
    links: Seq<HopValue>,
    chain: Seq<HopValue>,
    from: Seq<char>,
    to: Seq<char>,
    limit: int,
    k: int,
    w: Seq<HopValue>,
)
    requires
        is_start(links, chain, from, to, limit),
        k == links.len() + 1 && walks(links, chain, to, limit).contains(w) || 0 <= k <= links.len()
            && chain.last().to != to && walks_via(links, chain, to, limit, k).contains(w),
    ensures
        is_walk(links, w, from, to, limit),
    decreases limit - chain.len(), k,
{
    if k == links.len() + 1 {
        if chain.last().to == to {
            assert(w == chain);
        } else if chain.len() < limit {
            lemma_walks_are_sound(links, chain, from, to, limit, links.len() as int, w);
        }
    } else if k > 0 && chain.len() < limit {
        let rest = walks_via(links, chain, to, limit, k - 1);
        if rest.contains(w) {
            lemma_walks_are_sound(links, chain, from, to, limit, k - 1, w);
        } else {
            let l = links[k - 1];
            let more = walks(links, chain.push(l), to, limit);
            assert(extends(chain, l));
            let all = rest + more;
            let i = choose|i: int| 0 <= i < all.len() && all[i] == w;
            assert(i >= rest.len());
            assert(more[i - rest.len()] == w);
            lemma_longer_start(links, chain, from, to, limit, l);
            lemma_walks_are_sound(
                links,
                chain.push(l),
                from,
                to,
                limit,
                links.len() as int + 1,
                w,
            );
        }
    }
}

proof fn lemma_walks_from_are_sound(
    links: Seq<HopValue>,
    from: Seq<char>,
    to: Seq<char>,
    limit: int,
    k: int,
    w: Seq<HopValue>,
)
    requires
        limit >= 1,
        0 <= k <= links.len(),
        walks_from(links, from, to, limit, k).contains(w),
    ensures
        is_walk(links, w, from, to, limit),
    decreases k,
{
    if k > 0 {
        let rest = walks_from(links, from, to, limit, k - 1);
        if rest.contains(w) {
            lemma_walks_from_are_sound(links, from, to, limit, k - 1, w);
        } else {
            let l = links[k - 1];
            let one = walks(links, seq![l], to, limit);
            let all = one + rest;
            let i = choose|i: int| 0 <= i < all.len() && all[i] == w;
            if i >= one.len() {
                assert(rest[i - one.len()] == w);
            }
            assert(one[i] == w);
            assert(is_start(links, seq![l], from, to, limit));
            lemma_walks_are_sound(links, seq![l], from, to, limit, links.len() as int + 1, w);
        }
    }
}

proof fn lemma_via_holds(
    links: Seq<HopValue>,
    chain: Seq<HopValue>,
    to: Seq<char>,
    limit: int,
    j: int,
    k: int,
    w: Seq<HopValue>,
)
    requires
        0 <= j < k <= links.len(),
        chain.len() < limit,
        extends(chain, links[j]),
        walks(links, chain.push(links[j]), to, limit).contains(w),
    ensures
        walks_via(links, chain, to, limit, k).contains(w),
    decreases k,
{
    let rest = walks_via(links, chain, to, limit, k - 1);
    if j == k - 1 {
        let more = walks(links, chain.push(links[j]), to, limit);
        let i = choose|i: int| 0 <= i < more.len() && more[i] == w;
        assert((rest + more)[rest.len() + i] == w);
    } else {
        lemma_via_holds(links, chain, to, limit, j, k - 1, w);
        let i = choose|i: int| 0 <= i < rest.len() && rest[i] == w;
        if extends(chain, links[k - 1]) {
            let more = walks(links, chain.push(links[k - 1]), to, limit);
            assert((rest + more)[i] == w);
        }
    }
}

proof fn lemma_walks_are_complete(
    links: Seq<HopValue>,
    w: Seq<HopValue>,
    from: Seq<char>,
    to: Seq<char>,
    limit: int,
    n: int,
)
    requires
        is_walk(links, w, from, to, limit),
        1 <= n <= w.len(),
    ensures
        walks(links, w.take(n), to, limit).contains(w),
    decreases w.len() - n,
{
    let chain = w.take(n);
    if n == w.len() {
        assert(chain =~= w);
        assert(seq![w][0] == w);
    } else {
        lemma_walks_are_complete(links, w, from, to, limit, n + 1);
        assert(chain.last() == w[n - 1]);
        assert(links.contains(w[n]));
        let j = choose|j: int| 0 <= j < links.len() && links[j] == w[n];
        assert(w.take(n + 1) =~= chain.push(links[j]));
        lemma_via_holds(links, chain, to, limit, j, links.len() as int, w);
    }
}

proof fn lemma_from_holds(
    links: Seq<HopValue>,
    from: Seq<char>,
    to: Seq<char>,
    limit: int,
    j: int,
    k: int,
    w: Seq<HopValue>,
)
    requires
        0 <= j < k <= links.len(),
        links[j].from == from,
        walks(links, seq![links[j]], to, limit).contains(w),
    ensures
        walks_from(links, from, to, limit, k).contains(w),
    decreases k,
{
    let rest = walks_from(links, from, to, limit, k - 1);
    let one = walks(links, seq![links[k - 1]], to, limit);
    if j == k - 1 {
        let i = choose|i: int| 0 <= i < one.len() && one[i] == w;
        assert((one + rest)[i] == w);
    } else {
        lemma_from_holds(links, from, to, limit, j, k - 1, w);
        let i = choose|i: int| 0 <= i < rest.len() && rest[i] == w;
        if links[k - 1].from == from {
            assert((one + rest)[one.len() + i] == w);
        }
    }
}

/// The enumeration of walks is sound and complete: it holds exactly the walks from
/// the one frame to the other.
pub proof fn law_all_walks_are_enumerated(
    links: Seq<HopValue>,
    from: Seq<char>,
    to: Seq<char>,
    limit: int,
    w: Seq<HopValue>,
)
    requires
        limit >= 1,
    ensures
        all_walks(links, from, to, limit).contains(w) <==> is_walk(links, w, from, to, limit),
{
    if all_walks(links, from, to, limit).contains(w) {
        lemma_walks_from_are_sound(links, from, to, limit, links.len() as int, w);
    }
    if is_walk(links, w, from, to, limit) {
        lemma_walks_are_complete(links, w, from, to, limit, 1);
        assert(links.contains(w[0]));
        let j = choose|j: int| 0 <= j < links.len() && links[j] == w[0];
        assert(w.take(1) =~= seq![links[j]]);
        lemma_from_holds(links, from, to, limit, j, links.len() as int, w);
    }
}

fn copy_hop(h: &Hop) -> (r: Hop)
    ensures
        r@ == h@,
        r == *h,
{
    Hop {
        edge_id: h.edge_id,
        version: h.version,
        from: h.from.clone(),
        to: h.to.clone(),
        reversed: h.reversed,
        precision: h.precision,
    }
}

fn copy_hops(v: &Vec<Hop>) -> (r: Vec<Hop>)
    ensures
        r@ == v@,
{
    let mut out: Vec<Hop> = Vec::new();
    let mut i: usize = 0;
    while i < v.len()
        invariant
            i <= v.len(),
            out@ == v@.take(i as int),
        decreases v.len() - i,
    {
        out.push(copy_hop(&v[i]));
        i += 1;
        assert(v@.take(i as int) =~= v@.take(i - 1).push(v@[i - 1]));
    }
    assert(v@.take(v.len() as int) =~= v@);
    out
}

fn visited(chain: &Vec<Hop>, frame: &str) -> (r: bool)
    ensures
        r == visits(hop_values(chain@), frame@),
{
    let ghost c = hop_values(chain@);
    let mut i: usize = 0;
    while i < chain.len()
        invariant
            i <= chain.len(),
            c == hop_values(chain@),
            forall|k: int| 0 <= k < i ==> (#[trigger] c[k]).from != frame@ && c[k].to != frame@,
        decreases chain.len() - i,
    {
        if text::same(chain[i].from.as_str(), frame) || text::same(chain[i].to.as_str(), frame) {
            assert(c[i as int] == chain@[i as int]@);
            return true;
        }
        assert(c[i as int] == chain@[i as int]@);
        i += 1;
    }
    false
}

fn explore(
    links: &Vec<Hop>,
    chain: &mut Vec<Hop>,
    to: &str,
    limit: usize,
    out: &mut Vec<Vec<Hop>>,
)
    requires
        1 <= old(chain)@.len() <= limit,
    ensures
        final(chain)@ == old(chain)@,
        walk_values(final(out)@) == walk_values(old(out)@) + walks(
            hop_values(links@),
            hop_values(old(chain)@),
            to@,
            limit as int,
        ),
    decreases limit - old(chain)@.len(),
{
    let ghost lv = hop_values(links@);
    let ghost cv = hop_values(chain@);
    let ghost start = walk_values(out@);
    let n: usize = chain.len();
    assert(cv.last() == chain@.last()@);
    if text::same(chain[n - 1].to.as_str(), to) {
        let w = copy_hops(chain);
        out.push(w);
        assert(walk_values(out@) =~= start + seq![cv]);
        return;
    }
    if n >= limit {
        assert(walk_values(out@) =~= start + Seq::<Seq<HopValue>>::empty());
        return;
    }
    let mut k: usize = 0;
    assert(walk_values(out@) =~= start + walks_via(lv, cv, to@, limit as int, 0));
    while k < links.len()
        invariant
            k <= links.len(),
            n == chain@.len(),
            1 <= n < limit,
            chain@ == old(chain)@,
            lv == hop_values(links@),
            cv == hop_values(chain@),
            walk_values(out@) == start + walks_via(lv, cv, to@, limit as int, k as int),
        decreases links.len() - k,
    {
        let ghost before = chain@;
        let ghost sofar = walks_via(lv, cv, to@, limit as int, k as int);
        assert(lv[k as int] == links@[k as int]@);
        assert(cv.last() == chain@.last()@);
        if text::same(links[k].from.as_str(), chain[n - 1].to.as_str()) && !visited(
            chain,
            links[k].to.as_str(),
        ) {
            chain.push(copy_hop(&links[k]));
            assert(hop_values(chain@) =~= cv.push(lv[k as int]));
            explore(links, chain, to, limit, out);
            let _last = chain.pop();
            assert(chain@ =~= before);
            assert(walk_values(out@) =~= start + (sofar + walks(
                lv,
                cv.push(lv[k as int]),
                to@,
                limit as int,
            )));
        }
        k += 1;
    }
}

/// All walks from one frame to another along a list of directed links.
pub fn enumerate_walks(links: &Vec<Hop>, from: &str, to: &str, limit: usize) -> (r: Vec<Vec<Hop>>)
    requires
        limit >= 1,
    ensures
        walk_values(r@) == all_walks(hop_values(links@), from@, to@, limit as int),
{
    let ghost lv = hop_values(links@);
    let ghost all = all_walks(lv, from@, to@, limit as int);
    let mut out: Vec<Vec<Hop>> = Vec::new();
    let mut k: usize = links.len();
    assert(walk_values(out@) + all =~= all);
    while k > 0
        invariant
            k <= links.len(),
            limit >= 1,
            lv == hop_values(links@),
            walk_values(out@) + walks_from(lv, from@, to@, limit as int, k as int) == all,
        decreases k,
    {
        let ghost sofar = walk_values(out@);
        assert(lv[k - 1] == links@[k - 1]@);
        if text::same(links[k - 1].from.as_str(), from) {
            let mut chain: Vec<Hop> = Vec::new();
            chain.push(copy_hop(&links[k - 1]));
            assert(hop_values(chain@) =~= seq![lv[k - 1]]);
            explore(links, &mut chain, to, limit, &mut out);
            assert(walk_values(out@) + walks_from(lv, from@, to@, limit as int, k - 1) =~= sofar
                + walks_from(lv, from@, to@, limit as int, k as int));
        }
        k -= 1;
    }
    assert(walk_values(out@) + Seq::<Seq<HopValue>>::empty() =~= walk_values(out@));
    out
}

// ---- paths and their ranking ------------------------------------------------

/// A path between two frames with the sums that it is ranked by.
#[derive(Clone, Debug)]
pub struct Path {
    pub hops: Vec<Hop>,
    pub precision_sum: Scalar,
    pub version_sum: i128,
    pub edge_id_sum: i128,
}

/// What a path stands for.
pub struct PathValue {
    pub hops: Seq<HopValue>,
    pub precision_sum: Scalar,
    pub version_sum: int,
    pub edge_id_sum: int,
}

impl View for Path {
    type V = PathValue;

    open spec fn view(&self) -> PathValue {
        PathValue {
            hops: hop_values(self.hops@),
            precision_sum: self.precision_sum,
            version_sum: self.version_sum as int,
            edge_id_sum: self.edge_id_sum as int,
        }
    }
}

/// What a list of paths stands for.
pub open spec fn path_values(p: Seq<Path>) -> Seq<PathValue> {
    p.map_values(|x: Path| x@)
}

/// The sum of the versions of a chain of hops.
pub open spec fn version_total(h: Seq<HopValue>) -> int
    decreases h.len(),
{
    if h.len() == 0 {
        0
    } else {
        version_total(h.drop_last()) + h.last().version
    }
}

/// The sum of the edge ids of a chain of hops.
pub open spec fn edge_id_total(h: Seq<HopValue>) -> int
    decreases h.len(),
{
    if h.len() == 0 {
        0
    } else {
        edge_id_total(h.drop_last()) + h.last().edge_id
    }
}

/// The path along a chain of hops with a given sum of precisions.
pub open spec fn path_of(hops: Seq<HopValue>, precision_sum: Scalar) -> PathValue {
    PathValue {
        hops,
        precision_sum,
        version_sum: version_total(hops),
        edge_id_sum: edge_id_total(hops),
    }
}

/// The frames that a chain of hops goes through, both ends among them.
pub open spec fn frames_of(h: Seq<HopValue>) -> Seq<Seq<char>> {
    if h.len() == 0 {
        Seq::empty()
    } else {
        seq![h[0].from] + h.map_values(|x: HopValue| x.to)
    }
}

/// The edge ids of a chain of hops.
pub open spec fn ids_of(h: Seq<HopValue>) -> Seq<int> {
    h.map_values(|x: HopValue| x.edge_id)
}

/// What paths are ranked by: the smaller sum of precisions, then the larger sum of
/// versions, then the frame names, the sum of edge ids and the edge ids in turn.
pub open spec fn rank_key(p: PathValue) -> Seq<order::PartValue> {
    seq![
        order::PartValue::Number(p.precision_sum.key()),
        order::PartValue::Number(-p.version_sum - 1),
    ] + frames_of(p.hops).map_values(|f: Seq<char>| order::PartValue::Text(f)) + seq![
        order::PartValue::Number(p.edge_id_sum),
    ] + ids_of(p.hops).map_values(|i: int| order::PartValue::Number(i))
}

/// The keys of a list of paths.
pub open spec fn rank_keys(p: Seq<PathValue>) -> Seq<Seq<order::PartValue>> {
    p.map_values(|x: PathValue| rank_key(x))
}

/// Paths in the order of their ranks.
pub open spec fn by_rank(p: Seq<PathValue>) -> Seq<PathValue> {
    order::order_of(rank_keys(p)).map_values(|i: int| p[i])
}

/// A list without the paths that repeat the edge ids of the one kept before them.
pub open spec fn drop_repeats(p: Seq<PathValue>) -> Seq<PathValue>
    decreases p.len(),
{
    if p.len() == 0 {
        Seq::empty()
    } else {
        let rest = drop_repeats(p.drop_last());
        if rest.len() > 0 && ids_of(rest.last().hops) == ids_of(p.last().hops) {
            rest
        } else {
            rest.push(p.last())
        }
    }
}

/// Paths in the order of their ranks, without repeats.
pub open spec fn ranked(p: Seq<PathValue>) -> Seq<PathValue> {
    drop_repeats(by_rank(p))
}

/// The paths along a list of walks, with the given sums of precisions.
pub open spec fn paths_along(walks: Seq<Seq<HopValue>>, sums: Seq<Scalar>) -> Seq<PathValue> {
    Seq::new(walks.len(), |i: int| path_of(walks[i], sums[i]))
}

proof fn lemma_key_shape(p: PathValue)
    ensures
        p.hops.len() == 0 ==> rank_key(p).len() == 3,
        p.hops.len() > 0 ==> rank_key(p).len() == 2 * p.hops.len() + 4,
        forall|i: int|
            0 <= i < p.hops.len() ==> rank_key(p)[p.hops.len() + 4 + i]
                == order::PartValue::Number((#[trigger] p.hops[i]).edge_id),
{
}

proof fn lemma_equal_keys_equal_ids(a: PathValue, b: PathValue)
    requires
        rank_key(a) == rank_key(b),
    ensures
        ids_of(a.hops) == ids_of(b.hops),
{
    lemma_key_shape(a);
    lemma_key_shape(b);
    assert(a.hops.len() == b.hops.len());
    assert forall|i: int| 0 <= i < a.hops.len() implies ids_of(a.hops)[i] == ids_of(
        b.hops,
    )[i] by {
        assert(rank_key(a)[a.hops.len() + 4 + i] == order::PartValue::Number(a.hops[i].edge_id));
        assert(rank_key(b)[b.hops.len() + 4 + i] == order::PartValue::Number(b.hops[i].edge_id));
    }
    assert(ids_of(a.hops) =~= ids_of(b.hops));
}

/// Whether no two paths of a list have the same edge ids.
pub open spec fn distinct_paths(p: Seq<PathValue>) -> bool {
    forall|i: int, j: int| #![trigger p[i], p[j]]
        0 <= i < p.len() && 0 <= j < p.len() && ids_of(p[i].hops) == ids_of(p[j].hops) ==> i == j
}

proof fn lemma_by_rank(p: Seq<PathValue>)
    ensures
        by_rank(p).len() == p.len(),
        forall|x: PathValue| by_rank(p).contains(x) <==> p.contains(x),
        distinct_paths(p) ==> order::ascends(by_rank(p), |x: PathValue| rank_key(x)),
{
    let keys = rank_keys(p);
    let o = order::order_of(keys);
    order::law_order_is_unique(keys, o);
    let s = by_rank(p);
    assert forall|x: PathValue| s.contains(x) <==> p.contains(x) by {
        if s.contains(x) {
            let i = choose|i: int| 0 <= i < s.len() && s[i] == x;
            assert(p[o[i]] == x);
        }
        if p.contains(x) {
            let j = choose|j: int| 0 <= j < p.len() && p[j] == x;
            assert(o.contains(j));
            let i = choose|i: int| 0 <= i < o.len() && o[i] == j;
            assert(s[i] == x);
        }
    }
    if distinct_paths(p) {
        let key = |x: PathValue| rank_key(x);
        assert forall|i: int, j: int| #![trigger s[i], s[j]]
            0 <= i < j < s.len() implies order::key_before(key(s[i]), key(s[j])) by {
            assert(order::precedes(keys, o[i], o[j]));
            if keys[o[i]] == keys[o[j]] {
                lemma_equal_keys_equal_ids(p[o[i]], p[o[j]]);
                assert(o[i] == o[j]);
            }
        }
    }
}

/// Ranking depends on the paths alone: where no two share their edge ids, a list
/// that holds the same paths in any other order is ranked the same.
pub proof fn law_ranking_ignores_input_order(a: Seq<PathValue>, b: Seq<PathValue>)
    requires
        distinct_paths(a),
        distinct_paths(b),
        forall|x: PathValue| a.contains(x) <==> b.contains(x),
    ensures
        ranked(a) == ranked(b),
{
    lemma_by_rank(a);
    lemma_by_rank(b);
    let key = |x: PathValue| rank_key(x);
    assert forall|x: PathValue| by_rank(a).contains(x) <==> by_rank(b).contains(x) by {
        assert(a.contains(x) <==> b.contains(x));
    }
    order::law_ascending_list_is_unique(by_rank(a), by_rank(b), key);
}

proof fn lemma_drop_repeats(p: Seq<PathValue>)
    ensures
        drop_repeats(p).len() <= p.len(),
        p.len() > 0 ==> drop_repeats(p).len() > 0,
        forall|i: int| 0 <= i < drop_repeats(p).len() ==> p.contains(#[trigger] drop_repeats(p)[i]),
    decreases p.len(),
{
    if p.len() > 0 {
        let d = p.drop_last();
        lemma_drop_repeats(d);
        let r = drop_repeats(p);
        let before = drop_repeats(d);
        assert forall|i: int| 0 <= i < r.len() implies p.contains(#[trigger] r[i]) by {
            if i < before.len() {
                assert(r[i] == before[i]);
                assert(d.contains(before[i]));
                let k = choose|k: int| 0 <= k < d.len() && d[k] == before[i];
                assert(p[k] == r[i]);
            } else {
                assert(p[p.len() - 1] == r[i]);
            }
        }
    }
}

/// Ranking invents no path and, where there is one, keeps one.
pub proof fn law_ranking_keeps_to_the_paths(p: Seq<PathValue>)
    ensures
        ranked(p).len() <= p.len(),
        p.len() > 0 ==> ranked(p).len() > 0,
        forall|i: int| 0 <= i < ranked(p).len() ==> p.contains(#[trigger] ranked(p)[i]),
{
    lemma_by_rank(p);
    lemma_drop_repeats(by_rank(p));
    assert forall|i: int| 0 <= i < ranked(p).len() implies p.contains(#[trigger] ranked(p)[i]) by {
        assert(by_rank(p).contains(ranked(p)[i]));
    }
}

/// Where no two paths share their edge ids, ranking keeps every path.
pub proof fn law_ranking_keeps_all_distinct_paths(p: Seq<PathValue>)
    requires
        distinct_paths(p),
    ensures
        ranked(p).len() == p.len(),
        forall|x: PathValue| p.contains(x) <==> ranked(p).contains(x),
{
    lemma_by_rank(p);
    let s = by_rank(p);
    assert forall|i: int, j: int| #![trigger s[i], s[j]]
        0 <= i < j < s.len() implies ids_of(s[i].hops) != ids_of(s[j].hops) by {
        if ids_of(s[i].hops) == ids_of(s[j].hops) {
            assert(by_rank(p).contains(s[i]) && by_rank(p).contains(s[j]));
            assert(p.contains(s[i]) && p.contains(s[j]));
            let a = choose|a: int| 0 <= a < p.len() && p[a] == s[i];
            let b = choose|b: int| 0 <= b < p.len() && p[b] == s[j];
            assert(a == b);
            let key = |x: PathValue| rank_key(x);
            assert(order::key_before(key(s[i]), key(s[j])));
            order::law_key_order_is_strict_and_total(
                rank_key(s[i]),
                rank_key(s[i]),
                rank_key(s[i]),
            );
        }
    }
    lemma_no_repeats(s);
}

proof fn lemma_no_repeats(s: Seq<PathValue>)
    requires
        forall|i: int, j: int| #![trigger s[i], s[j]]
            0 <= i < j < s.len() ==> ids_of(s[i].hops) != ids_of(s[j].hops),
    ensures
        drop_repeats(s) == s,
    decreases s.len(),
{
    if s.len() > 0 {
        let d = s.drop_last();
        assert forall|i: int, j: int| #![trigger d[i], d[j]]
            0 <= i < j < d.len() implies ids_of(d[i].hops) != ids_of(d[j].hops) by {
            assert(d[i] == s[i] && d[j] == s[j]);
        }
        lemma_no_repeats(d);
        if d.len() > 0 {
            assert(d.last() == s[s.len() - 2]);
            assert(s.last() == s[s.len() - 1]);
        }
        assert(drop_repeats(s) =~= s);
    } else {
        assert(drop_repeats(s) =~= s);
    }
}

/// Whether a list of frame names comes before another, name by name.
pub open spec fn names_before(a: Seq<Seq<char>>, b: Seq<Seq<char>>) -> bool {
    order::key_before(name_parts(a), name_parts(b))
}

/// Names as parts of a key.
pub open spec fn name_parts(a: Seq<Seq<char>>) -> Seq<order::PartValue> {
    a.map_values(|f: Seq<char>| order::PartValue::Text(f))
}

/// Whether a path is ranked no worse than another: by the smaller sum of precisions, then
/// by the larger sum of versions, then by the frame names.
pub open spec fn no_worse(a: PathValue, b: PathValue) -> bool {
    if a.precision_sum.key() != b.precision_sum.key() {
        a.precision_sum.key() < b.precision_sum.key()
    } else if a.version_sum != b.version_sum {
        a.version_sum > b.version_sum
    } else {
        !names_before(frames_of(b.hops), frames_of(a.hops))
    }
}

proof fn lemma_names_decide(
    a: Seq<Seq<char>>,
    b: Seq<Seq<char>>,
    x: Seq<order::PartValue>,
    y: Seq<order::PartValue>,
)
    requires
        names_before(a, b),
        x.len() > 0,
        x[0] is Number,
    ensures
        order::key_before(name_parts(a) + x, name_parts(b) + y),
    decreases a.len(),
{
    let p = name_parts(a);
    let q = name_parts(b);
    assert(q.len() > 0);
    assert((q + y)[0] == q[0]);
    if a.len() == 0 {
        assert((p + x)[0] == x[0]);
    } else {
        assert((p + x)[0] == p[0]);
        if p[0] == q[0] {
            let a2 = a.drop_first();
            let b2 = b.drop_first();
            assert(p.drop_first() =~= name_parts(a2));
            assert(q.drop_first() =~= name_parts(b2));
            lemma_names_decide(a2, b2, x, y);
            assert((p + x).drop_first() =~= name_parts(a2) + x);
            assert((q + y).drop_first() =~= name_parts(b2) + y);
        }
    }
}

proof fn lemma_worse_comes_later(a: PathValue, b: PathValue)
    requires
        !no_worse(a, b),
    ensures
        order::key_before(rank_key(b), rank_key(a)),
{
    reveal_with_fuel(order::key_before, 3);
    let ka = rank_key(a);
    let kb = rank_key(b);
    let ta = seq![order::PartValue::Number(a.edge_id_sum)] + ids_of(a.hops).map_values(
        |i: int| order::PartValue::Number(i),
    );
    let tb = seq![order::PartValue::Number(b.edge_id_sum)] + ids_of(b.hops).map_values(
        |i: int| order::PartValue::Number(i),
    );
    assert(ka[0] == order::PartValue::Number(a.precision_sum.key()));
    assert(kb[0] == order::PartValue::Number(b.precision_sum.key()));
    assert(ka.drop_first()[0] == order::PartValue::Number(-a.version_sum - 1));
    assert(kb.drop_first()[0] == order::PartValue::Number(-b.version_sum - 1));
    if a.precision_sum.key() == b.precision_sum.key() && a.version_sum == b.version_sum {
        lemma_names_decide(frames_of(b.hops), frames_of(a.hops), tb, ta);
        assert(ka.drop_first().drop_first() =~= name_parts(frames_of(a.hops)) + ta);
        assert(kb.drop_first().drop_first() =~= name_parts(frames_of(b.hops)) + tb);
    }
}

proof fn lemma_first_is_kept(p: Seq<PathValue>)
    requires
        p.len() > 0,
    ensures
        drop_repeats(p).len() > 0,
        drop_repeats(p)[0] == p[0],
    decreases p.len(),
{
    if p.len() > 1 {
        lemma_first_is_kept(p.drop_last());
    } else {
        assert(drop_repeats(p.drop_last()) =~= Seq::<PathValue>::empty());
    }
}

/// The path that comes first is ranked no worse than any: it has the least sum of
/// precisions, among such the largest sum of versions, and among such the first names.
pub proof fn law_first_path_is_the_best(p: Seq<PathValue>, x: PathValue)
    requires
        p.contains(x),
    ensures
        ranked(p).len() > 0,
        no_worse(ranked(p)[0], x),
{
    let keys = rank_keys(p);
    let o = order::order_of(keys);
    order::law_order_is_unique(keys, o);
    let s = by_rank(p);
    lemma_first_is_kept(s);
    let j = choose|j: int| 0 <= j < p.len() && p[j] == x;
    assert(o.contains(j));
    let i = choose|i: int| 0 <= i < o.len() && o[i] == j;
    assert(s[0] == p[o[0]]);
    if !no_worse(s[0], x) {
        lemma_worse_comes_later(s[0], x);
        order::law_key_order_is_strict_and_total(rank_key(s[0]), rank_key(x), rank_key(s[0]));
        assert(keys[o[0]] == rank_key(s[0]));
        assert(keys[o[i]] == rank_key(x));
        if i > 0 {
            assert(order::precedes(keys, o[0], o[i]));
        }
    }
}

fn totals(h: &Vec<Hop>) -> (r: (i128, i128))
    ensures
        r.0 == version_total(hop_values(h@)),
        r.1 == edge_id_total(hop_values(h@)),
{
    let ghost hv = hop_values(h@);
    let mut versions: i128 = 0;
    let mut ids: i128 = 0;
    let mut i: usize = 0;
    while i < h.len()
        invariant
            i <= h.len(),
            hv == hop_values(h@),
            versions == version_total(hv.take(i as int)),
            ids == edge_id_total(hv.take(i as int)),
            i64::MIN * i <= versions <= i64::MAX * i,
            i64::MIN * i <= ids <= i64::MAX * i,
        decreases h.len() - i,
    {
        assert(hv.take(i + 1).drop_last() =~= hv.take(i as int));
        assert(hv[i as int] == h@[i as int]@);
        versions = versions + h[i].version as i128;
        ids = ids + h[i].edge_id as i128;
        i += 1;
    }
    assert(hv.take(h.len() as int) =~= hv);
    (versions, ids)
}

/// The path along a chain of hops with a given sum of precisions.
pub fn build_path(hops: Vec<Hop>, precision_sum: Scalar) -> (r: Path)
    ensures
        r@ == path_of(hop_values(hops@), precision_sum),
{
    let (version_sum, edge_id_sum) = totals(&hops);
    Path { hops, precision_sum, version_sum, edge_id_sum }
}

fn copy_path(p: &Path) -> (r: Path)
    ensures
        r@ == p@,
{
    Path {
        hops: copy_hops(&p.hops),
        precision_sum: p.precision_sum,
        version_sum: p.version_sum,
        edge_id_sum: p.edge_id_sum,
    }
}

/// The edge ids of a path's hops.
pub fn hop_ids(p: &Path) -> (r: Vec<i64>)
    ensures
        r@.map_values(|i: i64| i as int) == ids_of(p@.hops),
{
    let mut out: Vec<i64> = Vec::new();
    let mut i: usize = 0;
    while i < p.hops.len()
        invariant
            i <= p.hops.len(),
            out@.len() == i,
            forall|k: int| 0 <= k < i ==> out@[k] == p.hops@[k].edge_id,
        decreases p.hops.len() - i,
    {
        out.push(p.hops[i].edge_id);
        i += 1;
    }
    assert(out@.map_values(|i: i64| i as int) =~= ids_of(p@.hops));
    out
}

fn key_of(p: &Path) -> (r: Vec<Part>)
    ensures
        order::key_value(r@) == rank_key(p@),
{
    let mut out: Vec<Part> = Vec::new();
    out.push(Part::Number(p.precision_sum.order()));
    out.push(Part::Number(-1 - p.version_sum));
    let ghost hv = p@.hops;
    let ghost head = order::key_value(out@);
    let mut frames: Vec<Part> = Vec::new();
    if p.hops.len() > 0 {
        frames.push(Part::Text(p.hops[0].from.clone()));
        let mut i: usize = 0;
        while i < p.hops.len()
            invariant
                i <= p.hops.len(),
                p.hops.len() > 0,
                hv == hop_values(p.hops@),
                order::key_value(frames@) == seq![order::PartValue::Text(hv[0].from)]
                    + hv.take(i as int).map_values(|x: HopValue| order::PartValue::Text(x.to)),
            decreases p.hops.len() - i,
        {
            let ghost before = order::key_value(frames@);
            frames.push(Part::Text(p.hops[i].to.clone()));
            assert(hv[i as int] == p.hops@[i as int]@);
            assert(order::key_value(frames@) =~= before.push(
                order::PartValue::Text(hv[i as int].to),
            ));
            i += 1;
            assert(seq![order::PartValue::Text(hv[0].from)] + hv.take(i as int).map_values(
                |x: HopValue| order::PartValue::Text(x.to),
            ) =~= before.push(order::PartValue::Text(hv[i - 1].to)));
        }
    }
    let ghost names = frames_of(hv).map_values(|f: Seq<char>| order::PartValue::Text(f));
    assert(order::key_value(frames@) =~= names);
    let mut ids: Vec<Part> = Vec::new();
    let mut j: usize = 0;
    while j < p.hops.len()
        invariant
            j <= p.hops.len(),
            ids@.len() == j,
            forall|k: int|
                0 <= k < j ==> (#[trigger] ids@[k])@ == order::PartValue::Number(
                    p.hops@[k].edge_id as int,
                ),
        decreases p.hops.len() - j,
    {
        ids.push(Part::Number(p.hops[j].edge_id as i128));
        j += 1;
    }
    let ghost tail = ids_of(hv).map_values(|i: int| order::PartValue::Number(i));
    assert(order::key_value(ids@) =~= tail);
    out.append(&mut frames);
    out.push(Part::Number(p.edge_id_sum));
    out.append(&mut ids);
    proof {
        assert(order::key_value(out@) =~= head + names + seq![
            order::PartValue::Number(p@.edge_id_sum),
        ] + tail);
        assert(head =~= seq![
            order::PartValue::Number(p@.precision_sum.key()),
            order::PartValue::Number(-p@.version_sum - 1),
        ]);
    }
    out
}

fn same_ids(a: &Path, b: &Path) -> (r: bool)
    ensures
        r == (ids_of(a@.hops) == ids_of(b@.hops)),
{
    let ghost x = ids_of(a@.hops);
    let ghost y = ids_of(b@.hops);
    if a.hops.len() != b.hops.len() {
        assert(x.len() != y.len());
        return false;
    }
    let mut i: usize = 0;
    while i < a.hops.len()
        invariant
            i <= a.hops.len(),
            a.hops.len() == b.hops.len(),
            x == ids_of(a@.hops),
            y == ids_of(b@.hops),
            forall|k: int| 0 <= k < i ==> x[k] == y[k],
        decreases a.hops.len() - i,
    {
        assert(x[i as int] == a.hops@[i as int].edge_id);
        assert(y[i as int] == b.hops@[i as int].edge_id);
        if a.hops[i].edge_id != b.hops[i].edge_id {
            return false;
        }
        i += 1;
    }
    assert(x =~= y);
    true
}

/// A path with its sum of precisions left out of account.
pub open spec fn leveled(p: PathValue) -> PathValue {
    PathValue { precision_sum: Scalar { bits: 0 }, ..p }
}

/// Whether a path is ranked before another. A sum of precisions that is not a number
/// decides nothing: what else paths are ranked by does.
pub open spec fn outranks(a: PathValue, b: PathValue) -> bool {
    if a.precision_sum.below(b.precision_sum) {
        true
    } else if b.precision_sum.below(a.precision_sum) {
        false
    } else {
        order::key_before(rank_key(leveled(a)), rank_key(leveled(b)))
    }
}

/// Whether ranks agree with each other: a path that outranks another outranks every third
/// one, or that one outranks the other. Sums that are not numbers can break this.
pub open spec fn settled(p: Seq<PathValue>) -> bool {
    forall|i: int, j: int, k: int| #![trigger p[i], p[j], p[k]]
        0 <= i < p.len() && 0 <= j < p.len() && 0 <= k < p.len() && outranks(p[i], p[k])
            ==> outranks(p[i], p[j]) || outranks(p[j], p[k])
}

/// Whether path `a` is rightly before path `b`: by rank, then by position.
pub open spec fn in_place(p: Seq<PathValue>, a: int, b: int) -> bool {
    outranks(p[a], p[b]) || (!outranks(p[b], p[a]) && a < b)
}

/// Whether a list of positions arranges the first `n` paths: each is there once, and best
/// first where ranks agree with each other.
pub open spec fn arranges_first(p: Seq<PathValue>, o: Seq<int>, n: int) -> bool {
    &&& o.len() == n
    &&& forall|i: int| 0 <= i < n ==> 0 <= #[trigger] o[i] < n
    &&& forall|x: int| 0 <= x < n ==> #[trigger] o.contains(x)
    &&& settled(p) ==> forall|i: int, j: int| #![trigger o[i], o[j]]
        0 <= i < j < n ==> in_place(p, o[i], o[j])
}

/// Whether a list holds paths as they are ranked, without repeats.
pub open spec fn ranks(p: Seq<PathValue>, out: Seq<PathValue>) -> bool {
    exists|o: Seq<int>| #[trigger]
        arranges_first(p, o, p.len() as int) && out == drop_repeats(
            o.map_values(|i: int| p[i]),
        )
}

/// Whether all sums of precisions are numbers.
pub open spec fn has_numbers(p: Seq<PathValue>) -> bool {
    forall|i: int| 0 <= i < p.len() ==> (#[trigger] p[i]).precision_sum.is_number()
}

proof fn lemma_outranks_one_way(a: PathValue, b: PathValue)
    ensures
        !(outranks(a, b) && outranks(b, a)),
{
    let x = rank_key(leveled(a));
    let y = rank_key(leveled(b));
    order::law_key_order_is_strict_and_total(x, y, x);
}

proof fn lemma_numbers_rank_by_key(a: PathValue, b: PathValue)
    requires
        a.precision_sum.is_number(),
        b.precision_sum.is_number(),
    ensures
        outranks(a, b) == order::key_before(rank_key(a), rank_key(b)),
{
    let x = rank_key(a);
    let y = rank_key(b);
    let u = rank_key(leveled(a));
    let v = rank_key(leveled(b));
    assert(x[0] == order::PartValue::Number(a.precision_sum.key()));
    assert(y[0] == order::PartValue::Number(b.precision_sum.key()));
    assert(u[0] == v[0]);
    assert(x.drop_first() =~= u.drop_first());
    assert(y.drop_first() =~= v.drop_first());
}

/// Where all sums of precisions are numbers, ranks agree with each other, and there is one
/// order of rank.
pub proof fn law_numbers_settle_ranks(p: Seq<PathValue>, out: Seq<PathValue>)
    requires
        has_numbers(p),
        ranks(p, out),
    ensures
        settled(p),
        out == ranked(p),
{
    let keys = rank_keys(p);
    assert forall|i: int, j: int, k: int| #![trigger p[i], p[j], p[k]]
        0 <= i < p.len() && 0 <= j < p.len() && 0 <= k < p.len() && outranks(
            p[i],
            p[k],
        ) implies outranks(p[i], p[j]) || outranks(p[j], p[k]) by {
        lemma_numbers_rank_by_key(p[i], p[k]);
        lemma_numbers_rank_by_key(p[i], p[j]);
        lemma_numbers_rank_by_key(p[j], p[k]);
        order::law_key_order_is_strict_and_total(rank_key(p[j]), rank_key(p[i]), rank_key(p[k]));
    }
    let n = p.len() as int;
    let o = choose|o: Seq<int>| #[trigger]
        arranges_first(p, o, n) && out == drop_repeats(o.map_values(|i: int| p[i]));
    assert forall|i: int, j: int| #![trigger o[i], o[j]] 0 <= i < j < n implies order::precedes(
        keys,
        o[i],
        o[j],
    ) by {
        let a = o[i];
        let b = o[j];
        assert(in_place(p, a, b));
        lemma_numbers_rank_by_key(p[a], p[b]);
        lemma_numbers_rank_by_key(p[b], p[a]);
        order::law_key_order_is_strict_and_total(rank_key(p[a]), rank_key(p[b]), rank_key(p[a]));
    }
    assert(order::is_order(keys, o));
    order::law_order_is_unique(keys, o);
}

proof fn lemma_arrange_one_more(p: Seq<PathValue>, o: Seq<int>, x: int, q: int)
    requires
        0 <= x < p.len(),
        arranges_first(p, o, x),
        0 <= q <= x,
        forall|i: int| q <= i < x ==> outranks(p[x], p[#[trigger] o[i]]),
        q > 0 ==> !outranks(p[x], p[o[q - 1]]),
    ensures
        arranges_first(p, o.insert(q, x), x + 1),
{
    let after = o.insert(q, x);
    assert forall|i: int| 0 <= i < x + 1 implies 0 <= #[trigger] after[i] < x + 1 by {
        if i < q {
            assert(after[i] == o[i]);
        } else if i > q {
            assert(after[i] == o[i - 1]);
        }
    }
    assert forall|y: int| 0 <= y < x + 1 implies #[trigger] after.contains(y) by {
        if y == x {
            assert(after[q] == x);
        } else {
            assert(o.contains(y));
            let i = choose|i: int| 0 <= i < o.len() && o[i] == y;
            if i < q {
                assert(after[i] == y);
            } else {
                assert(after[i + 1] == y);
            }
        }
    }
    if settled(p) {
        assert forall|i: int| 0 <= i < q implies in_place(p, #[trigger] o[i], x) by {
            let l = o[q - 1];
            if outranks(p[x], p[o[i]]) && i < q - 1 {
                assert(in_place(p, o[i], o[q - 1]));
                assert(outranks(p[x], p[l]) || outranks(p[l], p[o[i]]));
                lemma_outranks_one_way(p[o[i]], p[l]);
            }
        }
        assert forall|i: int, j: int| #![trigger after[i], after[j]] 0 <= i < j < x
            + 1 implies in_place(p, after[i], after[j]) by {
            if j < q {
                assert(after[i] == o[i] && after[j] == o[j]);
            } else if j == q {
                assert(after[i] == o[i]);
            } else if i < q {
                assert(after[i] == o[i] && after[j] == o[j - 1]);
            } else if i == q {
                assert(after[j] == o[j - 1]);
                assert(outranks(p[x], p[o[j - 1]]));
            } else {
                assert(after[i] == o[i - 1] && after[j] == o[j - 1]);
            }
        }
    }
}

fn beats(paths: &Vec<Path>, keys: &Vec<Vec<Part>>, a: usize, b: usize) -> (r: bool)
    requires
        a < paths@.len(),
        b < paths@.len(),
        keys@.len() == paths@.len(),
        forall|k: int|
            0 <= k < keys@.len() ==> order::key_value((#[trigger] keys@[k])@) == rank_key(
                leveled(paths@[k]@),
            ),
    ensures
        r == outranks(paths@[a as int]@, paths@[b as int]@),
{
    if paths[a].precision_sum.lt(&paths[b].precision_sum) {
        true
    } else if paths[b].precision_sum.lt(&paths[a].precision_sum) {
        false
    } else {
        order::key_lt(&keys[a], &keys[b])
    }
}

fn arrange_paths(paths: &Vec<Path>) -> (r: Vec<usize>)
    ensures
        arranges_first(path_values(paths@), order::positions(r@), paths@.len() as int),
        r@.len() == paths@.len(),
        forall|i: int| 0 <= i < r@.len() ==> #[trigger] r@[i] < paths@.len(),
{
    let ghost pv = path_values(paths@);
    let mut keys: Vec<Vec<Part>> = Vec::new();
    let mut i: usize = 0;
    while i < paths.len()
        invariant
            i <= paths.len(),
            keys@.len() == i,
            forall|k: int|
                0 <= k < i ==> order::key_value((#[trigger] keys@[k])@) == rank_key(
                    leveled(paths@[k]@),
                ),
        decreases paths.len() - i,
    {
        let p = &paths[i];
        let level = Path {
            hops: copy_hops(&p.hops),
            precision_sum: Scalar::zero(),
            version_sum: p.version_sum,
            edge_id_sum: p.edge_id_sum,
        };
        assert(level@ == leveled(p@));
        keys.push(key_of(&level));
        i += 1;
    }
    let mut out: Vec<usize> = Vec::new();
    let mut x: usize = 0;
    while x < paths.len()
        invariant
            x <= paths.len(),
            pv == path_values(paths@),
            keys@.len() == paths@.len(),
            forall|k: int|
                0 <= k < keys@.len() ==> order::key_value((#[trigger] keys@[k])@) == rank_key(
                    leveled(paths@[k]@),
                ),
            out@.len() == x,
            arranges_first(pv, order::positions(out@), x as int),
        decreases paths.len() - x,
    {
        let ghost before = order::positions(out@);
        assert forall|k: int| 0 <= k < x implies #[trigger] out@[k] == before[k] && out@[k]
            < x by {
            assert(0 <= before[k] < x);
        }
        let mut q: usize = out.len();
        let mut more = q > 0;
        while more
            invariant
                q <= out@.len(),
                x < paths@.len(),
                more ==> q > 0,
                pv == path_values(paths@),
                keys@.len() == paths@.len(),
                forall|k: int|
                    0 <= k < keys@.len() ==> order::key_value((#[trigger] keys@[k])@) == rank_key(
                        leveled(paths@[k]@),
                    ),
                out@.len() == x,
                before == order::positions(out@),
                forall|k: int| 0 <= k < x ==> #[trigger] out@[k] == before[k] && out@[k] < x,
                forall|k: int| q <= k < x ==> outranks(pv[x as int], pv[#[trigger] before[k]]),
                !more && q > 0 ==> !outranks(pv[x as int], pv[before[q - 1]]),
            decreases q + if more { 1int } else { 0 },
        {
            assert(out@[q - 1] == before[q - 1]);
            if beats(paths, &keys, x, out[q - 1]) {
                q -= 1;
                more = q > 0;
            } else {
                more = false;
            }
        }
        proof {
            lemma_arrange_one_more(pv, before, x as int, q as int);
        }
        out.insert(q, x);
        assert(order::positions(out@) =~= before.insert(q as int, x as int));
        x += 1;
    }
    proof {
        assert forall|i: int| 0 <= i < out@.len() implies #[trigger] out@[i] < paths@.len() by {
            assert(order::positions(out@)[i] == out@[i]);
        }
    }
    out
}

/// Ranks paths and drops repeats.
pub fn rank_paths(paths: &Vec<Path>) -> (r: Vec<Path>)
    ensures
        ranks(path_values(paths@), path_values(r@)),
        has_numbers(path_values(paths@)) ==> path_values(r@) == ranked(path_values(paths@)),
{
    let ghost pv = path_values(paths@);
    let o = arrange_paths(paths);
    let ghost sorted = order::positions(o@).map_values(|i: int| pv[i]);
    let mut out: Vec<Path> = Vec::new();
    let mut j: usize = 0;
    while j < o.len()
        invariant
            j <= o.len(),
            pv == path_values(paths@),
            forall|i: int| 0 <= i < o@.len() ==> #[trigger] o@[i] < paths@.len(),
            sorted == order::positions(o@).map_values(|i: int| pv[i]),
            path_values(out@) == drop_repeats(sorted.take(j as int)),
        decreases o.len() - j,
    {
        assert(sorted.take(j + 1).drop_last() =~= sorted.take(j as int));
        assert(order::positions(o@)[j as int] == o@[j as int]);
        let p = &paths[o[j]];
        assert(sorted[j as int] == p@);
        let ghost before = path_values(out@);
        let n: usize = out.len();
        assert(n > 0 ==> before.last() == out@[n - 1]@);
        if n == 0 || !same_ids(&out[n - 1], p) {
            out.push(copy_path(p));
            assert(path_values(out@) =~= before.push(p@));
        }
        j += 1;
    }
    assert(sorted.take(sorted.len() as int) =~= sorted);
    proof {
        assert(ranks(pv, path_values(out@)));
        if has_numbers(pv) {
            law_numbers_settle_ranks(pv, path_values(out@));
        }
    }
    out
}

/// Ranks walks, given the sum of precisions of each. Nothing is returned where there is
/// not one sum for each walk.
pub fn rank_walks(walks: &Vec<Vec<Hop>>, sums: &Vec<Scalar>) -> (r: Option<Vec<Path>>)
    ensures
        r is Some <==> sums@.len() == walk_values(walks@).len(),
        r matches Some(p) ==> {
            let paths = paths_along(walk_values(walks@), sums@);
            &&& ranks(paths, path_values(p@))
            &&& has_numbers(paths) ==> path_values(p@) == ranked(paths)
        },
{
    let ghost wv = walk_values(walks@);
    if walks.len() != sums.len() {
        return None;
    }
    let mut paths: Vec<Path> = Vec::new();
    let mut i: usize = 0;
    while i < walks.len()
        invariant
            i <= walks.len(),
            walks.len() == sums.len(),
            walk_values(walks@) == wv,
            paths@.len() == i,
            forall|k: int| 0 <= k < i ==> (#[trigger] paths@[k])@ == path_of(wv[k], sums@[k]),
        decreases walks.len() - i,
    {
        assert(wv[i as int] == hop_values(walks@[i as int]@));
        paths.push(build_path(copy_hops(&walks[i]), sums[i]));
        i += 1;
    }
    assert(path_values(paths@) =~= paths_along(wv, sums@));
    Some(rank_paths(&paths))
}

// ---- the transform graph ------------------------------------------------------

/// The largest translation residual of an accepted loop: the double nearest to
/// five hundredths of a metre.
pub const LOOP_TOL_TRANS: u64 = 0x3fa9_9999_9999_999a;

/// The largest rotation residual of an accepted loop: the double nearest to one
/// hundredth of a radian.
pub const LOOP_TOL_ROT: u64 = 0x3f84_7ae1_47ae_147b;

/// The double one.
pub const ONE: u64 = 0x3ff0_0000_0000_0000;

/// A version of a transform from a child frame to its parent, with the window in
/// which it holds, both ends among it.
#[derive(Clone, Debug)]
pub struct GraphEdge {
    pub id: i64,
    pub version: i64,
    pub parent: String,
    pub child: String,
    pub translation: [Scalar; 3],
    pub rotation: [Scalar; 4],
    pub cov: Vec<Scalar>,
    pub precision: Scalar,
    pub valid_from: Nanos,
    pub valid_to: Nanos,
    pub inserted_at: Nanos,
}

impl GraphEdge {
    /// Whether the edge holds at a time.
    pub open spec fn active_at(self, t: int) -> bool {
        self.valid_from <= t <= self.valid_to
    }

    /// The step along the edge.
    pub open spec fn along(self) -> HopValue {
        HopValue {
            edge_id: self.id as int,
            version: self.version as int,
            from: self.child@,
            to: self.parent@,
            reversed: false,
            precision: self.precision,
        }
    }

    /// The step against the edge.
    pub open spec fn against(self) -> HopValue {
        HopValue {
            edge_id: self.id as int,
            version: self.version as int,
            from: self.parent@,
            to: self.child@,
            reversed: true,
            precision: self.precision,
        }
    }

    fn active(&self, t: Nanos) -> (r: bool)
        ensures
            r == self.active_at(t as int),
    {
        self.valid_from <= t && t <= self.valid_to
    }

    fn pair(&self) -> (r: (String, String))
        ensures
            (r.0@, r.1@) == pair_of(self.parent@, self.child@),
    {
        pair_key(self.parent.as_str(), self.child.as_str())
    }
}

/// Two names in code point order.
pub open spec fn pair_of(a: Seq<char>, b: Seq<char>) -> (Seq<char>, Seq<char>) {
    if text::before(b, a) {
        (b, a)
    } else {
        (a, b)
    }
}

/// Two names in code point order, whichever way round they come.
pub fn pair_key(a: &str, b: &str) -> (r: (String, String))
    ensures
        (r.0@, r.1@) == pair_of(a@, b@),
{
    if text::comes_before(b, a) {
        (b.to_owned(), a.to_owned())
    } else {
        (a.to_owned(), b.to_owned())
    }
}

/// A pair of names has the same key whichever way round it comes.
pub proof fn law_pair_key_ignores_direction(a: Seq<char>, b: Seq<char>)
    ensures
        pair_of(a, b) == pair_of(b, a),
{
    text::law_before_is_a_strict_total_order(a, b, a);
}

/// Whether two edges join the same frames in windows that meet.
pub open spec fn rivals(a: GraphEdge, b: GraphEdge) -> bool {
    &&& pair_of(a.parent@, a.child@) == pair_of(b.parent@, b.child@)
    &&& a.valid_from <= b.valid_to
    &&& b.valid_from <= a.valid_to
}

/// The positions of the first `n` edges that a new edge would close a loop with.
pub open spec fn rivals_among(edges: Seq<GraphEdge>, e: GraphEdge, n: int) -> Seq<int>
    decreases n,
{
    if n <= 0 {
        Seq::empty()
    } else if rivals(e, edges[n - 1]) {
        rivals_among(edges, e, n - 1).push(n - 1)
    } else {
        rivals_among(edges, e, n - 1)
    }
}

fn overlap(a: &GraphEdge, b: &GraphEdge) -> (r: bool)
    ensures
        r == (a.valid_from <= b.valid_to && b.valid_from <= a.valid_to),
{
    a.valid_from <= b.valid_to && b.valid_from <= a.valid_to
}

fn are_rivals(a: &GraphEdge, b: &GraphEdge) -> (r: bool)
    ensures
        r == rivals(*a, *b),
{
    let p = a.pair();
    let q = b.pair();
    p.0 == q.0 && p.1 == q.1 && overlap(a, b)
}

/// How far two edges between the same frames are apart, with both numbers
/// rendered for messages.
#[derive(Clone, Debug)]
pub struct Residual {
    pub trans: Scalar,
    pub rot: Scalar,
    pub trans_text: String,
    pub rot_text: String,
}

impl Residual {
    /// Whether both residuals are within their tolerances.
    pub open spec fn within(self) -> bool {
        &&& self.trans.at_most(Scalar { bits: LOOP_TOL_TRANS })
        &&& self.rot.at_most(Scalar { bits: LOOP_TOL_ROT })
    }
}

/// The loop that a new edge closes with an edge already there.
#[derive(Clone, Debug)]
pub struct LoopReport {
    pub frames: Vec<String>,
    pub residual_trans: Scalar,
    pub residual_rot: Scalar,
    pub tolerance_trans: Scalar,
    pub tolerance_rot: Scalar,
    pub accepted: bool,
    pub compared_edge: i64,
    /// The trace of the covariance along a loop over other frames.
    pub covariance_trace: Option<Scalar>,
}

impl LoopReport {
    /// Whether this reports the loop of a new edge and an old one.
    pub open spec fn tells(self, new: GraphEdge, old: GraphEdge, res: Residual) -> bool {
        &&& self.frames@.len() == 2
        &&& self.frames@[0]@ == new.child@
        &&& self.frames@[1]@ == new.parent@
        &&& self.residual_trans == res.trans
        &&& self.residual_rot == res.rot
        &&& self.tolerance_trans.bits == LOOP_TOL_TRANS
        &&& self.tolerance_rot.bits == LOOP_TOL_ROT
        &&& self.accepted == res.within()
        &&& self.compared_edge == old.id
        &&& self.covariance_trace is None
    }

    /// Whether this reports the loop of a new edge and a walk back over other frames.
    pub open spec fn tells_walk(self, new: GraphEdge, walk: Seq<HopValue>, m: LoopMeasure) -> bool {
        &&& names(self.frames@) == round_trip(walk, new.child@)
        &&& self.residual_trans == m.residual.trans
        &&& self.residual_rot == m.residual.rot
        &&& self.tolerance_trans.bits == LOOP_TOL_TRANS
        &&& self.tolerance_rot.bits == LOOP_TOL_ROT
        &&& !self.accepted
        &&& self.compared_edge == if walk.len() > 0 {
            walk[0].edge_id
        } else {
            new.id as int
        }
        &&& self.covariance_trace == Some(m.trace)
    }
}

fn loop_report(new: &GraphEdge, old_edge: &GraphEdge, res: &Residual) -> (r: LoopReport)
    ensures
        r.tells(*new, *old_edge, *res),
{
    let tolerance_trans = Scalar { bits: LOOP_TOL_TRANS };
    let tolerance_rot = Scalar { bits: LOOP_TOL_ROT };
    let mut frames: Vec<String> = Vec::new();
    frames.push(new.child.clone());
    frames.push(new.parent.clone());
    LoopReport {
        frames,
        residual_trans: res.trans,
        residual_rot: res.rot,
        tolerance_trans,
        tolerance_rot,
        accepted: res.trans.le(&tolerance_trans) && res.rot.le(&tolerance_rot),
        compared_edge: old_edge.id,
        covariance_trace: None,
    }
}

fn walk_report(new: &GraphEdge, walk: &Vec<Hop>, m: &LoopMeasure) -> (r: LoopReport)
    ensures
        r.tells_walk(*new, hop_values(walk@), *m),
{
    LoopReport {
        frames: name_round_trip(walk, new.child.as_str()),
        residual_trans: m.residual.trans,
        residual_rot: m.residual.rot,
        tolerance_trans: Scalar { bits: LOOP_TOL_TRANS },
        tolerance_rot: Scalar { bits: LOOP_TOL_ROT },
        accepted: false,
        compared_edge: if walk.len() > 0 {
            walk[0].edge_id
        } else {
            new.id
        },
        covariance_trace: Some(m.trace),
    }
}

/// What became of a new edge.
#[derive(Clone, Debug)]
pub struct AddReport {
    pub edge_id: i64,
    pub version: i64,
    pub loops: Vec<LoopReport>,
    pub rejected: bool,
    pub reason: Option<String>,
}

/// The message about one loop that is out of tolerance.
pub open spec fn loop_message(old_id: int, res: Residual) -> Seq<char> {
    "与边#"@ + text::decimal(old_id) + " 闭环残差超限(平移 "@ + res.trans_text@
        + "m>0.050, 旋转 "@ + res.rot_text@ + "rad>0.0100)"@
}

fn message_of(old_id: i64, res: &Residual) -> (r: String)
    ensures
        r@ == loop_message(old_id as int, *res),
{
    let mut m = "与边#".to_owned();
    let id = text::decimal_text(old_id as i128);
    m.append(id.as_str());
    m.append(" 闭环残差超限(平移 ");
    m.append(res.trans_text.as_str());
    m.append("m>0.050, 旋转 ");
    m.append(res.rot_text.as_str());
    m.append("rad>0.0100)");
    m
}

/// The messages about the first `n` loops, joined by semicolons; nothing where all
/// are within tolerance.
pub open spec fn reason_of(
    edges: Seq<GraphEdge>,
    at: Seq<int>,
    res: Seq<Residual>,
    n: int,
) -> Option<Seq<char>>
    decreases n,
{
    if n <= 0 {
        None
    } else {
        let before = reason_of(edges, at, res, n - 1);
        if res[n - 1].within() {
            before
        } else {
            let m = loop_message(edges[at[n - 1]].id as int, res[n - 1]);
            match before {
                Some(b) => Some(b + "; "@ + m),
                None => Some(m),
            }
        }
    }
}

/// Links along the first `n` edges whose windows meet that of a new edge and that join
/// other frames than it does.
pub open spec fn meeting_links(edges: Seq<GraphEdge>, e: GraphEdge, n: int) -> Seq<HopValue>
    decreases n,
{
    if n <= 0 {
        Seq::empty()
    } else {
        let o = edges[n - 1];
        let before = meeting_links(edges, e, n - 1);
        if e.valid_from <= o.valid_to && o.valid_from <= e.valid_to && pair_of(
            e.parent@,
            e.child@,
        ) != pair_of(o.parent@, o.child@) {
            before.push(o.along())
        } else {
            before
        }
    }
}

/// The walk over other frames that a new edge would close a loop with.
pub open spec fn walk_back(edges: Seq<GraphEdge>, e: GraphEdge) -> Option<Seq<HopValue>> {
    loop_walk(meeting_links(edges, e, edges.len() as int), e.child@, e.parent@)
}

/// Whether a new edge would close a loop over other frames with edges whose windows meet
/// its own.
pub open spec fn closes_over_frames(edges: Seq<GraphEdge>, e: GraphEdge) -> bool {
    closes_loop(meeting_links(edges, e, edges.len() as int), e.child@, e.parent@)
}

/// The message about a loop over other frames.
pub open spec fn walk_message(e: GraphEdge, walk: Seq<HopValue>, m: LoopMeasure) -> Seq<char> {
    "edge closes a frame loop: "@ + loop_words(round_trip(walk, e.child@), m)
}

/// Two messages, joined by a semicolon.
pub open spec fn both(a: Option<Seq<char>>, b: Option<Seq<char>>) -> Option<Seq<char>> {
    match (a, b) {
        (Some(x), Some(y)) => Some(x + "; "@ + y),
        (Some(x), None) => Some(x),
        (None, y) => y,
    }
}

/// Why a new edge is kept out, given the residuals of the loops between its two frames
/// and the measure of one over other frames.
pub open spec fn refusal_of(
    edges: Seq<GraphEdge>,
    e: GraphEdge,
    res: Seq<Residual>,
    m: LoopMeasure,
) -> Option<Seq<char>> {
    let at = rivals_among(edges, e, edges.len() as int);
    both(
        reason_of(edges, at, res, at.len() as int),
        match walk_back(edges, e) {
            Some(w) => Some(walk_message(e, w, m)),
            None => None,
        },
    )
}

/// Links along and against the first `n` edges that hold at a time.
pub open spec fn links_of(edges: Seq<GraphEdge>, t: int, n: int) -> Seq<HopValue>
    decreases n,
{
    if n <= 0 {
        Seq::empty()
    } else {
        let e = edges[n - 1];
        let before = links_of(edges, t, n - 1);
        if !e.active_at(t) {
            before
        } else if e.parent@ == e.child@ {
            before.push(e.along())
        } else {
            before.push(e.along()).push(e.against())
        }
    }
}

/// What links are sorted by: the edge id, then the frame they lead to.
pub open spec fn link_key(h: HopValue) -> Seq<order::PartValue> {
    seq![order::PartValue::Number(h.edge_id), order::PartValue::Text(h.to)]
}

/// All links that hold at a time, in their order.
pub open spec fn links_at_time(edges: Seq<GraphEdge>, t: int) -> Seq<HopValue> {
    let l = links_of(edges, t, edges.len() as int);
    order::order_of(l.map_values(|h: HopValue| link_key(h))).map_values(|i: int| l[i])
}

/// Edges between frames, in the order in which they were added.
#[derive(Clone, Debug)]
pub struct FrameGraph {
    pub edges: Vec<GraphEdge>,
}

impl FrameGraph {
    pub fn new() -> (r: FrameGraph)
        ensures
            r.edges@.len() == 0,
    {
        FrameGraph { edges: Vec::new() }
    }

    /// Replaces all edges.
    pub fn load(&mut self, edges: Vec<GraphEdge>)
        ensures
            final(self).edges@ == edges@,
    {
        self.edges = edges;
    }

    pub fn edges(&self) -> (r: &Vec<GraphEdge>)
        ensures
            r@ == self.edges@,
    {
        &self.edges
    }

    /// The positions of the edges that a new edge would close a loop with.
    pub fn rivals_of(&self, e: &GraphEdge) -> (r: Vec<usize>)
        ensures
            order::positions(r@) == rivals_among(self.edges@, *e, self.edges@.len() as int),
            forall|i: int| 0 <= i < r@.len() ==> #[trigger] r@[i] < self.edges@.len(),
    {
        let mut out: Vec<usize> = Vec::new();
        let mut i: usize = 0;
        assert(order::positions(out@) =~= Seq::<int>::empty());
        while i < self.edges.len()
            invariant
                i <= self.edges.len(),
                order::positions(out@) == rivals_among(self.edges@, *e, i as int),
                forall|k: int| 0 <= k < out@.len() ==> #[trigger] out@[k] < self.edges@.len(),
            decreases self.edges.len() - i,
        {
            if are_rivals(e, &self.edges[i]) {
                let ghost before = order::positions(out@);
                out.push(i);
                assert(order::positions(out@) =~= before.push(i as int));
            }
            i += 1;
        }
        out
    }

    fn links_meeting(&self, e: &GraphEdge) -> (r: Vec<Hop>)
        ensures
            hop_values(r@) == meeting_links(self.edges@, *e, self.edges@.len() as int),
            r@.len() <= self.edges@.len(),
    {
        let mut links: Vec<Hop> = Vec::new();
        let mut i: usize = 0;
        assert(hop_values(links@) =~= Seq::<HopValue>::empty());
        while i < self.edges.len()
            invariant
                i <= self.edges@.len(),
                hop_values(links@) == meeting_links(self.edges@, *e, i as int),
                links@.len() <= i,
            decreases self.edges.len() - i,
        {
            let o = &self.edges[i];
            let p = e.pair();
            let q = o.pair();
            let same = p.0 == q.0 && p.1 == q.1;
            if overlap(e, o) && !same {
                let ghost before = hop_values(links@);
                links.push(
                    Hop {
                        edge_id: o.id,
                        version: o.version,
                        from: o.child.clone(),
                        to: o.parent.clone(),
                        reversed: false,
                        precision: o.precision,
                    },
                );
                assert(hop_values(links@) =~= before.push(o.along()));
            }
            i += 1;
        }
        links
    }

    /// The walk over other frames that a new edge would close a loop with, to be measured
    /// before the edge is added.
    pub fn loop_with(&self, e: &GraphEdge) -> (r: Option<Vec<Hop>>)
        requires
            self.edges@.len() < usize::MAX,
        ensures
            match r {
                Some(w) => walk_back(self.edges@, *e) == Some(hop_values(w@)),
                None => walk_back(self.edges@, *e) is None,
            },
    {
        let links = self.links_meeting(e);
        assert(hop_values(links@).len() == links@.len());
        find_loop(&links, e.child.as_str(), e.parent.as_str())
    }

    /// Adds an edge, given the residuals of the loops it closes with the edges
    /// that `rivals_of` lists, one for each, and the measure of the loop that `loop_with`
    /// finds. A loop between its two frames that is out of tolerance keeps the edge out,
    /// and so does any loop over other frames. Nothing happens where the residuals do not
    /// match the loops.
    pub fn add(&mut self, e: GraphEdge, residuals: &Vec<Residual>, m: &LoopMeasure) -> (r: Option<
        AddReport,
    >)
        requires
            old(self).edges@.len() < usize::MAX,
        ensures
            ({
                let edges = old(self).edges@;
                let at = rivals_among(edges, e, edges.len() as int);
                let n = at.len() as int;
                &&& r is Some <==> residuals@.len() == n
                &&& r is None ==> final(self).edges@ == edges
                &&& r matches Some(report) ==> {
                    &&& report.edge_id == e.id
                    &&& report.version == e.version
                    &&& report.loops@.len() == if closes_over_frames(edges, e) {
                        n + 1
                    } else {
                        n
                    }
                    &&& forall|i: int|
                        0 <= i < n ==> (#[trigger] report.loops@[i]).tells(
                            e,
                            edges[at[i]],
                            residuals@[i],
                        )
                    &&& closes_over_frames(edges, e) ==> report.rejected
                        && report.loops@[n].tells_walk(e, walk_back(edges, e)->0, *m)
                    &&& report.rejected == refusal_of(edges, e, residuals@, *m) is Some
                    &&& report.reason is Some == report.rejected
                    &&& report.rejected ==> report.reason->0@ == refusal_of(
                        edges,
                        e,
                        residuals@,
                        *m,
                    )->0
                    &&& final(self).edges@ == if report.rejected {
                        edges
                    } else {
                        edges.push(e)
                    }
                }
            }),
    {
        let at = self.rivals_of(&e);
        if at.len() != residuals.len() {
            return None;
        }
        let ghost atv = order::positions(at@);
        let mut loops: Vec<LoopReport> = Vec::new();
        let mut reason: Option<String> = None;
        let mut i: usize = 0;
        while i < at.len()
            invariant
                i <= at.len(),
                at.len() == residuals.len(),
                self.edges@ == old(self).edges@,
                atv == order::positions(at@),
                forall|k: int| 0 <= k < at@.len() ==> #[trigger] at@[k] < self.edges@.len(),
                loops@.len() == i,
                forall|k: int|
                    0 <= k < i ==> (#[trigger] loops@[k]).tells(
                        e,
                        self.edges@[atv[k]],
                        residuals@[k],
                    ),
                reason is Some == reason_of(self.edges@, atv, residuals@, i as int) is Some,
                reason is Some ==> reason->0@ == reason_of(
                    self.edges@,
                    atv,
                    residuals@,
                    i as int,
                )->0,
            decreases at.len() - i,
        {
            assert(atv[i as int] == at@[i as int]);
            let other = &self.edges[at[i]];
            let lp = loop_report(&e, other, &residuals[i]);
            if !lp.accepted {
                let m = message_of(other.id, &residuals[i]);
                reason = match reason {
                    Some(mut b) => {
                        b.append("; ");
                        b.append(m.as_str());
                        Some(b)
                    },
                    None => Some(m),
                };
            }
            loops.push(lp);
            i += 1;
        }
        proof {
            law_loop_is_found_where_there_is_one(
                meeting_links(self.edges@, e, self.edges@.len() as int),
                e.child@,
                e.parent@,
            );
        }
        if let Some(w) = self.loop_with(&e) {
            let lp = walk_report(&e, &w, m);
            let words = say_loop(&lp.frames, m);
            let said = text::join2("edge closes a frame loop: ", words.as_str());
            assert(said@ == walk_message(e, hop_values(w@), *m));
            reason = match reason {
                Some(mut b) => {
                    b.append("; ");
                    b.append(said.as_str());
                    Some(b)
                },
                None => Some(said),
            };
            loops.push(lp);
        }
        let rejected = reason.is_some();
        let edge_id: i64 = e.id;
        let version: i64 = e.version;
        if !rejected {
            self.edges.push(e);
        }
        Some(AddReport { edge_id, version, loops, rejected, reason })
    }

    /// All links that hold at a time, in the order of edge ids and of the frames
    /// they lead to.
    pub fn links_at(&self, t: Nanos) -> (r: Vec<Hop>)
        ensures
            hop_values(r@) == links_at_time(self.edges@, t as int),
    {
        let ghost all = links_of(self.edges@, t as int, self.edges@.len() as int);
        let mut links: Vec<Hop> = Vec::new();
        let mut i: usize = 0;
        assert(hop_values(links@) =~= Seq::<HopValue>::empty());
        while i < self.edges.len()
            invariant
                i <= self.edges.len(),
                hop_values(links@) == links_of(self.edges@, t as int, i as int),
            decreases self.edges.len() - i,
        {
            let e = &self.edges[i];
            if e.active(t) {
                let ghost before = hop_values(links@);
                links.push(
                    Hop {
                        edge_id: e.id,
                        version: e.version,
                        from: e.child.clone(),
                        to: e.parent.clone(),
                        reversed: false,
                        precision: e.precision,
                    },
                );
                assert(hop_values(links@) =~= before.push(e.along()));
                if !text::same(e.parent.as_str(), e.child.as_str()) {
                    links.push(
                        Hop {
                            edge_id: e.id,
                            version: e.version,
                            from: e.parent.clone(),
                            to: e.child.clone(),
                            reversed: true,
                            precision: e.precision,
                        },
                    );
                    assert(hop_values(links@) =~= before.push(e.along()).push(e.against()));
                }
            }
            i += 1;
        }
        let mut keys: Vec<Vec<Part>> = Vec::new();
        let mut j: usize = 0;
        while j < links.len()
            invariant
                j <= links.len(),
                hop_values(links@) == all,
                keys@.len() == j,
                forall|k: int|
                    0 <= k < j ==> order::key_value((#[trigger] keys@[k])@) == link_key(all[k]),
            decreases links.len() - j,
        {
            let mut key: Vec<Part> = Vec::new();
            key.push(Part::Number(links[j].edge_id as i128));
            key.push(Part::Text(links[j].to.clone()));
            assert(all[j as int] == links@[j as int]@);
            assert(order::key_value(key@) =~= link_key(all[j as int]));
            keys.push(key);
            j += 1;
        }
        assert(order::key_values(keys@) =~= all.map_values(|h: HopValue| link_key(h)));
        let o = order::sorted_order(&keys);
        let mut out: Vec<Hop> = Vec::new();
        let mut k: usize = 0;
        while k < o.len()
            invariant
                k <= o.len(),
                hop_values(links@) == all,
                o@.len() == links@.len(),
                forall|i: int| 0 <= i < o@.len() ==> #[trigger] o@[i] < links@.len(),
                hop_values(out@) == order::positions(o@).take(k as int).map_values(
                    |i: int| all[i],
                ),
            decreases o.len() - k,
        {
            let ghost before = hop_values(out@);
            out.push(copy_hop(&links[o[k]]));
            assert(hop_values(out@) =~= before.push(all[o@[k as int] as int]));
            k += 1;
            assert(order::positions(o@).take(k as int).map_values(|i: int| all[i])
                =~= before.push(all[o@[k - 1] as int]));
        }
        assert(order::positions(o@).take(o@.len() as int) =~= order::positions(o@));
        out
    }

    /// The walks between two different frames at a time.
    pub open spec fn walks_between(self, from: Seq<char>, to: Seq<char>, t: int)
        -> Seq<Seq<HopValue>> {
        if from == to {
            Seq::empty()
        } else {
            all_walks(links_at_time(self.edges@, t), from, to, MAX_HOPS as int)
        }
    }

    /// The walks between two different frames at a time, whose precisions are to
    /// be summed before they are ranked.
    pub fn walks_at(&self, from: &str, to: &str, t: Nanos) -> (r: Vec<Vec<Hop>>)
        ensures
            walk_values(r@) == self.walks_between(from@, to@, t as int),
    {
        if text::same(from, to) {
            let none: Vec<Vec<Hop>> = Vec::new();
            assert(walk_values(none@) =~= Seq::<Seq<HopValue>>::empty());
            return none;
        }
        let links = self.links_at(t);
        enumerate_walks(&links, from, to, MAX_HOPS)
    }

    /// The simple paths of at most `MAX_HOPS` hops between two frames at a time,
    /// best first, given the sum of precisions of each walk that `walks_at` lists.
    /// From a frame to itself there is one path without hops. Nothing is returned
    /// where there is not one sum for each walk.
    pub fn find_paths(&self, from: &str, to: &str, t: Nanos, sums: &Vec<Scalar>) -> (r: Option<
        Vec<Path>,
    >)
        ensures
            ({
                let walks = self.walks_between(from@, to@, t as int);
                let all = paths_along(walks, sums@);
                &&& r is Some <==> sums@.len() == walks.len()
                &&& r matches Some(paths) ==> if from@ == to@ {
                    path_values(paths@) == seq![path_of(Seq::empty(), Scalar { bits: 0 })]
                } else {
                    &&& ranks(all, path_values(paths@))
                    &&& has_numbers(all) ==> path_values(paths@) == ranked(all)
                }
            }),
    {
        let walks = self.walks_at(from, to, t);
        let r = rank_walks(&walks, sums);
        if text::same(from, to) && r.is_some() {
            let mut one: Vec<Path> = Vec::new();
            let hops: Vec<Hop> = Vec::new();
            assert(hop_values(hops@) =~= Seq::<HopValue>::empty());
            one.push(build_path(hops, Scalar::zero()));
            assert(path_values(one@) =~= seq![path_of(Seq::empty(), Scalar { bits: 0 })]);
            return Some(one);
        }
        r
    }
}

/// The edge's precision: the one given, else the root of the covariance's trace
/// where the trace is positive, else one.
pub open spec fn precision_of(given: Option<Scalar>, trace: Scalar, root: Scalar) -> Scalar {
    match given {
        Some(p) => p,
        None => if (Scalar { bits: 0 }).below(trace) {
            root
        } else {
            Scalar { bits: ONE }
        },
    }
}

/// A transform's parts, with what only floating point can tell of them.
#[derive(Clone, Debug)]
pub struct Measured {
    pub translation: [Scalar; 3],
    pub rotation: [Scalar; 4],
    /// Whether the rotation's magnitude is at least one half.
    pub normalizable: bool,
    pub cov: Vec<Scalar>,
    /// The covariance's trace, and the square root of it where it is positive.
    pub trace: Scalar,
    pub trace_root: Scalar,
}

/// Makes an edge. The frames must differ, the window must be finite and not end
/// before it starts, and the rotation must be one that can be normalised. A bound
/// of the window that is not finite is `None`.
pub fn make_edge(
    id: i64,
    version: i64,
    parent: &str,
    child: &str,
    tf: Measured,
    precision: Option<Scalar>,
    valid_from: Option<Nanos>,
    valid_to: Option<Nanos>,
    inserted_at: Nanos,
) -> (r: Result<GraphEdge, String>)
    ensures
        ({
            let window = valid_from is Some && valid_to is Some && valid_from->0 <= valid_to->0;
            match r {
                Ok(e) => {
                    &&& parent@ != child@
                    &&& window
                    &&& tf.normalizable
                    &&& e.id == id
                    &&& e.version == version
                    &&& e.parent@ == parent@
                    &&& e.child@ == child@
                    &&& e.translation == tf.translation
                    &&& e.rotation == tf.rotation
                    &&& e.cov == tf.cov
                    &&& e.precision == precision_of(precision, tf.trace, tf.trace_root)
                    &&& e.valid_from == valid_from->0
                    &&& e.valid_to == valid_to->0
                    &&& e.inserted_at == inserted_at
                },
                Err(m) => if parent@ == child@ {
                    m@ == "变换的 parent 与 child 不能相同"@
                } else if !window {
                    m@ == "有效时间区间非法"@
                } else {
                    !tf.normalizable && m@ == "四元数幅值过小，无法归一化"@
                },
            }
        }),
{
    if text::same(parent, child) {
        return Err("变换的 parent 与 child 不能相同".to_owned());
    }
    let (from, to) = match (valid_from, valid_to) {
        (Some(a), Some(b)) => (a, b),
        _ => {
            return Err("有效时间区间非法".to_owned());
        },
    };
    if to < from {
        return Err("有效时间区间非法".to_owned());
    }
    if !tf.normalizable {
        return Err("四元数幅值过小，无法归一化".to_owned());
    }
    let precision = match precision {
        Some(p) => p,
        None => if Scalar::zero().lt(&tf.trace) {
            tf.trace_root
        } else {
            Scalar { bits: ONE }
        },
    };
    Ok(
        GraphEdge {
            id,
            version,
            parent: parent.to_owned(),
            child: child.to_owned(),
            translation: tf.translation,
            rotation: tf.rotation,
            cov: tf.cov,
            precision,
            valid_from: from,
            valid_to: to,
            inserted_at,
        },
    )
}

// ---- directed loops -----------------------------------------------------------

/// What a list of names stands for.
pub open spec fn names(v: Seq<String>) -> Seq<Seq<char>> {
    v.map_values(|s: String| s@)
}

/// Whether a new link from `src` to `dst` would close a loop: it leads a frame to
/// itself, or there is a walk back.
pub open spec fn closes_loop(links: Seq<HopValue>, src: Seq<char>, dst: Seq<char>) -> bool {
    src == dst || exists|w: Seq<HopValue>|
        #[trigger] is_walk(links, w, dst, src, links.len() as int + 1)
}

/// The frames that a chain of hops goes through, both ends among them.
pub fn frame_names(h: &Vec<Hop>) -> (r: Vec<String>)
    ensures
        names(r@) == frames_of(hop_values(h@)),
{
    let ghost hv = hop_values(h@);
    let mut out: Vec<String> = Vec::new();
    if h.len() == 0 {
        assert(names(out@) =~= Seq::<Seq<char>>::empty());
        return out;
    }
    out.push(h[0].from.clone());
    let mut i: usize = 0;
    assert(names(out@) =~= seq![hv[0].from] + hv.take(0).map_values(|x: HopValue| x.to));
    while i < h.len()
        invariant
            i <= h.len(),
            0 < h.len(),
            hv == hop_values(h@),
            names(out@) == seq![hv[0].from] + hv.take(i as int).map_values(|x: HopValue| x.to),
        decreases h.len() - i,
    {
        let ghost before = names(out@);
        out.push(h[i].to.clone());
        assert(hv[i as int] == h@[i as int]@);
        assert(names(out@) =~= before.push(hv[i as int].to));
        i += 1;
        assert(seq![hv[0].from] + hv.take(i as int).map_values(|x: HopValue| x.to)
            =~= before.push(hv[i - 1].to));
    }
    assert(hv.take(h.len() as int) =~= hv);
    out
}

/// The walk back from `dst` to `src` that a new link from `src` to `dst` would close a
/// loop with: the first that there is, or none but the link itself where it leads a
/// frame to itself.
pub open spec fn loop_walk(links: Seq<HopValue>, src: Seq<char>, dst: Seq<char>) -> Option<
    Seq<HopValue>,
> {
    let found = all_walks(links, dst, src, links.len() as int + 1);
    if src == dst {
        Some(Seq::empty())
    } else if found.len() > 0 {
        Some(found[0])
    } else {
        None
    }
}

/// The frames of a loop, from `dst` back to `dst`.
pub open spec fn loop_frames(walk: Seq<HopValue>, dst: Seq<char>) -> Seq<Seq<char>> {
    if walk.len() == 0 {
        seq![dst, dst]
    } else {
        frames_of(walk).push(dst)
    }
}

/// The frames of the loop that a new link from `src` closes with a walk back to it,
/// from `src` on.
pub open spec fn round_trip(walk: Seq<HopValue>, src: Seq<char>) -> Seq<Seq<char>> {
    if walk.len() == 0 {
        seq![src, src]
    } else {
        seq![src] + frames_of(walk)
    }
}

/// A walk back is found where a new link closes a loop, and only there.
pub proof fn law_loop_is_found_where_there_is_one(
    links: Seq<HopValue>,
    src: Seq<char>,
    dst: Seq<char>,
)
    ensures
        loop_walk(links, src, dst) is Some <==> closes_loop(links, src, dst),
        src != dst && loop_walk(links, src, dst) is Some ==> is_walk(
            links,
            loop_walk(links, src, dst)->0,
            dst,
            src,
            links.len() as int + 1,
        ),
{
    let limit = links.len() as int + 1;
    let found = all_walks(links, dst, src, limit);
    if src != dst {
        if found.len() > 0 {
            assert(found.contains(found[0]));
            law_all_walks_are_enumerated(links, dst, src, limit, found[0]);
        } else {
            assert forall|w: Seq<HopValue>| !#[trigger] is_walk(links, w, dst, src, limit) by {
                law_all_walks_are_enumerated(links, dst, src, limit, w);
            }
        }
    }
}

/// Finds the walk back that a new link from `src` to `dst` would close a loop with.
pub fn find_loop(links: &Vec<Hop>, src: &str, dst: &str) -> (r: Option<Vec<Hop>>)
    requires
        links@.len() < usize::MAX,
    ensures
        match r {
            Some(w) => loop_walk(hop_values(links@), src@, dst@) == Some(hop_values(w@)),
            None => loop_walk(hop_values(links@), src@, dst@) is None,
        },
{
    if text::same(src, dst) {
        let none: Vec<Hop> = Vec::new();
        assert(hop_values(none@) =~= Seq::<HopValue>::empty());
        return Some(none);
    }
    let limit: usize = links.len() + 1;
    let mut found = enumerate_walks(links, dst, src, limit);
    let ghost all = walk_values(found@);
    if found.len() == 0 {
        return None;
    }
    let first = found.remove(0);
    assert(hop_values(first@) == all[0]);
    Some(first)
}

/// What is measured of a loop: how far it is from closing, and the trace of the
/// covariance along it, all rendered for messages.
#[derive(Clone, Debug)]
pub struct LoopMeasure {
    pub residual: Residual,
    pub trace: Scalar,
    pub trace_text: String,
}

/// Why a link is refused: the loop that it would close, and how far that is from
/// closing.
#[derive(Clone, Debug)]
pub struct CycleError {
    pub cycle: Vec<String>,
    pub edge_ids: Vec<i64>,
    pub residual_trans: Scalar,
    pub residual_rot: Scalar,
    pub covariance_trace: Scalar,
}

impl CycleError {
    /// Whether this tells of a walk back to `dst`, with its measure.
    pub open spec fn tells(self, walk: Seq<HopValue>, dst: Seq<char>, m: LoopMeasure) -> bool {
        &&& names(self.cycle@) == loop_frames(walk, dst)
        &&& self.edge_ids@.map_values(|i: i64| i as int) == ids_of(walk)
        &&& self.residual_trans == m.residual.trans
        &&& self.residual_rot == m.residual.rot
        &&& self.covariance_trace == m.trace
    }
}

fn name_loop(walk: &Vec<Hop>, dst: &str) -> (r: Vec<String>)
    ensures
        names(r@) == loop_frames(hop_values(walk@), dst@),
{
    let mut cycle = frame_names(walk);
    let ghost before = names(cycle@);
    if walk.len() == 0 {
        cycle.push(dst.to_owned());
    }
    cycle.push(dst.to_owned());
    assert(names(cycle@) =~= loop_frames(hop_values(walk@), dst@));
    cycle
}

fn name_round_trip(walk: &Vec<Hop>, src: &str) -> (r: Vec<String>)
    ensures
        names(r@) == round_trip(hop_values(walk@), src@),
{
    let mut cycle = frame_names(walk);
    let ghost before = names(cycle@);
    if walk.len() == 0 {
        cycle.push(src.to_owned());
    }
    cycle.insert(0, src.to_owned());
    assert(names(cycle@) =~= round_trip(hop_values(walk@), src@));
    cycle
}

fn edge_ids(walk: &Vec<Hop>) -> (r: Vec<i64>)
    ensures
        r@.map_values(|i: i64| i as int) == ids_of(hop_values(walk@)),
{
    let mut out: Vec<i64> = Vec::new();
    let mut i: usize = 0;
    while i < walk.len()
        invariant
            i <= walk@.len(),
            out@.len() == i,
            forall|k: int| 0 <= k < i ==> #[trigger] out@[k] == walk@[k].edge_id,
        decreases walk.len() - i,
    {
        out.push(walk[i].edge_id);
        i += 1;
    }
    assert(out@.map_values(|i: i64| i as int) =~= ids_of(hop_values(walk@)));
    out
}

/// Refuses a new link from `src` to `dst` that closes a loop with the links there
/// are, and tells of the loop that `find_loop` finds, given what was measured of it.
pub fn check_cycle(links: &Vec<Hop>, src: &str, dst: &str, m: &LoopMeasure) -> (r: Result<
    (),
    CycleError,
>)
    requires
        links@.len() < usize::MAX,
    ensures
        ({
            let lv = hop_values(links@);
            match r {
                Ok(()) => !closes_loop(lv, src@, dst@),
                Err(e) => {
                    &&& closes_loop(lv, src@, dst@)
                    &&& e.tells(loop_walk(lv, src@, dst@)->0, dst@, *m)
                },
            }
        }),
{
    proof {
        law_loop_is_found_where_there_is_one(hop_values(links@), src@, dst@);
    }
    match find_loop(links, src, dst) {
        None => Ok(()),
        Some(w) => Err(
            CycleError {
                cycle: name_loop(&w, dst),
                edge_ids: edge_ids(&w),
                residual_trans: m.residual.trans,
                residual_rot: m.residual.rot,
                covariance_trace: m.trace,
            },
        ),
    }
}

/// Frame names, joined by arrows.
pub open spec fn arrows(frames: Seq<Seq<char>>) -> Seq<char>
    decreases frames.len(),
{
    if frames.len() == 0 {
        Seq::empty()
    } else if frames.len() == 1 {
        frames[0]
    } else {
        arrows(frames.drop_last()) + " -> "@ + frames.last()
    }
}

/// What is said of a loop: its frames, its residuals and its covariance trace.
pub open spec fn loop_words(frames: Seq<Seq<char>>, m: LoopMeasure) -> Seq<char> {
    arrows(frames) + "; residual "@ + m.residual.trans_text@ + " m, "@ + m.residual.rot_text@
        + " rad; covariance trace "@ + m.trace_text@
}

fn arrow_text(frames: &Vec<String>) -> (r: String)
    ensures
        r@ == arrows(names(frames@)),
{
    let ghost all = names(frames@);
    let mut out = "".to_owned();
    proof {
        reveal_strlit("");
        assert(out@ =~= arrows(all.take(0)));
    }
    let mut i: usize = 0;
    while i < frames.len()
        invariant
            i <= frames@.len(),
            all == names(frames@),
            out@ == arrows(all.take(i as int)),
        decreases frames.len() - i,
    {
        let ghost before = out@;
        if i > 0 {
            out.append(" -> ");
        }
        out.append(frames[i].as_str());
        i += 1;
        proof {
            let now = all.take(i as int);
            assert(now.drop_last() =~= all.take(i - 1));
            assert(now.last() == frames@[i - 1]@);
            if i == 1 {
                assert(out@ =~= now[0]);
            } else {
                assert(out@ =~= before + " -> "@ + now.last());
            }
        }
    }
    assert(all.take(frames@.len() as int) =~= all);
    out
}

/// Says of a loop what its frames, its residuals and its covariance trace are.
pub fn say_loop(frames: &Vec<String>, m: &LoopMeasure) -> (r: String)
    ensures
        r@ == loop_words(names(frames@), *m),
{
    let mut s = arrow_text(frames);
    s.append("; residual ");
    s.append(m.residual.trans_text.as_str());
    s.append(" m, ");
    s.append(m.residual.rot_text.as_str());
    s.append(" rad; covariance trace ");
    s.append(m.trace_text.as_str());
    s
}

// ---- freedom from loops ---------------------------------------------------------------------

/// Whether a chain of hops follows links, each hop going on where the one before ended.
pub open spec fn is_trail(links: Seq<HopValue>, chain: Seq<HopValue>) -> bool {
    &&& chain.len() > 0
    &&& forall|i: int| 0 <= i < chain.len() ==> #[trigger] links.contains(chain[i])
    &&& forall|i: int| 1 <= i < chain.len() ==> (#[trigger] chain[i]).from == chain[i - 1].to
}

/// Whether no chain of links leads a frame back to itself.
pub open spec fn loop_free(links: Seq<HopValue>) -> bool {
    forall|chain: Seq<HopValue>| #[trigger]
        is_trail(links, chain) ==> chain.last().to != chain[0].from
}

proof fn lemma_trail_part(links: Seq<HopValue>, chain: Seq<HopValue>, a: int, b: int)
    requires
        is_trail(links, chain),
        0 <= a < b <= chain.len(),
    ensures
        is_trail(links, chain.subrange(a, b)),
{
    let part = chain.subrange(a, b);
    assert forall|i: int| 0 <= i < part.len() implies #[trigger] links.contains(part[i]) by {
        assert(links.contains(chain[a + i]));
    }
    assert forall|i: int| 1 <= i < part.len() implies (#[trigger] part[i]).from == part[i
        - 1].to by {
        assert(chain[a + i].from == chain[a + i - 1].to);
    }
}

proof fn lemma_trails_joined(links: Seq<HopValue>, a: Seq<HopValue>, b: Seq<HopValue>)
    requires
        is_trail(links, a),
        is_trail(links, b),
        a.last().to == b[0].from,
    ensures
        is_trail(links, a + b),
{
    let c = a + b;
    assert forall|i: int| 0 <= i < c.len() implies #[trigger] links.contains(c[i]) by {
        if i < a.len() {
            assert(links.contains(a[i]));
        } else {
            assert(links.contains(b[i - a.len()]));
        }
    }
    assert forall|i: int| 1 <= i < c.len() implies (#[trigger] c[i]).from == c[i - 1].to by {
        if i < a.len() {
            assert(a[i].from == a[i - 1].to);
        } else if i > a.len() {
            assert(b[i - a.len()].from == b[i - a.len() - 1].to);
        }
    }
}

proof fn lemma_no_longer_than_links(links: Seq<HopValue>, chain: Seq<HopValue>)
    requires
        forall|i: int| 0 <= i < chain.len() ==> #[trigger] links.contains(chain[i]),
        chain.no_duplicates(),
    ensures
        chain.len() <= links.len(),
{
    broadcast use vstd::seq_lib::seq_to_set_is_finite;

    chain.unique_seq_to_set();
    links.lemma_cardinality_of_set();
    assert forall|h: HopValue| chain.to_set().contains(h) implies links.to_set().contains(h) by {
        let i = choose|i: int| 0 <= i < chain.len() && chain[i] == h;
        assert(links.contains(chain[i]));
    }
    vstd::set_lib::lemma_len_subset(chain.to_set(), links.to_set());
}

/// A trail between two frames, cut short wherever it comes to a frame again, is a walk.
proof fn lemma_trail_holds_walk(
    links: Seq<HopValue>,
    chain: Seq<HopValue>,
    from: Seq<char>,
    to: Seq<char>,
)
    requires
        is_trail(links, chain),
        chain[0].from == from,
        chain.last().to == to,
        from != to,
    ensures
        exists|w: Seq<HopValue>| #[trigger] is_walk(links, w, from, to, links.len() as int + 1),
    decreases chain.len(),
{
    let n = chain.len() as int;
    if exists|i: int| 0 <= i < n && (#[trigger] chain[i]).to == from {
        let i = choose|i: int| 0 <= i < n && (#[trigger] chain[i]).to == from;
        assert(i < n - 1);
        lemma_trail_part(links, chain, i + 1, n);
        let rest = chain.subrange(i + 1, n);
        assert(rest[0] == chain[i + 1]);
        assert(rest.last() == chain.last());
        lemma_trail_holds_walk(links, rest, from, to);
    } else if exists|i: int| 0 <= i < n - 1 && (#[trigger] chain[i]).to == to {
        let i = choose|i: int| 0 <= i < n - 1 && (#[trigger] chain[i]).to == to;
        lemma_trail_part(links, chain, 0, i + 1);
        let start = chain.subrange(0, i + 1);
        assert(start.last() == chain[i]);
        assert(start[0] == chain[0]);
        lemma_trail_holds_walk(links, start, from, to);
    } else if exists|i: int, j: int| 0 <= i < j < n && (#[trigger] chain[i]).to == (
    #[trigger] chain[j]).to {
        let (i, j) = choose|i: int, j: int|
            0 <= i < j < n && (#[trigger] chain[i]).to == (#[trigger] chain[j]).to;
        assert(j < n - 1);
        lemma_trail_part(links, chain, 0, i + 1);
        lemma_trail_part(links, chain, j + 1, n);
        let a = chain.subrange(0, i + 1);
        let b = chain.subrange(j + 1, n);
        assert(a.last() == chain[i]);
        assert(b[0] == chain[j + 1]);
        lemma_trails_joined(links, a, b);
        assert((a + b)[0] == chain[0]);
        assert((a + b).last() == chain.last());
        lemma_trail_holds_walk(links, a + b, from, to);
    } else {
        assert forall|i: int, j: int| 0 <= i < n && 0 <= j < n && i != j implies chain[i]
            != chain[j] by {
            if i < j {
                assert(chain[i].to != chain[j].to);
            } else {
                assert(chain[j].to != chain[i].to);
            }
        }
        lemma_no_longer_than_links(links, chain);
        assert forall|i: int| 1 <= i < n implies extends(#[trigger] chain.take(i), chain[i]) by {
            let start = chain.take(i);
            assert(start.last() == chain[i - 1]);
            assert(chain[i].from == chain[i - 1].to);
            assert(start[0] == chain[0]);
            assert(chain[i].to != from);
            assert forall|k: int| 0 <= k < start.len() implies (#[trigger] start[k]).to
                != chain[i].to && start[k].from != chain[i].to by {
                assert(start[k] == chain[k]);
                if k > 0 {
                    assert(chain[k].from == chain[k - 1].to);
                }
            }
        }
        assert(is_walk(links, chain, from, to, links.len() as int + 1));
    }
}

/// A trail along links and one more of them, up to where that one is first taken,
/// follows the links alone.
proof fn lemma_first_use(links: Seq<HopValue>, link: HopValue, chain: Seq<HopValue>, k: int)
    requires
        is_trail(links.push(link), chain),
        0 <= k <= chain.len(),
        k > 0,
        forall|i: int| 0 <= i < k ==> #[trigger] chain[i] != link,
    ensures
        is_trail(links, chain.take(k)),
{
    let start = chain.take(k);
    assert forall|i: int| 0 <= i < start.len() implies #[trigger] links.contains(start[i]) by {
        assert(links.push(link).contains(chain[i]));
        let m = choose|m: int| 0 <= m < links.push(link).len() && links.push(link)[m] == chain[i];
        assert(links[m] == chain[i]);
    }
    assert forall|i: int| 1 <= i < start.len() implies (#[trigger] start[i]).from == start[i
        - 1].to by {
        assert(chain[i].from == chain[i - 1].to);
    }
}

/// Links that lead no frame back to itself stay so when one is added that closes no loop.
pub proof fn law_link_that_closes_no_loop_keeps_links_loop_free(
    links: Seq<HopValue>,
    link: HopValue,
)
    requires
        loop_free(links),
        !closes_loop(links, link.from, link.to),
    ensures
        loop_free(links.push(link)),
{
    let more = links.push(link);
    assert forall|chain: Seq<HopValue>| #[trigger] is_trail(more, chain) implies chain.last().to
        != chain[0].from by {
        if chain.last().to == chain[0].from {
            let n = chain.len() as int;
            let uses = |i: int| chain[i] == link;
            rows::lemma_first_where(n, uses);
            match rows::first_where(n, uses) {
                None => {
                    assert forall|i: int| 0 <= i < n implies #[trigger] chain[i] != link by {
                        assert(!uses(i));
                    }
                    lemma_first_use(links, link, chain, n);
                    assert(chain.take(n) =~= chain);
                },
                Some(k) => {
                    assert(uses(k));
                    let back = if k + 1 < n {
                        chain.subrange(k + 1, n) + chain.subrange(0, k + 1)
                    } else {
                        chain
                    };
                    if k + 1 < n {
                        lemma_trail_part(more, chain, k + 1, n);
                        lemma_trail_part(more, chain, 0, k + 1);
                        let a = chain.subrange(k + 1, n);
                        let b = chain.subrange(0, k + 1);
                        assert(a.last() == chain.last());
                        assert(b[0] == chain[0]);
                        lemma_trails_joined(more, a, b);
                        assert(a[0] == chain[k + 1]);
                        assert(chain[k + 1].from == chain[k].to);
                        assert(back.last() == b.last());
                        assert(b.last() == chain[k]);
                    }
                    let m = back.len() as int;
                    assert(is_trail(more, back));
                    assert(back[0].from == link.to);
                    assert(back[m - 1] == link);
                    let again = |i: int| back[i] == link;
                    rows::lemma_first_where(m, again);
                    assert(again(m - 1));
                    let f = rows::first_where(m, again)->0;
                    assert(again(f));
                    assert(link.from != link.to);
                    assert(f > 0);
                    assert forall|i: int| 0 <= i < f implies #[trigger] back[i] != link by {
                        assert(!again(i));
                    }
                    lemma_first_use(links, link, back, f);
                    let w = back.take(f);
                    assert(w[0] == back[0]);
                    assert(w.last() == back[f - 1]);
                    assert(back[f].from == back[f - 1].to);
                    lemma_trail_holds_walk(links, w, link.to, link.from);
                },
            }
        }
    }
}

// ---- walks, ranks and loops, in plain terms -------------------------------------------------------

/// The walks between two frames are the chains of links, each going on where the one before
/// ended, that start at the one frame, end at the other and not before, and enter no frame
/// that they have touched; none of these is left out that is not too long.
pub proof fn law_walks_are_the_chains_without_return(
    links: Seq<HopValue>,
    from: Seq<char>,
    to: Seq<char>,
    limit: int,
    w: Seq<HopValue>,
)
    requires
        limit >= 1,
    ensures
        all_walks(links, from, to, limit).contains(w) <==> {
            &&& 0 < w.len() <= limit
            &&& w[0].from == from
            &&& w[w.len() - 1].to == to
            &&& forall|i: int| 0 <= i < w.len() ==> #[trigger] links.contains(w[i])
            &&& forall|i: int| 1 <= i < w.len() ==> (#[trigger] w[i]).from == w[i - 1].to
            &&& forall|i: int, j: int| #![trigger w[i], w[j]]
                0 <= i < j < w.len() ==> w[i].from != w[j].to && w[i].to != w[j].to
            &&& forall|i: int| 0 <= i < w.len() - 1 ==> (#[trigger] w[i]).to != to
        },
{
    law_all_walks_are_enumerated(links, from, to, limit, w);
    if is_walk(links, w, from, to, limit) {
        assert forall|i: int| 1 <= i < w.len() implies (#[trigger] w[i]).from == w[i - 1].to by {
            assert(extends(w.take(i), w[i]));
            assert(w.take(i).last() == w[i - 1]);
        }
        assert forall|i: int, j: int| #![trigger w[i], w[j]]
            0 <= i < j < w.len() implies w[i].from != w[j].to && w[i].to != w[j].to by {
            assert(extends(w.take(j), w[j]));
            assert(w.take(j)[i] == w[i]);
        }
    }
    if 0 < w.len() <= limit && (forall|i: int|
        1 <= i < w.len() ==> (#[trigger] w[i]).from == w[i - 1].to) && (forall|i: int, j: int|
     #![trigger w[i], w[j]]
        0 <= i < j < w.len() ==> w[i].from != w[j].to && w[i].to != w[j].to) {
        assert forall|i: int| 1 <= i < w.len() implies extends(#[trigger] w.take(i), w[i]) by {
            assert(w.take(i).last() == w[i - 1]);
            assert(w[i].from == w[i - 1].to);
            if visits(w.take(i), w[i].to) {
                let k = choose|k: int|
                    0 <= k < w.take(i).len() && ((#[trigger] w.take(i)[k]).from == w[i].to
                        || w.take(i)[k].to == w[i].to);
                assert(w.take(i)[k] == w[k]);
            }
        }
    }
}

/// A walk at a time goes along edges that hold then, by eight hops at most, and there is none
/// from a frame to itself.
pub proof fn law_walks_at_a_time(
    g: FrameGraph,
    from: Seq<char>,
    to: Seq<char>,
    t: int,
    w: Seq<HopValue>,
    i: int,
)
    requires
        g.walks_between(from, to, t).contains(w),
    ensures
        from != to,
        0 < w.len() <= 8,
        w[0].from == from,
        w[w.len() - 1].to == to,
        0 <= i < w.len() ==> exists|k: int|
            0 <= k < g.edges@.len() && (#[trigger] g.edges@[k]).valid_from <= t
                <= g.edges@[k].valid_to && g.edges@[k].id == w[i].edge_id && (if w[i].reversed {
                w[i].from == g.edges@[k].parent@ && w[i].to == g.edges@[k].child@
            } else {
                w[i].from == g.edges@[k].child@ && w[i].to == g.edges@[k].parent@
            }),
{
    let links = links_at_time(g.edges@, t);
    law_walks_are_the_chains_without_return(links, from, to, MAX_HOPS as int, w);
    if 0 <= i < w.len() {
        assert(links.contains(w[i]));
        law_links_are_those_of_edges_that_hold(g.edges@, t, w[i]);
    }
}

/// The links at a time go along each edge that holds then, its bounds among its window, and
/// against it too where it joins two frames; there are no others.
pub proof fn law_links_are_those_of_edges_that_hold(edges: Seq<GraphEdge>, t: int, h: HopValue)
    ensures
        links_at_time(edges, t).contains(h) <==> exists|k: int|
            0 <= k < edges.len() && (#[trigger] edges[k]).valid_from <= t <= edges[k].valid_to
                && h.edge_id == edges[k].id && h.version == edges[k].version && h.precision
                == edges[k].precision && (if h.reversed {
                edges[k].parent@ != edges[k].child@ && h.from == edges[k].parent@ && h.to
                    == edges[k].child@
            } else {
                h.from == edges[k].child@ && h.to == edges[k].parent@
            }),
{
    let l = links_of(edges, t, edges.len() as int);
    lemma_links_of(edges, t, edges.len() as int, h);
    let keys = l.map_values(|h: HopValue| link_key(h));
    let o = order::order_of(keys);
    order::law_order_is_unique(keys, o);
    let s = links_at_time(edges, t);
    if s.contains(h) {
        let i = choose|i: int| 0 <= i < s.len() && s[i] == h;
        assert(l[o[i]] == h);
    }
    if l.contains(h) {
        let j = choose|j: int| 0 <= j < l.len() && l[j] == h;
        assert(o.contains(j));
        let i = choose|i: int| 0 <= i < o.len() && o[i] == j;
        assert(s[i] == h);
    }
}

proof fn lemma_links_of(edges: Seq<GraphEdge>, t: int, n: int, h: HopValue)
    requires
        0 <= n <= edges.len(),
    ensures
        links_of(edges, t, n).contains(h) <==> exists|k: int|
            0 <= k < n && (#[trigger] edges[k]).valid_from <= t <= edges[k].valid_to && h.edge_id
                == edges[k].id && h.version == edges[k].version && h.precision
                == edges[k].precision && (if h.reversed {
                edges[k].parent@ != edges[k].child@ && h.from == edges[k].parent@ && h.to
                    == edges[k].child@
            } else {
                h.from == edges[k].child@ && h.to == edges[k].parent@
            }),
    decreases n,
{
    if n > 0 {
        lemma_links_of(edges, t, n - 1, h);
        let e = edges[n - 1];
        let before = links_of(edges, t, n - 1);
        let now = links_of(edges, t, n);
        let m = before.len() as int;
        if before.contains(h) {
            let i = choose|i: int| 0 <= i < before.len() && before[i] == h;
            assert(now[i] == h);
        }
        if now.contains(h) {
            let i = choose|i: int| 0 <= i < now.len() && now[i] == h;
            if i < m {
                assert(before[i] == h);
            } else {
                assert(h == e.along() || h == e.against());
                assert(edges[n - 1].valid_from <= t);
            }
        }
        if e.active_at(t) {
            assert(now[m] == e.along());
            if e.parent@ != e.child@ {
                assert(now[m + 1] == e.against());
            }
        }
    }
}

/// The sums of a path grow with its hops: two chains, one after the other, have the sums of
/// both.
pub proof fn law_sums_add_up(a: Seq<HopValue>, b: Seq<HopValue>, h: HopValue)
    ensures
        version_total(a + b) == version_total(a) + version_total(b),
        edge_id_total(a + b) == edge_id_total(a) + edge_id_total(b),
        version_total(seq![h]) == h.version,
        edge_id_total(seq![h]) == h.edge_id,
    decreases b.len(),
{
    reveal_with_fuel(version_total, 2);
    reveal_with_fuel(edge_id_total, 2);
    assert(seq![h].drop_last() =~= Seq::<HopValue>::empty());
    if b.len() > 0 {
        law_sums_add_up(a, b.drop_last(), h);
        assert((a + b).drop_last() =~= a + b.drop_last());
        assert((a + b).last() == b.last());
    } else {
        assert(a + b =~= a);
    }
}

/// The frames of a path are the one that it starts from and those that its hops lead to.
pub proof fn law_frames_of_a_path(h: Seq<HopValue>, i: int)
    requires
        0 <= i < h.len(),
    ensures
        frames_of(h).len() == h.len() + 1,
        frames_of(h)[0] == h[0].from,
        frames_of(h)[i + 1] == h[i].to,
        loop_frames(h, h[0].from).len() == h.len() + 2,
        loop_frames(h, h[0].from)[0] == loop_frames(h, h[0].from)[h.len() as int + 1],
        round_trip(h, h[h.len() - 1].to)[0] == h[h.len() - 1].to,
        round_trip(h, h[h.len() - 1].to)[h.len() as int + 1] == h[h.len() - 1].to,
        round_trip(h, h[h.len() - 1].to)[i + 2] == h[i].to,
{
}

/// Whether the first of two paths has the smaller sum of precisions, or as small a one and
/// the larger sum of versions, or as large a one and names that do not come later.
pub open spec fn is_no_later(a: PathValue, b: PathValue) -> bool {
    ||| a.precision_sum.key() < b.precision_sum.key()
    ||| {
        &&& a.precision_sum.key() == b.precision_sum.key()
        &&& a.version_sum > b.version_sum || (a.version_sum == b.version_sum && !names_before(
            frames_of(b.hops),
            frames_of(a.hops),
        ))
    }
}

proof fn lemma_pairs_stay_in_order(p: Seq<PathValue>, i: int, j: int)
    requires
        forall|x: int, y: int| #![trigger p[x], p[y]]
            0 <= x < y < p.len() ==> is_no_later(p[x], p[y]),
        0 <= i < j < drop_repeats(p).len(),
    ensures
        is_no_later(drop_repeats(p)[i], drop_repeats(p)[j]),
    decreases p.len(),
{
    let d = p.drop_last();
    let before = drop_repeats(d);
    let now = drop_repeats(p);
    assert forall|x: int, y: int| #![trigger d[x], d[y]]
        0 <= x < y < d.len() implies is_no_later(d[x], d[y]) by {
        assert(is_no_later(p[x], p[y]));
    }
    if j < before.len() {
        lemma_pairs_stay_in_order(d, i, j);
        assert(now[i] == before[i] && now[j] == before[j]);
    } else {
        lemma_drop_repeats(d);
        assert(now[i] == before[i]);
        assert(d.contains(before[i]));
        let x = choose|x: int| 0 <= x < d.len() && d[x] == before[i];
        assert(p[x] == now[i]);
        assert(now[j] == p[p.len() - 1]);
        assert(is_no_later(p[x], p[p.len() - 1]));
    }
}

/// Ranked paths come by their sum of precisions, the smaller first, then by their sum of
/// versions, the larger first, then by their names.
pub proof fn law_ranked_paths_are_in_order(p: Seq<PathValue>, i: int, j: int)
    requires
        0 <= i < j < ranked(p).len(),
    ensures
        is_no_later(ranked(p)[i], ranked(p)[j]),
{
    let keys = rank_keys(p);
    let o = order::order_of(keys);
    order::law_order_is_unique(keys, o);
    let s = by_rank(p);
    assert forall|x: int, y: int| #![trigger s[x], s[y]]
        0 <= x < y < s.len() implies is_no_later(s[x], s[y]) by {
        assert(order::precedes(keys, o[x], o[y]));
        if !is_no_later(s[x], s[y]) {
            assert(!no_worse(s[x], s[y]));
            lemma_worse_comes_later(s[x], s[y]);
            order::law_key_order_is_strict_and_total(
                rank_key(s[x]),
                rank_key(s[y]),
                rank_key(s[x]),
            );
            assert(keys[o[x]] == rank_key(s[x]) && keys[o[y]] == rank_key(s[y]));
        }
    }
    lemma_pairs_stay_in_order(s, i, j);
}

/// No two ranked paths that stand next to each other go along the same edges.
pub proof fn law_ranked_paths_do_not_repeat(p: Seq<PathValue>, i: int)
    requires
        0 <= i < ranked(p).len() - 1,
    ensures
        !(ranked(p)[i].hops.len() == ranked(p)[i + 1].hops.len() && forall|k: int|
            0 <= k < ranked(p)[i].hops.len() ==> (#[trigger] ranked(p)[i].hops[k]).edge_id
                == ranked(p)[i + 1].hops[k].edge_id),
{
    lemma_neighbours_differ(by_rank(p), i);
    let a = ranked(p)[i].hops;
    let b = ranked(p)[i + 1].hops;
    if a.len() == b.len() && (forall|k: int|
        0 <= k < a.len() ==> (#[trigger] a[k]).edge_id == b[k].edge_id) {
        assert(ids_of(a) =~= ids_of(b));
    }
}

proof fn lemma_neighbours_differ(p: Seq<PathValue>, i: int)
    requires
        0 <= i < drop_repeats(p).len() - 1,
    ensures
        ids_of(drop_repeats(p)[i].hops) != ids_of(drop_repeats(p)[i + 1].hops),
    decreases p.len(),
{
    let before = drop_repeats(p.drop_last());
    if i + 1 < before.len() {
        lemma_neighbours_differ(p.drop_last(), i);
    }
}

/// An edge is a rival of a new one where it joins the same two frames, either way round,
/// and the two windows have a time in common, their bounds among them.
pub proof fn law_rivals_join_the_same_frames(
    edges: Seq<GraphEdge>,
    e: GraphEdge,
    n: int,
    i: int,
)
    requires
        0 <= n <= edges.len(),
    ensures
        rivals_among(edges, e, n).contains(i) <==> {
            &&& 0 <= i < n
            &&& (edges[i].parent@ == e.parent@ && edges[i].child@ == e.child@) || (
            edges[i].parent@ == e.child@ && edges[i].child@ == e.parent@)
            &&& e.valid_from <= edges[i].valid_to
            &&& edges[i].valid_from <= e.valid_to
        },
    decreases n,
{
    if n > 0 {
        law_rivals_join_the_same_frames(edges, e, n - 1, i);
        let before = rivals_among(edges, e, n - 1);
        let now = rivals_among(edges, e, n);
        let o = edges[n - 1];
        text::law_before_is_a_strict_total_order(e.parent@, e.child@, e.parent@);
        text::law_before_is_a_strict_total_order(o.parent@, o.child@, o.parent@);
        if now.contains(i) {
            let k = choose|k: int| 0 <= k < now.len() && now[k] == i;
            if k < before.len() {
                assert(before[k] == i);
                assert(before.contains(i));
            }
        }
        if before.contains(i) {
            let k = choose|k: int| 0 <= k < before.len() && before[k] == i;
            assert(now[k] == i);
        }
        if rivals(e, o) {
            assert(now[before.len() as int] == n - 1);
        }
    }
}

/// A loop is within tolerance where its residuals are numbers that come to five hundredths
/// of a metre and a hundredth of a radian at most.
pub proof fn law_tolerances_of_a_loop(res: Residual)
    ensures
        res.within() <==> {
            &&& res.trans.is_number()
            &&& res.trans.key() <= 0x3fa9_9999_9999_999a
            &&& res.rot.is_number()
            &&& res.rot.key() <= 0x3f84_7ae1_47ae_147b
        },
{
}

/// A new edge is let in where every loop with an edge between its two frames is within
/// tolerance and it closes no loop over other frames; else it is kept out.
pub proof fn law_edge_is_let_in_where_its_loops_close(
    edges: Seq<GraphEdge>,
    e: GraphEdge,
    res: Seq<Residual>,
    m: LoopMeasure,
)
    requires
        res.len() == rivals_among(edges, e, edges.len() as int).len(),
    ensures
        refusal_of(edges, e, res, m) is None <==> {
            &&& forall|i: int| 0 <= i < res.len() ==> (#[trigger] res[i]).within()
            &&& !closes_over_frames(edges, e)
        },
{
    let at = rivals_among(edges, e, edges.len() as int);
    lemma_reason_where_out_of_tolerance(edges, at, res, at.len() as int);
    law_loop_is_found_where_there_is_one(
        meeting_links(edges, e, edges.len() as int),
        e.child@,
        e.parent@,
    );
}

proof fn lemma_reason_where_out_of_tolerance(
    edges: Seq<GraphEdge>,
    at: Seq<int>,
    res: Seq<Residual>,
    n: int,
)
    requires
        0 <= n <= res.len(),
    ensures
        reason_of(edges, at, res, n) is None <==> forall|i: int|
            0 <= i < n ==> (#[trigger] res[i]).within(),
    decreases n,
{
    if n > 0 {
        lemma_reason_where_out_of_tolerance(edges, at, res, n - 1);
    }
}

/// The links that a new edge could close a loop with go along the edges between other
/// frames than its own whose windows meet its window.
pub proof fn law_meeting_links(edges: Seq<GraphEdge>, e: GraphEdge, n: int, h: HopValue)
    requires
        0 <= n <= edges.len(),
    ensures
        meeting_links(edges, e, n).contains(h) <==> exists|k: int|
            0 <= k < n && e.valid_from <= (#[trigger] edges[k]).valid_to && edges[k].valid_from
                <= e.valid_to && !(edges[k].parent@ == e.parent@ && edges[k].child@ == e.child@)
                && !(edges[k].parent@ == e.child@ && edges[k].child@ == e.parent@) && h
                == edges[k].along(),
    decreases n,
{
    if n > 0 {
        law_meeting_links(edges, e, n - 1, h);
        let o = edges[n - 1];
        let before = meeting_links(edges, e, n - 1);
        let now = meeting_links(edges, e, n);
        text::law_before_is_a_strict_total_order(e.parent@, e.child@, e.parent@);
        text::law_before_is_a_strict_total_order(o.parent@, o.child@, o.parent@);
        if before.contains(h) {
            let i = choose|i: int| 0 <= i < before.len() && before[i] == h;
            assert(now[i] == h);
        }
        if now.contains(h) {
            let i = choose|i: int| 0 <= i < now.len() && now[i] == h;
            if i < before.len() {
                assert(before[i] == h);
                assert(before.contains(h));
            } else {
                assert(h == edges[n - 1].along());
            }
        }
        if now.len() > before.len() {
            assert(now[before.len() as int] == o.along());
        }
    }
}

/// A step along an edge goes from its child to its parent, a step against it the other way.
pub proof fn law_steps_along_an_edge(e: GraphEdge)
    ensures
        e.along().from == e.child@ && e.along().to == e.parent@ && !e.along().reversed,
        e.against().from == e.parent@ && e.against().to == e.child@ && e.against().reversed,
        e.along().edge_id == e.id && e.against().edge_id == e.id,
        e.along().version == e.version && e.against().version == e.version,
        e.along().precision == e.precision && e.against().precision == e.precision,
{
}

/// An edge's precision is the one given; else it is the root of its trace where that is
/// above zero, and one where it is not.
pub proof fn law_precision_of_an_edge(given: Option<Scalar>, trace: Scalar, root: Scalar)
    ensures
        given is Some ==> precision_of(given, trace, root) == given->0,
        given is None && 0 < trace.bits <= 0x7ff0_0000_0000_0000 ==> precision_of(
            given,
            trace,
            root,
        ) == root,
        given is None && !(0 < trace.bits <= 0x7ff0_0000_0000_0000) ==> precision_of(
            given,
            trace,
            root,
        ).bits == 0x3ff0_0000_0000_0000,
{
}

/// Links at a time come by the id of their edge, then by the frame that they lead to.
pub proof fn law_links_are_in_order(edges: Seq<GraphEdge>, t: int, i: int, j: int)
    requires
        0 <= i < j < links_at_time(edges, t).len(),
    ensures
        ({
            let a = links_at_time(edges, t)[i];
            let b = links_at_time(edges, t)[j];
            a.edge_id < b.edge_id || (a.edge_id == b.edge_id && !text::before(b.to, a.to))
        }),
{
    let l = links_of(edges, t, edges.len() as int);
    let keys = l.map_values(|h: HopValue| link_key(h));
    let o = order::order_of(keys);
    order::law_order_is_unique(keys, o);
    let a = l[o[i]];
    let b = l[o[j]];
    let u = link_key(a);
    let v = link_key(b);
    assert(order::precedes(keys, o[i], o[j]));
    assert(keys[o[i]] == u && keys[o[j]] == v);
    order::law_key_order_is_strict_and_total(u, v, u);
    text::law_before_is_a_strict_total_order(a.to, b.to, a.to);
    assert(u[0] == order::PartValue::Number(a.edge_id));
    assert(v[0] == order::PartValue::Number(b.edge_id));
    assert(u[1] == order::PartValue::Text(a.to) && v[1] == order::PartValue::Text(b.to));
    if a.edge_id != b.edge_id {
        order::law_first_difference_decides(u, v, 0);
    } else if a.to != b.to {
        order::law_first_difference_decides(u, v, 1);
    }
}

/// The report of a loop between two frames tells the frames, the residuals with their
/// tolerances, the edge compared with, and whether both residuals are within them.
pub proof fn law_report_of_a_loop(r: LoopReport, new: GraphEdge, old_edge: GraphEdge, res: Residual)
    requires
        r.tells(new, old_edge, res),
    ensures
        r.frames@.len() == 2,
        r.frames@[0]@ == new.child@,
        r.frames@[1]@ == new.parent@,
        r.residual_trans == res.trans,
        r.residual_rot == res.rot,
        r.tolerance_trans.bits == 0x3fa9_9999_9999_999a,
        r.tolerance_rot.bits == 0x3f84_7ae1_47ae_147b,
        r.compared_edge == old_edge.id,
        r.accepted <==> r.residual_trans.at_most(r.tolerance_trans) && r.residual_rot.at_most(
            r.tolerance_rot,
        ),
{
}

/// The report of a loop over other frames is one of refusal; it tells the frames from the
/// new edge's start round to it again.
pub proof fn law_report_of_a_longer_loop(
    r: LoopReport,
    new: GraphEdge,
    walk: Seq<HopValue>,
    m: LoopMeasure,
    i: int,
)
    requires
        r.tells_walk(new, walk, m),
        0 <= i < walk.len(),
    ensures
        !r.accepted,
        r.frames@.len() == walk.len() + 2,
        r.frames@[0]@ == new.child@,
        r.frames@[1]@ == walk[0].from,
        r.frames@[i + 2]@ == walk[i].to,
        r.compared_edge == walk[0].edge_id,
        r.residual_trans == m.residual.trans,
        r.residual_rot == m.residual.rot,
        r.covariance_trace == Some(m.trace),
{
    let f = names(r.frames@);
    assert(f == round_trip(walk, new.child@));
    assert(f.len() == r.frames@.len());
    assert(round_trip(walk, new.child@).len() == walk.len() + 2);
    assert(f[0] == r.frames@[0]@);
    assert(f[1] == r.frames@[1]@);
    assert(f[i + 2] == r.frames@[i + 2]@);
}

/// The message about a loop out of tolerance tells the edge that it was compared with and
/// both residuals.
pub proof fn law_message_of_a_loop(old_id: int, res: Residual)
    ensures
        exists|x: Seq<char>|
            text::reads_as(x, old_id) && loop_message(old_id, res) == #[trigger] ("与边#"@ + x
                + " 闭环残差超限(平移 "@ + res.trans_text@ + "m>0.050, 旋转 "@ + res.rot_text@
                + "rad>0.0100)"@),
{
    let x = text::decimal(old_id);
    text::law_decimal_reads_as_its_integer(old_id, 0);
    assert(loop_message(old_id, res) == "与边#"@ + x + " 闭环残差超限(平移 "@ + res.trans_text@
        + "m>0.050, 旋转 "@ + res.rot_text@ + "rad>0.0100)"@);
}

/// Where a sum of precisions is no number, it decides nothing: of two such paths the one
/// with the larger sum of versions outranks the other. Where both are numbers, the smaller
/// sum does.
pub proof fn law_sum_that_is_no_number_decides_nothing(a: PathValue, b: PathValue)
    ensures
        (!a.precision_sum.is_number() || !b.precision_sum.is_number()) && a.version_sum
            > b.version_sum ==> outranks(a, b) && !outranks(b, a),
        a.precision_sum.is_number() && b.precision_sum.is_number() && a.precision_sum.key()
            < b.precision_sum.key() ==> outranks(a, b) && !outranks(b, a),
{
    let u = rank_key(leveled(a));
    let v = rank_key(leveled(b));
    lemma_outranks_one_way(a, b);
    assert(u[0] == order::PartValue::Number((Scalar { bits: 0 }).key()));
    assert(v[0] == order::PartValue::Number((Scalar { bits: 0 }).key()));
    assert(u[1] == order::PartValue::Number(-a.version_sum - 1));
    assert(v[1] == order::PartValue::Number(-b.version_sum - 1));
    if a.version_sum != b.version_sum {
        order::law_first_difference_decides(u, v, 1);
    }
}

/// Frames are named in turn, with an arrow between any two that follow each other.
pub proof fn law_frames_are_joined_by_arrows(a: Seq<Seq<char>>, b: Seq<Seq<char>>)
    requires
        a.len() > 0,
        b.len() > 0,
    ensures
        arrows(a + b) == arrows(a) + " -> "@ + arrows(b),
        a.len() == 1 ==> arrows(a) == a[0],
    decreases b.len(),
{
    let c = a + b;
    assert(c.last() == b.last());
    if b.len() == 1 {
        assert(c.drop_last() =~= a);
    } else {
        law_frames_are_joined_by_arrows(a, b.drop_last());
        assert(c.drop_last() =~= a + b.drop_last());
        assert(arrows(c) =~= arrows(a) + " -> "@ + arrows(b));
    }
}

/// The words about a loop go through its frames and end with both residuals and the trace.
pub proof fn law_words_of_a_loop(f: Seq<char>, rest: Seq<Seq<char>>, m: LoopMeasure)
    ensures
        rest.len() > 0 ==> loop_words(seq![f] + rest, m) == f + " -> "@ + loop_words(rest, m),
        loop_words(seq![f], m) == f + "; residual "@ + m.residual.trans_text@ + " m, "@
            + m.residual.rot_text@ + " rad; covariance trace "@ + m.trace_text@,
{
    if rest.len() > 0 {
        law_frames_are_joined_by_arrows(seq![f], rest);
        assert(loop_words(seq![f] + rest, m) =~= f + " -> "@ + loop_words(rest, m));
    }
}

/// A list of hops stands for their frames, edges and versions in turn, and a path for its
/// hops and its sums.
pub proof fn law_hops_and_paths_stand_for_their_fields(h: Seq<Hop>, i: int, p: Seq<Path>, j: int)
    requires
        0 <= i < h.len(),
        0 <= j < p.len(),
    ensures
        hop_values(h).len() == h.len(),
        hop_values(h)[i].edge_id == h[i].edge_id,
        hop_values(h)[i].version == h[i].version,
        hop_values(h)[i].from == h[i].from@,
        hop_values(h)[i].to == h[i].to@,
        hop_values(h)[i].reversed == h[i].reversed,
        hop_values(h)[i].precision == h[i].precision,
        path_values(p).len() == p.len(),
        path_values(p)[j].hops == hop_values(p[j].hops@),
        path_values(p)[j].precision_sum == p[j].precision_sum,
        path_values(p)[j].version_sum == p[j].version_sum,
        path_values(p)[j].edge_id_sum == p[j].edge_id_sum,
{
}

/// The message about a loop over other frames goes from the new edge's start along the walk
/// that closes the loop.
pub proof fn law_message_of_a_longer_loop(e: GraphEdge, walk: Seq<HopValue>, m: LoopMeasure)
    requires
        walk.len() > 0,
    ensures
        walk_message(e, walk, m) == "edge closes a frame loop: "@ + (e.child@ + " -> "@
            + loop_words(frames_of(walk), m)),
{
    law_words_of_a_loop(e.child@, frames_of(walk), m);
}

} // verus!
