//! Routes from a sensor to the map: the transforms that hold at a time, the routes
//! along them, and the account of the route that a point takes.

use crate::blocks;
use crate::db::{EdgeRow, Ledger};
use crate::graph;
use crate::graph::{Hop, HopValue, Path, PathValue};
use crate::model::PacketRecord;
use crate::order;
use crate::order::Part;
use crate::provenance::{CandidateRoute, ChainHop, PointOrigin, Provenance};
use crate::rows;
use crate::scalar;
use crate::scalar::Scalar;
use crate::service;
use crate::text;
use crate::time;
use crate::time::Nanos;
use vstd::prelude::*;
use vstd::string::*;

verus! {

// ---- arcs ---------------------------------------------------------------------------

/// A transform that a route can take.
#[derive(Clone, Debug)]
pub struct RouteArc {
    pub source: String,
    pub target: String,
    pub arc_id: String,
    pub version_rank: i64,
    /// The edge it stands for, by position; an interpolated pose has none.
    pub edge: Option<usize>,
}

/// What an arc stands for.
pub struct ArcValue {
    pub source: Seq<char>,
    pub target: Seq<char>,
    pub arc_id: Seq<char>,
    pub version_rank: int,
    pub edge: Option<int>,
}

impl View for RouteArc {
    type V = ArcValue;

    open spec fn view(&self) -> ArcValue {
        ArcValue {
            source: self.source@,
            target: self.target@,
            arc_id: self.arc_id@,
            version_rank: self.version_rank as int,
            edge: match self.edge {
                Some(i) => Some(i as int),
                None => None,
            },
        }
    }
}

/// What a list of arcs stands for.
pub open spec fn arc_values(a: Seq<RouteArc>) -> Seq<ArcValue> {
    a.map_values(|x: RouteArc| x@)
}

/// Whether an edge holds at a time.
pub open spec fn holds_at(e: EdgeRow, t: int) -> bool {
    &&& e.valid_from is None || e.valid_from->0 <= t
    &&& e.valid_to is None || t < e.valid_to->0
}

/// Whether an edge holds at a time.
pub fn edge_valid_at(e: &EdgeRow, t: Nanos) -> (r: bool)
    ensures
        r == holds_at(*e, t as int),
{
    let started = match e.valid_from {
        None => true,
        Some(a) => a <= t,
    };
    let lasts = match e.valid_to {
        None => true,
        Some(b) => t < b,
    };
    started && lasts
}

/// Whether two edges join the same frames in the same direction.
pub open spec fn same_pair(a: EdgeRow, b: EdgeRow) -> bool {
    a.source@ == b.source@ && a.target@ == b.target@
}

/// Whether an edge is the one to use between its frames at a time: of those that hold
/// it has the highest version, and of equal ones it is the first.
pub open spec fn is_best(edges: Seq<EdgeRow>, t: int, i: int) -> bool {
    &&& holds_at(edges[i], t)
    &&& forall|j: int|
        0 <= j < edges.len() && holds_at(#[trigger] edges[j], t) && same_pair(edges[i], edges[j])
            ==> edges[j].version < edges[i].version || (edges[j].version == edges[i].version && i
            <= j)
}

/// Whether an edge is the one to use between its frames at a time.
pub open spec fn best_at(edges: Seq<EdgeRow>, t: int) -> spec_fn(int) -> bool {
    |i: int| is_best(edges, t, i)
}

/// What edges are sorted by: the frame they lead from, then the one they lead to.
pub open spec fn pair_key(edges: Seq<EdgeRow>) -> spec_fn(int) -> Seq<order::PartValue> {
    |i: int|
        seq![order::PartValue::Text(edges[i].source@), order::PartValue::Text(edges[i].target@)]
}

/// The edges to use at a time, by position, in the order of their frames.
pub open spec fn best_edges(edges: Seq<EdgeRow>, t: int) -> Seq<int> {
    order::listed(edges.len() as int, best_at(edges, t), pair_key(edges))
}

/// The arc along an edge.
pub open spec fn edge_arc(edges: Seq<EdgeRow>, i: int) -> ArcValue {
    let e = edges[i];
    ArcValue {
        source: e.source@,
        target: e.target@,
        arc_id: "edge#"@ + text::decimal(e.id as int) + "@v"@ + text::decimal(e.version as int),
        version_rank: e.version as int,
        edge: Some(i),
    }
}

/// The arcs along the edges to use at a time.
pub open spec fn static_arcs(edges: Seq<EdgeRow>, t: int) -> Seq<ArcValue> {
    best_edges(edges, t).map_values(|i: int| edge_arc(edges, i))
}

/// Between two frames and at one time there is one arc at most: two edges that are
/// both the ones to use between the same frames are one.
pub proof fn law_one_version_holds_at_a_time(edges: Seq<EdgeRow>, t: int, i: int, j: int)
    requires
        0 <= i < edges.len(),
        0 <= j < edges.len(),
        is_best(edges, t, i),
        is_best(edges, t, j),
        same_pair(edges[i], edges[j]),
    ensures
        i == j,
{
}

fn beaten(edges: &Vec<EdgeRow>, t: Nanos, i: usize) -> (r: bool)
    requires
        i < edges@.len(),
        holds_at(edges@[i as int], t as int),
    ensures
        r == !is_best(edges@, t as int, i as int),
{
    let mut j: usize = 0;
    while j < edges.len()
        invariant
            j <= edges@.len(),
            i < edges@.len(),
            holds_at(edges@[i as int], t as int),
            forall|k: int|
                0 <= k < j && holds_at(#[trigger] edges@[k], t as int) && same_pair(
                    edges@[i as int],
                    edges@[k],
                ) ==> edges@[k].version < edges@[i as int].version || (edges@[k].version
                    == edges@[i as int].version && i <= k),
        decreases edges.len() - j,
    {
        let a = &edges[i];
        let b = &edges[j];
        if edge_valid_at(b, t) && text::same(a.source.as_str(), b.source.as_str()) && text::same(
            a.target.as_str(),
            b.target.as_str(),
        ) && !(b.version < a.version || (b.version == a.version && i <= j)) {
            return true;
        }
        j += 1;
    }
    false
}

/// The arcs along the edges to use at a time, in the order of their frames.
pub fn static_arcs_at(edges: &Vec<EdgeRow>, t: Nanos) -> (r: Vec<RouteArc>)
    ensures
        arc_values(r@) == static_arcs(edges@, t as int),
        forall|i: int|
            0 <= i < r@.len() ==> (#[trigger] r@[i]).edge is Some && r@[i].edge->0 < edges@.len(),
{
    let ghost shown = best_at(edges@, t as int);
    let ghost key_of = pair_key(edges@);
    let mut at: Vec<usize> = Vec::new();
    let mut keys: Vec<Vec<Part>> = Vec::new();
    let mut i: usize = 0;
    assert(order::positions(at@) =~= rows::all_where(0, shown));
    while i < edges.len()
        invariant
            i <= edges@.len(),
            shown == best_at(edges@, t as int),
            key_of == pair_key(edges@),
            order::positions(at@) == rows::all_where(i as int, shown),
            keys@.len() == at@.len(),
            forall|k: int|
                0 <= k < keys@.len() ==> order::key_value((#[trigger] keys@[k])@) == key_of(
                    at@[k] as int,
                ),
        decreases edges.len() - i,
    {
        let e = &edges[i];
        if edge_valid_at(e, t) && !beaten(edges, t, i) {
            assert(shown(i as int));
            let ghost before = order::positions(at@);
            at.push(i);
            assert(order::positions(at@) =~= before.push(i as int));
            let mut key: Vec<Part> = Vec::new();
            key.push(Part::Text(e.source.clone()));
            key.push(Part::Text(e.target.clone()));
            assert(order::key_value(key@) =~= key_of(i as int));
            keys.push(key);
        } else {
            assert(!shown(i as int));
        }
        i += 1;
    }
    let places = order::arrange(
        &at,
        &keys,
        Ghost(edges@.len() as int),
        Ghost(shown),
        Ghost(key_of),
    );
    let ghost best = best_edges(edges@, t as int);
    let mut out: Vec<RouteArc> = Vec::new();
    let mut j: usize = 0;
    assert(arc_values(out@) =~= best.take(0).map_values(|i: int| edge_arc(edges@, i)));
    while j < places.len()
        invariant
            j <= places@.len(),
            best == order::positions(places@),
            forall|k: int| 0 <= k < places@.len() ==> #[trigger] places@[k] < edges@.len() as int,
            arc_values(out@) == best.take(j as int).map_values(|i: int| edge_arc(edges@, i)),
            forall|i: int|
                0 <= i < out@.len() ==> (#[trigger] out@[i]).edge is Some && out@[i].edge->0
                    < edges@.len(),
        decreases places.len() - j,
    {
        let at_j: usize = places[j];
        assert(places@[j as int] < edges@.len());
        let e = &edges[at_j];
        let mut arc_id = "edge#".to_owned();
        let id = text::decimal_text(e.id as i128);
        arc_id.append(id.as_str());
        arc_id.append("@v");
        let version = text::decimal_text(e.version as i128);
        arc_id.append(version.as_str());
        let ghost before = arc_values(out@);
        out.push(
            RouteArc {
                source: e.source.clone(),
                target: e.target.clone(),
                arc_id,
                version_rank: e.version,
                edge: Some(at_j),
            },
        );
        assert(best[j as int] == at_j);
        assert(arc_values(out@) =~= before.push(edge_arc(edges@, at_j as int)));
        j += 1;
        assert(best.take(j as int).map_values(|i: int| edge_arc(edges@, i)) =~= before.push(
            edge_arc(edges@, at_j as int),
        ));
    }
    assert(best.take(best.len() as int) =~= best);
    out
}

/// The arc of an interpolated pose, from the body to the map.
pub open spec fn pose_arc(l: Ledger, gid: int, device: Seq<char>, t: int, a: int, b: int)
    -> ArcValue {
    ArcValue {
        source: "body/"@ + device,
        target: "map"@,
        arc_id: "gnss#g"@ + text::decimal(gid) + ":"@ + text::decimal(
            l.poses@[a].packet_id as int,
        ) + "->"@ + text::decimal(l.poses@[b].packet_id as int) + "@t"@ + time::shown(
            t,
            100_000,
            4,
        ) + "(gap"@ + time::shown(blocks::gap_of(l.poses@, a, b), 1_000_000, 3)
            + ")"@,
        version_rank: 1,
        edge: None,
    }
}

/// The arcs that a point of a device can take: the edges to use, and the pose of its
/// generation where it can be interpolated.
pub open spec fn arcs_at(l: Ledger, gid: int, device: Seq<char>, t: int) -> Seq<ArcValue> {
    let fixed = static_arcs(l.edges@, t);
    match blocks::bracket(l.poses@, gid, t) {
        Ok((a, b)) => fixed.push(pose_arc(l, gid, device, t, a, b)),
        Err(_) => fixed,
    }
}

/// Why the pose of a generation cannot be interpolated at a time, if it cannot.
pub open spec fn pose_note(l: Ledger, gid: int, t: int) -> Option<Seq<char>> {
    match blocks::bracket(l.poses@, gid, t) {
        Ok(_) => None,
        Err(m) => Some(m),
    }
}

/// The arcs that a point of a device can take, and why there is none from its pose if
/// there is none.
pub fn list_arcs(db: &Ledger, gid: i64, device: &str, t: Nanos) -> (r: (
    Vec<RouteArc>,
    Option<String>,
))
    requires
        db.wf(),
        time::is_span(t as int),
    ensures
        arc_values(r.0@) == arcs_at(*db, gid as int, device@, t as int),
        text::text_of(r.1) == pose_note(*db, gid as int, t as int),
        forall|i: int|
            0 <= i < r.0@.len() && (#[trigger] r.0@[i]).edge is Some ==> r.0@[i].edge->0
                < db.edges@.len(),
{
    let mut arcs = static_arcs_at(&db.edges, t);
    let ghost fixed = arc_values(arcs@);
    match blocks::interpolate_pose(db, gid, t) {
        Ok(p) => {
            let mut arc_id = "gnss#g".to_owned();
            let g = text::decimal_text(gid as i128);
            arc_id.append(g.as_str());
            arc_id.append(":");
            let a = text::decimal_text(p.left_packet_id as i128);
            arc_id.append(a.as_str());
            arc_id.append("->");
            let b = text::decimal_text(p.right_packet_id as i128);
            arc_id.append(b.as_str());
            arc_id.append("@t");
            let at = time::show(t, 100_000, 4);
            arc_id.append(at.as_str());
            arc_id.append("(gap");
            let gap = time::show(p.gap, 1_000_000, 3);
            arc_id.append(gap.as_str());
            arc_id.append(")");
            let ghost arc = pose_arc(
                *db,
                gid as int,
                device@,
                t as int,
                p.left as int,
                p.right as int,
            );
            arcs.push(
                RouteArc {
                    source: service::body_frame_for(device),
                    target: "map".to_owned(),
                    arc_id,
                    version_rank: 1,
                    edge: None,
                },
            );
            assert(arc_values(arcs@) =~= fixed.push(arc));
            (arcs, None)
        },
        Err(e) => (arcs, Some(e.reason)),
    }
}

// ---- routes -------------------------------------------------------------------------

/// The links along a list of arcs; a link's id is its arc's position.
pub open spec fn arc_links(arcs: Seq<ArcValue>) -> Seq<HopValue> {
    Seq::new(
        arcs.len(),
        |i: int|
            HopValue {
                edge_id: i,
                version: arcs[i].version_rank,
                from: arcs[i].source,
                to: arcs[i].target,
                reversed: false,
                precision: Scalar { bits: 0 },
            },
    )
}

/// The walks from a device's lidar to the map along a list of arcs.
pub open spec fn arc_walks(arcs: Seq<ArcValue>, device: Seq<char>) -> Seq<Seq<HopValue>> {
    graph::all_walks(arc_links(arcs), "lidar/"@ + device, "map"@, arcs.len() as int + 1)
}

/// The routes along a list of arcs with the given costs, best first.
pub open spec fn arc_routes(arcs: Seq<ArcValue>, device: Seq<char>, costs: Seq<Scalar>) -> Seq<
    PathValue,
> {
    graph::ranked(graph::paths_along(arc_walks(arcs, device), costs))
}

/// The walks from a device's lidar to the map along a list of arcs, whose costs are to
/// be measured before they are ranked.
pub fn enumerate_routes(arcs: &Vec<RouteArc>, device: &str) -> (r: Vec<Vec<Hop>>)
    requires
        arcs@.len() < i64::MAX,
        arcs@.len() < usize::MAX,
    ensures
        graph::walk_values(r@) == arc_walks(arc_values(arcs@), device@),
{
    let ghost av = arc_values(arcs@);
    let mut links: Vec<Hop> = Vec::new();
    let mut i: usize = 0;
    while i < arcs.len()
        invariant
            i <= arcs@.len(),
            arcs@.len() < i64::MAX,
            av == arc_values(arcs@),
            links@.len() == i,
            forall|k: int| 0 <= k < i ==> (#[trigger] links@[k])@ == arc_links(av)[k],
        decreases arcs.len() - i,
    {
        let a = &arcs[i];
        assert(av[i as int] == a@);
        links.push(
            Hop {
                edge_id: i as i64,
                version: a.version_rank,
                from: a.source.clone(),
                to: a.target.clone(),
                reversed: false,
                precision: Scalar { bits: 0 },
            },
        );
        i += 1;
    }
    assert(graph::hop_values(links@) =~= arc_links(av));
    let sensor = service::lidar_frame_for(device);
    graph::enumerate_walks(&links, sensor.as_str(), "map", arcs.len() + 1)
}

// ---- points -------------------------------------------------------------------------

/// A point to derive: a packet and a point of it, both by position.
#[derive(Clone, Copy, Debug, PartialEq, Eq, Structural)]
pub struct PendingPoint {
    pub packet: usize,
    pub index: usize,
}

/// What floating point makes of a point: the costs of the walks it can take, and for
/// the best of them the results along it.
#[derive(Clone, Debug)]
pub struct PointMeasure {
    /// The point in metres.
    pub si_xyz: [Scalar; 3],
    /// The trace of the covariance along each walk, in the order of the walks.
    pub costs: Vec<Scalar>,
    /// By how much each route costs more than the best, rendered, in ranked order.
    pub extra: Vec<String>,
    /// The trace of each hop's covariance along the best route.
    pub traces: Vec<Scalar>,
    /// The point in the map, and its standard deviations there.
    pub map_xyz: [Scalar; 3],
    pub sigma: [Scalar; 3],
}

/// The arcs that a packet's points can take.
pub open spec fn packet_arcs(l: Ledger, p: PacketRecord) -> Seq<ArcValue> {
    arcs_at(l, p.generation_id as int, p.device_id@, p.continuous_time as int)
}

/// The routes that a packet's points can take, best first.
pub open spec fn packet_routes(l: Ledger, p: PacketRecord, costs: Seq<Scalar>) -> Seq<PathValue> {
    arc_routes(packet_arcs(l, p), p.device_id@, costs)
}

/// Whether a measure is one of a packet's point: a number for each walk, a rendering
/// for each route, and a trace for each hop of the best.
pub open spec fn measures(l: Ledger, p: PacketRecord, m: PointMeasure) -> bool {
    let routes = packet_routes(l, p, m.costs@);
    &&& m.costs@.len() == arc_walks(packet_arcs(l, p), p.device_id@).len()
    &&& scalar::all_numbers_spec(m.costs@)
    &&& m.extra@.len() == routes.len()
    &&& routes.len() > 0 ==> m.traces@.len() == routes[0].hops.len()
}

/// Whether an origin is a packet's point.
pub open spec fn is_origin_of(
    o: PointOrigin,
    p: PacketRecord,
    index: int,
    si_xyz: [Scalar; 3],
) -> bool {
    &&& o.packet_id == p.id
    &&& o.generation_id == p.generation_id
    &&& o.point_index == index
    &&& o.device_id@ == p.device_id@
    &&& o.raw_seq == p.seq
    &&& o.raw_timestamp_sow == p.raw.sow
    &&& o.raw_week == p.raw.week
    &&& o.time_scale@ == p.raw.scale@
    &&& o.coord_frame@ == p.coord_frame@
    &&& o.units@ == p.units.length.label_spec()
    &&& o.content_summary@ == p.content_summary@
    &&& o.raw_sensor_xyz@ == seq![p.points@[index].x, p.points@[index].y, p.points@[index].z]
    &&& o.si_sensor_xyz == si_xyz
}

/// Why a route is what it is among the candidates.
pub open spec fn candidate_reason(i: int, extra: Seq<char>) -> Seq<char> {
    if i == 0 {
        "selected: lowest propagated covariance trace, then version rule"@
    } else {
        "candidate only: cost +"@ + extra + " (or older versions)"@
    }
}

/// Whether a candidate is a route at its place in the ranking.
pub open spec fn is_candidate(c: CandidateRoute, r: PathValue, i: int, extra: Seq<char>) -> bool {
    &&& graph::names(c.frames@) == graph::frames_of(r.hops)
    &&& c.precision_cost == r.precision_sum
    &&& c.version_score == r.version_sum
    &&& c.selected == (i == 0)
    &&& c.reason@ == candidate_reason(i, extra)
}

/// Whether a chain hop is a hop of a route.
pub open spec fn is_hop(c: ChainHop, h: HopValue, arcs: Seq<ArcValue>, trace: Scalar) -> bool {
    &&& c.from@ == h.from
    &&& c.to@ == h.to
    &&& c.arc_id@ == arcs[h.edge_id].arc_id
    &&& c.version@ == arcs[h.edge_id].arc_id
    &&& c.covariance_trace == Some(trace)
}

/// Whether a chain hop stands for a route that was not found.
pub open spec fn is_unresolved(c: ChainHop, device: Seq<char>, reason: Seq<char>) -> bool {
    &&& c.from@ == "lidar/"@ + device
    &&& c.to@ == "map"@
    &&& c.arc_id@ == "UNRESOLVED"@
    &&& c.version@ == reason
    &&& c.covariance_trace is None
}

/// Whether an account is the one of a packet's point: the best route with every other
/// as a candidate, or why there is none.
pub open spec fn accounts_for(
    prov: Provenance,
    l: Ledger,
    p: PacketRecord,
    index: int,
    m: PointMeasure,
) -> bool {
    let arcs = packet_arcs(l, p);
    let routes = packet_routes(l, p, m.costs@);
    &&& is_origin_of(prov.point, p, index, m.si_xyz)
    &&& prov.candidates@.len() == routes.len()
    &&& forall|i: int|
        0 <= i < routes.len() ==> is_candidate(
            #[trigger] prov.candidates@[i],
            routes[i],
            i,
            m.extra@[i]@,
        )
    &&& if routes.len() == 0 {
        &&& prov.chain@.len() == 1
        &&& is_unresolved(
            prov.chain@[0],
            p.device_id@,
            match pose_note(l, p.generation_id as int, p.continuous_time as int) {
                Some(note) => note,
                None => "no transform path to map"@,
            },
        )
        &&& prov.final_sigma_position_m is None
        &&& prov.final_map_xyz is None
    } else {
        &&& prov.chain@.len() == routes[0].hops.len()
        &&& forall|i: int|
            0 <= i < routes[0].hops.len() ==> is_hop(
                #[trigger] prov.chain@[i],
                routes[0].hops[i],
                arcs,
                m.traces@[i],
            )
        &&& prov.final_sigma_position_m == Some(m.sigma)
        &&& prov.final_map_xyz == Some(m.map_xyz)
    }
}

/// The label of an arc's version, which is the arc's own name.
pub fn arc_version_label(arc_id: &str) -> (r: String)
    ensures
        r@ == arc_id@,
{
    arc_id.to_owned()
}

fn origin_of(p: &PacketRecord, index: usize, si_xyz: [Scalar; 3]) -> (r: PointOrigin)
    requires
        index < p.points@.len(),
    ensures
        is_origin_of(r, *p, index as int, si_xyz),
{
    let pt = &p.points[index];
    let raw = [pt.x, pt.y, pt.z];
    assert(raw@ =~= seq![pt.x, pt.y, pt.z]);
    PointOrigin {
        packet_id: p.id,
        generation_id: p.generation_id,
        point_index: index,
        device_id: p.device_id.clone(),
        raw_seq: p.seq,
        raw_timestamp_sow: p.raw.sow,
        raw_week: p.raw.week,
        time_scale: p.raw.scale.clone(),
        coord_frame: p.coord_frame.clone(),
        units: p.units.length.label().to_owned(),
        content_summary: p.content_summary.clone(),
        raw_sensor_xyz: raw,
        si_sensor_xyz: si_xyz,
    }
}

fn candidates_of(routes: &Vec<Path>, extra: &Vec<String>) -> (r: Vec<CandidateRoute>)
    requires
        routes@.len() == extra@.len(),
    ensures
        r@.len() == routes@.len(),
        forall|i: int|
            0 <= i < routes@.len() ==> is_candidate(
                #[trigger] r@[i],
                graph::path_values(routes@)[i],
                i,
                extra@[i]@,
            ),
{
    let mut out: Vec<CandidateRoute> = Vec::new();
    let mut i: usize = 0;
    while i < routes.len()
        invariant
            i <= routes@.len(),
            routes@.len() == extra@.len(),
            out@.len() == i,
            forall|k: int|
                0 <= k < i ==> is_candidate(
                    #[trigger] out@[k],
                    graph::path_values(routes@)[k],
                    k,
                    extra@[k]@,
                ),
        decreases routes.len() - i,
    {
        let r = &routes[i];
        let reason = if i == 0 {
            "selected: lowest propagated covariance trace, then version rule".to_owned()
        } else {
            text::join3("candidate only: cost +", extra[i].as_str(), " (or older versions)")
        };
        assert(graph::path_values(routes@)[i as int] == r@);
        out.push(
            CandidateRoute {
                frames: graph::frame_names(&r.hops),
                precision_cost: r.precision_sum,
                version_score: r.version_sum,
                selected: i == 0,
                reason,
            },
        );
        i += 1;
    }
    out
}

fn chain_of(winner: &Path, arcs: &Vec<RouteArc>, traces: &Vec<Scalar>) -> (r: Vec<ChainHop>)
    requires
        traces@.len() == winner.hops@.len(),
        forall|i: int|
            0 <= i < winner.hops@.len() ==> 0 <= (#[trigger] winner.hops@[i]).edge_id < arcs@.len(),
    ensures
        r@.len() == winner.hops@.len(),
        forall|i: int|
            0 <= i < winner.hops@.len() ==> is_hop(
                #[trigger] r@[i],
                winner@.hops[i],
                arc_values(arcs@),
                traces@[i],
            ),
{
    let mut out: Vec<ChainHop> = Vec::new();
    let mut i: usize = 0;
    while i < winner.hops.len()
        invariant
            i <= winner.hops@.len(),
            traces@.len() == winner.hops@.len(),
            forall|i: int|
                0 <= i < winner.hops@.len() ==> 0 <= (#[trigger] winner.hops@[i]).edge_id
                    < arcs@.len(),
            out@.len() == i,
            forall|k: int|
                0 <= k < i ==> is_hop(
                    #[trigger] out@[k],
                    winner@.hops[k],
                    arc_values(arcs@),
                    traces@[k],
                ),
        decreases winner.hops.len() - i,
    {
        let h = &winner.hops[i];
        assert(arcs.len() == arcs@.len());
        let at: usize = h.edge_id as usize;
        let arc = &arcs[at];
        assert(arc_values(arcs@)[at as int] == arc@);
        assert(winner@.hops[i as int] == h@);
        out.push(
            ChainHop {
                from: h.from.clone(),
                to: h.to.clone(),
                arc_id: arc.arc_id.clone(),
                version: arc_version_label(arc.arc_id.as_str()),
                covariance_trace: Some(traces[i]),
            },
        );
        i += 1;
    }
    out
}

/// The hops of a route refer to the arcs it was made from.
proof fn lemma_route_hops(arcs: Seq<ArcValue>, device: Seq<char>, costs: Seq<Scalar>, r: int, i: int)
    requires
        costs.len() == arc_walks(arcs, device).len(),
        0 <= r < arc_routes(arcs, device, costs).len(),
        0 <= i < arc_routes(arcs, device, costs)[r].hops.len(),
    ensures
        0 <= arc_routes(arcs, device, costs)[r].hops[i].edge_id < arcs.len(),
{
    let walks = arc_walks(arcs, device);
    let paths = graph::paths_along(walks, costs);
    graph::law_ranking_keeps_to_the_paths(paths);
    let route = graph::ranked(paths)[r];
    assert(paths.contains(route));
    let k = choose|k: int| 0 <= k < paths.len() && paths[k] == route;
    let w = walks[k];
    assert(walks.contains(w));
    let links = arc_links(arcs);
    graph::law_all_walks_are_enumerated(
        links,
        "lidar/"@ + device,
        "map"@,
        arcs.len() as int + 1,
        w,
    );
    assert(links.contains(w[i]));
    let j = choose|j: int| 0 <= j < links.len() && links[j] == w[i];
    assert(links[j].edge_id == j);
}

/// Accounts for a point: the best route to the map with every other kept as a
/// candidate, or why there is none. Nothing is returned where the measure is not one
/// of the point.
pub fn align_point(db: &Ledger, pp: PendingPoint, m: &PointMeasure) -> (r: Option<Provenance>)
    requires
        db.wf(),
        pp.packet < db.packets@.len(),
        pp.index < db.packets@[pp.packet as int].points@.len(),
        db.edges@.len() < i64::MAX - 1,
        db.edges@.len() < usize::MAX - 1,
    ensures
        r is Some <==> measures(*db, db.packets@[pp.packet as int], *m),
        r is Some ==> accounts_for(
            r->0,
            *db,
            db.packets@[pp.packet as int],
            pp.index as int,
            *m,
        ),
{
    let p = &db.packets[pp.packet];
    let (arcs, note) = list_arcs(
        db,
        p.generation_id,
        p.device_id.as_str(),
        p.continuous_time,
    );
    let ghost av = arc_values(arcs@);
    proof {
        lemma_few_arcs(*db, p.generation_id as int, p.device_id@, p.continuous_time as int);
        assert(av.len() == arcs@.len());
    }
    let walks = enumerate_routes(&arcs, p.device_id.as_str());
    if !scalar::all_numbers(&m.costs) {
        return None;
    }
    let routes = match graph::rank_walks(&walks, &m.costs) {
        None => {
            return None;
        },
        Some(r) => r,
    };
    let ghost rv = packet_routes(*db, *p, m.costs@);
    assert(graph::path_values(routes@) == rv);
    assert(rv.len() == routes@.len());
    if m.extra.len() != routes.len() {
        return None;
    }
    let point = origin_of(p, pp.index, m.si_xyz);
    let candidates = candidates_of(&routes, &m.extra);
    if routes.len() == 0 {
        let reason = match note {
            Some(n) => n,
            None => "no transform path to map".to_owned(),
        };
        let mut chain: Vec<ChainHop> = Vec::new();
        chain.push(
            ChainHop {
                from: service::lidar_frame_for(p.device_id.as_str()),
                to: "map".to_owned(),
                arc_id: "UNRESOLVED".to_owned(),
                version: reason,
                covariance_trace: None,
            },
        );
        return Some(
            Provenance {
                point,
                chain,
                candidates,
                final_sigma_position_m: None,
                final_map_xyz: None,
            },
        );
    }
    let winner = &routes[0];
    assert(rv[0] == winner@);
    if m.traces.len() != winner.hops.len() {
        return None;
    }
    proof {
        assert forall|i: int| 0 <= i < winner.hops@.len() implies 0 <= (
        #[trigger] winner.hops@[i]).edge_id < arcs@.len() by {
            lemma_route_hops(av, p.device_id@, m.costs@, 0, i);
            assert(winner@.hops[i] == winner.hops@[i]@);
        }
    }
    let chain = chain_of(winner, &arcs, &m.traces);
    Some(
        Provenance {
            point,
            chain,
            candidates,
            final_sigma_position_m: Some(m.sigma),
            final_map_xyz: Some(m.map_xyz),
        },
    )
}

proof fn lemma_few_arcs(l: Ledger, gid: int, device: Seq<char>, t: int)
    ensures
        arcs_at(l, gid, device, t).len() <= l.edges@.len() + 1,
{
    let n = l.edges@.len() as int;
    rows::lemma_all_where(n, best_at(l.edges@, t));
    order::law_listing_holds_what_is_shown(n, best_at(l.edges@, t), pair_key(l.edges@));
}

// ---- arcs and routes, in plain terms ----------------------------------------------------------

/// Whether an edge joins two frames and is in force at a time: from its start on, and up to
/// its end, but not at it.
pub open spec fn joins_at(e: EdgeRow, source: Seq<char>, target: Seq<char>, t: int) -> bool {
    &&& e.source@ == source
    &&& e.target@ == target
    &&& e.valid_from is Some ==> e.valid_from->0 <= t
    &&& e.valid_to is Some ==> t < e.valid_to->0
}

/// Some edge is the one to use between the frames of any edge that is in force.
proof fn lemma_some_edge_is_best(edges: Seq<EdgeRow>, t: int, i: int) -> (k: int)
    requires
        0 <= i < edges.len(),
        holds_at(edges[i], t),
    ensures
        0 <= k < edges.len(),
        is_best(edges, t, k),
        same_pair(edges[i], edges[k]),
{
    lemma_best_among(edges, t, i, edges.len() as int)
}

proof fn lemma_best_among(edges: Seq<EdgeRow>, t: int, i: int, n: int) -> (k: int)
    requires
        0 <= i < edges.len(),
        holds_at(edges[i], t),
        0 <= n <= edges.len(),
    ensures
        0 <= k < edges.len(),
        holds_at(edges[k], t),
        same_pair(edges[i], edges[k]),
        k < n || (k == i && n <= i),
        forall|j: int|
            0 <= j < n && holds_at(#[trigger] edges[j], t) && same_pair(edges[k], edges[j])
                ==> edges[j].version < edges[k].version || (edges[j].version == edges[k].version
                && k <= j),
    decreases n,
{
    if n == 0 {
        i
    } else {
        let k = lemma_best_among(edges, t, i, n - 1);
        let e = edges[n - 1];
        if holds_at(e, t) && same_pair(edges[k], e) && (e.version > edges[k].version || (e.version
            == edges[k].version && n - 1 <= k)) {
            n - 1
        } else {
            k
        }
    }
}

/// Between the frames of any edge in force there is an arc, along an edge in force between
/// them whose version is the highest; and every arc is along such an edge.
pub proof fn law_arcs_go_along_the_newest_edges(edges: Seq<EdgeRow>, t: int, a: int, i: int)
    ensures
        0 <= i < edges.len() && joins_at(edges[i], edges[i].source@, edges[i].target@, t) ==> exists|
            b: int|
            0 <= b < static_arcs(edges, t).len() && (#[trigger] static_arcs(edges, t)[b]).source
                == edges[i].source@ && static_arcs(edges, t)[b].target == edges[i].target@
                && static_arcs(edges, t)[b].version_rank >= edges[i].version,
        0 <= a < static_arcs(edges, t).len() ==> {
            let arc = static_arcs(edges, t)[a];
            &&& arc.edge is Some
            &&& 0 <= arc.edge->0 < edges.len()
            &&& joins_at(edges[arc.edge->0], arc.source, arc.target, t)
            &&& arc.version_rank == edges[arc.edge->0].version
            &&& forall|j: int|
                0 <= j < edges.len() && joins_at(#[trigger] edges[j], arc.source, arc.target, t)
                    ==> edges[j].version < arc.version_rank || (edges[j].version
                    == arc.version_rank && arc.edge->0 <= j)
        },
{
    let n = edges.len() as int;
    let shown = best_at(edges, t);
    order::law_listing_holds_what_is_shown(n, shown, pair_key(edges));
    let best = best_edges(edges, t);
    if 0 <= i < edges.len() && joins_at(edges[i], edges[i].source@, edges[i].target@, t) {
        let k = lemma_some_edge_is_best(edges, t, i);
        assert(shown(k));
        assert(best.contains(k));
        let b = choose|b: int| 0 <= b < best.len() && best[b] == k;
        assert(static_arcs(edges, t)[b] == edge_arc(edges, k));
        assert(holds_at(edges[i], t));
    }
    if 0 <= a < static_arcs(edges, t).len() {
        let k = best[a];
        assert(shown(order::listed(n, shown, pair_key(edges))[a]));
        assert(static_arcs(edges, t)[a] == edge_arc(edges, k));
        assert forall|j: int|
            0 <= j < edges.len() && joins_at(
                #[trigger] edges[j],
                edges[k].source@,
                edges[k].target@,
                t,
            ) implies edges[j].version < edges[k].version || (edges[j].version == edges[k].version
            && k <= j) by {
            assert(holds_at(edges[j], t));
        }
    }
}

/// No two arcs along edges join the same frames, and arcs come in the order of the names of
/// their frames.
pub proof fn law_arcs_are_in_the_order_of_their_frames(edges: Seq<EdgeRow>, t: int, a: int, b: int)
    requires
        0 <= a < b < static_arcs(edges, t).len(),
    ensures
        ({
            let x = static_arcs(edges, t)[a];
            let y = static_arcs(edges, t)[b];
            &&& x.source != y.source || x.target != y.target
            &&& text::before(x.source, y.source) || (x.source == y.source && text::before(
                x.target,
                y.target,
            ))
        }),
{
    let n = edges.len() as int;
    let shown = best_at(edges, t);
    let key = pair_key(edges);
    order::law_listing_holds_what_is_shown(n, shown, key);
    let l = order::listed(n, shown, key);
    let i = l[a];
    let j = l[b];
    assert(i != j);
    assert(shown(l[a]) && shown(l[b]));
    assert(static_arcs(edges, t)[a] == edge_arc(edges, i));
    assert(static_arcs(edges, t)[b] == edge_arc(edges, j));
    if same_pair(edges[i], edges[j]) {
        law_one_version_holds_at_a_time(edges, t, i, j);
    }
    let x = key(i);
    let y = key(j);
    assert(!order::key_before(y, x));
    order::law_key_order_is_strict_and_total(x, y, x);
    if edges[i].source@ != edges[j].source@ {
        assert(x[0] != y[0]);
        order::law_first_difference_decides(x, y, 0);
    } else {
        assert(x[0] == y[0] && x[1] != y[1]);
        order::law_first_difference_decides(x, y, 1);
    }
}

/// The arcs of a point are those along the edges and, where its generation's pose can be
/// interpolated, one more from its device's body to the map.
pub proof fn law_pose_adds_an_arc_to_the_map(l: Ledger, gid: int, device: Seq<char>, t: int, i: int)
    ensures
        blocks::bracket(l.poses@, gid, t) is Ok ==> {
            let last = arcs_at(l, gid, device, t).last();
            &&& arcs_at(l, gid, device, t).len() == static_arcs(l.edges@, t).len() + 1
            &&& last.source == "body/"@ + device
            &&& last.target == "map"@
            &&& last.edge is None
            &&& last.version_rank == 1
            &&& pose_note(l, gid, t) is None
        },
        blocks::bracket(l.poses@, gid, t) is Err ==> arcs_at(l, gid, device, t) == static_arcs(
            l.edges@,
            t,
        ) && pose_note(l, gid, t) is Some,
        0 <= i < static_arcs(l.edges@, t).len() ==> arcs_at(l, gid, device, t)[i] == static_arcs(
            l.edges@,
            t,
        )[i],
{
}

/// Every route of a device goes from its lidar to the map, along arcs that follow on each
/// other, and enters no frame again; where there is any such walk there is a route.
pub proof fn law_routes_lead_from_the_lidar_to_the_map(
    arcs: Seq<ArcValue>,
    device: Seq<char>,
    costs: Seq<Scalar>,
    r: int,
    i: int,
)
    requires
        costs.len() == arc_walks(arcs, device).len(),
    ensures
        0 <= r < arc_routes(arcs, device, costs).len() ==> {
            let hops = arc_routes(arcs, device, costs)[r].hops;
            &&& hops.len() > 0
            &&& hops[0].from == "lidar/"@ + device
            &&& hops[hops.len() - 1].to == "map"@
            &&& 0 <= i < hops.len() ==> 0 <= hops[i].edge_id < arcs.len() && hops[i].from
                == arcs[hops[i].edge_id].source && hops[i].to == arcs[hops[i].edge_id].target
                && hops[i].version == arcs[hops[i].edge_id].version_rank
            &&& 1 <= i < hops.len() ==> hops[i].from == hops[i - 1].to
        },
        arc_walks(arcs, device).len() > 0 <==> arc_routes(arcs, device, costs).len() > 0,
{
    let walks = arc_walks(arcs, device);
    let paths = graph::paths_along(walks, costs);
    graph::law_ranking_keeps_to_the_paths(paths);
    if 0 <= r < arc_routes(arcs, device, costs).len() {
        let route = graph::ranked(paths)[r];
        assert(paths.contains(route));
        let k = choose|k: int| 0 <= k < paths.len() && paths[k] == route;
        let w = walks[k];
        assert(walks.contains(w));
        let links = arc_links(arcs);
        graph::law_walks_are_the_chains_without_return(
            links,
            "lidar/"@ + device,
            "map"@,
            arcs.len() as int + 1,
            w,
        );
        if 0 <= i < w.len() {
            assert(links.contains(w[i]));
            let j = choose|j: int| 0 <= j < links.len() && links[j] == w[i];
            assert(links[j].edge_id == j);
        }
    }
}

/// The account of a point tells the best of its routes as the one selected, and no other
/// candidate costs less; without a route there is one unresolved step and no position.
pub proof fn law_selected_route_costs_least(
    prov: Provenance,
    l: Ledger,
    p: PacketRecord,
    index: int,
    m: PointMeasure,
    i: int,
)
    requires
        accounts_for(prov, l, p, index, m),
        measures(l, p, m),
        0 <= i < prov.candidates@.len(),
    ensures
        prov.candidates@[i].selected <==> i == 0,
        prov.candidates@[0].precision_cost.key() <= prov.candidates@[i].precision_cost.key(),
        prov.candidates@[0].precision_cost.key() == prov.candidates@[i].precision_cost.key()
            ==> prov.candidates@[0].version_score >= prov.candidates@[i].version_score,
        prov.chain@[0].from@ == "lidar/"@ + p.device_id@,
        prov.chain@[prov.chain@.len() - 1].to@ == "map"@,
        prov.final_map_xyz == Some(m.map_xyz),
{
    let arcs = packet_arcs(l, p);
    let walks = arc_walks(arcs, p.device_id@);
    let routes = packet_routes(l, p, m.costs@);
    assert(is_candidate(prov.candidates@[i], routes[i], i, m.extra@[i]@));
    assert(is_candidate(prov.candidates@[0], routes[0], 0, m.extra@[0]@));
    if i > 0 {
        graph::law_ranked_paths_are_in_order(graph::paths_along(walks, m.costs@), 0, i);
    }
    let n = routes[0].hops.len() as int;
    law_routes_lead_from_the_lidar_to_the_map(arcs, p.device_id@, m.costs@, 0, 0);
    assert(is_hop(prov.chain@[0], routes[0].hops[0], arcs, m.traces@[0]));
    assert(is_hop(prov.chain@[n - 1], routes[0].hops[n - 1], arcs, m.traces@[n - 1]));
}

/// A point that no route leads to the map is told as unresolved, with the reason that its
/// pose gives or that there is no path.
pub proof fn law_unresolved_point_tells_why(
    prov: Provenance,
    l: Ledger,
    p: PacketRecord,
    index: int,
    m: PointMeasure,
)
    requires
        accounts_for(prov, l, p, index, m),
        packet_routes(l, p, m.costs@).len() == 0,
    ensures
        prov.candidates@.len() == 0,
        prov.final_map_xyz is None,
        prov.final_sigma_position_m is None,
        prov.chain@.len() == 1,
        prov.chain@[0].arc_id@ == "UNRESOLVED"@,
        prov.chain@[0].covariance_trace is None,
        blocks::bracket(l.poses@, p.generation_id as int, p.continuous_time as int) is Ok
            ==> prov.chain@[0].version@ == "no transform path to map"@,
        blocks::bracket(l.poses@, p.generation_id as int, p.continuous_time as int) matches Err(e)
            ==> prov.chain@[0].version@ == e,
{
}

/// An account tells where its point came from, as the packet has it.
pub proof fn law_account_tells_where_a_point_came_from(
    prov: Provenance,
    l: Ledger,
    p: PacketRecord,
    index: int,
    m: PointMeasure,
)
    requires
        accounts_for(prov, l, p, index, m),
    ensures
        prov.point.packet_id == p.id,
        prov.point.generation_id == p.generation_id,
        prov.point.point_index == index,
        prov.point.device_id@ == p.device_id@,
        prov.point.raw_seq == p.seq,
        prov.point.raw_timestamp_sow == p.raw.sow,
        prov.point.raw_week == p.raw.week,
        prov.point.time_scale@ == p.raw.scale@,
        prov.point.coord_frame@ == p.coord_frame@,
        prov.point.content_summary@ == p.content_summary@,
        prov.point.raw_sensor_xyz@[0] == p.points@[index].x,
        prov.point.raw_sensor_xyz@[1] == p.points@[index].y,
        prov.point.raw_sensor_xyz@[2] == p.points@[index].z,
        prov.point.si_sensor_xyz == m.si_xyz,
{
}

/// An arc along an edge is named after the edge's id and version.
pub proof fn law_name_of_an_edge_arc(edges: Seq<EdgeRow>, i: int)
    ensures
        exists|x: Seq<char>, v: Seq<char>|
            text::reads_as(x, edges[i].id as int) && text::reads_as(v, edges[i].version as int)
                && edge_arc(edges, i).arc_id == #[trigger] ("edge#"@ + x + "@v"@ + v),
{
    let x = text::decimal(edges[i].id as int);
    let v = text::decimal(edges[i].version as int);
    text::law_decimal_reads_as_its_integer(edges[i].id as int, 0);
    text::law_decimal_reads_as_its_integer(edges[i].version as int, 0);
    assert(edge_arc(edges, i).arc_id == "edge#"@ + x + "@v"@ + v);
}

/// An arc of a pose is named after its generation, the packets on both sides, the time to
/// the ten-thousandth of a second, and the gap to the thousandth.
pub proof fn law_name_of_a_pose_arc(l: Ledger, gid: int, device: Seq<char>, t: int, a: int, b: int)
    ensures
        exists|g: Seq<char>, x: Seq<char>, y: Seq<char>, at: Seq<char>, gap: Seq<char>|
            text::reads_as(g, gid) && text::reads_as(x, l.poses@[a].packet_id as int)
                && text::reads_as(y, l.poses@[b].packet_id as int) && time::reads_near(
                at,
                t,
                100_000,
                4,
            ) && time::reads_near(gap, blocks::gap_of(l.poses@, a, b), 1_000_000, 3) && pose_arc(
                l,
                gid,
                device,
                t,
                a,
                b,
            ).arc_id == #[trigger] ("gnss#g"@ + g + ":"@ + x + "->"@ + y + "@t"@ + at + "(gap"@
                + gap + ")"@),
{
    let g = text::decimal(gid);
    let x = text::decimal(l.poses@[a].packet_id as int);
    let y = text::decimal(l.poses@[b].packet_id as int);
    let at = time::shown(t, 100_000, 4);
    let gap = time::shown(blocks::gap_of(l.poses@, a, b), 1_000_000, 3);
    text::law_decimal_reads_as_its_integer(gid, 0);
    text::law_decimal_reads_as_its_integer(l.poses@[a].packet_id as int, 0);
    text::law_decimal_reads_as_its_integer(l.poses@[b].packet_id as int, 0);
    time::law_shown_time_reads_back(t, 100_000, 4);
    time::law_shown_time_reads_back(blocks::gap_of(l.poses@, a, b), 1_000_000, 3);
    assert(pose_arc(l, gid, device, t, a, b).arc_id == "gnss#g"@ + g + ":"@ + x + "->"@ + y + "@t"@
        + at + "(gap"@ + gap + ")"@);
}

/// The first candidate is said to be selected, and every other to be a candidate only, with
/// what it costs more.
pub proof fn law_reason_of_a_candidate(i: int, extra: Seq<char>)
    ensures
        i == 0 ==> candidate_reason(i, extra)
            == "selected: lowest propagated covariance trace, then version rule"@,
        i != 0 ==> candidate_reason(i, extra) == "candidate only: cost +"@ + extra
            + " (or older versions)"@,
{
}

/// The steps of an account follow on each other as the hops of the best route do, each
/// under the name of its arc.
pub proof fn law_steps_of_an_account(
    prov: Provenance,
    l: Ledger,
    p: PacketRecord,
    index: int,
    m: PointMeasure,
    i: int,
)
    requires
        accounts_for(prov, l, p, index, m),
        measures(l, p, m),
        packet_routes(l, p, m.costs@).len() > 0,
        0 <= i < prov.chain@.len(),
    ensures
        1 <= i ==> prov.chain@[i].from@ == prov.chain@[i - 1].to@,
        prov.chain@[i].version@ == prov.chain@[i].arc_id@,
        prov.chain@[i].covariance_trace == Some(m.traces@[i]),
        exists|k: int|
            0 <= k < packet_arcs(l, p).len() && (#[trigger] packet_arcs(l, p)[k]).source
                == prov.chain@[i].from@ && packet_arcs(l, p)[k].target == prov.chain@[i].to@
                && packet_arcs(l, p)[k].arc_id == prov.chain@[i].arc_id@,
        prov.final_sigma_position_m == Some(m.sigma),
{
    let arcs = packet_arcs(l, p);
    let routes = packet_routes(l, p, m.costs@);
    law_routes_lead_from_the_lidar_to_the_map(arcs, p.device_id@, m.costs@, 0, i);
    assert(is_hop(prov.chain@[i], routes[0].hops[i], arcs, m.traces@[i]));
    if i >= 1 {
        assert(is_hop(prov.chain@[i - 1], routes[0].hops[i - 1], arcs, m.traces@[i - 1]));
    }
    let k = routes[0].hops[i].edge_id;
    assert(arcs[k].source == prov.chain@[i].from@);
}

/// A list of arcs stands for their frames, names and versions in turn.
pub proof fn law_arcs_stand_for_their_fields(a: Seq<RouteArc>, i: int)
    requires
        0 <= i < a.len(),
    ensures
        arc_values(a).len() == a.len(),
        arc_values(a)[i].source == a[i].source@,
        arc_values(a)[i].target == a[i].target@,
        arc_values(a)[i].arc_id == a[i].arc_id@,
        arc_values(a)[i].version_rank == a[i].version_rank,
        arc_values(a)[i].edge is Some <==> a[i].edge is Some,
        a[i].edge matches Some(e) ==> arc_values(a)[i].edge == Some(e as int),
{
}

} // verus!
