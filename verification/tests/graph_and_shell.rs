//! The transform graph, grouped frames, answers to errors, and the demonstration plan.

use pointcloud_meridian::demo::{
    deliveries, seed, DemoClock, DemoContent, DemoPacket, MILLI, PACKETS,
};
use pointcloud_meridian::graph::{
    build_path, enumerate_walks, hop_ids, make_edge, pair_key, rank_paths, rank_walks, FrameGraph,
    GraphEdge, Hop, LoopMeasure, Measured, Residual, MAX_HOPS,
};
use pointcloud_meridian::model::AppError;
use pointcloud_meridian::scalar::Scalar;
use pointcloud_meridian::server::{error_body, status_of};
use pointcloud_meridian::time::Nanos;
use pointcloud_meridian::web::{group_frames, FramePoint, MapPoint};

fn s(x: f64) -> Scalar {
    Scalar { bits: x.to_bits() }
}

fn transform(trace: f64) -> Measured {
    Measured {
        translation: [s(0.0); 3],
        rotation: [s(0.0), s(0.0), s(0.0), s(1.0)],
        normalizable: true,
        cov: vec![],
        trace: s(trace),
        trace_root: s(trace.sqrt()),
    }
}

fn edge(id: i64, version: i64, parent: &str, child: &str, window: (Nanos, Nanos)) -> GraphEdge {
    make_edge(
        id,
        version,
        parent,
        child,
        transform(0.04),
        None,
        Some(window.0),
        Some(window.1),
        0,
    )
    .unwrap()
}

fn residual(trans: f64, rot: f64) -> Residual {
    Residual {
        trans: s(trans),
        rot: s(rot),
        trans_text: format!("{:.3}", trans),
        rot_text: format!("{:.4}", rot),
    }
}

/// What is measured of a loop that no test closes, or of one of a given width.
fn around(trans: f64) -> LoopMeasure {
    LoopMeasure {
        residual: residual(trans, 0.0),
        trace: s(0.12),
        trace_text: "1.200e-1".to_string(),
    }
}

#[test]
fn path_tie_deterministic_and_candidates_kept() {
    let mut g = FrameGraph::new();
    g.load(vec![
        edge(1, 1, "body", "lidar", (0, 10)),
        edge(2, 1, "map", "body", (0, 10)),
        edge(3, 1, "map", "lidar", (0, 10)),
    ]);
    let sums = |g: &FrameGraph| -> Vec<Scalar> {
        g.walks_at("lidar", "map", 5)
            .iter()
            .map(|w| if w.len() == 1 { s(6.0) } else { s(0.12) })
            .collect()
    };
    let p1 = g.find_paths("lidar", "map", 5, &sums(&g)).unwrap();
    let p2 = g.find_paths("lidar", "map", 5, &sums(&g)).unwrap();
    let frames = |p: &pointcloud_meridian::graph::Path| -> Vec<String> {
        let mut f = vec![p.hops[0].from.clone()];
        f.extend(p.hops.iter().map(|h| h.to.clone()));
        f
    };
    assert_eq!(frames(&p1[0]), frames(&p2[0]), "选路必须确定");
    assert_eq!(frames(&p1[0]), vec!["lidar", "body", "map"]);
    assert_eq!(p1.len(), 2, "未选路径保留为候选");
}

fn hop(id: i64, version: i64, from: &str, to: &str) -> Hop {
    Hop {
        edge_id: id,
        version,
        from: from.to_string(),
        to: to.to_string(),
        reversed: false,
        precision: s(1.0),
    }
}

#[test]
fn ties_go_to_newer_versions_then_to_frame_names() {
    let old = build_path(vec![hop(1, 1, "a", "m"), hop(2, 1, "m", "z")], s(1.0));
    let new = build_path(vec![hop(3, 2, "a", "n"), hop(4, 1, "n", "z")], s(1.0));
    let named = build_path(vec![hop(5, 1, "a", "b"), hop(6, 1, "b", "z")], s(1.0));
    let precise = build_path(vec![hop(7, 1, "a", "z")], s(0.5));
    let ranked = rank_paths(&vec![old.clone(), named.clone(), new.clone(), precise.clone()]);
    let ids: Vec<Vec<i64>> = ranked.iter().map(hop_ids).collect();
    assert_eq!(ids, vec![vec![7], vec![3, 4], vec![5, 6], vec![1, 2]]);
    let other = rank_paths(&vec![precise, new, named, old]);
    assert_eq!(other.iter().map(hop_ids).collect::<Vec<_>>(), ids);
}

#[test]
fn all_simple_walks_are_found() {
    let links = vec![
        hop(1, 1, "a", "b"),
        hop(2, 1, "b", "c"),
        hop(3, 1, "a", "c"),
        hop(4, 1, "c", "a"),
        hop(5, 1, "b", "a"),
    ];
    let walks = enumerate_walks(&links, "a", "c", MAX_HOPS);
    let mut ids: Vec<Vec<i64>> =
        walks.iter().map(|w| w.iter().map(|h| h.edge_id).collect()).collect();
    ids.sort();
    assert_eq!(ids, vec![vec![1, 2], vec![3]]);
    assert_eq!(enumerate_walks(&links, "a", "c", 1).len(), 1);
    assert_eq!(enumerate_walks(&links, "c", "d", MAX_HOPS).len(), 0);
    assert!(rank_walks(&walks, &vec![s(1.0)]).is_none(), "one cost is missing");
}

#[test]
fn loops_are_reported_and_wide_ones_rejected() {
    let mut g = FrameGraph::new();
    let first = g.add(edge(1, 1, "map", "body", (0, 10)), &vec![], &around(0.0)).unwrap();
    assert!(!first.rejected && first.loops.is_empty());
    let close = edge(2, 2, "body", "map", (5, 15));
    assert_eq!(g.rivals_of(&close), vec![0]);
    let ok = g.add(close, &vec![residual(0.01, 0.001)], &around(0.0)).unwrap();
    assert!(!ok.rejected);
    assert!(ok.loops[0].accepted);
    assert_eq!(ok.loops[0].compared_edge, 1);
    assert_eq!(ok.loops[0].frames, vec!["map", "body"]);
    assert_eq!(ok.loops[0].covariance_trace, None);
    let wide = edge(3, 3, "map", "body", (0, 4));
    let r = g.add(wide, &vec![residual(0.2, 0.001)], &around(0.0)).unwrap();
    assert!(r.rejected);
    assert_eq!(
        r.reason.as_deref(),
        Some("与边#1 闭环残差超限(平移 0.200m>0.050, 旋转 0.0010rad>0.0100)"),
    );
    assert_eq!(g.edges().len(), 2);
    assert!(g.add(edge(4, 1, "map", "body", (0, 4)), &vec![], &around(0.0)).is_none());
    assert_eq!(pair_key("b", "a"), pair_key("a", "b"));
}

#[test]
fn edges_are_made_in_order_only() {
    let make = |parent: &str, child: &str, from, to, tf: Measured| {
        make_edge(1, 1, parent, child, tf, None, from, to, 0)
    };
    assert_eq!(
        make("a", "a", Some(0), Some(1), transform(1.0)).unwrap_err(),
        "变换的 parent 与 child 不能相同",
    );
    assert_eq!(make("a", "b", None, Some(1), transform(1.0)).unwrap_err(), "有效时间区间非法");
    assert_eq!(make("a", "b", Some(2), Some(1), transform(1.0)).unwrap_err(), "有效时间区间非法");
    let mut flat = transform(1.0);
    flat.normalizable = false;
    assert_eq!(
        make("a", "b", Some(0), Some(1), flat).unwrap_err(),
        "四元数幅值过小，无法归一化",
    );
    assert_eq!(make("a", "b", Some(0), Some(1), transform(4.0)).unwrap().precision, s(2.0));
    assert_eq!(make("a", "b", Some(0), Some(1), transform(0.0)).unwrap().precision, s(1.0));
}

#[test]
fn errors_are_answered_with_status_and_body() {
    let status = |code: &'static str| status_of(&AppError::new(code, ""));
    assert_eq!(status("cycle_detected"), 409);
    for code in [
        "singular_covariance",
        "unit_error",
        "bad_window",
        "bad_kind",
        "bad_time",
        "bad_device",
        "bad_pose",
    ] {
        assert_eq!(status(code), 422);
    }
    assert_eq!(status("not_found"), 404);
    assert_eq!(status("db_error"), 500);
    let e = AppError::new("bad_time", "a \"quoted\" \\ path\n\ttab \u{1} \u{7f} 身");
    let body = error_body(&e);
    let v: serde_json::Value = serde_json::from_str(&body).unwrap();
    assert_eq!(v["code"], "bad_time");
    assert_eq!(v["message"], "a \"quoted\" \\ path\n\ttab \u{1} \u{7f} 身");
    assert_eq!(
        body,
        "{\"code\":\"bad_time\",\"message\":\"a \\\"quoted\\\" \\\\ path\\n\\ttab \\u0001 \u{7f} 身\"}",
    );
}

#[test]
fn points_are_grouped_by_frame() {
    let row = |frame: i64, id: Option<i64>| FramePoint {
        frame_id: frame,
        time_ms: frame * 100,
        generation: 1,
        status: "done".to_string(),
        point: id.map(|id| MapPoint { id, map: [s(1.0); 3], raw: [s(2.0); 3] }),
    };
    let groups = group_frames(&vec![
        row(1, Some(10)),
        row(1, Some(11)),
        row(2, None),
        row(3, Some(12)),
        row(1, Some(13)),
    ]);
    let ids: Vec<(i64, Vec<i64>)> =
        groups.iter().map(|g| (g.frame_id, g.points.iter().map(|p| p.id).collect())).collect();
    assert_eq!(ids, vec![(1, vec![10, 11]), (2, vec![]), (3, vec![12]), (1, vec![13])]);
    assert_eq!(groups[1].time_ms, 200);
    assert!(group_frames(&vec![]).is_empty());
}

#[test]
fn cycle_returns_loop_and_residual_and_blocks_write() {
    let mut g = FrameGraph::new();
    let all = (0, 1_000_000_000);
    for e in [edge(1, 1, "b", "a", all), edge(2, 1, "c", "b", all)] {
        assert!(g.loop_with(&e).is_none());
        assert!(!g.add(e, &vec![], &around(0.0)).unwrap().rejected);
    }
    let closing = edge(3, 1, "a", "c", all);
    let back = g.loop_with(&closing).expect("环必须被拒绝");
    assert_eq!(back.iter().map(|h| h.edge_id).collect::<Vec<_>>(), vec![1, 2]);
    let r = g.add(closing, &vec![], &around(0.02)).unwrap();
    assert!(r.rejected);
    let cyc = &r.loops[0];
    assert_eq!(cyc.frames.first().unwrap(), "c");
    assert_eq!(cyc.frames.last().unwrap(), "c", "环必须闭合回起点: {:?}", cyc.frames);
    assert_eq!(cyc.frames, vec!["c", "a", "b", "c"]);
    assert_eq!(cyc.residual_trans, s(0.02));
    assert_eq!(cyc.covariance_trace, Some(s(0.12)));
    assert!(!cyc.accepted);
    assert_eq!(
        r.reason.as_deref(),
        Some(
            "edge closes a frame loop: c -> a -> b -> c; residual 0.020 m, 0.0000 rad; \
             covariance trace 1.200e-1"
        ),
    );
    assert_eq!(g.edges().len(), 2, "只有两条边入库");
}

#[test]
fn edges_of_other_times_close_no_loop() {
    let mut g = FrameGraph::new();
    g.load(vec![edge(1, 1, "b", "a", (0, 10)), edge(2, 1, "c", "b", (0, 10))]);
    let later = g.add(edge(3, 1, "a", "c", (11, 20)), &vec![], &around(0.0)).unwrap();
    assert!(!later.rejected && later.loops.is_empty());
    let beside = g.add(edge(4, 1, "c", "a", (0, 10)), &vec![], &around(0.0));
    assert!(beside.is_some_and(|r| !r.rejected), "a second way to the same frame is no loop");
}

#[test]
fn demonstration_has_a_gap_and_two_receivers() {
    assert!(seed(1).is_none());
    let plan = seed(0).unwrap();
    assert_eq!(plan.streams.len(), 5);
    assert_eq!(plan.edges.iter().filter(|e| e.receiver.is_some()).count(), 2);
    assert_eq!(plan.packets.len(), PACKETS);
    let base = plan.packets[0].t;
    assert_eq!(base, 1_789_898_400_000 * MILLI);
    let restarts = plan.packets.iter().filter(|p| p.device == "lidar-A" && p.restart).count();
    assert_eq!(restarts, 2, "the lidar has two generations");
    let times: Vec<i128> = plan
        .packets
        .iter()
        .filter(|p| p.device == "gnss-primary")
        .map(|p| (p.t - base) / MILLI)
        .collect();
    assert_eq!(times, vec![0, 100, 200, 4_000, 4_100]);
    assert_eq!(plan.packets[2].summary, "primary pose +100ms");
    assert_eq!(plan.packets[13].summary, "sparse scan 3 (24 pts)");
    assert_eq!(plan.packets[13].t - base, 2_500 * MILLI);
    assert_eq!(plan.packets[13].content, DemoContent::Scan { index: 3, points: 24 });
    assert_eq!(
        plan.packets[3].content,
        DemoContent::Pose { x: 210_000, y: 40_000, yaw: 2_000 },
    );
}

#[test]
fn demonstration_shows_what_clocks_and_links_do() {
    let plan = seed(0).unwrap();
    let mut p: Vec<&DemoPacket> = plan.packets.iter().collect();
    p.sort_by_key(|p| p.received);
    let weeks: Vec<(i64, u32)> = p
        .iter()
        .filter_map(|p| match p.clock {
            DemoClock::Week { week, bits, .. } => Some((week, bits)),
            _ => None,
        })
        .collect();
    assert_eq!(weeks, vec![(1023, 10), (0, 10)]);
    let rolled: Vec<Nanos> =
        p.iter().filter(|p| p.device == "gnss-rollover").map(|p| p.t).collect();
    assert_eq!(rolled[1] - rolled[0], 2_000 * MILLI);
    let leap: Vec<&&DemoPacket> = p.iter().filter(|p| p.device == "gnss-leap").collect();
    assert!(matches!(
        leap[0].clock,
        DemoClock::Utc { hour: 23, minute: 59, second: 60_500_000_000, .. }
    ));
    let scans: Vec<&&DemoPacket> = p.iter().filter(|p| p.device == "lidar-A").collect();
    let again = |d: &str| {
        let of: Vec<&&DemoPacket> = p.iter().filter(|p| p.device == d).collect();
        of.windows(2).any(|w| w[1].restart && w[0].seq > 0 && w[1].seq == 0)
    };
    assert!(again("gnss-primary"), "the numbers start again from zero");
    assert!(scans.windows(2).any(|w| w[1].t < w[0].t && w[1].seq > w[0].seq && !w[1].restart));
    assert!(scans
        .iter()
        .enumerate()
        .any(|(i, a)| scans[..i].iter().any(|b| (a.seq, a.t) == (b.seq, b.t))));
    assert_eq!(scans.iter().filter(|p| p.unit == "mm").count(), 1);
}

#[test]
fn demonstration_is_delivered_in_order_of_receipt() {
    let plan = seed(0).unwrap();
    let sent = deliveries(&plan.packets);
    assert_eq!(sent.len(), PACKETS);
    assert!(sent
        .windows(2)
        .all(|w| plan.packets[w[0].packet].received <= plan.packets[w[1].packet].received));
    let boots = |device: &str| -> Vec<(u32, usize)> {
        sent.iter()
            .map(|d| (&plan.packets[d.packet], d.boot))
            .filter(|(p, _)| p.device == device)
            .map(|(p, boot)| (p.seq, boot))
            .collect()
    };
    assert_eq!(boots("gnss-primary"), vec![(0, 0), (100, 0), (200, 0), (0, 1), (100, 1)]);
    assert_eq!(
        boots("lidar-A"),
        vec![(0, 0), (1, 0), (1, 0), (2, 0), (3, 0), (4, 1), (5, 1), (6, 1)],
    );
}

#[test]
fn sums_that_are_not_numbers_leave_the_rest_to_decide() {
    let nan = s(f64::NAN);
    let old = build_path(vec![hop(1, 1, "a", "m"), hop(2, 1, "m", "z")], s(0.5));
    let new = build_path(vec![hop(3, 2, "a", "n"), hop(4, 1, "n", "z")], nan);
    let ids = |p: Vec<pointcloud_meridian::graph::Path>| -> Vec<Vec<i64>> {
        p.iter().map(hop_ids).collect()
    };
    let both = ids(rank_paths(&vec![old.clone(), new.clone()]));
    assert_eq!(both, vec![vec![3, 4], vec![1, 2]], "the newer versions come first");
    let all = rank_paths(&vec![
        build_path(old.hops.clone(), nan),
        build_path(new.hops.clone(), nan),
        build_path(vec![hop(5, 1, "a", "b"), hop(6, 1, "b", "z")], nan),
    ]);
    assert_eq!(ids(all), vec![vec![3, 4], vec![5, 6], vec![1, 2]]);
    let mut g = FrameGraph::new();
    g.load(vec![edge(1, 1, "map", "body", (0, 10))]);
    let found = g.find_paths("body", "map", 5, &vec![nan]).unwrap();
    assert_eq!(found.len(), 1);
    assert!(found[0].precision_sum.is_nan());
}

#[test]
fn parallel_paths_tie_and_deterministic_choice() {
    let mut g = FrameGraph::new();
    let all = (0, 1_000_000_000_000_000_000);
    let put = |g: &mut FrameGraph, id: i64, source: &str, target: &str| {
        let e = edge(id, 1, target, source, all);
        let same = g.rivals_of(&e).iter().map(|_| residual(0.0, 0.0)).collect();
        assert!(!g.add(e, &same, &around(0.0)).unwrap().rejected);
    };
    put(&mut g, 1, "s", "m");
    put(&mut g, 2, "s", "j");
    put(&mut g, 3, "j", "m");
    let resolve = |g: &FrameGraph| {
        let at = 100_000_000_000;
        let trace = |id: i64| if id == 2 || id == 3 { 6e-2 } else { 6e-4 };
        let sums = g
            .walks_at("s", "m", at)
            .iter()
            .map(|w| s(w.iter().map(|h| trace(h.edge_id)).sum()))
            .collect();
        g.find_paths("s", "m", at, &sums).unwrap()
    };
    let c1 = resolve(&g);
    assert_eq!(hop_ids(&c1[0]), vec![1]);
    assert!(c1[1..].iter().any(|p| {
        p.hops.iter().map(|h| (h.from.as_str(), h.to.as_str())).collect::<Vec<_>>()
            == vec![("s", "j"), ("j", "m")]
    }));

    put(&mut g, 4, "s", "m");
    let (a, b) = (resolve(&g), resolve(&g));
    assert_eq!(hop_ids(&a[0]), hop_ids(&b[0]), "并列选路必须确定");
    assert!(a.len() - 1 >= 2, "未选路径必须保留为候选");
}
