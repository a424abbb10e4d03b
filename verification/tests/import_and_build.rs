//! Importing packets, building derived blocks, revising calibrations, and what is shown.

use pointcloud_meridian::blocks::{
    block_signature, block_start, interpolate_pose, list_windows, Window,
};
use pointcloud_meridian::builder::{
    block_point_counts, build_all, pending_points, room_for, windows_to_build, BuildReport,
};
use pointcloud_meridian::db::{ensure_frames, recover_pending, BlockStatus, Ledger};
use pointcloud_meridian::edges::{
    add_edge, invalidate_for_edge, invalidate_for_window, loop_of, EdgeInput, EdgeMeasure,
};
use pointcloud_meridian::graph::{rank_walks, LoopMeasure, Residual};
use pointcloud_meridian::model::{
    AppResult, PacketInput, PoseCovariance, RawPoint, Rotation,
};
use pointcloud_meridian::routes::{
    arc_version_label, enumerate_routes, list_arcs, PendingPoint, PointMeasure,
};
use pointcloud_meridian::scalar::Scalar;
use pointcloud_meridian::service::{
    body_frame_for, import_packets, lidar_frame_for, time_ok, ImportReport, Reading,
};
use pointcloud_meridian::time::{Nanos, SECOND, WEEK};
use pointcloud_meridian::view::{compute_gaps, point_provenance, state_view};

fn s(x: f64) -> Scalar {
    Scalar { bits: x.to_bits() }
}

fn ns(seconds: f64) -> Nanos {
    (seconds * 1e9).round() as Nanos
}

fn packet(kind: &str, device: &str, seq: i64, t: f64) -> PacketInput {
    PacketInput {
        kind: kind.to_string(),
        device_id: device.to_string(),
        seq,
        boot_id: None,
        boot_marker: None,
        timestamp: Some(ns(t)),
        week: None,
        leap_second_flag: false,
        time_scale: None,
        coord_frame: None,
        length_unit: None,
        angle_unit: None,
        px: None,
        py: None,
        pz: None,
        roll: None,
        pitch: None,
        yaw: None,
        quat: None,
        cov: None,
        points: None,
    }
}

fn pose(device: &str, seq: i64, t: f64) -> PacketInput {
    let mut p = packet("gnss", device, seq, t);
    p.px = Some(s(t));
    p.py = Some(s(0.0));
    p.pz = Some(s(0.0));
    p.cov = Some(vec![s(1e-4); 6]);
    p
}

fn scan(device: &str, seq: i64, t: f64, n: usize) -> PacketInput {
    let mut p = packet("lidar", device, seq, t);
    let point = RawPoint { x: s(1.0), y: s(2.0), z: s(3.0), intensity: None };
    p.points = Some(vec![point; n]);
    p
}

fn reading(p: &PacketInput) -> Reading {
    Reading {
        payload: format!("{} {}#{}", p.kind, p.device_id, p.seq),
        q: [s(1.0), s(0.0), s(0.0), s(0.0)],
        xyz: [p.px.unwrap_or(s(0.0)), s(0.0), s(0.0)],
        cov: vec![s(1e-4); 36],
        positive_definite: true,
    }
}

fn import(db: &mut Ledger, packets: Vec<PacketInput>) -> ImportReport {
    let readings: Vec<Reading> = packets.iter().map(reading).collect();
    import_packets(db, &packets, &readings)
}

fn edge(source: &str, target: &str, from: Option<Nanos>, to: Option<Nanos>) -> EdgeInput {
    EdgeInput {
        source: source.to_string(),
        target: target.to_string(),
        valid_from: from,
        valid_to: to,
        translation: [s(0.5), s(0.0), s(0.0)],
        quat: None,
        euler_rpy: None,
        covariance: vec![s(1e-4); 6],
        origin: None,
    }
}

fn facts() -> EdgeMeasure {
    EdgeMeasure {
        q: [s(1.0), s(0.0), s(0.0), s(0.0)],
        positive_definite: true,
        sigma_trace: s(6e-4),
    }
}

fn f(x: Scalar) -> f64 {
    f64::from_bits(x.bits)
}

/// What is measured around the loop that an edge of plain shifts closes.
fn around(db: &Ledger, input: &EdgeInput) -> LoopMeasure {
    let mut sum = f(input.translation[0]);
    let mut trace: f64 = input.covariance.iter().map(|c| f(*c)).sum();
    for h in loop_of(db, input).unwrap_or_default() {
        let e = &db.edges[h.edge_id as usize - 1];
        sum += f(e.xyz[0]);
        trace += f(e.sigma_trace);
    }
    let trans = sum.abs();
    LoopMeasure {
        residual: Residual {
            trans: s(trans),
            rot: s(0.0),
            trans_text: format!("{trans:.4}"),
            rot_text: "0.00000".to_string(),
        },
        trace: s(trace),
        trace_text: format!("{trace:.3e}"),
    }
}

fn put(db: &mut Ledger, e: &EdgeInput, m: &EdgeMeasure, now: Nanos) -> AppResult<(i64, i64)> {
    let closing = around(db, e);
    add_edge(db, e, m, &closing, now)
}

fn measure(db: &Ledger, pp: PendingPoint) -> PointMeasure {
    let p = &db.packets[pp.packet];
    let (arcs, _) = list_arcs(db, p.generation_id, p.device_id.as_str(), p.continuous_time);
    let walks = enumerate_routes(&arcs, p.device_id.as_str());
    let costs: Vec<Scalar> = walks.iter().map(|w| s(w.len() as f64)).collect();
    let ranked = rank_walks(&walks, &costs).unwrap();
    PointMeasure {
        si_xyz: [s(1.0), s(2.0), s(3.0)],
        costs,
        extra: ranked.iter().map(|_| "0.000e0".to_string()).collect(),
        traces: match ranked.first() {
            Some(r) => vec![s(1.0); r.hops.len()],
            None => vec![],
        },
        map_xyz: [s(10.0), s(20.0), s(30.0)],
        sigma: [s(0.1); 3],
    }
}

fn build(db: &mut Ledger) -> BuildReport {
    let measures: Vec<Vec<PointMeasure>> = windows_to_build(db)
        .iter()
        .map(|w| pending_points(db, *w).iter().map(|pp| measure(db, *pp)).collect())
        .collect();
    build_all(db, &measures, 77).unwrap()
}

/// A device with poses every tenth of a second and three scans.
fn basic() -> Ledger {
    basic_and(vec![])
}

/// The same, with further packets imported together with those.
fn basic_and(more: Vec<PacketInput>) -> Ledger {
    let mut db = Ledger::new();
    let further = more.len();
    let mut packets: Vec<PacketInput> =
        (0..13).map(|i| pose("u1", i, 100.0 + i as f64 * 0.1)).collect();
    packets.push(scan("u1", 0, 100.05, 2));
    packets.push(scan("u1", 1, 100.65, 2));
    packets.push(scan("u1", 2, 101.15, 1));
    packets.extend(more);
    let report = import(&mut db, packets);
    assert_eq!((report.accepted, report.rejected, report.duplicates), (16 + further, 0, 0));
    let e = edge("lidar/u1", "body/u1", None, None);
    assert_eq!(put(&mut db, &e, &facts(), 1).unwrap(), (1, 1));
    db
}

#[test]
fn import_accounts_for_every_packet() {
    let mut db = Ledger::new();
    let mut bad_kind = scan("u1", 1, 1.0, 1);
    bad_kind.kind = "radar".to_string();
    let mut no_device = scan(" ", 1, 1.0, 1);
    no_device.device_id = "  ".to_string();
    let mut bad_unit = scan("u1", 1, 1.0, 1);
    bad_unit.length_unit = Some("fathom".to_string());
    let mut bad_angle = scan("u1", 1, 1.0, 1);
    bad_angle.angle_unit = Some("gon".to_string());
    let mut no_time = scan("u1", 1, 1.0, 1);
    no_time.timestamp = None;
    let mut short_cov = pose("u1", 1, 1.0);
    short_cov.cov = Some(vec![s(1.0); 3]);
    let good = scan("u1", 1, 1.0, 1);
    let again = scan("u1", 1, 1.0, 1);
    let report = import(
        &mut db,
        vec![bad_kind, no_device, bad_unit, bad_angle, no_time, short_cov, good, again],
    );
    assert_eq!((report.accepted, report.rejected, report.duplicates), (1, 6, 1));
    assert_eq!(db.packets.len(), 2);
    assert!(db.packets[1].duplicate_of == Some(1));
    for (i, code) in [
        "bad_kind",
        "bad_device",
        "unknown length unit 'fathom'",
        "unknown angle unit 'gon'",
        "timestamp must be >= 0",
        "gnss covariance must have 6 or 36 entries",
    ]
    .iter()
    .enumerate()
    {
        assert!(report.errors[i].contains(code), "{} in {}", code, report.errors[i]);
    }
}

#[test]
fn packets_keep_their_raw_facts() {
    let mut db = Ledger::new();
    let mut p = scan("u1", 4, 7.5, 3);
    p.length_unit = Some("mm".to_string());
    p.week = Some(3);
    p.coord_frame = Some("front".to_string());
    import(&mut db, vec![p, scan("u1", 5, 7.6, 1)]);
    let r = &db.packets[0];
    assert_eq!(r.content_summary, "lidar:3pts(mm)");
    assert_eq!(r.raw.sow, ns(7.5));
    assert_eq!(r.raw.week, Some(3));
    assert_eq!(r.raw.scale, "gps");
    assert_eq!(r.coord_frame, "front");
    assert_eq!(r.payload, "lidar u1#4");
    assert_eq!(r.continuous_time, 3 * WEEK + ns(7.5));
    assert_eq!(db.packets[1].coord_frame, lidar_frame_for("u1"));
    assert_eq!(lidar_frame_for("u1"), "lidar/u1");
    assert_eq!(body_frame_for("u1"), "body/u1");
    assert_eq!(arc_version_label("edge:1"), "edge:1");
}

#[test]
fn reboots_open_generations_and_rollovers_do_not() {
    let mut db = Ledger::new();
    let mut first = scan("u1", 50, 0.0, 1);
    first.timestamp = Some(WEEK - SECOND);
    let mut rolled = scan("u1", 51, 0.0, 1);
    rolled.timestamp = Some(SECOND);
    let reset = scan("u1", 0, 100.0, 1);
    let mut booted = scan("u1", 1, 100.1, 1);
    booted.boot_id = Some(1);
    let mut next_boot = scan("u1", 2, 100.2, 1);
    next_boot.boot_id = Some(2);
    let mut marked = scan("u1", 3, 100.3, 1);
    marked.boot_marker = Some("a".to_string());
    let mut remarked = scan("u1", 4, 100.4, 1);
    remarked.boot_marker = Some("b".to_string());
    let back = scan("u1", 5, 50.0, 1);
    let report = import(
        &mut db,
        vec![first, rolled, reset, booted, next_boot, marked, remarked, back],
    );
    assert_eq!(report.accepted, 8);
    let reasons: Vec<&str> = db.generations.iter().map(|g| g.reason.as_str()).collect();
    assert_eq!(
        reasons,
        vec![
            "first_packet",
            "seq_reset_reboot",
            "boot_id_changed",
            "boot_marker_changed",
            "time_discontinuity",
        ],
    );
    assert_eq!(db.packets[0].generation_id, db.packets[1].generation_id);
    assert_eq!(db.packets[1].continuous_time - db.packets[0].continuous_time, 2 * SECOND);
    assert_eq!(report.new_generations, vec![1, 2, 3, 4, 5]);
}

#[test]
fn poses_that_are_not_positive_definite_are_rejected_and_kept_as_packets() {
    let mut db = Ledger::new();
    let p = pose("u1", 1, 1.0);
    let mut r = reading(&p);
    r.positive_definite = false;
    let report = import_packets(&mut db, &vec![p], &vec![r]);
    assert_eq!((report.accepted, report.rejected), (1, 1));
    assert_eq!(db.packets.len(), 1);
    assert_eq!(db.poses.len(), 0);
}

#[test]
fn interpolation_needs_close_poses_of_one_generation() {
    let db = basic();
    let p = interpolate_pose(&db, 1, ns(100.05)).unwrap();
    assert_eq!((p.left, p.right), (0, 1));
    assert_eq!((p.gap, p.ahead), (ns(0.1), ns(0.05)));
    let at = interpolate_pose(&db, 1, ns(100.1)).unwrap();
    assert_eq!((at.left, at.right, at.gap), (1, 1, 0));
    assert_eq!(
        interpolate_pose(&db, 1, ns(99.0)).unwrap_err().reason,
        "no pose at or before time (new generation edge?)",
    );
    assert_eq!(interpolate_pose(&db, 1, ns(200.0)).unwrap_err().reason, "no pose at or after time");
    assert!(interpolate_pose(&db, 2, ns(100.05)).is_err());
    let mut sparse = Ledger::new();
    import(&mut sparse, vec![pose("u1", 0, 1.0), pose("u1", 1, 1.2), pose("u1", 2, 1.5)]);
    assert!(interpolate_pose(&sparse, 1, ns(1.1)).is_ok(), "a gap of two tenths is allowed");
    assert_eq!(
        interpolate_pose(&sparse, 1, ns(1.3)).unwrap_err().reason,
        "pose gap exceeds allowed interpolation interval",
    );
}

#[test]
fn windows_tile_time() {
    assert_eq!(block_start(ns(100.65)), ns(100.5));
    assert_eq!(block_start(-1), -ns(0.5));
    let db = basic();
    let ws = list_windows(&db);
    assert_eq!(
        ws,
        vec![
            Window { generation_id: 1, start: ns(100.0), end: ns(100.5) },
            Window { generation_id: 1, start: ns(100.5), end: ns(101.0) },
            Window { generation_id: 1, start: ns(101.0), end: ns(101.5) },
        ],
    );
}

#[test]
fn blocks_are_built_once() {
    let mut db = basic();
    let first = build(&mut db);
    assert_eq!((first.blocks_complete, first.blocks_rebuilt, first.blocks_skipped), (3, 0, 0));
    assert_eq!((first.points_aligned, first.points_unaligned), (5, 0));
    assert_eq!(db.points.len(), 5);
    let again = build(&mut db);
    assert_eq!((again.blocks_complete, again.blocks_rebuilt, again.blocks_skipped), (0, 0, 3));
    assert_eq!((again.points_aligned, again.points_unaligned), (5, 0));
    assert_eq!(db.points.len(), 5);
    assert_eq!(block_point_counts(&db, list_windows(&db)[2]), (1, 0));
    let row = &db.points[0];
    assert_eq!(row.map_xyz, Some([s(10.0), s(20.0), s(30.0)]));
    let chain: Vec<&str> = row.provenance.chain.iter().map(|h| h.to.as_str()).collect();
    assert_eq!(chain, vec!["body/u1", "map"]);
    assert!(row.provenance.candidates[0].selected);
    assert_eq!(db.blocks[0].built_at, Some(77));
    assert!(db.blocks[0].signature.starts_with("pjm-1|p1@100.000000;"));
}

#[test]
fn builds_stop_where_measures_run_out() {
    let mut db = basic();
    let ws = windows_to_build(&db);
    let first: Vec<PointMeasure> =
        pending_points(&db, ws[0]).iter().map(|pp| measure(&db, *pp)).collect();
    assert!(build_all(&mut db, &vec![first], 1).is_none());
    assert_eq!(db.blocks.len(), 1);
    assert!(build_all(&mut db, &vec![vec![]], 1).is_none());
    assert_eq!(db.blocks.len(), 1);
    let rest = build(&mut db);
    assert_eq!((rest.blocks_complete, rest.blocks_skipped), (2, 1));
}

#[test]
fn half_blocks_are_dropped_and_built_again() {
    let mut db = basic();
    build(&mut db);
    db.blocks[0].status = BlockStatus::Pending;
    assert_eq!(windows_to_build(&db).len(), 1);
    let mut copy = db.clone();
    assert_eq!(recover_pending(&mut copy), 0);
    assert_eq!((copy.blocks.len(), copy.points.len()), (2, 3));
    recover_pending(&mut copy);
    assert_eq!((copy.blocks.len(), copy.points.len()), (2, 3));
    let report = build(&mut db);
    assert_eq!((report.blocks_complete, report.blocks_rebuilt, report.blocks_skipped), (1, 0, 2));
    assert_eq!(db.points.len(), 5);
    assert!(db.blocks.iter().all(|b| b.status == BlockStatus::Complete));
}

#[test]
fn points_without_a_route_say_why() {
    let mut db = Ledger::new();
    import(&mut db, vec![scan("u1", 0, 5.0, 1)]);
    let report = build(&mut db);
    assert_eq!((report.points_aligned, report.points_unaligned), (0, 1));
    let p = &db.points[0];
    assert_eq!(p.map_xyz, None);
    assert_eq!(p.provenance.chain[0].arc_id, "UNRESOLVED");
    assert_eq!(
        p.provenance.chain[0].version,
        "no pose at or before time (new generation edge?)",
    );
}

#[test]
fn revisions_touch_their_own_window_only() {
    let mut db = basic();
    build(&mut db);
    let kept = db.blocks[0].signature.clone();
    let e = edge("lidar/u1", "body/u1", Some(ns(100.5)), Some(ns(101.0)));
    assert_eq!(put(&mut db, &e, &facts(), 2).unwrap(), (2, 2));
    assert_eq!(db.edges[1].supersedes, Some(1));
    assert_eq!(db.blocks.len(), 2);
    let report = build(&mut db);
    assert_eq!((report.blocks_complete, report.blocks_skipped), (1, 2));
    assert_eq!(db.blocks[0].signature, kept);
    assert!(db.blocks[2].signature.contains("e2v2@100.500-101.000;"));
    assert_eq!(invalidate_for_window(&mut db, None, Some(ns(100.5))), 1);
    assert_eq!(invalidate_for_window(&mut db, None, None), 2);
    assert_eq!(db.points.len(), 0);
}

#[test]
fn edges_are_checked() {
    let mut db = Ledger::new();
    let mut short = edge("a", "b", None, None);
    short.covariance = vec![s(1.0); 5];
    let e = put(&mut db, &short, &facts(), 1).unwrap_err();
    assert_eq!(
        e.text(),
        "singular_covariance: covariance must contain 6 (diagonal) or 36 entries",
    );
    let mut flat = facts();
    flat.positive_definite = false;
    let e = put(&mut db, &edge("a", "b", None, None), &flat, 1).unwrap_err();
    assert_eq!(e.text(), "singular_covariance: edge covariance is not positive definite");
    let e = put(&mut db, &edge("a", "b", Some(2), Some(2)), &facts(), 1).unwrap_err();
    assert_eq!(e.text(), "bad_window: valid_from must be smaller than valid_to");
    assert_eq!(db.edges.len(), 0);
    let mut full = edge("a", "b", None, None);
    full.covariance = vec![s(2.0); 36];
    full.origin = Some("survey".to_string());
    put(&mut db, &full, &facts(), 1).unwrap();
    assert_eq!(db.edges[0].cov, vec![s(2.0); 36]);
    assert_eq!(db.edges[0].origin, "survey");
    put(&mut db, &edge("b", "c", None, None), &facts(), 9).unwrap();
    assert_eq!(db.edges[1].cov[0], s(1e-4));
    assert_eq!(db.edges[1].cov[1], s(0.0));
    assert_eq!(db.edges[1].origin, "manual");
    assert_eq!(db.edges[1].created_at, 9);
    let e = put(&mut db, &edge("c", "a", None, None), &facts(), 1).unwrap_err();
    assert_eq!(
        e.text(),
        "cycle_detected: edge closes a frame loop: a -> b -> c -> a; \
         residual 1.5000 m, 0.00000 rad; covariance trace 1.800e-3",
    );
    assert_eq!(db.edges.len(), 2);
}

#[test]
fn nonsymmetric_covariance_is_rejected() {
    let mut db = Ledger::new();
    let mut asym = edge("a", "b", None, None);
    asym.translation = [s(0.0); 3];
    asym.quat = Some([s(1.0), s(0.0), s(0.0), s(0.0)]);
    let mut bad = vec![s(0.0); 36];
    for i in 0..6 {
        bad[i * 6 + i] = s(0.01);
    }
    bad[1] = s(0.005);
    asym.covariance = bad;
    let err = put(&mut db, &asym, &facts(), 1).unwrap_err();
    assert!(err.text().contains("not symmetric"), "got: {}", err.text());
    assert_eq!(db.edges.len(), 0);
    asym.covariance[6] = s(0.005);
    put(&mut db, &asym, &facts(), 1).unwrap();
    asym.covariance[6] = s(0.005 + 9e-8);
    put(&mut db, &asym, &facts(), 1).expect("what rounding leaves is let pass");
    asym.covariance[6] = s(0.005 + 2e-7);
    assert!(put(&mut db, &asym, &facts(), 1).is_err());
    asym.covariance[1] = s(1e12);
    asym.covariance[6] = s(1e12 + 1e3);
    put(&mut db, &asym, &facts(), 1).expect("large entries are held against their size");
    asym.covariance[6] = s(-1e12);
    assert!(put(&mut db, &asym, &facts(), 1).is_err());
    asym.covariance[6] = s(f64::NAN);
    let mut flat = facts();
    flat.positive_definite = false;
    let err = put(&mut db, &asym, &flat, 1).unwrap_err();
    assert!(err.text().contains("not positive definite"));
}

fn shift(from: &str, to: &str, tx: f64) -> EdgeInput {
    let mut e = edge(from, to, None, None);
    e.translation = [s(tx), s(0.0), s(0.0)];
    e
}

#[test]
fn closing_edge_is_rejected_with_loop_and_residual() {
    let mut db = Ledger::new();
    put(&mut db, &shift("a", "b", 1.0), &facts(), 1).unwrap();
    put(&mut db, &shift("b", "c", 1.0), &facts(), 1).unwrap();
    let closing = shift("c", "a", -1.99);
    let back = loop_of(&db, &closing).expect("the edge closes a loop");
    assert_eq!(back.iter().map(|h| h.edge_id).collect::<Vec<_>>(), vec![1, 2]);
    let err = put(&mut db, &closing, &facts(), 1).unwrap_err();
    assert!(err.text().contains("closes a frame loop"));
    assert!(err.text().contains("a -> b -> c -> a"));
    assert!(err.text().contains("residual 0.0100 m"), "got: {}", err.text());
    assert_eq!(db.edges.len(), 2);
}

#[test]
fn consistent_loop_has_near_zero_residual() {
    let mut db = Ledger::new();
    put(&mut db, &shift("a", "b", 1.0), &facts(), 1).unwrap();
    put(&mut db, &shift("b", "c", 1.0), &facts(), 1).unwrap();
    let closing = shift("c", "a", -2.0);
    assert!(f(around(&db, &closing).residual.trans) < 1e-9);
    let err = put(&mut db, &closing, &facts(), 1).unwrap_err();
    assert!(err.text().contains("residual 0.0000 m, 0.00000 rad"), "got: {}", err.text());
}

#[test]
fn non_closing_edge_is_accepted() {
    let mut db = Ledger::new();
    put(&mut db, &shift("a", "b", 1.0), &facts(), 1).unwrap();
    put(&mut db, &shift("b", "c", 1.0), &facts(), 1).unwrap();
    assert!(loop_of(&db, &shift("c", "d", 0.5)).is_none());
    assert!(put(&mut db, &shift("c", "d", 0.5), &facts(), 1).is_ok());
}

#[test]
fn revisions_of_other_edges_drop_nothing() {
    let mut db = basic();
    build(&mut db);
    let before = (db.blocks.len(), db.points.len());
    put(&mut db, &edge("camera/u1", "body/u1", None, None), &facts(), 2).unwrap();
    assert_eq!((db.blocks.len(), db.points.len()), before);
    assert_eq!(invalidate_for_edge(&mut db, "camera/u1", "body/u1", None, None), 0);
    put(&mut db, &edge("lidar/u1", "body/u1", Some(ns(100.6)), None), &facts(), 3).unwrap();
    assert_eq!(db.blocks.len(), 1, "the block before the new version stays");
    assert!(db.points.iter().all(|p| p.block_id == db.blocks[0].id));
    assert_eq!(invalidate_for_edge(&mut db, "lidar/u1", "body/u1", None, None), 1);
    assert_eq!((db.blocks.len(), db.points.len()), (0, 0));
}

#[test]
fn a_second_build_counts_as_the_first() {
    let mut db = basic();
    let first = build(&mut db);
    assert_eq!((first.blocks_complete, first.points_aligned, first.points_unaligned), (3, 5, 0));
    let second = build(&mut db);
    assert_eq!((second.blocks_complete, second.blocks_rebuilt), (0, 0));
    assert_eq!(second.blocks_skipped, first.blocks_complete + first.blocks_skipped);
    assert_eq!(second.points_aligned, first.points_aligned);
    assert_eq!(second.points_unaligned, first.points_unaligned);
}

#[test]
fn further_poses_change_signatures() {
    let sign = |more: Vec<PacketInput>| {
        let db = basic_and(more);
        assert_eq!(db.generations.len(), 1);
        block_signature(&db, list_windows(&db)[2])
    };
    let near = || pose("u1", 13, 101.6);
    assert_ne!(sign(vec![near()]), sign(vec![]), "a pose after the window brackets its end");
    assert_eq!(
        sign(vec![near(), pose("u1", 14, 101.9)]),
        sign(vec![near()]),
        "a pose beyond the gap brackets nothing in it",
    );
}

#[test]
fn packets_tell_their_rotation_and_covariance() {
    let mut p = packet("gnss", "u1", 0, 1.0);
    assert!(matches!(p.rotation(), Rotation::Identity));
    p.roll = Some(s(0.1));
    p.pitch = Some(s(0.2));
    assert!(matches!(p.rotation(), Rotation::Identity), "one angle is missing");
    p.yaw = Some(s(0.3));
    assert!(matches!(p.rotation(), Rotation::Euler(r) if r == [s(0.1), s(0.2), s(0.3)]));
    p.quat = Some([s(1.0), s(0.0), s(0.0), s(0.0)]);
    assert!(matches!(p.rotation(), Rotation::Quaternion(q) if q[0] == s(1.0)));
    let assumed = match p.covariance() {
        PoseCovariance::Assumed(c) => c,
        PoseCovariance::Given(_) => panic!("none is given"),
    };
    assert_eq!((assumed.len(), assumed[0], assumed[14]), (36, s(1e-4), s(1e-4)));
    assert_eq!((assumed[21], assumed[35], assumed[1]), (s(1e-6), s(1e-6), s(0.0)));
    p.cov = Some(vec![s(2.0); 6]);
    assert!(matches!(p.covariance(), PoseCovariance::Given(c) if c == vec![s(2.0); 6]));
}

#[test]
fn rotations_come_from_the_quaternion_first() {
    let mut e = edge("a", "b", None, None);
    assert!(matches!(e.rotation(), Rotation::Identity));
    e.euler_rpy = Some([s(0.1), s(0.2), s(0.3)]);
    assert!(matches!(e.rotation(), Rotation::Euler(r) if r[2] == s(0.3)));
    e.quat = Some([s(1.0), s(0.0), s(0.0), s(0.0)]);
    assert!(matches!(e.rotation(), Rotation::Quaternion(q) if q[0] == s(1.0)));
}

#[test]
fn state_shows_rows_gaps_and_routes() {
    let mut db = basic();
    let mut later = pose("u1", 100, 110.0);
    later.boot_id = Some(1);
    let mut other = pose("u2", 0, 99.0);
    other.boot_id = Some(1);
    import(&mut db, vec![later, pose("u1", 101, 110.5), other]);
    build(&mut db);
    let v = state_view(&db);
    assert_eq!(v.generations.len(), db.generations.len());
    assert_eq!(v.generations[0].packet_count, 16);
    assert_eq!(v.edges[0].origin, "manual");
    assert_eq!(v.poses.len(), db.poses.len());
    assert!(v
        .poses
        .windows(2)
        .all(|w| (w[0].generation_id, w[0].t) <= (w[1].generation_id, w[1].t)));
    assert!(v.points.windows(2).all(|w| (w[0].t, w[0].id) <= (w[1].t, w[1].id)));
    assert_eq!(v.blocks[0].status, "complete");
    assert_eq!(v.points[0].x, Some(s(10.0)));
    assert_eq!(v.points[0].color_group, v.points[0].generation_id);
    assert_eq!(v.routes.len(), 1);
    assert_eq!(v.routes[0].sensor, "lidar/u1");
    assert_eq!(v.routes[0].selected, vec!["lidar/u1", "body/u1", "map"]);
    assert_eq!(v.routes[0].cost, s(2.0));
    assert_eq!(v.routes[0].candidates.len(), 1);
    let gaps = compute_gaps(&db);
    assert!(gaps.iter().any(|g| g.kind == "pose_gap" && g.seconds == ns(0.5)));
    assert!(gaps.iter().any(|g| g.kind == "generation_boundary"));
    assert!(gaps.windows(2).all(|w| w[0].from_t <= w[1].from_t));
}

#[test]
fn provenance_is_found_by_point() {
    let mut db = basic();
    build(&mut db);
    let p = point_provenance(&db, 5).unwrap();
    assert_eq!(p.point.raw_seq, 2);
    assert_eq!(p.point.units, "m");
    assert_eq!(p.point.device_id, "u1");
    assert_eq!(
        point_provenance(&db, 99).unwrap_err().text(),
        "not_found: derived point 99",
    );
}

#[test]
fn frames_keep_the_kind_they_had() {
    let mut db = Ledger::new();
    ensure_frames(&mut db, &vec![("map", "world"), ("body", "rigid")]);
    ensure_frames(&mut db, &vec![("map", "other"), ("lidar", "sensor")]);
    let kinds: Vec<(&str, &str)> =
        db.frames.iter().map(|f| (f.name.as_str(), f.kind.as_str())).collect();
    assert_eq!(kinds, vec![("map", "world"), ("body", "rigid"), ("lidar", "sensor")]);
}

#[test]
fn tables_that_do_not_fit_together_are_told() {
    let mut db = basic();
    build(&mut db);
    assert!(db.is_wf());
    let mut twice = db.clone();
    let first = twice.blocks[0].clone();
    twice.blocks.push(first);
    assert!(!twice.is_wf());
    let mut adrift = db.clone();
    adrift.points[0].block_id = 99;
    assert!(!adrift.is_wf());
    let mut shared = db.clone();
    shared.poses[1].packet_id = shared.poses[0].packet_id;
    assert!(!shared.is_wf(), "two poses of one packet");
    let mut strange = db.clone();
    let last = strange.poses.len() - 1;
    strange.poses[last].packet_id = 99;
    assert!(!strange.is_wf(), "a pose of no packet");
    let mut named = db.clone();
    ensure_frames(&mut named, &vec![("map", "world")]);
    assert!(named.is_wf());
    let again = named.frames[0].clone();
    named.frames.push(again);
    assert!(!named.is_wf());
    db.packets[3].generation_id = 9;
    assert!(!db.is_wf());
}

#[test]
fn times_out_of_range_are_told() {
    let mut p = packet("lidar", "u1", 0, 100.0);
    assert!(time_ok(&p));
    p.timestamp = None;
    assert!(time_ok(&p));
    p.timestamp = Some(Nanos::MAX);
    assert!(!time_ok(&p));
    p.timestamp = Some(0);
    p.week = Some(i64::MAX);
    assert!(!time_ok(&p));
}

#[test]
fn room_ends_with_the_ids() {
    let mut db = basic();
    build(&mut db);
    assert!(room_for(&db, 3, 5));
    assert!(!room_for(&db, -1, 5));
    let last = db.blocks.len() - 1;
    db.blocks[last].id = i64::MAX - 3;
    assert!(room_for(&db, 2, 5));
    assert!(!room_for(&db, 3, 5));
}
