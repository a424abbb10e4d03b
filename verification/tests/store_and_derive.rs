//! The packet store, its epochs, and deriving blocks from it.

use pointcloud_meridian::db::BlockStatus;
use pointcloud_meridian::derive::{
    compute_missing, edge_at, interp_pose, plan_one, pose_samples, DeriveStats, Frames, Measured,
    PoseSample, MAX_POSE_INTERVAL,
};
use pointcloud_meridian::graph::{check_cycle, Hop, LoopMeasure, Residual};
use pointcloud_meridian::scalar::Scalar;
use pointcloud_meridian::store::{
    unit_to_meters, Block, Chain, Pose, Store, StoreError,
};
use pointcloud_meridian::time::{Nanos, SECOND, WEEK};

const EPS: f64 = 1e-9;

fn s(x: f64) -> Scalar {
    Scalar { bits: x.to_bits() }
}

fn f(x: Scalar) -> f64 {
    f64::from_bits(x.bits)
}

fn ns(seconds: f64) -> Nanos {
    (seconds * 1e9).round() as Nanos
}

fn shifted(x: f64) -> Pose {
    Pose { rot: [s(1.0), s(0.0), s(0.0), s(0.0)], trans: [s(x), s(0.0), s(0.0)] }
}

fn frames() -> Frames {
    Frames { sensor: "lidar".to_string(), body: "body".to_string(), map: "map".to_string() }
}

/// Poses are held as their x coordinate, points as a list of x coordinates.
fn poses_of(store: &Store) -> Vec<Option<Pose>> {
    store.packets.iter().map(|p| p.payload.parse::<f64>().ok().map(shifted)).collect()
}

/// The points of every packet that can be placed, moved by the pose and the calibration.
fn measure(store: &Store) -> Vec<Measured> {
    let samples = pose_samples(&store.packets, &poses_of(store));
    store
        .packets
        .iter()
        .map(|p| match plan_one(p, &samples, &store.transforms, &frames()) {
            Err(_) => Measured { points: Ok(vec![]), cov_trace: s(0.0) },
            Ok(plan) => {
                let b = &plan.between;
                let (x0, x1) =
                    (f(samples[b.before].pose.trans[0]), f(samples[b.after].pose.trans[0]));
                let along = if b.gap == 0 { 0.0 } else { b.ahead as f64 / b.gap as f64 };
                let shift = x0 + (x1 - x0) * along
                    + f(store.transforms[plan.calibration].trans[0]);
                let x = p.payload.trim_start_matches("points ").parse::<f64>().unwrap();
                let point = [s(x / plan.per_metre as f64 + shift), s(0.0), s(0.0)];
                Measured { points: Ok(vec![point]), cov_trace: s(0.006) }
            }
        })
        .collect()
}

fn compute(store: &mut Store) -> DeriveStats {
    let (poses, measured) = (poses_of(store), measure(store));
    compute_missing(store, &poses, &frames(), &measured)
}

fn from_diag(d: [f64; 6]) -> [Scalar; 36] {
    let mut m = [s(0.0); 36];
    for (i, x) in d.iter().enumerate() {
        m[7 * i] = s(*x);
    }
    m
}

/// Whether a covariance that has entries on its diagonal alone is positive semidefinite.
fn is_psd(m: &[Scalar; 36]) -> bool {
    (0..6).all(|i| f(m[7 * i]) >= -1e-12)
}

fn add_calibration(store: &mut Store, x: f64, from: Option<Nanos>, to: Option<Nanos>) -> i64 {
    store.add_transform("lidar", "body", shifted(x), from_diag([0.001; 6]), true, from, to).unwrap()
}

fn seeded_store() -> Store {
    let mut st = Store::new();
    st.ingest("imu", "pose", 1, 0, "body", "rad", "姿态 t=0", "0.0").unwrap();
    st.ingest("imu", "pose", 2, ns(0.1), "body", "rad", "姿态 t=0.1", "1.0").unwrap();
    st.ingest("lidar", "lidar", 1, ns(0.05), "lidar", "m", "100 点扫描", "points 1.0").unwrap();
    add_calibration(&mut st, 0.5, None, None);
    st
}

#[test]
fn time_wraparound_week_rollover_single_epoch() {
    let mut st = Store::new();
    let a = st.ingest("d", "pose", 1, WEEK - SECOND, "body", "rad", "a", "{}").unwrap();
    let b = st.ingest("d", "pose", 2, SECOND, "body", "rad", "b", "{}").unwrap();
    assert_eq!(a.epoch, b.epoch, "GPS 周翻转不应划代");
    assert!(((b.t - a.t) as f64 / 1e9 - 2.0).abs() < EPS);
}

#[test]
fn duplicate_seq_after_restart_splits_epoch() {
    let mut st = Store::new();
    st.ingest("d", "pose", 5, 10 * SECOND, "body", "rad", "x", "{}").unwrap();
    let dup =
        st.ingest("d", "pose", 5, 10 * SECOND, "body", "rad", "重启后重复序号", "{}").unwrap();
    assert_eq!(dup.epoch, 1);
}

#[test]
fn singular_covariance_accepted_indefinite_rejected() {
    let mut st = Store::new();
    let singular = from_diag([0.0, 0.0, 0.0, 1.0, 1.0, 1.0]);
    let indefinite = from_diag([0.0, -0.5, 0.0, 1.0, 1.0, 1.0]);
    assert!(st
        .add_transform("a", "b", shifted(0.0), singular, is_psd(&singular), None, None)
        .is_ok());
    assert_eq!(st.transforms[0].cov, singular);
    assert!(st
        .add_transform("b", "c", shifted(0.0), indefinite, is_psd(&indefinite), None, None)
        .is_err());
}

#[test]
fn unknown_unit_rejected_mm_converted() {
    let mut st = Store::new();
    assert!(st.ingest("d", "lidar", 1, 0, "lidar", "furlong", "坏单位", "{}").is_err());
    let mut s2 = seeded_store();
    s2.ingest("lidar", "lidar", 2, ns(0.05), "lidar", "mm", "毫米包", "points 1000.0").unwrap();
    let stats = compute(&mut s2);
    assert_eq!(stats.failed, 0);
    let blocks = s2.blocks();
    let mm_block = blocks.iter().find(|b| b.packet_id == 4).expect("mm 包应有块");
    let x = f(mm_block.points[0][0]);
    assert!((x - 2.0).abs() < 1e-6, "x={}", x);
}

#[test]
fn derived_point_matches_manual_chain_with_tolerance() {
    let mut st = seeded_store();
    let stats = compute(&mut st);
    assert_eq!(stats.computed, 1);
    let b = st.blocks()[0];
    assert!((f(b.points[0][0]) - 2.0).abs() < EPS);
    assert!(f(b.points[0][1]).abs() < EPS && f(b.points[0][2]).abs() < EPS);
    let hops = &b.chain.hops;
    assert_eq!(hops[0].edge, "lidar->body");
    assert_eq!(hops[0].version, Some(1));
    assert_eq!(hops[1].source.as_deref(), Some("gnss-pose-interp"));
}

#[test]
fn interp_never_crosses_epoch_or_large_gap() {
    let sample = |epoch: u32, t: f64| PoseSample { epoch, t: ns(t), pose: shifted(0.0) };
    let poses = vec![sample(0, 0.0), sample(0, 0.1), sample(1, 10.0), sample(1, 10.1)];
    assert!(interp_pose(&poses, 0, ns(0.05)).is_some());
    assert!(interp_pose(&poses, 0, ns(10.05)).is_none(), "不得跨代次插值");
    assert!(interp_pose(&poses, 0, ns(5.0)).is_none(), "超出代次范围不外推");
    let sparse = vec![
        sample(0, 0.0),
        PoseSample { epoch: 0, t: MAX_POSE_INTERVAL + SECOND, pose: shifted(0.0) },
    ];
    assert!(interp_pose(&sparse, 0, ns(0.3)).is_none(), "间隔超限不得插值");
}

#[test]
fn calibration_revision_invalidates_only_covered_window() {
    let mut st = seeded_store();
    st.ingest("lidar", "lidar", 2, ns(0.08), "lidar", "m", "第二包", "points 2.0").unwrap();
    compute(&mut st);
    assert_eq!(st.blocks().len(), 2);
    add_calibration(&mut st, 0.6, Some(ns(0.07)), Some(ns(0.09)));
    let n = st.invalidate_blocks("lidar", "body", Some(ns(0.07)), Some(ns(0.09)));
    assert_eq!(n, 1, "只有覆盖时间段内的块失效");
    assert_eq!(st.blocks().len(), 1);
    assert!((st.blocks()[0].t as f64 / 1e9 - 0.05).abs() < EPS, "窗口外的块保留");
    let stats = compute(&mut st);
    assert_eq!(stats.computed, 1);
    assert_eq!(stats.skipped_complete, 1);
    let blocks = st.blocks();
    let b2 = blocks.iter().find(|b| (b.t as f64 / 1e9 - 0.08).abs() < EPS).unwrap();
    let x = f(b2.points[0][0]);
    assert!((x - 3.4).abs() < EPS, "x={}", x);
    assert_eq!(b2.chain.hops[0].version, Some(2));
}

#[test]
fn crash_recovery_drops_half_blocks_and_resumes() {
    let mut st = seeded_store();
    compute(&mut st);
    assert_eq!(st.blocks().len(), 1);
    let half = Block {
        id: st.last_block_id + 1,
        packet_id: 999,
        status: BlockStatus::Pending,
        chain: Chain {
            packet_id: 999,
            epoch: 0,
            t: ns(0.05),
            hops: vec![],
            cov_trace_map: s(0.0),
        },
        points: vec![],
        t: ns(0.05),
    };
    st.last_block_id += 1;
    st.blocks.push(half);
    let cleaned = st.recover();
    assert_eq!(cleaned, 1, "pending 半块必须清除");
    assert_eq!(st.blocks().len(), 1, "完整块不受影响");
    let stats = compute(&mut st);
    assert_eq!(stats.computed, 0);
    assert_eq!(stats.skipped_complete, 1);
}

fn link(from: &str, to: &str) -> Hop {
    Hop {
        edge_id: 1,
        version: 1,
        from: from.to_string(),
        to: to.to_string(),
        reversed: false,
        precision: s(0.06),
    }
}

/// What is measured along a loop of shifts along one axis.
fn around(shifts: &[f64]) -> LoopMeasure {
    let trans = shifts.iter().sum::<f64>().abs();
    let trace = 0.06 * shifts.len() as f64;
    LoopMeasure {
        residual: Residual {
            trans: s(trans),
            rot: s(0.0),
            trans_text: format!("{trans:.4}"),
            rot_text: "0.00000".to_string(),
        },
        trace: s(trace),
        trace_text: format!("{trace:.3e}"),
    }
}

#[test]
fn cycle_rejected_via_store_graph_rule() {
    let links = vec![link("sensor", "body"), link("body", "map")];
    let err = check_cycle(&links, "map", "sensor", &around(&[0.0; 3])).unwrap_err();
    assert_eq!(err.cycle, vec!["sensor", "body", "map", "sensor"]);
    assert!(f(err.residual_trans).abs() < EPS, "恒等环残差应为 0");
    assert!(f(err.residual_rot).abs() < EPS, "恒等环残差应为 0");
    assert_eq!(err.edge_ids, vec![1, 1]);
    let wide = check_cycle(&links, "map", "sensor", &around(&[0.5, 0.25, 0.0])).unwrap_err();
    assert_eq!(f(wide.residual_trans), 0.75);
    assert_eq!(wide.covariance_trace, s(0.06 * 3.0));
    assert!(check_cycle(&links, "sensor", "map", &around(&[])).is_ok());
    let own = check_cycle(&links, "x", "x", &around(&[0.0])).unwrap_err();
    assert_eq!(own.cycle, vec!["x", "x"]);
}

#[test]
fn store_errors_read_as_words() {
    let mut st = Store::new();
    let e = st.ingest("d", "radar", 1, 0, "l", "m", "", "").unwrap_err();
    assert_eq!(e.text(), "输入错误: 未知包类型 'radar'");
    let e = st.ingest("d", "radar", 1, 0, "l", "furlong", "", "").unwrap_err();
    assert_eq!(e.text(), "未知单位 'furlong'，支持: m, cm, mm, deg, rad");
    assert_eq!(unit_to_meters("cm").unwrap(), (1, 100));
    assert!(matches!(unit_to_meters("deg"), Err(StoreError::BadUnit(u)) if u == "deg"));
    let empty = st.add_transform("a", "b", shifted(0.0), from_diag([1.0; 6]), true, Some(2), Some(2));
    assert_eq!(empty.unwrap_err().text(), "输入错误: 有效时间区间为空");
    let indefinite = st.add_transform("a", "b", shifted(0.0), from_diag([-1.0; 6]), false, None, None);
    assert_eq!(indefinite.unwrap_err().text(), "输入错误: 协方差矩阵非半正定");
}

#[test]
fn packets_that_cannot_be_placed_tell_why() {
    let mut st = seeded_store();
    st.ingest("lidar", "lidar", 2, ns(9.0), "lidar", "m", "", "points 1.0").unwrap();
    st.ingest("lidar", "lidar", 3, ns(9.1), "lidar", "deg", "", "points 1.0").unwrap();
    let samples = pose_samples(&st.packets, &poses_of(&st));
    let late = plan_one(&st.packets[3], &samples, &st.transforms, &frames()).unwrap_err();
    assert_eq!(late.text(), "输入错误: 包 4 无可用姿态（跨代次或间隔超限）");
    let unit = plan_one(&st.packets[4], &samples, &st.transforms, &frames()).unwrap_err();
    assert!(matches!(unit, StoreError::BadUnit(_)));
    let bare = plan_one(&st.packets[2], &samples, &vec![], &frames()).unwrap_err();
    assert_eq!(bare.text(), "输入错误: 包 3 时刻无有效标定 lidar->body");
    let stats = compute(&mut st);
    assert_eq!((stats.computed, stats.skipped_complete, stats.failed), (1, 0, 2));
    let again = compute(&mut st);
    assert_eq!((again.computed, again.skipped_complete, again.failed), (0, 1, 2));
    let mut broken = seeded_store();
    let (poses, mut measured) = (poses_of(&broken), measure(&broken));
    measured[2].points = Err("no points".to_string());
    let stats = compute_missing(&mut broken, &poses, &frames(), &measured);
    assert_eq!(stats.failed, 1);
}

#[test]
fn newest_valid_version_is_chosen() {
    let mut st = Store::new();
    add_calibration(&mut st, 0.0, None, None);
    add_calibration(&mut st, 0.0, Some(10), Some(20));
    assert_eq!(edge_at(&st.transforms, "lidar", "body", 9), Some(0));
    assert_eq!(edge_at(&st.transforms, "lidar", "body", 10), Some(1));
    assert_eq!(edge_at(&st.transforms, "lidar", "body", 20), Some(0));
    assert_eq!(edge_at(&st.transforms, "body", "lidar", 10), None);
    st.add_transform("a", "z", shifted(0.0), from_diag([1.0; 6]), true, None, None).unwrap();
    let listed: Vec<(String, i64)> =
        st.transforms().iter().map(|t| (t.src.clone(), t.version)).collect();
    assert_eq!(
        listed,
        vec![("a".to_string(), 1), ("lidar".to_string(), 1), ("lidar".to_string(), 2)],
    );
}

#[test]
fn blocks_are_listed_and_found() {
    let mut st = seeded_store();
    st.ingest("lidar", "lidar", 2, ns(0.08), "lidar", "m", "", "points 2.0").unwrap();
    compute(&mut st);
    assert_eq!(st.invalidate_blocks("lidar", "body", None, Some(ns(0.05))), 1);
    assert_eq!(st.invalidate_blocks("body", "lidar", None, None), 0);
    compute(&mut st);
    assert_eq!(st.complete_block_packet_ids(), vec![3, 4]);
    let listed: Vec<(i64, i64)> = st.blocks().iter().map(|b| (b.id, b.packet_id)).collect();
    assert_eq!(listed, vec![(3, 3), (2, 4)]);
    assert_eq!(st.block_by_id(2).unwrap().packet_id, 4);
    assert!(st.block_by_id(1).is_none());
    assert!(st.has_block(3) && !st.has_block(1));
    assert_eq!(st.packets(Some("pose")).len(), 2);
    assert_eq!(st.packets(None).len(), 4);
}

#[test]
fn samples_may_come_in_any_order() {
    let sample = |t: f64| PoseSample { epoch: 0, t: ns(t), pose: shifted(0.0) };
    let poses = vec![sample(0.1), sample(0.2), sample(0.0)];
    let b = interp_pose(&poses, 0, ns(0.05)).unwrap();
    assert_eq!((b.before, b.after, b.ahead, b.gap), (2, 0, ns(0.05), ns(0.1)));
    let late = interp_pose(&poses, 0, ns(0.15)).unwrap();
    assert_eq!((late.before, late.after), (0, 1));
    assert!(interp_pose(&poses, 0, ns(0.25)).is_none());
}

#[test]
fn every_scan_is_counted_once() {
    let mut st = seeded_store();
    st.ingest("lidar", "lidar", 2, ns(0.08), "lidar", "m", "", "points 2.0").unwrap();
    st.ingest("lidar", "lidar", 3, ns(9.0), "lidar", "m", "", "points 1.0").unwrap();
    let scans = st.packets.iter().filter(|p| p.kind == "lidar").count();
    let first = compute(&mut st);
    assert_eq!(first.computed + first.skipped_complete + first.failed, scans);
    assert_eq!((first.computed, first.failed), (2, 1));
    let second = compute(&mut st);
    assert_eq!(second.computed, 0);
    assert_eq!(second.skipped_complete, first.computed + first.skipped_complete);
    assert_eq!(second.failed, first.failed);
}

const BASE: f64 = 1_798_848_000.0;
const TOL_M: f64 = 1e-6;

fn at(offset: f64) -> Nanos {
    ns(BASE) + ns(offset)
}

/// Six poses, a twentieth of a second and a tenth of a metre apart, and three scans.
fn basic_stream(dev: &str) -> Store {
    let mut st = Store::new();
    let (imu, scanner) = (format!("{dev}:imu"), format!("{dev}:lidar"));
    for i in 0..6 {
        let x = format!("{}", i as f64 * 0.1);
        st.ingest(&imu, "pose", i, at(i as f64 * 0.05), "body", "rad", "", &x).unwrap();
    }
    for i in 0..3 {
        let t = at(i as f64 * 0.1);
        st.ingest(&scanner, "lidar", i, t, "lidar", "m", "", "points 1.0").unwrap();
    }
    calibrate(&mut st, 0.0, 5e-4, 0);
    st
}

fn calibrate(st: &mut Store, x: f64, noise: f64, from: Nanos) -> i64 {
    let until = Some(ns(4e9));
    st.add_transform("lidar", "body", shifted(x), from_diag([noise; 6]), true, Some(from), until)
        .unwrap()
}

fn ready(st: &Store) -> usize {
    st.blocks().iter().filter(|b| b.status == BlockStatus::Complete).count()
}

#[test]
fn calibration_revision_locally_invalidates_only_covered_blocks() {
    let mut st = basic_stream("REV");
    assert_eq!(compute(&mut st).computed, 3);
    assert_eq!(ready(&st), 3);

    let version = calibrate(&mut st, 0.5, 2e-3, at(0.15));
    assert_eq!(version, 2);
    let n = st.invalidate_blocks("lidar", "body", Some(at(0.15)), Some(ns(4e9)));
    assert_eq!(n, 1);
    assert_eq!(ready(&st), 2);

    assert_eq!(compute(&mut st).computed, 1);
    let x_of = |st: &Store, seq: u64| {
        let p = st.packets.iter().find(|p| p.kind == "lidar" && p.seq == seq).unwrap();
        f(st.blocks().iter().find(|b| b.packet_id == p.id).unwrap().points[0][0])
    };
    assert!((x_of(&st, 2) - 1.9).abs() < TOL_M, "got {}", x_of(&st, 2));
    assert!((x_of(&st, 0) - 1.0).abs() < TOL_M, "旧时间段块不应改变");

    let versions: Vec<i64> = st.transforms().iter().map(|t| t.version).collect();
    assert_eq!(versions, vec![1, 2]);
    assert_eq!(edge_at(&st.transforms, "lidar", "body", at(0.2)), Some(1));
    assert_eq!(edge_at(&st.transforms, "lidar", "body", at(0.1)), Some(0));
}

#[test]
fn crash_recovery_drops_half_block_and_resumes_from_ready() {
    let mut st = basic_stream("CRASH");
    assert_eq!(compute(&mut st).computed, 3);

    st.blocks[0].status = BlockStatus::Pending;
    assert_eq!(st.blocks.len() - ready(&st), 1);
    assert_eq!(ready(&st), 2);

    assert_eq!(st.recover(), 1);
    assert_eq!(compute(&mut st).computed, 1);
    assert_eq!(st.blocks.len() - ready(&st), 0);
    assert_eq!(ready(&st), 3);
    assert_eq!(st.blocks.iter().map(|b| b.points.len()).sum::<usize>(), 3);
}

#[test]
fn interpolation_never_crosses_generation_or_exceeds_gap() {
    let mut st = Store::new();
    st.ingest("GAP:imu", "pose", 0, at(0.0), "body", "rad", "", "0.0").unwrap();
    st.ingest("GAP:imu", "pose", 1, at(0.5), "body", "rad", "", "1.0").unwrap();
    st.ingest("GAP:lidar", "lidar", 0, at(0.25), "lidar", "m", "", "points 1.0").unwrap();
    calibrate(&mut st, 0.0, 5e-4, 0);
    let why = |st: &Store| {
        let samples = pose_samples(&st.packets, &poses_of(st));
        let scan = st.packets.iter().find(|p| p.kind == "lidar").unwrap();
        plan_one(scan, &samples, &st.transforms, &frames()).unwrap_err().text()
    };
    assert_eq!(compute(&mut st).failed, 1);
    assert!(why(&st).contains("间隔超限"), "got {}", why(&st));

    st.ingest("GAP:imu", "pose", 0, at(10.0), "body", "rad", "", "2.0").unwrap();
    st.ingest("GAP:imu", "pose", 1, at(10.05), "body", "rad", "", "2.1").unwrap();
    assert_eq!(compute(&mut st).failed, 1);
    assert!(why(&st).contains("姿态"));
    assert_eq!(st.blocks().len(), 0);
}
