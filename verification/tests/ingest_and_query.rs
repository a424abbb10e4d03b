//! Ingesting packets into generations, and the queries over what was ingested.

use pointcloud_meridian::geo::{length_to_meters, CovarianceCheck};
use pointcloud_meridian::ingest::{
    content_summary, default_coord, default_unit, fnv1a64, Archive, Encoded, IncomingPacket,
    IncomingPose, IngestReport, Ingester, RawTime,
};
use pointcloud_meridian::query::{
    self, Derived, DerivedBlock, DerivedPoint, EdgeVersion, PointStep, Progress,
};
use pointcloud_meridian::scalar::Scalar;
use pointcloud_meridian::time::{gps_to_unix, unwrap_week, Nanos};

fn s(x: f64) -> Scalar {
    Scalar { bits: x.to_bits() }
}

fn ns(seconds: f64) -> Nanos {
    (seconds * 1e9).round() as Nanos
}

const BASE: Nanos = 1_798_848_000_000_000_000;
const DAY: Nanos = 86_400_000_000_000;

/// A label on 2027-01-02 or one of the days after it.
fn utc(offset: f64) -> RawTime {
    let total = BASE + ns(offset);
    let day = total.div_euclid(DAY) - BASE.div_euclid(DAY);
    let of_day = total.rem_euclid(DAY);
    RawTime::Utc {
        y: 2027,
        m: 1,
        d: (2 + day) as u32,
        h: (of_day / 3_600_000_000_000) as u32,
        min: (of_day / 60_000_000_000 % 60) as u32,
        sec: Some(of_day % 60_000_000_000),
    }
}

fn pose(dev: &str, seq: i64, sec: f64, x: f64, y: f64) -> IncomingPacket {
    IncomingPacket {
        device_id: dev.into(),
        kind: "pose".into(),
        seq,
        time: utc(sec),
        coord_system: "body".into(),
        unit: "m".into(),
        points: vec![],
        pose: Some(IncomingPose {
            q: [s(0.0), s(0.0), s(0.0), s(1.0)],
            t: [s(x), s(y), s(0.0)],
            cov: Some(serde_json::Value::from(vec![0.000001; 6])),
        }),
    }
}

fn lidar(dev: &str, seq: i64, sec: f64, unit: &str, pts: Vec<Vec<f64>>) -> IncomingPacket {
    IncomingPacket {
        device_id: dev.into(),
        kind: "lidar".into(),
        seq,
        time: utc(sec),
        coord_system: "sensor".into(),
        unit: unit.into(),
        points: pts.iter().map(|p| p.iter().map(|x| s(*x)).collect()).collect(),
        pose: None,
    }
}

/// What is told of a covariance with the same number all along its diagonal.
fn check(least: f64) -> CovarianceCheck {
    CovarianceCheck {
        symmetric: true,
        eigenvalues: vec![s(least); 6],
        least_text: format!("{:.3e}", least),
    }
}

fn encoded(p: &IncomingPacket) -> Encoded {
    let raw_time_json = match p.time {
        RawTime::GpsWeekTow { week, tow, week_bits } => format!(
            "{{\"kind\":\"gps_week_tow\",\"week\":{},\"tow\":{},\"week_bits\":{}}}",
            week,
            tow.unwrap_or(0),
            week_bits,
        ),
        RawTime::Utc { .. } => "{\"kind\":\"utc\"}".to_string(),
    };
    Encoded { raw_time_json, payload: format!("{:?}", p.points).into_bytes() }
}

fn put(ing: &mut Ingester, db: &mut Archive, p: IncomingPacket) -> Result<IngestReport, String> {
    let e = encoded(&p);
    ing.ingest(db, p, e, &check(1e-6))
}

fn nothing() -> Derived {
    Derived { blocks: vec![], points: vec![], steps: vec![], edges: vec![] }
}

#[test]
fn gps_week_rollover_does_not_split_generation() {
    let mut ing = Ingester::new();
    let mut d = Archive::new();
    let dev = "ROLL";
    for (i, (wk, tow, x)) in
        [(1023i64, 604_799.9_f64, 0.0_f64), (0, 0.1, 0.1), (0, 0.2, 0.2)].into_iter().enumerate()
    {
        let mut pk = pose(dev, i as i64, 0.0, x, 0.0);
        pk.time = RawTime::GpsWeekTow { week: wk, tow: Some(ns(tow)), week_bits: 10 };
        put(&mut ing, &mut d, pk).unwrap();
    }
    let mut frame = lidar(dev, 0, 0.0, "m", vec![vec![1.0, 0.0, 0.0]]);
    frame.time = RawTime::GpsWeekTow { week: 0, tow: Some(ns(0.15)), week_bits: 10 };
    let r = put(&mut ing, &mut d, frame).unwrap();
    assert_eq!(d.packets[1].unix_time - d.packets[0].unix_time, ns(0.2));
    assert_eq!(r.unix_time, gps_to_unix(1024, ns(0.15)));

    let gens = query::generations(&d);
    let pose_gens = gens.iter().filter(|g| g.device_id == dev && g.kind == "pose").count();
    assert_eq!(pose_gens, 1);

    let w = unwrap_week(0, Some(10), 1023);
    assert_eq!(w, 1024);
    assert!(gps_to_unix(w, ns(0.05)) > gps_to_unix(1023, ns(604_799.7)));
}

#[test]
fn reboot_repeated_seq_opens_new_generation_and_late_packets_merge() {
    let mut ing = Ingester::new();
    let mut d = Archive::new();
    let dev = "RB";
    put(&mut ing, &mut d, pose(dev, 10, 1.0, 0.0, 0.0)).unwrap();
    put(&mut ing, &mut d, pose(dev, 11, 1.05, 0.1, 0.0)).unwrap();
    let late = put(&mut ing, &mut d, pose(dev, 99, 1.02, 0.04, 0.0)).unwrap();
    assert!(late.is_late);
    assert!(!late.new_generation);
    let reboot = put(&mut ing, &mut d, pose(dev, 0, 0.5, 1.0, 0.0)).unwrap();
    assert!(reboot.new_generation, "重启后序号归零必须开新代次");
    assert_ne!(reboot.gen_id, late.gen_id);

    let gens = query::generations(&d);
    let pose_gens: Vec<_> =
        gens.iter().filter(|g| g.device_id == dev && g.kind == "pose").collect();
    assert_eq!(pose_gens.len(), 2);
    assert_eq!(pose_gens[0].packet_count, 3);
}

#[test]
fn duplicate_overlap_packets_are_flagged_and_excluded_from_blocks() {
    let mut ing = Ingester::new();
    let mut d = Archive::new();
    let dev = "DUP";
    let p1 = lidar(dev, 5, 0.0, "m", vec![vec![1.0, 0.0, 0.0]]);
    put(&mut ing, &mut d, p1).unwrap();
    let p2 = lidar(dev, 5, 0.0, "m", vec![vec![1.0, 0.0, 0.0]]);
    let r = put(&mut ing, &mut d, p2).unwrap();
    assert!(r.is_duplicate);
    let packets = query::packets(&d, &nothing(), Some("lidar"));
    let dups: Vec<_> = packets.iter().filter(|p| p.is_duplicate).collect();
    assert_eq!(dups.len(), 1);
    assert!(dups[0].duplicate_of.is_some());
}

#[test]
fn raw_packet_facts_are_preserved_verbatim() {
    let mut ing = Ingester::new();
    let mut d = Archive::new();
    let mut pk = pose("FACTS", 7, 0.0, 0.0, 0.0);
    pk.coord_system = "enu".into();
    pk.unit = "m".into();
    pk.time = RawTime::GpsWeekTow { week: 1023, tow: Some(ns(12.5)), week_bits: 10 };
    let r = put(&mut ing, &mut d, pk).unwrap();
    assert!(r.time_desc.starts_with("gps(w=1023,tow=12.500,10b)"));
    let packets = query::packets(&d, &nothing(), Some("pose"));
    let row = packets.iter().find(|p| p.id == r.packet_id).unwrap();
    assert_eq!(row.coord_system, "enu");
    assert_eq!(row.unit, "m");
    assert!(row.content_summary.contains("fnv1a64=0x"));
    let raw = &d.packets[(r.packet_id - 1) as usize].raw_time_json;
    assert!(raw.contains("GpsWeekTow") || raw.contains("gps_week_tow") || raw.contains("week"));
}

#[test]
fn summaries_hold_a_hash_of_the_payload() {
    assert_eq!(fnv1a64(&vec![]), 0xcbf2_9ce4_8422_2325);
    assert_eq!(fnv1a64(&b"a".to_vec()), 0xaf63_dc4c_8601_ec8c);
    assert_eq!(fnv1a64(&b"foobar".to_vec()), 0x8594_4171_f739_67e8);
    let summary = content_summary(3, &b"foobar".to_vec());
    assert!(summary.contains("85944171f73967e8"), "{}", summary);
    assert!(summary.contains('3'));
    assert_eq!(default_coord(), "sensor");
    assert_eq!(default_unit(), "m");
}

#[test]
fn refused_packets_leave_the_archive_as_it_is() {
    let mut ing = Ingester::new();
    let mut d = Archive::new();
    let mut singular = pose("BAD", 0, 0.0, 0.0, 0.0);
    singular.pose.as_mut().unwrap().cov = None;
    let e = encoded(&singular);
    let m = ing.ingest(&mut d, singular, e, &check(0.0)).unwrap_err();
    assert!(m.starts_with("协方差奇异或非正定"), "{}", m);
    let short = lidar("BAD", 0, 0.0, "m", vec![vec![1.0, 2.0]]);
    assert!(put(&mut ing, &mut d, short).is_err());
    let infinite = lidar("BAD", 0, 0.0, "m", vec![vec![1.0, f64::INFINITY, 2.0]]);
    assert!(put(&mut ing, &mut d, infinite).is_err());
    let mut odd = pose("BAD", 0, 0.0, f64::NAN, 0.0);
    assert_eq!(put(&mut ing, &mut d, odd.clone()).unwrap_err(), "姿态含非有限值");
    odd.pose.as_mut().unwrap().t[0] = s(0.0);
    odd.pose.as_mut().unwrap().cov = Some(serde_json::Value::from("none"));
    assert_eq!(put(&mut ing, &mut d, odd).unwrap_err(), "协方差必须是数组");
    assert_eq!(d.packets.len(), 0);
    assert_eq!(d.generations.len(), 0);
}

#[test]
fn gaps_are_told_within_a_generation_only() {
    let mut ing = Ingester::new();
    let mut d = Archive::new();
    for (seq, sec) in [(10, 0.0), (11, 0.1), (12, 1.0), (13, 1.1)] {
        put(&mut ing, &mut d, pose("G", seq, sec, 0.0, 0.0)).unwrap();
    }
    let r = put(&mut ing, &mut d, pose("G", 0, 9.0, 0.0, 0.0)).unwrap();
    assert!(r.new_generation);
    let gaps = query::gaps(&d, ns(0.5));
    assert_eq!(gaps.len(), 1);
    assert_eq!((gaps[0].from_packet, gaps[0].to_packet), (2, 3));
    assert_eq!(gaps[0].gap_sec, ns(0.9));
    assert_eq!(gaps[0].gen_id, 1);
    assert_eq!(gaps[0].device_id, "G");
    assert_eq!(query::gaps(&d, ns(2.0)).len(), 0);
}

#[test]
fn trajectories_leave_repeats_out() {
    let mut ing = Ingester::new();
    let mut d = Archive::new();
    put(&mut ing, &mut d, pose("B", 1, 0.2, 2.0, 0.0)).unwrap();
    put(&mut ing, &mut d, pose("A", 1, 0.3, 3.0, 0.0)).unwrap();
    put(&mut ing, &mut d, pose("B", 2, 0.4, 4.0, 0.0)).unwrap();
    put(&mut ing, &mut d, pose("B", 2, 0.4, 4.0, 0.0)).unwrap();
    let t = query::trajectory(&d);
    let xs: Vec<f64> = t.iter().map(|p| f64::from_bits(p.x.bits)).collect();
    assert_eq!(xs, vec![3.0, 2.0, 4.0]);
    assert_eq!(t[0].device_id, "A");
}

fn derived() -> Derived {
    let point = |id: i64, raw: i64, block: i64, x: f64| DerivedPoint {
        id,
        raw_point_id: raw,
        block_id: block,
        xyz: [s(x), s(0.0), s(0.0)],
        cov: [s(1.0); 3],
        path_score: s(0.5),
    };
    let step = |point: i64, step: i64, key: &str| PointStep {
        derived_point_id: point,
        step,
        edge_key: key.to_string(),
        edge_version: 1,
        edge_kind: "calib".to_string(),
        valid_from: None,
        valid_to: Some(5),
        cov_trace: s(2.0),
    };
    Derived {
        blocks: vec![
            DerivedBlock { id: 7, packet_id: 2, status: Progress::Ready, error: String::new() },
            DerivedBlock { id: 8, packet_id: 1, status: Progress::Ready, error: String::new() },
            DerivedBlock {
                id: 9,
                packet_id: 3,
                status: Progress::Error,
                error: "no pose".to_string(),
            },
        ],
        points: vec![point(1, 2, 7, 20.0), point(2, 1, 8, 10.0), point(3, 3, 9, 30.0)],
        steps: vec![step(1, 1, "second"), step(2, 0, "other"), step(1, 0, "first")],
        edges: vec![
            EdgeVersion { key: "e".to_string(), version: 1, active: false },
            EdgeVersion { key: "e".to_string(), version: 2, active: true },
        ],
    }
}

fn three_scans() -> Archive {
    let mut ing = Ingester::new();
    let mut d = Archive::new();
    for i in 0..3 {
        let p = lidar("L", i, i as f64 * 0.1, "mm", vec![vec![i as f64, 0.0, 0.0, 0.5]]);
        put(&mut ing, &mut d, p).unwrap();
    }
    d
}

#[test]
fn point_cloud_shows_ready_points_in_order_of_time() {
    let d = three_scans();
    let x = derived();
    let cloud = query::point_cloud(&d, &x, 100);
    assert_eq!(cloud.points.iter().map(|p| p.id).collect::<Vec<_>>(), vec![2, 1]);
    assert_eq!(cloud.points[1].raw[0], s(1.0));
    assert_eq!(cloud.points[1].raw_unit, "mm");
    assert_eq!(cloud.points[1].packet_id, 2);
    assert_eq!((cloud.gen_count, cloud.block_count), (1, 2));
    assert_eq!(query::point_cloud(&d, &x, 1).points.len(), 1);
    assert_eq!(query::point_cloud(&d, &x, -1).points.len(), 2);
    assert_eq!(query::point_cloud(&d, &x, 0).points.len(), 0);
}

#[test]
fn point_detail_tells_the_chain_in_order() {
    let d = three_scans();
    let x = derived();
    let (p, chain) = query::point_detail(&d, &x, 1).unwrap();
    assert_eq!(p.xyz[0], s(20.0));
    let keys: Vec<&str> = chain.iter().map(|c| c.edge_key.as_str()).collect();
    assert_eq!(keys, vec!["first", "second"]);
    assert_eq!(chain[0].valid_to, Some(5));
    assert!(query::point_detail(&d, &x, 77).is_none());
}

#[test]
fn packets_tell_what_became_of_their_blocks() {
    let d = three_scans();
    let x = derived();
    let all = query::packets(&d, &x, None);
    assert_eq!(all.len(), 3);
    assert_eq!(all[2].block_status, Some(Progress::Error));
    assert_eq!(all[2].block_error, "no pose");
    assert_eq!(all[0].point_count, 1);
    assert_eq!(query::packets(&d, &nothing(), None)[0].block_status, None);
    assert_eq!(query::packets(&d, &x, Some("pose")).len(), 0);
}

#[test]
fn stats_count_everything() {
    let mut ing = Ingester::new();
    let mut d = three_scans();
    let again = lidar("L", 2, 0.2, "mm", vec![vec![2.0, 0.0, 0.0, 0.5]]);
    put(&mut ing, &mut d, again).unwrap();
    let st = query::stats(&d, &derived());
    assert_eq!(
        (st.packets, st.duplicates, st.generations, st.raw_points),
        (4, 1, 1, d.points.len()),
    );
    assert_eq!((st.ready_blocks, st.building_blocks, st.error_blocks), (2, 0, 1));
    assert_eq!((st.derived_points, st.edges_active, st.edges_versions), (3, 1, 2));
}

#[test]
fn a_week_of_no_bits_is_the_week_before() {
    let mut ing = Ingester::new();
    let mut d = Archive::new();
    let at = |week: i64, tow: f64, week_bits: u32| RawTime::GpsWeekTow { week, tow: Some(ns(tow)), week_bits };
    let mut first = pose("Z", 0, 0.0, 0.0, 0.0);
    first.time = at(2345, 10.0, 13);
    put(&mut ing, &mut d, first).unwrap();
    let mut second = pose("Z", 1, 0.0, 0.1, 0.0);
    second.time = at(0, 10.1, 0);
    put(&mut ing, &mut d, second).unwrap();
    assert_eq!(d.packets[1].unix_time, gps_to_unix(2345, ns(10.1)));
}

#[test]
fn only_times_that_are_not_finite_are_refused() {
    let mut ing = Ingester::new();
    let mut d = Archive::new();
    let mut endless = pose("T", 0, 0.0, 0.0, 0.0);
    endless.device_id = "W".into();
    endless.time = RawTime::GpsWeekTow { week: 2345, tow: None, week_bits: 13 };
    assert_eq!(put(&mut ing, &mut d, endless).unwrap_err(), "时间戳换算结果非有限");
    assert_eq!(
        ing.normalize(
            "W",
            &RawTime::GpsWeekTow { week: 2346 % 1024, tow: Some(0), week_bits: 10 },
        ),
        Some(gps_to_unix(2346, 0)),
        "the week moved on all the same",
    );
    let mut label = pose("T", 0, 0.0, 0.0, 0.0);
    label.time = RawTime::Utc { y: 2027, m: 1, d: 2, h: 0, min: 0, sec: None };
    assert!(put(&mut ing, &mut d, label).is_err());
    assert_eq!(d.packets.len(), 0);
    let mut far = pose("T", 0, 0.0, 0.0, 0.0);
    far.time = RawTime::GpsWeekTow { week: 1, tow: Some(1 << 100), week_bits: 10 };
    let r = put(&mut ing, &mut d, far).unwrap();
    assert_eq!(r.unix_time, gps_to_unix(1, 1 << 100));
    let mut early = pose("E", 0, 0.0, 0.0, 0.0);
    early.time = RawTime::GpsWeekTow { week: 1, tow: Some(-400_000), week_bits: 10 };
    let r = put(&mut ing, &mut d, early).unwrap();
    assert_eq!(r.time_desc, "gps(w=1,tow=-0.000,10b)");
}

#[test]
fn unit_mismatch_and_millimeters_convert() {
    let mut ing = Ingester::new();
    let mut d = Archive::new();
    let dev = "MM";
    for i in 0..4 {
        put(&mut ing, &mut d, pose(dev, i, i as f64 * 0.05, 0.0, 0.0)).unwrap();
    }
    let scan = lidar(dev, 0, 0.05, "mm", vec![vec![3000.0, 0.0, 0.0]]);
    put(&mut ing, &mut d, scan).unwrap();
    let metres = |d: &Archive, i: usize| {
        let point = &d.points[i];
        let unit = &d.packets[(point.packet_id - 1) as usize].unit;
        length_to_meters(unit)
            .map(|(n, over)| f64::from_bits(point.x.bits) * f64::from(n) / f64::from(over))
    };
    assert!((metres(&d, 0).unwrap() - 3.0).abs() < 1e-6);

    let mut bad = lidar(dev, 1, 0.1, "cubit", vec![vec![1.0, 0.0, 0.0]]);
    bad.seq = 1;
    bad.time = utc(0.1);
    put(&mut ing, &mut d, bad).unwrap();
    assert!(metres(&d, 1).unwrap_err().contains("未知长度单位"));
}
