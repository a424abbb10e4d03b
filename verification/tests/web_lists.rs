//! What the web pages list.

use pointcloud_meridian::scalar::Scalar;
use pointcloud_meridian::web::{
    blocks, packets, point_rows, points, state, streams, trajectory, BlockRow, FrameRow,
    MapPointRow, PacketRow, PoseRow, RawPointRow, State, StreamRow, Tables,
};

fn xyz(x: f64) -> [Scalar; 3] {
    [x, x + 1.0, x + 2.0].map(|v: f64| Scalar { bits: v.to_bits() })
}

fn stream(id: i64, device: &str, kind: &str) -> StreamRow {
    StreamRow {
        id,
        device_id: device.to_string(),
        kind: kind.to_string(),
        coord_frame: "body".to_string(),
        unit: "m".to_string(),
    }
}

fn packet(id: i64, stream_id: i64, received_order: i64) -> PacketRow {
    PacketRow {
        id,
        stream_id,
        generation: 1,
        seq: id * 10,
        gps_ms: id * 100,
        raw_clock: "gps_ms".to_string(),
        raw_ts: format!("{id}"),
        coord_frame: "lidar".to_string(),
        unit: "m".to_string(),
        content_summary: format!("packet {id}"),
        flag: "ok".to_string(),
        received_order,
    }
}

fn frame(id: i64, time_ms: i64, canonical: bool) -> FrameRow {
    FrameRow { id, time_ms, generation: 2, canonical }
}

fn block(id: i64, frame_id: i64, status: &str) -> BlockRow {
    BlockRow {
        id,
        frame_id,
        source_frame: "lidar".to_string(),
        target_frame: "map".to_string(),
        status: status.to_string(),
        error: if status == "blocked" { Some("gap".to_string()) } else { None },
        edge_versions: "[]".to_string(),
    }
}

fn raw(id: i64, frame_id: i64, idx: i64) -> RawPointRow {
    RawPointRow { id, frame_id, idx, xyz: xyz(id as f64) }
}

fn derived(id: i64, block_id: i64, raw_point_id: i64) -> MapPointRow {
    MapPointRow { id, block_id, raw_point_id, xyz: xyz(100.0 + id as f64) }
}

fn pose(stream_id: i64, time_ms: i64) -> PoseRow {
    PoseRow { stream_id, generation: 1, time_ms, t: xyz(time_ms as f64) }
}

/// Two frames with two points each, a repeated one, and a blocked one.
fn tables() -> Tables {
    Tables {
        streams: vec![
            stream(7, "lidar-A", "lidar"),
            stream(3, "gnss-primary", "gnss"),
            stream(5, "gnss-backup", "gnss"),
        ],
        packets: vec![packet(1, 7, 3), packet(2, 3, 1), packet(3, 99, 2), packet(4, 5, 0)],
        frames: vec![
            frame(10, 500, true),
            frame(11, 200, true),
            frame(12, 300, false),
            frame(13, 400, true),
        ],
        raw_points: vec![raw(1, 10, 1), raw(2, 10, 0), raw(3, 11, 0), raw(4, 11, 1), raw(5, 12, 0)],
        blocks: vec![
            block(20, 10, "done"),
            block(21, 11, "done"),
            block(22, 12, "stale"),
            block(23, 13, "blocked"),
            block(24, 99, "building"),
        ],
        map_points: vec![
            derived(30, 20, 1),
            derived(31, 20, 2),
            derived(32, 21, 3),
            derived(33, 21, 4),
            derived(34, 22, 5),
            derived(35, 20, 3),
        ],
        poses: vec![pose(3, 50), pose(5, 40), pose(3, 10), pose(99, 0)],
        edges: 3,
    }
}

#[test]
fn rows_and_blocks_are_counted() {
    assert_eq!(
        state(&tables()),
        State {
            streams: 3,
            packets: 4,
            frames: 4,
            poses: 4,
            edges: 3,
            blocks_done: 2,
            blocks_blocked: 1,
            blocks_pending: 2,
            map_points: 6,
        }
    );
}

#[test]
fn streams_come_by_id() {
    let found = streams(&tables());
    let ids: Vec<i64> = found.iter().map(|s| s.id).collect();
    assert_eq!(ids, vec![3, 5, 7]);
    assert_eq!(found[2].device_id, "lidar-A");
    assert_eq!(found[2].kind, "lidar");
}

#[test]
fn packets_come_as_received_with_their_devices() {
    let found = packets(&tables());
    let lines: Vec<(i64, &str)> =
        found.iter().map(|p| (p.id, p.device_id.as_str())).collect();
    assert_eq!(lines, vec![(4, "gnss-backup"), (2, "gnss-primary"), (1, "lidar-A")]);
    assert_eq!(found[2].content_summary, "packet 1");
    assert_eq!(found[2].gps_ms, 100);
}

#[test]
fn blocks_come_by_the_time_of_their_frames() {
    let found = blocks(&tables());
    let lines: Vec<(i64, i64)> = found.iter().map(|b| (b.block_id, b.time_ms)).collect();
    assert_eq!(lines, vec![(21, 200), (22, 300), (23, 400), (20, 500)]);
    assert_eq!(found[2].error, Some("gap".to_string()));
    assert_eq!(found[0].error, None);
    assert_eq!(found[0].generation, 2);
}

#[test]
fn poses_come_by_device_and_time() {
    let found = trajectory(&tables());
    let lines: Vec<(&str, i64)> =
        found.iter().map(|p| (p.device.as_str(), p.time_ms)).collect();
    assert_eq!(lines, vec![("gnss-backup", 40), ("gnss-primary", 10), ("gnss-primary", 50)]);
}

#[test]
fn points_come_by_frame_with_what_they_were_made_from() {
    let t = tables();
    assert_eq!(point_rows(&t).len(), 4);
    let found = points(&t);
    let frames: Vec<i64> = found.iter().map(|g| g.frame_id).collect();
    assert_eq!(frames, vec![11, 10]);
    let ids: Vec<i64> = found[1].points.iter().map(|p| p.id).collect();
    assert_eq!(ids, vec![31, 30]);
    assert_eq!(found[1].points[0].raw[0].bits, 2.0f64.to_bits());
    assert_eq!(found[1].points[0].map[0].bits, 131.0f64.to_bits());
    assert_eq!(found[0].status, "done");
    assert_eq!(found[0].time_ms, 200);
}
