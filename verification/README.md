# 点云经纬 (pointcloud_meridian)

Frame-chain alignment of packetised LiDAR points, GNSS poses and device calibrations,
with a verified core.

- `src/` is the library. Every rule is stated in a contract and proved with Verus: how
  time stamps unwrap, when a device starts a new generation, which poses may be
  interpolated, which calibration version holds, how routes are ranked, what a build
  derives and what a revision invalidates.
- `app/` is the program around it: SQLite storage, the HTTP service, and the floating
  point geometry whose results the library decides over.
- `tests/` runs the library on concrete values.

## How the library is laid out

| Modules | Subject |
| --- | --- |
| `text`, `scalar`, `rows`, `order` | texts, real numbers by bit pattern, searching and sorting rows |
| `time`, `clock`, `epoch` | calendars, leap seconds, week rollovers, acquisition epochs |
| `units`, `model`, `provenance`, `db` | the data and the tables |
| `service` | importing packets and partitioning them into generations |
| `blocks`, `routes`, `builder`, `edges`, `view` | derived blocks, routes, builds, calibration versions, what is shown |
| `graph`, `geo`, `se3` | the transform graph and the checks of covariances |
| `store`, `derive` | a store of packets and blocks by epoch, and their derivation |
| `ingest`, `query` | an archive of packets by generation, and queries over it |
| `server`, `web`, `demo` | replies, listings and the built-in dataset |

Times are integer nanoseconds. Real numbers are carried by their IEEE-754 bit patterns:
the library orders and tests them, and leaves arithmetic on them to `app/`.
