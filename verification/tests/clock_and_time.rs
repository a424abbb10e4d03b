//! Calendars, leap seconds, GPS weeks, epochs and unwrapping clocks.

use pointcloud_meridian::clock::{is_generation_break, Unwrapper};
use pointcloud_meridian::epoch::EpochSplitter;
use pointcloud_meridian::model::RawTime;
use pointcloud_meridian::time::{
    civil_from_days, current_tai_offset, days_from_civil, gps_to_unix, gps_week, leap_seconds_at,
    normalize, normalize_flex, round_to, show, try_unwrap_week, unix_to_gps, unwrap_week, utc_to_unix,
    week_sow_to_gps, Nanos, SECOND, WEEK,
};

fn ns(seconds: f64) -> Nanos {
    (seconds * 1e9).round() as Nanos
}

#[test]
fn leap_seconds_known_epochs() {
    assert_eq!(leap_seconds_at(946684800), 13);
    assert_eq!(leap_seconds_at(1_435_708_800), 17);
    assert_eq!(leap_seconds_at(1_483_228_800), 18);
    assert_eq!(leap_seconds_at(915148800), 13);
    assert_eq!(leap_seconds_at(315_964_800), 0);
}

#[test]
fn gps_epoch_anchor() {
    assert!((unix_to_gps(315_964_800 * SECOND) as f64 / 1e9).abs() < 1e-9);
    let gps = unix_to_gps(1_700_000_000 * SECOND) as f64 / 1e9;
    assert!((gps - (1_700_000_000.0 - 315_964_818.0)).abs() < 1e-6);
    assert_eq!(unix_to_gps(1_700_000_000 * SECOND), (1_700_000_000 - 315_964_818) * SECOND);
}

#[test]
fn week_rollover_10bit() {
    let g = unix_to_gps(1_554_681_600 * SECOND);
    let rw = gps_week(g) as i64;
    assert_eq!(rw, 2048);
    assert_eq!(unwrap_week(0, Some(10), rw), 2048);
    assert_eq!(unwrap_week(2047, Some(10), rw), 2047);
    let g2 = unix_to_gps(1_789_000_000 * SECOND);
    let rw2 = gps_week(g2) as i64;
    assert_eq!(unwrap_week(rw2.rem_euclid(1024), Some(10), rw2), rw2);
}

#[test]
fn civil_date_roundtrip() {
    for (y, m, d) in [(1970, 1u32, 1u32), (2017, 1, 1), (1999, 12, 31), (2026, 9, 22)] {
        let days = days_from_civil(y, m, d);
        assert_eq!(civil_from_days(days), (y, m, d));
    }
}

#[test]
fn unknown_scale_errors() {
    assert!(normalize(Some("galileo"), None, None, Some(SECOND), None, 2000).is_err());
    let e = normalize(Some("Galileo"), None, None, Some(SECOND), None, 2000).unwrap_err();
    assert_eq!(e, "未知时间尺度: galileo");
}

#[test]
fn dates_and_offsets_have_known_values() {
    assert_eq!(days_from_civil(1970, 1, 1), 0);
    assert_eq!(days_from_civil(2000, 3, 1), 11017);
    assert_eq!(days_from_civil(1969, 12, 31), -1);
    assert_eq!(civil_from_days(-1), (1969, 12, 31));
    assert_eq!(current_tai_offset(), 37);
    assert_eq!(round_to(1_499, 1_000), 1);
    assert_eq!(round_to(1_501, 1_000), 2);
}

#[test]
fn scales_are_normalised() {
    assert_eq!(normalize(None, Some(1), None, Some(5 * SECOND), None, 0), Ok(WEEK + 5 * SECOND));
    assert_eq!(normalize(Some("GPST"), None, None, Some(SECOND), None, 7), Ok(7 * WEEK + SECOND));
    assert_eq!(
        normalize(Some("utc"), None, None, None, Some(1_700_000_000 * SECOND), 0),
        Ok(unix_to_gps(1_700_000_000 * SECOND)),
    );
    assert_eq!(
        normalize(Some("unix"), None, None, Some(1_700_000_000 * SECOND), None, 0),
        Ok(unix_to_gps(1_700_000_000 * SECOND)),
    );
    assert_eq!(
        normalize(Some("gps"), None, None, None, None, 0),
        Err("gps 时标需要 sow".to_string()),
    );
    assert_eq!(
        normalize(Some("utc"), None, None, None, None, 0),
        Err("utc/unix 时标需要 unix 秒".to_string()),
    );
    assert_eq!(normalize_flex(Some("x"), None, None, None, None, Some(42), 0), Ok(42));
    assert_eq!(normalize_flex(None, None, None, Some(SECOND), None, None, 2), Ok(2 * WEEK + SECOND));
}

#[test]
fn truncated_weeks_complete_to_the_nearest() {
    assert_eq!(try_unwrap_week(0, Some(10), 1023), Some(1024));
    assert_eq!(try_unwrap_week(1023, Some(10), 1024), Some(1023));
    assert_eq!(unwrap_week(2345, Some(10), 2345), 2345);
    assert_eq!(unwrap_week(2345, None, 7), 2345);
    assert_eq!(week_sow_to_gps(2, 3), 2 * WEEK + 3);
    assert_eq!(gps_week(2 * WEEK + 3), 2);
}

#[test]
fn leap_second_labels_keep_their_order() {
    let before = utc_to_unix(2016, 12, 31, 23, 59, 59 * SECOND);
    let leap = utc_to_unix(2016, 12, 31, 23, 59, 60 * SECOND);
    let after = utc_to_unix(2017, 1, 1, 0, 0, 0);
    assert!(before < leap && leap < after);
    assert_eq!(after, 1_483_228_800 * SECOND);
    assert_eq!(after - leap, SECOND);
    assert!(gps_to_unix(1024, ns(0.05)) > gps_to_unix(1023, ns(604_799.7)));
    assert_eq!(gps_to_unix(1024, 0) - gps_to_unix(1023, 0), WEEK);
}

#[test]
fn gps_week_rollover_stays_in_epoch() {
    let mut sp = EpochSplitter::new();
    let a = sp.push(1, WEEK - 2 * SECOND);
    let b = sp.push(2, WEEK - SECOND);
    let c = sp.push(3, SECOND);
    assert_eq!(a.epoch, b.epoch);
    assert_eq!(b.epoch, c.epoch);
    assert!(((c.t - b.t) as f64 / 1e9 - 2.0).abs() < 1e-9, "unwrapped t={}", c.t);
}

#[test]
fn duplicate_seq_after_restart_starts_new_epoch() {
    let mut sp = EpochSplitter::new();
    sp.push(10, 100 * SECOND);
    sp.push(11, 101 * SECOND);
    let s = sp.push(10, 100 * SECOND);
    assert_eq!(s.epoch, 1);
}

#[test]
fn leap_second_does_not_split_epoch() {
    let mut sp = EpochSplitter::new();
    let a = sp.push(1, 1000 * SECOND);
    let b = sp.push(2, 999 * SECOND);
    let c = sp.push(3, 1001 * SECOND);
    assert_eq!(a.epoch, b.epoch);
    assert_eq!(b.epoch, c.epoch);
    assert!(b.t >= a.t && c.t >= b.t, "monotone: {} {} {}", a.t, b.t, c.t);
}

#[test]
fn leap_second_keeps_epoch_and_monotonic() {
    let mut sp = EpochSplitter::new();
    let a = sp.push(1, 500 * SECOND);
    let b = sp.push(2, 499 * SECOND);
    assert_eq!(a.epoch, b.epoch);
    assert!(b.t >= a.t);
}

#[test]
fn unexplained_step_back_opens_an_epoch_at_its_own_time() {
    let mut sp = EpochSplitter::new();
    sp.push(1, 1000 * SECOND);
    assert!(sp.can_push(2, 900 * SECOND));
    let s = sp.push(2, 900 * SECOND);
    assert_eq!((s.epoch, s.t), (1, 900 * SECOND));
    let again = sp.push(1, 950 * SECOND);
    assert_eq!(again.epoch, 1, "time went on by more than the tolerance");
}

fn reading(sow: Nanos) -> RawTime {
    RawTime { sow, week: None, leap_second_flag: false, scale: "gps".to_string() }
}

#[test]
fn clock_carries_on_over_a_week_rollover() {
    let mut clock = Unwrapper::new();
    let a = clock.resolve(&reading(WEEK - SECOND));
    let b = clock.resolve(&reading(SECOND));
    assert_eq!(b.t - a.t, 2 * SECOND);
    assert!(b.week_rollover && !a.week_rollover);
    let late = clock.resolve(&reading(0));
    assert_eq!(late.backward, SECOND);
    assert!(!is_generation_break(late.backward));
    assert!(is_generation_break(4 * SECOND));
    assert!(!is_generation_break(3 * SECOND));
    let next = clock.resolve(&reading(2 * SECOND));
    assert_eq!(next.t - b.t, SECOND, "a late reading does not move the latest time back");
}

#[test]
fn leap_flag_adds_a_second() {
    let mut clock = Unwrapper::new();
    let a = clock.resolve(&reading(10 * SECOND));
    let mut flagged = reading(9 * SECOND);
    flagged.leap_second_flag = true;
    let b = clock.resolve(&flagged);
    assert_eq!(a.t, b.t);
    assert!(b.leap_adjusted);
}

#[test]
fn every_day_comes_back_from_its_date() {
    for z in [i64::MIN, i64::MIN + 1, -719_469, 0, 1 << 62, i64::MAX - 719_468] {
        let (y, m, d) = civil_from_days(z);
        assert!((1..=12).contains(&m) && (1..=31).contains(&d));
        assert_eq!(days_from_civil(y, m, d), z);
    }
    assert!(civil_from_days(i64::MAX - 719_468).0 > 25_000_000_000_000_000);
}

#[test]
fn unwrapped_time_does_not_go_back_at_a_rollover() {
    let mut sp = EpochSplitter::new();
    let a = sp.push(1, 604_803 * SECOND);
    let b = sp.push(2, 0);
    assert_eq!(a.epoch, b.epoch);
    assert_eq!((a.t, b.t), (604_803 * SECOND, 604_803 * SECOND));
    let c = sp.push(3, 2 * SECOND);
    assert_eq!((c.epoch, c.t), (a.epoch, 604_805 * SECOND));
}

#[test]
fn times_keep_their_sign_where_they_round_to_zero() {
    assert_eq!(show(-400_000, 1_000_000, 3), "-0.000");
    assert_eq!(show(400_000, 1_000_000, 3), "0.000");
    assert_eq!(show(0, 1_000_000, 3), "0.000");
    assert_eq!(show(-1_600_000, 1_000_000, 3), "-0.002");
    assert_eq!(show(100_123_456_000, 1_000, 6), "100.123456");
}

#[test]
fn very_large_time_fields_are_taken() {
    let far: Nanos = 1 << 120;
    assert_eq!(gps_to_unix(3, far) - gps_to_unix(3, 0), far);
    assert_eq!(utc_to_unix(2017, 1, 1, 0, 0, far), 1_483_228_800 * SECOND + far);
    assert_eq!(unix_to_gps(far), far - 315_964_818 * SECOND);
}
