//! Units, texts, orderings and scalar comparisons.

use pointcloud_meridian::model::{AppError, PacketKind};
use pointcloud_meridian::order::{order_by_pairs, sorted_order, Part};
use pointcloud_meridian::rows::retain;
use pointcloud_meridian::scalar::{all_finite, least, Scalar};
use pointcloud_meridian::text::{
    comes_before, decimal_text, fixed_text, hex_text, join3, lower_chars, normal_chars,
};
use pointcloud_meridian::units::{AngleUnit, LengthUnit, UnitSpec};

fn s(x: f64) -> Scalar {
    Scalar { bits: x.to_bits() }
}

fn metres(u: LengthUnit) -> f64 {
    let (num, den) = u.to_meters();
    num as f64 / den as f64
}

#[test]
fn converts_lengths_and_angles() {
    assert!((metres(LengthUnit::Millimeter) - 0.001).abs() < 1e-15);
    assert!((metres(LengthUnit::Foot) - 0.3048).abs() < 1e-15);
    let degree = f64::from_bits(AngleUnit::Degree.to_radians().bits);
    assert!((degree * 180.0 - std::f64::consts::PI).abs() < 1e-12);
    assert!(LengthUnit::parse("furlong").is_none());
    assert_eq!(LengthUnit::parse("MM"), Some(LengthUnit::Millimeter));
}

#[test]
fn unit_labels_parse_back() {
    for u in [
        LengthUnit::Meter,
        LengthUnit::Millimeter,
        LengthUnit::Centimeter,
        LengthUnit::Foot,
        LengthUnit::Inch,
    ] {
        assert_eq!(LengthUnit::parse(u.label()), Some(u));
    }
    for u in [AngleUnit::Radian, AngleUnit::Degree] {
        assert_eq!(AngleUnit::parse(u.label()), Some(u));
    }
    assert_eq!(AngleUnit::parse("gon"), None);
    assert_eq!(UnitSpec::si().length, LengthUnit::Meter);
    assert_eq!(UnitSpec::si().angle, AngleUnit::Radian);
    assert_eq!(f64::from_bits(AngleUnit::Radian.to_radians().bits), 1.0);
}

#[test]
fn errors_tell_code_and_message() {
    assert_eq!(AppError::bad_unit("x").text(), "unit_error: x");
    assert_eq!(AppError::singular("y").text(), "singular_covariance: y");
    assert_eq!(AppError::cycle("z").text(), "cycle_detected: z");
    assert_eq!(AppError::not_found("w").text(), "not_found: w");
    assert_eq!(AppError::new("bad_kind", "k").text(), "bad_kind: k");
}

#[test]
fn kinds_are_named() {
    assert_eq!(PacketKind::parse(" Lidar "), Some(PacketKind::Lidar));
    assert_eq!(PacketKind::parse("GNSS"), Some(PacketKind::Gnss));
    assert_eq!(PacketKind::parse("radar"), None);
}

#[test]
fn numbers_render_as_texts() {
    assert_eq!(decimal_text(-12), "-12");
    assert_eq!(decimal_text(0), "0");
    assert_eq!(fixed_text(false, 12_500, 3), "12.500");
    assert_eq!(fixed_text(true, 5, 3), "-0.005");
    assert_eq!(fixed_text(true, 0, 3), "-0.000");
    assert_eq!(hex_text(0xab, 4), "00ab");
    assert_eq!(join3("a", "b", "c"), "abc");
    assert_eq!(normal_chars("  MiX \n"), vec!['m', 'i', 'x']);
    assert_eq!(lower_chars(" A"), vec![' ', 'a']);
}

#[test]
fn texts_compare_as_their_bytes_do() {
    assert!(comes_before("a", "b") && comes_before("", "a") && comes_before("ab", "b"));
    assert!(!comes_before("a", "a") && !comes_before("b", "ab"));
    assert_eq!(comes_before("身", "体"), "身" < "体");
}

#[test]
fn keys_order_by_part_and_keep_ties_in_place() {
    let keys = vec![
        vec![Part::Text("b".to_string()), Part::Number(1)],
        vec![Part::Text("a".to_string()), Part::Number(2)],
        vec![Part::Text("a".to_string()), Part::Number(1)],
        vec![Part::Text("a".to_string()), Part::Number(2)],
    ];
    assert_eq!(sorted_order(&keys), vec![2, 1, 3, 0]);
    assert_eq!(order_by_pairs(&vec![(2, 0), (1, 5), (1, 4)]), vec![2, 1, 0]);
}

#[test]
fn rows_that_are_not_flagged_are_dropped() {
    let mut v = vec![1, 2, 3, 4];
    retain(&mut v, &vec![true, false, false, true]);
    assert_eq!(v, vec![1, 4]);
}

#[test]
fn scalars_compare_like_doubles() {
    let values = [f64::NEG_INFINITY, -1.5, -0.0, 0.0, 1e-300, 2.0, f64::INFINITY, f64::NAN];
    for a in values {
        for b in values {
            assert_eq!(s(a).lt(&s(b)), a < b, "{} < {}", a, b);
            assert_eq!(s(a).le(&s(b)), a <= b, "{} <= {}", a, b);
        }
        assert_eq!(s(a).is_nan(), a.is_nan());
        assert_eq!(s(a).is_finite(), a.is_finite());
    }
    assert!(all_finite(&vec![s(1.0), s(-2.0)]));
    assert!(!all_finite(&vec![s(1.0), s(f64::NAN)]));
    assert_eq!(least(&vec![s(3.0), s(f64::NAN), s(-1.0)]), s(-1.0));
    assert_eq!(least(&vec![]), s(f64::INFINITY));
    assert_eq!(Scalar::zero(), s(0.0));
}
