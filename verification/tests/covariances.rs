//! Reading and checking covariances.

use nalgebra::{Matrix6, SMatrix};
use pointcloud_meridian::geo::{
    covariance_from, diag6, diagonal, length_to_meters, parse_cov, validate_cov, CovarianceCheck,
    EigenvalueBound,
};
use pointcloud_meridian::scalar::Scalar;
use pointcloud_meridian::se3::{self, CovarianceFacts};

fn s(x: f64) -> Scalar {
    Scalar { bits: x.to_bits() }
}

fn numbers(v: &[f64]) -> Vec<Scalar> {
    v.iter().map(|x| s(*x)).collect()
}

fn matrix(c: &[Scalar]) -> Matrix6<f64> {
    let v: Vec<f64> = c.iter().map(|x| f64::from_bits(x.bits)).collect();
    Matrix6::from_row_slice(&v)
}

fn check(c: &[Scalar]) -> CovarianceCheck {
    let m = matrix(c);
    let eigenvalues: Vec<f64> = m.symmetric_eigen().eigenvalues.iter().copied().collect();
    let least = eigenvalues.iter().copied().fold(f64::INFINITY, f64::min);
    CovarianceCheck {
        symmetric: (m - m.transpose()).abs().max() < 1e-9,
        eigenvalues: numbers(&eigenvalues),
        least_text: format!("{:.3e}", least),
    }
}

fn bound(x: f64, text: &'static str) -> EigenvalueBound {
    EigenvalueBound { value: s(x), text }
}

#[test]
fn singular_and_non_spd_covariance_rejected() {
    let zero = diagonal(&numbers(&[0.0; 6]));
    let negative = diagonal(&numbers(&[-1.0; 6]));
    let good = diag6(s(1e-3));
    assert!(validate_cov(&zero, &check(&zero), bound(1e-10, "1e-10")).is_err());
    assert!(validate_cov(&negative, &check(&negative), bound(1e-10, "1e-10")).is_err());
    assert!(validate_cov(&good, &check(&good), bound(1e-10, "1e-10")).is_ok());
}

#[test]
fn covariance_errors_have_their_messages() {
    let good = diag6(s(1e-3));
    let mut infinite = diag6(s(1e-3));
    infinite[0] = s(f64::INFINITY);
    assert_eq!(
        validate_cov(&infinite, &check(&good), bound(1e-10, "1e-10")),
        Err("协方差含非有限值".to_string()),
    );
    let mut skewed = diag6(s(1.0));
    skewed[1] = s(0.5);
    assert_eq!(
        validate_cov(&skewed, &check(&skewed), bound(1e-10, "1e-10")),
        Err("协方差不对称".to_string()),
    );
    let negative = diagonal(&numbers(&[-1.0; 6]));
    assert_eq!(
        validate_cov(&negative, &check(&negative), bound(1e-8, "1e-8")),
        Err("协方差奇异或非正定：最小特征值 -1.000e0 < 1e-8".to_string()),
    );
}

#[test]
fn json_covariances_are_read() {
    let six: serde_json::Value = serde_json::from_str("[1, 2.5, 3, 4, 5, 6]").unwrap();
    let c = parse_cov(&six).unwrap();
    assert_eq!(c.len(), 36);
    assert_eq!(c[0], s(1.0));
    assert_eq!(c[7], s(2.5));
    assert_eq!(c[1], s(0.0));
    let many: Vec<f64> = (0..36).map(|k| k as f64).collect();
    let full = parse_cov(&serde_json::Value::from(many.clone())).unwrap();
    assert_eq!(full, numbers(&many));
    assert_eq!(
        parse_cov(&serde_json::Value::from("x")),
        Err("协方差必须是数组".to_string()),
    );
    let mixed: serde_json::Value = serde_json::from_str("[1, \"a\"]").unwrap();
    assert_eq!(parse_cov(&mixed), Err("协方差元素必须是数字".to_string()));
    let short: serde_json::Value = serde_json::from_str("[1, 2]").unwrap();
    assert_eq!(parse_cov(&short), Err("协方差需 6 或 36 个元素，得到 2".to_string()));
    assert_eq!(covariance_from(&None), Err("协方差必须是数组".to_string()));
}

#[test]
fn payload_units_convert() {
    let metres = |v: f64, u: &str| length_to_meters(u).map(|f| v * f.0 as f64 / f.1 as f64);
    assert!((metres(1000.0, "mm").unwrap() - 1.0).abs() < 1e-12);
    assert!((metres(1.0, "ft").unwrap() - 0.3048).abs() < 1e-12);
    assert!(metres(1.0, "cubit").is_err());
    assert_eq!(
        length_to_meters("cubit"),
        Err("未知长度单位 `cubit`（支持 m/mm/cm/ft）".to_string()),
    );
}

fn facts(v: &[f64]) -> CovarianceFacts {
    if v.len() != 36 {
        return CovarianceFacts {
            asymmetry: s(0.0),
            asymmetry_text: String::new(),
            least_eigenvalue: s(0.0),
            least_text: String::new(),
            has_factor: false,
        };
    }
    let m: SMatrix<f64, 6, 6> = Matrix6::from_row_slice(v);
    let asymmetry = (m - m.transpose()).abs().max();
    let least = m.symmetric_eigen().eigenvalues.min();
    CovarianceFacts {
        asymmetry: s(asymmetry),
        asymmetry_text: format!("{:.2e}", asymmetry),
        least_eigenvalue: s(least),
        least_text: format!("{:.3e}", least),
        has_factor: m.cholesky().is_some(),
    }
}

fn validate(v: &[f64]) -> Result<Vec<Scalar>, String> {
    se3::validate_cov(&numbers(v), &facts(v))
}

#[test]
fn bad_covariance_rejected() {
    let mut v = vec![0.0; 36];
    v[0] = -1.0;
    assert!(validate(&v).is_err());
    let mut v2 = vec![0.0; 36];
    for i in 0..6 {
        v2[i * 7] = 1.0;
    }
    v2[1] = 0.5;
    assert!(validate(&v2).is_err());
    assert!(validate(&[1.0, 2.0]).is_err());
}

#[test]
fn zero_covariance_is_singular_but_zero_allowed() {
    let z = vec![0.0; 36];
    assert!(validate(&z).is_err());
    assert!(validate(&[]).is_ok());
}

#[test]
fn motion_covariance_errors_have_their_messages() {
    assert_eq!(
        validate(&[1.0, 2.0]),
        Err("协方差必须为 6x6=36 个值，得到 2".to_string()),
    );
    let mut skewed = vec![0.0; 36];
    for i in 0..6 {
        skewed[i * 7] = 1.0;
    }
    let good = skewed.clone();
    skewed[1] = 0.5;
    assert_eq!(validate(&skewed), Err("协方差不对称（最大偏差 5.00e-1）".to_string()));
    let mut negative = vec![0.0; 36];
    negative[0] = -1.0;
    assert_eq!(
        validate(&negative),
        Err("协方差非半正定（最小特征值 -1.000e0）".to_string()),
    );
    let message = validate(&vec![0.0; 36]).unwrap_err();
    assert!(message.starts_with("奇异协方差：无法 Cholesky 分解"));
    let mut broken = facts(&good);
    broken.least_eigenvalue = s(f64::NAN);
    assert_eq!(
        se3::validate_cov(&numbers(&good), &broken),
        Err("协方差含非有限值".to_string()),
    );
    assert_eq!(validate(&good), Ok(numbers(&good)));
    assert_eq!(validate(&[]).unwrap(), numbers(&[0.0; 36]));
}

#[test]
fn multiples_of_the_identity() {
    let zeros = |c: &Vec<Scalar>| c.iter().filter(|x| f64::from_bits(x.bits) == 0.0).count();
    for v in [1e-3, 0.25, -1.0] {
        let c = diag6(s(v));
        let m = Matrix6::<f64>::identity() * v;
        let bits: Vec<u64> = m.transpose().iter().map(|x| x.to_bits()).collect();
        assert_eq!(c.iter().map(|x| x.bits).collect::<Vec<u64>>(), bits);
        assert_eq!(zeros(&c), 30);
    }
    assert!(validate_cov(&diag6(s(-1.0)), &check(&diag6(s(-1.0))), bound(1e-8, "1e-8")).is_err());
    assert!(validate_cov(&diag6(s(1e-3)), &check(&diag6(s(1e-3))), bound(1e-8, "1e-8")).is_ok());
    let c = diag6(s(f64::INFINITY));
    assert!(c[0].bits == f64::INFINITY.to_bits() && f64::from_bits(c[1].bits).is_nan());
}
