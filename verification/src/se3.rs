//! The checks that a six by six covariance of a rigid motion has to pass.

use crate::scalar::Scalar;
use crate::text;
use vstd::prelude::*;
use vstd::string::*;

verus! {

/// The double nearest to one billionth.
pub const TOLERANCE: u64 = 0x3e11_2e0b_e826_d695;

/// The double nearest to minus one billionth.
pub const MINUS_TOLERANCE: u64 = 0xbe11_2e0b_e826_d695;

/// What floating point tells of a covariance of 36 numbers: how far it is from being
/// symmetric, its least eigenvalue, both with their renderings, and whether it has a
/// Cholesky factor.
#[derive(Clone, Debug)]
pub struct CovarianceFacts {
    pub asymmetry: Scalar,
    pub asymmetry_text: String,
    pub least_eigenvalue: Scalar,
    pub least_text: String,
    pub has_factor: bool,
}

/// What is wrong with a covariance. One without numbers stands for zero and is in order.
pub open spec fn flaw(v: Seq<Scalar>, f: CovarianceFacts) -> Option<Seq<char>> {
    if v.len() == 0 {
        None
    } else if v.len() != 36 {
        Some("协方差必须为 6x6=36 个值，得到 "@ + text::decimal(v.len() as int))
    } else if (Scalar { bits: TOLERANCE }).below(f.asymmetry) {
        Some("协方差不对称（最大偏差 "@ + f.asymmetry_text@ + "）"@)
    } else if !f.least_eigenvalue.finite() {
        Some("协方差含非有限值"@)
    } else if f.least_eigenvalue.below(Scalar { bits: MINUS_TOLERANCE }) {
        Some("协方差非半正定（最小特征值 "@ + f.least_text@ + "）"@)
    } else if !f.has_factor {
        Some("奇异协方差：无法 Cholesky 分解（最小特征值 "@ + f.least_text@ + "）"@)
    } else {
        None
    }
}

/// The covariance that numbers stand for, row by row.
pub open spec fn covariance_of(v: Seq<Scalar>) -> Seq<Scalar> {
    if v.len() == 0 {
        Seq::new(36, |i: int| Scalar { bits: 0 })
    } else {
        v
    }
}

/// Checks a covariance: 36 numbers, symmetric, no eigenvalue below zero, and a Cholesky
/// factor.
pub fn validate_cov(v: &Vec<Scalar>, f: &CovarianceFacts) -> (r: Result<Vec<Scalar>, String>)
    ensures
        match r {
            Ok(m) => flaw(v@, *f) is None && m@ == covariance_of(v@) && m@.len() == 36,
            Err(e) => flaw(v@, *f) == Some(e@),
        },
{
    if v.len() != 0 {
        if v.len() != 36 {
            let n = text::decimal_text(v.len() as i128);
            return Err(text::join2("协方差必须为 6x6=36 个值，得到 ", n.as_str()));
        }
        let tolerance = Scalar { bits: TOLERANCE };
        if tolerance.lt(&f.asymmetry) {
            return Err(
                text::join3("协方差不对称（最大偏差 ", f.asymmetry_text.as_str(), "）"),
            );
        }
        if !f.least_eigenvalue.is_finite() {
            return Err("协方差含非有限值".to_owned());
        }
        let bound = Scalar { bits: MINUS_TOLERANCE };
        if f.least_eigenvalue.lt(&bound) {
            return Err(
                text::join3("协方差非半正定（最小特征值 ", f.least_text.as_str(), "）"),
            );
        }
        if !f.has_factor {
            return Err(
                text::join3(
                    "奇异协方差：无法 Cholesky 分解（最小特征值 ",
                    f.least_text.as_str(),
                    "）",
                ),
            );
        }
    }
    let mut m: Vec<Scalar> = Vec::new();
    let mut i: usize = 0;
    while i < 36
        invariant
            i <= 36,
            v@.len() == 0 || v@.len() == 36,
            m@ == covariance_of(v@).take(i as int),
        decreases 36 - i,
    {
        if v.len() == 0 {
            m.push(Scalar { bits: 0 });
        } else {
            m.push(v[i]);
        }
        i += 1;
        assert(covariance_of(v@).take(i as int) =~= covariance_of(v@).take(i - 1).push(
            covariance_of(v@)[i - 1],
        ));
    }
    assert(covariance_of(v@).take(36) =~= covariance_of(v@));
    Ok(m)
}

/// A covariance without numbers stands for zeros and is in order. One of 36 numbers is in
/// order where it is symmetric to a billionth, has a least eigenvalue that is finite and not
/// below minus a billionth, and has a Cholesky factor. Any other is not.
pub proof fn law_which_covariances_are_in_order(v: Seq<Scalar>, f: CovarianceFacts, i: int)
    ensures
        flaw(v, f) is None <==> v.len() == 0 || {
            &&& v.len() == 36
            &&& !f.asymmetry.is_number() || f.asymmetry.key() <= 0x3e11_2e0b_e826_d695
            &&& f.least_eigenvalue.finite()
            &&& f.least_eigenvalue.key() >= -0x3e11_2e0b_e826_d695
            &&& f.has_factor
        },
        v.len() == 0 && 0 <= i < 36 ==> covariance_of(v).len() == 36 && covariance_of(v)[i].bits
            == 0,
        v.len() > 0 ==> covariance_of(v) == v,
{
}

} // verus!
