//! Covariances as 36 row-major numbers, and length units of point payloads.

use crate::scalar;
use crate::scalar::Scalar;
use crate::text;
use vstd::prelude::*;
use vstd::string::*;

verus! {

/// A JSON value.
#[verifier::external_type_specification]
#[verifier::external_body]
pub struct ExJsonValue(serde_json::Value);

/// What a JSON array holds: for each item the bit pattern of the double that it
/// stands for, or nothing where it is no number. A value that is no array holds
/// nothing at all.
pub uninterp spec fn json_numbers(v: serde_json::Value) -> Option<Seq<Option<u64>>>;

/// Reads a JSON array of numbers with `serde_json::Value::as_array`, which gives the
/// items of an array and nothing for any other value, and
/// `serde_json::Value::as_f64` on each item, which gives the double nearest to a
/// number and nothing for any other value. The contract gives these items a name.
#[verifier::external_body]
fn read_numbers(v: &serde_json::Value) -> (r: Option<Vec<Option<u64>>>)
    ensures
        r is Some == json_numbers(*v) is Some,
        r is Some ==> r->0@ == json_numbers(*v)->0,
{
    let items = v.as_array()?;
    Some(items.iter().map(|x| x.as_f64().map(|n| n.to_bits())).collect())
}

/// The covariance with the given diagonal and zeros elsewhere, row by row.
pub open spec fn diagonal_of(values: Seq<Scalar>) -> Seq<Scalar> {
    Seq::new(
        36,
        |k: int|
            if k / 6 == k % 6 {
                values[k / 6]
            } else {
                Scalar { bits: 0 }
            },
    )
}

/// What the items of a JSON array make of a covariance: six numbers are a diagonal,
/// 36 are the rows in turn.
pub open spec fn covariance(items: Option<Seq<Option<u64>>>) -> Result<Seq<Scalar>, Seq<char>> {
    match items {
        None => Err("协方差必须是数组"@),
        Some(s) => {
            let numbers = s.map_values(|b: Option<u64>| Scalar { bits: b->0 });
            if exists|i: int| 0 <= i < s.len() && s[i] is None {
                Err("协方差元素必须是数字"@)
            } else if s.len() == 6 {
                Ok(diagonal_of(numbers))
            } else if s.len() == 36 {
                Ok(numbers)
            } else {
                Err("协方差需 6 或 36 个元素，得到 "@ + text::decimal(s.len() as int))
            }
        },
    }
}

/// The view of a covariance or of the message that stands in its place.
pub open spec fn outcome(r: Result<Vec<Scalar>, String>) -> Result<Seq<Scalar>, Seq<char>> {
    match r {
        Ok(m) => Ok(m@),
        Err(e) => Err(e@),
    }
}

/// The covariance with the given diagonal.
pub fn diagonal(values: &Vec<Scalar>) -> (r: Vec<Scalar>)
    requires
        values@.len() == 6,
    ensures
        r@ == diagonal_of(values@),
{
    let mut m: Vec<Scalar> = Vec::new();
    let mut k: usize = 0;
    while k < 36
        invariant
            k <= 36,
            values@.len() == 6,
            m@ == diagonal_of(values@).take(k as int),
        decreases 36 - k,
    {
        if k / 6 == k % 6 {
            m.push(values[k / 6]);
        } else {
            m.push(Scalar { bits: 0 });
        }
        k += 1;
        assert(diagonal_of(values@).take(k as int) =~= diagonal_of(values@).take(k - 1).push(
            diagonal_of(values@)[k - 1],
        ));
    }
    assert(diagonal_of(values@).take(36) =~= diagonal_of(values@));
    m
}

/// The bit pattern that stands for what is no number.
pub const NO_NUMBER: u64 = 0x7ff8_0000_0000_0000;

/// Zero times a number: a zero of its sign, or no number where it is not finite.
pub open spec fn zero_times(v: Scalar) -> Scalar {
    if !v.finite() {
        Scalar { bits: NO_NUMBER }
    } else if v.bits >= scalar::SIGN {
        Scalar { bits: scalar::SIGN }
    } else {
        Scalar { bits: 0 }
    }
}

/// The identity times a number: the number all along the diagonal, and elsewhere zero
/// times it.
pub open spec fn identity_times(v: Scalar) -> Seq<Scalar> {
    Seq::new(
        36,
        |k: int|
            if k / 6 == k % 6 {
                v
            } else {
                zero_times(v)
            },
    )
}

/// The identity times a number.
pub fn diag6(v: Scalar) -> (r: Vec<Scalar>)
    ensures
        r@ == identity_times(v),
{
    let off = if !v.is_finite() {
        Scalar { bits: NO_NUMBER }
    } else if v.bits >= scalar::SIGN {
        Scalar { bits: scalar::SIGN }
    } else {
        Scalar { bits: 0 }
    };
    let mut m: Vec<Scalar> = Vec::new();
    let mut k: usize = 0;
    while k < 36
        invariant
            k <= 36,
            off == zero_times(v),
            m@.len() == k,
            forall|i: int|
                0 <= i < k ==> #[trigger] m@[i] == if i / 6 == i % 6 {
                    v
                } else {
                    zero_times(v)
                },
        decreases 36 - k,
    {
        if k / 6 == k % 6 {
            m.push(v);
        } else {
            m.push(off);
        }
        k += 1;
    }
    m
}

/// Reads a covariance from JSON: six diagonal numbers or 36 row-major ones.
pub fn parse_cov(v: &serde_json::Value) -> (r: Result<Vec<Scalar>, String>)
    ensures
        outcome(r) == covariance(json_numbers(*v)),
{
    let items = read_numbers(v);
    let r = covariance_from(&items);
    proof {
        let a = match items {
            Some(s) => Some(s@),
            None => None,
        };
        assert(a == json_numbers(*v));
    }
    r
}

/// Reads a covariance from the items of a JSON array: six diagonal numbers or 36
/// row-major ones.
pub fn covariance_from(items: &Option<Vec<Option<u64>>>) -> (r: Result<Vec<Scalar>, String>)
    ensures
        outcome(r) == covariance(
            match *items {
                Some(s) => Some(s@),
                None => None,
            },
        ),
{
    let s = match items {
        None => {
            return Err("协方差必须是数组".to_owned());
        },
        Some(s) => s,
    };
    let mut numbers: Vec<Scalar> = Vec::new();
    let mut i: usize = 0;
    while i < s.len()
        invariant
            i <= s.len(),
            *items == Some(*s),
            numbers@.len() == i,
            forall|k: int| 0 <= k < i ==> s@[k] is Some,
            forall|k: int| 0 <= k < i ==> #[trigger] numbers@[k] == (Scalar { bits: s@[k]->0 }),
        decreases s.len() - i,
    {
        match s[i] {
            Some(bits) => {
                numbers.push(Scalar { bits });
            },
            None => {
                return Err("协方差元素必须是数字".to_owned());
            },
        }
        i += 1;
    }
    let ghost plain = s@.map_values(|b: Option<u64>| Scalar { bits: b->0 });
    assert(numbers@ =~= plain);
    if numbers.len() == 6 {
        Ok(diagonal(&numbers))
    } else if numbers.len() == 36 {
        Ok(numbers)
    } else {
        let mut m = "协方差需 6 或 36 个元素，得到 ".to_owned();
        let n = text::decimal_text(numbers.len() as i128);
        m.append(n.as_str());
        Err(m)
    }
}

/// What floating point tells of a covariance.
#[derive(Clone, Debug)]
pub struct CovarianceCheck {
    /// Whether the covariance is symmetric to within rounding.
    pub symmetric: bool,
    /// The eigenvalues of its symmetric part.
    pub eigenvalues: Vec<Scalar>,
    /// The least eigenvalue, rendered for messages.
    pub least_text: String,
}

/// A bound that the least eigenvalue must reach, with its rendering.
#[derive(Clone, Copy, Debug)]
pub struct EigenvalueBound {
    pub value: Scalar,
    pub text: &'static str,
}

/// The outcome of checking a covariance: every number finite, symmetric, and no
/// eigenvalue below the bound.
pub open spec fn verdict(c: Seq<Scalar>, check: CovarianceCheck, min_eig: EigenvalueBound)
    -> Option<Seq<char>> {
    if !scalar::all_finite_spec(c) {
        Some("协方差含非有限值"@)
    } else if !check.symmetric {
        Some("协方差不对称"@)
    } else if !min_eig.value.at_most(scalar::least_spec(check.eigenvalues@)) {
        Some(
            "协方差奇异或非正定：最小特征值 "@ + check.least_text@ + " < "@ + min_eig.text@,
        )
    } else {
        None
    }
}

/// Checks a covariance: every number finite, symmetric, and no eigenvalue below the
/// bound.
pub fn validate_cov(c: &Vec<Scalar>, check: &CovarianceCheck, min_eig: EigenvalueBound) -> (r:
    Result<(), String>)
    ensures
        match r {
            Ok(()) => verdict(c@, *check, min_eig) is None,
            Err(m) => verdict(c@, *check, min_eig) == Some(m@),
        },
{
    if !scalar::all_finite(c) {
        return Err("协方差含非有限值".to_owned());
    }
    if !check.symmetric {
        return Err("协方差不对称".to_owned());
    }
    let least = scalar::least(&check.eigenvalues);
    if min_eig.value.le(&least) {
        Ok(())
    } else {
        let mut m = "协方差奇异或非正定：最小特征值 ".to_owned();
        m.append(check.least_text.as_str());
        m.append(" < ");
        m.append(min_eig.text);
        Err(m)
    }
}

/// Ten-thousandths of a metre in a length unit of point payloads.
pub open spec fn payload_unit(unit: Seq<char>) -> Option<int> {
    if unit == "m"@ || unit == "meter"@ || unit == "meters"@ {
        Some(10_000)
    } else if unit == "mm"@ {
        Some(10)
    } else if unit == "cm"@ {
        Some(100)
    } else if unit == "ft"@ || unit == "foot"@ || unit == "feet"@ {
        Some(3_048)
    } else {
        None
    }
}

/// Metres in a length unit of point payloads, as a numerator over ten thousand.
pub fn length_to_meters(unit: &str) -> (r: Result<(u32, u32), String>)
    ensures
        match r {
            Ok(f) => payload_unit(unit@) == Some(f.0 as int) && f.1 == 10_000,
            Err(m) => payload_unit(unit@) is None && m@ == "未知长度单位 `"@ + unit@
                + "`（支持 m/mm/cm/ft）"@,
        },
{
    if text::same(unit, "m") || text::same(unit, "meter") || text::same(unit, "meters") {
        Ok((10_000, 10_000))
    } else if text::same(unit, "mm") {
        Ok((10, 10_000))
    } else if text::same(unit, "cm") {
        Ok((100, 10_000))
    } else if text::same(unit, "ft") || text::same(unit, "foot") || text::same(unit, "feet") {
        Ok((3_048, 10_000))
    } else {
        Err(text::join3("未知长度单位 `", unit, "`（支持 m/mm/cm/ft）"))
    }
}

// ---- covariances, entry by entry ----------------------------------------------------------------

/// A diagonal has its numbers where row and column meet, and zeros elsewhere; so has the
/// identity times a number, with zeros of the number's sign.
pub proof fn law_entries_of_a_diagonal(values: Seq<Scalar>, v: Scalar, i: int, j: int)
    requires
        values.len() == 6,
        0 <= i < 6,
        0 <= j < 6,
    ensures
        diagonal_of(values).len() == 36,
        identity_times(v).len() == 36,
        i == j ==> diagonal_of(values)[6 * i + j] == values[i] && identity_times(v)[6 * i + j] == v,
        i != j ==> diagonal_of(values)[6 * i + j].bits == 0,
        i != j && v.finite() ==> identity_times(v)[6 * i + j].key() == 0 && (identity_times(
            v,
        )[6 * i + j].bits == 0 <==> v.bits < 0x8000_0000_0000_0000),
        i != j && !v.finite() ==> !identity_times(v)[6 * i + j].is_number(),
{
    let k = 6 * i + j;
    assert(k / 6 == i && k % 6 == j);
}

/// A covariance is read from a list of six or 36 numbers and from nothing else: six are a
/// diagonal, 36 stand row by row.
pub proof fn law_covariance_is_read_from_six_or_36_numbers(items: Option<Seq<Option<u64>>>, k: int)
    ensures
        covariance(items) is Ok <==> items is Some && (items->0.len() == 6 || items->0.len() == 36)
            && forall|i: int| 0 <= i < items->0.len() ==> (#[trigger] items->0[i]) is Some,
        covariance(items) matches Ok(c) ==> c.len() == 36,
        covariance(items) is Ok && items->0.len() == 36 && 0 <= k < 36 ==> Some(
            covariance(items)->Ok_0[k].bits,
        ) == items->0[k],
        covariance(items) is Ok && items->0.len() == 6 && 0 <= k < 6 ==> Some(
            covariance(items)->Ok_0[7 * k].bits,
        ) == items->0[k],
{
    if 0 <= k < 6 {
        let m = 7 * k;
        assert(m / 6 == k && m % 6 == k);
    }
    if items is Some {
        let s = items->0;
        if forall|i: int| 0 <= i < s.len() ==> (#[trigger] s[i]) is Some {
            assert(!(exists|i: int| 0 <= i < s.len() && s[i] is None));
        }
    }
}

/// A covariance passes where all its numbers are finite, it is symmetric, and every
/// eigenvalue that is a number comes up to the bound; of eigenvalues that are no numbers
/// nothing is asked.
pub proof fn law_which_covariances_pass(
    c: Seq<Scalar>,
    check: CovarianceCheck,
    min_eig: EigenvalueBound,
)
    requires
        min_eig.value.finite(),
    ensures
        verdict(c, check, min_eig) is None <==> {
            &&& forall|i: int| 0 <= i < c.len() ==> (#[trigger] c[i]).finite()
            &&& check.symmetric
            &&& forall|i: int|
                0 <= i < check.eigenvalues@.len() && (
                #[trigger] check.eigenvalues@[i]).is_number() ==> min_eig.value.key()
                    <= check.eigenvalues@[i].key()
        },
{
    let e = check.eigenvalues@;
    scalar::law_least_is_the_least(e);
    let least = scalar::least_spec(e);
    if e.contains(least) {
        let k = choose|k: int| 0 <= k < e.len() && e[k] == least;
        assert(e[k].is_number());
    }
}

/// Payload units keep their proportions, and no other unit is known.
pub proof fn law_payload_units(unit: Seq<char>)
    ensures
        unit == "m"@ || unit == "meter"@ || unit == "meters"@ <==> payload_unit(unit) == Some(
            10_000int,
        ),
        unit == "cm"@ <==> payload_unit(unit) == Some(100int),
        unit == "mm"@ <==> payload_unit(unit) == Some(10int),
        unit == "ft"@ || unit == "foot"@ || unit == "feet"@ <==> payload_unit(unit) == Some(
            3_048int,
        ),
        payload_unit(unit) matches Some(n) ==> n == 10_000 || n == 100 || n == 10 || n == 3_048,
{
    reveal_strlit("m");
    reveal_strlit("meter");
    reveal_strlit("meters");
    reveal_strlit("cm");
    reveal_strlit("mm");
    reveal_strlit("ft");
    reveal_strlit("foot");
    reveal_strlit("feet");
    // Names of different units differ in one of their first two letters.
    if unit.len() > 1 {
        let first = unit[0];
        let second = unit[1];
    }
}

} // verus!
