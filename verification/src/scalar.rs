//! Real-valued measurements carried by the bit pattern of an IEEE-754 double.
//!
//! Comparisons read the pattern directly, so they agree with the comparisons of
//! the doubles themselves: an ordered pair compares by value, the two zeros are
//! equal, and nothing compares with a value that is not a number.

use vstd::prelude::*;

verus! {

/// The magnitude that infinity has; patterns above it are not numbers.
pub const INFINITE: u64 = 0x7ff0_0000_0000_0000;

/// The weight of the sign bit.
pub const SIGN: u64 = 0x8000_0000_0000_0000;

/// A double-precision value by its bit pattern.
#[derive(Clone, Copy, Debug, PartialEq, Eq, Structural)]
pub struct Scalar {
    pub bits: u64,
}

impl Scalar {
    /// The pattern without its sign.
    pub open spec fn magnitude(self) -> int {
        if self.bits >= SIGN {
            self.bits - SIGN
        } else {
            self.bits as int
        }
    }

    /// An integer by which values are ordered; both zeros have key zero.
    pub open spec fn key(self) -> int {
        if self.bits >= SIGN {
            -self.magnitude()
        } else {
            self.magnitude()
        }
    }

    /// Whether the pattern stands for a number, infinities included.
    pub open spec fn is_number(self) -> bool {
        self.magnitude() <= INFINITE
    }

    /// Whether the pattern stands for a finite number.
    pub open spec fn finite(self) -> bool {
        self.magnitude() < INFINITE
    }

    /// Strict order on numbers; false where either side is not a number.
    pub open spec fn below(self, other: Scalar) -> bool {
        self.is_number() && other.is_number() && self.key() < other.key()
    }

    /// Order on numbers; false where either side is not a number.
    pub open spec fn at_most(self, other: Scalar) -> bool {
        self.is_number() && other.is_number() && self.key() <= other.key()
    }

    /// Positive zero.
    pub fn zero() -> (r: Scalar)
        ensures
            r.bits == 0,
            r.finite(),
            r.key() == 0,
    {
        Scalar { bits: 0 }
    }

    fn size(&self) -> (r: u64)
        ensures
            r == self.magnitude(),
    {
        if self.bits >= SIGN {
            self.bits - SIGN
        } else {
            self.bits
        }
    }

    /// The integer by which values are ordered.
    pub fn order(&self) -> (r: i128)
        ensures
            r == self.key(),
    {
        if self.bits >= SIGN {
            -((self.bits - SIGN) as i128)
        } else {
            self.bits as i128
        }
    }

    pub fn is_nan(&self) -> (r: bool)
        ensures
            r == !self.is_number(),
    {
        self.size() > INFINITE
    }

    pub fn is_finite(&self) -> (r: bool)
        ensures
            r == self.finite(),
    {
        self.size() < INFINITE
    }

    pub fn lt(&self, other: &Scalar) -> (r: bool)
        ensures
            r == self.below(*other),
    {
        !self.is_nan() && !other.is_nan() && self.order() < other.order()
    }

    pub fn le(&self, other: &Scalar) -> (r: bool)
        ensures
            r == self.at_most(*other),
    {
        !self.is_nan() && !other.is_nan() && self.order() <= other.order()
    }
}

// ---- nearness -------------------------------------------------------------------------

/// How many patterns the doubles from one power of two to the next have.
pub const BINADE: u64 = 0x10_0000_0000_0000;

/// The exponent field of the doubles that count steps of 2 to the power -60 by their
/// fractions.
pub const STEP_FIELD: u64 = 1015;

/// The exponent field of the doubles from 2 to the power 60 on.
pub const WIDE_FIELD: u64 = 1083;

/// A ten-millionth, in steps of 2 to the power -60.
pub const NEAR_STEPS: i128 = 115_292_150_461;

/// How many patterns a relative difference of 2 to the power -23, a ten-millionth, is.
pub const NEAR_PATTERNS: i128 = 0x2000_0000;

impl Scalar {
    /// The exponent field of a finite number; the least one stands for 1.
    pub open spec fn exponent(self) -> int {
        let e = self.magnitude() / (BINADE as int);
        if e == 0 {
            1
        } else {
            e
        }
    }

    /// The fraction of a finite number as an integer: its size is that integer times 2 to
    /// the power of the exponent field less 1075.
    pub open spec fn fraction(self) -> int {
        let rest = self.magnitude() % (BINADE as int);
        if self.magnitude() < BINADE {
            rest
        } else {
            rest + BINADE
        }
    }

    /// The size of a finite number in whole steps of 2 to the power -60.
    pub open spec fn whole_steps(self) -> int {
        let e = self.exponent();
        if e >= STEP_FIELD {
            self.fraction() * vstd::arithmetic::power2::pow2((e - STEP_FIELD) as nat)
        } else {
            self.fraction() / (vstd::arithmetic::power2::pow2((STEP_FIELD - e) as nat) as int)
        }
    }

    /// A finite number in steps of 2 to the power -60, rounded toward zero.
    pub open spec fn steps(self) -> int {
        if self.bits >= SIGN {
            -self.whole_steps()
        } else {
            self.whole_steps()
        }
    }

    /// Whether two finite numbers differ by a ten-millionth at most, or by a ten-millionth
    /// of themselves. Numbers of 2 to the power 60 and more are held against each other in
    /// the second way only.
    pub open spec fn near(self, other: Scalar) -> bool {
        ||| {
            &&& self.exponent() < WIDE_FIELD
            &&& other.exponent() < WIDE_FIELD
            &&& -NEAR_STEPS <= self.steps() - other.steps() <= NEAR_STEPS
        }
        ||| -NEAR_PATTERNS <= self.key() - other.key() <= NEAR_PATTERNS
    }

    fn read_exponent(&self) -> (r: u64)
        ensures
            r == self.exponent(),
    {
        let e: u64 = self.size() / BINADE;
        if e == 0 { 1 } else { e }
    }

    fn count_steps(&self) -> (r: i128)
        requires
            self.exponent() < WIDE_FIELD,
        ensures
            r == self.steps(),
            -STEPS_LIMIT <= r <= STEPS_LIMIT,
    {
        let e: u64 = self.read_exponent();
        let size: u64 = self.size();
        let rest: u64 = size % BINADE;
        let f: u128 = if size < BINADE { rest as u128 } else { rest as u128 + BINADE as u128 };
        let n: u128 = if e >= STEP_FIELD {
            doubled(f, e - STEP_FIELD)
        } else {
            halved(f, STEP_FIELD - e)
        };
        if self.bits >= SIGN { -(n as i128) } else { n as i128 }
    }

    /// Whether two finite numbers differ by a ten-millionth at most, or by a ten-millionth
    /// of themselves.
    pub fn is_near(&self, other: &Scalar) -> (r: bool)
        ensures
            r == self.near(*other),
    {
        if self.read_exponent() < WIDE_FIELD && other.read_exponent() < WIDE_FIELD {
            let d: i128 = self.count_steps() - other.count_steps();
            if -NEAR_STEPS <= d && d <= NEAR_STEPS {
                return true;
            }
        }
        let d: i128 = self.order() - other.order();
        -NEAR_PATTERNS <= d && d <= NEAR_PATTERNS
    }
}

/// What the steps of a number below 2 to the power 60 stay within.
pub const STEPS_LIMIT: i128 = 1_329_227_995_784_915_872_903_807_060_280_344_576;

proof fn lemma_power_sizes(n: nat)
    ensures
        n <= 67 ==> vstd::arithmetic::power2::pow2(n) <= 147_573_952_589_676_412_928,
        n >= 53 ==> vstd::arithmetic::power2::pow2(n) >= 2 * BINADE,
        vstd::arithmetic::power2::pow2(n) > 0,
{
    vstd::arithmetic::power2::lemma2_to64();
    vstd::arithmetic::power2::lemma2_to64_rest();
    vstd::arithmetic::power2::lemma_pow2_unfold(65);
    vstd::arithmetic::power2::lemma_pow2_unfold(66);
    vstd::arithmetic::power2::lemma_pow2_unfold(67);
    vstd::arithmetic::power2::lemma_pow2_pos(n);
    if n < 67 {
        vstd::arithmetic::power2::lemma_pow2_strictly_increases(n, 67);
    }
    if n > 53 {
        vstd::arithmetic::power2::lemma_pow2_strictly_increases(53, n);
    }
}

fn doubled(f: u128, n: u64) -> (r: u128)
    requires
        f < 2 * BINADE,
        n <= 67,
    ensures
        r == f * vstd::arithmetic::power2::pow2(n as nat),
        r <= STEPS_LIMIT,
    decreases n,
{
    proof {
        lemma_power_sizes(n as nat);
        let p = vstd::arithmetic::power2::pow2(n as nat) as int;
        assert(f * p <= STEPS_LIMIT) by (nonlinear_arith)
            requires
                0 <= f < 9_007_199_254_740_992,
                0 < p <= 147_573_952_589_676_412_928,
        ;
    }
    if n == 0 {
        proof {
            vstd::arithmetic::power2::lemma2_to64();
        }
        f
    } else {
        let h: u128 = doubled(f, n - 1);
        proof {
            let p = vstd::arithmetic::power2::pow2((n - 1) as nat) as int;
            vstd::arithmetic::power2::lemma_pow2_unfold(n as nat);
            assert(2 * (f * p) == f * (2 * p)) by (nonlinear_arith);
        }
        h * 2
    }
}

fn halved(f: u128, n: u64) -> (r: u128)
    requires
        f < 2 * BINADE,
    ensures
        r == f as int / (vstd::arithmetic::power2::pow2(n as nat) as int),
        r <= f,
{
    proof {
        lemma_power_sizes(n as nat);
    }
    if n >= 53 {
        proof {
            let p = vstd::arithmetic::power2::pow2(n as nat) as int;
            assert(f as int / p == 0) by (nonlinear_arith)
                requires
                    0 <= f < p,
            ;
        }
        0
    } else {
        let p: u128 = doubled(1, n);
        proof {
            assert(1 * vstd::arithmetic::power2::pow2(n as nat) == p);
            let q = p as int;
            assert(f as int / q <= f) by (nonlinear_arith)
                requires
                    0 <= f,
                    0 < q,
            ;
        }
        f / p
    }
}

/// Whether every value of a sequence is finite.
pub open spec fn all_finite_spec(v: Seq<Scalar>) -> bool {
    forall|i: int| 0 <= i < v.len() ==> (#[trigger] v[i]).finite()
}

/// Whether every value of a list is finite.
pub fn all_finite(v: &Vec<Scalar>) -> (r: bool)
    ensures
        r == all_finite_spec(v@),
{
    let mut i: usize = 0;
    while i < v.len()
        invariant
            i <= v.len(),
            forall|k: int| 0 <= k < i ==> (#[trigger] v@[k]).finite(),
        decreases v.len() - i,
    {
        if !v[i].is_finite() {
            return false;
        }
        i += 1;
    }
    true
}

/// Whether every value of a sequence is a number.
pub open spec fn all_numbers_spec(v: Seq<Scalar>) -> bool {
    forall|i: int| 0 <= i < v.len() ==> (#[trigger] v[i]).is_number()
}

/// Whether every value of a list is a number.
pub fn all_numbers(v: &Vec<Scalar>) -> (r: bool)
    ensures
        r == all_numbers_spec(v@),
{
    let mut i: usize = 0;
    while i < v.len()
        invariant
            i <= v.len(),
            forall|k: int| 0 <= k < i ==> (#[trigger] v@[k]).is_number(),
        decreases v.len() - i,
    {
        if v[i].is_nan() {
            return false;
        }
        i += 1;
    }
    true
}

/// The least number of a sequence, or infinity where it holds none; patterns
/// that are not numbers are passed over.
pub open spec fn least_spec(v: Seq<Scalar>) -> Scalar
    decreases v.len(),
{
    if v.len() == 0 {
        Scalar { bits: INFINITE }
    } else {
        let rest = least_spec(v.drop_last());
        if v.last().below(rest) {
            v.last()
        } else {
            rest
        }
    }
}

/// The least number of a list, or infinity where it holds none.
pub fn least(v: &Vec<Scalar>) -> (r: Scalar)
    ensures
        r == least_spec(v@),
        r.is_number(),
        forall|i: int| 0 <= i < v@.len() && (#[trigger] v@[i]).is_number() ==> r.at_most(v@[i]),
{
    let mut best = Scalar { bits: INFINITE };
    let mut i: usize = 0;
    while i < v.len()
        invariant
            i <= v.len(),
            best == least_spec(v@.take(i as int)),
            best.is_number(),
            forall|k: int| 0 <= k < i && (#[trigger] v@[k]).is_number() ==> best.at_most(v@[k]),
        decreases v.len() - i,
    {
        assert(v@.take(i + 1).drop_last() =~= v@.take(i as int));
        if v[i].lt(&best) {
            best = v[i];
        }
        i += 1;
    }
    assert(v@.take(v.len() as int) =~= v@);
    best
}

/// A list of the same numbers.
pub fn copied(v: &Vec<Scalar>) -> (r: Vec<Scalar>)
    ensures
        r@ == v@,
{
    let mut out: Vec<Scalar> = Vec::new();
    let mut i: usize = 0;
    while i < v.len()
        invariant
            i <= v@.len(),
            out@ == v@.take(i as int),
        decreases v.len() - i,
    {
        out.push(v[i]);
        i += 1;
        assert(v@.take(i as int) =~= v@.take(i - 1).push(v@[i - 1]));
    }
    assert(v@.take(v@.len() as int) =~= v@);
    out
}

// ---- patterns and order, in plain numbers ---------------------------------------------------------

/// Patterns with the sign bit stand below zero, the higher the further; the others stand
/// above it. Infinity has the pattern 0x7ff0000000000000, and patterns beyond are no numbers.
pub proof fn law_order_of_patterns(s: Scalar)
    ensures
        s.bits < 0x8000_0000_0000_0000 ==> s.key() == s.bits,
        s.bits >= 0x8000_0000_0000_0000 ==> s.key() == 0x8000_0000_0000_0000 - s.bits,
        s.is_number() <==> -0x7ff0_0000_0000_0000 <= s.key() <= 0x7ff0_0000_0000_0000,
        s.finite() <==> -0x7ff0_0000_0000_0000 < s.key() < 0x7ff0_0000_0000_0000,
{
}

/// The strict order holds between numbers alone, one way at most, and the other order is
/// its completion: of two numbers one is at most the other.
pub proof fn law_order_of_numbers(a: Scalar, b: Scalar, c: Scalar)
    ensures
        a.below(b) ==> a.is_number() && b.is_number() && !b.below(a) && a.at_most(b),
        a.below(b) && b.below(c) ==> a.below(c),
        a.is_number() && b.is_number() ==> (a.at_most(b) <==> !b.below(a)),
        a.is_number() && b.is_number() && a.key() != b.key() ==> a.below(b) || b.below(a),
        !a.is_number() ==> !a.below(b) && !b.below(a) && !a.at_most(b) && !b.at_most(a),
{
}

/// The least of some values is a number that none of their numbers is below; it is one of
/// them, or infinity where there is no number among them below it.
pub proof fn law_least_is_the_least(v: Seq<Scalar>)
    ensures
        least_spec(v).is_number(),
        forall|i: int| 0 <= i < v.len() && (#[trigger] v[i]).is_number() ==> least_spec(v).key()
            <= v[i].key(),
        v.contains(least_spec(v)) || least_spec(v).bits == 0x7ff0_0000_0000_0000,
    decreases v.len(),
{
    if v.len() > 0 {
        let d = v.drop_last();
        law_least_is_the_least(d);
        assert forall|i: int| 0 <= i < v.len() && (
        #[trigger] v[i]).is_number() implies least_spec(v).key() <= v[i].key() by {
            if i < d.len() {
                assert(d[i] == v[i]);
            }
        }
        if least_spec(v) == v.last() {
            assert(v[v.len() - 1] == least_spec(v));
        } else if d.contains(least_spec(d)) {
            let k = choose|k: int| 0 <= k < d.len() && d[k] == least_spec(d);
            assert(v[k] == least_spec(v));
        }
    }
}

/// Nearness goes both ways, every value is near itself, and values whose patterns lie no
/// more than 2 to the power 29 apart are near each other.
pub proof fn law_nearness_goes_both_ways(a: Scalar, b: Scalar)
    ensures
        a.near(b) <==> b.near(a),
        a.near(a),
        -0x2000_0000 <= a.key() - b.key() <= 0x2000_0000 ==> a.near(b),
        a.near(b) && !(-0x2000_0000 <= a.key() - b.key() <= 0x2000_0000) ==> -115_292_150_461
            <= a.steps() - b.steps() <= 115_292_150_461,
{
}

/// Steps of 2 to the power -60 mirror about zero, as values do; zero has none, and one has
/// 2 to the power 60 of them.
pub proof fn law_steps_of_a_value(a: Scalar, b: Scalar)
    requires
        a.bits < 0x8000_0000_0000_0000,
        b.bits == a.bits + 0x8000_0000_0000_0000,
    ensures
        b.steps() == -a.steps(),
        a.bits == 0 ==> a.steps() == 0,
        a.bits == 0x3ff0_0000_0000_0000 ==> a.steps() == 0x1000_0000_0000_0000,
{
    if a.bits == 0x3ff0_0000_0000_0000 {
        vstd::arithmetic::power2::lemma2_to64();
        assert(a.exponent() == 1023);
        assert(a.fraction() == BINADE);
        assert(vstd::arithmetic::power2::pow2(8) == 256);
    }
    if a.bits == 0 {
        assert(a.fraction() == 0);
        lemma_power_sizes((STEP_FIELD - 1) as nat);
        let p = vstd::arithmetic::power2::pow2((STEP_FIELD - 1) as nat) as int;
        assert(0int / p == 0) by (nonlinear_arith)
            requires
                p > 0,
        ;
    }
}

} // verus!
