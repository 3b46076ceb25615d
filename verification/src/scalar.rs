//! Saturating decimal fixed-point numbers.
//!
//! A [`Scalar`] counts trillionths: the number it stands for is `raw / SCALE`.
//! Every operation computes the exact integer result, rounds a quotient toward
//! zero, and then clamps into `[-RAW_MAX, RAW_MAX]`. The two ends of that range
//! play the part of plus and minus infinity.

use vstd::prelude::*;
use vstd::arithmetic::div_mod::lemma_div_is_ordered;
use core::ops::Neg;

verus! {

/// Raw units per whole: twelve decimal places.
pub const SCALE: i64 = 1_000_000_000_000;

/// Largest raw value that operations produce: two to the 62 less one, about
/// 4.6 million. Its negation is the smallest. The range is kept one bit short
/// of the machine word, so that the difference of two values is always an
/// exact machine integer.
pub const RAW_MAX: i64 = 0x3fff_ffff_ffff_ffff;

/// Clamps an integer into the symmetric raw range.
pub open spec fn saturate(x: int) -> i64 {
    if x > RAW_MAX {
        RAW_MAX
    } else if x < -RAW_MAX {
        (-RAW_MAX) as i64
    } else {
        x as i64
    }
}

/// The quotient of `a` by `b` rounded toward zero, and zero where `b` is zero.
pub open spec fn quot(a: int, b: int) -> int {
    if b == 0 {
        0
    } else if a >= 0 && b > 0 {
        a / b
    } else if a >= 0 {
        -(a / (-b))
    } else if b > 0 {
        -((-a) / b)
    } else {
        (-a) / (-b)
    }
}

/// `r` is the integer square root of `n`, rounded down.
pub open spec fn is_floor_sqrt(n: int, r: int) -> bool {
    0 <= r && r * r <= n && n < (r + 1) * (r + 1)
}

/// The integer square root of `n`, rounded down (meaningful for `n >= 0`).
pub open spec fn floor_sqrt(n: int) -> int {
    choose|r: int| is_floor_sqrt(n, r)
}

/// Every non-negative integer has a rounded-down square root.
pub proof fn lemma_floor_sqrt_exists(n: int)
    requires
        n >= 0,
    ensures
        is_floor_sqrt(n, floor_sqrt(n)),
    decreases n,
{
    if n == 0 {
        assert(is_floor_sqrt(0, 0));
    } else {
        lemma_floor_sqrt_exists(n - 1);
        let r = floor_sqrt(n - 1);
        if (r + 1) * (r + 1) <= n {
            assert((r + 2) * (r + 2) > (r + 1) * (r + 1)) by (nonlinear_arith)
                requires
                    r >= 0,
            ;
            assert(n <= (r + 1) * (r + 1));
            assert(is_floor_sqrt(n, r + 1));
        } else {
            assert(is_floor_sqrt(n, r));
        }
    }
}

/// Two rounded-down square roots of one number are equal.
pub proof fn lemma_floor_sqrt_unique(n: int, r: int, s: int)
    requires
        is_floor_sqrt(n, r),
        is_floor_sqrt(n, s),
    ensures
        r == s,
{
    if r < s {
        assert((r + 1) * (r + 1) <= s * s) by (nonlinear_arith)
            requires
                0 <= r,
                r + 1 <= s,
        ;
    } else if s < r {
        assert((s + 1) * (s + 1) <= r * r) by (nonlinear_arith)
            requires
                0 <= s,
                s + 1 <= r,
        ;
    }
}

/// A number that squares to at most `n` and whose successor squares past `n`
/// is `floor_sqrt(n)`.
pub proof fn lemma_floor_sqrt_is(n: int, r: int)
    requires
        is_floor_sqrt(n, r),
    ensures
        floor_sqrt(n) == r,
{
    lemma_floor_sqrt_unique(n, r, floor_sqrt(n));
}

/// Rounding toward zero moves a quotient by less than one: the dividend
/// differs from divisor times quotient by less than the divisor, on the side
/// of the dividend's sign.
pub proof fn lemma_quot_error(a: int, b: int)
    requires
        b > 0,
    ensures
        a >= 0 ==> 0 <= a - b * quot(a, b) < b,
        a <= 0 ==> -b < a - b * quot(a, b) <= 0,
{
    let m = if a >= 0 { a } else { -a };
    assert(0 <= m - b * (m / b) < b) by (nonlinear_arith)
        requires
            m >= 0,
            b > 0,
    ;
    if a < 0 {
        assert(b * (-(m / b)) == -(b * (m / b))) by (nonlinear_arith);
    }
}

/// Only zero has the square root zero.
pub proof fn lemma_floor_sqrt_zero(n: int)
    requires
        n >= 0,
    ensures
        floor_sqrt(n) == 0 <==> n == 0,
{
    lemma_floor_sqrt_exists(n);
    let r = floor_sqrt(n);
    if r >= 1 {
        assert(r * r >= 1) by (nonlinear_arith)
            requires
                r >= 1,
        ;
    } else {
        assert(r == 0);
        assert((r + 1) * (r + 1) == 1) by (nonlinear_arith)
            requires
                r == 0,
        ;
    }
}

/// Rounding toward zero commutes with negating the dividend or the divisor.
pub proof fn lemma_quot_negate(a: int, b: int)
    ensures
        quot(-a, b) == -quot(a, b),
        quot(a, -b) == -quot(a, b),
{
    if b != 0 && a == 0 {
        assert(0int / b == 0) by (nonlinear_arith)
            requires
                b != 0,
        ;
        assert(0int / (-b) == 0) by (nonlinear_arith)
            requires
                b != 0,
        ;
    }
}

/// For a non-negative divisor the rounded quotient grows with the dividend.
pub proof fn lemma_quot_monotone(a: int, b: int, d: int)
    requires
        a <= b,
        d >= 0,
    ensures
        quot(a, d) <= quot(b, d),
{
    if d > 0 {
        if a >= 0 {
            lemma_div_is_ordered(a, b, d);
        } else if b >= 0 {
            lemma_div_is_ordered(0, -a, d);
            lemma_div_is_ordered(0, b, d);
        } else {
            lemma_div_is_ordered(-b, -a, d);
        }
    }
}

/// What machine division of signed integers computes is the quotient rounded
/// toward zero.
pub proof fn lemma_quot_machine(a: int, b: int)
    requires
        b != 0,
    ensures
        quot(a, b) == (if a >= 0 {
            a / b
        } else {
            -((-a) / b)
        }),
{
    let m = if a >= 0 { a } else { -a };
    if b < 0 {
        assert(m / b == -(m / (-b))) by (nonlinear_arith)
            requires
                m >= 0,
                b < 0,
        ;
    }
}

/// A fixed-point number with twelve decimal places.
#[derive(Clone, Copy, Debug, PartialEq, Eq, Structural, PartialOrd, Ord, Hash)]
pub struct Scalar {
    /// The number in trillionths.
    pub raw: i64,
}

impl Scalar {
    /// The value lies in the range that operations keep to.
    pub open spec fn wf(self) -> bool {
        -RAW_MAX <= self.raw <= RAW_MAX
    }

    /// The scalar with the given count of trillionths, clamped into range.
    pub open spec fn of(raw: int) -> Scalar {
        Scalar { raw: saturate(raw) }
    }

    /// The value is a possible draw from `[0, 1)`.
    pub open spec fn unit_interval(self) -> bool {
        0 <= self.raw < SCALE
    }

    /// The saturating sum.
    pub open spec fn plus(self, rhs: Scalar) -> Scalar {
        Scalar::of(self.raw + rhs.raw)
    }

    /// The saturating difference.
    pub open spec fn minus(self, rhs: Scalar) -> Scalar {
        Scalar::of(self.raw - rhs.raw)
    }

    /// The saturating negation.
    pub open spec fn negated(self) -> Scalar {
        Scalar::of(-self.raw)
    }

    /// The saturating product, rounded toward zero.
    pub open spec fn times(self, rhs: Scalar) -> Scalar {
        Scalar::of(quot(self.raw * rhs.raw, SCALE as int))
    }

    /// The saturating quotient, rounded toward zero; zero where `rhs` is zero.
    pub open spec fn over(self, rhs: Scalar) -> Scalar {
        Scalar::of(quot(self.raw * SCALE, rhs.raw as int))
    }

    /// The magnitude of the raw value, which may exceed `RAW_MAX` where the
    /// value was not made by an operation.
    pub open spec fn magnitude_raw(self) -> int {
        if self.raw < 0 {
            -(self.raw as int)
        } else {
            self.raw as int
        }
    }

    /// The absolute value.
    pub open spec fn magnitude(self) -> Scalar {
        if self.raw < 0 {
            self.negated()
        } else {
            self
        }
    }

    /// The square root rounded down to a trillionth; zero for a negative number.
    pub open spec fn root(self) -> Scalar {
        if self.raw <= 0 {
            Scalar { raw: 0 }
        } else {
            Scalar::of(floor_sqrt(self.raw * SCALE))
        }
    }

    /// The smaller of two scalars.
    pub open spec fn lesser(self, rhs: Scalar) -> Scalar {
        if rhs.raw < self.raw {
            rhs
        } else {
            self
        }
    }

    /// The `n`-th power by repeated multiplication from the left.
    pub open spec fn power(self, n: nat) -> Scalar
        decreases n,
    {
        if n == 0 {
            Scalar { raw: SCALE }
        } else {
            self.power((n - 1) as nat).times(self)
        }
    }

    /// The integer part, rounded toward zero.
    pub open spec fn whole(self) -> int {
        quot(self.raw as int, SCALE as int)
    }

    /// The product does not depend on the order of its factors.
    pub proof fn lemma_times_commutes(self, rhs: Scalar)
        ensures
            self.times(rhs) == rhs.times(self),
    {
        assert(self.raw * rhs.raw == rhs.raw * self.raw) by (nonlinear_arith);
    }

    /// Swapping the operands of a difference negates it.
    pub proof fn lemma_minus_swapped(self, rhs: Scalar)
        ensures
            self.minus(rhs) == rhs.minus(self).negated(),
    {
    }

    /// A scalar and its negation add up to zero.
    pub proof fn lemma_plus_negated(self)
        requires
            self.wf(),
        ensures
            self.plus(self.negated()) == (Scalar { raw: 0 }),
    {
    }

    /// Negating a factor negates the product.
    pub proof fn lemma_times_negated(self, rhs: Scalar)
        requires
            rhs.wf(),
        ensures
            self.times(rhs.negated()) == self.times(rhs).negated(),
    {
        assert(self.raw * (-rhs.raw) == -(self.raw * rhs.raw)) by (nonlinear_arith);
        lemma_quot_negate(self.raw * rhs.raw, SCALE as int);
    }

    /// A product with zero is zero.
    pub proof fn lemma_times_zero(self)
        ensures
            self.times(Scalar { raw: 0 }) == (Scalar { raw: 0 }),
            (Scalar { raw: 0 }).times(self) == (Scalar { raw: 0 }),
    {
        assert(self.raw * 0 == 0) by (nonlinear_arith);
        assert(0 * self.raw == 0) by (nonlinear_arith);
    }

    /// The rule of signs for products: factors of one sign give a product
    /// that is not negative, factors of opposite signs one that is not
    /// positive.
    pub proof fn lemma_times_sign(self, rhs: Scalar)
        ensures
            (self.raw >= 0 && rhs.raw >= 0) || (self.raw <= 0 && rhs.raw <= 0) ==> self.times(
                rhs,
            ).raw >= 0,
            (self.raw >= 0 && rhs.raw <= 0) || (self.raw <= 0 && rhs.raw >= 0) ==> self.times(
                rhs,
            ).raw <= 0,
    {
        let p = self.raw * rhs.raw;
        assert((self.raw >= 0 && rhs.raw >= 0) || (self.raw <= 0 && rhs.raw <= 0) ==> p >= 0)
            by (nonlinear_arith)
            requires
                p == self.raw * rhs.raw,
        ;
        assert((self.raw >= 0 && rhs.raw <= 0) || (self.raw <= 0 && rhs.raw >= 0) ==> p <= 0)
            by (nonlinear_arith)
            requires
                p == self.raw * rhs.raw,
        ;
    }

    /// The rule of signs for quotients.
    pub proof fn lemma_over_sign(self, rhs: Scalar)
        ensures
            (self.raw >= 0 && rhs.raw >= 0) || (self.raw <= 0 && rhs.raw <= 0) ==> self.over(
                rhs,
            ).raw >= 0,
            (self.raw >= 0 && rhs.raw <= 0) || (self.raw <= 0 && rhs.raw >= 0) ==> self.over(
                rhs,
            ).raw <= 0,
    {
        let n = self.raw * SCALE;
        let m = if n >= 0 { n } else { -n };
        let d = if rhs.raw >= 0 { rhs.raw as int } else { -rhs.raw };
        if d > 0 {
            assert(m / d >= 0) by (nonlinear_arith)
                requires
                    m >= 0,
                    d > 0,
            ;
            if m == 0 {
                assert(m / d == 0) by (nonlinear_arith)
                    requires
                        m == 0,
                        d > 0,
                ;
            }
        }
    }

    /// A square root stays below four thousand.
    pub proof fn lemma_root_bound(self)
        ensures
            self.root().raw <= 4_000_000_000_000_000,
    {
        if self.raw > 0 {
            lemma_floor_sqrt_exists(self.raw * SCALE);
            let r = floor_sqrt(self.raw * SCALE);
            if r > 4_000_000_000_000_000 {
                assert(r * r > 0x7fff_ffff_ffff_ffff * SCALE) by (nonlinear_arith)
                    requires
                        r > 4_000_000_000_000_000,
                ;
            }
        }
    }

    /// A square root is not negative.
    pub proof fn lemma_root_sign(self)
        ensures
            self.root().raw >= 0,
    {
        if self.raw > 0 {
            lemma_floor_sqrt_exists(self.raw * SCALE);
        }
    }

    /// Zero.
    pub fn zero() -> (r: Scalar)
        ensures
            r == (Scalar { raw: 0 }),
    {
        Scalar { raw: 0 }
    }

    /// One.
    pub fn one() -> (r: Scalar)
        ensures
            r == (Scalar { raw: SCALE }),
    {
        Scalar { raw: SCALE }
    }

    /// The largest scalar, which stands for plus infinity.
    pub fn infinity() -> (r: Scalar)
        ensures
            r == (Scalar { raw: RAW_MAX }),
    {
        Scalar { raw: RAW_MAX }
    }

    /// The scalar with the given count of trillionths.
    pub fn from_raw(raw: i64) -> (r: Scalar)
        ensures
            r == Scalar::of(raw as int),
            r.wf(),
    {
        clamp_wide(raw as i128)
    }

    /// The scalar that stands for the integer `n`.
    pub fn from_int(n: i64) -> (r: Scalar)
        ensures
            r == Scalar::of(n * SCALE),
            r.wf(),
    {
        let wide: i128 = (n as i128) * (SCALE as i128);
        clamp_wide(wide)
    }

    /// The scalar nearest to `num / den` toward zero; zero where `den` is zero.
    pub fn from_ratio(num: i64, den: i64) -> (r: Scalar)
        ensures
            r == Scalar::of(quot(num * SCALE, den as int)),
            r.wf(),
    {
        if den == 0 {
            Scalar { raw: 0 }
        } else {
            let wide: i128 = (num as i128) * (SCALE as i128);
            let q: i128 = wide / (den as i128);
            proof {
                lemma_quot_machine(wide as int, den as int);
            }
            clamp_wide(q)
        }
    }

    /// The count of trillionths.
    pub fn raw(&self) -> (r: i64)
        ensures
            r == self.raw,
    {
        self.raw
    }

    /// The integer part, rounded toward zero.
    pub fn trunc(&self) -> (r: i64)
        ensures
            r == self.whole(),
    {
        self.raw / SCALE
    }

    /// The magnitude of the raw value.
    pub fn raw_magnitude(&self) -> (r: u64)
        ensures
            r == self.magnitude_raw(),
    {
        if self.raw < 0 {
            (-(self.raw as i128)) as u64
        } else {
            self.raw as u64
        }
    }

    /// The absolute value.
    pub fn abs(self) -> (r: Scalar)
        ensures
            r == self.magnitude(),
            r.raw >= 0,
    {
        if self.raw < 0 {
            self.neg()
        } else {
            self
        }
    }

    /// The smaller of `self` and `rhs`.
    pub fn min(self, rhs: Scalar) -> (r: Scalar)
        ensures
            r == self.lesser(rhs),
    {
        if rhs.raw < self.raw {
            rhs
        } else {
            self
        }
    }

    /// The square root, rounded down to a trillionth; zero for a negative number.
    pub fn sqrt(self) -> (r: Scalar)
        ensures
            r == self.root(),
            r.wf(),
            r.raw >= 0,
            self.raw > 0 ==> is_floor_sqrt(self.raw * SCALE, r.raw as int),
    {
        if self.raw <= 0 {
            Scalar { raw: 0 }
        } else {
            let n: u128 = (self.raw as u128) * (SCALE as u128);
            let s: u128 = floor_sqrt_u128(n);
            proof {
                lemma_floor_sqrt_is(n as int, s as int);
                if s > RAW_MAX {
                    assert(s * s > 0x7fff_ffff_ffff_ffff * SCALE) by (nonlinear_arith)
                        requires
                            s > RAW_MAX,
                    ;
                }
            }
            Scalar { raw: s as i64 }
        }
    }

    /// The `n`-th power by repeated multiplication.
    pub fn powi(self, n: u32) -> (r: Scalar)
        ensures
            r == self.power(n as nat),
            r.wf(),
    {
        let mut acc: Scalar = Scalar { raw: SCALE };
        let mut i: u32 = 0;
        while i < n
            invariant
                i <= n,
                acc == self.power(i as nat),
                acc.wf(),
            decreases n - i,
        {
            acc = acc * self;
            i += 1;
        }
        acc
    }
}

/// Clamps a wide intermediate result into the raw range.
pub fn clamp_wide(x: i128) -> (r: Scalar)
    ensures
        r == Scalar::of(x as int),
        r.wf(),
{
    if x > RAW_MAX as i128 {
        Scalar { raw: RAW_MAX }
    } else if x < -(RAW_MAX as i128) {
        Scalar { raw: -RAW_MAX }
    } else {
        Scalar { raw: x as i64 }
    }
}

/// The integer square root of `n`, rounded down, by bisection.
pub fn floor_sqrt_u128(n: u128) -> (r: u128)
    ensures
        is_floor_sqrt(n as int, r as int),
        r < 0x1_0000_0000_0000_0000,
{
    let mut lo: u128 = 0;
    let mut hi: u128 = 0x1_0000_0000_0000_0000;
    assert(0x1_0000_0000_0000_0000int * 0x1_0000_0000_0000_0000int
        == 0x1_0000_0000_0000_0000_0000_0000_0000_0000int) by (nonlinear_arith);
    while hi - lo > 1
        invariant
            lo < hi <= 0x1_0000_0000_0000_0000,
            lo * lo <= n < hi * hi,
        decreases hi - lo,
    {
        let mid: u128 = lo + (hi - lo) / 2;
        assert(mid * mid < 0x1_0000_0000_0000_0000_0000_0000_0000_0000) by (nonlinear_arith)
            requires
                mid < 0x1_0000_0000_0000_0000,
        ;
        if mid * mid <= n {
            lo = mid;
        } else {
            hi = mid;
        }
    }
    lo
}

/// The integer with the given sign and magnitude.
pub open spec fn signed(negative: bool, magnitude: u128) -> int {
    if negative {
        -(magnitude as int)
    } else {
        magnitude as int
    }
}

/// The sum of three products of raw values, exact, as sign and magnitude.
pub fn sum_products(a0: i64, b0: i64, a1: i64, b1: i64, a2: i64, b2: i64) -> (r: (bool, u128))
    ensures
        signed(r.0, r.1) == a0 * b0 + a1 * b1 + a2 * b2,
{
    let first = product(a0, b0);
    let second = product(a1, b1);
    let third = product(a2, b2);
    let mut up: u128 = 0;
    let mut down: u128 = 0;
    if first >= 0 {
        up = up + first as u128;
    } else {
        down = down + (-first) as u128;
    }
    if second >= 0 {
        up = up + second as u128;
    } else {
        down = down + (-second) as u128;
    }
    if third >= 0 {
        up = up + third as u128;
    } else {
        down = down + (-third) as u128;
    }
    if up >= down {
        (false, up - down)
    } else {
        (true, down - up)
    }
}

/// The exact product of two raw values.
pub fn product(a: i64, b: i64) -> (r: i128)
    ensures
        r == a * b,
        -0x4000_0000_0000_0000_0000_0000_0000_0000 <= r <= 0x4000_0000_0000_0000_0000_0000_0000_0000,
{
    assert(-0x4000_0000_0000_0000_0000_0000_0000_0000 <= a * b
        <= 0x4000_0000_0000_0000_0000_0000_0000_0000) by (nonlinear_arith)
        requires
            -0x8000_0000_0000_0000 <= a <= 0x8000_0000_0000_0000,
            -0x8000_0000_0000_0000 <= b <= 0x8000_0000_0000_0000,
    ;
    (a as i128) * (b as i128)
}

/// The scalar for a count of raw squares given by sign and magnitude: the
/// count over `SCALE`, rounded toward zero and clamped.
pub fn round_wide(negative: bool, magnitude: u128) -> (r: Scalar)
    ensures
        r == Scalar::of(quot(signed(negative, magnitude), SCALE as int)),
        r.wf(),
{
    let q: u128 = magnitude / (SCALE as u128);
    if q > RAW_MAX as u128 {
        if negative {
            Scalar { raw: -RAW_MAX }
        } else {
            Scalar { raw: RAW_MAX }
        }
    } else if negative {
        Scalar { raw: -(q as i64) }
    } else {
        Scalar { raw: q as i64 }
    }
}

impl core::ops::Neg for Scalar {
    type Output = Scalar;

    fn neg(self) -> (r: Scalar)
        ensures
            r == self.negated(),
            r.wf(),
    {
        clamp_wide(-(self.raw as i128))
    }
}

impl vstd::std_specs::ops::NegSpecImpl for Scalar {
    open spec fn obeys_neg_spec() -> bool {
        true
    }

    open spec fn neg_req(self) -> bool {
        true
    }

    open spec fn neg_spec(self) -> Scalar {
        self.negated()
    }
}

impl core::ops::Add for Scalar {
    type Output = Scalar;

    fn add(self, rhs: Scalar) -> (r: Scalar)
        ensures
            r == self.plus(rhs),
            r.wf(),
    {
        let wide: i128 = self.raw as i128 + rhs.raw as i128;
        clamp_wide(wide)
    }
}

impl vstd::std_specs::ops::AddSpecImpl for Scalar {
    open spec fn obeys_add_spec() -> bool {
        true
    }

    open spec fn add_req(self, rhs: Scalar) -> bool {
        true
    }

    open spec fn add_spec(self, rhs: Scalar) -> Scalar {
        self.plus(rhs)
    }
}

impl core::ops::Sub for Scalar {
    type Output = Scalar;

    fn sub(self, rhs: Scalar) -> (r: Scalar)
        ensures
            r == self.minus(rhs),
            r.wf(),
    {
        let wide: i128 = self.raw as i128 - rhs.raw as i128;
        clamp_wide(wide)
    }
}

impl vstd::std_specs::ops::SubSpecImpl for Scalar {
    open spec fn obeys_sub_spec() -> bool {
        true
    }

    open spec fn sub_req(self, rhs: Scalar) -> bool {
        true
    }

    open spec fn sub_spec(self, rhs: Scalar) -> Scalar {
        self.minus(rhs)
    }
}

impl core::ops::Mul for Scalar {
    type Output = Scalar;

    fn mul(self, rhs: Scalar) -> (r: Scalar)
        ensures
            r == self.times(rhs),
            r.wf(),
    {
        let wide: i128 = product(self.raw, rhs.raw);
        let q: i128 = wide / (SCALE as i128);
        clamp_wide(q)
    }
}

impl vstd::std_specs::ops::MulSpecImpl for Scalar {
    open spec fn obeys_mul_spec() -> bool {
        true
    }

    open spec fn mul_req(self, rhs: Scalar) -> bool {
        true
    }

    open spec fn mul_spec(self, rhs: Scalar) -> Scalar {
        self.times(rhs)
    }
}

impl core::ops::Div for Scalar {
    type Output = Scalar;

    fn div(self, rhs: Scalar) -> (r: Scalar)
        ensures
            r == self.over(rhs),
            r.wf(),
    {
        if rhs.raw == 0 {
            Scalar { raw: 0 }
        } else {
            let wide: i128 = (self.raw as i128) * (SCALE as i128);
            let q: i128 = wide / (rhs.raw as i128);
            proof {
                lemma_quot_machine(wide as int, rhs.raw as int);
            }
            clamp_wide(q)
        }
    }
}

impl vstd::std_specs::ops::DivSpecImpl for Scalar {
    open spec fn obeys_div_spec() -> bool {
        true
    }

    open spec fn div_req(self, rhs: Scalar) -> bool {
        true
    }

    open spec fn div_spec(self, rhs: Scalar) -> Scalar {
        self.over(rhs)
    }
}

} // verus!
