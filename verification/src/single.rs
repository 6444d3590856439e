//! Single-precision arithmetic on bit patterns.
//!
//! A `Single` holds the IEEE 754 bits of an `f32`. Sums, differences, products and
//! quotients are computed on the integers behind the bits and rounded to the nearest
//! representable number, ties to even, so that every result is known bit for bit.

use vstd::arithmetic::power2::*;
use vstd::prelude::*;

verus! {

pub open spec fn positive_part(l: int) -> nat {
    if l > 0 {
        l as nat
    } else {
        0
    }
}

/// `n / d` as a whole number, rounded to the nearest one and to the even one at a tie.
pub open spec fn half_even(n: nat, d: nat) -> nat {
    let below = n / d;
    let rest = n % d;
    if 2 * rest < d || (2 * rest == d && below % 2 == 0) {
        below
    } else {
        below + 1
    }
}

/// `num / den` is at least two to the power `l`.
pub open spec fn reaches(num: nat, den: nat, l: int) -> bool {
    den * pow2(positive_part(l)) <= num * pow2(positive_part(-l))
}

/// `num / den` lies between two to the power `l` and twice that.
pub open spec fn in_binade(num: nat, den: nat, l: int) -> bool {
    reaches(num, den, l) && !reaches(num, den, l + 1)
}

/// The logarithm of `num / den` to the base two, rounded down.
pub open spec fn floor_log(num: nat, den: nat) -> int {
    choose|l: int| in_binade(num, den, l)
}

/// The exponent of the last digit that a single near `num / den * 2^k` can hold.
pub open spec fn last_place(num: nat, den: nat, k: int) -> int {
    let e = k + floor_log(num, den) - 23;
    if e >= -149 {
        e
    } else {
        -149
    }
}

/// `num / den * 2^k` in units of its last place, rounded to a whole number.
pub open spec fn rounded_significand(num: nat, den: nat, k: int) -> nat {
    let l = floor_log(num, den);
    let s = k + l - last_place(num, den, k);
    half_even(
        num * pow2(positive_part(-l)) * pow2(positive_part(s)),
        den * pow2(positive_part(l)) * pow2(positive_part(-s)),
    )
}

/// The bits of the single that is nearest to `num / den * 2^k`, and of infinity where the
/// number is too large for any.
pub open spec fn rounded(num: nat, den: nat, k: int) -> u32 {
    if num == 0 {
        0
    } else {
        let bits = (last_place(num, den, k) + 149) * 0x80_0000 + rounded_significand(num, den, k);
        if bits >= 0x7f80_0000 {
            0x7f80_0000
        } else {
            bits as u32
        }
    }
}

proof fn lemma_reaches_downward(num: nat, den: nat, low: int, high: int)
    requires
        low <= high,
        reaches(num, den, high),
    ensures
        reaches(num, den, low),
    decreases high - low,
{
    if low < high {
        lemma_reaches_step(num, den, high - 1);
        lemma_reaches_downward(num, den, low, high - 1);
    }
}

/// Reaching a power of two, seen from the power below it.
proof fn lemma_reaches_step(num: nat, den: nat, l: int)
    ensures
        reaches(num, den, l + 1) <==> 2 * (den * pow2(positive_part(l))) <= num * pow2(
            positive_part(-l),
        ),
        reaches(num, den, l + 1) ==> reaches(num, den, l),
{
    lemma_pow2_values();
    if l >= 0 {
        lemma_pow2_unfold((l + 1) as nat);
        assert(den * (2 * pow2(l as nat)) == 2 * (den * pow2(l as nat))) by (nonlinear_arith);
        assert(0 <= den * pow2(l as nat)) by (nonlinear_arith);
    } else {
        lemma_pow2_unfold((-l) as nat);
        let half = pow2((-l - 1) as nat);
        assert(num * (2 * half) == 2 * (num * half)) by (nonlinear_arith);
        assert(positive_part(-(l + 1)) == (-l - 1) as nat);
        assert(0 <= num * half) by (nonlinear_arith);
    }
}

proof fn lemma_pow2_values()
    ensures
        pow2(0) == 1,
        pow2(1) == 2,
        pow2(2) == 4,
        pow2(23) == 0x80_0000,
        pow2(24) == 0x100_0000,
{
    lemma2_to64();
}

proof fn lemma_floor_log(num: nat, den: nat, l: int)
    requires
        in_binade(num, den, l),
    ensures
        floor_log(num, den) == l,
{
    let other = floor_log(num, den);
    assert(in_binade(num, den, other));
    if other < l {
        lemma_reaches_downward(num, den, other + 1, l);
    }
    if l < other {
        lemma_reaches_downward(num, den, l + 1, other);
    }
}

fn half_even_of(n: u128, d: u128) -> (r: u128)
    requires
        d > 0,
        d < 0x8000_0000_0000_0000_0000_0000_0000_0000,
        n < 0x8000_0000_0000_0000_0000_0000_0000_0000,
    ensures
        r == half_even(n as nat, d as nat),
{
    let below: u128 = n / d;
    let rest: u128 = n % d;
    assert(below <= n) by (nonlinear_arith)
        requires
            below == n / d,
            d > 0,
    ;
    if rest + rest < d || (rest + rest == d && below % 2 == 0) {
        below
    } else {
        below + 1
    }
}

/// `m * 2^s`, where that fits.
fn shifted(m: u128, s: u32) -> (r: u128)
    requires
        m * pow2(s as nat) < 0x8000_0000_0000_0000_0000_0000_0000_0000,
    ensures
        r == m * pow2(s as nat),
{
    let mut r: u128 = m;
    let mut i: u32 = 0;
    proof {
        lemma_pow2_values();
    }
    while i < s
        invariant
            i <= s,
            r == m * pow2(i as nat),
            m * pow2(s as nat) < 0x8000_0000_0000_0000_0000_0000_0000_0000,
        decreases s - i,
    {
        proof {
            lemma_pow2_unfold((i + 1) as nat);
            assert(m * (2 * pow2(i as nat)) == 2 * (m * pow2(i as nat))) by (nonlinear_arith);
            if i + 1 < s {
                lemma_pow2_strictly_increases((i + 1) as nat, s as nat);
            }
            assert(m * pow2((i + 1) as nat) <= m * pow2(s as nat)) by (nonlinear_arith)
                requires
                    pow2((i + 1) as nat) <= pow2(s as nat),
            ;
        }
        r = r * 2;
        i = i + 1;
    }
    r
}

/// The largest numerator and denominator that rounding takes: two to the power 96.
pub const ROUNDING_LIMIT: u128 = 0x1_0000_0000_0000_0000_0000_0000;

/// The single nearest to `num / den * 2^k`.
fn round_quotient(num: u128, den: u128, k: i64) -> (r: u32)
    requires
        num < ROUNDING_LIMIT,
        0 < den < ROUNDING_LIMIT,
        -1000 <= k <= 1000,
    ensures
        r == rounded(num as nat, den as nat, k as int),
        r <= INFINITY_BITS,
{
    if num == 0 {
        return 0;
    }
    let mut n: u128 = num;
    let mut d: u128 = den;
    let mut l: i64 = 0;
    proof {
        lemma_pow2_values();
        assert(den * pow2(0) == den && num * pow2(0) == num) by (nonlinear_arith)
            requires
                pow2(0) == 1,
        ;
    }
    while n >= 2 * d
        invariant
            n == num,
            num < ROUNDING_LIMIT,
            0 < d < ROUNDING_LIMIT,
            0 <= l,
            d == den * pow2(l as nat),
            l > 0 ==> d <= n,
            l <= 96,
        decreases n - d,
    {
        proof {
            lemma_pow2_unfold((l + 1) as nat);
            assert(den * (2 * pow2(l as nat)) == 2 * (den * pow2(l as nat))) by (nonlinear_arith);
            lemma_exponent_small(den as nat, (l + 1) as nat, num as nat);
        }
        d = d * 2;
        l = l + 1;
    }
    while n < d
        invariant
            0 < n < 2 * d,
            0 < d < ROUNDING_LIMIT,
            n == num * pow2(positive_part(-l)),
            d == den * pow2(positive_part(l as int)),
            n < d ==> l <= 0,
            -96 <= l <= 96,
        decreases 2 * d - n,
    {
        proof {
            lemma_pow2_unfold((1 - l) as nat);
            assert(num * (2 * pow2((-l) as nat)) == 2 * (num * pow2((-l) as nat)))
                by (nonlinear_arith);
            lemma_exponent_small(num as nat, (-l) as nat, d as nat);
        }
        n = n * 2;
        l = l - 1;
    }
    proof {
        lemma_reaches_step(num as nat, den as nat, l as int);
        lemma_floor_log(num as nat, den as nat, l as int);
    }
    let e: i64 = if k + l - 23 >= -149 {
        k + l - 23
    } else {
        -149
    };
    let s: i64 = k + l - e;
    let q: u128 = if s >= 0 {
        proof {
            if s < 23 {
                lemma_pow2_strictly_increases(s as nat, 23);
            }
            assert(n * pow2(s as nat) <= n * 0x80_0000) by (nonlinear_arith)
                requires
                    pow2(s as nat) <= 0x80_0000,
            ;
            assert(d * pow2(0) == d) by (nonlinear_arith)
                requires
                    pow2(0) == 1,
            ;
            lemma_half_even_bound(n as nat * pow2(s as nat), d as nat, 0x100_0000);
        }
        half_even_of(shifted(n, s as u32), d)
    } else if s == -1 {
        proof {
            assert(n * pow2(0) == n) by (nonlinear_arith)
                requires
                    pow2(0) == 1,
            ;
            lemma_half_even_bound(n as nat, (d * 2) as nat, 1);
        }
        half_even_of(n, d * 2)
    } else {
        proof {
            if s < -2 {
                lemma_pow2_strictly_increases(2, (-s) as nat);
            }
            assert(n * pow2(0) == n) by (nonlinear_arith)
                requires
                    pow2(0) == 1,
            ;
            assert(d * pow2((-s) as nat) >= d * 4) by (nonlinear_arith)
                requires
                    pow2((-s) as nat) >= 4,
            ;
            lemma_half_even_tiny(n as nat, d as nat * pow2((-s) as nat));
        }
        0
    };
    let bits: i64 = (e + 149) * 0x80_0000 + q as i64;
    if bits >= 0x7f80_0000 {
        0x7f80_0000
    } else {
        bits as u32
    }
}

/// A number that stays below two to the power 96 has been doubled at most 96 times.
proof fn lemma_exponent_small(m: nat, l: nat, bound: nat)
    requires
        m > 0,
        m * pow2(l) <= bound,
        bound < ROUNDING_LIMIT,
    ensures
        l < 96,
{
    if l >= 96 {
        assert(pow2(96) == 0x1_0000_0000_0000_0000_0000_0000) by {
            lemma2_to64();
            lemma_pow2_adds(64, 32);
        }
        if l > 96 {
            lemma_pow2_strictly_increases(96, l);
        }
        assert(m * pow2(l) >= pow2(l)) by (nonlinear_arith)
            requires
                m > 0,
        ;
    }
}

proof fn lemma_half_even_bound(n: nat, d: nat, bound: nat)
    requires
        d > 0,
        n < d * bound,
    ensures
        half_even(n, d) <= bound,
{
    assert(n / d < bound) by (nonlinear_arith)
        requires
            d > 0,
            n < d * bound,
    ;
}

proof fn lemma_half_even_tiny(n: nat, d: nat)
    requires
        2 * n < d,
    ensures
        half_even(n, d) == 0,
{
    assert(n / d == 0 && n % d == n) by (nonlinear_arith)
        requires
            2 * n < d,
    ;
}

/// The bits of the number that stands for no number.
pub const NAN_BITS: u32 = 0x7fc0_0000;

/// The bits of infinity.
pub const INFINITY_BITS: u32 = 0x7f80_0000;

/// The bit that is set in a negative number.
pub const SIGN_BIT: u32 = 0x8000_0000;

/// The bit pattern of a single-precision number.
#[derive(Debug, Clone, Copy, PartialEq, Eq, Structural)]
pub struct Single {
    pub bits: u32,
}

/// The bits of the number one.
pub const ONE_BITS: u32 = 0x3f80_0000;

impl Single {
    pub open spec fn negative(self) -> bool {
        self.bits >= SIGN_BIT
    }

    /// The bits without the sign. They order the numbers of one sign by size.
    pub open spec fn magnitude(self) -> int {
        if self.bits >= SIGN_BIT {
            self.bits - SIGN_BIT
        } else {
            self.bits as int
        }
    }

    pub open spec fn is_nan(self) -> bool {
        self.magnitude() > INFINITY_BITS
    }

    pub open spec fn is_infinite(self) -> bool {
        self.magnitude() == INFINITY_BITS
    }

    pub open spec fn is_finite(self) -> bool {
        self.magnitude() < INFINITY_BITS
    }

    pub open spec fn is_zero(self) -> bool {
        self.magnitude() == 0
    }

    /// A finite number is `significand * 2^exponent`, but for its sign.
    pub open spec fn significand(self) -> nat {
        if self.magnitude() < 0x80_0000 {
            self.magnitude() as nat
        } else {
            (0x80_0000 + self.magnitude() % 0x80_0000) as nat
        }
    }

    pub open spec fn exponent(self) -> int {
        if self.magnitude() < 0x80_0000 {
            -149
        } else {
            self.magnitude() / 0x80_0000 - 150
        }
    }

    /// The place of a number in the order of all numbers; both zeros have the same.
    pub open spec fn rank(self) -> int {
        if self.negative() {
            -self.magnitude()
        } else {
            self.magnitude()
        }
    }

    /// The order on numbers: nothing is greater than what is not a number, nor less.
    pub open spec fn spec_gt(self, other: Single) -> bool {
        !self.is_nan() && !other.is_nan() && self.rank() > other.rank()
    }

    pub open spec fn spec_ge(self, other: Single) -> bool {
        !self.is_nan() && !other.is_nan() && self.rank() >= other.rank()
    }

    /// The single with the given sign whose bits are otherwise `magnitude`.
    pub open spec fn signed(negative: bool, magnitude: u32) -> Single {
        Single {
            bits: if negative {
                (magnitude + SIGN_BIT) as u32
            } else {
                magnitude
            },
        }
    }

    /// The single nearest to a whole number.
    #[verifier::opaque]
    pub open spec fn of_int(n: int) -> Single {
        if n < 0 {
            Single::signed(true, rounded((-n) as nat, 1, 0))
        } else {
            Single::signed(false, rounded(n as nat, 1, 0))
        }
    }

    #[verifier::opaque]
    pub open spec fn product(self, other: Single) -> Single {
        let negative = self.negative() != other.negative();
        if self.is_nan() || other.is_nan() || (self.is_infinite() && other.is_zero()) || (
        self.is_zero() && other.is_infinite()) {
            Single { bits: NAN_BITS }
        } else if self.is_infinite() || other.is_infinite() {
            Single::signed(negative, INFINITY_BITS)
        } else {
            Single::signed(
                negative,
                rounded(
                    self.significand() * other.significand(),
                    1,
                    self.exponent() + other.exponent(),
                ),
            )
        }
    }

    #[verifier::opaque]
    pub open spec fn quotient(self, other: Single) -> Single {
        let negative = self.negative() != other.negative();
        if self.is_nan() || other.is_nan() || (self.is_infinite() && other.is_infinite()) || (
        self.is_zero() && other.is_zero()) {
            Single { bits: NAN_BITS }
        } else if self.is_infinite() || other.is_zero() {
            Single::signed(negative, INFINITY_BITS)
        } else if other.is_infinite() {
            Single::signed(negative, 0)
        } else {
            Single::signed(
                negative,
                rounded(
                    self.significand(),
                    other.significand(),
                    self.exponent() - other.exponent(),
                ),
            )
        }
    }

    /// The number, sign and all, in units of `2^e`, where `e` is at most its exponent.
    pub open spec fn units(self, e: int) -> int {
        let m = self.significand() * pow2((self.exponent() - e) as nat);
        if self.negative() {
            -m
        } else {
            m as int
        }
    }

    pub open spec fn negated(self) -> Single {
        Single::signed(!self.negative(), self.magnitude() as u32)
    }

    #[verifier::opaque]
    pub open spec fn sum(self, other: Single) -> Single {
        if self.is_nan() || other.is_nan() || (self.is_infinite() && other.is_infinite()
            && self.negative() != other.negative()) {
            Single { bits: NAN_BITS }
        } else if self.is_infinite() {
            self
        } else if other.is_infinite() {
            other
        } else if self.is_zero() && other.is_zero() {
            Single::signed(self.negative() && other.negative(), 0)
        } else if self.is_zero() {
            other
        } else if other.is_zero() {
            self
        } else {
            let e = if self.exponent() <= other.exponent() {
                self.exponent()
            } else {
                other.exponent()
            };
            let units = self.units(e) + other.units(e);
            if units < 0 {
                Single::signed(true, rounded((-units) as nat, 1, e))
            } else {
                Single::signed(false, rounded(units as nat, 1, e))
            }
        }
    }

    /// The size of the number, cut off behind the point.
    pub open spec fn whole_part(self) -> nat {
        if self.exponent() >= 0 {
            self.significand() * pow2(self.exponent() as nat)
        } else {
            self.significand() / pow2((-self.exponent()) as nat)
        }
    }

    /// The number cut off behind the point and forced into the range from `low` to `high`;
    /// zero for what is not a number.
    #[verifier::opaque]
    pub open spec fn clamped(self, low: int, high: int) -> int {
        if self.is_nan() {
            0
        } else if self.is_infinite() {
            if self.negative() {
                low
            } else {
                high
            }
        } else {
            let n = if self.negative() {
                -self.whole_part()
            } else {
                self.whole_part() as int
            };
            if n < low {
                low
            } else if n > high {
                high
            } else {
                n
            }
        }
    }

    fn size(self) -> (r: u32)
        ensures
            r == self.magnitude(),
            r < SIGN_BIT,
    {
        if self.bits >= SIGN_BIT {
            self.bits - SIGN_BIT
        } else {
            self.bits
        }
    }

    fn below_zero(self) -> (r: bool)
        ensures
            r == self.negative(),
    {
        self.bits >= SIGN_BIT
    }

    fn with_sign(negative: bool, magnitude: u32) -> (r: Single)
        requires
            magnitude < SIGN_BIT,
        ensures
            r == Single::signed(negative, magnitude),
            r.magnitude() == magnitude,
            r.negative() == negative,
    {
        Single {
            bits: if negative {
                magnitude + SIGN_BIT
            } else {
                magnitude
            },
        }
    }

    fn digits(self) -> (r: u128)
        ensures
            r == self.significand(),
            r < 0x100_0000,
            !self.is_zero() ==> r > 0,
            self.exponent() > -149 ==> r >= 0x80_0000,
    {
        let size: u32 = self.size();
        if size < 0x80_0000 {
            size as u128
        } else {
            (0x80_0000 + size % 0x80_0000) as u128
        }
    }

    fn place(self) -> (r: i64)
        ensures
            r == self.exponent(),
            -149 <= r <= 105,
    {
        let size: u32 = self.size();
        if size < 0x80_0000 {
            -149
        } else {
            (size / 0x80_0000) as i64 - 150
        }
    }

    /// Whether the pattern stands for no number.
    pub fn nan(self) -> (r: bool)
        ensures
            r == self.is_nan(),
    {
        self.size() > INFINITY_BITS
    }

    /// `self > other` on numbers.
    pub fn gt(self, other: Single) -> (r: bool)
        ensures
            r == self.spec_gt(other),
    {
        let a: i64 = self.signed_size();
        let b: i64 = other.signed_size();
        !self.nan() && !other.nan() && a > b
    }

    /// `self >= other` on numbers.
    pub fn ge(self, other: Single) -> (r: bool)
        ensures
            r == self.spec_ge(other),
    {
        let a: i64 = self.signed_size();
        let b: i64 = other.signed_size();
        !self.nan() && !other.nan() && a >= b
    }

    /// The place of the number in the order of all numbers.
    pub fn signed_size(self) -> (r: i64)
        ensures
            r == self.rank(),
    {
        if self.below_zero() {
            -(self.size() as i64)
        } else {
            self.size() as i64
        }
    }

    pub fn from_u64(n: u64) -> (r: Single)
        ensures
            r == Single::of_int(n as int),
    {
        proof {
            reveal(Single::of_int);
        }
        let magnitude: u32 = round_quotient(n as u128, 1, 0);
        Single::with_sign(false, magnitude)
    }

    pub fn from_i32(n: i32) -> (r: Single)
        ensures
            r == Single::of_int(n as int),
    {
        proof {
            reveal(Single::of_int);
        }
        let size: i64 = if n < 0 {
            -(n as i64)
        } else {
            n as i64
        };
        let magnitude: u32 = round_quotient(size as u128, 1, 0);
        Single::with_sign(n < 0, magnitude)
    }

    pub fn times(self, other: Single) -> (r: Single)
        ensures
            r == self.product(other),
    {
        proof {
            reveal(Single::product);
        }
        let negative: bool = self.below_zero() != other.below_zero();
        let a: u32 = self.size();
        let b: u32 = other.size();
        if self.nan() || other.nan() || (a == INFINITY_BITS && b == 0) || (a == 0 && b
            == INFINITY_BITS) {
            Single { bits: NAN_BITS }
        } else if a == INFINITY_BITS || b == INFINITY_BITS {
            Single::with_sign(negative, INFINITY_BITS)
        } else {
            let m: u128 = self.digits();
            let n: u128 = other.digits();
            assert(m * n < 0x100_0000 * 0x100_0000) by (nonlinear_arith)
                requires
                    m < 0x100_0000,
                    n < 0x100_0000,
            ;
            Single::with_sign(negative, round_quotient(m * n, 1, self.place() + other.place()))
        }
    }

    pub fn over(self, other: Single) -> (r: Single)
        ensures
            r == self.quotient(other),
    {
        proof {
            reveal(Single::quotient);
        }
        let negative: bool = self.below_zero() != other.below_zero();
        let a: u32 = self.size();
        let b: u32 = other.size();
        if self.nan() || other.nan() || (a == INFINITY_BITS && b == INFINITY_BITS) || (a == 0 && b
            == 0) {
            Single { bits: NAN_BITS }
        } else if a == INFINITY_BITS || b == 0 {
            Single::with_sign(negative, INFINITY_BITS)
        } else if b == INFINITY_BITS {
            Single::with_sign(negative, 0)
        } else {
            Single::with_sign(
                negative,
                round_quotient(self.digits(), other.digits(), self.place() - other.place()),
            )
        }
    }

    fn units_of(self, e: i64) -> (r: i128)
        requires
            e <= self.exponent() <= e + 70,
        ensures
            r == self.units(e as int),
            -0x4000_0000_0000_0000_0000_0000 < r < 0x4000_0000_0000_0000_0000_0000,
    {
        let m: u128 = self.digits();
        let s: u32 = (self.place() - e) as u32;
        proof {
            lemma_pow2_values();
            lemma_pow2_pos(s as nat);
            assert(pow2(70) == 0x40_0000_0000_0000_0000) by {
                lemma2_to64();
                lemma_pow2_adds(64, 6);
            }
            if s < 70 {
                lemma_pow2_strictly_increases(s as nat, 70);
            }
            assert(m * pow2(s as nat) < 0x100_0000 * 0x40_0000_0000_0000_0000) by (nonlinear_arith)
                requires
                    0 <= m < 0x100_0000,
                    0 < pow2(s as nat) <= 0x40_0000_0000_0000_0000,
            ;
        }
        let n: u128 = shifted(m, s);
        if self.below_zero() {
            -(n as i128)
        } else {
            n as i128
        }
    }

    pub fn plus(self, other: Single) -> (r: Single)
        ensures
            r == self.sum(other),
    {
        proof {
            reveal(Single::sum);
        }
        let a: u32 = self.size();
        let b: u32 = other.size();
        if self.nan() || other.nan() || (a == INFINITY_BITS && b == INFINITY_BITS
            && self.below_zero() != other.below_zero()) {
            Single { bits: NAN_BITS }
        } else if a == INFINITY_BITS {
            self
        } else if b == INFINITY_BITS {
            other
        } else if a == 0 && b == 0 {
            Single::with_sign(self.below_zero() && other.below_zero(), 0)
        } else if a == 0 {
            other
        } else if b == 0 {
            self
        } else if self.place() - other.place() > 70 {
            proof {
                lemma_sum_far(self, other);
            }
            self
        } else if other.place() - self.place() > 70 {
            proof {
                lemma_sum_far(other, self);
            }
            other
        } else {
            let e: i64 = if self.place() <= other.place() {
                self.place()
            } else {
                other.place()
            };
            let units: i128 = self.units_of(e) + other.units_of(e);
            if units < 0 {
                Single::with_sign(true, round_quotient((-units) as u128, 1, e))
            } else {
                Single::with_sign(false, round_quotient(units as u128, 1, e))
            }
        }
    }

    pub fn minus(self, other: Single) -> (r: Single)
        ensures
            r == self.sum(other.negated()),
    {
        self.plus(Single::with_sign(!other.below_zero(), other.size()))
    }

    /// The smaller one of two numbers, and the other one where one is not a number.
    pub fn min(self, other: Single) -> (r: Single)
        ensures
            r == (if other.spec_gt(self) || other.is_nan() {
                self
            } else {
                other
            }),
    {
        if other.gt(self) || other.nan() {
            self
        } else {
            other
        }
    }

    /// The size of a finite number cut off behind the point, or two to the power 63 where it
    /// is larger.
    fn whole(self) -> (r: u64)
        requires
            self.is_finite(),
        ensures
            self.whole_part() < 0x8000_0000_0000_0000 ==> r == self.whole_part(),
            self.whole_part() >= 0x8000_0000_0000_0000 ==> r == 0x8000_0000_0000_0000,
    {
        let m: u128 = self.digits();
        let e: i64 = self.place();
        proof {
            lemma_pow2_values();
            lemma2_to64_rest();
        }
        if e >= 40 {
            proof {
                if e > 40 {
                    lemma_pow2_strictly_increases(40, e as nat);
                }
                assert(m * pow2(e as nat) >= 0x80_0000 * 0x100_0000_0000) by (nonlinear_arith)
                    requires
                        m >= 0x80_0000,
                        pow2(e as nat) >= 0x100_0000_0000,
                ;
            }
            0x8000_0000_0000_0000
        } else if e >= 0 {
            proof {
                lemma_pow2_pos(e as nat);
                if e < 39 {
                    lemma_pow2_strictly_increases(e as nat, 39);
                }
                assert(m * pow2(e as nat) < 0x100_0000 * 0x80_0000_0000) by (nonlinear_arith)
                    requires
                        0 <= m < 0x100_0000,
                        0 < pow2(e as nat) <= 0x80_0000_0000,
                ;
            }
            shifted(m, e as u32) as u64
        } else if e > -25 {
            proof {
                if e > -24 {
                    lemma_pow2_strictly_increases((-e) as nat, 24);
                }
                lemma_pow2_pos((-e) as nat);
                assert(1 * pow2((-e) as nat) == pow2((-e) as nat)) by (nonlinear_arith);
            }
            let d: u128 = shifted(1, (-e) as u32);
            assert(m / d <= m) by (nonlinear_arith)
                requires
                    d > 0,
                    m >= 0,
            ;
            (m / d) as u64
        } else {
            proof {
                lemma_pow2_strictly_increases(24, (-e) as nat);
                let d = pow2((-e) as nat);
                assert(m as nat / d == 0) by (nonlinear_arith)
                    requires
                        0 <= m < 0x100_0000,
                        d > 0x100_0000,
                ;
            }
            0
        }
    }

    /// The number as an unsigned integer: cut off behind the point, and the nearest bound
    /// where it is out of range.
    pub fn to_u32(self) -> (r: u32)
        ensures
            r == self.clamped(0, u32::MAX as int),
    {
        proof {
            reveal(Single::clamped);
        }
        let a: u32 = self.size();
        if self.nan() {
            0
        } else if a == INFINITY_BITS {
            if self.below_zero() {
                0
            } else {
                u32::MAX
            }
        } else {
            let n: u64 = self.whole();
            if self.below_zero() {
                0
            } else if n > u32::MAX as u64 {
                u32::MAX
            } else {
                n as u32
            }
        }
    }

    /// The number as a signed integer, in the same way.
    pub fn to_i32(self) -> (r: i32)
        ensures
            r == self.clamped(i32::MIN as int, i32::MAX as int),
    {
        proof {
            reveal(Single::clamped);
        }
        let a: u32 = self.size();
        if self.nan() {
            0
        } else if a == INFINITY_BITS {
            if self.below_zero() {
                i32::MIN
            } else {
                i32::MAX
            }
        } else {
            let n: u64 = self.whole();
            if self.below_zero() {
                if n > 0x8000_0000 {
                    i32::MIN
                } else {
                    (-(n as i64)) as i32
                }
            } else if n > i32::MAX as u64 {
                i32::MAX
            } else {
                n as i32
            }
        }
    }
}

/// Adding or taking away a number that is far smaller changes nothing.
proof fn lemma_sum_far(large: Single, small: Single)
    requires
        large.is_finite(),
        small.is_finite(),
        !small.is_zero(),
        large.exponent() - small.exponent() > 70,
    ensures
        large.sum(small) == large,
        small.sum(large) == large,
{
    reveal(Single::sum);
    lemma_pow2_values();
    let g = (large.exponent() - small.exponent()) as nat;
    let e = small.exponent();
    let m = large.significand();
    let t = small.significand();
    let p = pow2(g);
    lemma_pow2_pos(g);
    assert(p >= 0x1000_0000) by {
        lemma2_to64();
        lemma_pow2_strictly_increases(28, g);
    }
    assert(t * pow2(0) == t) by (nonlinear_arith)
        requires
            pow2(0) == 1,
    ;
    assert(0x80_0000 <= m < 0x100_0000);
    assert(0 < t < 0x100_0000);
    assert(m * p >= 0x80_0000 * p) by (nonlinear_arith)
        requires
            m >= 0x80_0000,
            p > 0,
    ;
    assert(0x80_0000 * p >= 0x80_0000);
    let plus = (m * p + t) as nat;
    let minus = (m * p - t) as nat;
    lemma_rounded_near(m, g, plus, e);
    lemma_rounded_near(m, g, minus, e);
    let size = large.magnitude();
    assert(size == (large.exponent() + 149) * 0x80_0000 + m);
    assert(Single::signed(large.negative(), size as u32) == large);
}

/// What lies close to `m * 2^g` in units of `2^e` rounds to it.
proof fn lemma_rounded_near(m: nat, g: nat, n: nat, e: int)
    requires
        0x80_0000 <= m < 0x100_0000,
        g > 70,
        -149 <= e,
        e + g <= 104,
        m * pow2(g) - 0x100_0000 < n < m * pow2(g) + 0x100_0000,
    ensures
        rounded(n, 1, e) == (e + g + 149) * 0x80_0000 + m,
{
    lemma_pow2_values();
    let p = pow2(g);
    lemma2_to64();
    lemma_pow2_strictly_increases(28, g);
    lemma_pow2_adds(23, g);
    lemma_pow2_adds(22, g);
    lemma_pow2_adds(24, g);
    assert(pow2(22) == 0x40_0000);
    assert(n * pow2(0) == n) by (nonlinear_arith)
        requires
            pow2(0) == 1,
    ;
    assert(1 * pow2(23 + g) == pow2(23 + g) && 1 * pow2(22 + g) == pow2(22 + g) && 1 * pow2(24 + g)
        == pow2(24 + g)) by (nonlinear_arith);
    assert(m * p <= 0xff_ffff * p) by (nonlinear_arith)
        requires
            m <= 0xff_ffff,
            p > 0,
    ;
    assert(m * p >= 0x80_0000 * p) by (nonlinear_arith)
        requires
            m >= 0x80_0000,
            p > 0,
    ;
    if n >= 0x80_0000 * p {
        let l = 23 + g as int;
        assert(reaches(n, 1, l));
        assert(!reaches(n, 1, l + 1));
        lemma_floor_log(n, 1, l);
        let d = pow2((23 + g) as nat);
        assert(d * pow2(0) == d) by (nonlinear_arith)
            requires
                pow2(0) == 1,
        ;
        assert(rounded_significand(n, 1, e) == half_even(n * 0x80_0000, d));
        assert(d == 0x80_0000 * p);
        assert(m * d == 0x80_0000 * (m * p)) by (nonlinear_arith)
            requires
                d == 0x80_0000 * p,
        ;
        lemma_half_even_near(n * 0x80_0000, d, m, 0x100_0000 * 0x80_0000);
    } else {
        let l = 22 + g as int;
        assert(m == 0x80_0000) by {
            if m > 0x80_0000 {
                assert(m * p >= 0x80_0001 * p) by (nonlinear_arith)
                    requires
                        m >= 0x80_0001,
                        p > 0,
                ;
            }
        }
        assert(reaches(n, 1, l));
        assert(!reaches(n, 1, l + 1));
        lemma_floor_log(n, 1, l);
        let d = pow2((22 + g) as nat);
        assert(d * pow2(0) == d) by (nonlinear_arith)
            requires
                pow2(0) == 1,
        ;
        assert(rounded_significand(n, 1, e) == half_even(n * 0x80_0000, d));
        assert(d == 0x40_0000 * p);
        lemma_half_even_near(n * 0x80_0000, d, 0x100_0000, 0x100_0000 * 0x80_0000);
    }
}

proof fn lemma_half_even_near(n: nat, d: nat, q: nat, slack: nat)
    requires
        2 * slack < d,
        q * d - slack <= n <= q * d + slack,
        q > 0,
    ensures
        half_even(n, d) == q,
{
    if n >= q * d {
        let r = n - q * d;
        assert(n / d == q && n % d == r) by {
            vstd::arithmetic::div_mod::lemma_fundamental_div_mod_converse(
                n as int,
                d as int,
                q as int,
                r,
            );
        }
    } else {
        let r = n - (q - 1) * d;
        assert((q - 1) * d == q * d - d) by (nonlinear_arith);
        assert(n / d == q - 1 && n % d == r) by {
            vstd::arithmetic::div_mod::lemma_fundamental_div_mod_converse(
                n as int,
                d as int,
                q - 1,
                r,
            );
        }
    }
}

/// It does not matter in which order two numbers are added.
pub proof fn law_sum_commutes(a: Single, b: Single)
    ensures
        a.sum(b) == b.sum(a),
{
    reveal(Single::sum);
}

} // verus!
