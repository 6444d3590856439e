//! The numbers that singles stand for, and how near the results of arithmetic come to the
//! numbers that were meant.

use vstd::arithmetic::power2::*;
use vstd::prelude::*;

use crate::single;
use crate::single::{Single, INFINITY_BITS, ONE_BITS};

verus! {

/// Two to the power `e`.
pub open spec fn power(e: int) -> real {
    if e >= 0 {
        pow2(e as nat) as real
    } else {
        1real / (pow2((-e) as nat) as real)
    }
}

/// The number that a finite single stands for: a sign bit, eight bits for the power of two, and
/// 23 bits behind the first digit, which is not written. Where the eight bits are zero the first
/// digit is zero as well.
#[verifier::opaque]
pub open spec fn number(s: Single) -> real {
    let size = s.bits as int % 0x8000_0000;
    let field = size / 0x80_0000;
    let digits = size % 0x80_0000;
    let m = if field == 0 {
        digits as real * power(-149)
    } else {
        (0x80_0000 + digits) as real * power(field - 150)
    };
    if s.bits >= 0x8000_0000 {
        -m
    } else {
        m
    }
}

pub open spec fn size_of(x: real) -> real {
    if x < 0real {
        -x
    } else {
        x
    }
}

/// A number is as near to another one as a single can be: the difference is at most the part two
/// to the power -24 of it, or, for numbers next to zero, half of the least single.
pub open spec fn close(v: real, x: real) -> bool {
    size_of(v - x) * power(24) <= size_of(x) + power(-126)
}

pub proof fn lemma_power_step(e: int)
    ensures
        power(e + 1) == 2real * power(e),
        power(e) > 0real,
{
    lemma2_to64();
    if e >= 0 {
        lemma_pow2_unfold((e + 1) as nat);
        lemma_pow2_pos(e as nat);
    } else {
        lemma_pow2_unfold((-e) as nat);
        lemma_pow2_pos((-e - 1) as nat);
        let p = pow2((-e - 1) as nat) as real;
        assert(1real / p == 2real * (1real / (2real * p))) by (nonlinear_arith)
            requires
                p > 0real,
        ;
        assert(1real / (2real * p) > 0real) by (nonlinear_arith)
            requires
                p > 0real,
        ;
        if e == -1 {
            assert(1real / 1real == 1real) by (nonlinear_arith);
        }
    }
}

pub proof fn lemma_power_sum(a: int, b: int)
    ensures
        power(a + b) == power(a) * power(b),
    decreases
            if b < 0 {
                -b
            } else {
                b
            },
{
    lemma2_to64();
    let p = power(a);
    if b == 0 {
        assert(p * 1real == p) by (nonlinear_arith);
    } else if b > 0 {
        lemma_power_sum(a, b - 1);
        lemma_power_step(a + b - 1);
        lemma_power_step(b - 1);
        let q = power(b - 1);
        assert(2real * (p * q) == p * (2real * q)) by (nonlinear_arith);
    } else {
        lemma_power_sum(a, b + 1);
        lemma_power_step(a + b);
        lemma_power_step(b);
        let q = power(b);
        assert(p * (2real * q) == 2real * (p * q)) by (nonlinear_arith);
    }
}

pub proof fn lemma_power_rises(a: int, b: int)
    requires
        a <= b,
    ensures
        0real < power(a) <= power(b),
    decreases b - a,
{
    lemma_power_step(a);
    if a < b {
        lemma_power_rises(a, b - 1);
        lemma_power_step(b - 1);
    }
}

pub proof fn lemma_powers()
    ensures
        power(-1) == 1real / 2real,
        power(0) == 1real,
        power(1) == 2real,
        power(16) == 65536real,
        power(23) == 8388608real,
        power(24) == 16777216real,
        power(-126) > 0real,
        power(-126) < 1real / 1000000000000real,
{
    lemma2_to64();
    lemma_power_rises(-126, -40);
    lemma_power_sum(-40, 40);
    lemma2_to64_rest();
    let p = power(-40);
    assert(p < 1real / 1000000000000real) by (nonlinear_arith)
        requires
            p * 1099511627776real == 1real,
    ;
}

/// What `single::reaches` says of the quotient.
proof fn lemma_reaches(num: nat, den: nat, l: int)
    requires
        den > 0,
    ensures
        single::reaches(num, den, l) <==> power(l) <= num as real / (den as real),
{
    lemma2_to64();
    let n = num as real;
    let d = den as real;
    if l >= 0 {
        let p = pow2(l as nat);
        let pr = p as real;
        assert(num * pow2(0) == num) by (nonlinear_arith)
            requires
                pow2(0) == 1,
        ;
        assert((den * p) as real == d * pr) by (nonlinear_arith)
            requires
                d == den as real,
                pr == p as real,
        ;
        assert(d * pr <= n <==> pr <= n / d) by (nonlinear_arith)
            requires
                d > 0real,
        ;
        assert(single::positive_part(-l) == 0);
    } else {
        let p = pow2((-l) as nat);
        let pr = p as real;
        lemma_pow2_pos((-l) as nat);
        assert(den * pow2(0) == den) by (nonlinear_arith)
            requires
                pow2(0) == 1,
        ;
        assert((num * p) as real == n * pr) by (nonlinear_arith)
            requires
                n == num as real,
                pr == p as real,
        ;
        assert(d <= n * pr <==> 1real / pr <= n / d) by (nonlinear_arith)
            requires
                d > 0real,
                pr > 0real,
        ;
    }
}

proof fn lemma_pow2_large(n: nat)
    ensures
        n < pow2(n),
    decreases n,
{
    lemma2_to64();
    if n > 0 {
        lemma_pow2_large((n - 1) as nat);
        lemma_pow2_unfold(n);
    }
}

proof fn lemma_binade_between(num: nat, den: nat, low: int, high: int)
    requires
        low < high,
        single::reaches(num, den, low),
        !single::reaches(num, den, high),
    ensures
        exists|l: int| single::in_binade(num, den, l),
    decreases high - low,
{
    if low + 1 == high {
        assert(single::in_binade(num, den, low));
    } else if single::reaches(num, den, low + 1) {
        lemma_binade_between(num, den, low + 1, high);
    } else {
        assert(single::in_binade(num, den, low));
    }
}

/// Every quotient lies between a power of two and the next one.
proof fn lemma_binade(num: nat, den: nat)
    requires
        num > 0,
        den > 0,
    ensures
        ({
            let l = single::floor_log(num, den);
            power(l) <= num as real / (den as real) && num as real / (den as real) < 2real * power(l)
        }),
{
    lemma2_to64();
    lemma_pow2_large(den);
    lemma_pow2_large((num + 1) as nat);
    assert(single::reaches(num, den, -den)) by {
        assert(den * pow2(0) <= num * pow2(den)) by (nonlinear_arith)
            requires
                pow2(0) == 1,
                num > 0,
                den < pow2(den),
        ;
    }
    assert(!single::reaches(num, den, num as int + 1)) by {
        assert(den * pow2((num + 1) as nat) > num * pow2(0)) by (nonlinear_arith)
            requires
                pow2(0) == 1,
                den > 0,
                num + 1 < pow2((num + 1) as nat),
        ;
    }
    lemma_binade_between(num, den, -den, num as int + 1);
    let l = single::floor_log(num, den);
    assert(single::in_binade(num, den, l));
    lemma_reaches(num, den, l);
    lemma_reaches(num, den, l + 1);
    lemma_power_step(l);
}

proof fn lemma_half_even(n: nat, d: nat)
    requires
        d > 0,
    ensures
        size_of(single::half_even(n, d) as real - n as real / d as real) <= 1real / 2real,
        size_of(single::half_even(n, d) as real - n as real / d as real) == 1real / 2real
            ==> single::half_even(n, d) % 2 == 0,
{
    let below = n / d;
    let rest = n % d;
    vstd::arithmetic::div_mod::lemma_fundamental_div_mod(n as int, d as int);
    assert(n == d * below + rest);
    assert(0 <= rest < d) by (nonlinear_arith)
        requires
            rest == n % d,
            d > 0,
    ;
    let nr = n as real;
    let dr = d as real;
    let b = below as real;
    let r = rest as real;
    assert(nr == dr * b + r) by (nonlinear_arith)
        requires
            n == d * below + rest,
            nr == n as real,
            dr == d as real,
            b == below as real,
            r == rest as real,
    ;
    assert(nr / dr == b + r / dr) by (nonlinear_arith)
        requires
            nr == dr * b + r,
            dr > 0real,
    ;
    let t = r / dr;
    assert(t * dr == r && 0real <= t < 1real) by (nonlinear_arith)
        requires
            t == r / dr,
            0real <= r < dr,
    ;
    if 2 * rest <= d {
        assert(t <= 1real / 2real) by (nonlinear_arith)
            requires
                t * dr == r,
                2real * r <= dr,
                dr > 0real,
        ;
    }
    if 2 * rest >= d {
        assert(t >= 1real / 2real) by (nonlinear_arith)
            requires
                t * dr == r,
                2real * r >= dr,
                dr > 0real,
        ;
    }
    if t == 1real / 2real {
        assert(2real * r == dr) by (nonlinear_arith)
            requires
                t * dr == r,
                t == 1real / 2real,
        ;
        assert(2 * rest == d);
    }
}

/// The parts of a shift as powers of two.
proof fn lemma_shift(l: int)
    ensures
        pow2(single::positive_part(l)) > 0,
        pow2(single::positive_part(-l)) > 0,
        pow2(single::positive_part(l)) as real == power(l) * (pow2(
            single::positive_part(-l),
        ) as real),
{
    lemma2_to64();
    lemma_pow2_pos(single::positive_part(l));
    lemma_pow2_pos(single::positive_part(-l));
    if l < 0 {
        let p = pow2((-l) as nat) as real;
        assert(1real == (1real / p) * p) by (nonlinear_arith)
            requires
                p > 0real,
        ;
    } else {
        let p = power(l);
        assert(p == p * 1real) by (nonlinear_arith);
    }
}

/// The digits that rounding keeps, against the number in units of its last place.
proof fn lemma_significand(num: nat, den: nat, k: int)
    requires
        num > 0,
        den > 0,
    ensures
        ({
            let e = single::last_place(num, den, k);
            let q = single::rounded_significand(num, den, k);
            let x = num as real / den as real * power(k);
            &&& size_of(q as real * power(e) - x) * 2real <= power(e)
            &&& size_of(q as real * power(e) - x) * 2real == power(e) ==> q % 2 == 0
            &&& q <= 0x100_0000
            &&& e > -149 ==> q >= 0x80_0000
            &&& e > -149 ==> power(e + 23) <= x
            &&& e >= -149
        }),
{
    let l = single::floor_log(num, den);
    let e = single::last_place(num, den, k);
    let s = k + l - e;
    let q = single::rounded_significand(num, den, k);
    lemma_binade(num, den);
    lemma_shift(-l);
    lemma_shift(s);
    let a = pow2(single::positive_part(-l));
    let b = pow2(single::positive_part(s));
    let c = pow2(single::positive_part(l));
    let f = pow2(single::positive_part(-s));
    let top = num * a * b;
    let low = den * c * f;
    assert(low > 0) by (nonlinear_arith)
        requires
            low == den * c * f,
            den > 0,
            c > 0,
            f > 0,
    ;
    lemma_half_even(top, low);
    let x = num as real / den as real;
    let (nr, dr, ar, br, cr, fr) = (
        num as real,
        den as real,
        a as real,
        b as real,
        c as real,
        f as real,
    );
    assert(top as real == nr * ar * br) by (nonlinear_arith)
        requires
            top == num * a * b,
            nr == num as real,
            ar == a as real,
            br == b as real,
    ;
    assert(low as real == dr * cr * fr) by (nonlinear_arith)
        requires
            low == den * c * f,
            dr == den as real,
            cr == c as real,
            fr == f as real,
    ;
    let pl = power(-l);
    let ps = power(s);
    assert(ar == pl * cr && br == ps * fr);
    let y = x * pl * ps;
    assert(top as real / low as real == y) by (nonlinear_arith)
        requires
            top as real == nr * ar * br,
            low as real == dr * cr * fr,
            x == nr / dr,
            y == x * pl * ps,
            ar == pl * cr,
            br == ps * fr,
            dr > 0real,
            cr > 0real,
            fr > 0real,
    ;
    lemma_power_sum(-l, s);
    lemma_power_sum(s - l, e);
    lemma_power_sum(l, -l);
    lemma2_to64();
    let pe = power(e);
    lemma_power_step(e);
    lemma_power_step(l);
    lemma_power_step(-l);
    lemma_power_step(s);
    let pk = power(k);
    assert(pk == power(s - l) * pe);
    assert(y * pe == x * pk) by (nonlinear_arith)
        requires
            y == x * pl * ps,
            pk == pl * ps * pe,
    ;
    let qr = q as real;
    let z = x * pk;
    assert(size_of(qr * pe - z) * 2real <= pe) by (nonlinear_arith)
        requires
            y * pe == z,
            -1real / 2real <= qr - y <= 1real / 2real,
            pe > 0real,
            size_of(qr * pe - z) == if qr * pe - z < 0real {
                -(qr * pe - z)
            } else {
                qr * pe - z
            },
    ;
    assert(size_of(qr * pe - z) * 2real == pe ==> size_of(qr - y) == 1real / 2real) by (nonlinear_arith)
        requires
            y * pe == z,
            pe > 0real,
            size_of(qr * pe - z) == if qr * pe - z < 0real {
                -(qr * pe - z)
            } else {
                qr * pe - z
            },
            size_of(qr - y) == if qr - y < 0real {
                -(qr - y)
            } else {
                qr - y
            },
    ;
    let lp = power(l);
    assert(lp * pl == 1real);
    assert(1real <= x * pl < 2real) by (nonlinear_arith)
        requires
            lp * pl == 1real,
            lp <= x < 2real * lp,
            lp > 0real,
            pl > 0real,
    ;
    let xp = x * pl;
    assert(y < 2real * ps && y >= ps) by (nonlinear_arith)
        requires
            y == xp * ps,
            1real <= xp < 2real,
            ps > 0real,
    ;
    lemma_power_rises(s, 23);
    lemma_powers();
    assert(qr < 16777217real);
    if e > -149 {
        assert(s == 23);
        assert(qr > 8388607real);
        lemma_power_sum(l, k);
        lemma_power_step(k);
        assert(e + 23 == l + k);
        assert(lp * pk <= x * pk) by (nonlinear_arith)
            requires
                lp <= x,
                pk > 0real,
        ;
    }
}

/// The number of a single by its digits and its power of two.
proof fn lemma_number(s: Single)
    ensures
        number(s) == if s.negative() {
            -(s.significand() as real * power(s.exponent()))
        } else {
            s.significand() as real * power(s.exponent())
        },
{
    reveal(number);
    assert(s.bits as int % 0x8000_0000 == s.magnitude());
}

/// The number of what rounding gives, by its digits.
proof fn lemma_rounded_number(num: nat, den: nat, k: int)
    requires
        num > 0,
        den > 0,
        single::rounded(num, den, k) < INFINITY_BITS,
    ensures
        ({
            let bits = single::rounded(num, den, k);
            let q = single::rounded_significand(num, den, k);
            &&& number(Single { bits }) == q as real * power(single::last_place(num, den, k))
            &&& bits % 2 == q % 2
        }),
{
    reveal(number);
    let e = single::last_place(num, den, k);
    let q = single::rounded_significand(num, den, k);
    lemma_significand(num, den, k);
    let sum = (e + 149) * 0x80_0000 + q;
    let bits = single::rounded(num, den, k);
    let v = number(Single { bits });
    let pe = power(e);
    lemma_power_step(e);
    assert(bits == sum);
    if q == 0x100_0000 {
        assert(sum == (e + 151) * 0x80_0000);
        assert(sum / 0x80_0000 == e + 151 && sum % 0x80_0000 == 0);
        assert(v == 0x80_0000 as real * power(e + 1));
        assert(8388608real * (2real * pe) == 16777216real * pe) by (nonlinear_arith);
    } else if q >= 0x80_0000 {
        assert(sum == (e + 150) * 0x80_0000 + (q - 0x80_0000));
        assert(sum / 0x80_0000 == e + 150 && sum % 0x80_0000 == q - 0x80_0000);
    } else {
        assert(e == -149);
        assert(sum == q);
    }
}

/// The number of what rounding gives.
proof fn lemma_rounded(num: nat, den: nat, k: int)
    requires
        den > 0,
    ensures
        ({
            let x = num as real / (den as real) * power(k);
            let bits = single::rounded(num, den, k);
            &&& bits <= INFINITY_BITS
            &&& bits < INFINITY_BITS ==> number(Single { bits }) >= 0real && close(
                number(Single { bits }),
                x,
            )
            &&& x < power(127) ==> bits < INFINITY_BITS
            &&& x >= 0real
        }),
{
    reveal(number);
    let n = num as real;
    let d = den as real;
    let x = n / d * power(k);
    let bits = single::rounded(num, den, k);
    lemma_power_step(k);
    lemma_power_step(-149);
    lemma_powers();
    let p = power(k);
    assert(x >= 0real) by (nonlinear_arith)
        requires
            x == n / d * p,
            n >= 0real,
            d > 0real,
            p > 0real,
    ;
    if num == 0 {
        assert(x == 0real) by (nonlinear_arith)
            requires
                x == n / d * p,
                n == 0real,
                d > 0real,
        ;
        let t = power(-149);
        assert(0real * t == 0real) by (nonlinear_arith);
        assert(number(Single { bits }) == 0real);
        assert(0real * power(24) == 0real) by (nonlinear_arith);
        lemma_power_rises(0, 127);
    } else {
        let e = single::last_place(num, den, k);
        let q = single::rounded_significand(num, den, k);
        lemma_significand(num, den, k);
        let sum = (e + 149) * 0x80_0000 + q;
        if sum >= INFINITY_BITS {
            lemma_power_rises(127, e + 23);
        } else {
            let v = number(Single { bits });
            let pe = power(e);
            let qr = q as real;
            lemma_power_step(e);
            lemma_rounded_number(num, den, k);
            assert(v >= 0real) by (nonlinear_arith)
                requires
                    v == qr * pe,
                    qr >= 0real,
                    pe > 0real,
            ;
            let t = size_of(v - x);
            if e > -149 {
                lemma_power_sum(e, 23);
                assert(t * 16777216real <= x) by (nonlinear_arith)
                    requires
                        t * 2real <= pe,
                        pe * 8388608real <= x,
                ;
            } else {
                lemma_power_sum(-149, 23);
                assert(t * 16777216real <= power(-126)) by (nonlinear_arith)
                    requires
                        t * 2real <= pe,
                        pe * 8388608real == power(-126),
                ;
            }
        }
    }
}

/// No multiple of the last place is nearer to a number than the rounded one.
proof fn lemma_nearest_multiple(q: int, j: int, pe: real, x: real)
    requires
        pe > 0real,
        size_of(q as real * pe - x) * 2real <= pe,
    ensures
        size_of(q as real * pe - x) <= size_of(j as real * pe - x),
        size_of(q as real * pe - x) == size_of(j as real * pe - x) && q != j ==> size_of(
            q as real * pe - x,
        ) * 2real == pe,
{
    let (qr, jr) = (q as real, j as real);
    let (a, b) = (qr * pe, jr * pe);
    if q < j {
        assert(b >= a + pe) by (nonlinear_arith)
            requires
                a == qr * pe,
                b == jr * pe,
                jr >= qr + 1real,
                pe > 0real,
        ;
    } else if j < q {
        assert(b <= a - pe) by (nonlinear_arith)
            requires
                a == qr * pe,
                b == jr * pe,
                jr <= qr - 1real,
                pe > 0real,
        ;
    }
}

/// No single is nearer to a number than the rounded one, and where one is as near, the rounded one
/// is even.
proof fn lemma_rounded_nearest(num: nat, den: nat, k: int, c: Single)
    requires
        den > 0,
        c.is_finite(),
        single::rounded(num, den, k) < INFINITY_BITS,
    ensures
        ({
            let x = num as real / (den as real) * power(k);
            let bits = single::rounded(num, den, k);
            let v = number(Single { bits });
            &&& size_of(v - x) <= size_of(number(c) - x)
            &&& size_of(v - x) == size_of(number(c) - x) && v != number(c) ==> bits % 2 == 0
        }),
{
    reveal(number);
    lemma_rounded(num, den, k);
    lemma_number(c);
    lemma_number_sign(c);
    let n = num as real;
    let d = den as real;
    let pk = power(k);
    let x = n / d * pk;
    let bits = single::rounded(num, den, k);
    let v = number(Single { bits });
    if num == 0 {
        assert(x == 0real) by (nonlinear_arith)
            requires
                x == n / d * pk,
                n == 0real,
                d > 0real,
        ;
        let t = power(-149);
        assert(0real * t == 0real) by (nonlinear_arith);
    } else {
        let e = single::last_place(num, den, k);
        let q = single::rounded_significand(num, den, k);
        lemma_significand(num, den, k);
        lemma_rounded_number(num, den, k);
        lemma_power_step(e);
        lemma_powers();
        let pe = power(e);
        let w = number(c);
        if c.negative() {
            lemma_nearest_multiple(q as int, 0, pe, x);
            assert(0real * pe == 0real) by (nonlinear_arith);
            assert(q == 0 ==> q as real * pe == 0real);
        } else if c.exponent() >= e {
            lemma_units(c, e);
            let j = c.units(e);
            lemma_nearest_multiple(q as int, j, pe, x);
        } else {
            let g = 0x80_0000int;
            lemma_nearest_multiple(q as int, g, pe, x);
            lemma_power_rises(c.exponent() + 1, e);
            lemma_power_step(c.exponent());
            lemma_power_sum(e, 23);
            let m = c.significand() as real;
            let pc = power(c.exponent());
            assert(c.significand() < 0x100_0000);
            assert(w < 8388608real * pe) by (nonlinear_arith)
                requires
                    w == m * pc,
                    m < 16777216real,
                    2real * pc <= pe,
                    pc > 0real,
            ;
        }
    }
}

/// The number with the other sign.
proof fn lemma_signed(negative: bool, bits: u32)
    requires
        bits <= INFINITY_BITS,
    ensures
        ({
            let s = Single::signed(negative, bits);
            &&& s.is_finite() <==> bits < INFINITY_BITS
            &&& !s.is_nan()
            &&& number(s) == if negative {
                -number(Single { bits })
            } else {
                number(Single { bits })
            }
        }),
{
    reveal(number);
    let s = Single::signed(negative, bits);
    assert(s.bits as int % 0x8000_0000 == bits as int);
    assert((Single { bits }).bits as int % 0x8000_0000 == bits as int);
}

pub proof fn law_negated(s: Single)
    requires
        s.is_finite(),
    ensures
        s.negated().is_finite(),
        number(s.negated()) == -number(s),
{
    reveal(number);
    let t = s.negated();
    assert(t.bits as int % 0x8000_0000 == s.bits as int % 0x8000_0000);
}

/// The single of a whole number is as near to it as a single can be, and is the number itself up
/// to two to the power 24.
pub proof fn law_of_int(n: int)
    requires
        size_of(n as real) < power(127),
    ensures
        Single::of_int(n).is_finite(),
        close(number(Single::of_int(n)), n as real),
        -0x100_0000 <= n <= 0x100_0000 ==> number(Single::of_int(n)) == n as real,
        n >= 0 ==> number(Single::of_int(n)) >= 0real,
{
    reveal(number);
    reveal(Single::of_int);
    lemma_powers();
    let m: nat = if n < 0 {
        (-n) as nat
    } else {
        n as nat
    };
    let mr = m as real;
    assert(mr / 1real * 1real == mr) by (nonlinear_arith);
    lemma_rounded(m, 1, 0);
    let bits = single::rounded(m, 1, 0);
    lemma_signed(n < 0, bits);
    if 0 < m && m <= 0x100_0000 {
        lemma_whole_exact(m);
    }
    if m == 0 {
        let t = power(-149);
        assert(0real * t == 0real) by (nonlinear_arith);
    }
}

proof fn lemma_whole_exact(m: nat)
    requires
        0 < m <= 0x100_0000,
    ensures
        number(Single { bits: single::rounded(m, 1, 0) }) == m as real,
{
    lemma_powers();
    lemma_binade(m, 1);
    lemma_significand(m, 1, 0);
    lemma_rounded(m, 1, 0);
    let mr = m as real;
    assert(mr / 1real == mr && mr * 1real == mr) by (nonlinear_arith);
    let l = single::floor_log(m, 1);
    let e = single::last_place(m, 1, 0);
    let q = single::rounded_significand(m, 1, 0);
    if l > 24 {
        lemma_power_rises(25, l);
        lemma_power_step(24);
    }
    if l < 0 {
        lemma_power_rises(l, -1);
    }
    assert(0 <= l <= 24);
    assert(e == l - 23);
    let pe = power(e);
    let qr = q as real;
    let sum = (e + 149) * 0x80_0000 + q;
    assert(sum < INFINITY_BITS);
    let v = number(Single { bits: single::rounded(m, 1, 0) });
    lemma_power_step(e);
    lemma_rounded_number(m, 1, 0);
    if l == 24 {
        assert(m == 0x100_0000);
        assert(e == 1);
        assert(qr * 2real == mr) by {
            assert(size_of(qr * 2real - mr) * 2real <= 2real);
        }
    } else {
        lemma_power_sum(e, -e);
        lemma_power_step(-e);
        let u = pow2((-e) as nat);
        let ur = u as real;
        let w = m * u;
        assert(w as real == mr * ur) by (nonlinear_arith)
            requires
                w == m * u,
                ur == u as real,
                mr == m as real,
        ;
        let wr = w as real;
        assert(pe * ur == 1real);
        assert(wr * pe == mr) by (nonlinear_arith)
            requires
                wr == mr * ur,
                pe * ur == 1real,
        ;
        assert(-1real <= (qr - wr) * 2real <= 1real) by (nonlinear_arith)
            requires
                wr * pe == mr,
                pe > 0real,
                (qr * pe - mr) * 2real <= pe,
                -(qr * pe - mr) * 2real <= pe,
        ;
        assert(q == w);
    }
}

/// A sum is as near to the sum of the numbers as a single can be.
pub proof fn law_sum(a: Single, b: Single)
    requires
        a.is_finite(),
        b.is_finite(),
        size_of(number(a) + number(b)) < power(127),
    ensures
        a.sum(b).is_finite(),
        close(number(a.sum(b)), number(a) + number(b)),
{
    reveal(number);
    reveal(Single::sum);
    lemma_number(a);
    lemma_number(b);
    lemma_powers();
    let (x, y) = (number(a), number(b));
    if a.is_zero() {
        let t = power(a.exponent());
        assert(0real * t == 0real) by (nonlinear_arith);
    }
    if b.is_zero() {
        let t = power(b.exponent());
        assert(0real * t == 0real) by (nonlinear_arith);
    }
    assert(0real * power(24) == 0real) by (nonlinear_arith);
    if a.is_zero() && b.is_zero() {
        lemma_signed(a.negative() && b.negative(), 0);
        let t = power(-149);
        assert(0real * t == 0real) by (nonlinear_arith);
    } else if !a.is_zero() && !b.is_zero() {
        let e = if a.exponent() <= b.exponent() {
            a.exponent()
        } else {
            b.exponent()
        };
        lemma_units(a, e);
        lemma_units(b, e);
        let (i, j) = (a.units(e), b.units(e));
        let p = power(e);
        lemma_power_step(e);
        let (ir, jr) = (i as real, j as real);
        assert((ir + jr) * p == x + y) by (nonlinear_arith)
            requires
                ir * p == x,
                jr * p == y,
        ;
        let m: nat = if i + j < 0 {
            (-(i + j)) as nat
        } else {
            (i + j) as nat
        };
        let mr = m as real;
        assert(mr / 1real * p == size_of(x + y)) by (nonlinear_arith)
            requires
                (ir + jr) * p == x + y,
                p > 0real,
                mr == if ir + jr < 0real {
                    -(ir + jr)
                } else {
                    ir + jr
                },
                size_of(x + y) == if x + y < 0real {
                    -(x + y)
                } else {
                    x + y
                },
        ;
        lemma_rounded(m, 1, e);
        lemma_signed(i + j < 0, single::rounded(m, 1, e));
        assert(i + j < 0 ==> x + y <= 0real) by (nonlinear_arith)
            requires
                (ir + jr) * p == x + y,
                p > 0real,
                i + j < 0 ==> ir + jr < 0real,
        ;
        assert(i + j >= 0 ==> x + y >= 0real) by (nonlinear_arith)
            requires
                (ir + jr) * p == x + y,
                p > 0real,
                i + j >= 0 ==> ir + jr >= 0real,
        ;
    }
}

proof fn lemma_units(s: Single, e: int)
    requires
        e <= s.exponent(),
    ensures
        s.units(e) as real * power(e) == number(s),
{
    lemma_number(s);
    lemma_power_sum(s.exponent() - e, e);
    let g = (s.exponent() - e) as nat;
    let p = pow2(g);
    let m = s.significand();
    let w = m * p;
    let (mr, pr, wr) = (m as real, p as real, w as real);
    assert(wr == mr * pr) by (nonlinear_arith)
        requires
            w == m * p,
            mr == m as real,
            pr == p as real,
            wr == w as real,
    ;
    let pe = power(e);
    assert(mr * pr * pe == mr * (pr * pe)) by (nonlinear_arith);
    assert((-wr) * pe == -(wr * pe)) by (nonlinear_arith);
}

/// A product is as near to the product of the numbers as a single can be.
pub proof fn law_product(a: Single, b: Single)
    requires
        a.is_finite(),
        b.is_finite(),
        size_of(number(a) * number(b)) < power(127),
    ensures
        a.product(b).is_finite(),
        close(number(a.product(b)), number(a) * number(b)),
{
    reveal(Single::product);
    lemma_number(a);
    lemma_number(b);
    let (m, n) = (a.significand(), b.significand());
    let (d, e) = (a.exponent(), b.exponent());
    lemma_power_sum(d, e);
    let (mr, nr, p, q) = (m as real, n as real, power(d), power(e));
    let w = m * n;
    let wr = w as real;
    lemma_power_step(d);
    lemma_power_step(e);
    assert(wr == mr * nr) by (nonlinear_arith)
        requires
            w == m * n,
            mr == m as real,
            nr == n as real,
            wr == w as real,
    ;
    let x = mr * p;
    let y = nr * q;
    assert(wr / 1real * (p * q) == x * y) by (nonlinear_arith)
        requires
            wr == mr * nr,
            x == mr * p,
            y == nr * q,
    ;
    assert(x >= 0real && y >= 0real && x * y >= 0real) by (nonlinear_arith)
        requires
            x == mr * p,
            y == nr * q,
            mr >= 0real,
            nr >= 0real,
            p > 0real,
            q > 0real,
    ;
    assert((-x) * y == -(x * y) && x * (-y) == -(x * y) && (-x) * (-y) == x * y)
        by (nonlinear_arith);
    lemma_rounded(w, 1, d + e);
    lemma_signed(a.negative() != b.negative(), single::rounded(w, 1, d + e));
}

/// A quotient is as near to the quotient of the numbers as a single can be.
pub proof fn law_quotient(a: Single, b: Single)
    requires
        a.is_finite(),
        b.is_finite(),
        number(b) != 0real,
        size_of(number(a) / number(b)) < power(127),
    ensures
        a.quotient(b).is_finite(),
        close(number(a.quotient(b)), number(a) / number(b)),
{
    reveal(Single::quotient);
    lemma_number(a);
    lemma_number(b);
    let (m, n) = (a.significand(), b.significand());
    let (d, e) = (a.exponent(), b.exponent());
    lemma_power_sum(d - e, e);
    let (mr, nr, p, q) = (m as real, n as real, power(d), power(e));
    lemma_power_step(d);
    lemma_power_step(e);
    let t = power(d - e);
    if n == 0 {
        assert(0real * q == 0real) by (nonlinear_arith);
    }
    let x = mr * p;
    let y = nr * q;
    assert(y > 0real && x >= 0real) by (nonlinear_arith)
        requires
            x == mr * p,
            y == nr * q,
            mr >= 0real,
            nr > 0real,
            p > 0real,
            q > 0real,
    ;
    assert(mr / nr * t == x / y) by (nonlinear_arith)
        requires
            x == mr * p,
            y == nr * q,
            p == t * q,
            nr > 0real,
            q > 0real,
    ;
    assert(x / y >= 0real && (-x) / y == -(x / y) && x / (-y) == -(x / y) && (-x) / (-y) == x / y)
        by (nonlinear_arith)
        requires
            y > 0real,
            x >= 0real,
    ;
    lemma_rounded(m, n, d - e);
    lemma_signed(a.negative() != b.negative(), single::rounded(m, n, d - e));
}

proof fn lemma_sizes(a: Single, b: Single)
    requires
        a.is_finite(),
        b.is_finite(),
        a.magnitude() < b.magnitude(),
    ensures
        a.significand() as real * power(a.exponent()) < b.significand() as real * power(
            b.exponent(),
        ),
{
    let (m, n) = (a.significand(), b.significand());
    let (d, e) = (a.exponent(), b.exponent());
    assert(a.magnitude() == (d + 149) * 0x80_0000 + m);
    assert(b.magnitude() == (e + 149) * 0x80_0000 + n);
    lemma_power_step(d);
    lemma_power_step(e);
    let (mr, nr, p, q) = (m as real, n as real, power(d), power(e));
    if d == e {
        assert(mr * p < nr * q) by (nonlinear_arith)
            requires
                mr < nr,
                p == q,
                p > 0real,
        ;
    } else {
        assert(d < e);
        lemma_power_rises(d + 1, e);
        assert(m < 0x100_0000 && n >= 0x80_0000);
        assert(mr * p < nr * q) by (nonlinear_arith)
            requires
                mr < 16777216real,
                nr >= 8388608real,
                q >= 2real * p,
                p > 0real,
        ;
    }
}

proof fn lemma_number_sign(s: Single)
    ensures
        s.negative() ==> number(s) <= 0real,
        !s.negative() ==> number(s) >= 0real,
        s.is_zero() <==> number(s) == 0real,
{
    lemma_number(s);
    let m = s.significand() as real;
    let p = power(s.exponent());
    lemma_power_step(s.exponent());
    assert(m * p >= 0real && (m > 0real ==> m * p > 0real) && (m == 0real ==> m * p == 0real))
        by (nonlinear_arith)
        requires
            m >= 0real,
            p > 0real,
    ;
}

/// Singles are ordered as the numbers they stand for.
pub proof fn law_order(a: Single, b: Single)
    requires
        a.is_finite(),
        b.is_finite(),
    ensures
        a.spec_gt(b) <==> number(a) > number(b),
        a.spec_ge(b) <==> number(a) >= number(b),
{
    lemma_number(a);
    lemma_number(b);
    lemma_number_sign(a);
    lemma_number_sign(b);
    if a.magnitude() < b.magnitude() {
        lemma_sizes(a, b);
    } else if b.magnitude() < a.magnitude() {
        lemma_sizes(b, a);
    } else {
        assert(a.significand() == b.significand() && a.exponent() == b.exponent());
    }
}

/// Cutting off behind the point goes towards zero and takes away less than one. What is out of
/// range becomes the nearest bound.
pub proof fn law_clamped(s: Single, low: int, high: int)
    requires
        s.is_finite(),
        low <= 0 <= high,
    ensures
        ({
            let n = s.clamped(low, high);
            let v = number(s);
            &&& low <= n <= high
            &&& 0real <= v <= high as real ==> n as real <= v && v < (n + 1) as real
            &&& low as real <= v <= 0real ==> v > (n - 1) as real && v <= n as real
            &&& v > high as real ==> n == high
            &&& v < low as real ==> n == low
        }),
{
    reveal(Single::clamped);
    lemma_number(s);
    lemma_number_sign(s);
    let m = s.significand();
    let e = s.exponent();
    let w = s.whole_part();
    let x = m as real * power(e);
    assert(w as real <= x && x < (w + 1) as real) by {
        if e >= 0 {
            let p = pow2(e as nat);
            let (mr, pr, wr) = (m as real, p as real, w as real);
            assert(wr == mr * pr) by (nonlinear_arith)
                requires
                    w == m * p,
                    mr == m as real,
                    pr == p as real,
                    wr == w as real,
            ;
        } else {
            let p = pow2((-e) as nat);
            lemma_pow2_pos((-e) as nat);
            vstd::arithmetic::div_mod::lemma_fundamental_div_mod(m as int, p as int);
            let rest = m % p;
            assert(0 <= rest < p) by (nonlinear_arith)
                requires
                    rest == m % p,
                    p > 0,
            ;
            let (mr, pr, wr, rr) = (m as real, p as real, w as real, rest as real);
            assert(mr == pr * wr + rr) by (nonlinear_arith)
                requires
                    m == p * w + rest,
                    mr == m as real,
                    pr == p as real,
                    wr == w as real,
                    rr == rest as real,
            ;
            assert(wr <= mr * (1real / pr) && mr * (1real / pr) < wr + 1real) by (nonlinear_arith)
                requires
                    mr == pr * wr + rr,
                    pr > 0real,
                    0real <= rr < pr,
            ;
        }
    }
}

/// A single as a whole number is never out of range.
pub proof fn law_clamped_range(s: Single, low: int, high: int)
    requires
        low <= 0 <= high,
    ensures
        low <= s.clamped(low, high) <= high,
{
    reveal(Single::clamped);
}

/// The difference that `close` allows, by an upper bound of the number.
pub proof fn lemma_close(v: real, x: real, bound: real)
    requires
        close(v, x),
        size_of(x) <= bound,
    ensures
        size_of(v - x) <= (bound + 1real / 1000000000000real) / 16777216real,
{
    lemma_powers();
    let t = size_of(v - x);
    let e = power(-126);
    assert(t <= (bound + 1real / 1000000000000real) / 16777216real) by (nonlinear_arith)
        requires
            t * 16777216real <= bound + e,
            e < 1real / 1000000000000real,
    ;
}

/// No single `c` is nearer to a number than `r`; where one is as near, `r` is the even one.
pub open spec fn nearest(r: Single, x: real, c: Single) -> bool {
    &&& size_of(number(r) - x) <= size_of(number(c) - x)
    &&& size_of(number(r) - x) == size_of(number(c) - x) && number(r) != number(c) ==> r.bits % 2
        == 0
}

/// No single is nearer to the quotient of two positive numbers than the one that is given for it.
pub proof fn law_quotient_nearest(a: Single, b: Single, c: Single)
    requires
        a.is_finite(),
        b.is_finite(),
        c.is_finite(),
        !a.negative(),
        !b.negative(),
        !b.is_zero(),
        a.quotient(b).is_finite(),
    ensures
        nearest(a.quotient(b), number(a) / number(b), c),
{
    reveal(Single::quotient);
    lemma_number(a);
    lemma_number(b);
    let (m, n) = (a.significand(), b.significand());
    let (d, e) = (a.exponent(), b.exponent());
    lemma_quotient_power(m, n, d, e);
    lemma_rounded(m, n, d - e);
    lemma_rounded_nearest(m, n, d - e, c);
    assert(Single::signed(false, single::rounded(m, n, d - e)) == (Single {
        bits: single::rounded(m, n, d - e),
    }));
}

proof fn lemma_quotient_power(m: nat, n: nat, d: int, e: int)
    requires
        n > 0,
    ensures
        m as real / (n as real) * power(d - e) == (m as real * power(d)) / (n as real * power(e)),
{
    lemma_power_sum(d - e, e);
    let (mr, nr, p, q) = (m as real, n as real, power(d), power(e));
    lemma_power_step(d);
    lemma_power_step(e);
    let t = power(d - e);
    let x = mr * p;
    let y = nr * q;
    assert(mr / nr * t == x / y) by (nonlinear_arith)
        requires
            x == mr * p,
            y == nr * q,
            p == t * q,
            nr > 0real,
            q > 0real,
    ;
}

pub proof fn lemma_one()
    ensures
        (Single { bits: ONE_BITS }).is_finite(),
        number(Single { bits: ONE_BITS }) == 1real,
        number(Single { bits: 0 }) == 0real,
{
    reveal(number);
    lemma_powers();
    lemma_power_sum(-23, 23);
    let p = power(-23);
    assert(8388608real * p == 1real);
    let t = power(-149);
    assert(0real * t == 0real) by (nonlinear_arith);
}

/// The sum of `f` over the whole numbers from `low` up to, but without, `high`.
pub open spec fn total(f: spec_fn(int) -> int, low: int, high: int) -> int
    decreases high - low,
{
    if high <= low {
        0
    } else {
        total(f, low, high - 1) + f(high - 1)
    }
}

} // verus!
