//! Single-precision arithmetic carried out on whole numbers.
//!
//! A value is held as a whole number of ticks, one tick being 2^-32. Zero
//! and every binary32 value from 2^-9 up is a whole number of ticks, and a
//! whole number of ticks is a binary32 value where its significand has no
//! more than 24 bits. The result of an operation is the exact result
//! rounded to the nearest such value, a tie going to the even significand:
//! `single` says so and `round_ratio` computes it. That this is rounding to
//! the nearest value and nothing else is shown by `lemma_is_single_form`,
//! `lemma_single_is_nearest` and `lemma_single_ties_to_even`.
//!
//! Values finer than a tick are not held. `tick_exact` says for which
//! quotients that loses nothing.

use vstd::prelude::*;
use vstd::arithmetic::div_mod::lemma_fundamental_div_mod;
use vstd::arithmetic::div_mod::lemma_fundamental_div_mod_converse;
use vstd::arithmetic::power2::pow2;
use vstd::arithmetic::power2::lemma2_to64;
use vstd::arithmetic::power2::lemma_pow2_pos;
use vstd::arithmetic::power2::lemma_pow2_unfold;

verus! {

/// The value one, in ticks.
pub const ONE: u64 = 0x1_0000_0000;

/// The largest numerator and denominator that `round_ratio` takes.
pub const OPERAND_LIMIT: u128 = 0x1_0000_0000_0000_0000_0000;

/// The quotient `n / m` rounded to the nearest whole number, a tie going to
/// the even neighbour.
pub open spec fn nearest_even(n: int, m: int) -> int {
    let q: int = n / m;
    let r: int = n % m;
    if 2 * r < m || (2 * r == m && q % 2 == 0) {
        q
    } else {
        q + 1
    }
}

/// Of the binary32 values that are whole numbers of ticks, the one nearest
/// to `n / d`, for `n >= 0` and `d > 0`.
///
/// A quotient below 2^24 is a significand already and is rounded to a whole
/// number. A larger one is rounded at half the scale and doubled, which
/// drops its low bits one at a time until 24 are left.
pub open spec fn single(n: int, d: int) -> int
    decreases
        (if d > 0 && n >= 0x100_0000 * d {
            n - 0x100_0000 * d + 1
        } else {
            0
        }),
{
    if d <= 0 || n < 0x100_0000 * d {
        nearest_even(n, d)
    } else {
        2 * single(n, 2 * d)
    }
}

/// `single` for a numerator of either sign: rounding is symmetric about
/// zero.
pub open spec fn single_signed(n: int, d: int) -> int {
    if n >= 0 {
        single(n, d)
    } else {
        -single(-n, d)
    }
}

/// Whether a whole number of ticks is a binary32 value: rounding leaves it
/// as it is.
pub open spec fn is_single(x: int) -> bool {
    x >= 0 && single(x, 1) == x
}

/// Whether the ticks are fine enough for the quotient `n / d`: it is a whole
/// number of ticks, or it is at least 2^23 ticks, from where on binary32
/// values lie a tick or more apart. The binary32 value nearest to such a
/// quotient is a whole number of ticks, and it is what `single` gives. The
/// binary32 values nearest to other quotients lie between two ticks.
pub open spec fn tick_exact(n: int, d: int) -> bool {
    n % d == 0 || n >= 0x80_0000 * d
}

/// How far `x` is from `n / d`, in units of `1 / d`.
pub open spec fn distance(n: int, d: int, x: int) -> int {
    if n >= x * d {
        n - x * d
    } else {
        x * d - n
    }
}

/// How far apart two whole numbers are.
pub open spec fn gap(x: int, y: int) -> int {
    if x >= y {
        x - y
    } else {
        y - x
    }
}

/// Rounds `n / d` to the nearest binary32 value. The result is at most
/// twice the numerator and one.
pub fn round_ratio(n: u128, d: u128) -> (r: u128)
    requires
        0 < d <= OPERAND_LIMIT,
        n <= OPERAND_LIMIT,
    ensures
        r == single(n as int, d as int),
        r <= 2 * n + 1,
{
    let mut m: u128 = d;
    let mut scale: u128 = 1;
    while n >= 0x100_0000 * m
        invariant
            0 < d,
            n <= OPERAND_LIMIT,
            1 <= scale <= m,
            m == d * scale,
            m <= OPERAND_LIMIT,
            scale == 1 || n >= 0x80_0000 * m,
            single(n as int, d as int) == scale * single(n as int, m as int),
        decreases n - m + 1,
    {
        proof {
            let x: int = single(n as int, 2 * m as int);
            assert(single(n as int, m as int) == 2 * x);
            assert(scale * (2 * x) == (2 * scale) * x) by (nonlinear_arith);
            assert(d * (2 * scale) == 2 * (d * scale)) by (nonlinear_arith);
        }
        m = 2 * m;
        scale = 2 * scale;
    }
    let q: u128 = n / m;
    let rem: u128 = n % m;
    proof {
        lemma_fundamental_div_mod(n as int, m as int);
        assert(q < 0x100_0000) by (nonlinear_arith)
            requires
                n < 0x100_0000 * m,
                n == m * q + rem,
                0 <= rem,
                0 < m,
        ;
    }
    let rounded: u128 = if 2 * rem < m || (2 * rem == m && q % 2 == 0) {
        q
    } else {
        q + 1
    };
    proof {
        assert(scale * rounded <= 0x100_0000 * scale) by (nonlinear_arith)
            requires
                rounded <= 0x100_0000,
                0 <= scale,
        ;
        assert(scale * rounded <= 2 * n + 1) by (nonlinear_arith)
            requires
                rounded <= q + 1,
                n == m * q + rem,
                0 <= rem,
                1 <= scale <= m,
                0 <= q,
                scale == 1 || n >= 0x80_0000 * m,
        ;
    }
    scale * rounded
}

/// Rounds `n / d` to the nearest binary32 value, for a numerator of either
/// sign. The result has the sign of the numerator or is zero.
pub fn round_signed(n: i128, d: u128) -> (r: i128)
    requires
        0 < d <= OPERAND_LIMIT,
        -OPERAND_LIMIT <= n <= OPERAND_LIMIT,
    ensures
        r == single_signed(n as int, d as int),
        n >= 0 ==> 0 <= r <= 2 * n + 1,
        n < 0 ==> 2 * n - 1 <= r <= 0,
{
    if n >= 0 {
        round_ratio(n as u128, d) as i128
    } else {
        -(round_ratio((-n) as u128, d) as i128)
    }
}

/// A binary32 value is a whole number below 2^24 times a power of two. The
/// lemma returns such a number and the exponent of such a power.
pub proof fn lemma_is_single_form(x: int) -> (form: (int, nat))
    requires
        is_single(x),
    ensures
        0 <= form.0 < 0x100_0000,
        x == form.0 * pow2(form.1),
    decreases x,
{
    if x < 0x100_0000 {
        lemma2_to64();
        (x, 0)
    } else {
        lemma_half_is_single(x);
        let half = lemma_is_single_form(x / 2);
        let exponent: nat = half.1 + 1;
        lemma_pow2_unfold(exponent);
        assert(pow2(exponent) == 2 * pow2(half.1));
        assert(half.0 * (2 * pow2(half.1)) == 2 * (half.0 * pow2(half.1))) by (nonlinear_arith);
        (half.0, exponent)
    }
}

/// A whole number below 2^24 times a power of two is a binary32 value.
pub proof fn lemma_form_is_single(significand: int, exponent: nat)
    requires
        0 <= significand < 0x100_0000,
    ensures
        is_single(significand * pow2(exponent)),
{
    lemma_small_is_single(significand);
    lemma_shifted_is_single(significand, exponent);
}

/// What rounding gives is a binary32 value: rounding it again changes
/// nothing.
pub proof fn lemma_single_is_single(n: int, d: int)
    requires
        d > 0,
        n >= 0,
    ensures
        is_single(single(n, d)),
    decreases
        (if n >= 0x100_0000 * d {
            n - 0x100_0000 * d + 1
        } else {
            0
        }),
{
    if n < 0x100_0000 * d {
        lemma_nearest_even_between(n, d, 0, 0x100_0000);
        lemma_small_is_single(single(n, d));
    } else {
        lemma_single_is_single(n, 2 * d);
        lemma_double_is_single(single(n, 2 * d));
    }
}

/// No binary32 value is nearer to `n / d` than `single(n, d)`.
pub proof fn lemma_single_is_nearest(n: int, d: int, y: int)
    requires
        d > 0,
        n >= 0,
        is_single(y),
    ensures
        distance(n, d, single(n, d)) <= distance(n, d, y),
    decreases
        (if n >= 0x100_0000 * d {
            n - 0x100_0000 * d + 1
        } else {
            0
        }),
{
    if n < 0x100_0000 * d {
        lemma_nearest_even_is_nearest(n, d, y);
    } else {
        let half: int = single(n, 2 * d);
        assert((2 * half) * d == half * (2 * d)) by (nonlinear_arith);
        if y >= 0x100_0000 {
            lemma_half_is_single(y);
            lemma_single_is_nearest(n, 2 * d, y / 2);
            assert((y / 2) * (2 * d) == y * d) by (nonlinear_arith)
                requires
                    y % 2 == 0,
            ;
        } else {
            // What lies below 2^24 is no nearer than 2^24 itself.
            lemma_small_is_single(0x80_0000);
            lemma_single_is_nearest(n, 2 * d, 0x80_0000);
            assert(y * d <= 0x100_0000 * d) by (nonlinear_arith)
                requires
                    y <= 0x100_0000,
                    d > 0,
            ;
        }
    }
}

/// Where two binary32 values are equally near to `n / d`, `single(n, d)` is
/// the one with the even significand: it is a multiple of twice their
/// distance.
pub proof fn lemma_single_ties_to_even(n: int, d: int, y: int)
    requires
        d > 0,
        n >= 0,
        is_single(y),
        y != single(n, d),
        distance(n, d, y) == distance(n, d, single(n, d)),
    ensures
        single(n, d) % (2 * gap(y, single(n, d))) == 0,
    decreases
        (if n >= 0x100_0000 * d {
            n - 0x100_0000 * d + 1
        } else {
            0
        }),
{
    if n < 0x100_0000 * d {
        lemma_nearest_even_ties_to_even(n, d, y);
    } else {
        let half: int = single(n, 2 * d);
        assert((2 * half) * d == half * (2 * d)) by (nonlinear_arith);
        if y >= 0x100_0000 {
            lemma_half_is_single(y);
            assert((y / 2) * (2 * d) == y * d) by (nonlinear_arith)
                requires
                    y % 2 == 0,
            ;
            lemma_single_ties_to_even(n, 2 * d, y / 2);
            let between: int = gap(y / 2, half);
            assert(gap(y, 2 * half) == 2 * between);
            assert((2 * half) % (2 * (2 * between)) == 0) by (nonlinear_arith)
                requires
                    half % (2 * between) == 0,
                    between > 0,
            ;
        } else {
            // What lies below 2^24 is farther away than 2^24 itself.
            lemma_small_is_single(0x80_0000);
            lemma_single_is_nearest(n, 2 * d, 0x80_0000);
            assert(y * d < 0x100_0000 * d) by (nonlinear_arith)
                requires
                    y < 0x100_0000,
                    d > 0,
            ;
        }
    }
}

/// Rounding moves a quotient of at most 2^24 times a power of two by at most
/// half that power of two.
pub proof fn lemma_single_error(n: int, d: int, e: nat)
    requires
        d > 0,
        0 <= n <= 0x100_0000 * pow2(e) * d,
    ensures
        2 * distance(n, d, single(n, d)) <= pow2(e) * d,
{
    let step: int = pow2(e) as int;
    lemma_pow2_pos(e);
    assert(step * d > 0) by (nonlinear_arith)
        requires
            step > 0,
            d > 0,
    ;
    assert(0x100_0000 * (step * d) == 0x100_0000 * step * d) by (nonlinear_arith);
    let count: int = nearest_even(n, step * d);
    lemma_nearest_even_between(n, step * d, 0, 0x100_0000);
    lemma_nearest_even_is_nearest(n, step * d, 0);
    lemma_small_is_single(count);
    lemma_shifted_is_single(count, e);
    lemma_single_is_nearest(n, d, count * step);
    assert((count * step) * d == count * (step * d)) by (nonlinear_arith);
}

/// Rounding keeps the order of the numerators.
pub proof fn lemma_single_monotone(n1: int, n2: int, d: int)
    requires
        d > 0,
        0 <= n1 <= n2,
    ensures
        single(n1, d) <= single(n2, d),
    decreases
        (if n2 >= 0x100_0000 * d {
            n2 - 0x100_0000 * d + 1
        } else {
            0
        }),
{
    if n2 < 0x100_0000 * d {
        lemma_nearest_even_monotone(n1, n2, d);
    } else if n1 >= 0x100_0000 * d {
        lemma_single_monotone(n1, n2, 2 * d);
    } else {
        lemma_nearest_even_between(n1, d, 0, 0x100_0000);
        lemma_single_floor(n2, d);
    }
}

/// `single_signed` keeps the order of the numerators.
pub proof fn lemma_single_signed_monotone(n1: int, n2: int, d: int)
    requires
        d > 0,
        n1 <= n2,
    ensures
        single_signed(n1, d) <= single_signed(n2, d),
{
    if n1 >= 0 {
        lemma_single_monotone(n1, n2, d);
    } else if n2 < 0 {
        lemma_single_monotone(-n2, -n1, d);
    } else {
        lemma_single_nonnegative(-n1, d);
        lemma_single_nonnegative(n2, d);
    }
}

/// Rounding sees the quotient only: a common factor of numerator and
/// denominator does not matter.
pub proof fn lemma_single_scale(n: int, d: int, k: int)
    requires
        d > 0,
        k > 0,
    ensures
        single(k * n, k * d) == single(n, d),
    decreases
        (if n >= 0x100_0000 * d {
            n - 0x100_0000 * d + 1
        } else {
            0
        }),
{
    assert(k * d > 0) by (nonlinear_arith)
        requires
            d > 0,
            k > 0,
    ;
    assert(k * n < 0x100_0000 * (k * d) <==> n < 0x100_0000 * d) by (nonlinear_arith)
        requires
            k > 0,
    ;
    if n < 0x100_0000 * d {
        lemma_nearest_even_scale(n, d, k);
    } else {
        assert(2 * (k * d) == k * (2 * d)) by (nonlinear_arith);
        lemma_single_scale(n, 2 * d, k);
    }
}

/// A quotient at most a binary32 value `b` is rounded to at most `b`, and
/// one that is at least `b` to at least `b`.
pub proof fn lemma_single_bounded(n: int, d: int, b: int)
    requires
        d > 0,
        n >= 0,
        is_single(b),
    ensures
        n <= b * d ==> single(n, d) <= b,
        n >= b * d ==> single(n, d) >= b,
{
    lemma_single_scale(b, 1, d);
    assert(d * 1 == d);
    assert(d * b == b * d) by (nonlinear_arith);
    assert(b * d >= 0) by (nonlinear_arith)
        requires
            b >= 0,
            d > 0,
    ;
    if n <= b * d {
        lemma_single_monotone(n, b * d, d);
    }
    if n >= b * d {
        lemma_single_monotone(b * d, n, d);
    }
}

/// A quotient of at least 2^24 is rounded to at least 2^24.
pub proof fn lemma_single_floor(n: int, d: int)
    requires
        d > 0,
        n >= 0x100_0000 * d,
    ensures
        single(n, d) >= 0x100_0000,
    decreases n - 0x100_0000 * d,
{
    if n < 0x100_0000 * (2 * d) {
        lemma_nearest_even_between(n, 2 * d, 0x80_0000, 0x100_0000);
        assert(single(n, 2 * d) == nearest_even(n, 2 * d));
    } else {
        lemma_single_floor(n, 2 * d);
    }
}

/// A quotient that is not negative is rounded to a value that is not
/// negative.
pub proof fn lemma_single_nonnegative(n: int, d: int)
    requires
        d > 0,
        n >= 0,
    ensures
        single(n, d) >= 0,
{
    if n < 0x100_0000 * d {
        lemma_nearest_even_between(n, d, 0, 0x100_0000);
    } else {
        lemma_single_floor(n, d);
    }
}

/// Every whole number up to 2^24 is a binary32 value.
pub proof fn lemma_small_is_single(x: int)
    requires
        0 <= x <= 0x100_0000,
    ensures
        is_single(x),
{
    reveal_with_fuel(single, 2);
}

/// Twice a binary32 value is a binary32 value.
pub proof fn lemma_double_is_single(x: int)
    requires
        is_single(x),
    ensures
        is_single(2 * x),
{
    if 2 * x >= 0x100_0000 {
        lemma_single_scale(x, 1, 2);
    }
}

/// A binary32 value of at least 2^24 ticks is even, half of it is a binary32
/// value, and that half is what dividing it by two gives.
pub proof fn lemma_half_is_single(x: int)
    requires
        is_single(x),
        x >= 0x100_0000,
    ensures
        x % 2 == 0,
        single(x, 2) == x / 2,
        is_single(x / 2),
{
    lemma_single_scale(x / 2, 1, 2);
}

/// A binary32 value times a power of two is a binary32 value.
pub proof fn lemma_shifted_is_single(x: int, e: nat)
    requires
        is_single(x),
    ensures
        is_single(x * pow2(e)),
    decreases e,
{
    if e == 0 {
        lemma2_to64();
    } else {
        lemma_shifted_is_single(x, (e - 1) as nat);
        lemma_pow2_unfold(e);
        lemma_double_is_single(x * pow2((e - 1) as nat));
        assert(2 * (x * pow2((e - 1) as nat)) == x * (2 * pow2((e - 1) as nat))) by (nonlinear_arith);
    }
}

/// One half, one and two are binary32 values.
pub proof fn lemma_one_is_single()
    ensures
        is_single(ONE as int / 2),
        is_single(ONE as int),
        is_single(2 * ONE as int),
{
    lemma2_to64();
    lemma_form_is_single(1, 31);
    lemma_form_is_single(1, 32);
    lemma_double_is_single(ONE as int);
}

/// Whoever knows a quotient and remainder knows what `nearest_even` gives.
pub proof fn lemma_nearest_even_from_parts(n: int, m: int, q: int, r: int)
    requires
        m > 0,
        n == q * m + r,
        0 <= r < m,
    ensures
        nearest_even(n, m) == if 2 * r < m || (2 * r == m && q % 2 == 0) {
            q
        } else {
            q + 1
        },
{
    lemma_fundamental_div_mod_converse(n, m, q, r);
}

/// A quotient that lies between two whole numbers is rounded to a whole
/// number between them.
pub proof fn lemma_nearest_even_between(n: int, m: int, lo: int, hi: int)
    requires
        m > 0,
        lo * m <= n <= hi * m,
    ensures
        lo <= nearest_even(n, m) <= hi,
{
    let q: int = n / m;
    let r: int = n % m;
    lemma_fundamental_div_mod(n, m);
    assert(lo <= q) by (nonlinear_arith)
        requires
            lo * m <= n,
            n == m * q + r,
            r < m,
            m > 0,
    ;
    assert(q < hi || (q == hi && r == 0)) by (nonlinear_arith)
        requires
            n <= hi * m,
            n == m * q + r,
            0 <= r,
            m > 0,
    ;
}

/// Rounding to the nearest whole number keeps the order of the numerators.
pub proof fn lemma_nearest_even_monotone(n1: int, n2: int, m: int)
    requires
        m > 0,
        n1 <= n2,
    ensures
        nearest_even(n1, m) <= nearest_even(n2, m),
{
    let q1: int = n1 / m;
    let r1: int = n1 % m;
    let q2: int = n2 / m;
    let r2: int = n2 % m;
    lemma_fundamental_div_mod(n1, m);
    lemma_fundamental_div_mod(n2, m);
    assert(q1 < q2 || (q1 == q2 && r1 <= r2)) by (nonlinear_arith)
        requires
            n1 <= n2,
            n1 == m * q1 + r1,
            n2 == m * q2 + r2,
            0 <= r1 < m,
            0 <= r2 < m,
    ;
}

/// Rounding to the nearest whole number sees the quotient only: a common
/// factor of numerator and denominator does not matter.
pub proof fn lemma_nearest_even_scale(n: int, m: int, k: int)
    requires
        m > 0,
        k > 0,
    ensures
        nearest_even(k * n, k * m) == nearest_even(n, m),
{
    let q: int = n / m;
    let r: int = n % m;
    lemma_fundamental_div_mod(n, m);
    assert(k * n == q * (k * m) + k * r) by (nonlinear_arith)
        requires
            n == m * q + r,
    ;
    assert(0 <= k * r < k * m) by (nonlinear_arith)
        requires
            0 <= r < m,
            k > 0,
    ;
    assert(k * m > 0) by (nonlinear_arith)
        requires
            m > 0,
            k > 0,
    ;
    lemma_nearest_even_from_parts(k * n, k * m, q, k * r);
    assert(2 * (k * r) < k * m <==> 2 * r < m) by (nonlinear_arith)
        requires
            k > 0,
    ;
    assert(2 * (k * r) == k * m <==> 2 * r == m) by (nonlinear_arith)
        requires
            k > 0,
    ;
}

/// No whole number is nearer to `n / m` than `nearest_even(n, m)`, which is
/// at most one half away.
pub proof fn lemma_nearest_even_is_nearest(n: int, m: int, y: int)
    requires
        m > 0,
    ensures
        distance(n, m, nearest_even(n, m)) <= distance(n, m, y),
        2 * distance(n, m, nearest_even(n, m)) <= m,
{
    let q: int = n / m;
    let r: int = n % m;
    let x: int = nearest_even(n, m);
    lemma_fundamental_div_mod(n, m);
    assert(q * m == m * q) by (nonlinear_arith);
    assert((q + 1) * m == m * q + m) by (nonlinear_arith);
    assert(distance(n, m, x) <= r && distance(n, m, x) <= m - r);
    if y <= q {
        assert(y * m <= q * m) by (nonlinear_arith)
            requires
                y <= q,
                m > 0,
        ;
        assert(distance(n, m, y) >= r);
    } else {
        assert(y * m >= (q + 1) * m) by (nonlinear_arith)
            requires
                y >= q + 1,
                m > 0,
        ;
        assert(distance(n, m, y) >= m - r);
    }
}

/// Where two whole numbers are equally near to `n / m`, they are
/// neighbours and `nearest_even(n, m)` is the even one.
pub proof fn lemma_nearest_even_ties_to_even(n: int, m: int, y: int)
    requires
        m > 0,
        y != nearest_even(n, m),
        distance(n, m, y) == distance(n, m, nearest_even(n, m)),
    ensures
        gap(y, nearest_even(n, m)) == 1,
        nearest_even(n, m) % 2 == 0,
{
    let q: int = n / m;
    let r: int = n % m;
    lemma_fundamental_div_mod(n, m);
    assert(q * m == m * q) by (nonlinear_arith);
    assert((q + 1) * m == m * q + m) by (nonlinear_arith);
    if y < q {
        assert(y * m <= (q - 1) * m) by (nonlinear_arith)
            requires
                y <= q - 1,
                m > 0,
        ;
        assert((q - 1) * m == m * q - m) by (nonlinear_arith);
    } else if y > q + 1 {
        assert(y * m >= (q + 2) * m) by (nonlinear_arith)
            requires
                y >= q + 2,
                m > 0,
        ;
        assert((q + 2) * m == m * q + 2 * m) by (nonlinear_arith);
    }
}

} // verus!
