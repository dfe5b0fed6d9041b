//! Sizes: fitting images into a limit, and laying out windows and grids.

use vstd::prelude::*;

verus! {

/// The longer side of an image.
pub open spec fn longer_side(w: u32, h: u32) -> int {
    if w >= h {
        w as int
    } else {
        h as int
    }
}

/// Least mantissa of a double-precision number.
pub const LEAST_MANTISSA: u64 = 0x10_0000_0000_0000;

/// Bound of the mantissas of double-precision numbers.
pub const MANTISSA_BOUND: u64 = 0x20_0000_0000_0000;

/// The integer nearest to `x / d`; of two equally near ones the even one.
pub open spec fn half_even(x: int, d: int) -> int {
    let q = x / d;
    let r = x % d;
    if 2 * r < d || (2 * r == d && q % 2 == 0) {
        q
    } else {
        q + 1
    }
}

/// The least power of two that takes `t` to `bound`.
pub open spec fn unit_for(t: int, bound: int) -> int
    decreases 2 * bound - t,
{
    if t <= 0 || t >= bound {
        1
    } else {
        2 * unit_for(2 * t, bound)
    }
}

/// The least of `d`, `2 * d`, `4 * d` and so on that, as the value of the last
/// digit, lets a mantissa reach `x`.
pub open spec fn grain(d: int, x: int) -> int
    decreases x - d,
{
    if d <= 0 || x < MANTISSA_BOUND * d {
        d
    } else {
        grain(2 * d, x)
    }
}

/// The number of fractions that make up one where the ratio of `m` to `l` is held
/// in double precision.
pub open spec fn ratio_unit(m: int, l: int) -> int {
    unit_for(m, LEAST_MANTISSA * l)
}

/// The ratio of `m` to `l` in double precision, in fractions of `ratio_unit`.
pub open spec fn ratio_mantissa(m: int, l: int) -> int {
    half_even(m * ratio_unit(m, l), l)
}

/// A whole number rounded to double precision.
pub open spec fn rounded_double(x: int) -> int {
    half_even(x, grain(1, x)) * grain(1, x)
}

/// A side times the ratio of `m` to `l`, cut to a whole number: ratio and product
/// are both rounded to double precision.
pub open spec fn scaled(side: int, l: int, m: int) -> int {
    rounded_double(side * ratio_mantissa(m, l)) / ratio_unit(m, l)
}

/// A side scaled so that the longer side becomes `max_dim`, computed in double
/// precision and rounded down, but at least 1.
pub open spec fn scaled_side(side: u32, w: u32, h: u32, max_dim: u32) -> int {
    let s = scaled(side as int, longer_side(w, h), max_dim as int);
    if max_dim >= 1 && s >= 1 {
        s
    } else {
        1
    }
}

/// The size of an image that fits into `max_dim` by `max_dim` with its
/// proportions kept: the image's own where it fits.
pub open spec fn fitted(w: u32, h: u32, max_dim: u32) -> (int, int) {
    if w <= max_dim && h <= max_dim {
        (w as int, h as int)
    } else {
        (scaled_side(w, w, h, max_dim), scaled_side(h, w, h, max_dim))
    }
}

/// The size of an image whose longer side is brought down to `max_dim` exactly.
pub open spec fn fitted_long(w: u32, h: u32, max_dim: u32) -> (int, int) {
    if w <= max_dim && h <= max_dim {
        (w as int, h as int)
    } else {
        (
            if w >= h {
                at_least_one(max_dim)
            } else {
                scaled_side(w, w, h, max_dim)
            },
            if h >= w {
                at_least_one(max_dim)
            } else {
                scaled_side(h, w, h, max_dim)
            },
        )
    }
}

/// The limit itself, but at least 1.
pub open spec fn at_least_one(max_dim: u32) -> int {
    if max_dim >= 1 {
        max_dim as int
    } else {
        1
    }
}

proof fn half_even_near(x: int, d: int)
    requires
        0 <= x,
        0 < d,
    ensures
        0 <= half_even(x, d),
        2 * (half_even(x, d) * d - x) <= d,
        2 * (x - half_even(x, d) * d) <= d,
        half_even(x, d) <= x + 1,
{
    let q = x / d;
    let r = x % d;
    vstd::arithmetic::div_mod::lemma_fundamental_div_mod(x, d);
    vstd::arithmetic::div_mod::lemma_mod_bound(x, d);
    vstd::arithmetic::div_mod::lemma_div_pos_is_pos(x, d);
    assert(d * q == q * d) by (nonlinear_arith);
    assert((q + 1) * d == q * d + d) by (nonlinear_arith);
    assert(q <= q * d) by (nonlinear_arith)
        requires
            0 <= q,
            1 <= d,
    ;
}

proof fn unit_reaches(t: int, bound: int)
    requires
        1 <= t < 2 * bound,
    ensures
        1 <= unit_for(t, bound),
        bound <= t * unit_for(t, bound) < 2 * bound,
    decreases 2 * bound - t,
{
    if t >= bound {
        assert(t * 1 == t);
    } else {
        unit_reaches(2 * t, bound);
        let v = unit_for(2 * t, bound);
        assert((2 * t) * v == t * (2 * v)) by (nonlinear_arith);
    }
}

proof fn grain_holds(d: int, x: int)
    requires
        1 <= d,
    ensures
        d <= grain(d, x),
        x < MANTISSA_BOUND * grain(d, x),
        grain(d, x) == d || LEAST_MANTISSA * grain(d, x) <= x,
    decreases x - d,
{
    if x >= MANTISSA_BOUND * d {
        grain_holds(2 * d, x);
    }
}

/// A scaled side exceeds neither the limit nor the side it came from, and the
/// longer side misses the limit by one at most.
pub proof fn scaling_limits(side: int, l: int, m: int)
    requires
        0 <= side <= l <= u32::MAX,
        1 <= m < l,
    ensures
        0 <= scaled(side, l, m) <= m,
        scaled(side, l, m) <= side,
        side == l ==> scaled(side, l, m) >= m - 1,
{
    let u = ratio_unit(m, l);
    let n = m * u;
    let q = ratio_mantissa(m, l);
    unit_reaches(m, LEAST_MANTISSA * l);
    assert(n >= 0);
    half_even_near(n, l);
    let x = side * q;
    let top = l * q;
    assert(0 <= x <= top) by (nonlinear_arith)
        requires
            x == side * q,
            top == l * q,
            0 <= side <= l,
            0 <= q,
    ;
    assert(top == q * l) by (nonlinear_arith)
        requires
            top == l * q,
    ;
    let d = grain(1, x);
    grain_holds(1, x);
    half_even_near(x, d);
    let p = rounded_double(x);
    assert(p == half_even(x, d) * d);
    assert(0 <= p) by (nonlinear_arith)
        requires
            p == half_even(x, d) * d,
            0 <= half_even(x, d),
            0 < d,
    ;
    // the unit is far above a side and above the last digit of the product
    assert(u > LEAST_MANTISSA) by (nonlinear_arith)
        requires
            m * u >= LEAST_MANTISSA * l,
            1 <= m < l,
    ;
    assert(n <= u32::MAX * u) by (nonlinear_arith)
        requires
            n == m * u,
            m <= u32::MAX,
            u >= 0,
    ;
    assert(l + d < u);
    assert((m + 1) * u == n + u) by (nonlinear_arith)
        requires
            n == m * u,
    ;
    assert((m - 1) * u == n - u) by (nonlinear_arith)
        requires
            n == m * u,
    ;
    assert(p < (m + 1) * u);
    assert(n <= (l - 1) * u) by (nonlinear_arith)
        requires
            n == m * u,
            m <= l - 1,
            u >= 0,
    ;
    assert(q <= u) by (nonlinear_arith)
        requires
            2 * (q * l - n) <= l,
            n <= (l - 1) * u,
            l < u,
            l >= 1,
    ;
    assert(x <= side * u) by (nonlinear_arith)
        requires
            x == side * q,
            q <= u,
            0 <= side,
    ;
    assert((side + 1) * u == side * u + u) by (nonlinear_arith);
    assert(p < (side + 1) * u);
    quotient_between(p, u, 0, m);
    quotient_between(p, u, 0, side);
    if side == l {
        assert(p >= (m - 1) * u);
        quotient_between(p, u, m - 1, m);
    }
}

/// A scaled side misses the exact proportion by less than one and a half: it is
/// cut down, after roundings that add up to less than half.
pub proof fn proportions_are_kept(side: int, l: int, m: int)
    requires
        0 <= side <= l <= u32::MAX,
        1 <= m < l,
    ensures
        2 * (scaled(side, l, m) * l - side * m) <= l,
        2 * (side * m - scaled(side, l, m) * l) < 3 * l,
{
    let u = ratio_unit(m, l);
    let n = m * u;
    let q = ratio_mantissa(m, l);
    unit_reaches(m, LEAST_MANTISSA * l);
    half_even_near(n, l);
    let x = side * q;
    assert(0 <= x <= l * q) by (nonlinear_arith)
        requires
            x == side * q,
            0 <= side <= l,
            0 <= q,
    ;
    assert(l * q == q * l) by (nonlinear_arith);
    let d = grain(1, x);
    grain_holds(1, x);
    half_even_near(x, d);
    let p = rounded_double(x);
    assert(u > LEAST_MANTISSA) by (nonlinear_arith)
        requires
            m * u >= LEAST_MANTISSA * l,
            1 <= m < l,
    ;
    assert(n <= u32::MAX * u) by (nonlinear_arith)
        requires
            n == m * u,
            m <= u32::MAX,
            u >= 0,
    ;
    assert(l + d < u);
    let s = scaled(side, l, m);
    vstd::arithmetic::div_mod::lemma_fundamental_div_mod(p, u);
    vstd::arithmetic::div_mod::lemma_mod_bound(p, u);
    assert(s * u <= p < s * u + u) by (nonlinear_arith)
        requires
            p == u * s + p % u,
            0 <= p % u < u,
    ;
    // how far the product lies from the exact proportion
    let gap = q * l - n;
    assert(2 * gap <= l && 2 * -gap <= l);
    let y = side * gap;
    assert(x * l - side * n == y) by (nonlinear_arith)
        requires
            x == side * q,
            gap == q * l - n,
            y == side * gap,
    ;
    assert(2 * y <= l * l && -(2 * y) <= l * l) by (nonlinear_arith)
        requires
            y == side * gap,
            0 <= side <= l,
            2 * gap <= l,
            2 * -gap <= l,
    ;
    let e = p - x;
    assert(2 * e <= d && 2 * -e <= d);
    assert(2 * (e * l) <= d * l && -(2 * (e * l)) <= d * l) by (nonlinear_arith)
        requires
            2 * e <= d,
            2 * -e <= d,
            l >= 1,
    ;
    assert(p * l == x * l + e * l) by (nonlinear_arith)
        requires
            e == p - x,
    ;
    assert(l * l + d * l <= l * u) by (nonlinear_arith)
        requires
            l + d < u,
            l >= 1,
    ;
    assert(side * n == (side * m) * u) by (nonlinear_arith)
        requires
            n == m * u,
    ;
    let z = side * m;
    assert(2 * (p * l) <= 2 * (z * u) + l * u);
    assert(2 * (p * l) >= 2 * (z * u) - l * u);
    assert(2 * (s * l - z) <= l) by (nonlinear_arith)
        requires
            s * u <= p,
            2 * (p * l) <= 2 * (z * u) + l * u,
            u > 0,
            l >= 1,
    ;
    assert(2 * (z - s * l) < 3 * l) by (nonlinear_arith)
        requires
            p < s * u + u,
            2 * (p * l) >= 2 * (z * u) - l * u,
            u > 0,
            l >= 1,
    ;
}

proof fn quotient_between(p: int, u: int, low: int, high: int)
    requires
        0 < u,
        low * u <= p < (high + 1) * u,
    ensures
        low <= p / u <= high,
{
    assert(low <= p / u <= high) by (nonlinear_arith)
        requires
            0 < u,
            low * u <= p < (high + 1) * u,
    ;
}

fn divide_half_even(x: u128, d: u128) -> (q: u128)
    requires
        0 < d,
        x <= 0x100_0000_0000_0000_0000_0000_0000,
        d <= 0x100_0000_0000_0000_0000_0000_0000,
    ensures
        q == half_even(x as int, d as int),
{
    proof {
        vstd::arithmetic::div_mod::lemma_mod_bound(x as int, d as int);
        vstd::arithmetic::div_mod::lemma_div_is_ordered_by_denominator(x as int, 1, d as int);
    }
    let q = x / d;
    let r = x % d;
    if 2 * r < d || (2 * r == d && q % 2 == 0) {
        q
    } else {
        q + 1
    }
}

fn find_unit(m: u32, l: u32) -> (u: u128)
    requires
        1 <= m < l,
    ensures
        u == ratio_unit(m as int, l as int),
{
    let bound: u128 = LEAST_MANTISSA as u128 * l as u128;
    assert(bound >= l) by (nonlinear_arith)
        requires
            bound == LEAST_MANTISSA * l,
    ;
    let mut t: u128 = m as u128;
    let mut u: u128 = 1;
    while t < bound
        invariant
            bound == LEAST_MANTISSA * l,
            1 <= u <= t,
            t < 2 * bound,
            u * unit_for(t as int, bound as int) == unit_for(m as int, bound as int),
        decreases 2 * bound - t,
    {
        let ghost rest = unit_for(2 * t as int, bound as int);
        assert((2 * u as int) * rest == u * (2 * rest)) by (nonlinear_arith);
        t = 2 * t;
        u = 2 * u;
    }
    assert(u * 1 == u);
    u
}

fn find_grain(x: u128) -> (d: u128)
    requires
        x <= 0x100_0000_0000_0000_0000_0000_0000,
    ensures
        d == grain(1, x as int),
{
    let mut d: u128 = 1;
    while x >= MANTISSA_BOUND as u128 * d
        invariant
            x <= 0x100_0000_0000_0000_0000_0000_0000,
            1 <= d <= 0x100_0000_0000_0000,
            grain(d as int, x as int) == grain(1, x as int),
        decreases x - d,
    {
        assert(2 * d <= 0x100_0000_0000_0000) by (nonlinear_arith)
            requires
                x >= MANTISSA_BOUND * d,
                x <= 0x100_0000_0000_0000_0000_0000_0000,
        ;
        d = 2 * d;
    }
    d
}

fn scale_side(side: u32, longer: u32, max_dim: u32) -> (s: u32)
    requires
        side <= longer,
        1 <= max_dim < longer,
    ensures
        s as int == if scaled(side as int, longer as int, max_dim as int) >= 1 {
            scaled(side as int, longer as int, max_dim as int)
        } else {
            1
        },
{
    let ghost m = max_dim as int;
    let ghost l = longer as int;
    let u = find_unit(max_dim, longer);
    proof {
        unit_reaches(m, LEAST_MANTISSA * l);
        assert(u <= m * u) by (nonlinear_arith)
            requires
                1 <= m,
                u >= 0,
        ;
        half_even_near(m * u, l);
    }
    let n: u128 = max_dim as u128 * u;
    let q = divide_half_even(n, longer as u128);
    proof {
        assert(q <= 2 * MANTISSA_BOUND) by (nonlinear_arith)
            requires
                2 * (q * l - n) <= l,
                n < 2 * (LEAST_MANTISSA * l),
                l >= 1,
        ;
        assert(0 <= side * q <= 0xffff_ffff * (2 * MANTISSA_BOUND)) by (nonlinear_arith)
            requires
                0 <= side <= 0xffff_ffff,
                0 <= q <= 2 * MANTISSA_BOUND,
        ;
    }
    let x: u128 = side as u128 * q;
    let d = find_grain(x);
    proof {
        grain_holds(1, x as int);
        half_even_near(x as int, d as int);
        scaling_limits(side as int, l, m);
        assert(0 <= half_even(x as int, d as int) * d) by (nonlinear_arith)
            requires
                0 <= half_even(x as int, d as int),
                0 <= d,
        ;
    }
    let p: u128 = divide_half_even(x, d) * d;
    let s = (p / u) as u32;
    if s >= 1 {
        s
    } else {
        1
    }
}

/// The size of an image that fits into `max_dim` by `max_dim`.
pub fn fit_dimensions(w: u32, h: u32, max_dim: u32) -> (r: (u32, u32))
    ensures
        (r.0 as int, r.1 as int) == fitted(w, h, max_dim),
{
    if w <= max_dim && h <= max_dim {
        return (w, h);
    }
    if max_dim == 0 {
        return (1, 1);
    }
    let longer: u32 = if w >= h {
        w
    } else {
        h
    };
    (scale_side(w, longer, max_dim), scale_side(h, longer, max_dim))
}

/// The size of an image whose longer side is brought down to `max_dim`.
pub fn fit_long_side(w: u32, h: u32, max_dim: u32) -> (r: (u32, u32))
    ensures
        (r.0 as int, r.1 as int) == fitted_long(w, h, max_dim),
{
    if w <= max_dim && h <= max_dim {
        return (w, h);
    }
    let (a, b) = fit_dimensions(w, h, max_dim);
    let limit: u32 = if max_dim >= 1 {
        max_dim
    } else {
        1
    };
    (
        if w >= h {
            limit
        } else {
            a
        },
        if h >= w {
            limit
        } else {
            b
        },
    )
}

/// An image never grows; it fits the limit, and where it had to shrink its longer
/// side misses the limit by one at most; no side vanishes.
pub proof fn fitting_limits(w: u32, h: u32, max_dim: u32)
    requires
        w >= 1,
        h >= 1,
        max_dim >= 1,
    ensures
        ({
            let (a, b) = fitted(w, h, max_dim);
            &&& 1 <= a <= w && 1 <= b <= h
            &&& a <= max_dim && b <= max_dim
            &&& w > max_dim || h > max_dim ==> (if w >= h {
                a
            } else {
                b
            }) >= max_dim - 1
        }),
{
    if w > max_dim || h > max_dim {
        let l = longer_side(w, h);
        scaling_limits(w as int, l, max_dim as int);
        scaling_limits(h as int, l, max_dim as int);
    }
}

/// An image brought down by its longer side never grows; it fits the limit, and
/// its longer side meets the limit exactly where it had to shrink; no side
/// vanishes.
pub proof fn long_side_limits(w: u32, h: u32, max_dim: u32)
    requires
        w >= 1,
        h >= 1,
        max_dim >= 1,
    ensures
        ({
            let (a, b) = fitted_long(w, h, max_dim);
            &&& 1 <= a <= w && 1 <= b <= h
            &&& a <= max_dim && b <= max_dim
            &&& w > max_dim || h > max_dim ==> (if w >= h {
                a
            } else {
                b
            }) == max_dim
        }),
{
    fitting_limits(w, h, max_dim);
}

/// Fitting an image that has been fitted changes nothing.
pub proof fn fitting_twice(w: u32, h: u32, max_dim: u32, a: u32, b: u32)
    requires
        w >= 1,
        h >= 1,
        max_dim >= 1,
        (a as int, b as int) == fitted(w, h, max_dim),
    ensures
        fitted(a, b, max_dim) == (a as int, b as int),
{
    fitting_limits(w, h, max_dim);
}

/// An image whose longer side has been brought down is left as it is by bringing
/// it down again.
pub proof fn long_side_twice(w: u32, h: u32, max_dim: u32, a: u32, b: u32)
    requires
        w >= 1,
        h >= 1,
        max_dim >= 1,
        (a as int, b as int) == fitted_long(w, h, max_dim),
    ensures
        fitted_long(a, b, max_dim) == (a as int, b as int),
{
    long_side_limits(w, h, max_dim);
}

/// The radius of a blur: `fixed` where it is set, else the image's shorter side
/// over `divisor`, kept between the two limits.
pub fn blur_radius(
    image_short_side: usize,
    fixed: u32,
    divisor: usize,
    min_clamp: usize,
    max_clamp: usize,
) -> (r: usize)
    requires
        fixed > 0 || (divisor > 0 && min_clamp <= max_clamp),
    ensures
        fixed > 0 ==> r == fixed,
        fixed == 0 ==> {
            let share = image_short_side / divisor;
            r == if share < min_clamp {
                min_clamp
            } else if share > max_clamp {
                max_clamp
            } else {
                share
            }
        },
{
    if fixed > 0 {
        fixed as usize
    } else {
        let share: usize = image_short_side / divisor;
        if share < min_clamp {
            min_clamp
        } else if share > max_clamp {
            max_clamp
        } else {
            share
        }
    }
}

/// First and last position of a blur window around `x` in a row of `n`.
pub fn blur_window(x: usize, radius: usize, n: usize) -> (r: (usize, usize))
    requires
        x < n,
    ensures
        r.0 == if x > radius {
            x - radius
        } else {
            0
        },
        r.1 == if x + radius < n {
            x + radius
        } else {
            n - 1
        },
        r.0 <= x <= r.1 < n,
{
    let left: usize = if x > radius {
        x - radius
    } else {
        0
    };
    let right: usize = if radius < n - x {
        x + radius
    } else {
        n - 1
    };
    (left, right)
}

/// The position `d` of a window of `radius` around `x`, kept within a row of `n`:
/// beyond the edge the edge position repeats.
pub fn window_position(x: usize, d: usize, radius: usize, n: usize) -> (p: usize)
    requires
        x < n,
    ensures
        p as int == if x + d < radius {
            0
        } else if x + d - radius >= n {
            n - 1
        } else {
            x + d - radius
        },
        p < n,
{
    if d >= radius {
        let ahead: usize = d - radius;
        if ahead < n - x {
            x + ahead
        } else {
            n - 1
        }
    } else {
        let behind: usize = radius - d;
        if x >= behind {
            x - behind
        } else {
            0
        }
    }
}

/// Side of the blocks that texture is measured on.
pub const BLOCK: usize = 8;

/// The pixel at offset `d` in the block centred at `x`, kept within a row of `n`:
/// beyond the edge the edge pixel repeats.
pub fn block_position(x: usize, d: usize, n: usize) -> (p: usize)
    requires
        x < n,
        d < BLOCK,
    ensures
        p as int == if x + d < 4 {
            0
        } else if x + d - 4 >= n {
            n - 1
        } else {
            x + d - 4
        },
        p < n,
{
    window_position(x, d, BLOCK / 2, n)
}

/// Number of whole rows of `cols` that `count` cells take.
pub open spec fn rows_for(count: int, cols: int) -> int {
    (count + cols - 1) / cols
}

/// Number of cells missing to fill the last row.
pub open spec fn missing_cells(count: int, cols: int) -> int {
    (cols - count % cols) % cols
}

/// Filling up makes whole rows, and no more of them than are needed.
pub proof fn filling_up_aligns(count: int, cols: int)
    requires
        0 <= count,
        1 <= cols,
    ensures
        0 <= missing_cells(count, cols) < cols,
        (count + missing_cells(count, cols)) % cols == 0,
        count + missing_cells(count, cols) == rows_for(count, cols) * cols,
{
    let q = count / cols;
    let r = count % cols;
    assert(count == q * cols + r && 0 <= r < cols) by (nonlinear_arith)
        requires
            cols >= 1,
            q == count / cols,
            r == count % cols,
    ;
    if r == 0 {
        vstd::arithmetic::div_mod::lemma_mod_self_0(cols);
        vstd::arithmetic::div_mod::lemma_fundamental_div_mod_converse(
            count + cols - 1,
            cols,
            q,
            cols - 1,
        );
        vstd::arithmetic::div_mod::lemma_mod_multiples_basic(q, cols);
    } else {
        vstd::arithmetic::div_mod::lemma_small_mod((cols - r) as nat, cols as nat);
        assert(q * cols + cols == (q + 1) * cols) by (nonlinear_arith);
        vstd::arithmetic::div_mod::lemma_fundamental_div_mod_converse(
            count + cols - 1,
            cols,
            q + 1,
            r - 1,
        );
        vstd::arithmetic::div_mod::lemma_mod_multiples_basic(q + 1, cols);
    }
}

} // verus!
