//! Directions: the cosine and the sine of an angle in whole millionths of a degree.
//!
//! A direction is a pair of coordinates on the circle of radius [`unit`]. That of an angle is
//! composed of those of the powers of two in it, so directions add as their angles do, up to a
//! rounding that is far below a millionth.
use vstd::prelude::*;
use crate::micro::{quotient, quotient_spec};
use crate::products::{
    commuted, distributed, mono, paired, product_within, regrouped, root_within, square_is_positive,
    square_of, square_of_sum, square_within,
};

verus! {

/// The radius that directions are told in.
#[verifier::inline]
pub open spec fn unit() -> int {
    1_000_000_000_000_000_000
}

#[verifier::inline]
spec fn unit_squared() -> int {
    1_000_000_000_000_000_000_000_000_000_000_000_000
}

/// A little more than the square of the radius.
#[verifier::inline]
spec fn wide() -> int {
    1_000_000_000_000_001_000_000_000_000_000_000_000
}

/// The direction of `2^k` millionths of a degree.
pub open spec fn power(k: int) -> (int, int) {
    if k == 0 {
        (999_999_999_999_999_848, 17_453_292_520)
    } else if k == 1 {
        (999_999_999_999_999_391, 34_906_585_040)
    } else if k == 2 {
        (999_999_999_999_997_563, 69_813_170_080)
    } else if k == 3 {
        (999_999_999_999_990_252, 139_626_340_160)
    } else if k == 4 {
        (999_999_999_999_961_009, 279_252_680_319)
    } else if k == 5 {
        (999_999_999_999_844_036, 558_505_360_638)
    } else if k == 6 {
        (999_999_999_999_376_144, 1_117_010_721_276)
    } else if k == 7 {
        (999_999_999_997_504_574, 2_234_021_442_551)
    } else if k == 8 {
        (999_999_999_990_018_296, 4_468_042_885_091)
    } else if k == 9 {
        (999_999_999_960_073_186, 8_936_085_770_092)
    } else if k == 10 {
        (999_999_999_840_292_742, 17_872_171_539_470)
    } else if k == 11 {
        (999_999_999_361_170_969, 35_744_343_073_232)
    } else if k == 12 {
        (999_999_997_444_683_877, 71_488_686_100_796)
    } else if k == 13 {
        (999_999_989_778_735_519, 142_977_371_836_239)
    } else if k == 14 {
        (999_999_959_114_942_286, 285_954_740_749_659)
    } else if k == 15 {
        (999_999_836_459_772_486, 571_909_458_116_766)
    } else if k == 16 {
        (999_999_345_839_143_433, 1_143_818_729_173_125)
    } else if k == 17 {
        (999_997_383_357_429_586, 2_287_635_961_863_371)
    } else if k == 18 {
        (999_989_533_443_411_979, 4_575_259_951_875_456)
    } else if k == 19 {
        (999_958_133_992_745_529, 9_150_424_129_316_530)
    } else if k == 20 {
        (999_832_539_476_507_244, 18_300_082_075_187_100)
    } else if k == 21 {
        (999_330_213_992_082_832, 36_594_035_067_725_658)
    } else if k == 22 {
        (997_321_753_194_924_130, 73_139_049_790_128_131)
    } else if k == 23 {
        (989_301_358_791_594_316, 145_886_330_727_402_871)
    } else if k == 24 {
        (957_434_357_013_789_658, 288_651_090_435_479_157)
    } else if k == 25 {
        (833_361_095_980_817_666, 552_728_942_344_844_473)
    } else if k == 26 {
        (388_981_432_588_699_190, 921_245_594_345_635_537)
    } else if k == 27 {
        (-697_386_890_202_486_536, 716_694_862_109_185_898)
    } else if k == 28 {
        (-27_303_050_747_409_978, -999_627_202_220_850_108)
    } else {
        (-998_509_086_839_768_711, 54_585_744_461_454_653)
    }
}

fn power_of(k: u64) -> (r: (i128, i128))
    requires
        k <= 29,
    ensures
        (r.0 as int, r.1 as int) == power(k as int),
{
    if k == 0 {
        (999_999_999_999_999_848, 17_453_292_520)
    } else if k == 1 {
        (999_999_999_999_999_391, 34_906_585_040)
    } else if k == 2 {
        (999_999_999_999_997_563, 69_813_170_080)
    } else if k == 3 {
        (999_999_999_999_990_252, 139_626_340_160)
    } else if k == 4 {
        (999_999_999_999_961_009, 279_252_680_319)
    } else if k == 5 {
        (999_999_999_999_844_036, 558_505_360_638)
    } else if k == 6 {
        (999_999_999_999_376_144, 1_117_010_721_276)
    } else if k == 7 {
        (999_999_999_997_504_574, 2_234_021_442_551)
    } else if k == 8 {
        (999_999_999_990_018_296, 4_468_042_885_091)
    } else if k == 9 {
        (999_999_999_960_073_186, 8_936_085_770_092)
    } else if k == 10 {
        (999_999_999_840_292_742, 17_872_171_539_470)
    } else if k == 11 {
        (999_999_999_361_170_969, 35_744_343_073_232)
    } else if k == 12 {
        (999_999_997_444_683_877, 71_488_686_100_796)
    } else if k == 13 {
        (999_999_989_778_735_519, 142_977_371_836_239)
    } else if k == 14 {
        (999_999_959_114_942_286, 285_954_740_749_659)
    } else if k == 15 {
        (999_999_836_459_772_486, 571_909_458_116_766)
    } else if k == 16 {
        (999_999_345_839_143_433, 1_143_818_729_173_125)
    } else if k == 17 {
        (999_997_383_357_429_586, 2_287_635_961_863_371)
    } else if k == 18 {
        (999_989_533_443_411_979, 4_575_259_951_875_456)
    } else if k == 19 {
        (999_958_133_992_745_529, 9_150_424_129_316_530)
    } else if k == 20 {
        (999_832_539_476_507_244, 18_300_082_075_187_100)
    } else if k == 21 {
        (999_330_213_992_082_832, 36_594_035_067_725_658)
    } else if k == 22 {
        (997_321_753_194_924_130, 73_139_049_790_128_131)
    } else if k == 23 {
        (989_301_358_791_594_316, 145_886_330_727_402_871)
    } else if k == 24 {
        (957_434_357_013_789_658, 288_651_090_435_479_157)
    } else if k == 25 {
        (833_361_095_980_817_666, 552_728_942_344_844_473)
    } else if k == 26 {
        (388_981_432_588_699_190, 921_245_594_345_635_537)
    } else if k == 27 {
        (-697_386_890_202_486_536, 716_694_862_109_185_898)
    } else if k == 28 {
        (-27_303_050_747_409_978, -999_627_202_220_850_108)
    } else {
        (-998_509_086_839_768_711, 54_585_744_461_454_653)
    }
}

/// The direction of the sum of two directions' angles.
#[verifier::opaque]
pub open spec fn spun(u: (int, int), v: (int, int)) -> (int, int) {
    (
        quotient_spec(u.0 * v.0 - u.1 * v.1, unit()),
        quotient_spec(u.0 * v.1 + u.1 * v.0, unit()),
    )
}

/// The direction of `n` times `2^k` millionths of a degree.
#[verifier::opaque]
pub open spec fn composed(n: nat, k: int) -> (int, int)
    decreases n,
{
    if n == 0 {
        (unit(), 0)
    } else if n % 2 == 1 {
        spun(power(k), composed(n / 2, k + 1))
    } else {
        composed(n / 2, k + 1)
    }
}

/// One step of a composition.
proof fn composed_is(n: nat, k: int)
    ensures
        composed(2 * n, k) == composed(n, k + 1),
        composed(2 * n + 1, k) == spun(power(k), composed(n, k + 1)),
        composed(0, k) == (unit(), 0int),
{
    reveal(composed);
    assert((2 * n) / 2 == n);
    assert((2 * n + 1) / 2 == n);
}

// ---------------------------------------------------------------------------
// Sizes
// ---------------------------------------------------------------------------

/// Whether a pair lies on the circle, but for `m` units of its square.
pub open spec fn rounded(u: (int, int), m: int) -> bool {
    let n = u.0 * u.0 + u.1 * u.1;
    unit() * unit() - m * unit() <= n <= unit() * unit() + m * unit()
}

/// Whether two pairs are within `e` of each other.
pub open spec fn near(u: (int, int), v: (int, int), e: int) -> bool {
    -e <= u.0 - v.0 <= e && -e <= u.1 - v.1 <= e
}

proof fn near_joins(u: (int, int), v: (int, int), w: (int, int), e: int, f: int)
    requires
        near(u, v, e),
        near(v, w, f),
    ensures
        near(u, w, e + f),
        near(w, u, e + f),
{
}

/// What a division drops is less than one.
proof fn dropped(n: int)
    ensures
        -unit() < n - quotient_spec(n, unit()) * unit() < unit(),
{
}

/// The coordinates of what lies on the circle.
pub proof fn coordinates_are(u: (int, int), m: int)
    requires
        0 <= m <= 1000,
        rounded(u, m),
    ensures
        -unit() - 1000 <= u.0 <= unit() + 1000,
        -unit() - 1000 <= u.1 <= unit() + 1000,
        -3 * unit() <= 2 * u.0 + 2 * u.1 <= 3 * unit(),
        -3 * unit() <= 2 * u.0 - 2 * u.1 <= 3 * unit(),
{
    let (a, b) = u;
    square_is_positive(a);
    square_is_positive(b);
    root_within(a, unit() + 1000);
    root_within(b, unit() + 1000);
    square_of_sum(a, b);
    span_is(a + b, a - b, m);
    span_is(a - b, a + b, m);
}

proof fn span_is(s: int, t: int, m: int)
    requires
        s * s + t * t <= 2 * (unit() * unit() + m * unit()),
        0 <= m <= 1000,
    ensures
        -3 * unit() <= 2 * s <= 3 * unit(),
{
    square_is_positive(t);
    square_of(2, s);
    root_within(2 * s, 3 * unit());
}

/// A small pair turned is half as large again at most.
proof fn small_turns(e: int, f: int, v: (int, int), d: int)
    requires
        -d <= e <= d,
        -d <= f <= d,
        rounded(v, 1000),
    ensures
        -(3 * (unit() * d)) <= 2 * (e * v.0 - f * v.1) <= 3 * (unit() * d),
        -(3 * (unit() * d)) <= 2 * (e * v.1 + f * v.0) <= 3 * (unit() * d),
{
    coordinates_are(v, 1000);
    let (a, b) = v;
    let p = if a >= 0 {
        a
    } else {
        -a
    };
    let q = if b >= 0 {
        b
    } else {
        -b
    };
    assert(2 * p + 2 * q <= 3 * unit());
    spread(e, a, p, d);
    spread(f, b, q, d);
    spread(e, b, q, d);
    spread(f, a, p, d);
    let h = p + q;
    mono(d, h + h, 3 * unit());
    distributed(d, h, h);
    distributed(d, p, q);
    assert(2 * (d * p) + 2 * (d * q) <= 3 * (unit() * d));
}

proof fn spread(e: int, a: int, p: int, d: int)
    requires
        -d <= e <= d,
        p >= 0,
        a == p || a == -p,
    ensures
        -(d * p) <= e * a <= d * p,
{
    product_within(e, a, d, p);
}

// ---------------------------------------------------------------------------
// Products
// ---------------------------------------------------------------------------

proof fn spun_either_way(u: (int, int), v: (int, int))
    ensures
        spun(u, v) == spun(v, u),
{
    reveal(spun);
    commuted(u.0, v.0);
    commuted(u.1, v.1);
    commuted(u.0, v.1);
    commuted(u.1, v.0);
}

proof fn spun_by_nothing(u: (int, int))
    ensures
        spun(u, (unit(), 0)) == u,
        spun((unit(), 0), u) == u,
{
    reveal(spun);
    spun_either_way(u, (unit(), 0));
    assert(u.0 * unit() - u.1 * 0 == u.0 * unit());
    assert(u.0 * 0 + u.1 * unit() == u.1 * unit());
    whole_quotient(u.0);
    whole_quotient(u.1);
}

/// A quarter of a turn swaps the coordinates.
proof fn spun_a_quarter(v: (int, int))
    ensures
        spun((0, unit()), v) == (-v.1, v.0),
{
    reveal(spun);
    let (a, b) = v;
    assert(0 * a - unit() * b == (-b) * unit());
    assert(0 * b + unit() * a == a * unit());
    whole_quotient(-b);
    whole_quotient(a);
}

proof fn whole_quotient(n: int)
    ensures
        quotient_spec(n * unit(), unit()) == n,
{
    dropped(n * unit());
}

/// Near pairs are turned to near pairs.
proof fn near_spun(u: (int, int), w: (int, int), v: (int, int), e: int)
    requires
        near(u, w, e),
        e >= 0,
        rounded(v, 1000),
    ensures
        near(spun(u, v), spun(w, v), (3 * e + 4) / 2),
        near(spun(v, u), spun(v, w), (3 * e + 4) / 2),
{
    reveal(spun);
    let x = u.0 * v.0 - u.1 * v.1;
    let y = u.0 * v.1 + u.1 * v.0;
    let z = w.0 * v.0 - w.1 * v.1;
    let t = w.0 * v.1 + w.1 * v.0;
    dropped(x);
    dropped(y);
    dropped(z);
    dropped(t);
    let (a, b) = (u.0 - w.0, u.1 - w.1);
    small_turns(a, b, v, e);
    distributed(v.0, u.0, w.0);
    distributed(v.1, u.1, w.1);
    distributed(v.1, u.0, w.0);
    distributed(v.0, u.1, w.1);
    assert(x - z == a * v.0 - b * v.1);
    assert(y - t == a * v.1 + b * v.0);
    part_by(spun(u, v).0, spun(w, v).0, x, z, e);
    part_by(spun(u, v).1, spun(w, v).1, y, t, e);
    spun_either_way(u, v);
    spun_either_way(w, v);
}

proof fn part_by(p: int, q: int, x: int, z: int, e: int)
    requires
        -unit() < x - p * unit() < unit(),
        -unit() < z - q * unit() < unit(),
        -(3 * (unit() * e)) <= 2 * (x - z) <= 3 * (unit() * e),
        e >= 0,
    ensures
        -((3 * e + 4) / 2) <= p - q <= (3 * e + 4) / 2,
{
}

/// Turns may be taken in any order, but for five.
proof fn spun_in_any_order(u: (int, int), v: (int, int), w: (int, int))
    requires
        rounded(u, 1000),
        rounded(w, 1000),
    ensures
        near(spun(u, spun(v, w)), spun(spun(u, v), w), 5),
{
    reveal(spun);
    let p = spun(v, w);
    let q = spun(u, v);
    let x = v.0 * w.0 - v.1 * w.1;
    let y = v.0 * w.1 + v.1 * w.0;
    let z = u.0 * v.0 - u.1 * v.1;
    let t = u.0 * v.1 + u.1 * v.0;
    dropped(x);
    dropped(y);
    dropped(z);
    dropped(t);
    let (a, b) = (x - p.0 * unit(), y - p.1 * unit());
    let (c, d) = (z - q.0 * unit(), t - q.1 * unit());
    small_turns(a, b, u, unit());
    small_turns(c, d, w, unit());
    let f = u.0 * p.0 - u.1 * p.1;
    let g = u.0 * p.1 + u.1 * p.0;
    let h = q.0 * w.0 - q.1 * w.1;
    let k = q.0 * w.1 + q.1 * w.0;
    dropped(f);
    dropped(g);
    dropped(h);
    dropped(k);
    threefold(u, v, w);
    carried(x, p.0, a, u.0);
    carried(y, p.1, b, u.1);
    carried(y, p.1, b, u.0);
    carried(x, p.0, a, u.1);
    carried(z, q.0, c, w.0);
    carried(t, q.1, d, w.1);
    carried(z, q.0, c, w.1);
    carried(t, q.1, d, w.0);
    apart_by_five(spun(u, p).0, spun(q, w).0, f, h);
    apart_by_five(spun(u, p).1, spun(q, w).1, g, k);
}

proof fn carried(x: int, p: int, a: int, u: int)
    requires
        x == p * unit() + a,
    ensures
        u * x == (u * p) * unit() + a * u,
        x * u == (p * u) * unit() + a * u,
        u * p == p * u,
{
    distributed(u, p * unit(), a);
    regrouped(u, p, unit());
    commuted(u, p);
    commuted(u, x);
    commuted(u, a);
}

/// Products of three may be grouped either way.
pub proof fn threefold(u: (int, int), v: (int, int), w: (int, int))
    ensures
        u.0 * (v.0 * w.0 - v.1 * w.1) - u.1 * (v.0 * w.1 + v.1 * w.0) == (u.0 * v.0 - u.1 * v.1)
            * w.0 - (u.0 * v.1 + u.1 * v.0) * w.1,
        u.0 * (v.0 * w.1 + v.1 * w.0) + u.1 * (v.0 * w.0 - v.1 * w.1) == (u.0 * v.0 - u.1 * v.1)
            * w.1 + (u.0 * v.1 + u.1 * v.0) * w.0,
{
    let (a, b) = u;
    let (c, d) = v;
    let (e, f) = w;
    let (ce, df, cf, de) = (c * e, d * f, c * f, d * e);
    let (ac, bd, ad, bc) = (a * c, b * d, a * d, b * c);
    distributed(a, ce, df);
    distributed(b, cf, de);
    distributed(a, cf, de);
    distributed(b, ce, df);
    distributed(e, ac, bd);
    distributed(f, ad, bc);
    distributed(f, ac, bd);
    distributed(e, ad, bc);
    regrouped(a, c, e);
    regrouped(a, d, f);
    regrouped(b, c, f);
    regrouped(b, d, e);
    regrouped(a, c, f);
    regrouped(a, d, e);
    regrouped(b, c, e);
    regrouped(b, d, f);
}

proof fn apart_by_five(p: int, q: int, f: int, h: int)
    requires
        -unit() < f - p * unit() < unit(),
        -unit() < h - q * unit() < unit(),
        -(3 * (unit() * unit())) <= (f - h) * unit() <= 3 * (unit() * unit()),
    ensures
        -5 <= p - q <= 5,
{
}

/// What is composed of two pairs on the circle lies on it.
proof fn spun_is_rounded(u: (int, int), v: (int, int), m: int, n: int)
    requires
        rounded(u, m),
        rounded(v, n),
        0 <= m <= 300,
        0 <= n <= 300,
    ensures
        rounded(spun(u, v), m + n + 8),
{
    reveal(spun);
    let p = spun(u, v);
    let x = u.0 * v.0 - u.1 * v.1;
    let y = u.0 * v.1 + u.1 * v.0;
    dropped(x);
    dropped(y);
    let (a, b) = (x - p.0 * unit(), y - p.1 * unit());
    let s = u.0 * u.0 + u.1 * u.1;
    let t = v.0 * v.0 + v.1 * v.1;
    squares_multiply(u, v);
    let w = x * x + y * y;
    assert(w == s * t);
    square_range(s, t, m, n);
    root_range(x, y);
    root_range(y, x);
    let g = p.0 * p.0 + p.1 * p.1;
    squared(x, p.0, a);
    squared(y, p.1, b);
    small_product(x, a);
    small_product(y, b);
    narrowed(g, w, x * a + y * b, a * a + b * b, m + n);
}

proof fn squared(x: int, p: int, a: int)
    requires
        x == p * unit() + a,
        -unit() < a < unit(),
    ensures
        (p * p) * unit_squared() == x * x - 2 * (x * a) + a * a,
        0 <= a * a <= unit_squared(),
{
    square_of_sum(x, a);
    square_of(p, unit());
    square_within(a, unit());
}

proof fn small_product(x: int, a: int)
    requires
        -wide() <= x <= wide(),
        -unit() < a < unit(),
    ensures
        -(wide() * unit()) <= x * a <= wide() * unit(),
{
    product_within(x, a, wide(), unit());
}

proof fn narrowed(g: int, w: int, c: int, d: int, m: int)
    requires
        g * unit_squared() == w - 2 * c + d,
        unit_squared() * unit_squared() - (m + 1) * (unit_squared() * unit()) <= w
            <= unit_squared() * unit_squared() + (m + 1) * (unit_squared() * unit()),
        -2 * (wide() * unit()) <= c <= 2 * (wide() * unit()),
        0 <= d <= 2 * unit_squared(),
        0 <= m <= 600,
    ensures
        unit_squared() - (m + 8) * unit() <= g <= unit_squared() + (m + 8) * unit(),
{
}

/// The square of a product is the product of the squares.
pub proof fn squares_multiply(u: (int, int), v: (int, int))
    ensures
        ({
            let x = u.0 * v.0 - u.1 * v.1;
            let y = u.0 * v.1 + u.1 * v.0;
            x * x + y * y == (u.0 * u.0 + u.1 * u.1) * (v.0 * v.0 + v.1 * v.1)
        }),
{
    let (a, b) = u;
    let (c, d) = v;
    let (p, q, s, t) = (a * c, b * d, a * d, b * c);
    square_of_sum(p, q);
    square_of_sum(s, t);
    paired(a, c, b, d);
    paired(a, d, b, c);
    commuted(c, d);
    let (aa, bb, cc, dd) = (a * a, b * b, c * c, d * d);
    distributed(aa + bb, cc, dd);
    distributed(cc, aa, bb);
    distributed(dd, aa, bb);
    square_of(a, c);
    square_of(a, d);
    square_of(b, c);
    square_of(b, d);
}

proof fn square_range(s: int, t: int, m: int, n: int)
    requires
        unit_squared() - m * unit() <= s <= unit_squared() + m * unit(),
        unit_squared() - n * unit() <= t <= unit_squared() + n * unit(),
        0 <= m <= 300,
        0 <= n <= 300,
    ensures
        unit_squared() * unit_squared() - (m + n + 1) * (unit_squared() * unit()) <= s * t
            <= unit_squared() * unit_squared() + (m + n + 1) * (unit_squared() * unit()),
{
    let (a, b) = (s - unit_squared(), t - unit_squared());
    distributed(s, unit_squared(), b);
    distributed(b, unit_squared(), a);
    commuted(s, b);
    product_within(a, b, 300 * unit(), 300 * unit());
    commuted(a, b);
}

proof fn root_range(x: int, y: int)
    requires
        x * x + y * y <= unit_squared() * unit_squared() + 601 * (unit_squared() * unit()),
    ensures
        -wide() <= x <= wide(),
{
    square_is_positive(y);
    root_within(x, wide());
}

// ---------------------------------------------------------------------------
// The table
// ---------------------------------------------------------------------------

proof fn powers_are_rounded(k: int)
    requires
        0 <= k <= 29,
    ensures
        rounded(power(k), 2),
{
    if k == 0 {
        assert(rounded(power(0), 2));
    } else if k == 1 {
        assert(rounded(power(1), 2));
    } else if k == 2 {
        assert(rounded(power(2), 2));
    } else if k == 3 {
        assert(rounded(power(3), 2));
    } else if k == 4 {
        assert(rounded(power(4), 2));
    } else if k == 5 {
        assert(rounded(power(5), 2));
    } else if k == 6 {
        assert(rounded(power(6), 2));
    } else if k == 7 {
        assert(rounded(power(7), 2));
    } else if k == 8 {
        assert(rounded(power(8), 2));
    } else if k == 9 {
        assert(rounded(power(9), 2));
    } else if k == 10 {
        assert(rounded(power(10), 2));
    } else if k == 11 {
        assert(rounded(power(11), 2));
    } else if k == 12 {
        assert(rounded(power(12), 2));
    } else if k == 13 {
        assert(rounded(power(13), 2));
    } else if k == 14 {
        assert(rounded(power(14), 2));
    } else if k == 15 {
        assert(rounded(power(15), 2));
    } else if k == 16 {
        assert(rounded(power(16), 2));
    } else if k == 17 {
        assert(rounded(power(17), 2));
    } else if k == 18 {
        assert(rounded(power(18), 2));
    } else if k == 19 {
        assert(rounded(power(19), 2));
    } else if k == 20 {
        assert(rounded(power(20), 2));
    } else if k == 21 {
        assert(rounded(power(21), 2));
    } else if k == 22 {
        assert(rounded(power(22), 2));
    } else if k == 23 {
        assert(rounded(power(23), 2));
    } else if k == 24 {
        assert(rounded(power(24), 2));
    } else if k == 25 {
        assert(rounded(power(25), 2));
    } else if k == 26 {
        assert(rounded(power(26), 2));
    } else if k == 27 {
        assert(rounded(power(27), 2));
    } else if k == 28 {
        assert(rounded(power(28), 2));
    } else {
        assert(rounded(power(29), 2));
    }
}

proof fn powers_double(k: int)
    requires
        0 <= k < 29,
    ensures
        near(spun(power(k), power(k)), power(k + 1), 3),
{
    if k == 0 {
        doubled_well(
            0,
            999_999_999_999_999_848,
            17_453_292_520,
            999_999_999_999_999_391,
            34_906_585_040,
        );
    } else if k == 1 {
        doubled_well(
            1,
            999_999_999_999_999_391,
            34_906_585_040,
            999_999_999_999_997_563,
            69_813_170_080,
        );
    } else if k == 2 {
        doubled_well(
            2,
            999_999_999_999_997_563,
            69_813_170_080,
            999_999_999_999_990_252,
            139_626_340_160,
        );
    } else if k == 3 {
        doubled_well(
            3,
            999_999_999_999_990_252,
            139_626_340_160,
            999_999_999_999_961_009,
            279_252_680_319,
        );
    } else if k == 4 {
        doubled_well(
            4,
            999_999_999_999_961_009,
            279_252_680_319,
            999_999_999_999_844_036,
            558_505_360_638,
        );
    } else if k == 5 {
        doubled_well(
            5,
            999_999_999_999_844_036,
            558_505_360_638,
            999_999_999_999_376_144,
            1_117_010_721_276,
        );
    } else if k == 6 {
        doubled_well(
            6,
            999_999_999_999_376_144,
            1_117_010_721_276,
            999_999_999_997_504_574,
            2_234_021_442_551,
        );
    } else if k == 7 {
        doubled_well(
            7,
            999_999_999_997_504_574,
            2_234_021_442_551,
            999_999_999_990_018_296,
            4_468_042_885_091,
        );
    } else if k == 8 {
        doubled_well(
            8,
            999_999_999_990_018_296,
            4_468_042_885_091,
            999_999_999_960_073_186,
            8_936_085_770_092,
        );
    } else if k == 9 {
        doubled_well(
            9,
            999_999_999_960_073_186,
            8_936_085_770_092,
            999_999_999_840_292_742,
            17_872_171_539_470,
        );
    } else if k == 10 {
        doubled_well(
            10,
            999_999_999_840_292_742,
            17_872_171_539_470,
            999_999_999_361_170_969,
            35_744_343_073_232,
        );
    } else if k == 11 {
        doubled_well(
            11,
            999_999_999_361_170_969,
            35_744_343_073_232,
            999_999_997_444_683_877,
            71_488_686_100_796,
        );
    } else if k == 12 {
        doubled_well(
            12,
            999_999_997_444_683_877,
            71_488_686_100_796,
            999_999_989_778_735_519,
            142_977_371_836_239,
        );
    } else if k == 13 {
        doubled_well(
            13,
            999_999_989_778_735_519,
            142_977_371_836_239,
            999_999_959_114_942_286,
            285_954_740_749_659,
        );
    } else if k == 14 {
        doubled_well(
            14,
            999_999_959_114_942_286,
            285_954_740_749_659,
            999_999_836_459_772_486,
            571_909_458_116_766,
        );
    } else if k == 15 {
        doubled_well(
            15,
            999_999_836_459_772_486,
            571_909_458_116_766,
            999_999_345_839_143_433,
            1_143_818_729_173_125,
        );
    } else if k == 16 {
        doubled_well(
            16,
            999_999_345_839_143_433,
            1_143_818_729_173_125,
            999_997_383_357_429_586,
            2_287_635_961_863_371,
        );
    } else if k == 17 {
        doubled_well(
            17,
            999_997_383_357_429_586,
            2_287_635_961_863_371,
            999_989_533_443_411_979,
            4_575_259_951_875_456,
        );
    } else if k == 18 {
        doubled_well(
            18,
            999_989_533_443_411_979,
            4_575_259_951_875_456,
            999_958_133_992_745_529,
            9_150_424_129_316_530,
        );
    } else if k == 19 {
        doubled_well(
            19,
            999_958_133_992_745_529,
            9_150_424_129_316_530,
            999_832_539_476_507_244,
            18_300_082_075_187_100,
        );
    } else if k == 20 {
        doubled_well(
            20,
            999_832_539_476_507_244,
            18_300_082_075_187_100,
            999_330_213_992_082_832,
            36_594_035_067_725_658,
        );
    } else if k == 21 {
        doubled_well(
            21,
            999_330_213_992_082_832,
            36_594_035_067_725_658,
            997_321_753_194_924_130,
            73_139_049_790_128_131,
        );
    } else if k == 22 {
        doubled_well(
            22,
            997_321_753_194_924_130,
            73_139_049_790_128_131,
            989_301_358_791_594_316,
            145_886_330_727_402_871,
        );
    } else if k == 23 {
        doubled_well(
            23,
            989_301_358_791_594_316,
            145_886_330_727_402_871,
            957_434_357_013_789_658,
            288_651_090_435_479_157,
        );
    } else if k == 24 {
        doubled_well(
            24,
            957_434_357_013_789_658,
            288_651_090_435_479_157,
            833_361_095_980_817_666,
            552_728_942_344_844_473,
        );
    } else if k == 25 {
        doubled_well(
            25,
            833_361_095_980_817_666,
            552_728_942_344_844_473,
            388_981_432_588_699_190,
            921_245_594_345_635_537,
        );
    } else if k == 26 {
        doubled_well(
            26,
            388_981_432_588_699_190,
            921_245_594_345_635_537,
            -697_386_890_202_486_536,
            716_694_862_109_185_898,
        );
    } else if k == 27 {
        doubled_well(
            27,
            -697_386_890_202_486_536,
            716_694_862_109_185_898,
            -27_303_050_747_409_978,
            -999_627_202_220_850_108,
        );
    } else if k == 28 {
        doubled_well(
            28,
            -27_303_050_747_409_978,
            -999_627_202_220_850_108,
            -998_509_086_839_768_711,
            54_585_744_461_454_653,
        );
    }
}

proof fn doubled_well(k: int, a: int, b: int, c: int, d: int)
    requires
        power(k) == (a, b),
        power(k + 1) == (c, d),
        -2 * unit() <= a * a - b * b - c * unit() <= 2 * unit(),
        -2 * unit() <= a * b + b * a - d * unit() <= 2 * unit(),
    ensures
        near(spun(power(k), power(k)), power(k + 1), 3),
{
    reveal(spun);
    dropped(a * a - b * b);
    dropped(a * b + b * a);
}

// ---------------------------------------------------------------------------
// Sums
// ---------------------------------------------------------------------------

/// How many directions there are from the `k`-th power up.
pub open spec fn room(k: int) -> nat
    decreases 30 - k,
{
    if k >= 30 {
        1
    } else {
        2 * room(k + 1)
    }
}

/// Every composition lies on the circle.
pub proof fn compositions_are_rounded(n: nat, k: int)
    requires
        0 <= k <= 30,
        n < room(k),
    ensures
        rounded(composed(n, k), 10 * (30 - k)),
        rounded(composed(n, k), 1000),
    decreases 30 - k,
{
    let h = n / 2;
    composed_is(h, k);
    if k == 30 {
        assert(n == 0);
    } else {
        assert(h < room(k + 1));
        compositions_are_rounded(h, k + 1);
        let m = 10 * (30 - (k + 1));
        powers_are_rounded(k);
        spun_is_rounded(power(k), composed(h, k + 1), 2, m);
        assert(n == 2 * h || n == 2 * h + 1);
    }
}

/// One step more is one step further.
proof fn steps_follow(a: nat, k: int)
    requires
        0 <= k < 30,
        a + 1 < room(k),
    ensures
        near(composed(a + 1, k), spun(power(k), composed(a, k)), 11 * (30 - k)),
    decreases 30 - k,
{
    let h = a / 2;
    composed_is(h, k);
    composed_is(h + 1, k);
    assert(room(k) == 2 * room(k + 1));
    if a == 2 * h {
    } else {
        assert(a == 2 * h + 1);
        assert(k < 29) by {
            if k == 29 {
                assert(room(30) == 1);
            }
        }
        let p = power(k);
        let c = composed(h, k + 1);
        steps_follow(h, k + 1);
        powers_are_rounded(k);
        compositions_are_rounded(h, k + 1);
        powers_double(k);
        spun_in_any_order(p, p, c);
        near_spun(spun(p, p), power(k + 1), c, 3);
        assert(composed(a + 1, k) == composed(h + 1, k + 1));
        near_joins(
            spun(p, spun(p, c)),
            spun(spun(p, p), c),
            spun(power(k + 1), c),
            5,
            6,
        );
    }
}

/// How far the direction of a sum is from the sum of the directions, at most.
pub open spec fn slack(k: int) -> int
    decreases 30 - k,
{
    if k >= 30 {
        0
    } else {
        (3 * slack(k + 1) + 4) / 2 + 400
    }
}

proof fn slack_is_positive(k: int)
    ensures
        slack(k) >= 0,
    decreases 30 - k,
{
    if k < 30 {
        slack_is_positive(k + 1);
    }
}

/// With one odd angle, the odd power comes out.
proof fn odd_comes_out(p: (int, int), a: (int, int), b: (int, int), c: (int, int), e: int)
    requires
        near(c, spun(a, b), e),
        e >= 0,
        rounded(p, 1000),
        rounded(b, 1000),
    ensures
        near(spun(p, c), spun(spun(p, a), b), (3 * e + 4) / 2 + 5),
{
    near_spun(c, spun(a, b), p, e);
    spun_in_any_order(p, a, b);
}

/// Directions add as their angles do.
proof fn directions_add(a: nat, b: nat, k: int)
    requires
        0 <= k <= 30,
        a + b < room(k),
    ensures
        near(composed(a + b, k), spun(composed(a, k), composed(b, k)), slack(k)),
    decreases 30 - k,
{
    if k == 30 {
        assert(a == 0 && b == 0);
        composed_is(0, k);
        spun_by_nothing((unit(), 0));
    } else {
        let g = a / 2;
        let h = b / 2;
        assert(room(k) == 2 * room(k + 1));
        composed_is(g, k);
        composed_is(h, k);
        composed_is(g + h, k);
        let p = power(k);
        let u = composed(g, k + 1);
        let v = composed(h, k + 1);
        let c = composed(g + h, k + 1);
        let e = slack(k + 1);
        slack_is_positive(k + 1);
        directions_add(g, h, k + 1);
        powers_are_rounded(k);
        compositions_are_rounded(g, k + 1);
        compositions_are_rounded(h, k + 1);
        if a == 2 * g && b == 2 * h {
            assert(a + b == 2 * (g + h));
        } else if b == 2 * h {
            assert(a == 2 * g + 1 && a + b == 2 * (g + h) + 1);
            odd_comes_out(p, u, v, c, e);
        } else if a == 2 * g {
            assert(b == 2 * h + 1 && a + b == 2 * (g + h) + 1);
            spun_either_way(u, v);
            odd_comes_out(p, v, u, c, e);
            spun_either_way(spun(p, v), u);
        } else {
            assert(a == 2 * g + 1 && b == 2 * h + 1);
            assert(a + b == 2 * (g + h + 1));
            composed_is(g + h + 1, k);
            assert(k < 29) by {
                if k == 29 {
                    assert(room(30) == 1);
                }
            }
            both_odd(g, h, k);
        }
    }
}

proof fn both_odd(g: nat, h: nat, k: int)
    requires
        0 <= k < 29,
        g + h + 1 < room(k + 1),
        near(
            composed(g + h, k + 1),
            spun(composed(g, k + 1), composed(h, k + 1)),
            slack(k + 1),
        ),
    ensures
        near(
            composed(g + h + 1, k + 1),
            spun(spun(power(k), composed(g, k + 1)), spun(power(k), composed(h, k + 1))),
            (3 * slack(k + 1) + 4) / 2 + 400,
        ),
{
    let p = power(k);
    let p2 = power(k + 1);
    let u = composed(g, k + 1);
    let v = composed(h, k + 1);
    let c = composed(g + h, k + 1);
    let d = spun(u, v);
    let e = slack(k + 1);
    slack_is_positive(k + 1);
    powers_are_rounded(k);
    powers_are_rounded(k + 1);
    compositions_are_rounded(g, k + 1);
    compositions_are_rounded(h, k + 1);
    let m = 10 * (30 - (k + 1));
    spun_is_rounded(u, v, m, m);
    assert(rounded(d, 1000));
    spun_is_rounded(p, v, 2, m);
    let pv = spun(p, v);
    assert(rounded(pv, 1000));
    // (pu)(pv), p(u(pv)), p(p(vu)), (pp)d, p2 d, p2 c, and the next one
    let s0 = spun(spun(p, u), pv);
    let s1 = spun(p, spun(u, pv));
    let s2 = spun(p, spun(p, d));
    let s3 = spun(spun(p, p), d);
    let s4 = spun(p2, d);
    let s5 = spun(p2, c);
    let s6 = composed(g + h + 1, k + 1);
    spun_in_any_order(p, u, pv);
    spun_either_way(u, pv);
    spun_in_any_order(p, v, u);
    spun_either_way(u, v);
    assert(near(spun(u, pv), spun(p, d), 5));
    near_spun(spun(u, pv), spun(p, d), p, 5);
    spun_in_any_order(p, p, d);
    powers_double(k);
    near_spun(spun(p, p), p2, d, 3);
    near_spun(c, d, p2, e);
    steps_follow(g + h, k + 1);
    assert(near(s1, s0, 5));
    assert(near(s1, s2, 9));
    assert(near(s2, s3, 5));
    assert(near(s3, s4, 6));
    assert(near(s5, s4, (3 * e + 4) / 2));
    assert(near(s6, s5, 330));
}

// ---------------------------------------------------------------------------
// Angles
// ---------------------------------------------------------------------------

proof fn rooms()
    ensures
        room(0) == 1_073_741_824,
        slack(0) <= 200_000_000,
{
    reveal_with_fuel(room, 31);
    reveal_with_fuel(slack, 31);
}

/// The direction of a quarter of a turn, but for little.
proof fn quarter_is()
    ensures
        near(composed(90_000_000, 0), (0, unit()), 10),
{
    reveal_with_fuel(composed, 2);
    reveal(spun);
    assert(composed(0, 27) == (1_000_000_000_000_000_000int, 0int));
    assert(composed(1, 26) == (388_981_432_588_699_190int, 921_245_594_345_635_537int));
    assert(composed(2, 25) == (388_981_432_588_699_190int, 921_245_594_345_635_537int));
    assert(composed(5, 24) == (106_505_642_434_115_186int, 994_312_097_949_982_907int));
    assert(composed(10, 23) == (106_505_642_434_115_186int, 994_312_097_949_982_907int));
    assert(composed(21, 22) == (33_497_351_998_652_905int, 999_438_806_235_318_413int));
    assert(composed(42, 21) == (33_497_351_998_652_905int, 999_438_806_235_318_413int));
    assert(composed(85, 20) == (15_201_930_331_318_245int, 999_884_443_980_504_052int));
    assert(composed(171, 19) == (6_051_927_144_465_265int, 999_981_686_921_234_614int));
    assert(composed(343, 18) == (1_476_687_636_847_755int, 999_998_909_696_217_208int));
    assert(composed(686, 17) == (1_476_687_636_847_755int, 999_998_909_696_217_208int));
    assert(composed(1_373, 16) == (332_869_188_793_267int, 999_999_944_599_050_039int));
    assert(composed(2_746, 15) == (332_869_188_793_267int, 999_999_944_599_050_039int));
    assert(composed(5_493, 14) == (46_914_450_276_396int, 999_999_998_899_517_174int));
    assert(composed(10_986, 13) == (46_914_450_276_396int, 999_999_998_899_517_174int));
    assert(composed(21_972, 12) == (46_914_450_276_396int, 999_999_998_899_517_174int));
    assert(composed(43_945, 11) == (11_170_107_212_529int, 999_999_999_937_614_349int));
    assert(composed(87_890, 10) == (11_170_107_212_529int, 999_999_999_937_614_349int));
    assert(composed(175_781, 9) == (2_234_021_442_548int, 999_999_999_997_504_571int));
    assert(composed(351_562, 8) == (2_234_021_442_548int, 999_999_999_997_504_571int));
    assert(composed(703_125, 7) == (-2int, 999_999_999_999_999_996int));
    assert(composed(1_406_250, 6) == (-2int, 999_999_999_999_999_996int));
    assert(composed(2_812_500, 5) == (-2int, 999_999_999_999_999_996int));
    assert(composed(5_625_000, 4) == (-2int, 999_999_999_999_999_996int));
    assert(composed(11_250_000, 3) == (-2int, 999_999_999_999_999_996int));
    assert(composed(22_500_000, 2) == (-2int, 999_999_999_999_999_996int));
    assert(composed(45_000_000, 1) == (-2int, 999_999_999_999_999_996int));
    assert(composed(90_000_000, 0) == (-2int, 999_999_999_999_999_996int));
}

/// The quarters of a turn point where they should.
pub proof fn quarters_are()
    ensures
        composed(0, 0) == (unit(), 0int),
        near(composed(90_000_000, 0), (0, unit()), 1_000_000_000),
        near(composed(180_000_000, 0), (-unit(), 0), 1_000_000_000),
        near(composed(270_000_000, 0), (0, -unit()), 2_000_000_000),
        near(composed(360_000_000, 0), (unit(), 0), 3_000_000_000),
{
    rooms();
    composed_is(0, 0);
    quarter_is();
    let q = composed(90_000_000, 0);
    let i = (0int, unit());
    let j = (-unit(), 0int);
    let l = (0int, -unit());
    assert(rounded(i, 1000));
    spun_a_quarter(i);
    spun_a_quarter(j);
    spun_a_quarter(l);
    compositions_are_rounded(90_000_000, 0);
    directions_add(90_000_000, 90_000_000, 0);
    near_spun(q, i, q, 10);
    near_spun(q, i, i, 10);
    let h = composed(180_000_000, 0);
    assert(near(h, j, 200_000_100));
    directions_add(90_000_000, 180_000_000, 0);
    compositions_are_rounded(180_000_000, 0);
    near_spun(q, i, h, 10);
    near_spun(h, j, i, 200_000_100);
    let t = composed(270_000_000, 0);
    assert(near(t, l, 600_000_000));
    directions_add(90_000_000, 270_000_000, 0);
    compositions_are_rounded(270_000_000, 0);
    near_spun(q, i, t, 10);
    near_spun(t, l, i, 600_000_000);
}

/// Directions add round the circle, but for a hundred-millionth of it.
pub proof fn directions_add_round(a: nat, b: nat)
    requires
        a < 360_000_000,
        b < 360_000_000,
    ensures
        near(
            composed(((a + b) % 360_000_000) as nat, 0),
            spun(composed(a, 0), composed(b, 0)),
            10_000_000_000,
        ),
{
    rooms();
    directions_add(a, b, 0);
    if a + b >= 360_000_000 {
        let c = (a + b - 360_000_000) as nat;
        assert((a + b) % 360_000_000 == c);
        directions_add(c, 360_000_000, 0);
        quarters_are();
        compositions_are_rounded(c, 0);
        near_spun(composed(360_000_000, 0), (unit(), 0), composed(c, 0), 3_000_000_000);
        spun_by_nothing(composed(c, 0));
    }
}

// ---------------------------------------------------------------------------
// Code
// ---------------------------------------------------------------------------

fn compose(n: u64, k: u64) -> (r: (i128, i128))
    requires
        k <= 30,
        n < room(k as int),
    ensures
        (r.0 as int, r.1 as int) == composed(n as nat, k as int),
    decreases n,
{
    if n == 0 {
        proof {
            composed_is(0, k as int);
        }
        return (1_000_000_000_000_000_000, 0);
    }
    proof {
        composed_is((n / 2) as nat, k as int);
        if k == 30 {
            assert(room(30) == 1);
        }
        assert(room(k as int) == 2 * room(k + 1));
        compositions_are_rounded((n / 2) as nat, k + 1);
        coordinates_are(composed((n / 2) as nat, k + 1), 1000);
        powers_are_rounded(k as int);
        coordinates_are(power(k as int), 2);
    }
    let v = compose(n / 2, k + 1);
    if n % 2 == 0 {
        return v;
    }
    let u = power_of(k);
    proof {
        reveal(spun);
        fits(u.0 as int, v.0 as int);
        fits(u.1 as int, v.1 as int);
        fits(u.0 as int, v.1 as int);
        fits(u.1 as int, v.0 as int);
    }
    (
        quotient(u.0 * v.0 - u.1 * v.1, 1_000_000_000_000_000_000),
        quotient(u.0 * v.1 + u.1 * v.0, 1_000_000_000_000_000_000),
    )
}

proof fn fits(a: int, b: int)
    requires
        -unit() - 1000 <= a <= unit() + 1000,
        -unit() - 1000 <= b <= unit() + 1000,
    ensures
        -2 * (unit() * unit()) <= a * b <= 2 * (unit() * unit()),
{
    product_within(a, b, unit() + 1000, unit() + 1000);
}

/// A coordinate in millionths, the nearest.
pub open spec fn nearest(x: int) -> int {
    if x >= 0 {
        (x + 500_000_000_000) / 1_000_000_000_000
    } else {
        -((-x + 500_000_000_000) / 1_000_000_000_000)
    }
}

fn to_nearest(x: i128) -> (r: i64)
    requires
        -unit() - 1000 <= x <= unit() + 1000,
    ensures
        r == nearest(x as int),
        -1_000_000 <= r <= 1_000_000,
{
    if x >= 0 {
        ((x + 500_000_000_000) as u128 / 1_000_000_000_000) as i64
    } else {
        -(((-x + 500_000_000_000) as u128 / 1_000_000_000_000) as i64)
    }
}

/// The cosine and the sine of an angle within a turn, in millionths.
pub open spec fn cosine_sine_spec(n: int) -> (int, int) {
    let v = composed(n as nat, 0);
    (nearest(v.0), nearest(v.1))
}

pub fn cosine_sine(n: i64) -> (r: (i64, i64))
    requires
        0 <= n < 360_000_000,
    ensures
        (r.0 as int, r.1 as int) == cosine_sine_spec(n as int),
        -1_000_000 <= r.0 <= 1_000_000,
        -1_000_000 <= r.1 <= 1_000_000,
{
    proof {
        rooms();
        compositions_are_rounded(n as nat, 0);
        coordinates_are(composed(n as nat, 0), 1000);
    }
    let v = compose(n as u64, 0);
    (to_nearest(v.0), to_nearest(v.1))
}

// ---------------------------------------------------------------------------
// Cosines and sines
// ---------------------------------------------------------------------------

/// How a direction within a turn is told: to the nearest millionth.
proof fn told_nearly(n: int) -> (e: (int, int))
    requires
        0 <= n < 360_000_000,
    ensures
        ({
            let v = composed(n as nat, 0);
            let (k, s) = cosine_sine_spec(n);
            &&& rounded(v, 1000)
            &&& k * 1_000_000_000_000 == v.0 + e.0
            &&& s * 1_000_000_000_000 == v.1 + e.1
            &&& -500_000_000_000 <= e.0 <= 500_000_000_000
            &&& -500_000_000_000 <= e.1 <= 500_000_000_000
            &&& -1_000_000 <= k <= 1_000_000
            &&& -1_000_000 <= s <= 1_000_000
        }),
{
    let v = composed(n as nat, 0);
    let (k, s) = cosine_sine_spec(n);
    rooms();
    compositions_are_rounded(n as nat, 0);
    coordinates_are(v, 1000);
    (k * 1_000_000_000_000 - v.0, s * 1_000_000_000_000 - v.1)
}

/// Cosines and sines stay between minus one and one.
pub proof fn cosines_stay_within_one(n: int)
    requires
        0 <= n < 360_000_000,
    ensures
        -1_000_000 <= cosine_sine_spec(n).0 <= 1_000_000,
        -1_000_000 <= cosine_sine_spec(n).1 <= 1_000_000,
{
    let e = told_nearly(n);
}

/// The quarters of a turn are told exactly.
pub proof fn quarters_point_well()
    ensures
        cosine_sine_spec(0) == (1_000_000int, 0int),
        cosine_sine_spec(90_000_000) == (0int, 1_000_000int),
        cosine_sine_spec(180_000_000) == (-1_000_000int, 0int),
        cosine_sine_spec(270_000_000) == (0int, -1_000_000int),
{
    quarters_are();
}

/// Whether a cosine and a sine make one, but for two millionths.
pub open spec fn one_together(t: (int, int)) -> bool {
    -2_000_000 <= t.0 * t.0 + t.1 * t.1 - 1_000_000_000_000 <= 2_000_000
}

/// The squares of a cosine and a sine make one.
pub proof fn squares_make_one(n: int)
    requires
        0 <= n < 360_000_000,
    ensures
        one_together(cosine_sine_spec(n)),
{
    let v = composed(n as nat, 0);
    let (k, s) = cosine_sine_spec(n);
    let (a, b) = told_nearly(n);
    small_turns(a, -b, v, 500_000_000_000);
    distributed(v.1, 0, b);
    told_square(k, v.0, a);
    told_square(s, v.1, b);
}

proof fn told_square(k: int, v: int, a: int)
    requires
        k * 1_000_000_000_000 == v + a,
        -500_000_000_000 <= a <= 500_000_000_000,
    ensures
        (k * k) * 1_000_000_000_000_000_000_000_000 == v * v + 2 * (a * v) + a * a,
        0 <= a * a <= 250_000_000_000_000_000_000_000,
{
    square_of_sum(v, a);
    square_of(k, 1_000_000_000_000);
    square_within(a, 500_000_000_000);
    commuted(a, v);
}

/// Whether `w` is told as the sum of the angles of `t` and `u`, but for three millionths.
pub open spec fn sum_of(t: (int, int), u: (int, int), w: (int, int)) -> bool {
    &&& -2_100_000 <= w.0 * 1_000_000 - (t.0 * u.0 - t.1 * u.1) <= 2_100_000
    &&& -2_100_000 <= w.1 * 1_000_000 - (t.0 * u.1 + t.1 * u.0) <= 2_100_000
}

/// Cosines and sines add as they should.
pub proof fn angles_add(a: int, b: int)
    requires
        0 <= a < 360_000_000,
        0 <= b < 360_000_000,
    ensures
        sum_of(
            cosine_sine_spec(a),
            cosine_sine_spec(b),
            cosine_sine_spec((a + b) % 360_000_000),
        ),
{
    let c = (a + b) % 360_000_000;
    let (v, w, x) = (composed(a as nat, 0), composed(b as nat, 0), composed(c as nat, 0));
    let (t, u, r) = (cosine_sine_spec(a), cosine_sine_spec(b), cosine_sine_spec(c));
    let e = told_nearly(a);
    let f = told_nearly(b);
    let g = told_nearly(c);
    directions_add_round(a as nat, b as nat);
    let p = spun(v, w);
    assert(near(x, p, 10_000_000_000));
    assert(-unit() < v.0 * w.0 - v.1 * w.1 - p.0 * unit() < unit() && -unit() < v.0 * w.1 + v.1
        * w.0 - p.1 * unit() < unit()) by {
        reveal(spun);
        dropped(v.0 * w.0 - v.1 * w.1);
        dropped(v.0 * w.1 + v.1 * w.0);
    }
    small_turns(e.0, e.1, w, 500_000_000_000);
    small_turns(f.0, f.1, v, 500_000_000_000);
    told_product(t.0, u.0, v.0, w.0, e.0, f.0);
    told_product(t.1, u.1, v.1, w.1, e.1, f.1);
    told_product(t.0, u.1, v.0, w.1, e.0, f.1);
    told_product(t.1, u.0, v.1, w.0, e.1, f.0);
}

proof fn told_product(k: int, l: int, v: int, w: int, e: int, f: int)
    requires
        k * 1_000_000_000_000 == v + e,
        l * 1_000_000_000_000 == w + f,
        -500_000_000_000 <= e <= 500_000_000_000,
        -500_000_000_000 <= f <= 500_000_000_000,
    ensures
        ({
            let rest = (k * l) * 1_000_000_000_000_000_000_000_000 - (v * w + e * w + f * v);
            -250_000_000_000_000_000_000_000 <= rest <= 250_000_000_000_000_000_000_000
        }),
{
    distributed(v + e, w, f);
    distributed(w, v, e);
    distributed(f, v, e);
    commuted(f, v);
    commuted(f, e);
    paired(k, 1_000_000_000_000, l, 1_000_000_000_000);
    product_within(e, f, 500_000_000_000, 500_000_000_000);
}

} // verus!
