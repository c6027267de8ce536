//! The plane in whole numbers: steps, how they turn, how long they are, and how far a run of turns
//! strays.
use vstd::prelude::*;
use crate::products::{
    commuted, distributed, mono, product_within, regrouped, root_within, square_is_positive,
    square_of, square_of_sum, square_within,
};
use crate::rotor::{
    angles_add, cosine_sine_spec, cosines_stay_within_one, one_together, quarters_point_well,
    squares_make_one, squares_multiply, sum_of, threefold,
};

verus! {

// ---------------------------------------------------------------------------
// Steps
// ---------------------------------------------------------------------------

/// A step in the plane, turned by a cosine and a sine in millionths, and so in millionths of
/// itself.
pub open spec fn swung(v: (int, int), t: (int, int)) -> (int, int) {
    (v.0 * t.0 - v.1 * t.1, v.0 * t.1 + v.1 * t.0)
}

/// How far a step goes along both axes together.
pub open spec fn stretch(v: (int, int)) -> int {
    (if v.0 >= 0 {
        v.0
    } else {
        -v.0
    }) + (if v.1 >= 0 {
        v.1
    } else {
        -v.1
    })
}

/// Whether a step is no longer than `r`.
#[verifier::opaque]
pub open spec fn short(v: (int, int), r: int) -> bool {
    r >= 0 && v.0 * v.0 + v.1 * v.1 <= r * r
}

/// An angle up to whole turns.
#[verifier::opaque]
pub open spec fn heading(angle: int) -> int {
    angle % 360_000_000
}

/// The cosine and the sine of an angle.
#[verifier::opaque]
pub open spec fn bearing(angle: int) -> (int, int) {
    cosine_sine_spec(angle % 360_000_000)
}

/// Steps turn together.
pub proof fn steps_add(a: (int, int), b: (int, int), t: (int, int))
    ensures
        swung((a.0 + b.0, a.1 + b.1), t) == (
            swung(a, t).0 + swung(b, t).0,
            swung(a, t).1 + swung(b, t).1,
        ),
{
    distributed(t.0, a.0, b.0);
    distributed(t.1, a.0, b.0);
    distributed(t.0, a.1, b.1);
    distributed(t.1, a.1, b.1);
}

/// What lies between two steps turns as they do.
pub proof fn apart_turns(p: (int, int), q: (int, int), t: (int, int))
    ensures
        swung((q.0 - p.0, q.1 - p.1), t) == (
            swung(q, t).0 - swung(p, t).0,
            swung(q, t).1 - swung(p, t).1,
        ),
{
    steps_add(p, (q.0 - p.0, q.1 - p.1), t);
}

proof fn steps_scale(v: (int, int), t: (int, int))
    ensures
        swung((1_000_000 * v.0, 1_000_000 * v.1), t) == (
            1_000_000 * swung(v, t).0,
            1_000_000 * swung(v, t).1,
        ),
        swung(v, (1_000_000 * t.0, 1_000_000 * t.1)) == (
            1_000_000 * swung(v, t).0,
            1_000_000 * swung(v, t).1,
        ),
{
    scaled(v.0, t.0);
    scaled(v.0, t.1);
    scaled(v.1, t.0);
    scaled(v.1, t.1);
}

proof fn scaled(a: int, b: int)
    ensures
        (1_000_000 * a) * b == 1_000_000 * (a * b),
        a * (1_000_000 * b) == 1_000_000 * (a * b),
{
    regrouped(1_000_000, a, b);
    commuted(1_000_000 * b, a);
    regrouped(1_000_000, b, a);
    commuted(a, b);
}

/// A step turned by a sum.
pub proof fn bearings_add(v: (int, int), a: (int, int), b: (int, int))
    ensures
        swung(v, (a.0 + b.0, a.1 + b.1)) == (
            swung(v, a).0 + swung(v, b).0,
            swung(v, a).1 + swung(v, b).1,
        ),
{
    distributed(v.0, a.0, b.0);
    distributed(v.1, a.0, b.0);
    distributed(v.0, a.1, b.1);
    distributed(v.1, a.1, b.1);
}

/// A step turned by little goes a little.
pub proof fn small_swing(v: (int, int), w: (int, int), d: int)
    requires
        -d <= w.0 <= d,
        -d <= w.1 <= d,
    ensures
        -(d * stretch(v)) <= swung(v, w).0 <= d * stretch(v),
        -(d * stretch(v)) <= swung(v, w).1 <= d * stretch(v),
{
    let p = if v.0 >= 0 {
        v.0
    } else {
        -v.0
    };
    let q = if v.1 >= 0 {
        v.1
    } else {
        -v.1
    };
    bounded(v.0, p, w.0, d);
    bounded(v.0, p, w.1, d);
    bounded(v.1, q, w.0, d);
    bounded(v.1, q, w.1, d);
    distributed(d, p, q);
}

proof fn bounded(a: int, p: int, e: int, d: int)
    requires
        -d <= e <= d,
        p >= 0,
        a == p || a == -p,
    ensures
        -(d * p) <= a * e <= d * p,
{
    product_within(e, a, d, p);
    commuted(e, a);
}

/// The square of a swung step.
pub proof fn swung_square(v: (int, int), t: (int, int))
    ensures
        ({
            let w = swung(v, t);
            w.0 * w.0 + w.1 * w.1 == (v.0 * v.0 + v.1 * v.1) * (t.0 * t.0 + t.1 * t.1)
        }),
{
    squares_multiply(v, t);
}

/// Turning keeps what is short short.
proof fn short_swings(v: (int, int), t: (int, int), r: int)
    requires
        short(v, r),
        one_together(t),
    ensures
        short(swung(v, t), 1_000_001 * r),
{
    reveal(short);
    swung_square(v, t);
    let n = v.0 * v.0 + v.1 * v.1;
    let m = t.0 * t.0 + t.1 * t.1;
    square_is_positive(v.0);
    square_is_positive(v.1);
    mono(n, m, 1_000_002_000_001);
    square_of(1_000_001, r);
    let (k, w) = (r * r, swung(v, t));
    assert((1_000_001 * r) * (1_000_001 * r) == 1_000_002_000_001 * k);
    assert(w.0 * w.0 + w.1 * w.1 == n * m);
    assert(n * m <= 1_000_002_000_001 * n);
}

/// A step with small coordinates is short.
pub proof fn small_is_short(v: (int, int), d: int)
    requires
        -d <= v.0 <= d,
        -d <= v.1 <= d,
    ensures
        short(v, 2 * d),
{
    reveal(short);
    square_within(v.0, d);
    square_within(v.1, d);
    square_of(2, d);
    let k = d * d;
    assert((2 * d) * (2 * d) == 4 * k);
}

/// Short steps make a short way.
pub proof fn short_adds(v: (int, int), w: (int, int), r: int, q: int)
    requires
        short(v, r),
        short(w, q),
    ensures
        short((v.0 + w.0, v.1 + w.1), r + q),
{
    reveal(short);
    let (a, b) = v;
    let (c, d) = w;
    let x = a * c + b * d;
    let n = a * a + b * b;
    let m = c * c + d * d;
    squares_multiply(v, (c, -d));
    let y = a * -d + b * c;
    distributed(b, 0, d);
    distributed(d, 0, d);
    distributed(-d, 0, d);
    commuted(-d, d);
    assert(a * c - b * -d == x);
    assert(c * c + -d * -d == m);
    let z = r * q;
    square_is_positive(a);
    square_is_positive(b);
    square_is_positive(c);
    square_is_positive(d);
    square_is_positive(y);
    mono(n, m, q * q);
    mono(q * q, n, r * r);
    square_of(r, q);
    mono(r, 0, q);
    root_within(x, z);
    square_of_sum(a, c);
    square_of_sum(b, d);
    square_of_sum(r, q);
}

/// What is short in millionths is short.
proof fn short_in_millionths(v: (int, int), r: int, q: int)
    requires
        short((1_000_000 * v.0, 1_000_000 * v.1), q),
        q <= 1_000_000 * r,
    ensures
        short(v, r),
{
    reveal(short);
    let (a, b) = v;
    square_of(1_000_000, a);
    square_of(1_000_000, b);
    square_of(1_000_000, r);
    square_within(q, 1_000_000 * r);
}

/// A short step has small coordinates.
pub proof fn short_is_near(v: (int, int), r: int)
    requires
        short(v, r),
    ensures
        -r <= v.0 <= r,
        -r <= v.1 <= r,
{
    reveal(short);
    square_is_positive(v.0);
    square_is_positive(v.1);
    root_within(v.0, r);
    root_within(v.1, r);
}

// ---------------------------------------------------------------------------
// Lengths
// ---------------------------------------------------------------------------

/// Whether two steps are of one length: their squares agree but for a millionth of the length,
/// and the rounding of their coordinates.
#[verifier::opaque]
pub open spec fn as_long(v: (int, int), w: (int, int)) -> bool {
    let n = v.0 * v.0 + v.1 * v.1;
    let m = w.0 * w.0 + w.1 * w.1;
    let slack = n + 20_000_000 * stretch(v) + 100_000_000;
    -slack <= (m - n) * 500_000 <= slack
}

/// A step that was turned but for little is as long as it was.
pub proof fn turned_steps_are_as_long(v: (int, int), w: (int, int), t: (int, int))
    requires
        one_together(t),
        -1_000_000 <= t.0 <= 1_000_000,
        -1_000_000 <= t.1 <= 1_000_000,
        -10_000_000 <= w.0 * 1_000_000 - swung(v, t).0 <= 10_000_000,
        -10_000_000 <= w.1 * 1_000_000 - swung(v, t).1 <= 10_000_000,
    ensures
        as_long(v, w),
{
    reveal(as_long);
    let u = swung(v, t);
    let (e, f) = (w.0 * 1_000_000 - u.0, w.1 * 1_000_000 - u.1);
    let n = v.0 * v.0 + v.1 * v.1;
    let m = w.0 * w.0 + w.1 * w.1;
    let o = t.0 * t.0 + t.1 * t.1;
    let l = stretch(v);
    swung_square(v, t);
    small_swing(v, t, 1_000_000);
    square_is_positive(v.0);
    square_is_positive(v.1);
    mono(n, o, 1_000_002_000_000);
    mono(n, 999_998_000_000, o);
    one_axis(w.0, u.0, e, l);
    one_axis(w.1, u.1, f, l);
}

proof fn one_axis(w: int, u: int, e: int, l: int)
    requires
        w * 1_000_000 == u + e,
        -10_000_000 <= e <= 10_000_000,
        -(1_000_000 * l) <= u <= 1_000_000 * l,
        l >= 0,
    ensures
        ({
            let d = (w * w) * 1_000_000_000_000 - u * u;
            -(20_000_000_000_000 * l) <= d <= 20_000_000_000_000 * l + 100_000_000_000_000
        }),
{
    square_of(w, 1_000_000);
    square_of_sum(u, e);
    square_within(e, 10_000_000);
    product_within(u, e, 1_000_000 * l, 10_000_000);
}

// ---------------------------------------------------------------------------
// Straying
// ---------------------------------------------------------------------------

/// How far a step is, in millionths, from the step `v` turned by `t`.
#[verifier::opaque]
pub open spec fn astray(v: (int, int), w: (int, int), t: (int, int)) -> (int, int) {
    (1_000_000 * w.0 - swung(v, t).0, 1_000_000 * w.1 - swung(v, t).1)
}

/// How far a step is astray hardly changes with the step.
pub proof fn moved_a_little(v: (int, int), w: (int, int), w2: (int, int), t: (int, int))
    requires
        -7 <= w2.0 - w.0 <= 7,
        -7 <= w2.1 - w.1 <= 7,
        -2_000_000 <= astray(v, w, t).0 <= 2_000_000,
        -2_000_000 <= astray(v, w, t).1 <= 2_000_000,
    ensures
        -12_000_000 <= astray(v, w2, t).0 <= 12_000_000,
        -12_000_000 <= astray(v, w2, t).1 <= 12_000_000,
{
    reveal(astray);
}

/// One turn more strays a little further.
proof fn strays_further(
    v: (int, int),
    w: (int, int),
    w2: (int, int),
    t: (int, int),
    d: (int, int),
    u: (int, int),
    r: int,
    q: int,
)
    requires
        short(astray(v, w, t), r),
        -12_000_000 <= astray(w, w2, d).0 <= 12_000_000,
        -12_000_000 <= astray(w, w2, d).1 <= 12_000_000,
        one_together(d),
        sum_of(t, d, u),
        1_000_001 * r + 4_200_000 * stretch(v) + 24_000_000_000_000 <= 1_000_000 * q,
    ensures
        short(astray(v, w2, u), q),
{
    reveal(astray);
    let e = astray(v, w, t);
    let z = astray(w, w2, d);
    let f = astray(v, w2, u);
    let a = swung(v, t);
    let td = swung(t, d);
    let c = (td.0 - 1_000_000 * u.0, td.1 - 1_000_000 * u.1);
    let h = swung(v, c);
    // A million times the new step, by the old ones.
    steps_scale(w, d);
    steps_add(e, a, d);
    assert((e.0 + a.0, e.1 + a.1) == (1_000_000 * w.0, 1_000_000 * w.1));
    threefold(v, t, d);
    assert(swung(a, d) == swung(v, td));
    bearings_add(v, c, (1_000_000 * u.0, 1_000_000 * u.1));
    steps_scale(v, u);
    let g = swung(e, d);
    assert(1_000_000 * f.0 == g.0 + (h.0 + 1_000_000 * z.0));
    assert(1_000_000 * f.1 == g.1 + (h.1 + 1_000_000 * z.1));
    small_swing(v, c, 2_100_000);
    let k = 2_100_000 * stretch(v) + 12_000_000_000_000;
    let i = (h.0 + 1_000_000 * z.0, h.1 + 1_000_000 * z.1);
    small_is_short(i, k);
    short_swings(e, d, r);
    short_adds(g, i, 1_000_001 * r, 2 * k);
    short_in_millionths(f, q, 1_000_001 * r + 2 * k);
}

/// How far a spot may stray in one turn, in millionths of a millionth.
pub open spec fn stray(v: (int, int)) -> int {
    5 * stretch(v) + 30_000_000
}

proof fn strays_add_up(l: int, m: int)
    requires
        l >= 0,
        0 <= m < 100_000,
    ensures
        ({
            let k = 5 * l + 30_000_000;
            1_000_001 * (m * k) + 4_200_000 * l + 24_000_000_000_000 <= 1_000_000 * ((m + 1) * k)
        }),
{
    let k = 5 * l + 30_000_000;
    distributed(k, m, 1);
    mono(k, m, 100_000);
}

/// A step that has not turned has not strayed.
pub proof fn stands_still(v: (int, int))
    ensures
        short(astray(v, v, bearing(0)), 0),
{
    reveal(astray);
    reveal(short);
    reveal(bearing);
    quarters_point_well();
    let t = bearing(0);
    assert(v.0 * t.0 == v.0 * 1_000_000 && v.1 * t.0 == v.1 * 1_000_000);
    assert(v.0 * t.1 == v.0 * 0 && v.1 * t.1 == v.1 * 0);
    assert(astray(v, v, t) == (0int, 0int));
}

proof fn remainders_add(a: int, b: int, m: int)
    requires
        m > 0,
    ensures
        (a % m + b % m) % m == (a + b) % m,
        0 <= a % m < m,
        0 <= b % m < m,
{
    vstd::arithmetic::div_mod::lemma_add_mod_noop(a, b, m);
    vstd::arithmetic::div_mod::lemma_mod_bound(a, m);
    vstd::arithmetic::div_mod::lemma_mod_bound(b, m);
}

/// Bearings add as their angles do.
pub proof fn bearings_sum(a: int, b: int)
    ensures
        sum_of(bearing(a), bearing(b), bearing(a + b)),
        one_together(bearing(b)),
{
    reveal(bearing);
    remainders_add(a, b, 360_000_000);
    angles_add(a % 360_000_000, b % 360_000_000);
    squares_make_one(b % 360_000_000);
}

/// One angle further, from the same heading, is the same heading.
pub proof fn headings_follow(r: int, s: int, b: int)
    requires
        heading(s) == heading(r),
    ensures
        heading(s + b) == heading(r + b),
{
    reveal(heading);
    remainders_add(s, b, 360_000_000);
    remainders_add(r, b, 360_000_000);
}

/// A way that has strayed by so much a turn, after one turn more.
pub proof fn strays_on(
    v: (int, int),
    w: (int, int),
    w2: (int, int),
    a: int,
    b: int,
    m: int,
)
    requires
        short(astray(v, w, bearing(a)), m * stray(v)),
        -12_000_000 <= astray(w, w2, bearing(b)).0 <= 12_000_000,
        -12_000_000 <= astray(w, w2, bearing(b)).1 <= 12_000_000,
        0 <= m < 100_000,
    ensures
        short(astray(v, w2, bearing(a + b)), (m + 1) * stray(v)),
{
    bearings_sum(a, b);
    strays_add_up(stretch(v), m);
    strays_further(
        v,
        w,
        w2,
        bearing(a),
        bearing(b),
        bearing(a + b),
        m * stray(v),
        (m + 1) * stray(v),
    );
}

proof fn bearings_stay_within_one(a: int)
    ensures
        -1_000_000 <= bearing(a).0 <= 1_000_000,
        -1_000_000 <= bearing(a).1 <= 1_000_000,
{
    reveal(bearing);
    cosines_stay_within_one(a % 360_000_000);
}

/// What has strayed a little from a step that is not long is not far.
pub proof fn strays_are_near(v: (int, int), w: (int, int), a: int, n: int)
    requires
        short(astray(v, w, bearing(a)), n * stray(v)),
        stretch(v) <= 90_000_000_000,
        0 <= n <= 100_000,
    ensures
        -200_000_000_000 <= w.0 <= 200_000_000_000,
        -200_000_000_000 <= w.1 <= 200_000_000_000,
{
    reveal(astray);
    let t = bearing(a);
    bearings_stay_within_one(a);
    small_swing(v, t, 1_000_000);
    short_is_near(astray(v, w, t), n * stray(v));
    mono(stray(v), n, 100_000);
}

/// How far a spot may be from home after `n` turns, in two-hundred-thousandths of a millionth: so
/// much for the pivot and the rounding of each turn, and its way from the pivot.
pub open spec fn doorstep(v: (int, int), n: int) -> int {
    n * (stretch(v) + 7_400_000)
}

/// The cosine and the sine of no angle.
pub proof fn nothing_bears()
    ensures
        bearing(0) == (1_000_000int, 0int),
{
    reveal(bearing);
    quarters_point_well();
}

/// What has not turned has strayed by what lies between.
pub proof fn home_is(v: (int, int), w: (int, int), a: int)
    requires
        heading(a) == 0,
    ensures
        astray(v, w, bearing(a)) == (1_000_000 * (w.0 - v.0), 1_000_000 * (w.1 - v.1)),
{
    reveal(astray);
    assert(bearing(a) == (1_000_000int, 0int)) by {
        reveal(bearing);
        reveal(heading);
        quarters_point_well();
    }
    let t = bearing(a);
    assert(v.0 * t.0 == v.0 * 1_000_000 && v.1 * t.0 == v.1 * 1_000_000);
    assert(v.0 * t.1 == v.0 * 0 && v.1 * t.1 == v.1 * 0);
}

/// How far a spot is from home, by how far it has strayed and how far the pivot has.
pub proof fn home_by(e: int, k: int, n: int, v: (int, int))
    requires
        -(7 * n) <= k <= 7 * n,
        -(n * stray(v)) <= 1_000_000 * e <= n * stray(v),
    ensures
        -doorstep(v, n) <= (e + k) * 200_000 <= doorstep(v, n),
{
    let l = stretch(v);
    distributed(n, 5 * l, 30_000_000);
    commuted(n, 5 * l);
    regrouped(5, l, n);
    commuted(l, n);
    distributed(n, l, 7_400_000);
}

} // verus!
