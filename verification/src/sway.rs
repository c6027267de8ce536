//! Steps in the plane, turned by cosines and sines that are told in parts of a whole `p`: how
//! long a turned step is, and how far a run of turns strays.
use vstd::prelude::*;
use crate::plane::{
    bearings_add, short, short_adds, small_is_short, small_swing, steps_add, stretch,
    swung, swung_square,
};
use crate::products::{
    cancelled, commuted, distributed, mono, product_within, regrouped, square_is_positive, square_of,
    square_of_sum, square_within,
};
use crate::rotor::threefold;

verus! {

/// Whether both coordinates are within `z` of nought.
pub open spec fn both_within(e: (int, int), z: int) -> bool {
    -z <= e.0 <= z && -z <= e.1 <= z
}

/// How far a step is, in parts of a whole, from the step `v` turned by `t`.
#[verifier::opaque]
pub open spec fn amiss(p: int, v: (int, int), w: (int, int), t: (int, int)) -> (int, int) {
    (p * w.0 - swung(v, t).0, p * w.1 - swung(v, t).1)
}

/// Whether a cosine and a sine lie on the circle, but for two parts.
pub open spec fn round(p: int, t: (int, int)) -> bool {
    &&& both_within(t, p)
    &&& -(2 * p) <= t.0 * t.0 + t.1 * t.1 - p * p <= 2 * p
}

/// Whether `w` is told as the sum of the angles of `t` and `u`, but for three parts.
pub open spec fn summed(p: int, t: (int, int), u: (int, int), w: (int, int)) -> bool {
    both_within(amiss(p, t, w, u), 3 * p)
}

/// The step from one place to another.
pub open spec fn away(a: (int, int), b: (int, int)) -> (int, int) {
    (b.0 - a.0, b.1 - a.1)
}

proof fn steps_multiply(p: int, v: (int, int), t: (int, int))
    ensures
        swung((p * v.0, p * v.1), t) == (p * swung(v, t).0, p * swung(v, t).1),
        swung(v, (p * t.0, p * t.1)) == (p * swung(v, t).0, p * swung(v, t).1),
{
    moved_in(p, v.0, t.0);
    moved_in(p, v.0, t.1);
    moved_in(p, v.1, t.0);
    moved_in(p, v.1, t.1);
    distributed(p, v.0 * t.0, v.1 * t.1);
    distributed(p, v.0 * t.1, v.1 * t.0);
}

proof fn moved_in(p: int, a: int, b: int)
    ensures
        (p * a) * b == p * (a * b),
        a * (p * b) == p * (a * b),
{
    regrouped(p, a, b);
    regrouped(a, p, b);
    commuted(a, p);
}

/// Turning keeps what is short short.
proof fn short_stays_short(p: int, v: (int, int), t: (int, int), r: int)
    requires
        short(v, r),
        round(p, t),
        p > 0,
    ensures
        short(swung(v, t), (p + 1) * r),
{
    reveal(short);
    swung_square(v, t);
    let w = swung(v, t);
    let n = v.0 * v.0 + v.1 * v.1;
    let m = t.0 * t.0 + t.1 * t.1;
    let k = (p + 1) * (p + 1);
    square_is_positive(v.0);
    square_is_positive(v.1);
    square_of_sum(p, 1);
    assert(m <= k);
    mono(n, m, k);
    square_is_positive(p + 1);
    mono(k, n, r * r);
    commuted(n, k);
    square_of(p + 1, r);
    mono(r, 0, p + 1);
    assert(w.0 * w.0 + w.1 * w.1 == n * m);
}

/// What is short in parts is short.
proof fn short_in_parts(p: int, v: (int, int), r: int, q: int)
    requires
        short((p * v.0, p * v.1), q),
        q <= p * r,
        p > 0,
    ensures
        short(v, r),
{
    reveal(short);
    let n = v.0 * v.0 + v.1 * v.1;
    square_of(p, v.0);
    square_of(p, v.1);
    square_of(p, r);
    distributed(p * p, v.0 * v.0, v.1 * v.1);
    square_within(q, p * r);
    mono(p, 1, p);
    cancelled(p, 0, r);
    assert((p * p) * n <= (p * p) * (r * r));
    cancelled(p * p, n, r * r);
}

/// One turn more strays a little further.
proof fn goes_further_amiss(
    p: int,
    v: (int, int),
    w: (int, int),
    w2: (int, int),
    t: (int, int),
    d: (int, int),
    u: (int, int),
    r: int,
    q: int,
    z: int,
)
    requires
        p > 0,
        short(amiss(p, v, w, t), r),
        both_within(amiss(p, w, w2, d), z),
        round(p, d),
        summed(p, t, d, u),
        (p + 1) * r + 6 * (p * stretch(v)) + 2 * (p * z) <= p * q,
    ensures
        short(amiss(p, v, w2, u), q),
{
    reveal(amiss);
    let e = amiss(p, v, w, t);
    let y = amiss(p, w, w2, d);
    let f = amiss(p, v, w2, u);
    let a = swung(v, t);
    let td = swung(t, d);
    let c = (td.0 - p * u.0, td.1 - p * u.1);
    let h = swung(v, c);
    let g = swung(e, d);
    steps_multiply(p, w, d);
    steps_add(e, a, d);
    assert((e.0 + a.0, e.1 + a.1) == (p * w.0, p * w.1));
    threefold(v, t, d);
    assert(swung(a, d) == swung(v, td));
    bearings_add(v, c, (p * u.0, p * u.1));
    steps_multiply(p, v, u);
    distributed(p, p * w2.0, swung(v, u).0);
    distributed(p, p * w2.1, swung(v, u).1);
    distributed(p, p * w2.0, swung(w, d).0);
    distributed(p, p * w2.1, swung(w, d).1);
    let i = (h.0 + p * y.0, h.1 + p * y.1);
    assert(p * f.0 == g.0 + i.0);
    assert(p * f.1 == g.1 + i.1);
    small_swing(v, c, 3 * p);
    regrouped(3, p, stretch(v));
    product_within(y.0, p, z, p);
    product_within(y.1, p, z, p);
    commuted(y.0, p);
    commuted(y.1, p);
    commuted(z, p);
    let k = 3 * (p * stretch(v)) + p * z;
    small_is_short(i, k);
    short_stays_short(p, e, d, r);
    short_adds(g, i, (p + 1) * r, 2 * k);
    assert((g.0 + i.0, g.1 + i.1) == (p * f.0, p * f.1));
    short_in_parts(p, f, q, (p + 1) * r + 2 * k);
}

/// How far a spot may stray in one turn, in parts of a unit, where everything is within `d`.
pub open spec fn lapse(p: int, d: int) -> int {
    180 * d + 220 * p
}

/// How far from where it should be one turn may take a spot.
pub open spec fn slip(p: int, d: int) -> int {
    84 * p + 32 * d
}

/// A way that has strayed by so much a turn, after one turn more.
pub proof fn goes_on_amiss(
    p: int,
    v: (int, int),
    w: (int, int),
    w2: (int, int),
    t: (int, int),
    dd: (int, int),
    u: (int, int),
    m: int,
    d: int,
)
    requires
        p > 0,
        d >= 0,
        short(amiss(p, v, w, t), m * lapse(p, d)),
        both_within(amiss(p, w, w2, dd), slip(p, d)),
        round(p, dd),
        summed(p, t, dd, u),
        0 <= m,
        10 * (m + 1) <= p,
        stretch(v) <= 14 * d,
    ensures
        short(amiss(p, v, w2, u), (m + 1) * lapse(p, d)),
{
    let k = lapse(p, d);
    let z = slip(p, d);
    let (pd, pp) = (p * d, p * p);
    distributed(k, m, 1);
    distributed(m * k, p, 1);
    commuted(m * k, p + 1);
    distributed(p, m * k, k);
    commuted(p, m * k);
    // What a turn may add, and what has come together before.
    mono(p, stretch(v), 14 * d);
    scaled_by(p, 14, d);
    scaled_by(p, 180, d);
    scaled_by(p, 220, p);
    scaled_by(p, 84, p);
    scaled_by(p, 32, d);
    distributed(p, 180 * d, 220 * p);
    distributed(p, 84 * p, 32 * d);
    mono(k, 10 * m, p);
    scaled_by(k, 10, m);
    commuted(k, m);
    commuted(k, p);
    assert(p * k == 180 * pd + 220 * pp);
    assert(p * z == 84 * pp + 32 * pd);
    mono(p, 0, d);
    square_is_positive(p);
    goes_further_amiss(p, v, w, w2, t, dd, u, m * k, (m + 1) * k, z);
}

proof fn scaled_by(p: int, n: int, d: int)
    ensures
        p * (n * d) == n * (p * d),
{
    regrouped(p, n, d);
    commuted(p, n);
    regrouped(n, p, d);
}

/// What has not turned is amiss by what lies between.
pub proof fn unturned(p: int, v: (int, int), w: (int, int))
    ensures
        amiss(p, v, w, (p, 0)) == (p * (w.0 - v.0), p * (w.1 - v.1)),
{
    reveal(amiss);
    distributed(p, w.0, v.0);
    distributed(p, w.1, v.1);
    commuted(p, v.0);
    commuted(p, v.1);
    assert(v.0 * 0 == 0 && v.1 * 0 == 0);
}

/// A step that has not turned has not strayed.
pub proof fn stands(p: int, v: (int, int))
    ensures
        short(amiss(p, v, v, (p, 0)), 0),
{
    unturned(p, v, v);
    reveal(short);
    assert(p * 0 == 0);
}

// ---------------------------------------------------------------------------
// Lengths
// ---------------------------------------------------------------------------

/// Whether two steps are of one length, but for what `e` parts of a unit make of it.
#[verifier::opaque]
pub open spec fn as_long_but(p: int, v: (int, int), w: (int, int), e: int) -> bool {
    let n = v.0 * v.0 + v.1 * v.1;
    let m = w.0 * w.0 + w.1 * w.1;
    let slack = 2 * (p * n) + 4 * (p * (stretch(v) * e)) + 2 * (e * e);
    -slack <= (p * p) * (m - n) <= slack
}

/// A step that was turned but for `e` parts is as long as it was.
pub proof fn turned_is_as_long(p: int, v: (int, int), w: (int, int), t: (int, int), e: int)
    requires
        p > 0,
        round(p, t),
        both_within(amiss(p, v, w, t), e),
    ensures
        as_long_but(p, v, w, e),
{
    reveal(as_long_but);
    reveal(amiss);
    let u = swung(v, t);
    let n = v.0 * v.0 + v.1 * v.1;
    let m = w.0 * w.0 + w.1 * w.1;
    let o = t.0 * t.0 + t.1 * t.1;
    let l = stretch(v);
    swung_square(v, t);
    small_swing(v, t, p);
    square_is_positive(v.0);
    square_is_positive(v.1);
    mono(n, o, p * p + 2 * p);
    mono(n, p * p - 2 * p, o);
    distributed(n, p * p, 2 * p);
    commuted(n, p * p);
    scaled_by(n, 2, p);
    commuted(n, p);
    distributed(p * p, m, n);
    along(p, w.0, u.0, p * w.0 - u.0, l, e);
    along(p, w.1, u.1, p * w.1 - u.1, l, e);
    distributed(p * p, w.0 * w.0, w.1 * w.1);
}

proof fn along(p: int, w: int, u: int, f: int, l: int, e: int)
    requires
        p * w == u + f,
        -e <= f <= e,
        -(p * l) <= u <= p * l,
    ensures
        ({
            let d = (p * p) * (w * w) - u * u;
            &&& -(2 * (p * (l * e)) + e * e) <= d <= 2 * (p * (l * e)) + e * e
        }),
{
    square_of(p, w);
    square_of_sum(u, f);
    square_within(f, e);
    product_within(u, f, p * l, e);
    regrouped(p, l, e);
}

// ---------------------------------------------------------------------------
// Middles and sums
// ---------------------------------------------------------------------------

/// The middle of two spots is amiss as they are.
pub proof fn middles_go_amiss(
    p: int,
    v: (int, int),
    a: (int, int),
    b: (int, int),
    w: (int, int),
    c: (int, int),
    d: (int, int),
    t: (int, int),
    z: int,
)
    requires
        p > 0,
        both_within(t, p),
        both_within(amiss(p, a, c, t), z),
        both_within(amiss(p, b, d, t), z),
        both_within((2 * v.0 - a.0 - b.0, 2 * v.1 - a.1 - b.1), 8),
        both_within((2 * w.0 - c.0 - d.0, 2 * w.1 - c.1 - d.1), 8),
    ensures
        both_within(amiss(p, v, w, t), z + 12 * p),
{
    reveal(amiss);
    let e = (2 * v.0 - a.0 - b.0, 2 * v.1 - a.1 - b.1);
    let f = (2 * w.0 - c.0 - d.0, 2 * w.1 - c.1 - d.1);
    let s = (a.0 + b.0, a.1 + b.1);
    steps_add(a, b, t);
    steps_add(s, e, t);
    steps_multiply(2, v, t);
    assert((s.0 + e.0, s.1 + e.1) == (2 * v.0, 2 * v.1));
    small_swing(e, t, p);
    mono(p, stretch(e), 16);
    product_within(f.0, p, 8, p);
    product_within(f.1, p, 8, p);
    doubled_apart(p, w.0, c.0, d.0, f.0);
    doubled_apart(p, w.1, c.1, d.1, f.1);
}

proof fn doubled_apart(p: int, w: int, c: int, d: int, f: int)
    requires
        f == 2 * w - c - d,
    ensures
        2 * (p * w) == p * c + p * d + f * p,
{
    distributed(p, c + d, f);
    distributed(p, c, d);
    commuted(p, f);
    scaled_by(p, 2, w);
    assert(2 * w == c + d + f);
}

/// What is amiss of two steps adds up to what is amiss of both together.
pub proof fn amiss_adds(
    p: int,
    v: (int, int),
    w: (int, int),
    a: (int, int),
    b: (int, int),
    t: (int, int),
    y: int,
    z: int,
)
    requires
        both_within(amiss(p, v, w, t), y),
        both_within(amiss(p, a, b, t), z),
    ensures
        both_within(amiss(p, (v.0 + a.0, v.1 + a.1), (w.0 + b.0, w.1 + b.1), t), y + z),
{
    reveal(amiss);
    steps_add(v, a, t);
    distributed(p, w.0, b.0);
    distributed(p, w.1, b.1);
}

/// A step amiss by some, and a step that is off by a little more.
pub proof fn amiss_and_off(
    p: int,
    v: (int, int),
    w: (int, int),
    x: (int, int),
    t: (int, int),
    y: int,
    z: int,
)
    requires
        both_within(amiss(p, v, w, t), y),
        both_within((p * (x.0 - w.0), p * (x.1 - w.1)), z),
    ensures
        both_within(amiss(p, v, x, t), y + z),
{
    reveal(amiss);
    distributed(p, x.0, w.0);
    distributed(p, x.1, w.1);
}

/// Two steps turned alike part as they did.
pub proof fn amiss_parts(
    p: int,
    v: (int, int),
    w: (int, int),
    a: (int, int),
    b: (int, int),
    t: (int, int),
    z: int,
)
    requires
        both_within(amiss(p, v, w, t), z),
        both_within(amiss(p, a, b, t), z),
    ensures
        both_within(amiss(p, away(v, a), away(w, b), t), 2 * z),
{
    reveal(amiss);
    steps_add(v, away(v, a), t);
    distributed(p, b.0, w.0);
    distributed(p, b.1, w.1);
}

/// A mean that was turned about hardly moves: `s` and `m` are sums of `n` places, `c` and `d`
/// their means but for eight.
pub proof fn means_stay(
    p: int,
    s: (int, int),
    m: (int, int),
    c: (int, int),
    d: (int, int),
    t: (int, int),
    n: int,
    z: int,
)
    requires
        p > 0,
        n > 0,
        both_within(t, p),
        both_within((s.0 - n * c.0, s.1 - n * c.1), 8 * n),
        both_within((m.0 - n * d.0, m.1 - n * d.1), 8 * n),
        both_within(amiss(p, (s.0 - n * c.0, s.1 - n * c.1), (m.0 - n * c.0, m.1 - n * c.1), t), n * z),
    ensures
        both_within((p * (d.0 - c.0), p * (d.1 - c.1)), z + 24 * p),
{
    reveal(amiss);
    let e = (s.0 - n * c.0, s.1 - n * c.1);
    small_swing(e, t, p);
    mono(p, stretch(e), 16 * n);
    scaled_by(p, 16, n);
    one_mean(p, m.0, c.0, d.0, swung(e, t).0, n, z);
    one_mean(p, m.1, c.1, d.1, swung(e, t).1, n, z);
}

proof fn one_mean(p: int, m: int, c: int, d: int, u: int, n: int, z: int)
    requires
        p > 0,
        n > 0,
        -(8 * n) <= m - n * d <= 8 * n,
        -(16 * (p * n)) <= u <= 16 * (p * n),
        -(n * z) <= p * (m - n * c) - u <= n * z,
    ensures
        -(z + 24 * p) <= p * (d - c) <= z + 24 * p,
{
    let f = m - n * d;
    product_within(f, p, 8 * n, p);
    commuted(f, p);
    regrouped(8, n, p);
    commuted(n, p);
    distributed(p, m - n * c, m - n * d);
    distributed(n, d, c);
    scaled_by(p, n, d - c);
    let x = p * (d - c);
    assert((m - n * c) - (m - n * d) == n * (d - c));
    assert(p * (n * (d - c)) == n * x);
    distributed(n, z, 24 * p);
    scaled_by(n, 24, p);
    cancelled(n, x, z + 24 * p);
    cancelled(n, -(z + 24 * p), x);
    distributed(n, 0, z + 24 * p);
}

} // verus!
