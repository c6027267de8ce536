//! What dragging a handle is for, in millionths: the corner that was grabbed goes where the pointer
//! goes, as drawn, and the corner across from it stays.
use vstd::prelude::*;
use crate::exact::{moderate, moderate_frame, sines_stay_within_one, unit_product, within};
use crate::geometry::{
    center, corner_dragged, held_corner, line_dragged, opposite_point, resized,
    resized_in_proportion, Corner, LineEnd,
};
use crate::micro::Micro;
use crate::millionths::{half_reads, product_reads};
use crate::plane::nothing_bears;
use crate::products::{commuted, distributed, mono, product_within, regrouped};
use crate::rigid::turn_bears;
use crate::rotor::one_together;
use crate::scalar::Scalar;
use crate::zooms::shares;

verus! {

/// Which way a corner lies from the middle of its frame: to the right or not, and below or not.
pub open spec fn ways(corner: Corner) -> (int, int) {
    match corner {
        Corner::TopLeft => (-1, -1),
        Corner::TopRight => (1, -1),
        Corner::BottomLeft => (-1, 1),
        Corner::BottomRight => (1, 1),
    }
}

/// Where a corner of a frame is drawn that is turned about its middle by the angle with the sine
/// `s` and the cosine `k`: the middle, and from there half the extents, turned. Everything is
/// counted in half millionths of a millionth.
pub open spec fn drawn_at(
    f: (Micro, Micro, Micro, Micro),
    way: (int, int),
    s: int,
    k: int,
) -> (int, int) {
    let (u, v) = (way.0 * f.2.raw, way.1 * f.3.raw);
    (
        1_000_000 * (2 * f.0.raw + f.2.raw) + (u * k - v * s),
        1_000_000 * (2 * f.1.raw + f.3.raw) + (u * s + v * k),
    )
}

/// How large a number is, either way.
pub open spec fn size_of(v: int) -> int {
    if v >= 0 {
        v
    } else {
        -v
    }
}

proof fn signed(a: int, v: int)
    requires
        a == 1 || a == -1,
    ensures
        a * v == if a == 1 {
            v
        } else {
            -v
        },
{
    distributed(v, 0, 1);
}

// ---------------------------------------------------------------------------
// Upright frames
// ---------------------------------------------------------------------------

/// A corner of an upright frame goes with the pointer exactly, as far as the least extent allows:
/// the corner that is dragged moves by what the pointer moved, or no further than where the extent
/// is eight units; and the corner across stays.
pub proof fn upright_corners_follow_the_pointer(
    start: (Micro, Micro, Micro, Micro),
    corner: Corner,
    dx: Micro,
    dy: Micro,
)
    requires
        moderate_frame(start),
        moderate(dx),
        moderate(dy),
    ensures
        ({
            let r = corner_dragged(start, corner, dx, dy, Micro { raw: 0 }, false);
            let (a, b) = ways(corner);
            let wide = start.2.raw + a * dx.raw;
            let tall = start.3.raw + b * dy.raw;
            // The extents.
            &&& r.2.raw == if wide < 8_000_000 {
                8_000_000
            } else {
                wide
            }
            &&& r.3.raw == if tall < 8_000_000 {
                8_000_000
            } else {
                tall
            }
            // The edges that were not dragged.
            &&& a == 1 ==> r.0 == start.0
            &&& a == -1 ==> r.0.raw + r.2.raw == start.0.raw + start.2.raw
            &&& b == 1 ==> r.1 == start.1
            &&& b == -1 ==> r.1.raw + r.3.raw == start.1.raw + start.3.raw
        }),
{
    let r = corner_dragged(start, corner, dx, dy, Micro { raw: 0 }, false);
    assert(r == resized(start, corner, dx, dy));
    resizing_takes(start, corner, dx, dy);
}

// ---------------------------------------------------------------------------
// Turned frames
// ---------------------------------------------------------------------------

/// What a drag along a frame's axes makes of it.
proof fn resizing_takes(
    start: (Micro, Micro, Micro, Micro),
    corner: Corner,
    x: Micro,
    y: Micro,
)
    requires
        moderate_frame(start),
        within(x, 2_000_000_000_000_000),
        within(y, 2_000_000_000_000_000),
    ensures
        ({
            let f = resized(start, corner, x, y);
            let (a, b) = ways(corner);
            let (wide, tall) = (start.2.raw + a * x.raw, start.3.raw + b * y.raw);
            &&& f.2.raw == if wide < 8_000_000 {
                8_000_000
            } else {
                wide
            }
            &&& f.3.raw == if tall < 8_000_000 {
                8_000_000
            } else {
                tall
            }
            &&& a == 1 ==> f.0 == start.0
            &&& a == -1 ==> f.0.raw + f.2.raw == start.0.raw + start.2.raw
            &&& b == 1 ==> f.1 == start.1
            &&& b == -1 ==> f.1.raw + f.3.raw == start.1.raw + start.3.raw
            &&& within(f.0, 10_000_000_000_000_000)
            &&& within(f.1, 10_000_000_000_000_000)
            &&& within(f.2, 10_000_000_000_000_000)
            &&& within(f.3, 10_000_000_000_000_000)
        }),
{
    let (a, b) = ways(corner);
    signed(a, x.raw as int);
    signed(b, y.raw as int);
}

/// The drag of a pointer, along the axes of a turned frame.
proof fn travel_is_read(dx: Micro, dy: Micro, sin: Micro, cos: Micro)
    requires
        moderate(dx),
        moderate(dy),
        within(sin, 1_000_000),
        within(cos, 1_000_000),
    ensures
        ({
            let x = dx.times(cos).plus(dy.times(sin));
            let y = dx.negated().times(sin).plus(dy.times(cos));
            let (s, k) = (sin.raw as int, cos.raw as int);
            &&& -2_000_000 <= 1_000_000 * x.raw - (dx.raw * k + dy.raw * s) <= 2_000_000
            &&& -2_000_000 <= 1_000_000 * y.raw - (dy.raw * k - dx.raw * s) <= 2_000_000
            &&& within(x, 2_000_000_000_000_000)
            &&& within(y, 2_000_000_000_000_000)
        }),
{
    let s = sin.raw as int;
    product_reads(dx, cos);
    product_reads(dy, sin);
    product_reads(dx.negated(), sin);
    product_reads(dy, cos);
    unit_product(dx, cos, 1_000_000_000_000_000);
    unit_product(dy, sin, 1_000_000_000_000_000);
    unit_product(dx.negated(), sin, 1_000_000_000_000_000);
    unit_product(dy, cos, 1_000_000_000_000_000);
    assert(dx.negated().raw * s == -(dx.raw * s)) by {
        distributed(s, 0, dx.raw as int);
    }
}

/// A frame put back by as much as its held corner had moved, as drawn.
proof fn put_back_is_drawn(
    start: (Micro, Micro, Micro, Micro),
    f: (Micro, Micro, Micro, Micro),
    r: (Micro, Micro, Micro, Micro),
    corner: Corner,
    sin: Micro,
    cos: Micro,
)
    requires
        moderate_frame(start),
        within(f.0, 10_000_000_000_000_000),
        within(f.1, 10_000_000_000_000_000),
        within(f.2, 10_000_000_000_000_000),
        within(f.3, 10_000_000_000_000_000),
        within(sin, 1_000_000),
        within(cos, 1_000_000),
        ({
            let was = held_corner(start, corner, sin, cos);
            let now = held_corner(f, corner, sin, cos);
            r == (f.0.plus(was.x).minus(now.x), f.1.plus(was.y).minus(now.y), f.2, f.3)
        }),
    ensures
        ({
            let (s, k) = (sin.raw as int, cos.raw as int);
            let (a, b) = ways(corner);
            let (held, kept) = (drawn_at(start, (-a, -b), s, k), drawn_at(r, (-a, -b), s, k));
            &&& -20_000_000 <= kept.0 - held.0 <= 20_000_000
            &&& -20_000_000 <= kept.1 - held.1 <= 20_000_000
        }),
{
    let (s, k) = (sin.raw as int, cos.raw as int);
    let (a, b) = ways(corner);
    let was = held_corner(start, corner, sin, cos);
    let now = held_corner(f, corner, sin, cos);
    held_is_drawn(start, corner, sin, cos);
    held_is_drawn(f, corner, sin, cos);
    assert(r.0.raw == f.0.raw + was.x.raw - now.x.raw);
    assert(r.1.raw == f.1.raw + was.y.raw - now.y.raw);
    let kept = drawn_at(r, (-a, -b), s, k);
    assert(kept.0 - drawn_at(f, (-a, -b), s, k).0 == 2_000_000 * (was.x.raw - now.x.raw));
    assert(kept.1 - drawn_at(f, (-a, -b), s, k).1 == 2_000_000 * (was.y.raw - now.y.raw));
}

/// The corner that a resize holds, from where it is drawn.
proof fn held_is_drawn(
    f: (Micro, Micro, Micro, Micro),
    corner: Corner,
    sin: Micro,
    cos: Micro,
)
    requires
        within(f.0, 10_000_000_000_000_000),
        within(f.1, 10_000_000_000_000_000),
        within(f.2, 10_000_000_000_000_000),
        within(f.3, 10_000_000_000_000_000),
        within(sin, 1_000_000),
        within(cos, 1_000_000),
    ensures
        ({
            let (a, b) = ways(corner);
            let h = held_corner(f, corner, sin, cos);
            let d = drawn_at(f, (-a, -b), sin.raw as int, cos.raw as int);
            &&& -10_000_000 <= 2_000_000 * h.x.raw - d.0 <= 10_000_000
            &&& -10_000_000 <= 2_000_000 * h.y.raw - d.1 <= 10_000_000
            &&& within(h.x, 60_000_000_000_000_000)
            &&& within(h.y, 60_000_000_000_000_000)
        }),
{
    let (a, b) = ways(corner);
    let (s, k) = (sin.raw as int, cos.raw as int);
    half_reads(f.2);
    half_reads(f.3);
    let c = center(f);
    let p = opposite_point(f, corner);
    let ox = p.x.minus(c.x);
    let oy = p.y.minus(c.y);
    assert(within(ox, 20_000_000_000_000_000) && within(oy, 20_000_000_000_000_000));
    product_reads(ox, cos);
    product_reads(ox, sin);
    product_reads(oy, cos);
    product_reads(oy, sin);
    unit_product(ox, cos, 20_000_000_000_000_000);
    unit_product(ox, sin, 20_000_000_000_000_000);
    unit_product(oy, cos, 20_000_000_000_000_000);
    unit_product(oy, sin, 20_000_000_000_000_000);
    let (u, v) = (-a * f.2.raw, -b * f.3.raw);
    signed(-a, f.2.raw as int);
    signed(-b, f.3.raw as int);
    let (eu, ev) = (2 * ox.raw - u, 2 * oy.raw - v);
    assert(-2 <= eu <= 2 && -2 <= ev <= 2);
    scaled_twice(ox.raw as int, u, eu, k);
    scaled_twice(ox.raw as int, u, eu, s);
    scaled_twice(oy.raw as int, v, ev, k);
    scaled_twice(oy.raw as int, v, ev, s);
}

proof fn scaled_twice(o: int, u: int, e: int, k: int)
    requires
        e == 2 * o - u,
        -2 <= e <= 2,
        -1_000_000 <= k <= 1_000_000,
    ensures
        -2_000_000 <= 2 * (o * k) - u * k <= 2_000_000,
{
    distributed(k, u, e);
    product_within(e, k, 2, 1_000_000);
    regrouped(2, o, k);
    assert(2 * o == u + e);
}

/// What the pointer's travel comes to along the two axes of a turned frame, put together again.
proof fn travel_comes_together(dx: int, dy: int, k: int, s: int, a: int, b: int)
    requires
        -1_000_000 <= k <= 1_000_000,
        -1_000_000 <= s <= 1_000_000,
        one_together((k, s)),
        -2_000_000 <= 1_000_000 * a - (dx * k + dy * s) <= 2_000_000,
        -2_000_000 <= 1_000_000 * b - (dy * k - dx * s) <= 2_000_000,
    ensures
        ({
            let e = (a * k - b * s) - 1_000_000 * dx;
            let f = (a * s + b * k) - 1_000_000 * dy;
            &&& -(4_000_000 + 2 * size_of(dx)) <= e <= 4_000_000 + 2 * size_of(dx)
            &&& -(4_000_000 + 2 * size_of(dy)) <= f <= 4_000_000 + 2 * size_of(dy)
        }),
{
    let (p, q) = (dx * k + dy * s, dy * k - dx * s);
    let (m, n) = (1_000_000 * a - p, 1_000_000 * b - q);
    let o = k * k + s * s - 1_000_000_000_000;
    taken_apart(a, p, m, k);
    taken_apart(a, p, m, s);
    taken_apart(b, q, n, k);
    taken_apart(b, q, n, s);
    spread(dx, k, dy, s, k);
    spread(dx, k, dy, s, s);
    spread(dy, k, -dx, s, k);
    spread(dy, k, -dx, s, s);
    assert((-dx) * s == -(dx * s)) by {
        distributed(s, 0, dx);
    }
    regrouped(dx, k, k);
    regrouped(dx, s, s);
    regrouped(dy, k, k);
    regrouped(dy, s, s);
    crossed(dx, k, s);
    crossed(dy, k, s);
    distributed(dx, k * k, s * s);
    distributed(dy, k * k, s * s);
    distributed(dx, 1_000_000_000_000, o);
    distributed(dy, 1_000_000_000_000, o);
    product_within(dx, o, size_of(dx), 2_000_000);
    product_within(dy, o, size_of(dy), 2_000_000);
    assert(((-dx) * s) * s == -((dx * s) * s)) by {
        distributed(s, 0, dx * s);
    }
    assert(((-dx) * s) * k == -((dx * s) * k)) by {
        distributed(k, 0, dx * s);
    }
}

proof fn taken_apart(a: int, p: int, m: int, k: int)
    requires
        m == 1_000_000 * a - p,
        -2_000_000 <= m <= 2_000_000,
        -1_000_000 <= k <= 1_000_000,
    ensures
        1_000_000 * (a * k) == p * k + m * k,
        -2_000_000_000_000 <= m * k <= 2_000_000_000_000,
{
    product_within(m, k, 2_000_000, 1_000_000);
    distributed(k, p, m);
    regrouped(1_000_000, a, k);
    assert(1_000_000 * a == p + m);
}

proof fn spread(a: int, k: int, b: int, s: int, t: int)
    ensures
        (a * k + b * s) * t == (a * k) * t + (b * s) * t,
{
    distributed(t, a * k, b * s);
}

proof fn crossed(d: int, k: int, s: int)
    ensures
        (d * k) * s == (d * s) * k,
{
    regrouped(d, k, s);
    regrouped(d, s, k);
    commuted(k, s);
}

/// How a corner is drawn, from the corner across.
proof fn drawn_across(f: (Micro, Micro, Micro, Micro), a: int, b: int, s: int, k: int)
    requires
        a == 1 || a == -1,
        b == 1 || b == -1,
    ensures
        ({
            let (u, v) = (a * f.2.raw, b * f.3.raw);
            let (p, q) = (drawn_at(f, (a, b), s, k), drawn_at(f, (-a, -b), s, k));
            &&& p.0 - q.0 == 2 * (u * k - v * s)
            &&& p.1 - q.1 == 2 * (u * s + v * k)
        }),
{
    let (u, v) = (a * f.2.raw, b * f.3.raw);
    assert(-a * f.2.raw == -u) by {
        distributed(f.2.raw as int, 0, a);
    }
    assert(-b * f.3.raw == -v) by {
        distributed(f.3.raw as int, 0, b);
    }
    distributed(k, 0, u);
    distributed(s, 0, u);
    distributed(k, 0, v);
    distributed(s, 0, v);
}

proof fn grown(
    f: (Micro, Micro, Micro, Micro),
    w: int,
    h: int,
    a: int,
    b: int,
    s: int,
    k: int,
    x: int,
    y: int,
)
    requires
        a * f.2.raw - a * w == x,
        b * f.3.raw - b * h == y,
    ensures
        ({
            let (u, v) = (a * f.2.raw, b * f.3.raw);
            &&& (u * k - v * s) - ((a * w) * k - (b * h) * s) == x * k - y * s
            &&& (u * s + v * k) - ((a * w) * s + (b * h) * k) == x * s + y * k
        }),
{
    distributed(k, a * f.2.raw, a * w);
    distributed(s, a * f.2.raw, a * w);
    distributed(k, b * f.3.raw, b * h);
    distributed(s, b * f.3.raw, b * h);
}

/// A corner of a turned frame goes with the pointer. The corner that is dragged is drawn where the
/// pointer took it, but for some millionths and for two millionths of the way, wherever the least
/// extent does not stop it; the corner across is drawn where it was, in any case; and the least
/// extent stops an edge only where the pointer would have taken it closer.
#[verifier::spinoff_prover]
pub proof fn turned_corners_follow_the_pointer(
    start: (Micro, Micro, Micro, Micro),
    corner: Corner,
    dx: Micro,
    dy: Micro,
    rotation: Micro,
)
    requires
        moderate_frame(start),
        moderate(dx),
        moderate(dy),
        rotation.raw != 0,
    ensures
        ({
            let r = corner_dragged(start, corner, dx, dy, rotation, false);
            let (sin, cos) = rotation.sine_cosine();
            let (s, k) = (sin.raw as int, cos.raw as int);
            let (a, b) = ways(corner);
            let (from, to) = (drawn_at(start, (a, b), s, k), drawn_at(r, (a, b), s, k));
            let (held, kept) = (drawn_at(start, (-a, -b), s, k), drawn_at(r, (-a, -b), s, k));
            // The drag along the frame's own axes, in millionths of a millionth.
            let along = dx.raw * k + dy.raw * s;
            let across = dy.raw * k - dx.raw * s;
            // The corner across stays.
            &&& -20_000_000 <= kept.0 - held.0 <= 20_000_000
            &&& -20_000_000 <= kept.1 - held.1 <= 20_000_000
            // The corner that is dragged goes where the pointer goes.
            &&& r.2.raw > 8_000_000 && r.3.raw > 8_000_000 ==> {
                let e = (to.0 - from.0) - 2_000_000 * dx.raw;
                let f = (to.1 - from.1) - 2_000_000 * dy.raw;
                &&& size_of(e) <= 30_000_000 + 4 * size_of(dx.raw as int)
                &&& size_of(f) <= 30_000_000 + 4 * size_of(dy.raw as int)
            }
            // Each extent takes what the pointer gives it, down to the least one.
            &&& r.2.raw >= 8_000_000 && r.3.raw >= 8_000_000
            &&& r.2.raw == 8_000_000 || size_of(
                1_000_000 * (r.2.raw - start.2.raw) - a * along,
            ) <= 2_000_000
            &&& r.3.raw == 8_000_000 || size_of(
                1_000_000 * (r.3.raw - start.3.raw) - b * across,
            ) <= 2_000_000
            &&& r.2.raw == 8_000_000 ==> 1_000_000 * start.2.raw + a * along <= 8_000_002_000_000
            &&& r.3.raw == 8_000_000 ==> 1_000_000 * start.3.raw + b * across <= 8_000_002_000_000
        }),
{
    let (sin, cos) = rotation.sine_cosine();
    let (s, k) = (sin.raw as int, cos.raw as int);
    let (a, b) = ways(corner);
    turn_bears(rotation);
    sines_stay_within_one(rotation);
    travel_is_read(dx, dy, sin, cos);
    let x = dx.times(cos).plus(dy.times(sin));
    let y = dx.negated().times(sin).plus(dy.times(cos));
    let along = dx.raw * k + dy.raw * s;
    let across = dy.raw * k - dx.raw * s;
    let f = resized(start, corner, x, y);
    resizing_takes(start, corner, x, y);
    let r = corner_dragged(start, corner, dx, dy, rotation, false);
    put_back_is_drawn(start, f, r, corner, sin, cos);
    signed(a, along);
    signed(b, across);
    signed(a, x.raw as int);
    signed(b, y.raw as int);
    signed(a, r.2.raw as int);
    signed(b, r.3.raw as int);
    signed(a, start.2.raw as int);
    signed(b, start.3.raw as int);
    if r.2.raw > 8_000_000 && r.3.raw > 8_000_000 {
        travel_comes_together(dx.raw as int, dy.raw as int, k, s, x.raw as int, y.raw as int);
        drawn_across(start, a, b, s, k);
        drawn_across(r, a, b, s, k);
        grown(r, start.2.raw as int, start.3.raw as int, a, b, s, k, x.raw as int, y.raw as int);
    }
}

// ---------------------------------------------------------------------------
// In proportion
// ---------------------------------------------------------------------------

/// A quotient, but for less than one millionth: no more than the share, and hardly less.
proof fn share_is(v: Micro, w: Micro)
    requires
        within(v, 100_000_000_000),
        1_000_000 <= w.raw <= 10_000_000_000,
    ensures
        ({
            let q = v.over(w).raw;
            &&& v.raw >= 0 ==> q * w.raw <= v.raw * 1_000_000 < q * w.raw + w.raw
            &&& v.raw < 0 ==> q <= 0
            &&& q <= 100_000_000_000
        }),
{
    let n = v.raw * 1_000_000;
    let d = w.raw as int;
    if n >= 0 {
        shares(n, d);
        let m = n / d;
        mono(m, 1_000_000, d);
        assert(v.over(w).raw == m);
    } else {
        shares(-n, d);
        let m = -n / d;
        mono(m, 1_000_000, d);
        assert(v.over(w).raw == -m);
    }
}

/// A factor that is no less than a share gives no less than the share was of, but for rounding.
proof fn scaled_reaches(v: Micro, w: Micro, k: Micro)
    requires
        within(v, 100_000_000_000),
        1_000_000 <= w.raw <= 10_000_000_000,
        0 <= k.raw <= 100_000_000_000,
        v.over(w).raw <= k.raw,
    ensures
        1_000_000 * w.times(k).raw >= 1_000_000 * v.raw - (w.raw + 1_000_000),
        k == v.over(w) && v.raw >= 0 ==> w.times(k).raw <= v.raw,
        0 <= w.times(k).raw <= 1_000_000_000_000_000,
        w.raw * k.raw - 1_000_000 < 1_000_000 * w.times(k).raw <= w.raw * k.raw,
{
    share_is(v, w);
    let n = w.raw * k.raw;
    mono(w.raw as int, 0, k.raw as int);
    mono(w.raw as int, k.raw as int, 100_000_000_000);
    mono(100_000_000_000, w.raw as int, 10_000_000_000);
    assert(w.times(k).raw == n / 1_000_000);
    let q = v.over(w).raw as int;
    mono(w.raw as int, q, k.raw as int);
    commuted(w.raw as int, q);
}

/// The factor of a resize in proportion.
spec fn factor(w: Micro, h: Micro, wide: Micro, tall: Micro) -> Micro {
    let least = Micro { raw: 8_000_000 };
    wide.over(w).greater(tall.over(h)).greater(least.over(w)).greater(least.over(h))
}

/// What a factor makes of both extents.
proof fn both_are_scaled(w: Micro, h: Micro, wide: Micro, tall: Micro)
    requires
        1_000_000 <= w.raw <= 10_000_000_000,
        1_000_000 <= h.raw <= 10_000_000_000,
        within(wide, 100_000_000_000),
        within(tall, 100_000_000_000),
    ensures
        ({
            let k = factor(w, h, wide, tall);
            let (u, v) = (w.times(k).raw as int, h.times(k).raw as int);
            &&& size_of(u * h.raw - v * w.raw) <= w.raw + h.raw
            &&& 1_000_000 * u >= 1_000_000 * wide.raw - (w.raw + 1_000_000)
            &&& 1_000_000 * v >= 1_000_000 * tall.raw - (h.raw + 1_000_000)
            &&& 1_000_000 * u >= 8_000_000_000_000 - (w.raw + 1_000_000)
            &&& 1_000_000 * v >= 8_000_000_000_000 - (h.raw + 1_000_000)
            &&& u <= wide.raw || v <= tall.raw || u <= 8_000_000 || v <= 8_000_000
            &&& 0 <= u <= 1_000_000_000_000_000
            &&& 0 <= v <= 1_000_000_000_000_000
        }),
{
    let least = Micro { raw: 8_000_000 };
    let k = factor(w, h, wide, tall);
    share_is(wide, w);
    share_is(tall, h);
    share_is(least, w);
    share_is(least, h);
    assert(0 <= least.over(w).raw) by {
        if least.over(w).raw < 0 {
            mono(w.raw as int, least.over(w).raw as int, -1);
            commuted(w.raw as int, least.over(w).raw as int);
        }
    }
    scaled_reaches(wide, w, k);
    scaled_reaches(tall, h, k);
    scaled_reaches(least, w, k);
    scaled_reaches(least, h, k);
    let (u, v) = (w.times(k).raw as int, h.times(k).raw as int);
    let (e, f) = (w.raw * k.raw - 1_000_000 * u, h.raw * k.raw - 1_000_000 * v);
    // Both are the extent times the factor, but for less than a millionth.
    distributed(h.raw as int, w.raw * k.raw, e);
    distributed(w.raw as int, h.raw * k.raw, f);
    regrouped(h.raw as int, w.raw as int, k.raw as int);
    regrouped(w.raw as int, h.raw as int, k.raw as int);
    commuted(h.raw as int, w.raw as int);
    commuted(u, h.raw as int);
    commuted(v, w.raw as int);
    regrouped(h.raw as int, 1_000_000, u);
    regrouped(w.raw as int, 1_000_000, v);
    commuted(h.raw as int, 1_000_000);
    commuted(w.raw as int, 1_000_000);
    regrouped(1_000_000, h.raw as int, u);
    regrouped(1_000_000, w.raw as int, v);
    product_within(h.raw as int, e, h.raw as int, 1_000_000);
    product_within(w.raw as int, f, w.raw as int, 1_000_000);
}

/// Holding shift, a corner goes with the pointer as far as the proportions allow, be the frame
/// turned or upright: the extents stay in proportion; each of them is at least what the pointer
/// gives it, along the frame's own axes, and at least the least one; and one of them is no more
/// than that. The corner across is drawn where it was.
#[verifier::spinoff_prover]
pub proof fn proportional_corners_follow_the_pointer(
    start: (Micro, Micro, Micro, Micro),
    corner: Corner,
    dx: Micro,
    dy: Micro,
    rotation: Micro,
)
    requires
        within(start.0, 10_000_000_000),
        within(start.1, 10_000_000_000),
        1_000_000 <= start.2.raw <= 10_000_000_000,
        1_000_000 <= start.3.raw <= 10_000_000_000,
        within(dx, 10_000_000_000),
        within(dy, 10_000_000_000),
    ensures
        ({
            let r = corner_dragged(start, corner, dx, dy, rotation, true);
            let (sin, cos) = rotation.sine_cosine();
            let (s, k) = (sin.raw as int, cos.raw as int);
            let (a, b) = ways(corner);
            let (w, h) = (start.2.raw as int, start.3.raw as int);
            // What the pointer asks for, in millionths of a millionth.
            let wide = 1_000_000 * w + a * (dx.raw * k + dy.raw * s);
            let tall = 1_000_000 * h + b * (dy.raw * k - dx.raw * s);
            let (u, v) = (1_000_000 * r.2.raw, 1_000_000 * r.3.raw);
            let (held, kept) = (drawn_at(start, (-a, -b), s, k), drawn_at(r, (-a, -b), s, k));
            &&& size_of(r.2.raw * h - r.3.raw * w) <= w + h
            &&& u >= wide - (w + 4_000_000) && v >= tall - (h + 4_000_000)
            &&& u >= 8_000_000_000_000 - (w + 4_000_000)
            &&& v >= 8_000_000_000_000 - (h + 4_000_000)
            &&& u <= wide + 4_000_000 || v <= tall + 4_000_000 || u <= 8_000_000_000_000 || v
                <= 8_000_000_000_000
            &&& -20_000_000 <= kept.0 - held.0 <= 20_000_000
            &&& -20_000_000 <= kept.1 - held.1 <= 20_000_000
        }),
{
    let (sin, cos) = rotation.sine_cosine();
    let (s, k) = (sin.raw as int, cos.raw as int);
    let (a, b) = ways(corner);
    let (x, y) = own_travel(dx, dy, rotation);
    own_travel_is_read(dx, dy, rotation);
    let along = dx.raw * k + dy.raw * s;
    let across = dy.raw * k - dx.raw * s;
    let f = resized_in_proportion(start, corner, x, y);
    let r = corner_dragged(start, corner, dx, dy, rotation, true);
    proportion_takes(start, corner, x, y);
    assert(r.2 == f.2 && r.3 == f.3);
    signed(a, along);
    signed(b, across);
    signed(a, x.raw as int);
    signed(b, y.raw as int);
    if rotation.raw == 0 {
        assert(r == f);
        upright_is_drawn(start, f, corner);
    } else {
        put_back_is_drawn(start, f, r, corner, sin, cos);
    }
}

/// The pointer's travel along the axes of a frame, turned or upright.
spec fn own_travel(dx: Micro, dy: Micro, rotation: Micro) -> (Micro, Micro) {
    let (sin, cos) = rotation.sine_cosine();
    if rotation.raw == 0 {
        (dx, dy)
    } else {
        (dx.times(cos).plus(dy.times(sin)), dx.negated().times(sin).plus(dy.times(cos)))
    }
}

proof fn own_travel_is_read(dx: Micro, dy: Micro, rotation: Micro)
    requires
        within(dx, 10_000_000_000),
        within(dy, 10_000_000_000),
    ensures
        ({
            let (sin, cos) = rotation.sine_cosine();
            let (s, k) = (sin.raw as int, cos.raw as int);
            let (x, y) = own_travel(dx, dy, rotation);
            &&& -2_000_000 <= 1_000_000 * x.raw - (dx.raw * k + dy.raw * s) <= 2_000_000
            &&& -2_000_000 <= 1_000_000 * y.raw - (dy.raw * k - dx.raw * s) <= 2_000_000
            &&& within(x, 30_000_000_000)
            &&& within(y, 30_000_000_000)
            &&& within(sin, 1_000_000)
            &&& within(cos, 1_000_000)
            &&& rotation.raw == 0 ==> s == 0 && k == 1_000_000
        }),
{
    let (sin, cos) = rotation.sine_cosine();
    let (s, k) = (sin.raw as int, cos.raw as int);
    turn_bears(rotation);
    sines_stay_within_one(rotation);
    unit_travel(dx, dy, k, s);
    if rotation.raw == 0 {
        nothing_bears();
        assert(k == 1_000_000 && s == 0);
        let (p, q) = (dx.raw as int, dy.raw as int);
        assert(p * k == p * 1_000_000 && q * k == q * 1_000_000);
        assert(p * s == p * 0 && q * s == q * 0);
    } else {
        travel_is_read(dx, dy, sin, cos);
    }
}

/// What a drag along a frame's axes makes of it in proportion.
#[verifier::spinoff_prover]
proof fn proportion_takes(
    start: (Micro, Micro, Micro, Micro),
    corner: Corner,
    x: Micro,
    y: Micro,
)
    requires
        within(start.0, 10_000_000_000),
        within(start.1, 10_000_000_000),
        1_000_000 <= start.2.raw <= 10_000_000_000,
        1_000_000 <= start.3.raw <= 10_000_000_000,
        within(x, 30_000_000_000),
        within(y, 30_000_000_000),
    ensures
        ({
            let f = resized_in_proportion(start, corner, x, y);
            let (a, b) = ways(corner);
            let (w, h) = (start.2.raw as int, start.3.raw as int);
            let (wide, tall) = (w + a * x.raw, h + b * y.raw);
            let (u, v) = (f.2.raw as int, f.3.raw as int);
            &&& size_of(u * h - v * w) <= w + h
            &&& 1_000_000 * u >= 1_000_000 * wide - (w + 1_000_000)
            &&& 1_000_000 * v >= 1_000_000 * tall - (h + 1_000_000)
            &&& 1_000_000 * u >= 8_000_000_000_000 - (w + 1_000_000)
            &&& 1_000_000 * v >= 8_000_000_000_000 - (h + 1_000_000)
            &&& u <= wide || v <= tall || u <= 8_000_000 || v <= 8_000_000
            &&& a == 1 ==> f.0 == start.0
            &&& a == -1 ==> f.0.raw + u == start.0.raw + w
            &&& b == 1 ==> f.1 == start.1
            &&& b == -1 ==> f.1.raw + v == start.1.raw + h
            &&& within(f.0, 10_000_000_000_000_000)
            &&& within(f.1, 10_000_000_000_000_000)
            &&& within(f.2, 10_000_000_000_000_000)
            &&& within(f.3, 10_000_000_000_000_000)
        }),
{
    let (a, b) = ways(corner);
    let (w, h) = (start.2, start.3);
    signed(a, x.raw as int);
    signed(b, y.raw as int);
    let wide = if a == -1 {
        w.minus(x)
    } else {
        w.plus(x)
    };
    let tall = if b == -1 {
        h.minus(y)
    } else {
        h.plus(y)
    };
    both_are_scaled(w, h, wide, tall);
}

/// A frame that holds its corner is drawn to hold it.
proof fn upright_is_drawn(
    start: (Micro, Micro, Micro, Micro),
    f: (Micro, Micro, Micro, Micro),
    corner: Corner,
)
    requires
        ({
            let (a, b) = ways(corner);
            &&& a == 1 ==> f.0 == start.0
            &&& a == -1 ==> f.0.raw + f.2.raw == start.0.raw + start.2.raw
            &&& b == 1 ==> f.1 == start.1
            &&& b == -1 ==> f.1.raw + f.3.raw == start.1.raw + start.3.raw
        }),
    ensures
        ({
            let (a, b) = ways(corner);
            drawn_at(f, (-a, -b), 0, 1_000_000) == drawn_at(start, (-a, -b), 0, 1_000_000)
        }),
{
    let (a, b) = ways(corner);
    signed(-a, f.2.raw as int);
    signed(-b, f.3.raw as int);
    signed(-a, start.2.raw as int);
    signed(-b, start.3.raw as int);
}

/// What a pointer's travel comes to along an axis is no more than twice the travel.
proof fn unit_travel(dx: Micro, dy: Micro, k: int, s: int)
    requires
        within(dx, 10_000_000_000),
        within(dy, 10_000_000_000),
        -1_000_000 <= k <= 1_000_000,
        -1_000_000 <= s <= 1_000_000,
    ensures
        size_of(dx.raw * k + dy.raw * s) <= 20_000_000_000_000_000,
        size_of(dy.raw * k - dx.raw * s) <= 20_000_000_000_000_000,
{
    product_within(dx.raw as int, k, 10_000_000_000, 1_000_000);
    product_within(dy.raw as int, k, 10_000_000_000, 1_000_000);
    product_within(dx.raw as int, s, 10_000_000_000, 1_000_000);
    product_within(dy.raw as int, s, 10_000_000_000, 1_000_000);
}

// ---------------------------------------------------------------------------
// Lines
// ---------------------------------------------------------------------------

/// An end of a line goes with the pointer exactly, and the other end stays.
pub proof fn line_ends_follow_the_pointer(
    start: (Micro, Micro, Micro, Micro),
    end: LineEnd,
    dx: Micro,
    dy: Micro,
)
    requires
        moderate_frame(start),
        moderate(dx),
        moderate(dy),
    ensures
        ({
            let f = line_dragged(start, end, dx, dy);
            let (x, y) = (f.0.raw + f.2.raw, f.1.raw + f.3.raw);
            let (x0, y0) = (start.0.raw + start.2.raw, start.1.raw + start.3.raw);
            match end {
                LineEnd::Start => {
                    &&& f.0.raw == start.0.raw + dx.raw && f.1.raw == start.1.raw + dy.raw
                    &&& x == x0 && y == y0
                },
                LineEnd::End => {
                    &&& x == x0 + dx.raw && y == y0 + dy.raw
                    &&& f.0 == start.0 && f.1 == start.1
                },
            }
        }),
{
}

} // verus!
