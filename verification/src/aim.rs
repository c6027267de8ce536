//! What a click hits, in millionths: the inside of a rectangle and of an oval, upright or turned.
use vstd::prelude::*;
use crate::exact::{sines_stay_within_one, unit_product, within};
use crate::geometry::{center, rotation_about_center, upright, Affine, Point};
use crate::hit::point_in_shape;
use crate::micro::Micro;
use crate::millionths::{half_reads, product_reads};
use crate::node::{NodeKind, NodeModel};
use crate::products::{
    cancelled, commuted, distributed, mono, product_within, regrouped, root_within,
    square_is_positive, square_of, square_of_sum, square_within,
};
use crate::scalar::{half, Scalar};
use crate::zooms::shares;

verus! {

/// Whether a shape lies within ten thousand units of the origin, and is a unit wide and high at
/// least.
pub open spec fn ordinary(n: NodeModel<Micro>) -> bool {
    &&& within(n.x, 10_000_000_000)
    &&& within(n.y, 10_000_000_000)
    &&& 1_000_000 <= n.w.raw <= 10_000_000_000
    &&& 1_000_000 <= n.h.raw <= 10_000_000_000
}

// ---------------------------------------------------------------------------
// Turns about a middle
// ---------------------------------------------------------------------------

/// A number times one, and times nought.
proof fn by_one_and_nought(v: Micro)
    requires
        within(v, 1_000_000_000_000_000),
    ensures
        v.times(Micro::of_int(1)) == v,
        Micro::of_int(1).times(v) == v,
        v.times(Micro::of_int(0)).raw == 0,
        Micro::of_int(0).times(v).raw == 0,
{
    let n = v.raw * 1_000_000;
    assert(Micro::of_int(1).raw == 1_000_000 && Micro::of_int(0).raw == 0);
    if n >= 0 {
        assert(n / 1_000_000 == v.raw);
    } else {
        assert(-n / 1_000_000 == -v.raw);
    }
    assert(v.raw * 0 == 0 && 0 * v.raw == 0);
}

/// The map of a turn about a middle, from what it is made of.
#[verifier::spinoff_prover]
proof fn turn_is_made_of(
    f: (Micro, Micro, Micro, Micro),
    degrees: Micro,
)
    requires
        within(center(f).x, 1_000_000_000_000),
        within(center(f).y, 1_000_000_000_000),
    ensures
        ({
            let (sin, cos) = degrees.sine_cosine();
            let c = center(f);
            let m = rotation_about_center(f, degrees);
            &&& m.a == cos && m.b == sin && m.c.raw == -sin.raw && m.d == cos
            &&& m.tx.raw == c.x.negated().times(cos).raw + c.y.negated().times(m.c).raw + c.x.raw
            &&& m.ty.raw == c.x.negated().times(sin).raw + c.y.negated().times(cos).raw + c.y.raw
            &&& within(m.tx, 4_000_000_000_000)
            &&& within(m.ty, 4_000_000_000_000)
        }),
{
    let (sin, cos) = degrees.sine_cosine();
    sines_stay_within_one(degrees);
    let c = center(f);
    let (nx, ny) = (c.x.negated(), c.y.negated());
    let ns = sin.negated();
    by_one_and_nought(sin);
    by_one_and_nought(cos);
    by_one_and_nought(ns);
    unit_product(nx, cos, 1_000_000_000_000);
    unit_product(ny, ns, 1_000_000_000_000);
    unit_product(nx, sin, 1_000_000_000_000);
    unit_product(ny, cos, 1_000_000_000_000);
    let t = Affine::translate(nx, ny);
    let r = Affine::rotate(degrees);
    let m = t.followed_by(r);
    assert(m.a == cos && m.b == sin && m.c == ns && m.d == cos);
    assert(m.tx.raw == nx.times(cos).raw + ny.times(ns).raw);
    assert(m.ty.raw == nx.times(sin).raw + ny.times(cos).raw);
    by_one_and_nought(m.tx);
    by_one_and_nought(m.ty);
    let u = Affine::translate(c.x, c.y);
    let w = m.followed_by(u);
    assert(w.a == cos && w.b == sin && w.c == ns && w.d == cos);
    assert(w.tx.raw == m.tx.raw + c.x.raw);
    assert(w.ty.raw == m.ty.raw + c.y.raw);
    assert(w == rotation_about_center(f, degrees));
}

/// A turn about a middle turns about that middle: where a point comes to lie is told by its
/// distances from the middle, by the cosine and the sine, but for four millionths.
#[verifier::spinoff_prover]
pub proof fn turns_go_round_the_middle(
    f: (Micro, Micro, Micro, Micro),
    degrees: Micro,
    p: Point<Micro>,
)
    requires
        within(f.0, 400_000_000_000),
        within(f.1, 400_000_000_000),
        within(f.2, 400_000_000_000),
        within(f.3, 400_000_000_000),
        within(p.x, 1_000_000_000_000),
        within(p.y, 1_000_000_000_000),
    ensures
        ({
            let (sin, cos) = degrees.sine_cosine();
            let (s, k) = (sin.raw as int, cos.raw as int);
            let q = rotation_about_center(f, degrees).apply(p);
            // Twice the distances from the middle.
            let (dx, dy) = (
                2 * p.x.raw - (2 * f.0.raw + f.2.raw),
                2 * p.y.raw - (2 * f.1.raw + f.3.raw),
            );
            let (ex, ey) = (
                2 * q.x.raw - (2 * f.0.raw + f.2.raw),
                2 * q.y.raw - (2 * f.1.raw + f.3.raw),
            );
            &&& -15_000_000 <= 1_000_000 * ex - (dx * k - dy * s) <= 15_000_000
            &&& -15_000_000 <= 1_000_000 * ey - (dx * s + dy * k) <= 15_000_000
            &&& within(q.x, 10_000_000_000_000)
            &&& within(q.y, 10_000_000_000_000)
        }),
{
    let (sin, cos) = degrees.sine_cosine();
    let (s, k) = (sin.raw as int, cos.raw as int);
    half_reads(f.2);
    half_reads(f.3);
    let c = center(f);
    sines_stay_within_one(degrees);
    turn_is_made_of(f, degrees);
    let m = rotation_about_center(f, degrees);
    let (nx, ny) = (c.x.negated(), c.y.negated());
    let (cx, cy) = (c.x.raw as int, c.y.raw as int);
    let (px, py) = (p.x.raw as int, p.y.raw as int);
    product_reads(nx, cos);
    product_reads(ny, m.c);
    product_reads(nx, sin);
    product_reads(ny, cos);
    product_swaps(m.a, p.x);
    product_swaps(m.c, p.y);
    product_swaps(m.b, p.x);
    product_swaps(m.d, p.y);
    product_reads(p.x, cos);
    product_reads(p.y, m.c);
    product_reads(p.x, sin);
    product_reads(p.y, cos);
    unit_product(p.x, cos, 1_000_000_000_000);
    unit_product(p.y, m.c, 1_000_000_000_000);
    unit_product(p.x, sin, 1_000_000_000_000);
    unit_product(p.y, cos, 1_000_000_000_000);
    negative_products(cx, k);
    negative_products(cy, k);
    negative_products(cx, s);
    negative_products(cy, s);
    negative_products(py, s);
    let q = m.apply(p);
    // Once the distances from the middle, rounded.
    distributed(k, px, cx);
    distributed(s, px, cx);
    distributed(k, py, cy);
    distributed(s, py, cy);
    assert(-4_000_000 <= 1_000_000 * (q.x.raw - cx) - ((px - cx) * k - (py - cy) * s)
        <= 4_000_000);
    assert(-4_000_000 <= 1_000_000 * (q.y.raw - cy) - ((px - cx) * s + (py - cy) * k)
        <= 4_000_000);
    let (dx, dy) = (2 * px - (2 * f.0.raw + f.2.raw), 2 * py - (2 * f.1.raw + f.3.raw));
    off_by_a_little(dx, px - cx, k);
    off_by_a_little(dx, px - cx, s);
    off_by_a_little(dy, py - cy, k);
    off_by_a_little(dy, py - cy, s);
}

proof fn product_swaps(a: Micro, b: Micro)
    ensures
        a.times(b) == b.times(a),
{
    commuted(a.raw as int, b.raw as int);
}

proof fn negative_products(a: int, k: int)
    ensures
        (-a) * k == -(a * k),
        a * (-k) == -(a * k),
        (-a) * (-k) == a * k,
{
    distributed(k, 0, a);
    distributed(a, 0, k);
    distributed(-k, 0, a);
}

proof fn off_by_a_little(d: int, e: int, k: int)
    requires
        -2 <= d - 2 * e <= 2,
        -1_000_000 <= k <= 1_000_000,
    ensures
        -2_000_000 <= d * k - 2 * (e * k) <= 2_000_000,
{
    distributed(k, d, 2 * e);
    regrouped(2, e, k);
    product_within(d - 2 * e, k, 2, 1_000_000);
}

// ---------------------------------------------------------------------------
// Upright shapes
// ---------------------------------------------------------------------------

/// A click is on an upright rectangle, or a picture, where it is between its edges.
pub proof fn rectangles_are_hit_between_their_edges(
    n: NodeModel<Micro>,
    p: Point<Micro>,
    zoom: Micro,
)
    requires
        n.kind == NodeKind::Rect || n.kind == NodeKind::Image,
        n.rotation.raw == 0,
        within(n.x, 1_000_000_000_000_000),
        within(n.y, 1_000_000_000_000_000),
        within(n.w, 1_000_000_000_000_000),
        within(n.h, 1_000_000_000_000_000),
    ensures
        point_in_shape(n, p, zoom) <==> {
            &&& n.x.raw <= p.x.raw <= n.x.raw + n.w.raw
            &&& n.y.raw <= p.y.raw <= n.y.raw + n.h.raw
        },
{
}

/// How far from the middle a coordinate is, by half the extent, but for little.
proof fn share_of_the_way(p: Micro, x: Micro, w: Micro)
    requires
        within(x, 10_000_000_000),
        1_000_000 <= w.raw <= 10_000_000_000,
        x.raw <= p.raw <= x.raw + w.raw,
    ensures
        ({
            let a = p.minus(x.plus(half(w))).over(half(w)).raw as int;
            let d = 2 * p.raw - (2 * x.raw + w.raw);
            let (m, l) = (if a >= 0 {
                a
            } else {
                -a
            }, if d >= 0 {
                d
            } else {
                -d
            });
            &&& 1_000_000 * l <= (m + 2) * w.raw
            &&& (m - 3) * w.raw <= 1_000_000 * l
            &&& m <= 1_000_002
        }),
{
    let u = half(w).raw as int;
    half_is_less(w);
    let e = p.raw - (x.raw + u);
    let v = p.minus(x.plus(half(w)));
    assert(v.raw == e);
    let n = e * 1_000_000;
    let size = if e >= 0 {
        e
    } else {
        -e
    };
    shares(size * 1_000_000, u);
    let m = (size * 1_000_000) / u;
    assert(m <= 1_000_002) by {
        if m >= 1_000_003 {
            mono(u, 1_000_003, m);
            commuted(u, m);
        }
    }
    if e >= 0 {
        assert(v.over(half(w)).raw == m);
    } else {
        assert(v.over(half(w)).raw == -m);
    }
    let d = 2 * p.raw - (2 * x.raw + w.raw);
    let l = if d >= 0 {
        d
    } else {
        -d
    };
    // Twice the share, of the whole extent.
    distributed(w.raw as int, m, 2);
    distributed(w.raw as int, m, 3);
    let o = w.raw - 2 * u;
    distributed(m, 2 * u, o);
    regrouped(m, 2, u);
    commuted(m, 2);
    regrouped(2, m, u);
    assert(m * w.raw == 2 * (m * u) + m * o);
    assert(0 <= m * o <= m) by {
        if o == 0 {
            assert(m * 0 == 0);
        } else {
            assert(m * 1 == m);
        }
    }
}

proof fn half_is_less(w: Micro)
    requires
        0 <= w.raw <= 1_000_000_000_000,
    ensures
        2 * half(w).raw <= w.raw <= 2 * half(w).raw + 1,
{
    let n = w.raw * 1_000_000;
    assert(half(w).raw == n / 2_000_000);
}

/// A quotient of squares, from one of what is squared.
proof fn squares_up(l: int, m: int, w: int)
    requires
        0 <= l,
        1_000_000 * l <= m * w,
    ensures
        1_000_000_000_000 * (l * l) <= (m * m) * (w * w),
{
    square_within(1_000_000 * l, m * w);
    square_of(1_000_000, l);
    square_of(m, w);
}

proof fn squares_down(l: int, m: int, w: int)
    requires
        0 <= m,
        0 <= w,
        m * w <= 1_000_000 * l,
    ensures
        (m * m) * (w * w) <= 1_000_000_000_000 * (l * l),
{
    mono(w, 0, m);
    square_within(m * w, 1_000_000 * l);
    square_of(1_000_000, l);
    square_of(m, w);
}

proof fn absolute_square(d: int)
    ensures
        d * d == (if d >= 0 {
            d
        } else {
            -d
        }) * (if d >= 0 {
            d
        } else {
            -d
        }),
{
    if d < 0 {
        negative_products(d, -d);
        negative_products(d, d);
        assert((-d) * (-d) == d * d);
    }
}

/// How far out a point is, by the extents of a frame: nought in the middle, and on the ellipse
/// that the frame holds what `rim` is.
pub open spec fn outness(x: int, y: int, w: int, h: int) -> int {
    (x * x) * (h * h) + (y * y) * (w * w)
}

/// How far out the ellipse is that a frame holds.
pub open spec fn rim(w: int, h: int) -> int {
    (w * w) * (h * h)
}

proof fn sums_up(l: int, g: int, a: int, b: int, w: int, h: int)
    requires
        0 <= l,
        0 <= g,
        1_000_000 * l <= a * w,
        1_000_000 * g <= b * h,
    ensures
        1_000_000_000_000 * outness(l, g, w, h) <= (a * a + b * b) * rim(w, h),
{
    squares_up(l, a, w);
    squares_up(g, b, h);
    square_is_positive(w);
    square_is_positive(h);
    let (ww, hh) = (w * w, h * h);
    mono(hh, 1_000_000_000_000 * (l * l), (a * a) * ww);
    mono(ww, 1_000_000_000_000 * (g * g), (b * b) * hh);
    regrouped(1_000_000_000_000, l * l, hh);
    regrouped(1_000_000_000_000, g * g, ww);
    regrouped(a * a, ww, hh);
    regrouped(b * b, hh, ww);
    commuted(ww, hh);
    distributed(rim(w, h), a * a, b * b);
}

proof fn sums_down(l: int, g: int, a: int, b: int, w: int, h: int)
    requires
        0 <= a,
        0 <= b,
        0 <= w,
        0 <= h,
        a * w <= 1_000_000 * l,
        b * h <= 1_000_000 * g,
    ensures
        (a * a + b * b) * rim(w, h) <= 1_000_000_000_000 * outness(l, g, w, h),
{
    squares_down(l, a, w);
    squares_down(g, b, h);
    square_is_positive(w);
    square_is_positive(h);
    let (ww, hh) = (w * w, h * h);
    mono(hh, (a * a) * ww, 1_000_000_000_000 * (l * l));
    mono(ww, (b * b) * hh, 1_000_000_000_000 * (g * g));
    regrouped(1_000_000_000_000, l * l, hh);
    regrouped(1_000_000_000_000, g * g, ww);
    regrouped(a * a, ww, hh);
    regrouped(b * b, hh, ww);
    commuted(ww, hh);
    distributed(rim(w, h), a * a, b * b);
}

/// The squares that a hit adds up, from the shares.
proof fn hit_adds_up(nx: Micro, ny: Micro)
    requires
        within(nx, 1_000_002),
        within(ny, 1_000_002),
    ensures
        ({
            let sum = nx.raw * nx.raw + ny.raw * ny.raw;
            let hit = nx.times(nx).plus(ny.times(ny)).at_most(Micro::of_int(1));
            &&& hit ==> sum <= 1_000_002_000_000
            &&& sum <= 1_000_000_000_000 ==> hit
        }),
{
    square_within(nx.raw as int, 1_000_002);
    square_within(ny.raw as int, 1_000_002);
    assert(nx.times(nx).raw == (nx.raw * nx.raw) / 1_000_000);
    assert(ny.times(ny).raw == (ny.raw * ny.raw) / 1_000_000);
}

/// A click is on an upright oval where it is within the ellipse that the frame holds: on it well
/// inside, and off it well outside, by a ten-thousandth of the rim.
#[verifier::spinoff_prover]
pub proof fn ovals_are_hit_within_their_ellipse(n: NodeModel<Micro>, p: Point<Micro>, zoom: Micro)
    requires
        n.kind == NodeKind::Oval,
        n.rotation.raw == 0,
        ordinary(n),
    ensures
        ({
            // Twice the distances from the middle.
            let (x, y) = (
                2 * p.x.raw - (2 * n.x.raw + n.w.raw),
                2 * p.y.raw - (2 * n.y.raw + n.h.raw),
            );
            let (w, h) = (n.w.raw as int, n.h.raw as int);
            &&& point_in_shape(n, p, zoom) ==> 10_000 * outness(x, y, w, h) <= 10_001 * rim(w, h)
            &&& 10_000 * outness(x, y, w, h) <= 9_999 * rim(w, h) ==> point_in_shape(n, p, zoom)
        }),
{
    let (x, y) = (2 * p.x.raw - (2 * n.x.raw + n.w.raw), 2 * p.y.raw - (2 * n.y.raw + n.h.raw));
    let (w, h) = (n.w.raw as int, n.h.raw as int);
    let (l, g) = (if x >= 0 {
        x
    } else {
        -x
    }, if y >= 0 {
        y
    } else {
        -y
    });
    absolute_square(x);
    absolute_square(y);
    assert(outness(x, y, w, h) == outness(l, g, w, h));
    rim_is_positive(w, h);
    let inside = n.x.raw <= p.x.raw <= n.x.raw + w && n.y.raw <= p.y.raw <= n.y.raw + h;
    let nx = p.x.minus(n.x.plus(half(n.w))).over(half(n.w));
    let ny = p.y.minus(n.y.plus(half(n.h))).over(half(n.h));
    if inside {
        share_of_the_way(p.x, n.x, n.w);
        share_of_the_way(p.y, n.y, n.h);
        hit_adds_up(nx, ny);
        absolute_square(nx.raw as int);
        absolute_square(ny.raw as int);
        let (a, b) = (if nx.raw >= 0 {
            nx.raw as int
        } else {
            -nx.raw
        }, if ny.raw >= 0 {
            ny.raw as int
        } else {
            -ny.raw
        });
        if point_in_shape(n, p, zoom) {
            sums_up(l, g, a + 2, b + 2, w, h);
            square_of_sum(a, 2);
            square_of_sum(b, 2);
            mono(rim(w, h), (a + 2) * (a + 2) + (b + 2) * (b + 2), 1_000_100_000_000);
            commuted(rim(w, h), 1_000_100_000_000);
        }
        if 10_000 * outness(x, y, w, h) <= 9_999 * rim(w, h) {
            let (c, d) = (if a >= 3 {
                a - 3
            } else {
                0
            }, if b >= 3 {
                b - 3
            } else {
                0
            });
            sums_down(l, g, c, d, w, h);
            if c * c + d * d > 999_900_000_000 {
                mono(rim(w, h), 999_900_000_001, c * c + d * d);
                commuted(rim(w, h), c * c + d * d);
            }
            square_of_sum(c, 3);
            square_of_sum(d, 3);
            square_within(a, c + 3);
            square_within(b, d + 3);
            bounded_root(c, d);
        }
    } else {
        if 10_000 * outness(x, y, w, h) <= 9_999 * rim(w, h) {
            inside_the_frame(l, g, w, h);
        }
    }
}

proof fn rim_is_positive(w: int, h: int)
    requires
        1 <= w,
        1 <= h,
    ensures
        rim(w, h) >= 1,
{
    mono(w, 1, w);
    mono(h, 1, h);
    mono(w * w, 1, h * h);
}

proof fn bounded_root(c: int, d: int)
    requires
        0 <= c,
        0 <= d,
        c * c + d * d <= 999_900_000_000,
    ensures
        c <= 1_000_000,
        d <= 1_000_000,
{
    square_is_positive(c);
    square_is_positive(d);
    root_within(c, 1_000_000);
    root_within(d, 1_000_000);
}

/// What is within the rim is within the frame.
proof fn inside_the_frame(l: int, g: int, w: int, h: int)
    requires
        0 <= l,
        0 <= g,
        1 <= w,
        1 <= h,
        outness(l, g, w, h) <= rim(w, h),
    ensures
        l <= w,
        g <= h,
{
    let (ww, hh) = (w * w, h * h);
    mono(w, 1, w);
    mono(h, 1, h);
    square_is_positive(l);
    square_is_positive(g);
    mono(hh, 0, l * l);
    mono(ww, 0, g * g);
    commuted(ww, hh);
    cancelled(hh, l * l, ww);
    cancelled(ww, g * g, hh);
    root_within(l, w);
    root_within(g, h);
}

/// The four points where an oval meets its frame are on it.
pub proof fn ovals_are_hit_where_they_meet_their_frame(
    n: NodeModel<Micro>,
    p: Point<Micro>,
    zoom: Micro,
)
    requires
        n.kind == NodeKind::Oval,
        n.rotation.raw == 0,
        ordinary(n),
        n.w.raw % 2 == 0,
        n.h.raw % 2 == 0,
        ({
            let (x, y) = (n.x.raw + n.w.raw / 2, n.y.raw + n.h.raw / 2);
            ||| p.y.raw == y && (p.x.raw == n.x.raw || p.x.raw == n.x.raw + n.w.raw)
            ||| p.x.raw == x && (p.y.raw == n.y.raw || p.y.raw == n.y.raw + n.h.raw)
        }),
    ensures
        point_in_shape(n, p, zoom),
{
    half_is_less(n.w);
    half_is_less(n.h);
    let nx = p.x.minus(n.x.plus(half(n.w))).over(half(n.w));
    let ny = p.y.minus(n.y.plus(half(n.h))).over(half(n.h));
    let (u, v) = (half(n.w).raw as int, half(n.h).raw as int);
    whole_share(u);
    whole_share(v);
    assert(nx.raw == 0 || nx.raw == 1_000_000 || nx.raw == -1_000_000);
    assert(ny.raw == 0 || ny.raw == 1_000_000 || ny.raw == -1_000_000);
    hit_adds_up(nx, ny);
    square_within(nx.raw as int, 1_000_000);
    square_within(ny.raw as int, 1_000_000);
    assert(nx.raw == 0 || ny.raw == 0);
    assert(0int * 0int == 0);
}

proof fn whole_share(u: int)
    requires
        u > 0,
    ensures
        (u * 1_000_000) / u == 1_000_000,
        0int / u == 0,
{
    shares(u * 1_000_000, u);
    shares(0, u);
    let m = (u * 1_000_000) / u;
    commuted(u, 1_000_000);
    cancelled(u, m, 1_000_000);
    cancelled(u, 1_000_000, m + 1);
    distributed(u, m, 1);
    let z = 0int / u;
    cancelled(u, z, 0);
}

// ---------------------------------------------------------------------------
// Turned shapes
// ---------------------------------------------------------------------------

/// Where a click is seen from a turned shape: twice its distances from the middle, turned back by
/// the opposite angle, in millionths.
pub open spec fn seen_from(n: NodeModel<Micro>, p: Point<Micro>) -> (int, int) {
    let (sin, cos) = n.rotation.negated().sine_cosine();
    let (s, k) = (sin.raw as int, cos.raw as int);
    let (dx, dy) = (2 * p.x.raw - (2 * n.x.raw + n.w.raw), 2 * p.y.raw - (2 * n.y.raw + n.h.raw));
    (dx * k - dy * s, dx * s + dy * k)
}

pub open spec fn amount(v: int) -> int {
    if v >= 0 {
        v
    } else {
        -v
    }
}

/// A turned shape is hit as the upright one is, where the click is taken back.
proof fn turned_is_hit_as_upright(n: NodeModel<Micro>, p: Point<Micro>, zoom: Micro)
    requires
        ordinary(n),
        n.rotation.raw != 0,
        n.kind == NodeKind::Rect || n.kind == NodeKind::Image || n.kind == NodeKind::Oval,
        within(p.x, 1_000_000_000_000),
        within(p.y, 1_000_000_000_000),
    ensures
        ({
            let q = upright((n.x, n.y, n.w, n.h), n.rotation, p);
            let m = NodeModel { rotation: Micro { raw: 0 }, ..n };
            let (ex, ey) = (
                2 * q.x.raw - (2 * n.x.raw + n.w.raw),
                2 * q.y.raw - (2 * n.y.raw + n.h.raw),
            );
            let (u, v) = seen_from(n, p);
            &&& point_in_shape(n, p, zoom) == point_in_shape(m, q, zoom)
            &&& -15_000_000 <= 1_000_000 * ex - u <= 15_000_000
            &&& -15_000_000 <= 1_000_000 * ey - v <= 15_000_000
        }),
{
    turns_go_round_the_middle((n.x, n.y, n.w, n.h), n.rotation.negated(), p);
}

/// A click is on a turned rectangle where it is between its edges as the rectangle sees it.
pub proof fn turned_rectangles_are_hit_between_their_edges(
    n: NodeModel<Micro>,
    p: Point<Micro>,
    zoom: Micro,
)
    requires
        n.kind == NodeKind::Rect || n.kind == NodeKind::Image,
        n.rotation.raw != 0,
        ordinary(n),
        within(p.x, 1_000_000_000_000),
        within(p.y, 1_000_000_000_000),
    ensures
        ({
            let (u, v) = seen_from(n, p);
            let (w, h) = (1_000_000 * n.w.raw, 1_000_000 * n.h.raw);
            &&& point_in_shape(n, p, zoom) ==> amount(u) <= w + 15_000_000 && amount(v) <= h
                + 15_000_000
            &&& amount(u) <= w - 15_000_000 && amount(v) <= h - 15_000_000 ==> point_in_shape(
                n,
                p,
                zoom,
            )
        }),
{
    turned_is_hit_as_upright(n, p, zoom);
    let q = upright((n.x, n.y, n.w, n.h), n.rotation, p);
    let m = NodeModel { rotation: Micro { raw: 0 }, ..n };
    rectangles_are_hit_between_their_edges(m, q, zoom);
}

/// The shares that an oval is hit by.
proof fn oval_shares(n: NodeModel<Micro>, p: Point<Micro>, zoom: Micro) -> (r: (int, int))
    requires
        n.kind == NodeKind::Oval,
        n.rotation.raw == 0,
        ordinary(n),
        n.x.raw <= p.x.raw <= n.x.raw + n.w.raw,
        n.y.raw <= p.y.raw <= n.y.raw + n.h.raw,
    ensures
        ({
            let (a, b) = r;
            let l = amount(2 * p.x.raw - (2 * n.x.raw + n.w.raw));
            let g = amount(2 * p.y.raw - (2 * n.y.raw + n.h.raw));
            &&& 0 <= a <= 1_000_002 && 0 <= b <= 1_000_002
            &&& 1_000_000 * l <= (a + 2) * n.w.raw && (a - 3) * n.w.raw <= 1_000_000 * l
            &&& 1_000_000 * g <= (b + 2) * n.h.raw && (b - 3) * n.h.raw <= 1_000_000 * g
            &&& point_in_shape(n, p, zoom) ==> a * a + b * b <= 1_000_002_000_000
            &&& a * a + b * b <= 1_000_000_000_000 ==> point_in_shape(n, p, zoom)
        }),
{
    let nx = p.x.minus(n.x.plus(half(n.w))).over(half(n.w));
    let ny = p.y.minus(n.y.plus(half(n.h))).over(half(n.h));
    share_of_the_way(p.x, n.x, n.w);
    share_of_the_way(p.y, n.y, n.h);
    hit_adds_up(nx, ny);
    absolute_square(nx.raw as int);
    absolute_square(ny.raw as int);
    (amount(nx.raw as int), amount(ny.raw as int))
}

/// What a point is out, from shares of the extents.
proof fn out_by_shares(u: int, v: int, a: int, b: int, w: int, h: int)
    requires
        0 <= u <= a * w,
        0 <= v <= b * h,
    ensures
        outness(u, v, w, h) <= (a * a + b * b) * rim(w, h),
{
    square_within(u, a * w);
    square_within(v, b * h);
    square_of(a, w);
    square_of(b, h);
    square_is_positive(w);
    square_is_positive(h);
    let (ww, hh) = (w * w, h * h);
    mono(hh, u * u, (a * a) * ww);
    mono(ww, v * v, (b * b) * hh);
    regrouped(a * a, ww, hh);
    regrouped(b * b, hh, ww);
    commuted(ww, hh);
    distributed(rim(w, h), a * a, b * b);
}

proof fn shares_by_out(u: int, v: int, a: int, b: int, w: int, h: int)
    requires
        0 <= a,
        0 <= b,
        0 <= w,
        0 <= h,
        a * w <= u,
        b * h <= v,
    ensures
        (a * a + b * b) * rim(w, h) <= outness(u, v, w, h),
{
    mono(w, 0, a);
    mono(h, 0, b);
    square_within(a * w, u);
    square_within(b * h, v);
    square_of(a, w);
    square_of(b, h);
    square_is_positive(w);
    square_is_positive(h);
    let (ww, hh) = (w * w, h * h);
    mono(hh, (a * a) * ww, u * u);
    mono(ww, (b * b) * hh, v * v);
    regrouped(a * a, ww, hh);
    regrouped(b * b, hh, ww);
    commuted(ww, hh);
    distributed(rim(w, h), a * a, b * b);
}

/// A click is on a turned oval where it is within the ellipse that the frame holds, as the oval
/// sees it: on it well inside, and off it well outside, by a thousandth of the rim.
#[verifier::spinoff_prover]
pub proof fn turned_ovals_are_hit_within_their_ellipse(
    n: NodeModel<Micro>,
    p: Point<Micro>,
    zoom: Micro,
)
    requires
        n.kind == NodeKind::Oval,
        n.rotation.raw != 0,
        ordinary(n),
        within(p.x, 1_000_000_000_000),
        within(p.y, 1_000_000_000_000),
    ensures
        ({
            let (u, v) = seen_from(n, p);
            let (w, h) = (n.w.raw as int, n.h.raw as int);
            let edge = 1_000_000_000_000 * rim(w, h);
            &&& point_in_shape(n, p, zoom) ==> 1_000 * outness(u, v, w, h) <= 1_001 * edge
            &&& 1_000 * outness(u, v, w, h) <= 999 * edge ==> point_in_shape(n, p, zoom)
        }),
{
    turned_is_hit_as_upright(n, p, zoom);
    let q = upright((n.x, n.y, n.w, n.h), n.rotation, p);
    let m = NodeModel { rotation: Micro { raw: 0 }, ..n };
    let (u0, v0) = seen_from(n, p);
    let (u, v) = (amount(u0), amount(v0));
    absolute_square(u0);
    absolute_square(v0);
    let (w, h) = (n.w.raw as int, n.h.raw as int);
    rim_is_positive(w, h);
    let inside = n.x.raw <= q.x.raw <= n.x.raw + w && n.y.raw <= q.y.raw <= n.y.raw + h;
    if inside {
        let (a, b) = oval_shares(m, q, zoom);
        if point_in_shape(n, p, zoom) {
            distributed(w, a, 2);
            distributed(w, a, 17);
            distributed(h, b, 2);
            distributed(h, b, 17);
            out_by_shares(u, v, a + 17, b + 17, w, h);
            square_of_sum(a, 17);
            square_of_sum(b, 17);
            mono(rim(w, h), (a + 17) * (a + 17) + (b + 17) * (b + 17), 1_001_000_000_000);
            commuted(rim(w, h), 1_001_000_000_000);
        }
        if 1_000 * outness(u0, v0, w, h) <= 999 * (1_000_000_000_000 * rim(w, h)) {
            let (c, d) = (if a >= 18 {
                a - 18
            } else {
                0
            }, if b >= 18 {
                b - 18
            } else {
                0
            });
            distributed(w, a, 3);
            distributed(w, a, 18);
            distributed(h, b, 3);
            distributed(h, b, 18);
            assert(0 * w == 0 && 0 * h == 0);
            shares_by_out(u, v, c, d, w, h);
            if c * c + d * d > 999_000_000_000 {
                mono(rim(w, h), 999_000_000_001, c * c + d * d);
                commuted(rim(w, h), c * c + d * d);
            }
            square_of_sum(c, 18);
            square_of_sum(d, 18);
            square_within(a, c + 18);
            square_within(b, d + 18);
            bounded_root(c, d);
        }
    } else {
        if 1_000 * outness(u0, v0, w, h) <= 999 * (1_000_000_000_000 * rim(w, h)) {
            well_inside_the_frame(u, v, w, h);
        }
    }
}

/// What is well within the rim is well within the frame.
proof fn well_inside_the_frame(u: int, v: int, w: int, h: int)
    requires
        0 <= u,
        0 <= v,
        1_000_000 <= w,
        1_000_000 <= h,
        1_000 * outness(u, v, w, h) <= 999 * (1_000_000_000_000 * rim(w, h)),
    ensures
        u <= 999_500 * w,
        v <= 999_500 * h,
{
    let (ww, hh) = (w * w, h * h);
    mono(w, 1, w);
    mono(h, 1, h);
    square_is_positive(u);
    square_is_positive(v);
    mono(hh, 0, u * u);
    mono(ww, 0, v * v);
    commuted(ww, hh);
    square_of(999_500, w);
    square_of(999_500, h);
    let k = 999_000_250_000int;
    regrouped(k, ww, hh);
    regrouped(k, hh, ww);
    cancelled(hh, u * u, k * ww);
    cancelled(ww, v * v, k * hh);
    root_within(u, 999_500 * w);
    root_within(v, 999_500 * h);
}

} // verus!
