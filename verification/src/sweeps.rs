//! What a band touches, in millionths: upright rectangles where the two overlap.
use vstd::prelude::*;
use crate::exact::within;
use crate::geometry::{
    along, convex_overlap_spec, edge_along, edge_normal, edge_separates, high_along, low_along,
    separates, upright, Point,
};
use crate::hit::{band_corners, band_upright, point_in_shape, ring, shape_touches};
use crate::micro::{quotient_spec, Micro};
use crate::node::{NodeKind, NodeModel};
use crate::products::mono;
use crate::scalar::Scalar;
use crate::viewport::Viewport;
use crate::views::{quotient_reads, seeing};

verus! {

/// A box, by its edges: left, top, right, bottom.
pub open spec fn is_box(q: Seq<Point<Micro>>, l: int, t: int, r: int, b: int) -> bool {
    &&& q.len() == 4
    &&& q[0].x.raw == l && q[0].y.raw == t
    &&& q[1].x.raw == r && q[1].y.raw == t
    &&& q[2].x.raw == r && q[2].y.raw == b
    &&& q[3].x.raw == l && q[3].y.raw == b
    &&& -1_000_000_000_000 <= l <= r <= 1_000_000_000_000
    &&& -1_000_000_000_000 <= t <= b <= 1_000_000_000_000
}

/// Products with one factor grow with the other, or fall with it.
proof fn products_are_in_order(x: Micro, y: Micro, a: Micro)
    requires
        x.raw <= y.raw,
    ensures
        a.raw >= 0 ==> x.times(a).raw <= y.times(a).raw,
        a.raw <= 0 ==> y.times(a).raw <= x.times(a).raw,
{
    if a.raw >= 0 {
        if a.raw == 0 {
            assert(x.raw * 0 == 0 && y.raw * 0 == 0);
        }
        mono(a.raw as int, x.raw as int, y.raw as int);
        quotients_are_in_order(x.raw * a.raw, y.raw * a.raw);
    } else {
        mono(-a.raw, x.raw as int, y.raw as int);
        assert(x.raw * -a.raw == -(x.raw * a.raw)) by (nonlinear_arith);
        assert(y.raw * -a.raw == -(y.raw * a.raw)) by (nonlinear_arith);
        quotients_are_in_order(y.raw * a.raw, x.raw * a.raw);
    }
}

proof fn quotients_are_in_order(m: int, n: int)
    requires
        m <= n,
    ensures
        quotient_spec(m, 1_000_000) <= quotient_spec(n, 1_000_000),
{
}

/// The least and the greatest of four projections.
proof fn projections_are(q: Seq<Point<Micro>>, axis: Point<Micro>)
    requires
        q.len() == 4,
    ensures
        forall|i: int|
            0 <= i < 4 ==> low_along(q, axis).raw <= along(#[trigger] q[i], axis).raw
                <= high_along(q, axis).raw,
        exists|i: int| 0 <= i < 4 && low_along(q, axis) == along(#[trigger] q[i], axis),
        exists|i: int| 0 <= i < 4 && high_along(q, axis) == along(#[trigger] q[i], axis),
{
    let q3 = q.drop_last();
    let q2 = q3.drop_last();
    let q1 = q2.drop_last();
    let q0 = q1.drop_last();
    assert(q0.len() == 0);
    assert(q1.last() == q[0] && q2.last() == q[1] && q3.last() == q[2] && q.last() == q[3]);
    assert(low_along(q0, axis) == Micro { raw: i64::MAX });
    assert(high_along(q0, axis) == Micro { raw: i64::MIN });
    assert(low_along(q1, axis) == along(q[0], axis));
    assert(high_along(q1, axis).raw == along(q[0], axis).raw);
    assert(low_along(q2, axis) == low_along(q1, axis).lesser(along(q[1], axis)));
    assert(low_along(q3, axis) == low_along(q2, axis).lesser(along(q[2], axis)));
    assert(low_along(q, axis) == low_along(q3, axis).lesser(along(q[3], axis)));
    assert(high_along(q2, axis) == high_along(q1, axis).greater(along(q[1], axis)));
    assert(high_along(q3, axis) == high_along(q2, axis).greater(along(q[2], axis)));
    assert(high_along(q, axis) == high_along(q3, axis).greater(along(q[3], axis)));
}

/// A point in a box is within its projections, whichever way.
proof fn boxes_hold_their_points(
    q: Seq<Point<Micro>>,
    l: int,
    t: int,
    r: int,
    b: int,
    c: Point<Micro>,
    axis: Point<Micro>,
)
    requires
        is_box(q, l, t, r, b),
        l <= c.x.raw <= r,
        t <= c.y.raw <= b,
    ensures
        low_along(q, axis).raw <= along(c, axis).raw <= high_along(q, axis).raw,
{
    projections_are(q, axis);
    products_are_in_order(q[0].x, c.x, axis.x);
    products_are_in_order(c.x, q[1].x, axis.x);
    products_are_in_order(q[0].y, c.y, axis.y);
    products_are_in_order(c.y, q[2].y, axis.y);
    assert(q[0].x == q[3].x && q[1].x == q[2].x && q[0].y == q[1].y && q[2].y == q[3].y);
    let (p0, p1, p2, p3) = (along(q[0], axis), along(q[1], axis), along(q[2], axis), along(q[3], axis));
    let k = along(c, axis);
    if axis.x.raw >= 0 {
        if axis.y.raw >= 0 {
            assert(p0.raw <= k.raw <= p2.raw);
        } else {
            assert(p3.raw <= k.raw <= p1.raw);
        }
    } else {
        if axis.y.raw >= 0 {
            assert(p1.raw <= k.raw <= p3.raw);
        } else {
            assert(p2.raw <= k.raw <= p0.raw);
        }
    }
}

/// Two boxes with a point in common are separated by no axis.
proof fn nothing_separates_what_meets(
    p: Seq<Point<Micro>>,
    q: Seq<Point<Micro>>,
    e: (int, int, int, int),
    f: (int, int, int, int),
    c: Point<Micro>,
    axis: Point<Micro>,
)
    requires
        is_box(p, e.0, e.1, e.2, e.3),
        is_box(q, f.0, f.1, f.2, f.3),
        e.0 <= c.x.raw <= e.2 && f.0 <= c.x.raw <= f.2,
        e.1 <= c.y.raw <= e.3 && f.1 <= c.y.raw <= f.3,
    ensures
        !separates(p, q, axis),
{
    boxes_hold_their_points(p, e.0, e.1, e.2, e.3, c, axis);
    boxes_hold_their_points(q, f.0, f.1, f.2, f.3, c, axis);
}

/// Products with a factor of one at least tell numbers apart.
proof fn large_factors_tell_apart(x: Micro, y: Micro, a: Micro)
    requires
        x.raw < y.raw,
        1_000_000 <= a.raw <= 2_000_000_000_000,
        within(x, 1_000_000_000_000),
        within(y, 1_000_000_000_000),
    ensures
        x.times(a).raw < y.times(a).raw,
{
    let (m, n) = (x.raw * a.raw, y.raw * a.raw);
    assert(m + a.raw <= n) by (nonlinear_arith)
        requires
            x.raw + 1 <= y.raw,
            a.raw >= 0,
            m == x.raw * a.raw,
            n == y.raw * a.raw,
    ;
    assert(x.raw < 0 ==> m <= -1_000_000) by (nonlinear_arith)
        requires
            a.raw >= 1_000_000,
            m == x.raw * a.raw,
    ;
    assert(y.raw >= 0 ==> n >= 0) by (nonlinear_arith)
        requires
            a.raw >= 1_000_000,
            n == y.raw * a.raw,
    ;
    assert(-2_000_000_000_000_000_000_000_000 <= m && n <= 2_000_000_000_000_000_000_000_000)
        by (nonlinear_arith)
        requires
            0 <= a.raw <= 2_000_000_000_000,
            -1_000_000_000_000 <= x.raw,
            y.raw <= 1_000_000_000_000,
            m == x.raw * a.raw,
            n == y.raw * a.raw,
    ;
    assert(quotient_spec(m, 1_000_000) < quotient_spec(n, 1_000_000));
    assert(-2_000_000_000_000_000_000 <= quotient_spec(m, 1_000_000) && quotient_spec(n, 1_000_000)
        <= 2_000_000_000_000_000_000);
}

/// What a number comes to along an axis of the drawing.
proof fn along_an_axis(p: Point<Micro>, a: Micro)
    requires
        within(p.x, 1_000_000_000_000),
        within(p.y, 1_000_000_000_000),
        0 <= a.raw <= 2_000_000_000_000,
    ensures
        along(p, Point { x: a, y: Micro { raw: 0 } }).raw == p.x.times(a).raw,
        along(p, Point { x: Micro { raw: 0 }, y: a }).raw == p.y.times(a).raw,
{
    let nought = Micro { raw: 0 };
    assert(p.x.raw * 0 == 0 && p.y.raw * 0 == 0);
    assert(p.x.times(nought).raw == 0 && p.y.times(nought).raw == 0);
}

/// Two boxes apart from left to right, or from top to bottom, do not overlap.
proof fn what_is_apart_is_separated(
    p: Seq<Point<Micro>>,
    q: Seq<Point<Micro>>,
    e: (int, int, int, int),
    f: (int, int, int, int),
)
    requires
        is_box(p, e.0, e.1, e.2, e.3),
        is_box(q, f.0, f.1, f.2, f.3),
        e.2 - e.0 >= 1_000_000,
        e.2 < f.0 || f.2 < e.0 || e.3 < f.1 || f.3 < e.1,
    ensures
        !convex_overlap_spec(p, q),
{
    let w = p[1].x.minus(p[0].x);
    assert(w.raw == e.2 - e.0);
    let nought = Micro { raw: 0 };
    let (across, down) = (Point { x: w, y: nought }, Point { x: nought, y: w });
    assert(edge_along(p, 0) == across);
    assert(edge_normal(p, 0) == down);
    assert forall|i: int| 0 <= i < 4 implies along(#[trigger] p[i], across).raw == p[i].x.times(
        w,
    ).raw && along(p[i], down).raw == p[i].y.times(w).raw by {
        along_an_axis(p[i], w);
    }
    assert forall|i: int| 0 <= i < 4 implies along(#[trigger] q[i], across).raw == q[i].x.times(
        w,
    ).raw && along(q[i], down).raw == q[i].y.times(w).raw by {
        along_an_axis(q[i], w);
    }
    projections_are(p, across);
    projections_are(q, across);
    projections_are(p, down);
    projections_are(q, down);
    let axis = if e.2 < f.0 || f.2 < e.0 {
        across
    } else {
        down
    };
    assert forall|i: int, j: int| 0 <= i < 4 && 0 <= j < 4 && e.2 < f.0 implies along(
        #[trigger] p[i],
        across,
    ).raw < along(#[trigger] q[j], across).raw by {
        large_factors_tell_apart(p[i].x, q[j].x, w);
    }
    assert forall|i: int, j: int| 0 <= i < 4 && 0 <= j < 4 && f.2 < e.0 implies along(
        #[trigger] q[j],
        across,
    ).raw < along(#[trigger] p[i], across).raw by {
        large_factors_tell_apart(q[j].x, p[i].x, w);
    }
    assert forall|i: int, j: int| 0 <= i < 4 && 0 <= j < 4 && e.3 < f.1 implies along(
        #[trigger] p[i],
        down,
    ).raw < along(#[trigger] q[j], down).raw by {
        large_factors_tell_apart(p[i].y, q[j].y, w);
    }
    assert forall|i: int, j: int| 0 <= i < 4 && 0 <= j < 4 && f.3 < e.1 implies along(
        #[trigger] q[j],
        down,
    ).raw < along(#[trigger] p[i], down).raw by {
        large_factors_tell_apart(q[j].y, p[i].y, w);
    }
    assert(separates(p, q, axis));
    assert(edge_separates(p, q, p, 0));
}

/// A band a unit wide at least touches an upright rectangle just where the two overlap, be it by an
/// edge.
pub proof fn bands_touch_the_rectangles_they_overlap(
    n: NodeModel<Micro>,
    l: Micro,
    t: Micro,
    r: Micro,
    b: Micro,
)
    requires
        n.kind == NodeKind::Rect || n.kind == NodeKind::Image,
        n.rotation.raw == 0,
        within(n.x, 400_000_000_000),
        within(n.y, 400_000_000_000),
        0 <= n.w.raw <= 400_000_000_000,
        0 <= n.h.raw <= 400_000_000_000,
        within(l, 400_000_000_000),
        within(t, 400_000_000_000),
        within(r, 400_000_000_000),
        within(b, 400_000_000_000),
        l.raw + 1_000_000 <= r.raw,
        t.raw <= b.raw,
    ensures
        shape_touches(n, ring(l, t, r, b)) <==> {
            &&& n.x.raw <= r.raw && l.raw <= n.x.raw + n.w.raw
            &&& n.y.raw <= b.raw && t.raw <= n.y.raw + n.h.raw
        },
{
    let p = ring(l, t, r, b);
    assert(band_upright(n, p) =~= p);
    let q = ring(n.x, n.y, n.x.plus(n.w), n.y.plus(n.h));
    let e = (l.raw as int, t.raw as int, r.raw as int, b.raw as int);
    let f = (n.x.raw as int, n.y.raw as int, n.x.raw + n.w.raw, n.y.raw + n.h.raw);
    assert(is_box(p, e.0, e.1, e.2, e.3));
    assert(is_box(q, f.0, f.1, f.2, f.3));
    if e.2 < f.0 || f.2 < e.0 || e.3 < f.1 || f.3 < e.1 {
        what_is_apart_is_separated(p, q, e, f);
    } else {
        let c = Point {
            x: if e.0 <= f.0 {
                n.x
            } else {
                l
            },
            y: if e.1 <= f.1 {
                n.y
            } else {
                t
            },
        };
        assert forall|axis: Point<Micro>| !#[trigger] separates(p, q, axis) by {
            nothing_separates_what_meets(p, q, e, f, c, axis);
        }
    }
}

/// A band with a corner in a rectangle, turned or upright, touches it.
pub proof fn bands_touch_what_their_corners_are_in(
    n: NodeModel<Micro>,
    band: Seq<Point<Micro>>,
    i: int,
    zoom: Micro,
)
    requires
        n.kind == NodeKind::Rect || n.kind == NodeKind::Image,
        within(n.x, 400_000_000_000),
        within(n.y, 400_000_000_000),
        0 <= n.w.raw <= 400_000_000_000,
        0 <= n.h.raw <= 400_000_000_000,
        band.len() == 4,
        0 <= i < 4,
        point_in_shape(n, band[i], zoom),
    ensures
        shape_touches(n, band),
{
    let p = band_upright(n, band);
    let c = p[i];
    assert(c == upright((n.x, n.y, n.w, n.h), n.rotation, band[i]));
    let q = ring(n.x, n.y, n.x.plus(n.w), n.y.plus(n.h));
    let f = (n.x.raw as int, n.y.raw as int, n.x.raw + n.w.raw, n.y.raw + n.h.raw);
    assert(is_box(q, f.0, f.1, f.2, f.3));
    assert forall|axis: Point<Micro>| !#[trigger] separates(p, q, axis) by {
        projections_are(p, axis);
        boxes_hold_their_points(q, f.0, f.1, f.2, f.3, c, axis);
        assert(low_along(p, axis).raw <= along(p[i], axis).raw <= high_along(p, axis).raw);
    }
}

/// The corners of a band on screen are, in the drawing, those of the box that the screen shows there,
/// but for less than one millionth.
pub proof fn bands_cover_what_is_seen(v: Viewport<Micro>, band: (Micro, Micro, Micro, Micro))
    requires
        seeing(v),
        within(band.0, 1_000_000_000_000),
        within(band.1, 1_000_000_000_000),
        0 <= band.2.raw <= 1_000_000_000_000,
        0 <= band.3.raw <= 1_000_000_000_000,
    ensures
        ({
            let q = band_corners(v, band);
            let z = v.zoom.raw as int;
            let (px, py) = (v.pan.x.raw as int, v.pan.y.raw as int);
            &&& q.len() == 4
            &&& -z < q[0].x.raw * z - 1_000_000 * (band.0.raw - px) < z
            &&& -z < q[0].y.raw * z - 1_000_000 * (band.1.raw - py) < z
            &&& -z < q[2].x.raw * z - 1_000_000 * (band.0.raw + band.2.raw - px) < z
            &&& -z < q[2].y.raw * z - 1_000_000 * (band.1.raw + band.3.raw - py) < z
            &&& q[1].x == q[2].x && q[1].y == q[0].y && q[3].x == q[0].x && q[3].y == q[2].y
        }),
{
    let a = (band.0.minus(v.pan.x), band.1.minus(v.pan.y));
    let b = (band.0.plus(band.2).minus(v.pan.x), band.1.plus(band.3).minus(v.pan.y));
    quotient_reads(a.0, v.zoom);
    quotient_reads(a.1, v.zoom);
    quotient_reads(b.0, v.zoom);
    quotient_reads(b.1, v.zoom);
    quotients_by_zoom_are_in_order(a.0, b.0, v.zoom);
    quotients_by_zoom_are_in_order(a.1, b.1, v.zoom);
}

proof fn quotients_by_zoom_are_in_order(x: Micro, y: Micro, z: Micro)
    requires
        x.raw <= y.raw,
        250_000 <= z.raw <= 4_000_000,
        within(x, 10_000_000_000_000),
        within(y, 10_000_000_000_000),
    ensures
        x.over(z).raw <= y.over(z).raw,
{
    quotient_reads(x, z);
    quotient_reads(y, z);
    let d = z.raw as int;
    let (m, n) = (x.raw * 1_000_000, y.raw * 1_000_000);
    if m >= 0 {
        assert(m / d <= n / d) by (nonlinear_arith)
            requires
                m <= n,
                d > 0,
        ;
    } else if n < 0 {
        assert(-n / d <= -m / d) by (nonlinear_arith)
            requires
                m <= n,
                d > 0,
        ;
    }
}

} // verus!
