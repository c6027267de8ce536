//! What a band touches of an oval, in millionths: it has to come as near to the middle as the oval is
//! wide, once everything is stretched so that the oval is a circle.
use vstd::prelude::*;
use crate::exact::within;
use crate::geometry::{
    center, distance_to_segment, next_corner, point_in_convex_spec, side_before, side_of_edge,
    Point,
};
use crate::grips::size_of;
use crate::hit::{band_upright, edge_within, ring, shape_touches, stretched};
use crate::micro::Micro;
use crate::nearness::{
    apart_from_the_way, beyond, level_distance_back_is, level_distance_is,
    upright_distance_back_is, upright_distance_is,
};
use crate::node::{NodeKind, NodeModel};
use crate::products::{commuted, distributed, mono, product_within, regrouped, square_within};
use crate::scalar::{half, tiny, Scalar};
use crate::sweeps::is_box;
use crate::views::quotient_reads;

verus! {

/// Whether a box is one that distances are told from: a unit wide and high at least, and near by.
pub open spec fn is_near_box(q: Seq<Point<Micro>>, l: int, t: int, r: int, b: int) -> bool {
    &&& is_box(q, l, t, r, b)
    &&& -10_000_000_000 <= l && r <= 10_000_000_000 && 1_000_000 <= r - l <= 10_000_000_000
    &&& -10_000_000_000 <= t && b <= 10_000_000_000 && 1_000_000 <= b - t <= 10_000_000_000
}

/// A cross product with a side of a box.
proof fn side_is(side: Micro, off: Micro)
    requires
        1_000_000 <= side.raw <= 10_000_000_000 || -10_000_000_000 <= side.raw <= -1_000_000,
        within(off, 40_000_000_000),
    ensures
        ({
            let s = side.times(off).raw;
            &&& -400_000_000_000_000 <= s <= 400_000_000_000_000
            &&& side.raw > 0 && off.raw > 0 ==> s >= off.raw
            &&& side.raw > 0 && off.raw < 0 ==> s <= off.raw
            &&& side.raw < 0 && off.raw > 0 ==> s <= -off.raw
            &&& side.raw < 0 && off.raw < 0 ==> s >= -off.raw
            &&& off.raw == 0 ==> s == 0
        }),
{
    let (a, d) = (side.raw as int, off.raw as int);
    product_within(a, d, 10_000_000_000, 40_000_000_000);
    if d > 0 {
        if a > 0 {
            mono(d, 1_000_000, a);
        } else {
            mono(d, a, -1_000_000);
        }
        commuted(a, d);
    } else if d < 0 {
        if a > 0 {
            mono(-d, 1_000_000, a);
        } else {
            mono(-d, a, -1_000_000);
        }
        assert(a * -d == -(a * d)) by (nonlinear_arith);
    } else {
        assert(a * 0 == 0);
    }
}

/// The four cross products of a box with a point.
proof fn sides_are(q: Seq<Point<Micro>>, l: int, t: int, r: int, b: int, c: Point<Micro>)
    requires
        is_near_box(q, l, t, r, b),
        within(c.x, 20_000_000_000),
        within(c.y, 20_000_000_000),
    ensures
        ({
            let (s0, s1) = (side_of_edge(q, 0, c).raw, side_of_edge(q, 1, c).raw);
            let (s2, s3) = (side_of_edge(q, 2, c).raw, side_of_edge(q, 3, c).raw);
            let (x, y) = (c.x.raw as int, c.y.raw as int);
            &&& leans(s0 as int, y - t) && leans(s1 as int, r - x)
            &&& leans(s2 as int, b - y) && leans(s3 as int, x - l)
        }),
{
    let nought = Micro { raw: 0 };
    assert(next_corner(q, 0) == q[1] && next_corner(q, 1) == q[2] && next_corner(q, 2) == q[3]
        && next_corner(q, 3) == q[0]);
    let w = q[1].x.minus(q[0].x);
    let h = q[2].y.minus(q[1].y);
    let w2 = q[3].x.minus(q[2].x);
    let h2 = q[0].y.minus(q[3].y);
    assert(w.raw == r - l && h.raw == b - t && w2.raw == l - r && h2.raw == t - b);
    side_is(w, c.y.minus(q[0].y));
    side_is(h, c.x.minus(q[1].x));
    side_is(w2, c.y.minus(q[2].y));
    side_is(h2, c.x.minus(q[3].x));
    noughts(nought, c.x.minus(q[0].x));
    noughts(nought, c.y.minus(q[1].y));
    noughts(nought, c.x.minus(q[2].x));
    noughts(nought, c.y.minus(q[3].y));
}

proof fn noughts(nought: Micro, v: Micro)
    requires
        nought.raw == 0,
    ensures
        nought.times(v).raw == 0,
{
    assert(0 * v.raw == 0);
}

/// Whether a cross product lies to the side that an offset lies to, and is no smaller.
spec fn leans(s: int, off: int) -> bool {
    &&& off > 0 ==> s >= off
    &&& off < 0 ==> s <= off
    &&& off == 0 ==> s == 0
    &&& -400_000_000_000_000 <= s <= 400_000_000_000_000
}

/// A point in a box is in it.
proof fn boxes_hold_what_is_in_them(
    q: Seq<Point<Micro>>,
    l: int,
    t: int,
    r: int,
    b: int,
    c: Point<Micro>,
)
    requires
        is_near_box(q, l, t, r, b),
        l <= c.x.raw <= r,
        t <= c.y.raw <= b,
    ensures
        point_in_convex_spec(q, c),
{
    sides_are(q, l, t, r, b, c);
    assert forall|i: int| 0 <= i < 4 implies (#[trigger] side_of_edge(q, i, c)).raw >= 0 by {
        if i == 0 {
        } else if i == 1 {
        } else if i == 2 {
        } else {
            assert(i == 3);
        }
    }
    assert forall|i: int|
        0 <= i < 4 && !(#[trigger] side_of_edge(q, i, c)).magnitude().at_most(tiny()) implies !side_before(
        q,
        i,
        c,
    ).times(side_of_edge(q, i, c)).below(Micro::of_int(0)) by {
        reveal_with_fuel(side_before, 5);
        let (x, y) = (side_before(q, i, c), side_of_edge(q, i, c));
        assert(x.raw >= 0);
        mono(y.raw as int, 0, x.raw as int);
    }
    assert(!(side_of_edge(q, 0, c).magnitude().at_most(tiny()) && side_of_edge(
        q,
        2,
        c,
    ).magnitude().at_most(tiny())));
}

/// Two sides lean apart where one of them is large.
proof fn sides_lean_apart(x: Micro, y: Micro)
    requires
        x.raw >= 1_000_000 && y.raw <= -1 || x.raw <= -1_000_000 && y.raw >= 1 || x.raw >= 1 && y.raw
            <= -1_000_000 || x.raw <= -1 && y.raw >= 1_000_000,
    ensures
        x.times(y).raw < 0,
{
    let (a, d) = (x.raw as int, y.raw as int);
    assert(a * d <= -1_000_000) by (nonlinear_arith)
        requires
            a >= 1_000_000 && d <= -1 || a <= -1_000_000 && d >= 1 || a >= 1 && d <= -1_000_000 || a
                <= -1 && d >= 1_000_000,
    ;
}

/// A point a unit beside a box, or above or below it, is not in it.
#[verifier::spinoff_prover]
proof fn boxes_do_not_hold_what_is_beside_them(
    q: Seq<Point<Micro>>,
    l: int,
    t: int,
    r: int,
    b: int,
    c: Point<Micro>,
)
    requires
        is_near_box(q, l, t, r, b),
        within(c.x, 20_000_000_000),
        within(c.y, 20_000_000_000),
        c.x.raw >= r + 1_000_000 || c.x.raw <= l - 1_000_000 || c.y.raw >= b + 1_000_000 || c.y.raw
            <= t - 1_000_000,
    ensures
        !point_in_convex_spec(q, c),
{
    sides_are(q, l, t, r, b, c);
    let (s0, s1) = (side_of_edge(q, 0, c), side_of_edge(q, 1, c));
    let (s2, s3) = (side_of_edge(q, 2, c), side_of_edge(q, 3, c));
    reveal_with_fuel(side_before, 5);
    assert(s0.raw != 0 ==> side_before(q, 1, c) == s0);
    assert(s1.raw != 0 ==> side_before(q, 2, c) == s1);
    assert(s1.raw == 0 && s0.raw != 0 ==> side_before(q, 2, c) == s0);
    assert(s2.raw != 0 ==> side_before(q, 3, c) == s2);
    assert(s2.raw == 0 && s1.raw != 0 ==> side_before(q, 3, c) == s1);
    let i: int = if c.x.raw >= r + 1_000_000 {
        if s2.raw > 0 {
            sides_lean_apart(s1, s2);
            2
        } else if s2.raw < 0 {
            sides_lean_apart(s0, s1);
            1
        } else {
            sides_lean_apart(s1, s3);
            3
        }
    } else if c.x.raw <= l - 1_000_000 {
        if s2.raw > 0 {
            sides_lean_apart(s2, s3);
            3
        } else if s2.raw < 0 {
            sides_lean_apart(s1, s2);
            2
        } else {
            sides_lean_apart(s1, s3);
            3
        }
    } else if c.y.raw >= b + 1_000_000 {
        if s1.raw > 0 {
            sides_lean_apart(s1, s2);
            2
        } else if s1.raw < 0 {
            sides_lean_apart(s0, s1);
            1
        } else {
            sides_lean_apart(s0, s2);
            2
        }
    } else {
        if s1.raw > 0 {
            sides_lean_apart(s0, s1);
            1
        } else if s1.raw < 0 {
            sides_lean_apart(s1, s2);
            2
        } else {
            sides_lean_apart(s0, s2);
            2
        }
    };
    assert(!side_of_edge(q, i, c).magnitude().at_most(tiny()));
    assert(side_before(q, i, c).times(side_of_edge(q, i, c)).below(Micro::of_int(0)));
}

/// How near the edges of a box come to a point.
proof fn edges_come_near(
    q: Seq<Point<Micro>>,
    l: int,
    t: int,
    r: int,
    b: int,
    c: Point<Micro>,
    radius: Micro,
    reach: int,
)
    requires
        is_near_box(q, l, t, r, b),
        within(c.x, 20_000_000_000),
        within(c.y, 20_000_000_000),
        0 <= reach,
    ensures
        ({
            let (gx, gy) = (beyond(c.x.raw - l, r - l), beyond(c.y.raw - t, b - t));
            let near = gx * gx + gy * gy <= reach * reach;
            &&& near && (gx > 0 || gy > 0) && reach + 20_000 <= radius.raw ==> edge_within(
                q,
                c,
                radius,
            )
            &&& !near && reach > radius.raw ==> !edge_within(q, c, radius)
        }),
{
    let (x, y) = (c.x.raw as int, c.y.raw as int);
    let (gx, gy) = (beyond(x - l, r - l), beyond(y - t, b - t));
    level_distance_is(c, q[0], q[1]);
    upright_distance_is(c, q[1], q[2]);
    level_distance_back_is(c, q[2], q[3]);
    upright_distance_back_is(c, q[3], q[0]);
    let d0 = distance_to_segment(c, q[0], q[1]).raw as int;
    let d1 = distance_to_segment(c, q[1], q[2]).raw as int;
    let d2 = distance_to_segment(c, q[2], q[3]).raw as int;
    let d3 = distance_to_segment(c, q[3], q[0]).raw as int;
    apart_from_the_way(x - l, y - t, r - l, d0, reach);
    apart_from_the_way(y - t, x - r, b - t, d1, reach);
    apart_from_the_way(r - x, y - b, r - l, d2, reach);
    apart_from_the_way(b - y, x - l, b - t, d3, reach);
    assert(beyond(r - x, r - l) == gx);
    assert(beyond(b - y, b - t) == gy);
    squares_by_size(y - t, gy);
    squares_by_size(x - r, gx);
    squares_by_size(y - b, gy);
    squares_by_size(x - l, gx);
}

/// What is no smaller has no smaller a square, and what is as large has the same.
proof fn squares_by_size(a: int, g: int)
    requires
        0 <= g <= size_of(a),
    ensures
        g * g <= a * a,
        g == size_of(a) ==> g * g == a * a,
{
    let s = size_of(a);
    square_within(g, s);
    assert(s * s == a * a) by (nonlinear_arith)
        requires
            s == a || s == -a,
    ;
}

/// A height that is stretched about the middle of an oval, in proportion to its extents.
proof fn heights_stretch(cy: Micro, y: Micro, w: Micro, h: Micro)
    requires
        within(cy, 20_000_000_000),
        within(y, 20_000_000_000),
        4_000_000 <= w.raw <= 10_000_000_000,
        4_000_000 <= h.raw <= 10_000_000_000,
    ensures
        ({
            let k = w.over(h);
            let d = y.minus(cy).times(k).raw;
            let e = 1_000_000 * (d * h.raw - (y.raw - cy.raw) * w.raw);
            let slack = (1_000_000 + size_of(y.raw - cy.raw)) * h.raw;
            &&& -slack <= e <= slack
            &&& cy.plus(y.minus(cy).times(k)).raw == cy.raw + d
        }),
{
    let k = w.over(h);
    quotient_reads(w, h);
    let v = y.raw - cy.raw;
    let (p, g, n) = (k.raw as int, h.raw as int, w.raw as int);
    // The factor, but for a millionth.
    assert(-g < p * g - n * 1_000_000 <= 0);
    product_within(v, p, 40_000_000_000, 40_000_000_000_000);
    let m = y.minus(cy);
    assert(m.raw == v);
    assert(p <= 2_500_000_000) by {
        if p > 2_500_000_000 {
            mono(g, 2_500_000_001, p);
            commuted(p, g);
        }
    }
    product_within(v, p, 40_000_000_000, 2_500_000_000);
    let d = m.times(k).raw as int;
    assert(-1_000_000 < 1_000_000 * d - v * p < 1_000_000) by {
        let q = v * p;
        if q >= 0 {
            assert(m.times(k).raw == q / 1_000_000);
        } else {
            assert(m.times(k).raw == -(-q / 1_000_000));
        }
    }
    let e = 1_000_000 * d - v * p;
    product_within(e, g, 1_000_000, g);
    distributed(g, 1_000_000 * d, v * p);
    regrouped(1_000_000, d, g);
    regrouped(v, p, g);
    let f = p * g - n * 1_000_000;
    product_within(v, f, size_of(v), g);
    distributed(v, p * g, n * 1_000_000);
    regrouped(v, n, 1_000_000);
    distributed(g, 1_000_000, size_of(v));
}

/// A band touches an upright oval just where it comes within the oval's half width of its middle,
/// once heights are stretched about the middle in proportion to the oval's extents, so that the oval
/// is a circle; `reach` is any distance on either side of the half width, but for a fiftieth of a
/// unit.
pub proof fn bands_touch_the_ovals_they_come_near(
    n: NodeModel<Micro>,
    l: Micro,
    t: Micro,
    r: Micro,
    b: Micro,
    reach: int,
)
    requires
        n.kind == NodeKind::Oval,
        n.rotation.raw == 0,
        within(n.x, 4_000_000_000),
        within(n.y, 4_000_000_000),
        4_000_000 <= n.w.raw <= 10_000_000_000,
        4_000_000 <= n.h.raw <= 10_000_000_000,
        ({
            let c = center((n.x, n.y, n.w, n.h));
            let q = stretched(ring(l, t, r, b), c.y, n.w.over(n.h));
            is_near_box(
                q,
                l.raw as int,
                q[0].y.raw as int,
                r.raw as int,
                q[2].y.raw as int,
            )
        }),
        within(t, 10_000_000_000),
        within(b, 10_000_000_000),
        0 <= reach,
    ensures
        ({
            let (w, h) = (n.w.raw as int, n.h.raw as int);
            let (cx, cy) = (n.x.raw + w / 2, n.y.raw + h / 2);
            let c = center((n.x, n.y, n.w, n.h));
            let q = stretched(ring(l, t, r, b), c.y, n.w.over(n.h));
            let (t2, b2) = (q[0].y.raw as int, q[2].y.raw as int);
            let (gx, gy) = (beyond(cx - l.raw, r.raw - l.raw), beyond(cy - t2, b2 - t2));
            let near = gx * gx + gy * gy <= reach * reach;
            // The heights, stretched.
            &&& in_step(t2 - cy, t.raw - cy, w, h) && in_step(b2 - cy, b.raw - cy, w, h)
            &&& near && reach + 20_000 <= w / 2 ==> shape_touches(n, ring(l, t, r, b))
            &&& !near && reach > w / 2 ==> !shape_touches(n, ring(l, t, r, b))
        }),
{
    let f = (n.x, n.y, n.w, n.h);
    let c = center(f);
    assert(half(n.w).raw == n.w.raw * 1_000_000 / 2_000_000);
    assert(half(n.h).raw == n.h.raw * 1_000_000 / 2_000_000);
    let p = ring(l, t, r, b);
    assert(band_upright(n, p) =~= p);
    let q = stretched(p, c.y, n.w.over(n.h));
    let (t2, b2) = (q[0].y.raw as int, q[2].y.raw as int);
    heights_stretch(c.y, t, n.w, n.h);
    heights_stretch(c.y, b, n.w, n.h);
    let radius = half(n.w).magnitude();
    assert(radius.raw == n.w.raw as int / 2);
    edges_come_near(q, l.raw as int, t2, r.raw as int, b2, c, radius, reach);
    let (gx, gy) = (beyond(c.x.raw - l.raw, r.raw - l.raw), beyond(c.y.raw - t2, b2 - t2));
    if gx == 0 && gy == 0 {
        boxes_hold_what_is_in_them(q, l.raw as int, t2, r.raw as int, b2, c);
    }
    if gx * gx + gy * gy > reach * reach && reach > radius.raw {
        assert(gx >= 1_000_000 || gy >= 1_000_000) by {
            if gx < 1_000_000 && gy < 1_000_000 {
                square_within(gx, 1_000_000);
                square_within(gy, 1_000_000);
                square_within(2_000_000, reach);
            }
        }
        boxes_do_not_hold_what_is_beside_them(q, l.raw as int, t2, r.raw as int, b2, c);
    }
}

/// Whether a stretched distance is to a distance as the width of an oval is to its height, but for a
/// millionth of it and a millionth of a unit.
pub open spec fn in_step(tall: int, plain: int, w: int, h: int) -> bool {
    let e = 1_000_000 * (tall * h - plain * w);
    let slack = (1_000_000 + size_of(plain)) * h;
    -slack <= e <= slack
}

} // verus!
