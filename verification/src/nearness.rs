//! How near a click has to come to a line, in millionths: within six pixels of it, and of its ends.
use vstd::prelude::*;
use crate::bounds::line_ends;
use crate::exact::within;
use crate::geometry::{distance_to_segment, nearest_on_segment, upright, Point};
use crate::grips::size_of;
use crate::hit::point_in_shape;
use crate::micro::{is_root, quotient_spec, root_spec, Micro};
use crate::node::{NodeKind, NodeModel};
use crate::products::{
    cancelled, commuted, distributed, mono, product_within, regrouped, root_within,
    square_is_positive, square_of_sum, square_within,
};
use crate::scalar::Scalar;
use crate::views::quotient_reads;
use crate::zooms::shares;

verus! {

/// Every number has a whole root.
proof fn roots_are_there(n: int) -> (r: int)
    requires
        n >= 0,
    ensures
        is_root(n, r),
    decreases n,
{
    if n == 0 {
        assert(0int * 0int == 0 && (0int + 1) * (0int + 1) == 1);
        0
    } else {
        let r = roots_are_there(n - 1);
        if (r + 1) * (r + 1) <= n {
            let s = r + 1;
            square_of_sum(s, 1);
            assert(is_root(n, s));
            s
        } else {
            r
        }
    }
}

/// The whole root of a number is one.
proof fn root_is(n: int)
    requires
        n >= 0,
    ensures
        is_root(n, root_spec(n)),
{
    let r = roots_are_there(n);
    assert(is_root(n, r));
}

/// How far along a way of `l` the foot of a point `d` along it is found.
pub open spec fn foot(d: int, l: int) -> int {
    let share = quotient_spec(quotient_spec(d * l, 1_000_000) * 1_000_000, l * l / 1_000_000);
    let t = if share < 0 {
        0
    } else if 1_000_000 < share {
        1_000_000
    } else {
        share
    };
    l * t / 1_000_000
}

/// The foot does not lie beyond the point by more than a millionth.
proof fn foot_is_not_beyond(d: int, l: int, dot: int, square: int, t: int)
    requires
        0 <= d <= l,
        1_000_000 <= l <= 10_000_000_000,
        1_000_000 * dot <= d * l,
        l * l <= 1_000_000 * square + 1_000_000,
        0 <= t <= 1_000_000,
        t * square <= 1_000_000 * dot,
    ensures
        t * l <= 1_000_000 * d + 1_000_000,
{
    mono(t, l * l, 1_000_000 * square + 1_000_000);
    regrouped(t, l, l);
    distributed(t, 1_000_000 * square, 1_000_000);
    commuted(t, square);
    regrouped(1_000_000, square, t);
    commuted(1_000_000 * square, t);
    assert((t * l) * l <= 1_000_000 * (t * square) + 1_000_000 * t);
    assert((t * l) * l <= 1_000_000 * (d * l) + 1_000_000_000_000);
    regrouped(1_000_000, d, l);
    distributed(l, 1_000_000 * d, 1_000_000);
    assert((t * l) * l <= (1_000_000 * d + 1_000_000) * l);
    cancelled(l, t * l, 1_000_000 * d + 1_000_000);
}

/// Nor does it lie before it by much more than a millionth of the way.
proof fn foot_is_not_before(d: int, l: int, dot: int, square: int, t: int)
    requires
        0 <= d <= l,
        1_000_000 <= l <= 10_000_000_000,
        d * l < 1_000_000 * dot + 1_000_000,
        1_000_000 * square <= l * l,
        0 <= t <= 1_000_000,
        1_000_000 * dot < t * square + square,
    ensures
        1_000_000 * d - 1_000_000 - l <= t * l,
{
    distributed(square, t, 1);
    distributed(l, t, 1);
    mono(t + 1, 1_000_000 * square, l * l);
    regrouped(t + 1, l, l);
    commuted(t + 1, square);
    regrouped(1_000_000, square, t + 1);
    commuted(1_000_000 * square, t + 1);
    regrouped(1_000_000, d, l);
    distributed(l, 1_000_000 * d, 1_000_000);
    assert(1_000_000 * (1_000_000 * dot) <= 1_000_000 * (square * (t + 1)));
    assert((1_000_000 * d - 1_000_000) * l <= ((t + 1) * l) * l);
    cancelled(l, 1_000_000 * d - 1_000_000, (t + 1) * l);
}

/// Where the foot of a point lies: at the nearer end of the way, or by the point.
#[verifier::spinoff_prover]
proof fn foot_is(d: int, l: int)
    requires
        -40_000_000_000 <= d <= 40_000_000_000,
        1_000_000 <= l <= 10_000_000_000,
    ensures
        d <= 0 ==> foot(d, l) == 0,
        d >= l ==> foot(d, l) == l,
        0 <= d <= l ==> -10_003 <= foot(d, l) - d <= 1,
        0 <= foot(d, l) <= l,
{
    let square = l * l / 1_000_000;
    let dot = quotient_spec(d * l, 1_000_000);
    product_within(d, l, 40_000_000_000, 10_000_000_000);
    mono(l, 1_000_000, l);
    shares(l * l, 1_000_000);
    assert(square >= 1_000_000);
    if d <= 0 {
        mono(l, d, 0);
        assert(dot <= 0);
        if dot < 0 {
            shares(-dot * 1_000_000, square);
        } else {
            shares(0, square);
        }
        assert(l * 0 == 0);
    } else {
        mono(l, 0, d);
        shares(d * l, 1_000_000);
        assert(dot == d * l / 1_000_000);
        let share = dot * 1_000_000 / square;
        shares(dot * 1_000_000, square);
        if d >= l {
            mono(l, l, d);
            assert(dot >= square);
            if share < 1_000_000 {
                mono(square, share + 1, 1_000_000);
                distributed(square, share, 1);
            }
            assert(l * 1_000_000 / 1_000_000 == l);
        } else {
            let t = if 1_000_000 < share {
                1_000_000
            } else {
                share
            };
            mono(square, t, share);
            foot_is_not_beyond(d, l, dot, square, t);
            if t == share {
                foot_is_not_before(d, l, dot, square, t);
            }
            commuted(t, l);
            mono(l, t, 1_000_000);
            mono(l, 0, t);
        }
    }
}

/// How far a point is from a way along one axis: from its nearer end, or from the way itself.
pub proof fn apart_from_the_way(d: int, across: int, l: int, r: int, most: int)
    requires
        -40_000_000_000 <= d <= 40_000_000_000,
        1_000_000 <= l <= 10_000_000_000,
        0 <= most,
        ({
            let e = d - foot(d, l);
            is_root(e * e + across * across, r)
        }),
    ensures
        ({
            let g = beyond(d, l);
            &&& g * g + across * across <= most * most ==> r <= most + 10_003
            &&& g * g + across * across > most * most ==> r >= most
        }),
{
    let e = d - foot(d, l);
    let g = beyond(d, l);
    foot_is(d, l);
    square_is_positive(e);
    square_is_positive(across);
    if 0 <= d <= l {
        assert(g == 0);
        if across * across <= most * most {
            root_within(across, most);
            square_within(e, 10_003);
            distributed(most + 10_003, most, 10_003);
            distributed(most, most, 10_003);
            assert(r * r <= (most + 10_003) * (most + 10_003));
            root_within(r, most + 10_003);
        } else if r < most {
            square_within(r + 1, most);
        }
    } else {
        assert(e == g || e == -g);
        assert(-g * -g == g * g) by (nonlinear_arith);
        assert(e * e == g * g);
        if g * g + across * across <= most * most {
            root_within(r, most);
        } else if r < most {
            square_within(r + 1, most);
        }
    }
}

/// How far a point `d` along a way of `l` lies beyond the nearer of its ends.
pub open spec fn beyond(d: int, l: int) -> int {
    if d < 0 {
        -d
    } else if d > l {
        d - l
    } else {
        0
    }
}

/// What is found on a level or an upright way is found along it.
pub proof fn level_distance_is(p: Point<Micro>, a: Point<Micro>, b: Point<Micro>)
    requires
        within(a.x, 10_000_000_000),
        within(a.y, 10_000_000_000),
        within(p.x, 20_000_000_000),
        within(p.y, 20_000_000_000),
        b.y == a.y,
        1_000_000 <= b.x.raw - a.x.raw <= 10_000_000_000,
    ensures
        ({
            let (d, l) = (p.x.raw - a.x.raw, b.x.raw - a.x.raw);
            let e = d - foot(d, l);
            let w = p.y.raw - a.y.raw;
            is_root(e * e + w * w, distance_to_segment(p, a, b).raw as int)
        }),
{
    let (d, l) = (p.x.raw - a.x.raw, b.x.raw - a.x.raw);
    let (dx, vx) = (p.x.minus(a.x), b.x.minus(a.x));
    let (dy, vy) = (p.y.minus(a.y), b.y.minus(a.y));
    assert(dx.raw == d && vx.raw == l && vy.raw == 0);
    shares_are_in_reach(d, l);
    let w = p.y.raw - a.y.raw;
    assert(dy.raw * 0 == 0 && 0 * 0 == 0);
    assert(dy.times(vy).raw == 0 && vy.times(vy).raw == 0);
    assert(vx.times(vx).raw == l * l / 1_000_000);
    assert(dx.times(vx).raw == quotient_spec(d * l, 1_000_000));
    let t = nearest_on_segment(p, a, b);
    assert(vx.times(t).raw == foot(d, l));
    assert(0 * t.raw == 0);
    assert(vy.times(t).raw == 0);
    foot_is(d, l);
    let e = d - foot(d, l);
    assert(p.x.minus(a.x.plus(vx.times(t))).raw == e);
    assert(p.y.minus(a.y.plus(vy.times(t))).raw == w);
    roots_are_in_reach(e, w);
}

pub proof fn upright_distance_is(p: Point<Micro>, a: Point<Micro>, b: Point<Micro>)
    requires
        within(a.x, 10_000_000_000),
        within(a.y, 10_000_000_000),
        within(p.x, 20_000_000_000),
        within(p.y, 20_000_000_000),
        b.x == a.x,
        1_000_000 <= b.y.raw - a.y.raw <= 10_000_000_000,
    ensures
        ({
            let (d, l) = (p.y.raw - a.y.raw, b.y.raw - a.y.raw);
            let e = d - foot(d, l);
            let w = p.x.raw - a.x.raw;
            is_root(e * e + w * w, distance_to_segment(p, a, b).raw as int)
        }),
{
    let (d, l) = (p.y.raw - a.y.raw, b.y.raw - a.y.raw);
    let (dx, vx) = (p.x.minus(a.x), b.x.minus(a.x));
    let (dy, vy) = (p.y.minus(a.y), b.y.minus(a.y));
    assert(dy.raw == d && vy.raw == l && vx.raw == 0);
    shares_are_in_reach(d, l);
    let w = p.x.raw - a.x.raw;
    assert(dx.raw * 0 == 0 && 0 * 0 == 0);
    assert(dx.times(vx).raw == 0 && vx.times(vx).raw == 0);
    assert(vy.times(vy).raw == l * l / 1_000_000);
    assert(dy.times(vy).raw == quotient_spec(d * l, 1_000_000));
    let t = nearest_on_segment(p, a, b);
    assert(vy.times(t).raw == foot(d, l));
    assert(0 * t.raw == 0);
    assert(vx.times(t).raw == 0);
    foot_is(d, l);
    let e = d - foot(d, l);
    assert(p.y.minus(a.y.plus(vy.times(t))).raw == e);
    assert(p.x.minus(a.x.plus(vx.times(t))).raw == w);
    roots_are_in_reach(e, w);
    roots_are_in_reach(w, e);
}

/// So is what is found on a way that runs back.
pub proof fn level_distance_back_is(p: Point<Micro>, a: Point<Micro>, b: Point<Micro>)
    requires
        within(a.x, 10_000_000_000),
        within(a.y, 10_000_000_000),
        within(p.x, 20_000_000_000),
        within(p.y, 20_000_000_000),
        b.y == a.y,
        1_000_000 <= a.x.raw - b.x.raw <= 10_000_000_000,
    ensures
        ({
            let (d, l) = (a.x.raw - p.x.raw, a.x.raw - b.x.raw);
            let e = d - foot(d, l);
            let w = p.y.raw - a.y.raw;
            is_root(e * e + w * w, distance_to_segment(p, a, b).raw as int)
        }),
{
    let (d, l) = (a.x.raw - p.x.raw, a.x.raw - b.x.raw);
    let (dx, vx) = (p.x.minus(a.x), b.x.minus(a.x));
    let (dy, vy) = (p.y.minus(a.y), b.y.minus(a.y));
    assert(dx.raw == -d && vx.raw == -l && vy.raw == 0);
    back_and_back(d, l);
    shares_are_in_reach(d, l);
    let w = p.y.raw - a.y.raw;
    assert(dy.raw * 0 == 0 && 0 * 0 == 0);
    assert(dy.times(vy).raw == 0 && vy.times(vy).raw == 0);
    assert(vx.times(vx).raw == l * l / 1_000_000);
    assert(dx.times(vx).raw == quotient_spec(d * l, 1_000_000));
    let t = nearest_on_segment(p, a, b);
    back_and_forth(l, t.raw as int);
    assert(vx.times(t).raw == -foot(d, l));
    assert(0 * t.raw == 0);
    assert(vy.times(t).raw == 0);
    foot_is(d, l);
    let e = d - foot(d, l);
    assert(p.x.minus(a.x.plus(vx.times(t))).raw == -e);
    back_and_back(e, e);
    assert(p.y.minus(a.y.plus(vy.times(t))).raw == w);
    roots_are_in_reach(e, w);
}

pub proof fn upright_distance_back_is(p: Point<Micro>, a: Point<Micro>, b: Point<Micro>)
    requires
        within(a.x, 10_000_000_000),
        within(a.y, 10_000_000_000),
        within(p.x, 20_000_000_000),
        within(p.y, 20_000_000_000),
        b.x == a.x,
        1_000_000 <= a.y.raw - b.y.raw <= 10_000_000_000,
    ensures
        ({
            let (d, l) = (a.y.raw - p.y.raw, a.y.raw - b.y.raw);
            let e = d - foot(d, l);
            let w = p.x.raw - a.x.raw;
            is_root(e * e + w * w, distance_to_segment(p, a, b).raw as int)
        }),
{
    let (d, l) = (a.y.raw - p.y.raw, a.y.raw - b.y.raw);
    let (dx, vx) = (p.x.minus(a.x), b.x.minus(a.x));
    let (dy, vy) = (p.y.minus(a.y), b.y.minus(a.y));
    assert(dy.raw == -d && vy.raw == -l && vx.raw == 0);
    back_and_back(d, l);
    shares_are_in_reach(d, l);
    let w = p.x.raw - a.x.raw;
    assert(dx.raw * 0 == 0 && 0 * 0 == 0);
    assert(dx.times(vx).raw == 0 && vx.times(vx).raw == 0);
    assert(vy.times(vy).raw == l * l / 1_000_000);
    assert(dy.times(vy).raw == quotient_spec(d * l, 1_000_000));
    let t = nearest_on_segment(p, a, b);
    back_and_forth(l, t.raw as int);
    assert(vy.times(t).raw == -foot(d, l));
    assert(0 * t.raw == 0);
    assert(vx.times(t).raw == 0);
    foot_is(d, l);
    let e = d - foot(d, l);
    assert(p.y.minus(a.y.plus(vy.times(t))).raw == -e);
    back_and_back(e, e);
    assert(p.x.minus(a.x.plus(vx.times(t))).raw == w);
    roots_are_in_reach(e, w);
    roots_are_in_reach(w, e);
}

proof fn back_and_back(d: int, l: int)
    ensures
        -d * -l == d * l,
        -l * -l == l * l,
{
    assert(-d * -l == d * l) by (nonlinear_arith);
    assert(-l * -l == l * l) by (nonlinear_arith);
}

proof fn back_and_forth(l: int, t: int)
    ensures
        -l * t == -(l * t),
{
    assert(-l * t == -(l * t)) by (nonlinear_arith);
}

proof fn shares_are_in_reach(d: int, l: int)
    requires
        -40_000_000_000 <= d <= 40_000_000_000,
        1_000_000 <= l <= 10_000_000_000,
    ensures
        -400_000_000_000_000_000_000 <= d * l <= 400_000_000_000_000_000_000,
        1_000_000_000_000 <= l * l <= 100_000_000_000_000_000_000,
        ({
            let dot = quotient_spec(d * l, 1_000_000);
            let share = quotient_spec(dot * 1_000_000, l * l / 1_000_000);
            &&& -400_000_000_000_000 <= dot <= 400_000_000_000_000
            &&& -400_000_000_000_000 <= share <= 400_000_000_000_000
            &&& forall|t: int|
                0 <= t <= 1_000_000 ==> 0 <= #[trigger] (l * t) <= 10_000_000_000_000_000
        }),
{
    product_within(d, l, 40_000_000_000, 10_000_000_000);
    square_within(l, 10_000_000_000);
    mono(l, 1_000_000, l);
    let square = l * l / 1_000_000;
    let dot = quotient_spec(d * l, 1_000_000);
    let n = size_of(dot * 1_000_000);
    shares(n, square);
    mono(n / square, 1_000_000, square);
    assert forall|t: int| 0 <= t <= 1_000_000 implies 0 <= #[trigger] (l * t)
        <= 10_000_000_000_000_000 by {
        product_within(l, t, 10_000_000_000, 1_000_000);
        mono(l, 0, t);
    }
}

proof fn roots_are_in_reach(e: int, w: int)
    requires
        -60_000_000_000 <= e <= 60_000_000_000,
        -60_000_000_000 <= w <= 60_000_000_000,
    ensures
        is_root(e * e + w * w, root_spec(e * e + w * w)),
        root_spec(e * e + w * w) <= 120_000_000_000,
{
    square_within(e, 60_000_000_000);
    square_within(w, 60_000_000_000);
    root_is(e * e + w * w);
    root_within(root_spec(e * e + w * w), 120_000_000_000);
}

/// Whether a line is a unit long at least, and near by.
pub open spec fn ordinary_line(n: NodeModel<Micro>) -> bool {
    &&& n.kind == NodeKind::Line
    &&& n.rotation.raw == 0
    &&& within(n.x, 10_000_000_000)
    &&& within(n.y, 10_000_000_000)
}

/// A level line is hit within six pixels of it, and beyond its ends within six pixels of those; the
/// screen shows `zoom` millionths of a pixel for each millionth.
pub proof fn level_lines_are_hit_within_six_pixels(
    n: NodeModel<Micro>,
    p: Point<Micro>,
    zoom: Micro,
    reach: int,
)
    requires
        ordinary_line(n),
        n.h.raw == 0,
        1_000_000 <= n.w.raw <= 10_000_000_000,
        within(p.x, 20_000_000_000),
        within(p.y, 20_000_000_000),
        250_000 <= zoom.raw <= 4_000_000,
        0 <= reach,
    ensures
        ({
            let g = beyond(p.x.raw - n.x.raw, n.w.raw as int);
            let w = p.y.raw - n.y.raw;
            let near = g * g + w * w <= reach * reach;
            &&& near && (reach + 20_000) * zoom.raw <= 6_000_000_000_000 ==> point_in_shape(
                n,
                p,
                zoom,
            )
            &&& !near && reach * zoom.raw > 6_000_000_000_000 ==> !point_in_shape(n, p, zoom)
        }),
{
    let (a, b) = line_ends(n);
    assert(upright((n.x, n.y, n.w, n.h), n.rotation, p) == p);
    level_distance_is(p, a, b);
    let r = distance_to_segment(p, a, b).raw as int;
    apart_from_the_way(p.x.raw - n.x.raw, p.y.raw - n.y.raw, n.w.raw as int, r, reach);
    reaches_six_pixels(r, reach, zoom);
}

/// So is an upright one.
pub proof fn upright_lines_are_hit_within_six_pixels(
    n: NodeModel<Micro>,
    p: Point<Micro>,
    zoom: Micro,
    reach: int,
)
    requires
        ordinary_line(n),
        n.w.raw == 0,
        1_000_000 <= n.h.raw <= 10_000_000_000,
        within(p.x, 20_000_000_000),
        within(p.y, 20_000_000_000),
        250_000 <= zoom.raw <= 4_000_000,
        0 <= reach,
    ensures
        ({
            let g = beyond(p.y.raw - n.y.raw, n.h.raw as int);
            let w = p.x.raw - n.x.raw;
            let near = g * g + w * w <= reach * reach;
            &&& near && (reach + 20_000) * zoom.raw <= 6_000_000_000_000 ==> point_in_shape(
                n,
                p,
                zoom,
            )
            &&& !near && reach * zoom.raw > 6_000_000_000_000 ==> !point_in_shape(n, p, zoom)
        }),
{
    let (a, b) = line_ends(n);
    assert(upright((n.x, n.y, n.w, n.h), n.rotation, p) == p);
    upright_distance_is(p, a, b);
    let r = distance_to_segment(p, a, b).raw as int;
    apart_from_the_way(p.y.raw - n.y.raw, p.x.raw - n.x.raw, n.h.raw as int, r, reach);
    reaches_six_pixels(r, reach, zoom);
}

/// What six pixels are in the drawing.
proof fn reaches_six_pixels(r: int, reach: int, zoom: Micro)
    requires
        250_000 <= zoom.raw <= 4_000_000,
        0 <= reach,
    ensures
        ({
            let most = Micro::of_int(6).over(zoom).raw;
            &&& r <= reach + 10_003 && (reach + 20_000) * zoom.raw <= 6_000_000_000_000 ==> r <= most
            &&& r >= reach && reach * zoom.raw > 6_000_000_000_000 ==> r > most
        }),
{
    let six = Micro::of_int(6);
    assert(six.raw == 6_000_000);
    quotient_reads(six, zoom);
    let most = six.over(zoom).raw as int;
    let z = zoom.raw as int;
    distributed(z, reach, 20_000);
    if r <= reach + 10_003 && (reach + 20_000) * z <= 6_000_000_000_000 && r > most {
        mono(z, most + 1, reach + 20_000);
        mono(z, most + 1, reach + 10_003);
        distributed(z, most, 1);
        distributed(z, reach, 10_003);
    }
    if r >= reach && reach * z > 6_000_000_000_000 && r <= most {
        mono(z, reach, most);
    }
}

/// Whether a way is, but for a millionth, what is left of another once the share `t`, in millionths,
/// of an extent is taken from it.
pub open spec fn left_over(rest: int, way: int, extent: int, t: int) -> bool {
    -1_000_000 < 1_000_000 * rest - (1_000_000 * way - extent * t) < 1_000_000
}

/// However a line slants, a click that hits it is within six pixels of some point of it, between its
/// ends.
pub proof fn hits_are_near_some_point_of_the_line(
    n: NodeModel<Micro>,
    p: Point<Micro>,
    zoom: Micro,
    reach: int,
)
    requires
        ordinary_line(n),
        within(n.w, 10_000_000_000),
        within(n.h, 10_000_000_000),
        within(p.x, 20_000_000_000),
        within(p.y, 20_000_000_000),
        250_000 <= zoom.raw <= 4_000_000,
        point_in_shape(n, p, zoom),
        0 <= reach,
        reach * zoom.raw > 6_000_000_000_000,
    ensures
        exists|t: int, ex: int, ey: int|
            {
                &&& 0 <= t <= 1_000_000
                &&& #[trigger] left_over(ex, p.x.raw - n.x.raw, n.w.raw as int, t)
                &&& #[trigger] left_over(ey, p.y.raw - n.y.raw, n.h.raw as int, t)
                &&& ex * ex + ey * ey <= reach * reach
            },
{
    let (a, b) = line_ends(n);
    assert(upright((n.x, n.y, n.w, n.h), n.rotation, p) == p);
    let t = nearest_on_segment(p, a, b);
    assert(Micro::of_int(0).raw == 0 && Micro::of_int(1).raw == 1_000_000);
    assert(0 <= t.raw <= 1_000_000);
    let (vx, vy) = (b.x.minus(a.x), b.y.minus(a.y));
    assert(vx.raw == n.w.raw && vy.raw == n.h.raw);
    share_is_within(vx, t);
    share_is_within(vy, t);
    let ex = p.x.minus(a.x.plus(vx.times(t))).raw as int;
    let ey = p.y.minus(a.y.plus(vy.times(t))).raw as int;
    assert(ex == p.x.raw - n.x.raw - vx.times(t).raw);
    assert(ey == p.y.raw - n.y.raw - vy.times(t).raw);
    roots_are_in_reach(ex, ey);
    let r = distance_to_segment(p, a, b).raw as int;
    assert(is_root(ex * ex + ey * ey, r));
    let six = Micro::of_int(6);
    assert(six.raw == 6_000_000);
    quotient_reads(six, zoom);
    let most = six.over(zoom).raw as int;
    let z = zoom.raw as int;
    assert(r + 1 <= reach) by {
        if r >= reach {
            mono(z, reach, most);
        }
    }
    square_within(r + 1, reach);
    assert(left_over(ex, p.x.raw - n.x.raw, n.w.raw as int, t.raw as int));
    assert(left_over(ey, p.y.raw - n.y.raw, n.h.raw as int, t.raw as int));
}

/// A share of an extent is no larger than it, and strictly what it is but for a millionth.
proof fn share_is_within(v: Micro, t: Micro)
    requires
        within(v, 10_000_000_000),
        0 <= t.raw <= 1_000_000,
    ensures
        within(v.times(t), 10_000_000_000),
        -1_000_000 < 1_000_000 * v.times(t).raw - v.raw * t.raw < 1_000_000,
{
    let n = v.raw * t.raw;
    product_within(v.raw as int, t.raw as int, 10_000_000_000, 1_000_000);
    if n >= 0 {
        assert(v.times(t).raw == n / 1_000_000);
    } else {
        assert(v.times(t).raw == -(-n / 1_000_000));
    }
}

/// However a line slants, it is hit at both its ends.
pub proof fn lines_are_hit_at_their_ends(n: NodeModel<Micro>, p: Point<Micro>, zoom: Micro)
    requires
        ordinary_line(n),
        within(n.w, 10_000_000_000),
        within(n.h, 10_000_000_000),
        250_000 <= zoom.raw <= 4_000_000,
        (p.x.raw == n.x.raw && p.y.raw == n.y.raw) || (p.x.raw == n.x.raw + n.w.raw && p.y.raw
            == n.y.raw + n.h.raw),
    ensures
        point_in_shape(n, p, zoom),
{
    let (a, b) = line_ends(n);
    assert(upright((n.x, n.y, n.w, n.h), n.rotation, p) == p);
    let (vx, vy) = (b.x.minus(a.x), b.y.minus(a.y));
    let (dx, dy) = (p.x.minus(a.x), p.y.minus(a.y));
    assert(vx.raw == n.w.raw && vy.raw == n.h.raw);
    let len2 = vx.times(vx).plus(vy.times(vy));
    let t = nearest_on_segment(p, a, b);
    let (zero, one) = (Micro::of_int(0), Micro::of_int(1));
    assert(zero.raw == 0 && one.raw == 1_000_000);
    square_within(vx.raw as int, 10_000_000_000);
    square_within(vy.raw as int, 10_000_000_000);
    assert(vx.times(vx).raw == vx.raw * vx.raw / 1_000_000);
    assert(vy.times(vy).raw == vy.raw * vy.raw / 1_000_000);
    let l = len2.raw as int;
    assert(l == vx.times(vx).raw + vy.times(vy).raw);
    if p.x.raw == n.x.raw && p.y.raw == n.y.raw {
        assert(0 * vx.raw == 0 && 0 * vy.raw == 0);
        assert(dx.times(vx).raw == 0 && dy.times(vy).raw == 0);
        if l > 0 {
            shares(0, l);
        }
        assert(t.raw == 0);
        assert(vx.raw * 0 == 0 && vy.raw * 0 == 0);
        assert(vx.times(t).raw == 0 && vy.times(t).raw == 0);
        assert(0int * 0int == 0);
        roots_are_in_reach(0, 0);
        root_within(root_spec(0), 0);
    } else {
        assert(dx == vx && dy == vy);
        if l > 0 {
            shares(l * 1_000_000, l);
            let k = l * 1_000_000 / l;
            if k < 1_000_000 {
                mono(l, k + 1, 1_000_000);
                distributed(l, k, 1);
            } else if k > 1_000_000 {
                mono(l, 1_000_001, k);
            }
            assert(k == 1_000_000);
            assert(t.raw == 1_000_000);
            share_is_within(vx, t);
            share_is_within(vy, t);
            assert(vx.times(t) == vx && vy.times(t) == vy);
            assert(0int * 0int == 0);
            roots_are_in_reach(0, 0);
            root_within(root_spec(0), 0);
        } else {
            assert(t.raw == 0);
            assert(vx.raw * 0 == 0 && vy.raw * 0 == 0);
            assert(vx.times(t).raw == 0 && vy.times(t).raw == 0);
            let (w, h) = (vx.raw as int, vy.raw as int);
            roots_are_in_reach(w, h);
            let r = root_spec(w * w + h * h);
            root_within(r, 2_000);
        }
    }
    let six = Micro::of_int(6);
    assert(six.raw == 6_000_000);
    quotient_reads(six, zoom);
    let most = six.over(zoom).raw as int;
    assert(most >= 2_000) by {
        if most < 2_000 {
            mono(zoom.raw as int, most + 1, 2_000);
            distributed(zoom.raw as int, most, 1);
        }
    }
}

} // verus!
