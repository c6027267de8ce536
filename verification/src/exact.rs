//! Laws that hold exactly where numbers are counted in millionths.
use vstd::prelude::*;
use crate::color::{byte_of, bytes_survive};
use crate::geometry::{
    axis_resized, center, corner_dragged, held_corner, line_dragged, line_stretched, min_size,
    opposite_point, resized, resized_in_proportion, turns_resize, Corner, LineEnd, Point,
};
use crate::images::{initial_frame_spec, placeable};
use crate::micro::{quotient_spec, wrap_spec, Micro};
use crate::rotor::cosines_stay_within_one;
use crate::order::counted;
use crate::round_trip::numbered;
use crate::scalar::{clamped, half, ratio, Scalar};
use crate::viewport::Viewport;

verus! {

/// Whether a number is within a milliard of nought, so that sums of a few stay in range.
pub open spec fn moderate(v: Micro) -> bool {
    -1_000_000_000_000_000 <= v.raw <= 1_000_000_000_000_000
}

pub open spec fn moderate_frame(f: (Micro, Micro, Micro, Micro)) -> bool {
    moderate(f.0) && moderate(f.1) && moderate(f.2) && moderate(f.3)
}

/// Dragging one end of a line leaves the other end exactly where it was.
pub proof fn dragging_one_end_leaves_the_other(
    start: (Micro, Micro, Micro, Micro),
    end: LineEnd,
    dx: Micro,
    dy: Micro,
)
    requires
        moderate_frame(start),
        moderate(dx),
        moderate(dy),
    ensures
        ({
            let f = line_dragged(start, end, dx, dy);
            match end {
                LineEnd::Start => f.0.plus(f.2) == start.0.plus(start.2) && f.1.plus(f.3)
                    == start.1.plus(start.3),
                LineEnd::End => f.0 == start.0 && f.1 == start.1,
            }
        }),
{
}

proof fn axis_holds(at: Micro, extent: Micro, by: Micro, low_edge: bool)
    requires
        moderate(at),
        moderate(extent),
        moderate(by),
    ensures
        ({
            let (p, e) = axis_resized(at, extent, by, low_edge);
            &&& min_size::<Micro>().at_most(e)
            &&& low_edge ==> p.plus(e) == at.plus(extent)
            &&& !low_edge ==> p == at
        }),
{
}

/// Resizing holds the corner across from the dragged one exactly where it was, and never makes
/// a shape smaller than the minimum, nor turns it inside out.
pub proof fn resizing_holds_the_opposite_corner(
    start: (Micro, Micro, Micro, Micro),
    corner: Corner,
    dx: Micro,
    dy: Micro,
)
    requires
        moderate_frame(start),
        moderate(dx),
        moderate(dy),
    ensures
        opposite_point(resized(start, corner, dx, dy), corner) == opposite_point(start, corner),
        min_size::<Micro>().at_most(resized(start, corner, dx, dy).2),
        min_size::<Micro>().at_most(resized(start, corner, dx, dy).3),
{
    axis_holds(start.0, start.2, dx, corner.left());
    axis_holds(start.1, start.3, dy, corner.top());
}

/// Holding shift, too, a drag keeps the corner across from the dragged one exactly where it
/// was, as long as the frame it gives stays in range.
pub proof fn proportional_resizing_holds_the_opposite_corner(
    start: (Micro, Micro, Micro, Micro),
    corner: Corner,
    dx: Micro,
    dy: Micro,
)
    requires
        moderate_frame(start),
        moderate(dx),
        moderate(dy),
        moderate(resized_in_proportion(start, corner, dx, dy).2),
        moderate(resized_in_proportion(start, corner, dx, dy).3),
    ensures
        opposite_point(resized_in_proportion(start, corner, dx, dy), corner) == opposite_point(
            start,
            corner,
        ),
{
    if !(Micro::of_int(0).below(start.2) && Micro::of_int(0).below(start.3)) {
        resizing_holds_the_opposite_corner(start, corner, dx, dy);
    }
}

/// Holding shift, one end of a line moves along the line, and the other end stays exactly
/// where it was, as long as the line it gives stays in range.
pub proof fn stretching_one_end_leaves_the_other(
    start: (Micro, Micro, Micro, Micro),
    end: LineEnd,
    dx: Micro,
    dy: Micro,
)
    requires
        moderate_frame(start),
        moderate(dx),
        moderate(dy),
        moderate(line_stretched(start, end, dx, dy).2),
        moderate(line_stretched(start, end, dx, dy).3),
    ensures
        ({
            let f = line_stretched(start, end, dx, dy);
            match end {
                LineEnd::Start => f.0.plus(f.2) == start.0.plus(start.2) && f.1.plus(f.3)
                    == start.1.plus(start.3),
                LineEnd::End => f.0 == start.0 && f.1 == start.1,
            }
        }),
{
    dragging_one_end_leaves_the_other(start, end, dx, dy);
}

// ---------------------------------------------------------------------------
// Resizing what is drawn turned
// ---------------------------------------------------------------------------

/// Whether a count of millionths is at most `reach`, either way.
pub open spec fn within(v: Micro, reach: int) -> bool {
    -reach <= v.raw <= reach
}

/// A part of a number is no larger than it.
pub proof fn unit_product(v: Micro, u: Micro, reach: int)
    requires
        within(v, reach),
        within(u, 1_000_000),
        0 <= reach <= 100_000_000_000_000_000,
    ensures
        within(v.times(u), reach),
{
    let n = v.raw * u.raw;
    assert(-(reach * 1_000_000) <= n <= reach * 1_000_000) by (nonlinear_arith)
        requires
            n == v.raw * u.raw,
            -reach <= v.raw <= reach,
            -1_000_000 <= u.raw <= 1_000_000,
    ;
    if n >= 0 {
        assert(0 <= n / 1_000_000 <= reach);
    } else {
        assert(0 <= -n / 1_000_000 <= reach);
    }
}

/// Sines and cosines stay between minus one and one.
pub proof fn sines_stay_within_one(v: Micro)
    ensures
        within(v.sine_cosine().0, 1_000_000),
        within(v.sine_cosine().1, 1_000_000),
{
    cosines_stay_within_one(wrap_spec(v.raw as int, 360_000_000));
}

/// A frame shifted as a whole has its held corner shifted alike.
proof fn held_corner_shifts(
    f: (Micro, Micro, Micro, Micro),
    g: (Micro, Micro, Micro, Micro),
    corner: Corner,
    sin: Micro,
    cos: Micro,
    reach: int,
)
    requires
        0 <= reach <= 1_000_000_000_000_000_000,
        within(f.0, reach),
        within(f.1, reach),
        within(g.0, reach),
        within(g.1, reach),
        within(f.2, 10_000_000_000_000_000),
        within(f.3, 10_000_000_000_000_000),
        g.2 == f.2,
        g.3 == f.3,
        within(sin, 1_000_000),
        within(cos, 1_000_000),
    ensures
        held_corner(g, corner, sin, cos).x.raw - held_corner(f, corner, sin, cos).x.raw == g.0.raw
            - f.0.raw,
        held_corner(g, corner, sin, cos).y.raw - held_corner(f, corner, sin, cos).y.raw == g.1.raw
            - f.1.raw,
        within(held_corner(f, corner, sin, cos).x, reach + 50_000_000_000_000_000),
        within(held_corner(f, corner, sin, cos).y, reach + 50_000_000_000_000_000),
{
    assert(within(half(f.2), 10_000_000_000_000_000) && within(half(f.3), 10_000_000_000_000_000));
    let (cf, cg) = (center(f), center(g));
    let (pf, pg) = (opposite_point(f, corner), opposite_point(g, corner));
    let ox = pf.x.minus(cf.x);
    let oy = pf.y.minus(cf.y);
    assert(within(ox, 20_000_000_000_000_000) && within(oy, 20_000_000_000_000_000));
    assert(pg.x.minus(cg.x) == ox);
    assert(pg.y.minus(cg.y) == oy);
    unit_product(ox, cos, 20_000_000_000_000_000);
    unit_product(ox, sin, 20_000_000_000_000_000);
    unit_product(oy, cos, 20_000_000_000_000_000);
    unit_product(oy, sin, 20_000_000_000_000_000);
}

/// Where a resize in range puts a frame is in range.
proof fn resized_in_reach(
    start: (Micro, Micro, Micro, Micro),
    corner: Corner,
    along: Micro,
    across: Micro,
    in_proportion: bool,
)
    requires
        moderate_frame(start),
        within(along, 2_000_000_000_000_000),
        within(across, 2_000_000_000_000_000),
        in_proportion ==> moderate(resized_in_proportion(start, corner, along, across).2),
        in_proportion ==> moderate(resized_in_proportion(start, corner, along, across).3),
    ensures
        ({
            let f = if in_proportion {
                resized_in_proportion(start, corner, along, across)
            } else {
                resized(start, corner, along, across)
            };
            within(f.0, 10_000_000_000_000_000) && within(f.1, 10_000_000_000_000_000)
        }),
{
}

/// A frame put back by as much as its held corner had moved holds that corner.
proof fn put_back_holds(
    start: (Micro, Micro, Micro, Micro),
    f: (Micro, Micro, Micro, Micro),
    corner: Corner,
    sin: Micro,
    cos: Micro,
)
    requires
        moderate_frame(start),
        within(f.0, 10_000_000_000_000_000),
        within(f.1, 10_000_000_000_000_000),
        moderate(f.2),
        moderate(f.3),
        within(sin, 1_000_000),
        within(cos, 1_000_000),
    ensures
        ({
            let was = held_corner(start, corner, sin, cos);
            let now = held_corner(f, corner, sin, cos);
            let r = (f.0.plus(was.x).minus(now.x), f.1.plus(was.y).minus(now.y), f.2, f.3);
            held_corner(r, corner, sin, cos) == was
        }),
{
    held_corner_shifts(start, start, corner, sin, cos, 10_000_000_000_000_000);
    held_corner_shifts(f, f, corner, sin, cos, 10_000_000_000_000_000);
    let was = held_corner(start, corner, sin, cos);
    let now = held_corner(f, corner, sin, cos);
    let r = (f.0.plus(was.x).minus(now.x), f.1.plus(was.y).minus(now.y), f.2, f.3);
    assert(r.0.raw == f.0.raw + was.x.raw - now.x.raw);
    assert(r.1.raw == f.1.raw + was.y.raw - now.y.raw);
    held_corner_shifts(f, r, corner, sin, cos, 200_000_000_000_000_000);
}

/// Resizing a shape that is drawn turned, too, keeps the corner across from the dragged one
/// exactly where it is drawn, with shift or without.
pub proof fn turned_resizing_holds_the_drawn_corner(
    start: (Micro, Micro, Micro, Micro),
    corner: Corner,
    dx: Micro,
    dy: Micro,
    rotation: Micro,
    in_proportion: bool,
)
    requires
        moderate_frame(start),
        moderate(dx),
        moderate(dy),
        turns_resize(rotation),
        moderate(corner_dragged(start, corner, dx, dy, rotation, in_proportion).2),
        moderate(corner_dragged(start, corner, dx, dy, rotation, in_proportion).3),
    ensures
        ({
            let (sin, cos) = rotation.sine_cosine();
            held_corner(
                corner_dragged(start, corner, dx, dy, rotation, in_proportion),
                corner,
                sin,
                cos,
            ) == held_corner(start, corner, sin, cos)
        }),
{
    let (sin, cos) = rotation.sine_cosine();
    sines_stay_within_one(rotation);
    unit_product(dx, cos, 1_000_000_000_000_000);
    unit_product(dy, sin, 1_000_000_000_000_000);
    unit_product(dx.negated(), sin, 1_000_000_000_000_000);
    unit_product(dy, cos, 1_000_000_000_000_000);
    let along = dx.times(cos).plus(dy.times(sin));
    let across = dx.negated().times(sin).plus(dy.times(cos));
    let f = if in_proportion {
        resized_in_proportion(start, corner, along, across)
    } else {
        resized(start, corner, along, across)
    };
    assert(within(along, 2_000_000_000_000_000) && within(across, 2_000_000_000_000_000));
    resized_in_reach(start, corner, along, across, in_proportion);
    put_back_holds(start, f, corner, sin, cos);
}

// ---------------------------------------------------------------------------
// Views and pictures
// ---------------------------------------------------------------------------

/// However a view is zoomed, it stays between a quarter and four to one.
pub proof fn zooms_stay_in_range(v: Viewport<Micro>, target: Micro, anchor: Point<Micro>)
    ensures
        ratio::<Micro>(1, 4).at_most(v.zoomed(target, anchor).zoom),
        v.zoomed(target, anchor).zoom.at_most(Micro::of_int(4)),
{
    assert(ratio::<Micro>(1, 4).raw == 250_000) by {
        assert(quotient_spec(1_000_000_000_000, 4_000_000) == 250_000);
    }
}

proof fn product_of_shares(n: int, k: int, most: int)
    requires
        0 <= n,
        0 <= k,
        n * k <= most * 1_000_000,
        0 <= most,
    ensures
        0 <= n * k / 1_000_000 <= most,
{
    assert(0 <= n * k) by (nonlinear_arith)
        requires
            0 <= n,
            0 <= k,
    ;
}

/// A new picture is never larger than it is, and never takes more than its share of the view.
pub proof fn pictures_fit_and_are_never_enlarged(v: Viewport<Micro>, size: (Micro, Micro))
    requires
        placeable(size),
        Micro::of_int(0).at_most(v.size.0.times(ratio(8, 10)).over(v.zoom)),
        Micro::of_int(0).at_most(v.size.1.times(ratio(8, 10)).over(v.zoom)),
    ensures
        ({
            let f = initial_frame_spec(v, size);
            &&& f.2.at_most(size.0)
            &&& f.3.at_most(size.1)
            &&& f.2.at_most(v.size.0.times(ratio(8, 10)).over(v.zoom))
            &&& f.3.at_most(v.size.1.times(ratio(8, 10)).over(v.zoom))
        }),
{
    let a = v.size.0.times(ratio(8, 10)).over(v.zoom);
    let b = v.size.1.times(ratio(8, 10)).over(v.zoom);
    let scale = a.over(size.0).lesser(b.over(size.1)).lesser(Micro::of_int(1));
    share_fits(a, size.0, scale);
    share_fits(b, size.1, scale);
}

proof fn share_fits(a: Micro, size: Micro, scale: Micro)
    requires
        0 <= a.raw,
        0 < size.raw,
        0 <= scale.raw <= 1_000_000,
        scale.raw <= a.over(size).raw,
    ensures
        size.times(scale).at_most(size),
        size.times(scale).at_most(a),
{
    let n = a.raw * 1_000_000;
    let q = n / size.raw as int;
    assert(q * size.raw <= n) by (nonlinear_arith)
        requires
            q == n / size.raw as int,
            0 < size.raw,
    ;
    assert(scale.raw <= q);
    assert(size.raw * scale.raw <= a.raw * 1_000_000) by (nonlinear_arith)
        requires
            scale.raw <= q,
            q * size.raw <= n,
            n == a.raw * 1_000_000,
            0 < size.raw,
    ;
    assert(size.raw * scale.raw <= size.raw * 1_000_000) by (nonlinear_arith)
        requires
            0 <= scale.raw <= 1_000_000,
            0 < size.raw,
    ;
    product_of_shares(size.raw as int, scale.raw as int, a.raw as int);
    product_of_shares(size.raw as int, scale.raw as int, size.raw as int);
}

/// Counts are told apart, with a half between each and the next.
pub proof fn counts_are_told_apart(n: int)
    requires
        0 <= n < 1_000_000_000_000,
    ensures
        counted::<Micro>(n),
        numbered::<Micro>(n),
{
    assert(ratio::<Micro>(1, 2).raw == 500_000) by {
        assert(quotient_spec(1_000_000_000_000, 2_000_000) == 500_000);
    }
}

/// Every byte survives being a part of a colour.
pub proof fn micro_bytes_survive()
    ensures
        bytes_survive::<Micro>(),
{
    assert forall|b: i64| 0 <= b < 256 implies byte_of(#[trigger] ratio::<Micro>(b, 255)) == b by {
        let q = b * 1_000_000 / 255;
        let v = ratio::<Micro>(b, 255);
        assert(v.raw == q) by {
            assert((b * 1_000_000) * 1_000_000 / 255_000_000 == q);
        }
        let one = Micro::of_int(1);
        assert(clamped(v, Micro::of_int(0), one) == v);
        let t = v.times(Micro::of_int(255));
        assert(t.raw == q * 255) by {
            assert(q * 255_000_000 / 1_000_000 == q * 255);
        }
        assert(q * 255 <= b * 1_000_000 < q * 255 + 255);
        assert((q * 255 + 500_000) / 1_000_000 == b);
    }
}

} // verus!
