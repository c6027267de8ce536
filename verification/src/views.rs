//! What a view is for, in millionths: the screen shows the drawing at a zoom and a pan, and what is
//! placed comes to stand in the middle of what is seen.
use vstd::prelude::*;
use crate::draw::view_map;
use crate::exact::within;
use crate::geometry::Point;
use crate::images::initial_frame_spec;
use crate::micro::{quotient_spec, Micro};
use crate::millionths::half_reads;
use crate::node::{NodeKind, NodeModel};
use crate::ops::new_shape;
use crate::products::{commuted, distributed, mono, product_within, regrouped};
use crate::scalar::{half, ratio, Scalar};
use crate::viewport::{centered_at, Viewport};
use crate::zooms::shares;

verus! {

/// Whether a view is one that a canvas can have: between a quarter and four to one, and not too
/// far from the origin.
pub open spec fn seeing(v: Viewport<Micro>) -> bool {
    &&& 250_000 <= v.zoom.raw <= 4_000_000
    &&& within(v.pan.x, 1_000_000_000_000)
    &&& within(v.pan.y, 1_000_000_000_000)
    &&& 0 <= v.size.0.raw <= 1_000_000_000_000
    &&& 0 <= v.size.1.raw <= 1_000_000_000_000
}

/// A quotient, but for less than one millionth.
pub proof fn quotient_reads(v: Micro, w: Micro)
    requires
        within(v, 10_000_000_000_000),
        250_000 <= w.raw <= 10_000_000_000_000,
    ensures
        -w.raw < v.over(w).raw * w.raw - v.raw * 1_000_000 < w.raw,
        v.raw >= 0 ==> v.over(w).raw >= 0 && v.over(w).raw * w.raw <= v.raw * 1_000_000,
        v.raw <= 0 ==> v.over(w).raw <= 0,
        within(v.over(w), 40_000_000_000_000),
{
    let d = w.raw as int;
    let n = v.raw * 1_000_000;
    let a = if n >= 0 {
        n
    } else {
        -n
    };
    shares(a, d);
    let m = a / d;
    assert(m <= 40_000_000_000_000) by {
        if m > 40_000_000_000_000 {
            mono(d, 40_000_000_000_001, m);
            commuted(d, m);
        }
    }
    if n >= 0 {
        assert(v.over(w).raw == m);
    } else {
        assert(v.over(w).raw == -m);
        distributed(d, 0, m);
    }
}

/// A product, but for less than one millionth.
pub proof fn product_by_zoom(v: Micro, z: Micro)
    requires
        within(v, 1_000_000_000_000),
        0 <= z.raw <= 4_000_000,
    ensures
        -1_000_000 < 1_000_000 * v.times(z).raw - v.raw * z.raw < 1_000_000,
        within(v.times(z), 4_000_000_000_000),
{
    let n = v.raw * z.raw;
    product_within(v.raw as int, z.raw as int, 1_000_000_000_000, 4_000_000);
    if n >= 0 {
        assert(v.times(z).raw == n / 1_000_000);
    } else {
        assert(v.times(z).raw == -(-n / 1_000_000));
    }
}

/// The screen shows the drawing enlarged by the zoom and moved by the pan; and where a point of the
/// screen is in the drawing is the other way round.
pub proof fn screens_show_the_drawing(v: Viewport<Micro>, p: Point<Micro>)
    requires
        seeing(v),
        within(p.x, 1_000_000_000_000),
        within(p.y, 1_000_000_000_000),
    ensures
        ({
            let (q, m, z) = (v.to_screen(p), v.to_model(p), v.zoom.raw as int);
            // To the screen.
            &&& -1_000_000 < 1_000_000 * (q.x.raw - v.pan.x.raw) - p.x.raw * z < 1_000_000
            &&& -1_000_000 < 1_000_000 * (q.y.raw - v.pan.y.raw) - p.y.raw * z < 1_000_000
            // From the screen.
            &&& -z < m.x.raw * z - 1_000_000 * (p.x.raw - v.pan.x.raw) < z
            &&& -z < m.y.raw * z - 1_000_000 * (p.y.raw - v.pan.y.raw) < z
        }),
{
    product_by_zoom(p.x, v.zoom);
    product_by_zoom(p.y, v.zoom);
    quotient_reads(p.x.minus(v.pan.x), v.zoom);
    quotient_reads(p.y.minus(v.pan.y), v.zoom);
}

/// A point of the drawing is found again from where the screen shows it.
pub proof fn what_is_shown_is_found(v: Viewport<Micro>, p: Point<Micro>)
    requires
        seeing(v),
        within(p.x, 1_000_000_000_000),
        within(p.y, 1_000_000_000_000),
    ensures
        ({
            let m = v.to_model(v.to_screen(p));
            -5 <= m.x.raw - p.x.raw <= 5 && -5 <= m.y.raw - p.y.raw <= 5
        }),
{
    let q = v.to_screen(p);
    product_by_zoom(p.x, v.zoom);
    product_by_zoom(p.y, v.zoom);
    quotient_reads(q.x.minus(v.pan.x), v.zoom);
    quotient_reads(q.y.minus(v.pan.y), v.zoom);
    let m = v.to_model(q);
    let z = v.zoom.raw as int;
    found(m.x.raw as int, p.x.raw as int, z);
    found(m.y.raw as int, p.y.raw as int, z);
}

proof fn found(m: int, p: int, z: int)
    requires
        250_000 <= z,
        -(z + 1_000_000) < m * z - p * z < z + 1_000_000,
    ensures
        -5 <= m - p <= 5,
{
    distributed(z, m, p);
    if m - p > 5 {
        mono(z, 6, m - p);
        commuted(z, m - p);
    }
    if m - p < -5 {
        mono(z, m - p, -6);
        commuted(z, m - p);
    }
}

/// Moving the drawing under the canvas moves everything on screen alike, by just as much.
pub proof fn panning_moves_everything_alike(v: Viewport<Micro>, p: Point<Micro>, dx: Micro, dy: Micro)
    requires
        seeing(v),
        within(p.x, 1_000_000_000_000),
        within(p.y, 1_000_000_000_000),
        within(dx, 1_000_000_000_000),
        within(dy, 1_000_000_000_000),
    ensures
        ({
            let w = v.panned(dx, dy);
            &&& w.to_screen(p).x.raw == v.to_screen(p).x.raw + dx.raw
            &&& w.to_screen(p).y.raw == v.to_screen(p).y.raw + dy.raw
            &&& w.zoom == v.zoom && w.size == v.size
        }),
{
    product_by_zoom(p.x, v.zoom);
    product_by_zoom(p.y, v.zoom);
}

/// The map that the drawing goes through takes every point to where the screen shows it.
pub proof fn the_drawing_goes_through_the_view(v: Viewport<Micro>, p: Point<Micro>)
    requires
        seeing(v),
        within(p.x, 1_000_000_000_000),
        within(p.y, 1_000_000_000_000),
    ensures
        view_map(v).apply(p) == v.to_screen(p),
{
    let one = Micro::of_int(1);
    let zero = Micro::of_int(0);
    times_one(v.zoom);
    times_one(zero);
    assert(zero.times(zero).raw == 0);
    let m = view_map(v);
    assert(m.a.raw == v.zoom.raw && m.d.raw == v.zoom.raw && m.b.raw == 0 && m.c.raw == 0);
    assert(m.tx == v.pan.x && m.ty == v.pan.y);
    commuted(m.a.raw as int, p.x.raw as int);
    commuted(m.d.raw as int, p.y.raw as int);
    assert(m.c.raw * p.y.raw == 0 && m.b.raw * p.x.raw == 0) by {
        assert(0 * p.y.raw == 0 && 0 * p.x.raw == 0);
    }
    product_by_zoom(p.x, v.zoom);
    product_by_zoom(p.y, v.zoom);
}

proof fn times_one(v: Micro)
    requires
        within(v, 1_000_000_000_000_000),
    ensures
        v.times(Micro::of_int(1)) == v,
        v.times(Micro::of_int(0)).raw == 0,
        Micro::of_int(0).times(v).raw == 0,
        Micro::of_int(1).times(v) == v,
{
    let n = v.raw * 1_000_000;
    assert(Micro::of_int(1).raw == 1_000_000 && Micro::of_int(0).raw == 0);
    if n >= 0 {
        assert(n / 1_000_000 == v.raw);
    } else {
        assert(-n / 1_000_000 == -v.raw);
    }
    assert(v.raw * 0 == 0 && 0 * v.raw == 0);
}

// ---------------------------------------------------------------------------
// Placing
// ---------------------------------------------------------------------------

/// Whether a frame stands in the middle of what is seen: its middle is drawn at the middle of the
/// canvas, but for a few millionths.
pub open spec fn in_the_middle(v: Viewport<Micro>, x: Micro, w: Micro, pan: Micro, size: Micro) -> bool {
    let z = v.zoom.raw as int;
    let e = (2 * x.raw + w.raw) * z - 1_000_000 * (size.raw - 2 * pan.raw);
    -(6 * z + 6_000_000) <= e <= 6 * z + 6_000_000
}

proof fn middle_comes(v: Viewport<Micro>, w: Micro, pan: Micro, size: Micro)
    requires
        250_000 <= v.zoom.raw <= 4_000_000,
        within(pan, 1_000_000_000_000),
        0 <= size.raw <= 1_000_000_000_000,
        within(w, 1_000_000_000_000),
    ensures
        in_the_middle(v, half(size).minus(pan).over(v.zoom).minus(half(w)), w, pan, size),
{
    let z = v.zoom.raw as int;
    half_reads(size);
    half_reads(w);
    let c = half(size).minus(pan).over(v.zoom);
    quotient_reads(half(size).minus(pan), v.zoom);
    let x = c.minus(half(w));
    let (e, f) = (2 * half(w).raw - w.raw, 2 * half(size).raw - size.raw);
    assert(2 * x.raw + w.raw == 2 * c.raw - e);
    distributed(z, 2 * c.raw, e);
    regrouped(2, c.raw as int, z);
    product_within(e, z, 2, z);
}

/// A new shape is placed in the middle of what is seen.
pub proof fn new_shapes_stand_in_the_middle(
    rows: Seq<NodeModel<Micro>>,
    v: Viewport<Micro>,
    kind: NodeKind,
)
    requires
        seeing(v),
    ensures
        ({
            let p = centered_at(v, kind);
            let n = new_shape(rows, kind, p.x, p.y);
            &&& n.kind == kind && n.parent is None
            &&& in_the_middle(v, n.x, n.w, v.pan.x, v.size.0)
            &&& in_the_middle(v, n.y, n.h, v.pan.y, v.size.1)
        }),
{
    let p = centered_at(v, kind);
    let n = new_shape(rows, kind, p.x, p.y);
    middle_comes(v, n.w, v.pan.x, v.size.0);
    middle_comes(v, n.h, v.pan.y, v.size.1);
}

/// A factor, of which there are so many millionths.
proof fn scaled_by(v: Micro, k: Micro)
    requires
        0 <= v.raw <= 1_000_000_000_000,
        0 <= k.raw <= 1_000_000,
    ensures
        v.raw * k.raw - 1_000_000 < 1_000_000 * v.times(k).raw <= v.raw * k.raw,
        0 <= v.times(k).raw <= v.raw,
{
    let n = v.raw * k.raw;
    mono(v.raw as int, 0, k.raw as int);
    mono(v.raw as int, k.raw as int, 1_000_000);
    assert(v.times(k).raw == n / 1_000_000);
}

/// A new picture stands in the middle of what is seen, and keeps its proportions.
pub proof fn new_pictures_stand_in_the_middle(v: Viewport<Micro>, size: (Micro, Micro))
    requires
        seeing(v),
        1_000_000 <= size.0.raw <= 1_000_000_000_000,
        1_000_000 <= size.1.raw <= 1_000_000_000_000,
    ensures
        ({
            let f = initial_frame_spec(v, size);
            let (w, h) = (size.0.raw as int, size.1.raw as int);
            &&& in_the_middle(v, f.0, f.2, v.pan.x, v.size.0)
            &&& in_the_middle(v, f.1, f.3, v.pan.y, v.size.1)
            // In proportion, but for a millionth each way.
            &&& -(w + h) <= f.2.raw * h - f.3.raw * w <= w + h
            &&& 0 <= f.2.raw <= w && 0 <= f.3.raw <= h
        }),
{
    let share = ratio::<Micro>(8, 10);
    assert(share.raw == 800_000) by {
        assert(quotient_spec(8_000_000_000_000, 10_000_000) == 800_000);
    }
    let a = v.size.0.times(share).over(v.zoom);
    let b = v.size.1.times(share).over(v.zoom);
    scaled_by(v.size.0, share);
    scaled_by(v.size.1, share);
    quotient_reads(v.size.0.times(share), v.zoom);
    quotient_reads(v.size.1.times(share), v.zoom);
    shared_out(a, size.0);
    shared_out(b, size.1);
    let k = a.over(size.0).lesser(b.over(size.1)).lesser(Micro::of_int(1));
    scaled_by(size.0, k);
    scaled_by(size.1, k);
    let f = initial_frame_spec(v, size);
    assert(f.2 == size.0.times(k) && f.3 == size.1.times(k));
    middle_comes(v, f.2, v.pan.x, v.size.0);
    middle_comes(v, f.3, v.pan.y, v.size.1);
    in_proportion(size.0.raw as int, size.1.raw as int, k.raw as int, f.2.raw as int, f.3.raw as int);
}

proof fn shared_out(a: Micro, s: Micro)
    requires
        0 <= a.raw <= 40_000_000_000_000,
        1_000_000 <= s.raw <= 1_000_000_000_000,
    ensures
        0 <= a.over(s).raw,
{
    let n = a.raw * 1_000_000;
    shares(n, s.raw as int);
    let m = n / s.raw as int;
    mono(m, 1_000_000, s.raw as int);
    assert(a.over(s).raw == m);
}

/// Two extents scaled by one factor stay in proportion.
pub proof fn in_proportion(w: int, h: int, k: int, u: int, v: int)
    requires
        0 <= w,
        0 <= h,
        w * k - 1_000_000 < 1_000_000 * u <= w * k,
        h * k - 1_000_000 < 1_000_000 * v <= h * k,
    ensures
        -(w + h) <= u * h - v * w <= w + h,
{
    let (e, f) = (w * k - 1_000_000 * u, h * k - 1_000_000 * v);
    distributed(h, w * k, e);
    distributed(w, h * k, f);
    regrouped(h, w, k);
    regrouped(w, h, k);
    commuted(h, w);
    commuted(u, h);
    commuted(v, w);
    regrouped(h, 1_000_000, u);
    regrouped(w, 1_000_000, v);
    commuted(h, 1_000_000);
    commuted(w, 1_000_000);
    regrouped(1_000_000, h, u);
    regrouped(1_000_000, w, v);
    product_within(h, e, h, 1_000_000);
    product_within(w, f, w, 1_000_000);
}

/// A new picture is as large as it may be: as large as it is, or as four fifths of what is seen are
/// wide or high; and never larger than either.
pub proof fn new_pictures_are_as_large_as_they_may_be(v: Viewport<Micro>, size: (Micro, Micro))
    requires
        seeing(v),
        1_000_000 <= size.0.raw <= 1_000_000_000_000,
        1_000_000 <= size.1.raw <= 1_000_000_000_000,
    ensures
        ({
            let f = initial_frame_spec(v, size);
            let z = v.zoom.raw as int;
            // Ten times the extent as drawn, and eight times the canvas.
            let (w, h) = (10 * (f.2.raw * z), 10 * (f.3.raw * z));
            let (a, b) = (8_000_000 * v.size.0.raw, 8_000_000 * v.size.1.raw);
            &&& w <= a && h <= b
            &&& f.2 == size.0 || {
                ||| a - w <= 10 * (z * (3 + size.0.raw / 1_000_000)) + 20_000_000
                ||| b - h <= 10 * (z * (3 + size.1.raw / 1_000_000)) + 20_000_000
            }
        }),
{
    let share = ratio::<Micro>(8, 10);
    assert(share.raw == 800_000) by {
        assert(quotient_spec(8_000_000_000_000, 10_000_000) == 800_000);
    }
    let z = v.zoom.raw as int;
    let a = v.size.0.times(share).over(v.zoom);
    let b = v.size.1.times(share).over(v.zoom);
    scaled_by(v.size.0, share);
    scaled_by(v.size.1, share);
    let (c, d) = (v.size.0.raw as int, v.size.1.raw as int);
    assert(c * share.raw == c * 800_000 && d * share.raw == d * 800_000);
    quotient_reads(v.size.0.times(share), v.zoom);
    quotient_reads(v.size.1.times(share), v.zoom);
    shared_out(a, size.0);
    shared_out(b, size.1);
    let k = a.over(size.0).lesser(b.over(size.1)).lesser(Micro::of_int(1));
    scaled_by(size.0, k);
    scaled_by(size.1, k);
    let f = initial_frame_spec(v, size);
    assert(f.2 == size.0.times(k) && f.3 == size.1.times(k));
    no_more_than(a, size.0, k);
    no_more_than(b, size.1, k);
    mono(z, f.2.raw as int, a.raw as int);
    mono(z, f.3.raw as int, b.raw as int);
    commuted(z, f.2.raw as int);
    commuted(z, f.3.raw as int);
    commuted(z, a.raw as int);
    commuted(z, b.raw as int);
    times_one(size.0);
    assert(10 * (f.2.raw * z) <= 8_000_000 * v.size.0.raw);
    assert(10 * (f.3.raw * z) <= 8_000_000 * v.size.1.raw);
    if k.raw == 1_000_000 {
        assert(k == Micro::of_int(1));
    } else {
        if k == a.over(size.0) {
            just_as_much(a, size.0, k, z);
            distributed(z, 2 + size.0.raw / 1_000_000, 1);
            assert(z * 1 == z);
        } else {
            just_as_much(b, size.1, k, z);
            distributed(z, 2 + size.1.raw / 1_000_000, 1);
            assert(z * 1 == z);
        }
    }
}

proof fn no_more_than(a: Micro, s: Micro, k: Micro)
    requires
        0 <= a.raw <= 40_000_000_000_000,
        1_000_000 <= s.raw <= 1_000_000_000_000,
        0 <= k.raw <= 1_000_000,
        k.raw <= a.over(s).raw,
    ensures
        s.times(k).raw <= a.raw,
{
    let n = a.raw * 1_000_000;
    let d = s.raw as int;
    shares(n, d);
    let m = n / d;
    mono(m, 1_000_000, d);
    assert(a.over(s).raw == m);
    mono(d, k.raw as int, m);
    commuted(d, m);
    scaled_by(s, k);
}

proof fn just_as_much(a: Micro, s: Micro, k: Micro, z: int)
    requires
        0 <= a.raw <= 40_000_000_000_000,
        1_000_000 <= s.raw <= 1_000_000_000_000,
        0 <= k.raw <= 1_000_000,
        k == a.over(s),
        0 <= z,
    ensures
        a.raw * z - s.times(k).raw * z <= z * (2 + s.raw / 1_000_000),
{
    let n = a.raw * 1_000_000;
    let d = s.raw as int;
    shares(n, d);
    let m = n / d;
    mono(m, 1_000_000, d);
    assert(a.over(s).raw == m);
    commuted(d, m);
    scaled_by(s, k);
    let u = s.times(k).raw as int;
    assert(1_000_000 * a.raw < 1_000_000 * u + 1_000_000 + d);
    assert(a.raw - u <= 2 + d / 1_000_000);
    mono(z, a.raw - u, 2 + d / 1_000_000);
    distributed(z, a.raw as int, u);
}

} // verus!
