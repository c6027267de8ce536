//! What is drawn where, in millionths: outlines keep to the frame of their shape, and are turned with
//! it.
use vstd::prelude::*;
use crate::aim::turns_go_round_the_middle;
use crate::draw::{
    drawn_radius_spec, kappa_spec, oval_path, paint, rect_path, round_rect_path, shape_ops,
    shape_path, DrawModel, PathOp,
};
use crate::exact::within;
use crate::geometry::{Affine, Point};
use crate::micro::{fraction_value, of_text_meaning, point_of, ten_to, value_of, whole_value, Micro};
use crate::node::{NodeKind, NodeModel};
use crate::ops::new_shape;
use crate::scalar::{half, Scalar};

verus! {

/// Whether a point is at the given place, in millionths.
pub open spec fn at(p: Point<Micro>, x: int, y: int) -> bool {
    p.x.raw == x && p.y.raw == y
}

/// Whether a path begins, or goes straight on, at a place.
pub open spec fn starts(op: PathOp<Micro>, x: int, y: int) -> bool {
    op matches PathOp::MoveTo(p) && at(p, x, y)
}

pub open spec fn runs_to(op: PathOp<Micro>, x: int, y: int) -> bool {
    op matches PathOp::LineTo(p) && at(p, x, y)
}

/// Whether a path bends through two control points to a place.
pub open spec fn bends_to(
    op: PathOp<Micro>,
    a: (int, int),
    b: (int, int),
    end: (int, int),
) -> bool {
    op matches PathOp::CubicTo(p, q, r) && at(p, a.0, a.1) && at(q, b.0, b.1) && at(r, end.0, end.1)
}

/// Whether a path is the rectangle with the given edges: once round its four corners.
pub open spec fn goes_round(path: Seq<PathOp<Micro>>, l: int, t: int, r: int, b: int) -> bool {
    &&& path.len() == 5
    &&& starts(path[0], l, t)
    &&& runs_to(path[1], r, t)
    &&& runs_to(path[2], r, b)
    &&& runs_to(path[3], l, b)
    &&& path[4] is Close
}

/// Whether a path is the rectangle with the given edges, each corner of it an arc that leaves the
/// edges `d` before the corner and is drawn by control points `c` before it.
pub open spec fn goes_round_softly(
    path: Seq<PathOp<Micro>>,
    l: int,
    t: int,
    r: int,
    b: int,
    d: int,
    c: int,
) -> bool {
    &&& path.len() == 10
    &&& starts(path[0], l + d, t)
    &&& runs_to(path[1], r - d, t)
    &&& bends_to(path[2], (r - c, t), (r, t + c), (r, t + d))
    &&& runs_to(path[3], r, b - d)
    &&& bends_to(path[4], (r, b - c), (r - c, b), (r - d, b))
    &&& runs_to(path[5], l + d, b)
    &&& bends_to(path[6], (l + c, b), (l, b - c), (l, b - d))
    &&& runs_to(path[7], l, t + d)
    &&& bends_to(path[8], (l, t + c), (l + c, t), (l + d, t))
    &&& path[9] is Close
}

pub open spec fn framed(x: Micro, y: Micro, w: Micro, h: Micro) -> bool {
    &&& within(x, 1_000_000_000_000)
    &&& within(y, 1_000_000_000_000)
    &&& 0 <= w.raw <= 1_000_000_000_000
    &&& 0 <= h.raw <= 1_000_000_000_000
}

/// A digit behind the point counts by its place.
proof fn digit_counts(s: Seq<char>, width: nat, v: nat, place: nat)
    requires
        s.len() > 0,
        width > 0,
        value_of(s[0]) == v,
        ten_to((width - 1) as nat) == place,
    ensures
        fraction_value(s, width) == v * place + fraction_value(s.drop_first(), (width - 1) as nat),
{
}

/// The control points of a quarter circle lie 0.552284 of the radius along its tangents.
proof fn arcs_are_circular()
    ensures
        kappa_spec::<Micro>().raw == 552_284,
{
    let s = "0.5522847498307934"@;
    reveal_strlit("0.5522847498307934");
    let f = s.subrange(2, s.len() as int);
    assert(s.drop_first()[0] == '.');
    assert(point_of(s.drop_first()) == 0);
    assert(point_of(s) == 1);
    assert(s.subrange(0, 1) =~= seq!['0']);
    assert(seq!['0'].drop_last() =~= Seq::<char>::empty());
    assert(whole_value(Seq::<char>::empty()) == 0);
    assert(whole_value(seq!['0']) == 0);
    reveal_with_fuel(ten_to, 7);
    let f1 = f.drop_first();
    let f2 = f1.drop_first();
    let f3 = f2.drop_first();
    let f4 = f3.drop_first();
    let f5 = f4.drop_first();
    assert(f[0] == '5' && f1[0] == '5' && f2[0] == '2' && f3[0] == '2' && f4[0] == '8' && f5[0]
        == '4');
    assert(fraction_value(f5.drop_first(), 0) == 0);
    digit_counts(f5, 1, 4, 1);
    digit_counts(f4, 2, 8, 10);
    digit_counts(f3, 3, 2, 100);
    digit_counts(f2, 4, 2, 1_000);
    digit_counts(f1, 5, 5, 10_000);
    digit_counts(f, 6, 5, 100_000);
    assert(fraction_value(f, 6) == 552_284);
    assert(of_text_meaning(s) == Some(Micro { raw: 552_284 }));
}

/// A rectangle is drawn along its four edges.
pub proof fn rectangles_run_along_their_edges(x: Micro, y: Micro, w: Micro, h: Micro)
    requires
        framed(x, y, w, h),
    ensures
        goes_round(
            rect_path(x, y, w, h),
            x.raw as int,
            y.raw as int,
            x.raw + w.raw,
            y.raw + h.raw,
        ),
{
}

/// A rectangle with soft corners is drawn along its four edges too, but for the corners, which are
/// quarter circles of its radius, or of half the shorter side where that is less; without a radius
/// the corners are sharp.
pub proof fn soft_corners_are_quarter_circles(x: Micro, y: Micro, w: Micro, h: Micro, radius: Micro)
    requires
        framed(x, y, w, h),
        within(radius, 1_000_000_000_000),
    ensures
        ({
            let path = round_rect_path(x, y, w, h, radius);
            let (l, t, r, b) = (x.raw as int, y.raw as int, x.raw + w.raw, y.raw + h.raw);
            let d = if radius.raw <= w.raw / 2 && radius.raw <= h.raw / 2 {
                radius.raw as int
            } else if w.raw <= h.raw {
                w.raw as int / 2
            } else {
                h.raw as int / 2
            };
            &&& d <= 0 ==> goes_round(path, l, t, r, b)
            &&& d > 0 ==> goes_round_softly(path, l, t, r, b, d, d - d * 552_284 / 1_000_000)
        }),
{
    arcs_are_circular();
    assert(half(w).raw == w.raw * 1_000_000 / 2_000_000);
    assert(half(h).raw == h.raw * 1_000_000 / 2_000_000);
    let d = drawn_radius_spec(w, h, radius);
    let e = if radius.raw <= w.raw / 2 && radius.raw <= h.raw / 2 {
        radius.raw as int
    } else if w.raw <= h.raw {
        w.raw as int / 2
    } else {
        h.raw as int / 2
    };
    assert(e == d.raw);
    if e > 0 {
        let k = d.times(kappa_spec());
        assert(d.raw * kappa_spec::<Micro>().raw == e * 552_284);
        assert(k.raw == e * 552_284 / 1_000_000);
        let path = round_rect_path(x, y, w, h, radius);
        let (x1, y1) = (x.plus(w), y.plus(h));
        assert(x.plus(d).minus(k).raw == x.raw + (e - k.raw));
        assert(y.plus(d).minus(k).raw == y.raw + (e - k.raw));
        assert(x1.minus(d).plus(k).raw == x.raw + w.raw - (e - k.raw));
        assert(y1.minus(d).plus(k).raw == y.raw + h.raw - (e - k.raw));
    }
}

/// An oval is drawn as four quarters of an ellipse: it touches each edge of its frame in the middle,
/// and bends towards the corners by control points on the edges.
pub proof fn ovals_touch_the_middles_of_their_edges(x: Micro, y: Micro, w: Micro, h: Micro)
    requires
        framed(x, y, w, h),
    ensures
        ({
            let path = oval_path(x, y, w, h);
            let (rx, ry) = (w.raw as int / 2, h.raw as int / 2);
            let (kx, ky) = (rx * 552_284 / 1_000_000, ry * 552_284 / 1_000_000);
            let (cx, cy) = (x.raw + rx, y.raw + ry);
            let (l, t, r, b) = (cx - rx, cy - ry, cx + rx, cy + ry);
            &&& path.len() == 6
            &&& starts(path[0], r, cy)
            &&& path[5] is Close
            &&& bends_to(path[1], (r, cy + ky), (cx + kx, b), (cx, b))
            &&& bends_to(path[2], (cx - kx, b), (l, cy + ky), (l, cy))
            &&& bends_to(path[3], (l, cy - ky), (cx - kx, t), (cx, t))
            &&& bends_to(path[4], (cx + kx, t), (r, cy - ky), (r, cy))
        }),
{
    arcs_are_circular();
    assert(half(w).raw == w.raw * 1_000_000 / 2_000_000);
    assert(half(h).raw == h.raw * 1_000_000 / 2_000_000);
    let (rx, ry) = (half(w), half(h));
    let (kx, ky) = (rx.times(kappa_spec()), ry.times(kappa_spec()));
    assert(rx.raw * kappa_spec::<Micro>().raw == rx.raw * 552_284);
    assert(ry.raw * kappa_spec::<Micro>().raw == ry.raw * 552_284);
    assert(kx.raw == rx.raw * 552_284 / 1_000_000);
    assert(ky.raw == ry.raw * 552_284 / 1_000_000);
}

/// A line is drawn from its one end to its other.
pub proof fn lines_are_drawn_from_end_to_end(n: NodeModel<Micro>)
    requires
        n.kind == NodeKind::Line,
        within(n.x, 1_000_000_000_000),
        within(n.y, 1_000_000_000_000),
        within(n.w, 1_000_000_000_000),
        within(n.h, 1_000_000_000_000),
    ensures
        ({
            let path = shape_path(n);
            &&& path.len() == 2
            &&& starts(path[0], n.x.raw as int, n.y.raw as int)
            &&& runs_to(path[1], n.x.raw + n.w.raw, n.y.raw + n.h.raw)
        }),
{
}

/// Each kind of shape has its own outline, in its own frame.
pub proof fn shapes_have_the_outline_of_their_kind(n: NodeModel<Micro>)
    ensures
        n.kind == NodeKind::Oval ==> shape_path(n) == oval_path(n.x, n.y, n.w, n.h),
        n.kind == NodeKind::Rect || n.kind == NodeKind::Image ==> shape_path(n) == round_rect_path(
            n.x,
            n.y,
            n.w,
            n.h,
            n.corner_radius,
        ),
{
}

/// Whether a map turns a point about the middle of a frame by the angle with the sine `s` and the
/// cosine `k`, but for some millionths.
pub open spec fn turned_by(
    m: Affine<Micro>,
    f: (Micro, Micro, Micro, Micro),
    p: Point<Micro>,
    s: int,
    k: int,
) -> bool {
    let q = m.apply(p);
    // Twice the distances from the middle.
    let (dx, dy) = (2 * p.x.raw - (2 * f.0.raw + f.2.raw), 2 * p.y.raw - (2 * f.1.raw + f.3.raw));
    let (ex, ey) = (2 * q.x.raw - (2 * f.0.raw + f.2.raw), 2 * q.y.raw - (2 * f.1.raw + f.3.raw));
    &&& -15_000_000 <= 1_000_000 * ex - (dx * k - dy * s) <= 15_000_000
    &&& -15_000_000 <= 1_000_000 * ey - (dx * s + dy * k) <= 15_000_000
}

/// A turned shape is painted through a turn by its own angle about its own middle, and an upright one
/// as it is.
pub proof fn turned_shapes_are_painted_turned(n: NodeModel<Micro>, p: Point<Micro>)
    requires
        within(n.x, 400_000_000_000),
        within(n.y, 400_000_000_000),
        within(n.w, 400_000_000_000),
        within(n.h, 400_000_000_000),
        within(p.x, 1_000_000_000_000),
        within(p.y, 1_000_000_000_000),
    ensures
        ({
            let (sin, cos) = n.rotation.sine_cosine();
            let ops = shape_ops(n);
            let plain = paint(n);
            &&& n.rotation.raw == 0 ==> ops == plain
            &&& n.rotation.raw != 0 ==> {
                &&& ops.len() == plain.len() + 2 && ops.last() is Pop
                &&& ops.subrange(1, ops.len() - 1) == plain
                &&& ops[0] matches DrawModel::Push(m) && turned_by(
                    m,
                    (n.x, n.y, n.w, n.h),
                    p,
                    sin.raw as int,
                    cos.raw as int,
                )
            }
        }),
{
    let f = (n.x, n.y, n.w, n.h);
    turns_go_round_the_middle(f, n.rotation, p);
    let ops = shape_ops(n);
    if n.rotation.raw != 0 {
        assert(ops.subrange(1, ops.len() - 1) =~= paint(n));
    }
}

/// A new shape is as large as its kind has it, upright and filled in full; a line is drawn two wide
/// and in full, and any other shape has a faint outline of one.
pub proof fn new_shapes_are_as_large_as_their_kind(
    rows: Seq<NodeModel<Micro>>,
    kind: NodeKind,
    x: Micro,
    y: Micro,
)
    ensures
        ({
            let n = new_shape(rows, kind, x, y);
            let line = kind == NodeKind::Line;
            &&& n.kind == kind && n.x == x && n.y == y
            &&& n.w.raw == if line {
                144_000_000int
            } else {
                96_000_000
            }
            &&& n.h.raw == if line {
                0int
            } else {
                64_000_000
            }
            &&& n.rotation.raw == 0 && n.fill_opacity.raw == 1_000_000
            &&& line ==> n.stroke_width.raw == 2_000_000 && n.stroke_opacity.raw == 1_000_000
            &&& !line ==> n.stroke_width.raw == 1_000_000 && n.stroke_opacity.raw == 350_000
        }),
{
}

} // verus!
