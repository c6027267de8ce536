//! What the pointer finds on screen, in millionths: the handles of a shape are grabbed where its
//! corners and its ends are seen, and the marks of a selection are drawn there.
use vstd::prelude::*;
use crate::aim::turns_go_round_the_middle;
use crate::bounds::{line_ends, node_bounds, shape_frame};
use crate::draw::{
    band_ops, guide_ops, handle_corner_spec, handle_ops, handle_path, handles_ops, mark_ops,
    segment_path, DrawModel, PathOp,
};
use crate::exact::{sines_stay_within_one, unit_product, within};
use crate::geometry::{
    corner_points_spec, rotation_about_center, turns, Corner, Handle, LineEnd, Point,
};
use crate::grips::ways;
use crate::hit::{first_near, handle_of, hit_handle, near, rotation_of, screen_corners, swept_band};
use crate::hulls::{drawn_corner, edges};
use crate::micro::Micro;
use crate::millionths::product_reads;
use crate::node::{NodeKind, NodeModel};
use crate::outlines::{at, goes_round, runs_to, starts};
use crate::plane::nothing_bears;
use crate::products::{distributed, product_within, regrouped};
use crate::rigid::turn_bears;
use crate::scalar::{half, Scalar};
use crate::scene::peek;
use crate::viewport::Viewport;
use crate::views::{product_by_zoom, seeing};

verus! {

/// Whether a point of the screen is where a place of the drawing is seen, but for fifty millionths.
/// The place is counted in half millionths of a millionth.
#[verifier::opaque]
pub open spec fn seen_at(v: Viewport<Micro>, d: (int, int), p: Point<Micro>) -> bool {
    let z = v.zoom.raw as int;
    &&& -100_000_000_000_000 <= 2_000_000_000_000 * (p.x.raw - v.pan.x.raw) - d.0 * z
        <= 100_000_000_000_000
    &&& -100_000_000_000_000 <= 2_000_000_000_000 * (p.y.raw - v.pan.y.raw) - d.1 * z
        <= 100_000_000_000_000
}

/// Whether a frame lies within a hundred thousand units of the origin.
pub open spec fn near_by(f: (Micro, Micro, Micro, Micro)) -> bool {
    &&& within(f.0, 100_000_000_000)
    &&& within(f.1, 100_000_000_000)
    &&& within(f.2, 100_000_000_000)
    &&& within(f.3, 100_000_000_000)
}

/// A place that is nearly known is seen nearly there.
proof fn nearly_there_is_seen(v: Viewport<Micro>, d: int, q: Micro, z: Micro)
    requires
        0 <= z.raw <= 4_000_000,
        within(q, 1_000_000_000_000),
        -20_000_000 <= 2_000_000 * q.raw - d <= 20_000_000,
    ensures
        -90_000_000_000_000 <= 2_000_000_000_000 * q.times(z).raw - d * z.raw
            <= 90_000_000_000_000,
        within(q.times(z), 4_000_000_000_000),
{
    product_by_zoom(q, z);
    let e = 2_000_000 * q.raw - d;
    product_within(e, z.raw as int, 20_000_000, 4_000_000);
    distributed(z.raw as int, 2_000_000 * q.raw, d);
    regrouped(2_000_000, q.raw as int, z.raw as int);
}

/// The corner of a frame as it stands before any turn.
proof fn corner_is_seen(
    v: Viewport<Micro>,
    f: (Micro, Micro, Micro, Micro),
    degrees: Micro,
    corner: Corner,
    p: Point<Micro>,
)
    requires
        seeing(v),
        near_by(f),
        p.x.raw == f.0.raw + if corner.left() {
            0
        } else {
            f.2.raw as int
        },
        p.y.raw == f.1.raw + if corner.top() {
            0
        } else {
            f.3.raw as int
        },
    ensures
        seen_at(
            v,
            drawn_corner(f, corner, degrees),
            v.to_screen(
                if turns(degrees) {
                    rotation_about_center(f, degrees).apply(p)
                } else {
                    p
                },
            ),
        ),
{
    let (sin, cos) = degrees.sine_cosine();
    let (s, k) = (sin.raw as int, cos.raw as int);
    sines_stay_within_one(degrees);
    let way = ways(corner);
    let (a, b) = (f.2.raw as int, f.3.raw as int);
    let (u, w) = (way.0 * a, way.1 * b);
    assert(1 * a == a && -1 * a == -a && 1 * b == b && -1 * b == -b);
    let d = drawn_corner(f, corner, degrees);
    let q = if turns(degrees) {
        rotation_about_center(f, degrees).apply(p)
    } else {
        p
    };
    product_within(u, k, 100_000_000_000, 1_000_000);
    product_within(w, s, 100_000_000_000, 1_000_000);
    product_within(u, s, 100_000_000_000, 1_000_000);
    product_within(w, k, 100_000_000_000, 1_000_000);
    assert(2 * p.x.raw - (2 * f.0.raw + f.2.raw) == u);
    assert(2 * p.y.raw - (2 * f.1.raw + f.3.raw) == w);
    if turns(degrees) {
        turns_go_round_the_middle(f, degrees, p);
    } else {
        assert(degrees.raw == 0);
        turn_bears(degrees);
        nothing_bears();
        assert(s == 0 && k == 1_000_000);
        assert(u * k == u * 1_000_000 && w * k == w * 1_000_000 && w * s == 0 && u * s == 0);
    }
    reveal(seen_at);
    assert(-20_000_000 <= 2_000_000 * q.x.raw - d.0 <= 20_000_000);
    assert(-20_000_000 <= 2_000_000 * q.y.raw - d.1 <= 20_000_000);
    nearly_there_is_seen(v, d.0, q.x, v.zoom);
    nearly_there_is_seen(v, d.1, q.y, v.zoom);
}

/// The corners that a selection is marked by come in turn, each where the shape's own corner is
/// seen, turned with the shape.
pub proof fn corners_are_marked_where_they_are_seen(
    v: Viewport<Micro>,
    f: (Micro, Micro, Micro, Micro),
    degrees: Micro,
)
    requires
        seeing(v),
        near_by(f),
    ensures
        ({
            let pts = screen_corners(v, f, degrees);
            &&& pts.len() == 4
            &&& pts[0].0 == Corner::TopLeft && pts[1].0 == Corner::TopRight
            &&& pts[2].0 == Corner::BottomLeft && pts[3].0 == Corner::BottomRight
            &&& forall|i: int|
                0 <= i < 4 ==> seen_at(
                    v,
                    drawn_corner(f, (#[trigger] pts[i]).0, degrees),
                    pts[i].1,
                )
        }),
{
    let c = corner_points_spec(f);
    corner_is_seen(v, f, degrees, Corner::TopLeft, c[0].1);
    corner_is_seen(v, f, degrees, Corner::TopRight, c[1].1);
    corner_is_seen(v, f, degrees, Corner::BottomLeft, c[2].1);
    corner_is_seen(v, f, degrees, Corner::BottomRight, c[3].1);
    let pts = screen_corners(v, f, degrees);
    assert forall|i: int| 0 <= i < 4 implies seen_at(
        v,
        drawn_corner(f, (#[trigger] pts[i]).0, degrees),
        pts[i].1,
    ) by {
        if i == 0 {
        } else if i == 1 {
        } else if i == 2 {
        } else {
            assert(i == 3);
        }
    }
}

/// Whether the pointer is within twelve pixels, both ways, of where a place of the drawing is seen;
/// `slack` is in half millionths of a millionth of a millionth.
pub open spec fn points_at(v: Viewport<Micro>, d: (int, int), p: Point<Micro>, slack: int) -> bool {
    let z = v.zoom.raw as int;
    let reach = 24_000_000_000_000_000_000 + slack;
    &&& -reach <= 2_000_000_000_000 * (p.x.raw - v.pan.x.raw) - d.0 * z <= reach
    &&& -reach <= 2_000_000_000_000 * (p.y.raw - v.pan.y.raw) - d.1 * z <= reach
}

/// What is near a place on screen points at what is seen there.
proof fn near_is_pointed_at(v: Viewport<Micro>, d: (int, int), q: Point<Micro>, p: Point<Micro>)
    requires
        seen_at(v, d, q),
        within(p.x, 1_000_000_000_000),
        within(p.y, 1_000_000_000_000),
        within(q.x, 10_000_000_000_000),
        within(q.y, 10_000_000_000_000),
    ensures
        near(p, q) ==> points_at(v, d, p, 100_000_000_000_000),
        !near(p, q) ==> !points_at(v, d, p, -100_000_000_000_000),
{
    reveal(seen_at);
    assert(Micro::of_int(12).raw == 12_000_000);
}

proof fn first_near_is(pts: Seq<(Corner, Point<Micro>)>, p: Point<Micro>)
    ensures
        match first_near(pts, p) {
            Some(c) => exists|i: int|
                0 <= i < pts.len() && (#[trigger] pts[i]).0 == c && near(p, pts[i].1) && forall|j: int|
                    0 <= j < i ==> !near(p, (#[trigger] pts[j]).1),
            None => forall|i: int| 0 <= i < pts.len() ==> !near(p, (#[trigger] pts[i]).1),
        },
    decreases pts.len(),
{
    if pts.len() > 0 {
        let rest = pts.drop_first();
        first_near_is(rest, p);
        if near(p, pts[0].1) {
            assert(pts[0].0 == first_near(pts, p).unwrap());
        } else {
            match first_near(rest, p) {
                Some(c) => {
                    let i = choose|i: int|
                        0 <= i < rest.len() && (#[trigger] rest[i]).0 == c && near(p, rest[i].1)
                            && forall|j: int| 0 <= j < i ==> !near(p, (#[trigger] rest[j]).1);
                    assert(pts[i + 1] == rest[i]);
                    assert forall|j: int| 0 <= j < i + 1 implies !near(p, (#[trigger] pts[j]).1) by {
                        if j > 0 {
                            assert(pts[j] == rest[j - 1]);
                        }
                    }
                },
                None => {
                    assert forall|j: int| 0 <= j < pts.len() implies !near(
                        p,
                        (#[trigger] pts[j]).1,
                    ) by {
                        if j > 0 {
                            assert(pts[j] == rest[j - 1]);
                        }
                    }
                },
            }
        }
    }
}

/// A corner is grabbed where it is seen, turned with its shape: what is grabbed is within reach of
/// the pointer, and where nothing is grabbed no corner is.
pub proof fn corners_are_grabbed_where_they_are_seen(
    n: NodeModel<Micro>,
    v: Viewport<Micro>,
    p: Point<Micro>,
)
    requires
        n.kind == NodeKind::Rect || n.kind == NodeKind::Oval || n.kind == NodeKind::Image,
        seeing(v),
        near_by((n.x, n.y, n.w, n.h)),
        within(p.x, 1_000_000_000_000),
        within(p.y, 1_000_000_000_000),
    ensures
        ({
            let f = (n.x, n.y, n.w, n.h);
            match handle_of(n, v, p) {
                Some(Handle::Corner(c)) => points_at(
                    v,
                    drawn_corner(f, c, n.rotation),
                    p,
                    100_000_000_000_000,
                ),
                Some(Handle::End(_)) => false,
                None => forall|c: Corner|
                    !points_at(
                        v,
                        #[trigger] drawn_corner(f, c, n.rotation),
                        p,
                        -100_000_000_000_000,
                    ),
            }
        }),
{
    let f = (n.x, n.y, n.w, n.h);
    assert(shape_frame(n) == f);
    let pts = screen_corners(v, f, n.rotation);
    corners_are_marked_where_they_are_seen(v, f, n.rotation);
    first_near_is(pts, p);
    assert forall|i: int| 0 <= i < 4 implies {
        let d = drawn_corner(f, (#[trigger] pts[i]).0, n.rotation);
        &&& near(p, pts[i].1) ==> points_at(v, d, p, 100_000_000_000_000)
        &&& !near(p, pts[i].1) ==> !points_at(v, d, p, -100_000_000_000_000)
    } by {
        let d = drawn_corner(f, pts[i].0, n.rotation);
        corners_are_within(f, pts[i].0, n.rotation, v.zoom);
        reveal(seen_at);
        near_is_pointed_at(v, d, pts[i].1, p);
    }
    assert forall|c: Corner| handle_of(n, v, p) is None implies !points_at(
        v,
        #[trigger] drawn_corner(f, c, n.rotation),
        p,
        -100_000_000_000_000,
    ) by {
        let i: int = match c {
            Corner::TopLeft => 0,
            Corner::TopRight => 1,
            Corner::BottomLeft => 2,
            Corner::BottomRight => 3,
        };
        assert(pts[i].0 == c);
    }
}

/// Where a corner is drawn is in reach.
proof fn corners_are_within(
    f: (Micro, Micro, Micro, Micro),
    corner: Corner,
    degrees: Micro,
    z: Micro,
)
    requires
        near_by(f),
        0 <= z.raw <= 4_000_000,
    ensures
        ({
            let d = drawn_corner(f, corner, degrees);
            &&& -2_000_000_000_000_000_000_000_000 <= d.0 * z.raw <= 2_000_000_000_000_000_000_000_000
            &&& -2_000_000_000_000_000_000_000_000 <= d.1 * z.raw <= 2_000_000_000_000_000_000_000_000
        }),
{
    let (sin, cos) = degrees.sine_cosine();
    let (s, k) = (sin.raw as int, cos.raw as int);
    sines_stay_within_one(degrees);
    let way = ways(corner);
    let (a, b) = (f.2.raw as int, f.3.raw as int);
    let (u, w) = (way.0 * a, way.1 * b);
    assert(1 * a == a && -1 * a == -a && 1 * b == b && -1 * b == -b);
    product_within(u, k, 100_000_000_000, 1_000_000);
    product_within(w, s, 100_000_000_000, 1_000_000);
    product_within(u, s, 100_000_000_000, 1_000_000);
    product_within(w, k, 100_000_000_000, 1_000_000);
    let d = drawn_corner(f, corner, degrees);
    product_within(d.0, z.raw as int, 500_000_000_000_000_000, 4_000_000);
    product_within(d.1, z.raw as int, 500_000_000_000_000_000, 4_000_000);
}

/// An end of a line is grabbed where it is seen.
pub proof fn line_ends_are_grabbed_where_they_are_seen(
    n: NodeModel<Micro>,
    v: Viewport<Micro>,
    p: Point<Micro>,
)
    requires
        n.kind == NodeKind::Line,
        seeing(v),
        near_by((n.x, n.y, n.w, n.h)),
        within(p.x, 1_000_000_000_000),
        within(p.y, 1_000_000_000_000),
    ensures
        ({
            let a = (2_000_000 * n.x.raw, 2_000_000 * n.y.raw);
            let b = (2_000_000 * (n.x.raw + n.w.raw), 2_000_000 * (n.y.raw + n.h.raw));
            match handle_of(n, v, p) {
                Some(Handle::End(LineEnd::Start)) => points_at(v, a, p, 100_000_000_000_000),
                Some(Handle::End(LineEnd::End)) => points_at(v, b, p, 100_000_000_000_000)
                    && !points_at(v, a, p, -100_000_000_000_000),
                Some(Handle::Corner(_)) => false,
                None => !points_at(v, a, p, -100_000_000_000_000) && !points_at(
                    v,
                    b,
                    p,
                    -100_000_000_000_000,
                ),
            }
        }),
{
    let a = (2_000_000 * n.x.raw, 2_000_000 * n.y.raw);
    let b = (2_000_000 * (n.x.raw + n.w.raw), 2_000_000 * (n.y.raw + n.h.raw));
    let (s, e) = line_ends(n);
    reveal(seen_at);
    assert(at(e, n.x.raw + n.w.raw, n.y.raw + n.h.raw));
    nearly_there_is_seen(v, a.0, s.x, v.zoom);
    nearly_there_is_seen(v, a.1, s.y, v.zoom);
    nearly_there_is_seen(v, b.0, e.x, v.zoom);
    nearly_there_is_seen(v, b.1, e.y, v.zoom);
    near_is_pointed_at(v, a, v.to_screen(s), p);
    near_is_pointed_at(v, b, v.to_screen(e), p);
}

/// The handle of a node under the pointer.
#[verifier::opaque]
pub open spec fn held<S: Scalar>(
    rows: Seq<NodeModel<S>>,
    id: u64,
    v: Viewport<S>,
    p: Point<S>,
) -> Option<Handle> {
    handle_of(peek(rows, id), v, p)
}

/// Of several selected nodes the one selected last is grabbed, and nothing is grabbed only where
/// none has a handle.
pub proof fn the_last_selected_is_grabbed<S: Scalar>(
    rows: Seq<NodeModel<S>>,
    selection: Seq<u64>,
    v: Viewport<S>,
    p: Point<S>,
)
    ensures
        match hit_handle(rows, selection, v, p) {
            Some((id, h)) => exists|i: int|
                0 <= i < selection.len() && #[trigger] selection[i] == id && held(rows, id, v, p)
                    == Some(h) && forall|j: int|
                    i < j < selection.len() ==> held(rows, #[trigger] selection[j], v, p) is None,
            None => forall|j: int|
                0 <= j < selection.len() ==> held(rows, #[trigger] selection[j], v, p) is None,
        },
    decreases selection.len(),
{
    if selection.len() > 0 {
        let front = selection.drop_last();
        the_last_selected_is_grabbed(rows, front, v, p);
        assert(hit_handle(rows, selection, v, p) == match held(rows, selection.last(), v, p) {
            Some(h) => Some((selection.last(), h)),
            None => hit_handle(rows, front, v, p),
        }) by {
            reveal(held);
        }
        let last = selection.len() - 1;
        if held(rows, selection.last(), v, p) is Some {
            assert(selection[last] == selection.last());
        } else {
            match hit_handle(rows, front, v, p) {
                Some((id, h)) => {
                    let i = choose|i: int|
                        0 <= i < front.len() && #[trigger] front[i] == id && held(rows, id, v, p)
                            == Some(h) && forall|j: int|
                            i < j < front.len() ==> held(rows, #[trigger] front[j], v, p) is None;
                    assert(selection[i] == id);
                    assert forall|j: int| i < j < selection.len() implies held(
                        rows,
                        #[trigger] selection[j],
                        v,
                        p,
                    ) is None by {
                        if j < last {
                            assert(front[j] == selection[j]);
                        }
                    }
                },
                None => {
                    assert forall|j: int| 0 <= j < selection.len() implies held(
                        rows,
                        #[trigger] selection[j],
                        v,
                        p,
                    ) is None by {
                        if j < last {
                            assert(front[j] == selection[j]);
                        }
                    }
                },
            }
        }
    }
}

// ---------------------------------------------------------------------------
// What is drawn
// ---------------------------------------------------------------------------

/// Whether a point stands four pixels to each side of `c`, the given ways, turned by the angle with
/// the sine `s` and the cosine `k`, but for five millionths.
#[verifier::opaque]
pub open spec fn stands_off(
    c: Point<Micro>,
    p: Point<Micro>,
    way: (int, int),
    s: int,
    k: int,
) -> bool {
    let (u, w) = (4_000_000 * way.0, 4_000_000 * way.1);
    &&& -5_000_000 <= 1_000_000 * (p.x.raw - c.x.raw) - (u * k - w * s) <= 5_000_000
    &&& -5_000_000 <= 1_000_000 * (p.y.raw - c.y.raw) - (u * s + w * k) <= 5_000_000
}

proof fn handle_corner_stands_off(
    c: Point<Micro>,
    dx: Micro,
    dy: Micro,
    way: (int, int),
    rotation: Micro,
)
    requires
        within(c.x, 10_000_000_000_000),
        within(c.y, 10_000_000_000_000),
        way.0 == 1 || way.0 == -1,
        way.1 == 1 || way.1 == -1,
        dx.raw == 4_000_000 * way.0,
        dy.raw == 4_000_000 * way.1,
    ensures
        ({
            let (sin, cos) = rotation.sine_cosine();
            stands_off(
                c,
                handle_corner_spec(c, dx, dy, rotation),
                way,
                sin.raw as int,
                cos.raw as int,
            )
        }),
{
    reveal(stands_off);
    let (sin, cos) = rotation.sine_cosine();
    sines_stay_within_one(rotation);
    product_reads(dx, cos);
    product_reads(dy, sin);
    product_reads(dx, sin);
    product_reads(dy, cos);
    unit_product(dx, cos, 4_000_000);
    unit_product(dy, sin, 4_000_000);
    unit_product(dx, sin, 4_000_000);
    unit_product(dy, cos, 4_000_000);
}

/// A handle is a square of eight pixels about its point, turned with its shape.
pub proof fn handles_are_squares(c: Point<Micro>, rotation: Micro)
    requires
        within(c.x, 10_000_000_000_000),
        within(c.y, 10_000_000_000_000),
    ensures
        ({
            let path = handle_path(c, rotation);
            let (sin, cos) = rotation.sine_cosine();
            let (s, k) = (sin.raw as int, cos.raw as int);
            &&& path.len() == 5 && path[4] is Close
            &&& path[0] matches PathOp::MoveTo(p) && stands_off(c, p, (-1, -1), s, k)
            &&& path[1] matches PathOp::LineTo(p) && stands_off(c, p, (1, -1), s, k)
            &&& path[2] matches PathOp::LineTo(p) && stands_off(c, p, (1, 1), s, k)
            &&& path[3] matches PathOp::LineTo(p) && stands_off(c, p, (-1, 1), s, k)
        }),
{
    let far = half(Micro::of_int(8));
    let near = far.negated();
    assert(Micro::of_int(8).raw == 8_000_000 && Micro::of_int(2).raw == 2_000_000);
    assert(far.raw == 4_000_000);
    handle_corner_stands_off(c, near, near, (-1, -1), rotation);
    handle_corner_stands_off(c, far, near, (1, -1), rotation);
    handle_corner_stands_off(c, far, far, (1, 1), rotation);
    handle_corner_stands_off(c, near, far, (-1, 1), rotation);
}

/// Whether a path begins, or goes straight on, where a place of the drawing is seen.
pub open spec fn starts_where_seen(op: PathOp<Micro>, v: Viewport<Micro>, d: (int, int)) -> bool {
    op matches PathOp::MoveTo(p) && seen_at(v, d, p)
}

pub open spec fn runs_where_seen(op: PathOp<Micro>, v: Viewport<Micro>, d: (int, int)) -> bool {
    op matches PathOp::LineTo(p) && seen_at(v, d, p)
}

/// Whether two commands draw one handle about a point: its square filled and outlined.
pub open spec fn is_handle(
    fill: DrawModel<Micro>,
    edge: DrawModel<Micro>,
    c: Point<Micro>,
    rotation: Micro,
) -> bool {
    &&& fill matches DrawModel::Fill(p, _) && p == handle_path(c, rotation)
    &&& edge matches DrawModel::Stroke(p, _, _) && p == handle_path(c, rotation)
}

/// A selected shape is marked by an outline once round its corners as they are seen, and by a handle
/// at each.
pub proof fn shapes_are_marked_round_their_corners(
    rows: Seq<NodeModel<Micro>>,
    v: Viewport<Micro>,
    id: u64,
)
    requires
        ({
            let n = peek(rows, id);
            &&& n.kind == NodeKind::Rect || n.kind == NodeKind::Oval || n.kind == NodeKind::Image
            &&& near_by((n.x, n.y, n.w, n.h))
        }),
        seeing(v),
    ensures
        ({
            let n = peek(rows, id);
            let f = (n.x, n.y, n.w, n.h);
            let ops = mark_ops(rows, v, id);
            let pts = screen_corners(v, f, n.rotation);
            &&& ops.len() == 9
            &&& ops[0] matches DrawModel::Stroke(path, _, _) && {
                &&& path.len() == 5 && path[4] is Close
                &&& starts_where_seen(path[0], v, drawn_corner(f, Corner::TopLeft, n.rotation))
                &&& runs_where_seen(path[1], v, drawn_corner(f, Corner::TopRight, n.rotation))
                &&& runs_where_seen(path[2], v, drawn_corner(f, Corner::BottomRight, n.rotation))
                &&& runs_where_seen(path[3], v, drawn_corner(f, Corner::BottomLeft, n.rotation))
            }
            &&& is_handle(ops[1], ops[2], pts[0].1, n.rotation)
            &&& is_handle(ops[3], ops[4], pts[1].1, n.rotation)
            &&& is_handle(ops[5], ops[6], pts[2].1, n.rotation)
            &&& is_handle(ops[7], ops[8], pts[3].1, n.rotation)
        }),
{
    let n = peek(rows, id);
    let f = (n.x, n.y, n.w, n.h);
    assert(node_bounds(rows, id) == Some(f));
    assert(rotation_of(n) == n.rotation);
    corners_are_marked_where_they_are_seen(v, f, n.rotation);
    let pts = screen_corners(v, f, n.rotation);
    marked_by_handles(pts, n.rotation);
}

/// Four points are marked by four handles, in turn.
proof fn marked_by_handles(pts: Seq<(Corner, Point<Micro>)>, r: Micro)
    requires
        pts.len() == 4,
    ensures
        ({
            let ops = handles_ops(pts, r);
            &&& ops.len() == 8
            &&& is_handle(ops[0], ops[1], pts[0].1, r)
            &&& is_handle(ops[2], ops[3], pts[1].1, r)
            &&& is_handle(ops[4], ops[5], pts[2].1, r)
            &&& is_handle(ops[6], ops[7], pts[3].1, r)
        }),
{
    let p3 = pts.drop_last();
    let p2 = p3.drop_last();
    let p1 = p2.drop_last();
    assert(p1.drop_last().len() == 0);
    assert(handles_ops(p1.drop_last(), r) =~= Seq::<DrawModel<Micro>>::empty());
    assert(handles_ops(p1, r) =~= handle_ops(pts[0].1, r));
    assert(handles_ops(p2, r) =~= handles_ops(p1, r) + handle_ops(pts[1].1, r));
    assert(handles_ops(p3, r) =~= handles_ops(p2, r) + handle_ops(pts[2].1, r));
    assert(handles_ops(pts, r) =~= handles_ops(p3, r) + handle_ops(pts[3].1, r));
}

/// A selected line is marked by its own segment as it is seen, and by a handle at each end.
pub proof fn lines_are_marked_by_their_ends(
    rows: Seq<NodeModel<Micro>>,
    v: Viewport<Micro>,
    id: u64,
)
    requires
        ({
            let n = peek(rows, id);
            n.kind == NodeKind::Line && near_by((n.x, n.y, n.w, n.h))
        }),
        seeing(v),
    ensures
        ({
            let n = peek(rows, id);
            let a = (2_000_000 * n.x.raw, 2_000_000 * n.y.raw);
            let b = (2_000_000 * (n.x.raw + n.w.raw), 2_000_000 * (n.y.raw + n.h.raw));
            let ops = mark_ops(rows, v, id);
            &&& ops.len() == 5
            &&& ops[0] matches DrawModel::Stroke(path, _, _) && {
                &&& path.len() == 2
                &&& starts_where_seen(path[0], v, a)
                &&& runs_where_seen(path[1], v, b)
                &&& path[0] matches PathOp::MoveTo(p) && is_handle(
                    ops[1],
                    ops[2],
                    p,
                    Micro { raw: 0 },
                )
                &&& path[1] matches PathOp::LineTo(p) && is_handle(
                    ops[3],
                    ops[4],
                    p,
                    Micro { raw: 0 },
                )
            }
        }),
{
    let n = peek(rows, id);
    let a = (2_000_000 * n.x.raw, 2_000_000 * n.y.raw);
    let b = (2_000_000 * (n.x.raw + n.w.raw), 2_000_000 * (n.y.raw + n.h.raw));
    let (s, e) = line_ends(n);
    reveal(seen_at);
    assert(at(e, n.x.raw + n.w.raw, n.y.raw + n.h.raw));
    nearly_there_is_seen(v, a.0, s.x, v.zoom);
    nearly_there_is_seen(v, a.1, s.y, v.zoom);
    nearly_there_is_seen(v, b.0, e.x, v.zoom);
    nearly_there_is_seen(v, b.1, e.y, v.zoom);
    assert(Micro::of_int(0).raw == 0);
}

/// A guide is drawn across the whole canvas, where the line that it stands for is seen.
pub proof fn guides_are_drawn_where_they_are_seen(v: Viewport<Micro>, x: Micro, y: Micro)
    requires
        seeing(v),
        within(x, 1_000_000_000_000),
        within(y, 1_000_000_000_000),
    ensures
        ({
            let ops = guide_ops(v, (Some(x), Some(y)));
            let z = v.zoom.raw as int;
            let (w, h) = (v.size.0.raw as int, v.size.1.raw as int);
            &&& guide_ops::<Micro>(v, (None, None)).len() == 0
            &&& guide_ops(v, (Some(x), None)) =~= seq![ops[0]]
            &&& guide_ops(v, (None, Some(y))) =~= seq![ops[1]]
            &&& ops.len() == 2
            &&& ops[0] matches DrawModel::Stroke(path, _, _) && path.len() == 2
                && exists|sx: int|
                {
                    &&& #[trigger] starts(path[0], sx, 0) && runs_to(path[1], sx, h)
                    &&& -1_000_000 < 1_000_000 * (sx - v.pan.x.raw) - x.raw * z < 1_000_000
                }
            &&& ops[1] matches DrawModel::Stroke(path, _, _) && path.len() == 2
                && exists|sy: int|
                {
                    &&& #[trigger] starts(path[0], 0, sy) && runs_to(path[1], w, sy)
                    &&& -1_000_000 < 1_000_000 * (sy - v.pan.y.raw) - y.raw * z < 1_000_000
                }
        }),
{
    product_by_zoom(x, v.zoom);
    product_by_zoom(y, v.zoom);
    let nought = Micro::of_int(0);
    assert(nought.raw == 0);
    let ops = guide_ops(v, (Some(x), Some(y)));
    let sx = v.to_screen(Point { x, y: nought }).x;
    let sy = v.to_screen(Point { x: nought, y }).y;
    let a = segment_path(Point { x: sx, y: nought }, Point { x: sx, y: v.size.1 });
    let b = segment_path(Point { x: nought, y: sy }, Point { x: v.size.0, y: sy });
    assert(ops[0] matches DrawModel::Stroke(path, _, _) && path == a);
    assert(ops[1] matches DrawModel::Stroke(path, _, _) && path == b);
    assert(starts(a[0], sx.raw as int, 0));
    assert(starts(b[0], 0, sy.raw as int));
}

/// A band spans from where the press was to where the pointer is, whichever way it was swept, and is
/// drawn and filled there.
pub proof fn bands_span_the_sweep(anchor: Point<Micro>, dx: Micro, dy: Micro)
    requires
        within(anchor.x, 1_000_000_000_000),
        within(anchor.y, 1_000_000_000_000),
        within(dx, 1_000_000_000_000),
        within(dy, 1_000_000_000_000),
    ensures
        ({
            let b = swept_band(anchor, dx, dy);
            let e = edges(b);
            let (px, py) = (anchor.x.raw + dx.raw, anchor.y.raw + dy.raw);
            &&& e.0 <= e.2 && e.1 <= e.3
            &&& (e.0 == anchor.x.raw && e.2 == px) || (e.0 == px && e.2 == anchor.x.raw)
            &&& (e.1 == anchor.y.raw && e.3 == py) || (e.1 == py && e.3 == anchor.y.raw)
            &&& band_ops(Some(b)).len() == 2
            &&& band_ops(Some(b))[0] matches DrawModel::Fill(path, _) && goes_round(
                path,
                e.0,
                e.1,
                e.2,
                e.3,
            )
            &&& band_ops(Some(b))[1] matches DrawModel::Dashed(path, _) && goes_round(
                path,
                e.0,
                e.1,
                e.2,
                e.3,
            )
            &&& band_ops::<Micro>(None).len() == 0
        }),
{
}

} // verus!
