//! What frames are for, in millionths: the least ones that hold what they are the frames of.
use vstd::prelude::*;
use crate::bounds::{node_bounds, shape_frame, visual_frame, visual_frames};
use crate::exact::{sines_stay_within_one, within};
use crate::geometry::{center, turn_about, turned_bounds, united, united_all, Corner, Point};
use crate::grips::{drawn_at, ways};
use crate::micro::Micro;
use crate::millionths::half_reads;
use crate::node::{NodeKind, NodeModel};
use crate::products::{distributed, product_within, regrouped};
use crate::scalar::Scalar;
use crate::scene::{peek, shapes};
use crate::turning::turned_point_is;

verus! {

/// The four edges of a frame: left, top, right, bottom.
pub open spec fn edges(f: (Micro, Micro, Micro, Micro)) -> (int, int, int, int) {
    (f.0.raw as int, f.1.raw as int, f.0.raw + f.2.raw, f.1.raw + f.3.raw)
}

/// Whether the edges of a frame are within reach.
pub open spec fn reachable(f: (Micro, Micro, Micro, Micro), reach: int) -> bool {
    &&& -reach <= edges(f).0 <= reach
    &&& -reach <= edges(f).1 <= reach
    &&& -reach <= edges(f).2 <= reach
    &&& -reach <= edges(f).3 <= reach
}

/// Whether one frame holds another.
pub open spec fn holds(
    outer: (Micro, Micro, Micro, Micro),
    inner: (Micro, Micro, Micro, Micro),
) -> bool {
    let (o, i) = (edges(outer), edges(inner));
    o.0 <= i.0 && o.1 <= i.1 && i.2 <= o.2 && i.3 <= o.3
}

/// The union of two frames holds both, and each of its edges is an edge of one of them.
pub proof fn unions_hold_both(a: (Micro, Micro, Micro, Micro), b: (Micro, Micro, Micro, Micro))
    requires
        reachable(a, 1_000_000_000_000_000),
        reachable(b, 1_000_000_000_000_000),
    ensures
        holds(united(a, b), a),
        holds(united(a, b), b),
        ({
            let (u, e, f) = (edges(united(a, b)), edges(a), edges(b));
            &&& u.0 == e.0 || u.0 == f.0
            &&& u.1 == e.1 || u.1 == f.1
            &&& u.2 == e.2 || u.2 == f.2
            &&& u.3 == e.3 || u.3 == f.3
        }),
        reachable(united(a, b), 1_000_000_000_000_000),
{
}

/// Whether each edge of a frame is an edge of some of a list.
pub open spec fn touches_each(
    f: (Micro, Micro, Micro, Micro),
    frames: Seq<(Micro, Micro, Micro, Micro)>,
) -> bool {
    &&& exists|i: int| 0 <= i < frames.len() && edges(#[trigger] frames[i]).0 == edges(f).0
    &&& exists|i: int| 0 <= i < frames.len() && edges(#[trigger] frames[i]).1 == edges(f).1
    &&& exists|i: int| 0 <= i < frames.len() && edges(#[trigger] frames[i]).2 == edges(f).2
    &&& exists|i: int| 0 <= i < frames.len() && edges(#[trigger] frames[i]).3 == edges(f).3
}

proof fn touches_more(
    f: (Micro, Micro, Micro, Micro),
    frames: Seq<(Micro, Micro, Micro, Micro)>,
    last: (Micro, Micro, Micro, Micro),
    u: (Micro, Micro, Micro, Micro),
)
    requires
        touches_each(f, frames.drop_last()),
        frames.len() > 0,
        frames.last() == last,
        edges(u).0 == edges(f).0 || edges(u).0 == edges(last).0,
        edges(u).1 == edges(f).1 || edges(u).1 == edges(last).1,
        edges(u).2 == edges(f).2 || edges(u).2 == edges(last).2,
        edges(u).3 == edges(f).3 || edges(u).3 == edges(last).3,
    ensures
        touches_each(u, frames),
{
    let front = frames.drop_last();
    let n = frames.len() - 1;
    assert(frames[n] == last);
    let a = choose|i: int| 0 <= i < front.len() && edges(#[trigger] front[i]).0 == edges(f).0;
    let b = choose|i: int| 0 <= i < front.len() && edges(#[trigger] front[i]).1 == edges(f).1;
    let c = choose|i: int| 0 <= i < front.len() && edges(#[trigger] front[i]).2 == edges(f).2;
    let d = choose|i: int| 0 <= i < front.len() && edges(#[trigger] front[i]).3 == edges(f).3;
    assert(frames[a] == front[a] && frames[b] == front[b] && frames[c] == front[c] && frames[d]
        == front[d]);
}

/// The union of some frames holds every one of them, and is the least that does: each of its edges
/// is an edge of one of them.
pub proof fn unions_hold_all(frames: Seq<(Micro, Micro, Micro, Micro)>)
    requires
        frames.len() > 0,
        forall|i: int|
            0 <= i < frames.len() ==> reachable(#[trigger] frames[i], 1_000_000_000_000_000),
    ensures
        united_all(frames) matches Some(u) && {
            &&& reachable(u, 1_000_000_000_000_000)
            &&& touches_each(u, frames)
            &&& forall|i: int| 0 <= i < frames.len() ==> holds(u, #[trigger] frames[i])
        },
    decreases frames.len(),
{
    let front = frames.drop_last();
    let n = frames.len() - 1;
    assert(reachable(frames[n], 1_000_000_000_000_000));
    assert forall|i: int| 0 <= i < front.len() implies reachable(
        #[trigger] front[i],
        1_000_000_000_000_000,
    ) by {
        assert(front[i] == frames[i]);
    }
    if n > 0 {
        unions_hold_all(front);
        let acc = united_all(front)->0;
        unions_hold_both(acc, frames[n]);
        let u = united(acc, frames[n]);
        touches_more(acc, frames, frames[n], u);
        assert forall|i: int| 0 <= i < frames.len() implies holds(u, #[trigger] frames[i]) by {
            if i < n {
                assert(front[i] == frames[i]);
                assert(holds(acc, front[i]));
            }
        }
    } else {
        assert(united_all(front) is None);
        assert(frames[0] == frames.last());
    }
}

/// A group's frame is the least that holds what its shapes occupy; a group without shapes has none.
pub proof fn groups_are_framed_by_their_shapes(rows: Seq<NodeModel<Micro>>, g: u64)
    requires
        peek(rows, g).kind == NodeKind::Group,
        forall|i: int|
            0 <= i < shapes(rows, g).len() ==> reachable(
                visual_frame(peek(rows, #[trigger] shapes(rows, g)[i])),
                1_000_000_000_000_000,
            ),
    ensures
        shapes(rows, g).len() == 0 ==> node_bounds(rows, g) is None,
        shapes(rows, g).len() > 0 ==> (node_bounds(rows, g) matches Some(u) && {
            &&& touches_each(u, visual_frames(rows, shapes(rows, g)))
            &&& forall|i: int|
                0 <= i < shapes(rows, g).len() ==> holds(
                    u,
                    visual_frame(peek(rows, #[trigger] shapes(rows, g)[i])),
                )
        }),
{
    let ids = shapes(rows, g);
    let frames = visual_frames(rows, ids);
    assert forall|i: int| 0 <= i < frames.len() implies reachable(
        #[trigger] frames[i],
        1_000_000_000_000_000,
    ) by {
        assert(frames[i] == visual_frame(peek(rows, ids[i])));
    }
    if ids.len() > 0 {
        unions_hold_all(frames);
        let u = united_all(frames)->0;
        assert forall|i: int| 0 <= i < ids.len() implies holds(
            u,
            visual_frame(peek(rows, #[trigger] ids[i])),
        ) by {
            assert(holds(u, frames[i]));
        }
    }
}

/// A line's frame is the least that holds its two ends.
pub proof fn lines_are_framed_by_their_ends(n: NodeModel<Micro>)
    requires
        n.kind == NodeKind::Line,
        within(n.x, 1_000_000_000_000_000),
        within(n.y, 1_000_000_000_000_000),
        within(n.w, 1_000_000_000_000_000),
        within(n.h, 1_000_000_000_000_000),
    ensures
        ({
            let e = edges(shape_frame(n));
            let (x0, y0) = (n.x.raw as int, n.y.raw as int);
            let (x1, y1) = (n.x.raw + n.w.raw, n.y.raw + n.h.raw);
            &&& (e.0 == x0 && e.2 == x1) || (e.0 == x1 && e.2 == x0)
            &&& (e.1 == y0 && e.3 == y1) || (e.1 == y1 && e.3 == y0)
            &&& e.0 <= e.2 && e.1 <= e.3
        }),
{
}

// ---------------------------------------------------------------------------
// Turned frames
// ---------------------------------------------------------------------------

/// A corner that is turned about the middle of its frame is where it is drawn.
proof fn turned_corners_are_drawn(
    f: (Micro, Micro, Micro, Micro),
    p: Point<Micro>,
    way: (int, int),
    degrees: Micro,
)
    requires
        within(f.0, 400_000_000_000),
        within(f.1, 400_000_000_000),
        within(f.2, 400_000_000_000),
        within(f.3, 400_000_000_000),
        way.0 == 1 || way.0 == -1,
        way.1 == 1 || way.1 == -1,
        p.x.raw == f.0.raw + if way.0 == 1 {
            f.2.raw as int
        } else {
            0
        },
        p.y.raw == f.1.raw + if way.1 == 1 {
            f.3.raw as int
        } else {
            0
        },
    ensures
        ({
            let (sin, cos) = degrees.sine_cosine();
            let q = turn_about(p, center(f), degrees);
            let d = drawn_at(f, way, sin.raw as int, cos.raw as int);
            &&& -10_000_000 <= 2_000_000 * q.x.raw - d.0 <= 10_000_000
            &&& -10_000_000 <= 2_000_000 * q.y.raw - d.1 <= 10_000_000
            &&& within(q.x, 20_000_000_000_000)
            &&& within(q.y, 20_000_000_000_000)
        }),
{
    let (sin, cos) = degrees.sine_cosine();
    let (s, k) = (sin.raw as int, cos.raw as int);
    sines_stay_within_one(degrees);
    half_reads(f.2);
    half_reads(f.3);
    let c = center(f);
    turned_point_is(p, c, degrees);
    let (u, v) = (way.0 * f.2.raw, way.1 * f.3.raw);
    let (ox, oy) = (p.x.raw - c.x.raw, p.y.raw - c.y.raw);
    distributed(f.2.raw as int, 0, 1);
    distributed(f.3.raw as int, 0, 1);
    assert(u == if way.0 == 1 {
        f.2.raw as int
    } else {
        -f.2.raw
    });
    assert(v == if way.1 == 1 {
        f.3.raw as int
    } else {
        -f.3.raw
    });
    twice_but_little(ox, u, k);
    twice_but_little(ox, u, s);
    twice_but_little(oy, v, k);
    twice_but_little(oy, v, s);
}

proof fn twice_but_little(o: int, u: int, k: int)
    requires
        -2 <= 2 * o - u <= 2,
        -1_000_000 <= k <= 1_000_000,
    ensures
        -2_000_000 <= 2 * (o * k) - u * k <= 2_000_000,
{
    distributed(k, 2 * o, u);
    regrouped(2, o, k);
    product_within(2 * o - u, k, 2, 1_000_000);
}

/// Where the four corners of a turned frame are drawn.
pub open spec fn drawn_corner(f: (Micro, Micro, Micro, Micro), corner: Corner, degrees: Micro) -> (
    int,
    int,
) {
    let (sin, cos) = degrees.sine_cosine();
    drawn_at(f, ways(corner), sin.raw as int, cos.raw as int)
}

/// The bounds of a turned frame hold its four corners as drawn, and each of their edges is at one
/// of the corners, but for some millionths.
#[verifier::spinoff_prover]
pub proof fn turned_bounds_hold_the_drawn_corners(f: (Micro, Micro, Micro, Micro), degrees: Micro)
    requires
        within(f.0, 400_000_000_000),
        within(f.1, 400_000_000_000),
        within(f.2, 400_000_000_000),
        within(f.3, 400_000_000_000),
    ensures
        ({
            let e = edges(turned_bounds(f, degrees));
            &&& forall|c: Corner|
                {
                    let d = #[trigger] drawn_corner(f, c, degrees);
                    &&& 2_000_000 * e.0 - 10_000_000 <= d.0 <= 2_000_000 * e.2 + 10_000_000
                    &&& 2_000_000 * e.1 - 10_000_000 <= d.1 <= 2_000_000 * e.3 + 10_000_000
                }
            &&& exists|c: Corner|
                (#[trigger] drawn_corner(f, c, degrees)).0 <= 2_000_000 * e.0 + 10_000_000
            &&& exists|c: Corner|
                (#[trigger] drawn_corner(f, c, degrees)).1 <= 2_000_000 * e.1 + 10_000_000
            &&& exists|c: Corner|
                (#[trigger] drawn_corner(f, c, degrees)).0 >= 2_000_000 * e.2 - 10_000_000
            &&& exists|c: Corner|
                (#[trigger] drawn_corner(f, c, degrees)).1 >= 2_000_000 * e.3 - 10_000_000
        }),
{
    let c = center(f);
    let p0 = Point { x: f.0, y: f.1 };
    let p1 = Point { x: f.0.plus(f.2), y: f.1 };
    let p2 = Point { x: f.0, y: f.1.plus(f.3) };
    let p3 = Point { x: f.0.plus(f.2), y: f.1.plus(f.3) };
    turned_corners_are_drawn(f, p0, (-1, -1), degrees);
    turned_corners_are_drawn(f, p1, (1, -1), degrees);
    turned_corners_are_drawn(f, p2, (-1, 1), degrees);
    turned_corners_are_drawn(f, p3, (1, 1), degrees);
    let (q0, q1, q2, q3) = (
        turn_about(p0, c, degrees),
        turn_about(p1, c, degrees),
        turn_about(p2, c, degrees),
        turn_about(p3, c, degrees),
    );
    let (d0, d1, d2, d3) = (
        drawn_corner(f, Corner::TopLeft, degrees),
        drawn_corner(f, Corner::TopRight, degrees),
        drawn_corner(f, Corner::BottomLeft, degrees),
        drawn_corner(f, Corner::BottomRight, degrees),
    );
    let r = turned_bounds(f, degrees);
    spans(q0.x, q1.x, q2.x, q3.x);
    spans(q0.y, q1.y, q2.y, q3.y);
    let e = edges(r);
}

/// The least and the greatest of four numbers.
proof fn spans(a: Micro, b: Micro, c: Micro, d: Micro)
    requires
        within(a, 20_000_000_000_000),
        within(b, 20_000_000_000_000),
        within(c, 20_000_000_000_000),
        within(d, 20_000_000_000_000),
    ensures
        ({
            let lo = Micro::highest().lesser(a).lesser(b).lesser(c).lesser(d);
            let hi = Micro::lowest().greater(a).greater(b).greater(c).greater(d);
            &&& lo.raw <= a.raw <= hi.raw && lo.raw <= b.raw <= hi.raw
            &&& lo.raw <= c.raw <= hi.raw && lo.raw <= d.raw <= hi.raw
            &&& lo == a || lo == b || lo == c || lo == d
            &&& hi == a || hi == b || hi == c || hi == d
            &&& lo.raw + hi.minus(lo).raw == hi.raw
        }),
{
}

/// The frame that a shape is seen in holds its corners as they are drawn, turned by its own angle,
/// and is no larger, but for some millionths; an upright shape is seen in its own frame.
pub proof fn shapes_are_seen_in_the_frame_of_their_corners(n: NodeModel<Micro>)
    requires
        n.kind == NodeKind::Rect || n.kind == NodeKind::Oval || n.kind == NodeKind::Image,
        within(n.x, 400_000_000_000),
        within(n.y, 400_000_000_000),
        0 <= n.w.raw <= 400_000_000_000,
        0 <= n.h.raw <= 400_000_000_000,
    ensures
        ({
            let f = (n.x, n.y, n.w, n.h);
            let e = edges(visual_frame(n));
            &&& n.rotation.raw % 360_000_000 == 0 ==> visual_frame(n) == f
            &&& n.rotation.raw % 360_000_000 != 0 ==> {
                &&& forall|c: Corner|
                    {
                        let d = #[trigger] drawn_corner(f, c, n.rotation);
                        &&& 2_000_000 * e.0 - 10_000_000 <= d.0 <= 2_000_000 * e.2 + 10_000_000
                        &&& 2_000_000 * e.1 - 10_000_000 <= d.1 <= 2_000_000 * e.3 + 10_000_000
                    }
                &&& exists|c: Corner|
                    (#[trigger] drawn_corner(f, c, n.rotation)).0 <= 2_000_000 * e.0 + 10_000_000
                &&& exists|c: Corner|
                    (#[trigger] drawn_corner(f, c, n.rotation)).1 <= 2_000_000 * e.1 + 10_000_000
                &&& exists|c: Corner|
                    (#[trigger] drawn_corner(f, c, n.rotation)).0 >= 2_000_000 * e.2 - 10_000_000
                &&& exists|c: Corner|
                    (#[trigger] drawn_corner(f, c, n.rotation)).1 >= 2_000_000 * e.3 - 10_000_000
            }
        }),
{
    let f = (n.x, n.y, n.w, n.h);
    assert(Micro::of_int(360).raw == 360_000_000 && Micro::of_int(0).raw == 0);
    let angle = n.rotation.wrapped(Micro::of_int(360));
    assert(angle.raw == n.rotation.raw as int % 360_000_000);
    assert(angle.sine_cosine() == n.rotation.sine_cosine());
    if angle.raw != 0 {
        turned_bounds_hold_the_drawn_corners(f, angle);
        assert forall|c: Corner| #[trigger] drawn_corner(f, c, n.rotation) == drawn_corner(
            f,
            c,
            angle,
        ) by {}
        let e = edges(turned_bounds(f, angle));
        let c = choose|c: Corner|
            (#[trigger] drawn_corner(f, c, angle)).0 <= 2_000_000 * e.0 + 10_000_000;
        assert(drawn_corner(f, c, n.rotation).0 <= 2_000_000 * e.0 + 10_000_000);
        let c = choose|c: Corner|
            (#[trigger] drawn_corner(f, c, angle)).1 <= 2_000_000 * e.1 + 10_000_000;
        assert(drawn_corner(f, c, n.rotation).1 <= 2_000_000 * e.1 + 10_000_000);
        let c = choose|c: Corner|
            (#[trigger] drawn_corner(f, c, angle)).0 >= 2_000_000 * e.2 - 10_000_000;
        assert(drawn_corner(f, c, n.rotation).0 >= 2_000_000 * e.2 - 10_000_000);
        let c = choose|c: Corner|
            (#[trigger] drawn_corner(f, c, angle)).1 >= 2_000_000 * e.3 - 10_000_000;
        assert(drawn_corner(f, c, n.rotation).1 >= 2_000_000 * e.3 - 10_000_000);
    }
}

} // verus!
