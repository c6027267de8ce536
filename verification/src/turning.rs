//! Laws of turning: a group turns as one body, about a point that the turn keeps.
use vstd::prelude::*;
use crate::bodies::shapes_are_counted_once;
use crate::bounds::{line_ends, shape_frame};
use crate::exact::{sines_stay_within_one, within};
use crate::geometry::{center, turn_about, Point};
use crate::micro::{wrap_spec, Micro};
use crate::motion::{center_sum, orbited, orbited_each, pivot, turned_to};
use crate::node::{NodeKind, NodeModel};
use crate::ops::count_spec;
use crate::order::written_peeks;
use crate::rotor::quarters_point_well;
use crate::scalar::{half, Scalar};
use crate::scene::{distinct, has_row, peek, reach, shapes, written, FieldModel};
use crate::shown::{
    same_layers, same_layers_join, same_layers_same_shapes_within, surface,
    surface_writes_keep_the_layers,
};
use crate::tree::{
    forest, same_tree, same_tree_keeps_the_forest, turning_keeps_the_tree,
};
use crate::zooms::{gap, shares};

verus! {

// ---------------------------------------------------------------------------
// One body
// ---------------------------------------------------------------------------

/// A point that has orbited `c` by `delta` degrees.
#[verifier::opaque]
pub open spec fn turned_point<S: Scalar>(p: Point<S>, c: Point<S>, delta: S) -> Point<S> {
    turn_about(p, c, delta)
}

/// A shape that has orbited `c` by `delta` degrees: a line by its two ends, any other shape by
/// its centre and its own angle, at its size.
pub open spec fn orbited_row<S: Scalar>(n: NodeModel<S>, c: Point<S>, delta: S) -> NodeModel<S> {
    if n.kind == NodeKind::Line {
        let (a, b) = line_ends(n);
        let a2 = turned_point(a, c, delta);
        let b2 = turned_point(b, c, delta);
        NodeModel { x: a2.x, y: a2.y, w: b2.x.minus(a2.x), h: b2.y.minus(a2.y), ..n }
    } else {
        let m = turned_point(center((n.x, n.y, n.w, n.h)), c, delta);
        NodeModel {
            x: m.x.minus(half(n.w)),
            y: m.y.minus(half(n.h)),
            rotation: n.rotation.plus(delta).wrapped(S::of_int(360)),
            ..n
        }
    }
}

proof fn one_orbits<S: Scalar>(rows: Seq<NodeModel<S>>, id: u64, c: Point<S>, delta: S)
    requires
        distinct(rows),
    ensures
        distinct(orbited(rows, id, c, delta)),
        forall|x: u64| #[trigger] has_row(orbited(rows, id, c, delta), x) <==> has_row(rows, x),
        forall|x: u64| x != id ==> #[trigger] peek(orbited(rows, id, c, delta), x) == peek(rows, x),
        has_row(rows, id) ==> peek(orbited(rows, id, c, delta), id) == orbited_row(
            peek(rows, id),
            c,
            delta,
        ),
{
    reveal(turned_point);
    let n = peek(rows, id);
    if n.kind == NodeKind::Line {
        let (a, b) = line_ends(n);
        let a2 = turn_about(a, c, delta);
        let b2 = turn_about(b, c, delta);
        let f0 = FieldModel::X(a2.x);
        let f1 = FieldModel::Y(a2.y);
        let f2 = FieldModel::W(b2.x.minus(a2.x));
        let f3 = FieldModel::H(b2.y.minus(a2.y));
        let r1 = written(rows, id, f0);
        let r2 = written(r1, id, f1);
        let r3 = written(r2, id, f2);
        written_peeks(rows, id, f0);
        written_peeks(r1, id, f1);
        written_peeks(r2, id, f2);
        written_peeks(r3, id, f3);
        assert(orbited(rows, id, c, delta) == written(r3, id, f3));
    } else {
        let m = turn_about(center((n.x, n.y, n.w, n.h)), c, delta);
        let f0 = FieldModel::X(m.x.minus(half(n.w)));
        let f1 = FieldModel::Y(m.y.minus(half(n.h)));
        let f2 = FieldModel::Rotation(n.rotation.plus(delta).wrapped(S::of_int(360)));
        let r1 = written(rows, id, f0);
        let r2 = written(r1, id, f1);
        written_peeks(rows, id, f0);
        written_peeks(r1, id, f1);
        written_peeks(r2, id, f2);
        assert(orbited(rows, id, c, delta) == written(r2, id, f2));
    }
}

proof fn each_orbits<S: Scalar>(rows: Seq<NodeModel<S>>, ids: Seq<u64>, c: Point<S>, delta: S)
    requires
        distinct(rows),
        ids.no_duplicates(),
    ensures
        distinct(orbited_each(rows, ids, c, delta)),
        forall|x: u64| #[trigger]
            has_row(orbited_each(rows, ids, c, delta), x) <==> has_row(rows, x),
        forall|x: u64|
            !ids.contains(x) ==> #[trigger] peek(orbited_each(rows, ids, c, delta), x) == peek(
                rows,
                x,
            ),
        forall|x: u64|
            ids.contains(x) && has_row(rows, x) ==> #[trigger] peek(
                orbited_each(rows, ids, c, delta),
                x,
            ) == orbited_row(peek(rows, x), c, delta),
    decreases ids.len(),
{
    if ids.len() > 0 {
        let front = ids.drop_last();
        let n = ids.len() - 1;
        let id = ids[n];
        assert(front.no_duplicates()) by {
            assert forall|i: int, j: int|
                0 <= i < front.len() && 0 <= j < front.len() && i != j implies front[i]
                != front[j] by {
                assert(ids[i] != ids[j]);
            }
        }
        each_orbits(rows, front, c, delta);
        let r = orbited_each(rows, front, c, delta);
        one_orbits(r, id, c, delta);
        assert(!front.contains(id)) by {
            if front.contains(id) {
                let k = choose|k: int| 0 <= k < front.len() && front[k] == id;
                assert(ids[k] == ids[n]);
            }
        }
        let w = orbited_each(rows, ids, c, delta);
        assert(w == orbited(r, id, c, delta));
        assert forall|x: u64| !ids.contains(x) implies #[trigger] peek(w, x) == peek(rows, x) by {
            assert(ids.contains(ids[n]));
            if front.contains(x) {
                let k = choose|k: int| 0 <= k < front.len() && front[k] == x;
                assert(ids[k] == x);
            }
            assert(peek(r, x) == peek(rows, x));
        }
        assert forall|x: u64| ids.contains(x) && has_row(rows, x) implies #[trigger] peek(w, x)
            == orbited_row(peek(rows, x), c, delta) by {
            if x == id {
                assert(peek(r, id) == peek(rows, id));
                assert(has_row(r, id));
            } else {
                let k = choose|k: int| 0 <= k < ids.len() && ids[k] == x;
                assert(front[k] == x);
                assert(peek(r, x) == orbited_row(peek(rows, x), c, delta));
            }
        }
    }
}

/// A group turns as one body: every shape in it orbits the one pivot by the one angle, and keeps
/// its size; nothing outside it changes, and the group is at the angle it was turned to.
pub proof fn groups_turn_as_one_body<S: Scalar>(rows: Seq<NodeModel<S>>, g: u64, angle: S)
    requires
        forest(rows),
        has_row(rows, g),
        peek(rows, g).kind == NodeKind::Group,
        shapes(rows, g).len() > 0,
    ensures
        ({
            let c = pivot(rows, shapes(rows, g));
            let delta = angle.minus(peek(rows, g).rotation);
            let after = turned_to(rows, g, angle);
            &&& distinct(after)
            &&& forall|x: u64| #[trigger] has_row(after, x) <==> has_row(rows, x)
            &&& forall|x: u64|
                shapes(rows, g).contains(x) ==> #[trigger] peek(after, x) == orbited_row(
                    peek(rows, x),
                    c,
                    delta,
                )
            &&& forall|x: u64|
                !shapes(rows, g).contains(x) && x != g ==> #[trigger] peek(after, x) == peek(
                    rows,
                    x,
                )
            &&& peek(after, g) == (NodeModel { rotation: angle, ..peek(rows, g) })
        }),
{
    let ids = shapes(rows, g);
    let c = pivot(rows, ids);
    let delta = angle.minus(peek(rows, g).rotation);
    shapes_are_counted_once(rows, g);
    each_orbits(rows, ids, c, delta);
    let r = orbited_each(rows, ids, c, delta);
    let f = FieldModel::Rotation(angle);
    written_peeks(r, g, f);
    let after = turned_to(rows, g, angle);
    assert(after == written(r, g, f));
    assert(!ids.contains(g));
    assert forall|x: u64| ids.contains(x) implies #[trigger] peek(after, x) == orbited_row(
        peek(rows, x),
        c,
        delta,
    ) by {
        assert(has_row(rows, x) && x != g);
        assert(peek(r, x) == orbited_row(peek(rows, x), c, delta));
    }
    assert forall|x: u64| !ids.contains(x) && x != g implies #[trigger] peek(after, x) == peek(
        rows,
        x,
    ) by {
        assert(peek(r, x) == peek(rows, x));
    }
}

proof fn one_orbit_keeps_the_layers<S: Scalar>(
    rows: Seq<NodeModel<S>>,
    id: u64,
    c: Point<S>,
    delta: S,
)
    ensures
        same_layers(rows, orbited(rows, id, c, delta)),
{
    assert(same_layers(rows, rows)) by {
        assert(same_tree(rows, rows));
    }
    assert forall|b: Seq<NodeModel<S>>, f: FieldModel<S>|
        same_layers(rows, b) && surface(f) implies same_layers(
        rows,
        #[trigger] written(b, id, f),
    ) by {
        surface_writes_keep_the_layers(b, id, f);
        same_layers_join(rows, b, written(b, id, f));
    }
}

proof fn orbits_keep_the_layers<S: Scalar>(
    rows: Seq<NodeModel<S>>,
    ids: Seq<u64>,
    c: Point<S>,
    delta: S,
)
    ensures
        same_layers(rows, orbited_each(rows, ids, c, delta)),
    decreases ids.len(),
{
    if ids.len() > 0 {
        orbits_keep_the_layers(rows, ids.drop_last(), c, delta);
        let r = orbited_each(rows, ids.drop_last(), c, delta);
        one_orbit_keeps_the_layers(r, ids.last(), c, delta);
        same_layers_join(rows, r, orbited_each(rows, ids, c, delta));
    } else {
        assert(same_tree(rows, rows));
    }
}

/// Turning a group leaves what is in it, in its order.
pub proof fn turns_keep_the_members<S: Scalar>(rows: Seq<NodeModel<S>>, g: u64, angle: S)
    requires
        distinct(rows),
        peek(rows, g).kind == NodeKind::Group,
    ensures
        shapes(turned_to(rows, g, angle), g) == shapes(rows, g),
{
    let ids = shapes(rows, g);
    if ids.len() > 0 {
        let c = pivot(rows, ids);
        let delta = angle.minus(peek(rows, g).rotation);
        let r = orbited_each(rows, ids, c, delta);
        let f = FieldModel::Rotation(angle);
        orbits_keep_the_layers(rows, ids, c, delta);
        surface_writes_keep_the_layers(r, g, f);
        let w = written(r, g, f);
        same_layers_join(rows, r, w);
        assert(w.len() == rows.len());
        same_layers_same_shapes_within(rows, w, g, reach(rows));
    }
}

// ---------------------------------------------------------------------------
// The pivot
// ---------------------------------------------------------------------------

/// The centre of what a shape occupies.
pub open spec fn middle<S: Scalar>(n: NodeModel<S>) -> Point<S> {
    center(shape_frame(n))
}

/// Whether a shape lies within a million units of the origin.
pub open spec fn at_hand(n: NodeModel<Micro>) -> bool {
    &&& within(n.x, 1_000_000_000_000)
    &&& within(n.y, 1_000_000_000_000)
    &&& within(n.w, 1_000_000_000_000)
    &&& within(n.h, 1_000_000_000_000)
}

/// Twice a middle's coordinate, up to one millionth, from the two ends of its span.
pub proof fn middle_is(n: NodeModel<Micro>)
    requires
        within(n.x, 100_000_000_000_000),
        within(n.y, 100_000_000_000_000),
        within(n.w, 100_000_000_000_000),
        within(n.h, 100_000_000_000_000),
    ensures
        2 * n.x.raw + n.w.raw - 2 <= 2 * middle(n).x.raw <= 2 * n.x.raw + n.w.raw + 2,
        2 * n.y.raw + n.h.raw - 2 <= 2 * middle(n).y.raw <= 2 * n.y.raw + n.h.raw + 2,
        at_hand(n) ==> within(middle(n).x, 3_000_000_000_000) && within(
            middle(n).y,
            3_000_000_000_000,
        ),
        n.kind != NodeKind::Line ==> middle(n) == center((n.x, n.y, n.w, n.h)),
{
    halved(n.w);
    halved(n.h);
    halved(n.w.magnitude());
    halved(n.h.magnitude());
}

/// Half of a number, up to a millionth.
pub proof fn halved(v: Micro)
    requires
        within(v, 100_000_000_000_000),
    ensures
        v.raw - 1 <= 2 * half(v).raw <= v.raw + 1,
        v.raw >= 0 ==> 2 * half(v).raw <= v.raw,
        v.raw <= 0 ==> 2 * half(v).raw >= v.raw,
{
    let n = v.raw * 1_000_000;
    if n >= 0 {
        assert(half(v).raw == n / 2_000_000);
    } else {
        assert(half(v).raw == -(-n / 2_000_000));
    }
}

/// The millionths of a product, but for less than one.
proof fn product_is(v: Micro, u: Micro)
    requires
        within(v, 8_000_000_000_000),
        within(u, 1_000_000),
    ensures
        v.raw * u.raw - 1_000_000 < v.times(u).raw * 1_000_000 < v.raw * u.raw + 1_000_000,
        within(v.times(u), 8_000_000_000_000),
{
    let n = v.raw * u.raw;
    assert(-8_000_000_000_000_000_000 <= n <= 8_000_000_000_000_000_000) by (nonlinear_arith)
        requires
            n == v.raw * u.raw,
            -8_000_000_000_000 <= v.raw <= 8_000_000_000_000,
            -1_000_000 <= u.raw <= 1_000_000,
    ;
    if n >= 0 {
        assert(v.times(u).raw == n / 1_000_000);
    } else {
        assert(v.times(u).raw == -(-n / 1_000_000));
    }
}

/// A turned point, but for two millionths either way: what the sine and the cosine make of its
/// distances from the pivot.
pub proof fn turned_point_is(p: Point<Micro>, c: Point<Micro>, delta: Micro)
    requires
        within(p.x, 3_000_000_000_000),
        within(p.y, 3_000_000_000_000),
        within(c.x, 3_000_000_000_000),
        within(c.y, 3_000_000_000_000),
    ensures
        ({
            let q = turn_about(p, c, delta);
            let (s, k) = delta.sine_cosine();
            let (dx, dy) = (p.x.raw - c.x.raw, p.y.raw - c.y.raw);
            &&& -2_000_000 < (q.x.raw - c.x.raw) * 1_000_000 - (dx * k.raw - dy * s.raw)
                < 2_000_000
            &&& -2_000_000 < (q.y.raw - c.y.raw) * 1_000_000 - (dx * s.raw + dy * k.raw)
                < 2_000_000
            &&& within(q.x, 20_000_000_000_000)
            &&& within(q.y, 20_000_000_000_000)
        }),
{
    let (s, k) = delta.sine_cosine();
    sines_stay_within_one(delta);
    let dx = p.x.minus(c.x);
    let dy = p.y.minus(c.y);
    product_is(dx, k);
    product_is(dy, s);
    product_is(dx, s);
    product_is(dy, k);
}

/// Where the middle of a shape is once the shape has orbited: turned with it, but for five
/// millionths.
pub proof fn middles_orbit(n: NodeModel<Micro>, c: Point<Micro>, delta: Micro)
    requires
        at_hand(n),
        within(c.x, 3_000_000_000_000),
        within(c.y, 3_000_000_000_000),
    ensures
        ({
            let p = middle(n);
            let q = middle(orbited_row(n, c, delta));
            let (s, k) = delta.sine_cosine();
            let (dx, dy) = (p.x.raw - c.x.raw, p.y.raw - c.y.raw);
            &&& -5_000_000 < (q.x.raw - c.x.raw) * 1_000_000 - (dx * k.raw - dy * s.raw)
                < 5_000_000
            &&& -5_000_000 < (q.y.raw - c.y.raw) * 1_000_000 - (dx * s.raw + dy * k.raw)
                < 5_000_000
            &&& within(q.x, 90_000_000_000_000)
            &&& within(q.y, 90_000_000_000_000)
        }),
{
    reveal(turned_point);
    let (s, k) = delta.sine_cosine();
    sines_stay_within_one(delta);
    middle_is(n);
    let m = orbited_row(n, c, delta);
    let p = middle(n);
    if n.kind == NodeKind::Line {
        let (a, b) = line_ends(n);
        let a2 = turn_about(a, c, delta);
        let b2 = turn_about(b, c, delta);
        turned_point_is(a, c, delta);
        turned_point_is(b, c, delta);
        middle_is(m);
        let q = middle(m);
        let (sr, kr) = (s.raw as int, k.raw as int);
        let ax = a.x.raw - c.x.raw;
        let ay = a.y.raw - c.y.raw;
        let bx = b.x.raw - c.x.raw;
        let by = b.y.raw - c.y.raw;
        let dx = p.x.raw - c.x.raw;
        let dy = p.y.raw - c.y.raw;
        let ex = 2 * dx - ax - bx;
        let ey = 2 * dy - ay - by;
        assert(-2 <= ex <= 2 && -2 <= ey <= 2);
        slight(ex, kr);
        slight(ey, sr);
        slight(ex, sr);
        slight(ey, kr);
        assert(2 * (dx * kr) == ax * kr + bx * kr + ex * kr) by (nonlinear_arith)
            requires
                ex == 2 * dx - ax - bx,
        ;
        assert(2 * (dy * sr) == ay * sr + by * sr + ey * sr) by (nonlinear_arith)
            requires
                ey == 2 * dy - ay - by,
        ;
        assert(2 * (dx * sr) == ax * sr + bx * sr + ex * sr) by (nonlinear_arith)
            requires
                ex == 2 * dx - ax - bx,
        ;
        assert(2 * (dy * kr) == ay * kr + by * kr + ey * kr) by (nonlinear_arith)
            requires
                ey == 2 * dy - ay - by,
        ;
        assert(a2.x.raw + b2.x.raw - 2 <= 2 * q.x.raw <= a2.x.raw + b2.x.raw + 2);
        assert(a2.y.raw + b2.y.raw - 2 <= 2 * q.y.raw <= a2.y.raw + b2.y.raw + 2);
    } else {
        turned_point_is(p, c, delta);
        let t = turn_about(p, c, delta);
        halved(n.w);
        halved(n.h);
        assert(middle(m) == t);
    }
}

proof fn slight(e: int, u: int)
    requires
        -2 <= e <= 2,
        -1_000_000 <= u <= 1_000_000,
    ensures
        -2_000_000 <= e * u <= 2_000_000,
{
    assert(-2_000_000 <= e * u <= 2_000_000) by (nonlinear_arith)
        requires
            -2 <= e <= 2,
            -1_000_000 <= u <= 1_000_000,
    ;
}

/// Whether every one of some shapes lies within a million units of the origin.
pub open spec fn all_at_hand(rows: Seq<NodeModel<Micro>>, ids: Seq<u64>) -> bool {
    forall|i: int| 0 <= i < ids.len() ==> at_hand(peek(rows, #[trigger] ids[i]))
}

/// How near the sum `w` of `n` turned points is to the turn of the sum `u`.
pub open spec fn leans(
    u: (int, int),
    w: (int, int),
    c: (int, int),
    turn: (int, int),
    n: int,
) -> bool {
    let (rx, ry) = (u.0 - n * c.0, u.1 - n * c.1);
    &&& -5_000_000 * n <= (w.0 - n * c.0) * 1_000_000 - (rx * turn.1 - ry * turn.0)
        <= 5_000_000 * n
    &&& -5_000_000 * n <= (w.1 - n * c.1) * 1_000_000 - (rx * turn.0 + ry * turn.1)
        <= 5_000_000 * n
}

/// A point's coordinates, in millionths.
pub open spec fn raws(p: Point<Micro>) -> (int, int) {
    (p.x.raw as int, p.y.raw as int)
}

/// Whether a frame, and half of it, lies far from the ends of the range.
pub open spec fn frame_fits(f: (Micro, Micro, Micro, Micro)) -> bool {
    &&& within(f.0, 1_000_000_000_000_000)
    &&& within(f.1, 1_000_000_000_000_000)
    &&& within(half(f.2), 1_000_000_000_000_000)
    &&& within(half(f.3), 1_000_000_000_000_000)
}

/// Whether a row and what became of it lean as one turned point does.
pub open spec fn row_leans(
    before: NodeModel<Micro>,
    after: NodeModel<Micro>,
    c: (int, int),
    turn: (int, int),
) -> bool {
    &&& frame_fits(shape_frame(before))
    &&& frame_fits(shape_frame(after))
    &&& within(middle(before).x, 3_000_000_000_000)
    &&& within(middle(before).y, 3_000_000_000_000)
    &&& within(middle(after).x, 90_000_000_000_000)
    &&& within(middle(after).y, 90_000_000_000_000)
    &&& leans(raws(middle(before)), raws(middle(after)), c, turn, 1)
}

/// The sum of the middles, before and after.
proof fn sums_orbit(
    rows: Seq<NodeModel<Micro>>,
    after: Seq<NodeModel<Micro>>,
    ids: Seq<u64>,
    c: (int, int),
    turn: (int, int),
)
    requires
        ids.len() <= 10_000,
        forall|i: int|
            0 <= i < ids.len() ==> row_leans(
                peek(rows, #[trigger] ids[i]),
                peek(after, ids[i]),
                c,
                turn,
            ),
    ensures
        ({
            let n = ids.len() as int;
            let u = center_sum(rows, ids);
            let w = center_sum(after, ids);
            &&& within(u.x, 3_000_000_000_000 * n)
            &&& within(u.y, 3_000_000_000_000 * n)
            &&& within(w.x, 90_000_000_000_000 * n)
            &&& within(w.y, 90_000_000_000_000 * n)
            &&& leans(raws(u), raws(w), c, turn, n)
        }),
    decreases ids.len(),
{
    if ids.len() == 0 {
        assert(leans((0, 0), (0, 0), c, turn, 0)) by {
            assert(0 * turn.0 == 0 && 0 * turn.1 == 0 && 0 * c.0 == 0 && 0 * c.1 == 0);
        }
    } else {
        let front = ids.drop_last();
        let n = ids.len() as int;
        let last = ids[n - 1];
        assert(ids.last() == last);
        assert forall|i: int| 0 <= i < front.len() implies row_leans(
            peek(rows, #[trigger] front[i]),
            peek(after, front[i]),
            c,
            turn,
        ) by {
            assert(front[i] == ids[i]);
        }
        sums_orbit(rows, after, front, c, turn);
        let row = peek(rows, last);
        let turned = peek(after, last);
        assert(row_leans(row, turned, c, turn));
        let u0 = center_sum(rows, front);
        let w0 = center_sum(after, front);
        let p = middle(row);
        let q = middle(turned);
        added(u0, shape_frame(row), p, 40_000_000_000_000_000);
        added(w0, shape_frame(turned), q, 900_000_000_000_000_000);
        leans_add_up(raws(u0), raws(w0), raws(p), raws(q), c, turn, n - 1);
    }
}

/// How far a sum of turned points, and one turned point more, are from the turn of the sum.
proof fn leans_add_up(
    u: (int, int),
    w: (int, int),
    p: (int, int),
    q: (int, int),
    c: (int, int),
    turn: (int, int),
    m: int,
)
    requires
        leans(u, w, c, turn, m),
        leans(p, q, c, turn, 1),
    ensures
        leans((u.0 + p.0, u.1 + p.1), (w.0 + q.0, w.1 + q.1), c, turn, m + 1),
{
    let n = m + 1;
    let (cx, cy) = c;
    let (sr, kr) = turn;
    let (ax, ay) = (u.0 - m * cx, u.1 - m * cy);
    let (bx, by) = (p.0 - cx, p.1 - cy);
    let (rx, ry) = (u.0 + p.0 - n * cx, u.1 + p.1 - n * cy);
    assert(n * cx == m * cx + cx) by (nonlinear_arith)
        requires
            n == m + 1,
    ;
    assert(n * cy == m * cy + cy) by (nonlinear_arith)
        requires
            n == m + 1,
    ;
    assert(rx == ax + bx && ry == ay + by);
    assert(rx * kr == ax * kr + bx * kr) by (nonlinear_arith)
        requires
            rx == ax + bx,
    ;
    assert(rx * sr == ax * sr + bx * sr) by (nonlinear_arith)
        requires
            rx == ax + bx,
    ;
    assert(ry * kr == ay * kr + by * kr) by (nonlinear_arith)
        requires
            ry == ay + by,
    ;
    assert(ry * sr == ay * sr + by * sr) by (nonlinear_arith)
        requires
            ry == ay + by,
    ;
}

proof fn orbits_stay_in_reach(n: NodeModel<Micro>, c: Point<Micro>, delta: Micro)
    requires
        at_hand(n),
        within(c.x, 3_000_000_000_000),
        within(c.y, 3_000_000_000_000),
    ensures
        ({
            let m = orbited_row(n, c, delta);
            &&& within(m.x, 100_000_000_000_000)
            &&& within(m.y, 100_000_000_000_000)
            &&& within(m.w, 100_000_000_000_000)
            &&& within(m.h, 100_000_000_000_000)
        }),
{
    reveal(turned_point);
    middle_is(n);
    halved(n.w);
    halved(n.h);
    if n.kind == NodeKind::Line {
        let (a, b) = line_ends(n);
        turned_point_is(a, c, delta);
        turned_point_is(b, c, delta);
    } else {
        turned_point_is(middle(n), c, delta);
    }
}

/// The frame of what lies within reach fits.
pub proof fn frames_in_reach(n: NodeModel<Micro>)
    requires
        within(n.x, 100_000_000_000_000),
        within(n.y, 100_000_000_000_000),
        within(n.w, 100_000_000_000_000),
        within(n.h, 100_000_000_000_000),
    ensures
        frame_fits(shape_frame(n)),
{
    halved(n.w);
    halved(n.h);
    halved(n.w.magnitude());
    halved(n.h.magnitude());
}

/// A sum with one middle more.
pub proof fn added(sum: Point<Micro>, f: (Micro, Micro, Micro, Micro), m: Point<Micro>, reach: int)
    requires
        m == center(f),
        within(sum.x, reach),
        within(sum.y, reach),
        0 <= reach <= 1_000_000_000_000_000_000,
        frame_fits(f),
    ensures
        sum.x.plus(f.0).plus(half(f.2)).raw == sum.x.raw + m.x.raw,
        sum.y.plus(f.1).plus(half(f.3)).raw == sum.y.raw + m.y.raw,
{
}

/// A mean, but for less than one millionth.
pub proof fn mean_is(sum: Micro, n: int)
    requires
        0 < n <= 10_000,
        within(sum, 1_000_000_000_000_000_000),
    ensures
        ({
            let q = sum.over(count_spec::<Micro>(n));
            &&& -n < sum.raw - q.raw * n < n
            &&& within(q, 1_000_000_000_000_000_000)
        }),
{
    let d = n * 1_000_000;
    let q = sum.over(count_spec::<Micro>(n));
    assert(count_spec::<Micro>(n).raw == d);
    let a: int = if sum.raw >= 0 {
        sum.raw as int
    } else {
        -sum.raw
    };
    let m = a * 1_000_000 / d;
    shares(a * 1_000_000, d);
    assert(m * n <= a < m * n + n) by (nonlinear_arith)
        requires
            m * d <= a * 1_000_000,
            a * 1_000_000 < m * d + d,
            d == n * 1_000_000,
    ;
    assert(m <= a) by (nonlinear_arith)
        requires
            m * n <= a,
            1 <= n,
            0 <= m,
    ;
    assert(q.raw == if sum.raw >= 0 {
        m
    } else {
        -m
    });
    assert((-m) * n == -(m * n)) by (nonlinear_arith);
}

/// The mean of the middles, before and after.
#[verifier::spinoff_prover]
proof fn pivots_stay(
    rows: Seq<NodeModel<Micro>>,
    after: Seq<NodeModel<Micro>>,
    ids: Seq<u64>,
    turn: (int, int),
)
    requires
        0 < ids.len() <= 10_000,
        all_at_hand(rows, ids),
        -1_000_000 <= turn.0 <= 1_000_000,
        -1_000_000 <= turn.1 <= 1_000_000,
        forall|i: int|
            0 <= i < ids.len() ==> row_leans(
                peek(rows, #[trigger] ids[i]),
                peek(after, ids[i]),
                raws(pivot(rows, ids)),
                turn,
            ),
    ensures
        gap(pivot(rows, ids).x, pivot(after, ids).x) <= 7,
        gap(pivot(rows, ids).y, pivot(after, ids).y) <= 7,
{
    let n = ids.len() as int;
    let c = pivot(rows, ids);
    sums_orbit(rows, after, ids, raws(c), turn);
    let u = center_sum(rows, ids);
    let w = center_sum(after, ids);
    mean_is(u.x, n);
    mean_is(u.y, n);
    mean_is(w.x, n);
    mean_is(w.y, n);
    let (rx, ry) = (u.x.raw - n * c.x.raw, u.y.raw - n * c.y.raw);
    assert(n * c.x.raw == c.x.raw * n && n * c.y.raw == c.y.raw * n) by (nonlinear_arith);
    residue(rx, turn.1, n);
    residue(ry, turn.0, n);
    residue(rx, turn.0, n);
    residue(ry, turn.1, n);
    let d = pivot(after, ids);
    close_means(w.x.raw as int, c.x.raw as int, d.x.raw as int, n);
    close_means(w.y.raw as int, c.y.raw as int, d.y.raw as int, n);
}

/// A run of turns pivots on one spot: turning a group keeps the mean of its shapes' centres, which
/// it turns about, to seven millionths, by whatever angle.
#[verifier::spinoff_prover]
pub proof fn turns_keep_the_pivot(rows: Seq<NodeModel<Micro>>, g: u64, angle: Micro)
    requires
        forest(rows),
        has_row(rows, g),
        peek(rows, g).kind == NodeKind::Group,
        0 < shapes(rows, g).len() <= 10_000,
        all_at_hand(rows, shapes(rows, g)),
    ensures
        ({
            let turned = turned_to(rows, g, angle);
            let before = pivot(rows, shapes(rows, g));
            let after = pivot(turned, shapes(turned, g));
            &&& gap(before.x, after.x) <= 7
            &&& gap(before.y, after.y) <= 7
        }),
{
    let ids = shapes(rows, g);
    let c = pivot(rows, ids);
    let delta = angle.minus(peek(rows, g).rotation);
    let after = turned_to(rows, g, angle);
    groups_turn_as_one_body(rows, g, angle);
    turns_keep_the_members(rows, g, angle);
    pivot_in_reach(rows, ids);
    let (s, k) = delta.sine_cosine();
    sines_stay_within_one(delta);
    let turn = (s.raw as int, k.raw as int);
    assert forall|i: int| 0 <= i < ids.len() implies row_leans(
        peek(rows, #[trigger] ids[i]),
        peek(after, ids[i]),
        raws(c),
        turn,
    ) by {
        assert(ids.contains(ids[i]));
        assert(at_hand(peek(rows, ids[i])));
        one_row_leans(peek(rows, ids[i]), c, delta);
    }
    pivots_stay(rows, after, ids, turn);
}

proof fn one_row_leans(n: NodeModel<Micro>, c: Point<Micro>, delta: Micro)
    requires
        at_hand(n),
        within(c.x, 3_000_000_000_000),
        within(c.y, 3_000_000_000_000),
    ensures
        ({
            let (s, k) = delta.sine_cosine();
            row_leans(n, orbited_row(n, c, delta), raws(c), (s.raw as int, k.raw as int))
        }),
{
    middles_orbit(n, c, delta);
    middle_is(n);
    orbits_stay_in_reach(n, c, delta);
    frames_in_reach(n);
    frames_in_reach(orbited_row(n, c, delta));
}

/// The pivot of shapes at hand is not far.
pub proof fn pivot_in_reach(rows: Seq<NodeModel<Micro>>, ids: Seq<u64>)
    requires
        0 < ids.len() <= 10_000,
        all_at_hand(rows, ids),
    ensures
        within(pivot(rows, ids).x, 3_000_000_000_000),
        within(pivot(rows, ids).y, 3_000_000_000_000),
{
    let n = ids.len() as int;
    sums_in_reach(rows, ids);
    let u = center_sum(rows, ids);
    mean_is(u.x, n);
    mean_is(u.y, n);
    let c = pivot(rows, ids);
    mean_in_reach(u.x.raw as int, c.x.raw as int, n);
    mean_in_reach(u.y.raw as int, c.y.raw as int, n);
}

proof fn mean_in_reach(sum: int, q: int, n: int)
    requires
        0 < n,
        -2_999_999_999_999 * n <= sum <= 2_999_999_999_999 * n,
        -n < sum - q * n < n,
    ensures
        -3_000_000_000_000 <= q <= 3_000_000_000_000,
{
    assert(-3_000_000_000_000 <= q <= 3_000_000_000_000) by (nonlinear_arith)
        requires
            0 < n,
            -2_999_999_999_999 * n <= sum <= 2_999_999_999_999 * n,
            -n < sum - q * n < n,
    ;
}

proof fn sums_in_reach(rows: Seq<NodeModel<Micro>>, ids: Seq<u64>)
    requires
        ids.len() <= 10_000,
        all_at_hand(rows, ids),
    ensures
        within(center_sum(rows, ids).x, 2_999_999_999_999 * ids.len() as int),
        within(center_sum(rows, ids).y, 2_999_999_999_999 * ids.len() as int),
    decreases ids.len(),
{
    if ids.len() > 0 {
        let front = ids.drop_last();
        let n = ids.len() as int;
        assert(all_at_hand(rows, front)) by {
            assert forall|i: int| 0 <= i < front.len() implies at_hand(
                peek(rows, #[trigger] front[i]),
            ) by {
                assert(front[i] == ids[i]);
            }
        }
        sums_in_reach(rows, front);
        let row = peek(rows, ids[n - 1]);
        assert(at_hand(row));
        middle_is(row);
        halved(row.w);
        halved(row.h);
        halved(row.w.magnitude());
        halved(row.h.magnitude());
        frames_in_reach(row);
        added(center_sum(rows, front), shape_frame(row), middle(row), 40_000_000_000_000_000);
        assert(within(middle(row).x, 2_999_999_999_999) && within(middle(row).y, 2_999_999_999_999));
    }
}

proof fn residue(r: int, u: int, n: int)
    requires
        0 < n,
        -n < r < n,
        -1_000_000 <= u <= 1_000_000,
    ensures
        -1_000_000 * n <= r * u <= 1_000_000 * n,
{
    assert(-1_000_000 * n <= r * u <= 1_000_000 * n) by (nonlinear_arith)
        requires
            -n < r < n,
            -1_000_000 <= u <= 1_000_000,
    ;
}

proof fn close_means(sum: int, c: int, d: int, n: int)
    requires
        0 < n,
        -7_000_000 * n <= (sum - n * c) * 1_000_000 <= 7_000_000 * n,
        -n < sum - d * n < n,
    ensures
        -7 <= d - c <= 7,
{
    assert(-7 * n <= sum - n * c <= 7 * n);
    assert(d - c < 8) by (nonlinear_arith)
        requires
            0 < n,
            sum - n * c <= 7 * n,
            -n < sum - d * n,
    ;
    assert(d - c > -8) by (nonlinear_arith)
        requires
            0 < n,
            -7 * n <= sum - n * c,
            sum - d * n < n,
    ;
}

// ---------------------------------------------------------------------------
// Quarter turns
// ---------------------------------------------------------------------------

/// Whether an angle is a number of quarter turns.
pub open spec fn quarters(delta: Micro) -> bool {
    delta.raw % 90_000_000 == 0
}

/// The sine and the cosine of a number of quarter turns, as whole numbers.
pub open spec fn quarter_turn(delta: Micro) -> (int, int) {
    let x = wrap_spec(delta.raw as int, 360_000_000);
    if x == 0 {
        (0, 1)
    } else if x == 90_000_000 {
        (1, 0)
    } else if x == 180_000_000 {
        (0, -1)
    } else {
        (-1, 0)
    }
}

proof fn quarter_sines(delta: Micro)
    requires
        quarters(delta),
    ensures
        delta.sine_cosine().0.raw == quarter_turn(delta).0 * 1_000_000,
        delta.sine_cosine().1.raw == quarter_turn(delta).1 * 1_000_000,
{
    quarters_point_well();
    let x = wrap_spec(delta.raw as int, 360_000_000);
    assert(x == 0 || x == 90_000_000 || x == 180_000_000 || x == 270_000_000);
}

/// A point turned by quarters: exact.
proof fn quarter_points(p: Point<Micro>, c: Point<Micro>, delta: Micro)
    requires
        quarters(delta),
        within(p.x, 100_000_000_000_000),
        within(p.y, 100_000_000_000_000),
        within(c.x, 100_000_000_000_000),
        within(c.y, 100_000_000_000_000),
    ensures
        ({
            let q = turn_about(p, c, delta);
            let (s, k) = quarter_turn(delta);
            let (dx, dy) = (p.x.raw - c.x.raw, p.y.raw - c.y.raw);
            &&& q.x.raw == c.x.raw + dx * k - dy * s
            &&& q.y.raw == c.y.raw + dx * s + dy * k
        }),
{
    quarter_sines(delta);
    let (s, k) = quarter_turn(delta);
    let dx = p.x.minus(c.x);
    let dy = p.y.minus(c.y);
    let (sin, cos) = delta.sine_cosine();
    whole_product(dx, cos, k);
    whole_product(dy, sin, s);
    whole_product(dx, sin, s);
    whole_product(dy, cos, k);
}

proof fn whole_product(v: Micro, u: Micro, w: int)
    requires
        within(v, 1_000_000_000_000_000),
        w == 0 || w == 1 || w == -1,
        u.raw == w * 1_000_000,
    ensures
        v.times(u).raw == v.raw * w,
{
    if w == 0 {
        assert(v.raw * u.raw == 0) by (nonlinear_arith)
            requires
                u.raw == 0,
        ;
    } else if w == 1 {
        assert(v.raw * u.raw == v.raw * 1_000_000) by (nonlinear_arith)
            requires
                u.raw == 1_000_000,
        ;
    } else {
        assert(v.raw * u.raw == -(v.raw * 1_000_000)) by (nonlinear_arith)
            requires
                u.raw == -1_000_000,
        ;
    }
}

/// The square of the distance between two points.
pub open spec fn square_apart(p: Point<Micro>, q: Point<Micro>) -> int {
    (p.x.raw - q.x.raw) * (p.x.raw - q.x.raw) + (p.y.raw - q.y.raw) * (p.y.raw - q.y.raw)
}

/// What turns by quarters about one point keeps its distances, to the last millionth.
pub proof fn quarter_turns_keep_distances(
    p: Point<Micro>,
    q: Point<Micro>,
    c: Point<Micro>,
    delta: Micro,
)
    requires
        quarters(delta),
        within(p.x, 100_000_000_000_000),
        within(p.y, 100_000_000_000_000),
        within(q.x, 100_000_000_000_000),
        within(q.y, 100_000_000_000_000),
        within(c.x, 100_000_000_000_000),
        within(c.y, 100_000_000_000_000),
    ensures
        square_apart(turn_about(p, c, delta), turn_about(q, c, delta)) == square_apart(p, q),
{
    quarter_points(p, c, delta);
    quarter_points(q, c, delta);
    let turn = quarter_turn(delta);
    turned_raws_are(raws(p), raws(c), turn);
    turned_raws_are(raws(q), raws(c), turn);
    squares_stay(
        raws(p),
        raws(q),
        raws(turn_about(p, c, delta)),
        raws(turn_about(q, c, delta)),
        raws(c),
        turn,
    );
}

proof fn squares_stay(
    p: (int, int),
    q: (int, int),
    p1: (int, int),
    q1: (int, int),
    c: (int, int),
    turn: (int, int),
)
    requires
        squarely(turn),
        p1 == turned_raws(p, c, turn),
        q1 == turned_raws(q, c, turn),
    ensures
        (p1.0 - q1.0) * (p1.0 - q1.0) + (p1.1 - q1.1) * (p1.1 - q1.1) == (p.0 - q.0) * (p.0 - q.0)
            + (p.1 - q.1) * (p.1 - q.1),
{
    turned_raws_are(p, c, turn);
    turned_raws_are(q, c, turn);
    let (a, b) = (p.0 - q.0, p.1 - q.1);
    let (x, y) = (p1.0 - q1.0, p1.1 - q1.1);
    assert((x == a && y == b) || (x == -b && y == a) || (x == -a && y == -b) || (x == b && y == -a));
    assert((-a) * (-a) == a * a && (-b) * (-b) == b * b) by (nonlinear_arith);
}

/// A turn by quarters, on whole numbers.
spec fn turned_raws(p: (int, int), c: (int, int), turn: (int, int)) -> (int, int) {
    (
        c.0 + (p.0 - c.0) * turn.1 - (p.1 - c.1) * turn.0,
        c.1 + (p.0 - c.0) * turn.0 + (p.1 - c.1) * turn.1,
    )
}

/// Whether a sine and a cosine are those of a number of quarter turns.
spec fn squarely(turn: (int, int)) -> bool {
    turn == (0int, 1int) || turn == (1int, 0int) || turn == (0int, -1int) || turn == (-1int, 0int)
}

proof fn turned_raws_are(p: (int, int), c: (int, int), turn: (int, int))
    requires
        squarely(turn),
    ensures
        turned_raws(p, c, turn) == if turn == (0int, 1int) {
            p
        } else if turn == (1int, 0int) {
            (c.0 - (p.1 - c.1), c.1 + (p.0 - c.0))
        } else if turn == (0int, -1int) {
            (c.0 - (p.0 - c.0), c.1 - (p.1 - c.1))
        } else {
            (c.0 + (p.1 - c.1), c.1 - (p.0 - c.0))
        },
{
    let (a, b) = (p.0 - c.0, p.1 - c.1);
    assert(a * 0 == 0 && b * 0 == 0 && a * 1 == a && b * 1 == b && a * -1 == -a && b * -1 == -b)
        by (nonlinear_arith);
}

proof fn turned_squarely(p: Point<Micro>, c: Point<Micro>, delta: Micro)
    requires
        quarters(delta),
        within(p.x, 100_000_000_000_000),
        within(p.y, 100_000_000_000_000),
        within(c.x, 100_000_000_000_000),
        within(c.y, 100_000_000_000_000),
    ensures
        squarely(quarter_turn(delta)),
        raws(turned_point(p, c, delta)) == turned_raws(raws(p), raws(c), quarter_turn(delta)),
{
    reveal(turned_point);
    quarter_points(p, c, delta);
}

proof fn turned_back(there: Micro, back: Micro)
    requires
        quarters(there),
        back.raw == -there.raw,
    ensures
        quarters(back),
        quarter_turn(back) == (-quarter_turn(there).0, quarter_turn(there).1),
{
}

/// Two opposite quarter turns of a point, about two points that are near to one another.
proof fn points_come_home(
    p: Point<Micro>,
    c: Point<Micro>,
    d: Point<Micro>,
    there: Micro,
    back: Micro,
)
    requires
        quarters(there),
        -1_000_000_000_000_000 <= there.raw <= 1_000_000_000_000_000,
        back.raw == -there.raw,
        within(p.x, 3_000_000_000_000),
        within(p.y, 3_000_000_000_000),
        within(c.x, 3_000_000_000_000),
        within(c.y, 3_000_000_000_000),
        gap(c.x, d.x) <= 7,
        gap(c.y, d.y) <= 7,
    ensures
        ({
            let q = turned_point(p, c, there);
            let h = turned_point(q, d, back);
            let turn = quarter_turn(there);
            &&& within(q.x, 20_000_000_000_000)
            &&& within(q.y, 20_000_000_000_000)
            &&& raws(h) == strayed(raws(p), raws(c), raws(d), turn)
        }),
{
    let q = turned_point(p, c, there);
    let turn = quarter_turn(there);
    turned_squarely(p, c, there);
    turned_raws_are(raws(p), raws(c), turn);
    turned_back(there, back);
    turned_squarely(q, d, back);
    turned_raws_are(raws(q), raws(d), quarter_turn(back));
}

/// Where a turn there about `c` and back about `d` takes a point.
spec fn strayed(p: (int, int), c: (int, int), d: (int, int), turn: (int, int)) -> (int, int) {
    let (ex, ey) = (d.0 - c.0, d.1 - c.1);
    if turn == (0int, 1int) {
        p
    } else if turn == (1int, 0int) {
        (p.0 + ex - ey, p.1 + ey + ex)
    } else if turn == (0int, -1int) {
        (p.0 + 2 * ex, p.1 + 2 * ey)
    } else {
        (p.0 + ex + ey, p.1 + ey - ex)
    }
}

/// A line after a quarter turn there and one back.
#[verifier::spinoff_prover]
proof fn lines_come_home(
    n: NodeModel<Micro>,
    c: Point<Micro>,
    d: Point<Micro>,
    there: Micro,
    back: Micro,
)
    requires
        n.kind == NodeKind::Line,
        at_hand(n),
        quarters(there),
        -1_000_000_000_000_000 <= there.raw <= 1_000_000_000_000_000,
        back.raw == -there.raw,
        within(c.x, 3_000_000_000_000),
        within(c.y, 3_000_000_000_000),
        gap(c.x, d.x) <= 7,
        gap(c.y, d.y) <= 7,
    ensures
        home_again(n, orbited_row(orbited_row(n, c, there), d, back)),
{
    let m = orbited_row(n, c, there);
    let (a, b) = line_ends(n);
    let a1 = turned_point(a, c, there);
    let b1 = turned_point(b, c, there);
    points_come_home(a, c, d, there, back);
    points_come_home(b, c, d, there, back);
    assert(line_ends(m) == (a1, b1));
}

/// A shape that is no line after a quarter turn there and one back.
#[verifier::spinoff_prover]
proof fn shapes_come_home(
    n: NodeModel<Micro>,
    c: Point<Micro>,
    d: Point<Micro>,
    there: Micro,
    back: Micro,
)
    requires
        n.kind != NodeKind::Line,
        at_hand(n),
        within(n.rotation, 1_000_000_000_000_000),
        quarters(there),
        -1_000_000_000_000_000 <= there.raw <= 1_000_000_000_000_000,
        back.raw == -there.raw,
        within(c.x, 3_000_000_000_000),
        within(c.y, 3_000_000_000_000),
        gap(c.x, d.x) <= 7,
        gap(c.y, d.y) <= 7,
    ensures
        home_again(n, orbited_row(orbited_row(n, c, there), d, back)),
{
    let m = orbited_row(n, c, there);
    halved(n.w);
    halved(n.h);
    let p = center((n.x, n.y, n.w, n.h));
    let q = turned_point(p, c, there);
    points_come_home(p, c, d, there, back);
    let (hw, hh) = (half(n.w), half(n.h));
    assert(within(hw, 1_000_000_000_000) && within(hh, 1_000_000_000_000));
    assert(m.x.plus(hw) == q.x && m.y.plus(hh) == q.y);
    assert(center((m.x, m.y, m.w, m.h)) == q);
    angles_come_home(n.rotation.raw as int, there.raw as int);
    let h = turned_point(q, d, back);
    assert(orbited_row(m, d, back).x == h.x.minus(hw));
    assert(orbited_row(m, d, back).y == h.y.minus(hh));
}

proof fn angles_come_home(r: int, d: int)
    ensures
        ((r + d) % 360_000_000 - d) % 360_000_000 == r % 360_000_000,
{
    let q = (r + d) / 360_000_000;
    assert((r + d) % 360_000_000 - d == r - 360_000_000 * q);
    vstd::arithmetic::div_mod::lemma_mod_multiples_vanish(-q, r, 360_000_000);
    assert(360_000_000 * -q + r == r - 360_000_000 * q);
}

/// Whether a shape is back where it was, to fourteen millionths, at its size and its angle.
pub open spec fn home_again(n: NodeModel<Micro>, m: NodeModel<Micro>) -> bool {
    &&& gap(n.x, m.x) <= 14
    &&& gap(n.y, m.y) <= 14
    &&& m.w == n.w
    &&& m.h == n.h
    &&& m.rotation == n.rotation || m.rotation == n.rotation.wrapped(Micro::of_int(360))
}

/// What two turns of a group make of a shape in it.
proof fn two_turns<S: Scalar>(rows: Seq<NodeModel<S>>, g: u64, angle: S, next: S, x: u64)
    requires
        forest(rows),
        has_row(rows, g),
        peek(rows, g).kind == NodeKind::Group,
        shapes(rows, g).contains(x),
    ensures
        ({
            let ids = shapes(rows, g);
            let after = turned_to(rows, g, angle);
            peek(turned_to(after, g, next), x) == orbited_row(
                orbited_row(peek(rows, x), pivot(rows, ids), angle.minus(peek(rows, g).rotation)),
                pivot(after, ids),
                next.minus(angle),
            )
        }),
{
    let after = turned_to(rows, g, angle);
    groups_turn_as_one_body(rows, g, angle);
    turns_keep_the_members(rows, g, angle);
    turning_keeps_the_tree(rows, g, angle);
    same_tree_keeps_the_forest(rows, after);
    assert(has_row(after, g) && peek(after, g).kind == NodeKind::Group);
    groups_turn_as_one_body(after, g, next);
    assert(peek(after, x) == orbited_row(
        peek(rows, x),
        pivot(rows, shapes(rows, g)),
        angle.minus(peek(rows, g).rotation),
    ));
}

/// A shape after a quarter turn from `start` to `angle` and one back.
proof fn row_comes_home(
    n: NodeModel<Micro>,
    c: Point<Micro>,
    d: Point<Micro>,
    angle: Micro,
    start: Micro,
)
    requires
        at_hand(n),
        within(n.rotation, 1_000_000_000_000_000),
        within(angle, 400_000_000_000_000),
        within(start, 400_000_000_000_000),
        quarters(angle.minus(start)),
        within(c.x, 3_000_000_000_000),
        within(c.y, 3_000_000_000_000),
        gap(c.x, d.x) <= 7,
        gap(c.y, d.y) <= 7,
    ensures
        home_again(n, orbited_row(orbited_row(n, c, angle.minus(start)), d, start.minus(angle))),
{
    if n.kind == NodeKind::Line {
        lines_come_home(n, c, d, angle.minus(start), start.minus(angle));
    } else {
        shapes_come_home(n, c, d, angle.minus(start), start.minus(angle));
    }
}

/// Opposite turns come home: a group that is turned by quarters and back has every shape where it
/// was, to fourteen millionths, at its size and its angle.
#[verifier::spinoff_prover]
pub proof fn opposite_quarter_turns_come_home(
    rows: Seq<NodeModel<Micro>>,
    g: u64,
    angle: Micro,
    x: u64,
)
    requires
        forest(rows),
        has_row(rows, g),
        peek(rows, g).kind == NodeKind::Group,
        0 < shapes(rows, g).len() <= 10_000,
        all_at_hand(rows, shapes(rows, g)),
        within(angle, 400_000_000_000_000),
        within(peek(rows, g).rotation, 400_000_000_000_000),
        quarters(angle.minus(peek(rows, g).rotation)),
        shapes(rows, g).contains(x),
        within(peek(rows, x).rotation, 1_000_000_000_000_000),
    ensures
        home_again(
            peek(rows, x),
            peek(turned_to(turned_to(rows, g, angle), g, peek(rows, g).rotation), x),
        ),
{
    let ids = shapes(rows, g);
    let start = peek(rows, g).rotation;
    let (c, d) = (pivot(rows, ids), pivot(turned_to(rows, g, angle), ids));
    assert(gap(c.x, d.x) <= 7 && gap(c.y, d.y) <= 7) by {
        turns_keep_the_pivot(rows, g, angle);
        turns_keep_the_members(rows, g, angle);
    }
    pivot_in_reach(rows, ids);
    two_turns(rows, g, angle, start, x);
    let n = peek(rows, x);
    assert(at_hand(n)) by {
        let i = choose|i: int| 0 <= i < ids.len() && ids[i] == x;
        assert(at_hand(peek(rows, ids[i])));
    }
    row_comes_home(n, c, d, angle, start);
}

} // verus!
