//! Laws of groups as bodies: a group holds every shape under it once, moving it moves each of
//! them once, and its bounds go along.
use vstd::prelude::*;
use crate::bounds::{node_bounds, shape_frame, visual_frame, visual_frames};
use crate::canvas::{move_puts, put_each, starts_of, Put, Side};
use crate::exact::{moderate, sines_stay_within_one, unit_product, within};
use crate::geometry::{center, turn_about, turned_bounds, united, united_all, Point};
use crate::micro::Micro;
use crate::motion::{moved_each, x_set, y_set};
use crate::node::{NodeKind, NodeModel};
use crate::order::{siblings_are_in_order, written_peeks};
use crate::scalar::{half, Scalar};
use crate::scene::{
    children, distinct, has_row, lineage, peek, reach, shapes, shapes_within, shapes_within_each,
    with_field, written, FieldModel,
};
use crate::shown::{
    same_layers, same_layers_join, same_layers_same_shapes_within, surface_writes_keep_the_layers,
};
use crate::tree::{forest, lineage_goes_by_parents, ranked, same_tree_peeks};

verus! {

// ---------------------------------------------------------------------------
// Every shape once
// ---------------------------------------------------------------------------

/// What a node is inside of has no higher a rank.
pub proof fn ranks_fall<S: Scalar>(
    rows: Seq<NodeModel<S>>,
    rank: spec_fn(u64) -> nat,
    x: u64,
    a: u64,
)
    requires
        forest(rows),
        ranked(rows, rank),
        lineage(rows, x).contains(a),
    ensures
        rank(a) <= rank(x),
    decreases rank(x),
{
    lineage_goes_by_parents(rows, x);
    if a != x {
        let p = peek(rows, x).parent->0;
        assert(has_row(rows, x));
        ranks_fall(rows, rank, p, a);
    }
}

/// What is inside of something is inside of what that is inside of.
pub proof fn inside_carries_on<S: Scalar>(
    rows: Seq<NodeModel<S>>,
    rank: spec_fn(u64) -> nat,
    x: u64,
    c: u64,
    a: u64,
)
    requires
        forest(rows),
        ranked(rows, rank),
        lineage(rows, x).contains(c),
        lineage(rows, c).contains(a),
    ensures
        lineage(rows, x).contains(a),
    decreases rank(x),
{
    lineage_goes_by_parents(rows, x);
    if c != x {
        let p = peek(rows, x).parent->0;
        assert(has_row(rows, x));
        inside_carries_on(rows, rank, p, c, a);
    }
}

/// Nothing is inside of two members of one group.
pub proof fn siblings_part<S: Scalar>(
    rows: Seq<NodeModel<S>>,
    rank: spec_fn(u64) -> nat,
    x: u64,
    c: u64,
    d: u64,
    p: u64,
)
    requires
        forest(rows),
        ranked(rows, rank),
        has_row(rows, c),
        has_row(rows, d),
        peek(rows, c).parent == Some(p),
        peek(rows, d).parent == Some(p),
        lineage(rows, x).contains(c),
        lineage(rows, x).contains(d),
    ensures
        c == d,
    decreases rank(x),
{
    lineage_goes_by_parents(rows, x);
    lineage_goes_by_parents(rows, c);
    lineage_goes_by_parents(rows, d);
    if c != d {
        if x == c {
            ranks_fall(rows, rank, p, d);
        } else if x == d {
            ranks_fall(rows, rank, p, c);
        } else {
            let q = peek(rows, x).parent->0;
            assert(has_row(rows, x));
            siblings_part(rows, rank, q, c, d, p);
        }
    }
}

/// Whether a node is inside of one of `ids`, and there if that is.
spec fn inside_of_one<S: Scalar>(rows: Seq<NodeModel<S>>, ids: Seq<u64>, x: u64) -> bool {
    exists|i: int|
        #![trigger ids[i]]
        0 <= i < ids.len() && lineage(rows, x).contains(ids[i]) && (has_row(rows, ids[i])
            ==> has_row(rows, x))
}

/// The shapes under a node are inside of it, and are there where it is.
pub proof fn shapes_are_inside<S: Scalar>(
    rows: Seq<NodeModel<S>>,
    rank: spec_fn(u64) -> nat,
    id: u64,
    steps: nat,
)
    requires
        forest(rows),
        ranked(rows, rank),
    ensures
        forall|x: u64| #[trigger]
            shapes_within(rows, id, steps).contains(x) ==> lineage(rows, x).contains(id) && (
            has_row(rows, id) ==> has_row(rows, x)) && peek(rows, x).kind != NodeKind::Group,
    decreases steps, 0nat,
{
    if steps > 0 {
        lineage_goes_by_parents(rows, id);
        let below = children(rows, Some(id));
        if peek(rows, id).kind == NodeKind::Group {
            siblings_are_in_order(rows, Some(id));
            shapes_of_each_are_inside(rows, rank, below, (steps - 1) as nat);
            assert forall|x: u64| #[trigger]
                shapes_within(rows, id, steps).contains(x) implies lineage(rows, x).contains(id)
                && has_row(rows, x) && peek(rows, x).kind != NodeKind::Group by {
                assert(shapes_within_each(rows, below, (steps - 1) as nat).contains(x));
                assert(inside_of_one(rows, below, x));
                let i = choose|i: int|
                    #![trigger below[i]]
                    0 <= i < below.len() && lineage(rows, x).contains(below[i]) && (has_row(
                        rows,
                        below[i],
                    ) ==> has_row(rows, x));
                assert(below.contains(below[i]));
                lineage_goes_by_parents(rows, below[i]);
                inside_carries_on(rows, rank, x, below[i], id);
            }
        } else {
            assert forall|x: u64| #[trigger]
                shapes_within(rows, id, steps).contains(x) implies x == id by {
                let i = choose|i: int| 0 <= i < seq![id].len() && seq![id][i] == x;
            }
        }
    }
}

proof fn shapes_of_each_are_inside<S: Scalar>(
    rows: Seq<NodeModel<S>>,
    rank: spec_fn(u64) -> nat,
    ids: Seq<u64>,
    steps: nat,
)
    requires
        forest(rows),
        ranked(rows, rank),
    ensures
        forall|x: u64| #[trigger]
            shapes_within_each(rows, ids, steps).contains(x) ==> peek(rows, x).kind
                != NodeKind::Group && inside_of_one(rows, ids, x),
    decreases steps, ids.len(),
{
    if ids.len() > 0 {
        let front = ids.drop_last();
        shapes_of_each_are_inside(rows, rank, front, steps);
        shapes_are_inside(rows, rank, ids.last(), steps);
        let a = shapes_within_each(rows, front, steps);
        let b = shapes_within(rows, ids.last(), steps);
        assert forall|x: u64| #[trigger]
            shapes_within_each(rows, ids, steps).contains(x) implies peek(rows, x).kind
            != NodeKind::Group && inside_of_one(rows, ids, x) by {
            let w = a + b;
            let k = choose|k: int| 0 <= k < w.len() && w[k] == x;
            if k < a.len() {
                assert(a[k] == x);
                assert(a.contains(x));
                assert(inside_of_one(rows, front, x));
                let i = choose|i: int|
                    #![trigger front[i]]
                    0 <= i < front.len() && lineage(rows, x).contains(front[i]) && (has_row(
                        rows,
                        front[i],
                    ) ==> has_row(rows, x));
                assert(ids[i] == front[i]);
            } else {
                assert(b[k - a.len()] == x);
                assert(b.contains(x));
                assert(ids[ids.len() - 1] == ids.last());
            }
        }
    }
}

proof fn shapes_come_once<S: Scalar>(
    rows: Seq<NodeModel<S>>,
    rank: spec_fn(u64) -> nat,
    id: u64,
    steps: nat,
)
    requires
        forest(rows),
        ranked(rows, rank),
    ensures
        shapes_within(rows, id, steps).no_duplicates(),
    decreases steps, 0nat,
{
    if steps > 0 && peek(rows, id).kind == NodeKind::Group {
        let below = children(rows, Some(id));
        siblings_are_in_order(rows, Some(id));
        assert forall|i: int| 0 <= i < below.len() implies has_row(rows, #[trigger] below[i])
            && peek(rows, below[i]).parent == Some(id) by {
            assert(below.contains(below[i]));
        }
        shapes_of_each_come_once(rows, rank, below, id, (steps - 1) as nat);
    }
}

proof fn shapes_of_each_come_once<S: Scalar>(
    rows: Seq<NodeModel<S>>,
    rank: spec_fn(u64) -> nat,
    ids: Seq<u64>,
    p: u64,
    steps: nat,
)
    requires
        forest(rows),
        ranked(rows, rank),
        forall|i: int, j: int| #![trigger ids[i], ids[j]] 0 <= i < j < ids.len() ==> ids[i] != ids[j],
        forall|i: int|
            0 <= i < ids.len() ==> has_row(rows, #[trigger] ids[i]) && peek(rows, ids[i]).parent
                == Some(p),
    ensures
        shapes_within_each(rows, ids, steps).no_duplicates(),
    decreases steps, ids.len(),
{
    if ids.len() > 0 {
        let front = ids.drop_last();
        assert forall|i: int| 0 <= i < front.len() implies #[trigger] front[i] == ids[i] by {}
        shapes_of_each_come_once(rows, rank, front, p, steps);
        shapes_come_once(rows, rank, ids.last(), steps);
        shapes_of_each_are_inside(rows, rank, front, steps);
        shapes_are_inside(rows, rank, ids.last(), steps);
        let a = shapes_within_each(rows, front, steps);
        let b = shapes_within(rows, ids.last(), steps);
        assert(ids[ids.len() - 1] == ids.last());
        assert forall|x: u64| a.contains(x) && b.contains(x) implies false by {
            assert(inside_of_one(rows, front, x));
            let i = choose|i: int|
                #![trigger front[i]]
                0 <= i < front.len() && lineage(rows, x).contains(front[i]) && (has_row(
                    rows,
                    front[i],
                ) ==> has_row(rows, x));
            assert(front[i] == ids[i]);
            siblings_part(rows, rank, x, front[i], ids.last(), p);
        }
        let w = a + b;
        assert forall|i: int, j: int| 0 <= i < j < w.len() implies w[i] != w[j] by {
            if i < a.len() && a.len() <= j {
                assert(a.contains(a[i]));
                assert(b.contains(b[j - a.len()]));
            }
        }
    }
}

/// A node counts every shape under it once, and each of them is there and inside of it.
pub proof fn shapes_are_counted_once<S: Scalar>(rows: Seq<NodeModel<S>>, id: u64)
    requires
        forest(rows),
        has_row(rows, id),
    ensures
        shapes(rows, id).no_duplicates(),
        forall|x: u64| #[trigger]
            shapes(rows, id).contains(x) ==> has_row(rows, x) && lineage(rows, x).contains(id)
                && peek(rows, x).kind != NodeKind::Group,
{
    let rank = choose|rank: spec_fn(u64) -> nat| ranked(rows, rank);
    shapes_come_once(rows, rank, id, reach(rows));
    shapes_are_inside(rows, rank, id, reach(rows));
}

// ---------------------------------------------------------------------------
// Moves
// ---------------------------------------------------------------------------

/// A row moved by `(dx, dy)`.
pub open spec fn shifted_row<S: Scalar>(n: NodeModel<S>, dx: S, dy: S) -> NodeModel<S> {
    NodeModel { x: n.x.plus(dx), y: n.y.plus(dy), ..n }
}

/// Moving some shapes moves each of them once, and nothing else.
pub proof fn moves_carry_each_shape_once<S: Scalar>(
    rows: Seq<NodeModel<S>>,
    ids: Seq<u64>,
    dx: S,
    dy: S,
)
    requires
        distinct(rows),
        ids.no_duplicates(),
    ensures
        distinct(moved_each(rows, ids, dx, dy)),
        same_layers(rows, moved_each(rows, ids, dx, dy)),
        forall|x: u64| #[trigger]
            has_row(moved_each(rows, ids, dx, dy), x) <==> has_row(rows, x),
        forall|x: u64|
            ids.contains(x) && has_row(rows, x) ==> #[trigger] peek(
                moved_each(rows, ids, dx, dy),
                x,
            ) == shifted_row(peek(rows, x), dx, dy),
        forall|x: u64|
            !ids.contains(x) ==> #[trigger] peek(moved_each(rows, ids, dx, dy), x) == peek(
                rows,
                x,
            ),
    decreases ids.len(),
{
    if ids.len() > 0 {
        let front = ids.drop_last();
        let id = ids.last();
        assert forall|i: int, j: int|
            0 <= i < front.len() && 0 <= j < front.len() && i != j implies front[i] != front[j] by {
            assert(ids[i] != ids[j]);
        }
        moves_carry_each_shape_once(rows, front, dx, dy);
        assert(!front.contains(id)) by {
            if front.contains(id) {
                let i = choose|i: int| 0 <= i < front.len() && front[i] == id;
                assert(ids[i] == ids[ids.len() - 1]);
            }
        }
        let rest = moved_each(rows, front, dx, dy);
        let f = FieldModel::X(peek(rest, id).x.plus(dx));
        let r = written(rest, id, f);
        let g = FieldModel::Y(peek(r, id).y.plus(dy));
        let w = written(r, id, g);
        assert(w == moved_each(rows, ids, dx, dy));
        written_peeks(rest, id, f);
        written_peeks(r, id, g);
        surface_writes_keep_the_layers(rest, id, f);
        surface_writes_keep_the_layers(r, id, g);
        same_layers_join(rows, rest, r);
        same_layers_join(rows, r, w);
        assert(peek(rest, id) == peek(rows, id));
        assert forall|x: u64| #[trigger] has_row(w, x) <==> has_row(rows, x) by {
            assert(has_row(w, x) <==> has_row(r, x));
            assert(has_row(r, x) <==> has_row(rest, x));
        }
        assert forall|x: u64| ids.contains(x) && has_row(rows, x) implies #[trigger] peek(w, x)
            == shifted_row(peek(rows, x), dx, dy) by {
            assert(has_row(rest, x) && has_row(r, x));
            if x == id {
                assert(peek(r, x) == with_field(peek(rest, x), f));
                assert(peek(w, x) == with_field(peek(r, x), g));
            } else {
                let i = choose|i: int| 0 <= i < ids.len() && ids[i] == x;
                assert(front[i] == x);
                assert(peek(w, x) == peek(r, x) && peek(r, x) == peek(rest, x));
            }
        }
        assert(ids[ids.len() - 1] == id);
        assert forall|x: u64| !ids.contains(x) implies #[trigger] peek(w, x) == peek(rows, x) by {
            assert(!front.contains(x)) by {
                if front.contains(x) {
                    let i = choose|i: int| 0 <= i < front.len() && front[i] == x;
                    assert(ids[i] == x);
                }
            }
            assert(peek(w, x) == peek(r, x) && peek(r, x) == peek(rest, x));
        }
    }
}

/// While it lasts, a drag moves shapes as a typed position would.
pub proof fn drags_move_as_typed<S: Scalar>(
    rows: Seq<NodeModel<S>>,
    ids: Seq<u64>,
    dx: S,
    dy: S,
)
    requires
        distinct(rows),
        ids.no_duplicates(),
    ensures
        put_each(rows, move_puts(starts_of(rows, ids), dx, dy, false)) == moved_each(
            rows,
            ids,
            dx,
            dy,
        ),
    decreases ids.len(),
{
    let starts = starts_of(rows, ids);
    if ids.len() > 0 {
        let front = ids.drop_last();
        let id = ids.last();
        assert forall|i: int, j: int|
            0 <= i < front.len() && 0 <= j < front.len() && i != j implies front[i] != front[j] by {
            assert(ids[i] != ids[j]);
        }
        drags_move_as_typed(rows, front, dx, dy);
        moves_carry_each_shape_once(rows, front, dx, dy);
        assert(!front.contains(id)) by {
            if front.contains(id) {
                let i = choose|i: int| 0 <= i < front.len() && front[i] == id;
                assert(ids[i] == ids[ids.len() - 1]);
            }
        }
        assert(starts.drop_last() =~= starts_of(rows, front));
        let n = peek(rows, id);
        let before = move_puts(starts_of(rows, front), dx, dy, false);
        let px = Put { id, side: Side::X, value: n.x.plus(dx) };
        let py = Put { id, side: Side::Y, value: n.y.plus(dy) };
        let puts = move_puts(starts, dx, dy, false);
        assert(puts =~= before + seq![px, py]);
        assert(puts.drop_last() =~= before.push(px));
        assert(before.push(px).drop_last() =~= before);
        let rest = moved_each(rows, front, dx, dy);
        assert(peek(rest, id) == n);
        let f = FieldModel::X(n.x.plus(dx));
        written_peeks(rest, id, f);
        if !has_row(rest, id) {
            assert(peek(written(rest, id, f), id) == peek(rest, id));
        }
        assert(put_each(rows, before.push(px)) == written(rest, id, f));
    } else {
        assert(starts =~= Seq::<(u64, S, S)>::empty());
    }
}

// ---------------------------------------------------------------------------
// Bounds
// ---------------------------------------------------------------------------

/// A frame moved by `(dx, dy)`.
pub open spec fn shifted_frame<S: Scalar>(f: (S, S, S, S), dx: S, dy: S) -> (S, S, S, S) {
    (f.0.plus(dx), f.1.plus(dy), f.2, f.3)
}

/// Whether a row's geometry is moderate.
pub open spec fn moderate_row(n: NodeModel<Micro>) -> bool {
    moderate(n.x) && moderate(n.y) && moderate(n.w) && moderate(n.h)
}

/// A frame whose edges are all within `reach`.
spec fn framed(f: (Micro, Micro, Micro, Micro), reach: int) -> bool {
    &&& -reach <= f.0.raw
    &&& f.0.raw <= reach
    &&& -reach <= f.1.raw
    &&& f.1.raw <= reach
    &&& -reach <= f.0.raw + f.2.raw <= reach
    &&& -reach <= f.1.raw + f.3.raw <= reach
}

proof fn turned_points_shift(
    p: Point<Micro>,
    c: Point<Micro>,
    degrees: Micro,
    dx: Micro,
    dy: Micro,
)
    requires
        within(p.x, 10_000_000_000_000_000),
        within(p.y, 10_000_000_000_000_000),
        within(c.x, 10_000_000_000_000_000),
        within(c.y, 10_000_000_000_000_000),
        within(dx, 100_000_000_000_000_000),
        within(dy, 100_000_000_000_000_000),
    ensures
        ({
            let q = turn_about(p, c, degrees);
            let r = turn_about(
                Point { x: p.x.plus(dx), y: p.y.plus(dy) },
                Point { x: c.x.plus(dx), y: c.y.plus(dy) },
                degrees,
            );
            &&& r.x == q.x.plus(dx)
            &&& r.y == q.y.plus(dy)
            &&& within(q.x, 60_000_000_000_000_000)
            &&& within(q.y, 60_000_000_000_000_000)
        }),
{
    let (sin, cos) = degrees.sine_cosine();
    sines_stay_within_one(degrees);
    let ox = p.x.minus(c.x);
    let oy = p.y.minus(c.y);
    unit_product(ox, cos, 20_000_000_000_000_000);
    unit_product(ox, sin, 20_000_000_000_000_000);
    unit_product(oy, cos, 20_000_000_000_000_000);
    unit_product(oy, sin, 20_000_000_000_000_000);
    assert(p.x.plus(dx).minus(c.x.plus(dx)) == ox);
    assert(p.y.plus(dy).minus(c.y.plus(dy)) == oy);
}

/// The least of four numbers.
spec fn least(a: Micro, b: Micro, c: Micro, d: Micro) -> Micro {
    Micro::highest().lesser(a).lesser(b).lesser(c).lesser(d)
}

/// The greatest of four numbers.
spec fn greatest(a: Micro, b: Micro, c: Micro, d: Micro) -> Micro {
    Micro::lowest().greater(a).greater(b).greater(c).greater(d)
}

proof fn spans_shift(a: Micro, b: Micro, c: Micro, d: Micro, by: Micro)
    requires
        within(a, 60_000_000_000_000_000),
        within(b, 60_000_000_000_000_000),
        within(c, 60_000_000_000_000_000),
        within(d, 60_000_000_000_000_000),
        within(by, 100_000_000_000_000_000),
    ensures
        ({
            let low = least(a, b, c, d);
            let high = greatest(a, b, c, d);
            let low2 = least(a.plus(by), b.plus(by), c.plus(by), d.plus(by));
            let high2 = greatest(a.plus(by), b.plus(by), c.plus(by), d.plus(by));
            &&& low2 == low.plus(by)
            &&& high2.minus(low2) == high.minus(low)
            &&& within(low, 60_000_000_000_000_000)
            &&& -60_000_000_000_000_000 <= low.raw + high.minus(low).raw <= 60_000_000_000_000_000
        }),
{
}

#[verifier::spinoff_prover]
#[verifier::rlimit(60)]
proof fn turned_bounds_shift(
    f: (Micro, Micro, Micro, Micro),
    degrees: Micro,
    dx: Micro,
    dy: Micro,
)
    requires
        within(f.0, 2_000_000_000_000_000),
        within(f.1, 2_000_000_000_000_000),
        within(f.2, 2_000_000_000_000_000),
        within(f.3, 2_000_000_000_000_000),
        within(dx, 100_000_000_000_000_000),
        within(dy, 100_000_000_000_000_000),
    ensures
        turned_bounds(shifted_frame(f, dx, dy), degrees) == shifted_frame(
            turned_bounds(f, degrees),
            dx,
            dy,
        ),
        framed(turned_bounds(f, degrees), 60_000_000_000_000_000),
{
    let c = center(f);
    halves_are_within(f.2, 2_000_000_000_000_000);
    halves_are_within(f.3, 2_000_000_000_000_000);
    let g = shifted_frame(f, dx, dy);
    let k = center(g);
    assert(k == (Point { x: c.x.plus(dx), y: c.y.plus(dy) }));
    assert(g.0.plus(g.2) == f.0.plus(f.2).plus(dx));
    assert(g.1.plus(g.3) == f.1.plus(f.3).plus(dy));
    let a = Point { x: f.0, y: f.1 };
    let b = Point { x: f.0.plus(f.2), y: f.1 };
    let d = Point { x: f.0, y: f.1.plus(f.3) };
    let e = Point { x: f.0.plus(f.2), y: f.1.plus(f.3) };
    turned_points_shift(a, c, degrees, dx, dy);
    turned_points_shift(b, c, degrees, dx, dy);
    turned_points_shift(d, c, degrees, dx, dy);
    turned_points_shift(e, c, degrees, dx, dy);
    let (p0, p1, p2, p3) = (
        turn_about(a, c, degrees),
        turn_about(b, c, degrees),
        turn_about(d, c, degrees),
        turn_about(e, c, degrees),
    );
    let (q0, q1, q2, q3) = (
        turn_about(Point { x: g.0, y: g.1 }, k, degrees),
        turn_about(Point { x: g.0.plus(g.2), y: g.1 }, k, degrees),
        turn_about(Point { x: g.0, y: g.1.plus(g.3) }, k, degrees),
        turn_about(Point { x: g.0.plus(g.2), y: g.1.plus(g.3) }, k, degrees),
    );
    spans_shift(p0.x, p1.x, p2.x, p3.x, dx);
    spans_shift(p0.y, p1.y, p2.y, p3.y, dy);
    assert(q0.x == p0.x.plus(dx) && q1.x == p1.x.plus(dx) && q2.x == p2.x.plus(dx) && q3.x
        == p3.x.plus(dx));
    assert(q0.y == p0.y.plus(dy) && q1.y == p1.y.plus(dy) && q2.y == p2.y.plus(dy) && q3.y
        == p3.y.plus(dy));
}

proof fn halves_are_within(v: Micro, reach: int)
    requires
        within(v, reach),
        0 <= reach <= 100_000_000_000_000_000,
    ensures
        within(half(v), reach),
{
    let n = v.raw * 1_000_000;
    if n >= 0 {
        assert(0 <= n / 2_000_000 <= reach);
    } else {
        assert(0 <= -n / 2_000_000 <= reach);
    }
}

/// What a shape visually occupies moves with the shape.
proof fn visual_frames_shift(n: NodeModel<Micro>, dx: Micro, dy: Micro)
    requires
        moderate_row(n),
        within(dx, 100_000_000_000_000_000),
        within(dy, 100_000_000_000_000_000),
    ensures
        visual_frame(shifted_row(n, dx, dy)) == shifted_frame(visual_frame(n), dx, dy),
        shape_frame(shifted_row(n, dx, dy)) == shifted_frame(shape_frame(n), dx, dy),
        framed(visual_frame(n), 60_000_000_000_000_000),
        framed(shape_frame(n), 60_000_000_000_000_000),
{
    let f = shape_frame(n);
    assert(shape_frame(shifted_row(n, dx, dy)) == shifted_frame(f, dx, dy));
    turned_bounds_shift(f, n.rotation.wrapped(Micro::of_int(360)), dx, dy);
}

proof fn unions_shift(
    a: (Micro, Micro, Micro, Micro),
    b: (Micro, Micro, Micro, Micro),
    dx: Micro,
    dy: Micro,
)
    requires
        framed(a, 60_000_000_000_000_000),
        framed(b, 60_000_000_000_000_000),
        within(dx, 100_000_000_000_000_000),
        within(dy, 100_000_000_000_000_000),
    ensures
        united(shifted_frame(a, dx, dy), shifted_frame(b, dx, dy)) == shifted_frame(
            united(a, b),
            dx,
            dy,
        ),
        framed(united(a, b), 60_000_000_000_000_000),
{
}

proof fn unions_of_all_shift(
    frames: Seq<(Micro, Micro, Micro, Micro)>,
    moved: Seq<(Micro, Micro, Micro, Micro)>,
    dx: Micro,
    dy: Micro,
)
    requires
        frames.len() == moved.len(),
        forall|i: int|
            0 <= i < frames.len() ==> framed(#[trigger] frames[i], 60_000_000_000_000_000)
                && moved[i] == shifted_frame(frames[i], dx, dy),
        within(dx, 100_000_000_000_000_000),
        within(dy, 100_000_000_000_000_000),
    ensures
        match united_all(frames) {
            Some(f) => united_all(moved) == Some(shifted_frame(f, dx, dy)) && framed(
                f,
                60_000_000_000_000_000,
            ),
            None => united_all(moved) is None,
        },
    decreases frames.len(),
{
    if frames.len() > 0 {
        let front = frames.drop_last();
        let behind = moved.drop_last();
        assert forall|i: int| 0 <= i < front.len() implies framed(
            #[trigger] front[i],
            60_000_000_000_000_000,
        ) && behind[i] == shifted_frame(front[i], dx, dy) by {
            assert(front[i] == frames[i] && behind[i] == moved[i]);
        }
        unions_of_all_shift(front, behind, dx, dy);
        let last = frames[frames.len() - 1];
        assert(moved[frames.len() - 1] == shifted_frame(last, dx, dy));
        match united_all(front) {
            Some(f) => unions_shift(f, last, dx, dy),
            None => {},
        }
    }
}

/// The frames of moved shapes are the frames of the shapes, moved.
proof fn frames_shift(
    rows: Seq<NodeModel<Micro>>,
    w: Seq<NodeModel<Micro>>,
    ids: Seq<u64>,
    dx: Micro,
    dy: Micro,
)
    requires
        forall|i: int|
            0 <= i < ids.len() ==> moderate_row(peek(rows, #[trigger] ids[i])) && peek(w, ids[i])
                == shifted_row(peek(rows, ids[i]), dx, dy),
        within(dx, 100_000_000_000_000_000),
        within(dy, 100_000_000_000_000_000),
    ensures
        match united_all(visual_frames(rows, ids)) {
            Some(f) => united_all(visual_frames(w, ids)) == Some(shifted_frame(f, dx, dy))
                && framed(f, 60_000_000_000_000_000),
            None => united_all(visual_frames(w, ids)) is None,
        },
{
    let frames = visual_frames(rows, ids);
    let moved = visual_frames(w, ids);
    assert forall|i: int| 0 <= i < frames.len() implies framed(
        #[trigger] frames[i],
        60_000_000_000_000_000,
    ) && moved[i] == shifted_frame(frames[i], dx, dy) by {
        assert(moderate_row(peek(rows, ids[i])));
        visual_frames_shift(peek(rows, ids[i]), dx, dy);
    }
    unions_of_all_shift(frames, moved, dx, dy);
}

/// Moving the shapes under a node leaves them under it, each of them moved.
proof fn moved_shapes<S: Scalar>(rows: Seq<NodeModel<S>>, id: u64, dx: S, dy: S)
    requires
        distinct(rows),
        shapes(rows, id).no_duplicates(),
        forall|i: int|
            0 <= i < shapes(rows, id).len() ==> has_row(rows, #[trigger] shapes(rows, id)[i]),
    ensures
        ({
            let ids = shapes(rows, id);
            let w = moved_each(rows, ids, dx, dy);
            &&& shapes(w, id) == ids
            &&& peek(w, id).kind == peek(rows, id).kind
            &&& forall|i: int|
                0 <= i < ids.len() ==> peek(w, #[trigger] ids[i]) == shifted_row(
                    peek(rows, ids[i]),
                    dx,
                    dy,
                )
        }),
{
    let ids = shapes(rows, id);
    let w = moved_each(rows, ids, dx, dy);
    moves_carry_each_shape_once(rows, ids, dx, dy);
    assert(peek(w, id).kind == peek(rows, id).kind) by {
        same_tree_peeks(rows, w);
    }
    assert(shapes(w, id) == ids) by {
        same_layers_same_shapes_within(rows, w, id, reach(rows));
    }
    assert forall|i: int| 0 <= i < ids.len() implies peek(w, #[trigger] ids[i]) == shifted_row(
        peek(rows, ids[i]),
        dx,
        dy,
    ) by {
        assert(ids.contains(ids[i]));
        assert(has_row(rows, ids[i]));
    }
}

/// The shapes under a node that is there are there, each once.
proof fn shapes_are_there(rows: Seq<NodeModel<Micro>>, id: u64)
    requires
        forest(rows),
        has_row(rows, id),
    ensures
        shapes(rows, id).no_duplicates(),
        forall|i: int|
            0 <= i < shapes(rows, id).len() ==> has_row(rows, #[trigger] shapes(rows, id)[i]),
{
    shapes_are_counted_once(rows, id);
    let ids = shapes(rows, id);
    assert forall|i: int| 0 <= i < ids.len() implies has_row(rows, #[trigger] ids[i]) by {
        assert(ids.contains(ids[i]));
    }
}

proof fn bounds_shift(rows: Seq<NodeModel<Micro>>, id: u64, dx: Micro, dy: Micro)
    requires
        forest(rows),
        has_row(rows, id),
        forall|x: u64| shapes(rows, id).contains(x) ==> moderate_row(#[trigger] peek(rows, x)),
        within(dx, 100_000_000_000_000_000),
        within(dy, 100_000_000_000_000_000),
    ensures
        ({
            let w = moved_each(rows, shapes(rows, id), dx, dy);
            match node_bounds(rows, id) {
                Some(f) => node_bounds(w, id) == Some(shifted_frame(f, dx, dy)) && framed(
                    f,
                    60_000_000_000_000_000,
                ),
                None => node_bounds(w, id) is None,
            }
        }),
{
    let ids = shapes(rows, id);
    let w = moved_each(rows, ids, dx, dy);
    shapes_are_there(rows, id);
    moved_shapes(rows, id, dx, dy);
    assert forall|i: int| 0 <= i < ids.len() implies moderate_row(peek(rows, #[trigger] ids[i])) by {
        assert(ids.contains(ids[i]));
    }
    if peek(rows, id).kind == NodeKind::Group {
        frames_shift(rows, w, ids, dx, dy);
    } else {
        assert(ids =~= seq![id]);
        assert(ids[0] == id);
        visual_frames_shift(peek(rows, id), dx, dy);
    }
}

/// A node moves as one body: moving every shape under it moves its bounds by as much, and
/// changes nothing else about them.
pub proof fn groups_move_as_one_body(
    rows: Seq<NodeModel<Micro>>,
    id: u64,
    dx: Micro,
    dy: Micro,
)
    requires
        forest(rows),
        has_row(rows, id),
        forall|x: u64| shapes(rows, id).contains(x) ==> moderate_row(#[trigger] peek(rows, x)),
        moderate(dx),
        moderate(dy),
    ensures
        node_bounds(moved_each(rows, shapes(rows, id), dx, dy), id) == match node_bounds(rows, id) {
            Some(f) => Some(shifted_frame(f, dx, dy)),
            None => None,
        },
{
    bounds_shift(rows, id, dx, dy);
}

/// A typed position is where the node then is, for a shape and for a group.
pub proof fn typed_positions_are_shown(rows: Seq<NodeModel<Micro>>, id: u64, v: Micro)
    requires
        forest(rows),
        has_row(rows, id),
        node_bounds(rows, id) is Some,
        forall|x: u64| shapes(rows, id).contains(x) ==> moderate_row(#[trigger] peek(rows, x)),
        moderate(v),
    ensures
        ({
            let f = node_bounds(rows, id)->0;
            &&& node_bounds(x_set(rows, id, v), id) == Some((v, f.1, f.2, f.3))
            &&& node_bounds(y_set(rows, id, v), id) == Some((f.0, v, f.2, f.3))
        }),
{
    let f = node_bounds(rows, id)->0;
    let zero = Micro::of_int(0);
    bounds_shift(rows, id, zero, zero);
    bounds_shift(rows, id, v.minus(f.0), zero);
    bounds_shift(rows, id, zero, v.minus(f.1));
}

} // verus!
