//! Turns come home, in millionths: a group that is turned about, and at last back to the angle it
//! was at, has everything where it was.
use vstd::prelude::*;
use crate::bounds::{line_ends, shape_frame};
use crate::exact::within;
use crate::geometry::{center, turn_about, Point};
use crate::micro::Micro;
use crate::motion::{center_sum, pivot, turned_to};
use crate::node::{NodeKind, NodeModel};
use crate::plane::{
    astray, bearing, doorstep, heading, headings_follow, home_by, home_is, short, short_is_near,
    moved_a_little, stands_still, stray, strays_are_near, strays_on,
};
use crate::products::{commuted, mono};
use crate::rigid::{at_hand_of, one_turn_orbits, step, turn_bears};
use crate::scalar::Scalar;
use crate::scene::{has_row, peek, shapes};
use crate::tree::{forest, same_tree_keeps_the_forest, turning_keeps_the_tree};
use crate::turning::{
    added, all_at_hand, at_hand, frames_in_reach, groups_turn_as_one_body, halved, mean_is, middle,
    middle_is, orbited_row, pivot_in_reach, raws, turned_point, turned_point_is,
    turns_keep_the_members, turns_keep_the_pivot,
};
use crate::zooms::gap;

verus! {

// ---------------------------------------------------------------------------
// Coming home
// ---------------------------------------------------------------------------

/// The spots of a shape that a turn carries along: a line's two ends, or a shape's centre.
pub open spec fn spot<S: Scalar>(n: NodeModel<S>, far: bool) -> Point<S> {
    if n.kind != NodeKind::Line {
        center((n.x, n.y, n.w, n.h))
    } else if far {
        line_ends(n).1
    } else {
        line_ends(n).0
    }
}

/// A spot is carried to where its turn takes it.
#[verifier::spinoff_prover]
proof fn spots_orbit(n: NodeModel<Micro>, far: bool, c: Point<Micro>, delta: Micro)
    requires
        at_hand(n),
        within(c.x, 3_000_000_000_000),
        within(c.y, 3_000_000_000_000),
    ensures
        ({
            let m = orbited_row(n, c, delta);
            let d = bearing(delta.raw as int);
            let e = astray(step(c, spot(n, far)), step(c, spot(m, far)), d);
            &&& -2_000_000 <= e.0 <= 2_000_000
            &&& -2_000_000 <= e.1 <= 2_000_000
        }),
{
    reveal(astray);
    reveal(turned_point);
    halved(n.w);
    halved(n.h);
    let m = orbited_row(n, c, delta);
    let p = spot(n, far);
    turn_bears(delta);
    turned_point_is(p, c, delta);
    if n.kind == NodeKind::Line {
        let (a, b) = line_ends(n);
        turned_point_is(a, c, delta);
        turned_point_is(b, c, delta);
        assert(line_ends(m) == (turn_about(a, c, delta), turn_about(b, c, delta)));
    } else {
        assert(spot(m, far) == turn_about(p, c, delta));
    }
}

/// The rows after a group was turned to each of some angles, in turn.
pub open spec fn turned_each<S: Scalar>(
    rows: Seq<NodeModel<S>>,
    g: u64,
    angles: Seq<S>,
) -> Seq<NodeModel<S>>
    decreases angles.len(),
{
    if angles.len() == 0 {
        rows
    } else {
        turned_to(turned_each(rows, g, angles.drop_last()), g, angles.last())
    }
}

/// Whether a group's shapes are at hand before each of some turns.
pub open spec fn at_hand_throughout(
    rows: Seq<NodeModel<Micro>>,
    g: u64,
    angles: Seq<Micro>,
) -> bool
    decreases angles.len(),
{
    angles.len() == 0 || {
        &&& at_hand_throughout(rows, g, angles.drop_last())
        &&& all_at_hand(turned_each(rows, g, angles.drop_last()), shapes(rows, g))
        &&& within(angles.last(), 400_000_000_000_000)
    }
}

/// Whether a group may be turned: it is there, has shapes, and not more than can be counted with.
pub open spec fn turnable(rows: Seq<NodeModel<Micro>>, g: u64) -> bool {
    &&& forest(rows)
    &&& has_row(rows, g)
    &&& peek(rows, g).kind == NodeKind::Group
    &&& 0 < shapes(rows, g).len() <= 10_000
    &&& within(peek(rows, g).rotation, 400_000_000_000_000)
}

/// The angle that a group is at after some turns.
pub open spec fn angle_after<S>(start: S, angles: Seq<S>) -> S {
    if angles.len() == 0 {
        start
    } else {
        angles.last()
    }
}

/// What a run of turns leaves as it is.
pub proof fn turns_leave<S: Scalar>(rows: Seq<NodeModel<S>>, g: u64, angles: Seq<S>)
    requires
        forest(rows),
        has_row(rows, g),
        peek(rows, g).kind == NodeKind::Group,
        shapes(rows, g).len() > 0,
    ensures
        ({
            let after = turned_each(rows, g, angles);
            &&& forest(after)
            &&& has_row(after, g)
            &&& peek(after, g).kind == NodeKind::Group
            &&& shapes(after, g) == shapes(rows, g)
            &&& peek(after, g).rotation == angle_after(peek(rows, g).rotation, angles)
        }),
    decreases angles.len(),
{
    if angles.len() > 0 {
        let front = angles.drop_last();
        turns_leave(rows, g, front);
        let r = turned_each(rows, g, front);
        let angle = angles.last();
        groups_turn_as_one_body(r, g, angle);
        turns_keep_the_members(r, g, angle);
        turning_keeps_the_tree(r, g, angle);
        same_tree_keeps_the_forest(r, turned_to(r, g, angle));
    }
}

/// Where the pivot of some shapes is, in millionths.
#[verifier::opaque]
pub open spec fn hub(rows: Seq<NodeModel<Micro>>, ids: Seq<u64>) -> (int, int) {
    raws(pivot(rows, ids))
}

/// The way from the pivot of some shapes to a spot of one of them.
#[verifier::opaque]
pub open spec fn way(rows: Seq<NodeModel<Micro>>, ids: Seq<u64>, x: u64, far: bool) -> (int, int) {
    step(pivot(rows, ids), spot(peek(rows, x), far))
}

/// Where a run of turns has taken a spot: to where one turn by the whole angle would have, but
/// for so much a turn, about a pivot that has hardly moved.
proof fn spots_stray(
    rows: Seq<NodeModel<Micro>>,
    g: u64,
    angles: Seq<Micro>,
    x: u64,
    far: bool,
)
    requires
        turnable(rows, g),
        at_hand_throughout(rows, g, angles),
        angles.len() <= 100_000,
        shapes(rows, g).contains(x),
    ensures
        ({
            let ids = shapes(rows, g);
            let after = turned_each(rows, g, angles);
            let start = peek(rows, g).rotation;
            let v = way(rows, ids, x, far);
            let n = angles.len() as int;
            &&& short(
                astray(
                    v,
                    way(after, ids, x, far),
                    bearing(angle_after(start, angles).raw - start.raw),
                ),
                n * stray(v),
            )
            &&& -(7 * n) <= hub(after, ids).0 - hub(rows, ids).0 <= 7 * n
            &&& -(7 * n) <= hub(after, ids).1 - hub(rows, ids).1 <= 7 * n
        }),
    decreases angles.len(),
{
    let ids = shapes(rows, g);
    let start = peek(rows, g).rotation;
    let v = way(rows, ids, x, far);
    if angles.len() == 0 {
        stands_still(v);
        assert(0 * stray(v) == 0);
        assert(turned_each(rows, g, angles) == rows);
    } else {
        let front = angles.drop_last();
        let n = angles.len() as int;
        spots_stray(rows, g, front, x, far);
        turns_leave(rows, g, front);
        let r = turned_each(rows, g, front);
        let angle = angles.last();
        let before = angle_after(start, front);
        let after = turned_to(r, g, angle);
        assert(turned_each(rows, g, angles) == after);
        angles_are_told(rows, g, front);
        one_turn_strays(r, g, angle, x, far);
        strays_on(
            v,
            way(r, ids, x, far),
            way(after, ids, x, far),
            before.raw - start.raw,
            angle.raw - before.raw,
            n - 1,
        );
    }
}

/// The angle that a group is at before a turn.
proof fn angles_are_told(rows: Seq<NodeModel<Micro>>, g: u64, angles: Seq<Micro>)
    requires
        turnable(rows, g),
        at_hand_throughout(rows, g, angles),
    ensures
        within(angle_after(peek(rows, g).rotation, angles), 400_000_000_000_000),
{
}

/// The pivot hardly moves in a turn.
#[verifier::spinoff_prover]
proof fn hubs_stay(rows: Seq<NodeModel<Micro>>, g: u64, angle: Micro)
    requires
        turnable(rows, g),
        all_at_hand(rows, shapes(rows, g)),
    ensures
        ({
            let ids = shapes(rows, g);
            let (c, d) = (hub(rows, ids), hub(turned_to(rows, g, angle), ids));
            &&& -7 <= d.0 - c.0 <= 7
            &&& -7 <= d.1 - c.1 <= 7
        }),
{
    turns_keep_the_pivot(rows, g, angle);
    turns_keep_the_members(rows, g, angle);
    reveal(hub);
}

/// Where a pivot is, and how a spot is seen from it.
proof fn seen_from_the_pivot(
    rows: Seq<NodeModel<Micro>>,
    ids: Seq<u64>,
    c: Point<Micro>,
    x: u64,
    far: bool,
)
    requires
        c == pivot(rows, ids),
    ensures
        hub(rows, ids) == raws(c),
        way(rows, ids, x, far) == step(c, spot(peek(rows, x), far)),
{
    reveal(hub);
    reveal(way);
}

/// A spot seen from a point that has moved a little.
proof fn seen_from_nearby(
    c: Point<Micro>,
    d: Point<Micro>,
    p: Point<Micro>,
    q: Point<Micro>,
    t: (int, int),
)
    requires
        -7 <= raws(d).0 - raws(c).0 <= 7,
        -7 <= raws(d).1 - raws(c).1 <= 7,
        -2_000_000 <= astray(step(c, p), step(c, q), t).0 <= 2_000_000,
        -2_000_000 <= astray(step(c, p), step(c, q), t).1 <= 2_000_000,
    ensures
        -12_000_000 <= astray(step(c, p), step(d, q), t).0 <= 12_000_000,
        -12_000_000 <= astray(step(c, p), step(d, q), t).1 <= 12_000_000,
{
    moved_a_little(step(c, p), step(c, q), step(d, q), t);
}

/// A shape of a turned group, about the pivot `c` and seen from the pivot `d`.
proof fn one_orbit_strays(
    n: NodeModel<Micro>,
    m: NodeModel<Micro>,
    far: bool,
    c: Point<Micro>,
    d: Point<Micro>,
    delta: Micro,
)
    requires
        at_hand(n),
        m == orbited_row(n, c, delta),
        within(c.x, 3_000_000_000_000),
        within(c.y, 3_000_000_000_000),
        -7 <= raws(d).0 - raws(c).0 <= 7,
        -7 <= raws(d).1 - raws(c).1 <= 7,
    ensures
        ({
            let e = astray(step(c, spot(n, far)), step(d, spot(m, far)), bearing(delta.raw as int));
            &&& -12_000_000 <= e.0 <= 12_000_000
            &&& -12_000_000 <= e.1 <= 12_000_000
        }),
{
    spots_orbit(n, far, c, delta);
    seen_from_nearby(c, d, spot(n, far), spot(m, far), bearing(delta.raw as int));
}

proof fn told_apart(a: Micro, b: Micro)
    requires
        within(a, 400_000_000_000_000),
        within(b, 400_000_000_000_000),
    ensures
        a.minus(b).raw == a.raw - b.raw,
{
}

/// One turn of a group takes a spot to where it should, about a pivot that hardly moves.
#[verifier::spinoff_prover]
proof fn one_turn_strays(
    rows: Seq<NodeModel<Micro>>,
    g: u64,
    angle: Micro,
    x: u64,
    far: bool,
)
    requires
        turnable(rows, g),
        all_at_hand(rows, shapes(rows, g)),
        within(angle, 400_000_000_000_000),
        shapes(rows, g).contains(x),
    ensures
        ({
            let ids = shapes(rows, g);
            let after = turned_to(rows, g, angle);
            let e = astray(
                way(rows, ids, x, far),
                way(after, ids, x, far),
                bearing(angle.raw - peek(rows, g).rotation.raw),
            );
            let (c, d) = (hub(rows, ids), hub(after, ids));
            &&& -12_000_000 <= e.0 <= 12_000_000
            &&& -12_000_000 <= e.1 <= 12_000_000
            &&& -7 <= d.0 - c.0 <= 7
            &&& -7 <= d.1 - c.1 <= 7
        }),
{
    let ids = shapes(rows, g);
    let after = turned_to(rows, g, angle);
    let (c, d) = (pivot(rows, ids), pivot(after, ids));
    hubs_stay(rows, g, angle);
    seen_from_the_pivot(rows, ids, c, x, far);
    seen_from_the_pivot(after, ids, d, x, far);
    pivot_in_reach(rows, ids);
    at_hand_of(rows, ids, x);
    one_turn_orbits(rows, g, angle, x);
    told_apart(angle, peek(rows, g).rotation);
    one_orbit_strays(
        peek(rows, x),
        peek(after, x),
        far,
        c,
        d,
        angle.minus(peek(rows, g).rotation),
    );
}

/// Whether two points are no further apart than that either way.
pub open spec fn on_the_doorstep(p: Point<Micro>, q: Point<Micro>, reach: int) -> bool {
    gap(p.x, q.x) * 200_000 <= reach && gap(p.y, q.y) * 200_000 <= reach
}

/// A spot is home again when its group is at the angle it started from.
proof fn spots_come_home(
    rows: Seq<NodeModel<Micro>>,
    g: u64,
    angles: Seq<Micro>,
    x: u64,
    far: bool,
)
    requires
        turnable(rows, g),
        at_hand_throughout(rows, g, angles),
        angles.len() <= 100_000,
        shapes(rows, g).contains(x),
        heading(angle_after(peek(rows, g).rotation, angles).raw - peek(rows, g).rotation.raw) == 0,
    ensures
        ({
            let ids = shapes(rows, g);
            let p = spot(peek(rows, x), far);
            let q = spot(peek(turned_each(rows, g, angles), x), far);
            on_the_doorstep(p, q, doorstep(way(rows, ids, x, far), angles.len() as int))
        }),
{
    let ids = shapes(rows, g);
    let after = turned_each(rows, g, angles);
    let start = peek(rows, g).rotation;
    let v = way(rows, ids, x, far);
    let w = way(after, ids, x, far);
    let n = angles.len() as int;
    let a = angle_after(start, angles).raw - start.raw;
    spots_stray(rows, g, angles, x, far);
    home_is(v, w, a);
    short_is_near(astray(v, w, bearing(a)), n * stray(v));
    home_by(w.0 - v.0, hub(after, ids).0 - hub(rows, ids).0, n, v);
    home_by(w.1 - v.1, hub(after, ids).1 - hub(rows, ids).1, n, v);
    ways_lead(rows, ids, x, far);
    ways_lead(after, ids, x, far);
}

/// The way to a spot leads from the pivot to the spot.
proof fn ways_lead(rows: Seq<NodeModel<Micro>>, ids: Seq<u64>, x: u64, far: bool)
    ensures
        ({
            let p = spot(peek(rows, x), far);
            let v = way(rows, ids, x, far);
            let c = hub(rows, ids);
            p.x.raw == c.0 + v.0 && p.y.raw == c.1 + v.1
        }),
{
    reveal(hub);
    reveal(way);
}

/// What one turn keeps of a shape: the kind, and but for lines the size; and how it turns the
/// shape itself.
#[verifier::spinoff_prover]
proof fn one_turn_keeps(rows: Seq<NodeModel<Micro>>, g: u64, angle: Micro, x: u64)
    requires
        turnable(rows, g),
        within(angle, 400_000_000_000_000),
        shapes(rows, g).contains(x),
        within(peek(rows, x).rotation, 1_000_000_000_000_000),
    ensures
        ({
            let (n, m) = (peek(rows, x), peek(turned_to(rows, g, angle), x));
            let delta = angle.raw - peek(rows, g).rotation.raw;
            &&& m.kind == n.kind
            &&& within(m.rotation, 1_000_000_000_000_000)
            &&& if n.kind == NodeKind::Line {
                m.rotation == n.rotation
            } else {
                m.w == n.w && m.h == n.h && heading(m.rotation.raw as int) == heading(
                    n.rotation.raw + delta,
                )
            }
        }),
{
    one_turn_orbits(rows, g, angle, x);
    let delta = angle.minus(peek(rows, g).rotation);
    assert(delta.raw == angle.raw - peek(rows, g).rotation.raw);
    angle_turns(peek(rows, x).rotation, delta);
}

proof fn angle_turns(r: Micro, delta: Micro)
    requires
        within(r, 1_000_000_000_000_000),
        within(delta, 800_000_000_000_000),
    ensures
        heading(r.plus(delta).wrapped(Micro::of_int(360)).raw as int) == heading(r.raw + delta.raw),
        within(r.plus(delta).wrapped(Micro::of_int(360)), 1_000_000_000_000_000),
{
    assert(r.plus(delta).raw == r.raw + delta.raw);
    assert(Micro::of_int(360).raw == 360_000_000);
    reveal(heading);
}

/// What a run of turns keeps of a shape.
proof fn turns_keep_shapes(rows: Seq<NodeModel<Micro>>, g: u64, angles: Seq<Micro>, x: u64)
    requires
        turnable(rows, g),
        at_hand_throughout(rows, g, angles),
        shapes(rows, g).contains(x),
        within(peek(rows, x).rotation, 1_000_000_000_000_000),
    ensures
        ({
            let (n, m) = (peek(rows, x), peek(turned_each(rows, g, angles), x));
            let start = peek(rows, g).rotation;
            let turn = angle_after(start, angles).raw - start.raw;
            &&& m.kind == n.kind
            &&& within(m.rotation, 1_000_000_000_000_000)
            &&& if n.kind == NodeKind::Line {
                m.rotation == n.rotation
            } else {
                m.w == n.w && m.h == n.h && heading(m.rotation.raw as int) == heading(
                    n.rotation.raw + turn,
                )
            }
        }),
    decreases angles.len(),
{
    if angles.len() > 0 {
        let front = angles.drop_last();
        turns_keep_shapes(rows, g, front, x);
        turns_leave(rows, g, front);
        let r = turned_each(rows, g, front);
        let start = peek(rows, g).rotation;
        let before = angle_after(start, front);
        let angle = angles.last();
        angles_are_told(rows, g, front);
        one_turn_keeps(r, g, angle, x);
        if peek(rows, x).kind != NodeKind::Line {
            headings_follow(
                peek(rows, x).rotation.raw + (before.raw - start.raw),
                peek(r, x).rotation.raw as int,
                angle.raw - before.raw,
            );
        }
    }
}

// ---------------------------------------------------------------------------
// Staying at hand
// ---------------------------------------------------------------------------

/// Whether a shape lies within ten thousand units of the origin.
pub open spec fn close_by(n: NodeModel<Micro>) -> bool {
    &&& within(n.x, 10_000_000_000)
    &&& within(n.y, 10_000_000_000)
    &&& within(n.w, 10_000_000_000)
    &&& within(n.h, 10_000_000_000)
}

/// Whether every one of some shapes lies within ten thousand units of the origin.
pub open spec fn all_close_by(rows: Seq<NodeModel<Micro>>, ids: Seq<u64>) -> bool {
    forall|i: int| 0 <= i < ids.len() ==> close_by(peek(rows, #[trigger] ids[i]))
}

/// Whether angles can be told apart.
pub open spec fn all_angles(angles: Seq<Micro>) -> bool {
    forall|i: int| 0 <= i < angles.len() ==> within(#[trigger] angles[i], 400_000_000_000_000)
}

proof fn close_sums(rows: Seq<NodeModel<Micro>>, ids: Seq<u64>)
    requires
        ids.len() <= 10_000,
        all_close_by(rows, ids),
    ensures
        within(center_sum(rows, ids).x, 20_000_000_000 * ids.len() as int),
        within(center_sum(rows, ids).y, 20_000_000_000 * ids.len() as int),
    decreases ids.len(),
{
    if ids.len() > 0 {
        let front = ids.drop_last();
        let n = ids.len() as int;
        assert(all_close_by(rows, front)) by {
            assert forall|i: int| 0 <= i < front.len() implies close_by(
                peek(rows, #[trigger] front[i]),
            ) by {
                assert(front[i] == ids[i]);
            }
        }
        close_sums(rows, front);
        let row = peek(rows, ids[n - 1]);
        assert(close_by(row));
        middle_is(row);
        frames_in_reach(row);
        added(center_sum(rows, front), shape_frame(row), middle(row), 200_000_000_000_000);
        assert(within(middle(row).x, 20_000_000_000) && within(middle(row).y, 20_000_000_000));
    }
}

proof fn close_pivot(rows: Seq<NodeModel<Micro>>, ids: Seq<u64>)
    requires
        0 < ids.len() <= 10_000,
        all_close_by(rows, ids),
    ensures
        within(pivot(rows, ids).x, 20_000_000_001),
        within(pivot(rows, ids).y, 20_000_000_001),
{
    let n = ids.len() as int;
    close_sums(rows, ids);
    let u = center_sum(rows, ids);
    mean_is(u.x, n);
    mean_is(u.y, n);
    let c = pivot(rows, ids);
    close_mean(u.x.raw as int, c.x.raw as int, n);
    close_mean(u.y.raw as int, c.y.raw as int, n);
}

proof fn close_mean(sum: int, q: int, n: int)
    requires
        0 < n,
        -20_000_000_000 * n <= sum <= 20_000_000_000 * n,
        -n < sum - q * n < n,
    ensures
        -20_000_000_001 <= q <= 20_000_000_001,
{
    if q > 20_000_000_001 {
        mono(n, 20_000_000_001, q);
        commuted(n, q);
    }
    if q < -20_000_000_001 {
        mono(n, q, -20_000_000_001);
        commuted(n, q);
    }
}

/// A spot of a close group is not far after a run of turns.
proof fn spots_stay_near(
    rows: Seq<NodeModel<Micro>>,
    g: u64,
    angles: Seq<Micro>,
    x: u64,
    far: bool,
)
    requires
        turnable(rows, g),
        all_close_by(rows, shapes(rows, g)),
        at_hand_throughout(rows, g, angles),
        angles.len() <= 100_000,
        shapes(rows, g).contains(x),
    ensures
        ({
            let q = spot(peek(turned_each(rows, g, angles), x), far);
            within(q.x, 300_000_000_000) && within(q.y, 300_000_000_000)
        }),
{
    let ids = shapes(rows, g);
    let start = peek(rows, g).rotation;
    let after = turned_each(rows, g, angles);
    spots_stray(rows, g, angles, x, far);
    close_hub(rows, ids);
    close_spot(rows, ids, x, far);
    ways_lead(rows, ids, x, far);
    ways_lead(after, ids, x, far);
    strays_are_near(
        way(rows, ids, x, far),
        way(after, ids, x, far),
        angle_after(start, angles).raw - start.raw,
        angles.len() as int,
    );
}

proof fn close_hub(rows: Seq<NodeModel<Micro>>, ids: Seq<u64>)
    requires
        0 < ids.len() <= 10_000,
        all_close_by(rows, ids),
    ensures
        -20_000_000_001 <= hub(rows, ids).0 <= 20_000_000_001,
        -20_000_000_001 <= hub(rows, ids).1 <= 20_000_000_001,
{
    close_pivot(rows, ids);
    reveal(hub);
}

proof fn close_spot(rows: Seq<NodeModel<Micro>>, ids: Seq<u64>, x: u64, far: bool)
    requires
        all_close_by(rows, ids),
        ids.contains(x),
    ensures
        close_by(peek(rows, x)),
        within(spot(peek(rows, x), far).x, 20_000_000_000),
        within(spot(peek(rows, x), far).y, 20_000_000_000),
{
    let i = choose|i: int| 0 <= i < ids.len() && ids[i] == x;
    let n = peek(rows, x);
    assert(close_by(peek(rows, ids[i])));
    halved(n.w);
    halved(n.h);
}

/// A shape whose spots are near is at hand.
#[verifier::spinoff_prover]
proof fn near_spots_are_at_hand(n: NodeModel<Micro>)
    requires
        within(spot(n, false).x, 300_000_000_000),
        within(spot(n, false).y, 300_000_000_000),
        within(spot(n, true).x, 300_000_000_000),
        within(spot(n, true).y, 300_000_000_000),
        n.kind != NodeKind::Line ==> within(n.w, 10_000_000_000) && within(n.h, 10_000_000_000),
    ensures
        at_hand(n),
{
    if n.kind != NodeKind::Line {
        halved(n.w);
        halved(n.h);
    }
}

/// A group that is close to the origin stays at hand, however it is turned.
pub proof fn close_groups_stay_at_hand(
    rows: Seq<NodeModel<Micro>>,
    g: u64,
    angles: Seq<Micro>,
)
    requires
        turnable(rows, g),
        all_close_by(rows, shapes(rows, g)),
        all_angles(angles),
        angles.len() <= 100_000,
        forall|x: u64|
            shapes(rows, g).contains(x) ==> within(
                (#[trigger] peek(rows, x)).rotation,
                1_000_000_000_000_000,
            ),
    ensures
        at_hand_throughout(rows, g, angles),
    decreases angles.len(),
{
    if angles.len() > 0 {
        let front = angles.drop_last();
        let ids = shapes(rows, g);
        assert(all_angles(front)) by {
            assert forall|i: int| 0 <= i < front.len() implies within(
                #[trigger] front[i],
                400_000_000_000_000,
            ) by {
                assert(front[i] == angles[i]);
            }
        }
        close_groups_stay_at_hand(rows, g, front);
        let r = turned_each(rows, g, front);
        assert forall|i: int| 0 <= i < ids.len() implies at_hand(peek(r, #[trigger] ids[i])) by {
            let x = ids[i];
            assert(ids.contains(x));
            assert(within(peek(rows, x).rotation, 1_000_000_000_000_000));
            spots_stay_near(rows, g, front, x, false);
            spots_stay_near(rows, g, front, x, true);
            turns_keep_shapes(rows, g, front, x);
            close_spot(rows, ids, x, false);
            near_spots_are_at_hand(peek(r, x));
        }
        assert(within(angles[angles.len() - 1], 400_000_000_000_000));
    }
}

// ---------------------------------------------------------------------------
// The law
// ---------------------------------------------------------------------------

/// Whether a shape is home again: its centre, or its two ends, are within `near` and `far` of
/// where they were, and but for lines it has the size it had, and its angle up to whole turns.
pub open spec fn home(n: NodeModel<Micro>, m: NodeModel<Micro>, near: int, far: int) -> bool {
    &&& m.kind == n.kind
    &&& on_the_doorstep(spot(n, false), spot(m, false), near)
    &&& on_the_doorstep(spot(n, true), spot(m, true), far)
    &&& heading(m.rotation.raw as int) == heading(n.rotation.raw as int)
    &&& n.kind != NodeKind::Line ==> m.w == n.w && m.h == n.h
}

/// Turns come home: a group that was turned any number of times, by any angles, and is at the
/// angle it started from, up to whole turns, has every shape where it was. A turn may stray by
/// some millionths, and by a two-hundred-thousandth of a shape's way from the pivot.
pub proof fn turns_come_home(rows: Seq<NodeModel<Micro>>, g: u64, angles: Seq<Micro>, x: u64)
    requires
        turnable(rows, g),
        all_close_by(rows, shapes(rows, g)),
        all_angles(angles),
        angles.len() <= 100_000,
        heading(angle_after(peek(rows, g).rotation, angles).raw - peek(rows, g).rotation.raw) == 0,
        shapes(rows, g).contains(x),
        forall|y: u64|
            shapes(rows, g).contains(y) ==> within(
                (#[trigger] peek(rows, y)).rotation,
                1_000_000_000_000_000,
            ),
    ensures
        ({
            let ids = shapes(rows, g);
            home(
                peek(rows, x),
                peek(turned_each(rows, g, angles), x),
                doorstep(way(rows, ids, x, false), angles.len() as int),
                doorstep(way(rows, ids, x, true), angles.len() as int),
            )
        }),
{
    close_groups_stay_at_hand(rows, g, angles);
    spots_come_home(rows, g, angles, x, false);
    spots_come_home(rows, g, angles, x, true);
    turns_keep_shapes(rows, g, angles, x);
    let start = peek(rows, g).rotation;
    let turn = angle_after(start, angles).raw - start.raw;
    let r = peek(rows, x).rotation.raw as int;
    assert(heading(0) == 0) by {
        reveal(heading);
    }
    headings_follow(0, turn, r);
}

} // verus!
