//! Turns come home, in any numbers that are read closely: a group that is turned about, and at last
//! back to the angle it was at, has everything where it was.
use vstd::prelude::*;
use crate::drift::{
    all_near, far_way, near_by, near_of, one_turn_slips, one_turn_stays_within, pivots_are_near, roomy,
    turns_well,
};
use crate::gauge::{angles_read, halves_read, sums_read, turns_read, Gauge};
use crate::homing::{angle_after, spot, turned_each, turns_leave};
use crate::motion::{pivot, turned_to};
use crate::node::{NodeKind, NodeModel};
use crate::plane::{short, short_is_near, small_swing, stretch};
use crate::products::{cancelled, commuted, distributed, mono, product_within, regrouped};
use crate::rigid::one_turn_orbits;
use crate::scalar::{half, Scalar};
use crate::scene::{peek, shapes};
use crate::sway::{
    amiss, away, both_within, goes_on_amiss, lapse, round, slip, stands, unturned,
};

verus! {

// ---------------------------------------------------------------------------
// Spots
// ---------------------------------------------------------------------------

/// Whether a group's shapes are within `d` units of the origin before each of some turns, and
/// the angles of the turns can be reckoned with.
pub open spec fn near_throughout<S: Scalar>(
    g: Gauge<S>,
    rows: Seq<NodeModel<S>>,
    group: u64,
    angles: Seq<S>,
    d: int,
) -> bool
    decreases angles.len(),
{
    angles.len() == 0 || {
        &&& near_throughout(g, rows, group, angles.drop_last(), d)
        &&& all_near(g, turned_each(rows, group, angles.drop_last()), shapes(rows, group), d)
        &&& g.known(angles.last())
    }
}

/// The angle that a group is at before a turn can be reckoned with.
proof fn angles_are_known<S: Scalar>(
    g: Gauge<S>,
    rows: Seq<NodeModel<S>>,
    group: u64,
    angles: Seq<S>,
    d: int,
)
    requires
        near_throughout(g, rows, group, angles, d),
        g.known(peek(rows, group).rotation),
    ensures
        g.known(angle_after(peek(rows, group).rotation, angles)),
{
}

/// Where the pivot of some shapes is, in units.
#[verifier::opaque]
pub open spec fn far_hub<S: Scalar>(g: Gauge<S>, rows: Seq<NodeModel<S>>, ids: Seq<u64>) -> (
    int,
    int,
) {
    g.at(pivot(rows, ids))
}

/// How far, in parts of a unit, a pivot may move in one turn.
pub open spec fn shift(p: int, d: int) -> int {
    53 * p + 15 * d
}

/// What one turn makes of a way, and of the pivot.
proof fn one_turn_goes_amiss<S: Scalar>(
    g: Gauge<S>,
    rows: Seq<NodeModel<S>>,
    group: u64,
    angle: S,
    x: u64,
    far: bool,
    d: int,
)
    requires
        g.reads_closely(),
        turns_well(g, rows, group, d),
        shapes(rows, group).contains(x),
    ensures
        ({
            let ids = shapes(rows, group);
            let after = turned_to(rows, group, angle);
            let t = g.t(angle.minus(peek(rows, group).rotation));
            let m = away(far_hub(g, rows, ids), far_hub(g, after, ids));
            &&& both_within(
                amiss(g.p, far_way(g, rows, ids, x, far), far_way(g, after, ids, x, far), t),
                slip(g.p, d),
            )
            &&& both_within((g.p * m.0, g.p * m.1), shift(g.p, d))
            &&& round(g.p, t)
            &&& stretch(far_way(g, rows, ids, x, far)) <= 14 * d
            &&& g.p > 0
        }),
{
    one_turn_slips(g, rows, group, angle, x, far, d);
    reveal(far_hub);
}

/// Where a run of turns has taken a spot: to where one turn by the whole angle would have, but
/// for so much a turn, about a pivot that has hardly moved.
#[verifier::spinoff_prover]
proof fn spots_drift<S: Scalar>(
    g: Gauge<S>,
    rows: Seq<NodeModel<S>>,
    group: u64,
    angles: Seq<S>,
    x: u64,
    far: bool,
    d: int,
)
    requires
        g.reads_closely(),
        turns_well(g, rows, group, d),
        g.known(peek(rows, group).rotation),
        near_throughout(g, rows, group, angles, d),
        10 * angles.len() <= g.p,
        shapes(rows, group).contains(x),
    ensures
        ({
            let ids = shapes(rows, group);
            let after = turned_each(rows, group, angles);
            let start = peek(rows, group).rotation;
            let n = angles.len() as int;
            let m = away(far_hub(g, rows, ids), far_hub(g, after, ids));
            &&& short(
                amiss(
                    g.p,
                    far_way(g, rows, ids, x, far),
                    far_way(g, after, ids, x, far),
                    g.t(angle_after(start, angles).minus(start)),
                ),
                n * lapse(g.p, d),
            )
            &&& both_within((g.p * m.0, g.p * m.1), n * shift(g.p, d))
        }),
    decreases angles.len(),
{
    let ids = shapes(rows, group);
    let start = peek(rows, group).rotation;
    let v = far_way(g, rows, ids, x, far);
    angles_read(g, start, start, start);
    if angles.len() == 0 {
        stands(g.p, v);
        assert(0 * lapse(g.p, d) == 0 && 0 * shift(g.p, d) == 0 && g.p * 0 == 0);
        assert(turned_each(rows, group, angles) == rows);
    } else {
        let front = angles.drop_last();
        let n = angles.len() as int;
        spots_drift(g, rows, group, front, x, far, d);
        turns_leave(rows, group, front);
        let r = turned_each(rows, group, front);
        let angle = angles.last();
        let before = angle_after(start, front);
        let after = turned_to(r, group, angle);
        assert(turned_each(rows, group, angles) == after);
        angles_are_known(g, rows, group, front, d);
        one_turn_goes_amiss(g, rows, group, start, x, far, d);
        one_turn_goes_amiss(g, r, group, angle, x, far, d);
        angles_read(g, start, before, angle);
        goes_on_amiss(
            g.p,
            v,
            far_way(g, r, ids, x, far),
            far_way(g, after, ids, x, far),
            g.t(before.minus(start)),
            g.t(angle.minus(before)),
            g.t(angle.minus(start)),
            n - 1,
            d,
        );
        shifts_add(g.p, far_hub(g, rows, ids), far_hub(g, r, ids), far_hub(g, after, ids), n, d);
    }
}

proof fn shifts_add(p: int, a: (int, int), b: (int, int), c: (int, int), n: int, d: int)
    requires
        both_within((p * away(a, b).0, p * away(a, b).1), (n - 1) * shift(p, d)),
        both_within((p * away(b, c).0, p * away(b, c).1), shift(p, d)),
    ensures
        both_within((p * away(a, c).0, p * away(a, c).1), n * shift(p, d)),
{
    distributed(p, away(a, b).0, away(b, c).0);
    distributed(p, away(a, b).1, away(b, c).1);
    distributed(shift(p, d), n - 1, 1);
}

/// The way to a spot leads from the pivot to the spot.
proof fn far_ways_lead<S: Scalar>(
    g: Gauge<S>,
    rows: Seq<NodeModel<S>>,
    ids: Seq<u64>,
    x: u64,
    far: bool,
)
    ensures
        ({
            let (v, c) = (far_way(g, rows, ids, x, far), far_hub(g, rows, ids));
            g.at(spot(peek(rows, x), far)) == (c.0 + v.0, c.1 + v.1)
        }),
{
    reveal(far_hub);
    reveal(far_way);
}

/// A spot is home again when its group is at the angle it started from.
proof fn spots_end_home<S: Scalar>(
    g: Gauge<S>,
    rows: Seq<NodeModel<S>>,
    group: u64,
    angles: Seq<S>,
    x: u64,
    far: bool,
    d: int,
)
    requires
        g.reads_closely(),
        turns_well(g, rows, group, d),
        g.known(peek(rows, group).rotation),
        near_throughout(g, rows, group, angles, d),
        10 * angles.len() <= g.p,
        shapes(rows, group).contains(x),
        g.t(
            angle_after(peek(rows, group).rotation, angles).minus(peek(rows, group).rotation),
        ) == (g.p, 0int),
    ensures
        ({
            let m = away(
                g.at(spot(peek(rows, x), far)),
                g.at(spot(peek(turned_each(rows, group, angles), x), far)),
            );
            both_within(
                (g.p * m.0, g.p * m.1),
                angles.len() as int * (lapse(g.p, d) + shift(g.p, d)),
            )
        }),
{
    let ids = shapes(rows, group);
    let after = turned_each(rows, group, angles);
    let n = angles.len() as int;
    let (v, w) = (far_way(g, rows, ids, x, far), far_way(g, after, ids, x, far));
    let (a, b) = (far_hub(g, rows, ids), far_hub(g, after, ids));
    spots_drift(g, rows, group, angles, x, far, d);
    unturned(g.p, v, w);
    short_is_near(amiss(g.p, v, w, (g.p, 0)), n * lapse(g.p, d));
    far_ways_lead(g, rows, ids, x, far);
    far_ways_lead(g, after, ids, x, far);
    distributed(g.p, w.0 - v.0, b.0 - a.0);
    distributed(g.p, w.1 - v.1, b.1 - a.1);
    distributed(n, lapse(g.p, d), shift(g.p, d));
}

// ---------------------------------------------------------------------------
// Shapes
// ---------------------------------------------------------------------------

/// What a run of turns keeps of a shape: the kind, and but for lines the size; and how it turns
/// the shape itself.
#[verifier::spinoff_prover]
proof fn turns_keep_kinds<S: Scalar>(
    g: Gauge<S>,
    rows: Seq<NodeModel<S>>,
    group: u64,
    angles: Seq<S>,
    x: u64,
    d: int,
)
    requires
        g.reads_closely(),
        turns_well(g, rows, group, d),
        g.known(peek(rows, group).rotation),
        near_throughout(g, rows, group, angles, d),
        10 * angles.len() <= g.p,
        shapes(rows, group).contains(x),
        g.known(peek(rows, x).rotation),
    ensures
        ({
            let (n, m) = (peek(rows, x), peek(turned_each(rows, group, angles), x));
            let start = peek(rows, group).rotation;
            &&& m.kind == n.kind
            &&& g.known(m.rotation)
            &&& if n.kind == NodeKind::Line {
                m.rotation == n.rotation
            } else {
                &&& m.w == n.w
                &&& m.h == n.h
                &&& short(
                    amiss(
                        g.p,
                        g.t(n.rotation),
                        g.t(m.rotation),
                        g.t(angle_after(start, angles).minus(start)),
                    ),
                    angles.len() as int * lapse(g.p, g.p),
                )
            }
        }),
    decreases angles.len(),
{
    let start = peek(rows, group).rotation;
    let n = peek(rows, x);
    angles_read(g, start, start, start);
    if angles.len() == 0 {
        stands(g.p, g.t(n.rotation));
        assert(0 * lapse(g.p, g.p) == 0);
        assert(turned_each(rows, group, angles) == rows);
    } else {
        let front = angles.drop_last();
        let k = angles.len() as int;
        turns_keep_kinds(g, rows, group, front, x, d);
        turns_leave(rows, group, front);
        let r = turned_each(rows, group, front);
        let angle = angles.last();
        let before = angle_after(start, front);
        let m = peek(r, x);
        angles_are_known(g, rows, group, front, d);
        one_turn_orbits(r, group, angle, x);
        if n.kind != NodeKind::Line {
            let s = m.rotation.plus(angle.minus(before)).wrapped(S::of_int(360));
            angles_read(g, start, before, angle);
            turns_read(g, m.rotation, before, angle);
            turns_read(g, n.rotation, start, start);
            goes_on_amiss(
                g.p,
                g.t(n.rotation),
                g.t(m.rotation),
                g.t(s),
                g.t(before.minus(start)),
                g.t(angle.minus(before)),
                g.t(angle.minus(start)),
                k - 1,
                g.p,
            );
        }
    }
}

/// Whether a shape is home again: its centre, or its two ends, are where they were but for `z`
/// parts of a unit, and but for lines it has the size it had, and points the way it did, but for
/// `y` parts.
pub open spec fn home_again<S: Scalar>(
    g: Gauge<S>,
    n: NodeModel<S>,
    m: NodeModel<S>,
    y: int,
    z: int,
) -> bool {
    let near = away(g.at(spot(n, false)), g.at(spot(m, false)));
    let far = away(g.at(spot(n, true)), g.at(spot(m, true)));
    &&& m.kind == n.kind
    &&& both_within((g.p * near.0, g.p * near.1), z)
    &&& both_within((g.p * far.0, g.p * far.1), z)
    &&& if n.kind == NodeKind::Line {
        m.rotation == n.rotation
    } else {
        m.w == n.w && m.h == n.h && both_within(away(g.t(n.rotation), g.t(m.rotation)), y)
    }
}

/// Turns come home, in any numbers that are read closely: a group that was turned any number of
/// times, by any angles, and is at the angle it started from, up to whole turns, has every shape
/// where it was. A turn may stray by some units, and by some parts of how far away things are.
#[verifier::spinoff_prover]
pub proof fn every_turn_comes_home<S: Scalar>(
    g: Gauge<S>,
    rows: Seq<NodeModel<S>>,
    group: u64,
    angles: Seq<S>,
    x: u64,
    d: int,
)
    requires
        g.reads_closely(),
        turns_well(g, rows, group, d),
        g.known(peek(rows, group).rotation),
        near_throughout(g, rows, group, angles, d),
        10 * angles.len() <= g.p,
        shapes(rows, group).contains(x),
        g.known(peek(rows, x).rotation),
        g.t(
            angle_after(peek(rows, group).rotation, angles).minus(peek(rows, group).rotation),
        ) == (g.p, 0int),
    ensures
        home_again(
            g,
            peek(rows, x),
            peek(turned_each(rows, group, angles), x),
            400 * angles.len() as int,
            angles.len() as int * (lapse(g.p, d) + shift(g.p, d)),
        ),
{
    let n = angles.len() as int;
    let (a, b) = (peek(rows, x), peek(turned_each(rows, group, angles), x));
    spots_end_home(g, rows, group, angles, x, false, d);
    spots_end_home(g, rows, group, angles, x, true, d);
    turns_keep_kinds(g, rows, group, angles, x, d);
    if a.kind != NodeKind::Line {
        let (t, u) = (g.t(a.rotation), g.t(b.rotation));
        unturned(g.p, t, u);
        short_is_near(amiss(g.p, t, u, (g.p, 0)), n * lapse(g.p, g.p));
        angles_read(g, a.rotation, a.rotation, a.rotation);
        regrouped(n, 400, g.p);
        commuted(n * 400, g.p);
        within_of(g.p, u.0 - t.0, n * 400);
        within_of(g.p, u.1 - t.1, n * 400);
    }
}

proof fn within_of(p: int, x: int, k: int)
    requires
        p > 0,
        -(p * k) <= p * x <= p * k,
    ensures
        -k <= x <= k,
{
    cancelled(p, x, k);
    cancelled(p, -k, x);
    distributed(p, 0, k);
}

// ---------------------------------------------------------------------------
// Staying near
// ---------------------------------------------------------------------------

/// Whether some angles can be reckoned with.
pub open spec fn all_known<S: Scalar>(g: Gauge<S>, angles: Seq<S>) -> bool {
    forall|i: int| 0 <= i < angles.len() ==> g.known(#[trigger] angles[i])
}

/// Room for what is further away is room for what is nearer.
proof fn room_within<S: Scalar>(g: Gauge<S>, e: int, n: int)
    requires
        roomy(g, 40 * e, n),
        100 <= e,
    ensures
        roomy(g, e, n),
        1_000 * (40 * e) <= g.reach,
{
    mono(n, e, 40 * e);
    mono(40 * e, 1, n);
}

/// A place that a run of turns has led to, from how far it has strayed: `w` is the way there from
/// the pivot `b`, which was at `a`.
proof fn one_place(p: int, w: int, u: int, f: int, a: int, b: int, k: int, e: int)
    requires
        p > 0,
        100 <= e,
        0 <= k,
        10_000 * k <= p,
        10_000 * k <= e,
        p * w == u + f,
        -(14 * (p * e)) <= u <= 14 * (p * e),
        -(k * lapse(p, 40 * e)) <= f <= k * lapse(p, 40 * e),
        -(k * shift(p, 40 * e)) <= p * (b - a) <= k * shift(p, 40 * e),
        -(4 * e) <= a <= 4 * e,
    ensures
        -(19 * e) <= b + w <= 19 * e,
{
    let (ke, kp, pe) = (k * e, k * p, p * e);
    distributed(k, 7_200 * e, 220 * p);
    distributed(k, 53 * p, 600 * e);
    out_of(k, 7_200, e);
    out_of(k, 220, p);
    out_of(k, 53, p);
    out_of(k, 600, e);
    mono(e, 10_000 * k, p);
    mono(p, 10_000 * k, e);
    out_of(e, 10_000, k);
    out_of(p, 10_000, k);
    commuted(e, k);
    commuted(e, p);
    commuted(p, k);
    assert(10_000 * ke <= pe && 10_000 * kp <= pe);
    product_within(a, p, 4 * e, p);
    commuted(a, p);
    commuted(4 * e, p);
    out_of(p, 4, e);
    distributed(p, b, a);
    distributed(p, b, w);
    out_of(p, 19, e);
    within_of(p, b + w, 19 * e);
}

proof fn out_of(k: int, n: int, e: int)
    ensures
        k * (n * e) == n * (k * e),
{
    regrouped(k, n, e);
    commuted(k, n);
    regrouped(n, k, e);
}

/// A spot of a close group is not far after a run of turns.
#[verifier::spinoff_prover]
proof fn spots_end_near<S: Scalar>(
    g: Gauge<S>,
    rows: Seq<NodeModel<S>>,
    group: u64,
    angles: Seq<S>,
    x: u64,
    far: bool,
    e: int,
)
    requires
        g.reads_closely(),
        turns_well(g, rows, group, e),
        roomy(g, 40 * e, shapes(rows, group).len() as int),
        g.known(peek(rows, group).rotation),
        near_throughout(g, rows, group, angles, 40 * e),
        10_000 * angles.len() <= g.p,
        10_000 * angles.len() <= e,
        shapes(rows, group).contains(x),
    ensures
        both_within(g.at(spot(peek(turned_each(rows, group, angles), x), far)), 19 * e),
{
    let ids = shapes(rows, group);
    let after = turned_each(rows, group, angles);
    let start = peek(rows, group).rotation;
    let k = angles.len() as int;
    near_within(g, rows, ids, e);
    spots_drift(g, rows, group, angles, x, far, 40 * e);
    one_turn_goes_amiss(g, rows, group, start, x, far, e);
    let (v, w) = (far_way(g, rows, ids, x, far), far_way(g, after, ids, x, far));
    let (a, b) = (far_hub(g, rows, ids), far_hub(g, after, ids));
    let last = angle_after(start, angles);
    let t = g.t(last.minus(start));
    angles_are_known(g, rows, group, angles, 40 * e);
    angles_read(g, start, start, last);
    short_is_near(amiss(g.p, v, w, t), k * lapse(g.p, 40 * e));
    small_swing(v, t, g.p);
    mono(g.p, stretch(v), 14 * e);
    out_of(g.p, 14, e);
    pivots_are_near(g, rows, group, e);
    assert(a == g.at(pivot(rows, ids))) by {
        reveal(far_hub);
    }
    far_ways_lead(g, after, ids, x, far);
    reveal(amiss);
    let f = amiss(g.p, v, w, t);
    one_place(g.p, w.0, g.p * w.0 - f.0, f.0, a.0, b.0, k, e);
    one_place(g.p, w.1, g.p * w.1 - f.1, f.1, a.1, b.1, k, e);
}

proof fn near_within<S: Scalar>(g: Gauge<S>, rows: Seq<NodeModel<S>>, ids: Seq<u64>, e: int)
    requires
        all_near(g, rows, ids, e),
        e >= 0,
    ensures
        all_near(g, rows, ids, 40 * e),
{
}

/// A shape whose spots are near, and of which everything can be reckoned with, is near.
#[verifier::spinoff_prover]
proof fn near_spots_are_near<S: Scalar>(g: Gauge<S>, n: NodeModel<S>, e: int, d: int)
    requires
        g.reads_closely(),
        both_within(g.at(spot(n, false)), 19 * e),
        both_within(g.at(spot(n, true)), 19 * e),
        n.kind != NodeKind::Line ==> both_within((g.u(n.w), g.u(n.h)), e),
        near_by(g, n, d),
        2 * d <= g.reach,
        100 <= e <= d,
    ensures
        near_by(g, n, 40 * e),
{
    sums_read(g, n.x, n.w);
    sums_read(g, n.y, n.h);
    if n.kind != NodeKind::Line {
        halves_read(g, n.w);
        halves_read(g, n.h);
        sums_read(g, n.x, half(n.w));
        sums_read(g, n.y, half(n.h));
    }
}

/// A group that is close to the origin stays near, however it is turned.
#[verifier::spinoff_prover]
pub proof fn close_groups_stay_near<S: Scalar>(
    g: Gauge<S>,
    rows: Seq<NodeModel<S>>,
    group: u64,
    angles: Seq<S>,
    e: int,
)
    requires
        g.reads_closely(),
        turns_well(g, rows, group, e),
        roomy(g, 40 * e, shapes(rows, group).len() as int),
        g.known(peek(rows, group).rotation),
        all_known(g, angles),
        10_000 * angles.len() <= g.p,
        10_000 * angles.len() <= e,
        forall|x: u64|
            shapes(rows, group).contains(x) ==> g.known((#[trigger] peek(rows, x)).rotation),
    ensures
        near_throughout(g, rows, group, angles, 40 * e),
        all_near(g, turned_each(rows, group, angles), shapes(rows, group), 40 * e),
    decreases angles.len(),
{
    let ids = shapes(rows, group);
    near_within(g, rows, ids, e);
    if angles.len() > 0 {
        let front = angles.drop_last();
        assert(all_known(g, front)) by {
            assert forall|i: int| 0 <= i < front.len() implies g.known(#[trigger] front[i]) by {
                assert(front[i] == angles[i]);
            }
        }
        close_groups_stay_near(g, rows, group, front, e);
        let r = turned_each(rows, group, front);
        assert(g.known(angles[angles.len() - 1]));
        assert(near_throughout(g, rows, group, angles, 40 * e));
        turns_leave(rows, group, front);
        one_turn_stays_within(g, r, group, angles.last(), 40 * e);
        let after = turned_each(rows, group, angles);
        room_within(g, e, ids.len() as int);
        assert forall|i: int| 0 <= i < ids.len() implies near_by(
            g,
            peek(after, #[trigger] ids[i]),
            40 * e,
        ) by {
            let x = ids[i];
            assert(ids.contains(x));
            assert(g.known(peek(rows, x).rotation));
            near_of(g, after, ids, x, 150 * (40 * e));
            near_of(g, rows, ids, x, e);
            spots_end_near(g, rows, group, angles, x, false, e);
            spots_end_near(g, rows, group, angles, x, true, e);
            turns_keep_kinds(g, rows, group, angles, x, 40 * e);
            near_spots_are_near(g, peek(after, x), e, 150 * (40 * e));
        }
    }
}

/// A group that is close to the origin comes home, in any numbers that are read closely: turned
/// any number of times, by any angles, and at last back to the angle it started from, up to whole
/// turns, it has every shape where it was, but for what so many turns may stray.
pub proof fn close_groups_come_home<S: Scalar>(
    g: Gauge<S>,
    rows: Seq<NodeModel<S>>,
    group: u64,
    angles: Seq<S>,
    x: u64,
    e: int,
)
    requires
        g.reads_closely(),
        turns_well(g, rows, group, e),
        roomy(g, 40 * e, shapes(rows, group).len() as int),
        g.known(peek(rows, group).rotation),
        all_known(g, angles),
        10_000 * angles.len() <= g.p,
        10_000 * angles.len() <= e,
        forall|y: u64|
            shapes(rows, group).contains(y) ==> g.known((#[trigger] peek(rows, y)).rotation),
        shapes(rows, group).contains(x),
        g.t(
            angle_after(peek(rows, group).rotation, angles).minus(peek(rows, group).rotation),
        ) == (g.p, 0int),
    ensures
        home_again(
            g,
            peek(rows, x),
            peek(turned_each(rows, group, angles), x),
            400 * angles.len() as int,
            angles.len() as int * (lapse(g.p, 40 * e) + shift(g.p, 40 * e)),
        ),
{
    close_groups_stay_near(g, rows, group, angles, e);
    near_within(g, rows, shapes(rows, group), e);
    assert(g.known(peek(rows, x).rotation));
    every_turn_comes_home(g, rows, group, angles, x, 40 * e);
}

} // verus!
