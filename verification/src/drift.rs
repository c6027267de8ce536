//! Laws of turns by any angle, for any numbers that are read closely: one turn of a group, and how
//! far each shape is from where the turn should take it.
use vstd::prelude::*;
use crate::bounds::{line_ends, shape_frame};
use crate::gauge::{
    halves_read, means_read, nothing_reads, sums_read, turned_points_read, Gauge,
};
use crate::geometry::{turn_about, Point};
use crate::homing::spot;
use crate::motion::{center_sum, pivot, turned_to};
use crate::node::{NodeKind, NodeModel};
use crate::plane::stretch;
use crate::products::{cancelled, commuted, distributed, mono, product_within, regrouped};
use crate::rigid::one_turn_orbits;
use crate::scalar::{half, Scalar};
use crate::scene::{has_row, peek, shapes};
use crate::sway::{
    amiss, amiss_adds, amiss_and_off, amiss_parts, as_long_but, away, both_within, means_stay,
    middles_go_amiss, round, slip, turned_is_as_long,
};
use crate::tree::forest;
use crate::turning::{middle, orbited_row, turned_point, turns_keep_the_members};

verus! {

// ---------------------------------------------------------------------------
// One shape
// ---------------------------------------------------------------------------

/// Whether a shape lies within `d` units of the origin.
pub open spec fn near_by<S: Scalar>(g: Gauge<S>, n: NodeModel<S>, d: int) -> bool {
    &&& both_within((g.u(n.x), g.u(n.y)), d)
    &&& both_within((g.u(n.w), g.u(n.h)), d)
}

/// Where the spots of a shape are.
proof fn spots_are_near<S: Scalar>(g: Gauge<S>, n: NodeModel<S>, far: bool, d: int)
    requires
        g.reads_closely(),
        near_by(g, n, d),
        100 <= d,
        10 * d <= g.reach,
    ensures
        both_within(g.at(spot(n, far)), 3 * d),
{
    halves_read(g, n.w);
    halves_read(g, n.h);
    sums_read(g, n.x, n.w);
    sums_read(g, n.y, n.h);
    sums_read(g, n.x, half(n.w));
    sums_read(g, n.y, half(n.h));
}

/// What was taken from a number and added again.
proof fn there_and_back<S: Scalar>(g: Gauge<S>, a: S, b: S, d: int)
    requires
        g.reads_closely(),
        -d <= g.u(a) <= d,
        -d <= g.u(b) <= d,
        100 <= d,
        4 * d <= g.reach,
    ensures
        -4 <= g.u(a.minus(b).plus(b)) - g.u(a) <= 4,
        -4 <= g.u(b.plus(a.minus(b))) - g.u(a) <= 4,
        -(3 * d) <= g.u(a.minus(b)) <= 3 * d,
{
    sums_read(g, a, b);
    sums_read(g, a.minus(b), b);
    sums_read(g, b, a.minus(b));
}

/// A spot is carried to where its turn takes it.
#[verifier::spinoff_prover]
proof fn spots_turn<S: Scalar>(g: Gauge<S>, n: NodeModel<S>, far: bool, c: Point<S>, delta: S, d: int)
    requires
        g.reads_closely(),
        near_by(g, n, d),
        both_within(g.at(c), 4 * d),
        100 <= d,
        1_000 * d <= g.reach,
    ensures
        ({
            let m = orbited_row(n, c, delta);
            both_within(
                amiss(
                    g.p,
                    away(g.at(c), g.at(spot(n, far))),
                    away(g.at(c), g.at(spot(m, far))),
                    g.t(delta),
                ),
                17 * g.p + 15 * d,
            )
        }),
        near_by(g, orbited_row(n, c, delta), 150 * d),
        round(g.p, g.t(delta)),
        g.p > 0,
{
    reveal(turned_point);
    let m = orbited_row(n, c, delta);
    let s = spot(n, far);
    let q = turn_about(s, c, delta);
    spots_are_near(g, n, far, d);
    turned_points_read(g, s, c, delta, d);
    let e = g.at(spot(m, far));
    if n.kind == NodeKind::Line {
        let (a, b) = line_ends(n);
        let a2 = turn_about(a, c, delta);
        let b2 = turn_about(b, c, delta);
        spots_are_near(g, n, false, d);
        spots_are_near(g, n, true, d);
        turned_points_read(g, a, c, delta, d);
        turned_points_read(g, b, c, delta, d);
        there_and_back(g, b2.x, a2.x, 40 * d);
        there_and_back(g, b2.y, a2.y, 40 * d);
    } else {
        halves_read(g, n.w);
        halves_read(g, n.h);
        there_and_back(g, q.x, half(n.w), 40 * d);
        there_and_back(g, q.y, half(n.h), 40 * d);
    }
    let f = g.at(q);
    product_within(e.0 - f.0, g.p, 4, g.p);
    product_within(e.1 - f.1, g.p, 4, g.p);
    commuted(g.p, e.0 - f.0);
    commuted(g.p, e.1 - f.1);
    amiss_and_off(
        g.p,
        away(g.at(c), g.at(s)),
        away(g.at(c), f),
        away(g.at(c), e),
        g.t(delta),
        13 * g.p + 15 * d,
        4 * g.p,
    );
}

/// The middle of a shape lies between its two spots.
#[verifier::spinoff_prover]
proof fn middles_lie_between<S: Scalar>(g: Gauge<S>, n: NodeModel<S>, d: int)
    requires
        g.reads_closely(),
        near_by(g, n, d),
        100 <= d,
        10 * d <= g.reach,
    ensures
        ({
            let (v, a, b) = (g.at(middle(n)), g.at(spot(n, false)), g.at(spot(n, true)));
            &&& both_within((2 * v.0 - a.0 - b.0, 2 * v.1 - a.1 - b.1), 8)
            &&& both_within(v, 2 * d)
        }),
{
    halves_read(g, n.w);
    halves_read(g, n.h);
    if n.kind == NodeKind::Line {
        spans_lie_between(g, n.x, n.w, d);
        spans_lie_between(g, n.y, n.h, d);
    } else {
        sums_read(g, n.x, half(n.w));
        sums_read(g, n.y, half(n.h));
    }
}

proof fn spans_lie_between<S: Scalar>(g: Gauge<S>, x: S, w: S, d: int)
    requires
        g.reads_closely(),
        -d <= g.u(x) <= d,
        -d <= g.u(w) <= d,
        100 <= d,
        10 * d <= g.reach,
    ensures
        ({
            let mid = x.lesser(x.plus(w)).plus(half(w.magnitude()));
            &&& -8 <= 2 * g.u(mid) - g.u(x) - g.u(x.plus(w)) <= 8
            &&& -(2 * d) <= g.u(mid) <= 2 * d
        }),
{
    halves_read(g, w);
    halves_read(g, w.magnitude());
    sums_read(g, x, w);
    sums_read(g, x, x.plus(w));
    sums_read(g, x.lesser(x.plus(w)), half(w.magnitude()));
}

/// A middle is carried to where its turn takes it.
#[verifier::spinoff_prover]
proof fn middles_turn<S: Scalar>(g: Gauge<S>, n: NodeModel<S>, c: Point<S>, delta: S, d: int)
    requires
        g.reads_closely(),
        near_by(g, n, d),
        both_within(g.at(c), 4 * d),
        100 <= d,
        10_000 * d <= g.reach,
    ensures
        ({
            let m = orbited_row(n, c, delta);
            both_within(
                amiss(
                    g.p,
                    away(g.at(c), g.at(middle(n))),
                    away(g.at(c), g.at(middle(m))),
                    g.t(delta),
                ),
                29 * g.p + 15 * d,
            )
        }),
        near_by(g, orbited_row(n, c, delta), 150 * d),
        both_within(g.t(delta), g.p),
        g.p > 0,
{
    let m = orbited_row(n, c, delta);
    spots_turn(g, n, false, c, delta, d);
    spots_turn(g, n, true, c, delta, d);
    middles_lie_between(g, n, d);
    middles_lie_between(g, m, 150 * d);
    let o = g.at(c);
    middles_go_amiss(
        g.p,
        away(o, g.at(middle(n))),
        away(o, g.at(spot(n, false))),
        away(o, g.at(spot(n, true))),
        away(o, g.at(middle(m))),
        away(o, g.at(spot(m, false))),
        away(o, g.at(spot(m, true))),
        g.t(delta),
        17 * g.p + 15 * d,
    );
}

// ---------------------------------------------------------------------------
// The pivot
// ---------------------------------------------------------------------------

/// Whether every one of some shapes lies within `d` units of the origin.
pub open spec fn all_near<S: Scalar>(
    g: Gauge<S>,
    rows: Seq<NodeModel<S>>,
    ids: Seq<u64>,
    d: int,
) -> bool {
    forall|i: int| 0 <= i < ids.len() ==> near_by(g, peek(rows, #[trigger] ids[i]), d)
}

/// Whether `n` shapes within `d` units of the origin can be reckoned with.
pub open spec fn roomy<S: Scalar>(g: Gauge<S>, d: int, n: int) -> bool {
    &&& 100 <= d
    &&& 0 < n <= 10_000
    &&& 10_000 * (n * d) <= g.reach
}

/// The sum of the places of the middles.
spec fn whole_sum<S: Scalar>(g: Gauge<S>, rows: Seq<NodeModel<S>>, ids: Seq<u64>) -> (int, int)
    decreases ids.len(),
{
    if ids.len() == 0 {
        (0, 0)
    } else {
        let rest = whole_sum(g, rows, ids.drop_last());
        let m = g.at(middle(peek(rows, ids.last())));
        (rest.0 + m.0, rest.1 + m.1)
    }
}

proof fn all_near_front<S: Scalar>(g: Gauge<S>, rows: Seq<NodeModel<S>>, ids: Seq<u64>, d: int)
    requires
        all_near(g, rows, ids, d),
        ids.len() > 0,
    ensures
        all_near(g, rows, ids.drop_last(), d),
        near_by(g, peek(rows, ids.last()), d),
{
    let front = ids.drop_last();
    assert forall|i: int| 0 <= i < front.len() implies near_by(
        g,
        peek(rows, #[trigger] front[i]),
        d,
    ) by {
        assert(front[i] == ids[i]);
    }
    assert(near_by(g, peek(rows, ids[ids.len() - 1]), d));
}

/// One number more in a sum.
proof fn added_up<S: Scalar>(g: Gauge<S>, sum: S, a: S, b: S, d: int, r: int)
    requires
        g.reads_closely(),
        -d <= g.u(a) <= d,
        -d <= g.u(b) <= d,
        -r <= g.u(sum) <= r,
        100 <= d,
        r + 4 * d <= g.reach,
        0 <= r,
    ensures
        -6 <= g.u(sum.plus(a).plus(b)) - g.u(sum) - g.u(a.plus(b)) <= 6,
{
    sums_read(g, sum, a);
    sums_read(g, a, b);
    sums_read(g, sum.plus(a), b);
}

/// The frame of a shape that is near.
proof fn frames_are_near<S: Scalar>(g: Gauge<S>, n: NodeModel<S>, d: int)
    requires
        g.reads_closely(),
        near_by(g, n, d),
        100 <= d,
        10 * d <= g.reach,
    ensures
        ({
            let f = shape_frame(n);
            both_within((g.u(f.0), g.u(f.1)), 3 * d) && both_within(
                (g.u(half(f.2)), g.u(half(f.3))),
                3 * d,
            )
        }),
{
    halves_read(g, n.w);
    halves_read(g, n.h);
    halves_read(g, n.w.magnitude());
    halves_read(g, n.h.magnitude());
    sums_read(g, n.x, n.w);
    sums_read(g, n.y, n.h);
    sums_read(g, n.x, n.x.plus(n.w));
    sums_read(g, n.y, n.y.plus(n.h));
}

/// The sum of the centres is the sum of their places, but for rounding.
#[verifier::spinoff_prover]
proof fn sums_add_up<S: Scalar>(g: Gauge<S>, rows: Seq<NodeModel<S>>, ids: Seq<u64>, d: int, n: int)
    requires
        g.reads_closely(),
        all_near(g, rows, ids, d),
        100 <= d,
        20 * d <= g.reach,
        6 * (n * d) <= g.reach,
        ids.len() + 4 <= n,
    ensures
        ({
            let (s, w) = (g.at(center_sum(rows, ids)), whole_sum(g, rows, ids));
            let k = ids.len() as int;
            &&& both_within((w.0 - s.0, w.1 - s.1), 6 * k)
            &&& both_within(w, 2 * (k * d))
            &&& both_within(s, 3 * (k * d))
        }),
    decreases ids.len(),
{
    let k = ids.len() as int;
    nothing_reads(g);
    if k > 0 {
        let front = ids.drop_last();
        all_near_front(g, rows, ids, d);
        sums_add_up(g, rows, front, d, n);
        let row = peek(rows, ids.last());
        let f = shape_frame(row);
        middles_lie_between(g, row, d);
        frames_are_near(g, row, d);
        distributed(d, k - 1, 1);
        mono(d, k - 1 + 4, n);
        distributed(d, k - 1, 4);
        mono(d, 0, k - 1);
        let sum = center_sum(rows, front);
        let r = 3 * ((k - 1) * d);
        added_up(g, sum.x, f.0, half(f.2), 3 * d, r);
        added_up(g, sum.y, f.1, half(f.3), 3 * d, r);
    }
}

/// The sum of the middles is carried to where the turn of each takes it.
#[verifier::spinoff_prover]
proof fn sums_turn<S: Scalar>(
    g: Gauge<S>,
    rows: Seq<NodeModel<S>>,
    after: Seq<NodeModel<S>>,
    ids: Seq<u64>,
    c: Point<S>,
    delta: S,
    d: int,
)
    requires
        g.reads_closely(),
        all_near(g, rows, ids, d),
        all_orbit(rows, after, ids, c, delta),
        both_within(g.at(c), 4 * d),
        100 <= d,
        10_000 * d <= g.reach,
    ensures
        ({
            let (u, w, o) = (whole_sum(g, rows, ids), whole_sum(g, after, ids), g.at(c));
            let k = ids.len() as int;
            both_within(
                amiss(
                    g.p,
                    (u.0 - k * o.0, u.1 - k * o.1),
                    (w.0 - k * o.0, w.1 - k * o.1),
                    g.t(delta),
                ),
                k * (29 * g.p + 15 * d),
            )
        }),
        all_near(g, after, ids, 150 * d),
    decreases ids.len(),
{
    let k = ids.len() as int;
    let o = g.at(c);
    let z = 29 * g.p + 15 * d;
    if k == 0 {
        assert(0 * z == 0 && 0 * o.0 == 0 && 0 * o.1 == 0);
        reveal(amiss);
        assert(g.p * 0 == 0 && 0 * g.t(delta).0 == 0 && 0 * g.t(delta).1 == 0);
    } else {
        let front = ids.drop_last();
        all_near_front(g, rows, ids, d);
        all_orbit_front(rows, after, ids, c, delta);
        sums_turn(g, rows, after, front, c, delta, d);
        let row = peek(rows, ids.last());
        let m = peek(after, ids.last());
        middles_turn(g, row, c, delta, d);
        let (u, w) = (whole_sum(g, rows, front), whole_sum(g, after, front));
        amiss_adds(
            g.p,
            (u.0 - (k - 1) * o.0, u.1 - (k - 1) * o.1),
            (w.0 - (k - 1) * o.0, w.1 - (k - 1) * o.1),
            away(o, g.at(middle(row))),
            away(o, g.at(middle(m))),
            g.t(delta),
            (k - 1) * z,
            z,
        );
        distributed(z, k - 1, 1);
        distributed(o.0, k - 1, 1);
        distributed(o.1, k - 1, 1);
        assert forall|i: int| 0 <= i < ids.len() implies near_by(
            g,
            peek(after, #[trigger] ids[i]),
            150 * d,
        ) by {
            if i < k - 1 {
                assert(front[i] == ids[i]);
            }
        }
    }
}

/// Whether each of some shapes has orbited `c`.
spec fn all_orbit<S: Scalar>(
    rows: Seq<NodeModel<S>>,
    after: Seq<NodeModel<S>>,
    ids: Seq<u64>,
    c: Point<S>,
    delta: S,
) -> bool {
    forall|i: int|
        0 <= i < ids.len() ==> peek(after, #[trigger] ids[i]) == orbited_row(
            peek(rows, ids[i]),
            c,
            delta,
        )
}

proof fn all_orbit_front<S: Scalar>(
    rows: Seq<NodeModel<S>>,
    after: Seq<NodeModel<S>>,
    ids: Seq<u64>,
    c: Point<S>,
    delta: S,
)
    requires
        all_orbit(rows, after, ids, c, delta),
        ids.len() > 0,
    ensures
        all_orbit(rows, after, ids.drop_last(), c, delta),
        peek(after, ids.last()) == orbited_row(peek(rows, ids.last()), c, delta),
{
    let front = ids.drop_last();
    assert forall|i: int| 0 <= i < front.len() implies peek(after, #[trigger] front[i])
        == orbited_row(peek(rows, front[i]), c, delta) by {
        assert(front[i] == ids[i]);
    }
    assert(peek(after, ids[ids.len() - 1]) == orbited_row(
        peek(rows, ids[ids.len() - 1]),
        c,
        delta,
    ));
}

/// Where the pivot of some shapes is.
#[verifier::spinoff_prover]
proof fn pivots_are_means<S: Scalar>(
    g: Gauge<S>,
    rows: Seq<NodeModel<S>>,
    ids: Seq<u64>,
    d: int,
)
    requires
        g.reads_closely(),
        all_near(g, rows, ids, d),
        100 <= d,
        20 * d <= g.reach,
        0 < ids.len() <= 10_000,
        6 * ((ids.len() + 4) * d) <= g.reach,
    ensures
        ({
            let (c, w) = (g.at(pivot(rows, ids)), whole_sum(g, rows, ids));
            let k = ids.len() as int;
            &&& both_within((w.0 - k * c.0, w.1 - k * c.1), 8 * k)
            &&& both_within(c, 4 * d)
        }),
{
    let k = ids.len() as int;
    sums_add_up(g, rows, ids, d, k + 4);
    mono(d, k, k + 4);
    mono(d, 0, k);
    let s = center_sum(rows, ids);
    let w = whole_sum(g, rows, ids);
    let c = g.at(pivot(rows, ids));
    means_read(g, s.x, k);
    means_read(g, s.y, k);
    commuted(k, c.0);
    commuted(k, c.1);
    one_is_near(w.0, c.0, k, d);
    one_is_near(w.1, c.1, k, d);
}

proof fn one_is_near(w: int, c: int, k: int, d: int)
    requires
        0 < k,
        -(8 * k) <= w - k * c <= 8 * k,
        -(2 * (k * d)) <= w <= 2 * (k * d),
        100 <= d,
    ensures
        -(4 * d) <= c <= 4 * d,
{
    regrouped(k, 4, d);
    commuted(k, 4);
    regrouped(4, k, d);
    mono(k, 100, d);
    cancelled(k, c, 4 * d);
    cancelled(k, -(4 * d), c);
    distributed(k, 0, 4 * d);
}

/// A pivot hardly moves in its turn.
#[verifier::spinoff_prover]
proof fn pivots_stay<S: Scalar>(
    g: Gauge<S>,
    rows: Seq<NodeModel<S>>,
    after: Seq<NodeModel<S>>,
    ids: Seq<u64>,
    delta: S,
    d: int,
)
    requires
        g.reads_closely(),
        all_near(g, rows, ids, d),
        all_orbit(rows, after, ids, pivot(rows, ids), delta),
        roomy(g, d, ids.len() as int),
    ensures
        ({
            let (c, o) = (g.at(pivot(rows, ids)), g.at(pivot(after, ids)));
            both_within((g.p * (o.0 - c.0), g.p * (o.1 - c.1)), 53 * g.p + 15 * d)
        }),
        both_within(g.at(pivot(rows, ids)), 4 * d),
{
    let k = ids.len() as int;
    let c = pivot(rows, ids);
    enough_room(k, d);
    distributed(d, k, 4);
    pivots_are_means(g, rows, ids, d);
    sums_turn(g, rows, after, ids, c, delta, d);
    middles_turn(g, peek(rows, ids[0]), c, delta, d);
    distributed(150 * d, k, 4);
    pivots_are_means(g, after, ids, 150 * d);
    means_stay(
        g.p,
        whole_sum(g, rows, ids),
        whole_sum(g, after, ids),
        g.at(c),
        g.at(pivot(after, ids)),
        g.t(delta),
        k,
        29 * g.p + 15 * d,
    );
}

pub proof fn enough_room(k: int, d: int)
    requires
        0 < k,
        100 <= d,
    ensures
        k * (150 * d) == 150 * (k * d),
        k * d >= d,
{
    regrouped(k, 150, d);
    commuted(k, 150);
    regrouped(150, k, d);
    mono(d, 1, k);
}

// ---------------------------------------------------------------------------
// One turn
// ---------------------------------------------------------------------------

/// Whether a group may be turned: it is there, has shapes, and not more than can be reckoned
/// with, each within `d` units of the origin.
pub open spec fn turns_well<S: Scalar>(
    g: Gauge<S>,
    rows: Seq<NodeModel<S>>,
    group: u64,
    d: int,
) -> bool {
    &&& forest(rows)
    &&& has_row(rows, group)
    &&& peek(rows, group).kind == NodeKind::Group
    &&& roomy(g, d, shapes(rows, group).len() as int)
    &&& all_near(g, rows, shapes(rows, group), d)
}

/// The way from the pivot of some shapes to a spot of one of them, in units.
#[verifier::opaque]
pub open spec fn far_way<S: Scalar>(
    g: Gauge<S>,
    rows: Seq<NodeModel<S>>,
    ids: Seq<u64>,
    x: u64,
    far: bool,
) -> (int, int) {
    away(g.at(pivot(rows, ids)), g.at(spot(peek(rows, x), far)))
}

proof fn orbits_all<S: Scalar>(rows: Seq<NodeModel<S>>, group: u64, angle: S)
    requires
        forest(rows),
        has_row(rows, group),
        peek(rows, group).kind == NodeKind::Group,
        shapes(rows, group).len() > 0,
    ensures
        all_orbit(
            rows,
            turned_to(rows, group, angle),
            shapes(rows, group),
            pivot(rows, shapes(rows, group)),
            angle.minus(peek(rows, group).rotation),
        ),
{
    let ids = shapes(rows, group);
    let after = turned_to(rows, group, angle);
    assert forall|i: int| 0 <= i < ids.len() implies peek(after, #[trigger] ids[i]) == orbited_row(
        peek(rows, ids[i]),
        pivot(rows, ids),
        angle.minus(peek(rows, group).rotation),
    ) by {
        assert(ids.contains(ids[i]));
        one_turn_orbits(rows, group, angle, ids[i]);
    }
}

pub proof fn near_of<S: Scalar>(g: Gauge<S>, rows: Seq<NodeModel<S>>, ids: Seq<u64>, x: u64, d: int)
    requires
        all_near(g, rows, ids, d),
        ids.contains(x),
    ensures
        near_by(g, peek(rows, x), d),
{
    let i = choose|i: int| 0 <= i < ids.len() && ids[i] == x;
    assert(near_by(g, peek(rows, ids[i]), d));
}

/// One turn of a group takes a spot to where it should, about a pivot that hardly moves.
#[verifier::spinoff_prover]
pub proof fn one_turn_slips<S: Scalar>(
    g: Gauge<S>,
    rows: Seq<NodeModel<S>>,
    group: u64,
    angle: S,
    x: u64,
    far: bool,
    d: int,
)
    requires
        g.reads_closely(),
        turns_well(g, rows, group, d),
        shapes(rows, group).contains(x),
    ensures
        ({
            let ids = shapes(rows, group);
            let after = turned_to(rows, group, angle);
            let (c, o) = (g.at(pivot(rows, ids)), g.at(pivot(after, ids)));
            let t = g.t(angle.minus(peek(rows, group).rotation));
            &&& both_within(
                amiss(g.p, far_way(g, rows, ids, x, far), far_way(g, after, ids, x, far), t),
                slip(g.p, d),
            )
            &&& both_within((g.p * (o.0 - c.0), g.p * (o.1 - c.1)), 53 * g.p + 15 * d)
            &&& round(g.p, t)
            &&& stretch(far_way(g, rows, ids, x, far)) <= 14 * d
            &&& g.p > 0
        }),
{
    let ids = shapes(rows, group);
    let after = turned_to(rows, group, angle);
    let delta = angle.minus(peek(rows, group).rotation);
    let (c, o) = (pivot(rows, ids), pivot(after, ids));
    orbits_all(rows, group, angle);
    pivots_stay(g, rows, after, ids, delta, d);
    enough_room(ids.len() as int, d);
    near_of(g, rows, ids, x, d);
    one_turn_orbits(rows, group, angle, x);
    let n = peek(rows, x);
    spots_are_near(g, n, far, d);
    spots_turn(g, n, far, c, delta, d);
    reveal(far_way);
    let (a, b) = (g.at(c), g.at(o));
    let (s, e) = (g.at(spot(n, far)), g.at(spot(peek(after, x), far)));
    distributed(g.p, a.0, b.0);
    distributed(g.p, a.1, b.1);
    distributed(g.p, b.0, a.0);
    distributed(g.p, b.1, a.1);
    amiss_and_off(
        g.p,
        away(a, s),
        away(a, e),
        away(b, e),
        g.t(delta),
        17 * g.p + 15 * d,
        53 * g.p + 15 * d,
    );
}

/// Where the pivot of a group is.
pub proof fn pivots_are_near<S: Scalar>(
    g: Gauge<S>,
    rows: Seq<NodeModel<S>>,
    group: u64,
    d: int,
)
    requires
        g.reads_closely(),
        turns_well(g, rows, group, d),
    ensures
        both_within(g.at(pivot(rows, shapes(rows, group))), 4 * d),
{
    let ids = shapes(rows, group);
    let k = ids.len() as int;
    enough_room(k, d);
    distributed(d, k, 4);
    pivots_are_means(g, rows, ids, d);
}

/// One turn of a group takes no shape far.
pub proof fn one_turn_stays_within<S: Scalar>(
    g: Gauge<S>,
    rows: Seq<NodeModel<S>>,
    group: u64,
    angle: S,
    d: int,
)
    requires
        g.reads_closely(),
        turns_well(g, rows, group, d),
    ensures
        all_near(g, turned_to(rows, group, angle), shapes(rows, group), 150 * d),
{
    let ids = shapes(rows, group);
    let after = turned_to(rows, group, angle);
    let delta = angle.minus(peek(rows, group).rotation);
    orbits_all(rows, group, angle);
    enough_room(ids.len() as int, d);
    pivots_stay(g, rows, after, ids, delta, d);
    sums_turn(g, rows, after, ids, pivot(rows, ids), delta, d);
}

/// A run of turns pivots on one spot, in any numbers that are read closely: turning a group keeps
/// the mean of its shapes' centres, which it turns about, but for rounding.
pub proof fn turns_keep_every_pivot<S: Scalar>(
    g: Gauge<S>,
    rows: Seq<NodeModel<S>>,
    group: u64,
    angle: S,
    d: int,
)
    requires
        g.reads_closely(),
        turns_well(g, rows, group, d),
    ensures
        ({
            let after = turned_to(rows, group, angle);
            let c = g.at(pivot(rows, shapes(rows, group)));
            let o = g.at(pivot(after, shapes(after, group)));
            both_within((g.p * (o.0 - c.0), g.p * (o.1 - c.1)), 53 * g.p + 15 * d)
        }),
{
    let ids = shapes(rows, group);
    assert(ids.contains(ids[0]));
    turns_keep_the_members(rows, group, angle);
    one_turn_slips(g, rows, group, angle, ids[0], false, d);
}

/// A turned group keeps its distances, in any numbers that are read closely: the centres of any two
/// shapes in it are as far apart as they were, but for rounding; so are the two ends of a line; and
/// any other shape has the size it had.
#[verifier::spinoff_prover]
pub proof fn turns_keep_every_distance<S: Scalar>(
    g: Gauge<S>,
    rows: Seq<NodeModel<S>>,
    group: u64,
    angle: S,
    x: u64,
    y: u64,
    d: int,
)
    requires
        g.reads_closely(),
        turns_well(g, rows, group, d),
        shapes(rows, group).contains(x),
        shapes(rows, group).contains(y),
    ensures
        ({
            let after = turned_to(rows, group, angle);
            let (n, m) = (peek(rows, x), peek(after, x));
            &&& as_long_but(
                g.p,
                away(g.at(middle(n)), g.at(middle(peek(rows, y)))),
                away(g.at(middle(m)), g.at(middle(peek(after, y)))),
                58 * g.p + 30 * d,
            )
            &&& m.kind == n.kind
            &&& n.kind == NodeKind::Line ==> as_long_but(
                g.p,
                away(g.at(line_ends(n).0), g.at(line_ends(n).1)),
                away(g.at(line_ends(m).0), g.at(line_ends(m).1)),
                34 * g.p + 30 * d,
            )
            &&& n.kind != NodeKind::Line ==> m.w == n.w && m.h == n.h
        }),
{
    let ids = shapes(rows, group);
    let after = turned_to(rows, group, angle);
    let delta = angle.minus(peek(rows, group).rotation);
    let c = pivot(rows, ids);
    orbits_all(rows, group, angle);
    pivots_stay(g, rows, after, ids, delta, d);
    enough_room(ids.len() as int, d);
    near_of(g, rows, ids, x, d);
    near_of(g, rows, ids, y, d);
    one_turn_orbits(rows, group, angle, x);
    one_turn_orbits(rows, group, angle, y);
    middles_part(g, peek(rows, x), peek(rows, y), c, delta, d);
    if peek(rows, x).kind == NodeKind::Line {
        ends_part(g, peek(rows, x), c, delta, d);
    }
}

proof fn middles_part<S: Scalar>(
    g: Gauge<S>,
    n: NodeModel<S>,
    k: NodeModel<S>,
    c: Point<S>,
    delta: S,
    d: int,
)
    requires
        g.reads_closely(),
        near_by(g, n, d),
        near_by(g, k, d),
        both_within(g.at(c), 4 * d),
        100 <= d,
        10_000 * d <= g.reach,
    ensures
        as_long_but(
            g.p,
            away(g.at(middle(n)), g.at(middle(k))),
            away(g.at(middle(orbited_row(n, c, delta))), g.at(middle(orbited_row(k, c, delta)))),
            58 * g.p + 30 * d,
        ),
{
    middles_turn(g, n, c, delta, d);
    middles_turn(g, k, c, delta, d);
    spots_turn(g, n, false, c, delta, d);
    let o = g.at(c);
    let (a, b) = (g.at(middle(n)), g.at(middle(k)));
    let (e, f) = (
        g.at(middle(orbited_row(n, c, delta))),
        g.at(middle(orbited_row(k, c, delta))),
    );
    let z = 29 * g.p + 15 * d;
    amiss_parts(g.p, away(o, a), away(o, e), away(o, b), away(o, f), g.t(delta), z);
    assert(away(away(o, a), away(o, b)) == away(a, b));
    assert(away(away(o, e), away(o, f)) == away(e, f));
    turned_is_as_long(g.p, away(a, b), away(e, f), g.t(delta), 2 * z);
}

proof fn ends_part<S: Scalar>(g: Gauge<S>, n: NodeModel<S>, c: Point<S>, delta: S, d: int)
    requires
        n.kind == NodeKind::Line,
        g.reads_closely(),
        near_by(g, n, d),
        both_within(g.at(c), 4 * d),
        100 <= d,
        10_000 * d <= g.reach,
    ensures
        ({
            let m = orbited_row(n, c, delta);
            as_long_but(
                g.p,
                away(g.at(line_ends(n).0), g.at(line_ends(n).1)),
                away(g.at(line_ends(m).0), g.at(line_ends(m).1)),
                34 * g.p + 30 * d,
            )
        }),
{
    spots_turn(g, n, false, c, delta, d);
    spots_turn(g, n, true, c, delta, d);
    let m = orbited_row(n, c, delta);
    let o = g.at(c);
    let (a, b) = (g.at(line_ends(n).0), g.at(line_ends(n).1));
    let (e, f) = (g.at(line_ends(m).0), g.at(line_ends(m).1));
    let z = 17 * g.p + 15 * d;
    amiss_parts(g.p, away(o, a), away(o, e), away(o, b), away(o, f), g.t(delta), z);
    assert(away(away(o, a), away(o, b)) == away(a, b));
    assert(away(away(o, e), away(o, f)) == away(e, f));
    turned_is_as_long(g.p, away(a, b), away(e, f), g.t(delta), 2 * z);
}

} // verus!
