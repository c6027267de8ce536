//! Laws of turns by any angle, in millionths: a turned group keeps the distances in it.
use vstd::prelude::*;
use crate::bounds::line_ends;
use crate::exact::within;
use crate::geometry::{turn_about, Point};
use crate::micro::{wrap_spec, Micro};
use crate::motion::{pivot, turned_to};
use crate::node::{NodeKind, NodeModel};
use crate::plane::{apart_turns, as_long, bearing, turned_steps_are_as_long};
use crate::rotor::{cosines_stay_within_one, one_together, squares_make_one};
use crate::scalar::Scalar;
use crate::scene::{has_row, peek, shapes};
use crate::tree::forest;
use crate::turning::{
    all_at_hand, at_hand, groups_turn_as_one_body, middle, middles_orbit, orbited_row,
    pivot_in_reach, turned_point, turned_point_is,
};

verus! {

// ---------------------------------------------------------------------------
// Distances
// ---------------------------------------------------------------------------

/// The step from one point to another.
pub open spec fn step(p: Point<Micro>, q: Point<Micro>) -> (int, int) {
    (q.x.raw - p.x.raw, q.y.raw - p.y.raw)
}

/// What the sines of a turn are, as a bearing.
pub proof fn turn_bears(delta: Micro)
    ensures
        ({
            let (s, k) = delta.sine_cosine();
            let t = bearing(delta.raw as int);
            &&& (k.raw as int, s.raw as int) == t
            &&& one_together(t)
            &&& -1_000_000 <= t.0 <= 1_000_000
            &&& -1_000_000 <= t.1 <= 1_000_000
        }),
{
    reveal(bearing);
    let a = wrap_spec(delta.raw as int, 360_000_000);
    cosines_stay_within_one(a);
    squares_make_one(a);
}

/// A turned group keeps its distances: the centres of any two shapes in it are as far apart as
/// they were, a line is as long as it was, and any other shape has the size it had.
#[verifier::spinoff_prover]
pub proof fn turns_keep_distances(
    rows: Seq<NodeModel<Micro>>,
    g: u64,
    angle: Micro,
    x: u64,
    y: u64,
)
    requires
        forest(rows),
        has_row(rows, g),
        peek(rows, g).kind == NodeKind::Group,
        0 < shapes(rows, g).len() <= 10_000,
        all_at_hand(rows, shapes(rows, g)),
        shapes(rows, g).contains(x),
        shapes(rows, g).contains(y),
    ensures
        ({
            let after = turned_to(rows, g, angle);
            let (n, m) = (peek(rows, x), peek(after, x));
            &&& as_long(
                step(middle(peek(rows, x)), middle(peek(rows, y))),
                step(middle(peek(after, x)), middle(peek(after, y))),
            )
            &&& n.kind == NodeKind::Line ==> as_long(
                (n.w.raw as int, n.h.raw as int),
                (m.w.raw as int, m.h.raw as int),
            )
            &&& n.kind != NodeKind::Line ==> m.w == n.w && m.h == n.h
        }),
{
    let ids = shapes(rows, g);
    let c = pivot(rows, ids);
    let delta = angle.minus(peek(rows, g).rotation);
    one_turn_orbits(rows, g, angle, x);
    one_turn_orbits(rows, g, angle, y);
    pivot_in_reach(rows, ids);
    at_hand_of(rows, ids, x);
    at_hand_of(rows, ids, y);
    two_orbits(peek(rows, x), peek(rows, y), c, delta);
    if peek(rows, x).kind == NodeKind::Line {
        lines_keep_their_length(peek(rows, x), c, delta);
    }
}

/// What a turn makes of one shape of its group.
pub proof fn one_turn_orbits<S: Scalar>(rows: Seq<NodeModel<S>>, g: u64, angle: S, x: u64)
    requires
        forest(rows),
        has_row(rows, g),
        peek(rows, g).kind == NodeKind::Group,
        shapes(rows, g).contains(x),
    ensures
        peek(turned_to(rows, g, angle), x) == orbited_row(
            peek(rows, x),
            pivot(rows, shapes(rows, g)),
            angle.minus(peek(rows, g).rotation),
        ),
{
    groups_turn_as_one_body(rows, g, angle);
}

#[verifier::spinoff_prover]
proof fn two_orbits(
    n: NodeModel<Micro>,
    o: NodeModel<Micro>,
    c: Point<Micro>,
    delta: Micro,
)
    requires
        at_hand(n),
        at_hand(o),
        within(c.x, 3_000_000_000_000),
        within(c.y, 3_000_000_000_000),
    ensures
        as_long(
            step(middle(n), middle(o)),
            step(middle(orbited_row(n, c, delta)), middle(orbited_row(o, c, delta))),
        ),
{
    turn_bears(delta);
    let t = bearing(delta.raw as int);
    middles_orbit(n, c, delta);
    middles_orbit(o, c, delta);
    let (p, q) = (middle(n), middle(o));
    let (p2, q2) = (middle(orbited_row(n, c, delta)), middle(orbited_row(o, c, delta)));
    apart_turns(step(c, p), step(c, q), t);
    turned_steps_are_as_long(step(p, q), step(p2, q2), t);
}

/// One of some shapes at hand is at hand.
pub proof fn at_hand_of(rows: Seq<NodeModel<Micro>>, ids: Seq<u64>, x: u64)
    requires
        all_at_hand(rows, ids),
        ids.contains(x),
    ensures
        at_hand(peek(rows, x)),
{
    let i = choose|i: int| 0 <= i < ids.len() && ids[i] == x;
    assert(at_hand(peek(rows, ids[i])));
}

#[verifier::spinoff_prover]
proof fn lines_keep_their_length(n: NodeModel<Micro>, c: Point<Micro>, delta: Micro)
    requires
        n.kind == NodeKind::Line,
        at_hand(n),
        within(c.x, 3_000_000_000_000),
        within(c.y, 3_000_000_000_000),
    ensures
        ({
            let m = orbited_row(n, c, delta);
            as_long((n.w.raw as int, n.h.raw as int), (m.w.raw as int, m.h.raw as int))
        }),
{
    reveal(turned_point);
    let (a, b) = line_ends(n);
    let m = orbited_row(n, c, delta);
    let t = bearing(delta.raw as int);
    turn_bears(delta);
    turned_point_is(a, c, delta);
    turned_point_is(b, c, delta);
    apart_turns(step(c, a), step(c, b), t);
    assert(step(a, b) == (n.w.raw as int, n.h.raw as int));
    assert(step(turn_about(a, c, delta), turn_about(b, c, delta)) == (
        m.w.raw as int,
        m.h.raw as int,
    ));
    turned_steps_are_as_long(
        step(a, b),
        step(turn_about(a, c, delta), turn_about(b, c, delta)),
        t,
    );
}

} // verus!
