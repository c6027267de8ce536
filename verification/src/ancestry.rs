//! Laws of lineages in any drawing with distinct ids, whether or not its parents make a forest:
//! a lineage holds everything that parents lead to, and what it is to hang from the top level.
use vstd::prelude::*;
use crate::node::{NodeKind, NodeModel};
use crate::order::siblings_are_in_order;
use crate::scalar::Scalar;
use crate::scene::{
    children, distinct, has_row, lineage, lineage_within, peek, reach, shapes_within,
    shapes_within_each,
};
use crate::tree::{
    forest, lineage_goes_by_parents, pigeonhole, walks_end_at_the_top,
};

verus! {

/// What is `k` steps up from a node.
pub open spec fn above<S: Scalar>(rows: Seq<NodeModel<S>>, x: u64, k: nat) -> Option<u64>
    decreases k,
{
    if k == 0 {
        Some(x)
    } else {
        match peek(rows, x).parent {
            None => None,
            Some(p) => above(rows, p, (k - 1) as nat),
        }
    }
}

/// Steps up follow one another.
pub proof fn steps_join<S: Scalar>(rows: Seq<NodeModel<S>>, x: u64, k: nat, m: nat)
    requires
        above(rows, x, k) is Some,
    ensures
        above(rows, x, k + m) == above(rows, above(rows, x, k)->0, m),
    decreases k,
{
    if k > 0 {
        steps_join(rows, peek(rows, x).parent->0, (k - 1) as nat, m);
    }
}

/// What something is above of is there, and so is everything on the way.
pub proof fn steps_are_there<S: Scalar>(rows: Seq<NodeModel<S>>, x: u64, k: nat, i: nat)
    requires
        above(rows, x, k) is Some,
        i <= k,
    ensures
        above(rows, x, i) is Some,
        i < k ==> has_row(rows, above(rows, x, i)->0),
    decreases i,
{
    if i > 0 {
        steps_are_there(rows, peek(rows, x).parent->0, (k - 1) as nat, (i - 1) as nat);
    }
}

/// A walk up is what is above, step by step.
pub proof fn walks_are_steps<S: Scalar>(rows: Seq<NodeModel<S>>, x: u64, n: nat, i: nat)
    ensures
        i < lineage_within(rows, x, n).len() <==> i < n && above(rows, x, i) is Some,
        i < lineage_within(rows, x, n).len() ==> above(rows, x, i) == Some(
            lineage_within(rows, x, n)[i as int],
        ),
    decreases i,
{
    if n > 0 {
        if peek(rows, x).parent is Some && i > 0 {
            walks_are_steps(rows, peek(rows, x).parent->0, (n - 1) as nat, (i - 1) as nat);
        }
    }
}

/// What is above at all is above within as many steps as there are rows.
proof fn steps_are_few<S: Scalar>(rows: Seq<NodeModel<S>>, x: u64, k: nat) -> (few: nat)
    requires
        above(rows, x, k) is Some,
    ensures
        few <= rows.len(),
        above(rows, x, few) == above(rows, x, k),
    decreases k,
{
    if k <= rows.len() {
        k
    } else {
        let way = Seq::new(rows.len() + 1, |i: int| above(rows, x, i as nat)->0);
        assert forall|i: int| 0 <= i < way.len() implies has_row(rows, #[trigger] way[i]) by {
            steps_are_there(rows, x, k, i as nat);
        }
        if way.no_duplicates() {
            pigeonhole(rows, way);
        }
        let (i, j) = choose|i: int, j: int|
            0 <= i < way.len() && 0 <= j < way.len() && i != j && way[i] == way[j];
        let (a, b) = if i < j {
            (i as nat, j as nat)
        } else {
            (j as nat, i as nat)
        };
        steps_are_there(rows, x, k, a);
        steps_are_there(rows, x, k, b);
        assert(above(rows, x, a) == above(rows, x, b)) by {
            assert(way[a as int] == way[b as int]);
        }
        let rest = (k - b) as nat;
        steps_join(rows, x, a, rest);
        steps_join(rows, x, b, rest);
        steps_are_few(rows, x, a + rest)
    }
}

/// A lineage holds everything that is above a node, and nothing else.
pub proof fn lineages_hold_what_is_above<S: Scalar>(rows: Seq<NodeModel<S>>, x: u64, a: u64)
    ensures
        lineage(rows, x).contains(a) <==> exists|k: nat| #[trigger] above(rows, x, k) == Some(a),
{
    let w = lineage(rows, x);
    if w.contains(a) {
        let i = choose|i: int| 0 <= i < w.len() && w[i] == a;
        walks_are_steps(rows, x, reach(rows), i as nat);
        assert(above(rows, x, i as nat) == Some(a));
    }
    if exists|k: nat| #[trigger] above(rows, x, k) == Some(a) {
        let k = choose|k: nat| #[trigger] above(rows, x, k) == Some(a);
        let few = steps_are_few(rows, x, k);
        walks_are_steps(rows, x, reach(rows), few);
        assert(w[few as int] == a);
    }
}

/// What is around something around a node is around the node.
pub proof fn lineages_carry_on<S: Scalar>(rows: Seq<NodeModel<S>>, x: u64, y: u64, a: u64)
    requires
        lineage(rows, x).contains(y),
        lineage(rows, y).contains(a),
    ensures
        lineage(rows, x).contains(a),
{
    lineages_hold_what_is_above(rows, x, y);
    lineages_hold_what_is_above(rows, y, a);
    let k = choose|k: nat| #[trigger] above(rows, x, k) == Some(y);
    let m = choose|m: nat| #[trigger] above(rows, y, m) == Some(a);
    steps_join(rows, x, k, m);
    assert(above(rows, x, k + m) == Some(a));
    lineages_hold_what_is_above(rows, x, a);
}

/// A node is inside the group that it is in.
pub proof fn parents_are_around<S: Scalar>(rows: Seq<NodeModel<S>>, x: u64)
    requires
        peek(rows, x).parent is Some,
    ensures
        lineage(rows, x).contains(peek(rows, x).parent->0),
{
    reveal_with_fuel(above, 2);
    assert(above(rows, x, 1) == Some(peek(rows, x).parent->0));
    lineages_hold_what_is_above(rows, x, peek(rows, x).parent->0);
}

/// A node that is `k` steps under a top-level node has that for the end of its lineage.
pub proof fn lineages_end_at_the_top<S: Scalar>(
    rows: Seq<NodeModel<S>>,
    x: u64,
    k: nat,
    top: u64,
)
    requires
        above(rows, x, k) == Some(top),
        k < reach(rows),
        peek(rows, top).parent is None,
    ensures
        lineage(rows, x).len() == k + 1,
        lineage(rows, x).last() == top,
{
    walks_are_steps(rows, x, reach(rows), k);
    walks_are_steps(rows, x, reach(rows), k + 1);
    steps_join(rows, x, k, 1);
}

// ---------------------------------------------------------------------------
// Hanging
// ---------------------------------------------------------------------------

/// Whether a node hangs from the top level: its parents lead through groups to a top-level node.
/// In a forest every node does.
pub open spec fn hangs<S: Scalar>(rows: Seq<NodeModel<S>>, x: u64) -> bool {
    let w = lineage(rows, x);
    &&& has_row(rows, x)
    &&& has_row(rows, w.last())
    &&& peek(rows, w.last()).parent is None
    &&& forall|i: int| 0 < i < w.len() ==> peek(rows, #[trigger] w[i]).kind == NodeKind::Group
}

/// Every node of a forest hangs from the top level.
pub proof fn nodes_of_a_forest_hang<S: Scalar>(rows: Seq<NodeModel<S>>, x: u64)
    requires
        forest(rows),
        has_row(rows, x),
    ensures
        hangs(rows, x),
{
    let w = lineage(rows, x);
    let n = reach(rows);
    lineage_goes_by_parents(rows, x);
    walks_end_at_the_top(rows, x);
    assert forall|i: int| 0 <= i < w.len() implies has_row(rows, #[trigger] w[i]) && (i > 0
        ==> peek(rows, w[i]).kind == NodeKind::Group) by {
        walks_are_steps(rows, x, n, i as nat);
        if i > 0 {
            walks_are_steps(rows, x, n, (i - 1) as nat);
            steps_are_there(rows, x, i as nat, (i - 1) as nat);
            steps_join(rows, x, (i - 1) as nat, 1);
            assert(above(rows, w[i - 1], 1) == Some(w[i]));
            reveal_with_fuel(above, 2);
            assert(peek(rows, w[i - 1]).parent == Some(w[i]));
        }
    }
    assert(w.last() == w[w.len() - 1]);
}

/// Whether the `k` nodes above a node are groups.
pub open spec fn groups_lead_up<S: Scalar>(rows: Seq<NodeModel<S>>, x: u64, k: nat) -> bool {
    forall|j: nat|
        0 < j <= k ==> peek(rows, (#[trigger] above(rows, x, j))->0).kind == NodeKind::Group
}

/// A shape under a node is there, is no group, and has the node above it.
pub proof fn shapes_are_under<S: Scalar>(
    rows: Seq<NodeModel<S>>,
    id: u64,
    steps: nat,
    x: u64,
) -> (k: nat)
    requires
        distinct(rows),
        has_row(rows, id),
        shapes_within(rows, id, steps).contains(x),
    ensures
        k < steps,
        above(rows, x, k) == Some(id),
        groups_lead_up(rows, x, k),
        has_row(rows, x),
        peek(rows, x).kind != NodeKind::Group,
    decreases steps, 0nat,
{
    if peek(rows, id).kind == NodeKind::Group {
        let below = children(rows, Some(id));
        siblings_are_in_order(rows, Some(id));
        let (c, k) = shapes_of_each_are_under(rows, Some(id), below, (steps - 1) as nat, x);
        steps_join(rows, x, k, 1);
        reveal_with_fuel(above, 2);
        assert(above(rows, c, 1) == Some(id));
        assert forall|j: nat| 0 < j <= k + 1 implies peek(
            rows,
            (#[trigger] above(rows, x, j))->0,
        ).kind == NodeKind::Group by {
            if j == k + 1 {
                assert(above(rows, x, j) == Some(id));
            }
        }
        k + 1
    } else {
        let i = choose|i: int| 0 <= i < seq![id].len() && seq![id][i] == x;
        assert(x == id);
        0
    }
}

proof fn shapes_of_each_are_under<S: Scalar>(
    rows: Seq<NodeModel<S>>,
    parent: Option<u64>,
    ids: Seq<u64>,
    steps: nat,
    x: u64,
) -> (r: (u64, nat))
    requires
        distinct(rows),
        forall|i: int|
            0 <= i < ids.len() ==> children(rows, parent).contains(#[trigger] ids[i]),
        shapes_within_each(rows, ids, steps).contains(x),
    ensures
        r.1 < steps,
        has_row(rows, r.0),
        peek(rows, r.0).parent == parent,
        above(rows, x, r.1) == Some(r.0),
        groups_lead_up(rows, x, r.1),
        has_row(rows, x),
        peek(rows, x).kind != NodeKind::Group,
    decreases steps, ids.len(),
{
    let front = ids.drop_last();
    let n = ids.len() - 1;
    let a = shapes_within_each(rows, front, steps);
    let b = shapes_within(rows, ids[n], steps);
    let w = a + b;
    let k = choose|k: int| 0 <= k < w.len() && w[k] == x;
    if k < a.len() {
        assert(a[k] == x);
        assert forall|i: int| 0 <= i < front.len() implies children(rows, parent).contains(
            #[trigger] front[i],
        ) by {
            assert(front[i] == ids[i]);
        }
        shapes_of_each_are_under(rows, parent, front, steps, x)
    } else {
        assert(b[k - a.len()] == x);
        siblings_are_in_order(rows, parent);
        assert(children(rows, parent).contains(ids[n]));
        let m = shapes_are_under(rows, ids[n], steps, x);
        (ids[n], m)
    }
}

/// A shape under a top-level node hangs from the top level.
pub proof fn shapes_hang<S: Scalar>(rows: Seq<NodeModel<S>>, top: u64, x: u64)
    requires
        distinct(rows),
        has_row(rows, top),
        peek(rows, top).parent is None,
        shapes_within(rows, top, reach(rows)).contains(x),
    ensures
        hangs(rows, x),
{
    let k = shapes_are_under(rows, top, reach(rows), x);
    lineages_end_at_the_top(rows, x, k, top);
    let w = lineage(rows, x);
    assert forall|i: int| 0 < i < w.len() implies peek(rows, #[trigger] w[i]).kind
        == NodeKind::Group by {
        walks_are_steps(rows, x, reach(rows), i as nat);
        assert(above(rows, x, i as nat) == Some(w[i]));
    }
}

} // verus!
