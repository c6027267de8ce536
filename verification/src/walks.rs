//! Laws of walks through the tree: a deletion takes the selected subtrees and nothing else, what
//! is copied is every selected node once, and the shape that a point hits lies under the node
//! that it hits.
use vstd::prelude::*;
use crate::ancestry::{
    above, groups_lead_up, hangs, lineages_carry_on, lineages_end_at_the_top,
    lineages_hold_what_is_above, nodes_of_a_forest_hang, parents_are_around, shapes_are_under,
    shapes_hang, steps_are_there, steps_join, walks_are_steps,
};
use crate::bodies::{inside_carries_on, ranks_fall, siblings_part};
use crate::geometry::Point;
use crate::hit::{
    hit_leaf, hit_top_level, hits_any, last_hit, leaf_among, leaf_within, point_in_shape,
};
use crate::node::{NodeKind, NodeModel};
use crate::ops::removed_each;
use crate::order::siblings_are_in_order;
use crate::scalar::Scalar;
use crate::scene::{
    children, distinct, has_row, lineage, lineage_within, peek, reach, shapes, shapes_within,
    shapes_within_each,
};
use crate::svg_write::{picked, picked_each, topmost_selected};
use crate::tree::{
    deleting_takes_the_subtree, forest, lineage_goes_by_parents, ranked, walks_end_at_the_top,
};

verus! {

// ---------------------------------------------------------------------------
// Lineages
// ---------------------------------------------------------------------------

proof fn lineage_within_is_short<S: Scalar>(rows: Seq<NodeModel<S>>, id: u64, steps: nat)
    ensures
        lineage_within(rows, id, steps).len() <= steps,
    decreases steps,
{
    if steps > 0 {
        if peek(rows, id).parent is Some {
            lineage_within_is_short(rows, peek(rows, id).parent->0, (steps - 1) as nat);
        }
    }
}

/// Each entry of a lineage is there, and is the group of the entry before it.
proof fn lineage_links<S: Scalar>(
    rows: Seq<NodeModel<S>>,
    rank: spec_fn(u64) -> nat,
    x: u64,
    i: int,
)
    requires
        forest(rows),
        ranked(rows, rank),
        has_row(rows, x),
        0 <= i < lineage(rows, x).len(),
    ensures
        lineage(rows, x)[0] == x,
        has_row(rows, lineage(rows, x)[i]),
        i > 0 ==> {
            &&& peek(rows, lineage(rows, x)[i - 1]).parent == Some(lineage(rows, x)[i])
            &&& peek(rows, lineage(rows, x)[i]).kind == NodeKind::Group
        },
    decreases rank(x),
{
    lineage_goes_by_parents(rows, x);
    let w = lineage(rows, x);
    match peek(rows, x).parent {
        None => {},
        Some(p) => {
            assert(has_row(rows, p) && peek(rows, p).kind == NodeKind::Group);
            let v = lineage(rows, p);
            lineage_goes_by_parents(rows, p);
            assert(v[0] == p);
            if i > 0 {
                lineage_links(rows, rank, p, i - 1);
                assert(w[i] == v[i - 1]);
                if i > 1 {
                    assert(w[i - 1] == v[i - 2]);
                }
            }
        },
    }
}

/// A top-level node that something is inside of ends that thing's lineage.
proof fn lineage_ends_at<S: Scalar>(
    rows: Seq<NodeModel<S>>,
    rank: spec_fn(u64) -> nat,
    x: u64,
    top: u64,
)
    requires
        forest(rows),
        ranked(rows, rank),
        lineage(rows, x).contains(top),
        peek(rows, top).parent is None,
    ensures
        lineage(rows, x).last() == top,
    decreases rank(x),
{
    lineage_goes_by_parents(rows, x);
    if x != top {
        let p = peek(rows, x).parent->0;
        assert(has_row(rows, x));
        lineage_ends_at(rows, rank, p, top);
        lineage_goes_by_parents(rows, p);
    }
}

// ---------------------------------------------------------------------------
// Deletion
// ---------------------------------------------------------------------------

/// What is above a node that a deletion leaves is what was above it.
proof fn steps_stay<S: Scalar>(
    rows: Seq<NodeModel<S>>,
    ids: Seq<u64>,
    w: Seq<NodeModel<S>>,
    x: u64,
    k: nat,
)
    requires
        forall|y: u64| #[trigger]
            has_row(w, y) <==> has_row(rows, y) && !doomed(rows, ids, y),
        forall|y: u64| has_row(w, y) ==> #[trigger] peek(w, y) == peek(rows, y),
        has_row(rows, x) ==> has_row(w, x),
    ensures
        above(w, x, k) == above(rows, x, k),
    decreases k,
{
    if k > 0 {
        if has_row(rows, x) {
            assert(peek(w, x) == peek(rows, x));
            if peek(rows, x).parent is Some {
                let p = peek(rows, x).parent->0;
                assert(has_row(rows, p) ==> has_row(w, p)) by {
                    if has_row(rows, p) && !has_row(w, p) {
                        assert(doomed(rows, ids, p));
                        let i = choose|i: int|
                            0 <= i < ids.len() && has_row(rows, ids[i]) && lineage(
                                rows,
                                p,
                            ).contains(#[trigger] ids[i]);
                        parents_are_around(rows, x);
                        lineages_carry_on(rows, x, p, ids[i]);
                        assert(doomed(rows, ids, x));
                    }
                }
                steps_stay(rows, ids, w, p, (k - 1) as nat);
            }
        } else {
            assert(!has_row(w, x));
        }
    }
}

/// Whether a node is one of those of `ids` that are there, or inside one of them.
pub open spec fn doomed<S: Scalar>(rows: Seq<NodeModel<S>>, ids: Seq<u64>, x: u64) -> bool {
    exists|i: int|
        0 <= i < ids.len() && has_row(rows, ids[i]) && lineage(rows, x).contains(#[trigger] ids[i])
}

/// Deleting a selection takes the selected nodes with their whole subtrees, and nothing else:
/// what is left is every row that was neither selected nor inside a selected node, unchanged.
pub proof fn deleting_takes_the_selected_subtrees<S: Scalar>(
    rows: Seq<NodeModel<S>>,
    ids: Seq<u64>,
)
    requires
        distinct(rows),
    ensures
        distinct(removed_each(rows, ids)),
        forall|x: u64| #[trigger]
            has_row(removed_each(rows, ids), x) <==> has_row(rows, x) && !doomed(rows, ids, x),
        forall|x: u64|
            has_row(removed_each(rows, ids), x) ==> #[trigger] peek(removed_each(rows, ids), x)
                == peek(rows, x),
    decreases ids.len(),
{
    let w = removed_each(rows, ids);
    if ids.len() > 0 {
        let front = ids.drop_last();
        let n = ids.len() - 1;
        let last = ids[n];
        assert(ids.last() == last);
        deleting_takes_the_selected_subtrees(rows, front);
        let v = removed_each(rows, front);
        if has_row(v, last) {
            deleting_takes_the_subtree(v, last);
        }
        assert forall|x: u64| #[trigger] has_row(w, x) <==> has_row(rows, x) && !doomed(
            rows,
            ids,
            x,
        ) by {
            if doomed(rows, front, x) {
                let i = choose|i: int|
                    0 <= i < front.len() && has_row(rows, front[i]) && lineage(rows, x).contains(
                        #[trigger] front[i],
                    );
                assert(ids[i] == front[i]);
                assert(doomed(rows, ids, x));
            }
            if doomed(rows, ids, x) && !doomed(rows, front, x) {
                let i = choose|i: int|
                    0 <= i < ids.len() && has_row(rows, ids[i]) && lineage(rows, x).contains(
                        #[trigger] ids[i],
                    );
                if i < n {
                    assert(front[i] == ids[i]);
                }
                assert(ids[i] == last);
                if !has_row(v, last) {
                    assert(doomed(rows, front, last));
                    let k = choose|k: int|
                        0 <= k < front.len() && has_row(rows, front[k]) && lineage(
                            rows,
                            last,
                        ).contains(#[trigger] front[k]);
                    lineages_carry_on(rows, x, last, front[k]);
                }
            }
            if has_row(v, x) && has_row(v, last) {
                lineages_hold_what_is_above(rows, x, last);
                lineages_hold_what_is_above(v, x, last);
                assert forall|k: nat| #[trigger] above(v, x, k) == above(rows, x, k) by {
                    steps_stay(rows, front, v, x, k);
                }
                if lineage(rows, x).contains(last) {
                    let k = choose|k: nat| #[trigger] above(rows, x, k) == Some(last);
                    assert(above(v, x, k) == Some(last));
                    assert(has_row(rows, ids[n]) && lineage(rows, x).contains(ids[n]));
                    assert(doomed(rows, ids, x));
                }
                if lineage(v, x).contains(last) {
                    let k = choose|k: nat| #[trigger] above(v, x, k) == Some(last);
                    assert(above(rows, x, k) == Some(last));
                }
            }
        }
        assert forall|x: u64| has_row(w, x) implies #[trigger] peek(w, x) == peek(rows, x) by {
            assert(has_row(w, x));
            assert(has_row(v, x));
            assert(peek(v, x) == peek(rows, x));
        }
    }
}

// ---------------------------------------------------------------------------
// The selection
// ---------------------------------------------------------------------------

/// Whether something strictly around a node is selected.
pub open spec fn carried<S: Scalar>(rows: Seq<NodeModel<S>>, selection: Seq<u64>, x: u64) -> bool {
    exists|y: u64| y != x && #[trigger] lineage(rows, x).contains(y) && selection.contains(y)
}

/// What is picked under a node: it is selected, inside the node, and what is selected around it
/// is around the node too.
spec fn picked_well<S: Scalar>(
    rows: Seq<NodeModel<S>>,
    selection: Seq<u64>,
    id: u64,
    x: u64,
) -> bool {
    &&& selection.contains(x)
    &&& has_row(rows, x)
    &&& lineage(rows, x).contains(id)
    &&& forall|y: u64|
        y != x && #[trigger] lineage(rows, x).contains(y) && selection.contains(y) ==> y != id
            && lineage(rows, id).contains(y)
}

spec fn picked_well_of_one<S: Scalar>(
    rows: Seq<NodeModel<S>>,
    selection: Seq<u64>,
    ids: Seq<u64>,
    x: u64,
) -> bool {
    exists|i: int| 0 <= i < ids.len() && picked_well(rows, selection, #[trigger] ids[i], x)
}

proof fn picks_are_sound<S: Scalar>(
    rows: Seq<NodeModel<S>>,
    rank: spec_fn(u64) -> nat,
    selection: Seq<u64>,
    id: u64,
    steps: nat,
    x: u64,
)
    requires
        forest(rows),
        ranked(rows, rank),
        has_row(rows, id),
        picked(rows, selection, id, steps).contains(x),
    ensures
        picked_well(rows, selection, id, x),
    decreases steps, 0nat,
{
    lineage_goes_by_parents(rows, id);
    if selection.contains(id) {
        let i = choose|i: int| 0 <= i < seq![id].len() && seq![id][i] == x;
        assert(x == id);
    } else {
        let below = children(rows, Some(id));
        siblings_are_in_order(rows, Some(id));
        assert forall|i: int| 0 <= i < below.len() implies has_row(rows, #[trigger] below[i]) by {
            assert(below.contains(below[i]));
        }
        picks_of_each_are_sound(rows, rank, selection, below, (steps - 1) as nat, x);
        let i = choose|i: int|
            0 <= i < below.len() && picked_well(rows, selection, #[trigger] below[i], x);
        let c = below[i];
        assert(below.contains(c));
        assert(peek(rows, c).parent == Some(id));
        lineage_goes_by_parents(rows, c);
        inside_carries_on(rows, rank, x, c, id);
        assert forall|y: u64|
            y != x && #[trigger] lineage(rows, x).contains(y) && selection.contains(y) implies y
            != id && lineage(rows, id).contains(y) by {
            assert(y != c && lineage(rows, c).contains(y));
        }
    }
}

proof fn picks_of_each_are_sound<S: Scalar>(
    rows: Seq<NodeModel<S>>,
    rank: spec_fn(u64) -> nat,
    selection: Seq<u64>,
    ids: Seq<u64>,
    steps: nat,
    x: u64,
)
    requires
        forest(rows),
        ranked(rows, rank),
        forall|i: int| 0 <= i < ids.len() ==> has_row(rows, #[trigger] ids[i]),
        picked_each(rows, selection, ids, steps).contains(x),
    ensures
        picked_well_of_one(rows, selection, ids, x),
    decreases steps, ids.len(),
{
    if ids.len() > 0 {
        let front = ids.drop_last();
        let n = ids.len() - 1;
        let a = picked_each(rows, selection, front, steps);
        let b = picked(rows, selection, ids[n], steps);
        let w = a + b;
        let k = choose|k: int| 0 <= k < w.len() && w[k] == x;
        if k < a.len() {
            assert(a[k] == x);
            assert forall|i: int| 0 <= i < front.len() implies has_row(rows, #[trigger] front[i]) by {
                assert(front[i] == ids[i]);
            }
            picks_of_each_are_sound(rows, rank, selection, front, steps, x);
            let i = choose|i: int|
                0 <= i < front.len() && picked_well(rows, selection, #[trigger] front[i], x);
            assert(ids[i] == front[i]);
        } else {
            assert(b[k - a.len()] == x);
            picks_are_sound(rows, rank, selection, ids[n], steps, x);
        }
    }
}

proof fn each_picks<S: Scalar>(
    rows: Seq<NodeModel<S>>,
    selection: Seq<u64>,
    ids: Seq<u64>,
    steps: nat,
    c: u64,
    x: u64,
)
    requires
        ids.contains(c),
        picked(rows, selection, c, steps).contains(x),
    ensures
        picked_each(rows, selection, ids, steps).contains(x),
    decreases ids.len(),
{
    let front = ids.drop_last();
    let n = ids.len() - 1;
    let a = picked_each(rows, selection, front, steps);
    let b = picked(rows, selection, ids[n], steps);
    let w = a + b;
    let i = choose|i: int| 0 <= i < ids.len() && ids[i] == c;
    if i < n {
        assert(front[i] == c);
        each_picks(rows, selection, front, steps, c, x);
        let k = choose|k: int| 0 <= k < a.len() && a[k] == x;
        assert(w[k] == x);
    } else {
        let k = choose|k: int| 0 <= k < b.len() && b[k] == x;
        assert(w[a.len() + k] == x);
    }
}

proof fn picks_reach<S: Scalar>(
    rows: Seq<NodeModel<S>>,
    rank: spec_fn(u64) -> nat,
    selection: Seq<u64>,
    x: u64,
    i: int,
    steps: nat,
)
    requires
        forest(rows),
        ranked(rows, rank),
        has_row(rows, x),
        selection.contains(x),
        !carried(rows, selection, x),
        0 <= i < lineage(rows, x).len(),
        i < steps,
    ensures
        picked(rows, selection, lineage(rows, x)[i], steps).contains(x),
    decreases i,
{
    let w = lineage(rows, x);
    lineage_links(rows, rank, x, i);
    if i == 0 {
        assert(seq![x][0] == x);
    } else {
        let a = w[i];
        let c = w[i - 1];
        picks_reach(rows, rank, selection, x, i - 1, (steps - 1) as nat);
        lineage_links(rows, rank, x, i - 1);
        siblings_are_in_order(rows, Some(a));
        assert(children(rows, Some(a)).contains(c));
        each_picks(rows, selection, children(rows, Some(a)), (steps - 1) as nat, c, x);
        if selection.contains(a) {
            lineage_is_acyclic(rows, rank, x, i);
            assert(w.contains(a));
            assert(carried(rows, selection, x));
        }
    }
}

/// No entry of a lineage but the first is the node itself.
proof fn lineage_is_acyclic<S: Scalar>(
    rows: Seq<NodeModel<S>>,
    rank: spec_fn(u64) -> nat,
    x: u64,
    i: int,
)
    requires
        forest(rows),
        ranked(rows, rank),
        has_row(rows, x),
        0 < i < lineage(rows, x).len(),
    ensures
        lineage(rows, x)[i] != x,
{
    lineage_goes_by_parents(rows, x);
    let w = lineage(rows, x);
    if peek(rows, x).parent is Some {
        let p = peek(rows, x).parent->0;
        assert(w[i] == lineage(rows, p)[i - 1]);
        assert(lineage(rows, p).contains(w[i]));
        ranks_fall(rows, rank, p, w[i]);
    }
}

/// A copy holds the selection: every selected node at whatever depth is written, but for those
/// inside a selected group, which go with it; and nothing else is.
pub proof fn copies_hold_the_selection<S: Scalar>(
    rows: Seq<NodeModel<S>>,
    selection: Seq<u64>,
    x: u64,
)
    requires
        forest(rows),
    ensures
        topmost_selected(rows, selection).contains(x) <==> has_row(rows, x) && selection.contains(x)
            && !carried(rows, selection, x),
{
    let rank = choose|rank: spec_fn(u64) -> nat| ranked(rows, rank);
    let roots = children(rows, None);
    siblings_are_in_order(rows, None);
    if topmost_selected(rows, selection).contains(x) {
        assert forall|i: int| 0 <= i < roots.len() implies has_row(rows, #[trigger] roots[i]) by {
            assert(roots.contains(roots[i]));
        }
        picks_of_each_are_sound(rows, rank, selection, roots, reach(rows), x);
        let i = choose|i: int|
            0 <= i < roots.len() && picked_well(rows, selection, #[trigger] roots[i], x);
        assert(roots.contains(roots[i]));
        lineage_goes_by_parents(rows, roots[i]);
        if carried(rows, selection, x) {
            let y = choose|y: u64|
                y != x && #[trigger] lineage(rows, x).contains(y) && selection.contains(y);
            assert(lineage(rows, roots[i]).contains(y));
        }
    }
    if has_row(rows, x) && selection.contains(x) && !carried(rows, selection, x) {
        let w = lineage(rows, x);
        let i = w.len() - 1;
        lineage_goes_by_parents(rows, x);
        lineage_within_is_short(rows, x, reach(rows));
        lineage_links(rows, rank, x, i);
        walks_end_at_the_top(rows, x);
        picks_reach(rows, rank, selection, x, i, reach(rows));
        assert(roots.contains(w[i]));
        each_picks(rows, selection, roots, reach(rows), w[i], x);
    }
}

/// Whether nothing is inside of two of `ids`.
spec fn apart<S: Scalar>(rows: Seq<NodeModel<S>>, ids: Seq<u64>) -> bool {
    forall|i: int, j: int, x: u64|
        #![trigger lineage(rows, x).contains(ids[i]), lineage(rows, x).contains(ids[j])]
        0 <= i < j < ids.len() && lineage(rows, x).contains(ids[i]) ==> !lineage(
            rows,
            x,
        ).contains(ids[j])
}

proof fn members_are_apart<S: Scalar>(
    rows: Seq<NodeModel<S>>,
    rank: spec_fn(u64) -> nat,
    parent: Option<u64>,
)
    requires
        forest(rows),
        ranked(rows, rank),
    ensures
        apart(rows, children(rows, parent)),
        forall|i: int|
            0 <= i < children(rows, parent).len() ==> has_row(
                rows,
                #[trigger] children(rows, parent)[i],
            ),
{
    let ids = children(rows, parent);
    siblings_are_in_order(rows, parent);
    assert forall|i: int| 0 <= i < ids.len() implies has_row(rows, #[trigger] ids[i]) && peek(
        rows,
        ids[i],
    ).parent == parent by {
        assert(ids.contains(ids[i]));
    }
    assert forall|i: int, j: int, x: u64|
        #![trigger lineage(rows, x).contains(ids[i]), lineage(rows, x).contains(ids[j])]
        0 <= i < j < ids.len() && lineage(rows, x).contains(ids[i]) implies !lineage(
        rows,
        x,
    ).contains(ids[j]) by {
        assert(has_row(rows, ids[i]) && has_row(rows, ids[j]));
        assert(ids[i] != ids[j]);
        if lineage(rows, x).contains(ids[j]) {
            match parent {
                Some(p) => siblings_part(rows, rank, x, ids[i], ids[j], p),
                None => {
                    lineage_ends_at(rows, rank, x, ids[i]);
                    lineage_ends_at(rows, rank, x, ids[j]);
                },
            }
        }
    }
}

proof fn picks_come_once<S: Scalar>(
    rows: Seq<NodeModel<S>>,
    rank: spec_fn(u64) -> nat,
    selection: Seq<u64>,
    id: u64,
    steps: nat,
)
    requires
        forest(rows),
        ranked(rows, rank),
        has_row(rows, id),
    ensures
        picked(rows, selection, id, steps).no_duplicates(),
    decreases steps, 0nat,
{
    if steps > 0 && !selection.contains(id) && peek(rows, id).kind == NodeKind::Group {
        members_are_apart(rows, rank, Some(id));
        picks_of_each_come_once(
            rows,
            rank,
            selection,
            children(rows, Some(id)),
            (steps - 1) as nat,
        );
    }
}

proof fn picks_of_each_come_once<S: Scalar>(
    rows: Seq<NodeModel<S>>,
    rank: spec_fn(u64) -> nat,
    selection: Seq<u64>,
    ids: Seq<u64>,
    steps: nat,
)
    requires
        forest(rows),
        ranked(rows, rank),
        apart(rows, ids),
        forall|i: int| 0 <= i < ids.len() ==> has_row(rows, #[trigger] ids[i]),
    ensures
        picked_each(rows, selection, ids, steps).no_duplicates(),
    decreases steps, ids.len(),
{
    if ids.len() > 0 {
        let front = ids.drop_last();
        let n = ids.len() - 1;
        assert forall|i: int| 0 <= i < front.len() implies has_row(rows, #[trigger] front[i]) by {
            assert(front[i] == ids[i]);
        }
        assert(apart(rows, front)) by {
            assert forall|i: int, j: int, x: u64|
                #![trigger lineage(rows, x).contains(front[i]), lineage(rows, x).contains(front[j])]
                0 <= i < j < front.len() && lineage(rows, x).contains(front[i]) implies !lineage(
                rows,
                x,
            ).contains(front[j]) by {
                assert(front[i] == ids[i] && front[j] == ids[j]);
                assert(lineage(rows, x).contains(ids[i]));
            }
        }
        picks_of_each_come_once(rows, rank, selection, front, steps);
        picks_come_once(rows, rank, selection, ids[n], steps);
        let a = picked_each(rows, selection, front, steps);
        let b = picked(rows, selection, ids[n], steps);
        assert forall|x: u64| a.contains(x) && b.contains(x) implies false by {
            picks_of_each_are_sound(rows, rank, selection, front, steps, x);
            picks_are_sound(rows, rank, selection, ids[n], steps, x);
            let i = choose|i: int|
                0 <= i < front.len() && picked_well(rows, selection, #[trigger] front[i], x);
            assert(front[i] == ids[i]);
            assert(lineage(rows, x).contains(ids[i]) && lineage(rows, x).contains(ids[n]));
        }
        let w = a + b;
        assert forall|i: int, j: int| 0 <= i < j < w.len() implies w[i] != w[j] by {
            if i < a.len() && a.len() <= j {
                assert(a.contains(a[i]));
                assert(b.contains(b[j - a.len()]));
            }
        }
        assert(w.no_duplicates()) by {
            assert forall|i: int, j: int| 0 <= i < w.len() && 0 <= j < w.len() && i != j implies w[i]
                != w[j] by {
                if i > j {
                    assert(w[j] != w[i]);
                }
            }
        }
    }
}

/// A copy holds each selected node once.
pub proof fn copies_hold_each_node_once<S: Scalar>(rows: Seq<NodeModel<S>>, selection: Seq<u64>)
    requires
        forest(rows),
    ensures
        topmost_selected(rows, selection).no_duplicates(),
{
    let rank = choose|rank: spec_fn(u64) -> nat| ranked(rows, rank);
    members_are_apart(rows, rank, None);
    picks_of_each_come_once(rows, rank, selection, children(rows, None), reach(rows));
}

// ---------------------------------------------------------------------------
// Hits
// ---------------------------------------------------------------------------

proof fn each_reaches<S: Scalar>(
    rows: Seq<NodeModel<S>>,
    ids: Seq<u64>,
    steps: nat,
    c: u64,
    x: u64,
)
    requires
        ids.contains(c),
        shapes_within(rows, c, steps).contains(x),
    ensures
        shapes_within_each(rows, ids, steps).contains(x),
    decreases ids.len(),
{
    let front = ids.drop_last();
    let n = ids.len() - 1;
    let a = shapes_within_each(rows, front, steps);
    let b = shapes_within(rows, ids[n], steps);
    let w = a + b;
    let i = choose|i: int| 0 <= i < ids.len() && ids[i] == c;
    if i < n {
        assert(front[i] == c);
        each_reaches(rows, front, steps, c, x);
        let k = choose|k: int| 0 <= k < a.len() && a[k] == x;
        assert(w[k] == x);
    } else {
        let k = choose|k: int| 0 <= k < b.len() && b[k] == x;
        assert(w[a.len() + k] == x);
    }
}

/// A shape is among the shapes of everything that groups lead up to from it.
proof fn shapes_reach<S: Scalar>(rows: Seq<NodeModel<S>>, x: u64, i: nat, a: u64, steps: nat)
    requires
        distinct(rows),
        has_row(rows, x),
        peek(rows, x).kind != NodeKind::Group,
        above(rows, x, i) == Some(a),
        groups_lead_up(rows, x, i),
        i < steps,
    ensures
        shapes_within(rows, a, steps).contains(x),
    decreases i,
{
    if i == 0 {
        assert(seq![x][0] == x);
    } else {
        let k = (i - 1) as nat;
        steps_are_there(rows, x, i, k);
        let c = above(rows, x, k)->0;
        shapes_reach(rows, x, k, c, (steps - 1) as nat);
        steps_join(rows, x, k, 1);
        reveal_with_fuel(above, 2);
        assert(peek(rows, c).parent == Some(a));
        siblings_are_in_order(rows, Some(a));
        assert(children(rows, Some(a)).contains(c));
        each_reaches(rows, children(rows, Some(a)), (steps - 1) as nat, c, x);
        assert(peek(rows, above(rows, x, i)->0).kind == NodeKind::Group);
    }
}

proof fn joined_hits<S: Scalar>(
    rows: Seq<NodeModel<S>>,
    a: Seq<u64>,
    b: Seq<u64>,
    p: Point<S>,
    zoom: S,
)
    ensures
        hits_any(rows, a + b, p, zoom) <==> hits_any(rows, a, p, zoom) || hits_any(
            rows,
            b,
            p,
            zoom,
        ),
{
    let w = a + b;
    if hits_any(rows, a, p, zoom) {
        let i = choose|i: int|
            0 <= i < a.len() && point_in_shape(peek(rows, #[trigger] a[i]), p, zoom);
        assert(w[i] == a[i]);
    }
    if hits_any(rows, b, p, zoom) {
        let i = choose|i: int|
            0 <= i < b.len() && point_in_shape(peek(rows, #[trigger] b[i]), p, zoom);
        assert(w[a.len() + i] == b[i]);
    }
    if hits_any(rows, w, p, zoom) {
        let i = choose|i: int|
            0 <= i < w.len() && point_in_shape(peek(rows, #[trigger] w[i]), p, zoom);
        if i < a.len() {
            assert(a[i] == w[i]);
        } else {
            assert(b[i - a.len()] == w[i]);
        }
    }
}

/// What the deepest hit under a node is: one of its shapes that the point is on, and none only
/// where the point is on none of them.
spec fn leaf_well<S: Scalar>(
    rows: Seq<NodeModel<S>>,
    r: Option<u64>,
    ids: Seq<u64>,
    p: Point<S>,
    zoom: S,
) -> bool {
    match r {
        Some(leaf) => ids.contains(leaf) && point_in_shape(peek(rows, leaf), p, zoom) && hits_any(
            rows,
            ids,
            p,
            zoom,
        ),
        None => !hits_any(rows, ids, p, zoom),
    }
}

proof fn leaves_are_shapes<S: Scalar>(
    rows: Seq<NodeModel<S>>,
    id: u64,
    p: Point<S>,
    zoom: S,
    steps: nat,
)
    ensures
        leaf_well(
            rows,
            leaf_within(rows, id, p, zoom, steps),
            shapes_within(rows, id, steps),
            p,
            zoom,
        ),
    decreases steps, 0nat,
{
    if steps > 0 {
        if peek(rows, id).kind == NodeKind::Group {
            leaves_of_each_are_shapes(
                rows,
                children(rows, Some(id)),
                p,
                zoom,
                (steps - 1) as nat,
            );
        } else {
            let one = seq![id];
            assert(one[0] == id);
            if point_in_shape(peek(rows, id), p, zoom) {
                assert(point_in_shape(peek(rows, one[0]), p, zoom));
            }
        }
    }
}

proof fn leaves_of_each_are_shapes<S: Scalar>(
    rows: Seq<NodeModel<S>>,
    ids: Seq<u64>,
    p: Point<S>,
    zoom: S,
    steps: nat,
)
    ensures
        leaf_well(
            rows,
            leaf_among(rows, ids, p, zoom, steps),
            shapes_within_each(rows, ids, steps),
            p,
            zoom,
        ),
    decreases steps, ids.len(),
{
    if ids.len() > 0 {
        let front = ids.drop_last();
        let a = shapes_within_each(rows, front, steps);
        let b = shapes_within(rows, ids.last(), steps);
        leaves_are_shapes(rows, ids.last(), p, zoom, steps);
        leaves_of_each_are_shapes(rows, front, p, zoom, steps);
        joined_hits(rows, a, b, p, zoom);
        match leaf_within(rows, ids.last(), p, zoom, steps) {
            Some(leaf) => {
                let k = choose|k: int| 0 <= k < b.len() && b[k] == leaf;
                assert((a + b)[a.len() + k] == leaf);
            },
            None => {
                if leaf_among(rows, front, p, zoom, steps) is Some {
                    let leaf = leaf_among(rows, front, p, zoom, steps)->0;
                    let k = choose|k: int| 0 <= k < a.len() && a[k] == leaf;
                    assert((a + b)[k] == leaf);
                }
            },
        }
    }
}

/// The deepest hit lies under the topmost hit.
proof fn leaf_lies_under<S: Scalar>(
    rows: Seq<NodeModel<S>>,
    ids: Seq<u64>,
    p: Point<S>,
    zoom: S,
)
    ensures
        match leaf_among(rows, ids, p, zoom, reach(rows)) {
            Some(leaf) => last_hit(rows, ids, p, zoom) matches Some(top) && ids.contains(top)
                && shapes(rows, top).contains(leaf) && point_in_shape(peek(rows, leaf), p, zoom),
            None => last_hit(rows, ids, p, zoom) is None,
        },
    decreases ids.len(),
{
    if ids.len() > 0 {
        let front = ids.drop_last();
        let n = ids.len() - 1;
        assert(ids[n] == ids.last());
        leaves_are_shapes(rows, ids.last(), p, zoom, reach(rows));
        leaf_lies_under(rows, front, p, zoom);
        if leaf_within(rows, ids.last(), p, zoom, reach(rows)) is None && last_hit(
            rows,
            front,
            p,
            zoom,
        ) is Some {
            let top = last_hit(rows, front, p, zoom)->0;
            let k = choose|k: int| 0 <= k < front.len() && front[k] == top;
            assert(ids[k] == top);
        }
    }
}

/// The deepest shape that a point hits lies under the top-level node that it hits, is no group,
/// and holds the point.
pub proof fn the_deepest_hit_lies_under_the_topmost<S: Scalar>(
    rows: Seq<NodeModel<S>>,
    p: Point<S>,
    zoom: S,
)
    requires
        distinct(rows),
    ensures
        match hit_leaf(rows, p, zoom) {
            Some(leaf) => {
                &&& hit_top_level(rows, p, zoom) == Some(lineage(rows, leaf).last())
                &&& has_row(rows, leaf)
                &&& peek(rows, leaf).kind != NodeKind::Group
                &&& point_in_shape(peek(rows, leaf), p, zoom)
            },
            None => hit_top_level(rows, p, zoom) is None,
        },
{
    let roots = children(rows, None);
    siblings_are_in_order(rows, None);
    leaf_lies_under(rows, roots, p, zoom);
    if hit_leaf(rows, p, zoom) is Some {
        let leaf = hit_leaf(rows, p, zoom)->0;
        let top = hit_top_level(rows, p, zoom)->0;
        assert(roots.contains(top));
        let k = shapes_are_under(rows, top, reach(rows), leaf);
        lineages_end_at_the_top(rows, leaf, k, top);
    }
}

/// A point hits nothing only where no shape holds it. What does not hang from the top level is
/// not in the drawing; in a forest everything hangs from it.
pub proof fn no_hit_means_no_shape<S: Scalar>(rows: Seq<NodeModel<S>>, p: Point<S>, zoom: S)
    requires
        distinct(rows),
    ensures
        hit_leaf(rows, p, zoom) is None <==> forall|x: u64| #[trigger]
            hangs(rows, x) && peek(rows, x).kind != NodeKind::Group ==> !point_in_shape(
                peek(rows, x),
                p,
                zoom,
            ),
        forest(rows) ==> (hit_leaf(rows, p, zoom) is None <==> forall|x: u64|
            has_row(rows, x) && (#[trigger] peek(rows, x)).kind != NodeKind::Group
                ==> !point_in_shape(peek(rows, x), p, zoom)),
{
    let roots = children(rows, None);
    siblings_are_in_order(rows, None);
    leaves_of_each_are_shapes(rows, roots, p, zoom, reach(rows));
    leaf_lies_under(rows, roots, p, zoom);
    let all = shapes_within_each(rows, roots, reach(rows));
    if hit_leaf(rows, p, zoom) is None {
        assert forall|x: u64| #[trigger]
            hangs(rows, x) && peek(rows, x).kind != NodeKind::Group implies !point_in_shape(
            peek(rows, x),
            p,
            zoom,
        ) by {
            let w = lineage(rows, x);
            lineage_within_is_short(rows, x, reach(rows));
            walks_are_steps(rows, x, reach(rows), 0);
            let i = (w.len() - 1) as nat;
            walks_are_steps(rows, x, reach(rows), i);
            assert forall|j: nat| 0 < j <= i implies peek(
                rows,
                (#[trigger] above(rows, x, j))->0,
            ).kind == NodeKind::Group by {
                walks_are_steps(rows, x, reach(rows), j);
                assert(above(rows, x, j) == Some(w[j as int]));
            }
            assert(w.last() == w[i as int]);
            shapes_reach(rows, x, i, w.last(), reach(rows));
            assert(roots.contains(w.last()));
            each_reaches(rows, roots, reach(rows), w.last(), x);
            let k = choose|k: int| 0 <= k < all.len() && all[k] == x;
            assert(all[k] == x);
        }
    } else {
        let leaf = hit_leaf(rows, p, zoom)->0;
        let top = hit_top_level(rows, p, zoom)->0;
        assert(roots.contains(top));
        let k = shapes_are_under(rows, top, reach(rows), leaf);
        lineages_end_at_the_top(rows, leaf, k, top);
        shapes_hang(rows, top, leaf);
        assert(hangs(rows, leaf) && peek(rows, leaf).kind != NodeKind::Group);
    }
    if forest(rows) {
        assert forall|x: u64| has_row(rows, x) implies #[trigger] hangs(rows, x) by {
            nodes_of_a_forest_hang(rows, x);
        }
        if hit_leaf(rows, p, zoom) is None {
            assert forall|x: u64|
                has_row(rows, x) && (#[trigger] peek(rows, x)).kind != NodeKind::Group implies
                !point_in_shape(peek(rows, x), p, zoom) by {
                assert(hangs(rows, x));
            }
        } else {
            let leaf = hit_leaf(rows, p, zoom)->0;
            assert(peek(rows, leaf).kind != NodeKind::Group);
        }
    }
}

} // verus!
