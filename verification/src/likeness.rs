//! A copied selection reads back, in any numbers that are read closely: every shape is what it
//! was, but for the rounding of an oval's or a line's frame.
use vstd::prelude::*;
use crate::ancestry::{above, lineages_hold_what_is_above};
use crate::bounds::joint_bounds;
use crate::drift::near_by;
use crate::gauge::{halves_read, sums_read, Gauge};
use crate::node::{NodeKind, NodeModel};
use crate::order::siblings_are_in_order;
use crate::scalar::{half, Scalar};
use crate::scene::{children, distinct, has_row, lineage, peek, reach};
use crate::svg::{parsed, worth_keeping, ShapeModel, TreeModel};
use crate::svg_write::{
    children_stand, rows_stand, selection_svg, topmost_selected, topmost_selected_stand,
};
use crate::sway::both_within;
use crate::travel::{
    canonical, copies_read_back, inside_a_member, own_shape, picks_are_selected, portable,
    portable_inside, shapes_travel_whole, travelled, travelled_trees, travelled_trees_each,
};

verus! {

/// Whether two shapes are alike: the same but for their frames, and the frames the same but for
/// four units.
pub open spec fn alike<S: Scalar>(g: Gauge<S>, a: ShapeModel<S>, b: ShapeModel<S>) -> bool {
    &&& a == (ShapeModel { x: a.x, y: a.y, w: a.w, h: a.h, ..b })
    &&& both_within((g.u(a.x) - g.u(b.x), g.u(a.y) - g.u(b.y)), 4)
    &&& both_within((g.u(a.w) - g.u(b.w), g.u(a.h) - g.u(b.h)), 4)
}

/// What was added to a number and taken away again.
proof fn away_and_back<S: Scalar>(g: Gauge<S>, a: S, b: S, e: int)
    requires
        g.reads_closely(),
        -e <= g.u(a) <= e,
        -e <= g.u(b) <= e,
        100 <= e,
        10 * e <= g.reach,
    ensures
        -4 <= g.u(a.plus(b).minus(b)) - g.u(a) <= 4,
        -4 <= g.u(a.plus(b).minus(a)) - g.u(b) <= 4,
{
    sums_read(g, a, b);
    sums_read(g, a.plus(b), b);
    sums_read(g, a.plus(b), a);
}

/// A node whose style is as the editor keeps it travels as a shape like its own.
pub proof fn shapes_travel_alike<S: Scalar>(g: Gauge<S>, n: NodeModel<S>, e: int)
    requires
        g.reads_closely(),
        n.kind != NodeKind::Group,
        canonical(n),
        near_by(g, n, e),
        100 <= e,
        10 * e <= g.reach,
    ensures
        alike(g, travelled(n), own_shape(n)),
{
    shapes_travel_whole(n);
    halves_read(g, n.w);
    halves_read(g, n.h);
    halves_read(g, half(n.w));
    halves_read(g, half(n.h));
    away_and_back(g, n.x, n.w, e);
    away_and_back(g, n.y, n.h, e);
    away_and_back(g, n.x, half(n.w), e);
    away_and_back(g, n.y, half(n.h), e);
}

/// Whether a node travels: a group, or a shape that can be written, in a style as the editor
/// keeps it, which is read back with an extent.
pub open spec fn travels<S: Scalar>(n: NodeModel<S>) -> bool {
    n.kind == NodeKind::Group || {
        &&& portable(n)
        &&& canonical(n)
        &&& worth_keeping(travelled(n))
    }
}

/// Whether a node, and everything inside it, travels.
pub open spec fn travels_inside<S: Scalar>(rows: Seq<NodeModel<S>>, id: u64) -> bool {
    forall|x: u64|
        has_row(rows, x) && #[trigger] lineage(rows, x).contains(id) ==> travels(peek(rows, x))
}

/// Whether all of some nodes, and everything inside them, travel.
pub open spec fn all_travel<S: Scalar>(rows: Seq<NodeModel<S>>, ids: Seq<u64>) -> bool {
    forall|i: int| 0 <= i < ids.len() ==> travels_inside(rows, #[trigger] ids[i])
}

/// A node as it is read back: a shape, or a group with its members, bottom to top.
pub open spec fn read_tree<S: Scalar>(rows: Seq<NodeModel<S>>, id: u64, steps: nat) -> TreeModel<S>
    decreases steps, 0nat,
{
    if steps > 0 && peek(rows, id).kind == NodeKind::Group {
        TreeModel::Group(read_trees(rows, children(rows, Some(id)), (steps - 1) as nat))
    } else {
        TreeModel::Shape(travelled(peek(rows, id)))
    }
}

/// Nodes as they are read back, in turn.
pub open spec fn read_trees<S: Scalar>(rows: Seq<NodeModel<S>>, ids: Seq<u64>, steps: nat) -> Seq<
    TreeModel<S>,
>
    decreases steps, ids.len(),
{
    if steps == 0 || ids.len() == 0 {
        Seq::empty()
    } else {
        read_trees(rows, ids.drop_last(), steps).push(read_tree(rows, ids.last(), steps))
    }
}

proof fn members_travel<S: Scalar>(rows: Seq<NodeModel<S>>, id: u64)
    requires
        distinct(rows),
        travels_inside(rows, id),
    ensures
        all_travel(rows, children(rows, Some(id))),
{
    let members = children(rows, Some(id));
    siblings_are_in_order(rows, Some(id));
    assert forall|i: int| 0 <= i < members.len() implies travels_inside(
        rows,
        #[trigger] members[i],
    ) by {
        let c = members[i];
        assert(members.contains(c));
        assert forall|x: u64|
            has_row(rows, x) && #[trigger] lineage(rows, x).contains(c) implies travels(
            peek(rows, x),
        ) by {
            inside_a_member(rows, id, c, x);
        }
    }
}

proof fn trees_are_read<S: Scalar>(rows: Seq<NodeModel<S>>, ids: Seq<u64>, steps: nat)
    requires
        distinct(rows),
        rows_stand(rows, ids),
        all_travel(rows, ids),
    ensures
        travelled_trees_each(rows, ids, steps) == read_trees(rows, ids, steps),
        steps > 0 ==> read_trees(rows, ids, steps).len() == ids.len(),
    decreases steps, ids.len(),
{
    if ids.len() > 0 {
        let front = ids.drop_last();
        let n = ids.len() - 1;
        let id = ids[n];
        assert forall|i: int| 0 <= i < front.len() implies has_row(rows, #[trigger] front[i])
            && travels_inside(rows, front[i]) by {
            assert(front[i] == ids[i]);
        }
        trees_are_read(rows, front, steps);
        let a = travelled_trees_each(rows, front, steps);
        let b = travelled_trees(rows, id, steps);
        assert(travelled_trees_each(rows, ids, steps) == a + b);
        if steps == 0 {
            assert(a + b =~= Seq::<TreeModel<S>>::empty());
        } else {
            assert(has_row(rows, id) && travels_inside(rows, id));
            if peek(rows, id).kind == NodeKind::Group {
                members_travel(rows, id);
                children_stand(rows, Some(id));
                trees_are_read(rows, children(rows, Some(id)), (steps - 1) as nat);
            } else {
                assert(above(rows, id, 0) == Some(id));
                lineages_hold_what_is_above(rows, id, id);
                assert(travels(peek(rows, id)));
            }
            assert(b == seq![read_tree(rows, id, steps)]);
            assert(a + b =~= a.push(read_tree(rows, id, steps)));
        }
    }
}

/// A copied selection reads back, in any numbers that are read closely: one root for each of the
/// topmost selected nodes, bottom to top, a group as a group of its members in their order, and
/// every shape like its own.
pub proof fn copies_read_back_alike<S: Scalar>(
    g: Gauge<S>,
    rows: Seq<NodeModel<S>>,
    selection: Seq<u64>,
    e: int,
)
    requires
        distinct(rows),
        all_travel(rows, selection),
        joint_bounds(rows, selection) is Some,
        g.reads_closely(),
        100 <= e,
        10 * e <= g.reach,
        forall|x: u64| has_row(rows, x) ==> near_by(g, #[trigger] peek(rows, x), e),
    ensures
        selection_svg(rows, selection) is Some,
        parsed::<S>(selection_svg(rows, selection)->0) == read_trees(
            rows,
            topmost_selected(rows, selection),
            reach(rows),
        ),
        parsed::<S>(selection_svg(rows, selection)->0).len() == topmost_selected(
            rows,
            selection,
        ).len(),
        forall|i: int, x: u64|
            0 <= i < selection.len() && has_row(rows, x) && #[trigger] lineage(rows, x).contains(
                #[trigger] selection[i],
            ) && peek(rows, x).kind != NodeKind::Group ==> alike(
                g,
                travelled(peek(rows, x)),
                own_shape(peek(rows, x)),
            ),
{
    let ids = topmost_selected(rows, selection);
    assert forall|i: int| 0 <= i < selection.len() implies portable_inside(
        rows,
        #[trigger] selection[i],
    ) by {
        assert(travels_inside(rows, selection[i]));
        assert forall|x: u64|
            has_row(rows, x) && #[trigger] lineage(rows, x).contains(selection[i]) implies portable(
            peek(rows, x),
        ) by {
            assert(travels(peek(rows, x)));
        }
    }
    copies_read_back(rows, selection);
    topmost_selected_stand(rows, selection);
    assert forall|i: int| 0 <= i < ids.len() implies travels_inside(rows, #[trigger] ids[i]) by {
        picks_are_selected(rows, selection, children(rows, None), reach(rows), i);
        let k = choose|k: int| 0 <= k < selection.len() && selection[k] == ids[i];
        assert(travels_inside(rows, selection[k]));
    }
    trees_are_read(rows, ids, reach(rows));
    assert forall|i: int, x: u64|
        0 <= i < selection.len() && has_row(rows, x) && #[trigger] lineage(rows, x).contains(
            #[trigger] selection[i],
        ) && peek(rows, x).kind != NodeKind::Group implies alike(
        g,
        travelled(peek(rows, x)),
        own_shape(peek(rows, x)),
    ) by {
        assert(travels_inside(rows, selection[i]));
        assert(travels(peek(rows, x)));
        shapes_travel_alike(g, peek(rows, x), e);
    }
}

} // verus!
