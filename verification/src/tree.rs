//! Laws of the tree: the parent references make a forest of groups, every walk up it ends, and
//! every operation keeps it so.
use vstd::prelude::*;
use crate::canvas::{put_each, side_field, Put};
use crate::inspector::{color_set_each, prop_set_each, style_set_each, Prop, StyleColor, StyleNum};
use crate::layers::{
    arranged_each, may_reparent, others, renumbered, reparented, rested_in_group, surfaced_each,
    Arrange,
};
use crate::motion::{moved_each, orbited, orbited_each, shifted_each, turned_to};
use crate::node::{default_node, NodeKind, NodeModel};
use crate::ops::{
    adopted, filtered_is_distinct, fresh_id_is_free, grouped, highest_z, new_group, released,
    removed, removed_each, ungrouped,
};
use crate::order::{pushed_peeks, written_peeks};
use crate::paste::{
    pasted_shape, planted, planted_members, planted_roots, pushed_raises_highest, raised, size,
    size_each,
};
use crate::scalar::Scalar;
use crate::scene::{
    children, distinct, has_row, highest_id, lineage, lineage_within, peek, reach, slot,
    slot_is_unique, with_field, written, FieldModel,
};
use crate::svg::TreeModel;

verus! {

/// Whether every node has a higher rank than the group it is in.
pub open spec fn ranked<S: Scalar>(rows: Seq<NodeModel<S>>, rank: spec_fn(u64) -> nat) -> bool {
    forall|id: u64|
        has_row(rows, id) ==> (#[trigger] peek(rows, id).parent matches Some(p) ==> rank(p)
            < rank(id))
}

/// Whether every parent is a group that is there.
pub open spec fn grouped_well<S: Scalar>(rows: Seq<NodeModel<S>>) -> bool {
    forall|id: u64|
        has_row(rows, id) ==> (#[trigger] peek(rows, id).parent matches Some(p) ==> has_row(rows, p)
            && peek(rows, p).kind == NodeKind::Group)
}

/// Whether the rows make a forest: ids are distinct, every parent is a group that is there, and
/// no node is inside itself.
pub open spec fn forest<S: Scalar>(rows: Seq<NodeModel<S>>) -> bool {
    &&& distinct(rows)
    &&& grouped_well(rows)
    &&& exists|rank: spec_fn(u64) -> nat| ranked(rows, rank)
}

// ---------------------------------------------------------------------------
// Walks
// ---------------------------------------------------------------------------

/// A walk that ended before its steps did is the same with more steps.
proof fn ended_walk<S: Scalar>(rows: Seq<NodeModel<S>>, id: u64, n: nat, m: nat)
    requires
        lineage_within(rows, id, n).len() < n,
        n <= m,
    ensures
        lineage_within(rows, id, m) == lineage_within(rows, id, n),
    decreases n,
{
    match peek(rows, id).parent {
        None => {},
        Some(p) => {
            ended_walk(rows, p, (n - 1) as nat, (m - 1) as nat);
        },
    }
}

/// The ranks along a walk descend, and everything on a walk of more than one step is a row.
proof fn walk_descends<S: Scalar>(
    rows: Seq<NodeModel<S>>,
    rank: spec_fn(u64) -> nat,
    id: u64,
    n: nat,
)
    requires
        grouped_well(rows),
        ranked(rows, rank),
        has_row(rows, id),
    ensures
        forall|i: int|
            0 <= i < lineage_within(rows, id, n).len() ==> has_row(
                rows,
                #[trigger] lineage_within(rows, id, n)[i],
            ) && rank(lineage_within(rows, id, n)[i]) + i <= rank(id),
        forall|i: int, j: int|
            #![trigger lineage_within(rows, id, n)[i], lineage_within(rows, id, n)[j]]
            0 <= i < j < lineage_within(rows, id, n).len() ==> rank(
                lineage_within(rows, id, n)[j],
            ) < rank(lineage_within(rows, id, n)[i]),
        lineage_within(rows, id, n).len() <= n,
    decreases n,
{
    if n > 0 {
        match peek(rows, id).parent {
            None => {},
            Some(p) => {
                walk_descends(rows, rank, p, (n - 1) as nat);
                let w = lineage_within(rows, id, n);
                let v = lineage_within(rows, p, (n - 1) as nat);
                assert forall|i: int| 0 <= i < w.len() implies has_row(rows, #[trigger] w[i])
                    && rank(w[i]) + i <= rank(id) by {
                    if i > 0 {
                        assert(w[i] == v[i - 1]);
                    }
                }
                assert forall|i: int, j: int|
                    #![trigger w[i], w[j]]
                    0 <= i < j < w.len() implies rank(w[j]) < rank(w[i]) by {
                    assert(w[j] == v[j - 1]);
                    if i > 0 {
                        assert(w[i] == v[i - 1]);
                    }
                }
            },
        }
    }
}

/// Distinct ids of rows are no more than the rows.
pub proof fn pigeonhole<S: Scalar>(rows: Seq<NodeModel<S>>, ids: Seq<u64>)
    requires
        forall|i: int| 0 <= i < ids.len() ==> has_row(rows, #[trigger] ids[i]),
        ids.no_duplicates(),
    ensures
        ids.len() <= rows.len(),
{
    let all = rows.map_values(|n: NodeModel<S>| n.id);
    ids.unique_seq_to_set();
    all.lemma_cardinality_of_set();
    assert(ids.to_set().subset_of(all.to_set())) by {
        assert forall|x: u64| ids.to_set().contains(x) implies all.to_set().contains(x) by {
            let i = choose|i: int| 0 <= i < ids.len() && ids[i] == x;
            assert(has_row(rows, ids[i]));
            let s = slot(rows, x);
            assert(rows[s].id == x);
            assert(all[s] == x);
        }
    }
    vstd::set_lib::lemma_len_subset(ids.to_set(), all.to_set());
}

/// Every walk up a forest ends, within as many steps as there are rows.
proof fn walks_end<S: Scalar>(rows: Seq<NodeModel<S>>, id: u64)
    requires
        forest(rows),
    ensures
        lineage(rows, id).len() < reach(rows) || rows.len() == 0,
        lineage(rows, id).len() >= 1,
{
    let w = lineage(rows, id);
    if has_row(rows, id) {
        let rank = choose|rank: spec_fn(u64) -> nat| ranked(rows, rank);
        walk_descends(rows, rank, id, reach(rows));
        assert(w.no_duplicates()) by {
            assert forall|i: int, j: int|
                0 <= i < w.len() && 0 <= j < w.len() && i != j implies w[i] != w[j] by {
                if i < j {
                    assert(rank(w[j]) < rank(w[i]));
                } else {
                    assert(rank(w[i]) < rank(w[j]));
                }
            }
        }
        pigeonhole(rows, w);
    }
}

/// In a forest, what a node is inside of is itself and what its group is inside of.
pub proof fn lineage_goes_by_parents<S: Scalar>(rows: Seq<NodeModel<S>>, id: u64)
    requires
        forest(rows),
    ensures
        lineage(rows, id) == match peek(rows, id).parent {
            None => seq![id],
            Some(p) => seq![id] + lineage(rows, p),
        },
        forall|a: u64| #[trigger]
            lineage(rows, id).contains(a) <==> a == id || (peek(rows, id).parent matches Some(p)
                && lineage(rows, p).contains(a)),
{
    walks_end(rows, id);
    let w = lineage(rows, id);
    match peek(rows, id).parent {
        None => {},
        Some(p) => {
            assert(has_row(rows, id));
            let n = rows.len() as nat;
            let v = lineage_within(rows, p, n);
            assert(w == seq![id] + v);
            assert(v.len() < n);
            ended_walk(rows, p, n, n + 1);
        },
    }
    assert(w[0] == id);
    assert forall|a: u64| #[trigger] w.contains(a) <==> a == id || (peek(rows, id).parent matches Some(
        p,
    ) && lineage(rows, p).contains(a)) by {
        match peek(rows, id).parent {
            None => {
                if w.contains(a) {
                    let i = choose|i: int| 0 <= i < w.len() && w[i] == a;
                }
            },
            Some(p) => {
                let v = lineage(rows, p);
                if w.contains(a) && a != id {
                    let i = choose|i: int| 0 <= i < w.len() && w[i] == a;
                    assert(v[i - 1] == a);
                }
                if v.contains(a) {
                    let i = choose|i: int| 0 <= i < v.len() && v[i] == a;
                    assert(w[i + 1] == a);
                }
            },
        }
    }
}

/// In a forest every node is inside a top-level node, or is one: the walk up ends at a node
/// without a parent.
pub proof fn walks_end_at_the_top<S: Scalar>(rows: Seq<NodeModel<S>>, id: u64)
    requires
        forest(rows),
    ensures
        lineage(rows, id).len() > 0,
        lineage(rows, id)[0] == id,
        peek(rows, lineage(rows, id).last()).parent is None,
{
    let rank = choose|rank: spec_fn(u64) -> nat| ranked(rows, rank);
    tops_out(rows, rank, id);
}

proof fn tops_out<S: Scalar>(rows: Seq<NodeModel<S>>, rank: spec_fn(u64) -> nat, id: u64)
    requires
        forest(rows),
        ranked(rows, rank),
    ensures
        lineage(rows, id).len() > 0,
        lineage(rows, id)[0] == id,
        peek(rows, lineage(rows, id).last()).parent is None,
    decreases rank(id),
{
    lineage_goes_by_parents(rows, id);
    match peek(rows, id).parent {
        None => {},
        Some(p) => {
            assert(has_row(rows, id));
            tops_out(rows, rank, p);
            let w = lineage(rows, id);
            let v = lineage(rows, p);
            assert(w.last() == v.last());
        },
    }
}

// ---------------------------------------------------------------------------
// Edits that leave the tree alone
// ---------------------------------------------------------------------------

/// Whether two tables have the same ids, parents and kinds.
pub open spec fn same_tree<S: Scalar>(a: Seq<NodeModel<S>>, b: Seq<NodeModel<S>>) -> bool {
    &&& a.len() == b.len()
    &&& forall|i: int|
        0 <= i < a.len() ==> (#[trigger] a[i]).id == b[i].id && a[i].parent == b[i].parent
            && a[i].kind == b[i].kind
}

proof fn same_tree_joins<S: Scalar>(
    a: Seq<NodeModel<S>>,
    b: Seq<NodeModel<S>>,
    c: Seq<NodeModel<S>>,
)
    requires
        same_tree(a, b),
        same_tree(b, c),
    ensures
        same_tree(a, c),
{
    assert forall|i: int| 0 <= i < a.len() implies (#[trigger] a[i]).id == c[i].id && a[i].parent
        == c[i].parent && a[i].kind == c[i].kind by {
        assert(b[i].id == c[i].id);
    }
}

/// Rows of the same tree, seen by id.
pub proof fn same_tree_peeks<S: Scalar>(a: Seq<NodeModel<S>>, b: Seq<NodeModel<S>>)
    requires
        same_tree(a, b),
        distinct(a),
    ensures
        distinct(b),
        forall|x: u64| #[trigger] has_row(a, x) <==> has_row(b, x),
        forall|x: u64| (#[trigger] peek(a, x)).parent == peek(b, x).parent,
        forall|x: u64| (#[trigger] peek(a, x)).kind == peek(b, x).kind,
{
    assert forall|i: int, j: int|
        #![trigger b[i], b[j]]
        0 <= i < j < b.len() implies b[i].id != b[j].id by {
        assert(a[i].id == b[i].id && a[j].id == b[j].id);
    }
    assert forall|x: u64| #[trigger] has_row(a, x) <==> has_row(b, x) by {
        if has_row(a, x) {
            let s = slot(a, x);
            assert(a[s].id == x);
            assert(b[s].id == x);
        }
        if has_row(b, x) {
            let s = slot(b, x);
            assert(b[s].id == x);
            assert(a[s].id == x);
        }
    }
    assert forall|x: u64|
        (#[trigger] peek(a, x)).parent == peek(b, x).parent && peek(a, x).kind == peek(
            b,
            x,
        ).kind by {
        assert(has_row(a, x) <==> has_row(b, x));
        if has_row(a, x) {
            let s = slot(a, x);
            assert(a[s].id == x);
            slot_is_unique(b, s);
            assert(b[s].id == x);
        }
    }
}

/// An edit that leaves ids, parents and kinds alone keeps the forest.
pub proof fn same_tree_keeps_the_forest<S: Scalar>(a: Seq<NodeModel<S>>, b: Seq<NodeModel<S>>)
    requires
        same_tree(a, b),
        forest(a),
    ensures
        forest(b),
{
    same_tree_peeks(a, b);
    let rank = choose|rank: spec_fn(u64) -> nat| ranked(a, rank);
    assert forall|id: u64| has_row(b, id) implies (#[trigger] peek(b, id).parent matches Some(p) ==> has_row(
        b,
        p,
    ) && peek(b, p).kind == NodeKind::Group) by {
        assert(has_row(a, id));
        assert(peek(a, id).parent == peek(b, id).parent);
        if peek(a, id).parent is Some {
            let p = peek(a, id).parent->0;
            assert(has_row(a, p) <==> has_row(b, p));
            assert(peek(a, p).kind == peek(b, p).kind);
        }
    }
    assert(ranked(b, rank)) by {
        assert forall|id: u64| has_row(b, id) implies (#[trigger] peek(b, id).parent matches Some(
            p,
        ) ==> rank(p) < rank(id)) by {
            assert(has_row(a, id));
            assert(peek(a, id).parent == peek(b, id).parent);
        }
    }
}

/// Whether a column is neither the parent nor the kind.
pub open spec fn cosmetic<S>(f: FieldModel<S>) -> bool {
    !(f is Parent) && !(f is Kind)
}

/// A write of any column but the parent and the kind leaves the tree alone.
pub proof fn cosmetic_writes_keep_the_tree<S: Scalar>(
    rows: Seq<NodeModel<S>>,
    id: u64,
    f: FieldModel<S>,
)
    requires
        cosmetic(f),
    ensures
        same_tree(rows, written(rows, id, f)),
{
    if has_row(rows, id) {
        let k = slot(rows, id);
        assert(rows[k].id == id);
        let w = written(rows, id, f);
        assert forall|i: int| 0 <= i < rows.len() implies (#[trigger] rows[i]).id == w[i].id
            && rows[i].parent == w[i].parent && rows[i].kind == w[i].kind by {
            if i == k {
                assert(w[i] == with_field(rows[k], f));
            }
        }
    }
}

/// Dragging leaves the tree alone.
pub proof fn dragging_keeps_the_tree<S: Scalar>(rows: Seq<NodeModel<S>>, puts: Seq<Put<S>>)
    ensures
        same_tree(rows, put_each(rows, puts)),
    decreases puts.len(),
{
    if puts.len() > 0 {
        dragging_keeps_the_tree(rows, puts.drop_last());
        let r = put_each(rows, puts.drop_last());
        let p = puts.last();
        cosmetic_writes_keep_the_tree(r, p.id, side_field(p.side, p.value));
        same_tree_joins(rows, r, put_each(rows, puts));
    }
}

/// Nudging leaves the tree alone.
pub proof fn nudging_keeps_the_tree<S: Scalar>(
    rows: Seq<NodeModel<S>>,
    ids: Seq<u64>,
    dx: S,
    dy: S,
)
    ensures
        same_tree(rows, shifted_each(rows, ids, dx, dy)),
    decreases ids.len(),
{
    if ids.len() > 0 {
        nudging_keeps_the_tree(rows, ids.drop_last(), dx, dy);
        let r = shifted_each(rows, ids.drop_last(), dx, dy);
        let id = ids.last();
        let f = FieldModel::X(peek(r, id).x.plus(dx));
        let r1 = if dx.equals(S::of_int(0)) {
            r
        } else {
            written(r, id, f)
        };
        cosmetic_writes_keep_the_tree(r, id, f);
        cosmetic_writes_keep_the_tree(r1, id, FieldModel::Y(peek(r1, id).y.plus(dy)));
        same_tree_joins(rows, r, r1);
        same_tree_joins(rows, r1, shifted_each(rows, ids, dx, dy));
    }
}

/// Moving leaves the tree alone.
pub proof fn moving_keeps_the_tree<S: Scalar>(
    rows: Seq<NodeModel<S>>,
    ids: Seq<u64>,
    dx: S,
    dy: S,
)
    ensures
        same_tree(rows, moved_each(rows, ids, dx, dy)),
    decreases ids.len(),
{
    if ids.len() > 0 {
        moving_keeps_the_tree(rows, ids.drop_last(), dx, dy);
        let r = moved_each(rows, ids.drop_last(), dx, dy);
        let id = ids.last();
        let f = FieldModel::X(peek(r, id).x.plus(dx));
        let r1 = written(r, id, f);
        let g = FieldModel::Y(peek(r1, id).y.plus(dy));
        cosmetic_writes_keep_the_tree(r, id, f);
        cosmetic_writes_keep_the_tree(r1, id, g);
        same_tree_joins(rows, r, r1);
        same_tree_joins(rows, r1, written(r1, id, g));
    }
}

/// Turning shapes about a point leaves the tree alone.
pub proof fn orbiting_keeps_the_tree<S: Scalar>(
    rows: Seq<NodeModel<S>>,
    ids: Seq<u64>,
    c: crate::geometry::Point<S>,
    delta: S,
)
    ensures
        same_tree(rows, orbited_each(rows, ids, c, delta)),
    decreases ids.len(),
{
    if ids.len() > 0 {
        orbiting_keeps_the_tree(rows, ids.drop_last(), c, delta);
        let r = orbited_each(rows, ids.drop_last(), c, delta);
        one_orbit_keeps_the_tree(r, ids.last(), c, delta);
        same_tree_joins(rows, r, orbited_each(rows, ids, c, delta));
    }
}

proof fn one_orbit_keeps_the_tree<S: Scalar>(
    rows: Seq<NodeModel<S>>,
    id: u64,
    c: crate::geometry::Point<S>,
    delta: S,
)
    ensures
        same_tree(rows, orbited(rows, id, c, delta)),
{
    assert(same_tree(rows, rows));
    assert forall|b: Seq<NodeModel<S>>, f: FieldModel<S>|
        same_tree(rows, b) && cosmetic(f) implies same_tree(
        rows,
        #[trigger] written(b, id, f),
    ) by {
        cosmetic_writes_keep_the_tree(b, id, f);
        same_tree_joins(rows, b, written(b, id, f));
    }
}

/// Turning leaves the tree alone.
pub proof fn turning_keeps_the_tree<S: Scalar>(rows: Seq<NodeModel<S>>, id: u64, angle: S)
    ensures
        same_tree(rows, turned_to(rows, id, angle)),
{
    let f = FieldModel::Rotation(angle);
    cosmetic_writes_keep_the_tree(rows, id, f);
    let n = peek(rows, id);
    let ids = crate::scene::shapes(rows, id);
    let c = crate::motion::pivot(rows, ids);
    let delta = angle.minus(n.rotation);
    one_orbit_keeps_the_tree(rows, id, crate::geometry::center((n.x, n.y, n.w, n.h)), delta);
    orbiting_keeps_the_tree(rows, ids, c, delta);
    let r = orbited_each(rows, ids, c, delta);
    cosmetic_writes_keep_the_tree(r, id, f);
    same_tree_joins(rows, r, written(r, id, f));
}

/// Setting a typed property leaves the tree alone.
pub proof fn typing_keeps_the_tree<S: Scalar>(
    rows: Seq<NodeModel<S>>,
    ids: Seq<u64>,
    prop: Prop,
    v: S,
)
    ensures
        same_tree(rows, prop_set_each(rows, ids, prop, v)),
    decreases ids.len(),
{
    if ids.len() > 0 {
        typing_keeps_the_tree(rows, ids.drop_last(), prop, v);
        let r = prop_set_each(rows, ids.drop_last(), prop, v);
        let id = ids.last();
        assert forall|dx: S, dy: S| same_tree(
            r,
            #[trigger] moved_each(r, crate::scene::shapes(r, id), dx, dy),
        ) by {
            moving_keeps_the_tree(r, crate::scene::shapes(r, id), dx, dy);
        }
        assert forall|f: FieldModel<S>| cosmetic(f) implies same_tree(
            r,
            #[trigger] written(r, id, f),
        ) by {
            cosmetic_writes_keep_the_tree(r, id, f);
        }
        same_tree_joins(rows, r, prop_set_each(rows, ids, prop, v));
    }
}

/// Styling leaves the tree alone.
pub proof fn styling_keeps_the_tree<S: Scalar>(
    rows: Seq<NodeModel<S>>,
    ids: Seq<u64>,
    num: StyleNum,
    v: S,
)
    ensures
        same_tree(rows, style_set_each(rows, ids, num, v)),
    decreases ids.len(),
{
    if ids.len() > 0 {
        styling_keeps_the_tree(rows, ids.drop_last(), num, v);
        let r = style_set_each(rows, ids.drop_last(), num, v);
        let id = ids.last();
        turning_keeps_the_tree(r, id, v.wrapped(S::of_int(360)));
        assert forall|f: FieldModel<S>| cosmetic(f) implies same_tree(
            r,
            #[trigger] written(r, id, f),
        ) by {
            cosmetic_writes_keep_the_tree(r, id, f);
        }
        same_tree_joins(rows, r, style_set_each(rows, ids, num, v));
    }
}

/// Colouring leaves the tree alone.
pub proof fn colouring_keeps_the_tree<S: Scalar>(
    rows: Seq<NodeModel<S>>,
    ids: Seq<u64>,
    which: StyleColor,
    hex: Seq<char>,
)
    ensures
        same_tree(rows, color_set_each(rows, ids, which, hex)),
    decreases ids.len(),
{
    if ids.len() > 0 {
        colouring_keeps_the_tree(rows, ids.drop_last(), which, hex);
        let r = color_set_each(rows, ids.drop_last(), which, hex);
        let id = ids.last();
        cosmetic_writes_keep_the_tree(r, id, FieldModel::Fill(hex));
        cosmetic_writes_keep_the_tree(r, id, FieldModel::Stroke(hex));
        same_tree_joins(rows, r, color_set_each(rows, ids, which, hex));
    }
}

proof fn renumbering_keeps_the_tree<S: Scalar>(rows: Seq<NodeModel<S>>, ids: Seq<u64>)
    ensures
        same_tree(rows, renumbered(rows, ids)),
    decreases ids.len(),
{
    if ids.len() > 0 {
        renumbering_keeps_the_tree(rows, ids.drop_last());
        let r = renumbered(rows, ids.drop_last());
        let f = FieldModel::Z(crate::ops::count_spec::<S>(ids.len() as int));
        cosmetic_writes_keep_the_tree(r, ids.last(), f);
        same_tree_joins(rows, r, renumbered(rows, ids));
    }
}

proof fn resting_keeps_the_tree<S: Scalar>(
    rows: Seq<NodeModel<S>>,
    group: u64,
    id: u64,
    at: int,
)
    ensures
        same_tree(rows, rested_in_group(rows, group, id, at)),
{
    let rest = others(children(rows, Some(group)), id);
    renumbering_keeps_the_tree(rows, rest);
    let r = renumbered(rows, rest);
    assert forall|z: S| same_tree(rows, #[trigger] written(rows, id, FieldModel::Z(z))) by {
        cosmetic_writes_keep_the_tree(rows, id, FieldModel::Z(z));
    }
    assert forall|z: S| same_tree(rows, #[trigger] written(r, id, FieldModel::Z(z))) by {
        cosmetic_writes_keep_the_tree(r, id, FieldModel::Z(z));
        same_tree_joins(rows, r, written(r, id, FieldModel::Z(z)));
    }
}

/// Arranging leaves the tree alone: a node moves among its own siblings.
pub proof fn arranging_keeps_the_tree<S: Scalar>(
    rows: Seq<NodeModel<S>>,
    ids: Seq<u64>,
    op: Arrange,
)
    ensures
        same_tree(rows, arranged_each(rows, ids, op)),
    decreases ids.len(),
{
    if ids.len() > 0 {
        arranging_keeps_the_tree(rows, ids.drop_last(), op);
        let r = arranged_each(rows, ids.drop_last(), op);
        let id = ids.last();
        assert forall|g: u64, at: int| same_tree(
            r,
            #[trigger] rested_in_group(r, g, id, at),
        ) by {
            resting_keeps_the_tree(r, g, id, at);
        }
        assert forall|z: S| same_tree(r, #[trigger] written(r, id, FieldModel::Z(z))) by {
            cosmetic_writes_keep_the_tree(r, id, FieldModel::Z(z));
        }
        same_tree_joins(rows, r, arranged_each(rows, ids, op));
    }
}

// ---------------------------------------------------------------------------
// Edits of the tree
// ---------------------------------------------------------------------------

/// Placing a node keeps the forest, at the top level or in a group that is there.
pub proof fn placing_keeps_the_forest<S: Scalar>(rows: Seq<NodeModel<S>>, n: NodeModel<S>)
    requires
        forest(rows),
        !has_row(rows, n.id),
        n.parent matches Some(p) ==> has_row(rows, p) && peek(rows, p).kind == NodeKind::Group,
    ensures
        forest(rows.push(n)),
{
    let w = rows.push(n);
    pushed_peeks(rows, n);
    let rank = choose|rank: spec_fn(u64) -> nat| ranked(rows, rank);
    let above = match n.parent {
        Some(p) => rank(p) + 1,
        None => 0,
    };
    let rank2 = |x: u64|
        if x == n.id {
            above
        } else {
            rank(x)
        };
    assert forall|id: u64| has_row(w, id) implies (#[trigger] peek(w, id).parent matches Some(p) ==> has_row(
        w,
        p,
    ) && peek(w, p).kind == NodeKind::Group && rank2(p) < rank2(id)) by {
        if id == n.id {
            if n.parent is Some {
                let p = n.parent->0;
                assert(p != n.id);
                assert(has_row(w, p) <==> has_row(rows, p));
                assert(peek(w, p) == peek(rows, p));
            }
        } else {
            assert(has_row(w, id) <==> has_row(rows, id));
            assert(peek(w, id) == peek(rows, id));
            if peek(rows, id).parent is Some {
                let p = peek(rows, id).parent->0;
                assert(has_row(rows, p));
                assert(p != n.id);
                assert(has_row(w, p) <==> has_row(rows, p));
                assert(peek(w, p) == peek(rows, p));
            }
        }
    }
    assert(ranked(w, rank2));
}

/// A new parent keeps the forest, where it is none, or a group that is not inside the node.
pub proof fn adopting_keeps_the_forest<S: Scalar>(
    rows: Seq<NodeModel<S>>,
    id: u64,
    parent: Option<u64>,
)
    requires
        forest(rows),
        parent matches Some(p) ==> has_row(rows, p) && peek(rows, p).kind == NodeKind::Group
            && !lineage(rows, p).contains(id),
    ensures
        forest(written(rows, id, FieldModel::Parent(parent))),
{
    let w = written(rows, id, FieldModel::Parent(parent));
    written_peeks(rows, id, FieldModel::Parent(parent));
    if has_row(rows, id) {
        let rank = choose|rank: spec_fn(u64) -> nat| ranked(rows, rank);
        let lift = match parent {
            Some(p) => rank(p) + 1,
            None => 0,
        };
        let rank2 = |x: u64|
            if lineage(rows, x).contains(id) {
                rank(x) + lift
            } else {
                rank(x)
            };
        assert forall|x: u64| has_row(w, x) implies (#[trigger] peek(w, x).parent matches Some(p) ==> has_row(
            w,
            p,
        ) && peek(w, p).kind == NodeKind::Group && rank2(p) < rank2(x)) by {
            assert(has_row(w, x) <==> has_row(rows, x));
            lineage_goes_by_parents(rows, x);
            if x == id {
                if parent is Some {
                    let p = parent->0;
                    assert(has_row(w, p) <==> has_row(rows, p));
                    lineage_goes_by_parents(rows, p);
                    assert(lineage(rows, p).contains(p));
                    assert(p != id);
                    assert(peek(w, p) == peek(rows, p));
                }
            } else {
                assert(peek(w, x) == peek(rows, x));
                if peek(rows, x).parent is Some {
                    let p = peek(rows, x).parent->0;
                    assert(has_row(w, p) <==> has_row(rows, p));
                    assert(peek(w, p).kind == peek(rows, p).kind) by {
                        if p != id {
                            assert(peek(w, p) == peek(rows, p));
                        }
                    }
                    assert(rank(p) < rank(x));
                }
            }
        }
        assert(ranked(w, rank2));
    }
}

/// Moving a node between groups keeps the forest: only groups take members, and no node moves
/// into its own subtree.
pub proof fn reparenting_keeps_the_forest<S: Scalar>(
    rows: Seq<NodeModel<S>>,
    id: u64,
    new_parent: Option<u64>,
    index: Option<int>,
)
    requires
        forest(rows),
    ensures
        forest(reparented(rows, id, new_parent, index)),
{
    if may_reparent(rows, id, new_parent) {
        adopting_keeps_the_forest(rows, id, new_parent);
        let r = crate::order::adopted_by(rows, id, new_parent);
        assert(forest(r));
        let w = reparented(rows, id, new_parent, index);
        match new_parent {
            Some(p) => {
                let at = crate::layers::drop_slot(
                    children(rows, new_parent),
                    id,
                    peek(rows, id).parent == new_parent,
                    index,
                );
                resting_keeps_the_tree(r, p, id, at);
                same_tree_keeps_the_forest(r, w);
            },
            None => {
                assert forall|z: S| same_tree(r, #[trigger] written(r, id, FieldModel::Z(z))) by {
                    cosmetic_writes_keep_the_tree(r, id, FieldModel::Z(z));
                }
                same_tree_keeps_the_forest(r, w);
            },
        }
    }
}

/// Taking nodes out of their groups keeps the forest.
pub proof fn surfacing_keeps_the_forest<S: Scalar>(rows: Seq<NodeModel<S>>, ids: Seq<u64>)
    requires
        forest(rows),
    ensures
        forest(surfaced_each(rows, ids)),
    decreases ids.len(),
{
    if ids.len() > 0 {
        surfacing_keeps_the_forest(rows, ids.drop_last());
        reparenting_keeps_the_forest(
            surfaced_each(rows, ids.drop_last()),
            ids.last(),
            None,
            None,
        );
    }
}

/// What a filter by id leaves.
proof fn filtered_peeks<S: Scalar>(rows: Seq<NodeModel<S>>, keep: spec_fn(NodeModel<S>) -> bool)
    requires
        distinct(rows),
    ensures
        distinct(rows.filter(keep)),
        forall|x: u64| #[trigger]
            has_row(rows.filter(keep), x) <==> has_row(rows, x) && keep(peek(rows, x)),
        forall|x: u64|
            has_row(rows.filter(keep), x) ==> #[trigger] peek(rows.filter(keep), x) == peek(
                rows,
                x,
            ),
    decreases rows.len(),
{
    reveal(Seq::filter);
    let f = rows.filter(keep);
    filtered_is_distinct(rows, keep);
    if rows.len() == 0 {
        assert(f =~= rows);
    } else {
        let front = rows.drop_last();
        let last = rows.last();
        assert(distinct(front)) by {
            assert forall|i: int, j: int|
                #![trigger front[i], front[j]]
                0 <= i < j < front.len() implies front[i].id != front[j].id by {
                assert(front[i] == rows[i] && front[j] == rows[j]);
            }
        }
        filtered_peeks(front, keep);
        let g = front.filter(keep);
        assert(!has_row(front, last.id)) by {
            if has_row(front, last.id) {
                let s = slot(front, last.id);
                assert(front[s] == rows[s]);
                assert(rows[rows.len() - 1] == last);
            }
        }
        assert(front.push(last) =~= rows);
        pushed_peeks(front, last);
        if keep(last) {
            assert(!has_row(g, last.id));
            pushed_peeks(g, last);
        }
        assert forall|x: u64| #[trigger] has_row(f, x) <==> has_row(rows, x) && keep(
            peek(rows, x),
        ) by {
            if x != last.id {
                assert(has_row(rows, x) <==> has_row(front, x));
                assert(peek(rows, x) == peek(front, x));
                assert(has_row(g, x) <==> has_row(front, x) && keep(peek(front, x)));
                if keep(last) {
                    assert(has_row(f, x) <==> has_row(g, x));
                }
            }
        }
        assert forall|x: u64| has_row(f, x) implies #[trigger] peek(f, x) == peek(rows, x) by {
            if x != last.id {
                assert(peek(rows, x) == peek(front, x));
                if keep(last) {
                    assert(has_row(f, x) <==> has_row(g, x));
                    assert(peek(f, x) == peek(g, x));
                }
            }
        }
    }
}

/// Deleting a node takes its whole subtree with it, and nothing else: what is left is every row
/// that was not inside it, unchanged.
pub proof fn deleting_takes_the_subtree<S: Scalar>(rows: Seq<NodeModel<S>>, id: u64)
    requires
        distinct(rows),
        has_row(rows, id),
    ensures
        distinct(removed(rows, id)),
        forall|x: u64| #[trigger]
            has_row(removed(rows, id), x) <==> has_row(rows, x) && !lineage(rows, x).contains(id),
        forall|x: u64|
            has_row(removed(rows, id), x) ==> #[trigger] peek(removed(rows, id), x) == peek(
                rows,
                x,
            ),
{
    let keep = |n: NodeModel<S>| !lineage(rows, n.id).contains(id);
    filtered_peeks(rows, keep);
    assert forall|x: u64| has_row(rows, x) implies (#[trigger] peek(rows, x)).id == x by {
        let s = slot(rows, x);
        assert(rows[s].id == x);
    }
    let w = removed(rows, id);
    assert forall|x: u64| #[trigger] has_row(w, x) <==> has_row(rows, x) && !lineage(
        rows,
        x,
    ).contains(id) by {
        if has_row(rows, x) {
            assert(peek(rows, x).id == x);
        }
    }
}

/// Deleting keeps the forest: no node is left without its group.
pub proof fn deleting_keeps_the_forest<S: Scalar>(rows: Seq<NodeModel<S>>, id: u64)
    requires
        forest(rows),
    ensures
        forest(removed(rows, id)),
{
    if has_row(rows, id) {
        let w = removed(rows, id);
        deleting_takes_the_subtree(rows, id);
        let rank = choose|rank: spec_fn(u64) -> nat| ranked(rows, rank);
        assert forall|x: u64| has_row(w, x) implies (#[trigger] peek(w, x).parent matches Some(p) ==> has_row(
            w,
            p,
        ) && peek(w, p).kind == NodeKind::Group && rank(p) < rank(x)) by {
            assert(has_row(rows, x) && !lineage(rows, x).contains(id));
            assert(peek(w, x) == peek(rows, x));
            lineage_goes_by_parents(rows, x);
            if peek(rows, x).parent is Some {
                let p = peek(rows, x).parent->0;
                assert(has_row(rows, p));
                assert(!lineage(rows, p).contains(id));
                assert(has_row(w, p));
                assert(peek(w, p) == peek(rows, p));
            }
        }
        assert(ranked(w, rank));
    }
}

/// Deleting several nodes keeps the forest.
pub proof fn deleting_each_keeps_the_forest<S: Scalar>(rows: Seq<NodeModel<S>>, ids: Seq<u64>)
    requires
        forest(rows),
    ensures
        forest(removed_each(rows, ids)),
    decreases ids.len(),
{
    if ids.len() > 0 {
        deleting_each_keeps_the_forest(rows, ids.drop_last());
        deleting_keeps_the_forest(removed_each(rows, ids.drop_last()), ids.last());
    }
}

/// Adopting into a top-level group, one by one.
proof fn adopting_each_keeps_the_forest<S: Scalar>(
    rows: Seq<NodeModel<S>>,
    group: u64,
    ids: Seq<u64>,
)
    requires
        forest(rows),
        has_row(rows, group),
        peek(rows, group).kind == NodeKind::Group,
        peek(rows, group).parent is None,
        !ids.contains(group),
    ensures
        forest(adopted(rows, group, ids)),
        has_row(adopted(rows, group, ids), group),
        peek(adopted(rows, group, ids), group) == peek(rows, group),
    decreases ids.len(),
{
    if ids.len() > 0 {
        let front = ids.drop_last();
        let id = ids.last();
        assert(ids[ids.len() - 1] == id);
        assert(id != group);
        assert(!front.contains(group)) by {
            if front.contains(group) {
                let i = choose|i: int| 0 <= i < front.len() && front[i] == group;
                assert(ids[i] == group);
            }
        }
        adopting_each_keeps_the_forest(rows, group, front);
        let r = adopted(rows, group, front);
        lineage_goes_by_parents(r, group);
        assert(!lineage(r, group).contains(id));
        adopting_keeps_the_forest(r, id, Some(group));
        written_peeks(r, id, FieldModel::Parent(Some(group)));
        let w = written(r, id, FieldModel::Parent(Some(group)));
        assert(has_row(w, group) <==> has_row(r, group));
        let f = FieldModel::Z(
            crate::ops::count_spec::<S>(ids.len() - 1).plus(S::of_int(1)),
        );
        cosmetic_writes_keep_the_tree(w, id, f);
        same_tree_keeps_the_forest(w, written(w, id, f));
        written_peeks(w, id, f);
        assert(has_row(written(w, id, f), group) <==> has_row(w, group));
    }
}

/// Grouping keeps the forest, where what is grouped does not name the id that the new group
/// will have.
pub proof fn grouping_keeps_the_forest<S: Scalar>(rows: Seq<NodeModel<S>>, ids: Seq<u64>)
    requires
        forest(rows),
        highest_id(rows) < u64::MAX,
        !ids.contains((highest_id(rows) + 1) as u64),
    ensures
        forest(grouped(rows, ids)),
{
    let gid = (highest_id(rows) + 1) as u64;
    let g = new_group(gid, highest_z(rows, ids));
    fresh_id_is_free(rows, gid);
    placing_keeps_the_forest(rows, g);
    pushed_peeks(rows, g);
    adopting_each_keeps_the_forest(rows.push(g), gid, ids);
}

/// Taking a group's members out to the top level keeps the forest.
pub proof fn releasing_keeps_the_forest<S: Scalar>(rows: Seq<NodeModel<S>>, base: S, ids: Seq<u64>)
    requires
        forest(rows),
    ensures
        forest(released(rows, base, ids)),
    decreases ids.len(),
{
    if ids.len() > 0 {
        releasing_keeps_the_forest(rows, base, ids.drop_last());
        let r = released(rows, base, ids.drop_last());
        let id = ids.last();
        adopting_keeps_the_forest(r, id, None);
        let w = written(r, id, FieldModel::Parent(None));
        let f = FieldModel::Z(
            base.plus(
                crate::ops::count_spec::<S>(ids.len() - 1).plus(S::of_int(1)).over(
                    S::of_int(1024),
                ),
            ),
        );
        cosmetic_writes_keep_the_tree(w, id, f);
        same_tree_keeps_the_forest(w, written(w, id, f));
    }
}

/// Ungrouping keeps the forest.
pub proof fn ungrouping_keeps_the_forest<S: Scalar>(rows: Seq<NodeModel<S>>, ids: Seq<u64>)
    requires
        forest(rows),
    ensures
        forest(ungrouped(rows, ids).0),
    decreases ids.len(),
{
    if ids.len() > 0 {
        ungrouping_keeps_the_forest(rows, ids.drop_last());
        let r = ungrouped(rows, ids.drop_last()).0;
        let id = ids.last();
        let members = children(r, Some(id));
        releasing_keeps_the_forest(r, peek(r, id).z, members);
        deleting_keeps_the_forest(released(r, peek(r, id).z, members), id);
    }
}

/// Pasting one tree keeps the forest, and takes ids in a row.
pub proof fn planting_keeps_the_forest<S: Scalar>(
    rows: Seq<NodeModel<S>>,
    t: TreeModel<S>,
    parent: Option<u64>,
    z: S,
    offset: S,
    next: int,
)
    requires
        forest(rows),
        highest_id(rows) < next,
        next + size(t) <= u64::MAX,
        parent matches Some(p) ==> has_row(rows, p) && peek(rows, p).kind == NodeKind::Group,
    ensures
        forest(planted(rows, t, parent, z, offset, next)),
        highest_id(planted(rows, t, parent, z, offset, next)) < next + size(t),
        kept(rows, planted(rows, t, parent, z, offset, next)),
    decreases t, 0nat,
{
    let id = next as u64;
    fresh_id_is_free(rows, id);
    match t {
        TreeModel::Shape(s) => {
            let n = pasted_shape(s, id, parent, z, offset);
            placing_keeps_the_forest(rows, n);
            pushed_raises_highest(rows, n);
            pushed_keeps(rows, n);
        },
        TreeModel::Group(members) => {
            let n = NodeModel { id, parent, z, kind: NodeKind::Group, ..default_node() };
            placing_keeps_the_forest(rows, n);
            pushed_raises_highest(rows, n);
            pushed_peeks(rows, n);
            pushed_keeps(rows, n);
            planting_members_keeps_the_forest(rows.push(n), members, id, offset, next + 1);
            kept_joins(
                rows,
                rows.push(n),
                planted_members(rows.push(n), members, id, offset, next + 1),
            );
        },
    }
}

proof fn planting_members_keeps_the_forest<S: Scalar>(
    rows: Seq<NodeModel<S>>,
    ts: Seq<TreeModel<S>>,
    group: u64,
    offset: S,
    next: int,
)
    requires
        forest(rows),
        highest_id(rows) < next,
        next + size_each(ts) <= u64::MAX,
        has_row(rows, group),
        peek(rows, group).kind == NodeKind::Group,
    ensures
        forest(planted_members(rows, ts, group, offset, next)),
        highest_id(planted_members(rows, ts, group, offset, next)) < next + size_each(ts),
        kept(rows, planted_members(rows, ts, group, offset, next)),
    decreases ts, 1nat,
{
    if ts.len() > 0 {
        let front = ts.drop_last();
        planting_members_keeps_the_forest(rows, front, group, offset, next);
        let r = planted_members(rows, front, group, offset, next);
        kept_peeks(rows, r, group);
        planting_keeps_the_forest(
            r,
            ts.last(),
            Some(group),
            crate::ops::count_spec::<S>(ts.len() - 1).plus(S::of_int(1)),
            offset,
            next + size_each(front),
        );
        kept_joins(rows, r, planted_members(rows, ts, group, offset, next));
    }
}

/// Pasting keeps the forest, and leaves every row that was there where it was and as it was.
pub proof fn pasting_keeps_the_forest<S: Scalar>(
    rows: Seq<NodeModel<S>>,
    ts: Seq<TreeModel<S>>,
    z: S,
    offset: S,
    next: int,
)
    requires
        forest(rows),
        highest_id(rows) < next,
        next + size_each(ts) <= u64::MAX,
    ensures
        forest(planted_roots(rows, ts, z, offset, next)),
        highest_id(planted_roots(rows, ts, z, offset, next)) < next + size_each(ts),
        kept(rows, planted_roots(rows, ts, z, offset, next)),
    decreases ts.len(),
{
    if ts.len() > 0 {
        let front = ts.drop_last();
        pasting_keeps_the_forest(rows, front, z, offset, next);
        let r = planted_roots(rows, front, z, offset, next);
        planting_keeps_the_forest(
            r,
            ts.last(),
            None,
            raised(z, ts.len()),
            offset,
            next + size_each(front),
        );
        kept_joins(rows, r, planted_roots(rows, ts, z, offset, next));
    }
}

/// Whether every row stays where it was and as it was, and others only come after.
pub open spec fn kept<S>(before: Seq<NodeModel<S>>, after: Seq<NodeModel<S>>) -> bool {
    before.len() <= after.len() && forall|i: int|
        0 <= i < before.len() ==> #[trigger] after[i] == before[i]
}

proof fn pushed_keeps<S: Scalar>(rows: Seq<NodeModel<S>>, n: NodeModel<S>)
    ensures
        kept(rows, rows.push(n)),
{
}

proof fn kept_joins<S: Scalar>(
    a: Seq<NodeModel<S>>,
    b: Seq<NodeModel<S>>,
    c: Seq<NodeModel<S>>,
)
    requires
        kept(a, b),
        kept(b, c),
    ensures
        kept(a, c),
{
    assert forall|i: int| 0 <= i < a.len() implies #[trigger] c[i] == a[i] by {
        assert(b[i] == a[i]);
    }
}

/// A row that was kept reads as it did.
pub proof fn kept_peeks<S: Scalar>(a: Seq<NodeModel<S>>, b: Seq<NodeModel<S>>, id: u64)
    requires
        kept(a, b),
        distinct(b),
        has_row(a, id),
    ensures
        has_row(b, id),
        peek(b, id) == peek(a, id),
{
    let s = slot(a, id);
    assert(a[s].id == id);
    assert(b[s] == a[s]);
    slot_is_unique(b, s);
}

} // verus!
