//! Laws of operations that take each other back: grouping and ungrouping, copying and pasting.
use vstd::prelude::*;
use crate::ancestry::{above, lineages_hold_what_is_above};
use crate::node::{NodeKind, NodeModel};
use crate::ops::{
    adopted, count_spec, fresh_id_is_free, grouped, highest_z, new_group, released, removed,
    ungrouped, ungrouped_one, EditorModel,
};
use crate::order::{entry, pushed_peeks, stack_sorted, written_peeks};
use crate::paste::{
    paste_offset, pasted, pasted_shape, planted_roots, raised, root_ids, size, size_each,
};
use crate::scalar::{numbers_rank, Scalar};
use crate::scene::{
    beneath, children, distinct, has_row, highest_id, peek, reach, slot_is_unique, written,
    FieldModel,
};
use crate::svg::{parsed, worth_keeping, TreeModel};
use crate::svg_write::{topmost_selected, selection_svg};
use crate::travel::{copies_are_one_root_each, copies_read_back, selection_portable, travelled};
use crate::tree::{
    deleting_takes_the_subtree, forest, kept, pasting_keeps_the_forest,
};

verus! {

// ---------------------------------------------------------------------------
// Grouping
// ---------------------------------------------------------------------------

/// The `z` of the `k`-th member of a new group.
pub open spec fn member_z<S: Scalar>(k: int) -> S {
    count_spec::<S>(k).plus(S::of_int(1))
}

/// Whether the first `n` members of a new group are told apart.
pub open spec fn numbered<S: Scalar>(n: int) -> bool {
    forall|i: int, j: int|
        #![trigger member_z::<S>(i), member_z::<S>(j)]
        0 <= i < j < n ==> member_z::<S>(i).below(member_z::<S>(j))
}

/// What adopting leaves: each adopted row has its new parent and place, every other row is
/// unchanged.
pub proof fn adopted_peeks<S: Scalar>(rows: Seq<NodeModel<S>>, group: u64, ids: Seq<u64>)
    requires
        distinct(rows),
        ids.no_duplicates(),
    ensures
        distinct(adopted(rows, group, ids)),
        forall|x: u64| #[trigger] has_row(adopted(rows, group, ids), x) <==> has_row(rows, x),
        forall|x: u64|
            !ids.contains(x) ==> #[trigger] peek(adopted(rows, group, ids), x) == peek(rows, x),
        forall|k: int|
            0 <= k < ids.len() && has_row(rows, ids[k]) ==> peek(
                adopted(rows, group, ids),
                #[trigger] ids[k],
            ) == (NodeModel { parent: Some(group), z: member_z::<S>(k), ..peek(rows, ids[k]) }),
    decreases ids.len(),
{
    if ids.len() > 0 {
        let front = ids.drop_last();
        let id = ids.last();
        assert(front.no_duplicates());
        adopted_peeks(rows, group, front);
        let r = adopted(rows, group, front);
        let f = FieldModel::Parent(Some(group));
        let g = FieldModel::Z(member_z::<S>(ids.len() - 1));
        let r1 = written(r, id, f);
        let w = written(r1, id, g);
        written_peeks(r, id, f);
        written_peeks(r1, id, g);
        assert(ids[ids.len() - 1] == id);
        assert(!front.contains(id)) by {
            if front.contains(id) {
                let i = choose|i: int| 0 <= i < front.len() && front[i] == id;
                assert(ids[i] == ids[ids.len() - 1]);
            }
        }
        assert forall|x: u64| #[trigger] has_row(w, x) <==> has_row(rows, x) by {
            assert(has_row(r1, x) <==> has_row(r, x));
            assert(has_row(r, x) <==> has_row(rows, x));
        }
        assert forall|x: u64| !ids.contains(x) implies #[trigger] peek(w, x) == peek(rows, x) by {
            assert(x != id);
            assert(!front.contains(x)) by {
                if front.contains(x) {
                    let i = choose|i: int| 0 <= i < front.len() && front[i] == x;
                    assert(ids[i] == x);
                }
            }
            assert(peek(r, x) == peek(rows, x));
            assert(peek(r1, x) == peek(r, x));
        }
        assert forall|k: int| 0 <= k < ids.len() && has_row(rows, ids[k]) implies peek(
            w,
            #[trigger] ids[k],
        ) == (NodeModel { parent: Some(group), z: member_z::<S>(k), ..peek(rows, ids[k]) }) by {
            if k < front.len() {
                assert(front[k] == ids[k]);
                assert(ids[k] != id);
                assert(peek(r1, ids[k]) == peek(r, ids[k]));
                assert(peek(w, ids[k]) == peek(r1, ids[k]));
            } else {
                assert(peek(r, id) == peek(rows, id));
                assert(has_row(r, id) <==> has_row(rows, id));
                assert(has_row(r1, id) <==> has_row(r, id));
            }
        }
    }
}

/// Whether ids name distinct rows.
pub open spec fn rows_named<S: Scalar>(rows: Seq<NodeModel<S>>, ids: Seq<u64>) -> bool {
    ids.no_duplicates() && forall|i: int| 0 <= i < ids.len() ==> has_row(rows, #[trigger] ids[i])
}

/// Whether no node names the id of the next new node as its group. In a forest none does.
pub open spec fn nothing_awaits<S: Scalar>(rows: Seq<NodeModel<S>>) -> bool {
    forall|x: u64|
        has_row(rows, x) ==> #[trigger] peek(rows, x).parent != Some((highest_id(rows) + 1) as u64)
}

/// In a forest no node names the id of the next new node as its group.
pub proof fn nothing_in_a_forest_awaits<S: Scalar>(rows: Seq<NodeModel<S>>)
    requires
        forest(rows),
        highest_id(rows) < u64::MAX,
    ensures
        nothing_awaits(rows),
{
    let gid = (highest_id(rows) + 1) as u64;
    fresh_id_is_free(rows, gid);
    assert forall|x: u64| has_row(rows, x) implies #[trigger] peek(rows, x).parent != Some(gid) by {
        if peek(rows, x).parent == Some(gid) {
            assert(has_row(rows, gid));
        }
    }
}

/// A new group's members stand in the order in which they were selected.
pub proof fn groups_stack_as_selected<S: Scalar>(rows: Seq<NodeModel<S>>, ids: Seq<u64>)
    requires
        distinct(rows),
        nothing_awaits(rows),
        rows_named(rows, ids),
        highest_id(rows) < u64::MAX,
        numbered::<S>(ids.len() as int),
    ensures
        children(grouped(rows, ids), Some((highest_id(rows) + 1) as u64)) == ids,
{
    numbers_rank::<S>();
    let gid = (highest_id(rows) + 1) as u64;
    let g = new_group(gid, highest_z(rows, ids));
    fresh_id_is_free(rows, gid);
    pushed_peeks(rows, g);
    let r = rows.push(g);
    adopted_peeks(r, gid, ids);
    let w = grouped(rows, ids);
    assert forall|k: int| 0 <= k < ids.len() implies ids[k] != gid && has_row(
        r,
        #[trigger] ids[k],
    ) by {
        assert(has_row(rows, ids[k]));
        assert(ids[k] != gid);
        assert(has_row(r, ids[k]) <==> has_row(rows, ids[k]));
    }
    let s = Seq::new(ids.len(), |i: int| entry(w, ids[i]));
    assert forall|k: int| 0 <= k < ids.len() implies #[trigger] entry(w, ids[k]) == (
        member_z::<S>(k),
        ids[k],
    ) by {
        assert(has_row(r, ids[k]));
    }
    assert(stack_sorted(s)) by {
        assert forall|i: int, j: int|
            #![trigger s[i], s[j]]
            0 <= i < j < s.len() implies beneath(s[i], s[j]) by {
            assert(entry(w, ids[i]) == (member_z::<S>(i), ids[i]));
            assert(entry(w, ids[j]) == (member_z::<S>(j), ids[j]));
            assert(member_z::<S>(i).below(member_z::<S>(j)));
        }
    }
    assert forall|e: (S, u64)|
        #![trigger s.contains(e)]
        s.contains(e) <==> has_row(w, e.1) && peek(w, e.1).parent == Some(gid) && e.0 == peek(
            w,
            e.1,
        ).z by {
        if s.contains(e) {
            let k = choose|k: int| 0 <= k < s.len() && s[k] == e;
            assert(has_row(r, ids[k]));
            assert(has_row(w, ids[k]) <==> has_row(r, ids[k]));
        }
        if has_row(w, e.1) && peek(w, e.1).parent == Some(gid) && e.0 == peek(w, e.1).z {
            if ids.contains(e.1) {
                let k = choose|k: int| 0 <= k < ids.len() && ids[k] == e.1;
                assert(s[k] == e);
            } else {
                assert(peek(w, e.1) == peek(r, e.1));
                assert(has_row(w, e.1) <==> has_row(r, e.1));
                if e.1 != gid {
                    assert(peek(r, e.1) == peek(rows, e.1));
                    assert(has_row(r, e.1) <==> has_row(rows, e.1));
                }
            }
        }
    }
    crate::order::order_is(w, Some(gid), s);
    assert(s.map_values(|e: (S, u64)| e.1) =~= ids);
}

/// What releasing leaves: each released row is at the top level, every other row is unchanged.
pub proof fn released_peeks<S: Scalar>(rows: Seq<NodeModel<S>>, base: S, ids: Seq<u64>)
    requires
        distinct(rows),
    ensures
        distinct(released(rows, base, ids)),
        forall|x: u64| #[trigger] has_row(released(rows, base, ids), x) <==> has_row(rows, x),
        forall|x: u64|
            !ids.contains(x) ==> #[trigger] peek(released(rows, base, ids), x) == peek(rows, x),
        forall|x: u64|
            ids.contains(x) && has_row(rows, x) ==> ({
                let n = #[trigger] peek(released(rows, base, ids), x);
                n == (NodeModel { parent: None, z: n.z, ..peek(rows, x) })
            }),
    decreases ids.len(),
{
    if ids.len() > 0 {
        let front = ids.drop_last();
        let id = ids.last();
        released_peeks(rows, base, front);
        let r = released(rows, base, front);
        let f = FieldModel::Parent(None);
        let g = FieldModel::Z(
            base.plus(count_spec::<S>(ids.len() - 1).plus(S::of_int(1)).over(S::of_int(1024))),
        );
        let r1 = written(r, id, f);
        let w = written(r1, id, g);
        written_peeks(r, id, f);
        written_peeks(r1, id, g);
        assert(ids[ids.len() - 1] == id);
        assert forall|x: u64| #[trigger] has_row(w, x) <==> has_row(rows, x) by {
            assert(has_row(r1, x) <==> has_row(r, x));
            assert(has_row(r, x) <==> has_row(rows, x));
        }
        assert forall|x: u64| front.contains(x) implies ids.contains(x) by {
            let i = choose|i: int| 0 <= i < front.len() && front[i] == x;
            assert(ids[i] == x);
        }
        assert forall|x: u64| !ids.contains(x) implies #[trigger] peek(w, x) == peek(rows, x) by {
            assert(x != id);
            assert(peek(r, x) == peek(rows, x));
            assert(peek(r1, x) == peek(r, x));
        }
        assert forall|x: u64| ids.contains(x) && has_row(rows, x) implies ({
            let n = #[trigger] peek(w, x);
            n == (NodeModel { parent: None, z: n.z, ..peek(rows, x) })
        }) by {
            assert(has_row(r, x) <==> has_row(rows, x));
            assert(has_row(r1, x) <==> has_row(r, x));
            let n = peek(r, x);
            if x != id {
                let i = choose|i: int| 0 <= i < ids.len() && ids[i] == x;
                assert(front[i] == x);
                assert(front.contains(x));
                assert(peek(r1, x) == peek(r, x));
                assert(peek(w, x) == peek(r1, x));
            } else {
                if !front.contains(x) {
                    assert(n == peek(rows, x));
                }
            }
        }
    }
}

/// Nothing is inside a group without members.
pub proof fn nothing_inside<S: Scalar>(rows: Seq<NodeModel<S>>, group: u64, x: u64, k: nat)
    requires
        forall|y: u64| has_row(rows, y) ==> #[trigger] peek(rows, y).parent != Some(group),
        x != group,
    ensures
        above(rows, x, k) != Some(group),
    decreases k,
{
    if k > 0 && peek(rows, x).parent is Some {
        let p = peek(rows, x).parent->0;
        assert(has_row(rows, x));
        assert(p != group);
        nothing_inside(rows, group, p, (k - 1) as nat);
    }
}

/// Ungrouping takes a grouping back: the group is gone, what was grouped is selected in the
/// order it was, and is at the top level again, and nothing else has changed.
pub proof fn ungrouping_takes_grouping_back<S: Scalar>(rows: Seq<NodeModel<S>>, ids: Seq<u64>)
    requires
        distinct(rows),
        nothing_awaits(rows),
        rows_named(rows, ids),
        highest_id(rows) < u64::MAX,
        numbered::<S>(ids.len() as int),
    ensures
        ({
            let gid = (highest_id(rows) + 1) as u64;
            let (after, selection) = ungrouped(grouped(rows, ids), seq![gid]);
            &&& selection == ids
            &&& forall|x: u64| #[trigger] has_row(after, x) <==> has_row(rows, x)
            &&& forall|x: u64|
                has_row(rows, x) ==> ({
                    let n = #[trigger] peek(after, x);
                    if ids.contains(x) {
                        n == (NodeModel { parent: None, z: n.z, ..peek(rows, x) })
                    } else {
                        n == peek(rows, x)
                    }
                })
        }),
{
    let gid = (highest_id(rows) + 1) as u64;
    let g = new_group(gid, highest_z(rows, ids));
    fresh_id_is_free(rows, gid);
    pushed_peeks(rows, g);
    let r = rows.push(g);
    let w = grouped(rows, ids);
    assert(!ids.contains(gid)) by {
        if ids.contains(gid) {
            let k = choose|k: int| 0 <= k < ids.len() && ids[k] == gid;
            assert(has_row(rows, ids[k]));
        }
    }
    adopted_peeks(r, gid, ids);
    groups_stack_as_selected(rows, ids);
    assert(peek(w, gid) == peek(r, gid));
    let base = peek(w, gid).z;
    let f = released(w, base, ids);
    released_peeks(w, base, ids);
    let after = removed(f, gid);
    let one = seq![gid];
    assert(one.drop_last() =~= Seq::<u64>::empty());
    assert(ungrouped(w, one.drop_last()) == (w, Seq::<u64>::empty()));
    assert(one.last() == gid);
    assert(ungrouped_one(w, gid) == (after, ids));
    assert(Seq::<u64>::empty() + ids =~= ids);
    assert(has_row(f, gid)) by {
        assert(has_row(f, gid) <==> has_row(w, gid));
        assert(has_row(w, gid) <==> has_row(r, gid));
    }
    assert forall|y: u64| has_row(f, y) implies #[trigger] peek(f, y).parent != Some(gid) by {
        assert(has_row(f, y) <==> has_row(w, y));
        assert(has_row(w, y) <==> has_row(r, y));
        if ids.contains(y) {
            let n = peek(f, y);
            assert(n == (NodeModel { parent: None, z: n.z, ..peek(w, y) }));
        } else {
            assert(peek(f, y) == peek(w, y));
            assert(peek(w, y) == peek(r, y));
            if y != gid {
                assert(has_row(r, y) <==> has_row(rows, y));
                assert(peek(r, y) == peek(rows, y));
            }
        }
    }
    deleting_takes_the_subtree(f, gid);
    assert(above(f, gid, 0) == Some(gid));
    lineages_hold_what_is_above(f, gid, gid);
    assert forall|x: u64| #[trigger] has_row(after, x) <==> has_row(rows, x) by {
        assert(has_row(f, x) <==> has_row(w, x));
        assert(has_row(w, x) <==> has_row(r, x));
        if x != gid {
            lineages_hold_what_is_above(f, x, gid);
            assert forall|k: nat| #[trigger] above(f, x, k) != Some(gid) by {
                nothing_inside(f, gid, x, k);
            }
            assert(has_row(r, x) <==> has_row(rows, x));
        }
    }
    assert forall|x: u64| has_row(rows, x) implies ({
        let n = #[trigger] peek(after, x);
        if ids.contains(x) {
            n == (NodeModel { parent: None, z: n.z, ..peek(rows, x) })
        } else {
            n == peek(rows, x)
        }
    }) by {
        assert(x != gid);
        assert(has_row(after, x));
        assert(peek(after, x) == peek(f, x));
        assert(peek(r, x) == peek(rows, x));
        assert(has_row(r, x) <==> has_row(rows, x));
        assert(has_row(w, x) <==> has_row(r, x));
        if ids.contains(x) {
            let n = peek(f, x);
            assert(n == (NodeModel { parent: None, z: n.z, ..peek(w, x) }));
            let k = choose|k: int| 0 <= k < ids.len() && ids[k] == x;
            assert(peek(w, ids[k]) == (NodeModel {
                parent: Some(gid),
                z: member_z::<S>(k),
                ..peek(r, ids[k])
            }));
        } else {
            assert(peek(f, x) == peek(w, x));
            assert(peek(w, x) == peek(r, x));
        }
    }
}

// ---------------------------------------------------------------------------
// Pasting
// ---------------------------------------------------------------------------

/// A pasted shape is there under its id, as it was read.
pub proof fn pasted_shapes_are_there<S: Scalar>(
    rows: Seq<NodeModel<S>>,
    ts: Seq<TreeModel<S>>,
    z: S,
    offset: S,
    next: int,
    i: int,
)
    requires
        forest(rows),
        highest_id(rows) < next,
        next + size_each(ts) <= u64::MAX,
        0 <= i < ts.len(),
        ts[i] is Shape,
    ensures
        has_row(planted_roots(rows, ts, z, offset, next), root_ids(ts, next)[i]),
        peek(planted_roots(rows, ts, z, offset, next), root_ids(ts, next)[i]) == pasted_shape(
            ts[i]->Shape_0,
            root_ids(ts, next)[i],
            None,
            raised(z, (i + 1) as nat),
            offset,
        ),
    decreases ts.len(),
{
    let front = ts.drop_last();
    pasting_keeps_the_forest(rows, ts, z, offset, next);
    pasting_keeps_the_forest(rows, front, z, offset, next);
    let r = planted_roots(rows, front, z, offset, next);
    let w = planted_roots(rows, ts, z, offset, next);
    let id = root_ids(ts, next)[i];
    if i == ts.len() - 1 {
        assert(ts.subrange(0, i) =~= front);
        let n = pasted_shape(ts[i]->Shape_0, id, None, raised(z, ts.len()), offset);
        assert(w == r.push(n));
        slot_is_unique(w, r.len() as int);
    } else {
        assert(front.subrange(0, i) =~= ts.subrange(0, i));
        assert(front[i] == ts[i]);
        pasted_shapes_are_there(rows, front, z, offset, next, i);
        crate::tree::planting_keeps_the_forest(
            r,
            ts.last(),
            None,
            raised(z, ts.len()),
            offset,
            next + size_each(front),
        );
        crate::tree::kept_peeks(r, w, id);
    }
}

/// Whether every selected top-level node is a shape with an extent to paste.
pub open spec fn shapes_to_copy<S: Scalar>(rows: Seq<NodeModel<S>>, ids: Seq<u64>) -> bool {
    forall|i: int|
        0 <= i < ids.len() ==> peek(rows, #[trigger] ids[i]).kind != NodeKind::Group
            && worth_keeping(travelled(peek(rows, ids[i])))
}

proof fn one_node_each<S: Scalar>(ts: Seq<TreeModel<S>>)
    requires
        forall|i: int| 0 <= i < ts.len() ==> (#[trigger] ts[i]) is Shape,
    ensures
        size_each(ts) == ts.len(),
    decreases ts.len(),
{
    if ts.len() > 0 {
        let front = ts.drop_last();
        assert forall|i: int| 0 <= i < front.len() implies (#[trigger] front[i]) is Shape by {
            assert(front[i] == ts[i]);
        }
        one_node_each(front);
        assert(ts[ts.len() - 1] == ts.last());
        assert(size(ts.last()) == 1);
    }
}

/// A paste of a copy gives the copied shapes again: each topmost selected shape comes back as
/// a new node of its own, selected, with everything that travels and offset by the paste's step,
/// and every node that was there stays as it is.
pub proof fn pastes_give_copies_again<S: Scalar>(m: EditorModel<S>, i: int)
    requires
        forest(m.rows),
        selection_portable(m.rows, m.selection),
        selection_svg(m.rows, m.selection) is Some,
        shapes_to_copy(m.rows, topmost_selected(m.rows, m.selection)),
        0 <= i < topmost_selected(m.rows, m.selection).len(),
        highest_id(m.rows) + topmost_selected(m.rows, m.selection).len() < u64::MAX,
    ensures
        ({
            let text = selection_svg(m.rows, m.selection)->0;
            let after = pasted(m, text);
            let original = peek(m.rows, topmost_selected(m.rows, m.selection)[i]);
            &&& after.selection.len() == topmost_selected(m.rows, m.selection).len()
            &&& after.selection[i] == highest_id(m.rows) + 1 + i
            &&& has_row(after.rows, after.selection[i])
            &&& exists|z: S|
                peek(after.rows, after.selection[i]) == #[trigger] pasted_shape(
                    travelled(original),
                    after.selection[i],
                    None,
                    z,
                    paste_offset(m.last_paste, text),
                )
            &&& kept(m.rows, after.rows)
        }),
{
    let text = selection_svg(m.rows, m.selection)->0;
    let ids = topmost_selected(m.rows, m.selection);
    copies_read_back(m.rows, m.selection);
    let ts = parsed::<S>(text);
    copies_are_one_root_each(m.rows, ids, reach(m.rows));
    assert forall|k: int| 0 <= k < ts.len() implies (#[trigger] ts[k]) is Shape by {}
    one_node_each(ts);
    let next = highest_id(m.rows) as int + 1;
    let z = match crate::ops::top_z(m.rows) {
        Some(z) => z,
        None => S::of_int(0),
    };
    let offset = paste_offset(m.last_paste, text);
    pasting_keeps_the_forest(m.rows, ts, z, offset, next);
    pasted_shapes_are_there(m.rows, ts, z, offset, next, i);
    let head = ts.subrange(0, i);
    assert forall|k: int| 0 <= k < head.len() implies (#[trigger] head[k]) is Shape by {
        assert(head[k] == ts[k]);
    }
    one_node_each(head);
    let after = pasted(m, text);
    assert(after.selection[i] == root_ids(ts, next)[i]);
    assert(peek(after.rows, after.selection[i]) == pasted_shape(
        travelled(peek(m.rows, ids[i])),
        after.selection[i],
        None,
        raised(z, (i + 1) as nat),
        offset,
    ));
}

} // verus!
