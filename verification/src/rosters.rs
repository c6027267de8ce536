//! What lists hold: the layer list every node where it is drawn, the selection what was toggled, and
//! the inspector what the whole selection has in common.
use vstd::prelude::*;
use crate::bounds::node_bounds;
use crate::canvas::toggled;
use crate::inspector::{agrees, all_agree, common, part_of, prop_values, Prop};
use crate::layers::{layers, layers_of_each, Layer};
use crate::micro::Micro;
use crate::node::{NodeKind, NodeModel};
use crate::order::first_index_is;
use crate::scalar::{ratio, Scalar};
use crate::scene::{
    children, first_index, peek, reach, shapes_of_each, shapes_within, shapes_within_each,
};

verus! {

/// The shapes among some layers, in turn.
pub open spec fn listed_shapes(ls: Seq<Layer>) -> Seq<u64>
    decreases ls.len(),
{
    if ls.len() == 0 {
        Seq::empty()
    } else if ls.last().kind == NodeKind::Group {
        listed_shapes(ls.drop_last())
    } else {
        listed_shapes(ls.drop_last()).push(ls.last().id)
    }
}

proof fn listed_shapes_join(a: Seq<Layer>, b: Seq<Layer>)
    ensures
        listed_shapes(a + b) == listed_shapes(a) + listed_shapes(b),
    decreases b.len(),
{
    if b.len() == 0 {
        assert(a + b =~= a);
        assert(listed_shapes(a) + listed_shapes(b) =~= listed_shapes(a));
    } else {
        assert((a + b).drop_last() =~= a + b.drop_last());
        assert((a + b).last() == b.last());
        listed_shapes_join(a, b.drop_last());
        assert(listed_shapes(a) + listed_shapes(b.drop_last()).push(b.last().id) =~= (listed_shapes(
            a,
        ) + listed_shapes(b.drop_last())).push(b.last().id));
    }
}

/// The lines of some siblings list their shapes, and say of each node what it is.
proof fn siblings_are_listed<S: Scalar>(
    rows: Seq<NodeModel<S>>,
    parent: Option<u64>,
    ids: Seq<u64>,
    steps: nat,
)
    ensures
        steps > 0 ==> listed_shapes(layers_of_each(rows, parent, ids, steps)) == shapes_within_each(
            rows,
            ids,
            steps,
        ),
        forall|i: int|
            0 <= i < layers_of_each(rows, parent, ids, steps).len() ==> (
            #[trigger] layers_of_each(rows, parent, ids, steps)[i]).kind == peek(
                rows,
                layers_of_each(rows, parent, ids, steps)[i].id,
            ).kind,
    decreases steps, ids.len(),
{
    let all = layers_of_each(rows, parent, ids, steps);
    if steps > 0 && ids.len() > 0 {
        let id = ids.last();
        let kind = peek(rows, id).kind;
        let front = layers_of_each(rows, parent, ids.drop_last(), steps);
        let own = seq![Layer { id, parent, kind }];
        siblings_are_listed(rows, parent, ids.drop_last(), steps);
        assert(shapes_within_each(rows, ids, steps) == shapes_within_each(
            rows,
            ids.drop_last(),
            steps,
        ) + shapes_within(rows, id, steps));
        assert(own.drop_last() =~= Seq::<Layer>::empty());
        assert(listed_shapes(own.drop_last()) =~= Seq::<u64>::empty());
        if kind == NodeKind::Group {
            let below = layers_of_each(rows, Some(id), children(rows, Some(id)), (steps - 1) as nat);
            siblings_are_listed(rows, Some(id), children(rows, Some(id)), (steps - 1) as nat);
            assert(all == front + own + below);
            listed_shapes_join(front + own, below);
            listed_shapes_join(front, own);
            assert(listed_shapes(own) =~= Seq::<u64>::empty());
            if steps == 1 {
                assert(below =~= Seq::<Layer>::empty());
                nothing_within(rows, children(rows, Some(id)));
                assert(listed_shapes(below) =~= Seq::<u64>::empty());
            }
            assert(listed_shapes(below) == shapes_within(rows, id, steps));
            assert(listed_shapes(all) =~= listed_shapes(front) + shapes_within(rows, id, steps));
        } else {
            assert(all =~= front + own);
            listed_shapes_join(front, own);
            assert(listed_shapes(own) =~= seq![id]);
            assert(shapes_within(rows, id, steps) == seq![id]);
        }
    } else if ids.len() == 0 {
        assert(all =~= Seq::<Layer>::empty());
        assert(shapes_within_each(rows, ids, steps) =~= Seq::<u64>::empty());
    }
}

proof fn nothing_within<S: Scalar>(rows: Seq<NodeModel<S>>, ids: Seq<u64>)
    ensures
        shapes_within_each(rows, ids, 0) =~= Seq::<u64>::empty(),
    decreases ids.len(),
{
    if ids.len() > 0 {
        nothing_within(rows, ids.drop_last());
        assert(shapes_within(rows, ids.last(), 0) =~= Seq::<u64>::empty());
        assert(shapes_within_each(rows, ids, 0) == shapes_within_each(rows, ids.drop_last(), 0)
            + shapes_within(rows, ids.last(), 0));
    }
}

/// The layer list shows the shapes in the order in which they are drawn, and of every node its kind.
pub proof fn layers_are_listed_as_they_are_drawn<S: Scalar>(rows: Seq<NodeModel<S>>)
    ensures
        listed_shapes(layers(rows)) == shapes_of_each(rows, children(rows, None)),
        forall|i: int|
            0 <= i < layers(rows).len() ==> (#[trigger] layers(rows)[i]).kind == peek(
                rows,
                layers(rows)[i].id,
            ).kind,
{
    siblings_are_listed(rows, None, children(rows, None), reach(rows));
}

/// Toggling a node selects it, or takes it out, and leaves everything else selected as it was; what
/// was put in and taken out again was never there.
pub proof fn toggling_changes_one_node(selection: Seq<u64>, id: u64)
    requires
        selection.no_duplicates(),
    ensures
        toggled(selection, id).no_duplicates(),
        toggled(selection, id).contains(id) <==> !selection.contains(id),
        forall|x: u64|
            x != id ==> (#[trigger] toggled(selection, id).contains(x) <==> selection.contains(x)),
        !selection.contains(id) ==> toggled(toggled(selection, id), id) == selection,
{
    first_index_is(selection, id);
    let t = toggled(selection, id);
    match first_index(selection, id) {
        Some(k) => {
            assert forall|i: int| 0 <= i < t.len() implies #[trigger] t[i] == selection[if i < k {
                i
            } else {
                i + 1
            }] by {}
            assert forall|x: u64| x != id && selection.contains(x) implies #[trigger] t.contains(x) by {
                let i = choose|i: int| 0 <= i < selection.len() && selection[i] == x;
                assert(t[if i < k {
                    i
                } else {
                    i - 1
                }] == x);
            }
            assert(selection.contains(id)) by {
                assert(selection[k] == id);
            }
            assert forall|x: u64| #[trigger] t.contains(x) implies x != id && selection.contains(x) by {
                let i = choose|i: int| 0 <= i < t.len() && t[i] == x;
                let j = if i < k {
                    i
                } else {
                    i + 1
                };
                assert(selection[j] == x);
                assert(selection[k] != selection[j]);
            }
            assert forall|i: int, j: int| 0 <= i < t.len() && 0 <= j < t.len() && i != j implies t[i]
                != t[j] by {
                let a = if i < k {
                    i
                } else {
                    i + 1
                };
                let b = if j < k {
                    j
                } else {
                    j + 1
                };
                assert(selection[a] != selection[b]);
            }
        },
        None => {
            assert(t == selection.push(id));
            let last = selection.len() as int;
            assert(t[last] == id);
            assert forall|x: u64| selection.contains(x) implies #[trigger] t.contains(x) by {
                let i = choose|i: int| 0 <= i < selection.len() && selection[i] == x;
                assert(t[i] == x);
            }
            assert forall|x: u64| x != id && #[trigger] t.contains(x) implies selection.contains(x) by {
                let i = choose|i: int| 0 <= i < t.len() && t[i] == x;
                assert(selection[i] == x);
            }
            assert forall|i: int, j: int| 0 <= i < t.len() && 0 <= j < t.len() && i != j implies t[i]
                != t[j] by {
                if i == last {
                    assert(selection[j] != id) by {
                        assert(selection.contains(selection[j]));
                    }
                } else if j == last {
                    assert(selection[i] != id) by {
                        assert(selection.contains(selection[i]));
                    }
                } else {
                    assert(selection[i] != selection[j]);
                }
            }
            first_index_is(t, id);
            let k = first_index(t, id)->0;
            assert(k == last) by {
                if k < last {
                    assert(selection[k] == id);
                }
            }
            assert(t.remove(last) =~= selection);
        },
    }
}

/// What a property shows of one node: its left edge, its top, its width or its height.
pub open spec fn shown_by(prop: Prop, b: (Micro, Micro, Micro, Micro)) -> int {
    match prop {
        Prop::X => b.0.raw as int,
        Prop::Y => b.1.raw as int,
        Prop::W => b.2.raw as int,
        Prop::H => b.3.raw as int,
    }
}

proof fn values_are<S: Scalar>(rows: Seq<NodeModel<S>>, ids: Seq<u64>, prop: Prop)
    requires
        forall|i: int| 0 <= i < ids.len() ==> node_bounds(rows, #[trigger] ids[i]) is Some,
    ensures
        prop_values(rows, ids, prop).len() == ids.len(),
        forall|i: int|
            0 <= i < ids.len() ==> prop_values(rows, ids, prop)[i] == part_of(
                prop,
                node_bounds(rows, #[trigger] ids[i])->0,
            ),
    decreases ids.len(),
{
    if ids.len() > 0 {
        let front = ids.drop_last();
        assert forall|i: int| 0 <= i < front.len() implies node_bounds(
            rows,
            #[trigger] front[i],
        ) is Some by {
            assert(front[i] == ids[i]);
        }
        values_are(rows, front, prop);
        assert(node_bounds(rows, ids[ids.len() - 1]) is Some);
        assert forall|i: int| 0 <= i < ids.len() implies prop_values(rows, ids, prop)[i] == part_of(
            prop,
            node_bounds(rows, #[trigger] ids[i])->0,
        ) by {
            if i < front.len() {
                assert(front[i] == ids[i]);
            }
        }
    }
}

/// A field shows the value of the first of the selected nodes where all the others are within a
/// twentieth of it, and else nothing.
pub proof fn fields_show_what_all_agree_on(
    rows: Seq<NodeModel<Micro>>,
    ids: Seq<u64>,
    prop: Prop,
)
    requires
        forall|i: int| 0 <= i < ids.len() ==> node_bounds(rows, #[trigger] ids[i]) is Some,
        forall|i: int|
            0 <= i < ids.len() ==> -1_000_000_000_000_000 <= shown_by(
                prop,
                node_bounds(rows, #[trigger] ids[i])->0,
            ) <= 1_000_000_000_000_000,
    ensures
        ({
            let v = |i: int| shown_by(prop, node_bounds(rows, ids[i])->0);
            match common(rows, ids, prop) {
                Some(c) => {
                    &&& ids.len() > 0 && c.raw == v(0)
                    &&& forall|i: int|
                        0 <= i < ids.len() ==> -50_000 < shown_by(
                            prop,
                            node_bounds(rows, #[trigger] ids[i])->0,
                        ) - c.raw < 50_000
                },
                None => ids.len() == 0 || exists|i: int|
                    {
                        let d = shown_by(prop, node_bounds(rows, #[trigger] ids[i])->0) - v(0);
                        0 < i < ids.len() && (d <= -50_000 || d >= 50_000)
                    },
            }
        }),
{
    values_are(rows, ids, prop);
    let vals = prop_values(rows, ids, prop);
    assert(ratio::<Micro>(5, 100).raw == 50_000) by {
        assert(Micro::of_int(5).raw == 5_000_000 && Micro::of_int(100).raw == 100_000_000);
    }
    if ids.len() > 0 {
        assert(node_bounds(rows, ids[0]) is Some);
        if all_agree(vals) {
            assert forall|i: int| 0 <= i < ids.len() implies -50_000 < shown_by(
                prop,
                node_bounds(rows, #[trigger] ids[i])->0,
            ) - vals[0].raw < 50_000 by {
                if i > 0 {
                    assert(agrees(vals[i], vals[0]));
                }
            }
        } else {
            let i = choose|i: int| 1 <= i < vals.len() && !agrees(#[trigger] vals[i], vals[0]);
            assert(node_bounds(rows, ids[i]) is Some);
        }
    }
}

} // verus!
