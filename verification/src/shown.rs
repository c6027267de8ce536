//! What was set is what is shown: the inspector's controls read back what an edit wrote.
use vstd::prelude::*;
use crate::bounds::{line_ends, node_bounds, shape_frame};
use crate::color::{parse_hex_spec, to_hex_spec, Color};
use crate::geometry::{center, min_size, turn_about};
use crate::inspector::{
    color_of, color_set_each, color_shown, style_of, style_set_each, style_shown,
    style_targets, StyleColor, StyleNum,
};
use crate::motion::{h_set, orbited_each, pivot, turned_to, w_set};
use crate::node::{NodeKind, NodeModel};
use crate::ops::EditorModel;
use crate::order::written_peeks;
use crate::scalar::Scalar;
use crate::scene::{
    children, distinct, has_row, peek, reach, shapes, shapes_of_each, shapes_within,
    shapes_within_each, stacked, with_field, written, FieldModel,
};
use crate::tree::{orbiting_keeps_the_tree, same_tree, same_tree_peeks};

verus! {

// ---------------------------------------------------------------------------
// Edits that leave the layers alone
// ---------------------------------------------------------------------------

/// Whether two tables have the same rows in the same layers: ids, parents, kinds and sibling
/// order.
pub open spec fn same_layers<S: Scalar>(a: Seq<NodeModel<S>>, b: Seq<NodeModel<S>>) -> bool {
    &&& same_tree(a, b)
    &&& forall|i: int| 0 <= i < a.len() ==> (#[trigger] a[i]).z == b[i].z
}

/// Edits that leave the layers alone may follow one another.
pub proof fn same_layers_join<S: Scalar>(
    a: Seq<NodeModel<S>>,
    b: Seq<NodeModel<S>>,
    c: Seq<NodeModel<S>>,
)
    requires
        same_layers(a, b),
        same_layers(b, c),
    ensures
        same_layers(a, c),
{
    assert forall|i: int| 0 <= i < a.len() implies (#[trigger] a[i]).z == c[i].z && a[i].id
        == c[i].id && a[i].parent == c[i].parent && a[i].kind == c[i].kind by {
        assert(b[i].z == c[i].z && b[i].id == c[i].id);
    }
}

/// Whether a column has no part in the layers.
pub open spec fn surface<S>(f: FieldModel<S>) -> bool {
    !(f is Parent) && !(f is Kind) && !(f is Z)
}

/// A write of a column without a part in the layers leaves them alone.
pub proof fn surface_writes_keep_the_layers<S: Scalar>(
    rows: Seq<NodeModel<S>>,
    id: u64,
    f: FieldModel<S>,
)
    requires
        surface(f),
    ensures
        same_layers(rows, written(rows, id, f)),
{
    crate::tree::cosmetic_writes_keep_the_tree(rows, id, f);
    let w = written(rows, id, f);
    if has_row(rows, id) {
        let k = crate::scene::slot(rows, id);
        assert(rows[k].id == id);
        assert forall|i: int| 0 <= i < rows.len() implies (#[trigger] rows[i]).z == w[i].z by {
            if i == k {
                assert(w[i] == with_field(rows[k], f));
            }
        }
    }
}

pub proof fn same_layers_same_stack<S: Scalar>(
    a: Seq<NodeModel<S>>,
    b: Seq<NodeModel<S>>,
    parent: Option<u64>,
)
    requires
        same_layers(a, b),
    ensures
        stacked(a, parent) == stacked(b, parent),
        children(a, parent) == children(b, parent),
    decreases a.len(),
{
    if a.len() > 0 {
        let fa = a.drop_last();
        let fb = b.drop_last();
        assert(same_layers(fa, fb)) by {
            assert forall|i: int| 0 <= i < fa.len() implies (#[trigger] fa[i]).z == fb[i].z
                && fa[i].id == fb[i].id && fa[i].parent == fb[i].parent && fa[i].kind
                == fb[i].kind by {
                assert(fa[i] == a[i] && fb[i] == b[i]);
            }
        }
        same_layers_same_stack(fa, fb, parent);
        let last = a.len() - 1;
        assert(a[last].id == b[last].id && a[last].parent == b[last].parent && a[last].z
            == b[last].z);
    }
}

/// An edit that leaves the layers alone leaves what is under a node, in its order.
pub proof fn same_layers_same_shapes_within<S: Scalar>(
    a: Seq<NodeModel<S>>,
    b: Seq<NodeModel<S>>,
    id: u64,
    steps: nat,
)
    requires
        same_layers(a, b),
        distinct(a),
    ensures
        shapes_within(a, id, steps) == shapes_within(b, id, steps),
    decreases steps, 0nat,
{
    same_tree_peeks(a, b);
    assert(peek(a, id).kind == peek(b, id).kind);
    if steps > 0 {
        same_layers_same_stack(a, b, Some(id));
        same_layers_same_shapes_within_each(a, b, children(a, Some(id)), (steps - 1) as nat);
    }
}

proof fn same_layers_same_shapes_within_each<S: Scalar>(
    a: Seq<NodeModel<S>>,
    b: Seq<NodeModel<S>>,
    ids: Seq<u64>,
    steps: nat,
)
    requires
        same_layers(a, b),
        distinct(a),
    ensures
        shapes_within_each(a, ids, steps) == shapes_within_each(b, ids, steps),
    decreases steps, ids.len(),
{
    if ids.len() > 0 {
        same_layers_same_shapes_within_each(a, b, ids.drop_last(), steps);
        same_layers_same_shapes_within(a, b, ids.last(), steps);
    }
}

/// An edit that leaves the layers alone leaves what is under every node, in its order.
pub proof fn same_layers_same_shapes<S: Scalar>(
    a: Seq<NodeModel<S>>,
    b: Seq<NodeModel<S>>,
    ids: Seq<u64>,
)
    requires
        same_layers(a, b),
        distinct(a),
    ensures
        shapes_of_each(a, ids) == shapes_of_each(b, ids),
{
    same_layers_same_shapes_within_each(a, b, ids, reach(a));
}

// ---------------------------------------------------------------------------
// Style
// ---------------------------------------------------------------------------

/// What a style property comes to when it is set to `v`: widths and radii stop at nought.
pub open spec fn style_kept<S: Scalar>(num: StyleNum, v: S) -> S {
    match num {
        StyleNum::StrokeWidth | StyleNum::CornerRadius => v.greater(S::of_int(0)),
        StyleNum::FillOpacity | StyleNum::StrokeOpacity => v,
        StyleNum::Rotation => v.wrapped(S::of_int(360)),
    }
}

/// The column that a style property other than the angle is.
spec fn style_field<S: Scalar>(num: StyleNum, v: S) -> FieldModel<S> {
    match num {
        StyleNum::FillOpacity => FieldModel::FillOpacity(v),
        StyleNum::StrokeOpacity => FieldModel::StrokeOpacity(v),
        StyleNum::StrokeWidth => FieldModel::StrokeWidth(v.greater(S::of_int(0))),
        StyleNum::CornerRadius => FieldModel::CornerRadius(v.greater(S::of_int(0))),
        StyleNum::Rotation => FieldModel::Rotation(v),
    }
}

/// A style edit reaches every one of its targets, no other row, and no other column.
pub proof fn styles_reach_their_targets<S: Scalar>(
    rows: Seq<NodeModel<S>>,
    ids: Seq<u64>,
    num: StyleNum,
    v: S,
)
    requires
        distinct(rows),
        num != StyleNum::Rotation,
    ensures
        distinct(style_set_each(rows, ids, num, v)),
        same_layers(rows, style_set_each(rows, ids, num, v)),
        forall|x: u64| #[trigger]
            has_row(style_set_each(rows, ids, num, v), x) <==> has_row(rows, x),
        forall|x: u64|
            ids.contains(x) && has_row(rows, x) ==> style_of(
                #[trigger] peek(style_set_each(rows, ids, num, v), x),
                num,
            ) == style_kept(num, v),
        forall|x: u64|
            !ids.contains(x) ==> #[trigger] peek(style_set_each(rows, ids, num, v), x) == peek(
                rows,
                x,
            ),
    decreases ids.len(),
{
    if ids.len() > 0 {
        let front = ids.drop_last();
        let id = ids.last();
        styles_reach_their_targets(rows, front, num, v);
        let r = style_set_each(rows, front, num, v);
        let f = style_field(num, v);
        let w = style_set_each(rows, ids, num, v);
        assert(w == written(r, id, f));
        written_peeks(r, id, f);
        surface_writes_keep_the_layers(r, id, f);
        same_layers_join(rows, r, w);
        assert(ids[ids.len() - 1] == id);
        assert forall|x: u64| ids.contains(x) implies x == id || front.contains(x) by {
            let i = choose|i: int| 0 <= i < ids.len() && ids[i] == x;
            if i < ids.len() - 1 {
                assert(front[i] == x);
            }
        }
        assert forall|x: u64| front.contains(x) implies ids.contains(x) by {
            let i = choose|i: int| 0 <= i < front.len() && front[i] == x;
            assert(ids[i] == x);
        }
        assert forall|x: u64| ids.contains(x) && has_row(rows, x) implies style_of(
            #[trigger] peek(w, x),
            num,
        ) == style_kept(num, v) by {
            assert(has_row(r, x) <==> has_row(rows, x));
            if x == id {
                assert(peek(w, x) == with_field(peek(r, x), f));
            } else {
                assert(peek(w, x) == peek(r, x));
            }
        }
        assert forall|x: u64| !ids.contains(x) implies #[trigger] peek(w, x) == peek(rows, x) by {
            assert(x != id);
            assert(peek(r, x) == peek(rows, x));
        }
    }
}

/// A numeric control shows what was set with it.
pub proof fn styles_are_shown_as_set<S: Scalar>(m: EditorModel<S>, num: StyleNum, v: S)
    requires
        distinct(m.rows),
        num != StyleNum::Rotation,
        style_targets(m, num).len() > 0,
        has_row(m.rows, style_targets(m, num)[0]),
    ensures
        style_shown(
            EditorModel { rows: style_set_each(m.rows, style_targets(m, num), num, v), ..m },
            num,
        ) == style_kept(num, v),
{
    let targets = style_targets(m, num);
    let rows = style_set_each(m.rows, targets, num, v);
    styles_reach_their_targets(m.rows, targets, num, v);
    same_layers_same_shapes(m.rows, rows, m.selection);
    assert(targets.contains(targets[0]));
    assert(style_of(peek(rows, targets[0]), num) == style_kept(num, v));
}

/// A node that was turned to an angle is at that angle. A group without a shape does not turn,
/// and a line takes no angle.
pub proof fn turned_nodes_show_their_angle<S: Scalar>(
    rows: Seq<NodeModel<S>>,
    id: u64,
    angle: S,
)
    requires
        distinct(rows),
        has_row(rows, id),
        peek(rows, id).kind == NodeKind::Group ==> shapes(rows, id).len() > 0,
        peek(rows, id).kind != NodeKind::Line,
    ensures
        peek(turned_to(rows, id, angle), id).rotation == angle,
{
    let f = FieldModel::Rotation(angle);
    if peek(rows, id).kind != NodeKind::Group {
        written_peeks(rows, id, f);
    } else {
        let ids = shapes(rows, id);
        let delta = angle.minus(peek(rows, id).rotation);
        let r = orbited_each(rows, ids, pivot(rows, ids), delta);
        orbiting_keeps_the_tree(rows, ids, pivot(rows, ids), delta);
        same_tree_peeks(rows, r);
        assert(has_row(r, id));
        written_peeks(r, id, f);
    }
}

/// A line that is turned turns its two ends about its middle, and takes no angle.
pub proof fn turned_lines_move_their_ends<S: Scalar>(rows: Seq<NodeModel<S>>, id: u64, angle: S)
    requires
        distinct(rows),
        has_row(rows, id),
        peek(rows, id).kind == NodeKind::Line,
    ensures
        ({
            let n = peek(rows, id);
            let m = peek(turned_to(rows, id, angle), id);
            let (a, b) = line_ends(n);
            let c = center((n.x, n.y, n.w, n.h));
            let delta = angle.minus(n.rotation);
            let a2 = turn_about(a, c, delta);
            let b2 = turn_about(b, c, delta);
            &&& m.rotation == n.rotation
            &&& (m.x, m.y) == (a2.x, a2.y)
            &&& (m.w, m.h) == (b2.x.minus(a2.x), b2.y.minus(a2.y))
        }),
{
    let n = peek(rows, id);
    let (a, b) = line_ends(n);
    let c = center((n.x, n.y, n.w, n.h));
    let delta = angle.minus(n.rotation);
    let a2 = turn_about(a, c, delta);
    let b2 = turn_about(b, c, delta);
    let f0 = FieldModel::X(a2.x);
    let f1 = FieldModel::Y(a2.y);
    let f2 = FieldModel::W(b2.x.minus(a2.x));
    let f3 = FieldModel::H(b2.y.minus(a2.y));
    written_peeks(rows, id, f0);
    let r = written(rows, id, f0);
    written_peeks(r, id, f1);
    let r = written(r, id, f1);
    written_peeks(r, id, f2);
    let r = written(r, id, f2);
    written_peeks(r, id, f3);
}

proof fn colours_reach_their_targets<S: Scalar>(
    rows: Seq<NodeModel<S>>,
    ids: Seq<u64>,
    which: StyleColor,
    hex: Seq<char>,
)
    requires
        distinct(rows),
    ensures
        distinct(color_set_each(rows, ids, which, hex)),
        same_layers(rows, color_set_each(rows, ids, which, hex)),
        forall|x: u64| #[trigger]
            has_row(color_set_each(rows, ids, which, hex), x) <==> has_row(rows, x),
        forall|x: u64|
            ids.contains(x) && has_row(rows, x) ==> color_of(
                #[trigger] peek(color_set_each(rows, ids, which, hex), x),
                which,
            ) == hex,
    decreases ids.len(),
{
    if ids.len() > 0 {
        let front = ids.drop_last();
        let id = ids.last();
        colours_reach_their_targets(rows, front, which, hex);
        let r = color_set_each(rows, front, which, hex);
        let f = match which {
            StyleColor::Fill => FieldModel::<S>::Fill(hex),
            StyleColor::Stroke => FieldModel::<S>::Stroke(hex),
        };
        let w = color_set_each(rows, ids, which, hex);
        assert(w == written(r, id, f));
        written_peeks(r, id, f);
        surface_writes_keep_the_layers(r, id, f);
        same_layers_join(rows, r, w);
        assert forall|x: u64| ids.contains(x) && has_row(rows, x) implies color_of(
            #[trigger] peek(w, x),
            which,
        ) == hex by {
            assert(has_row(r, x) <==> has_row(rows, x));
            if x == id {
                assert(peek(w, x) == with_field(peek(r, x), f));
            } else {
                let i = choose|i: int| 0 <= i < ids.len() && ids[i] == x;
                assert(front[i] == x);
                assert(peek(w, x) == peek(r, x));
            }
        }
    }
}

/// A colour well shows the colour that was picked in it, as its text names it.
pub proof fn colours_are_shown_as_picked<S: Scalar>(
    m: EditorModel<S>,
    which: StyleColor,
    c: Color<S>,
)
    requires
        distinct(m.rows),
        shapes_of_each(m.rows, m.selection).len() > 0,
        has_row(m.rows, shapes_of_each(m.rows, m.selection)[0]),
    ensures
        color_shown(
            EditorModel {
                rows: color_set_each(
                    m.rows,
                    shapes_of_each(m.rows, m.selection),
                    which,
                    to_hex_spec(c),
                ),
                ..m
            },
            which,
        ) == parse_hex_spec::<S>(to_hex_spec(c)),
{
    let targets = shapes_of_each(m.rows, m.selection);
    let rows = color_set_each(m.rows, targets, which, to_hex_spec(c));
    colours_reach_their_targets(m.rows, targets, which, to_hex_spec(c));
    same_layers_same_shapes(m.rows, rows, m.selection);
    assert(targets.contains(targets[0]));
    assert(color_of(peek(rows, targets[0]), which) == to_hex_spec(c));
}

// ---------------------------------------------------------------------------
// Extents
// ---------------------------------------------------------------------------

/// A typed extent is the extent that the frame then has, but for the smallest size there is;
/// the frame's place and its other extent stay.
pub proof fn typed_extents_are_shown<S: Scalar>(rows: Seq<NodeModel<S>>, id: u64, v: S)
    requires
        distinct(rows),
        has_row(rows, id),
        peek(rows, id).kind != NodeKind::Group,
        peek(rows, id).kind != NodeKind::Line,
    ensures
        ({
            let f = shape_frame(peek(rows, id));
            &&& node_bounds(w_set(rows, id, v), id) == Some((f.0, f.1, v.greater(min_size()), f.3))
            &&& node_bounds(h_set(rows, id, v), id) == Some((f.0, f.1, f.2, v.greater(min_size())))
        }),
{
    written_peeks(rows, id, FieldModel::W(v.greater(min_size())));
    written_peeks(rows, id, FieldModel::H(v.greater(min_size())));
}

} // verus!
