//! What is seen of a drawing: every shape in its own colours, at its own opacities, in its own
//! outline, from the bottom up.
use vstd::prelude::*;
use crate::color::{all_hex, fill_color_spec, hex_number, hex_value, past_plus, six_digits, Color};
use crate::draw::{
    band_ops, guide_ops, mark_ops_each, node_ops, node_ops_each, paint, paper_ops, scene_ops,
    shape_ops, shape_path, view_map, DrawModel,
};
use crate::node::{NodeKind, NodeModel};
use crate::ops::EditorModel;
use crate::order::written_peeks;
use crate::scalar::{ratio, Scalar};
use crate::scene::{
    children, distinct, peek, reach, shapes_of_each, shapes_within, shapes_within_each, written,
    FieldModel,
};
use crate::shown::{same_layers_same_shapes, same_layers_same_stack, surface_writes_keep_the_layers};
use crate::svg::hex_digit;
use crate::text::without_leading_spec;
use crate::viewport::Viewport;

verus! {

// ---------------------------------------------------------------------------
// Colours
// ---------------------------------------------------------------------------

/// What a hexadecimal digit counts.
pub open spec fn digit_counts(c: char) -> int {
    if '0' <= c <= '9' {
        c as int - '0' as int
    } else if 'a' <= c <= 'f' {
        10 + (c as int - 'a' as int)
    } else {
        10 + (c as int - 'A' as int)
    }
}

/// Whether a text is a colour as the editor keeps one: a `#` and six hexadecimal digits.
pub open spec fn six_digit_colour(f: Seq<char>) -> bool {
    f.len() == 7 && f[0] == '#' && forall|i: int| 1 <= i < 7 ==> hex_digit(#[trigger] f[i])
}

/// Whether a colour is the one that a text names: the first two digits are its red, the next two
/// its green, the last two its blue, each of 255 parts.
pub open spec fn named<S: Scalar>(c: Color<S>, f: Seq<char>) -> bool {
    &&& c.r == ratio::<S>((16 * digit_counts(f[1]) + digit_counts(f[2])) as i64, 255)
    &&& c.g == ratio::<S>((16 * digit_counts(f[3]) + digit_counts(f[4])) as i64, 255)
    &&& c.b == ratio::<S>((16 * digit_counts(f[5]) + digit_counts(f[6])) as i64, 255)
}

/// A colour is drawn as its text names it.
pub proof fn colours_are_drawn_as_named<S: Scalar>(f: Seq<char>)
    requires
        six_digit_colour(f),
    ensures
        named(fill_color_spec::<S>(f), f),
        fill_color_spec::<S>(f).a == S::of_int(1),
{
    let d = f.drop_first();
    assert forall|i: int| 0 <= i < 6 implies #[trigger] d[i] == f[i + 1] && hex_digit(d[i]) by {}
    assert(without_leading_spec(f, '#') == without_leading_spec(d, '#'));
    assert(hex_digit(d[0]));
    assert(without_leading_spec(d, '#') == d);
    assert(past_plus(d) == d);
    assert(all_hex(d));
    six_digits(d);
    digit_is(f[1]);
    digit_is(f[2]);
    digit_is(f[3]);
    digit_is(f[4]);
    digit_is(f[5]);
    digit_is(f[6]);
    let (r, g, b) = (
        16 * digit_counts(f[1]) + digit_counts(f[2]),
        16 * digit_counts(f[3]) + digit_counts(f[4]),
        16 * digit_counts(f[5]) + digit_counts(f[6]),
    );
    let v = hex_number(d) as int;
    assert(d[0] == f[1] && d[1] == f[2] && d[2] == f[3] && d[3] == f[4] && d[4] == f[5] && d[5]
        == f[6]);
    assert(v == r * 65536 + g * 256 + b);
    three_bytes(r, g, b);
    let u = v as u32;
    assert(u == v);
    assert(fill_color_spec::<S>(f) == Color::<S>::hex(u));
    assert((u / 65536 % 256) as int == r);
    assert((u / 256 % 256) as int == g);
    assert((u % 256) as int == b);
}

proof fn digit_is(c: char)
    requires
        hex_digit(c),
    ensures
        digit_counts(c) == hex_value(c),
        0 <= digit_counts(c) < 16,
{
}

proof fn three_bytes(r: int, g: int, b: int)
    requires
        0 <= r < 256,
        0 <= g < 256,
        0 <= b < 256,
    ensures
        ({
            let v = r * 65536 + g * 256 + b;
            v / 65536 % 256 == r && v / 256 % 256 == g && v % 256 == b && 0 <= v < 16777216
        }),
{
}

// ---------------------------------------------------------------------------
// One shape
// ---------------------------------------------------------------------------

/// A rectangle or an oval is filled once: its outline, in the colour that its fill names, at its
/// fill opacity.
pub proof fn figures_are_filled_in_their_own_colour<S: Scalar>(n: NodeModel<S>)
    requires
        n.kind == NodeKind::Rect || n.kind == NodeKind::Oval,
        six_digit_colour(n.fill),
    ensures
        exists|i: int|
            0 <= i < shape_ops(n).len() && (#[trigger] shape_ops(n)[i] matches DrawModel::Fill(
                path,
                c,
            ) && path == shape_path(n) && named(c, n.fill) && c.a == n.fill_opacity && forall|
                j: int,
            |
                0 <= j < shape_ops(n).len() && j != i ==> !(#[trigger] shape_ops(n)[j] is Fill)),
{
    colours_are_drawn_as_named::<S>(n.fill);
    let ops = shape_ops(n);
    let i: int = if crate::geometry::turns(n.rotation) {
        1
    } else {
        0
    };
    assert(ops[i] matches DrawModel::Fill(path, c) && path == shape_path(n) && named(c, n.fill)
        && c.a == n.fill_opacity);
    assert forall|j: int| 0 <= j < ops.len() && j != i implies !(#[trigger] ops[j] is Fill) by {}
}

/// A shape with an outline to be seen is stroked once: in the colour that its stroke names, at its
/// stroke opacity, as wide as its stroke; a shape without one is not.
pub proof fn outlines_are_drawn_in_their_own_colour<S: Scalar>(n: NodeModel<S>)
    requires
        n.kind == NodeKind::Rect || n.kind == NodeKind::Oval || n.kind == NodeKind::Line,
        six_digit_colour(n.stroke),
    ensures
        S::of_int(0).below(n.stroke_width) && S::of_int(0).below(n.stroke_opacity) ==> exists|
            i: int,
        |
            0 <= i < shape_ops(n).len() && (#[trigger] shape_ops(n)[i] matches DrawModel::Stroke(
                path,
                c,
                w,
            ) && path == shape_path(n) && named(c, n.stroke) && c.a == n.stroke_opacity && w
                == n.stroke_width && forall|j: int|
                0 <= j < shape_ops(n).len() && j != i ==> !(#[trigger] shape_ops(n)[j] is Stroke)),
        !(S::of_int(0).below(n.stroke_width) && S::of_int(0).below(n.stroke_opacity)) ==> forall|
            j: int,
        |
            0 <= j < shape_ops(n).len() ==> !(#[trigger] shape_ops(n)[j] is Stroke),
        n.kind == NodeKind::Line ==> forall|j: int|
            0 <= j < shape_ops(n).len() ==> !(#[trigger] shape_ops(n)[j] is Fill),
{
    colours_are_drawn_as_named::<S>(n.stroke);
    let ops = shape_ops(n);
    let t: int = if crate::geometry::turns(n.rotation) {
        1
    } else {
        0
    };
    let i: int = if n.kind == NodeKind::Line {
        t
    } else {
        t + 1
    };
    if S::of_int(0).below(n.stroke_width) && S::of_int(0).below(n.stroke_opacity) {
        assert(ops[i] matches DrawModel::Stroke(path, c, w) && path == shape_path(n) && named(
            c,
            n.stroke,
        ) && c.a == n.stroke_opacity && w == n.stroke_width);
        assert forall|j: int| 0 <= j < ops.len() && j != i implies !(#[trigger] ops[j] is Stroke) by {}
    }
}

/// A picture is drawn once, in its frame, at its opacity.
pub proof fn pictures_are_drawn_in_their_frame<S: Scalar>(n: NodeModel<S>)
    requires
        n.kind == NodeKind::Image,
    ensures
        exists|i: int|
            0 <= i < shape_ops(n).len() && #[trigger] shape_ops(n)[i] == DrawModel::<S>::Picture(
                n.id,
                (n.x, n.y, n.w, n.h),
                n.fill_opacity,
            ) && forall|j: int|
                0 <= j < shape_ops(n).len() && j != i ==> (#[trigger] shape_ops(n)[j] is Push
                    || shape_ops(n)[j] is Pop),
{
    let ops = shape_ops(n);
    let i: int = if crate::geometry::turns(n.rotation) {
        1
    } else {
        0
    };
    assert(ops[i] == DrawModel::<S>::Picture(n.id, (n.x, n.y, n.w, n.h), n.fill_opacity));
}

/// Whether two lists of commands differ in the colours of their fills alone, and there in all but
/// the opacity.
pub open spec fn refilled<S>(a: Seq<DrawModel<S>>, b: Seq<DrawModel<S>>) -> bool {
    &&& a.len() == b.len()
    &&& forall|i: int|
        0 <= i < a.len() ==> a[i] == #[trigger] b[i] || (a[i] matches DrawModel::Fill(p, c)
            && b[i] matches DrawModel::Fill(q, d) && p == q && c.a == d.a)
}

/// Whether two lists of commands differ in the colours of their strokes alone, and there in all
/// but the opacity.
pub open spec fn restroked<S>(a: Seq<DrawModel<S>>, b: Seq<DrawModel<S>>) -> bool {
    &&& a.len() == b.len()
    &&& forall|i: int|
        0 <= i < a.len() ==> a[i] == #[trigger] b[i] || (a[i] matches DrawModel::Stroke(p, c, w)
            && b[i] matches DrawModel::Stroke(q, d, v) && p == q && c.a == d.a && v == w)
}

/// A shape in another fill is drawn alike but for the colour of its fill, and in another stroke but
/// for the colour of its outline.
pub proof fn colours_change_their_own_command<S: Scalar>(n: NodeModel<S>, text: Seq<char>)
    ensures
        refilled(shape_ops(n), shape_ops(NodeModel { fill: text, ..n })),
        restroked(shape_ops(n), shape_ops(NodeModel { stroke: text, ..n })),
{
    let a = shape_ops(n);
    let f = NodeModel { fill: text, ..n };
    let s = NodeModel { stroke: text, ..n };
    assert(shape_path(f) == shape_path(n));
    assert(shape_path(s) == shape_path(n));
    assert(paint(f).len() == paint(n).len());
    assert(paint(s).len() == paint(n).len());
    assert forall|i: int| 0 <= i < a.len() implies a[i] == #[trigger] shape_ops(f)[i] || (
    a[i] matches DrawModel::Fill(p, c) && shape_ops(f)[i] matches DrawModel::Fill(q, d) && p == q
        && c.a == d.a) by {}
    assert forall|i: int| 0 <= i < a.len() implies a[i] == #[trigger] shape_ops(s)[i] || (
    a[i] matches DrawModel::Stroke(p, c, w) && shape_ops(s)[i] matches DrawModel::Stroke(q, d, v)
        && p == q && c.a == d.a && v == w) by {}
}

// ---------------------------------------------------------------------------
// The whole drawing
// ---------------------------------------------------------------------------

/// The commands of some shapes, one after another.
pub open spec fn in_turn<S: Scalar>(rows: Seq<NodeModel<S>>, ids: Seq<u64>) -> Seq<DrawModel<S>>
    decreases ids.len(),
{
    if ids.len() == 0 {
        Seq::empty()
    } else {
        in_turn(rows, ids.drop_last()) + shape_ops(peek(rows, ids.last()))
    }
}

/// Where the commands of the `i`-th of some shapes begin.
pub open spec fn begins_at<S: Scalar>(rows: Seq<NodeModel<S>>, ids: Seq<u64>, i: int) -> int {
    in_turn(rows, ids.subrange(0, i)).len() as int
}

proof fn in_turn_joins<S: Scalar>(rows: Seq<NodeModel<S>>, a: Seq<u64>, b: Seq<u64>)
    ensures
        in_turn(rows, a + b) == in_turn(rows, a) + in_turn(rows, b),
    decreases b.len(),
{
    if b.len() == 0 {
        assert(a + b =~= a);
        assert(in_turn(rows, a) + in_turn(rows, b) =~= in_turn(rows, a));
    } else {
        assert((a + b).drop_last() =~= a + b.drop_last());
        in_turn_joins(rows, a, b.drop_last());
        assert(in_turn(rows, a + b) =~= in_turn(rows, a) + in_turn(rows, b));
    }
}

proof fn nodes_are_drawn_by_their_shapes<S: Scalar>(rows: Seq<NodeModel<S>>, id: u64, steps: nat)
    ensures
        node_ops(rows, id, steps) == in_turn(rows, shapes_within(rows, id, steps)),
    decreases steps, 0nat,
{
    if steps > 0 {
        if peek(rows, id).kind == NodeKind::Group {
            each_is_drawn_by_its_shapes(rows, children(rows, Some(id)), (steps - 1) as nat);
        } else {
            let one = seq![id];
            assert(one.drop_last() =~= Seq::<u64>::empty());
            assert(one.last() == id);
            assert(in_turn(rows, one.drop_last()) == Seq::<DrawModel<S>>::empty());
            assert(in_turn(rows, one) =~= shape_ops(peek(rows, id)));
        }
    }
}

proof fn each_is_drawn_by_its_shapes<S: Scalar>(
    rows: Seq<NodeModel<S>>,
    ids: Seq<u64>,
    steps: nat,
)
    ensures
        node_ops_each(rows, ids, steps) == in_turn(rows, shapes_within_each(rows, ids, steps)),
    decreases steps, ids.len(),
{
    if ids.len() > 0 {
        let front = ids.drop_last();
        each_is_drawn_by_its_shapes(rows, front, steps);
        nodes_are_drawn_by_their_shapes(rows, ids.last(), steps);
        in_turn_joins(
            rows,
            shapes_within_each(rows, front, steps),
            shapes_within(rows, ids.last(), steps),
        );
    }
}

proof fn turn_comes<S: Scalar>(rows: Seq<NodeModel<S>>, ids: Seq<u64>, i: int)
    requires
        0 <= i < ids.len(),
    ensures
        ({
            let k = begins_at(rows, ids, i);
            let own = shape_ops(peek(rows, ids[i]));
            &&& begins_at(rows, ids, i + 1) == k + own.len()
            &&& k + own.len() <= in_turn(rows, ids).len()
            &&& in_turn(rows, ids).subrange(k, k + own.len()) == own
        }),
{
    let (a, b) = (ids.subrange(0, i), ids.subrange(i + 1, ids.len() as int));
    let m = ids.subrange(0, i + 1);
    assert(m.drop_last() =~= a);
    assert(m.last() == ids[i]);
    assert(m + b =~= ids);
    in_turn_joins(rows, m, b);
    let k = begins_at(rows, ids, i);
    let own = shape_ops(peek(rows, ids[i]));
    assert(in_turn(rows, ids).subrange(k, k + own.len()) =~= own);
}

/// The shapes of a drawing, bottom to top.
pub open spec fn every_shape<S: Scalar>(rows: Seq<NodeModel<S>>) -> Seq<u64> {
    shapes_of_each(rows, children(rows, None))
}

/// A drawing shows every one of its shapes, by its own commands, in turn from the bottom up: after
/// the paper and the view, the commands of each shape follow those of the one below it.
pub proof fn scenes_show_their_shapes_in_turn<S: Scalar>(
    m: EditorModel<S>,
    viewport: Viewport<S>,
    guides: (Option<S>, Option<S>),
    band: Option<(S, S, S, S)>,
    i: int,
)
    requires
        0 <= i < every_shape(m.rows).len(),
    ensures
        ({
            let ops = scene_ops(m, viewport, guides, band);
            let ids = every_shape(m.rows);
            let own = shape_ops(peek(m.rows, ids[i]));
            let k = 3 + begins_at(m.rows, ids, i);
            &&& 3 <= k && k + own.len() <= ops.len()
            &&& ops.subrange(k, k + own.len()) == own
            &&& begins_at(m.rows, ids, i + 1) == begins_at(m.rows, ids, i) + own.len()
            &&& begins_at(m.rows, ids, 0) == 0
        }),
{
    let ids = every_shape(m.rows);
    let ops = scene_ops(m, viewport, guides, band);
    each_is_drawn_by_its_shapes(m.rows, children(m.rows, None), reach(m.rows));
    turn_comes(m.rows, ids, i);
    let body = in_turn(m.rows, ids);
    let head = paper_ops(m.background, viewport.size) + seq![DrawModel::Push(view_map(viewport))];
    let tail = seq![DrawModel::Pop] + mark_ops_each(m.rows, viewport, m.selection) + guide_ops(
        viewport,
        guides,
    ) + band_ops(band);
    assert(ops =~= head + body + tail);
    assert(head.len() == 3);
    let own = shape_ops(peek(m.rows, ids[i]));
    let k = begins_at(m.rows, ids, i);
    assert(ops.subrange(3 + k, 3 + k + own.len()) =~= body.subrange(k, k + own.len()));
    assert(ids.subrange(0, 0) =~= Seq::<u64>::empty());
}

/// A rectangle or an oval is seen in its own fill: among everything that a canvas shows there is a
/// fill of its outline, in the colour that its fill names, at its fill opacity.
pub proof fn every_figure_is_seen_in_its_fill<S: Scalar>(
    m: EditorModel<S>,
    viewport: Viewport<S>,
    guides: (Option<S>, Option<S>),
    band: Option<(S, S, S, S)>,
    i: int,
)
    requires
        0 <= i < every_shape(m.rows).len(),
        ({
            let n = peek(m.rows, every_shape(m.rows)[i]);
            (n.kind == NodeKind::Rect || n.kind == NodeKind::Oval) && six_digit_colour(n.fill)
        }),
    ensures
        ({
            let n = peek(m.rows, every_shape(m.rows)[i]);
            exists|k: int|
                0 <= k < scene_ops(m, viewport, guides, band).len() && (#[trigger] scene_ops(
                    m,
                    viewport,
                    guides,
                    band,
                )[k] matches DrawModel::Fill(path, c) && path == shape_path(n) && named(c, n.fill)
                    && c.a == n.fill_opacity)
        }),
{
    let n = peek(m.rows, every_shape(m.rows)[i]);
    let ops = scene_ops(m, viewport, guides, band);
    scenes_show_their_shapes_in_turn(m, viewport, guides, band, i);
    figures_are_filled_in_their_own_colour(n);
    let own = shape_ops(n);
    let j = choose|j: int|
        0 <= j < own.len() && (#[trigger] own[j] matches DrawModel::Fill(path, c) && path
            == shape_path(n) && named(c, n.fill) && c.a == n.fill_opacity && forall|l: int|
            0 <= l < own.len() && l != j ==> !(#[trigger] own[l] is Fill));
    let k = 3 + begins_at(m.rows, every_shape(m.rows), i);
    assert(ops.subrange(k, k + own.len())[j] == ops[k + j]);
}

proof fn refilling_joins<S>(
    a: Seq<DrawModel<S>>,
    b: Seq<DrawModel<S>>,
    c: Seq<DrawModel<S>>,
    d: Seq<DrawModel<S>>,
)
    ensures
        refilled(a, b) && refilled(c, d) ==> refilled(a + c, b + d),
        restroked(a, b) && restroked(c, d) ==> restroked(a + c, b + d),
{
    if refilled(a, b) && refilled(c, d) {
        assert forall|i: int| 0 <= i < (a + c).len() implies (a + c)[i] == #[trigger] (b + d)[i]
            || ((a + c)[i] matches DrawModel::Fill(p, e) && (b + d)[i] matches DrawModel::Fill(q, f)
            && p == q && e.a == f.a) by {
            if i < a.len() {
                assert((b + d)[i] == b[i]);
            } else {
                assert((b + d)[i] == d[i - a.len()]);
            }
        }
    }
    if restroked(a, b) && restroked(c, d) {
        assert forall|i: int| 0 <= i < (a + c).len() implies (a + c)[i] == #[trigger] (b + d)[i]
            || ((a + c)[i] matches DrawModel::Stroke(p, e, w)
            && (b + d)[i] matches DrawModel::Stroke(q, f, v) && p == q && e.a == f.a && v == w) by {
            if i < a.len() {
                assert((b + d)[i] == b[i]);
            } else {
                assert((b + d)[i] == d[i - a.len()]);
            }
        }
    }
}

proof fn coloured_in_turn<S: Scalar>(
    rows: Seq<NodeModel<S>>,
    ids: Seq<u64>,
    id: u64,
    text: Seq<char>,
)
    requires
        distinct(rows),
    ensures
        refilled(in_turn(rows, ids), in_turn(written(rows, id, FieldModel::Fill(text)), ids)),
        restroked(in_turn(rows, ids), in_turn(written(rows, id, FieldModel::Stroke(text)), ids)),
    decreases ids.len(),
{
    if ids.len() > 0 {
        let front = ids.drop_last();
        let x = ids.last();
        coloured_in_turn(rows, front, id, text);
        written_peeks(rows, id, FieldModel::Fill(text));
        written_peeks(rows, id, FieldModel::Stroke(text));
        let f = written(rows, id, FieldModel::Fill(text));
        let s = written(rows, id, FieldModel::Stroke(text));
        colours_change_their_own_command(peek(rows, x), text);
        refilling_joins(
            in_turn(rows, front),
            in_turn(f, front),
            shape_ops(peek(rows, x)),
            shape_ops(peek(f, x)),
        );
        refilling_joins(
            in_turn(rows, front),
            in_turn(s, front),
            shape_ops(peek(rows, x)),
            shape_ops(peek(s, x)),
        );
    }
}

/// Giving one node another fill changes nothing of how the nodes are drawn but the colours of
/// fills, and giving it another stroke nothing but the colours of strokes.
pub proof fn colouring_a_node_changes_its_colour_alone<S: Scalar>(
    rows: Seq<NodeModel<S>>,
    id: u64,
    text: Seq<char>,
)
    requires
        distinct(rows),
    ensures
        ({
            let f = written(rows, id, FieldModel::Fill(text));
            let s = written(rows, id, FieldModel::Stroke(text));
            let drawn = node_ops_each(rows, children(rows, None), reach(rows));
            &&& refilled(drawn, node_ops_each(f, children(f, None), reach(f)))
            &&& restroked(drawn, node_ops_each(s, children(s, None), reach(s)))
        }),
{
    let ff = FieldModel::Fill(text);
    let fs = FieldModel::Stroke(text);
    let f = written(rows, id, ff);
    let s = written(rows, id, fs);
    surface_writes_keep_the_layers(rows, id, ff);
    surface_writes_keep_the_layers(rows, id, fs);
    same_layers_same_stack(rows, f, None);
    same_layers_same_stack(rows, s, None);
    same_layers_same_shapes(rows, f, children(rows, None));
    same_layers_same_shapes(rows, s, children(rows, None));
    each_is_drawn_by_its_shapes(rows, children(rows, None), reach(rows));
    each_is_drawn_by_its_shapes(f, children(f, None), reach(f));
    each_is_drawn_by_its_shapes(s, children(s, None), reach(s));
    coloured_in_turn(rows, every_shape(rows), id, text);
}

} // verus!
