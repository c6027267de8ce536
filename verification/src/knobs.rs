//! What the controls of the inspector reach: each its own column of the shapes that it is for, and
//! no other.
use vstd::prelude::*;
use crate::bounds::line_ends;
use crate::canvas::{key_action, KeyAction};
use crate::exact::{moderate, sines_stay_within_one, within};
use crate::geometry::{center, turn_about};
use crate::inspector::{color_set_each, prop_set, style_set_each, Prop, StyleColor, StyleNum};
use crate::micro::Micro;
use crate::millionths::half_reads;
use crate::motion::{extent_set, h_set, shifted_each, turned_to, w_set};
use crate::node::{NodeKind, NodeModel};
use crate::order::written_peeks;
use crate::products::{distributed, product_within};
use crate::scalar::Scalar;
use crate::scene::{distinct, has_row, peek, written, FieldModel};
use crate::shown::turned_lines_move_their_ends;
use crate::turning::turned_point_is;
use crate::viewport::Viewport;

verus! {

/// What an edit of a numeric style makes of a shape: its own column alone, which takes the value,
/// and for a width or a radius no less than nought.
pub open spec fn restyled(n: NodeModel<Micro>, m: NodeModel<Micro>, num: StyleNum, v: Micro) -> bool {
    let floor = if v.raw < 0 {
        0
    } else {
        v.raw as int
    };
    match num {
        StyleNum::FillOpacity => m == (NodeModel { fill_opacity: v, ..n }),
        StyleNum::StrokeOpacity => m == (NodeModel { stroke_opacity: v, ..n }),
        StyleNum::StrokeWidth => m == (NodeModel { stroke_width: m.stroke_width, ..n })
            && m.stroke_width.raw == floor,
        StyleNum::CornerRadius => m == (NodeModel { corner_radius: m.corner_radius, ..n })
            && m.corner_radius.raw == floor,
        StyleNum::Rotation => true,
    }
}

/// A numeric style reaches its own column of each of its shapes, and nothing else.
pub proof fn styles_reach_their_own_column(
    rows: Seq<NodeModel<Micro>>,
    ids: Seq<u64>,
    num: StyleNum,
    v: Micro,
)
    requires
        distinct(rows),
        num != StyleNum::Rotation,
    ensures
        ({
            let after = style_set_each(rows, ids, num, v);
            &&& distinct(after)
            &&& forall|x: u64| #[trigger] has_row(after, x) <==> has_row(rows, x)
            &&& forall|x: u64|
                ids.contains(x) && has_row(rows, x) ==> restyled(
                    peek(rows, x),
                    #[trigger] peek(after, x),
                    num,
                    v,
                )
            &&& forall|x: u64| !ids.contains(x) ==> #[trigger] peek(after, x) == peek(rows, x)
        }),
    decreases ids.len(),
{
    if ids.len() > 0 {
        let front = ids.drop_last();
        let id = ids.last();
        styles_reach_their_own_column(rows, front, num, v);
        let r = style_set_each(rows, front, num, v);
        let f = match num {
            StyleNum::FillOpacity => FieldModel::FillOpacity(v),
            StyleNum::StrokeOpacity => FieldModel::StrokeOpacity(v),
            StyleNum::StrokeWidth => FieldModel::StrokeWidth(v.greater(Micro::of_int(0))),
            StyleNum::CornerRadius => FieldModel::CornerRadius(v.greater(Micro::of_int(0))),
            StyleNum::Rotation => FieldModel::Rotation(v),
        };
        written_peeks(r, id, f);
        let after = style_set_each(rows, ids, num, v);
        assert(after == written(r, id, f));
        assert(ids[ids.len() - 1] == id);
        assert forall|x: u64| front.contains(x) implies ids.contains(x) by {
            let i = choose|i: int| 0 <= i < front.len() && front[i] == x;
            assert(ids[i] == x);
        }
        assert forall|x: u64| #[trigger] has_row(after, x) <==> has_row(rows, x) by {
            assert(has_row(r, x) <==> has_row(rows, x));
        }
        assert forall|x: u64| ids.contains(x) && has_row(rows, x) implies restyled(
            peek(rows, x),
            #[trigger] peek(after, x),
            num,
            v,
        ) by {
            assert(has_row(r, x) <==> has_row(rows, x));
            if x != id {
                let i = choose|i: int| 0 <= i < ids.len() && ids[i] == x;
                assert(front[i] == x);
                assert(front.contains(x));
                assert(peek(after, x) == peek(r, x));
            } else if front.contains(x) {
                assert(restyled(peek(rows, x), peek(r, x), num, v));
            } else {
                assert(peek(r, x) == peek(rows, x));
            }
        }
        assert forall|x: u64| !ids.contains(x) implies #[trigger] peek(after, x) == peek(rows, x) by {
            assert(x != id);
            assert(peek(r, x) == peek(rows, x));
        }
    }
}

/// A colour reaches its own column of each of its shapes, and nothing else.
pub proof fn colours_reach_their_own_column<S: Scalar>(
    rows: Seq<NodeModel<S>>,
    ids: Seq<u64>,
    text: Seq<char>,
)
    requires
        distinct(rows),
    ensures
        ({
            let f = color_set_each(rows, ids, StyleColor::Fill, text);
            let s = color_set_each(rows, ids, StyleColor::Stroke, text);
            &&& distinct(f) && distinct(s)
            &&& forall|x: u64| #[trigger] has_row(f, x) <==> has_row(rows, x)
            &&& forall|x: u64| #[trigger] has_row(s, x) <==> has_row(rows, x)
            &&& forall|x: u64|
                has_row(rows, x) ==> #[trigger] peek(f, x) == if ids.contains(x) {
                    NodeModel { fill: text, ..peek(rows, x) }
                } else {
                    peek(rows, x)
                }
            &&& forall|x: u64|
                has_row(rows, x) ==> #[trigger] peek(s, x) == if ids.contains(x) {
                    NodeModel { stroke: text, ..peek(rows, x) }
                } else {
                    peek(rows, x)
                }
        }),
    decreases ids.len(),
{
    if ids.len() > 0 {
        let front = ids.drop_last();
        let id = ids.last();
        colours_reach_their_own_column(rows, front, text);
        let f = color_set_each(rows, front, StyleColor::Fill, text);
        let s = color_set_each(rows, front, StyleColor::Stroke, text);
        written_peeks(f, id, FieldModel::Fill(text));
        written_peeks(s, id, FieldModel::Stroke(text));
        assert(ids[ids.len() - 1] == id);
        assert forall|x: u64| ids.contains(x) <==> front.contains(x) || x == id by {
            if ids.contains(x) && x != id {
                let i = choose|i: int| 0 <= i < ids.len() && ids[i] == x;
                assert(front[i] == x);
            }
            if front.contains(x) {
                let i = choose|i: int| 0 <= i < front.len() && front[i] == x;
                assert(ids[i] == x);
            }
        }
        let f1 = color_set_each(rows, ids, StyleColor::Fill, text);
        let s1 = color_set_each(rows, ids, StyleColor::Stroke, text);
        assert forall|x: u64| #[trigger] has_row(f1, x) <==> has_row(rows, x) by {
            assert(has_row(f, x) <==> has_row(rows, x));
        }
        assert forall|x: u64| #[trigger] has_row(s1, x) <==> has_row(rows, x) by {
            assert(has_row(s, x) <==> has_row(rows, x));
        }
        assert forall|x: u64| has_row(rows, x) implies #[trigger] peek(f1, x) == if ids.contains(x) {
            NodeModel { fill: text, ..peek(rows, x) }
        } else {
            peek(rows, x)
        } by {
            assert(has_row(f, x) <==> has_row(rows, x));
            assert(peek(f, x) == peek(f, x));
        }
        assert forall|x: u64| has_row(rows, x) implies #[trigger] peek(s1, x) == if ids.contains(x) {
            NodeModel { stroke: text, ..peek(rows, x) }
        } else {
            peek(rows, x)
        } by {
            assert(has_row(s, x) <==> has_row(rows, x));
            assert(peek(s, x) == peek(s, x));
        }
    }
}

/// A typed extent is the extent: no less than the least one of eight units, and a line keeps its
/// direction and may be flat. Everything else stays, and a group has no extent to set.
pub proof fn typed_extents_are_taken(rows: Seq<NodeModel<Micro>>, id: u64, v: Micro)
    requires
        distinct(rows),
        has_row(rows, id),
        within(v, 1_000_000_000_000_000),
        within(peek(rows, id).w, 1_000_000_000_000_000),
        within(peek(rows, id).h, 1_000_000_000_000_000),
    ensures
        ({
            let n = peek(rows, id);
            let (a, b) = (peek(w_set(rows, id, v), id), peek(h_set(rows, id, v), id));
            let most = if v.raw < 0 {
                0
            } else {
                v.raw as int
            };
            let least = if v.raw < 8_000_000 {
                8_000_000
            } else {
                v.raw as int
            };
            &&& a == (NodeModel { w: a.w, ..n }) && b == (NodeModel { h: b.h, ..n })
            &&& n.kind == NodeKind::Group ==> a == n && b == n
            &&& n.kind == NodeKind::Line ==> {
                &&& a.w.raw == if n.w.raw < 0 {
                    -most
                } else {
                    most
                }
                &&& b.h.raw == if n.h.raw < 0 {
                    -most
                } else {
                    most
                }
            }
            &&& n.kind != NodeKind::Group && n.kind != NodeKind::Line ==> a.w.raw == least && b.h.raw
                == least
        }),
        prop_set(rows, id, Prop::W, v) == w_set(rows, id, v),
        prop_set(rows, id, Prop::H, v) == h_set(rows, id, v),
{
    let n = peek(rows, id);
    written_peeks(rows, id, FieldModel::W(extent_set(n.kind, n.w, v)));
    written_peeks(rows, id, FieldModel::H(extent_set(n.kind, n.h, v)));
}

/// A nudge moves each shape by just as much, and nothing else.
pub proof fn nudges_move_by_just_as_much(
    rows: Seq<NodeModel<Micro>>,
    id: u64,
    dx: Micro,
    dy: Micro,
)
    requires
        distinct(rows),
        has_row(rows, id),
        moderate(peek(rows, id).x),
        moderate(peek(rows, id).y),
        moderate(dx),
        moderate(dy),
    ensures
        ({
            let (n, m) = (peek(rows, id), peek(shifted_each(rows, seq![id], dx, dy), id));
            &&& m == (NodeModel { x: m.x, y: m.y, ..n })
            &&& m.x.raw == n.x.raw + dx.raw && m.y.raw == n.y.raw + dy.raw
        }),
{
    let one = seq![id];
    assert(one.drop_last() =~= Seq::<u64>::empty());
    assert(one.last() == id);
    assert(shifted_each(rows, one.drop_last(), dx, dy) == rows);
    let n = peek(rows, id);
    let r = if dx.equals(Micro::of_int(0)) {
        rows
    } else {
        written(rows, id, FieldModel::X(n.x.plus(dx)))
    };
    written_peeks(rows, id, FieldModel::X(n.x.plus(dx)));
    assert(has_row(r, id));
    written_peeks(r, id, FieldModel::Y(peek(r, id).y.plus(dy)));
}

/// Turning a line turns it about its middle, by as much as the angle differs from the one that it
/// has: the middle stays, and its extents turn together, but for some millionths.
pub proof fn lines_turn_about_their_middle(rows: Seq<NodeModel<Micro>>, id: u64, angle: Micro)
    requires
        distinct(rows),
        has_row(rows, id),
        peek(rows, id).kind == NodeKind::Line,
        within(peek(rows, id).x, 1_000_000_000_000),
        within(peek(rows, id).y, 1_000_000_000_000),
        within(peek(rows, id).w, 1_000_000_000_000),
        within(peek(rows, id).h, 1_000_000_000_000),
        within(peek(rows, id).rotation, 1_000_000_000_000_000),
        within(angle, 1_000_000_000_000_000),
    ensures
        ({
            let (n, m) = (peek(rows, id), peek(turned_to(rows, id, angle), id));
            let (sin, cos) = Micro { raw: (angle.raw - n.rotation.raw) as i64 }.sine_cosine();
            let (s, k) = (sin.raw as int, cos.raw as int);
            let (w, h) = (n.w.raw as int, n.h.raw as int);
            &&& m == (NodeModel { x: m.x, y: m.y, w: m.w, h: m.h, ..n })
            &&& -10_000_000 <= 1_000_000 * m.w.raw - (w * k - h * s) <= 10_000_000
            &&& -10_000_000 <= 1_000_000 * m.h.raw - (w * s + h * k) <= 10_000_000
            &&& -20 <= (2 * m.x.raw + m.w.raw) - (2 * n.x.raw + w) <= 20
            &&& -20 <= (2 * m.y.raw + m.h.raw) - (2 * n.y.raw + h) <= 20
        }),
{
    let n = peek(rows, id);
    let m = peek(turned_to(rows, id, angle), id);
    let delta = angle.minus(n.rotation);
    assert(delta == Micro { raw: (angle.raw - n.rotation.raw) as i64 });
    let (sin, cos) = delta.sine_cosine();
    let (s, k) = (sin.raw as int, cos.raw as int);
    sines_stay_within_one(delta);
    turned_lines_move_their_ends(rows, id, angle);
    half_reads(n.w);
    half_reads(n.h);
    let c = center((n.x, n.y, n.w, n.h));
    let (a, b) = line_ends(n);
    turned_point_is(a, c, delta);
    turned_point_is(b, c, delta);
    let (a2, b2) = (turn_about(a, c, delta), turn_about(b, c, delta));
    ends_turn(
        (a.x.raw - c.x.raw, a.y.raw - c.y.raw),
        (b.x.raw - c.x.raw, b.y.raw - c.y.raw),
        (a2.x.raw - c.x.raw, a2.y.raw - c.y.raw),
        (b2.x.raw - c.x.raw, b2.y.raw - c.y.raw),
        s,
        k,
    );
    assert(b.x.raw - a.x.raw == n.w.raw && b.y.raw - a.y.raw == n.h.raw);
    let f0 = FieldModel::X(a2.x);
    let f1 = FieldModel::Y(a2.y);
    let f2 = FieldModel::W(b2.x.minus(a2.x));
    let f3 = FieldModel::H(b2.y.minus(a2.y));
    written_peeks(rows, id, f0);
    let r = written(rows, id, f0);
    written_peeks(r, id, f1);
    let r = written(r, id, f1);
    written_peeks(r, id, f2);
    let r = written(r, id, f2);
    written_peeks(r, id, f3);
}

/// Two ends about a middle, each turned but for some millionths, are apart as they were, turned, and
/// still about the middle.
proof fn ends_turn(
    a: (int, int),
    b: (int, int),
    a2: (int, int),
    b2: (int, int),
    s: int,
    k: int,
)
    requires
        -1_000_000 <= s <= 1_000_000,
        -1_000_000 <= k <= 1_000_000,
        -2 <= a.0 + b.0 <= 2,
        -2 <= a.1 + b.1 <= 2,
        -2_000_000 < a2.0 * 1_000_000 - (a.0 * k - a.1 * s) < 2_000_000,
        -2_000_000 < a2.1 * 1_000_000 - (a.0 * s + a.1 * k) < 2_000_000,
        -2_000_000 < b2.0 * 1_000_000 - (b.0 * k - b.1 * s) < 2_000_000,
        -2_000_000 < b2.1 * 1_000_000 - (b.0 * s + b.1 * k) < 2_000_000,
    ensures
        ({
            let (w, h) = (b.0 - a.0, b.1 - a.1);
            &&& -4_000_000 <= 1_000_000 * (b2.0 - a2.0) - (w * k - h * s) <= 4_000_000
            &&& -4_000_000 <= 1_000_000 * (b2.1 - a2.1) - (w * s + h * k) <= 4_000_000
            &&& -8 <= a2.0 + b2.0 <= 8
            &&& -8 <= a2.1 + b2.1 <= 8
        }),
{
    distributed(k, b.0, a.0);
    distributed(s, b.0, a.0);
    distributed(k, b.1, a.1);
    distributed(s, b.1, a.1);
    product_within(b.0 + a.0, k, 2, 1_000_000);
    product_within(b.0 + a.0, s, 2, 1_000_000);
    product_within(b.1 + a.1, k, 2, 1_000_000);
    product_within(b.1 + a.1, s, 2, 1_000_000);
}

/// The zoom is told in the nearest whole percent.
pub proof fn zooms_are_told_in_percent(v: Viewport<Micro>)
    requires
        0 <= v.zoom.raw <= 1_000_000_000_000,
    ensures
        -5_000 <= 10_000 * v.zoom_percent() - v.zoom.raw <= 5_000,
{
    let t = v.zoom.times(Micro::of_int(100));
    let n = v.zoom.raw * 100_000_000;
    assert(Micro::of_int(100).raw == 100_000_000);
    assert(t.raw == n / 1_000_000);
    assert(t.raw == 100 * v.zoom.raw);
}

/// Whether a key nudges by the given way, in millionths.
pub open spec fn nudges_by(action: KeyAction<Micro>, dx: int, dy: int) -> bool {
    action matches KeyAction::Nudge(x, y) && x.raw == dx && y.raw == dy
}

/// An arrow nudges its own way by one, or by ten with shift; no other key does.
pub proof fn arrows_nudge_their_own_way(key: Seq<char>, shift: bool, owns_delete: bool)
    ensures
        ({
            let act = key_action::<Micro>(key, shift, owns_delete);
            let s = if shift {
                10_000_000int
            } else {
                1_000_000int
            };
            &&& key == "ArrowLeft"@ ==> nudges_by(act, -s, 0)
            &&& key == "ArrowRight"@ ==> nudges_by(act, s, 0)
            &&& key == "ArrowUp"@ ==> nudges_by(act, 0, -s)
            &&& key == "ArrowDown"@ ==> nudges_by(act, 0, s)
            &&& act is Nudge ==> key == "ArrowLeft"@ || key == "ArrowRight"@ || key == "ArrowUp"@
                || key == "ArrowDown"@
            &&& act is Delete ==> owns_delete && (key == "Delete"@ || key == "Backspace"@)
            &&& owns_delete && (key == "Delete"@ || key == "Backspace"@) ==> act is Delete
        }),
{
    reveal_strlit("ArrowLeft");
    reveal_strlit("ArrowRight");
    reveal_strlit("ArrowUp");
    reveal_strlit("ArrowDown");
    reveal_strlit("Delete");
    reveal_strlit("Backspace");
    assert("ArrowDown"@[5] == 'D' && "ArrowLeft"@[5] == 'L' && "Backspace"@[5] == 'p');
    assert("ArrowLeft"@.len() == 9 && "ArrowRight"@.len() == 10 && "ArrowUp"@.len() == 7
        && "ArrowDown"@.len() == 9 && "Delete"@.len() == 6 && "Backspace"@.len() == 9);
    assert(Micro::of_int(-1i64 as i64).raw == -1_000_000 && Micro::of_int(0).raw == 0
        && Micro::of_int(1).raw == 1_000_000 && Micro::of_int(10).raw == 10_000_000);
}

} // verus!
