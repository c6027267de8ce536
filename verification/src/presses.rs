//! What a press begins, what makes two clicks one, and where imports come to stand, in millionths.
use vstd::prelude::*;
use crate::bounds::joint_bounds;
use crate::canvas::{begun, close_to, grabbed, CanvasModel, Drag, DragModel, Modifiers};
use crate::exact::within;
use crate::geometry::{Handle, Point};
use crate::gesture::nudges_move_each_shape_once;
use crate::hit::{hit_handle, hit_top_level};
use crate::images::initial_frame_spec;
use crate::micro::Micro;
use crate::millionths::half_reads;
use crate::node::{NodeKind, NodeModel};
use crate::ops::EditorModel;
use crate::paste::{pasted, room_for};
use crate::scalar::{half, Scalar};
use crate::scene::{distinct, has_row, highest_id, lineage, peek, shapes_of_each};
use crate::svg::parsed;
use crate::transfer::{import_placed, ImportModel};
use crate::viewport::Viewport;

verus! {

/// A press takes hold of what is under it: a handle, with the frame and the angle that its shape has;
/// else a shape, with all that is then selected and where each shape of it stands; else nothing, and
/// a band begins where the press was, which adds to the selection or replaces it.
pub proof fn presses_take_hold_of_what_is_there(
    c: CanvasModel<Micro>,
    m: EditorModel<Micro>,
    drag: Drag<Micro>,
    mods: Modifiers,
)
    requires
        within(drag.location.x, 1_000_000_000_000),
        within(drag.location.y, 1_000_000_000_000),
        within(drag.translation.x, 1_000_000_000_000),
        within(drag.translation.y, 1_000_000_000_000),
    ensures
        ({
            let (op, n) = begun(c, m, drag, mods);
            let (p, t) = (drag.location, drag.translation);
            let at = c.viewport.to_model(p);
            match op {
                DragModel::Idle => false,
                DragModel::Resize { id, corner, start, rotation } => {
                    let k = peek(m.rows, id);
                    &&& hit_handle(m.rows, m.selection, c.viewport, p) == Some(
                        (id, Handle::Corner(corner)),
                    )
                    &&& start == (k.x, k.y, k.w, k.h) && n == m
                    &&& k.kind == NodeKind::Rect || k.kind == NodeKind::Oval || k.kind
                        == NodeKind::Image ==> rotation == k.rotation
                },
                DragModel::Endpoint { id, end, start } => {
                    let k = peek(m.rows, id);
                    &&& hit_handle(m.rows, m.selection, c.viewport, p) == Some(
                        (id, Handle::End(end)),
                    )
                    &&& start == (k.x, k.y, k.w, k.h) && n == m
                },
                DragModel::Move { starts, copying } => {
                    let ids = shapes_of_each(n.rows, n.selection);
                    &&& hit_handle(m.rows, m.selection, c.viewport, p) is None
                    &&& hit_top_level(m.rows, at, c.viewport.zoom) is Some
                    &&& starts.len() == ids.len()
                    &&& forall|i: int|
                        0 <= i < ids.len() ==> #[trigger] starts[i] == (
                            ids[i],
                            peek(n.rows, ids[i]).x,
                            peek(n.rows, ids[i]).y,
                        )
                },
                DragModel::Band { anchor, base } => {
                    &&& hit_handle(m.rows, m.selection, c.viewport, p) is None
                    &&& hit_top_level(m.rows, at, c.viewport.zoom) is None
                    &&& anchor.x.raw == p.x.raw - t.x.raw && anchor.y.raw == p.y.raw - t.y.raw
                    &&& n == m
                    &&& mods.adds() ==> base == m.selection
                    &&& !mods.adds() ==> base.len() == 0
                },
            }
        }),
{
}

/// A press on what is not selected yet selects it: alone, or besides what is.
pub proof fn presses_select_what_they_take_hold_of<S: Scalar>(
    m: EditorModel<S>,
    top: u64,
    leaf: u64,
    mods: Modifiers,
)
    requires
        forall|i: int|
            0 <= i < m.selection.len() ==> !lineage(m.rows, leaf).contains(
                #[trigger] m.selection[i],
            ),
    ensures
        ({
            let n = grabbed(m, top, Some(leaf), mods);
            &&& n == (EditorModel { selection: n.selection, ..m })
            &&& n.selection.contains(top)
            &&& mods.adds() ==> n.selection =~= m.selection.push(top)
            &&& !mods.adds() ==> n.selection =~= seq![top]
        }),
{
    let n = grabbed(m, top, Some(leaf), mods);
    assert(n.selection[n.selection.len() - 1] == top);
}

/// Two events are one where the second comes soon enough, and less than five pixels away both ways.
pub proof fn events_are_one_within_five_pixels(
    then: u64,
    at: Point<Micro>,
    now: u64,
    p: Point<Micro>,
    span: u64,
)
    requires
        within(at.x, 1_000_000_000_000),
        within(at.y, 1_000_000_000_000),
        within(p.x, 1_000_000_000_000),
        within(p.y, 1_000_000_000_000),
    ensures
        close_to(then, at, now, p, span) <==> {
            &&& now < then + span || now <= then
            &&& -5_000_000 < p.x.raw - at.x.raw < 5_000_000
            &&& -5_000_000 < p.y.raw - at.y.raw < 5_000_000
        },
{
    assert(Micro::of_int(5).raw == 5_000_000);
}

/// An imported picture stands about the place that it was brought to, and is selected.
pub proof fn imported_pictures_stand_about_their_place(
    m: EditorModel<Micro>,
    v: Viewport<Micro>,
    bytes: Seq<u8>,
    size: (Micro, Micro),
    at: Point<Micro>,
)
    requires
        highest_id(m.rows) < u64::MAX,
        within(at.x, 1_000_000_000_000),
        within(at.y, 1_000_000_000_000),
        within(initial_frame_spec(v, size).2, 1_000_000_000_000),
        within(initial_frame_spec(v, size).3, 1_000_000_000_000),
    ensures
        ({
            let after = import_placed(m, v, ImportModel::Image(bytes, size), at);
            let n = after.rows.last();
            &&& after.rows.len() == m.rows.len() + 1 && after.rows.drop_last() =~= m.rows
            &&& after.selection =~= seq![n.id]
            &&& n.kind == NodeKind::Image && n.image_bytes == bytes
            &&& -1 <= 2 * n.x.raw + n.w.raw - 2 * at.x.raw <= 1
            &&& -1 <= 2 * n.y.raw + n.h.raw - 2 * at.y.raw <= 1
        }),
{
    let f = initial_frame_spec(v, size);
    half_reads(f.2);
    half_reads(f.3);
}

/// An imported drawing is pasted, and moved as a whole so that its middle comes to the place that it
/// was brought to.
pub proof fn imported_drawings_stand_about_their_place(
    m: EditorModel<Micro>,
    v: Viewport<Micro>,
    text: Seq<char>,
    at: Point<Micro>,
    id: u64,
)
    requires
        room_for(m.rows, parsed::<Micro>(text)),
        within(at.x, 1_000_000_000_000),
        within(at.y, 1_000_000_000_000),
        ({
            let n = pasted(m, text);
            let b = joint_bounds(n.rows, n.selection);
            let f = b->0;
            &&& distinct(n.rows)
            &&& b is Some
            &&& within(f.0, 1_000_000_000_000) && within(f.1, 1_000_000_000_000)
            &&& within(f.2, 1_000_000_000_000) && within(f.3, 1_000_000_000_000)
            &&& shapes_of_each(n.rows, n.selection).contains(id) && has_row(n.rows, id)
            &&& within(peek(n.rows, id).x, 1_000_000_000_000)
            &&& within(peek(n.rows, id).y, 1_000_000_000_000)
        }),
    ensures
        ({
            let n = pasted(m, text);
            let b = joint_bounds(n.rows, n.selection)->0;
            let after = import_placed(m, v, ImportModel::Drawing(text), at);
            let (k, l) = (peek(n.rows, id), peek(after.rows, id));
            &&& after.selection == n.selection
            &&& l == (NodeModel { x: l.x, y: l.y, ..k })
            &&& -1 <= 2 * (l.x.raw - k.x.raw) - (2 * at.x.raw - (2 * b.0.raw + b.2.raw)) <= 1
            &&& -1 <= 2 * (l.y.raw - k.y.raw) - (2 * at.y.raw - (2 * b.1.raw + b.3.raw)) <= 1
        }),
{
    let n = pasted(m, text);
    let b = joint_bounds(n.rows, n.selection)->0;
    half_reads(b.2);
    half_reads(b.3);
    let dx = at.x.minus(b.0).minus(half(b.2));
    let dy = at.y.minus(b.1).minus(half(b.3));
    nudges_move_each_shape_once(n.rows, n.selection, dx, dy, id);
}

} // verus!
