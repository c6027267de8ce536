//! The canvas: clicks, keys, and the drag machine behind moving, resizing and the rubber band.
//!
//! A drag edits the drawing live, frame by frame, from the values it began on; what it leaves
//! behind is decided by the frame it ends on alone. A band edits nothing: it writes the
//! selection, which is no part of the drawing.
use vstd::prelude::*;
use crate::geometry::{
    corner_dragged, line_dragged, line_stretched, turns_resize, Corner, Handle, LineEnd, Point,
};
use crate::hit::{
    hit_handle, hit_leaf, hit_top_level, join, rotation_of, swept_band, swept_selection, touched_by,
};
use crate::motion::{selected_shapes, shifted_each};
use crate::node::NodeModel;
use crate::ops::{removed_each, Editor, EditorModel};
use crate::paste::{copied_in_place, copies};
use crate::scalar::{tiny, Scalar};
use crate::scene::{
    first_index, lineage, peek, position, shapes_of_each, toward, written, Field, FieldModel, Scene,
};
use crate::snap::{
    find_pull, guide, moving_frame, pull, pulled, push_span, span_lines, stops_across, stops_down,
};
use crate::viewport::Viewport;

verus! {

/// The keys held during a gesture.
#[derive(Clone, Copy, Debug, PartialEq, Eq, Structural)]
pub struct Modifiers {
    pub shift: bool,
    /// The platform's command key.
    pub primary: bool,
    pub alt: bool,
}

impl Modifiers {
    /// Whether a press adds to the selection rather than replacing it.
    pub open spec fn adds_spec(self) -> bool {
        self.shift || self.primary
    }

    #[verifier::when_used_as_spec(adds_spec)]
    pub fn adds(self) -> (r: bool)
        ensures
            r == self.adds_spec(),
    {
        self.shift || self.primary
    }
}

#[derive(Clone, Copy, Debug, PartialEq, Eq, Structural)]
pub enum DragPhase {
    Began,
    Changed,
    Ended,
}

/// One report of a drag, in screen pixels. `translation` is the travel since the press.
#[derive(Debug, PartialEq)]
pub struct Drag<S> {
    pub phase: DragPhase,
    pub location: Point<S>,
    pub translation: Point<S>,
}

/// Which recognizer reported a click.
#[derive(Clone, Copy, Debug, PartialEq, Eq, Structural)]
pub enum ClickSource {
    Tap,
    DragEnd,
}

/// What the pointer is dragging, and what it began on.
pub enum DragOp<S> {
    Idle,
    /// Every affected shape with its starting origin.
    Move { starts: Vec<(u64, S, S)>, copying: bool },
    /// One shape, one corner, its starting frame, and the angle that frame is drawn under.
    Resize { id: u64, corner: Corner, start: (S, S, S, S), rotation: S },
    /// One end of a line, with the line's starting fields.
    Endpoint { id: u64, end: LineEnd, start: (S, S, S, S) },
    /// A rubber band: where on screen it grows from, and the selection it adds to.
    Band { anchor: Point<S>, base: Vec<u64> },
}

/// What a [`DragOp`] holds, as values.
pub ghost enum DragModel<S> {
    Idle,
    Move { starts: Seq<(u64, S, S)>, copying: bool },
    Resize { id: u64, corner: Corner, start: (S, S, S, S), rotation: S },
    Endpoint { id: u64, end: LineEnd, start: (S, S, S, S) },
    Band { anchor: Point<S>, base: Seq<u64> },
}

impl<S> View for DragOp<S> {
    type V = DragModel<S>;

    open spec fn view(&self) -> DragModel<S> {
        match self {
            DragOp::Idle => DragModel::Idle,
            DragOp::Move { starts, copying } => DragModel::Move {
                starts: starts@,
                copying: *copying,
            },
            DragOp::Resize { id, corner, start, rotation } => DragModel::Resize {
                id: *id,
                corner: *corner,
                start: *start,
                rotation: *rotation,
            },
            DragOp::Endpoint { id, end, start } => DragModel::Endpoint {
                id: *id,
                end: *end,
                start: *start,
            },
            DragOp::Band { anchor, base } => DragModel::Band { anchor: *anchor, base: base@ },
        }
    }
}

/// What the canvas remembers between events.
pub struct Canvas<S> {
    pub viewport: Viewport<S>,
    pub op: DragOp<S>,
    /// The band on show, in screen pixels.
    pub band: Option<(S, S, S, S)>,
    /// The last click acted on: when in nanoseconds, where, and who reported it.
    pub last_click: Option<(u64, Point<S>, ClickSource)>,
    /// The last tap, which the next one may repeat.
    pub last_tap: Option<(u64, Point<S>)>,
    /// The zoom that a pinch began at, and where it began.
    pub pinch: (S, Point<S>),
    /// Whether what is dragged lines up with its neighbours.
    pub snapping: bool,
    /// The upright and the level lines of what is dragged, as the drag began.
    pub edges: (Vec<S>, Vec<S>),
    /// The upright and the level lines that its neighbours offer.
    pub stops: (Vec<S>, Vec<S>),
    /// The upright and the level line on show that the drag has come near to.
    pub guides: (Option<S>, Option<S>),
}

/// What a [`Canvas`] holds, as values.
pub ghost struct CanvasModel<S> {
    pub viewport: Viewport<S>,
    pub op: DragModel<S>,
    pub band: Option<(S, S, S, S)>,
    pub last_click: Option<(u64, Point<S>, ClickSource)>,
    pub last_tap: Option<(u64, Point<S>)>,
    pub pinch: (S, Point<S>),
    pub snapping: bool,
    pub edges: (Seq<S>, Seq<S>),
    pub stops: (Seq<S>, Seq<S>),
    pub guides: (Option<S>, Option<S>),
}

impl<S> View for Canvas<S> {
    type V = CanvasModel<S>;

    open spec fn view(&self) -> CanvasModel<S> {
        CanvasModel {
            viewport: self.viewport,
            op: self.op@,
            band: self.band,
            last_click: self.last_click,
            last_tap: self.last_tap,
            pinch: self.pinch,
            snapping: self.snapping,
            edges: (self.edges.0@, self.edges.1@),
            stops: (self.stops.0@, self.stops.1@),
            guides: self.guides,
        }
    }
}

// ---------------------------------------------------------------------------
// Clicks
// ---------------------------------------------------------------------------

/// `selection` with `id` put in, or taken out where it was in.
pub open spec fn toggled(selection: Seq<u64>, id: u64) -> Seq<u64> {
    match first_index(selection, id) {
        Some(i) => selection.remove(i),
        None => selection.push(id),
    }
}

/// What a click at a point of the drawing selects. A plain click replaces the selection, one
/// that adds toggles; a click on nothing clears it.
pub open spec fn selected_at<S: Scalar>(
    m: EditorModel<S>,
    p: Point<S>,
    zoom: S,
    adds: bool,
) -> Seq<u64> {
    match hit_top_level(m.rows, p, zoom) {
        None => Seq::empty(),
        Some(id) => if adds {
            toggled(m.selection, id)
        } else {
            seq![id]
        },
    }
}

/// What a repeated click selects: one level deeper towards the shape under the pointer, where
/// that shape is inside the sole selected node. A selected shape is held. `None` where the
/// click is an ordinary one.
pub open spec fn drilled_at<S: Scalar>(m: EditorModel<S>, p: Point<S>, zoom: S) -> Option<Seq<u64>> {
    match hit_leaf(m.rows, p, zoom) {
        None => None,
        Some(leaf) => if m.selection.len() != 1 {
            None
        } else if m.selection[0] == leaf {
            Some(m.selection)
        } else {
            match toward(lineage(m.rows, leaf), m.selection[0]) {
                Some(next) => Some(seq![next]),
                None => None,
            }
        },
    }
}

/// What a tap selects.
pub open spec fn tapped<S: Scalar>(
    m: EditorModel<S>,
    p: Point<S>,
    zoom: S,
    mods: Modifiers,
    repeat: bool,
) -> Seq<u64> {
    match drilled_at(m, p, zoom) {
        Some(next) => if repeat && !mods.adds() {
            next
        } else {
            selected_at(m, p, zoom, mods.adds())
        },
        None => selected_at(m, p, zoom, mods.adds()),
    }
}

/// Whether an earlier event came less than `within` nanoseconds ago, less than five pixels
/// away.
pub open spec fn close_to<S: Scalar>(
    then: u64,
    at: Point<S>,
    now: u64,
    p: Point<S>,
    within: u64,
) -> bool {
    &&& (now <= then || now - then < within)
    &&& p.x.minus(at.x).magnitude().below(S::of_int(5))
    &&& p.y.minus(at.y).magnitude().below(S::of_int(5))
}

/// Whether a click is the second report of a press that another recognizer has reported: less
/// than 30 milliseconds later. Two reports of one recognizer are two clicks.
pub open spec fn reported_twice<S: Scalar>(
    c: CanvasModel<S>,
    p: Point<S>,
    source: ClickSource,
    now: u64,
) -> bool {
    match c.last_click {
        Some((then, at, by)) => by != source && close_to(then, at, now, p, 30_000_000),
        None => false,
    }
}

/// Whether a tap is the second of a double click: less than 350 milliseconds after the first.
pub open spec fn repeats<S: Scalar>(c: CanvasModel<S>, p: Point<S>, now: u64) -> bool {
    match c.last_tap {
        Some((then, at)) => close_to(then, at, now, p, 350_000_000),
        None => false,
    }
}

/// What one report of a click does. `clock` is the time in nanoseconds; without a clock no
/// report is dropped, and every tap may drill.
pub open spec fn clicked<S: Scalar>(
    c: CanvasModel<S>,
    m: EditorModel<S>,
    p: Point<S>,
    mods: Modifiers,
    source: ClickSource,
    clock: Option<u64>,
) -> (CanvasModel<S>, EditorModel<S>) {
    let at = c.viewport.to_model(p);
    match clock {
        Some(now) => if reported_twice(c, p, source, now) {
            (c, m)
        } else {
            let repeat = source == ClickSource::Tap && repeats(c, p, now);
            (
                CanvasModel {
                    last_click: Some((now, p, source)),
                    last_tap: match source {
                        ClickSource::Tap => Some((now, p)),
                        ClickSource::DragEnd => None,
                    },
                    ..c
                },
                EditorModel { selection: tapped(m, at, c.viewport.zoom, mods, repeat), ..m },
            )
        },
        None => (
            c,
            EditorModel {
                selection: tapped(m, at, c.viewport.zoom, mods, source == ClickSource::Tap),
                ..m
            },
        ),
    }
}

// ---------------------------------------------------------------------------
// Drags
// ---------------------------------------------------------------------------

/// One of the geometry columns.
#[derive(Clone, Copy, Debug, PartialEq, Eq, Structural)]
pub enum Side {
    X,
    Y,
    W,
    H,
}

/// One geometry column of one row, with the value it takes.
pub struct Put<S> {
    pub id: u64,
    pub side: Side,
    pub value: S,
}

pub open spec fn side_field<S>(side: Side, value: S) -> FieldModel<S> {
    match side {
        Side::X => FieldModel::X(value),
        Side::Y => FieldModel::Y(value),
        Side::W => FieldModel::W(value),
        Side::H => FieldModel::H(value),
    }
}

/// The rows after some columns were written, in turn.
pub open spec fn put_each<S>(rows: Seq<NodeModel<S>>, puts: Seq<Put<S>>) -> Seq<NodeModel<S>>
    decreases puts.len(),
{
    if puts.len() == 0 {
        rows
    } else {
        let p = puts.last();
        written(put_each(rows, puts.drop_last()), p.id, side_field(p.side, p.value))
    }
}

/// What a column comes to at a moment of a drag. A drag that is over puts a column that ended
/// where it began back to exactly what it was.
pub open spec fn settled_spec<S: Scalar>(start: S, end: S, over: bool) -> S {
    if over && end.equals(start) {
        start
    } else {
        end
    }
}

#[verifier::when_used_as_spec(settled_spec)]
pub fn settled<S: Scalar>(start: S, end: S, over: bool) -> (r: S)
    ensures
        r == settled_spec(start, end, over),
{
    if over && end.equals(start) {
        start
    } else {
        end
    }
}

/// The writes that move shapes by `(dx, dy)` from where they started.
pub open spec fn move_puts<S: Scalar>(starts: Seq<(u64, S, S)>, dx: S, dy: S, over: bool) -> Seq<
    Put<S>,
>
    decreases starts.len(),
{
    if starts.len() == 0 {
        Seq::empty()
    } else {
        let (id, x, y) = starts.last();
        move_puts(starts.drop_last(), dx, dy, over) + seq![
            Put { id, side: Side::X, value: settled(x, x.plus(dx), over) },
            Put { id, side: Side::Y, value: settled(y, y.plus(dy), over) },
        ]
    }
}

/// The writes that take a shape from one frame to another.
pub open spec fn frame_puts<S: Scalar>(
    id: u64,
    start: (S, S, S, S),
    f: (S, S, S, S),
    over: bool,
) -> Seq<Put<S>> {
    seq![
        Put { id, side: Side::X, value: settled(start.0, f.0, over) },
        Put { id, side: Side::Y, value: settled(start.1, f.1, over) },
        Put { id, side: Side::W, value: settled(start.2, f.2, over) },
        Put { id, side: Side::H, value: settled(start.3, f.3, over) },
    ]
}

/// The frame that a drag has given a shape so far. Shift keeps a frame's proportions, and a
/// line's direction.
pub open spec fn dragged_frame<S: Scalar>(op: DragModel<S>, dx: S, dy: S, shift: bool) -> (
    S,
    S,
    S,
    S,
) {
    match op {
        DragModel::Resize { id, corner, start, rotation } => corner_dragged(
            start,
            corner,
            dx,
            dy,
            rotation,
            shift,
        ),
        DragModel::Endpoint { id, end, start } => if shift {
            line_stretched(start, end, dx, dy)
        } else {
            line_dragged(start, end, dx, dy)
        },
        _ => arbitrary(),
    }
}

/// What a drag writes once it has travelled by `(dx, dy)` in the drawing.
pub open spec fn drag_puts<S: Scalar>(op: DragModel<S>, dx: S, dy: S, shift: bool, over: bool) -> Seq<
    Put<S>,
> {
    match op {
        DragModel::Move { starts, copying } => move_puts(starts, dx, dy, over),
        DragModel::Resize { id, corner, start, rotation } => frame_puts(
            id,
            start,
            dragged_frame(op, dx, dy, shift),
            over,
        ),
        DragModel::Endpoint { id, end, start } => frame_puts(
            id,
            start,
            dragged_frame(op, dx, dy, shift),
            over,
        ),
        _ => Seq::empty(),
    }
}

/// Where the given shapes start a move.
pub open spec fn starts_of<S: Scalar>(rows: Seq<NodeModel<S>>, ids: Seq<u64>) -> Seq<(u64, S, S)> {
    Seq::new(ids.len(), |i: int| (ids[i], peek(rows, ids[i]).x, peek(rows, ids[i]).y))
}

/// Whether a shape is selected, itself or through a group it is in.
pub open spec fn covered<S: Scalar>(m: EditorModel<S>, leaf: Option<u64>) -> bool {
    match leaf {
        Some(leaf) => exists|i: int|
            0 <= i < m.selection.len() && lineage(m.rows, leaf).contains(
                #[trigger] m.selection[i],
            ),
        None => false,
    }
}

/// The editor as a move begins on `top`: a press on anything that is not selected selects it
/// first. With alt held on something that was selected, the selection is copied and the copies
/// are dragged.
pub open spec fn grabbed<S: Scalar>(
    m: EditorModel<S>,
    top: u64,
    leaf: Option<u64>,
    mods: Modifiers,
) -> EditorModel<S> {
    if covered(m, leaf) {
        if mods.alt {
            copied_in_place(m)
        } else {
            m
        }
    } else if mods.adds() {
        EditorModel { selection: m.selection.push(top), ..m }
    } else {
        EditorModel { selection: seq![top], ..m }
    }
}

/// Whether a move that begins on the shape `leaf` drags copies.
pub open spec fn grabs_copies<S: Scalar>(
    m: EditorModel<S>,
    leaf: Option<u64>,
    mods: Modifiers,
) -> bool {
    covered(m, leaf) && mods.alt && copies(m).len() > 0
}

/// What a press begins: a handle under the pointer is resized by, a shape is moved, and on
/// blank canvas a band is swept. A band is anchored at the press, wherever it is reported.
pub open spec fn begun<S: Scalar>(
    c: CanvasModel<S>,
    m: EditorModel<S>,
    drag: Drag<S>,
    mods: Modifiers,
) -> (DragModel<S>, EditorModel<S>) {
    let p = drag.location;
    let at = c.viewport.to_model(p);
    match hit_handle(m.rows, m.selection, c.viewport, p) {
        Some((id, handle)) => {
            let n = peek(m.rows, id);
            let start = (n.x, n.y, n.w, n.h);
            (
                match handle {
                    Handle::Corner(corner) => DragModel::Resize {
                        id,
                        corner,
                        start,
                        rotation: rotation_of(n),
                    },
                    Handle::End(end) => DragModel::Endpoint { id, end, start },
                },
                m,
            )
        },
        None => match hit_top_level(m.rows, at, c.viewport.zoom) {
            Some(top) => {
                let leaf = hit_leaf(m.rows, at, c.viewport.zoom);
                let n = grabbed(m, top, leaf, mods);
                (
                    DragModel::Move {
                        starts: starts_of(n.rows, shapes_of_each(n.rows, n.selection)),
                        copying: grabs_copies(m, leaf, mods),
                    },
                    n,
                )
            },
            None => (
                DragModel::Band {
                    anchor: Point {
                        x: p.x.minus(drag.translation.x),
                        y: p.y.minus(drag.translation.y),
                    },
                    base: if mods.adds() {
                        m.selection
                    } else {
                        Seq::empty()
                    },
                },
                m,
            ),
        },
    }
}

/// The shapes that a drag takes along.
pub open spec fn taken_along<S>(op: DragModel<S>) -> Seq<u64> {
    match op {
        DragModel::Move { starts, copying } => Seq::new(starts.len(), |i: int| starts[i].0),
        DragModel::Resize { id, corner, start, rotation } => seq![id],
        DragModel::Endpoint { id, end, start } => seq![id],
        _ => Seq::empty(),
    }
}

/// The lines of what is dragged that can line up with others: the edges and the middle of what
/// is moved, the edges that a resize moves, or the end that is dragged. A turned frame has no
/// upright edges.
pub open spec fn edges_of<S: Scalar>(op: DragModel<S>, rows: Seq<NodeModel<S>>) -> (Seq<S>, Seq<S>) {
    match op {
        DragModel::Move { starts, copying } => match moving_frame(rows, taken_along(op)) {
            Some(f) => (span_lines(f.0, f.2), span_lines(f.1, f.3)),
            None => (Seq::empty(), Seq::empty()),
        },
        DragModel::Resize { id, corner, start, rotation } => if turns_resize(rotation) {
            (Seq::empty(), Seq::empty())
        } else {
            (
                seq![
                    if corner.left() {
                        start.0
                    } else {
                        start.0.plus(start.2)
                    },
                ],
                seq![
                    if corner.top() {
                        start.1
                    } else {
                        start.1.plus(start.3)
                    },
                ],
            )
        },
        DragModel::Endpoint { id, end, start } => match end {
            LineEnd::Start => (seq![start.0], seq![start.1]),
            LineEnd::End => (seq![start.0.plus(start.2)], seq![start.1.plus(start.3)]),
        },
        _ => (Seq::empty(), Seq::empty()),
    }
}

/// The lines that the neighbours of what is dragged offer.
pub open spec fn stops_of<S: Scalar>(op: DragModel<S>, rows: Seq<NodeModel<S>>) -> (Seq<S>, Seq<S>) {
    match op {
        DragModel::Band { anchor, base } => (Seq::empty(), Seq::empty()),
        _ => (stops_across(rows, taken_along(op)), stops_down(rows, taken_along(op))),
    }
}

/// What a drag that has travelled by `(dx, dy)` in the drawing is pulled to, both ways, within
/// five pixels on screen. Shift, which constrains a resize, pauses its pull.
pub open spec fn pulls<S: Scalar>(c: CanvasModel<S>, dx: S, dy: S, shift: bool) -> (
    Option<(S, S)>,
    Option<(S, S)>,
) {
    let reach = S::of_int(5).over(c.viewport.zoom);
    if shift && !(c.op is Move) {
        (None, None)
    } else {
        (pull(c.edges.0, dx, c.stops.0, reach), pull(c.edges.1, dy, c.stops.1, reach))
    }
}

/// How far a drag takes what it drags: as far as the pointer went, and with snapping on to the
/// line that it is pulled to.
pub open spec fn travel<S: Scalar>(c: CanvasModel<S>, t: Point<S>, shift: bool) -> (S, S) {
    let dx = t.x.over(c.viewport.zoom);
    let dy = t.y.over(c.viewport.zoom);
    let (px, py) = pulls(c, dx, dy, shift);
    if c.snapping {
        (pulled(dx, px), pulled(dy, py))
    } else {
        (dx, dy)
    }
}

/// The lines that a drag shows: those that it has come near to.
pub open spec fn guides_of<S: Scalar>(c: CanvasModel<S>, t: Point<S>, shift: bool) -> (
    Option<S>,
    Option<S>,
) {
    let (px, py) = pulls(
        c,
        t.x.over(c.viewport.zoom),
        t.y.over(c.viewport.zoom),
        shift,
    );
    (guide(px), guide(py))
}

/// What a report of a drag does to the canvas and the editor.
pub open spec fn dragged<S: Scalar>(
    c: CanvasModel<S>,
    m: EditorModel<S>,
    drag: Drag<S>,
    mods: Modifiers,
    clock: Option<u64>,
) -> (CanvasModel<S>, EditorModel<S>) {
    let t = drag.translation;
    let (dx, dy) = travel(c, t, mods.shift);
    match drag.phase {
        DragPhase::Began => {
            let (op, n) = begun(c, m, drag, mods);
            (
                CanvasModel {
                    op,
                    edges: edges_of(op, n.rows),
                    stops: stops_of(op, n.rows),
                    guides: (None, None),
                    ..c
                },
                n,
            )
        },
        DragPhase::Changed => match c.op {
            DragModel::Band { anchor, base } => (
                CanvasModel { band: Some(swept_band(anchor, t.x, t.y)), ..c },
                EditorModel {
                    selection: swept_selection(m.rows, c.viewport, anchor, base, t.x, t.y),
                    ..m
                },
            ),
            _ => (
                CanvasModel { guides: guides_of(c, t, mods.shift), ..c },
                EditorModel {
                    rows: put_each(m.rows, drag_puts(c.op, dx, dy, mods.shift, false)),
                    ..m
                },
            ),
        },
        DragPhase::Ended => {
            let idle = CanvasModel { op: DragModel::Idle, guides: (None, None), ..c };
            match c.op {
                DragModel::Band { anchor, base } => {
                    let bare = CanvasModel { band: None, ..idle };
                    if t.x.hypotenuse(t.y).at_most(S::of_int(3)) {
                        clicked(
                            bare,
                            EditorModel { selection: base, ..m },
                            drag.location,
                            mods,
                            ClickSource::DragEnd,
                            clock,
                        )
                    } else {
                        (
                            bare,
                            EditorModel {
                                selection: swept_selection(
                                    m.rows,
                                    c.viewport,
                                    anchor,
                                    base,
                                    t.x,
                                    t.y,
                                ),
                                ..m
                            },
                        )
                    }
                },
                _ => (
                    idle,
                    EditorModel {
                        rows: put_each(m.rows, drag_puts(c.op, dx, dy, mods.shift, true)),
                        ..m
                    },
                ),
            }
        },
    }
}

/// The undo label of the turn that a report ends, if it ends one.
pub open spec fn drag_label<S: Scalar>(op: DragModel<S>, phase: DragPhase) -> Option<Seq<char>> {
    if phase != DragPhase::Ended {
        None
    } else {
        match op {
            DragModel::Move { starts, copying } => if copying {
                Some("duplicate"@)
            } else {
                Some("move"@)
            },
            DragModel::Resize { .. } => Some("resize"@),
            DragModel::Endpoint { .. } => Some("resize"@),
            DragModel::Idle => None,
            DragModel::Band { .. } => None,
        }
    }
}

/// What a report of a pinch does to the canvas.
pub open spec fn pinched<S: Scalar>(
    c: CanvasModel<S>,
    phase: DragPhase,
    location: Point<S>,
    scale: S,
) -> CanvasModel<S> {
    let base = if phase == DragPhase::Began {
        (c.viewport.zoom, location)
    } else {
        c.pinch
    };
    CanvasModel {
        pinch: base,
        viewport: c.viewport.zoomed(base.0.times(scale), base.1),
        ..c
    }
}

// ---------------------------------------------------------------------------
// Keys
// ---------------------------------------------------------------------------

/// What a key means on the canvas.
pub enum KeyAction<S> {
    Delete,
    Nudge(S, S),
    Nothing,
}

/// The step of an arrow key.
pub open spec fn arrow(key: Seq<char>) -> Option<(int, int)> {
    if key == "ArrowLeft"@ {
        Some((-1int, 0int))
    } else if key == "ArrowRight"@ {
        Some((1int, 0int))
    } else if key == "ArrowUp"@ {
        Some((0int, -1int))
    } else if key == "ArrowDown"@ {
        Some((0int, 1int))
    } else {
        None
    }
}

/// What a key means: an arrow nudges by one, or by ten with shift, and a delete key removes
/// where no menu bar carries that command already.
pub open spec fn key_action<S: Scalar>(key: Seq<char>, shift: bool, owns_delete: bool) -> KeyAction<
    S,
> {
    if key == "Delete"@ || key == "Backspace"@ {
        if owns_delete {
            KeyAction::Delete
        } else {
            KeyAction::Nothing
        }
    } else {
        match arrow(key) {
            Some((dx, dy)) => {
                let step = S::of_int(
                    if shift {
                        10
                    } else {
                        1
                    },
                );
                KeyAction::Nudge(
                    S::of_int(dx as i64).times(step),
                    S::of_int(dy as i64).times(step),
                )
            },
            None => KeyAction::Nothing,
        }
    }
}

/// The editor after a key.
pub open spec fn keyed<S: Scalar>(m: EditorModel<S>, action: KeyAction<S>) -> EditorModel<S> {
    match action {
        KeyAction::Delete => EditorModel {
            rows: removed_each(m.rows, m.selection),
            selection: Seq::empty(),
            ..m
        },
        KeyAction::Nudge(dx, dy) => EditorModel {
            rows: shifted_each(m.rows, selected_shapes(m.rows, m.selection), dx, dy),
            ..m
        },
        KeyAction::Nothing => m,
    }
}

// ---------------------------------------------------------------------------
// The machine
// ---------------------------------------------------------------------------

fn is_close<S: Scalar>(then: u64, at: Point<S>, now: u64, p: Point<S>, within: u64) -> (r: bool)
    ensures
        r == close_to(then, at, now, p, within),
{
    (now <= then || now - then < within) && p.x.minus(at.x).magnitude().below(S::of_int(5))
        && p.y.minus(at.y).magnitude().below(S::of_int(5))
}

/// The way along one axis after a pull.
fn gone<S: Scalar>(by: S, pull: Option<(S, S)>) -> (r: S)
    ensures
        r == pulled(by, pull),
{
    match pull {
        Some((step, _)) => by.plus(step),
        None => by,
    }
}

/// The line that a pull goes to.
fn line_of<S: Scalar>(pull: &Option<(S, S)>) -> (r: Option<S>)
    ensures
        r == guide(*pull),
{
    match pull {
        Some((_, stop)) => Some(*stop),
        None => None,
    }
}

fn one(id: u64) -> (r: Vec<u64>)
    ensures
        r@ == seq![id],
{
    let mut out: Vec<u64> = Vec::new();
    out.push(id);
    assert(out@ =~= seq![id]);
    out
}

fn copy_ids(ids: &[u64]) -> (r: Vec<u64>)
    ensures
        r@ == ids@,
{
    let mut out: Vec<u64> = Vec::new();
    let mut i: usize = 0;
    while i < ids.len()
        invariant
            i <= ids.len(),
            out@ == ids@.subrange(0, i as int),
        decreases ids.len() - i,
    {
        out.push(ids[i]);
        i += 1;
        assert(out@ =~= ids@.subrange(0, i as int));
    }
    assert(ids@.subrange(0, i as int) =~= ids@);
    out
}

impl<S: Scalar> Scene<S> {
    /// Writes some geometry columns, in turn.
    pub fn put_each(&mut self, puts: &Vec<Put<S>>)
        requires
            old(self).wf(),
        ensures
            final(self).wf(),
            final(self)@.rows == put_each(old(self)@.rows, puts@),
            final(self)@.background == old(self)@.background,
    {
        let ghost rows = self@.rows;
        let ghost background = self@.background;
        let mut i: usize = 0;
        assert(puts@.subrange(0, 0) =~= Seq::<Put<S>>::empty());
        while i < puts.len()
            invariant
                self.wf(),
                i <= puts.len(),
                self@.rows == put_each(rows, puts@.subrange(0, i as int)),
                self@.background == background,
            decreases puts.len() - i,
        {
            assert(puts@.subrange(0, i + 1).drop_last() =~= puts@.subrange(0, i as int));
            let v = puts[i].value;
            let field = match puts[i].side {
                Side::X => Field::X(v),
                Side::Y => Field::Y(v),
                Side::W => Field::W(v),
                Side::H => Field::H(v),
            };
            self.write(puts[i].id, field);
            i += 1;
        }
        assert(puts@.subrange(0, i as int) =~= puts@);
    }
}

impl<S: Scalar> Editor<S> {
    /// Selects what a click at a point of the drawing selects.
    pub fn select_at(&mut self, p: Point<S>, zoom: S, mods: Modifiers)
        requires
            old(self).wf(),
        ensures
            final(self).wf(),
            final(self)@ == (EditorModel {
                selection: selected_at(old(self)@, p, zoom, mods.adds()),
                ..old(self)@
            }),
    {
        match self.scene.hit_top_level(p, zoom) {
            None => {
                self.selection = Vec::new();
                assert(self.selection@ =~= Seq::<u64>::empty());
            },
            Some(id) => {
                if mods.adds() {
                    match position(self.selection.as_slice(), id) {
                        Some(i) => {
                            self.selection.remove(i);
                        },
                        None => {
                            self.selection.push(id);
                        },
                    }
                } else {
                    self.selection = one(id);
                }
            },
        }
    }

    /// Selects one level deeper towards the shape at a point of the drawing; returns whether
    /// the click was used up.
    pub fn drill_at(&mut self, p: Point<S>, zoom: S) -> (r: bool)
        requires
            old(self).wf(),
        ensures
            final(self).wf(),
            match drilled_at(old(self)@, p, zoom) {
                Some(next) => r && final(self)@ == (EditorModel {
                    selection: next,
                    ..old(self)@
                }),
                None => !r && final(self)@ == old(self)@,
            },
    {
        let leaf = match self.scene.hit_leaf(p, zoom) {
            None => {
                return false;
            },
            Some(leaf) => leaf,
        };
        if self.selection.len() != 1 {
            return false;
        }
        let sole = self.selection[0];
        if sole == leaf {
            return true;
        }
        match self.scene.child_toward(sole, leaf) {
            Some(next) => {
                self.selection = one(next);
                true
            },
            None => false,
        }
    }

    /// A tap at a point of the drawing; `repeat` for the second of a double click.
    pub fn on_tap(&mut self, p: Point<S>, zoom: S, mods: Modifiers, repeat: bool)
        requires
            old(self).wf(),
        ensures
            final(self).wf(),
            final(self)@ == (EditorModel {
                selection: tapped(old(self)@, p, zoom, mods, repeat),
                ..old(self)@
            }),
    {
        if repeat && !mods.adds() && self.drill_at(p, zoom) {
            return ;
        }
        self.select_at(p, zoom, mods);
    }

    /// Makes ready for a menu summoned on a node: one outside the selection is selected first,
    /// so that the menu speaks of what it acts on.
    pub fn summon(&mut self, id: u64)
        ensures
            final(self)@ == (EditorModel {
                selection: if old(self)@.selection.contains(id) {
                    old(self)@.selection
                } else {
                    seq![id]
                },
                ..old(self)@
            }),
    {
        if position(self.selection.as_slice(), id).is_none() {
            self.selection = one(id);
        }
    }

    /// A key on the canvas; returns the label of the turn it made.
    pub fn canvas_key(&mut self, key: &str, shift: bool, owns_delete: bool) -> (r: Option<
        &'static str,
    >)
        requires
            old(self).wf(),
        ensures
            final(self).wf(),
            final(self)@ == keyed(old(self)@, key_action::<S>(key@, shift, owns_delete)),
            match key_action::<S>(key@, shift, owns_delete) {
                KeyAction::Delete => r matches Some(l) && l@ == "delete"@,
                KeyAction::Nudge(_, _) => r matches Some(l) && l@ == "move"@,
                KeyAction::Nothing => r is None,
            },
    {
        let k = key.to_owned();
        if k == "Delete".to_owned() || k == "Backspace".to_owned() {
            if owns_delete {
                self.delete_selection();
                return Some("delete");
            }
            return None;
        }
        let (dx, dy): (i64, i64) = if k == "ArrowLeft".to_owned() {
            (-1, 0)
        } else if k == "ArrowRight".to_owned() {
            (1, 0)
        } else if k == "ArrowUp".to_owned() {
            (0, -1)
        } else if k == "ArrowDown".to_owned() {
            (0, 1)
        } else {
            return None;
        };
        let step = S::of_int(
            if shift {
                10
            } else {
                1
            },
        );
        self.nudge_selection(S::of_int(dx).times(step), S::of_int(dy).times(step));
        Some("move")
    }

    /// Whether a shape is selected, itself or through a group it is in.
    fn covers(&self, leaf: Option<u64>) -> (r: bool)
        requires
            self.wf(),
        ensures
            r == covered(self@, leaf),
    {
        let shape = match leaf {
            None => {
                return false;
            },
            Some(shape) => shape,
        };
        let mut i: usize = 0;
        while i < self.selection.len()
            invariant
                self.wf(),
                i <= self.selection.len(),
                leaf == Some(shape),
                forall|j: int|
                    0 <= j < i ==> !lineage(self@.rows, shape).contains(
                        #[trigger] self@.selection[j],
                    ),
            decreases self.selection.len() - i,
        {
            if self.scene.is_within(shape, self.selection[i]) {
                assert(lineage(self@.rows, shape).contains(self@.selection[i as int]));
                return true;
            }
            i += 1;
        }
        false
    }

    /// Makes ready for a move that begins on `top`; returns whether copies are dragged.
    fn grab(&mut self, top: u64, leaf: Option<u64>, mods: Modifiers) -> (r: bool)
        requires
            old(self).wf(),
        ensures
            final(self).wf(),
            final(self)@ == grabbed(old(self)@, top, leaf, mods),
            r == grabs_copies(old(self)@, leaf, mods),
    {
        if self.covers(leaf) {
            return mods.alt && self.copy_in_place();
        }
        if mods.adds() {
            self.selection.push(top);
        } else {
            self.selection = one(top);
        }
        false
    }

    /// Where the shapes of the selection start a move.
    fn starts(&self) -> (r: Vec<(u64, S, S)>)
        requires
            self.wf(),
        ensures
            r@ == starts_of(self@.rows, shapes_of_each(self@.rows, self@.selection)),
    {
        let ids = self.scene.shapes_under(self.selection.as_slice());
        let mut out: Vec<(u64, S, S)> = Vec::new();
        let mut i: usize = 0;
        while i < ids.len()
            invariant
                self.wf(),
                i <= ids.len(),
                out.len() == i,
                forall|j: int|
                    0 <= j < i ==> out@[j] == (
                        ids@[j],
                        peek(self@.rows, ids@[j]).x,
                        peek(self@.rows, ids@[j]).y,
                    ),
            decreases ids.len() - i,
        {
            let (x, y, _, _) = self.scene.raw_frame(ids[i]);
            out.push((ids[i], x, y));
            i += 1;
        }
        assert(out@ =~= starts_of(self@.rows, ids@));
        out
    }

    /// Advances a sweep; returns the band.
    pub fn sweep(&mut self, viewport: &Viewport<S>, anchor: Point<S>, base: &[u64], dx: S, dy: S) -> (r:
        (S, S, S, S))
        requires
            old(self).wf(),
        ensures
            final(self).wf(),
            r == swept_band(anchor, dx, dy),
            final(self)@ == (EditorModel {
                selection: swept_selection(old(self)@.rows, *viewport, anchor, base@, dx, dy),
                ..old(self)@
            }),
    {
        let rect = swept_band(anchor, dx, dy);
        let more = self.scene.touched_by(viewport, rect);
        self.selection = join(base, more.as_slice());
        rect
    }
}

impl<S: Scalar> DragOp<S> {
    /// The shapes that the drag takes along.
    fn taken_along(&self) -> (r: Vec<u64>)
        ensures
            r@ == taken_along(self@),
    {
        let mut out: Vec<u64> = Vec::new();
        match self {
            DragOp::Move { starts, copying: _ } => {
                let mut i: usize = 0;
                while i < starts.len()
                    invariant
                        i <= starts.len(),
                        out.len() == i,
                        forall|j: int| 0 <= j < i ==> out@[j] == starts@[j].0,
                    decreases starts.len() - i,
                {
                    out.push(starts[i].0);
                    i += 1;
                }
                assert(out@ =~= taken_along(self@));
            },
            DragOp::Resize { id, .. } => {
                out.push(*id);
                assert(out@ =~= seq![*id]);
            },
            DragOp::Endpoint { id, .. } => {
                out.push(*id);
                assert(out@ =~= seq![*id]);
            },
            _ => {
                assert(out@ =~= Seq::<u64>::empty());
            },
        }
        out
    }

    /// The lines of what is dragged that can line up with others.
    fn edges(&self, scene: &Scene<S>) -> (r: (Vec<S>, Vec<S>))
        requires
            scene.wf(),
        ensures
            (r.0@, r.1@) == edges_of(self@, scene@.rows),
    {
        let mut xs: Vec<S> = Vec::new();
        let mut ys: Vec<S> = Vec::new();
        assert(xs@ =~= Seq::<S>::empty() && ys@ =~= Seq::<S>::empty());
        match self {
            DragOp::Move { .. } => {
                let ids = self.taken_along();
                if let Some(f) = scene.moving_frame(ids.as_slice()) {
                    push_span(&mut xs, f.0, f.2);
                    push_span(&mut ys, f.1, f.3);
                    assert(xs@ =~= span_lines(f.0, f.2) && ys@ =~= span_lines(f.1, f.3));
                }
            },
            DragOp::Resize { id: _, corner, start, rotation } => {
                if rotation.magnitude().at_most(tiny()) {
                    let left = *corner == Corner::TopLeft || *corner == Corner::BottomLeft;
                    let top = *corner == Corner::TopLeft || *corner == Corner::TopRight;
                    xs.push(
                        if left {
                            start.0
                        } else {
                            start.0.plus(start.2)
                        },
                    );
                    ys.push(
                        if top {
                            start.1
                        } else {
                            start.1.plus(start.3)
                        },
                    );
                    assert(xs@ =~= edges_of(self@, scene@.rows).0);
                    assert(ys@ =~= edges_of(self@, scene@.rows).1);
                }
            },
            DragOp::Endpoint { id: _, end, start } => {
                match end {
                    LineEnd::Start => {
                        xs.push(start.0);
                        ys.push(start.1);
                    },
                    LineEnd::End => {
                        xs.push(start.0.plus(start.2));
                        ys.push(start.1.plus(start.3));
                    },
                }
                assert(xs@ =~= edges_of(self@, scene@.rows).0);
                assert(ys@ =~= edges_of(self@, scene@.rows).1);
            },
            _ => {},
        }
        (xs, ys)
    }

    /// The lines that the neighbours of what is dragged offer.
    fn stops(&self, scene: &Scene<S>) -> (r: (Vec<S>, Vec<S>))
        requires
            scene.wf(),
        ensures
            (r.0@, r.1@) == stops_of(self@, scene@.rows),
    {
        match self {
            DragOp::Band { .. } => {
                let xs: Vec<S> = Vec::new();
                let ys: Vec<S> = Vec::new();
                assert(xs@ =~= Seq::<S>::empty() && ys@ =~= Seq::<S>::empty());
                (xs, ys)
            },
            _ => {
                let ids = self.taken_along();
                scene.stops(ids.as_slice())
            },
        }
    }

    /// What the drag writes once it has travelled by `(dx, dy)` in the drawing.
    fn puts(&self, dx: S, dy: S, shift: bool, over: bool) -> (r: Vec<Put<S>>)
        ensures
            r@ == drag_puts(self@, dx, dy, shift, over),
    {
        let mut out: Vec<Put<S>> = Vec::new();
        match self {
            DragOp::Move { starts, copying: _ } => {
                let mut i: usize = 0;
                assert(starts@.subrange(0, 0) =~= Seq::<(u64, S, S)>::empty());
                while i < starts.len()
                    invariant
                        i <= starts.len(),
                        out@ == move_puts(starts@.subrange(0, i as int), dx, dy, over),
                    decreases starts.len() - i,
                {
                    let ghost sofar = out@;
                    assert(starts@.subrange(0, i + 1).drop_last() =~= starts@.subrange(
                        0,
                        i as int,
                    ));
                    let (id, x, y) = starts[i];
                    let px = Put { id, side: Side::X, value: settled(x, x.plus(dx), over) };
                    let py = Put { id, side: Side::Y, value: settled(y, y.plus(dy), over) };
                    out.push(px);
                    out.push(py);
                    assert(out@ =~= sofar + seq![px, py]);
                    i += 1;
                }
                assert(starts@.subrange(0, i as int) =~= starts@);
            },
            DragOp::Resize { id, corner, start, rotation } => {
                let f = corner_dragged(*start, *corner, dx, dy, *rotation, shift);
                frame_writes(&mut out, *id, *start, f, over);
            },
            DragOp::Endpoint { id, end, start } => {
                let f = if shift {
                    line_stretched(*start, *end, dx, dy)
                } else {
                    line_dragged(*start, *end, dx, dy)
                };
                frame_writes(&mut out, *id, *start, f, over);
            },
            DragOp::Idle => {},
            DragOp::Band { .. } => {},
        }
        assert(out@ =~= drag_puts(self@, dx, dy, shift, over));
        out
    }
}

fn frame_writes<S: Scalar>(
    out: &mut Vec<Put<S>>,
    id: u64,
    start: (S, S, S, S),
    f: (S, S, S, S),
    over: bool,
)
    ensures
        final(out)@ == old(out)@ + frame_puts(id, start, f, over),
{
    let ghost before = out@;
    out.push(Put { id, side: Side::X, value: settled(start.0, f.0, over) });
    out.push(Put { id, side: Side::Y, value: settled(start.1, f.1, over) });
    out.push(Put { id, side: Side::W, value: settled(start.2, f.2, over) });
    out.push(Put { id, side: Side::H, value: settled(start.3, f.3, over) });
    assert(out@ =~= before + frame_puts(id, start, f, over));
}

impl<S: Scalar> Canvas<S> {
    /// A canvas at one to one, with nothing going on.
    pub fn fresh() -> (r: Canvas<S>)
        ensures
            r@.op == DragModel::<S>::Idle,
            r@.band is None,
            r@.last_click is None,
            r@.last_tap is None,
            r.viewport.zoom == S::of_int(1),
            r.viewport.pan == (Point { x: S::of_int(0), y: S::of_int(0) }),
            r.viewport.size == (S::of_int(800), S::of_int(600)),
            r.pinch == (r.viewport.zoom, r.viewport.pan),
            r.snapping,
            r@.edges == (Seq::<S>::empty(), Seq::<S>::empty()),
            r@.stops == (Seq::<S>::empty(), Seq::<S>::empty()),
            r.guides == (None::<S>, None::<S>),
    {
        Canvas {
            viewport: Viewport::fresh(),
            op: DragOp::Idle,
            band: None,
            last_click: None,
            last_tap: None,
            pinch: (S::of_int(1), Point { x: S::of_int(0), y: S::of_int(0) }),
            snapping: true,
            edges: (Vec::new(), Vec::new()),
            stops: (Vec::new(), Vec::new()),
            guides: (None, None),
        }
    }

    /// One report of a pinch, whose scale counts from its beginning: the zoom follows the
    /// fingers about the point where they began.
    pub fn on_pinch(&mut self, phase: DragPhase, location: Point<S>, scale: S)
        ensures
            final(self)@ == pinched(old(self)@, phase, location, scale),
    {
        if phase == DragPhase::Began {
            self.pinch = (self.viewport.zoom, location);
        }
        let (zoom, anchor) = self.pinch;
        self.viewport.zoom_to(zoom.times(scale), anchor);
    }

    /// One report of a click, from whichever recognizer it came.
    pub fn handle_click(
        &mut self,
        editor: &mut Editor<S>,
        p: Point<S>,
        mods: Modifiers,
        source: ClickSource,
        clock: Option<u64>,
    )
        requires
            old(editor).wf(),
        ensures
            final(editor).wf(),
            (final(self)@, final(editor)@) == clicked(
                old(self)@,
                old(editor)@,
                p,
                mods,
                source,
                clock,
            ),
    {
        let at = self.viewport.to_model(p);
        let zoom = self.viewport.zoom;
        let repeat = match clock {
            Some(now) => {
                if let Some((then, place, by)) = self.last_click {
                    if by != source && is_close(then, place, now, p, 30_000_000) {
                        return ;
                    }
                }
                let repeat = match source {
                    ClickSource::Tap => {
                        let again = match self.last_tap {
                            Some((then, place)) => is_close(then, place, now, p, 350_000_000),
                            None => false,
                        };
                        self.last_tap = Some((now, p));
                        again
                    },
                    ClickSource::DragEnd => {
                        self.last_tap = None;
                        false
                    },
                };
                self.last_click = Some((now, p, source));
                repeat
            },
            None => source == ClickSource::Tap,
        };
        editor.on_tap(at, zoom, mods, repeat);
    }

    /// What a press begins.
    fn begin(&mut self, editor: &mut Editor<S>, drag: &Drag<S>, mods: Modifiers)
        requires
            old(editor).wf(),
        ensures
            final(editor).wf(),
            ({
                let (op, n) = begun(old(self)@, old(editor)@, *drag, mods);
                final(self)@ == (CanvasModel {
                    op,
                    edges: edges_of(op, n.rows),
                    stops: stops_of(op, n.rows),
                    guides: (None, None),
                    ..old(self)@
                })
            }),
            final(editor)@ == begun(old(self)@, old(editor)@, *drag, mods).1,
    {
        let p = drag.location;
        let at = self.viewport.to_model(p);
        let zoom = self.viewport.zoom;
        if let Some((id, handle)) = editor.scene.hit_handle(
            editor.selection.as_slice(),
            &self.viewport,
            p,
        ) {
            let start = editor.scene.raw_frame(id);
            self.op = match handle {
                Handle::Corner(corner) => DragOp::Resize {
                    id,
                    corner,
                    start,
                    rotation: editor.scene.drawn_rotation(id),
                },
                Handle::End(end) => DragOp::Endpoint { id, end, start },
            };
        } else if let Some(top) = editor.scene.hit_top_level(at, zoom) {
            let leaf = editor.scene.hit_leaf(at, zoom);
            let copying = editor.grab(top, leaf, mods);
            let starts = editor.starts();
            self.op = DragOp::Move { starts, copying };
        } else {
            let base: Vec<u64> = if mods.adds() {
                copy_ids(editor.selection.as_slice())
            } else {
                Vec::new()
            };
            assert(mods.adds() || base@ =~= Seq::<u64>::empty());
            let anchor = Point {
                x: p.x.minus(drag.translation.x),
                y: p.y.minus(drag.translation.y),
            };
            self.op = DragOp::Band { anchor, base };
        }
        self.edges = self.op.edges(&editor.scene);
        self.stops = self.op.stops(&editor.scene);
        self.guides = (None, None);
    }

    /// What a drag that has travelled by `(dx, dy)` in the drawing is pulled to.
    fn find_pulls(&self, dx: S, dy: S, shift: bool) -> (r: (Option<(S, S)>, Option<(S, S)>))
        ensures
            r == pulls(self@, dx, dy, shift),
    {
        let reach = S::of_int(5).over(self.viewport.zoom);
        let moves = match &self.op {
            DragOp::Move { .. } => true,
            _ => false,
        };
        if shift && !moves {
            (None, None)
        } else {
            (
                find_pull(&self.edges.0, dx, &self.stops.0, reach),
                find_pull(&self.edges.1, dy, &self.stops.1, reach),
            )
        }
    }

    /// One report of a drag; returns the label of the turn it ended.
    pub fn on_drag(
        &mut self,
        editor: &mut Editor<S>,
        drag: Drag<S>,
        mods: Modifiers,
        clock: Option<u64>,
    ) -> (r: Option<&'static str>)
        requires
            old(editor).wf(),
        ensures
            final(editor).wf(),
            (final(self)@, final(editor)@) == dragged(
                old(self)@,
                old(editor)@,
                drag,
                mods,
                clock,
            ),
            match r {
                Some(l) => drag_label(old(self)@.op, drag.phase) == Some(l@),
                None => drag_label(old(self)@.op, drag.phase) is None,
            },
    {
        let t = drag.translation;
        let zoom = self.viewport.zoom;
        let dx = t.x.over(zoom);
        let dy = t.y.over(zoom);
        let (px, py) = self.find_pulls(dx, dy, mods.shift);
        let (gx, gy) = (line_of(&px), line_of(&py));
        let (dx, dy) = if self.snapping {
            (gone(dx, px), gone(dy, py))
        } else {
            (dx, dy)
        };
        match drag.phase {
            DragPhase::Began => {
                self.begin(editor, &drag, mods);
                None
            },
            DragPhase::Changed => {
                match &self.op {
                    DragOp::Band { anchor, base } => {
                        let rect = editor.sweep(&self.viewport, *anchor, base.as_slice(), t.x, t.y);
                        self.band = Some(rect);
                    },
                    _ => {
                        let puts = self.op.puts(dx, dy, mods.shift, false);
                        editor.scene.put_each(&puts);
                        self.guides = (gx, gy);
                    },
                }
                None
            },
            DragPhase::Ended => {
                let mut finished = DragOp::Idle;
                std::mem::swap(&mut finished, &mut self.op);
                self.guides = (None, None);
                match &finished {
                    DragOp::Band { anchor, base } => {
                        self.band = None;
                        if t.x.hypotenuse(t.y).at_most(S::of_int(3)) {
                            editor.selection = copy_ids(base.as_slice());
                            self.handle_click(
                                editor,
                                drag.location,
                                mods,
                                ClickSource::DragEnd,
                                clock,
                            );
                        } else {
                            editor.sweep(&self.viewport, *anchor, base.as_slice(), t.x, t.y);
                        }
                        None
                    },
                    DragOp::Move { starts: _, copying } => {
                        let puts = finished.puts(dx, dy, mods.shift, true);
                        editor.scene.put_each(&puts);
                        if *copying {
                            Some("duplicate")
                        } else {
                            Some("move")
                        }
                    },
                    DragOp::Resize { .. } | DragOp::Endpoint { .. } => {
                        let puts = finished.puts(dx, dy, mods.shift, true);
                        editor.scene.put_each(&puts);
                        Some("resize")
                    },
                    DragOp::Idle => None,
                }
            },
        }
    }
}

} // verus!
