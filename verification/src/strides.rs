//! How far a drag takes what it drags, in millionths: as far as the pointer went over the screen,
//! but for the lines of others that it is pulled to.
use vstd::prelude::*;
use crate::bodies::{drags_move_as_typed, moves_carry_each_shape_once, shifted_row};
use crate::bounds::{visual_frame, visual_frames};
use crate::canvas::{
    dragged, dragged_frame, frame_puts, guides_of, move_puts, put_each, settled, starts_of, travel,
    CanvasModel, Drag, DragModel, DragPhase, Modifiers, Put,
};
use crate::exact::within;
use crate::geometry::{corner_dragged, line_dragged, line_stretched, Point};
use crate::hulls::edges;
use crate::micro::Micro;
use crate::millionths::half_reads;
use crate::motion::moved_each;
use crate::node::NodeModel;
use crate::ops::EditorModel;
use crate::order::written_peeks;
use crate::products::{distributed, mono};
use crate::scalar::Scalar;
use crate::scene::{distinct, has_row, peek, written, FieldModel};
use crate::snap::{
    guide, lines_of_each, neighbours, pull, pulled, pulls_go_to_the_nearest_line, reached,
    span_lines, spans_across, spans_down, stops_across, stops_down,
};
use crate::views::{quotient_reads, seeing};

verus! {

/// Whether a way in the drawing is, at a zoom, as far as a way on screen.
pub open spec fn as_far(way: int, on_screen: int, zoom: int) -> bool {
    -zoom < way * zoom - 1_000_000 * on_screen < zoom
}

/// Numbers in millionths settle where they end.
proof fn moves_settle(starts: Seq<(u64, Micro, Micro)>, dx: Micro, dy: Micro)
    ensures
        move_puts(starts, dx, dy, true) == move_puts(starts, dx, dy, false),
    decreases starts.len(),
{
    if starts.len() > 0 {
        moves_settle(starts.drop_last(), dx, dy);
    }
}

/// What a report of a move writes.
#[verifier::spinoff_prover]
proof fn moves_are_put<S: Scalar>(
    c: CanvasModel<S>,
    m: EditorModel<S>,
    drag: Drag<S>,
    mods: Modifiers,
    clock: Option<u64>,
)
    requires
        c.op is Move,
        drag.phase != DragPhase::Began,
    ensures
        dragged(c, m, drag, mods, clock).1 == (EditorModel {
            rows: put_each(
                m.rows,
                move_puts(
                    c.op->starts,
                    travel(c, drag.translation, mods.shift).0,
                    travel(c, drag.translation, mods.shift).1,
                    drag.phase == DragPhase::Ended,
                ),
            ),
            ..m
        }),
{
}

/// A move without snapping takes each of its shapes as far as the pointer went over the screen, and
/// nothing else, while it lasts and where it ends.
#[verifier::spinoff_prover]
pub proof fn moved_shapes_follow_the_pointer(
    c: CanvasModel<Micro>,
    m: EditorModel<Micro>,
    drag: Drag<Micro>,
    mods: Modifiers,
    clock: Option<u64>,
    ids: Seq<u64>,
    id: u64,
)
    requires
        distinct(m.rows),
        ids.no_duplicates(),
        c.op matches DragModel::Move { starts, copying } && starts == starts_of(m.rows, ids),
        !c.snapping,
        drag.phase != DragPhase::Began,
        seeing(c.viewport),
        within(drag.translation.x, 1_000_000_000_000),
        within(drag.translation.y, 1_000_000_000_000),
        has_row(m.rows, id),
        within(peek(m.rows, id).x, 1_000_000_000_000),
        within(peek(m.rows, id).y, 1_000_000_000_000),
    ensures
        ({
            let after = dragged(c, m, drag, mods, clock).1;
            let (n, k) = (peek(m.rows, id), peek(after.rows, id));
            let (t, z) = (drag.translation, c.viewport.zoom.raw as int);
            &&& after.selection == m.selection
            &&& k == (NodeModel { x: k.x, y: k.y, ..n })
            &&& !ids.contains(id) ==> k == n
            &&& ids.contains(id) ==> as_far(k.x.raw - n.x.raw, t.x.raw as int, z) && as_far(
                k.y.raw - n.y.raw,
                t.y.raw as int,
                z,
            )
        }),
{
    let t = drag.translation;
    let z = c.viewport.zoom;
    let (dx, dy) = travel(c, t, mods.shift);
    assert(dx == t.x.over(z) && dy == t.y.over(z));
    quotient_reads(t.x, z);
    quotient_reads(t.y, z);
    moves_are_put(c, m, drag, mods, clock);
    let starts = starts_of(m.rows, ids);
    moves_settle(starts, dx, dy);
    drags_move_as_typed(m.rows, ids, dx, dy);
    moves_carry_each_shape_once(m.rows, ids, dx, dy);
    let after = dragged(c, m, drag, mods, clock).1;
    let rows = moved_each(m.rows, ids, dx, dy);
    assert(after.rows == rows);
    assert(ids.contains(id) ==> peek(rows, id) == shifted_row(peek(m.rows, id), dx, dy));
    assert(!ids.contains(id) ==> peek(rows, id) == peek(m.rows, id));
}

/// The columns that frame writes leave behind.
proof fn frames_are_put<S: Scalar>(
    rows: Seq<NodeModel<S>>,
    id: u64,
    start: (S, S, S, S),
    f: (S, S, S, S),
    over: bool,
)
    requires
        distinct(rows),
        has_row(rows, id),
    ensures
        ({
            let w = put_each(rows, frame_puts(id, start, f, over));
            &&& peek(w, id) == (NodeModel {
                x: settled(start.0, f.0, over),
                y: settled(start.1, f.1, over),
                w: settled(start.2, f.2, over),
                h: settled(start.3, f.3, over),
                ..peek(rows, id)
            })
            &&& forall|x: u64| x != id ==> #[trigger] peek(w, x) == peek(rows, x)
        }),
{
    let puts = frame_puts(id, start, f, over);
    let p3 = puts.drop_last();
    let p2 = p3.drop_last();
    let p1 = p2.drop_last();
    assert(p1.drop_last() =~= Seq::<Put<S>>::empty());
    let r1 = written(rows, id, FieldModel::X(settled(start.0, f.0, over)));
    let r2 = written(r1, id, FieldModel::Y(settled(start.1, f.1, over)));
    let r3 = written(r2, id, FieldModel::W(settled(start.2, f.2, over)));
    let r4 = written(r3, id, FieldModel::H(settled(start.3, f.3, over)));
    written_peeks(rows, id, FieldModel::X(settled(start.0, f.0, over)));
    written_peeks(r1, id, FieldModel::Y(settled(start.1, f.1, over)));
    written_peeks(r2, id, FieldModel::W(settled(start.2, f.2, over)));
    written_peeks(r3, id, FieldModel::H(settled(start.3, f.3, over)));
    assert(put_each(rows, p1.drop_last()) == rows);
    assert(put_each(rows, p1) == r1);
    assert(put_each(rows, p2) == r2);
    assert(put_each(rows, p3) == r3);
    assert(put_each(rows, puts) == r4);
    assert forall|x: u64| x != id implies #[trigger] peek(r4, x) == peek(rows, x) by {
        assert(peek(r4, x) == peek(r3, x));
        assert(peek(r3, x) == peek(r2, x));
        assert(peek(r2, x) == peek(r1, x));
        assert(peek(r1, x) == peek(rows, x));
    }
}

/// Whether one node has come to a frame, and nothing else has changed.
pub open spec fn reframed<S: Scalar>(
    before: Seq<NodeModel<S>>,
    after: Seq<NodeModel<S>>,
    id: u64,
    f: (S, S, S, S),
) -> bool {
    &&& peek(after, id) == (NodeModel { x: f.0, y: f.1, w: f.2, h: f.3, ..peek(before, id) })
    &&& forall|x: u64| x != id ==> #[trigger] peek(after, x) == peek(before, x)
}

/// What a resize comes to: the frame whose corner was dragged, or the line whose end was, and nothing
/// else of the drawing.
#[verifier::spinoff_prover]
pub proof fn resized_shapes_follow_the_pointer(
    c: CanvasModel<Micro>,
    m: EditorModel<Micro>,
    drag: Drag<Micro>,
    mods: Modifiers,
    clock: Option<u64>,
)
    requires
        distinct(m.rows),
        c.op is Resize || c.op is Endpoint,
        match c.op {
            DragModel::Resize { id, .. } => has_row(m.rows, id),
            DragModel::Endpoint { id, .. } => has_row(m.rows, id),
            _ => false,
        },
        !c.snapping,
        drag.phase != DragPhase::Began,
        seeing(c.viewport),
        within(drag.translation.x, 1_000_000_000_000),
        within(drag.translation.y, 1_000_000_000_000),
    ensures
        ({
            let after = dragged(c, m, drag, mods, clock).1;
            let (t, z) = (drag.translation, c.viewport.zoom.raw as int);
            let (dx, dy) = travel(c, t, mods.shift);
            &&& after.selection == m.selection
            &&& as_far(dx.raw as int, t.x.raw as int, z)
            &&& as_far(dy.raw as int, t.y.raw as int, z)
            &&& match c.op {
                DragModel::Resize { id, corner, start, rotation } => reframed(
                    m.rows,
                    after.rows,
                    id,
                    corner_dragged(start, corner, dx, dy, rotation, mods.shift),
                ),
                DragModel::Endpoint { id, end, start } => reframed(
                    m.rows,
                    after.rows,
                    id,
                    if mods.shift {
                        line_stretched(start, end, dx, dy)
                    } else {
                        line_dragged(start, end, dx, dy)
                    },
                ),
                _ => false,
            }
        }),
{
    let t = drag.translation;
    let (dx, dy) = travel(c, t, mods.shift);
    let z = c.viewport.zoom.raw as int;
    quotient_reads(t.x, c.viewport.zoom);
    quotient_reads(t.y, c.viewport.zoom);
    let over = drag.phase == DragPhase::Ended;
    let f = dragged_frame(c.op, dx, dy, mods.shift);
    match c.op {
        DragModel::Resize { id, corner, start, rotation } => {
            frames_are_put(m.rows, id, start, f, over);
        },
        DragModel::Endpoint { id, end, start } => {
            frames_are_put(m.rows, id, start, f, over);
        },
        _ => {},
    }
    assert(as_far(dx.raw as int, t.x.raw as int, z));
    assert(as_far(dy.raw as int, t.y.raw as int, z));
}

// ---------------------------------------------------------------------------
// Lines
// ---------------------------------------------------------------------------

/// A span lines up by its edges and by its middle.
pub proof fn spans_line_up_by_edges_and_middle(at: Micro, extent: Micro)
    requires
        within(at, 1_000_000_000_000_000),
        within(extent, 1_000_000_000_000_000),
    ensures
        ({
            let s = span_lines(at, extent);
            &&& s.len() == 3
            &&& s[0].raw == at.raw
            &&& -1 <= 2 * s[1].raw - (2 * at.raw + extent.raw) <= 1
            &&& s[2].raw == at.raw + extent.raw
        }),
{
    half_reads(extent);
}

pub open spec fn spans_within(spans: Seq<(Micro, Micro)>) -> bool {
    forall|i: int|
        0 <= i < spans.len() ==> within((#[trigger] spans[i]).0, 1_000_000_000_000_000) && within(
            spans[i].1,
            1_000_000_000_000_000,
        )
}

/// The lines of some spans are, three by three, the edges and the middle of each.
proof fn lines_are_offered(spans: Seq<(Micro, Micro)>)
    requires
        spans_within(spans),
    ensures
        ({
            let lines = lines_of_each(spans);
            &&& lines.len() == 3 * spans.len()
            &&& forall|i: int|
                0 <= i < spans.len() ==> {
                    let (low, high) = ((#[trigger] spans[i]).0.raw, spans[i].0.raw + spans[i].1.raw);
                    &&& lines[3 * i].raw == low
                    &&& -1 <= 2 * lines[3 * i + 1].raw - (low + high) <= 1
                    &&& lines[3 * i + 2].raw == high
                }
        }),
    decreases spans.len(),
{
    if spans.len() > 0 {
        let front = spans.drop_last();
        let last = spans.len() - 1;
        assert forall|i: int| 0 <= i < front.len() implies within(
            (#[trigger] front[i]).0,
            1_000_000_000_000_000,
        ) && within(front[i].1, 1_000_000_000_000_000) by {
            assert(front[i] == spans[i]);
        }
        lines_are_offered(front);
        let (at, extent) = spans[last];
        spans_line_up_by_edges_and_middle(at, extent);
        let lines = lines_of_each(spans);
        let before = lines_of_each(front);
        assert(lines == before + span_lines(at, extent));
        assert forall|i: int| 0 <= i < spans.len() implies {
            let (low, high) = ((#[trigger] spans[i]).0.raw, spans[i].0.raw + spans[i].1.raw);
            &&& lines[3 * i].raw == low
            &&& -1 <= 2 * lines[3 * i + 1].raw - (low + high) <= 1
            &&& lines[3 * i + 2].raw == high
        } by {
            if i < last {
                assert(front[i] == spans[i]);
                assert(lines[3 * i] == before[3 * i]);
                assert(lines[3 * i + 1] == before[3 * i + 1]);
                assert(lines[3 * i + 2] == before[3 * i + 2]);
            } else {
                let s = span_lines(at, extent);
                assert(lines[3 * i] == s[0] && lines[3 * i + 1] == s[1] && lines[3 * i + 2] == s[2]);
            }
        }
    }
}

pub open spec fn frames_within(frames: Seq<(Micro, Micro, Micro, Micro)>) -> bool {
    forall|i: int|
        0 <= i < frames.len() ==> {
            &&& within((#[trigger] frames[i]).0, 1_000_000_000_000_000)
            &&& within(frames[i].1, 1_000_000_000_000_000)
            &&& within(frames[i].2, 1_000_000_000_000_000)
            &&& within(frames[i].3, 1_000_000_000_000_000)
        }
}

/// What a drag is pulled to: the upright lines at the left, the middle and the right of every shape
/// that stays behind, the level ones at its top, its middle and its bottom, and no others.
pub proof fn neighbours_offer_their_edges_and_middles(
    rows: Seq<NodeModel<Micro>>,
    moving: Seq<u64>,
)
    requires
        frames_within(visual_frames(rows, neighbours(rows, moving))),
    ensures
        ({
            let ids = neighbours(rows, moving);
            let (across, down) = (stops_across(rows, moving), stops_down(rows, moving));
            &&& forall|i: int|
                0 <= i < ids.len() ==> {
                    let e = edges(visual_frame(peek(rows, #[trigger] ids[i])));
                    &&& across[3 * i].raw == e.0 && across[3 * i + 2].raw == e.2
                    &&& -1 <= 2 * across[3 * i + 1].raw - (e.0 + e.2) <= 1
                    &&& down[3 * i].raw == e.1 && down[3 * i + 2].raw == e.3
                    &&& -1 <= 2 * down[3 * i + 1].raw - (e.1 + e.3) <= 1
                }
            &&& across.len() == 3 * ids.len() && down.len() == 3 * ids.len()
        }),
{
    let ids = neighbours(rows, moving);
    let frames = visual_frames(rows, ids);
    let (a, d) = (spans_across(frames), spans_down(frames));
    assert forall|i: int| 0 <= i < a.len() implies within(
        (#[trigger] a[i]).0,
        1_000_000_000_000_000,
    ) && within(a[i].1, 1_000_000_000_000_000) by {
        assert(a[i] == (frames[i].0, frames[i].2));
    }
    assert forall|i: int| 0 <= i < d.len() implies within(
        (#[trigger] d[i]).0,
        1_000_000_000_000_000,
    ) && within(d[i].1, 1_000_000_000_000_000) by {
        assert(d[i] == (frames[i].1, frames[i].3));
    }
    lines_are_offered(a);
    lines_are_offered(d);
    assert forall|i: int| 0 <= i < ids.len() implies {
        let e = edges(visual_frame(peek(rows, #[trigger] ids[i])));
        let (across, down) = (stops_across(rows, moving), stops_down(rows, moving));
        &&& across[3 * i].raw == e.0 && across[3 * i + 2].raw == e.2
        &&& -1 <= 2 * across[3 * i + 1].raw - (e.0 + e.2) <= 1
        &&& down[3 * i].raw == e.1 && down[3 * i + 2].raw == e.3
        &&& -1 <= 2 * down[3 * i + 1].raw - (e.1 + e.3) <= 1
    } by {
        assert(frames[i] == visual_frame(peek(rows, ids[i])));
        assert(a[i] == (frames[i].0, frames[i].2));
        assert(d[i] == (frames[i].1, frames[i].3));
    }
}

/// With snapping on, a drag goes with the pointer where no line is within five pixels, and otherwise
/// on to such a line: one of what is dragged then lies on one of the others, which is shown.
pub proof fn snapping_lines_up_within_five_pixels(
    c: CanvasModel<Micro>,
    t: Point<Micro>,
    shift: bool,
)
    requires
        c.snapping,
        seeing(c.viewport),
        within(t.x, 1_000_000_000_000),
        within(t.y, 1_000_000_000_000),
        forall|i: int|
            0 <= i < c.edges.0.len() ==> within(#[trigger] c.edges.0[i], 1_000_000_000_000_000),
        forall|i: int|
            0 <= i < c.stops.0.len() ==> within(#[trigger] c.stops.0[i], 1_000_000_000_000_000),
        forall|i: int|
            0 <= i < c.edges.1.len() ==> within(#[trigger] c.edges.1[i], 1_000_000_000_000_000),
        forall|i: int|
            0 <= i < c.stops.1.len() ==> within(#[trigger] c.stops.1[i], 1_000_000_000_000_000),
    ensures
        ({
            let z = c.viewport.zoom.raw as int;
            let (dx, dy) = travel(c, t, shift);
            let (gx, gy) = guides_of(c, t, shift);
            &&& lines_up(c.edges.0, c.stops.0, t.x.raw as int, dx.raw as int, z, gx)
            &&& lines_up(c.edges.1, c.stops.1, t.y.raw as int, dy.raw as int, z, gy)
        }),
{
    let z = c.viewport.zoom;
    assert(Micro::of_int(5).raw == 5_000_000);
    quotient_reads(t.x, z);
    quotient_reads(t.y, z);
    quotient_reads(Micro::of_int(5), z);
    let reach = Micro::of_int(5).over(z);
    let (dx, dy) = (t.x.over(z), t.y.over(z));
    one_way_lines_up(c.edges.0, c.stops.0, t.x.raw as int, dx, z.raw as int, reach);
    one_way_lines_up(c.edges.1, c.stops.1, t.y.raw as int, dy, z.raw as int, reach);
}

/// Whether a way, and the line that is shown for it, is one that the pointer may give: as far as it
/// went, with no line; or with an edge on the line, and within five pixels of that.
pub open spec fn lines_up(
    edges: Seq<Micro>,
    stops: Seq<Micro>,
    on_screen: int,
    way: int,
    zoom: int,
    shown: Option<Micro>,
) -> bool {
    match shown {
        None => as_far(way, on_screen, zoom),
        Some(stop) => {
            &&& stops.contains(stop)
            &&& exists|i: int| 0 <= i < edges.len() && (#[trigger] edges[i]).raw + way == stop.raw
            &&& -5_000_000_000_000 - zoom <= way * zoom - 1_000_000 * on_screen
                <= 5_000_000_000_000 + zoom
        },
    }
}

proof fn one_way_lines_up(
    edges: Seq<Micro>,
    stops: Seq<Micro>,
    on_screen: int,
    by: Micro,
    zoom: int,
    reach: Micro,
)
    requires
        forall|i: int| 0 <= i < edges.len() ==> within(#[trigger] edges[i], 1_000_000_000_000_000),
        forall|i: int| 0 <= i < stops.len() ==> within(#[trigger] stops[i], 1_000_000_000_000_000),
        within(by, 40_000_000_000_000),
        as_far(by.raw as int, on_screen, zoom),
        250_000 <= zoom <= 4_000_000,
        0 <= reach.raw <= 40_000_000_000_000,
        reach.raw * zoom <= 5_000_000_000_000,
    ensures
        ({
            let p = pull(edges, by, stops, reach);
            lines_up(edges, stops, on_screen, pulled(by, p).raw as int, zoom, guide(p))
        }),
{
    let p = pull(edges, by, stops, reach);
    if p is Some {
        pulls_go_to_the_nearest_line(edges, by, stops, reach);
        let (step, stop) = p->0;
        let i = choose|i: int|
            0 <= i < edges.len() && step == stop.minus((#[trigger] edges[i]).plus(by)) && reached(
                edges[i].plus(by),
                stop,
                reach,
            );
        let j = choose|j: int| 0 <= j < stops.len() && stops[j] == stop;
        assert(within(stops[j], 1_000_000_000_000_000));
        assert(-reach.raw <= step.raw <= reach.raw);
        assert(pulled(by, p).raw == by.raw + step.raw);
        assert(edges[i].raw + (by.raw + step.raw) == stop.raw);
        mono(zoom, -reach.raw, step.raw as int);
        mono(zoom, step.raw as int, reach.raw as int);
        distributed(zoom, by.raw as int, step.raw as int);
        distributed(zoom, 0, reach.raw as int);
    }
}

} // verus!
