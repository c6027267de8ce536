//! Laws of gestures: what a drag leaves behind is decided where it ends, bands and clicks edit
//! nothing, a click finds what is on top, and a double click goes one level down.
use vstd::prelude::*;
use crate::canvas::{
    clicked, close_to, drag_puts, dragged, drilled_at, move_puts, put_each, reported_twice,
    side_field, travel, CanvasModel, ClickSource, Drag, DragModel, DragPhase, Modifiers, Put, Side,
};
use crate::geometry::{
    line_dragged, line_stretched, min_size, resized_in_proportion, Corner, LineEnd, Point,
};
use crate::hit::{hit_leaf, hit_top_level, hits_any, joined, last_hit};
use crate::motion::{selected_shapes, shifted_each};
use crate::node::NodeModel;
use crate::ops::EditorModel;
use crate::order::written_peeks;
use crate::paste::{paste_offset, pasted};
use crate::scalar::{tiny, Scalar};
use crate::scene::{
    children, distinct, has_row, lineage, lineage_within, peek, shapes, shapes_of_each, slot, slot_is_unique,
    with_field, written, FieldModel,
};
use crate::svg::parsed;

verus! {

// ---------------------------------------------------------------------------
// Writes of geometry
// ---------------------------------------------------------------------------

/// A geometry column of a row.
pub open spec fn side_of<S>(n: NodeModel<S>, side: Side) -> S {
    match side {
        Side::X => n.x,
        Side::Y => n.y,
        Side::W => n.w,
        Side::H => n.h,
    }
}

/// The last value that some writes give a column of a row.
pub open spec fn last_put<S>(puts: Seq<Put<S>>, id: u64, side: Side) -> Option<S>
    decreases puts.len(),
{
    if puts.len() == 0 {
        None
    } else if puts.last().id == id && puts.last().side == side {
        Some(puts.last().value)
    } else {
        last_put(puts.drop_last(), id, side)
    }
}

/// A column after some writes.
pub open spec fn side_after<S>(n: NodeModel<S>, puts: Seq<Put<S>>, side: Side) -> S {
    match last_put(puts, n.id, side) {
        Some(v) => v,
        None => side_of(n, side),
    }
}

/// A row after some writes: each geometry column has the last value it was given.
pub open spec fn row_after<S>(n: NodeModel<S>, puts: Seq<Put<S>>) -> NodeModel<S> {
    NodeModel {
        x: side_after(n, puts, Side::X),
        y: side_after(n, puts, Side::Y),
        w: side_after(n, puts, Side::W),
        h: side_after(n, puts, Side::H),
        ..n
    }
}

/// What some writes come to, row by row.
proof fn put_each_is<S: Scalar>(rows: Seq<NodeModel<S>>, puts: Seq<Put<S>>)
    requires
        distinct(rows),
    ensures
        distinct(put_each(rows, puts)),
        put_each(rows, puts).len() == rows.len(),
        forall|i: int|
            0 <= i < rows.len() ==> #[trigger] put_each(rows, puts)[i] == row_after(rows[i], puts),
    decreases puts.len(),
{
    if puts.len() > 0 {
        let front = puts.drop_last();
        let p = puts.last();
        put_each_is(rows, front);
        let r = put_each(rows, front);
        let w = put_each(rows, puts);
        let f = side_field(p.side, p.value);
        written_peeks(r, p.id, f);
        assert forall|i: int| 0 <= i < rows.len() implies #[trigger] w[i] == row_after(
            rows[i],
            puts,
        ) by {
            assert(r[i] == row_after(rows[i], front));
            if has_row(r, p.id) {
                let k = slot(r, p.id);
                assert(r[k].id == p.id);
                if i == k {
                    assert(w[i] == with_field(r[k], f));
                } else {
                    assert(w[i] == r[i]);
                    assert(rows[i].id != p.id) by {
                        if rows[i].id == p.id {
                            slot_is_unique(r, i);
                        }
                    }
                }
            } else {
                assert(w[i] == r[i]);
                assert(rows[i].id != p.id) by {
                    if rows[i].id == p.id {
                        assert(r[i].id == p.id);
                    }
                }
            }
        }
    } else {
        assert forall|i: int| 0 <= i < rows.len() implies #[trigger] put_each(rows, puts)[i]
            == row_after(rows[i], puts) by {}
    }
}

/// Whether two runs of writes are to the same columns.
pub open spec fn same_columns<S>(a: Seq<Put<S>>, b: Seq<Put<S>>) -> bool {
    a.len() == b.len() && forall|i: int|
        0 <= i < a.len() ==> (#[trigger] a[i]).id == b[i].id && a[i].side == b[i].side
}

proof fn same_columns_put_alike<S>(a: Seq<Put<S>>, b: Seq<Put<S>>, id: u64, side: Side)
    requires
        same_columns(a, b),
    ensures
        last_put(a, id, side) is Some <==> last_put(b, id, side) is Some,
    decreases a.len(),
{
    if a.len() > 0 {
        let x = a.drop_last();
        let y = b.drop_last();
        assert(same_columns(x, y)) by {
            assert forall|i: int| 0 <= i < x.len() implies (#[trigger] x[i]).id == y[i].id
                && x[i].side == y[i].side by {
                assert(a[i].id == b[i].id && a[i].side == b[i].side);
            }
        }
        same_columns_put_alike(x, y, id, side);
        let n = a.len() - 1;
        assert(a[n].id == b[n].id && a[n].side == b[n].side);
    }
}

/// Writes to the same columns, made later, leave no trace of the earlier ones.
proof fn later_writes_win<S: Scalar>(rows: Seq<NodeModel<S>>, a: Seq<Put<S>>, b: Seq<Put<S>>)
    requires
        distinct(rows),
        same_columns(a, b),
    ensures
        put_each(put_each(rows, a), b) == put_each(rows, b),
{
    put_each_is(rows, a);
    let r = put_each(rows, a);
    put_each_is(r, b);
    put_each_is(rows, b);
    let w = put_each(r, b);
    let v = put_each(rows, b);
    assert forall|i: int| 0 <= i < rows.len() implies #[trigger] w[i] == v[i] by {
        let n = rows[i];
        assert(r[i] == row_after(n, a));
        same_columns_put_alike(a, b, n.id, Side::X);
        same_columns_put_alike(a, b, n.id, Side::Y);
        same_columns_put_alike(a, b, n.id, Side::W);
        same_columns_put_alike(a, b, n.id, Side::H);
        assert(w[i] == row_after(r[i], b));
        assert(v[i] == row_after(n, b));
    }
    assert(w =~= v);
}

/// A drag writes the same columns at every moment.
proof fn drags_write_the_same_columns<S: Scalar>(
    op: DragModel<S>,
    a: (S, S),
    shift_a: bool,
    over_a: bool,
    b: (S, S),
    shift_b: bool,
    over_b: bool,
)
    ensures
        same_columns(
            drag_puts(op, a.0, a.1, shift_a, over_a),
            drag_puts(op, b.0, b.1, shift_b, over_b),
        ),
{
    match op {
        DragModel::Move { starts, copying } => {
            moves_write_the_same_columns(starts, a, over_a, b, over_b);
        },
        _ => {},
    }
}

proof fn moves_write_the_same_columns<S: Scalar>(
    starts: Seq<(u64, S, S)>,
    a: (S, S),
    over_a: bool,
    b: (S, S),
    over_b: bool,
)
    ensures
        same_columns(move_puts(starts, a.0, a.1, over_a), move_puts(starts, b.0, b.1, over_b)),
    decreases starts.len(),
{
    if starts.len() > 0 {
        let front = starts.drop_last();
        moves_write_the_same_columns(front, a, over_a, b, over_b);
        let x = move_puts(starts, a.0, a.1, over_a);
        let y = move_puts(starts, b.0, b.1, over_b);
        let x0 = move_puts(front, a.0, a.1, over_a);
        let y0 = move_puts(front, b.0, b.1, over_b);
        assert forall|i: int| 0 <= i < x.len() implies (#[trigger] x[i]).id == y[i].id && x[i].side
            == y[i].side by {
            if i < x0.len() {
                assert(x[i] == x0[i] && y[i] == y0[i]);
            }
        }
    }
}

/// What a drag leaves behind is decided where it ends: however it went in between, the drawing
/// after it is the one that a drag straight to its end would have left.
pub proof fn drags_are_decided_where_they_end<S: Scalar>(
    rows: Seq<NodeModel<S>>,
    op: DragModel<S>,
    via: (S, S),
    via_shift: bool,
    to: (S, S),
    shift: bool,
)
    requires
        distinct(rows),
    ensures
        put_each(
            put_each(rows, drag_puts(op, via.0, via.1, via_shift, false)),
            drag_puts(op, to.0, to.1, shift, true),
        ) == put_each(rows, drag_puts(op, to.0, to.1, shift, true)),
        put_each(
            put_each(rows, drag_puts(op, via.0, via.1, via_shift, false)),
            drag_puts(op, to.0, to.1, shift, false),
        ) == put_each(rows, drag_puts(op, to.0, to.1, shift, false)),
{
    drags_write_the_same_columns(op, via, via_shift, false, to, shift, true);
    drags_write_the_same_columns(op, via, via_shift, false, to, shift, false);
    later_writes_win(
        rows,
        drag_puts(op, via.0, via.1, via_shift, false),
        drag_puts(op, to.0, to.1, shift, true),
    );
    later_writes_win(
        rows,
        drag_puts(op, via.0, via.1, via_shift, false),
        drag_puts(op, to.0, to.1, shift, false),
    );
}

/// Whether every write gives a column the value it has.
spec fn idle_puts<S: Scalar>(rows: Seq<NodeModel<S>>, puts: Seq<Put<S>>) -> bool {
    forall|i: int|
        0 <= i < puts.len() ==> (#[trigger] puts[i]).value == side_of(
            peek(rows, puts[i].id),
            puts[i].side,
        )
}

proof fn idle_last_put<S: Scalar>(
    rows: Seq<NodeModel<S>>,
    puts: Seq<Put<S>>,
    id: u64,
    side: Side,
)
    requires
        idle_puts(rows, puts),
    ensures
        last_put(puts, id, side) matches Some(v) ==> v == side_of(peek(rows, id), side),
    decreases puts.len(),
{
    if puts.len() > 0 {
        let front = puts.drop_last();
        assert(idle_puts(rows, front)) by {
            assert forall|i: int| 0 <= i < front.len() implies (#[trigger] front[i]).value
                == side_of(peek(rows, front[i].id), front[i].side) by {
                assert(front[i] == puts[i]);
            }
        }
        idle_last_put(rows, front, id, side);
        assert(puts[puts.len() - 1] == puts.last());
    }
}

proof fn idle_puts_change_nothing<S: Scalar>(rows: Seq<NodeModel<S>>, puts: Seq<Put<S>>)
    requires
        distinct(rows),
        idle_puts(rows, puts),
    ensures
        put_each(rows, puts) == rows,
{
    put_each_is(rows, puts);
    let w = put_each(rows, puts);
    assert forall|i: int| 0 <= i < rows.len() implies #[trigger] w[i] == rows[i] by {
        let n = rows[i];
        slot_is_unique(rows, i);
        assert(peek(rows, n.id) == n);
        idle_last_put(rows, puts, n.id, Side::X);
        idle_last_put(rows, puts, n.id, Side::Y);
        idle_last_put(rows, puts, n.id, Side::W);
        idle_last_put(rows, puts, n.id, Side::H);
    }
    assert(w =~= rows);
}

/// Whether a drag that has travelled by `(dx, dy)` is back where it began.
pub open spec fn back_home<S: Scalar>(op: DragModel<S>, dx: S, dy: S, shift: bool) -> bool {
    match op {
        DragModel::Move { starts, copying } => forall|i: int|
            0 <= i < starts.len() ==> (#[trigger] starts[i]).1.plus(dx).equals(starts[i].1)
                && starts[i].2.plus(dy).equals(starts[i].2),
        DragModel::Resize { id, corner, start, rotation } => {
            let f = crate::canvas::dragged_frame(op, dx, dy, shift);
            f.0.equals(start.0) && f.1.equals(start.1) && f.2.equals(start.2) && f.3.equals(start.3)
        },
        DragModel::Endpoint { id, end, start } => {
            let f = crate::canvas::dragged_frame(op, dx, dy, shift);
            f.0.equals(start.0) && f.1.equals(start.1) && f.2.equals(start.2) && f.3.equals(start.3)
        },
        _ => true,
    }
}

/// Whether a drag began on the rows as they are.
pub open spec fn began_on<S: Scalar>(op: DragModel<S>, rows: Seq<NodeModel<S>>) -> bool {
    match op {
        DragModel::Move { starts, copying } => forall|i: int|
            0 <= i < starts.len() ==> (#[trigger] starts[i]).1 == peek(rows, starts[i].0).x
                && starts[i].2 == peek(rows, starts[i].0).y,
        DragModel::Resize { id, corner, start, rotation } => start == (
            peek(rows, id).x,
            peek(rows, id).y,
            peek(rows, id).w,
            peek(rows, id).h,
        ),
        DragModel::Endpoint { id, end, start } => start == (
            peek(rows, id).x,
            peek(rows, id).y,
            peek(rows, id).w,
            peek(rows, id).h,
        ),
        _ => true,
    }
}

proof fn home_moves_are_idle<S: Scalar>(
    rows: Seq<NodeModel<S>>,
    starts: Seq<(u64, S, S)>,
    dx: S,
    dy: S,
)
    requires
        forall|i: int|
            0 <= i < starts.len() ==> (#[trigger] starts[i]).1.plus(dx).equals(starts[i].1)
                && starts[i].2.plus(dy).equals(starts[i].2) && starts[i].1 == peek(
                rows,
                starts[i].0,
            ).x && starts[i].2 == peek(rows, starts[i].0).y,
    ensures
        idle_puts(rows, move_puts(starts, dx, dy, true)),
    decreases starts.len(),
{
    if starts.len() > 0 {
        let front = starts.drop_last();
        assert forall|i: int| 0 <= i < front.len() implies (#[trigger] front[i]).1.plus(dx).equals(
            front[i].1,
        ) && front[i].2.plus(dy).equals(front[i].2) && front[i].1 == peek(rows, front[i].0).x
            && front[i].2 == peek(rows, front[i].0).y by {
            assert(front[i] == starts[i]);
        }
        home_moves_are_idle(rows, front, dx, dy);
        let a = move_puts(front, dx, dy, true);
        let p = move_puts(starts, dx, dy, true);
        let last = starts[starts.len() - 1];
        assert forall|i: int| 0 <= i < p.len() implies (#[trigger] p[i]).value == side_of(
            peek(rows, p[i].id),
            p[i].side,
        ) by {
            if i < a.len() {
                assert(p[i] == a[i]);
            } else {
                assert(starts.last() == last);
            }
        }
    }
}

/// A drag that ends where it began changes nothing, however far it went in between: no column
/// is left where the pointer passed, and there is nothing to undo.
pub proof fn drags_home_change_nothing<S: Scalar>(
    rows: Seq<NodeModel<S>>,
    op: DragModel<S>,
    via: (S, S),
    via_shift: bool,
    to: (S, S),
    shift: bool,
)
    requires
        distinct(rows),
        began_on(op, rows),
        back_home(op, to.0, to.1, shift),
    ensures
        put_each(
            put_each(rows, drag_puts(op, via.0, via.1, via_shift, false)),
            drag_puts(op, to.0, to.1, shift, true),
        ) == rows,
{
    let puts = drag_puts(op, to.0, to.1, shift, true);
    drags_are_decided_where_they_end(rows, op, via, via_shift, to, shift);
    match op {
        DragModel::Move { starts, copying } => {
            home_moves_are_idle(rows, starts, to.0, to.1);
        },
        _ => {},
    }
    assert(idle_puts(rows, puts));
    idle_puts_change_nothing(rows, puts);
}

/// Sweeping a band is no edit, nor is the click that a still press turns into: whatever the
/// band selects, the drawing stays as it is.
pub proof fn sweeping_is_no_edit<S: Scalar>(
    c: CanvasModel<S>,
    m: EditorModel<S>,
    drag: Drag<S>,
    mods: Modifiers,
    clock: Option<u64>,
)
    requires
        c.op is Band,
        drag.phase != DragPhase::Began,
    ensures
        dragged(c, m, drag, mods, clock).1.rows == m.rows,
        dragged(c, m, drag, mods, clock).1.background == m.background,
{
}

/// A band is gone once the pointer lifts, whatever it caught.
pub proof fn bands_go_on_release<S: Scalar>(
    c: CanvasModel<S>,
    m: EditorModel<S>,
    drag: Drag<S>,
    mods: Modifiers,
    clock: Option<u64>,
)
    requires
        c.op is Band,
        drag.phase == DragPhase::Ended,
    ensures
        dragged(c, m, drag, mods, clock).0.band is None,
        dragged(c, m, drag, mods, clock).0.op is Idle,
{
}

// ---------------------------------------------------------------------------
// Clicks and copies
// ---------------------------------------------------------------------------

/// A click is no edit: whatever it selects, the drawing stays as it is.
pub proof fn clicking_is_no_edit<S: Scalar>(
    c: CanvasModel<S>,
    m: EditorModel<S>,
    p: Point<S>,
    mods: Modifiers,
    source: ClickSource,
    clock: Option<u64>,
)
    ensures
        clicked(c, m, p, mods, source, clock).1.rows == m.rows,
        clicked(c, m, p, mods, source, clock).1.background == m.background,
        clicked(c, m, p, mods, source, clock).0.viewport == c.viewport,
{
}

/// One press is one click. A report that the other recognizer gives of the same press changes
/// nothing, and is not remembered, so it cannot swallow the next press; and a recognizer's
/// own next report always counts, however soon it comes.
pub proof fn one_press_is_one_click<S: Scalar>(
    c: CanvasModel<S>,
    m: EditorModel<S>,
    p: Point<S>,
    mods: Modifiers,
    source: ClickSource,
    now: u64,
    again: Point<S>,
    later: u64,
)
    requires
        !reported_twice(c, p, source, now),
    ensures
        ({
            let (c1, m1) = clicked(c, m, p, mods, source, Some(now));
            let other = match source {
                ClickSource::Tap => ClickSource::DragEnd,
                ClickSource::DragEnd => ClickSource::Tap,
            };
            &&& close_to(now, p, later, again, 30_000_000) ==> clicked(
                c1,
                m1,
                again,
                mods,
                other,
                Some(later),
            ) == (c1, m1)
            &&& !close_to(now, p, later, again, 30_000_000) ==> !reported_twice(
                c1,
                again,
                other,
                later,
            )
            &&& !reported_twice(c1, again, source, later)
        }),
{
}

/// Once a drag has begun, what it drags is settled: letting go of the key that made copies of
/// it goes on dragging the copies.
pub proof fn copies_go_on_being_dragged<S: Scalar>(
    c: CanvasModel<S>,
    m: EditorModel<S>,
    drag: Drag<S>,
    mods: Modifiers,
    other: Modifiers,
    clock: Option<u64>,
)
    requires
        c.op is Move,
        drag.phase != DragPhase::Began,
    ensures
        dragged(c, m, drag, mods, clock) == dragged(c, m, drag, other, clock),
{
}

/// What has not been dragged along an axis is not pulled along it, and with snapping off nothing
/// is: what is dragged goes exactly as far as the pointer.
pub proof fn only_travel_snaps<S: Scalar>(c: CanvasModel<S>, t: Point<S>, shift: bool)
    ensures
        t.x.over(c.viewport.zoom).equals(S::of_int(0)) || !c.snapping ==> travel(c, t, shift).0
            == t.x.over(c.viewport.zoom),
        t.y.over(c.viewport.zoom).equals(S::of_int(0)) || !c.snapping ==> travel(c, t, shift).1
            == t.y.over(c.viewport.zoom),
{
}

/// Holding shift scales a frame by one factor both ways, and a line too: proportions and
/// direction stay. What has no extent to scale is dragged freely.
pub proof fn shift_scales_both_ways<S: Scalar>(
    start: (S, S, S, S),
    corner: Corner,
    end: LineEnd,
    dx: S,
    dy: S,
)
    ensures
        S::of_int(0).below(start.2) && S::of_int(0).below(start.3) ==> exists|k: S|
            (#[trigger] start.2.times(k), start.3.times(k)) == (
                resized_in_proportion(start, corner, dx, dy).2,
                resized_in_proportion(start, corner, dx, dy).3,
            ),
        !start.2.times(start.2).plus(start.3.times(start.3)).at_most(tiny()) ==> exists|t: S|
            (#[trigger] start.2.times(t), start.3.times(t)) == (
                line_stretched(start, end, dx, dy).2,
                line_stretched(start, end, dx, dy).3,
            ),
{
    let (x, y, w, h) = start;
    let wide = if corner.left() {
        w.minus(dx)
    } else {
        w.plus(dx)
    };
    let tall = if corner.top() {
        h.minus(dy)
    } else {
        h.plus(dy)
    };
    let k = wide.over(w).greater(tall.over(h)).greater(min_size::<S>().over(w)).greater(
        min_size::<S>().over(h),
    );
    if S::of_int(0).below(w) && S::of_int(0).below(h) {
        let f = resized_in_proportion(start, corner, dx, dy);
        assert((start.2.times(k), start.3.times(k)) == (f.2, f.3));
    }
    let len2 = w.times(w).plus(h.times(h));
    let free = line_dragged(start, end, dx, dy);
    let t = free.2.times(w).plus(free.3.times(h)).over(len2);
    if !len2.at_most(tiny()) {
        let f = line_stretched(start, end, dx, dy);
        assert((start.2.times(t), start.3.times(t)) == (f.2, f.3));
    }
}

// ---------------------------------------------------------------------------
// Hits
// ---------------------------------------------------------------------------

proof fn last_hit_is<S: Scalar>(rows: Seq<NodeModel<S>>, ids: Seq<u64>, p: Point<S>, zoom: S)
    ensures
        match last_hit(rows, ids, p, zoom) {
            Some(id) => exists|i: int|
                #![trigger ids[i]]
                0 <= i < ids.len() && ids[i] == id && hits_any(rows, shapes(rows, id), p, zoom)
                    && forall|j: int|
                    i < j < ids.len() ==> !hits_any(rows, shapes(rows, #[trigger] ids[j]), p, zoom),
            None => forall|j: int|
                0 <= j < ids.len() ==> !hits_any(rows, shapes(rows, #[trigger] ids[j]), p, zoom),
        },
    decreases ids.len(),
{
    if ids.len() > 0 {
        let n = ids.len() - 1;
        let front = ids.drop_last();
        assert(ids[n] == ids.last());
        if !hits_any(rows, shapes(rows, ids.last()), p, zoom) {
            last_hit_is(rows, front, p, zoom);
            match last_hit(rows, ids, p, zoom) {
                Some(id) => {
                    let i = choose|i: int|
                        #![trigger front[i]]
                        0 <= i < front.len() && front[i] == id && hits_any(
                            rows,
                            shapes(rows, id),
                            p,
                            zoom,
                        ) && forall|j: int|
                            i < j < front.len() ==> !hits_any(
                                rows,
                                shapes(rows, #[trigger] front[j]),
                                p,
                                zoom,
                            );
                    assert(ids[i] == id);
                    assert forall|j: int| i < j < ids.len() implies !hits_any(
                        rows,
                        shapes(rows, #[trigger] ids[j]),
                        p,
                        zoom,
                    ) by {
                        if j < n {
                            assert(front[j] == ids[j]);
                        }
                    }
                },
                None => {
                    assert forall|j: int| 0 <= j < ids.len() implies !hits_any(
                        rows,
                        shapes(rows, #[trigger] ids[j]),
                        p,
                        zoom,
                    ) by {
                        if j < n {
                            assert(front[j] == ids[j]);
                        }
                    }
                },
            }
        }
    }
}

/// A click finds what is on top: of the top-level nodes that a point is on, through any of
/// their shapes, the highest in the layer order, and none where the point is on nothing.
pub proof fn clicks_find_what_is_on_top<S: Scalar>(rows: Seq<NodeModel<S>>, p: Point<S>, zoom: S)
    ensures
        ({
            let roots = children(rows, None);
            match hit_top_level(rows, p, zoom) {
                Some(id) => exists|i: int|
                    #![trigger roots[i]]
                    0 <= i < roots.len() && roots[i] == id && hits_any(
                        rows,
                        shapes(rows, id),
                        p,
                        zoom,
                    ) && forall|j: int|
                        i < j < roots.len() ==> !hits_any(
                            rows,
                            shapes(rows, #[trigger] roots[j]),
                            p,
                            zoom,
                        ),
                None => forall|j: int|
                    0 <= j < roots.len() ==> !hits_any(
                        rows,
                        shapes(rows, #[trigger] roots[j]),
                        p,
                        zoom,
                    ),
            }
        }),
{
    last_hit_is(rows, children(rows, None), p, zoom);
}

/// Each step of a walk up the tree goes to the parent of the one before.
proof fn walk_steps<S: Scalar>(rows: Seq<NodeModel<S>>, id: u64, n: nat, i: int)
    requires
        0 < i < lineage_within(rows, id, n).len(),
    ensures
        peek(rows, lineage_within(rows, id, n)[i - 1]).parent == Some(
            lineage_within(rows, id, n)[i],
        ),
    decreases n,
{
    match peek(rows, id).parent {
        None => {},
        Some(p) => {
            let w = lineage_within(rows, id, n);
            let v = lineage_within(rows, p, (n - 1) as nat);
            assert(w == seq![id] + v);
            if i > 1 {
                walk_steps(rows, p, (n - 1) as nat, i - 1);
                assert(w[i - 1] == v[i - 2] && w[i] == v[i - 1]);
            } else {
                assert(w[0] == id);
                assert(w[1] == v[0]);
                assert(v[0] == p);
            }
        },
    }
}

/// A double click goes one level down: what it selects is a member of what was selected, on the
/// way to the shape under the pointer, or that shape itself where it was selected already.
pub proof fn double_clicks_go_one_level_down<S: Scalar>(m: EditorModel<S>, p: Point<S>, zoom: S)
    requires
        drilled_at(m, p, zoom) is Some,
    ensures
        ({
            let next = drilled_at(m, p, zoom)->0;
            let leaf = hit_leaf(m.rows, p, zoom);
            &&& leaf is Some
            &&& m.selection.len() == 1
            &&& next.len() == 1
            &&& lineage(m.rows, leaf->0).contains(next[0])
            &&& (next[0] == leaf->0 && m.selection[0] == leaf->0) || peek(
                m.rows,
                next[0],
            ).parent == Some(m.selection[0])
        }),
{
    let leaf = hit_leaf(m.rows, p, zoom)->0;
    let line = lineage(m.rows, leaf);
    let sole = m.selection[0];
    crate::scene::lineage_starts(m.rows, leaf, crate::scene::reach(m.rows));
    assert(line[0] == leaf);
    if sole != leaf {
        first_later(line, sole);
        let first = choose|i: int|
            1 <= i < line.len() && #[trigger] line[i] == sole && forall|j: int|
                1 <= j < i ==> line[j] != sole;
        walk_steps(m.rows, leaf, crate::scene::reach(m.rows), first);
        assert(line.contains(line[first - 1]));
    }
}

/// Where something occurs past the start, it occurs there first.
proof fn first_later(line: Seq<u64>, a: u64)
    requires
        exists|i: int| 1 <= i < line.len() && #[trigger] line[i] == a,
    ensures
        exists|i: int|
            1 <= i < line.len() && #[trigger] line[i] == a && forall|j: int|
                1 <= j < i ==> line[j] != a,
{
    let i = choose|i: int| 1 <= i < line.len() && #[trigger] line[i] == a;
    first_later_from(line, a, 1, i);
}

proof fn first_later_from(line: Seq<u64>, a: u64, lo: int, hi: int)
    requires
        1 <= lo <= hi < line.len(),
        line[hi] == a,
        forall|j: int| 1 <= j < lo ==> line[j] != a,
    ensures
        exists|i: int|
            1 <= i < line.len() && #[trigger] line[i] == a && forall|j: int|
                1 <= j < i ==> line[j] != a,
    decreases hi - lo,
{
    if line[lo] != a {
        first_later_from(line, a, lo + 1, hi);
    }
}

/// A sweep that adds keeps what was selected, in place, and lists nothing twice: what it adds
/// comes after, and was not selected before.
pub proof fn sweeps_add_once(base: Seq<u64>, more: Seq<u64>)
    ensures
        joined(base, more).len() >= base.len(),
        forall|i: int| 0 <= i < base.len() ==> #[trigger] joined(base, more)[i] == base[i],
        forall|id: u64| #[trigger]
            joined(base, more).contains(id) <==> base.contains(id) || more.contains(id),
        base.no_duplicates() ==> joined(base, more).no_duplicates(),
    decreases more.len(),
{
    if more.len() > 0 {
        let front = more.drop_last();
        sweeps_add_once(base, front);
        let r = joined(base, front);
        let last = more.last();
        let w = joined(base, more);
        assert forall|id: u64| #[trigger] w.contains(id) <==> base.contains(id) || more.contains(
            id,
        ) by {
            assert(r.contains(id) <==> base.contains(id) || front.contains(id));
            if more.contains(id) && id != last {
                let i = choose|i: int| 0 <= i < more.len() && more[i] == id;
                assert(front[i] == id);
            }
            if front.contains(id) {
                let i = choose|i: int| 0 <= i < front.len() && front[i] == id;
                assert(more[i] == id);
            }
            assert(more[more.len() - 1] == last);
            if !r.contains(last) {
                if r.contains(id) {
                    let i = choose|i: int| 0 <= i < r.len() && r[i] == id;
                    assert(w[i] == id);
                }
                assert(w[r.len() as int] == last);
                if w.contains(id) && id != last {
                    let i = choose|i: int| 0 <= i < w.len() && w[i] == id;
                    assert(r[i] == id);
                }
            }
        }
        assert forall|i: int| 0 <= i < base.len() implies #[trigger] w[i] == base[i] by {
            assert(r[i] == base[i]);
        }
        if base.no_duplicates() && !r.contains(last) {
            assert forall|i: int, j: int|
                0 <= i < w.len() && 0 <= j < w.len() && i != j implies w[i] != w[j] by {
                if i < r.len() && j < r.len() {
                    assert(r[i] != r[j]);
                } else if i < r.len() {
                    assert(r.contains(r[i]));
                } else if j < r.len() {
                    assert(r.contains(r[j]));
                }
            }
        }
    }
}

// ---------------------------------------------------------------------------
// Nudges and pastes
// ---------------------------------------------------------------------------

/// A shape after a nudge. An axis without a step keeps its coordinate as it is.
pub open spec fn nudged_row<S: Scalar>(n: NodeModel<S>, dx: S, dy: S) -> NodeModel<S> {
    NodeModel {
        x: if dx.equals(S::of_int(0)) {
            n.x
        } else {
            n.x.plus(dx)
        },
        y: if dy.equals(S::of_int(0)) {
            n.y
        } else {
            n.y.plus(dy)
        },
        ..n
    }
}

proof fn nudged_each<S: Scalar>(rows: Seq<NodeModel<S>>, ids: Seq<u64>, dx: S, dy: S)
    requires
        distinct(rows),
        ids.no_duplicates(),
    ensures
        forall|x: u64|
            ids.contains(x) && has_row(rows, x) ==> #[trigger] peek(
                shifted_each(rows, ids, dx, dy),
                x,
            ) == nudged_row(peek(rows, x), dx, dy),
    decreases ids.len(),
{
    if ids.len() > 0 {
        let front = ids.drop_last();
        let n = ids.len() - 1;
        let id = ids[n];
        assert(front.no_duplicates()) by {
            assert forall|i: int, j: int|
                0 <= i < front.len() && 0 <= j < front.len() && i != j implies front[i]
                != front[j] by {
                assert(ids[i] != ids[j]);
            }
        }
        nudged_each(rows, front, dx, dy);
        nudges_touch_coordinates_alone(rows, front, dx, dy);
        assert(!front.contains(id)) by {
            if front.contains(id) {
                let i = choose|i: int| 0 <= i < front.len() && front[i] == id;
                assert(ids[i] == ids[n]);
            }
        }
        let r = shifted_each(rows, front, dx, dy);
        let f = FieldModel::X(peek(r, id).x.plus(dx));
        let r1 = if dx.equals(S::of_int(0)) {
            r
        } else {
            written(r, id, f)
        };
        let g = FieldModel::Y(peek(r1, id).y.plus(dy));
        let w = shifted_each(rows, ids, dx, dy);
        written_peeks(r, id, f);
        written_peeks(r1, id, g);
        assert(peek(r, id) == peek(rows, id));
        assert forall|x: u64| ids.contains(x) && has_row(rows, x) implies #[trigger] peek(w, x)
            == nudged_row(peek(rows, x), dx, dy) by {
            assert(has_row(r, x));
            assert(has_row(r1, x) <==> has_row(r, x));
            if x != id {
                let i = choose|i: int| 0 <= i < ids.len() && ids[i] == x;
                assert(front[i] == x);
                assert(peek(r1, x) == peek(r, x));
                assert(peek(w, x) == peek(r1, x));
            }
        }
    }
}

/// A nudge moves each shape of the selection by one step, however often the selection covers
/// it, and nothing else.
pub proof fn nudges_move_each_shape_once<S: Scalar>(
    rows: Seq<NodeModel<S>>,
    selection: Seq<u64>,
    dx: S,
    dy: S,
    x: u64,
)
    requires
        distinct(rows),
    ensures
        ({
            let after = shifted_each(rows, selected_shapes(rows, selection), dx, dy);
            if shapes_of_each(rows, selection).contains(x) && has_row(rows, x) {
                peek(after, x) == nudged_row(peek(rows, x), dx, dy)
            } else if !shapes_of_each(rows, selection).contains(x) {
                peek(after, x) == peek(rows, x)
            } else {
                true
            }
        }),
{
    let ids = selected_shapes(rows, selection);
    sweeps_add_once(Seq::empty(), shapes_of_each(rows, selection));
    nudged_each(rows, ids, dx, dy);
    nudges_touch_coordinates_alone(rows, ids, dx, dy);
    assert(ids.contains(x) <==> shapes_of_each(rows, selection).contains(x));
}

/// A nudge touches the shapes it moves alone, and of those only the coordinates.
pub proof fn nudges_touch_coordinates_alone<S: Scalar>(
    rows: Seq<NodeModel<S>>,
    ids: Seq<u64>,
    dx: S,
    dy: S,
)
    requires
        distinct(rows),
    ensures
        distinct(shifted_each(rows, ids, dx, dy)),
        forall|x: u64| #[trigger]
            has_row(shifted_each(rows, ids, dx, dy), x) <==> has_row(rows, x),
        forall|x: u64|
            !ids.contains(x) ==> #[trigger] peek(shifted_each(rows, ids, dx, dy), x) == peek(
                rows,
                x,
            ),
        forall|x: u64|
            ({
                let n = #[trigger] peek(shifted_each(rows, ids, dx, dy), x);
                n == (NodeModel { x: n.x, y: n.y, ..peek(rows, x) })
            }),
    decreases ids.len(),
{
    if ids.len() > 0 {
        let front = ids.drop_last();
        let id = ids.last();
        nudges_touch_coordinates_alone(rows, front, dx, dy);
        let r = shifted_each(rows, front, dx, dy);
        let r1 = if dx.equals(S::of_int(0)) {
            r
        } else {
            written(r, id, FieldModel::X(peek(r, id).x.plus(dx)))
        };
        let w = shifted_each(rows, ids, dx, dy);
        written_peeks(r, id, FieldModel::X(peek(r, id).x.plus(dx)));
        written_peeks(r1, id, FieldModel::Y(peek(r1, id).y.plus(dy)));
        assert(ids[ids.len() - 1] == id);
        assert forall|x: u64| #[trigger] has_row(w, x) <==> has_row(rows, x) by {
            assert(has_row(r, x) <==> has_row(rows, x));
            assert(has_row(r1, x) <==> has_row(r, x));
        }
        assert forall|x: u64|
            ({
                let n = #[trigger] peek(w, x);
                n == (NodeModel { x: n.x, y: n.y, ..peek(rows, x) })
            }) by {
            let a = peek(r, x);
            assert(a == (NodeModel { x: a.x, y: a.y, ..peek(rows, x) }));
            if x != id {
                assert(peek(r1, x) == peek(r, x));
                assert(peek(w, x) == peek(r1, x));
            } else {
                assert(has_row(r1, x) <==> has_row(r, x));
                assert(has_row(w, x) <==> has_row(r1, x)) by {
                    assert(has_row(w, x) <==> has_row(rows, x));
                    assert(has_row(r, x) <==> has_row(rows, x));
                }
            }
        }
        assert forall|x: u64| !ids.contains(x) implies #[trigger] peek(w, x) == peek(rows, x) by {
            assert(x != id);
            assert(!front.contains(x)) by {
                if front.contains(x) {
                    let i = choose|i: int| 0 <= i < front.len() && front[i] == x;
                    assert(ids[i] == x);
                }
            }
            assert(peek(r, x) == peek(rows, x));
            assert(peek(r1, x) == peek(r, x));
        }
    }
}

/// Pasting the same text again lands one step further on, so that copies never cover each
/// other, and another text starts from the first step.
pub proof fn repeated_pastes_step_on<S: Scalar>(
    m: EditorModel<S>,
    text: Seq<char>,
    other: Seq<char>,
)
    requires
        parsed::<S>(text).len() > 0,
        other != text,
    ensures
        paste_offset(pasted(m, text).last_paste, text) == paste_offset(m.last_paste, text).plus(
            S::of_int(16),
        ),
        paste_offset(pasted(m, text).last_paste, other) == S::of_int(16),
{
}

} // verus!
