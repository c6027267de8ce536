//! Moving, turning and resizing nodes by given amounts.
use vstd::prelude::*;
use crate::bounds::{line_ends, node_bounds, shape_frame};
use crate::geometry::{center, min_size, turn_about, Point};
use crate::hit::{join, joined};
use crate::node::{NodeKind, NodeModel};
use crate::ops::{count, count_spec, Editor, EditorModel};
use crate::scalar::{half, Scalar};
use crate::scene::{peek, shapes, shapes_of_each, written, Field, FieldModel, Scene};

verus! {

/// The shapes of a selection, each once, however often the selection covers it.
pub open spec fn selected_shapes<S: Scalar>(rows: Seq<NodeModel<S>>, selection: Seq<u64>) -> Seq<
    u64,
> {
    joined(Seq::empty(), shapes_of_each(rows, selection))
}

/// The rows after one shape was shifted. An axis that does not move is not written.
pub open spec fn shifted<S: Scalar>(rows: Seq<NodeModel<S>>, id: u64, dx: S, dy: S) -> Seq<
    NodeModel<S>,
> {
    let r = if dx.equals(S::of_int(0)) {
        rows
    } else {
        written(rows, id, FieldModel::X(peek(rows, id).x.plus(dx)))
    };
    if dy.equals(S::of_int(0)) {
        r
    } else {
        written(r, id, FieldModel::Y(peek(r, id).y.plus(dy)))
    }
}

/// The rows after each of `ids` was shifted, in turn.
pub open spec fn shifted_each<S: Scalar>(
    rows: Seq<NodeModel<S>>,
    ids: Seq<u64>,
    dx: S,
    dy: S,
) -> Seq<NodeModel<S>>
    decreases ids.len(),
{
    if ids.len() == 0 {
        rows
    } else {
        shifted(shifted_each(rows, ids.drop_last(), dx, dy), ids.last(), dx, dy)
    }
}

/// The rows after both coordinates of each of `ids` took on a delta, in turn.
pub open spec fn moved_each<S: Scalar>(
    rows: Seq<NodeModel<S>>,
    ids: Seq<u64>,
    dx: S,
    dy: S,
) -> Seq<NodeModel<S>>
    decreases ids.len(),
{
    if ids.len() == 0 {
        rows
    } else {
        let rest = moved_each(rows, ids.drop_last(), dx, dy);
        let r = written(rest, ids.last(), FieldModel::X(peek(rest, ids.last()).x.plus(dx)));
        written(r, ids.last(), FieldModel::Y(peek(r, ids.last()).y.plus(dy)))
    }
}

/// The sum of the centres of the shapes.
pub open spec fn center_sum<S: Scalar>(rows: Seq<NodeModel<S>>, ids: Seq<u64>) -> Point<S>
    decreases ids.len(),
{
    if ids.len() == 0 {
        Point { x: S::of_int(0), y: S::of_int(0) }
    } else {
        let rest = center_sum(rows, ids.drop_last());
        let f = shape_frame(peek(rows, ids.last()));
        Point { x: rest.x.plus(f.0).plus(half(f.2)), y: rest.y.plus(f.1).plus(half(f.3)) }
    }
}

/// What a group turns about: the mean of its shapes' centres. The turn itself keeps that
/// point, so any run of turns pivots on one spot.
pub open spec fn pivot<S: Scalar>(rows: Seq<NodeModel<S>>, ids: Seq<u64>) -> Point<S> {
    let sum = center_sum(rows, ids);
    let n = count_spec::<S>(ids.len() as int);
    Point { x: sum.x.over(n), y: sum.y.over(n) }
}

/// The rows after one shape orbited `c` by `delta` degrees. A line moves its two ends; any
/// other shape moves its centre and turns by the same amount.
pub open spec fn orbited<S: Scalar>(rows: Seq<NodeModel<S>>, id: u64, c: Point<S>, delta: S) -> Seq<
    NodeModel<S>,
> {
    let n = peek(rows, id);
    match n.kind {
        NodeKind::Line => {
            let (a, b) = line_ends(n);
            let a2 = turn_about(a, c, delta);
            let b2 = turn_about(b, c, delta);
            let r = written(rows, id, FieldModel::X(a2.x));
            let r = written(r, id, FieldModel::Y(a2.y));
            let r = written(r, id, FieldModel::W(b2.x.minus(a2.x)));
            written(r, id, FieldModel::H(b2.y.minus(a2.y)))
        },
        NodeKind::Rect | NodeKind::Oval | NodeKind::Group | NodeKind::Image => {
            let m = turn_about(center((n.x, n.y, n.w, n.h)), c, delta);
            let r = written(rows, id, FieldModel::X(m.x.minus(half(n.w))));
            let r = written(r, id, FieldModel::Y(m.y.minus(half(n.h))));
            written(r, id, FieldModel::Rotation(n.rotation.plus(delta).wrapped(S::of_int(360))))
        },
    }
}

/// The rows after each of `ids` orbited `c`, in turn.
pub open spec fn orbited_each<S: Scalar>(
    rows: Seq<NodeModel<S>>,
    ids: Seq<u64>,
    c: Point<S>,
    delta: S,
) -> Seq<NodeModel<S>>
    decreases ids.len(),
{
    if ids.len() == 0 {
        rows
    } else {
        orbited(orbited_each(rows, ids.drop_last(), c, delta), ids.last(), c, delta)
    }
}

/// The rows after a node was turned to `angle`. A shape takes the angle. A line has none to
/// take, its direction being its two ends: they turn about its middle by what the angle differs
/// from the stored one. A group turns as one body about its members' common centre, and
/// remembers the angle it is at; an empty group does not turn.
pub open spec fn turned_to<S: Scalar>(rows: Seq<NodeModel<S>>, id: u64, angle: S) -> Seq<
    NodeModel<S>,
> {
    let n = peek(rows, id);
    if n.kind == NodeKind::Line {
        orbited(rows, id, center((n.x, n.y, n.w, n.h)), angle.minus(n.rotation))
    } else if n.kind != NodeKind::Group {
        written(rows, id, FieldModel::Rotation(angle))
    } else {
        let ids = shapes(rows, id);
        if ids.len() == 0 {
            rows
        } else {
            let delta = angle.minus(n.rotation);
            written(
                orbited_each(rows, ids, pivot(rows, ids), delta),
                id,
                FieldModel::Rotation(angle),
            )
        }
    }
}

/// The rows after a node's left edge was put at `v`; a group moves all its shapes.
pub open spec fn x_set<S: Scalar>(rows: Seq<NodeModel<S>>, id: u64, v: S) -> Seq<NodeModel<S>> {
    match node_bounds(rows, id) {
        Some(b) => moved_each(rows, shapes(rows, id), v.minus(b.0), S::of_int(0)),
        None => rows,
    }
}

/// The rows after a node's top edge was put at `v`; a group moves all its shapes.
pub open spec fn y_set<S: Scalar>(rows: Seq<NodeModel<S>>, id: u64, v: S) -> Seq<NodeModel<S>> {
    match node_bounds(rows, id) {
        Some(b) => moved_each(rows, shapes(rows, id), S::of_int(0), v.minus(b.1)),
        None => rows,
    }
}

/// What a typed extent makes of the stored one. A line keeps its direction and may be flat;
/// any other shape stops at the minimum size.
pub open spec fn extent_set<S: Scalar>(kind: NodeKind, stored: S, v: S) -> S {
    match kind {
        NodeKind::Group => stored,
        NodeKind::Line => v.greater(S::of_int(0)).signed_like(stored),
        NodeKind::Rect | NodeKind::Oval | NodeKind::Image => v.greater(min_size()),
    }
}

/// The rows after a node's width was set. A group has no width of its own.
pub open spec fn w_set<S: Scalar>(rows: Seq<NodeModel<S>>, id: u64, v: S) -> Seq<NodeModel<S>> {
    let n = peek(rows, id);
    if n.kind == NodeKind::Group {
        rows
    } else {
        written(rows, id, FieldModel::W(extent_set(n.kind, n.w, v)))
    }
}

/// The rows after a node's height was set. A group has no height of its own.
pub open spec fn h_set<S: Scalar>(rows: Seq<NodeModel<S>>, id: u64, v: S) -> Seq<NodeModel<S>> {
    let n = peek(rows, id);
    if n.kind == NodeKind::Group {
        rows
    } else {
        written(rows, id, FieldModel::H(extent_set(n.kind, n.h, v)))
    }
}

impl<S: Scalar> Scene<S> {
    /// Shifts each of `ids`, writing only an axis that moves.
    pub fn shift_each(&mut self, ids: &[u64], dx: S, dy: S)
        requires
            old(self).wf(),
        ensures
            final(self).wf(),
            final(self)@.rows == shifted_each(old(self)@.rows, ids@, dx, dy),
            final(self)@.background == old(self)@.background,
    {
        let ghost rows = self@.rows;
        let ghost background = self@.background;
        let mut i: usize = 0;
        assert(ids@.subrange(0, 0) =~= Seq::<u64>::empty());
        while i < ids.len()
            invariant
                self.wf(),
                i <= ids.len(),
                self@.rows == shifted_each(rows, ids@.subrange(0, i as int), dx, dy),
                self@.background == background,
            decreases ids.len() - i,
        {
            assert(ids@.subrange(0, i + 1).drop_last() =~= ids@.subrange(0, i as int));
            let id = ids[i];
            if !dx.equals(S::of_int(0)) {
                let x = self.raw_frame(id).0.plus(dx);
                self.write(id, Field::X(x));
            }
            if !dy.equals(S::of_int(0)) {
                let y = self.raw_frame(id).1.plus(dy);
                self.write(id, Field::Y(y));
            }
            i += 1;
        }
        assert(ids@.subrange(0, i as int) =~= ids@);
    }

    /// Moves each of `ids` by `(dx, dy)`.
    pub fn move_each(&mut self, ids: &[u64], dx: S, dy: S)
        requires
            old(self).wf(),
        ensures
            final(self).wf(),
            final(self)@.rows == moved_each(old(self)@.rows, ids@, dx, dy),
            final(self)@.background == old(self)@.background,
    {
        let ghost rows = self@.rows;
        let ghost background = self@.background;
        let mut i: usize = 0;
        assert(ids@.subrange(0, 0) =~= Seq::<u64>::empty());
        while i < ids.len()
            invariant
                self.wf(),
                i <= ids.len(),
                self@.rows == moved_each(rows, ids@.subrange(0, i as int), dx, dy),
                self@.background == background,
            decreases ids.len() - i,
        {
            assert(ids@.subrange(0, i + 1).drop_last() =~= ids@.subrange(0, i as int));
            let id = ids[i];
            let x = self.raw_frame(id).0.plus(dx);
            self.write(id, Field::X(x));
            let y = self.raw_frame(id).1.plus(dy);
            self.write(id, Field::Y(y));
            i += 1;
        }
        assert(ids@.subrange(0, i as int) =~= ids@);
    }

    /// Moves a node by `(dx, dy)`: its own frame for a shape, every shape in it for a group.
    pub fn move_by(&mut self, id: u64, dx: S, dy: S)
        requires
            old(self).wf(),
        ensures
            final(self).wf(),
            final(self)@.rows == moved_each(old(self)@.rows, shapes(old(self)@.rows, id), dx, dy),
            final(self)@.background == old(self)@.background,
    {
        let ids = self.shape_descendants(id);
        self.move_each(ids.as_slice(), dx, dy);
    }

    /// Puts a node's left edge at `v`.
    pub fn set_x(&mut self, id: u64, v: S)
        requires
            old(self).wf(),
        ensures
            final(self).wf(),
            final(self)@.rows == x_set(old(self)@.rows, id, v),
            final(self)@.background == old(self)@.background,
    {
        if let Some(b) = self.node_bounds(id) {
            self.move_by(id, v.minus(b.0), S::of_int(0));
        }
    }

    /// Puts a node's top edge at `v`.
    pub fn set_y(&mut self, id: u64, v: S)
        requires
            old(self).wf(),
        ensures
            final(self).wf(),
            final(self)@.rows == y_set(old(self)@.rows, id, v),
            final(self)@.background == old(self)@.background,
    {
        if let Some(b) = self.node_bounds(id) {
            self.move_by(id, S::of_int(0), v.minus(b.1));
        }
    }

    /// What a typed extent makes of a stored one.
    fn extent(kind: NodeKind, stored: S, v: S) -> (r: S)
        ensures
            r == extent_set(kind, stored, v),
    {
        match kind {
            NodeKind::Group => stored,
            NodeKind::Line => v.greater(S::of_int(0)).signed_like(stored),
            NodeKind::Rect | NodeKind::Oval | NodeKind::Image => v.greater(min_size()),
        }
    }

    /// Sets a shape's width.
    pub fn set_w(&mut self, id: u64, v: S)
        requires
            old(self).wf(),
        ensures
            final(self).wf(),
            final(self)@.rows == w_set(old(self)@.rows, id, v),
            final(self)@.background == old(self)@.background,
    {
        let kind = self.kind(id);
        if kind != NodeKind::Group {
            let w = Self::extent(kind, self.raw_frame(id).2, v);
            self.write(id, Field::W(w));
        }
    }

    /// Sets a shape's height.
    pub fn set_h(&mut self, id: u64, v: S)
        requires
            old(self).wf(),
        ensures
            final(self).wf(),
            final(self)@.rows == h_set(old(self)@.rows, id, v),
            final(self)@.background == old(self)@.background,
    {
        let kind = self.kind(id);
        if kind != NodeKind::Group {
            let h = Self::extent(kind, self.raw_frame(id).3, v);
            self.write(id, Field::H(h));
        }
    }

    /// What a group of these shapes turns about.
    pub fn pivot(&self, ids: &[u64]) -> (r: Point<S>)
        requires
            self.wf(),
        ensures
            r == pivot(self@.rows, ids@),
    {
        let mut sum: Point<S> = Point { x: S::of_int(0), y: S::of_int(0) };
        let mut i: usize = 0;
        assert(ids@.subrange(0, 0) =~= Seq::<u64>::empty());
        while i < ids.len()
            invariant
                self.wf(),
                i <= ids.len(),
                sum == center_sum(self@.rows, ids@.subrange(0, i as int)),
            decreases ids.len() - i,
        {
            assert(ids@.subrange(0, i + 1).drop_last() =~= ids@.subrange(0, i as int));
            let (x, y, w, h) = self.shape_frame(ids[i]);
            sum = Point { x: sum.x.plus(x).plus(half(w)), y: sum.y.plus(y).plus(half(h)) };
            i += 1;
        }
        assert(ids@.subrange(0, i as int) =~= ids@);
        let n = count::<S>(ids.len());
        Point { x: sum.x.over(n), y: sum.y.over(n) }
    }

    /// Turns one shape about `c` by `delta` degrees.
    pub fn orbit(&mut self, id: u64, c: Point<S>, delta: S)
        requires
            old(self).wf(),
        ensures
            final(self).wf(),
            final(self)@.rows == orbited(old(self)@.rows, id, c, delta),
            final(self)@.background == old(self)@.background,
    {
        let (x, y, w, h) = self.raw_frame(id);
        let rotation = self.rotation(id);
        match self.kind(id) {
            NodeKind::Line => {
                let (a, b) = self.line_ends(id);
                let a = turn_about(a, c, delta);
                let b = turn_about(b, c, delta);
                self.write(id, Field::X(a.x));
                self.write(id, Field::Y(a.y));
                self.write(id, Field::W(b.x.minus(a.x)));
                self.write(id, Field::H(b.y.minus(a.y)));
            },
            NodeKind::Rect | NodeKind::Oval | NodeKind::Group | NodeKind::Image => {
                let m = turn_about(center((x, y, w, h)), c, delta);
                self.write(id, Field::X(m.x.minus(half(w))));
                self.write(id, Field::Y(m.y.minus(half(h))));
                self.write(id, Field::Rotation(rotation.plus(delta).wrapped(S::of_int(360))));
            },
        }
    }

    /// Turns a node to `angle` degrees.
    pub fn set_rotation(&mut self, id: u64, angle: S)
        requires
            old(self).wf(),
        ensures
            final(self).wf(),
            final(self)@.rows == turned_to(old(self)@.rows, id, angle),
            final(self)@.background == old(self)@.background,
    {
        let ghost rows = self@.rows;
        let ghost background = self@.background;
        let delta = angle.minus(self.rotation(id));
        let kind = self.kind(id);
        if kind == NodeKind::Line {
            let c = center(self.raw_frame(id));
            self.orbit(id, c, delta);
            return ;
        }
        if kind != NodeKind::Group {
            self.write(id, Field::Rotation(angle));
            return ;
        }
        let ids = self.shape_descendants(id);
        if ids.len() == 0 {
            return ;
        }
        let c = self.pivot(ids.as_slice());
        let mut i: usize = 0;
        assert(ids@.subrange(0, 0) =~= Seq::<u64>::empty());
        while i < ids.len()
            invariant
                self.wf(),
                i <= ids.len(),
                self@.rows == orbited_each(rows, ids@.subrange(0, i as int), c, delta),
                self@.background == background,
            decreases ids.len() - i,
        {
            assert(ids@.subrange(0, i + 1).drop_last() =~= ids@.subrange(0, i as int));
            self.orbit(ids[i], c, delta);
            i += 1;
        }
        assert(ids@.subrange(0, i as int) =~= ids@);
        self.write(id, Field::Rotation(angle));
    }
}

impl<S: Scalar> Editor<S> {
    /// Moves the selection by `(dx, dy)`, a group through its shapes, and no shape twice.
    pub fn nudge_selection(&mut self, dx: S, dy: S)
        requires
            old(self).wf(),
        ensures
            final(self).wf(),
            final(self)@ == (EditorModel {
                rows: shifted_each(
                    old(self)@.rows,
                    selected_shapes(old(self)@.rows, old(self)@.selection),
                    dx,
                    dy,
                ),
                ..old(self)@
            }),
    {
        let all = self.scene.shapes_under(self.selection.as_slice());
        let none: Vec<u64> = Vec::new();
        let ids = join(none.as_slice(), all.as_slice());
        assert(none@ =~= Seq::<u64>::empty());
        self.scene.shift_each(ids.as_slice(), dx, dy);
    }
}

} // verus!
