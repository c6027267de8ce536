//! Where nodes are: a shape's frame, a line's ends, and the bounds of a group.
use vstd::prelude::*;
use crate::geometry::{turned_bounds, united, united_all, Point};
use crate::node::{NodeKind, NodeModel};
use crate::scalar::Scalar;
use crate::scene::{peek, shapes, Scene};

verus! {

/// The rectangle that one shape occupies. A line stores signed deltas, so its rectangle is
/// the one its two ends span.
pub open spec fn shape_frame<S: Scalar>(n: NodeModel<S>) -> (S, S, S, S) {
    match n.kind {
        NodeKind::Rect | NodeKind::Oval | NodeKind::Group | NodeKind::Image => (n.x, n.y, n.w, n.h),
        NodeKind::Line => (
            n.x.lesser(n.x.plus(n.w)),
            n.y.lesser(n.y.plus(n.h)),
            n.w.magnitude(),
            n.h.magnitude(),
        ),
    }
}

/// A line's two ends.
pub open spec fn line_ends<S: Scalar>(n: NodeModel<S>) -> (Point<S>, Point<S>) {
    (Point { x: n.x, y: n.y }, Point { x: n.x.plus(n.w), y: n.y.plus(n.h) })
}

/// The box that a shape visually occupies: its frame, widened to its corners' reach when it
/// is turned.
pub open spec fn visual_frame<S: Scalar>(n: NodeModel<S>) -> (S, S, S, S) {
    let angle = match n.kind {
        NodeKind::Rect | NodeKind::Oval | NodeKind::Image => n.rotation.wrapped(S::of_int(360)),
        NodeKind::Line | NodeKind::Group => S::of_int(0),
    };
    if angle.equals(S::of_int(0)) {
        shape_frame(n)
    } else {
        turned_bounds(shape_frame(n), angle)
    }
}

/// The visual frames of the given nodes.
pub open spec fn visual_frames<S: Scalar>(rows: Seq<NodeModel<S>>, ids: Seq<u64>) -> Seq<
    (S, S, S, S),
> {
    Seq::new(ids.len(), |i: int| visual_frame(peek(rows, ids[i])))
}

/// A node's frame: its own for a shape, and for a group always the union of what its members
/// visually occupy. An empty group has none.
pub open spec fn node_bounds<S: Scalar>(rows: Seq<NodeModel<S>>, id: u64) -> Option<(S, S, S, S)> {
    if peek(rows, id).kind == NodeKind::Group {
        united_all(visual_frames(rows, shapes(rows, id)))
    } else {
        Some(shape_frame(peek(rows, id)))
    }
}

/// The bounds of those of the nodes that have any.
pub open spec fn bounds_of_each<S: Scalar>(rows: Seq<NodeModel<S>>, ids: Seq<u64>) -> Seq<
    (S, S, S, S),
>
    decreases ids.len(),
{
    if ids.len() == 0 {
        Seq::empty()
    } else {
        let rest = bounds_of_each(rows, ids.drop_last());
        match node_bounds(rows, ids.last()) {
            Some(b) => rest.push(b),
            None => rest,
        }
    }
}

/// The frame that covers all of `ids`; `None` where none of them has bounds.
pub open spec fn joint_bounds<S: Scalar>(rows: Seq<NodeModel<S>>, ids: Seq<u64>) -> Option<
    (S, S, S, S),
> {
    united_all(bounds_of_each(rows, ids))
}

impl<S: Scalar> Scene<S> {
    /// The rectangle that one shape occupies.
    pub fn shape_frame(&self, id: u64) -> (r: (S, S, S, S))
        requires
            self.wf(),
        ensures
            r == shape_frame(peek(self@.rows, id)),
    {
        let (x, y, w, h) = self.raw_frame(id);
        match self.kind(id) {
            NodeKind::Rect | NodeKind::Oval | NodeKind::Group | NodeKind::Image => (x, y, w, h),
            NodeKind::Line => (
                x.lesser(x.plus(w)),
                y.lesser(y.plus(h)),
                w.magnitude(),
                h.magnitude(),
            ),
        }
    }

    /// A line's two ends.
    pub fn line_ends(&self, id: u64) -> (r: (Point<S>, Point<S>))
        requires
            self.wf(),
        ensures
            r == line_ends(peek(self@.rows, id)),
    {
        let (x, y, w, h) = self.raw_frame(id);
        (Point { x, y }, Point { x: x.plus(w), y: y.plus(h) })
    }

    /// The box that a shape visually occupies.
    pub fn visual_frame(&self, id: u64) -> (r: (S, S, S, S))
        requires
            self.wf(),
        ensures
            r == visual_frame(peek(self@.rows, id)),
    {
        let frame = self.shape_frame(id);
        let angle = match self.kind(id) {
            NodeKind::Rect | NodeKind::Oval | NodeKind::Image => self.rotation(id).wrapped(
                S::of_int(360),
            ),
            NodeKind::Line | NodeKind::Group => S::of_int(0),
        };
        if angle.equals(S::of_int(0)) {
            return frame;
        }
        turned_bounds(frame, angle)
    }

    /// A node's frame: its own for a shape, the union of its members for a group.
    pub fn node_bounds(&self, id: u64) -> (r: Option<(S, S, S, S)>)
        requires
            self.wf(),
        ensures
            r == node_bounds(self@.rows, id),
    {
        if self.kind(id) != NodeKind::Group {
            return Some(self.shape_frame(id));
        }
        let members = self.shape_descendants(id);
        let mut acc: Option<(S, S, S, S)> = None;
        let mut i: usize = 0;
        let ghost frames = visual_frames(self@.rows, members@);
        assert(frames.subrange(0, 0) =~= Seq::<(S, S, S, S)>::empty());
        while i < members.len()
            invariant
                self.wf(),
                i <= members.len(),
                frames == visual_frames(self@.rows, members@),
                acc == united_all(frames.subrange(0, i as int)),
            decreases members.len() - i,
        {
            assert(frames.subrange(0, i + 1).drop_last() =~= frames.subrange(0, i as int));
            let f = self.visual_frame(members[i]);
            acc = Some(
                match acc {
                    None => f,
                    Some(a) => united(a, f),
                },
            );
            i += 1;
        }
        assert(frames.subrange(0, i as int) =~= frames);
        acc
    }

    /// The frame that covers all of `ids`; `None` where none of them has bounds.
    pub fn joint_bounds(&self, ids: &[u64]) -> (r: Option<(S, S, S, S)>)
        requires
            self.wf(),
        ensures
            r == joint_bounds(self@.rows, ids@),
    {
        let mut acc: Option<(S, S, S, S)> = None;
        let mut i: usize = 0;
        assert(ids@.subrange(0, 0) =~= Seq::<u64>::empty());
        while i < ids.len()
            invariant
                self.wf(),
                i <= ids.len(),
                acc == joint_bounds(self@.rows, ids@.subrange(0, i as int)),
            decreases ids.len() - i,
        {
            assert(ids@.subrange(0, i + 1).drop_last() =~= ids@.subrange(0, i as int));
            if let Some(b) = self.node_bounds(ids[i]) {
                let ghost before = bounds_of_each(self@.rows, ids@.subrange(0, i as int));
                assert(before.push(b).drop_last() =~= before);
                acc = Some(
                    match acc {
                        None => b,
                        Some(a) => united(a, b),
                    },
                );
            }
            i += 1;
        }
        assert(ids@.subrange(0, i as int) =~= ids@);
        acc
    }
}

} // verus!
