//! Hit testing: what the pointer is over, and what a rubber band touches.
use vstd::prelude::*;
use crate::bounds::{line_ends, shape_frame};
use crate::geometry::{
    center, convex_overlap, convex_overlap_spec, corner_points, corner_points_spec,
    distance_to_segment, point_in_convex, point_in_convex_spec, rotation_about_center, turns,
    upright, Corner, Handle, LineEnd, Point,
};
use crate::node::{NodeKind, NodeModel};
use crate::ops::filter_step;
use crate::scalar::{half, tiny, Scalar};
use crate::scene::{children, peek, position, reach, shapes, Scene};
use crate::viewport::Viewport;

verus! {

/// Whether a point of the drawing is on a shape as drawn. A turned shape is tested in its own
/// upright space. A line has no interior: near its segment is on it, the nearer the closer the
/// view is.
pub open spec fn point_in_shape<S: Scalar>(n: NodeModel<S>, p: Point<S>, zoom: S) -> bool {
    let f = (n.x, n.y, n.w, n.h);
    let q = upright(f, n.rotation, p);
    match n.kind {
        NodeKind::Line => {
            let (a, b) = line_ends(n);
            distance_to_segment(q, a, b).at_most(S::of_int(6).over(zoom))
        },
        NodeKind::Oval => {
            if q.x.below(n.x) || q.y.below(n.y) || n.x.plus(n.w).below(q.x) || n.y.plus(n.h).below(
                q.y,
            ) {
                false
            } else {
                let c = center(f);
                let nx = q.x.minus(c.x).over(half(n.w));
                let ny = q.y.minus(c.y).over(half(n.h));
                nx.times(nx).plus(ny.times(ny)).at_most(S::of_int(1))
            }
        },
        NodeKind::Rect | NodeKind::Group | NodeKind::Image => {
            n.x.at_most(q.x) && n.y.at_most(q.y) && q.x.at_most(n.x.plus(n.w)) && q.y.at_most(
                n.y.plus(n.h),
            )
        },
    }
}

/// Whether a point is on any of the shapes.
pub open spec fn hits_any<S: Scalar>(
    rows: Seq<NodeModel<S>>,
    ids: Seq<u64>,
    p: Point<S>,
    zoom: S,
) -> bool {
    exists|i: int|
        0 <= i < ids.len() && point_in_shape(peek(rows, #[trigger] ids[i]), p, zoom)
}

/// The last of `ids` that a point is on, through any of its shapes.
pub open spec fn last_hit<S: Scalar>(
    rows: Seq<NodeModel<S>>,
    ids: Seq<u64>,
    p: Point<S>,
    zoom: S,
) -> Option<u64>
    decreases ids.len(),
{
    if ids.len() == 0 {
        None
    } else if hits_any(rows, shapes(rows, ids.last()), p, zoom) {
        Some(ids.last())
    } else {
        last_hit(rows, ids.drop_last(), p, zoom)
    }
}

/// The topmost top-level node that a point is on.
pub open spec fn hit_top_level<S: Scalar>(rows: Seq<NodeModel<S>>, p: Point<S>, zoom: S) -> Option<
    u64,
> {
    last_hit(rows, children(rows, None), p, zoom)
}

/// The topmost shape under `id` that a point is on, descending `steps` levels at most.
pub open spec fn leaf_within<S: Scalar>(
    rows: Seq<NodeModel<S>>,
    id: u64,
    p: Point<S>,
    zoom: S,
    steps: nat,
) -> Option<u64>
    decreases steps, 0nat,
{
    if steps == 0 {
        None
    } else if peek(rows, id).kind == NodeKind::Group {
        leaf_among(rows, children(rows, Some(id)), p, zoom, (steps - 1) as nat)
    } else if point_in_shape(peek(rows, id), p, zoom) {
        Some(id)
    } else {
        None
    }
}

/// The topmost shape under any of `ids`, the last of them foremost.
pub open spec fn leaf_among<S: Scalar>(
    rows: Seq<NodeModel<S>>,
    ids: Seq<u64>,
    p: Point<S>,
    zoom: S,
    steps: nat,
) -> Option<u64>
    decreases steps, ids.len(),
{
    if ids.len() == 0 {
        None
    } else {
        match leaf_within(rows, ids.last(), p, zoom, steps) {
            Some(leaf) => Some(leaf),
            None => leaf_among(rows, ids.drop_last(), p, zoom, steps),
        }
    }
}

/// The deepest shape that a point is on: what a double click drills towards.
pub open spec fn hit_leaf<S: Scalar>(rows: Seq<NodeModel<S>>, p: Point<S>, zoom: S) -> Option<u64> {
    leaf_among(rows, children(rows, None), p, zoom, reach(rows))
}

// ---------------------------------------------------------------------------
// The band
// ---------------------------------------------------------------------------

/// The corners of a frame, in a ring.
pub open spec fn ring<S: Scalar>(l: S, t: S, r: S, b: S) -> Seq<Point<S>> {
    seq![Point { x: l, y: t }, Point { x: r, y: t }, Point { x: r, y: b }, Point { x: l, y: b }]
}

/// A band's corners as a shape sees them, in its own upright space.
pub open spec fn band_upright<S: Scalar>(n: NodeModel<S>, band: Seq<Point<S>>) -> Seq<Point<S>> {
    Seq::new(band.len(), |i: int| upright((n.x, n.y, n.w, n.h), n.rotation, band[i]))
}

/// Points stretched about the height `cy` by the factor `k`.
pub open spec fn stretched<S: Scalar>(pts: Seq<Point<S>>, cy: S, k: S) -> Seq<Point<S>> {
    Seq::new(
        pts.len(),
        |i: int| Point { x: pts[i].x, y: cy.plus(pts[i].y.minus(cy).times(k)) },
    )
}

/// Whether some edge of the quadrilateral comes within `r` of `c`.
pub open spec fn edge_within<S: Scalar>(q: Seq<Point<S>>, c: Point<S>, r: S) -> bool {
    ||| distance_to_segment(c, q[0], q[1]).at_most(r)
    ||| distance_to_segment(c, q[1], q[2]).at_most(r)
    ||| distance_to_segment(c, q[2], q[3]).at_most(r)
    ||| distance_to_segment(c, q[3], q[0]).at_most(r)
}

/// Whether a band touches a shape as drawn: the ink of it, so a line's segment rather than the
/// box around it, and an oval rather than the corners of its frame.
pub open spec fn shape_touches<S: Scalar>(n: NodeModel<S>, band: Seq<Point<S>>) -> bool {
    let quad = band_upright(n, band);
    match n.kind {
        NodeKind::Line => {
            let (a, b) = line_ends(n);
            convex_overlap_spec(seq![a, b], quad)
        },
        NodeKind::Oval => {
            if n.w.magnitude().at_most(tiny()) || n.h.magnitude().at_most(tiny()) {
                false
            } else {
                let c = center((n.x, n.y, n.w, n.h));
                let q = stretched(quad, c.y, n.w.over(n.h));
                point_in_convex_spec(q, c) || edge_within(q, c, half(n.w).magnitude())
            }
        },
        NodeKind::Rect | NodeKind::Group | NodeKind::Image => convex_overlap_spec(
            quad,
            ring(n.x, n.y, n.x.plus(n.w), n.y.plus(n.h)),
        ),
    }
}

/// Whether a band touches any of the shapes.
pub open spec fn touches_any<S: Scalar>(
    rows: Seq<NodeModel<S>>,
    ids: Seq<u64>,
    band: Seq<Point<S>>,
) -> bool {
    exists|i: int| 0 <= i < ids.len() && shape_touches(peek(rows, #[trigger] ids[i]), band)
}

/// The corners, in the drawing, of a band on screen.
pub open spec fn band_corners<S: Scalar>(view: Viewport<S>, band: (S, S, S, S)) -> Seq<Point<S>> {
    let a = view.to_model(Point { x: band.0, y: band.1 });
    let z = view.to_model(Point { x: band.0.plus(band.2), y: band.1.plus(band.3) });
    ring(a.x.lesser(z.x), a.y.lesser(z.y), a.x.greater(z.x), a.y.greater(z.y))
}

pub open spec fn touched<S: Scalar>(rows: Seq<NodeModel<S>>, corners: Seq<Point<S>>) -> spec_fn(
    u64,
) -> bool {
    |id: u64| touches_any(rows, shapes(rows, id), corners)
}

/// Every top-level node that a band on screen touches, bottom to top. A group is touched where
/// any of its shapes is.
pub open spec fn touched_by<S: Scalar>(
    rows: Seq<NodeModel<S>>,
    view: Viewport<S>,
    band: (S, S, S, S),
) -> Seq<u64> {
    children(rows, None).filter(touched(rows, band_corners(view, band)))
}

/// `base`, and those of `more` that are not in it yet.
pub open spec fn joined(base: Seq<u64>, more: Seq<u64>) -> Seq<u64>
    decreases more.len(),
{
    if more.len() == 0 {
        base
    } else {
        let rest = joined(base, more.drop_last());
        if rest.contains(more.last()) {
            rest
        } else {
            rest.push(more.last())
        }
    }
}

/// The band that a sweep from `anchor` has drawn, on screen.
pub open spec fn swept_band_spec<S: Scalar>(anchor: Point<S>, dx: S, dy: S) -> (S, S, S, S) {
    (
        anchor.x.lesser(anchor.x.plus(dx)),
        anchor.y.lesser(anchor.y.plus(dy)),
        dx.magnitude(),
        dy.magnitude(),
    )
}

#[verifier::when_used_as_spec(swept_band_spec)]
pub fn swept_band<S: Scalar>(anchor: Point<S>, dx: S, dy: S) -> (r: (S, S, S, S))
    ensures
        r == swept_band_spec(anchor, dx, dy),
{
    (
        anchor.x.lesser(anchor.x.plus(dx)),
        anchor.y.lesser(anchor.y.plus(dy)),
        dx.magnitude(),
        dy.magnitude(),
    )
}

/// What a sweep selects: what the press started with, and everything the band touches.
pub open spec fn swept_selection<S: Scalar>(
    rows: Seq<NodeModel<S>>,
    view: Viewport<S>,
    anchor: Point<S>,
    base: Seq<u64>,
    dx: S,
    dy: S,
) -> Seq<u64> {
    joined(base, touched_by(rows, view, swept_band(anchor, dx, dy)))
}

// ---------------------------------------------------------------------------
// Handles
// ---------------------------------------------------------------------------

/// The angle that a node's own frame is drawn under. A group's frame turns with none of its
/// members, and a line's direction is its two ends.
pub open spec fn rotation_of<S: Scalar>(n: NodeModel<S>) -> S {
    match n.kind {
        NodeKind::Rect | NodeKind::Oval | NodeKind::Image => n.rotation,
        NodeKind::Group | NodeKind::Line => S::of_int(0),
    }
}

/// A frame's corners on screen, turned about its middle.
pub open spec fn screen_corners<S: Scalar>(view: Viewport<S>, f: (S, S, S, S), rotation: S) -> Seq<
    (Corner, Point<S>),
> {
    let pts = corner_points_spec(f);
    Seq::new(
        4,
        |i: int|
            (
                pts[i].0,
                view.to_screen(
                    if turns(rotation) {
                        rotation_about_center(f, rotation).apply(pts[i].1)
                    } else {
                        pts[i].1
                    },
                ),
            ),
    )
}

/// Whether the pointer is within reach of a handle.
pub open spec fn near_spec<S: Scalar>(p: Point<S>, at: Point<S>) -> bool {
    p.x.minus(at.x).magnitude().at_most(S::of_int(12)) && p.y.minus(at.y).magnitude().at_most(
        S::of_int(12),
    )
}

#[verifier::when_used_as_spec(near_spec)]
pub fn near<S: Scalar>(p: Point<S>, at: Point<S>) -> (r: bool)
    ensures
        r == near_spec(p, at),
{
    p.x.minus(at.x).magnitude().at_most(S::of_int(12)) && p.y.minus(at.y).magnitude().at_most(
        S::of_int(12),
    )
}

/// The first of some corners that the pointer is near.
pub open spec fn first_near<S: Scalar>(pts: Seq<(Corner, Point<S>)>, p: Point<S>) -> Option<Corner>
    decreases pts.len(),
{
    if pts.len() == 0 {
        None
    } else if near(p, pts[0].1) {
        Some(pts[0].0)
    } else {
        first_near(pts.drop_first(), p)
    }
}

/// The handle of one selected node under a point of the screen. Groups have none: groups
/// move, and only shapes resize.
pub open spec fn handle_of<S: Scalar>(n: NodeModel<S>, view: Viewport<S>, p: Point<S>) -> Option<
    Handle,
> {
    match n.kind {
        NodeKind::Group => None,
        NodeKind::Line => {
            let (a, b) = line_ends(n);
            if near(p, view.to_screen(a)) {
                Some(Handle::End(LineEnd::Start))
            } else if near(p, view.to_screen(b)) {
                Some(Handle::End(LineEnd::End))
            } else {
                None
            }
        },
        NodeKind::Rect | NodeKind::Oval | NodeKind::Image => {
            match first_near(screen_corners(view, shape_frame(n), rotation_of(n)), p) {
                Some(corner) => Some(Handle::Corner(corner)),
                None => None,
            }
        },
    }
}

/// The handle under a point of the screen: of the node selected last, where several have one
/// there.
pub open spec fn hit_handle<S: Scalar>(
    rows: Seq<NodeModel<S>>,
    selection: Seq<u64>,
    view: Viewport<S>,
    p: Point<S>,
) -> Option<(u64, Handle)>
    decreases selection.len(),
{
    if selection.len() == 0 {
        None
    } else {
        match handle_of(peek(rows, selection.last()), view, p) {
            Some(h) => Some((selection.last(), h)),
            None => hit_handle(rows, selection.drop_last(), view, p),
        }
    }
}

// ---------------------------------------------------------------------------
// The tests
// ---------------------------------------------------------------------------

impl<S: Scalar> Scene<S> {
    /// Whether a point of the drawing is on a shape as drawn.
    pub fn point_in_shape(&self, id: u64, p: Point<S>, zoom: S) -> (r: bool)
        requires
            self.wf(),
        ensures
            r == point_in_shape(peek(self@.rows, id), p, zoom),
    {
        let f = self.raw_frame(id);
        let (x, y, w, h) = f;
        let q = upright(f, self.rotation(id), p);
        match self.kind(id) {
            NodeKind::Line => {
                let (a, b) = self.line_ends(id);
                distance_to_segment(q, a, b).at_most(S::of_int(6).over(zoom))
            },
            NodeKind::Oval => {
                if q.x.below(x) || q.y.below(y) || x.plus(w).below(q.x) || y.plus(h).below(q.y) {
                    return false;
                }
                let c = center(f);
                let nx = q.x.minus(c.x).over(half(w));
                let ny = q.y.minus(c.y).over(half(h));
                nx.times(nx).plus(ny.times(ny)).at_most(S::of_int(1))
            },
            NodeKind::Rect | NodeKind::Group | NodeKind::Image => {
                x.at_most(q.x) && y.at_most(q.y) && q.x.at_most(x.plus(w)) && q.y.at_most(
                    y.plus(h),
                )
            },
        }
    }

    fn hits_any(&self, ids: &[u64], p: Point<S>, zoom: S) -> (r: bool)
        requires
            self.wf(),
        ensures
            r == hits_any(self@.rows, ids@, p, zoom),
    {
        let mut i: usize = 0;
        while i < ids.len()
            invariant
                self.wf(),
                i <= ids.len(),
                forall|j: int|
                    0 <= j < i ==> !point_in_shape(peek(self@.rows, #[trigger] ids@[j]), p, zoom),
            decreases ids.len() - i,
        {
            if self.point_in_shape(ids[i], p, zoom) {
                assert(point_in_shape(peek(self@.rows, ids@[i as int]), p, zoom));
                return true;
            }
            i += 1;
        }
        false
    }

    /// The topmost top-level node that a point is on; a group through any of its shapes.
    pub fn hit_top_level(&self, p: Point<S>, zoom: S) -> (r: Option<u64>)
        requires
            self.wf(),
        ensures
            r == hit_top_level(self@.rows, p, zoom),
    {
        let roots = self.children_of(None);
        let mut n: usize = roots.len();
        assert(roots@.subrange(0, n as int) =~= roots@);
        while n > 0
            invariant
                self.wf(),
                n <= roots.len(),
                last_hit(self@.rows, roots@.subrange(0, n as int), p, zoom) == last_hit(
                    self@.rows,
                    roots@,
                    p,
                    zoom,
                ),
                roots@ == children(self@.rows, None),
            decreases n,
        {
            let top = roots[n - 1];
            assert(roots@.subrange(0, n as int).drop_last() =~= roots@.subrange(0, n - 1));
            let ids = self.shape_descendants(top);
            if self.hits_any(ids.as_slice(), p, zoom) {
                return Some(top);
            }
            n -= 1;
        }
        None
    }

    /// The topmost shape under `id`, descending `below` levels below it at most.
    fn leaf_at(&self, id: u64, p: Point<S>, zoom: S, below: usize) -> (r: Option<u64>)
        requires
            self.wf(),
        ensures
            r == leaf_within(self@.rows, id, p, zoom, below as nat + 1),
        decreases below, 0nat, 0nat,
    {
        if let NodeKind::Group = self.kind(id) {
            let members = self.children_of(Some(id));
            if below == 0 {
                proof {
                    no_leaf_without_steps(self@.rows, members@, p, zoom);
                }
                return None;
            }
            let mut n: usize = members.len();
            assert(members@.subrange(0, n as int) =~= members@);
            while n > 0
                invariant
                    self.wf(),
                    below > 0,
                    n <= members.len(),
                    peek(self@.rows, id).kind == NodeKind::Group,
                    members@ == children(self@.rows, Some(id)),
                    leaf_among(
                        self@.rows,
                        members@.subrange(0, n as int),
                        p,
                        zoom,
                        below as nat,
                    ) == leaf_among(self@.rows, members@, p, zoom, below as nat),
                decreases n,
            {
                assert(members@.subrange(0, n as int).drop_last() =~= members@.subrange(0, n - 1));
                let found = self.leaf_at(members[n - 1], p, zoom, below - 1);
                if found.is_some() {
                    return found;
                }
                n -= 1;
            }
            None
        } else if self.point_in_shape(id, p, zoom) {
            Some(id)
        } else {
            None
        }
    }

    /// The deepest shape that a point is on.
    pub fn hit_leaf(&self, p: Point<S>, zoom: S) -> (r: Option<u64>)
        requires
            self.wf(),
        ensures
            r == hit_leaf(self@.rows, p, zoom),
    {
        let roots = self.children_of(None);
        let mut n: usize = roots.len();
        let ghost steps = reach(self@.rows);
        assert(roots@.subrange(0, n as int) =~= roots@);
        while n > 0
            invariant
                self.wf(),
                n <= roots.len(),
                roots@ == children(self@.rows, None),
                steps == self.nodes.len() + 1,
                leaf_among(self@.rows, roots@.subrange(0, n as int), p, zoom, steps) == leaf_among(
                    self@.rows,
                    roots@,
                    p,
                    zoom,
                    steps,
                ),
            decreases n,
        {
            assert(roots@.subrange(0, n as int).drop_last() =~= roots@.subrange(0, n - 1));
            let found = self.leaf_at(roots[n - 1], p, zoom, self.nodes.len());
            if found.is_some() {
                return found;
            }
            n -= 1;
        }
        None
    }

    /// Whether a band, given by its corners in the drawing, touches a shape as drawn.
    pub fn shape_touches(&self, id: u64, band: &[Point<S>]) -> (r: bool)
        requires
            self.wf(),
            band.len() == 4,
        ensures
            r == shape_touches(peek(self@.rows, id), band@),
    {
        let ghost n = peek(self@.rows, id);
        let f = self.raw_frame(id);
        let (x, y, w, h) = f;
        let rotation = self.rotation(id);
        let mut quad: Vec<Point<S>> = Vec::new();
        let mut i: usize = 0;
        while i < band.len()
            invariant
                i <= band.len(),
                quad.len() == i,
                forall|j: int| 0 <= j < i ==> quad@[j] == upright(f, rotation, band@[j]),
            decreases band.len() - i,
        {
            quad.push(upright(f, rotation, band[i]));
            i += 1;
        }
        assert(quad@ =~= band_upright(n, band@));
        match self.kind(id) {
            NodeKind::Line => {
                let (a, b) = self.line_ends(id);
                let mut segment: Vec<Point<S>> = Vec::new();
                segment.push(a);
                segment.push(b);
                assert(segment@ =~= seq![a, b]);
                convex_overlap(segment.as_slice(), quad.as_slice())
            },
            NodeKind::Oval => {
                if w.magnitude().at_most(tiny()) || h.magnitude().at_most(tiny()) {
                    return false;
                }
                let c = center(f);
                let k = w.over(h);
                let mut q: Vec<Point<S>> = Vec::new();
                let mut j: usize = 0;
                while j < quad.len()
                    invariant
                        j <= quad.len(),
                        q.len() == j,
                        forall|l: int|
                            0 <= l < j ==> q@[l] == (Point {
                                x: quad@[l].x,
                                y: c.y.plus(quad@[l].y.minus(c.y).times(k)),
                            }),
                    decreases quad.len() - j,
                {
                    q.push(Point { x: quad[j].x, y: c.y.plus(quad[j].y.minus(c.y).times(k)) });
                    j += 1;
                }
                assert(q@ =~= stretched(quad@, c.y, k));
                if point_in_convex(q.as_slice(), c) {
                    return true;
                }
                let r = half(w).magnitude();
                distance_to_segment(c, q[0], q[1]).at_most(r) || distance_to_segment(
                    c,
                    q[1],
                    q[2],
                ).at_most(r) || distance_to_segment(c, q[2], q[3]).at_most(r)
                    || distance_to_segment(c, q[3], q[0]).at_most(r)
            },
            NodeKind::Rect | NodeKind::Group | NodeKind::Image => {
                let frame = ring_of(x, y, x.plus(w), y.plus(h));
                convex_overlap(quad.as_slice(), frame.as_slice())
            },
        }
    }

    fn touches_any(&self, ids: &[u64], band: &[Point<S>]) -> (r: bool)
        requires
            self.wf(),
            band.len() == 4,
        ensures
            r == touches_any(self@.rows, ids@, band@),
    {
        let mut i: usize = 0;
        while i < ids.len()
            invariant
                self.wf(),
                band.len() == 4,
                i <= ids.len(),
                forall|j: int|
                    0 <= j < i ==> !shape_touches(peek(self@.rows, #[trigger] ids@[j]), band@),
            decreases ids.len() - i,
        {
            if self.shape_touches(ids[i], band) {
                assert(shape_touches(peek(self@.rows, ids@[i as int]), band@));
                return true;
            }
            i += 1;
        }
        false
    }

    /// Every top-level node that a band on screen touches, bottom to top.
    pub fn touched_by(&self, view: &Viewport<S>, band: (S, S, S, S)) -> (r: Vec<u64>)
        requires
            self.wf(),
        ensures
            r@ == touched_by(self@.rows, *view, band),
    {
        let a = view.to_model(Point { x: band.0, y: band.1 });
        let z = view.to_model(Point { x: band.0.plus(band.2), y: band.1.plus(band.3) });
        let corners = ring_of(
            a.x.lesser(z.x),
            a.y.lesser(z.y),
            a.x.greater(z.x),
            a.y.greater(z.y),
        );
        let roots = self.children_of(None);
        let mut out: Vec<u64> = Vec::new();
        let mut i: usize = 0;
        let ghost keep = touched(self@.rows, corners@);
        proof {
            reveal(Seq::filter);
            assert(roots@.subrange(0, 0).filter(keep) =~= Seq::<u64>::empty());
        }
        while i < roots.len()
            invariant
                self.wf(),
                corners.len() == 4,
                i <= roots.len(),
                keep == touched(self@.rows, corners@),
                out@ == roots@.subrange(0, i as int).filter(keep),
            decreases roots.len() - i,
        {
            proof {
                filter_step(roots@, keep, i as int);
            }
            let ids = self.shape_descendants(roots[i]);
            if self.touches_any(ids.as_slice(), corners.as_slice()) {
                out.push(roots[i]);
            }
            i += 1;
        }
        assert(roots@.subrange(0, i as int) =~= roots@);
        out
    }

    /// The angle that a node's own frame is drawn under.
    pub fn drawn_rotation(&self, id: u64) -> (r: S)
        requires
            self.wf(),
        ensures
            r == rotation_of(peek(self@.rows, id)),
    {
        match self.kind(id) {
            NodeKind::Rect | NodeKind::Oval | NodeKind::Image => self.rotation(id),
            NodeKind::Group | NodeKind::Line => S::of_int(0),
        }
    }

    /// The handle of one selected node under a point of the screen.
    pub fn handle_of(&self, id: u64, view: &Viewport<S>, p: Point<S>) -> (r: Option<Handle>)
        requires
            self.wf(),
        ensures
            r == handle_of(peek(self@.rows, id), *view, p),
    {
        match self.kind(id) {
            NodeKind::Group => None,
            NodeKind::Line => {
                let (a, b) = self.line_ends(id);
                if near(p, view.to_screen(a)) {
                    Some(Handle::End(LineEnd::Start))
                } else if near(p, view.to_screen(b)) {
                    Some(Handle::End(LineEnd::End))
                } else {
                    None
                }
            },
            NodeKind::Rect | NodeKind::Oval | NodeKind::Image => {
                let pts = corners_on_screen(view, self.shape_frame(id), self.rotation(id));
                let mut i: usize = 0;
                assert(pts@.subrange(0, pts.len() as int) =~= pts@);
                while i < pts.len()
                    invariant
                        i <= pts.len(),
                        first_near(pts@.subrange(i as int, pts.len() as int), p) == first_near(
                            pts@,
                            p,
                        ),
                        pts@ == screen_corners(
                            *view,
                            shape_frame(peek(self@.rows, id)),
                            rotation_of(peek(self@.rows, id)),
                        ),
                        peek(self@.rows, id).kind is Rect || peek(self@.rows, id).kind is Oval
                            || peek(self@.rows, id).kind is Image,
                    decreases pts.len() - i,
                {
                    assert(pts@.subrange(i as int, pts.len() as int).drop_first()
                        =~= pts@.subrange(i + 1, pts.len() as int));
                    if near(p, pts[i].1) {
                        return Some(Handle::Corner(pts[i].0));
                    }
                    i += 1;
                }
                None
            },
        }
    }

    /// The handle under a point of the screen: of the node selected last, where several have
    /// one there.
    pub fn hit_handle(&self, selection: &[u64], view: &Viewport<S>, p: Point<S>) -> (r: Option<
        (u64, Handle),
    >)
        requires
            self.wf(),
        ensures
            r == hit_handle(self@.rows, selection@, *view, p),
    {
        let mut n: usize = selection.len();
        assert(selection@.subrange(0, n as int) =~= selection@);
        while n > 0
            invariant
                self.wf(),
                n <= selection.len(),
                hit_handle(self@.rows, selection@.subrange(0, n as int), *view, p) == hit_handle(
                    self@.rows,
                    selection@,
                    *view,
                    p,
                ),
            decreases n,
        {
            assert(selection@.subrange(0, n as int).drop_last() =~= selection@.subrange(0, n - 1));
            let id = selection[n - 1];
            if let Some(h) = self.handle_of(id, view, p) {
                return Some((id, h));
            }
            n -= 1;
        }
        None
    }
}

/// The corners of a frame, in a ring.
fn ring_of<S: Scalar>(l: S, t: S, r: S, b: S) -> (out: Vec<Point<S>>)
    ensures
        out@ == ring(l, t, r, b),
{
    let mut out: Vec<Point<S>> = Vec::new();
    out.push(Point { x: l, y: t });
    out.push(Point { x: r, y: t });
    out.push(Point { x: r, y: b });
    out.push(Point { x: l, y: b });
    assert(out@ =~= ring(l, t, r, b));
    out
}

/// A frame's corners on screen, turned about its middle.
pub fn corners_on_screen<S: Scalar>(view: &Viewport<S>, f: (S, S, S, S), rotation: S) -> (r: Vec<
    (Corner, Point<S>),
>)
    ensures
        r@ == screen_corners(*view, f, rotation),
{
    let pts = corner_points(f);
    let mut out: Vec<(Corner, Point<S>)> = Vec::new();
    let mut i: usize = 0;
    while i < pts.len()
        invariant
            i <= pts.len(),
            pts@ == corner_points_spec(f),
            pts.len() == 4,
            out.len() == i,
            forall|j: int| 0 <= j < i ==> out@[j] == screen_corners(*view, f, rotation)[j],
        decreases pts.len() - i,
    {
        let p = pts[i].1;
        let q = if turns(rotation) {
            rotation_about_center(f, rotation).apply(p)
        } else {
            p
        };
        out.push((pts[i].0, view.to_screen(q)));
        i += 1;
    }
    assert(out@ =~= screen_corners(*view, f, rotation));
    out
}

/// `base`, and those of `more` that are not in it yet.
pub fn join(base: &[u64], more: &[u64]) -> (r: Vec<u64>)
    ensures
        r@ == joined(base@, more@),
{
    let mut out: Vec<u64> = Vec::new();
    let mut k: usize = 0;
    while k < base.len()
        invariant
            k <= base.len(),
            out@ == base@.subrange(0, k as int),
        decreases base.len() - k,
    {
        out.push(base[k]);
        k += 1;
        assert(out@ =~= base@.subrange(0, k as int));
    }
    assert(base@.subrange(0, k as int) =~= base@);
    let mut i: usize = 0;
    assert(more@.subrange(0, 0) =~= Seq::<u64>::empty());
    while i < more.len()
        invariant
            i <= more.len(),
            out@ == joined(base@, more@.subrange(0, i as int)),
        decreases more.len() - i,
    {
        assert(more@.subrange(0, i + 1).drop_last() =~= more@.subrange(0, i as int));
        if position(out.as_slice(), more[i]).is_none() {
            out.push(more[i]);
        }
        i += 1;
    }
    assert(more@.subrange(0, i as int) =~= more@);
    out
}

proof fn no_leaf_without_steps<S: Scalar>(
    rows: Seq<NodeModel<S>>,
    ids: Seq<u64>,
    p: Point<S>,
    zoom: S,
)
    ensures
        leaf_among(rows, ids, p, zoom, 0) is None,
    decreases ids.len(),
{
    if ids.len() > 0 {
        no_leaf_without_steps(rows, ids.drop_last(), p, zoom);
        assert(leaf_within(rows, ids.last(), p, zoom, 0) is None);
    }
}

} // verus!
