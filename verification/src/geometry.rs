//! Points, frames and turns: the plane geometry behind hit testing, handles and bounds.
//!
//! A frame is `(x, y, w, h)`. Angles are in degrees, clockwise on a plane whose y runs down.
use vstd::prelude::*;
use crate::scalar::{clamped, half, tiny, Scalar};

verus! {

#[derive(Debug, PartialEq)]
pub struct Point<S> {
    pub x: S,
    pub y: S,
}

impl<S: Copy> Clone for Point<S> {
    fn clone(&self) -> (r: Self)
        ensures
            r == *self,
    {
        *self
    }
}

impl<S: Copy> Copy for Point<S> {

}

/// The smallest width and height a drag or an edit leaves a shape with.
pub open spec fn min_size_spec<S: Scalar>() -> S {
    S::of_int(8)
}

#[verifier::when_used_as_spec(min_size_spec)]
pub fn min_size<S: Scalar>() -> (r: S)
    ensures
        r == min_size_spec::<S>(),
{
    S::of_int(8)
}

// ---------------------------------------------------------------------------
// Frames
// ---------------------------------------------------------------------------

/// The smallest frame that covers both.
pub open spec fn united_spec<S: Scalar>(a: (S, S, S, S), b: (S, S, S, S)) -> (S, S, S, S) {
    let left = a.0.lesser(b.0);
    let top = a.1.lesser(b.1);
    let right = a.0.plus(a.2).greater(b.0.plus(b.2));
    let bottom = a.1.plus(a.3).greater(b.1.plus(b.3));
    (left, top, right.minus(left), bottom.minus(top))
}

#[verifier::when_used_as_spec(united_spec)]
pub fn united<S: Scalar>(a: (S, S, S, S), b: (S, S, S, S)) -> (r: (S, S, S, S))
    ensures
        r == united_spec(a, b),
{
    let right = a.0.plus(a.2).greater(b.0.plus(b.2));
    let bottom = a.1.plus(a.3).greater(b.1.plus(b.3));
    let left = a.0.lesser(b.0);
    let top = a.1.lesser(b.1);
    (left, top, right.minus(left), bottom.minus(top))
}

/// The frame that covers every frame of a list; `None` for an empty list.
pub open spec fn united_all<S: Scalar>(frames: Seq<(S, S, S, S)>) -> Option<(S, S, S, S)>
    decreases frames.len(),
{
    if frames.len() == 0 {
        None
    } else {
        match united_all(frames.drop_last()) {
            None => Some(frames.last()),
            Some(acc) => Some(united(acc, frames.last())),
        }
    }
}

/// The middle of a frame.
pub open spec fn center_spec<S: Scalar>(f: (S, S, S, S)) -> Point<S> {
    Point { x: f.0.plus(half(f.2)), y: f.1.plus(half(f.3)) }
}

#[verifier::when_used_as_spec(center_spec)]
pub fn center<S: Scalar>(f: (S, S, S, S)) -> (r: Point<S>)
    ensures
        r == center_spec(f),
{
    Point { x: f.0.plus(half(f.2)), y: f.1.plus(half(f.3)) }
}

// ---------------------------------------------------------------------------
// Turns
// ---------------------------------------------------------------------------

/// `p` turned by `degrees` about `c`.
pub open spec fn turn_about_spec<S: Scalar>(p: Point<S>, c: Point<S>, degrees: S) -> Point<S> {
    let (sin, cos) = degrees.sine_cosine();
    let dx = p.x.minus(c.x);
    let dy = p.y.minus(c.y);
    Point {
        x: c.x.plus(dx.times(cos)).minus(dy.times(sin)),
        y: c.y.plus(dx.times(sin)).plus(dy.times(cos)),
    }
}

#[verifier::when_used_as_spec(turn_about_spec)]
pub fn turn_about<S: Scalar>(p: Point<S>, c: Point<S>, degrees: S) -> (r: Point<S>)
    ensures
        r == turn_about_spec(p, c, degrees),
{
    let (sin, cos) = degrees.sine_cosine();
    let dx = p.x.minus(c.x);
    let dy = p.y.minus(c.y);
    Point {
        x: c.x.plus(dx.times(cos)).minus(dy.times(sin)),
        y: c.y.plus(dx.times(sin)).plus(dy.times(cos)),
    }
}

/// The frame that a frame's four corners span once it is turned about its middle.
pub open spec fn turned_bounds_spec<S: Scalar>(f: (S, S, S, S), degrees: S) -> (S, S, S, S) {
    let c = center(f);
    let p0 = turn_about(Point { x: f.0, y: f.1 }, c, degrees);
    let p1 = turn_about(Point { x: f.0.plus(f.2), y: f.1 }, c, degrees);
    let p2 = turn_about(Point { x: f.0, y: f.1.plus(f.3) }, c, degrees);
    let p3 = turn_about(Point { x: f.0.plus(f.2), y: f.1.plus(f.3) }, c, degrees);
    let left = S::highest().lesser(p0.x).lesser(p1.x).lesser(p2.x).lesser(p3.x);
    let top = S::highest().lesser(p0.y).lesser(p1.y).lesser(p2.y).lesser(p3.y);
    let right = S::lowest().greater(p0.x).greater(p1.x).greater(p2.x).greater(p3.x);
    let bottom = S::lowest().greater(p0.y).greater(p1.y).greater(p2.y).greater(p3.y);
    (left, top, right.minus(left), bottom.minus(top))
}

#[verifier::when_used_as_spec(turned_bounds_spec)]
pub fn turned_bounds<S: Scalar>(f: (S, S, S, S), degrees: S) -> (r: (S, S, S, S))
    ensures
        r == turned_bounds_spec(f, degrees),
{
    let c = center(f);
    let p0 = turn_about(Point { x: f.0, y: f.1 }, c, degrees);
    let p1 = turn_about(Point { x: f.0.plus(f.2), y: f.1 }, c, degrees);
    let p2 = turn_about(Point { x: f.0, y: f.1.plus(f.3) }, c, degrees);
    let p3 = turn_about(Point { x: f.0.plus(f.2), y: f.1.plus(f.3) }, c, degrees);
    let left = S::highest().lesser(p0.x).lesser(p1.x).lesser(p2.x).lesser(p3.x);
    let top = S::highest().lesser(p0.y).lesser(p1.y).lesser(p2.y).lesser(p3.y);
    let right = S::lowest().greater(p0.x).greater(p1.x).greater(p2.x).greater(p3.x);
    let bottom = S::lowest().greater(p0.y).greater(p1.y).greater(p2.y).greater(p3.y);
    (left, top, right.minus(left), bottom.minus(top))
}

/// An affine map of the plane, as the row-vector matrix `[a b; c d; tx ty]`.
#[derive(Debug, PartialEq)]
pub struct Affine<S> {
    pub a: S,
    pub b: S,
    pub c: S,
    pub d: S,
    pub tx: S,
    pub ty: S,
}

impl<S: Copy> Clone for Affine<S> {
    fn clone(&self) -> (r: Self)
        ensures
            r == *self,
    {
        *self
    }
}

impl<S: Copy> Copy for Affine<S> {

}

impl<S: Scalar> Affine<S> {
    pub open spec fn translate_spec(x: S, y: S) -> Affine<S> {
        Affine {
            a: S::of_int(1),
            b: S::of_int(0),
            c: S::of_int(0),
            d: S::of_int(1),
            tx: x,
            ty: y,
        }
    }

    #[verifier::when_used_as_spec(translate_spec)]
    pub fn translate(x: S, y: S) -> (r: Affine<S>)
        ensures
            r == Affine::translate_spec(x, y),
    {
        Affine {
            a: S::of_int(1),
            b: S::of_int(0),
            c: S::of_int(0),
            d: S::of_int(1),
            tx: x,
            ty: y,
        }
    }

    pub open spec fn scale_spec(sx: S, sy: S) -> Affine<S> {
        Affine {
            a: sx,
            b: S::of_int(0),
            c: S::of_int(0),
            d: sy,
            tx: S::of_int(0),
            ty: S::of_int(0),
        }
    }

    #[verifier::when_used_as_spec(scale_spec)]
    pub fn scale(sx: S, sy: S) -> (r: Affine<S>)
        ensures
            r == Affine::scale_spec(sx, sy),
    {
        Affine {
            a: sx,
            b: S::of_int(0),
            c: S::of_int(0),
            d: sy,
            tx: S::of_int(0),
            ty: S::of_int(0),
        }
    }

    pub open spec fn rotate_spec(degrees: S) -> Affine<S> {
        let (sin, cos) = degrees.sine_cosine();
        Affine {
            a: cos,
            b: sin,
            c: sin.negated(),
            d: cos,
            tx: S::of_int(0),
            ty: S::of_int(0),
        }
    }

    #[verifier::when_used_as_spec(rotate_spec)]
    pub fn rotate(degrees: S) -> (r: Affine<S>)
        ensures
            r == Affine::rotate_spec(degrees),
    {
        let (sin, cos) = degrees.sine_cosine();
        Affine {
            a: cos,
            b: sin,
            c: sin.negated(),
            d: cos,
            tx: S::of_int(0),
            ty: S::of_int(0),
        }
    }

    /// `self` first, `o` after it.
    pub open spec fn followed_by_spec(self, o: Affine<S>) -> Affine<S> {
        Affine {
            a: self.a.times(o.a).plus(self.b.times(o.c)),
            b: self.a.times(o.b).plus(self.b.times(o.d)),
            c: self.c.times(o.a).plus(self.d.times(o.c)),
            d: self.c.times(o.b).plus(self.d.times(o.d)),
            tx: self.tx.times(o.a).plus(self.ty.times(o.c)).plus(o.tx),
            ty: self.tx.times(o.b).plus(self.ty.times(o.d)).plus(o.ty),
        }
    }

    #[verifier::when_used_as_spec(followed_by_spec)]
    pub fn followed_by(self, o: Affine<S>) -> (r: Affine<S>)
        ensures
            r == self.followed_by_spec(o),
    {
        Affine {
            a: self.a.times(o.a).plus(self.b.times(o.c)),
            b: self.a.times(o.b).plus(self.b.times(o.d)),
            c: self.c.times(o.a).plus(self.d.times(o.c)),
            d: self.c.times(o.b).plus(self.d.times(o.d)),
            tx: self.tx.times(o.a).plus(self.ty.times(o.c)).plus(o.tx),
            ty: self.tx.times(o.b).plus(self.ty.times(o.d)).plus(o.ty),
        }
    }

    pub open spec fn apply_spec(self, p: Point<S>) -> Point<S> {
        Point {
            x: self.a.times(p.x).plus(self.c.times(p.y)).plus(self.tx),
            y: self.b.times(p.x).plus(self.d.times(p.y)).plus(self.ty),
        }
    }

    #[verifier::when_used_as_spec(apply_spec)]
    pub fn apply(self, p: Point<S>) -> (r: Point<S>)
        ensures
            r == self.apply_spec(p),
    {
        Point {
            x: self.a.times(p.x).plus(self.c.times(p.y)).plus(self.tx),
            y: self.b.times(p.x).plus(self.d.times(p.y)).plus(self.ty),
        }
    }
}

/// The turn of a frame about its own middle: what a drawn shape goes through.
pub open spec fn rotation_about_center_spec<S: Scalar>(f: (S, S, S, S), degrees: S) -> Affine<S> {
    let c = center(f);
    Affine::translate(c.x.negated(), c.y.negated()).followed_by(
        Affine::rotate(degrees),
    ).followed_by(Affine::translate(c.x, c.y))
}

#[verifier::when_used_as_spec(rotation_about_center_spec)]
pub fn rotation_about_center<S: Scalar>(f: (S, S, S, S), degrees: S) -> (r: Affine<S>)
    ensures
        r == rotation_about_center_spec(f, degrees),
{
    let c = center(f);
    Affine::translate(c.x.negated(), c.y.negated()).followed_by(
        Affine::rotate(degrees),
    ).followed_by(Affine::translate(c.x, c.y))
}

/// Whether an angle is far enough from nought to turn anything.
pub open spec fn turns_spec<S: Scalar>(degrees: S) -> bool {
    tiny::<S>().below(degrees.magnitude())
}

#[verifier::when_used_as_spec(turns_spec)]
pub fn turns<S: Scalar>(degrees: S) -> (r: bool)
    ensures
        r == turns_spec(degrees),
{
    tiny::<S>().below(degrees.magnitude())
}

/// `p` seen from a frame that is drawn turned by `degrees`: taken back into the frame's own
/// upright space.
pub open spec fn upright_spec<S: Scalar>(f: (S, S, S, S), degrees: S, p: Point<S>) -> Point<S> {
    if turns(degrees) {
        rotation_about_center(f, degrees.negated()).apply(p)
    } else {
        p
    }
}

#[verifier::when_used_as_spec(upright_spec)]
pub fn upright<S: Scalar>(f: (S, S, S, S), degrees: S, p: Point<S>) -> (r: Point<S>)
    ensures
        r == upright_spec(f, degrees, p),
{
    if turns(degrees) {
        rotation_about_center(f, degrees.negated()).apply(p)
    } else {
        p
    }
}

// ---------------------------------------------------------------------------
// Handles
// ---------------------------------------------------------------------------

/// A corner handle, named by which frame edges it moves.
#[derive(Clone, Copy, Debug, PartialEq, Eq, Structural)]
pub enum Corner {
    TopLeft,
    TopRight,
    BottomLeft,
    BottomRight,
}

/// Which end of a line a handle drives.
#[derive(Clone, Copy, Debug, PartialEq, Eq, Structural)]
pub enum LineEnd {
    Start,
    End,
}

/// What the pointer grabbed: a frame's corner, or one end of a line.
#[derive(Clone, Copy, Debug, PartialEq, Eq, Structural)]
pub enum Handle {
    Corner(Corner),
    End(LineEnd),
}

impl Corner {
    /// Whether the corner moves the left edge.
    pub open spec fn left(self) -> bool {
        self is TopLeft || self is BottomLeft
    }

    /// Whether the corner moves the top edge.
    pub open spec fn top(self) -> bool {
        self is TopLeft || self is TopRight
    }
}

/// A line's fields after one of its ends has moved. Moving the start moves the origin too,
/// and the deltas absorb the difference so that the far end holds still.
pub open spec fn line_dragged_spec<S: Scalar>(
    start: (S, S, S, S),
    end: LineEnd,
    dx: S,
    dy: S,
) -> (S, S, S, S) {
    match end {
        LineEnd::Start => (
            start.0.plus(dx),
            start.1.plus(dy),
            start.2.minus(dx),
            start.3.minus(dy),
        ),
        LineEnd::End => (start.0, start.1, start.2.plus(dx), start.3.plus(dy)),
    }
}

#[verifier::when_used_as_spec(line_dragged_spec)]
pub fn line_dragged<S: Scalar>(start: (S, S, S, S), end: LineEnd, dx: S, dy: S) -> (r: (S, S, S, S))
    ensures
        r == line_dragged_spec(start, end, dx, dy),
{
    let (x, y, w, h) = start;
    match end {
        LineEnd::Start => (x.plus(dx), y.plus(dy), w.minus(dx), h.minus(dy)),
        LineEnd::End => (x, y, w.plus(dx), h.plus(dy)),
    }
}

/// One axis of a resize, from `(position, extent)`. The low edge moves, or the high one; an
/// extent that would fall below the minimum stops there, with the edge that was not dragged
/// held in place.
pub open spec fn axis_resized<S: Scalar>(at: S, extent: S, by: S, low_edge: bool) -> (S, S) {
    if low_edge {
        if extent.minus(by).below(min_size()) {
            (at.plus(extent).minus(min_size()), min_size())
        } else {
            (at.plus(by), extent.minus(by))
        }
    } else {
        if extent.plus(by).below(min_size()) {
            (at, min_size())
        } else {
            (at, extent.plus(by))
        }
    }
}

/// A frame after one of its corners was dragged by `(dx, dy)`.
pub open spec fn resized_spec<S: Scalar>(start: (S, S, S, S), corner: Corner, dx: S, dy: S) -> (
    S,
    S,
    S,
    S,
) {
    let (x, w) = axis_resized(start.0, start.2, dx, corner.left());
    let (y, h) = axis_resized(start.1, start.3, dy, corner.top());
    (x, y, w, h)
}

#[verifier::when_used_as_spec(resized_spec)]
pub fn resized<S: Scalar>(start: (S, S, S, S), corner: Corner, dx: S, dy: S) -> (r: (S, S, S, S))
    ensures
        r == resized_spec(start, corner, dx, dy),
{
    let (sx, sy, sw, sh) = start;
    let (mut x, mut y, mut w, mut h) = match corner {
        Corner::TopLeft => (sx.plus(dx), sy.plus(dy), sw.minus(dx), sh.minus(dy)),
        Corner::TopRight => (sx, sy.plus(dy), sw.plus(dx), sh.minus(dy)),
        Corner::BottomLeft => (sx.plus(dx), sy, sw.minus(dx), sh.plus(dy)),
        Corner::BottomRight => (sx, sy, sw.plus(dx), sh.plus(dy)),
    };
    if w.below(min_size()) {
        if matches!(corner, Corner::TopLeft | Corner::BottomLeft) {
            x = sx.plus(sw).minus(min_size());
        }
        w = min_size();
    }
    if h.below(min_size()) {
        if matches!(corner, Corner::TopLeft | Corner::TopRight) {
            y = sy.plus(sh).minus(min_size());
        }
        h = min_size();
    }
    (x, y, w, h)
}

/// The corner across from `corner`: the point a resize holds still.
pub open spec fn opposite_point_spec<S: Scalar>(f: (S, S, S, S), corner: Corner) -> Point<S> {
    Point {
        x: if corner.left() {
            f.0.plus(f.2)
        } else {
            f.0
        },
        y: if corner.top() {
            f.1.plus(f.3)
        } else {
            f.1
        },
    }
}

#[verifier::when_used_as_spec(opposite_point_spec)]
pub fn opposite_point<S: Scalar>(f: (S, S, S, S), corner: Corner) -> (r: Point<S>)
    ensures
        r == opposite_point_spec(f, corner),
{
    let (x, y, w, h) = f;
    match corner {
        Corner::TopLeft => Point { x: x.plus(w), y: y.plus(h) },
        Corner::TopRight => Point { x, y: y.plus(h) },
        Corner::BottomLeft => Point { x: x.plus(w), y },
        Corner::BottomRight => Point { x, y },
    }
}

/// Where the held corner of a frame is drawn, for the sine and cosine of its turn.
pub open spec fn held_corner_spec<S: Scalar>(
    f: (S, S, S, S),
    corner: Corner,
    sin: S,
    cos: S,
) -> Point<S> {
    let c = center(f);
    let p = opposite_point(f, corner);
    let ox = p.x.minus(c.x);
    let oy = p.y.minus(c.y);
    Point {
        x: c.x.plus(ox.times(cos)).minus(oy.times(sin)),
        y: c.y.plus(ox.times(sin)).plus(oy.times(cos)),
    }
}

#[verifier::when_used_as_spec(held_corner_spec)]
pub fn held_corner<S: Scalar>(f: (S, S, S, S), corner: Corner, sin: S, cos: S) -> (r: Point<S>)
    ensures
        r == held_corner_spec(f, corner, sin, cos),
{
    let c = center(f);
    let p = opposite_point(f, corner);
    let ox = p.x.minus(c.x);
    let oy = p.y.minus(c.y);
    Point {
        x: c.x.plus(ox.times(cos)).minus(oy.times(sin)),
        y: c.y.plus(ox.times(sin)).plus(oy.times(cos)),
    }
}

/// A frame after one of its corners was dragged with its proportions kept: the axis that was
/// pulled further leads, and neither extent falls below the minimum. A frame without an extent
/// has no proportions, and is resized freely.
pub open spec fn resized_in_proportion_spec<S: Scalar>(
    start: (S, S, S, S),
    corner: Corner,
    dx: S,
    dy: S,
) -> (S, S, S, S) {
    let (x, y, w, h) = start;
    if !(S::of_int(0).below(w) && S::of_int(0).below(h)) {
        resized(start, corner, dx, dy)
    } else {
        let wide = if corner.left() {
            w.minus(dx)
        } else {
            w.plus(dx)
        };
        let tall = if corner.top() {
            h.minus(dy)
        } else {
            h.plus(dy)
        };
        let k = wide.over(w).greater(tall.over(h)).greater(min_size::<S>().over(w)).greater(
            min_size::<S>().over(h),
        );
        (
            if corner.left() {
                x.plus(w).minus(w.times(k))
            } else {
                x
            },
            if corner.top() {
                y.plus(h).minus(h.times(k))
            } else {
                y
            },
            w.times(k),
            h.times(k),
        )
    }
}

#[verifier::when_used_as_spec(resized_in_proportion_spec)]
pub fn resized_in_proportion<S: Scalar>(start: (S, S, S, S), corner: Corner, dx: S, dy: S) -> (r: (
    S,
    S,
    S,
    S,
))
    ensures
        r == resized_in_proportion_spec(start, corner, dx, dy),
{
    let (x, y, w, h) = start;
    if !(S::of_int(0).below(w) && S::of_int(0).below(h)) {
        return resized(start, corner, dx, dy);
    }
    let left = matches!(corner, Corner::TopLeft | Corner::BottomLeft);
    let top = matches!(corner, Corner::TopLeft | Corner::TopRight);
    let wide = if left {
        w.minus(dx)
    } else {
        w.plus(dx)
    };
    let tall = if top {
        h.minus(dy)
    } else {
        h.plus(dy)
    };
    let k = wide.over(w).greater(tall.over(h)).greater(min_size::<S>().over(w)).greater(
        min_size::<S>().over(h),
    );
    (
        if left {
            x.plus(w).minus(w.times(k))
        } else {
            x
        },
        if top {
            y.plus(h).minus(h.times(k))
        } else {
            y
        },
        w.times(k),
        h.times(k),
    )
}

/// A line's fields after one of its ends has moved along the line alone: the pointer's travel
/// is read along the line's direction, which stays.
pub open spec fn line_stretched_spec<S: Scalar>(start: (S, S, S, S), end: LineEnd, dx: S, dy: S) -> (
    S,
    S,
    S,
    S,
) {
    let (x, y, w, h) = start;
    let len2 = w.times(w).plus(h.times(h));
    if len2.at_most(tiny()) {
        line_dragged(start, end, dx, dy)
    } else {
        let free = line_dragged(start, end, dx, dy);
        let t = free.2.times(w).plus(free.3.times(h)).over(len2);
        match end {
            LineEnd::Start => (
                x.plus(w).minus(w.times(t)),
                y.plus(h).minus(h.times(t)),
                w.times(t),
                h.times(t),
            ),
            LineEnd::End => (x, y, w.times(t), h.times(t)),
        }
    }
}

#[verifier::when_used_as_spec(line_stretched_spec)]
pub fn line_stretched<S: Scalar>(start: (S, S, S, S), end: LineEnd, dx: S, dy: S) -> (r: (
    S,
    S,
    S,
    S,
))
    ensures
        r == line_stretched_spec(start, end, dx, dy),
{
    let (x, y, w, h) = start;
    let free = line_dragged(start, end, dx, dy);
    let len2 = w.times(w).plus(h.times(h));
    if len2.at_most(tiny()) {
        return free;
    }
    let t = free.2.times(w).plus(free.3.times(h)).over(len2);
    match end {
        LineEnd::Start => (
            x.plus(w).minus(w.times(t)),
            y.plus(h).minus(h.times(t)),
            w.times(t),
            h.times(t),
        ),
        LineEnd::End => (x, y, w.times(t), h.times(t)),
    }
}

/// Whether an angle is far enough from nought to turn a resize.
pub open spec fn turns_resize<S: Scalar>(degrees: S) -> bool {
    !degrees.magnitude().at_most(tiny())
}

/// A frame after one of its corners was dragged, for a shape that is drawn turned: the drag is
/// read in the shape's own frame, and the result is shifted so that the held corner stays where
/// it is drawn.
pub open spec fn corner_dragged_spec<S: Scalar>(
    start: (S, S, S, S),
    corner: Corner,
    dx: S,
    dy: S,
    rotation: S,
    in_proportion: bool,
) -> (S, S, S, S) {
    if !turns_resize(rotation) {
        if in_proportion {
            resized_in_proportion(start, corner, dx, dy)
        } else {
            resized(start, corner, dx, dy)
        }
    } else {
        let (sin, cos) = rotation.sine_cosine();
        let along = dx.times(cos).plus(dy.times(sin));
        let across = dx.negated().times(sin).plus(dy.times(cos));
        let f = if in_proportion {
            resized_in_proportion(start, corner, along, across)
        } else {
            resized(start, corner, along, across)
        };
        let was = held_corner(start, corner, sin, cos);
        let now = held_corner(f, corner, sin, cos);
        (f.0.plus(was.x).minus(now.x), f.1.plus(was.y).minus(now.y), f.2, f.3)
    }
}

#[verifier::when_used_as_spec(corner_dragged_spec)]
pub fn corner_dragged<S: Scalar>(
    start: (S, S, S, S),
    corner: Corner,
    dx: S,
    dy: S,
    rotation: S,
    in_proportion: bool,
) -> (r: (S, S, S, S))
    ensures
        r == corner_dragged_spec(start, corner, dx, dy, rotation, in_proportion),
{
    if rotation.magnitude().at_most(tiny()) {
        return if in_proportion {
            resized_in_proportion(start, corner, dx, dy)
        } else {
            resized(start, corner, dx, dy)
        };
    }
    let (sin, cos) = rotation.sine_cosine();
    let along = dx.times(cos).plus(dy.times(sin));
    let across = dx.negated().times(sin).plus(dy.times(cos));
    let f = if in_proportion {
        resized_in_proportion(start, corner, along, across)
    } else {
        resized(start, corner, along, across)
    };
    let was = held_corner(start, corner, sin, cos);
    let now = held_corner(f, corner, sin, cos);
    (f.0.plus(was.x).minus(now.x), f.1.plus(was.y).minus(now.y), f.2, f.3)
}

/// [`resized`] for a shape that is drawn turned.
pub fn resized_under_rotation<S: Scalar>(
    start: (S, S, S, S),
    corner: Corner,
    dx: S,
    dy: S,
    rotation: S,
) -> (r: (S, S, S, S))
    ensures
        r == corner_dragged(start, corner, dx, dy, rotation, false),
{
    corner_dragged(start, corner, dx, dy, rotation, false)
}

/// A frame's corners, in the order top left, top right, bottom left, bottom right.
pub open spec fn corner_points_spec<S: Scalar>(f: (S, S, S, S)) -> Seq<(Corner, Point<S>)> {
    seq![
        (Corner::TopLeft, Point { x: f.0, y: f.1 }),
        (Corner::TopRight, Point { x: f.0.plus(f.2), y: f.1 }),
        (Corner::BottomLeft, Point { x: f.0, y: f.1.plus(f.3) }),
        (Corner::BottomRight, Point { x: f.0.plus(f.2), y: f.1.plus(f.3) }),
    ]
}

pub fn corner_points<S: Scalar>(f: (S, S, S, S)) -> (r: Vec<(Corner, Point<S>)>)
    ensures
        r@ == corner_points_spec(f),
{
    let (x, y, w, h) = f;
    let mut out: Vec<(Corner, Point<S>)> = Vec::new();
    out.push((Corner::TopLeft, Point { x, y }));
    out.push((Corner::TopRight, Point { x: x.plus(w), y }));
    out.push((Corner::BottomLeft, Point { x, y: y.plus(h) }));
    out.push((Corner::BottomRight, Point { x: x.plus(w), y: y.plus(h) }));
    assert(out@ =~= corner_points_spec(f));
    out
}

// ---------------------------------------------------------------------------
// Distances and overlaps
// ---------------------------------------------------------------------------

/// How far along the segment `a`-`b` the point nearest to `p` lies, from nought to one. A
/// segment without length is a point.
pub open spec fn nearest_on_segment<S: Scalar>(p: Point<S>, a: Point<S>, b: Point<S>) -> S {
    let vx = b.x.minus(a.x);
    let vy = b.y.minus(a.y);
    let len2 = vx.times(vx).plus(vy.times(vy));
    if len2.at_most(tiny()) {
        S::of_int(0)
    } else {
        clamped(
            p.x.minus(a.x).times(vx).plus(p.y.minus(a.y).times(vy)).over(len2),
            S::of_int(0),
            S::of_int(1),
        )
    }
}

/// The distance from `p` to the segment `a`-`b`.
pub open spec fn distance_to_segment_spec<S: Scalar>(p: Point<S>, a: Point<S>, b: Point<S>) -> S {
    let t = nearest_on_segment(p, a, b);
    p.x.minus(a.x.plus(b.x.minus(a.x).times(t))).hypotenuse(
        p.y.minus(a.y.plus(b.y.minus(a.y).times(t))),
    )
}

#[verifier::when_used_as_spec(distance_to_segment_spec)]
pub fn distance_to_segment<S: Scalar>(p: Point<S>, a: Point<S>, b: Point<S>) -> (r: S)
    ensures
        r == distance_to_segment_spec(p, a, b),
{
    let vx = b.x.minus(a.x);
    let vy = b.y.minus(a.y);
    let len2 = vx.times(vx).plus(vy.times(vy));
    let t = if len2.at_most(tiny()) {
        S::of_int(0)
    } else {
        clamped(
            p.x.minus(a.x).times(vx).plus(p.y.minus(a.y).times(vy)).over(len2),
            S::of_int(0),
            S::of_int(1),
        )
    };
    p.x.minus(a.x.plus(vx.times(t))).hypotenuse(p.y.minus(a.y.plus(vy.times(t))))
}

/// `p` projected onto an axis.
pub open spec fn along<S: Scalar>(p: Point<S>, axis: Point<S>) -> S {
    p.x.times(axis.x).plus(p.y.times(axis.y))
}

/// The least projection of a polygon onto an axis.
pub open spec fn low_along<S: Scalar>(poly: Seq<Point<S>>, axis: Point<S>) -> S
    decreases poly.len(),
{
    if poly.len() == 0 {
        S::highest()
    } else {
        low_along(poly.drop_last(), axis).lesser(along(poly.last(), axis))
    }
}

/// The greatest projection of a polygon onto an axis.
pub open spec fn high_along<S: Scalar>(poly: Seq<Point<S>>, axis: Point<S>) -> S
    decreases poly.len(),
{
    if poly.len() == 0 {
        S::lowest()
    } else {
        high_along(poly.drop_last(), axis).greater(along(poly.last(), axis))
    }
}

/// The corner of `poly` after its `i`-th.
pub open spec fn next_corner<S: Scalar>(poly: Seq<Point<S>>, i: int) -> Point<S> {
    if i + 1 < poly.len() {
        poly[i + 1]
    } else {
        poly[0]
    }
}

/// The normal of the `i`-th edge of `poly`.
pub open spec fn edge_normal<S: Scalar>(poly: Seq<Point<S>>, i: int) -> Point<S> {
    let p = poly[i];
    let q = next_corner(poly, i);
    Point { x: p.y.minus(q.y), y: q.x.minus(p.x) }
}

/// The direction of the `i`-th edge of `poly`.
pub open spec fn edge_along<S: Scalar>(poly: Seq<Point<S>>, i: int) -> Point<S> {
    let p = poly[i];
    let q = next_corner(poly, i);
    Point { x: q.x.minus(p.x), y: q.y.minus(p.y) }
}

/// The direction from the first corner of `a` to that of `b`.
pub open spec fn way_over<S: Scalar>(a: Seq<Point<S>>, b: Seq<Point<S>>) -> Point<S> {
    Point { x: b[0].x.minus(a[0].x), y: b[0].y.minus(a[0].y) }
}

/// An axis between whose two projections lies a gap. An axis without length is none.
pub open spec fn separates<S: Scalar>(a: Seq<Point<S>>, b: Seq<Point<S>>, axis: Point<S>) -> bool {
    &&& !(axis.x.magnitude().at_most(tiny()) && axis.y.magnitude().at_most(tiny()))
    &&& (high_along(a, axis).below(low_along(b, axis)) || high_along(b, axis).below(
        low_along(a, axis),
    ))
}

/// Whether the normal or the direction of the `i`-th edge of `poly` separates two polygons.
pub open spec fn edge_separates<S: Scalar>(
    a: Seq<Point<S>>,
    b: Seq<Point<S>>,
    poly: Seq<Point<S>>,
    i: int,
) -> bool {
    separates(a, b, edge_normal(poly, i)) || separates(a, b, edge_along(poly, i))
}

/// Two convex polygons overlap where no axis separates them: neither the normal of an edge nor,
/// for polygons that are flat, the direction of one, nor, for two that are points, the way from
/// one to the other.
pub open spec fn convex_overlap_spec<S: Scalar>(a: Seq<Point<S>>, b: Seq<Point<S>>) -> bool {
    &&& forall|i: int| 0 <= i < a.len() ==> !#[trigger] edge_separates(a, b, a, i)
    &&& forall|i: int| 0 <= i < b.len() ==> !#[trigger] edge_separates(a, b, b, i)
    &&& a.len() > 0 && b.len() > 0 ==> !separates(a, b, way_over(a, b))
}

/// A polygon's least and greatest projection onto an axis.
pub fn project<S: Scalar>(poly: &[Point<S>], axis: Point<S>) -> (r: (S, S))
    ensures
        r == (low_along(poly@, axis), high_along(poly@, axis)),
{
    let mut lo = S::highest();
    let mut hi = S::lowest();
    let mut i: usize = 0;
    assert(poly@.subrange(0, 0) =~= Seq::<Point<S>>::empty());
    while i < poly.len()
        invariant
            i <= poly.len(),
            lo == low_along(poly@.subrange(0, i as int), axis),
            hi == high_along(poly@.subrange(0, i as int), axis),
        decreases poly.len() - i,
    {
        assert(poly@.subrange(0, i + 1).drop_last() =~= poly@.subrange(0, i as int));
        let d = poly[i].x.times(axis.x).plus(poly[i].y.times(axis.y));
        lo = lo.lesser(d);
        hi = hi.greater(d);
        i += 1;
    }
    assert(poly@.subrange(0, i as int) =~= poly@);
    (lo, hi)
}

/// Whether an axis separates two polygons.
fn axis_separates<S: Scalar>(a: &[Point<S>], b: &[Point<S>], axis: Point<S>) -> (r: bool)
    ensures
        r == separates(a@, b@, axis),
{
    if axis.x.magnitude().at_most(tiny()) && axis.y.magnitude().at_most(tiny()) {
        return false;
    }
    let (a0, a1) = project(a, axis);
    let (b0, b1) = project(b, axis);
    a1.below(b0) || b1.below(a0)
}

/// Whether some edge of `poly` has a normal or a direction that separates `a` from `b`.
fn some_edge_separates<S: Scalar>(poly: &[Point<S>], a: &[Point<S>], b: &[Point<S>]) -> (r: bool)
    ensures
        r == exists|i: int| 0 <= i < poly.len() && #[trigger] edge_separates(a@, b@, poly@, i),
{
    let mut i: usize = 0;
    while i < poly.len()
        invariant
            i <= poly.len(),
            forall|j: int| 0 <= j < i ==> !#[trigger] edge_separates(a@, b@, poly@, j),
        decreases poly.len() - i,
    {
        let p = poly[i];
        let q = if i + 1 < poly.len() {
            poly[i + 1]
        } else {
            poly[0]
        };
        let normal = Point { x: p.y.minus(q.y), y: q.x.minus(p.x) };
        let course = Point { x: q.x.minus(p.x), y: q.y.minus(p.y) };
        assert(normal == edge_normal(poly@, i as int));
        assert(course == edge_along(poly@, i as int));
        if axis_separates(a, b, normal) || axis_separates(a, b, course) {
            assert(edge_separates(a@, b@, poly@, i as int));
            return true;
        }
        i += 1;
    }
    false
}

/// Whether two convex polygons overlap. A polygon of two points is a segment.
pub fn convex_overlap<S: Scalar>(a: &[Point<S>], b: &[Point<S>]) -> (r: bool)
    ensures
        r == convex_overlap_spec(a@, b@),
{
    if some_edge_separates(a, a, b) || some_edge_separates(b, a, b) {
        return false;
    }
    if a.len() > 0 && b.len() > 0 {
        let over = Point { x: b[0].x.minus(a[0].x), y: b[0].y.minus(a[0].y) };
        !axis_separates(a, b, over)
    } else {
        true
    }
}

/// On which side of the `i`-th edge of `poly` the point lies, as a cross product.
pub open spec fn side_of_edge<S: Scalar>(poly: Seq<Point<S>>, i: int, p: Point<S>) -> S {
    let a = poly[i];
    let b = next_corner(poly, i);
    b.x.minus(a.x).times(p.y.minus(a.y)).minus(b.y.minus(a.y).times(p.x.minus(a.x)))
}

/// The side of the last edge, among the first `n`, that the point does not lie on.
pub open spec fn side_before<S: Scalar>(poly: Seq<Point<S>>, n: int, p: Point<S>) -> S
    decreases n,
{
    if n <= 0 {
        S::of_int(0)
    } else if side_of_edge(poly, n - 1, p).magnitude().at_most(tiny()) {
        side_before(poly, n - 1, p)
    } else {
        side_of_edge(poly, n - 1, p)
    }
}

/// Whether a point lies on the line of every edge of `poly`.
pub open spec fn in_line<S: Scalar>(poly: Seq<Point<S>>, p: Point<S>) -> bool {
    forall|i: int|
        0 <= i < poly.len() ==> (#[trigger] side_of_edge(poly, i, p)).magnitude().at_most(tiny())
}

pub open spec fn across<S: Scalar>() -> Point<S> {
    Point { x: S::of_int(1), y: S::of_int(0) }
}

pub open spec fn down<S: Scalar>() -> Point<S> {
    Point { x: S::of_int(0), y: S::of_int(1) }
}

/// Whether a point lies between the least and the greatest corner of `poly`, both ways.
pub open spec fn spanned<S: Scalar>(poly: Seq<Point<S>>, p: Point<S>) -> bool {
    &&& low_along(poly, across()).at_most(along(p, across()))
    &&& along(p, across()).at_most(high_along(poly, across()))
    &&& low_along(poly, down()).at_most(along(p, down()))
    &&& along(p, down()).at_most(high_along(poly, down()))
}

/// A point is in a convex polygon where its side never changes from edge to edge. A flat
/// polygon, on whose line it lies, has to reach that far too.
pub open spec fn point_in_convex_spec<S: Scalar>(poly: Seq<Point<S>>, p: Point<S>) -> bool {
    &&& forall|i: int|
        0 <= i < poly.len() && !(#[trigger] side_of_edge(poly, i, p)).magnitude().at_most(tiny())
            ==> !side_before(poly, i, p).times(side_of_edge(poly, i, p)).below(S::of_int(0))
    &&& in_line(poly, p) ==> spanned(poly, p)
}

pub fn point_in_convex<S: Scalar>(poly: &[Point<S>], p: Point<S>) -> (r: bool)
    ensures
        r == point_in_convex_spec(poly@, p),
{
    let mut sign = S::of_int(0);
    let mut flat = true;
    let mut i: usize = 0;
    while i < poly.len()
        invariant
            i <= poly.len(),
            sign == side_before(poly@, i as int, p),
            flat == forall|j: int|
                0 <= j < i ==> (#[trigger] side_of_edge(poly@, j, p)).magnitude().at_most(tiny()),
            forall|j: int|
                0 <= j < i && !(#[trigger] side_of_edge(poly@, j, p)).magnitude().at_most(tiny())
                    ==> !side_before(poly@, j, p).times(side_of_edge(poly@, j, p)).below(
                    S::of_int(0),
                ),
        decreases poly.len() - i,
    {
        let a = poly[i];
        let b = if i + 1 < poly.len() {
            poly[i + 1]
        } else {
            poly[0]
        };
        let cross = b.x.minus(a.x).times(p.y.minus(a.y)).minus(
            b.y.minus(a.y).times(p.x.minus(a.x)),
        );
        assert(cross == side_of_edge(poly@, i as int, p));
        if !cross.magnitude().at_most(tiny()) {
            if sign.times(cross).below(S::of_int(0)) {
                return false;
            }
            sign = cross;
            flat = false;
        }
        i += 1;
    }
    if !flat {
        return true;
    }
    let right = Point { x: S::of_int(1), y: S::of_int(0) };
    let below = Point { x: S::of_int(0), y: S::of_int(1) };
    let (x0, x1) = project(poly, right);
    let (y0, y1) = project(poly, below);
    let x = p.x.times(right.x).plus(p.y.times(right.y));
    let y = p.x.times(below.x).plus(p.y.times(below.y));
    x0.at_most(x) && x.at_most(x1) && y0.at_most(y) && y.at_most(y1)
}

} // verus!
