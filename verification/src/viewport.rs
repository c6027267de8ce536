//! The view of the canvas: screen = model * zoom + pan. Never stored, never undone.
use vstd::prelude::*;
use crate::geometry::Point;
use crate::node::NodeKind;
use crate::ops::{starting_extent, Editor, EditorModel, new_shape};
use crate::scalar::{clamped, half, ratio, Scalar};
use crate::scene::highest_id;

verus! {

/// Where the canvas stands over the drawing.
#[derive(Debug, PartialEq)]
pub struct Viewport<S> {
    pub zoom: S,
    /// Where the model's origin sits, in screen pixels.
    pub pan: Point<S>,
    /// The canvas's last laid-out size.
    pub size: (S, S),
}

impl<S: Scalar> Viewport<S> {
    /// The view a canvas opens with.
    pub fn fresh() -> (r: Viewport<S>)
        ensures
            r == (Viewport {
                zoom: S::of_int(1),
                pan: Point { x: S::of_int(0), y: S::of_int(0) },
                size: (S::of_int(800), S::of_int(600)),
            }),
    {
        Viewport {
            zoom: S::of_int(1),
            pan: Point { x: S::of_int(0), y: S::of_int(0) },
            size: (S::of_int(800), S::of_int(600)),
        }
    }

    /// The middle of the canvas, on screen.
    pub open spec fn center_spec(&self) -> Point<S> {
        Point { x: half(self.size.0), y: half(self.size.1) }
    }

    #[verifier::when_used_as_spec(center_spec)]
    pub fn center(&self) -> (r: Point<S>)
        ensures
            r == self.center_spec(),
    {
        Point { x: half(self.size.0), y: half(self.size.1) }
    }

    /// Where in the drawing a point of the screen is.
    pub open spec fn to_model_spec(&self, p: Point<S>) -> Point<S> {
        Point {
            x: p.x.minus(self.pan.x).over(self.zoom),
            y: p.y.minus(self.pan.y).over(self.zoom),
        }
    }

    #[verifier::when_used_as_spec(to_model_spec)]
    pub fn to_model(&self, p: Point<S>) -> (r: Point<S>)
        ensures
            r == self.to_model_spec(p),
    {
        Point {
            x: p.x.minus(self.pan.x).over(self.zoom),
            y: p.y.minus(self.pan.y).over(self.zoom),
        }
    }

    /// Where on screen a point of the drawing is.
    pub open spec fn to_screen_spec(&self, p: Point<S>) -> Point<S> {
        Point {
            x: p.x.times(self.zoom).plus(self.pan.x),
            y: p.y.times(self.zoom).plus(self.pan.y),
        }
    }

    #[verifier::when_used_as_spec(to_screen_spec)]
    pub fn to_screen(&self, p: Point<S>) -> (r: Point<S>)
        ensures
            r == self.to_screen_spec(p),
    {
        Point {
            x: p.x.times(self.zoom).plus(self.pan.x),
            y: p.y.times(self.zoom).plus(self.pan.y),
        }
    }

    /// The view at another zoom, held between a quarter and four, with what is under `anchor`
    /// kept there.
    pub open spec fn zoomed(&self, target: S, anchor: Point<S>) -> Viewport<S> {
        let z = clamped(target, ratio(1, 4), S::of_int(4));
        let f = z.over(self.zoom);
        Viewport {
            zoom: z,
            pan: Point {
                x: anchor.x.minus(anchor.x.minus(self.pan.x).times(f)),
                y: anchor.y.minus(anchor.y.minus(self.pan.y).times(f)),
            },
            size: self.size,
        }
    }

    pub fn zoom_to(&mut self, target: S, anchor: Point<S>)
        ensures
            *final(self) == old(self).zoomed(target, anchor),
    {
        let z1 = clamped(target, ratio(1, 4), S::of_int(4));
        let f = z1.over(self.zoom);
        self.pan = Point {
            x: anchor.x.minus(anchor.x.minus(self.pan.x).times(f)),
            y: anchor.y.minus(anchor.y.minus(self.pan.y).times(f)),
        };
        self.zoom = z1;
    }

    /// Zooms by a factor about the middle of the canvas.
    pub fn zoom_step(&mut self, factor: S)
        ensures
            *final(self) == old(self).zoomed(old(self).zoom.times(factor), old(self).center()),
    {
        let target = self.zoom.times(factor);
        let anchor = self.center();
        self.zoom_to(target, anchor);
    }

    /// Back to one to one, about the middle of the canvas.
    pub fn zoom_reset(&mut self)
        ensures
            *final(self) == old(self).zoomed(S::of_int(1), old(self).center()),
    {
        let anchor = self.center();
        self.zoom_to(S::of_int(1), anchor);
    }

    /// The view after the drawing was moved under the canvas.
    pub open spec fn panned(&self, dx: S, dy: S) -> Viewport<S> {
        Viewport {
            zoom: self.zoom,
            pan: Point { x: self.pan.x.plus(dx), y: self.pan.y.plus(dy) },
            size: self.size,
        }
    }

    /// Moves the drawing under the canvas.
    pub fn pan_by(&mut self, dx: S, dy: S)
        ensures
            *final(self) == old(self).panned(dx, dy),
    {
        self.pan = Point { x: self.pan.x.plus(dx), y: self.pan.y.plus(dy) };
    }
}

/// Where a shape of this kind is placed to stand in the middle of the canvas.
pub open spec fn centered_at<S: Scalar>(view: Viewport<S>, kind: NodeKind) -> Point<S> {
    let c = view.to_model(view.center());
    let (w, h) = starting_extent::<S>(kind);
    Point { x: c.x.minus(half(w)), y: c.y.minus(half(h)) }
}

impl<S: Scalar> Editor<S> {
    /// Places a shape in the middle of what is seen, and selects it.
    pub fn place_centered(&mut self, view: &Viewport<S>, kind: NodeKind) -> (id: u64)
        requires
            old(self).wf(),
            highest_id(old(self)@.rows) < u64::MAX,
        ensures
            final(self).wf(),
            id == highest_id(old(self)@.rows) + 1,
            final(self)@ == (EditorModel {
                rows: old(self)@.rows.push(
                    new_shape(
                        old(self)@.rows,
                        kind,
                        centered_at(*view, kind).x,
                        centered_at(*view, kind).y,
                    ),
                ),
                selection: seq![id],
                ..old(self)@
            }),
    {
        let c = view.to_model(view.center());
        let (w, h) = starting_extent::<S>(kind);
        let id = self.scene.place_shape(kind, c.x.minus(half(w)), c.y.minus(half(h)));
        let mut selected: Vec<u64> = Vec::new();
        selected.push(id);
        self.selection = selected;
        assert(self.selection@ =~= seq![id]);
        id
    }
}

} // verus!
