//! What the canvas shows: the drawing, the selection's outlines and handles, and the band, as
//! a list of drawing commands from the bottom up.
use vstd::prelude::*;
use crate::bounds::{line_ends, node_bounds};
use crate::canvas::Canvas;
use crate::color::{fill_color, fill_color_spec, Color};
use crate::geometry::{rotation_about_center, turns, Affine, Corner, Point};
use crate::hit::{corners_on_screen, rotation_of, screen_corners};
use crate::node::{Node, NodeKind, NodeModel};
use crate::ops::{Editor, EditorModel};
use crate::scalar::{half, ratio, Scalar};
use crate::scene::{children, peek, reach, Scene};
use crate::viewport::Viewport;

verus! {

/// One step of an outline.
pub enum PathOp<S> {
    MoveTo(Point<S>),
    LineTo(Point<S>),
    CubicTo(Point<S>, Point<S>, Point<S>),
    Close,
}

/// One drawing command.
pub enum DrawOp<S> {
    Clip(Vec<PathOp<S>>),
    Fill(Vec<PathOp<S>>, Color<S>),
    Stroke(Vec<PathOp<S>>, Color<S>, S),
    /// A stroke one pixel wide, four pixels on and four off.
    Dashed(Vec<PathOp<S>>, Color<S>),
    /// The picture of a node, into a frame, at an opacity.
    Picture(u64, (S, S, S, S), S),
    /// Everything up to the matching pop goes through the map.
    Push(Affine<S>),
    Pop,
}

/// What a [`DrawOp`] holds, as values.
pub ghost enum DrawModel<S> {
    Clip(Seq<PathOp<S>>),
    Fill(Seq<PathOp<S>>, Color<S>),
    Stroke(Seq<PathOp<S>>, Color<S>, S),
    Dashed(Seq<PathOp<S>>, Color<S>),
    Picture(u64, (S, S, S, S), S),
    Push(Affine<S>),
    Pop,
}

impl<S> View for DrawOp<S> {
    type V = DrawModel<S>;

    open spec fn view(&self) -> DrawModel<S> {
        match self {
            DrawOp::Clip(p) => DrawModel::Clip(p@),
            DrawOp::Fill(p, c) => DrawModel::Fill(p@, *c),
            DrawOp::Stroke(p, c, w) => DrawModel::Stroke(p@, *c, *w),
            DrawOp::Dashed(p, c) => DrawModel::Dashed(p@, *c),
            DrawOp::Picture(id, f, a) => DrawModel::Picture(*id, *f, *a),
            DrawOp::Push(m) => DrawModel::Push(*m),
            DrawOp::Pop => DrawModel::Pop,
        }
    }
}

/// A list of commands, as values.
pub open spec fn shown<S>(ops: Seq<DrawOp<S>>) -> Seq<DrawModel<S>> {
    Seq::new(ops.len(), |i: int| ops[i]@)
}

// ---------------------------------------------------------------------------
// Outlines
// ---------------------------------------------------------------------------

pub open spec fn point<S>(x: S, y: S) -> Point<S> {
    Point { x, y }
}

/// A rectangle.
pub open spec fn rect_path<S: Scalar>(x: S, y: S, w: S, h: S) -> Seq<PathOp<S>> {
    seq![
        PathOp::MoveTo(point(x, y)),
        PathOp::LineTo(point(x.plus(w), y)),
        PathOp::LineTo(point(x.plus(w), y.plus(h))),
        PathOp::LineTo(point(x, y.plus(h))),
        PathOp::Close,
    ]
}

/// A segment.
pub open spec fn segment_path<S: Scalar>(a: Point<S>, b: Point<S>) -> Seq<PathOp<S>> {
    seq![PathOp::MoveTo(a), PathOp::LineTo(b)]
}

/// How far along its tangents the control points of a quarter circle lie.
pub open spec fn kappa_spec<S: Scalar>() -> S {
    match S::of_text_spec("0.5522847498307934"@) {
        Some(k) => k,
        None => ratio(5523, 10_000),
    }
}

#[verifier::when_used_as_spec(kappa_spec)]
pub fn kappa<S: Scalar>() -> (r: S)
    ensures
        r == kappa_spec::<S>(),
{
    match S::of_text("0.5522847498307934") {
        Some(k) => k,
        None => ratio(5523, 10_000),
    }
}

/// The radius that a rectangle's corners are drawn with: half the shorter side at most.
pub open spec fn drawn_radius_spec<S: Scalar>(w: S, h: S, r: S) -> S {
    r.lesser(half(w)).lesser(half(h))
}

#[verifier::when_used_as_spec(drawn_radius_spec)]
fn drawn_radius<S: Scalar>(w: S, h: S, r: S) -> (d: S)
    ensures
        d == drawn_radius_spec(w, h, r),
{
    r.lesser(half(w)).lesser(half(h))
}

/// A rectangle with rounded corners; a plain one where the radius comes to nought.
pub open spec fn round_rect_path<S: Scalar>(x: S, y: S, w: S, h: S, radius: S) -> Seq<PathOp<S>> {
    let r = drawn_radius_spec(w, h, radius);
    if r.at_most(S::of_int(0)) {
        rect_path(x, y, w, h)
    } else {
        let c = r.times(kappa());
        let x1 = x.plus(w);
        let y1 = y.plus(h);
        seq![
            PathOp::MoveTo(point(x.plus(r), y)),
            PathOp::LineTo(point(x1.minus(r), y)),
            PathOp::CubicTo(
                point(x1.minus(r).plus(c), y),
                point(x1, y.plus(r).minus(c)),
                point(x1, y.plus(r)),
            ),
            PathOp::LineTo(point(x1, y1.minus(r))),
            PathOp::CubicTo(
                point(x1, y1.minus(r).plus(c)),
                point(x1.minus(r).plus(c), y1),
                point(x1.minus(r), y1),
            ),
            PathOp::LineTo(point(x.plus(r), y1)),
            PathOp::CubicTo(
                point(x.plus(r).minus(c), y1),
                point(x, y1.minus(r).plus(c)),
                point(x, y1.minus(r)),
            ),
            PathOp::LineTo(point(x, y.plus(r))),
            PathOp::CubicTo(
                point(x, y.plus(r).minus(c)),
                point(x.plus(r).minus(c), y),
                point(x.plus(r), y),
            ),
            PathOp::Close,
        ]
    }
}

/// An ellipse, of four arcs.
pub open spec fn oval_path<S: Scalar>(x: S, y: S, w: S, h: S) -> Seq<PathOp<S>> {
    let rx = half(w);
    let ry = half(h);
    let cx = x.plus(rx);
    let cy = y.plus(ry);
    let kx = rx.times(kappa());
    let ky = ry.times(kappa());
    seq![
        PathOp::MoveTo(point(cx.plus(rx), cy)),
        PathOp::CubicTo(
            point(cx.plus(rx), cy.plus(ky)),
            point(cx.plus(kx), cy.plus(ry)),
            point(cx, cy.plus(ry)),
        ),
        PathOp::CubicTo(
            point(cx.minus(kx), cy.plus(ry)),
            point(cx.minus(rx), cy.plus(ky)),
            point(cx.minus(rx), cy),
        ),
        PathOp::CubicTo(
            point(cx.minus(rx), cy.minus(ky)),
            point(cx.minus(kx), cy.minus(ry)),
            point(cx, cy.minus(ry)),
        ),
        PathOp::CubicTo(
            point(cx.plus(kx), cy.minus(ry)),
            point(cx.plus(rx), cy.minus(ky)),
            point(cx.plus(rx), cy),
        ),
        PathOp::Close,
    ]
}

/// A node's outline.
pub open spec fn shape_path<S: Scalar>(n: NodeModel<S>) -> Seq<PathOp<S>> {
    match n.kind {
        NodeKind::Oval => oval_path(n.x, n.y, n.w, n.h),
        NodeKind::Line => {
            let (a, b) = line_ends(n);
            segment_path(a, b)
        },
        NodeKind::Rect | NodeKind::Group | NodeKind::Image => round_rect_path(
            n.x,
            n.y,
            n.w,
            n.h,
            n.corner_radius,
        ),
    }
}

/// A corner of a handle, turned with the shape that the handle belongs to.
pub open spec fn handle_corner_spec<S: Scalar>(c: Point<S>, dx: S, dy: S, rotation: S) -> Point<S> {
    let (sin, cos) = rotation.sine_cosine();
    point(
        c.x.plus(dx.times(cos)).minus(dy.times(sin)),
        c.y.plus(dx.times(sin)).plus(dy.times(cos)),
    )
}

#[verifier::when_used_as_spec(handle_corner_spec)]
fn handle_corner<S: Scalar>(c: Point<S>, dx: S, dy: S, rotation: S) -> (r: Point<S>)
    ensures
        r == handle_corner_spec(c, dx, dy, rotation),
{
    let (sin, cos) = rotation.sine_cosine();
    Point {
        x: c.x.plus(dx.times(cos)).minus(dy.times(sin)),
        y: c.y.plus(dx.times(sin)).plus(dy.times(cos)),
    }
}

/// A drag handle: a square of eight pixels about `c`.
pub open spec fn handle_path<S: Scalar>(c: Point<S>, rotation: S) -> Seq<PathOp<S>> {
    let far = half(S::of_int(8));
    let near = far.negated();
    seq![
        PathOp::MoveTo(handle_corner_spec(c, near, near, rotation)),
        PathOp::LineTo(handle_corner_spec(c, far, near, rotation)),
        PathOp::LineTo(handle_corner_spec(c, far, far, rotation)),
        PathOp::LineTo(handle_corner_spec(c, near, far, rotation)),
        PathOp::Close,
    ]
}

/// The outline through four corners that come as top left, top right, bottom left, bottom
/// right.
pub open spec fn ring_path<S: Scalar>(pts: Seq<(Corner, Point<S>)>) -> Seq<PathOp<S>> {
    seq![
        PathOp::MoveTo(pts[0].1),
        PathOp::LineTo(pts[1].1),
        PathOp::LineTo(pts[3].1),
        PathOp::LineTo(pts[2].1),
        PathOp::Close,
    ]
}

// ---------------------------------------------------------------------------
// Commands
// ---------------------------------------------------------------------------

/// How one node is painted, upright. A line has no interior; an outline that is thin or faint
/// to nothing is left out.
pub open spec fn paint<S: Scalar>(n: NodeModel<S>) -> Seq<DrawModel<S>> {
    if n.kind == NodeKind::Image {
        seq![DrawModel::Picture(n.id, (n.x, n.y, n.w, n.h), n.fill_opacity)]
    } else {
        (if n.kind == NodeKind::Line {
            Seq::empty()
        } else {
            seq![
                DrawModel::Fill(
                    shape_path(n),
                    fill_color_spec::<S>(n.fill).with_alpha(n.fill_opacity),
                ),
            ]
        }) + (if S::of_int(0).below(n.stroke_width) && S::of_int(0).below(n.stroke_opacity) {
            seq![
                DrawModel::Stroke(
                    shape_path(n),
                    fill_color_spec::<S>(n.stroke).with_alpha(n.stroke_opacity),
                    n.stroke_width,
                ),
            ]
        } else {
            Seq::empty()
        })
    }
}

/// How one shape is drawn: painted through its turn.
pub open spec fn shape_ops<S: Scalar>(n: NodeModel<S>) -> Seq<DrawModel<S>> {
    if turns(n.rotation) {
        seq![DrawModel::Push(rotation_about_center((n.x, n.y, n.w, n.h), n.rotation))] + paint(n)
            + seq![DrawModel::Pop]
    } else {
        paint(n)
    }
}

/// How a node is drawn, descending `steps` levels at most: a group draws its members.
pub open spec fn node_ops<S: Scalar>(rows: Seq<NodeModel<S>>, id: u64, steps: nat) -> Seq<
    DrawModel<S>,
>
    decreases steps, 0nat,
{
    if steps == 0 {
        Seq::empty()
    } else if peek(rows, id).kind == NodeKind::Group {
        node_ops_each(rows, children(rows, Some(id)), (steps - 1) as nat)
    } else {
        shape_ops(peek(rows, id))
    }
}

/// How nodes are drawn, in turn.
pub open spec fn node_ops_each<S: Scalar>(rows: Seq<NodeModel<S>>, ids: Seq<u64>, steps: nat) -> Seq<
    DrawModel<S>,
>
    decreases steps, ids.len(),
{
    if ids.len() == 0 {
        Seq::empty()
    } else {
        node_ops_each(rows, ids.drop_last(), steps) + node_ops(rows, ids.last(), steps)
    }
}

/// The blue of the selection.
pub open spec fn selection_blue_spec<S: Scalar>() -> Color<S> {
    Color::hex(0x2563EB)
}

#[verifier::when_used_as_spec(selection_blue_spec)]
fn selection_blue<S: Scalar>() -> (r: Color<S>)
    ensures
        r == selection_blue_spec::<S>(),
{
    Color::hex(0x2563EB)
}

/// How a handle is drawn: a white square in a blue edge, both a little translucent.
pub open spec fn handle_ops<S: Scalar>(c: Point<S>, rotation: S) -> Seq<DrawModel<S>> {
    let one = S::of_int(1);
    seq![
        DrawModel::Fill(
            handle_path(c, rotation),
            Color { r: one, g: one, b: one, a: ratio(85, 100) },
        ),
        DrawModel::Stroke(
            handle_path(c, rotation),
            Color {
                r: ratio(145, 1000),
                g: ratio(388, 1000),
                b: ratio(922, 1000),
                a: ratio(9, 10),
            },
            one,
        ),
    ]
}

/// How the handles at some corners are drawn.
pub open spec fn handles_ops<S: Scalar>(pts: Seq<(Corner, Point<S>)>, rotation: S) -> Seq<
    DrawModel<S>,
>
    decreases pts.len(),
{
    if pts.len() == 0 {
        Seq::empty()
    } else {
        handles_ops(pts.drop_last(), rotation) + handle_ops(pts.last().1, rotation)
    }
}

/// How a selected node is marked, in screen space: a line by its own segment and its ends, any
/// other node by its frame and a shape by its corners too, turned with it. A group's frame is
/// the upright one that its members span, and turns with none of them.
pub open spec fn mark_ops<S: Scalar>(rows: Seq<NodeModel<S>>, viewport: Viewport<S>, id: u64) -> Seq<
    DrawModel<S>,
> {
    let n = peek(rows, id);
    match node_bounds(rows, id) {
        None => Seq::empty(),
        Some(b) => if n.kind == NodeKind::Line {
            let (p, q) = line_ends(n);
            let a = viewport.to_screen(p);
            let z = viewport.to_screen(q);
            seq![DrawModel::Stroke(segment_path(a, z), selection_blue_spec(), ratio(3, 2))]
                + handle_ops(a, S::of_int(0)) + handle_ops(z, S::of_int(0))
        } else {
            let pts = screen_corners(viewport, b, rotation_of(n));
            seq![DrawModel::Stroke(ring_path(pts), selection_blue_spec(), ratio(3, 2))] + if n.kind
                == NodeKind::Group {
                Seq::empty()
            } else {
                handles_ops(pts, rotation_of(n))
            }
        },
    }
}

/// How selected nodes are marked, in turn.
pub open spec fn mark_ops_each<S: Scalar>(
    rows: Seq<NodeModel<S>>,
    viewport: Viewport<S>,
    ids: Seq<u64>,
) -> Seq<DrawModel<S>>
    decreases ids.len(),
{
    if ids.len() == 0 {
        Seq::empty()
    } else {
        mark_ops_each(rows, viewport, ids.drop_last()) + mark_ops(rows, viewport, ids.last())
    }
}

/// How the band is drawn: a faint wash under a dashed edge.
pub open spec fn band_ops<S: Scalar>(band: Option<(S, S, S, S)>) -> Seq<DrawModel<S>> {
    match band {
        None => Seq::empty(),
        Some(b) => seq![
            DrawModel::Fill(
                rect_path(b.0, b.1, b.2, b.3),
                selection_blue_spec::<S>().with_alpha(ratio(10, 100)),
            ),
            DrawModel::Dashed(rect_path(b.0, b.1, b.2, b.3), selection_blue_spec()),
        ],
    }
}

/// How the alignment guides are drawn: lines across the whole canvas, in screen space.
pub open spec fn guide_ops<S: Scalar>(viewport: Viewport<S>, guides: (Option<S>, Option<S>)) -> Seq<
    DrawModel<S>,
> {
    (match guides.0 {
        None => Seq::empty(),
        Some(x) => {
            let at = viewport.to_screen(point(x, S::of_int(0))).x;
            seq![
                DrawModel::Stroke(
                    segment_path(point(at, S::of_int(0)), point(at, viewport.size.1)),
                    selection_blue_spec(),
                    S::of_int(1),
                ),
            ]
        },
    }) + (match guides.1 {
        None => Seq::empty(),
        Some(y) => {
            let at = viewport.to_screen(point(S::of_int(0), y)).y;
            seq![
                DrawModel::Stroke(
                    segment_path(point(S::of_int(0), at), point(viewport.size.0, at)),
                    selection_blue_spec(),
                    S::of_int(1),
                ),
            ]
        },
    })
}

/// The paper, clipped to the canvas.
pub open spec fn paper_ops<S: Scalar>(background: Seq<char>, size: (S, S)) -> Seq<DrawModel<S>> {
    let r = rect_path(S::of_int(0), S::of_int(0), size.0, size.1);
    seq![DrawModel::Clip(r), DrawModel::Fill(r, fill_color_spec::<S>(background))]
}

/// The map from the drawing to the screen.
pub open spec fn view_map<S: Scalar>(v: Viewport<S>) -> Affine<S> {
    Affine::scale(v.zoom, v.zoom).followed_by(Affine::translate(v.pan.x, v.pan.y))
}

/// Everything the canvas shows, from the bottom up: the paper, the nodes in layer order through
/// the view, the marks of the selection, the guides of a drag, and the band.
pub open spec fn scene_ops<S: Scalar>(
    m: EditorModel<S>,
    viewport: Viewport<S>,
    guides: (Option<S>, Option<S>),
    band: Option<(S, S, S, S)>,
) -> Seq<DrawModel<S>> {
    paper_ops(m.background, viewport.size) + seq![DrawModel::Push(view_map(viewport))]
        + node_ops_each(m.rows, children(m.rows, None), reach(m.rows)) + seq![DrawModel::Pop]
        + mark_ops_each(m.rows, viewport, m.selection) + guide_ops(viewport, guides) + band_ops(
        band,
    )
}

// ---------------------------------------------------------------------------
// The drawing
// ---------------------------------------------------------------------------

pub fn rect_shape<S: Scalar>(x: S, y: S, w: S, h: S) -> (r: Vec<PathOp<S>>)
    ensures
        r@ == rect_path(x, y, w, h),
{
    let mut out: Vec<PathOp<S>> = Vec::new();
    out.push(PathOp::MoveTo(Point { x, y }));
    out.push(PathOp::LineTo(Point { x: x.plus(w), y }));
    out.push(PathOp::LineTo(Point { x: x.plus(w), y: y.plus(h) }));
    out.push(PathOp::LineTo(Point { x, y: y.plus(h) }));
    out.push(PathOp::Close);
    assert(out@ =~= rect_path(x, y, w, h));
    out
}

pub fn segment_shape<S: Scalar>(a: Point<S>, b: Point<S>) -> (r: Vec<PathOp<S>>)
    ensures
        r@ == segment_path(a, b),
{
    let mut out: Vec<PathOp<S>> = Vec::new();
    out.push(PathOp::MoveTo(a));
    out.push(PathOp::LineTo(b));
    assert(out@ =~= segment_path(a, b));
    out
}

pub fn round_rect_shape<S: Scalar>(x: S, y: S, w: S, h: S, radius: S) -> (out: Vec<PathOp<S>>)
    ensures
        out@ == round_rect_path(x, y, w, h, radius),
{
    let r = drawn_radius(w, h, radius);
    if r.at_most(S::of_int(0)) {
        return rect_shape(x, y, w, h);
    }
    let c = r.times(kappa());
    let x1 = x.plus(w);
    let y1 = y.plus(h);
    let mut out: Vec<PathOp<S>> = Vec::new();
    out.push(PathOp::MoveTo(Point { x: x.plus(r), y }));
    out.push(PathOp::LineTo(Point { x: x1.minus(r), y }));
    out.push(
        PathOp::CubicTo(
            Point { x: x1.minus(r).plus(c), y },
            Point { x: x1, y: y.plus(r).minus(c) },
            Point { x: x1, y: y.plus(r) },
        ),
    );
    out.push(PathOp::LineTo(Point { x: x1, y: y1.minus(r) }));
    out.push(
        PathOp::CubicTo(
            Point { x: x1, y: y1.minus(r).plus(c) },
            Point { x: x1.minus(r).plus(c), y: y1 },
            Point { x: x1.minus(r), y: y1 },
        ),
    );
    out.push(PathOp::LineTo(Point { x: x.plus(r), y: y1 }));
    out.push(
        PathOp::CubicTo(
            Point { x: x.plus(r).minus(c), y: y1 },
            Point { x, y: y1.minus(r).plus(c) },
            Point { x, y: y1.minus(r) },
        ),
    );
    out.push(PathOp::LineTo(Point { x, y: y.plus(r) }));
    out.push(
        PathOp::CubicTo(
            Point { x, y: y.plus(r).minus(c) },
            Point { x: x.plus(r).minus(c), y },
            Point { x: x.plus(r), y },
        ),
    );
    out.push(PathOp::Close);
    assert(out@ =~= round_rect_path(x, y, w, h, radius));
    out
}

pub fn oval_shape<S: Scalar>(x: S, y: S, w: S, h: S) -> (out: Vec<PathOp<S>>)
    ensures
        out@ == oval_path(x, y, w, h),
{
    let rx = half(w);
    let ry = half(h);
    let cx = x.plus(rx);
    let cy = y.plus(ry);
    let kx = rx.times(kappa());
    let ky = ry.times(kappa());
    let mut out: Vec<PathOp<S>> = Vec::new();
    out.push(PathOp::MoveTo(Point { x: cx.plus(rx), y: cy }));
    out.push(
        PathOp::CubicTo(
            Point { x: cx.plus(rx), y: cy.plus(ky) },
            Point { x: cx.plus(kx), y: cy.plus(ry) },
            Point { x: cx, y: cy.plus(ry) },
        ),
    );
    out.push(
        PathOp::CubicTo(
            Point { x: cx.minus(kx), y: cy.plus(ry) },
            Point { x: cx.minus(rx), y: cy.plus(ky) },
            Point { x: cx.minus(rx), y: cy },
        ),
    );
    out.push(
        PathOp::CubicTo(
            Point { x: cx.minus(rx), y: cy.minus(ky) },
            Point { x: cx.minus(kx), y: cy.minus(ry) },
            Point { x: cx, y: cy.minus(ry) },
        ),
    );
    out.push(
        PathOp::CubicTo(
            Point { x: cx.plus(kx), y: cy.minus(ry) },
            Point { x: cx.plus(rx), y: cy.minus(ky) },
            Point { x: cx.plus(rx), y: cy },
        ),
    );
    out.push(PathOp::Close);
    assert(out@ =~= oval_path(x, y, w, h));
    out
}

/// A node's outline.
pub fn shape_of<S: Scalar>(n: &Node<S>) -> (r: Vec<PathOp<S>>)
    ensures
        r@ == shape_path(n@),
{
    match n.kind {
        NodeKind::Oval => oval_shape(n.x, n.y, n.w, n.h),
        NodeKind::Line => segment_shape(
            Point { x: n.x, y: n.y },
            Point { x: n.x.plus(n.w), y: n.y.plus(n.h) },
        ),
        NodeKind::Rect | NodeKind::Group | NodeKind::Image => round_rect_shape(
            n.x,
            n.y,
            n.w,
            n.h,
            n.corner_radius,
        ),
    }
}

pub fn handle_shape<S: Scalar>(c: Point<S>, rotation: S) -> (r: Vec<PathOp<S>>)
    ensures
        r@ == handle_path(c, rotation),
{
    let far = half(S::of_int(8));
    let near = far.negated();
    let mut out: Vec<PathOp<S>> = Vec::new();
    out.push(PathOp::MoveTo(handle_corner(c, near, near, rotation)));
    out.push(PathOp::LineTo(handle_corner(c, far, near, rotation)));
    out.push(PathOp::LineTo(handle_corner(c, far, far, rotation)));
    out.push(PathOp::LineTo(handle_corner(c, near, far, rotation)));
    out.push(PathOp::Close);
    assert(out@ =~= handle_path(c, rotation));
    out
}

/// Appends one command.
fn put<S: Scalar>(out: &mut Vec<DrawOp<S>>, op: DrawOp<S>)
    ensures
        shown(final(out)@) == shown(old(out)@).push(op@),
{
    let ghost before = out@;
    out.push(op);
    assert(shown(out@) =~= shown(before).push(op@));
}

fn put_shape<S: Scalar>(out: &mut Vec<DrawOp<S>>, n: &Node<S>)
    ensures
        shown(final(out)@) == shown(old(out)@) + shape_ops(n@),
{
    let ghost before = shown(out@);
    let turned = turns(n.rotation);
    if turned {
        put(out, DrawOp::Push(rotation_about_center((n.x, n.y, n.w, n.h), n.rotation)));
    }
    match n.kind {
        NodeKind::Image => {
            put(out, DrawOp::Picture(n.id, (n.x, n.y, n.w, n.h), n.fill_opacity));
        },
        NodeKind::Rect | NodeKind::Oval | NodeKind::Line | NodeKind::Group => {
            if n.kind != NodeKind::Line {
                put(
                    out,
                    DrawOp::Fill(
                        shape_of(n),
                        fill_color::<S>(n.fill.as_str()).with_alpha(n.fill_opacity),
                    ),
                );
            }
            if S::of_int(0).below(n.stroke_width) && S::of_int(0).below(n.stroke_opacity) {
                put(
                    out,
                    DrawOp::Stroke(
                        shape_of(n),
                        fill_color::<S>(n.stroke.as_str()).with_alpha(n.stroke_opacity),
                        n.stroke_width,
                    ),
                );
            }
        },
    }
    if turned {
        put(out, DrawOp::Pop);
    }
    assert(shown(out@) =~= before + shape_ops(n@));
}

fn put_handle<S: Scalar>(out: &mut Vec<DrawOp<S>>, c: Point<S>, rotation: S)
    ensures
        shown(final(out)@) == shown(old(out)@) + handle_ops(c, rotation),
{
    let ghost before = shown(out@);
    let one = S::of_int(1);
    put(
        out,
        DrawOp::Fill(
            handle_shape(c, rotation),
            Color { r: one, g: one, b: one, a: ratio(85, 100) },
        ),
    );
    put(
        out,
        DrawOp::Stroke(
            handle_shape(c, rotation),
            Color {
                r: ratio(145, 1000),
                g: ratio(388, 1000),
                b: ratio(922, 1000),
                a: ratio(9, 10),
            },
            one,
        ),
    );
    assert(shown(out@) =~= before + handle_ops(c, rotation));
}

impl<S: Scalar> Scene<S> {
    /// Appends how a node is drawn, descending `below` levels below it at most.
    fn draw_node(&self, out: &mut Vec<DrawOp<S>>, id: u64, below: usize)
        requires
            self.wf(),
        ensures
            shown(final(out)@) == shown(old(out)@) + node_ops(self@.rows, id, below as nat + 1),
        decreases below, 0nat,
    {
        let ghost start = shown(out@);
        if let NodeKind::Group = self.kind(id) {
            let members = self.children_of(Some(id));
            let mut i: usize = 0;
            assert(members@.subrange(0, 0) =~= Seq::<u64>::empty());
            assert(start + node_ops_each(self@.rows, members@.subrange(0, 0), below as nat)
                =~= start);
            while below > 0 && i < members.len()
                invariant
                    self.wf(),
                    i <= members.len(),
                    below == 0 ==> i == 0,
                    shown(out@) == start + node_ops_each(
                        self@.rows,
                        members@.subrange(0, i as int),
                        below as nat,
                    ),
                decreases members.len() - i,
            {
                assert(members@.subrange(0, i + 1).drop_last() =~= members@.subrange(0, i as int));
                self.draw_node(out, members[i], below - 1);
                i += 1;
                assert(shown(out@) =~= start + node_ops_each(
                    self@.rows,
                    members@.subrange(0, i as int),
                    below as nat,
                ));
            }
            proof {
                if below == 0 {
                    no_ops_without_steps(self@.rows, members@);
                } else {
                    assert(members@.subrange(0, i as int) =~= members@);
                }
            }
        } else {
            match self.find(id) {
                Some(i) => put_shape(out, &self.nodes[i]),
                None => {
                    let absent: Node<S> = Node::absent();
                    put_shape(out, &absent);
                },
            }
        }
    }

    /// Appends how a selected node is marked.
    fn draw_mark(&self, out: &mut Vec<DrawOp<S>>, viewport: &Viewport<S>, id: u64)
        requires
            self.wf(),
        ensures
            shown(final(out)@) == shown(old(out)@) + mark_ops(self@.rows, *viewport, id),
    {
        let ghost before = shown(out@);
        let b = match self.node_bounds(id) {
            None => {
                assert(shown(out@) =~= before + mark_ops(self@.rows, *viewport, id));
                return ;
            },
            Some(b) => b,
        };
        let kind = self.kind(id);
        if kind == NodeKind::Line {
            let (p, q) = self.line_ends(id);
            let a = viewport.to_screen(p);
            let z = viewport.to_screen(q);
            put(out, DrawOp::Stroke(segment_shape(a, z), selection_blue(), ratio(3, 2)));
            put_handle(out, a, S::of_int(0));
            put_handle(out, z, S::of_int(0));
            assert(shown(out@) =~= before + mark_ops(self@.rows, *viewport, id));
            return ;
        }
        let rotation = if kind == NodeKind::Group {
            S::of_int(0)
        } else {
            self.rotation(id)
        };
        let pts = corners_on_screen(viewport, b, rotation);
        let mut ring: Vec<PathOp<S>> = Vec::new();
        ring.push(PathOp::MoveTo(pts[0].1));
        ring.push(PathOp::LineTo(pts[1].1));
        ring.push(PathOp::LineTo(pts[3].1));
        ring.push(PathOp::LineTo(pts[2].1));
        ring.push(PathOp::Close);
        assert(ring@ =~= ring_path(pts@));
        put(out, DrawOp::Stroke(ring, selection_blue(), ratio(3, 2)));
        if kind != NodeKind::Group {
            let ghost head = shown(out@);
            let mut i: usize = 0;
            assert(pts@.subrange(0, 0) =~= Seq::empty());
            assert(head + handles_ops(pts@.subrange(0, 0), rotation) =~= head);
            while i < pts.len()
                invariant
                    i <= pts.len(),
                    shown(out@) == head + handles_ops(pts@.subrange(0, i as int), rotation),
                decreases pts.len() - i,
            {
                assert(pts@.subrange(0, i + 1).drop_last() =~= pts@.subrange(0, i as int));
                put_handle(out, pts[i].1, rotation);
                i += 1;
                assert(shown(out@) =~= head + handles_ops(pts@.subrange(0, i as int), rotation));
            }
            assert(pts@.subrange(0, i as int) =~= pts@);
        }
        assert(shown(out@) =~= before + mark_ops(self@.rows, *viewport, id));
    }
}

impl<S: Scalar> Canvas<S> {
    /// Everything the canvas shows, from the bottom up.
    pub fn draw_scene(&self, editor: &Editor<S>) -> (out: Vec<DrawOp<S>>)
        requires
            editor.wf(),
        ensures
            shown(out@) == scene_ops(editor@, self.viewport, self.guides, self.band),
    {
        let ghost m = editor@;
        let v = &self.viewport;
        let mut out: Vec<DrawOp<S>> = Vec::new();
        assert(shown(out@) =~= Seq::<DrawModel<S>>::empty());
        put(&mut out, DrawOp::Clip(rect_shape(S::of_int(0), S::of_int(0), v.size.0, v.size.1)));
        put(
            &mut out,
            DrawOp::Fill(
                rect_shape(S::of_int(0), S::of_int(0), v.size.0, v.size.1),
                fill_color(editor.scene.background.as_str()),
            ),
        );
        assert(shown(out@) =~= paper_ops(m.background, v.size));
        put(
            &mut out,
            DrawOp::Push(
                Affine::scale(v.zoom, v.zoom).followed_by(Affine::translate(v.pan.x, v.pan.y)),
            ),
        );
        let ghost head = shown(out@);
        let roots = editor.scene.children_of(None);
        let ghost steps = reach(m.rows);
        let mut i: usize = 0;
        assert(roots@.subrange(0, 0) =~= Seq::<u64>::empty());
        assert(head + node_ops_each(m.rows, roots@.subrange(0, 0), steps) =~= head);
        while i < roots.len()
            invariant
                editor.wf(),
                m == editor@,
                i <= roots.len(),
                steps == editor.scene.nodes.len() + 1,
                shown(out@) == head + node_ops_each(m.rows, roots@.subrange(0, i as int), steps),
            decreases roots.len() - i,
        {
            assert(roots@.subrange(0, i + 1).drop_last() =~= roots@.subrange(0, i as int));
            editor.scene.draw_node(&mut out, roots[i], editor.scene.nodes.len());
            i += 1;
            assert(shown(out@) =~= head + node_ops_each(
                m.rows,
                roots@.subrange(0, i as int),
                steps,
            ));
        }
        assert(roots@.subrange(0, i as int) =~= roots@);
        put(&mut out, DrawOp::Pop);
        let ghost body = shown(out@);
        let mut k: usize = 0;
        assert(m.selection.subrange(0, 0) =~= Seq::<u64>::empty());
        assert(body + mark_ops_each(m.rows, *v, m.selection.subrange(0, 0)) =~= body);
        while k < editor.selection.len()
            invariant
                editor.wf(),
                m == editor@,
                k <= editor.selection.len(),
                shown(out@) == body + mark_ops_each(
                    m.rows,
                    *v,
                    m.selection.subrange(0, k as int),
                ),
            decreases editor.selection.len() - k,
        {
            assert(m.selection.subrange(0, k + 1).drop_last() =~= m.selection.subrange(
                0,
                k as int,
            ));
            editor.scene.draw_mark(&mut out, v, editor.selection[k]);
            k += 1;
            assert(shown(out@) =~= body + mark_ops_each(
                m.rows,
                *v,
                m.selection.subrange(0, k as int),
            ));
        }
        assert(m.selection.subrange(0, k as int) =~= m.selection);
        let ghost marked = shown(out@);
        let zero = S::of_int(0);
        if let Some(x) = self.guides.0 {
            let at = v.to_screen(Point { x, y: zero }).x;
            let line = segment_shape(Point { x: at, y: zero }, Point { x: at, y: v.size.1 });
            put(&mut out, DrawOp::Stroke(line, selection_blue(), S::of_int(1)));
        }
        if let Some(y) = self.guides.1 {
            let at = v.to_screen(Point { x: zero, y }).y;
            let line = segment_shape(Point { x: zero, y: at }, Point { x: v.size.0, y: at });
            put(&mut out, DrawOp::Stroke(line, selection_blue(), S::of_int(1)));
        }
        assert(shown(out@) =~= marked + guide_ops(*v, self.guides));
        if let Some(b) = self.band {
            put(
                &mut out,
                DrawOp::Fill(
                    rect_shape(b.0, b.1, b.2, b.3),
                    selection_blue().with_alpha(ratio(10, 100)),
                ),
            );
            put(&mut out, DrawOp::Dashed(rect_shape(b.0, b.1, b.2, b.3), selection_blue()));
        }
        assert(shown(out@) =~= scene_ops(m, self.viewport, self.guides, self.band));
        out
    }
}

proof fn no_ops_without_steps<S: Scalar>(rows: Seq<NodeModel<S>>, ids: Seq<u64>)
    ensures
        node_ops_each(rows, ids, 0) == Seq::<DrawModel<S>>::empty(),
    decreases ids.len(),
{
    if ids.len() > 0 {
        no_ops_without_steps(rows, ids.drop_last());
        assert(node_ops(rows, ids.last(), 0) == Seq::<DrawModel<S>>::empty());
        assert(node_ops_each(rows, ids, 0) =~= Seq::<DrawModel<S>>::empty());
    }
}

} // verus!
