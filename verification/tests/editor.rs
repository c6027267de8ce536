//! The editor as a whole: operations on a drawing, each one turn of an undo history kept by
//! `day_model`, with the numbers of the machine.
use day_model::{ApplyField, Identified, Key, Keyed, Op, Store, UndoStack};
use day_sketch::canvas::{Canvas, ClickSource, Drag, DragPhase, Modifiers};
use day_sketch::clipboard::{drawing_content, drawing_type};
use day_sketch::color::{to_hex, Color};
use day_sketch::geometry::{
    convex_overlap, corner_points, line_dragged, point_in_convex, resized_under_rotation, Corner,
    Handle, LineEnd, Point,
};
use day_sketch::draw::{DrawOp, PathOp};
use day_sketch::hit::corners_on_screen;
use day_sketch::images::{initial_frame, ImageCache};
use day_sketch::inspector::{retarget, Prop, StyleColor, StyleNum, Tab};
use day_sketch::layers::Arrange;
use day_sketch::node::{Node, NodeKind};
use day_sketch::ops::{placing_label, Editor};
use day_sketch::scalar::{Letters, Scalar};
use day_sketch::scene::{Field, Scene};
use day_sketch::transfer::{Intake, Verdict};
use day_sketch::turn::Edit;
use std::any::Any;
use std::cell::RefCell;
use std::rc::Rc;

// ---------------------------------------------------------------------------
// The machine's numbers
// ---------------------------------------------------------------------------

#[derive(Clone, Copy, Debug)]
struct Real(f64);

impl Scalar for Real {
    fn of_int(n: i64) -> Real {
        Real(n as f64)
    }
    fn plus(self, other: Real) -> Real {
        Real(self.0 + other.0)
    }
    fn minus(self, other: Real) -> Real {
        Real(self.0 - other.0)
    }
    fn times(self, other: Real) -> Real {
        Real(self.0 * other.0)
    }
    fn over(self, other: Real) -> Real {
        Real(self.0 / other.0)
    }
    fn negated(self) -> Real {
        Real(-self.0)
    }
    fn magnitude(self) -> Real {
        Real(self.0.abs())
    }
    fn lesser(self, other: Real) -> Real {
        Real(self.0.min(other.0))
    }
    fn greater(self, other: Real) -> Real {
        Real(self.0.max(other.0))
    }
    fn highest() -> Real {
        Real(f64::MAX)
    }
    fn lowest() -> Real {
        Real(f64::MIN)
    }
    fn below(self, other: Real) -> bool {
        self.0 < other.0
    }
    fn ranks_below(self, other: Real) -> bool {
        self.0 < other.0 || (self.0.is_nan() && !other.0.is_nan())
    }
    fn at_most(self, other: Real) -> bool {
        self.0 <= other.0
    }
    fn equals(self, other: Real) -> bool {
        self.0 == other.0
    }
    fn same(self, other: Real) -> bool {
        self.0.to_bits() == other.0.to_bits()
    }
    fn finite(self) -> bool {
        self.0.is_finite()
    }
    fn wrapped(self, period: Real) -> Real {
        Real(self.0.rem_euclid(period.0))
    }
    fn sine_cosine(self) -> (Real, Real) {
        let (s, c) = self.0.to_radians().sin_cos();
        (Real(s), Real(c))
    }
    fn hypotenuse(self, other: Real) -> Real {
        Real(self.0.hypot(other.0))
    }
    fn signed_like(self, other: Real) -> Real {
        Real(self.0.copysign(other.0))
    }
    fn rounded(self) -> Real {
        Real(self.0.round())
    }
    fn whole(self) -> bool {
        self.0.fract() == 0.0
    }
    fn to_int(self) -> i64 {
        self.0 as i64
    }
    fn text(self) -> String {
        format!("{}", self.0)
    }
    fn tenth_text(self) -> String {
        format!("{:.1}", self.0)
    }
    fn of_text(text: &str) -> Option<Real> {
        text.parse().ok().map(Real)
    }
    fn of_int_spec(n: i64) -> Real {
        Real::of_int(n)
    }
    fn plus_spec(self, other: Real) -> Real {
        self.plus(other)
    }
    fn minus_spec(self, other: Real) -> Real {
        self.minus(other)
    }
    fn times_spec(self, other: Real) -> Real {
        self.times(other)
    }
    fn over_spec(self, other: Real) -> Real {
        self.over(other)
    }
    fn negated_spec(self) -> Real {
        self.negated()
    }
    fn magnitude_spec(self) -> Real {
        self.magnitude()
    }
    fn lesser_spec(self, other: Real) -> Real {
        self.lesser(other)
    }
    fn greater_spec(self, other: Real) -> Real {
        self.greater(other)
    }
    fn highest_spec() -> Real {
        Real::highest()
    }
    fn lowest_spec() -> Real {
        Real::lowest()
    }
    fn below_spec(self, other: Real) -> bool {
        self.below(other)
    }
    fn ranks_below_spec(self, other: Real) -> bool {
        self.ranks_below(other)
    }
    fn at_most_spec(self, other: Real) -> bool {
        self.at_most(other)
    }
    fn equals_spec(self, other: Real) -> bool {
        self.equals(other)
    }
    fn finite_spec(self) -> bool {
        self.finite()
    }
    fn wrapped_spec(self, period: Real) -> Real {
        self.wrapped(period)
    }
    fn sine_cosine_spec(self) -> (Real, Real) {
        self.sine_cosine()
    }
    fn hypotenuse_spec(self, other: Real) -> Real {
        self.hypotenuse(other)
    }
    fn signed_like_spec(self, other: Real) -> Real {
        self.signed_like(other)
    }
    fn rounded_spec(self) -> Real {
        self.rounded()
    }
    fn whole_spec(self) -> bool {
        self.whole()
    }
    fn to_int_spec(self) -> i64 {
        self.to_int()
    }
    fn text_spec(self) -> Letters {
        unreachable!("texts are made by `text`")
    }
    fn tenth_text_spec(self) -> Letters {
        unreachable!("texts are made by `tenth_text`")
    }
    fn of_text_spec(_: Letters) -> Option<Real> {
        unreachable!("texts are read by `of_text`")
    }
    fn ranks(_: Real, _: Real, _: Real) {}
    fn reads_back(self) {}
    fn stays_in_range(self) {}
}

fn pt(x: f64, y: f64) -> Point<Real> {
    Point { x: Real(x), y: Real(y) }
}

fn quad(f: (Real, Real, Real, Real)) -> (f64, f64, f64, f64) {
    (f.0 .0, f.1 .0, f.2 .0, f.3 .0)
}

fn real4(f: (f64, f64, f64, f64)) -> (Real, Real, Real, Real) {
    (Real(f.0), Real(f.1), Real(f.2), Real(f.3))
}

// ---------------------------------------------------------------------------
// A document: an editor over rows whose history is an undo stack
// ---------------------------------------------------------------------------

const COLUMNS: [&str; 15] = [
    "parent", "z", "kind", "x", "y", "w", "h", "fill", "fill_opacity", "stroke", "stroke_width",
    "stroke_opacity", "rotation", "corner_radius", "image_bytes",
];

#[derive(Clone, Debug, PartialEq)]
enum Value {
    Parent(Option<u64>),
    Num(f64),
    Kind(NodeKind),
    Text(String),
    Bytes(Vec<u8>),
}

impl Value {
    fn num(&self) -> Real {
        match self {
            Value::Num(v) => Real(*v),
            other => panic!("no number: {other:?}"),
        }
    }
    fn text(&self) -> String {
        match self {
            Value::Text(v) => v.clone(),
            other => panic!("no text: {other:?}"),
        }
    }
}

#[derive(Clone, Debug, PartialEq)]
struct Row {
    id: u64,
    columns: Vec<Value>,
}

impl Identified for Row {
    fn key(&self) -> Key {
        Key::U64(self.id)
    }
}

impl ApplyField for Row {
    fn apply_field(&mut self, label: &str, value: &dyn Any) -> bool {
        match (COLUMNS.iter().position(|c| *c == label), value.downcast_ref::<Value>()) {
            (Some(i), Some(v)) => {
                self.columns[i] = v.clone();
                true
            }
            _ => false,
        }
    }
    fn read_field(&self, label: &str) -> Option<Rc<dyn Any>> {
        let i = COLUMNS.iter().position(|c| *c == label)?;
        Some(Rc::new(self.columns[i].clone()))
    }
}

#[derive(Clone, Debug, PartialEq)]
struct Paper {
    background: String,
}

impl Identified for Paper {
    fn key(&self) -> Key {
        Key::U64(1)
    }
}

impl ApplyField for Paper {
    fn apply_field(&mut self, label: &str, value: &dyn Any) -> bool {
        match value.downcast_ref::<String>() {
            Some(v) if label == "background" => {
                self.background = v.clone();
                true
            }
            _ => false,
        }
    }
    fn read_field(&self, _label: &str) -> Option<Rc<dyn Any>> {
        Some(Rc::new(self.background.clone()))
    }
}

fn column(field: &Field<Real>) -> (usize, Value) {
    match field {
        Field::Parent(v) => (0, Value::Parent(*v)),
        Field::Z(v) => (1, Value::Num(v.0)),
        Field::Kind(v) => (2, Value::Kind(*v)),
        Field::X(v) => (3, Value::Num(v.0)),
        Field::Y(v) => (4, Value::Num(v.0)),
        Field::W(v) => (5, Value::Num(v.0)),
        Field::H(v) => (6, Value::Num(v.0)),
        Field::Fill(v) => (7, Value::Text(v.clone())),
        Field::FillOpacity(v) => (8, Value::Num(v.0)),
        Field::Stroke(v) => (9, Value::Text(v.clone())),
        Field::StrokeWidth(v) => (10, Value::Num(v.0)),
        Field::StrokeOpacity(v) => (11, Value::Num(v.0)),
        Field::Rotation(v) => (12, Value::Num(v.0)),
        Field::CornerRadius(v) => (13, Value::Num(v.0)),
        Field::ImageBytes(v) => (14, Value::Bytes(v.clone())),
    }
}

fn row_of(n: &Node<Real>) -> Row {
    Row {
        id: n.id,
        columns: vec![
            Value::Parent(n.parent),
            Value::Num(n.z.0),
            Value::Kind(n.kind),
            Value::Num(n.x.0),
            Value::Num(n.y.0),
            Value::Num(n.w.0),
            Value::Num(n.h.0),
            Value::Text(n.fill.clone()),
            Value::Num(n.fill_opacity.0),
            Value::Text(n.stroke.clone()),
            Value::Num(n.stroke_width.0),
            Value::Num(n.stroke_opacity.0),
            Value::Num(n.rotation.0),
            Value::Num(n.corner_radius.0),
            Value::Bytes(n.image_bytes.clone()),
        ],
    }
}

fn node_of(r: &Row) -> Node<Real> {
    let c = &r.columns;
    Node {
        id: r.id,
        parent: match &c[0] {
            Value::Parent(p) => *p,
            other => panic!("no parent: {other:?}"),
        },
        z: c[1].num(),
        kind: match &c[2] {
            Value::Kind(k) => *k,
            other => panic!("no kind: {other:?}"),
        },
        x: c[3].num(),
        y: c[4].num(),
        w: c[5].num(),
        h: c[6].num(),
        fill: c[7].text(),
        fill_opacity: c[8].num(),
        stroke: c[9].text(),
        stroke_width: c[10].num(),
        stroke_opacity: c[11].num(),
        rotation: c[12].num(),
        corner_radius: c[13].num(),
        image_bytes: match &c[14] {
            Value::Bytes(b) => b.clone(),
            other => panic!("no bytes: {other:?}"),
        },
    }
}

struct Doc {
    e: Editor<Real>,
    canvas: Canvas<Real>,
    settled: Scene<Real>,
    store: Store<Keyed<Row>>,
    paper: Store<Keyed<Paper>>,
    stack: UndoStack,
    mirror: Rc<RefCell<Vec<u64>>>,
    sql: Vec<String>,
}

fn test_doc() -> Doc {
    let store = Store::new(Keyed::new(Vec::<Row>::new()));
    let paper = Store::new(Keyed::new(vec![Paper { background: "#FFFFFF".into() }]));
    let stack = UndoStack::new(1000);
    stack.watch(store);
    stack.watch(paper);
    let mirror: Rc<RefCell<Vec<u64>>> = Rc::new(RefCell::new(Vec::new()));
    let (capture, restore) = (mirror.clone(), mirror.clone());
    stack.set_transient_context(
        move || Rc::new(capture.borrow().clone()),
        move |ctx| {
            if let Some(sel) = ctx.downcast_ref::<Vec<u64>>() {
                *restore.borrow_mut() = sel.clone();
            }
        },
    );
    Doc {
        e: Editor::empty(),
        canvas: Canvas::fresh(),
        settled: Scene::empty(),
        store,
        paper,
        stack,
        mirror,
        sql: Vec::new(),
    }
}

impl Doc {
    /// Records what has changed since the last turn as one unit.
    fn settle(&mut self, label: &'static str) {
        *self.mirror.borrow_mut() = self.e.selection.clone();
        let edits = self.settled.edits(&self.e.scene);
        let (store, paper) = (self.store, self.paper);
        let mut deleted = 0;
        let mut updates: Vec<(u64, Vec<&'static str>)> = Vec::new();
        self.stack.grouped(label, || {
            for edit in edits {
                match edit {
                    Edit::Insert(n) => {
                        self.sql.push("INSERT INTO nodes".to_string());
                        let row = row_of(&n);
                        store.restructure(label, Op::Insert, n.id, move |k| k.push(row));
                    }
                    Edit::Delete(n) => {
                        deleted += 1;
                        store.restructure(label, Op::Delete, n.id, move |k| {
                            k.remove(n.id);
                        });
                    }
                    Edit::Write { id, was: _, now } => {
                        let (i, v) = column(&now);
                        match updates.iter_mut().find(|u| u.0 == id) {
                            Some(u) => u.1.push(COLUMNS[i]),
                            None => updates.push((id, vec![COLUMNS[i]])),
                        }
                        assert!(store.write_field(id, COLUMNS[i], v));
                    }
                    Edit::Background { old_paper: _, new_paper } => {
                        assert!(paper.write_field(1u64, "background", new_paper));
                    }
                }
            }
        });
        if deleted > 0 {
            self.sql.push(format!(
                "DELETE FROM nodes WHERE id IN ({})",
                vec!["?"; deleted].join(", ")
            ));
        }
        for (_, columns) in updates {
            let sets: Vec<String> = columns.iter().map(|c| format!("{c} = ?")).collect();
            self.sql.push(format!("UPDATE nodes SET {} WHERE id = ?", sets.join(", ")));
        }
        self.settled = self.e.scene.replica();
    }

    fn turn<R>(&mut self, label: &'static str, f: impl FnOnce(&mut Editor<Real>) -> R) -> R {
        let r = f(&mut self.e);
        self.settle(label);
        r
    }

    fn sql_of(&mut self, f: impl FnOnce(&mut Doc)) -> Vec<String> {
        self.sql.clear();
        f(self);
        std::mem::take(&mut self.sql)
    }

    fn reload(&mut self) {
        let nodes: Vec<Node<Real>> =
            self.store.with_untracked(|k| k.items().iter().map(node_of).collect());
        let background = self.paper.with_untracked(|k| k.items()[0].background.clone());
        self.e.scene = Scene::load(nodes, Some(background)).ok().expect("distinct ids");
        self.e.selection = self.mirror.borrow().clone();
        self.settled = self.e.scene.replica();
    }

    fn undo(&mut self) -> bool {
        let r = self.stack.undo();
        self.reload();
        r
    }

    fn redo(&mut self) -> bool {
        let r = self.stack.redo();
        self.reload();
        r
    }

    fn can_undo(&self) -> bool {
        self.stack.can_undo().get_untracked()
    }

    fn place_shape(&mut self, kind: NodeKind, x: f64, y: f64) -> u64 {
        self.turn(placing_label(kind), |e| e.scene.place_shape(kind, Real(x), Real(y)))
    }

    fn place_image(&mut self, bytes: Vec<u8>, f: (f64, f64, f64, f64)) -> u64 {
        self.turn("add-image", |e| e.scene.place_image(bytes, real4(f)))
    }

    fn write(&mut self, id: u64, field: Field<Real>) {
        self.turn("write", |e| e.scene.write(id, field));
    }

    fn group(&mut self) {
        self.turn("group", |e| e.group_selection());
    }

    fn arrange(&mut self, op: Arrange) {
        self.turn("arrange", |e| e.arrange_selection(op));
    }

    fn reparent(&mut self, id: u64, parent: Option<u64>, index: Option<usize>) {
        self.turn("reparent", |e| e.scene.reparent(id, parent, index));
    }

    fn paste(&mut self, text: &str) {
        assert!(self.e.has_room(text));
        self.turn("paste", |e| e.paste_text(text));
    }

    fn duplicate(&mut self) {
        assert!(self.turn("duplicate", |e| e.duplicate_selection()));
    }

    fn set_rotation(&mut self, id: u64, angle: f64) {
        self.turn("style", |e| e.scene.set_rotation(id, Real(angle)));
    }

    fn select(&mut self, ids: &[u64]) {
        self.e.selection = ids.to_vec();
    }

    fn selection(&self) -> Vec<u64> {
        self.e.selection.clone()
    }

    fn children_of(&self, parent: Option<u64>) -> Vec<u64> {
        self.e.scene.children_of(parent)
    }

    fn parent_of(&self, id: u64) -> Option<u64> {
        self.e.scene.parent_of(id)
    }

    fn bounds(&self, id: u64) -> Option<(f64, f64, f64, f64)> {
        self.e.scene.node_bounds(id).map(quad)
    }

    fn has(&self, id: u64) -> bool {
        self.e.scene.find(id).is_some()
    }

    fn n(&self, id: u64) -> &Node<Real> {
        let i = self.e.scene.find(id).expect("the node is there");
        &self.e.scene.nodes[i]
    }

    fn len(&self) -> usize {
        self.e.scene.nodes.len()
    }

    fn select_at(&mut self, x: f64, y: f64, mods: Modifiers) {
        self.e.select_at(pt(x, y), self.canvas.viewport.zoom, mods);
    }

    fn drill_at(&mut self, x: f64, y: f64) -> bool {
        self.e.drill_at(pt(x, y), self.canvas.viewport.zoom)
    }

    fn hit_handle(&self, x: f64, y: f64) -> Option<(u64, Handle)> {
        self.e.scene.hit_handle(&self.e.selection, &self.canvas.viewport, pt(x, y))
    }

    fn line_ends(&self, id: u64) -> ((f64, f64), (f64, f64)) {
        let (a, b) = self.e.scene.line_ends(id);
        ((a.x.0, a.y.0), (b.x.0, b.y.0))
    }

    fn drag(&mut self, phase: DragPhase, from: (f64, f64), to: (f64, f64), mods: Modifiers) {
        let drag = Drag {
            phase,
            location: pt(to.0, to.1),
            translation: pt(to.0 - from.0, to.1 - from.1),
        };
        if let Some(label) = self.canvas.on_drag(&mut self.e, drag, mods, None) {
            self.settle(label);
        }
    }

    /// Press at `from`, move to `to`, release there: screen coordinates.
    fn sweep_gesture(&mut self, from: (f64, f64), to: (f64, f64), mods: Modifiers) {
        self.drag(DragPhase::Began, from, from, mods);
        self.drag(DragPhase::Changed, from, to, mods);
        self.drag(DragPhase::Ended, from, to, mods);
    }

    /// A whole drag in several moves, and the statements it comes to.
    fn drag_sql(&mut self, from: (f64, f64), to: (f64, f64)) -> Vec<String> {
        self.sql_of(|d| {
            d.drag(DragPhase::Began, from, from, plain());
            for i in 1..=8 {
                let f = i as f64 / 8.0;
                let p = (from.0 + (to.0 - from.0) * f, from.1 + (to.1 - from.1) * f);
                d.drag(DragPhase::Changed, from, p, plain());
            }
            d.drag(DragPhase::Ended, from, to, plain());
        })
    }

    fn band(&self) -> Option<(f64, f64, f64, f64)> {
        self.canvas.band.map(quad)
    }

    fn rect_at(&mut self, x: f64, y: f64, w: f64, h: f64) -> u64 {
        let id = self.place_shape(NodeKind::Rect, x, y);
        self.write(id, Field::W(Real(w)));
        self.write(id, Field::H(Real(h)));
        id
    }

    fn turned(&mut self, degrees: f64) -> u64 {
        let id = self.place_shape(NodeKind::Rect, 0.0, 0.0);
        self.write(id, Field::Rotation(Real(degrees)));
        self.select(&[id]);
        id
    }

    fn corner(&self, id: u64, want: Corner) -> (f64, f64) {
        let b = self.e.scene.node_bounds(id).expect("a shape has bounds");
        let pts = corners_on_screen(&self.canvas.viewport, b, self.e.scene.drawn_rotation(id));
        let p = pts.iter().find(|(c, _)| *c == want).expect("four corners").1;
        (p.x.0, p.y.0)
    }

    fn pair_group(&mut self) -> (u64, u64, u64) {
        let a = self.rect_at(0.0, 0.0, 40.0, 40.0);
        let b = self.rect_at(160.0, 0.0, 40.0, 40.0);
        self.select(&[a, b]);
        self.group();
        (self.selection()[0], a, b)
    }

    fn centre(&self, id: u64) -> (f64, f64) {
        let n = self.n(id);
        (n.x.0 + n.w.0 / 2.0, n.y.0 + n.h.0 / 2.0)
    }

    fn key(&mut self, name: &str, owns_delete: bool) {
        if let Some(label) = self.e.canvas_key(name, false, owns_delete) {
            self.settle(label);
        }
    }

    fn commit_prop(&mut self, prop: Prop, text: &str) {
        if let Some(label) = self.e.commit_prop(prop, text) {
            self.settle(label);
        }
    }

    fn commit_style(&mut self, num: StyleNum, v: f64) {
        if let Some(label) = self.e.set_style(num, Real(v)) {
            self.settle(label);
        }
    }

    fn commit_percent(&mut self, text: &str) {
        if let Some(label) = self.e.commit_percent(StyleNum::FillOpacity, text) {
            self.settle(label);
        }
    }
}

fn plain() -> Modifiers {
    Modifiers { shift: false, primary: false, alt: false }
}

fn shift() -> Modifiers {
    Modifiers { shift: true, ..plain() }
}

fn near(got: (f64, f64), want: (f64, f64)) {
    assert!(
        (got.0 - want.0).abs() < 0.001 && (got.1 - want.1).abs() < 0.001,
        "got {got:?}, want {want:?}"
    );
}

// ---------------------------------------------------------------------------
// The scene and its operations
// ---------------------------------------------------------------------------

#[test]
fn shift_tap_toggles_membership_and_plain_tap_replaces() {
    let mut d = test_doc();
    let a = d.place_shape(NodeKind::Rect, 0.0, 0.0);
    let b = d.place_shape(NodeKind::Rect, 200.0, 0.0);
    d.select_at(10.0, 10.0, plain());
    assert_eq!(d.selection(), vec![a]);
    d.select_at(210.0, 10.0, shift());
    assert_eq!(d.selection(), vec![a, b], "shift adds");
    d.select_at(10.0, 10.0, shift());
    assert_eq!(d.selection(), vec![b], "shift on a member removes it");
    d.select_at(10.0, 10.0, plain());
    assert_eq!(d.selection(), vec![a], "plain replaces");
    let primary = Modifiers { primary: true, ..plain() };
    d.select_at(210.0, 10.0, primary);
    assert_eq!(d.selection(), vec![a, b]);
}

#[test]
fn select_all_selects_top_level_nodes_in_z_order() {
    let mut d = test_doc();
    let a = d.place_shape(NodeKind::Rect, 0.0, 0.0);
    let b = d.place_shape(NodeKind::Oval, 50.0, 0.0);
    d.select(&[b]);
    d.arrange(Arrange::Bottom);
    d.e.select_all();
    assert_eq!(d.selection(), vec![b, a], "bottom to top order");
}

#[test]
fn nudging_moves_the_selection_as_one_undo_unit_each() {
    let mut d = test_doc();
    let a = d.place_shape(NodeKind::Rect, 40.0, 40.0);
    d.select(&[a]);
    d.turn("move", |e| e.nudge_selection(Real(1.0), Real(0.0)));
    d.turn("move", |e| e.nudge_selection(Real(0.0), Real(10.0)));
    assert_eq!((d.n(a).x.0, d.n(a).y.0), (41.0, 50.0));
    assert!(d.undo());
    assert_eq!((d.n(a).x.0, d.n(a).y.0), (41.0, 40.0), "one unit per nudge");
    assert!(d.undo());
    assert_eq!((d.n(a).x.0, d.n(a).y.0), (40.0, 40.0));
}

#[test]
fn arranging_reruns_tracked_draw_order_immediately() {
    let mut d = test_doc();
    let a = d.place_shape(NodeKind::Rect, 0.0, 0.0);
    let b = d.place_shape(NodeKind::Rect, 10.0, 0.0);
    assert_eq!(d.children_of(None), vec![a, b]);
    d.select(&[a]);
    d.arrange(Arrange::Top);
    assert_eq!(d.children_of(None), vec![b, a], "a plain z write reorders at once");
}

#[test]
fn undo_restores_the_selection_each_unit_sealed_with() {
    let mut d = test_doc();
    let a = d.place_shape(NodeKind::Rect, 0.0, 0.0);
    let b = d.place_shape(NodeKind::Rect, 100.0, 0.0);
    d.select(&[a]);
    d.turn("move", |e| e.nudge_selection(Real(10.0), Real(0.0)));
    d.select(&[b]);
    d.turn("move", |e| e.nudge_selection(Real(10.0), Real(0.0)));

    assert!(d.undo());
    assert_eq!(d.selection(), vec![a]);
    assert_eq!(d.n(b).x.0, 100.0);

    assert!(d.redo());
    assert_eq!(d.selection(), vec![b]);
    assert_eq!(d.n(b).x.0, 110.0);

    d.select(&[a, b]);
    assert!(d.undo());
    assert_eq!(d.selection(), vec![a]);

    while d.undo() {}
    assert!(d.selection().is_empty());
}

#[test]
fn copy_paste_round_trips_as_svg() {
    let mut d = test_doc();
    let a = d.place_shape(NodeKind::Rect, 10.0, 20.0);
    let b = d.place_shape(NodeKind::Oval, 100.0, 50.0);
    d.select(&[a, b]);

    let svg = d.e.selection_to_svg().expect("selection serializes");
    assert!(svg.starts_with("<svg xmlns=\"http://www.w3.org/2000/svg\""), "{svg}");
    assert!(svg.contains("<rect x=\"10\" y=\"20\" width=\"96\" height=\"64\""), "{svg}");
    assert!(svg.contains("<ellipse cx=\"148\" cy=\"82\" rx=\"48\" ry=\"32\""), "{svg}");

    d.paste(&svg);
    assert_eq!(d.len(), 4);
    let sel = d.selection();
    assert_eq!(sel.len(), 2, "pasted nodes are the selection: {sel:?}");
    let p = d.n(sel[0]);
    assert_eq!((p.x.0, p.y.0), (26.0, 36.0));
    assert_eq!(p.kind, NodeKind::Rect);
    assert_eq!(p.fill, d.n(a).fill);
    let q = d.n(sel[1]);
    assert_eq!(q.kind, NodeKind::Oval);
    assert_eq!((q.x.0, q.y.0), (116.0, 66.0));

    d.paste(&svg);
    assert_eq!(d.len(), 6);
    let again = d.selection();
    assert_eq!(d.n(again[0]).x.0, 42.0, "+32 on the repeat");
    assert!(d.undo());
    assert_eq!(d.len(), 4);
}

#[test]
fn style_attributes_round_trip_as_svg_and_default_when_absent() {
    let mut d = test_doc();
    let a = d.place_shape(NodeKind::Rect, 10.0, 20.0);
    d.write(a, Field::FillOpacity(Real(0.5)));
    d.write(a, Field::Stroke("#112233".into()));
    d.write(a, Field::StrokeWidth(Real(3.0)));
    d.write(a, Field::StrokeOpacity(Real(0.8)));
    d.select(&[a]);

    let svg = d.e.selection_to_svg().expect("serializes");
    assert!(svg.contains("fill-opacity=\"0.5\""), "{svg}");
    assert!(svg.contains("stroke=\"#112233\""), "{svg}");
    assert!(svg.contains("stroke-width=\"3\""), "{svg}");
    assert!(svg.contains("stroke-opacity=\"0.8\""), "{svg}");

    d.paste(&svg);
    let p = d.n(d.selection()[0]);
    assert_eq!(p.fill_opacity.0, 0.5);
    assert_eq!(p.stroke, "#112233");
    assert_eq!(p.stroke_width.0, 3.0);
    assert_eq!(p.stroke_opacity.0, 0.8);

    d.paste(r##"<svg><rect x="0" y="0" width="30" height="30"/></svg>"##);
    let q = d.n(d.selection()[0]);
    assert_eq!(q.fill_opacity.0, 1.0);
    assert_eq!(q.stroke, "#000000");
    assert_eq!(q.stroke_width.0, 1.0);
    assert_eq!(q.stroke_opacity.0, 0.35);
}

#[test]
fn cut_serializes_then_deletes_as_one_unit() {
    let mut d = test_doc();
    let a = d.place_shape(NodeKind::Rect, 30.0, 40.0);
    d.select(&[a]);
    let svg = d.turn("cut", |e| e.cut_selection_svg()).expect("cut yields the payload");
    assert!(svg.contains("<rect x=\"30\" y=\"40\""), "{svg}");
    assert_eq!(d.len(), 0);
    assert!(d.undo(), "one step brings it back");
    assert_eq!(d.len(), 1);
}

#[test]
fn grouped_shapes_travel_as_svg_groups() {
    let mut d = test_doc();
    let a = d.place_shape(NodeKind::Rect, 0.0, 0.0);
    let b = d.place_shape(NodeKind::Oval, 50.0, 10.0);
    d.select(&[a, b]);
    d.group();

    let svg = d.e.selection_to_svg().expect("group serializes");
    assert!(svg.contains("<g><rect"), "group wraps its children: {svg}");

    d.paste(&svg);
    let sel = d.selection();
    let [gid] = sel.as_slice() else {
        panic!("one pasted top-level group: {sel:?}");
    };
    assert_eq!(d.n(*gid).kind, NodeKind::Group);
    assert_eq!(d.children_of(Some(*gid)).len(), 2);
    assert_eq!(
        d.bounds(*gid),
        Some((16.0, 16.0, 146.0, 74.0)),
        "children landed +16 from the original union"
    );
}

#[test]
fn foreign_svg_fragments_paste_as_shapes() {
    let mut d = test_doc();
    let svg = r##"<?xml version="1.0"?>
            <!-- exported elsewhere -->
            <svg xmlns="http://www.w3.org/2000/svg" width="200" height="200">
              <desc>two shapes</desc>
              <path d="M0 0 L10 10"/>
              <circle cx="60" cy="60" r="25" fill="#f00"/>
              <rect x="5.5" y="6.5" width="40px" height="30" fill='#00FF00'/>
            </svg>"##;
    d.paste(svg);
    assert_eq!(d.len(), 2, "path/desc skipped");
    let sel = d.selection();
    let circle = d.n(sel[0]);
    assert_eq!(circle.kind, NodeKind::Oval);
    assert_eq!(
        (circle.x.0, circle.y.0, circle.w.0),
        (51.0, 51.0, 50.0),
        "circle to oval at cx-r+16"
    );
    assert_eq!(circle.fill, "#FF0000");
    let rect = d.n(sel[1]);
    assert_eq!((rect.x.0, rect.y.0), (21.5, 22.5));
    assert_eq!(rect.fill, "#00FF00");
}

#[test]
fn placing_a_shape_is_one_insert_and_one_undo_unit() {
    let mut d = test_doc();
    let sql = d.sql_of(|d| {
        d.place_shape(NodeKind::Rect, 10.0, 20.0);
    });
    assert_eq!(sql.len(), 1, "{sql:?}");
    assert!(sql[0].starts_with("INSERT INTO nodes"));
    assert!(d.undo(), "one step removes it");
    assert_eq!(d.len(), 0);
    assert!(d.redo());
    assert_eq!(d.len(), 1);
}

#[test]
fn a_resize_storm_is_one_unit_and_one_update() {
    let mut d = test_doc();
    let id = d.place_shape(NodeKind::Rect, 0.0, 0.0);
    let sql = d.sql_of(|d| {
        for i in 1..=60 {
            let f = i as f64;
            d.e.scene.write(id, Field::X(Real(f)));
            d.e.scene.write(id, Field::Y(Real(f)));
            d.e.scene.write(id, Field::W(Real(96.0 + f)));
            d.e.scene.write(id, Field::H(Real(64.0 + f)));
        }
        d.turn("resize", |e| {
            e.scene.write(id, Field::X(Real(30.0)));
            e.scene.write(id, Field::Y(Real(40.0)));
            e.scene.write(id, Field::W(Real(120.0)));
            e.scene.write(id, Field::H(Real(80.0)));
        });
    });
    assert_eq!(
        sql,
        ["UPDATE nodes SET x = ?, y = ?, w = ?, h = ? WHERE id = ?"],
        "sixty frames, one UPDATE of four columns"
    );
    assert!(d.undo(), "and one undo unit");
    assert_eq!(d.n(id).x.0, 0.0);
    assert_eq!(d.n(id).w.0, 96.0);
    assert!(!d.can_undo() || d.undo());
}

#[test]
fn deleting_a_group_flushes_as_one_statement() {
    let mut d = test_doc();
    let mut ids = Vec::new();
    for i in 0..4 {
        ids.push(d.place_shape(NodeKind::Rect, i as f64 * 10.0, 0.0));
    }
    d.select(&ids);
    d.group();
    let gid = d.selection()[0];
    let sql = d.sql_of(|d| {
        d.select(&[gid]);
        d.turn("delete", |e| e.delete_selection());
    });
    assert_eq!(d.len(), 0, "the subtree went");
    let deletes: Vec<&String> = sql.iter().filter(|s| s.starts_with("DELETE")).collect();
    assert_eq!(deletes.len(), 1, "{sql:?}");
    assert_eq!(deletes[0], "DELETE FROM nodes WHERE id IN (?, ?, ?, ?, ?)");
}

#[test]
fn drill_selects_one_level_deeper_per_repeat_click() {
    let mut d = test_doc();
    let a = d.place_shape(NodeKind::Rect, 0.0, 0.0);
    let b = d.place_shape(NodeKind::Rect, 200.0, 0.0);
    d.select(&[a, b]);
    d.group();
    let g1 = d.selection()[0];
    let c = d.place_shape(NodeKind::Rect, 400.0, 0.0);
    d.select(&[g1, c]);
    d.group();
    let g2 = d.selection()[0];

    d.select(&[g2]);
    assert!(d.drill_at(10.0, 10.0));
    assert_eq!(d.selection(), vec![g1]);
    assert!(d.drill_at(10.0, 10.0));
    assert_eq!(d.selection(), vec![a]);
    assert!(d.drill_at(10.0, 10.0), "a repeat on the leaf holds it");
    assert_eq!(d.selection(), vec![a]);

    d.select(&[g1]);
    assert!(!d.drill_at(410.0, 10.0));
    d.select(&[g2, c]);
    assert!(!d.drill_at(10.0, 10.0));
    d.select(&[g2]);
    assert!(!d.drill_at(4000.0, 4000.0));
}

#[test]
fn child_toward_and_is_within_walk_the_parent_chain() {
    let mut d = test_doc();
    let a = d.place_shape(NodeKind::Rect, 0.0, 0.0);
    let b = d.place_shape(NodeKind::Rect, 200.0, 0.0);
    d.select(&[a, b]);
    d.group();
    let g = d.selection()[0];
    let s = &d.e.scene;
    assert_eq!(s.child_toward(g, a), Some(a));
    assert_eq!(s.child_toward(a, g), None, "not an ancestor");
    assert_eq!(s.child_toward(g, g), None, "a node is not toward itself");
    assert_eq!(s.child_toward(g, b), Some(b));
    assert!(s.is_within(a, g));
    assert!(s.is_within(g, g));
    assert!(!s.is_within(g, a));
    assert!(!s.is_within(b, a));
    assert_eq!(s.top_level_ancestor(a), g);
    assert_eq!(s.top_level_ancestor(g), g);
}

#[test]
fn remove_from_group_moves_members_to_the_top_level_in_one_unit() {
    let mut d = test_doc();
    let a = d.place_shape(NodeKind::Rect, 0.0, 0.0);
    let b = d.place_shape(NodeKind::Rect, 100.0, 0.0);
    let c = d.place_shape(NodeKind::Rect, 200.0, 0.0);
    d.select(&[a, b, c]);
    d.group();
    let g = d.selection()[0];

    d.select(&[a, b, g]);
    d.turn("reparent", |e| e.remove_selection_from_group());
    assert_eq!(d.children_of(Some(g)), vec![c]);
    assert_eq!(d.children_of(None), vec![g, a, b], "out on top, in selection order");

    assert!(d.undo());
    assert_eq!(d.children_of(Some(g)), vec![a, b, c]);
    assert_eq!(d.children_of(None), vec![g]);

    d.select(&[g]);
    d.turn("reparent", |e| e.remove_selection_from_group());
    assert_eq!(d.children_of(None), vec![g]);
}

#[test]
fn duplicate_copies_in_place_and_selects_the_copies() {
    let mut d = test_doc();
    let a = d.place_shape(NodeKind::Rect, 40.0, 40.0);
    let before = d.len();
    d.select(&[a]);
    d.duplicate();
    assert_eq!(d.len(), before + 1);
    let sel = d.selection();
    assert_eq!(sel.len(), 1, "the COPY is selected");
    assert_ne!(sel[0], a);
    assert_eq!((d.n(sel[0]).x.0, d.n(sel[0]).y.0), (56.0, 56.0));
    assert!(d.undo());
    assert_eq!(d.len(), before);
}

#[test]
fn reparent_moves_across_parents_and_orders_by_drop_index() {
    let mut d = test_doc();
    let a = d.place_shape(NodeKind::Rect, 0.0, 0.0);
    let b = d.place_shape(NodeKind::Oval, 10.0, 0.0);
    let c = d.place_shape(NodeKind::Line, 20.0, 0.0);
    d.select(&[a, b]);
    d.group();
    let gid = d.selection()[0];
    assert_eq!(d.children_of(None), vec![gid, c]);

    d.reparent(c, Some(gid), None);
    assert_eq!(d.children_of(Some(gid)), vec![a, b, c]);
    assert_eq!(d.children_of(None), vec![gid]);

    d.reparent(c, Some(gid), Some(0));
    assert_eq!(d.children_of(Some(gid)), vec![c, a, b]);

    d.reparent(c, None, Some(0));
    assert_eq!(d.children_of(None), vec![c, gid]);
    assert_eq!(d.children_of(Some(gid)), vec![a, b]);

    assert!(d.undo());
    assert_eq!(d.children_of(Some(gid)), vec![c, a, b]);
    assert_eq!(d.children_of(None), vec![gid]);
    assert!(d.undo());
    assert_eq!(d.children_of(Some(gid)), vec![a, b, c]);
    assert!(d.undo());
    assert_eq!(d.children_of(None), vec![gid, c]);
    assert_eq!(d.children_of(Some(gid)), vec![a, b]);
}

#[test]
fn reparent_adjusts_a_same_parent_drop_past_its_own_slot() {
    let mut d = test_doc();
    let a = d.place_shape(NodeKind::Rect, 0.0, 0.0);
    let b = d.place_shape(NodeKind::Rect, 10.0, 0.0);
    let c = d.place_shape(NodeKind::Rect, 20.0, 0.0);
    d.reparent(a, None, Some(3));
    assert_eq!(d.children_of(None), vec![b, c, a]);
    d.reparent(a, None, Some(1));
    assert_eq!(d.children_of(None), vec![b, a, c]);
}

#[test]
fn reparent_refuses_itself_non_groups_and_its_own_subtree() {
    let mut d = test_doc();
    let a = d.place_shape(NodeKind::Rect, 0.0, 0.0);
    let b = d.place_shape(NodeKind::Rect, 10.0, 0.0);
    let c = d.place_shape(NodeKind::Rect, 20.0, 0.0);
    d.select(&[a, b]);
    d.group();
    let g1 = d.selection()[0];
    d.select(&[g1, c]);
    d.group();
    let g2 = d.selection()[0];

    d.reparent(g2, Some(g2), None);
    d.reparent(c, Some(a), None);
    d.reparent(g2, Some(g1), None);
    assert_eq!(d.children_of(None), vec![g2]);
    assert_eq!(d.children_of(Some(g2)), vec![g1, c]);
    assert_eq!(d.children_of(Some(g1)), vec![a, b]);
}

#[test]
fn deleting_a_group_cascades_to_its_whole_subtree() {
    let mut d = test_doc();
    let a = d.place_shape(NodeKind::Rect, 0.0, 0.0);
    let b = d.place_shape(NodeKind::Rect, 10.0, 0.0);
    d.select(&[a, b]);
    d.group();
    let gid = d.selection()[0];
    assert_eq!(d.children_of(Some(gid)), vec![a, b]);

    d.select(&[gid]);
    d.turn("delete", |e| e.delete_selection());
    assert!(!d.has(a), "child went with it");
    assert!(!d.has(b));
    assert!(!d.has(gid));
    assert_eq!(d.children_of(None), Vec::<u64>::new());

    assert!(d.undo());
    assert_eq!(d.children_of(None), vec![gid]);
    assert_eq!(d.children_of(Some(gid)), vec![a, b]);
}

#[test]
fn group_ungroup_round_trips_with_undo() {
    let mut d = test_doc();
    let a = d.place_shape(NodeKind::Rect, 0.0, 0.0);
    let b = d.place_shape(NodeKind::Oval, 50.0, 10.0);
    d.select(&[a, b]);
    d.group();
    let sel = d.selection();
    let [gid] = sel.as_slice() else {
        panic!("group selected after grouping: {sel:?}");
    };
    let gid = *gid;
    assert_eq!(d.n(gid).kind, NodeKind::Group);
    assert_eq!(d.parent_of(a), Some(gid));
    assert_eq!(d.children_of(None), vec![gid]);
    assert_eq!(
        d.bounds(gid),
        Some((0.0, 0.0, 146.0, 74.0)),
        "group bounds are the union of its shapes"
    );
    assert_eq!(d.e.open_groups, vec![gid], "a new group is shown open");

    assert!(d.undo());
    assert_eq!(d.parent_of(a), None);
    assert!(!d.has(gid));
    assert!(d.redo());
    assert_eq!(d.parent_of(a), Some(gid));

    d.select(&[gid]);
    d.turn("ungroup", |e| e.ungroup_selection());
    assert!(!d.has(gid));
    assert_eq!(d.parent_of(a), None);
    assert_eq!(d.selection(), vec![a, b]);
    assert!(d.undo(), "and ungroup undoes too");
    assert!(d.has(gid));
}

#[test]
fn arrange_moves_one_row_per_step() {
    let mut d = test_doc();
    let a = d.place_shape(NodeKind::Rect, 0.0, 0.0);
    let b = d.place_shape(NodeKind::Rect, 10.0, 0.0);
    let c = d.place_shape(NodeKind::Rect, 20.0, 0.0);
    assert_eq!(d.children_of(None), vec![a, b, c]);

    d.select(&[a]);
    d.arrange(Arrange::Up);
    assert_eq!(d.children_of(None), vec![b, a, c]);
    d.arrange(Arrange::Top);
    assert_eq!(d.children_of(None), vec![b, c, a]);
    d.arrange(Arrange::Bottom);
    assert_eq!(d.children_of(None), vec![a, b, c]);
    d.arrange(Arrange::Down);
    assert_eq!(d.children_of(None), vec![a, b, c], "already at the bottom: no-op");

    let mut undone = 0;
    while d.undo() {
        undone += 1;
    }
    assert_eq!(undone, 6, "three placements + three arranges");
    assert_eq!(d.children_of(None), Vec::<u64>::new());
}

#[test]
fn a_line_stores_signed_deltas_and_normalizes_its_frame() {
    let mut d = test_doc();
    let id = d.place_shape(NodeKind::Line, 100.0, 100.0);
    assert_eq!((d.n(id).w.0, d.n(id).h.0), (144.0, 0.0));
    assert_eq!(d.n(id).stroke_width.0, 2.0);
    assert_eq!(d.n(id).stroke_opacity.0, 1.0);

    d.write(id, Field::W(Real(-40.0)));
    d.write(id, Field::H(Real(-30.0)));
    assert_eq!(d.line_ends(id), ((100.0, 100.0), (60.0, 70.0)));
    assert_eq!(d.bounds(id), Some((60.0, 70.0, 40.0, 30.0)));

    let r = d.place_shape(NodeKind::Rect, 200.0, 200.0);
    d.select(&[id, r]);
    d.group();
    let gid = d.selection()[0];
    assert_eq!(d.bounds(gid), Some((60.0, 70.0, 236.0, 194.0)));
}

#[test]
fn a_line_round_trips_as_svg_with_its_direction() {
    let mut d = test_doc();
    let id = d.place_shape(NodeKind::Line, 100.0, 100.0);
    d.write(id, Field::W(Real(-40.0)));
    d.write(id, Field::H(Real(60.0)));
    d.write(id, Field::Stroke("#112233".into()));
    d.select(&[id]);

    let svg = d.e.selection_to_svg().expect("serializes");
    assert!(svg.contains(r#"<line x1="100" y1="100" x2="60" y2="160""#), "{svg}");
    assert!(!svg.contains("fill="), "a line has no fill: {svg}");

    d.paste(&svg);
    let p = d.n(d.selection()[0]);
    assert_eq!(p.kind, NodeKind::Line);
    assert_eq!((p.w.0, p.h.0), (-40.0, 60.0));
    assert_eq!(p.stroke, "#112233");

    d.paste(r##"<svg><line x1="0" y1="5" x2="80" y2="5"/></svg>"##);
    let q = d.n(d.selection()[0]);
    assert_eq!(q.kind, NodeKind::Line);
    assert_eq!((q.w.0, q.h.0), (80.0, 0.0));
}

#[test]
fn a_line_is_hit_near_the_segment_not_across_its_bounding_box() {
    let mut d = test_doc();
    let id = d.place_shape(NodeKind::Line, 0.0, 0.0);
    d.write(id, Field::W(Real(100.0)));
    d.write(id, Field::H(Real(100.0)));
    d.select_at(50.0, 52.0, plain());
    assert_eq!(d.selection(), vec![id], "on the segment");
    d.select_at(90.0, 10.0, plain());
    assert!(d.selection().is_empty(), "the box is not the shape");
}

#[test]
fn rotation_and_corner_radius_round_trip_as_svg() {
    let mut d = test_doc();
    let a = d.place_shape(NodeKind::Rect, 10.0, 20.0);
    d.write(a, Field::Rotation(Real(45.0)));
    d.write(a, Field::CornerRadius(Real(8.0)));
    d.select(&[a]);

    let svg = d.e.selection_to_svg().expect("serializes");
    assert!(svg.contains("rx=\"8\" ry=\"8\""), "{svg}");
    assert!(svg.contains("transform=\"rotate(45 58 52)\""), "{svg}");

    d.paste(&svg);
    let p = d.n(d.selection()[0]);
    assert_eq!(p.rotation.0, 45.0);
    assert_eq!(p.corner_radius.0, 8.0);

    d.paste(r##"<svg><rect x="0" y="0" width="30" height="30"/></svg>"##);
    let q = d.n(d.selection()[0]);
    assert_eq!(q.rotation.0, 0.0);
    assert_eq!(q.corner_radius.0, 0.0);
}

#[test]
fn a_rotated_shape_is_hit_where_it_is_drawn() {
    let mut d = test_doc();
    let a = d.place_shape(NodeKind::Rect, 0.0, 0.0);
    d.select_at(48.0, 60.0, plain());
    assert_eq!(d.selection(), vec![a], "inside upright");
    d.select_at(48.0, 75.0, plain());
    assert!(d.selection().is_empty(), "below upright");
    d.write(a, Field::Rotation(Real(90.0)));
    d.select_at(48.0, 75.0, plain());
    assert_eq!(d.selection(), vec![a], "inside once rotated");
}

#[test]
fn background_seeds_without_a_unit_and_edits_as_one() {
    let mut d = test_doc();
    assert_eq!(d.e.scene.background, "#FFFFFF", "seeded default");
    assert!(!d.can_undo(), "the seed is backfill, not history");
    d.turn("background", |e| e.set_background("#112233"));
    assert_eq!(d.e.scene.background, "#112233");
    assert!(d.undo());
    assert_eq!(d.e.scene.background, "#FFFFFF");
    assert!(d.redo());
    assert_eq!(d.e.scene.background, "#112233");
}

#[test]
fn moving_a_group_moves_its_shapes_as_one_unit() {
    let mut d = test_doc();
    let a = d.place_shape(NodeKind::Rect, 0.0, 0.0);
    let b = d.place_shape(NodeKind::Rect, 100.0, 0.0);
    d.select(&[a, b]);
    d.group();
    let sql = d.sql_of(|d| {
        for step in 1..=10 {
            for s in [a, b] {
                d.e.scene.write(s, Field::X(Real(step as f64)));
            }
        }
        d.turn("move", |e| {
            e.scene.write(a, Field::X(Real(25.0)));
            e.scene.write(b, Field::X(Real(125.0)));
        });
    });
    assert_eq!(sql.len(), 2, "one UPDATE per moved shape: {sql:?}");
    assert!(d.undo());
    assert_eq!(d.n(a).x.0, 0.0);
    assert_eq!(d.n(b).x.0, 100.0);
}

// ---------------------------------------------------------------------------
// The band
// ---------------------------------------------------------------------------

#[test]
fn a_band_selects_every_shape_it_encloses() {
    let mut d = test_doc();
    let a = d.rect_at(10.0, 10.0, 40.0, 40.0);
    let b = d.rect_at(80.0, 10.0, 40.0, 40.0);
    let far = d.rect_at(400.0, 400.0, 40.0, 40.0);
    d.sweep_gesture((0.0, 0.0), (200.0, 200.0), plain());
    assert_eq!(d.selection(), vec![a, b]);
    assert_eq!(d.band(), None, "the band goes away on release");
    d.sweep_gesture((380.0, 380.0), (500.0, 500.0), plain());
    assert_eq!(d.selection(), vec![far]);
}

#[test]
fn a_band_grown_in_any_direction_covers_the_same_ground() {
    let mut d = test_doc();
    let id = d.rect_at(10.0, 10.0, 40.0, 40.0);
    for (from, to) in [
        ((0.0, 0.0), (100.0, 100.0)),
        ((100.0, 100.0), (0.0, 0.0)),
        ((100.0, 0.0), (0.0, 100.0)),
        ((0.0, 100.0), (100.0, 0.0)),
    ] {
        d.select(&[]);
        d.sweep_gesture(from, to, plain());
        assert_eq!(d.selection(), vec![id], "{from:?} to {to:?}");
    }
}

#[test]
fn a_band_takes_everything_it_touches() {
    let mut d = test_doc();
    let covered = d.rect_at(10.0, 10.0, 30.0, 30.0);
    let grazed = d.rect_at(80.0, 10.0, 60.0, 30.0);
    d.rect_at(300.0, 300.0, 30.0, 30.0);
    d.sweep_gesture((0.0, 0.0), (100.0, 100.0), plain());
    assert_eq!(d.selection(), vec![covered, grazed]);
    d.select(&[]);
    d.sweep_gesture((0.0, 0.0), (10.0, 10.0), plain());
    assert_eq!(d.selection(), vec![covered]);
    d.select(&[]);
    d.sweep_gesture((0.0, 0.0), (9.0, 9.0), plain());
    assert!(d.selection().is_empty());
}

#[test]
fn a_thin_band_takes_what_it_sweeps_across() {
    let mut d = test_doc();
    let a = d.rect_at(10.0, 10.0, 20.0, 200.0);
    let b = d.rect_at(50.0, 10.0, 20.0, 200.0);
    let c = d.rect_at(90.0, 10.0, 20.0, 200.0);
    d.rect_at(300.0, 10.0, 20.0, 200.0);
    d.sweep_gesture((5.0, 100.0), (150.0, 100.0), plain());
    assert_eq!(d.selection(), vec![a, b, c]);
}

#[test]
fn touching_one_member_takes_the_whole_group() {
    let mut d = test_doc();
    let a = d.rect_at(10.0, 10.0, 30.0, 30.0);
    let b = d.rect_at(200.0, 10.0, 30.0, 30.0);
    d.select(&[a, b]);
    d.group();
    let group = d.selection()[0];
    d.select(&[]);
    d.sweep_gesture((0.0, 0.0), (20.0, 20.0), plain());
    assert_eq!(d.selection(), vec![group]);
    d.select(&[]);
    d.sweep_gesture((60.0, 15.0), (190.0, 35.0), plain());
    assert!(d.selection().is_empty());
    d.sweep_gesture((0.0, 0.0), (300.0, 300.0), plain());
    assert_eq!(d.selection(), vec![group]);
}

#[test]
fn a_turned_shape_answers_for_where_it_is_drawn() {
    let mut d = test_doc();
    let id = d.turned(90.0);
    d.select(&[]);
    d.sweep_gesture((88.0, 4.0), (94.0, 10.0), plain());
    assert!(d.selection().is_empty(), "that corner is empty once the shape turns");
    d.sweep_gesture((40.0, 95.0), (60.0, 75.0), plain());
    assert_eq!(d.selection(), vec![id]);
}

#[test]
fn a_line_answers_for_its_stroke_not_the_box_around_it() {
    let mut d = test_doc();
    let id = d.place_shape(NodeKind::Line, 0.0, 0.0);
    d.write(id, Field::W(Real(200.0)));
    d.write(id, Field::H(Real(200.0)));
    d.select(&[]);
    d.sweep_gesture((150.0, 20.0), (190.0, 60.0), plain());
    assert!(d.selection().is_empty(), "the corner of a diagonal's box holds no ink");
    d.sweep_gesture((130.0, 70.0), (70.0, 130.0), plain());
    assert_eq!(d.selection(), vec![id]);
}

#[test]
fn an_oval_answers_for_its_curve_not_its_corners() {
    let mut d = test_doc();
    let id = d.place_shape(NodeKind::Oval, 0.0, 0.0);
    d.write(id, Field::W(Real(100.0)));
    d.write(id, Field::H(Real(100.0)));
    d.select(&[]);
    d.sweep_gesture((1.0, 1.0), (10.0, 10.0), plain());
    assert!(d.selection().is_empty(), "the corner of an oval's frame is not the oval");
    d.sweep_gesture((10.0, 10.0), (20.0, 20.0), plain());
    assert_eq!(d.selection(), vec![id]);
}

#[test]
fn a_shift_sweep_adds_to_the_selection_and_a_plain_one_replaces() {
    let mut d = test_doc();
    let a = d.rect_at(10.0, 10.0, 30.0, 30.0);
    let b = d.rect_at(200.0, 10.0, 30.0, 30.0);
    d.sweep_gesture((0.0, 0.0), (60.0, 60.0), plain());
    assert_eq!(d.selection(), vec![a]);
    d.sweep_gesture((180.0, 0.0), (260.0, 60.0), shift());
    assert_eq!(d.selection(), vec![a, b]);
    d.sweep_gesture((180.0, 0.0), (260.0, 60.0), plain());
    assert_eq!(d.selection(), vec![b]);
    d.sweep_gesture((0.0, 0.0), (260.0, 60.0), shift());
    assert_eq!(d.selection(), vec![b, a]);
}

#[test]
fn the_band_is_live_while_the_pointer_moves() {
    let mut d = test_doc();
    let id = d.rect_at(10.0, 10.0, 30.0, 30.0);
    let from = (5.0, 5.0);
    d.drag(DragPhase::Began, from, (5.0, 5.0), plain());
    d.drag(DragPhase::Changed, from, (8.0, 8.0), plain());
    assert_eq!(d.band(), Some((5.0, 5.0, 3.0, 3.0)));
    assert!(d.selection().is_empty());
    d.drag(DragPhase::Changed, from, (20.0, 20.0), plain());
    assert_eq!(d.band(), Some((5.0, 5.0, 15.0, 15.0)));
    assert_eq!(d.selection(), vec![id]);
    d.drag(DragPhase::Changed, from, (8.0, 8.0), plain());
    assert!(d.selection().is_empty());
    d.drag(DragPhase::Ended, from, (60.0, 60.0), plain());
    assert_eq!(d.band(), None);
    assert_eq!(d.selection(), vec![id], "the release re-reads the final band");
}

#[test]
fn a_band_reads_the_view_transform() {
    let mut d = test_doc();
    let id = d.rect_at(100.0, 100.0, 40.0, 40.0);
    d.canvas.viewport.zoom = Real(2.0);
    d.sweep_gesture((190.0, 190.0), (290.0, 290.0), plain());
    assert_eq!(d.selection(), vec![id]);
    d.select(&[]);
    d.sweep_gesture((90.0, 90.0), (150.0, 150.0), plain());
    assert!(d.selection().is_empty());
}

#[test]
fn a_press_that_never_moves_is_a_click_not_a_band() {
    let mut d = test_doc();
    let id = d.rect_at(10.0, 10.0, 30.0, 30.0);
    d.select(&[id]);
    d.sweep_gesture((300.0, 300.0), (301.0, 300.0), plain());
    assert!(d.selection().is_empty());
    assert_eq!(d.band(), None);
}

#[test]
fn a_press_on_a_shape_moves_it_and_draws_no_band() {
    let mut d = test_doc();
    let id = d.rect_at(10.0, 10.0, 30.0, 30.0);
    let other = d.rect_at(200.0, 200.0, 30.0, 30.0);
    d.select(&[]);
    d.sweep_gesture((20.0, 20.0), (240.0, 240.0), plain());
    assert_eq!(d.band(), None);
    assert_eq!(d.selection(), vec![id]);
    assert_eq!(d.n(id).x.0, 230.0);
    assert_eq!(d.n(other).x.0, 200.0, "untouched");
}

#[test]
fn sweeping_is_not_an_edit() {
    let mut d = test_doc();
    let a = d.rect_at(10.0, 10.0, 30.0, 30.0);
    d.rect_at(200.0, 200.0, 30.0, 30.0);
    d.select(&[]);
    let depth = d.can_undo();
    let sql = d.sql_of(|d| {
        d.sweep_gesture((0.0, 0.0), (300.0, 300.0), plain());
        d.sweep_gesture((70.0, 70.0), (35.0, 35.0), plain());
    });
    assert!(sql.is_empty(), "a sweep writes no rows: {sql:?}");
    assert_eq!(d.selection(), vec![a]);
    assert_eq!(d.can_undo(), depth);
}

#[test]
fn a_press_on_a_handle_resizes_rather_than_sweeping() {
    let mut d = test_doc();
    let id = d.rect_at(100.0, 100.0, 40.0, 40.0);
    d.select(&[id]);
    d.sweep_gesture((146.0, 146.0), (200.0, 200.0), plain());
    assert_eq!(d.band(), None, "no band was swept");
    assert_eq!(d.n(id).w.0, 94.0, "the corner moved with it");
    assert_eq!(d.selection(), vec![id]);
}

#[test]
fn a_band_anchors_at_the_press_even_when_began_arrives_late() {
    let mut d = test_doc();
    let id = d.rect_at(20.0, 20.0, 40.0, 40.0);
    d.select(&[]);
    d.drag(DragPhase::Began, (5.0, 5.0), (105.0, 105.0), plain());
    d.drag(DragPhase::Ended, (5.0, 5.0), (105.0, 105.0), plain());
    assert_eq!(
        d.selection(),
        vec![id],
        "the band must cover (5,5)-(105,105), which holds the shape"
    );
}

// ---------------------------------------------------------------------------
// The keyboard
// ---------------------------------------------------------------------------

#[test]
fn delete_removes_the_selection_where_no_menu_bar_carries_it() {
    let mut d = test_doc();
    let a = d.rect_at(10.0, 10.0, 30.0, 30.0);
    let b = d.rect_at(80.0, 10.0, 30.0, 30.0);
    d.select(&[a]);
    d.key("Delete", true);
    assert_eq!(d.children_of(None), vec![b], "only the selected shape went");
    assert!(d.selection().is_empty());
    d.select(&[b]);
    d.key("Backspace", true);
    assert!(d.children_of(None).is_empty());
}

#[test]
fn delete_is_left_to_the_menu_where_one_exists() {
    let mut d = test_doc();
    let a = d.rect_at(10.0, 10.0, 30.0, 30.0);
    d.select(&[a]);
    d.key("Delete", false);
    d.key("Backspace", false);
    assert_eq!(d.children_of(None), vec![a], "the shape is still there");
    assert_eq!(d.selection(), vec![a]);
}

#[test]
fn delete_with_nothing_selected_changes_nothing() {
    let mut d = test_doc();
    let a = d.rect_at(10.0, 10.0, 30.0, 30.0);
    d.select(&[]);
    let depth = d.can_undo();
    d.key("Delete", true);
    assert_eq!(d.children_of(None), vec![a]);
    assert_eq!(d.can_undo(), depth, "and no empty undo step");
}

#[test]
fn the_arrows_still_nudge() {
    let mut d = test_doc();
    let a = d.rect_at(10.0, 10.0, 30.0, 30.0);
    d.select(&[a]);
    d.key("ArrowRight", true);
    assert_eq!(d.n(a).x.0, 11.0);
    assert_eq!(d.children_of(None), vec![a], "nudging deletes nothing");
}

#[test]
fn a_deleted_selection_comes_back_with_undo() {
    let mut d = test_doc();
    let a = d.rect_at(10.0, 10.0, 30.0, 30.0);
    let b = d.rect_at(80.0, 10.0, 30.0, 30.0);
    d.select(&[a, b]);
    d.key("Delete", true);
    assert!(d.children_of(None).is_empty());
    assert!(d.undo(), "one key, one undo step");
    assert_eq!(d.children_of(None), vec![a, b]);
}

// ---------------------------------------------------------------------------
// Only the columns that a gesture moved
// ---------------------------------------------------------------------------

#[test]
fn a_sideways_drag_updates_only_x() {
    let mut d = test_doc();
    let id = d.rect_at(100.0, 100.0, 40.0, 40.0);
    d.select(&[id]);
    let sql = d.drag_sql((120.0, 120.0), (220.0, 120.0));
    assert_eq!(sql, ["UPDATE nodes SET x = ? WHERE id = ?"], "{sql:?}");
    assert_eq!(d.n(id).x.0, 200.0);
    assert_eq!(d.n(id).y.0, 100.0);
    let sql = d.drag_sql((220.0, 120.0), (220.0, 200.0));
    assert_eq!(sql, ["UPDATE nodes SET y = ? WHERE id = ?"], "{sql:?}");
    let sql = d.drag_sql((220.0, 200.0), (260.0, 240.0));
    assert_eq!(sql, ["UPDATE nodes SET x = ?, y = ? WHERE id = ?"], "{sql:?}");
}

#[test]
fn a_drag_that_ends_where_it_began_is_not_a_change() {
    let mut d = test_doc();
    let id = d.rect_at(100.0, 100.0, 40.0, 40.0);
    d.select(&[id]);
    let depth = d.can_undo();
    let from = (120.0, 120.0);
    let sql = d.sql_of(|d| {
        d.drag(DragPhase::Began, from, (120.0, 120.0), plain());
        d.drag(DragPhase::Changed, from, (200.0, 180.0), plain());
        d.drag(DragPhase::Changed, from, (160.0, 140.0), plain());
        d.drag(DragPhase::Ended, from, (120.0, 120.0), plain());
    });
    assert!(sql.is_empty(), "{sql:?}");
    assert_eq!(d.n(id).x.0, 100.0);
    assert_eq!(d.n(id).y.0, 100.0);
    assert_eq!(d.can_undo(), depth, "and no undo step that would do nothing");
}

#[test]
fn the_next_drag_undoes_to_its_own_starting_point() {
    let mut d = test_doc();
    let id = d.rect_at(100.0, 100.0, 40.0, 40.0);
    d.select(&[id]);
    d.drag_sql((120.0, 120.0), (220.0, 120.0));
    assert_eq!(d.n(id).y.0, 100.0);
    d.drag_sql((220.0, 120.0), (220.0, 190.0));
    assert_eq!(d.n(id).y.0, 170.0);
    assert!(d.undo(), "undo the downward drag");
    assert_eq!(d.n(id).y.0, 100.0, "back to where THAT drag started");
    assert_eq!(d.n(id).x.0, 200.0, "and the earlier sideways drag still stands");
}

#[test]
fn a_corner_resize_updates_only_the_edges_it_moved() {
    let mut d = test_doc();
    let id = d.rect_at(100.0, 100.0, 40.0, 40.0);
    d.select(&[id]);
    let (hx, hy) = (140.0, 140.0);
    let sql = d.drag_sql((hx, hy), (hx + 30.0, hy + 20.0));
    assert_eq!(sql, ["UPDATE nodes SET w = ?, h = ? WHERE id = ?"], "{sql:?}");
    assert_eq!((d.n(id).x.0, d.n(id).y.0), (100.0, 100.0));
    assert_eq!((d.n(id).w.0, d.n(id).h.0), (70.0, 60.0));
    let sql = d.drag_sql((100.0, 100.0), (90.0, 90.0));
    assert_eq!(
        sql,
        ["UPDATE nodes SET x = ?, y = ?, w = ?, h = ? WHERE id = ?"],
        "{sql:?}"
    );
}

#[test]
fn an_arrow_nudge_updates_only_the_axis_it_moves() {
    let mut d = test_doc();
    let id = d.rect_at(100.0, 100.0, 40.0, 40.0);
    d.select(&[id]);
    let sql = d.sql_of(|d| d.key("ArrowRight", true));
    assert_eq!(sql, ["UPDATE nodes SET x = ? WHERE id = ?"], "{sql:?}");
    assert_eq!(d.n(id).x.0, 101.0);
    let sql = d.sql_of(|d| d.key("ArrowDown", true));
    assert_eq!(sql, ["UPDATE nodes SET y = ? WHERE id = ?"], "{sql:?}");
    assert_eq!(d.n(id).y.0, 101.0);
}

// ---------------------------------------------------------------------------
// Turning
// ---------------------------------------------------------------------------

#[test]
fn a_group_turns_as_one_body() {
    let mut d = test_doc();
    let (g, a, b) = d.pair_group();
    assert_eq!(d.bounds(g), Some((0.0, 0.0, 200.0, 40.0)));
    d.set_rotation(g, 90.0);
    near(d.centre(a), (100.0, -60.0));
    near(d.centre(b), (100.0, 100.0));
    assert_eq!(d.n(a).rotation.0, 90.0);
    assert_eq!(d.n(b).rotation.0, 90.0);
    assert_eq!(d.n(g).rotation.0, 90.0);
    assert_eq!(d.bounds(g), Some((80.0, -80.0, 40.0, 200.0)));
}

#[test]
fn turning_a_group_twice_pivots_on_the_same_point() {
    let mut d = test_doc();
    let (g, a, b) = d.pair_group();
    let (a0, b0) = (d.centre(a), d.centre(b));
    for step in 1..=4 {
        d.set_rotation(g, (step * 90) as f64 % 360.0);
    }
    near(d.centre(a), a0);
    near(d.centre(b), b0);
    assert_eq!(d.n(a).rotation.0, 0.0);
}

#[test]
fn a_turned_group_moves_and_keeps_its_frame_under_it() {
    let mut d = test_doc();
    let (g, a, _b) = d.pair_group();
    d.set_rotation(g, 90.0);
    let before = d.centre(a);
    let (mx, my) = d.centre(a);
    d.select(&[g]);
    d.sweep_gesture((mx, my), (mx + 50.0, my + 30.0), plain());
    near(d.centre(a), (before.0 + 50.0, before.1 + 30.0));
    assert_eq!(
        d.bounds(g),
        Some((130.0, -50.0, 40.0, 200.0)),
        "the outline travelled with the members"
    );
    d.set_rotation(g, 180.0);
    near(d.centre(a), (230.0, 50.0));
}

#[test]
fn group_bounds_always_rederive_from_the_members() {
    let mut d = test_doc();
    let (g, a, b) = d.pair_group();
    assert_eq!(d.bounds(g), Some((0.0, 0.0, 200.0, 40.0)));
    d.select(&[a]);
    d.sweep_gesture((20.0, 20.0), (20.0, 320.0), plain());
    near(d.centre(a), (20.0, 320.0));
    d.select(&[g]);
    assert_eq!(d.bounds(g), Some((0.0, 0.0, 200.0, 340.0)));
    d.set_rotation(b, 45.0);
    let (bx, by, bw, bh) = d.bounds(g).expect("bounds");
    let r = 20.0 * std::f64::consts::SQRT_2;
    assert!((bx - 0.0).abs() < 1e-9, "left still a's edge: {bx}");
    assert!(
        ((bx + bw) - (180.0 + r)).abs() < 1e-9,
        "the right edge follows the turned corner: {bw}"
    );
    assert!((by - (20.0 - r)).abs() < 1e-9, "the top follows the turned corner: {by}");
    assert!((by + bh - 340.0).abs() < 1e-9, "bottom still a's edge: {bh}");
    d.reparent(a, None, None);
    d.reparent(b, None, None);
    assert_eq!(d.bounds(g), None);
}

#[test]
fn a_lone_shape_still_turns_about_its_own_centre() {
    let mut d = test_doc();
    let id = d.rect_at(100.0, 100.0, 40.0, 20.0);
    d.set_rotation(id, 90.0);
    assert_eq!(d.n(id).rotation.0, 90.0);
    assert_eq!(d.bounds(id), Some((100.0, 100.0, 40.0, 20.0)));
}

#[test]
fn a_group_of_lines_turns_by_moving_their_ends() {
    let mut d = test_doc();
    let l = d.place_shape(NodeKind::Line, 0.0, 0.0);
    d.write(l, Field::W(Real(100.0)));
    d.write(l, Field::H(Real(0.0)));
    let r = d.rect_at(0.0, 0.0, 40.0, 40.0);
    d.select(&[l, r]);
    d.group();
    let g = d.selection()[0];
    let ((ax, ay), (bx, by)) = d.line_ends(l);
    d.set_rotation(g, 90.0);
    let ((ax2, ay2), (bx2, by2)) = d.line_ends(l);
    assert_ne!((ax, ay), (ax2, ay2));
    let len = |p: (f64, f64), q: (f64, f64)| (q.0 - p.0).hypot(q.1 - p.1);
    assert!((len((ax, ay), (bx, by)) - len((ax2, ay2), (bx2, by2))).abs() < 0.001);
    assert_eq!(d.n(l).rotation.0, 0.0);
}

#[test]
fn handles_sit_on_the_turned_corners_and_are_grabbable_there() {
    let mut d = test_doc();
    let id = d.turned(0.0);
    assert_eq!(d.corner(id, Corner::BottomRight), (96.0, 64.0));
    d.write(id, Field::Rotation(Real(90.0)));
    let (bx, by) = d.corner(id, Corner::BottomRight);
    assert!((bx - 16.0).abs() < 0.001 && (by - 80.0).abs() < 0.001, "{bx},{by}");
    assert_eq!(d.hit_handle(bx, by), Some((id, Handle::Corner(Corner::BottomRight))));
    assert_eq!(d.hit_handle(96.0, 64.0), None, "the un-turned corner is bare canvas");
}

#[test]
fn a_line_carries_two_endpoint_handles_and_no_corners() {
    let mut d = test_doc();
    let id = d.place_shape(NodeKind::Line, 10.0, 20.0);
    d.write(id, Field::W(Real(60.0)));
    d.write(id, Field::H(Real(40.0)));
    d.select(&[id]);
    assert_eq!(d.hit_handle(10.0, 20.0), Some((id, Handle::End(LineEnd::Start))));
    assert_eq!(d.hit_handle(70.0, 60.0), Some((id, Handle::End(LineEnd::End))));
    assert_eq!(d.hit_handle(70.0, 20.0), None, "no corner handles on a line");
}

#[test]
fn dragging_one_end_of_a_line_leaves_the_other_alone() {
    let start = real4((10.0, 20.0, 60.0, 40.0));
    let f = quad(line_dragged(start, LineEnd::End, Real(5.0), Real(-10.0)));
    assert_eq!(f, (10.0, 20.0, 65.0, 30.0));
    let f = quad(line_dragged(start, LineEnd::Start, Real(5.0), Real(-10.0)));
    assert_eq!(f, (15.0, 10.0, 55.0, 50.0));
    assert_eq!((f.0 + f.2, f.1 + f.3), (70.0, 60.0), "the far end is fixed");
    let f = quad(line_dragged(start, LineEnd::Start, Real(100.0), Real(0.0)));
    assert!(f.2 < 0.0, "{f:?}");
}

#[test]
fn a_group_outline_does_not_turn_with_its_members() {
    let mut d = test_doc();
    let a = d.turned(90.0);
    let b = d.place_shape(NodeKind::Rect, 200.0, 0.0);
    d.select(&[a, b]);
    d.group();
    let gid = d.selection()[0];
    assert_eq!(d.e.scene.drawn_rotation(gid).0, 0.0, "a group has no rotation of its own");
    let bounds = d.e.scene.node_bounds(gid).expect("union");
    let turned = corners_on_screen(&d.canvas.viewport, bounds, d.e.scene.drawn_rotation(gid));
    let plain = corner_points(bounds);
    for i in 0..4 {
        assert_eq!(turned[i].0, plain[i].0);
        assert_eq!((turned[i].1.x.0, turned[i].1.y.0), (plain[i].1.x.0, plain[i].1.y.0));
    }
}

#[test]
fn dragging_a_turned_handle_resizes_along_the_shapes_own_edge() {
    let mut d = test_doc();
    let _id = d.turned(90.0);
    let start = real4((0.0, 0.0, 96.0, 64.0));
    let turned = resized_under_rotation(start, Corner::BottomRight, Real(0.0), Real(20.0), Real(90.0));
    let f = quad(turned);
    assert!((f.2 - 116.0).abs() < 0.001, "width followed the pointer: {f:?}");
    assert!((f.3 - 64.0).abs() < 0.001, "height untouched: {f:?}");
    let held = |b: (Real, Real, Real, Real)| {
        let pts = corners_on_screen(&d.canvas.viewport, b, Real(90.0));
        let p = pts.iter().find(|(c, _)| *c == Corner::TopLeft).expect("corner").1;
        (p.x.0, p.y.0)
    };
    let (wx, wy) = held(start);
    let (nx, ny) = held(turned);
    assert!(
        (wx - nx).abs() < 0.001 && (wy - ny).abs() < 0.001,
        "{wx},{wy} vs {nx},{ny}"
    );
}

// ---------------------------------------------------------------------------
// The inspector
// ---------------------------------------------------------------------------

#[test]
fn fields_show_the_common_value_and_multi_when_mixed() {
    let mut d = test_doc();
    let a = d.place_shape(NodeKind::Rect, 10.0, 40.0);
    let b = d.place_shape(NodeKind::Oval, 200.0, 40.0);
    d.select(&[a]);
    assert_eq!(d.e.prop_text(Prop::X), "10");
    assert_eq!(d.e.prop_text(Prop::Y), "40");
    assert_eq!(d.e.prop_text(Prop::W), "96");
    d.select(&[a, b]);
    assert_eq!(d.e.prop_text(Prop::X), "", "disagreeing values read empty (multi)");
    assert!(d.e.is_mixed(Prop::X));
    assert_eq!(d.e.prop_text(Prop::Y), "40");
    assert_eq!(d.e.prop_text(Prop::W), "96");
    d.select(&[]);
    assert_eq!(d.e.prop_text(Prop::X), "", "no selection, no value");
}

#[test]
fn a_typed_value_fans_out_to_every_selected_node_as_one_undo_unit() {
    let mut d = test_doc();
    let a = d.place_shape(NodeKind::Rect, 10.0, 40.0);
    let b = d.place_shape(NodeKind::Oval, 200.0, 80.0);
    d.select(&[a, b]);
    d.commit_prop(Prop::X, "50");
    assert_eq!(d.bounds(a).map(|f| f.0), Some(50.0));
    assert_eq!(d.bounds(b).map(|f| f.0), Some(50.0));
    assert_eq!(d.e.prop_text(Prop::X), "50", "the fields agree after the edit");
    assert!(d.undo(), "one step undoes the whole fan-out");
    assert_eq!(d.bounds(a).map(|f| f.0), Some(10.0));
    assert_eq!(d.bounds(b).map(|f| f.0), Some(200.0));
}

#[test]
fn garbage_and_size_floors_leave_the_model_alone() {
    let mut d = test_doc();
    let a = d.place_shape(NodeKind::Rect, 10.0, 40.0);
    d.select(&[a]);
    let undos_before = d.can_undo();
    d.commit_prop(Prop::X, "not a number");
    assert_eq!(d.bounds(a).map(|f| f.0), Some(10.0));
    assert_eq!(d.can_undo(), undos_before);
    d.commit_prop(Prop::W, "1");
    assert_eq!(d.bounds(a).map(|f| f.2), Some(8.0));
}

#[test]
fn style_edits_fan_out_to_shape_descendants_as_undo_units() {
    let mut d = test_doc();
    let a = d.place_shape(NodeKind::Rect, 0.0, 0.0);
    let b = d.place_shape(NodeKind::Oval, 100.0, 0.0);
    d.select(&[a, b]);
    d.group();
    d.e.set_style(StyleNum::FillOpacity, Real(0.4));
    assert_eq!(d.n(a).fill_opacity.0, 0.4, "previews reach the canvas live");
    d.commit_style(StyleNum::FillOpacity, 0.5);
    assert_eq!(d.n(a).fill_opacity.0, 0.5);
    assert_eq!(d.n(b).fill_opacity.0, 0.5);
    d.commit_style(StyleNum::StrokeWidth, 4.0);
    if let Some(label) = d.e.set_color(StyleColor::Fill, Color::hex(0x112233)) {
        d.settle(label);
    }
    assert_eq!(d.n(a).fill, "#112233");
    assert_eq!(d.n(b).fill, "#112233");
    assert_eq!(to_hex(d.e.color_shown(StyleColor::Fill)), "#112233");
    assert!(d.undo());
    assert_eq!(d.n(a).fill, "#EF4444");
    assert!(d.undo());
    assert_eq!(d.n(a).stroke_width.0, 1.0);
    assert!(d.undo());
    assert_eq!(d.n(a).fill_opacity.0, 1.0);
}

#[test]
fn the_percent_field_localizes_and_parses_both_forms() {
    let mut d = test_doc();
    let a = d.place_shape(NodeKind::Rect, 0.0, 0.0);
    d.select(&[a]);
    let shown = |d: &Doc| format!("{}%", d.e.percent_shown(StyleNum::FillOpacity));
    assert_eq!(shown(&d), "100%");
    d.commit_percent("25%");
    assert_eq!(d.n(a).fill_opacity.0, 0.25);
    d.commit_percent("80");
    assert_eq!(d.n(a).fill_opacity.0, 0.8);
    assert_eq!(shown(&d), "80%");
    d.commit_percent("\u{2068}25\u{2069}%");
    assert_eq!(d.n(a).fill_opacity.0, 0.25);
    d.commit_percent("250");
    assert_eq!(d.n(a).fill_opacity.0, 1.0);
    d.commit_percent("opaque");
    assert_eq!(d.n(a).fill_opacity.0, 1.0);
    d.commit_percent("nan");
    assert_eq!(d.n(a).fill_opacity.0, 1.0, "no number to be opaque by");
    d.commit_percent("-inf");
    assert_eq!(d.n(a).fill_opacity.0, 0.0);
    d.commit_percent("nan");
    assert_eq!(d.n(a).fill_opacity.0, 0.0, "no number to be opaque by");
    d.commit_percent("inf");
    assert_eq!(d.n(a).fill_opacity.0, 1.0);
}

#[test]
fn the_background_well_writes_one_labeled_unit_and_reads_back() {
    let mut d = test_doc();
    assert_eq!(to_hex(d.e.background_shown()), "#FFFFFF", "seed");
    d.turn("background", |e| e.set_background_color(Color::hex(0x336699)));
    assert_eq!(d.e.scene.background, "#336699");
    assert_eq!(to_hex(d.e.background_shown()), "#336699");
    assert!(d.undo(), "one unit takes it back");
    assert_eq!(d.e.scene.background, "#FFFFFF");
}

#[test]
fn corner_radius_shows_for_rectangles_only_and_rotation_wraps() {
    let mut d = test_doc();
    let r = d.place_shape(NodeKind::Rect, 0.0, 0.0);
    let o = d.place_shape(NodeKind::Oval, 200.0, 0.0);
    d.select(&[r]);
    assert!(d.e.selection_is_rects(), "a rectangle has corners");
    d.select(&[o]);
    assert!(!d.e.selection_is_rects(), "an oval has none");
    d.select(&[r, o]);
    assert!(!d.e.selection_is_rects(), "a mixed selection has no one answer");
    d.select(&[]);
    assert!(!d.e.selection_is_rects(), "nothing selected shows nothing");

    d.select(&[r]);
    d.e.set_degrees(Real(45.0));
    assert_eq!(d.n(r).rotation.0, 45.0);
    d.e.set_degrees(Real(360.0));
    assert_eq!(d.n(r).rotation.0, 0.0);
    d.e.set_degrees(Real(-1.0));
    assert_eq!(d.n(r).rotation.0, 359.0);

    d.commit_style(StyleNum::CornerRadius, 12.0);
    assert_eq!(d.n(r).corner_radius.0, 12.0);
    d.commit_style(StyleNum::CornerRadius, -5.0);
    assert_eq!(d.n(r).corner_radius.0, 0.0);
}

#[test]
fn a_line_offers_only_the_properties_it_has() {
    let mut d = test_doc();
    let line = d.place_shape(NodeKind::Line, 0.0, 0.0);
    let rect = d.place_shape(NodeKind::Rect, 200.0, 0.0);
    d.select(&[line]);
    assert!(!d.e.selection_has_fill());
    assert!(!d.e.selection_can_rotate());
    assert!(!d.e.selection_is_rects());
    d.select(&[rect]);
    assert!(d.e.selection_has_fill());
    assert!(d.e.selection_can_rotate());
    assert!(d.e.selection_is_rects());
    d.select(&[line, rect]);
    assert!(!d.e.selection_has_fill());
    assert!(!d.e.selection_can_rotate());
    assert!(!d.e.selection_is_rects());
}

#[test]
fn a_typed_extent_sets_a_lines_length_and_keeps_its_direction() {
    let mut d = test_doc();
    let id = d.place_shape(NodeKind::Line, 100.0, 100.0);
    d.write(id, Field::W(Real(-40.0)));
    d.write(id, Field::H(Real(30.0)));
    d.select(&[id]);
    assert_eq!(d.e.prop_text(Prop::W), "40");
    d.commit_prop(Prop::W, "80");
    assert_eq!(d.n(id).w.0, -80.0, "still running leftward");
    d.commit_prop(Prop::H, "0");
    assert_eq!(d.n(id).h.0, 0.0);
    let r = d.place_shape(NodeKind::Rect, 0.0, 0.0);
    d.select(&[r]);
    d.commit_prop(Prop::W, "1");
    assert_eq!(d.bounds(r).map(|b| b.2), Some(8.0));
}

#[test]
fn retargeting_lands_on_the_tab_that_matches_the_selection() {
    assert_eq!(retarget(false), Tab::Canvas);
    assert_eq!(retarget(true), Tab::Selected);
    assert_eq!(retarget(false), Tab::Canvas);
}

#[test]
fn group_x_translates_members_and_group_w_is_left_derived() {
    let mut d = test_doc();
    let a = d.place_shape(NodeKind::Rect, 0.0, 0.0);
    let b = d.place_shape(NodeKind::Rect, 100.0, 20.0);
    d.select(&[a, b]);
    d.group();
    d.commit_prop(Prop::X, "40");
    let gid = d.selection()[0];
    assert_eq!(
        d.bounds(gid),
        Some((40.0, 0.0, 196.0, 84.0)),
        "the union moved; members kept their offsets"
    );
    assert_eq!(d.bounds(a).map(|f| f.0), Some(40.0));
    assert_eq!(d.bounds(b).map(|f| f.0), Some(140.0));
    d.commit_prop(Prop::W, "500");
    assert_eq!(
        d.bounds(gid).map(|f| f.2),
        Some(196.0),
        "a group's size stays derived from its shapes"
    );
}

// ---------------------------------------------------------------------------
// Images, clipboard, drops
// ---------------------------------------------------------------------------

fn png() -> Vec<u8> {
    let mut bytes = vec![0x89, 0x50, 0x4e, 0x47, 0x0d, 0x0a, 0x1a, 0x0a];
    bytes.extend(0..=255u8);
    bytes.push(7);
    bytes
}

#[test]
fn image_bytes_survive_edit_undo_duplicate_and_reopen() {
    let mut d = test_doc();
    let bytes = png();
    let id = d.place_image(bytes.clone(), (10.0, 20.0, 180.0, 120.0));
    d.select(&[id]);
    let sql = d.sql_of(|d| {
        d.turn("resize", |e| {
            e.scene.write(id, Field::X(Real(30.0)));
            e.scene.write(id, Field::W(Real(240.0)));
            e.scene.write(id, Field::Rotation(Real(35.0)));
            e.scene.write(id, Field::FillOpacity(Real(0.4)));
        })
    });
    assert!(sql.iter().any(|sql| sql.starts_with("UPDATE nodes")));
    assert!(sql.iter().all(|sql| !sql.contains("image_bytes")), "{sql:?}");
    let values = |d: &Doc, id: u64| {
        let n = d.n(id);
        (n.x.0, n.w.0, n.rotation.0, n.fill_opacity.0)
    };
    assert!(d.undo());
    assert_eq!(values(&d, id), (10.0, 180.0, 0.0, 1.0));
    assert!(d.redo());
    d.select(&[id]);
    d.duplicate();
    let copy = d.selection()[0];
    assert_ne!(copy, id);
    assert_eq!(d.n(copy).image_bytes, bytes);
    assert_eq!(d.n(copy).rotation.0, 35.0);
    assert_eq!(d.n(copy).fill_opacity.0, 0.4);
    let svg = d.e.selection_to_svg().expect("serializes");
    assert!(svg.contains("data:image/png;base64,"));
    d.paste(&svg);
    let pasted = d.selection()[0];
    assert_eq!(d.n(pasted).image_bytes, bytes);
    assert_eq!(d.n(pasted).rotation.0, 35.0);
    assert!(d.undo());
    assert!(d.undo());
    assert!(d.redo());
    d.reload();
    assert_eq!(d.n(id).kind, NodeKind::Image);
    assert_eq!(d.n(id).image_bytes, bytes);
    assert_eq!(values(&d, id), (30.0, 240.0, 35.0, 0.4));
}

#[test]
fn cache_decodes_once_for_geometry_edits_and_releases_deleted_rows() {
    let mut d = test_doc();
    let mut cache: ImageCache<u32> = ImageCache::empty();
    let id = d.place_image(png(), (20.0, 30.0, 100.0, 80.0));
    let pending = cache.follow(d.e.scene.image_sources());
    assert_eq!(pending.len(), 1);
    assert!(cache.decoded(id, &pending[0].1, Some(9)));
    assert_eq!(cache.get(id), Some(&9));
    d.write(id, Field::X(Real(100.0)));
    d.write(id, Field::Rotation(Real(60.0)));
    assert!(cache.follow(d.e.scene.image_sources()).is_empty());
    assert_eq!(cache.get(id), Some(&9));
    d.select(&[id]);
    d.turn("delete", |e| e.delete_selection());
    assert!(cache.follow(d.e.scene.image_sources()).is_empty());
    assert!(cache.get(id).is_none());
    assert!(!cache.decoded(id, &png(), Some(10)), "a late decode cannot bring it back");
    assert!(d.undo());
    let pending = cache.follow(d.e.scene.image_sources());
    assert_eq!(pending.len(), 1);
    assert!(cache.decoded(id, &pending[0].1, Some(11)));
    assert_eq!(cache.get(id), Some(&11));
}

#[test]
fn insertion_fits_and_centers_in_a_zoomed_panned_view() {
    let mut d = test_doc();
    let v = &mut d.canvas.viewport;
    v.size = (Real(800.0), Real(600.0));
    v.zoom = Real(2.0);
    v.pan = pt(40.0, -20.0);
    assert_eq!(
        quad(initial_frame(v, (Real(1600.0), Real(800.0)))),
        (20.0, 80.0, 320.0, 160.0)
    );
}

#[test]
fn an_image_copy_offers_original_bytes_and_editable_svg() {
    let bytes = png();
    let c = drawing_content("<svg/>", Some(bytes.clone()));
    let content = day::clipboard::Content(
        c.iter()
            .map(|r| day::clipboard::Representation::new(r.mime.clone(), r.bytes.clone()))
            .collect(),
    );
    assert_eq!(content.validate(), Ok(()));
    assert_eq!(c.iter().find(|r| r.mime == "image/png").expect("png").bytes, bytes);
    assert_eq!(
        c.iter().find(|r| r.mime == drawing_type()).expect("drawing").bytes,
        b"<svg/>"
    );
}

#[test]
fn image_drop_maps_pan_zoom_and_undoes_the_batch() {
    let mut d = test_doc();
    let v = &mut d.canvas.viewport;
    v.size = (Real(800.0), Real(600.0));
    v.zoom = Real(2.0);
    v.pan = pt(40.0, 20.0);
    let bytes = png();
    let mut intake: Intake<Real> = Intake::new(64 * 1024 * 1024);
    for _ in 0..2 {
        assert_eq!(intake.offer("image/png", &bytes), Verdict::Decode);
        assert!(intake.decoded(bytes.clone(), Some((Real(64.0), Real(48.0)))));
    }
    d.e.receive(&d.canvas.viewport, intake.imports, pt(240.0, 220.0));
    d.settle("paste");
    let ids = d.selection();
    assert_eq!(ids.len(), 2);
    let first = d.n(ids[0]);
    assert_eq!((first.x.0, first.y.0), (68.0, 76.0));
    assert_eq!(first.image_bytes, bytes);
    assert!(d.undo());
    assert_eq!(d.len(), 0);
    assert!(d.redo());
    assert_eq!(d.len(), 2);
}

// ---------------------------------------------------------------------------
// Clicks
// ---------------------------------------------------------------------------

#[test]
fn two_reports_of_one_press_are_one_click() {
    let mut d = test_doc();
    let a = d.place_shape(NodeKind::Rect, 0.0, 0.0);
    let ms = 1_000_000;
    let mut click = |d: &mut Doc, source, at: u64| {
        d.canvas.handle_click(&mut d.e, pt(10.0, 10.0), shift(), source, Some(at))
    };
    click(&mut d, ClickSource::Tap, 100 * ms);
    assert_eq!(d.selection(), vec![a]);
    click(&mut d, ClickSource::DragEnd, 129 * ms);
    assert_eq!(d.selection(), vec![a], "the second report of the same press is dropped");
    click(&mut d, ClickSource::DragEnd, 130 * ms);
    assert!(d.selection().is_empty(), "a later one is a click of its own");
    click(&mut d, ClickSource::DragEnd, 131 * ms);
    assert_eq!(d.selection(), vec![a], "two reports of one recognizer are two clicks");
}

#[test]
fn a_double_click_drills_within_its_window() {
    let mut d = test_doc();
    let a = d.place_shape(NodeKind::Rect, 0.0, 0.0);
    let b = d.place_shape(NodeKind::Rect, 200.0, 0.0);
    d.select(&[a, b]);
    d.group();
    let g = d.selection()[0];
    let ms = 1_000_000;
    let mut tap = |d: &mut Doc, x: f64, at: u64| {
        d.canvas.handle_click(&mut d.e, pt(x, 10.0), plain(), ClickSource::Tap, Some(at))
    };
    tap(&mut d, 10.0, 1000 * ms);
    assert_eq!(d.selection(), vec![g]);
    tap(&mut d, 10.0, 1350 * ms);
    assert_eq!(d.selection(), vec![g], "too late to repeat");
    tap(&mut d, 16.0, 1400 * ms);
    assert_eq!(d.selection(), vec![g], "too far to repeat");
    tap(&mut d, 16.0, 1500 * ms);
    assert_eq!(d.selection(), vec![a]);
}

#[test]
fn shift_keeps_proportions_and_direction() {
    let mut d = test_doc();
    let id = d.rect_at(100.0, 100.0, 40.0, 20.0);
    d.select(&[id]);
    d.sweep_gesture((140.0, 120.0), (180.0, 125.0), shift());
    assert_eq!(d.bounds(id), Some((100.0, 100.0, 80.0, 40.0)));
    d.sweep_gesture((100.0, 100.0), (140.0, 120.0), shift());
    assert_eq!(d.bounds(id), Some((140.0, 120.0, 40.0, 20.0)), "the far corner holds");
    let l = d.place_shape(NodeKind::Line, 0.0, 300.0);
    d.write(l, Field::W(Real(100.0)));
    d.select(&[l]);
    d.sweep_gesture((100.0, 300.0), (150.0, 340.0), shift());
    assert_eq!(d.line_ends(l), ((0.0, 300.0), (150.0, 300.0)));
}

#[test]
fn alt_drags_copies_as_one_unit() {
    let mut d = test_doc();
    let a = d.rect_at(100.0, 100.0, 40.0, 40.0);
    d.select(&[a]);
    let alt = Modifiers { alt: true, ..plain() };
    let from = (120.0, 120.0);
    d.drag(DragPhase::Began, from, from, alt);
    d.drag(DragPhase::Changed, from, (150.0, 150.0), alt);
    d.drag(DragPhase::Ended, from, (170.0, 130.0), plain());
    assert_eq!(d.len(), 2);
    let copy = d.selection()[0];
    assert_ne!(copy, a);
    assert_eq!((d.n(a).x.0, d.n(a).y.0), (100.0, 100.0));
    assert_eq!((d.n(copy).x.0, d.n(copy).y.0), (150.0, 110.0));
    assert!(d.undo(), "one undo removes the copies");
    assert_eq!(d.len(), 1);
    assert!(d.redo(), "one redo restores their final positions");
    assert_eq!((d.n(copy).x.0, d.n(copy).y.0), (150.0, 110.0));
}

#[test]
fn alt_on_what_was_not_selected_moves_it() {
    let mut d = test_doc();
    let a = d.rect_at(100.0, 100.0, 40.0, 40.0);
    d.select(&[]);
    let alt = Modifiers { alt: true, ..plain() };
    let from = (120.0, 120.0);
    d.drag(DragPhase::Began, from, from, alt);
    d.drag(DragPhase::Ended, from, (170.0, 130.0), alt);
    assert_eq!(d.len(), 1);
    assert_eq!(d.selection(), vec![a]);
    assert_eq!((d.n(a).x.0, d.n(a).y.0), (150.0, 110.0));
}

// ---------------------------------------------------------------------------
// Members, flat figures, lines and neighbors
// ---------------------------------------------------------------------------

#[test]
fn a_selected_member_is_copied_and_cut_with_its_shape() {
    let mut d = test_doc();
    let a = d.place_shape(NodeKind::Rect, 0.0, 0.0);
    let b = d.place_shape(NodeKind::Rect, 200.0, 0.0);
    d.select(&[a, b]);
    d.e.group_selection();
    d.select(&[a]);
    let svg = d.e.selection_to_svg().expect("a member serializes");
    assert!(svg.contains(r#"<rect x="0" y="0" width="96" height="64""#), "{svg}");
    let cut = d.e.cut_selection_svg().expect("a member is cut");
    assert_eq!(cut, svg);
    assert!(d.e.scene.find(a).is_none());
    d.e.paste_text(&cut);
    let back = d.e.selection[0];
    assert_eq!((d.n(back).x.0, d.n(back).y.0), (16.0, 16.0));
}

#[test]
fn a_lone_line_turns_by_its_ends() {
    let mut d = test_doc();
    let l = d.place_shape(NodeKind::Line, 0.0, 0.0);
    let (x, y, w, h) = (d.n(l).x.0, d.n(l).y.0, d.n(l).w.0, d.n(l).h.0);
    let (cx, cy) = (x + w / 2.0, y + h / 2.0);
    d.e.scene.set_rotation(l, Real(90.0));
    assert_eq!(d.n(l).rotation.0, 0.0);
    let n = d.n(l);
    assert!((n.w.0 - -h).abs() < 1e-9 && (n.h.0 - w).abs() < 1e-9, "a quarter round");
    assert!((n.x.0 + n.w.0 / 2.0 - cx).abs() < 1e-9);
    assert!((n.y.0 + n.h.0 / 2.0 - cy).abs() < 1e-9, "about its middle");
}

#[test]
fn flat_figures_overlap_only_where_they_meet() {
    let segment = [pt(0.0, 0.0), pt(100.0, 0.0)];
    let far = [pt(200.0, 0.0), pt(300.0, 0.0), pt(300.0, 0.0), pt(200.0, 0.0)];
    let near = [pt(90.0, 0.0), pt(300.0, 0.0), pt(300.0, 0.0), pt(90.0, 0.0)];
    assert!(!convex_overlap(&segment, &far), "a hundred apart on one line");
    assert!(convex_overlap(&segment, &near));
    let dot = [pt(5.0, 5.0), pt(5.0, 5.0)];
    let other = [pt(6.0, 5.0), pt(6.0, 5.0)];
    assert!(!convex_overlap(&dot, &other), "two points apart");
    assert!(convex_overlap(&dot, &dot));
    assert!(!point_in_convex(&far, pt(50.0, 0.0)));
    assert!(point_in_convex(&far, pt(250.0, 0.0)));
}

#[test]
fn a_flat_band_touches_no_distant_oval() {
    let mut d = test_doc();
    let o = d.place_shape(NodeKind::Oval, 0.0, 0.0);
    d.e.scene.set_w(o, Real(100.0));
    d.e.scene.set_h(o, Real(100.0));
    let band = [pt(200.0, 50.0), pt(300.0, 50.0), pt(300.0, 50.0), pt(200.0, 50.0)];
    assert!(!d.e.scene.shape_touches(o, &band));
    let through = [pt(50.0, 50.0), pt(300.0, 50.0), pt(300.0, 50.0), pt(50.0, 50.0)];
    assert!(d.e.scene.shape_touches(o, &through));
}

#[test]
fn a_moved_shape_snaps_to_its_neighbor() {
    let mut d = test_doc();
    let b = d.place_shape(NodeKind::Rect, 0.0, 0.0);
    let a = d.place_shape(NodeKind::Rect, 100.0, 100.0);
    for id in [a, b] {
        d.e.scene.set_w(id, Real(40.0));
        d.e.scene.set_h(id, Real(40.0));
    }
    d.select(&[a]);
    let report = |phase, dx: f64| Drag {
        phase,
        location: pt(120.0 + dx, 120.0),
        translation: pt(dx, 0.0),
    };
    let held = Modifiers { shift: false, primary: false, alt: false };
    let shown = |d: &Doc| (d.canvas.guides.0.map(|x| x.0), d.canvas.guides.1.map(|y| y.0));
    d.canvas.on_drag(&mut d.e, report(DragPhase::Began, 0.0), held, None);
    d.canvas.on_drag(&mut d.e, report(DragPhase::Changed, -59.0), held, None);
    assert_eq!(d.n(a).x.0, 40.0, "lined up with its neighbor's edge");
    assert_eq!(shown(&d), (Some(40.0), None), "and a guide shows it");
    d.canvas.on_drag(&mut d.e, report(DragPhase::Changed, -50.0), held, None);
    assert_eq!(d.n(a).x.0, 50.0, "too far off to snap");
    assert_eq!(shown(&d), (None, None));
    d.canvas.on_drag(&mut d.e, report(DragPhase::Ended, -59.0), held, None);
    assert_eq!((d.n(a).x.0, d.n(a).y.0), (40.0, 100.0));
    assert_eq!(shown(&d), (None, None));

    d.canvas.snapping = false;
    let report = |phase, dx: f64| Drag {
        phase,
        location: pt(60.0 + dx, 120.0),
        translation: pt(dx, 0.0),
    };
    d.canvas.on_drag(&mut d.e, report(DragPhase::Began, 0.0), held, None);
    d.canvas.on_drag(&mut d.e, report(DragPhase::Ended, 1.0), held, None);
    assert_eq!(d.n(a).x.0, 41.0, "with the preference off it stays where it was put");
}

#[test]
fn a_resized_edge_snaps_unless_shift_holds_the_proportions() {
    let mut d = test_doc();
    let b = d.place_shape(NodeKind::Rect, 200.0, 0.0);
    let a = d.place_shape(NodeKind::Rect, 0.0, 200.0);
    assert_eq!((d.n(a).w.0, d.n(a).h.0), (96.0, 64.0));
    assert_eq!(d.n(b).x.0, 200.0);
    d.select(&[a]);
    let report = |phase, dx: f64| Drag {
        phase,
        location: pt(96.0 + dx, 264.0),
        translation: pt(dx, 0.0),
    };
    let free = Modifiers { shift: false, primary: false, alt: false };
    let tied = Modifiers { shift: true, primary: false, alt: false };
    d.canvas.on_drag(&mut d.e, report(DragPhase::Began, 0.0), free, None);
    d.canvas.on_drag(&mut d.e, report(DragPhase::Changed, 102.0), free, None);
    assert_eq!(d.n(a).w.0, 200.0, "the right edge meets the neighbor's left one");
    d.canvas.on_drag(&mut d.e, report(DragPhase::Changed, 102.0), tied, None);
    assert_eq!(d.n(a).w.0, 198.0, "no pull while shift is held");
    d.canvas.on_drag(&mut d.e, report(DragPhase::Ended, 102.0), free, None);
    assert_eq!(d.n(a).w.0, 200.0);
}

#[test]
fn a_turned_group_wears_the_upright_box_of_its_members() {
    let mut d = test_doc();
    let a = d.place_shape(NodeKind::Rect, 0.0, 0.0);
    let b = d.place_shape(NodeKind::Rect, 160.0, 0.0);
    for id in [a, b] {
        d.e.scene.set_w(id, Real(40.0));
        d.e.scene.set_h(id, Real(40.0));
    }
    d.select(&[a, b]);
    d.e.group_selection();
    let g = d.e.selection[0];
    d.e.scene.set_rotation(g, Real(90.0));
    let ops = d.canvas.draw_scene(&d.e);
    let marks: Vec<_> = ops
        .iter()
        .rev()
        .take_while(|op| !matches!(op, DrawOp::Pop))
        .collect();
    assert_eq!(marks.len(), 1, "an outline and no handles");
    let DrawOp::Stroke(path, _, _) = marks[0] else {
        panic!("the outline is a stroke");
    };
    let wanted = [(80.0, -80.0), (120.0, -80.0), (120.0, 120.0), (80.0, 120.0)];
    for (step, (x, y)) in path.iter().zip(wanted) {
        match step {
            PathOp::MoveTo(p) | PathOp::LineTo(p) => {
                assert!((p.x.0 - x).abs() < 1e-6 && (p.y.0 - y).abs() < 1e-6, "{p:?}");
            }
            _ => panic!("corners only"),
        }
    }
}

#[test]
fn turns_in_machine_numbers_keep_distances_and_come_home() {
    let mut d = test_doc();
    let (g, a, b) = d.pair_group();
    let l = d.place_shape(NodeKind::Line, 310.7, -44.1);
    d.select(&[g, l]);
    d.group();
    let all = d.selection()[0];
    let (a0, b0) = (d.centre(a), d.centre(b));
    let f0 = d.e.scene.raw_frame(l);
    let apart = (a0.0 - b0.0).hypot(a0.1 - b0.1);
    let length = f0.2 .0.hypot(f0.3 .0);
    for angle in [17.3, 101.0, 44.9, 233.2, 359.9, -71.0, 3.3] {
        d.set_rotation(all, angle);
        let (p, q, n) = (d.centre(a), d.centre(b), d.n(l));
        assert!(((p.0 - q.0).hypot(p.1 - q.1) - apart).abs() < 1e-9);
        assert!((n.w.0.hypot(n.h.0) - length).abs() < 1e-9);
        assert!((p.0 - a0.0).abs() > 1e-3, "it did turn");
        assert_eq!((d.n(a).w.0, d.n(a).h.0), (40.0, 40.0));
    }
    d.set_rotation(all, 720.0);
    near(d.centre(a), a0);
    near(d.centre(b), b0);
    let f = d.e.scene.raw_frame(l);
    for (v, w) in [(f.0, f0.0), (f.1, f0.1), (f.2, f0.2), (f.3, f0.3)] {
        assert!((v.0 - w.0).abs() < 1e-9, "{v:?} for {w:?}");
    }
}

#[test]
fn copies_in_machine_numbers_read_back_alike() {
    let mut d = test_doc();
    let r = d.place_shape(NodeKind::Rect, 0.1, 0.2);
    let o = d.place_shape(NodeKind::Oval, 0.3, 1.0 / 3.0);
    let l = d.place_shape(NodeKind::Line, 0.7, 1e7);
    d.write(o, Field::W(Real(9.1)));
    d.write(l, Field::W(Real(-0.3)));
    d.select(&[o, l]);
    d.group();
    let g = d.selection()[0];
    d.select(&[g, r]);
    let svg = d.e.selection_to_svg().expect("serializes");
    d.paste(&svg);
    let sel = d.selection();
    let kinds: Vec<_> = sel.iter().map(|id| d.n(*id).kind).collect();
    assert_eq!(kinds, vec![NodeKind::Rect, NodeKind::Group], "bottom to top");
    let members = d.children_of(Some(sel[1]));
    assert_eq!(members.len(), 2);
    for (from, to) in [(r, sel[0]), (o, members[0]), (l, members[1])] {
        let (n, m) = (d.n(from), d.n(to));
        assert_eq!(m.kind, n.kind);
        assert_eq!((&m.stroke, m.stroke_width.0), (&n.stroke, n.stroke_width.0));
        let frame = [(m.x.0 - 16.0, n.x.0), (m.y.0 - 16.0, n.y.0), (m.w.0, n.w.0), (m.h.0, n.h.0)];
        for (v, w) in frame {
            assert!((v - w).abs() < 1e-8, "{v} for {w}");
        }
    }
}
