//! The library's laws on chosen values, counted in millionths.
use day_sketch::canvas::{Canvas, ClickSource, Drag, DragPhase, Modifiers};
use day_sketch::color::Color;
use day_sketch::geometry::{
    corner_dragged, held_corner, line_stretched, opposite_point, resized_in_proportion, Corner,
    LineEnd, Point,
};
use day_sketch::images::{initial_frame, ImageCache};
use day_sketch::inspector::{Prop, StyleColor, StyleNum};
use day_sketch::micro::Micro;
use day_sketch::node::NodeKind;
use day_sketch::ops::Editor;
use day_sketch::scalar::{ratio, Scalar};
use day_sketch::scene::Field;
use day_sketch::snap::find_pull;
use day_sketch::viewport::Viewport;

fn m(text: &str) -> Micro {
    Micro::of_text(text).expect("a number")
}

fn i(n: i64) -> Micro {
    Micro::of_int(n)
}

fn pt(x: i64, y: i64) -> Point<Micro> {
    Point { x: i(x), y: i(y) }
}

fn frame(x: i64, y: i64, w: i64, h: i64) -> (Micro, Micro, Micro, Micro) {
    (i(x), i(y), i(w), i(h))
}

fn plain() -> Modifiers {
    Modifiers { shift: false, primary: false, alt: false }
}

fn alt() -> Modifiers {
    Modifiers { shift: false, primary: false, alt: true }
}

fn drag(phase: DragPhase, at: Point<Micro>, by: (i64, i64)) -> Drag<Micro> {
    Drag { phase, location: at, translation: pt(by.0, by.1) }
}

/// Two rectangles, grouped: the editor, the group, and its members.
fn pair() -> (Editor<Micro>, u64, u64, u64) {
    let mut e: Editor<Micro> = Editor::empty();
    let a = e.scene.place_shape(NodeKind::Rect, i(10), i(20));
    let b = e.scene.place_shape(NodeKind::Oval, i(210), i(120));
    e.selection = vec![a, b];
    e.group_selection();
    let g = e.selection[0];
    (e, g, a, b)
}

#[test]
fn styles_show_what_was_set() {
    let (mut e, g, a, b) = pair();
    assert_eq!(e.selection, vec![g]);
    assert_eq!(e.set_style(StyleNum::FillOpacity, m("0.4")), Some("style"));
    assert_eq!(e.style_shown(StyleNum::FillOpacity), m("0.4"));
    for id in [a, b] {
        let at = e.scene.find(id).expect("the member is there");
        assert_eq!(e.scene.nodes[at].fill_opacity, m("0.4"));
    }
    assert_eq!(e.set_style(StyleNum::StrokeWidth, i(-3)), Some("style"));
    assert_eq!(e.style_shown(StyleNum::StrokeWidth), i(0), "widths stop at nought");
}

#[test]
fn turned_nodes_are_at_their_angle() {
    let (mut e, g, a, _) = pair();
    assert_eq!(e.set_degrees(i(390)), Some("style"));
    assert_eq!(e.scene.rotation(g), i(30));
    assert_eq!(e.style_shown(StyleNum::Rotation), i(30));
    assert_eq!(e.scene.rotation(a), i(30), "the members turn along");
}

#[test]
fn wells_show_the_colour_that_was_picked() {
    let (mut e, ..) = pair();
    let c: Color<Micro> = Color::hex(0x3B82F6);
    assert_eq!(e.set_color(StyleColor::Stroke, c), Some("style"));
    let shown = e.color_shown(StyleColor::Stroke);
    assert_eq!((shown.r, shown.g, shown.b, shown.a), (c.r, c.g, c.b, c.a));
    e.set_background_color(c);
    assert_eq!(e.scene.background, "#3B82F6");
}

#[test]
fn frames_show_what_was_typed() {
    let (mut e, g, a, _) = pair();
    let before = e.scene.node_bounds(g).expect("the group has bounds");
    assert_eq!(e.commit_prop(Prop::X, "-7.5"), Some("move"));
    assert_eq!(e.scene.node_bounds(g), Some((m("-7.5"), before.1, before.2, before.3)));
    assert_eq!(e.prop_text(Prop::X), "-7.5");
    e.selection = vec![a];
    assert_eq!(e.commit_prop(Prop::W, "30"), Some("resize"));
    assert_eq!(e.prop_text(Prop::W), "30");
    assert_eq!(e.commit_prop(Prop::W, "3"), Some("resize"));
    assert_eq!(e.prop_text(Prop::W), "8", "the smallest size there is");
}

#[test]
fn groups_hold_every_shape_once_and_move_as_one() {
    let (mut e, g, a, b) = pair();
    let c = e.scene.place_shape(NodeKind::Line, i(400), i(0));
    e.selection = vec![g, c];
    e.group_selection();
    let outer = e.selection[0];
    assert_eq!(e.scene.shape_descendants(outer), vec![a, b, c]);
    let before = e.scene.node_bounds(outer).expect("the group has bounds");
    e.scene.move_by(outer, i(5), i(-6));
    assert_eq!(
        e.scene.node_bounds(outer),
        Some((before.0.plus(i(5)), before.1.minus(i(6)), before.2, before.3))
    );
}

#[test]
fn a_drag_moves_as_a_typed_position_does() {
    let (mut dragged, ..) = pair();
    let (mut typed, g, ..) = pair();
    let mut canvas: Canvas<Micro> = Canvas::fresh();
    canvas.on_drag(&mut dragged, drag(DragPhase::Began, pt(40, 40), (0, 0)), plain(), None);
    canvas.on_drag(&mut dragged, drag(DragPhase::Changed, pt(52, 43), (12, 3)), plain(), None);
    typed.scene.move_by(g, i(12), i(3));
    assert!(typed.scene.edits(&dragged.scene).is_empty());
}

#[test]
fn letting_go_of_the_key_goes_on_dragging_the_copies() {
    let (mut e, g, ..) = pair();
    let mut canvas: Canvas<Micro> = Canvas::fresh();
    let home = e.scene.node_bounds(g).expect("the group has bounds");
    canvas.on_drag(&mut e, drag(DragPhase::Began, pt(40, 40), (0, 0)), alt(), None);
    let copy = e.selection[0];
    assert_ne!(copy, g);
    assert_eq!(e.scene.node_bounds(copy), Some(home), "a copy starts where it was made");
    let label =
        canvas.on_drag(&mut e, drag(DragPhase::Ended, pt(60, 40), (20, 0)), plain(), None);
    assert_eq!(label, Some("duplicate"));
    assert_eq!(e.scene.node_bounds(g), Some(home));
    assert_eq!(
        e.scene.node_bounds(copy),
        Some((home.0.plus(i(20)), home.1, home.2, home.3))
    );
}

#[test]
fn a_member_drilled_into_is_copied_alone() {
    let (mut e, g, a, b) = pair();
    e.selection = vec![a];
    let mut canvas: Canvas<Micro> = Canvas::fresh();
    let home = e.scene.node_bounds(a).expect("the member has bounds");
    canvas.on_drag(&mut e, drag(DragPhase::Began, pt(40, 40), (0, 0)), alt(), None);
    assert_eq!(e.selection.len(), 1);
    let copy = e.selection[0];
    assert!(copy != a && copy != g);
    assert_eq!(e.scene.parent_of(copy), None, "copies stand at the top level");
    canvas.on_drag(&mut e, drag(DragPhase::Ended, pt(60, 40), (20, 0)), alt(), None);
    assert_eq!(e.scene.node_bounds(a), Some(home));
    assert_eq!(
        e.scene.node_bounds(copy),
        Some((home.0.plus(i(20)), home.1, home.2, home.3))
    );
    assert_eq!(e.scene.topmost_selected(&[b, g, a]), vec![g], "members go with their group");
    assert_eq!(e.scene.topmost_selected(&[b, copy, a, b]), vec![a, b, copy], "bottom to top");
}

#[test]
fn clicks_edit_nothing_and_one_press_is_one_click() {
    let (mut e, g, ..) = pair();
    e.selection = Vec::new();
    let before = e.scene.replica();
    let mut canvas: Canvas<Micro> = Canvas::fresh();
    let shift = Modifiers { shift: true, primary: false, alt: false };
    canvas.handle_click(&mut e, pt(40, 40), shift, ClickSource::Tap, Some(1_000_000_000));
    assert_eq!(e.selection, vec![g]);
    canvas.handle_click(&mut e, pt(41, 40), shift, ClickSource::DragEnd, Some(1_010_000_000));
    assert_eq!(e.selection, vec![g], "the other report of the same press");
    canvas.handle_click(&mut e, pt(41, 40), shift, ClickSource::Tap, Some(1_020_000_000));
    assert_eq!(e.selection, Vec::<u64>::new(), "a second tap is a second click");
    assert!(before.edits(&e.scene).is_empty());
}

#[test]
fn shift_holds_the_opposite_corner_and_the_proportions() {
    let f = resized_in_proportion(frame(100, 50, 80, 40), Corner::TopLeft, i(-40), i(0));
    assert_eq!(f, frame(60, 30, 120, 60));
    assert_eq!(
        opposite_point(f, Corner::TopLeft),
        opposite_point(frame(100, 50, 80, 40), Corner::TopLeft)
    );
    let l = line_stretched(frame(0, 0, 30, 40), LineEnd::Start, i(-30), i(-40));
    assert_eq!(l, frame(-30, -40, 60, 80), "the far end stays at 30, 40");
}

#[test]
fn turned_shapes_hold_the_drawn_corner() {
    let start = frame(100, 50, 80, 40);
    for (angle, in_proportion) in [(90, false), (90, true), (30, false), (215, true)] {
        let (sin, cos) = i(angle).sine_cosine();
        let f = corner_dragged(start, Corner::BottomRight, i(13), i(7), i(angle), in_proportion);
        assert_eq!(
            held_corner(f, Corner::BottomRight, sin, cos),
            held_corner(start, Corner::BottomRight, sin, cos)
        );
        assert_ne!(f, start);
    }
}

#[test]
fn zooms_stay_between_a_quarter_and_four() {
    let mut v: Viewport<Micro> = Viewport::fresh();
    for _ in 0..20 {
        v.zoom_step(m("1.25"));
    }
    assert_eq!(v.zoom, i(4));
    for _ in 0..40 {
        v.zoom_step(m("0.8"));
    }
    assert_eq!(v.zoom, ratio(1, 4));
    v.zoom_reset();
    assert_eq!(v.zoom, i(1));
}

#[test]
fn pictures_take_four_fifths_of_the_view_at_most() {
    let v: Viewport<Micro> = Viewport::fresh();
    assert_eq!(initial_frame(&v, (i(1600), i(400))), frame(80, 220, 640, 160));
    assert_eq!(initial_frame(&v, (i(100), i(50))), frame(350, 275, 100, 50), "never enlarged");
}

#[test]
fn a_step_in_and_a_step_out_come_back() {
    let mut v: Viewport<Micro> = Viewport::fresh();
    v.pan = pt(30, -20);
    let (zoom, pan) = (v.zoom, v.pan);
    let under = v.to_model(v.center());
    v.zoom_step(m("1.25"));
    assert_eq!(v.zoom, m("1.25"));
    assert_eq!(v.to_model(v.center()), under, "the middle stays under the middle");
    v.zoom_step(m("0.8"));
    assert_eq!((v.zoom, v.pan), (zoom, pan));
    v.zoom_step(m("0.8"));
    assert_eq!(v.zoom, m("0.8"));
    v.zoom_step(m("1.25"));
    assert_eq!((v.zoom, v.pan), (zoom, pan), "the other way round too");
}

#[test]
fn a_turned_group_keeps_its_pivot_and_comes_home() {
    let (mut e, g, a, b) = pair();
    let ids = [a, b];
    let pivot = e.scene.pivot(&ids);
    let home: Vec<_> = ids.iter().map(|id| e.scene.raw_frame(*id)).collect();
    e.scene.set_rotation(g, i(37));
    let now = e.scene.pivot(&ids);
    assert!(now.x.minus(pivot.x).magnitude().at_most(m("0.000007")));
    assert!(now.y.minus(pivot.y).magnitude().at_most(m("0.000007")));
    let (mut e, g, ..) = pair();
    e.scene.set_rotation(g, i(90));
    assert_ne!(e.scene.raw_frame(a), home[0]);
    assert_eq!(e.scene.rotation(a), i(90));
    e.scene.set_rotation(g, i(0));
    for (id, f) in ids.iter().zip(&home) {
        assert_eq!(e.scene.raw_frame(*id), *f);
        assert_eq!(e.scene.rotation(*id), i(0));
    }
}

#[test]
fn the_deepest_hit_is_in_the_topmost_one() {
    let (e, g, a, b) = pair();
    let one = i(1);
    for (p, shape) in [(pt(40, 40), a), (pt(258, 152), b)] {
        let leaf = e.scene.hit_leaf(p, one).expect("a shape is hit");
        assert_eq!(leaf, shape);
        assert!(e.scene.point_in_shape(leaf, p, one));
        assert_eq!(e.scene.hit_top_level(p, one), Some(g));
        assert_eq!(e.scene.top_level_ancestor(leaf), g);
    }
    assert_eq!(e.scene.hit_leaf(pt(900, 900), one), None);
    assert_eq!(e.scene.hit_top_level(pt(900, 900), one), None);
}

#[test]
fn deleting_a_selection_takes_its_subtrees_alone() {
    let (mut e, g, a, b) = pair();
    let other = e.scene.place_shape(NodeKind::Rect, i(400), i(400));
    let gone = e.scene.place_shape(NodeKind::Rect, i(500), i(400));
    e.selection = vec![gone, a, g];
    e.delete_selection();
    for id in [g, a, b, gone] {
        assert!(e.scene.find(id).is_none());
    }
    assert_eq!(e.scene.nodes.len(), 1);
    assert!(e.scene.find(other).is_some());
}

#[test]
fn pictures_are_let_go_and_decoded_anew() {
    let bytes = vec![1u8, 2, 3];
    let mut cache: ImageCache<u32> = ImageCache::empty();
    assert_eq!(cache.follow(vec![(7, bytes.clone())]), vec![(7, bytes.clone())]);
    assert!(cache.decoded(7, &bytes, Some(40)));
    assert!(cache.follow(vec![(7, bytes.clone())]).is_empty(), "nothing to decode again");
    assert_eq!(cache.get(7), Some(&40));
    assert!(cache.follow(vec![]).is_empty());
    assert_eq!(cache.get(7), None, "let go with its node");
    assert!(!cache.decoded(7, &bytes, Some(41)), "what comes too late is not taken in");
    assert_eq!(cache.follow(vec![(7, bytes.clone())]), vec![(7, bytes.clone())]);
    assert!(cache.decoded(7, &bytes, Some(42)));
    assert_eq!(cache.get(7), Some(&42));
}

#[test]
fn pulls_go_to_the_nearest_line_within_reach() {
    let edges = vec![i(0), i(20), i(40)];
    let stops = vec![i(100), i(64), i(61)];
    assert_eq!(find_pull(&edges, i(22), &stops, i(5)), Some((i(-1), i(61))));
    assert_eq!(find_pull(&edges, i(30), &stops, i(5)), None);
    assert_eq!(find_pull(&edges, i(0), &stops, i(100)), None, "nothing without travel");
}

#[test]
fn a_nudge_moves_no_shape_twice() {
    let (mut e, g, a, b) = pair();
    let (fa, fb) = (e.scene.raw_frame(a), e.scene.raw_frame(b));
    e.selection = vec![a, g];
    e.nudge_selection(i(10), i(0));
    assert_eq!(e.scene.raw_frame(a), (fa.0.plus(i(10)), fa.1, fa.2, fa.3));
    assert_eq!(e.scene.raw_frame(b), (fb.0.plus(i(10)), fb.1, fb.2, fb.3));
}

/// The square of the distance between the centres of two shapes, in square millionths.
fn square_apart(e: &Editor<Micro>, a: u64, b: u64) -> i128 {
    let (p, q) = (e.scene.pivot(&[a]), e.scene.pivot(&[b]));
    let (x, y) = (p.x.raw as i128 - q.x.raw as i128, p.y.raw as i128 - q.y.raw as i128);
    x * x + y * y
}

#[test]
fn turns_by_any_angle_keep_distances_and_come_home() {
    let (mut e, g, a, b) = pair();
    let l = e.scene.place_shape(NodeKind::Line, i(-300), i(40));
    e.selection = vec![g, l];
    e.group_selection();
    let all = e.selection[0];
    let ids = [a, b, l];
    let home: Vec<_> = ids.iter().map(|id| e.scene.raw_frame(*id)).collect();
    let apart = square_apart(&e, a, b);
    let start = e.scene.rotation(all);
    for degrees in [17, 101, 44, 233, 359, -71, 3] {
        e.scene.set_rotation(all, i(degrees));
        let now = square_apart(&e, a, b);
        assert!((now - apart).abs() * 50_000 < apart, "{degrees}: {now} for {apart}");
        assert_ne!(e.scene.raw_frame(l), home[2]);
    }
    e.scene.set_rotation(all, start.plus(i(720)));
    for (id, f) in ids.iter().zip(&home) {
        let now = e.scene.raw_frame(*id);
        for (v, w) in [(now.0, f.0), (now.1, f.1), (now.2, f.2), (now.3, f.3)] {
            assert!(v.minus(w).magnitude().at_most(m("0.02")), "{now:?} for {f:?}");
        }
        let turned = e.scene.rotation(*id).wrapped(i(360));
        assert_eq!(turned, i(0), "at the angle it had");
    }
}

#[test]
fn what_hangs_from_nothing_is_neither_hit_nor_in_the_way() {
    let (mut e, g, a, b) = pair();
    let lost = e.scene.place_shape(NodeKind::Rect, i(600), i(600));
    e.scene.write(lost, Field::Parent(Some(900)));
    let one = i(1);
    assert_eq!(e.scene.hit_leaf(pt(610, 610), one), None);
    assert_eq!(e.scene.hit_top_level(pt(610, 610), one), None);
    assert_eq!(e.scene.hit_leaf(pt(40, 40), one), Some(a));
    // Two nodes inside one another.
    let c = e.scene.place_shape(NodeKind::Rect, i(700), i(600));
    let d = e.scene.place_shape(NodeKind::Rect, i(800), i(600));
    e.scene.write(c, Field::Parent(Some(d)));
    e.scene.write(d, Field::Parent(Some(c)));
    e.selection = vec![900, c];
    e.delete_selection();
    assert!(e.scene.find(c).is_none() && e.scene.find(d).is_none());
    for id in [g, a, b, lost] {
        assert!(e.scene.find(id).is_some(), "nothing else goes");
    }
}

#[test]
fn grouping_is_taken_back_beside_lost_nodes() {
    let mut e: Editor<Micro> = Editor::empty();
    let a = e.scene.place_shape(NodeKind::Rect, i(10), i(20));
    let b = e.scene.place_shape(NodeKind::Oval, i(210), i(120));
    let lost = e.scene.place_shape(NodeKind::Rect, i(600), i(600));
    e.scene.write(lost, Field::Parent(Some(900)));
    let before = e.scene.replica();
    e.selection = vec![b, a];
    e.group_selection();
    let g = e.selection[0];
    e.ungroup_selection();
    assert!(e.scene.find(g).is_none());
    assert_eq!(e.selection, vec![b, a]);
    for (n, m) in before.nodes.iter().zip(&e.scene.nodes) {
        assert_eq!((n.id, n.parent, n.kind, n.x, n.y), (m.id, m.parent, m.kind, m.x, m.y));
    }
}

#[test]
fn a_copy_is_whole_whatever_else_is_drawn() {
    let mut e: Editor<Micro> = Editor::empty();
    let odd = e.scene.place_shape(NodeKind::Rect, i(0), i(0));
    e.scene.write(odd, Field::Fill("\">".to_string()));
    let o = e.scene.place_shape(NodeKind::Oval, i(10), i(20));
    let l = e.scene.place_shape(NodeKind::Line, i(50), i(60));
    e.scene.write(l, Field::W(m("-12.5")));
    e.selection = vec![o, l];
    let svg = e.selection_to_svg().expect("a copy");
    e.paste_text(svg.as_str());
    assert_eq!(e.selection.len(), 2);
    for (id, copy) in [(o, e.selection[0]), (l, e.selection[1])] {
        let (f, g) = (e.scene.raw_frame(id), e.scene.raw_frame(copy));
        assert_eq!((g.2, g.3), (f.2, f.3), "the extent, with its signs");
        assert_eq!((g.0, g.1), (f.0.plus(i(16)), f.1.plus(i(16))));
    }
}

#[test]
fn no_edit_comes_twice() {
    let (mut e, g, a, _) = pair();
    let before = e.scene.replica();
    e.scene.write(a, Field::X(i(11)));
    e.scene.write(a, Field::Y(i(12)));
    e.scene.write(g, Field::Rotation(i(5)));
    e.scene.background = "#123456".to_string();
    assert_eq!(before.edits(&e.scene).len(), 4);
}
