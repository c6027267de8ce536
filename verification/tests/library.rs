//! The parts of the library one by one, on exact values counted in millionths.
use day_sketch::base64;
use day_sketch::canvas::{Canvas, Drag, DragPhase, Modifiers};
use day_sketch::clipboard::{
    drawing_content, drawing_text, drawing_type, image_types, paste_step, paste_types, with_png,
    PasteStep, Representation,
};
use day_sketch::color::{fill_color, parse_hex, to_hex, Color};
use day_sketch::document::{drawing_name, export_name, first_free, RepeatedId};
use day_sketch::draw::{
    handle_shape, oval_shape, rect_shape, round_rect_shape, segment_shape, DrawOp, PathOp,
};
use day_sketch::geometry::{
    convex_overlap, distance_to_segment, line_dragged, line_stretched, point_in_convex, project,
    resized, resized_in_proportion, turn_about, united, Corner, LineEnd, Point,
};
use day_sketch::images::{initial_frame, placeable, type_of_picture, ImageCache};
use day_sketch::inspector::{fmt, kind_glyph, read_percent, Prop, Row, StyleNum};
use day_sketch::layers::{all_but, Arrange};
use day_sketch::micro::Micro;
use day_sketch::node::{Node, NodeKind};
use day_sketch::ops::{palette, placing_label, starting_extent, Editor};
use day_sketch::paste::can_paste_svg;
use day_sketch::scalar::{clamped, half, ratio, Scalar};
use day_sketch::scene::{position, Field, Scene};
use day_sketch::svg::{read_attrs, read_hex_color, svg_parse, SvgNode};
use day_sketch::text::{
    blank, chars_of, cut, digits, int_text, lowered, spells, string_of, trim, upper,
    without_leading, without_px, without_trailing,
};
use day_sketch::transfer::{
    accepts, named, representation, source, target_types, Imported, Intake, Source, Verdict,
};
use day_sketch::turn::Edit;
use day_sketch::viewport::Viewport;

fn m(text: &str) -> Micro {
    Micro::of_text(text).expect("a number")
}

fn i(n: i64) -> Micro {
    Micro::of_int(n)
}

fn pt(x: i64, y: i64) -> Point<Micro> {
    Point { x: i(x), y: i(y) }
}

fn frame(x: i64, y: i64, w: i64, h: i64) -> (Micro, Micro, Micro, Micro) {
    (i(x), i(y), i(w), i(h))
}

fn chars(s: &str) -> Vec<char> {
    s.chars().collect()
}

fn editor() -> Editor<Micro> {
    Editor::empty()
}

fn place(e: &mut Editor<Micro>, kind: NodeKind, x: i64, y: i64) -> u64 {
    e.scene.place_shape(kind, i(x), i(y))
}

fn node(e: &Editor<Micro>, id: u64) -> &Node<Micro> {
    &e.scene.nodes[e.scene.find(id).expect("the node is there")]
}

fn plain() -> Modifiers {
    Modifiers { shift: false, primary: false, alt: false }
}

fn png() -> Vec<u8> {
    vec![0x89, 0x50, 0x4e, 0x47, 0x0d, 0x0a, 0x1a, 0x0a, 1, 2, 3]
}

// ---------------------------------------------------------------------------
// Numbers
// ---------------------------------------------------------------------------

#[test]
fn millionths_add_multiply_and_divide() {
    assert_eq!(m("1.5").plus(m("2.25")), m("3.75"));
    assert_eq!(m("1.5").minus(m("2.25")), m("-0.75"));
    assert_eq!(m("1.5").times(m("-2.25")), m("-3.375"));
    assert_eq!(i(1).over(i(3)), m("0.333333"));
    assert_eq!(i(-1).over(i(3)), m("-0.333333"));
    assert_eq!(i(1).over(i(0)), i(0));
    assert_eq!(m("-1.5").magnitude(), m("1.5"));
    assert_eq!(m("1.5").negated(), m("-1.5"));
    assert_eq!(i(3).lesser(i(2)), i(2));
    assert_eq!(i(3).greater(i(2)), i(3));
    assert_eq!(half(i(3)), m("1.5"));
    assert_eq!(ratio::<Micro>(35, 100), m("0.35"));
    assert_eq!(clamped(i(5), i(0), i(1)), i(1));
    assert_eq!(clamped(i(-5), i(0), i(1)), i(0));
}

#[test]
fn millionths_stay_in_range() {
    let top = Micro::highest();
    assert_eq!(top.plus(i(1)), top);
    assert_eq!(Micro::lowest().minus(i(1)), Micro::lowest());
    assert_eq!(top.times(top), top);
    assert_eq!(Micro::lowest().negated(), top);
    assert_eq!(i(i64::MAX), top);
    assert!(Micro::lowest().below(top) && top.at_most(top) && top.equals(top) && top.same(top));
    assert!(top.finite());
}

#[test]
fn millionths_turn_round_and_wrap() {
    assert_eq!(i(0).sine_cosine(), (i(0), i(1)));
    assert_eq!(i(30).sine_cosine(), (m("0.5"), m("0.866025")));
    assert_eq!(i(45).sine_cosine(), (m("0.707107"), m("0.707107")));
    assert_eq!(i(123).sine_cosine(), (m("0.838671"), m("-0.544639")));
    assert_eq!(m("-0.000001").sine_cosine(), (i(0), i(1)));
    assert_eq!(i(90).sine_cosine(), (i(1), i(0)));
    assert_eq!(i(180).sine_cosine(), (i(0), i(-1)));
    assert_eq!(i(-90).sine_cosine(), (i(-1), i(0)));
    assert_eq!(i(3).hypotenuse(i(4)), i(5));
    assert_eq!(i(-1).wrapped(i(360)), i(359));
    assert_eq!(i(360).wrapped(i(360)), i(0));
    assert_eq!(m("2.5").rounded(), i(3));
    assert_eq!(m("-2.5").rounded(), i(-3));
    assert!(i(2).whole() && !m("2.5").whole());
    assert_eq!(m("-2.9").to_int(), -2);
    assert_eq!(i(5).signed_like(m("-0.1")), i(-5));
    assert_eq!(i(-5).signed_like(i(0)), i(5));
}

#[test]
fn millionths_have_texts_that_read_back() {
    for text in ["0", "10", "-0.5", "0.000001", "123456.789", "-9223372036854.775808"] {
        assert_eq!(m(text).text(), text);
    }
    assert_eq!(m("+1.50").text(), "1.5");
    assert_eq!(m("1.2345678").text(), "1.234567", "digits past the millionths are dropped");
    assert_eq!(m("7.").text(), "7");
    assert_eq!(m("-1.25").tenth_text(), "-1.3");
    for text in ["", "-", ".5", "1e3", "1 ", "9223372036854.775808"] {
        assert!(Micro::of_text(text).is_none(), "{text}");
    }
}

// ---------------------------------------------------------------------------
// Texts
// ---------------------------------------------------------------------------

#[test]
fn texts_are_cut_trimmed_and_cased() {
    assert_eq!(chars_of("aé\u{2028}"), chars("aé\u{2028}"));
    assert_eq!(string_of(&chars("aé")), "aé");
    assert_eq!(cut(&chars("hello"), 1, 3), chars("el"));
    assert!(spells(&chars("rect"), "rect") && !spells(&chars("rec"), "rect"));
    assert_eq!(trim(&chars("\u{3000} a b\t\n")), chars("a b"));
    assert!(blank('\u{85}') && !blank('\u{200b}'));
    assert_eq!(lowered(&chars("ViewBoxÉ")), chars("viewboxÉ"));
    assert_eq!(upper('f'), 'F');
    assert_eq!(without_px(&chars("4pxpx")), chars("4"));
    assert_eq!(without_leading(&chars("##a#"), '#'), chars("a#"));
    assert_eq!(without_trailing(&chars("25%%"), '%'), chars("25"));
    assert_eq!(digits(9070), chars("9070"));
    assert_eq!(int_text(i64::MIN), "-9223372036854775808");
}

#[test]
fn bytes_travel_as_base_64() {
    for (bytes, text) in [
        (&b""[..], ""),
        (b"f", "Zg=="),
        (b"fo", "Zm8="),
        (b"foo", "Zm9v"),
        (b"foobar", "Zm9vYmFy"),
        (&[0xff, 0xfe, 0xfb][..], "//77"),
    ] {
        assert_eq!(base64::encode(bytes), chars(text));
        assert_eq!(base64::decode(&chars(text)), Some(bytes.to_vec()));
    }
    assert_eq!(base64::decode(&chars("Zg=")), None);
    assert_eq!(base64::decode(&chars("Zg==Zg==")), None, "padding ends the text");
    assert_eq!(base64::decode(&chars("Z!==")), None);
}

#[test]
fn kinds_read_back_and_others_are_refused() {
    for kind in
        [NodeKind::Rect, NodeKind::Oval, NodeKind::Line, NodeKind::Group, NodeKind::Image]
    {
        assert_eq!(NodeKind::from_text(kind.to_text()), Ok(kind));
    }
    assert_eq!(NodeKind::Rect.to_text(), "rect");
    assert_eq!(NodeKind::from_text("blob").expect_err("no kind").found, "blob");
}

#[test]
fn colours_have_texts_that_read_back() {
    for v in [0u32, 0xFFFFFF, 0x123456, 0x3B82F6] {
        let c: Color<Micro> = Color::hex(v);
        assert_eq!(to_hex(c), format!("#{v:06X}"));
        assert_eq!(parse_hex::<Micro>(&to_hex(c)), c);
        assert_eq!(fill_color::<Micro>(&to_hex(c)), c);
    }
    let grey: Color<Micro> = Color::hex(0x888888);
    assert_eq!(parse_hex::<Micro>(" #f00 "), Color::hex(0xFF0000));
    assert_eq!(fill_color::<Micro>("#f00"), Color::hex(0x000F00), "the canvas reads the digits");
    for text in ["", "#", "#12345G", "#1FFFFFFFF", "-1", "+"] {
        assert_eq!(parse_hex::<Micro>(text), grey, "{text}");
        assert_eq!(fill_color::<Micro>(text), grey, "{text}");
    }
    assert_eq!(parse_hex::<Micro>("+ff"), Color::hex(0x888888), "three characters are doubled");
    assert_eq!(fill_color::<Micro>("+ff"), Color::hex(0xFF));
    let faint = Color::<Micro>::hex(0).with_alpha(m("0.5"));
    assert_eq!(faint.a, m("0.5"));
    assert_eq!(to_hex(Color { r: i(2), g: i(-1), b: m("0.5"), a: i(1) }), "#FF0080");
}

// ---------------------------------------------------------------------------
// Geometry
// ---------------------------------------------------------------------------

#[test]
fn frames_unite_and_points_turn() {
    assert_eq!(united(frame(0, 0, 10, 10), frame(5, -5, 10, 5)), frame(0, -5, 15, 15));
    assert_eq!(turn_about(pt(10, 0), pt(0, 0), i(90)), pt(0, 10));
    assert_eq!(distance_to_segment(pt(5, 3), pt(0, 0), pt(10, 0)), i(3));
    assert_eq!(distance_to_segment(pt(13, 4), pt(0, 0), pt(10, 0)), i(5));
    assert_eq!(distance_to_segment(pt(3, 4), pt(0, 0), pt(0, 0)), i(5), "a point");
}

#[test]
fn polygons_overlap_and_hold_points() {
    let square = [pt(0, 0), pt(10, 0), pt(10, 10), pt(0, 10)];
    let near = [pt(10, 10), pt(20, 10), pt(20, 20), pt(10, 20)];
    let far = [pt(11, 11), pt(20, 11), pt(20, 20), pt(11, 20)];
    assert!(convex_overlap(&square, &near), "touching is overlapping");
    assert!(!convex_overlap(&square, &far));
    assert!(convex_overlap(&[pt(-5, 5), pt(15, 5)], &square));
    assert!(!convex_overlap(&[pt(-5, 11), pt(15, 12)], &square));
    assert!(point_in_convex(&square, pt(5, 5)) && !point_in_convex(&square, pt(15, 5)));
    assert_eq!(project(&square, pt(1, 1)), (i(0), i(20)));
}

#[test]
fn resizing_holds_the_opposite_corner_and_the_minimum() {
    let start = frame(10, 20, 40, 30);
    assert_eq!(resized(start, Corner::BottomRight, i(5), i(-5)), frame(10, 20, 45, 25));
    assert_eq!(resized(start, Corner::TopLeft, i(5), i(-5)), frame(15, 15, 35, 35));
    assert_eq!(resized(start, Corner::TopLeft, i(100), i(100)), frame(42, 42, 8, 8));
    assert_eq!(resized(start, Corner::TopRight, i(-100), i(100)), frame(10, 42, 8, 8));
    assert_eq!(resized(start, Corner::BottomLeft, i(100), i(-100)), frame(42, 20, 8, 8));
    let even = frame(0, 0, 40, 20);
    assert_eq!(resized_in_proportion(even, Corner::BottomRight, i(40), i(0)), frame(0, 0, 80, 40));
    assert_eq!(resized_in_proportion(even, Corner::TopLeft, i(100), i(100)), frame(24, 12, 16, 8));
    assert_eq!(
        resized_in_proportion(frame(0, 0, 0, 20), Corner::BottomRight, i(10), i(10)),
        frame(0, 0, 10, 30)
    );
}

#[test]
fn line_ends_move_alone() {
    let start = frame(10, 20, 60, 40);
    assert_eq!(line_dragged(start, LineEnd::Start, i(5), i(-10)), frame(15, 10, 55, 50));
    let flat = frame(0, 0, 100, 0);
    assert_eq!(line_stretched(flat, LineEnd::End, i(50), i(30)), frame(0, 0, 150, 0));
    assert_eq!(line_stretched(flat, LineEnd::Start, i(25), i(30)), frame(25, 0, 75, 0));
    assert_eq!(line_stretched(frame(1, 1, 0, 0), LineEnd::End, i(3), i(4)), frame(1, 1, 3, 4));
}

#[test]
fn the_view_zooms_about_its_anchor() {
    let mut v: Viewport<Micro> = Viewport::fresh();
    assert_eq!(v.center(), pt(400, 300));
    v.zoom_step(i(2));
    assert_eq!((v.zoom, v.pan), (i(2), pt(-400, -300)));
    assert_eq!(v.to_model(pt(400, 300)), pt(400, 300), "the middle stays");
    assert_eq!(v.to_screen(v.to_model(pt(100, 50))), pt(100, 50));
    v.zoom_to(i(100), pt(0, 0));
    assert_eq!(v.zoom, i(4));
    assert_eq!(v.zoom_percent(), 400);
    v.zoom_to(m("0.01"), pt(0, 0));
    assert_eq!(v.zoom, m("0.25"));
    v.zoom_reset();
    assert_eq!(v.zoom, i(1));
    v.pan = pt(0, 0);
    v.pan_by(i(3), i(-4));
    assert_eq!(v.pan, pt(3, -4));
    let mut c: Canvas<Micro> = Canvas::fresh();
    c.on_pinch(DragPhase::Began, pt(100, 100), i(1));
    c.on_pinch(DragPhase::Changed, pt(500, 500), i(2));
    assert_eq!((c.viewport.zoom, c.viewport.pan), (i(2), pt(-100, -100)));
}

// ---------------------------------------------------------------------------
// The scene
// ---------------------------------------------------------------------------

#[test]
fn placing_fills_in_the_kind() {
    let mut e = editor();
    let r = place(&mut e, NodeKind::Rect, 10, 20);
    let l = place(&mut e, NodeKind::Line, 0, 0);
    assert_eq!((r, l), (1, 2));
    assert_eq!(node(&e, r).fill, "#EF4444");
    assert_eq!(palette(6), "#3B82F6");
    assert_eq!(node(&e, r).stroke_opacity, m("0.35"));
    assert_eq!((node(&e, l).w, node(&e, l).h), starting_extent(NodeKind::Line));
    assert_eq!((node(&e, r).z, node(&e, l).z), (i(1), i(2)));
    assert_eq!(placing_label(NodeKind::Line), "add-line");
    let v = Viewport::fresh();
    let c = e.place_centered(&v, NodeKind::Oval);
    assert_eq!((node(&e, c).x, node(&e, c).y), (i(352), i(268)));
    assert_eq!(e.selection, vec![c]);
}

#[test]
fn missing_rows_read_as_blank() {
    let mut e = editor();
    assert_eq!(e.scene.node_kind(7), None);
    assert_eq!(e.scene.kind(7), NodeKind::Rect);
    assert_eq!(e.scene.parent_of(7), None);
    assert_eq!(e.scene.raw_frame(7), frame(0, 0, 0, 0));
    assert_eq!(e.scene.shape_descendants(7), vec![7]);
    e.scene.write(7, Field::X(i(5)));
    assert!(e.scene.nodes.is_empty());
    e.scene.reparent(7, None, None);
    e.scene.remove(7);
    assert!(e.scene.nodes.is_empty());
}

#[test]
fn a_full_gap_renumbers_the_members() {
    let mut e = editor();
    let ids: Vec<u64> = (0..3).map(|k| place(&mut e, NodeKind::Rect, k, 0)).collect();
    e.selection = ids.clone();
    e.group_selection();
    let g = e.selection[0];
    e.scene.write(ids[0], Field::Z(m("1.000000")));
    e.scene.write(ids[1], Field::Z(m("1.000001")));
    e.scene.reparent(ids[2], Some(g), Some(1));
    assert_eq!(e.scene.children_of(Some(g)), vec![ids[0], ids[2], ids[1]]);
    assert_eq!(e.scene.z(ids[0]), i(1));
    assert_eq!(e.scene.z(ids[2]), m("1.5"));
    assert_eq!(e.scene.z(ids[1]), i(2));
    e.selection = vec![ids[0]];
    e.arrange_selection(Arrange::Up);
    assert_eq!(e.scene.children_of(Some(g)), vec![ids[2], ids[0], ids[1]]);
}

#[test]
fn a_group_outside_two_is_none() {
    let mut e = editor();
    let a = place(&mut e, NodeKind::Rect, 0, 0);
    e.selection = vec![a];
    e.group_selection();
    assert_eq!(e.scene.nodes.len(), 1);
    assert_eq!(e.selection, vec![a]);
}

#[test]
fn edits_tell_what_changed_and_only_that() {
    let mut e = editor();
    let a = place(&mut e, NodeKind::Rect, 0, 0);
    let b = place(&mut e, NodeKind::Rect, 10, 0);
    let before = e.scene.replica();
    assert!(before.edits(&e.scene).is_empty());
    e.scene.write(b, Field::X(i(5)));
    e.scene.remove(a);
    let c = place(&mut e, NodeKind::Oval, 0, 0);
    e.set_background("#000000");
    let edits = before.edits(&e.scene);
    let mut seen = String::new();
    for edit in &edits {
        match edit {
            Edit::Delete(n) => seen.push_str(&format!("-{} ", n.id)),
            Edit::Write { id, was: Field::X(w), now: Field::X(n) } => {
                seen.push_str(&format!("{id}.x {}={} ", w.text(), n.text()))
            }
            Edit::Write { .. } => panic!("another column"),
            Edit::Insert(n) => seen.push_str(&format!("+{} ", n.id)),
            Edit::Background { old_paper, new_paper } => {
                seen.push_str(&format!("{old_paper}={new_paper}"))
            }
        }
    }
    assert_eq!(seen, format!("-{a} {b}.x 10=5 +{c} #FFFFFF=#000000"));
}

#[test]
fn a_file_with_a_repeated_id_is_refused() {
    let mut one: Node<Micro> = Node::fresh();
    one.id = 3;
    let two = one.replica();
    let s = Scene::load(vec![one.replica()], None).ok().expect("one row");
    assert_eq!(s.background, "#FFFFFF");
    assert_eq!(Scene::load(vec![one, two], None).err(), Some(RepeatedId { id: 3 }));
    assert_eq!(drawing_name(12), "Drawing 12.daysketch");
    assert_eq!(export_name("Plan"), "Plan.daysketch");
}

#[test]
fn lists_are_searched_and_thinned() {
    assert_eq!(position(&[4, 5, 5], 5), Some(1));
    assert_eq!(position(&[4], 5), None);
    assert_eq!(all_but(&[4, 5, 6], 5), vec![4, 6]);
}

#[test]
fn a_menu_speaks_of_what_it_is_summoned_on() {
    let mut e = editor();
    e.selection = vec![1, 2];
    e.summon(2);
    assert_eq!(e.selection, vec![1, 2]);
    e.summon(3);
    assert_eq!(e.selection, vec![3]);
}

// ---------------------------------------------------------------------------
// SVG
// ---------------------------------------------------------------------------

fn parse(text: &str) -> Vec<SvgNode<Micro>> {
    svg_parse(&chars(text))
}

#[test]
fn attributes_are_read_in_either_quotes() {
    let a = read_attrs(&chars(r##" X="1" y = '2' bare z=3 Fill="#abc" last="open"##));
    let a: Vec<(String, String)> = a.iter().map(|(n, v)| (string_of(n), string_of(v))).collect();
    let want = [("x", "1"), ("y", "2"), ("fill", "#abc"), ("last", "open")];
    assert_eq!(a, want.map(|(n, v)| (n.to_string(), v.to_string())));
    assert_eq!(read_hex_color(&chars("#aBc")), Some("#AABBCC".to_string()));
    assert_eq!(read_hex_color(&chars("#abcd")), None);
    assert_eq!(read_hex_color(&chars("red")), None);
}

#[test]
fn documents_nest_and_truncated_ones_keep_their_shapes() {
    let nodes = parse("<svg><g><rect width='9' height='9'/><G><line x2='5'/></g></g></svg>");
    assert_eq!(nodes.len(), 1);
    let SvgNode::Group(outer) = &nodes[0] else { panic!("a group") };
    assert_eq!(outer.len(), 2);
    let SvgNode::Group(inner) = &outer[1] else { panic!("a group inside") };
    let SvgNode::Shape(line) = &inner[0] else { panic!("a line") };
    assert_eq!((line.kind, line.w, line.h), (NodeKind::Line, i(5), i(0)));
    assert_eq!(parse("<g><rect width='9' height='9'/><g><circle r='4'/>").len(), 2);
    assert_eq!(parse("<rect width='0' height='9'/><line/><g/></g><rect").len(), 0);
    assert!(!can_paste_svg::<Micro>("just text"));
    assert!(can_paste_svg::<Micro>("<circle r='4'/>"));
}

#[test]
fn only_rotations_are_read_from_transforms() {
    let turn = |t: &str| {
        let nodes = parse(&format!("<rect width='9' height='9' transform=\"{t}\"/>"));
        match &nodes[0] {
            SvgNode::Shape(s) => s.rotation,
            SvgNode::Group(_) => panic!("a shape"),
        }
    };
    assert_eq!(turn("rotate(45 1 2)"), Some(i(45)));
    assert_eq!(turn(" rotate( -90,1,2)"), Some(i(270)));
    assert_eq!(turn("rotate()"), None);
    assert_eq!(turn("matrix(1 0 0 1 0 0)"), None);
}

#[test]
fn styles_are_clamped_and_sizes_floored() {
    let mut e = editor();
    let text = "<rect width='2' height='9' rx='-1' fill-opacity='7' stroke-width='-3'/>";
    assert!(e.has_room(text));
    e.paste_text(text);
    let n = node(&e, e.selection[0]);
    assert_eq!((n.w, n.h), (i(8), i(9)));
    assert_eq!((n.corner_radius, n.fill_opacity, n.stroke_width), (i(0), i(1), i(0)));
    assert_eq!((n.x, n.y), (i(16), i(16)));
    let before = e.scene.nodes.len();
    e.paste_text("nothing here");
    assert_eq!(e.scene.nodes.len(), before);
}

#[test]
fn the_written_document_is_exact() {
    let mut e = editor();
    let a = place(&mut e, NodeKind::Rect, 10, 20);
    e.scene.write(a, Field::Rotation(i(45)));
    e.selection = vec![a];
    assert_eq!(
        e.selection_to_svg().expect("a document"),
        "<svg xmlns=\"http://www.w3.org/2000/svg\" viewBox=\"10 20 96 64\">\
         <rect x=\"10\" y=\"20\" width=\"96\" height=\"64\" fill=\"#EF4444\" \
         fill-opacity=\"1\" stroke=\"#000000\" stroke-width=\"1\" stroke-opacity=\"0.35\" \
         transform=\"rotate(45 58 52)\"/></svg>"
    );
    e.selection = Vec::new();
    assert!(e.selection_to_svg().is_none());
    assert!(e.cut_selection_svg().is_none());
}

// ---------------------------------------------------------------------------
// Pictures, clipboard, drops
// ---------------------------------------------------------------------------

#[test]
fn pictures_are_told_by_their_first_bytes() {
    assert_eq!(type_of_picture(&png()), "image/png");
    assert_eq!(type_of_picture(&[0xff, 0xd8, 0xff, 0]), "image/jpeg");
    assert_eq!(type_of_picture(b"GIF89a..."), "image/gif");
    assert_eq!(type_of_picture(b"BM...."), "image/bmp");
    assert_eq!(type_of_picture(&[0x4d, 0x4d, 0, 0x2a]), "image/tiff");
    assert_eq!(type_of_picture(b"RIFF....WEBPVP8 "), "image/webp");
    assert_eq!(type_of_picture(b"....ftypheic...."), "image/heif");
    assert_eq!(type_of_picture(b"RIFF....WAVE"), "application/octet-stream");
    assert_eq!(type_of_picture(b""), "application/octet-stream");
}

#[test]
fn new_pictures_fit_and_never_grow() {
    let v: Viewport<Micro> = Viewport::fresh();
    assert_eq!(initial_frame(&v, (i(100), i(50))), frame(350, 275, 100, 50));
    assert_eq!(initial_frame(&v, (i(1280), i(640))), frame(80, 140, 640, 320));
    assert!(placeable((i(1), i(1))));
    assert!(!placeable((i(0), i(1))) && !placeable((i(1), i(-1))));
}

#[test]
fn a_cache_waits_for_changed_bytes() {
    let mut cache: ImageCache<&str> = ImageCache::empty();
    assert_eq!(cache.follow(vec![(1, vec![1]), (2, vec![2])]).len(), 2);
    assert!(cache.decoded(1, &vec![1], Some("one")));
    assert_eq!(cache.follow(vec![(1, vec![1]), (2, vec![9])]), vec![(2, vec![9])]);
    assert_eq!(cache.get(1), Some(&"one"));
    assert!(!cache.decoded(2, &vec![2], Some("stale")), "its bytes have changed since");
    assert!(cache.decoded(2, &vec![9], None), "a picture that would not decode");
    assert_eq!(cache.get(2), None);
}

#[test]
fn a_copied_picture_is_offered_in_its_format_first() {
    let mimes = |c: &[Representation]| c.iter().map(|r| r.mime.clone()).collect::<Vec<_>>();
    let plain_types = [drawing_type(), "image/svg+xml", "text/plain", "text/html"];
    assert_eq!(mimes(&drawing_content("<svg/>", None)), plain_types);
    assert_eq!(mimes(&drawing_content("<svg/>", Some(vec![1, 2]))), plain_types);
    assert_eq!(mimes(&drawing_content("<svg/>", Some(b"BM1".to_vec())))[0], "image/bmp");
    let mut e = editor();
    assert!(e.copy().is_none());
    let id = e.scene.place_image(b"BM1".to_vec(), frame(0, 0, 10, 10));
    e.selection = vec![id];
    let plan = e.copy().expect("a picture");
    assert_eq!(plan.convert.as_deref(), Some(&b"BM1"[..]));
    let full = with_png(plan.content, png());
    assert_eq!(full[0].mime, "image/png");
    assert_eq!(full[1].mime, "image/bmp");
    e.scene.write(id, Field::ImageBytes(png()));
    assert!(e.copy().expect("a picture").convert.is_none());
    assert!(!e.finish_cut(&vec![id, id]), "the selection has changed");
    assert!(e.finish_cut(&vec![id]));
    assert!(e.scene.nodes.is_empty() && e.selection.is_empty());
}

#[test]
fn a_paste_takes_drawings_over_pictures() {
    let rep = |mime: &str, bytes: &[u8]| Representation { mime: mime.into(), bytes: bytes.to_vec() };
    match paste_step::<Micro>(rep("text/plain", "<circle r='4'/> \u{e9}".as_bytes())) {
        PasteStep::Drawing(t) => assert_eq!(t, "<circle r='4'/> \u{e9}"),
        _ => panic!("a drawing"),
    }
    assert!(matches!(
        paste_step::<Micro>(rep("text/html", b"https://example.org")),
        PasteStep::AskForPicture
    ));
    assert!(matches!(
        paste_step::<Micro>(rep(drawing_type(), b"<circle r='4'/>\xff")),
        PasteStep::AskForPicture
    ));
    match paste_step::<Micro>(rep("image/png", &png())) {
        PasteStep::Decode(b) => assert_eq!(b, png()),
        _ => panic!("a picture"),
    }
    assert!(drawing_text::<Micro>(b"\xff").is_none());
    assert_eq!(paste_types().len(), image_types().len() + 4);
    let mut e = editor();
    e.place_picture(&Viewport::fresh(), png(), (i(100), i(50)));
    assert_eq!(e.selection, vec![1]);
    assert_eq!((node(&e, 1).x, node(&e, 1).image_bytes.clone()), (i(350), png()));
}

#[test]
fn drops_are_read_in_order_and_within_their_budget() {
    let rep = |mime: &str| Representation { mime: mime.into(), bytes: vec![] };
    let item = vec![rep("text/plain"), rep("image/png"), rep("image/svg+xml"), rep("image/png")];
    assert_eq!(representation(&item), Some(2));
    assert_eq!(representation(&vec![rep("image/bmp"), rep("image/png")]), Some(1));
    assert_eq!(representation(&vec![rep("text/plain")]), None);
    let mut intake: Intake<Micro> = Intake::new(40);
    assert_eq!(intake.offer("image/svg+xml", &b"<circle r='4'/>".to_vec()), Verdict::Taken);
    assert_eq!(intake.offer("image/svg+xml", &b"not one".to_vec()), Verdict::Decode);
    assert_eq!(intake.offer("", &b"<circle r='4'/>".to_vec()), Verdict::Taken);
    assert_eq!(intake.remaining, 3);
    assert_eq!(intake.offer("image/png", &png()), Verdict::Refused);
    assert!(!intake.decoded(png(), None));
    assert!(!intake.decoded(png(), Some((i(0), i(4)))));
    assert_eq!(intake.imports.len(), 2);
    assert!(intake.overfull(1) && !intake.overfull(2));
    let v: Viewport<Micro> = Viewport::fresh();
    assert!(accepts(&v, pt(0, 0), true) && !accepts(&v, pt(800, 0), true));
    assert!(!accepts(&v, pt(0, 0), false) && !accepts(&v, pt(0, -1), true));
    assert_eq!(target_types()[2], "text/uri-list");
}

#[test]
fn an_item_is_read_from_its_best_bytes_or_from_the_files_it_lists() {
    let rep = |mime: &str, text: &str| Representation {
        mime: mime.into(),
        bytes: text.as_bytes().to_vec(),
    };
    let list = "# files\r\nfile:///tmp/a%20b.png\r\n\r\nfile://localhost/tmp/two\r\n";
    let both = vec![rep("text/uri-list", list), rep("image/png", "")];
    assert!(matches!(source(&both), Source::Bytes(1)), "bytes before files");
    match source(&vec![rep("text/plain", ""), rep("text/uri-list", list)]) {
        Source::Files(paths) => {
            assert_eq!(paths.len(), 2);
            assert!(paths[0].ends_with("a b.png") && paths[1].ends_with("two"));
        }
        _ => panic!("a list of files"),
    }
    for list in ["", "https://example.com/a", "file:///tmp/a#part", "# none"] {
        let refused = source(&vec![rep("text/uri-list", list)]);
        assert!(matches!(refused, Source::Refused), "{list}");
    }
    assert!(matches!(source(&vec![rep("text/plain", "")]), Source::Refused));
    assert!(matches!(named(None), Source::Refused));
    assert!(matches!(named(Some(vec!["a".into()])), Source::Files(paths) if paths.len() == 1));
    let intake: Intake<Micro> = Intake::new(40);
    assert_eq!(intake.read_limit(), 41);
}

#[test]
fn the_layer_tree_lists_groups_before_their_members() {
    let mut e = editor();
    let a = e.scene.place_shape(NodeKind::Rect, i(0), i(0));
    let b = e.scene.place_shape(NodeKind::Oval, i(100), i(0));
    let c = e.scene.place_shape(NodeKind::Line, i(200), i(0));
    e.selection = vec![b, a];
    e.group_selection();
    let g = e.selection[0];
    let lines: Vec<_> = e.scene.layers().iter().map(|l| (l.id, l.parent, l.kind)).collect();
    let members = [(b, Some(g), NodeKind::Oval), (a, Some(g), NodeKind::Rect)];
    let group = (g, None, NodeKind::Group);
    let line = (c, None, NodeKind::Line);
    assert!(lines == [group, members[0], members[1], line] || lines == [line, group, members[0], members[1]]);
}

#[test]
fn a_dropped_drawing_is_centred_where_it_fell() {
    let mut e = editor();
    let v: Viewport<Micro> = Viewport::fresh();
    let text = "<rect x='500' y='500' width='20' height='10'/>".to_string();
    let imports =
        vec![Imported::Drawing(text), Imported::Image(png(), (i(10), i(10)))];
    e.receive(&v, imports, pt(100, 100));
    assert_eq!(e.selection, vec![1, 2]);
    assert_eq!((node(&e, 1).x, node(&e, 1).y), (i(90), i(95)));
    assert_eq!((node(&e, 2).x, node(&e, 2).y), (i(111), i(111)));
}

// ---------------------------------------------------------------------------
// The inspector, and what is drawn
// ---------------------------------------------------------------------------

#[test]
fn values_are_shown_with_one_decimal_at_most() {
    assert_eq!(fmt(m("10")), "10");
    assert_eq!(fmt(m("10.04")), "10");
    assert_eq!(fmt(m("10.06")), "10.1");
    assert_eq!(fmt(m("-0.25")), "-0.3");
    assert_eq!(read_percent::<Micro>(" 25 % "), Some(m("0.25")));
    assert_eq!(read_percent::<Micro>("-5"), Some(i(0)));
    assert_eq!(read_percent::<Micro>("half"), None);
    let mut e = editor();
    let a = place(&mut e, NodeKind::Rect, 10, 20);
    e.selection = vec![a];
    assert_eq!(e.frame_text(), "10,20 96x64");
    assert_eq!(e.common(Prop::H), Some(i(64)));
    assert_eq!(e.style_shown(StyleNum::StrokeWidth), i(1));
    assert_eq!(e.commit_prop(Prop::Y, " 7 "), Some("move"));
    assert_eq!(node(&e, a).y, i(7));
    assert_eq!(e.commit_prop(Prop::Y, "x"), None);
    e.selection = Vec::new();
    assert_eq!(e.frame_text(), "");
    assert_eq!(e.commit_prop(Prop::Y, "7"), None);
    assert_eq!(e.set_style(StyleNum::StrokeWidth, i(3)), None);
    assert_eq!(kind_glyph(NodeKind::Line), "∕");
    assert!(Row::Angle.applies(NodeKind::Group) && !Row::Fill.applies(NodeKind::Image));
}

#[test]
fn outlines_are_exact() {
    let rect = rect_shape(i(0), i(0), i(4), i(3));
    assert_eq!(rect.len(), 5);
    assert!(matches!(rect[2], PathOp::LineTo(p) if p == pt(4, 3)));
    let plain = round_rect_shape(i(0), i(0), i(4), i(3), i(0));
    assert_eq!(plain.len(), 5);
    let round = round_rect_shape(i(0), i(0), i(40), i(20), i(100));
    assert_eq!(round.len(), 10);
    assert!(matches!(round[0], PathOp::MoveTo(p) if p == pt(10, 0)), "half the shorter side");
    let oval = oval_shape(i(0), i(0), i(20), i(10));
    assert!(matches!(oval[1], PathOp::CubicTo(a, _, c)
        if a == (Point { x: i(20), y: m("7.76142") }) && c == pt(10, 10)));
    assert_eq!(segment_shape(pt(0, 0), pt(1, 1)).len(), 2);
    assert!(matches!(handle_shape(pt(10, 10), i(90))[0], PathOp::MoveTo(p) if p == pt(14, 6)));
}

#[test]
fn the_canvas_shows_paper_shapes_marks_and_band() {
    let mut e = editor();
    let a = place(&mut e, NodeKind::Rect, 0, 0);
    let l = place(&mut e, NodeKind::Line, 0, 100);
    let p = e.scene.place_image(png(), frame(0, 200, 10, 10));
    e.scene.write(a, Field::Rotation(i(90)));
    e.selection = vec![l, a];
    let mut c: Canvas<Micro> = Canvas::fresh();
    c.band = Some(frame(1, 2, 3, 4));
    let ops = c.draw_scene(&e);
    let names: String = ops
        .iter()
        .map(|op| match op {
            DrawOp::Clip(_) => 'c',
            DrawOp::Fill(..) => 'f',
            DrawOp::Stroke(..) => 's',
            DrawOp::Dashed(..) => 'd',
            DrawOp::Picture(..) => 'p',
            DrawOp::Push(_) => 'u',
            DrawOp::Pop => 'o',
        })
        .collect();
    let marks = format!("s{}s{}", "fs".repeat(2), "fs".repeat(4));
    assert_eq!(names, format!("cfuufsospo{marks}fd"));
    assert!(matches!(&ops[7], DrawOp::Stroke(_, _, w) if *w == i(2)));
    assert!(matches!(&ops[8], DrawOp::Picture(id, f, _) if *id == p && *f == frame(0, 200, 10, 10)));
}

#[test]
fn a_drag_without_a_beginning_does_nothing() {
    let mut e = editor();
    let a = place(&mut e, NodeKind::Rect, 0, 0);
    let mut c: Canvas<Micro> = Canvas::fresh();
    for phase in [DragPhase::Changed, DragPhase::Ended] {
        let drag = Drag { phase, location: pt(5, 5), translation: pt(5, 5) };
        assert_eq!(c.on_drag(&mut e, drag, plain(), None), None);
    }
    assert_eq!((node(&e, a).x, e.selection.len()), (i(0), 0));
}

#[test]
fn a_zoomed_drag_tracks_the_pointer() {
    let mut e = editor();
    let a = place(&mut e, NodeKind::Rect, 0, 0);
    let mut c: Canvas<Micro> = Canvas::fresh();
    c.viewport.zoom = i(2);
    let at = |phase, x: i64| Drag { phase, location: pt(20 + x, 20), translation: pt(x, 0) };
    assert_eq!(c.on_drag(&mut e, at(DragPhase::Began, 0), plain(), None), None);
    assert_eq!(c.on_drag(&mut e, at(DragPhase::Changed, 50), plain(), None), None);
    assert_eq!(node(&e, a).x, i(25));
    assert_eq!(c.on_drag(&mut e, at(DragPhase::Ended, 30), plain(), None), Some("move"));
    assert_eq!(node(&e, a).x, i(15));
}

#[test]
fn a_new_drawing_takes_the_first_free_number() {
    let names = |ns: &[u64]| ns.iter().map(|n| drawing_name(*n)).collect::<Vec<String>>();
    assert_eq!(first_free(&names(&[])), 1);
    assert_eq!(first_free(&names(&[2, 1, 4])), 3);
    assert_eq!(first_free(&names(&[2])), 1);
}
