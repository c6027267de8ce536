//! What a drawing from another editor says, and that it is read as it is said: the shapes of its
//! elements, in millionths, and its numbers, colours and angles.
use vstd::prelude::*;
use crate::exact::within;
use crate::micro::Micro;
use crate::millionths::double_reads;
use crate::node::NodeKind;
use crate::scalar::Scalar;
use crate::svg::{
    attr, color_attr, hex_color, hex_digit, num, num_or_zero, rotation_attr, shape_of_tag, styled,
    worth_keeping, ShapeModel,
};
use crate::text::upper;
use crate::travel::tag_names;

verus! {

/// Whether a numeric attribute is there, and says `v`.
pub open spec fn says<S: Scalar>(a: Seq<(Seq<char>, Seq<char>)>, name: Seq<char>, v: S) -> bool {
    num::<S>(a, name) == Some(v)
}

/// Whether a number is within a milliard of nought.
pub open spec fn sane(v: Micro) -> bool {
    within(v, 1_000_000_000_000_000)
}

// ---------------------------------------------------------------------------
// Elements
// ---------------------------------------------------------------------------

/// A circle is round: an oval as wide as it is high, twice its radius both ways, with its middle
/// where the circle's is.
pub proof fn circles_are_round(
    a: Seq<(Seq<char>, Seq<char>)>,
    cx: Micro,
    cy: Micro,
    r: Micro,
)
    requires
        says(a, "cx"@, cx),
        says(a, "cy"@, cy),
        says(a, "r"@, r),
        sane(cx),
        sane(cy),
        sane(r),
    ensures
        shape_of_tag::<Micro>("circle"@, a) matches Some(s) && {
            &&& s.kind == NodeKind::Oval
            &&& s.w.raw == 2 * r.raw && s.h.raw == 2 * r.raw
            &&& 2 * s.x.raw + s.w.raw == 2 * cx.raw
            &&& 2 * s.y.raw + s.h.raw == 2 * cy.raw
            &&& worth_keeping(s) <==> r.raw > 0
        },
{
    tag_names();
    double_reads(r);
}

/// An ellipse has its middle where it says, and twice its radii as its extents.
pub proof fn ellipses_are_as_wide_as_their_radii(
    a: Seq<(Seq<char>, Seq<char>)>,
    cx: Micro,
    cy: Micro,
    rx: Micro,
    ry: Micro,
)
    requires
        says(a, "cx"@, cx),
        says(a, "cy"@, cy),
        says(a, "rx"@, rx),
        says(a, "ry"@, ry),
        sane(cx),
        sane(cy),
        sane(rx),
        sane(ry),
    ensures
        shape_of_tag::<Micro>("ellipse"@, a) matches Some(s) && {
            &&& s.kind == NodeKind::Oval
            &&& s.w.raw == 2 * rx.raw && s.h.raw == 2 * ry.raw
            &&& 2 * s.x.raw + s.w.raw == 2 * cx.raw
            &&& 2 * s.y.raw + s.h.raw == 2 * cy.raw
            &&& worth_keeping(s) <==> rx.raw > 0 && ry.raw > 0
        },
{
    tag_names();
    double_reads(rx);
    double_reads(ry);
}

/// Whether two tags say the same of everything but their geometry.
pub open spec fn same_style(a: Seq<(Seq<char>, Seq<char>)>, b: Seq<(Seq<char>, Seq<char>)>) -> bool {
    &&& attr(a, "fill"@) == attr(b, "fill"@)
    &&& attr(a, "fill-opacity"@) == attr(b, "fill-opacity"@)
    &&& attr(a, "stroke"@) == attr(b, "stroke"@)
    &&& attr(a, "stroke-width"@) == attr(b, "stroke-width"@)
    &&& attr(a, "stroke-opacity"@) == attr(b, "stroke-opacity"@)
    &&& attr(a, "transform"@) == attr(b, "transform"@)
}

/// A circle is the ellipse with its radius both ways, in any numbers.
pub proof fn circles_read_as_ellipses<S: Scalar>(
    circle: Seq<(Seq<char>, Seq<char>)>,
    ellipse: Seq<(Seq<char>, Seq<char>)>,
)
    requires
        same_style(circle, ellipse),
        attr(ellipse, "cx"@) == attr(circle, "cx"@),
        attr(ellipse, "cy"@) == attr(circle, "cy"@),
        attr(ellipse, "rx"@) == attr(circle, "r"@),
        attr(ellipse, "ry"@) == attr(circle, "r"@),
    ensures
        shape_of_tag::<S>("circle"@, circle) == shape_of_tag::<S>("ellipse"@, ellipse),
        shape_of_tag::<S>("circle"@, circle) is Some,
{
    tag_names();
    assert(num::<S>(circle, "r"@) == num::<S>(ellipse, "rx"@));
    assert(num::<S>(circle, "r"@) == num::<S>(ellipse, "ry"@));
    assert(num::<S>(circle, "cx"@) == num::<S>(ellipse, "cx"@));
    assert(num::<S>(circle, "cy"@) == num::<S>(ellipse, "cy"@));
    assert(num_or_zero::<S>(circle, "r"@) == num_or_zero::<S>(ellipse, "rx"@));
    assert(num_or_zero::<S>(circle, "r"@) == num_or_zero::<S>(ellipse, "ry"@));
    assert(num_or_zero::<S>(circle, "cx"@) == num_or_zero::<S>(ellipse, "cx"@));
    assert(num_or_zero::<S>(circle, "cy"@) == num_or_zero::<S>(ellipse, "cy"@));
    let (c, e) = (
        shape_of_tag::<S>("circle"@, circle)->0,
        shape_of_tag::<S>("ellipse"@, ellipse)->0,
    );
    style_is_read(NodeKind::Oval, (c.x, c.y, c.w, c.h), circle, ellipse);
    assert(c == styled::<S>(NodeKind::Oval, (c.x, c.y, c.w, c.h), circle));
    assert(e == styled::<S>(NodeKind::Oval, (e.x, e.y, e.w, e.h), ellipse));
    assert((c.x, c.y, c.w, c.h) == (e.x, e.y, e.w, e.h));
}

proof fn style_is_read<S: Scalar>(
    kind: NodeKind,
    frame: (S, S, S, S),
    a: Seq<(Seq<char>, Seq<char>)>,
    b: Seq<(Seq<char>, Seq<char>)>,
)
    requires
        same_style(a, b),
    ensures
        styled(kind, frame, a) == styled(kind, frame, b),
{
    assert(num::<S>(a, "fill-opacity"@) == num::<S>(b, "fill-opacity"@));
    assert(num::<S>(a, "stroke-width"@) == num::<S>(b, "stroke-width"@));
    assert(num::<S>(a, "stroke-opacity"@) == num::<S>(b, "stroke-opacity"@));
    assert(color_attr(a, "fill"@) == color_attr(b, "fill"@));
    assert(color_attr(a, "stroke"@) == color_attr(b, "stroke"@));
    assert(rotation_attr::<S>(a) == rotation_attr::<S>(b));
}

/// A rectangle is where it says, and as large; and as round at its corners.
pub proof fn rectangles_are_where_they_say<S: Scalar>(
    a: Seq<(Seq<char>, Seq<char>)>,
    x: S,
    y: S,
    w: S,
    h: S,
)
    requires
        says(a, "x"@, x),
        says(a, "y"@, y),
        says(a, "width"@, w),
        says(a, "height"@, h),
    ensures
        shape_of_tag::<S>("rect"@, a) matches Some(s) && {
            &&& s.kind == NodeKind::Rect
            &&& (s.x, s.y, s.w, s.h) == (x, y, w, h)
            &&& attr(a, "rx"@) is None && attr(a, "ry"@) is None ==> s.corner_radius is None
            &&& forall|r: S|
                S::of_int(0).below(r) && #[trigger] says(a, "rx"@, r) ==> s.corner_radius == Some(
                    r.greater(S::of_int(0)),
                )
        },
{
    tag_names();
}

/// A line runs from where it says to where it says.
pub proof fn lines_run_from_end_to_end(
    a: Seq<(Seq<char>, Seq<char>)>,
    x1: Micro,
    y1: Micro,
    x2: Micro,
    y2: Micro,
)
    requires
        says(a, "x1"@, x1),
        says(a, "y1"@, y1),
        says(a, "x2"@, x2),
        says(a, "y2"@, y2),
        sane(x1),
        sane(y1),
        sane(x2),
        sane(y2),
    ensures
        shape_of_tag::<Micro>("line"@, a) matches Some(s) && {
            &&& s.kind == NodeKind::Line
            &&& s.x == x1 && s.y == y1
            &&& s.x.raw + s.w.raw == x2.raw && s.y.raw + s.h.raw == y2.raw
            &&& s.fill is None && s.rotation is None
            &&& worth_keeping(s) <==> x1 != x2 || y1 != y2
        },
{
    tag_names();
}

/// Only five elements are shapes.
pub proof fn other_elements_are_no_shapes<S: Scalar>(
    name: Seq<char>,
    a: Seq<(Seq<char>, Seq<char>)>,
)
    requires
        name != "rect"@,
        name != "line"@,
        name != "ellipse"@,
        name != "circle"@,
        name != "image"@,
    ensures
        shape_of_tag::<S>(name, a) is None,
{
}

/// A figure's paint is what its own attributes say: the fill by `fill`, the outline by `stroke`.
pub proof fn paint_is_as_said<S: Scalar>(
    name: Seq<char>,
    a: Seq<(Seq<char>, Seq<char>)>,
    b: Seq<(Seq<char>, Seq<char>)>,
)
    requires
        name == "rect"@ || name == "ellipse"@ || name == "circle"@,
        // The two tags differ in their fill alone.
        forall|n: Seq<char>| n != "fill"@ ==> #[trigger] attr(a, n) == attr(b, n),
    ensures
        shape_of_tag::<S>(name, a) matches Some(s) && shape_of_tag::<S>(name, b) matches Some(t) && {
            &&& t == (ShapeModel { fill: t.fill, ..s })
            &&& s.fill == color_attr(a, "fill"@)
            &&& t.fill == color_attr(b, "fill"@)
        },
{
    tag_names();
    reveal_strlit("fill");
    reveal_strlit("fill-opacity");
    reveal_strlit("stroke");
    reveal_strlit("stroke-width");
    reveal_strlit("stroke-opacity");
    reveal_strlit("transform");
    reveal_strlit("x");
    reveal_strlit("y");
    reveal_strlit("width");
    reveal_strlit("height");
    reveal_strlit("rx");
    reveal_strlit("ry");
    reveal_strlit("cx");
    reveal_strlit("cy");
    reveal_strlit("r");
    assert("stroke"@.len() == 6 && "fill"@.len() == 4);
}

// ---------------------------------------------------------------------------
// Colours
// ---------------------------------------------------------------------------

/// A colour of three digits is the one of six that has each of them twice, and letters of either
/// case say the same.
pub proof fn short_colours_are_long_ones(c: Seq<char>, d: Seq<char>)
    requires
        c.len() == 4,
        c[0] == '#',
        forall|i: int| 1 <= i < 4 ==> hex_digit(#[trigger] c[i]),
        d == seq!['#', c[1], c[1], c[2], c[2], c[3], c[3]],
    ensures
        hex_color(c) == hex_color(d),
        hex_color(c) matches Some(t) && t.len() == 7 && t[0] == '#' && forall|i: int|
            1 <= i < 7 ==> #[trigger] t[i] == upper(d[i]),
{
    assert forall|i: int| 1 <= i < d.len() implies hex_digit(#[trigger] d[i]) by {
        assert(hex_digit(c[1]) && hex_digit(c[2]) && hex_digit(c[3]));
    }
    assert(hex_color(c)->0 =~= hex_color(d)->0);
}

/// A colour that was read reads as itself.
pub proof fn read_colours_stay(c: Seq<char>)
    requires
        hex_color(c) is Some,
    ensures
        hex_color(hex_color(c)->0) == hex_color(c),
{
    let t = hex_color(c)->0;
    assert forall|i: int| 1 <= i < t.len() implies hex_digit(#[trigger] t[i]) && upper(t[i])
        == t[i] by {
        if c.len() == 7 {
            assert(hex_digit(c[i]));
        } else {
            assert(hex_digit(c[(i + 1) / 2]));
        }
    }
    assert(hex_color(t)->0 =~= t);
}

} // verus!
