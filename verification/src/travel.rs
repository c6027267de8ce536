//! A copied selection reads back: what the writer writes, the reader reads.
use vstd::prelude::*;
use crate::ancestry::{above, lineages_carry_on, lineages_hold_what_is_above, parents_are_around};
use crate::base64;
use crate::bounds::joint_bounds;
use crate::exact::within;
use crate::geometry::center;
use crate::images::picture_type;
use crate::micro::Micro;
use crate::node::{NodeKind, NodeModel};
use crate::order::siblings_are_in_order;
use crate::scalar::{half, numeral, tiny, Scalar};
use crate::scene::{children, distinct, has_row, lineage, peek, reach};
use crate::svg::{
    after_tag, after_tags, attr, attrs, color_attr, first_item, floored, hex_color, hex_digit,
    letter, name_char, num, num_or_zero, parsed, past, picture, received, rotate_argument,
    rotation_attr, run, run_ends, shape_of_tag, tags, unit_clamped, worth_keeping, Class, Reading,
    ShapeModel, TreeModel,
};
use crate::svg_write::{
    attr_text, attrs_text, children_stand, document_attrs, document_tag, document_tags, element,
    frame_attrs, node_tags, node_tags_each, paint_attrs, picked, picked_each, picture_address,
    radius_attrs, rendered, rendered_joins, rendered_one, rotate_attrs, rows_stand, selection_svg,
    shape_attrs, stroke_attrs, tag_name, topmost_selected, topmost_selected_stand,
};
use crate::text::{blank, lower, lowered_spec, trim_spec, upper, without_px_spec};
use crate::turning::halved;

verus! {

/// Whether a character occurs nowhere in a text.
pub open spec fn free_of(s: Seq<char>, c: char) -> bool {
    forall|i: int| 0 <= i < s.len() ==> #[trigger] s[i] != c
}

/// Whether a text may stand between the quotes of an attribute.
pub open spec fn quotable(s: Seq<char>) -> bool {
    free_of(s, '"') && free_of(s, '>')
}

/// Whether every number that a node is written as is finite.
pub open spec fn finite_numbers<S: Scalar>(n: NodeModel<S>) -> bool {
    let c = center((n.x, n.y, n.w, n.h));
    &&& n.x.finite() && n.y.finite() && n.w.finite() && n.h.finite()
    &&& n.fill_opacity.finite() && n.stroke_width.finite() && n.stroke_opacity.finite()
    &&& n.rotation.finite() && n.corner_radius.finite()
    &&& n.kind == NodeKind::Line ==> n.x.plus(n.w).finite() && n.y.plus(n.h).finite()
    &&& n.kind == NodeKind::Oval ==> c.x.finite() && c.y.finite() && half(n.w).finite() && half(
        n.h,
    ).finite()
}

/// Whether a node can be written so that it reads back: its numbers are finite, and its colours
/// may stand in attributes. Any colour of the form `#RRGGBB` may.
pub open spec fn portable<S: Scalar>(n: NodeModel<S>) -> bool {
    match n.kind {
        NodeKind::Rect | NodeKind::Oval => finite_numbers(n) && quotable(n.fill) && quotable(
            n.stroke,
        ),
        NodeKind::Line => finite_numbers(n) && quotable(n.stroke),
        NodeKind::Image => finite_numbers(n),
        NodeKind::Group => true,
    }
}

// ---------------------------------------------------------------------------
// Tags
// ---------------------------------------------------------------------------

proof fn rendered_first(ts: Seq<Seq<char>>)
    requires
        ts.len() > 0,
    ensures
        rendered(ts) == "<"@ + ts[0] + ">"@ + rendered(ts.drop_first()),
{
    assert(ts =~= seq![ts[0]] + ts.drop_first());
    rendered_joins(seq![ts[0]], ts.drop_first());
    rendered_one(ts[0]);
}

/// The tags of rendered tags are those tags, where none holds a `>`.
pub proof fn tags_of_rendered(ts: Seq<Seq<char>>)
    requires
        forall|i: int| 0 <= i < ts.len() ==> free_of(#[trigger] ts[i], '>'),
    ensures
        tags(rendered(ts)) == ts,
    decreases ts.len(),
{
    let s = rendered(ts);
    if ts.len() == 0 {
        assert(tags(s) =~= ts);
    } else {
        reveal_strlit("<");
        reveal_strlit(">");
        rendered_first(ts);
        let rest = rendered(ts.drop_first());
        let t = ts[0];
        assert(s[0] == '<');
        run_ends(s, Class::Not('<'), 0);
        let after = past(s, 1);
        assert(after =~= t + ">"@ + rest);
        assert forall|i: int| 0 <= i < t.len() implies Class::Not('>').has(#[trigger] after[i]) by {
            assert(after[i] == t[i]);
        }
        assert(after[t.len() as int] == '>');
        run_ends(after, Class::Not('>'), t.len() as int);
        assert(after.subrange(0, t.len() as int) =~= t);
        assert(past(after, t.len() as int + 1) =~= rest);
        assert forall|i: int| 0 <= i < ts.drop_first().len() implies free_of(
            #[trigger] ts.drop_first()[i],
            '>',
        ) by {
            assert(ts.drop_first()[i] == ts[i + 1]);
        }
        tags_of_rendered(ts.drop_first());
        assert(tags(s) == seq![t] + tags(rest));
        assert(seq![t] + ts.drop_first() =~= ts);
    }
}

// ---------------------------------------------------------------------------
// Attributes
// ---------------------------------------------------------------------------

/// A name as the writer uses them: letters first, nothing in upper case.
pub open spec fn plain_name(n: Seq<char>) -> bool {
    &&& n.len() > 0
    &&& letter(n[0])
    &&& forall|i: int| 0 <= i < n.len() ==> name_char(#[trigger] n[i]) && lower(n[i]) == n[i]
}

/// An attribute list as the writer makes them.
pub open spec fn plain_attrs(a: Seq<(Seq<char>, Seq<char>)>) -> bool {
    forall|i: int|
        0 <= i < a.len() ==> plain_name((#[trigger] a[i]).0) && quotable(a[i].1)
}

proof fn attrs_text_joins(a: Seq<(Seq<char>, Seq<char>)>, b: Seq<(Seq<char>, Seq<char>)>)
    ensures
        attrs_text(a + b) == attrs_text(a) + attrs_text(b),
    decreases b.len(),
{
    if b.len() == 0 {
        assert(a + b =~= a);
        assert(attrs_text(a) + attrs_text(b) =~= attrs_text(a));
    } else {
        assert((a + b).drop_last() =~= a + b.drop_last());
        attrs_text_joins(a, b.drop_last());
        assert(attrs_text(a + b) =~= attrs_text(a) + attrs_text(b));
    }
}

proof fn attrs_text_first(a: Seq<(Seq<char>, Seq<char>)>)
    requires
        a.len() > 0,
    ensures
        attrs_text(a) == attr_text(a[0]) + attrs_text(a.drop_first()),
{
    let one = seq![a[0]];
    assert(a =~= one + a.drop_first());
    attrs_text_joins(one, a.drop_first());
    assert(one.drop_last() =~= Seq::empty());
    assert(attrs_text(one.drop_last()) =~= Seq::<char>::empty());
    assert(attrs_text(one) =~= attr_text(a[0]));
}

proof fn plain_name_lowers(n: Seq<char>)
    requires
        plain_name(n),
    ensures
        lowered_spec(n) == n,
{
    assert(lowered_spec(n) =~= n);
}

/// The attributes that were written are read back, whether or not the tag closes itself.
pub proof fn attrs_read_back(a: Seq<(Seq<char>, Seq<char>)>, tail: Seq<char>)
    requires
        plain_attrs(a),
        forall|i: int| 0 <= i < tail.len() ==> !letter(#[trigger] tail[i]),
    ensures
        attrs(attrs_text(a) + tail) == a,
    decreases a.len(),
{
    let s = attrs_text(a) + tail;
    if a.len() == 0 {
        assert(s =~= tail);
        run_ends(s, Class::NotLetter, s.len() as int);
        assert(past(s, s.len() as int) =~= Seq::<char>::empty());
        assert(attrs(s) =~= a);
    } else {
        reveal_strlit(" ");
        reveal_strlit("=\"");
        reveal_strlit("\"");
        attrs_text_first(a);
        let n = a[0].0;
        let v = a[0].1;
        let rest = attrs_text(a.drop_first()) + tail;
        assert(plain_name(n) && quotable(v));
        assert(s =~= " "@ + n + "=\""@ + v + "\""@ + rest);
        let nl = n.len() as int;
        let vl = v.len() as int;
        assert(s[0] == ' ');
        assert(s[1] == n[0]);
        run_ends(s, Class::NotLetter, 1);
        let s1 = past(s, 1);
        assert forall|i: int| 0 <= i < nl implies Class::NameChar.has(#[trigger] s1[i]) by {
            assert(s1[i] == n[i]);
        }
        assert(s1[nl] == '=');
        run_ends(s1, Class::NameChar, nl);
        let s2 = past(s, 1 + nl);
        assert(s2[0] == '=');
        run_ends(s2, Class::Blank, 0);
        assert(s[1 + nl] == '=');
        let s3 = past(s, 2 + nl);
        assert(s3[0] == '"');
        run_ends(s3, Class::Blank, 0);
        assert(s[2 + nl] == '"');
        let s4 = past(s, 3 + nl);
        assert forall|i: int| 0 <= i < vl implies Class::Not('"').has(#[trigger] s4[i]) by {
            assert(s4[i] == v[i]);
        }
        assert(s4[vl] == '"');
        run_ends(s4, Class::Not('"'), vl);
        assert(s.subrange(1, 1 + nl) =~= n);
        assert(s.subrange(3 + nl, 3 + nl + vl) =~= v);
        assert(past(s, 4 + nl + vl) =~= rest);
        plain_name_lowers(n);
        assert(plain_attrs(a.drop_first())) by {
            assert forall|i: int| 0 <= i < a.drop_first().len() implies plain_name(
                (#[trigger] a.drop_first()[i]).0,
            ) && quotable(a.drop_first()[i].1) by {
                assert(a.drop_first()[i] == a[i + 1]);
            }
        }
        attrs_read_back(a.drop_first(), tail);
        assert(attrs(s) == seq![(n, v)] + attrs(rest));
        assert(seq![(n, v)] + a.drop_first() =~= a);
    }
}

/// Whether no name and no value of a list holds a `>`.
spec fn unbracketed(a: Seq<(Seq<char>, Seq<char>)>) -> bool {
    forall|i: int| 0 <= i < a.len() ==> free_of((#[trigger] a[i]).0, '>') && free_of(a[i].1, '>')
}

/// Written attributes hold no `>`.
proof fn attrs_text_free(a: Seq<(Seq<char>, Seq<char>)>)
    requires
        unbracketed(a),
    ensures
        free_of(attrs_text(a), '>'),
    decreases a.len(),
{
    if a.len() > 0 {
        reveal_strlit(" ");
        reveal_strlit("=\"");
        reveal_strlit("\"");
        let front = a.drop_last();
        assert(unbracketed(front)) by {
            assert forall|i: int| 0 <= i < front.len() implies free_of((#[trigger] front[i]).0, '>')
                && free_of(front[i].1, '>') by {
                assert(front[i] == a[i]);
            }
        }
        attrs_text_free(front);
        let last = a[a.len() - 1];
        let t = attr_text(last);
        assert forall|i: int| 0 <= i < t.len() implies #[trigger] t[i] != '>' by {
            let nl = last.0.len();
            if i == 0 {
            } else if i < 1 + nl {
                assert(t[i] == last.0[i - 1]);
            } else if i < 3 + nl {
            } else if i < 3 + nl + last.1.len() {
                assert(t[i] == last.1[i - 3 - nl]);
            }
        }
        joined_free(attrs_text(front), t);
    }
}

proof fn joined_free(a: Seq<char>, b: Seq<char>)
    requires
        free_of(a, '>'),
        free_of(b, '>'),
    ensures
        free_of(a + b, '>'),
{
    let s = a + b;
    assert forall|i: int| 0 <= i < s.len() implies #[trigger] s[i] != '>' by {
        if i < a.len() {
            assert(s[i] == a[i]);
        } else {
            assert(s[i] == b[i - a.len()]);
        }
    }
}

/// The value of an attribute that no earlier one shares its name with.
proof fn attr_at(a: Seq<(Seq<char>, Seq<char>)>, k: int)
    requires
        0 <= k < a.len(),
        forall|j: int| 0 <= j < k ==> (#[trigger] a[j]).0 != a[k].0,
    ensures
        attr(a, a[k].0) == Some(a[k].1),
    decreases a.len(),
{
    if k > 0 {
        assert(a[0].0 != a[k].0);
        assert forall|j: int| 0 <= j < k - 1 implies (#[trigger] a.drop_first()[j]).0
            != a.drop_first()[k - 1].0 by {
            assert(a.drop_first()[j] == a[j + 1]);
        }
        attr_at(a.drop_first(), k - 1);
    }
}

/// A name that no attribute has.
proof fn attr_missing(a: Seq<(Seq<char>, Seq<char>)>, name: Seq<char>)
    requires
        forall|j: int| 0 <= j < a.len() ==> (#[trigger] a[j]).0 != name,
    ensures
        attr(a, name) is None,
    decreases a.len(),
{
    if a.len() > 0 {
        assert(a[0].0 != name);
        assert forall|j: int| 0 <= j < a.drop_first().len() implies (#[trigger] a.drop_first()[j]).0
            != name by {
            assert(a.drop_first()[j] == a[j + 1]);
        }
        attr_missing(a.drop_first(), name);
    }
}

// ---------------------------------------------------------------------------
// Values
// ---------------------------------------------------------------------------

/// A text that neither starts nor ends in white space is its own trimming.
proof fn trimmed_already(s: Seq<char>)
    requires
        s.len() > 0,
        !blank(s[0]),
        !blank(s.last()),
    ensures
        trim_spec(s) == s,
{
}

/// A number's text can be quoted, trims to itself, has no unit, and that of a finite number
/// reads back.
pub proof fn number_text<S: Scalar>(v: S)
    ensures
        quotable(v.text_spec()),
        v.text_spec().len() > 0,
        v.finite() ==> S::of_text_spec(without_px_spec(trim_spec(v.text_spec()))) == Some(v),
        v.finite() ==> S::of_text_spec(v.text_spec()) == Some(v),
        forall|i: int| 0 <= i < v.text_spec().len() ==> numeral(#[trigger] v.text_spec()[i]),
{
    v.reads_back();
    let t = v.text_spec();
    assert(t.len() > 0);
    assert(numeral(t[0]));
    assert(numeral(t[t.len() - 1]));
    trimmed_already(t);
    assert(without_px_spec(t) == t);
}

/// The text of a turn about a point.
pub open spec fn rotate_text<S: Scalar>(deg: S, cx: S, cy: S) -> Seq<char> {
    "rotate("@ + deg.text_spec() + " "@ + cx.text_spec() + " "@ + cy.text_spec() + ")"@
}

pub proof fn rotate_text_reads_back<S: Scalar>(
    a: Seq<(Seq<char>, Seq<char>)>,
    deg: S,
    cx: S,
    cy: S,
)
    requires
        deg.finite(),
        attr(a, "transform"@) == Some(rotate_text(deg, cx, cy)),
    ensures
        rotation_attr::<S>(a) == Some(deg.wrapped(S::of_int(360))),
{
    reveal_strlit("rotate(");
    reveal_strlit(" ");
    reveal_strlit(")");
    number_text(deg);
    number_text(cx);
    number_text(cy);
    let d = deg.text_spec();
    let x = cx.text_spec();
    let y = cy.text_spec();
    let t = rotate_text(deg, cx, cy);
    let dl = d.len() as int;
    let xl = x.len() as int;
    let yl = y.len() as int;
    assert(t.len() == 10 + dl + xl + yl);
    assert(t[0] == 'r');
    assert(t.last() == ')');
    trimmed_already(t);
    assert(t.subrange(0, 7) =~= "rotate("@);
    let inner = past(t, 7);
    assert(inner =~= d + " "@ + x + " "@ + y + ")"@);
    let n = dl + 1 + xl + 1 + yl;
    assert forall|i: int| 0 <= i < n implies Class::Not(')').has(#[trigger] inner[i]) by {
        if i < dl {
            assert(inner[i] == d[i]);
        } else if i == dl {
        } else if i < dl + 1 + xl {
            assert(inner[i] == x[i - dl - 1]);
        } else if i == dl + 1 + xl {
        } else {
            assert(inner[i] == y[i - dl - xl - 2]);
        }
    }
    assert(inner[n] == ')');
    run_ends(inner, Class::Not(')'), n);
    let arg = rotate_argument(t);
    assert(arg =~= d + " "@ + x + " "@ + y);
    assert(arg[0] == d[0]);
    run_ends(arg, Class::Separator, 0);
    let rest = past(arg, 0);
    assert(rest =~= arg);
    assert forall|i: int| 0 <= i < dl implies Class::NotSeparator.has(#[trigger] rest[i]) by {
        assert(rest[i] == d[i]);
    }
    assert(rest[dl] == ' ');
    run_ends(rest, Class::NotSeparator, dl);
    assert(first_item(arg) =~= d);
}

proof fn rotate_text_quotable<S: Scalar>(deg: S, cx: S, cy: S)
    ensures
        quotable(rotate_text(deg, cx, cy)),
{
    reveal_strlit("rotate(");
    reveal_strlit(" ");
    reveal_strlit(")");
    number_text(deg);
    number_text(cx);
    number_text(cy);
    joined_quotable("rotate("@, deg.text_spec());
    joined_quotable("rotate("@ + deg.text_spec(), " "@);
    joined_quotable("rotate("@ + deg.text_spec() + " "@, cx.text_spec());
    joined_quotable("rotate("@ + deg.text_spec() + " "@ + cx.text_spec(), " "@);
    joined_quotable("rotate("@ + deg.text_spec() + " "@ + cx.text_spec() + " "@, cy.text_spec());
    joined_quotable(
        "rotate("@ + deg.text_spec() + " "@ + cx.text_spec() + " "@ + cy.text_spec(),
        ")"@,
    );
}

proof fn joined_quotable(a: Seq<char>, b: Seq<char>)
    requires
        quotable(a),
        quotable(b),
    ensures
        quotable(a + b),
{
    let s = a + b;
    assert forall|i: int| 0 <= i < s.len() implies #[trigger] s[i] != '"' && s[i] != '>' by {
        if i < a.len() {
            assert(s[i] == a[i]);
        } else {
            assert(s[i] == b[i - a.len()]);
        }
    }
}

/// Whether a character may stand in a picture's address before or after its comma.
spec fn address_char(c: char) -> bool {
    c != '"' && c != '>' && c != ',' && !blank(c)
}

proof fn encoded_chars(bytes: Seq<u8>)
    ensures
        forall|i: int|
            0 <= i < base64::encoded(bytes).len() ==> address_char(
                #[trigger] base64::encoded(bytes)[i],
            ),
    decreases bytes.len(),
{
    base64::encoded_alphabet(bytes);
}

proof fn picture_type_chars(bytes: Seq<u8>)
    ensures
        forall|i: int|
            0 <= i < picture_type(bytes).len() ==> address_char(#[trigger] picture_type(bytes)[i]),
{
    reveal_strlit("image/png");
    reveal_strlit("image/jpeg");
    reveal_strlit("image/webp");
    reveal_strlit("image/gif");
    reveal_strlit("image/bmp");
    reveal_strlit("image/tiff");
    reveal_strlit("image/heif");
    reveal_strlit("application/octet-stream");
}

/// The address of a picture gives back its bytes.
proof fn picture_reads_back(bytes: Seq<u8>)
    ensures
        picture(trim_spec(picture_address(bytes))) == Some(bytes),
        quotable(picture_address(bytes)),
{
    reveal_strlit("data:");
    reveal_strlit(";base64,");
    reveal_strlit(";base64");
    encoded_chars(bytes);
    picture_type_chars(bytes);
    base64::decoding_restores(bytes);
    let m = picture_type(bytes);
    let e = base64::encoded(bytes);
    let t = picture_address(bytes);
    let ml = m.len() as int;
    assert(t.len() == 13 + ml + e.len());
    assert(t[0] == 'd');
    if e.len() > 0 {
        assert(t.last() == e[e.len() - 1]);
    } else {
        assert(t.last() == ',');
    }
    trimmed_already(t);
    assert(t.subrange(0, 5) =~= "data:"@);
    let comma = 12 + ml;
    assert forall|i: int| 0 <= i < comma implies Class::Not(',').has(#[trigger] t[i]) by {
        if i < 5 {
        } else if i < 5 + ml {
            assert(t[i] == m[i - 5]);
        } else {
            assert(t[i] == ";base64,"@[i - 5 - ml]);
        }
    }
    assert(t[comma] == ',');
    run_ends(t, Class::Not(','), comma);
    let head = t.subrange(0, comma);
    assert(head.subrange(comma - 7, comma) =~= ";base64"@);
    assert(past(t, comma + 1) =~= e);
    assert forall|i: int| 0 <= i < t.len() implies #[trigger] t[i] != '"' && t[i] != '>' by {
        if i < 5 {
        } else if i < 5 + ml {
            assert(t[i] == m[i - 5]);
        } else if i < 13 + ml {
            assert(t[i] == ";base64,"@[i - 5 - ml]);
        } else {
            assert(t[i] == e[i - 13 - ml]);
        }
    }
}

// ---------------------------------------------------------------------------
// Shapes
// ---------------------------------------------------------------------------

/// The angle that a written node is read back with.
pub open spec fn travelled_rotation<S: Scalar>(n: NodeModel<S>) -> Option<S> {
    if n.rotation.magnitude().at_most(tiny()) {
        None
    } else {
        Some(n.rotation.wrapped(S::of_int(360)))
    }
}

/// A shape after it was written and read back. An oval travels as its centre and radii, and a
/// line as its two ends, so their frames are computed anew.
pub open spec fn travelled<S: Scalar>(n: NodeModel<S>) -> ShapeModel<S> {
    let painted = ShapeModel {
        kind: n.kind,
        x: n.x,
        y: n.y,
        w: n.w,
        h: n.h,
        fill: hex_color(trim_spec(n.fill)),
        fill_opacity: unit_clamped(Some(n.fill_opacity)),
        stroke: hex_color(trim_spec(n.stroke)),
        stroke_width: floored(Some(n.stroke_width)),
        stroke_opacity: unit_clamped(Some(n.stroke_opacity)),
        rotation: travelled_rotation(n),
        corner_radius: None,
        image_bytes: Seq::empty(),
    };
    let c = center((n.x, n.y, n.w, n.h));
    match n.kind {
        NodeKind::Rect => ShapeModel {
            corner_radius: if S::of_int(0).below(n.corner_radius) {
                floored(Some(n.corner_radius))
            } else {
                None
            },
            ..painted
        },
        NodeKind::Oval => ShapeModel {
            x: c.x.minus(half(n.w)),
            y: c.y.minus(half(n.h)),
            w: half(n.w).times(S::of_int(2)),
            h: half(n.h).times(S::of_int(2)),
            ..painted
        },
        NodeKind::Line => ShapeModel {
            w: n.x.plus(n.w).minus(n.x),
            h: n.y.plus(n.h).minus(n.y),
            fill: None,
            fill_opacity: None,
            rotation: None,
            ..painted
        },
        NodeKind::Image | NodeKind::Group => ShapeModel {
            fill: None,
            stroke: None,
            stroke_width: None,
            stroke_opacity: None,
            image_bytes: n.image_bytes,
            ..painted
        },
    }
}

/// Enough of a name to tell the writer's names apart.
pub open spec fn mark(s: Seq<char>) -> (nat, char, char) {
    (s.len(), s[0], s.last())
}

/// The writer's attribute names are plain, and differ.
pub proof fn attr_names()
    ensures
        plain_name("x"@) && mark("x"@) == (1nat, 'x', 'x'),
        plain_name("y"@) && mark("y"@) == (1nat, 'y', 'y'),
        plain_name("width"@) && mark("width"@) == (5nat, 'w', 'h'),
        plain_name("height"@) && mark("height"@) == (6nat, 'h', 't'),
        plain_name("rx"@) && mark("rx"@) == (2nat, 'r', 'x'),
        plain_name("ry"@) && mark("ry"@) == (2nat, 'r', 'y'),
        plain_name("cx"@) && mark("cx"@) == (2nat, 'c', 'x'),
        plain_name("cy"@) && mark("cy"@) == (2nat, 'c', 'y'),
        plain_name("x1"@) && mark("x1"@) == (2nat, 'x', '1'),
        plain_name("y1"@) && mark("y1"@) == (2nat, 'y', '1'),
        plain_name("x2"@) && mark("x2"@) == (2nat, 'x', '2'),
        plain_name("y2"@) && mark("y2"@) == (2nat, 'y', '2'),
        plain_name("fill"@) && mark("fill"@) == (4nat, 'f', 'l'),
        plain_name("fill-opacity"@) && mark("fill-opacity"@) == (12nat, 'f', 'y'),
        plain_name("stroke"@) && mark("stroke"@) == (6nat, 's', 'e'),
        plain_name("stroke-width"@) && mark("stroke-width"@) == (12nat, 's', 'h'),
        plain_name("stroke-opacity"@) && mark("stroke-opacity"@) == (14nat, 's', 'y'),
        plain_name("transform"@) && mark("transform"@) == (9nat, 't', 'm'),
        plain_name("href"@) && mark("href"@) == (4nat, 'h', 'f'),
        plain_name("opacity"@) && mark("opacity"@) == (7nat, 'o', 'y'),
{
    reveal_strlit("x");
    reveal_strlit("y");
    reveal_strlit("rx");
    reveal_strlit("ry");
    reveal_strlit("cx");
    reveal_strlit("cy");
    reveal_strlit("x1");
    reveal_strlit("y1");
    reveal_strlit("x2");
    reveal_strlit("y2");
    reveal_strlit("width");
    reveal_strlit("height");
    reveal_strlit("fill");
    reveal_strlit("fill-opacity");
    reveal_strlit("stroke");
    reveal_strlit("stroke-width");
    reveal_strlit("stroke-opacity");
    reveal_strlit("transform");
    reveal_strlit("href");
    reveal_strlit("opacity");
}

/// The writer's tag names are plain, and differ.
pub proof fn tag_names()
    ensures
        plain_name("rect"@) && mark("rect"@) == (4nat, 'r', 't'),
        plain_name("line"@) && mark("line"@) == (4nat, 'l', 'e'),
        plain_name("ellipse"@) && mark("ellipse"@) == (7nat, 'e', 'e'),
        plain_name("circle"@) && mark("circle"@) == (6nat, 'c', 'e'),
        plain_name("image"@) && mark("image"@) == (5nat, 'i', 'e'),
        plain_name("svg"@) && mark("svg"@) == (3nat, 's', 'g'),
        plain_name("g"@) && mark("g"@) == (1nat, 'g', 'g'),
{
    reveal_strlit("rect");
    reveal_strlit("line");
    reveal_strlit("ellipse");
    reveal_strlit("circle");
    reveal_strlit("image");
    reveal_strlit("svg");
    reveal_strlit("g");
}

/// The names of a list differ.
spec fn names_differ(a: Seq<(Seq<char>, Seq<char>)>) -> bool {
    forall|i: int, j: int|
        0 <= i < j < a.len() ==> (#[trigger] a[i]).0 != (#[trigger] a[j]).0
}

/// The attributes of a shape: how many, and that they are plain and differ.
proof fn shape_attrs_are_plain<S: Scalar>(n: NodeModel<S>)
    requires
        portable(n),
        n.kind != NodeKind::Group,
    ensures
        plain_attrs(shape_attrs(n)),
        names_differ(shape_attrs(n)),
        shape_attrs(n).len() > 0,
{
    attr_names();
    let a = shape_attrs(n);
    let c = center((n.x, n.y, n.w, n.h));
    assert forall|v: S| quotable(#[trigger] v.text_spec()) by {
        number_text(v);
    }
    rotate_text_quotable(n.rotation, c.x, c.y);
    picture_reads_back(n.image_bytes);
    assert forall|i: int| 0 <= i < a.len() implies plain_name((#[trigger] a[i]).0) && quotable(
        a[i].1,
    ) by {}
    assert forall|i: int, j: int| 0 <= i < j < a.len() implies (#[trigger] a[i]).0
        != (#[trigger] a[j]).0 by {
        assert(mark(a[i].0) != mark(a[j].0));
    }
}

/// A value stands under its name.
proof fn value_at(a: Seq<(Seq<char>, Seq<char>)>, k: int, name: Seq<char>, v: Seq<char>)
    requires
        names_differ(a),
        0 <= k < a.len(),
        a[k] == (name, v),
    ensures
        attr(a, name) == Some(v),
{
    attr_at(a, k);
}

/// A number stands under its name.
proof fn number_at<S: Scalar>(a: Seq<(Seq<char>, Seq<char>)>, k: int, name: Seq<char>, v: S)
    requires
        v.finite(),
        names_differ(a),
        0 <= k < a.len(),
        a[k] == (name, v.text_spec()),
    ensures
        num::<S>(a, name) == Some(v),
        num_or_zero::<S>(a, name) == v,
{
    attr_at(a, k);
    number_text(v);
}

/// The outline's attributes, read back from where they stand.
proof fn stroke_reads_back<S: Scalar>(a: Seq<(Seq<char>, Seq<char>)>, k: int, n: NodeModel<S>)
    requires
        finite_numbers(n),
        names_differ(a),
        0 <= k,
        k + 3 <= a.len(),
        a.subrange(k, k + 3) == stroke_attrs(n),
    ensures
        color_attr(a, "stroke"@) == hex_color(trim_spec(n.stroke)),
        num::<S>(a, "stroke-width"@) == Some(n.stroke_width),
        num::<S>(a, "stroke-opacity"@) == Some(n.stroke_opacity),
{
    let t = stroke_attrs(n);
    assert(a[k] == t[0] && a[k + 1] == t[1] && a[k + 2] == t[2]);
    value_at(a, k, "stroke"@, n.stroke);
    number_at(a, k + 1, "stroke-width"@, n.stroke_width);
    number_at(a, k + 2, "stroke-opacity"@, n.stroke_opacity);
}

/// The paint's attributes, read back from where they stand.
proof fn paint_reads_back<S: Scalar>(a: Seq<(Seq<char>, Seq<char>)>, k: int, n: NodeModel<S>)
    requires
        finite_numbers(n),
        names_differ(a),
        0 <= k,
        k + 5 <= a.len(),
        a.subrange(k, k + 5) == paint_attrs(n),
    ensures
        color_attr(a, "fill"@) == hex_color(trim_spec(n.fill)),
        num::<S>(a, "fill-opacity"@) == Some(n.fill_opacity),
        color_attr(a, "stroke"@) == hex_color(trim_spec(n.stroke)),
        num::<S>(a, "stroke-width"@) == Some(n.stroke_width),
        num::<S>(a, "stroke-opacity"@) == Some(n.stroke_opacity),
{
    let t = paint_attrs(n);
    assert(a[k] == t[0] && a[k + 1] == t[1]);
    value_at(a, k, "fill"@, n.fill);
    number_at(a, k + 1, "fill-opacity"@, n.fill_opacity);
    assert(a.subrange(k + 2, k + 5) =~= stroke_attrs(n)) by {
        assert(a[k + 2] == t[2] && a[k + 3] == t[3] && a[k + 4] == t[4]);
    }
    stroke_reads_back(a, k + 2, n);
}

/// The frame's attributes, read back from the front.
proof fn frame_reads_back<S: Scalar>(a: Seq<(Seq<char>, Seq<char>)>, n: NodeModel<S>)
    requires
        finite_numbers(n),
        names_differ(a),
        4 <= a.len(),
        a.subrange(0, 4) == frame_attrs(n),
    ensures
        num_or_zero::<S>(a, "x"@) == n.x,
        num_or_zero::<S>(a, "y"@) == n.y,
        num_or_zero::<S>(a, "width"@) == n.w,
        num_or_zero::<S>(a, "height"@) == n.h,
{
    let t = frame_attrs(n);
    assert(a[0] == t[0] && a[1] == t[1] && a[2] == t[2] && a[3] == t[3]);
    number_at(a, 0, "x"@, n.x);
    number_at(a, 1, "y"@, n.y);
    number_at(a, 2, "width"@, n.w);
    number_at(a, 3, "height"@, n.h);
}

/// The turn, read back from where it stands, or missing.
proof fn turn_reads_back<S: Scalar>(a: Seq<(Seq<char>, Seq<char>)>, k: int, n: NodeModel<S>)
    requires
        finite_numbers(n),
        names_differ(a),
        0 <= k <= a.len(),
        a.subrange(k, a.len() as int) == rotate_attrs(n),
        forall|j: int| 0 <= j < k ==> (#[trigger] a[j]).0 != "transform"@,
    ensures
        rotation_attr::<S>(a) == travelled_rotation(n),
{
    let t = rotate_attrs(n);
    let tail = a.subrange(k, a.len() as int);
    assert(tail.len() == a.len() - k);
    if n.rotation.magnitude().at_most(tiny()) {
        assert(a.len() == k);
        attr_missing(a, "transform"@);
    } else {
        let c = center((n.x, n.y, n.w, n.h));
        assert(a[k] == tail[0]);
        value_at(a, k, "transform"@, rotate_text(n.rotation, c.x, c.y));
        rotate_text_reads_back(a, n.rotation, c.x, c.y);
    }
}

proof fn rect_reads_back<S: Scalar>(n: NodeModel<S>)
    requires
        portable(n),
        n.kind == NodeKind::Rect,
    ensures
        shape_of_tag::<S>("rect"@, shape_attrs(n)) == Some(travelled(n)),
{
    let a = shape_attrs(n);
    shape_attrs_are_plain(n);
    attr_names();
    assert(a.subrange(0, 4) =~= frame_attrs(n));
    frame_reads_back(a, n);
    let p = 4 + radius_attrs(n).len() as int;
    if S::of_int(0).below(n.corner_radius) {
        assert(a[4] == radius_attrs(n)[0]);
        number_at(a, 4, "rx"@, n.corner_radius);
    } else {
        assert forall|j: int| 0 <= j < a.len() implies (#[trigger] a[j]).0 != "rx"@ && a[j].0
            != "ry"@ by {
            assert(mark(a[j].0) != mark("rx"@) && mark(a[j].0) != mark("ry"@));
        }
        attr_missing(a, "rx"@);
        attr_missing(a, "ry"@);
    }
    assert(a.subrange(p, p + 5) =~= paint_attrs(n));
    paint_reads_back(a, p, n);
    assert(a.subrange(p + 5, a.len() as int) =~= rotate_attrs(n));
    assert forall|j: int| 0 <= j < p + 5 implies (#[trigger] a[j]).0 != "transform"@ by {
        assert(mark(a[j].0) != mark("transform"@));
    }
    turn_reads_back(a, p + 5, n);
}

proof fn oval_reads_back<S: Scalar>(n: NodeModel<S>)
    requires
        portable(n),
        n.kind == NodeKind::Oval,
    ensures
        shape_of_tag::<S>("ellipse"@, shape_attrs(n)) == Some(travelled(n)),
{
    let a = shape_attrs(n);
    let c = center((n.x, n.y, n.w, n.h));
    shape_attrs_are_plain(n);
    attr_names();
    tag_names();
    number_at(a, 0, "cx"@, c.x);
    number_at(a, 1, "cy"@, c.y);
    number_at(a, 2, "rx"@, half(n.w));
    number_at(a, 3, "ry"@, half(n.h));
    assert(a.subrange(4, 9) =~= paint_attrs(n));
    paint_reads_back(a, 4, n);
    assert(a.subrange(9, a.len() as int) =~= rotate_attrs(n));
    assert forall|j: int| 0 <= j < 9 implies (#[trigger] a[j]).0 != "transform"@ by {
        assert(mark(a[j].0) != mark("transform"@));
    }
    turn_reads_back(a, 9, n);
    assert(mark("ellipse"@) != mark("rect"@) && mark("ellipse"@) != mark("line"@));
}

proof fn line_reads_back<S: Scalar>(n: NodeModel<S>)
    requires
        portable(n),
        n.kind == NodeKind::Line,
    ensures
        shape_of_tag::<S>("line"@, shape_attrs(n)) == Some(travelled(n)),
{
    let a = shape_attrs(n);
    shape_attrs_are_plain(n);
    attr_names();
    tag_names();
    number_at(a, 0, "x1"@, n.x);
    number_at(a, 1, "y1"@, n.y);
    number_at(a, 2, "x2"@, n.x.plus(n.w));
    number_at(a, 3, "y2"@, n.y.plus(n.h));
    assert(a.subrange(4, 7) =~= stroke_attrs(n));
    stroke_reads_back(a, 4, n);
    assert forall|j: int| 0 <= j < a.len() implies (#[trigger] a[j]).0 != "fill-opacity"@ by {
        assert(mark(a[j].0) != mark("fill-opacity"@));
    }
    attr_missing(a, "fill-opacity"@);
    assert(mark("line"@) != mark("rect"@));
}

proof fn image_reads_back<S: Scalar>(n: NodeModel<S>)
    requires
        portable(n),
        n.kind == NodeKind::Image,
    ensures
        shape_of_tag::<S>("image"@, shape_attrs(n)) == Some(travelled(n)),
{
    let a = shape_attrs(n);
    shape_attrs_are_plain(n);
    attr_names();
    tag_names();
    assert(a.subrange(0, 4) =~= frame_attrs(n));
    frame_reads_back(a, n);
    value_at(a, 4, "href"@, picture_address(n.image_bytes));
    picture_reads_back(n.image_bytes);
    number_at(a, 5, "opacity"@, n.fill_opacity);
    assert forall|j: int| 0 <= j < a.len() implies (#[trigger] a[j]).0 != "fill"@ && a[j].0
        != "stroke"@ && a[j].0 != "stroke-width"@ && a[j].0 != "stroke-opacity"@ by {
        assert(mark(a[j].0) != mark("fill"@) && mark(a[j].0) != mark("stroke"@) && mark(a[j].0)
            != mark("stroke-width"@) && mark(a[j].0) != mark("stroke-opacity"@));
    }
    attr_missing(a, "fill"@);
    attr_missing(a, "stroke"@);
    attr_missing(a, "stroke-width"@);
    attr_missing(a, "stroke-opacity"@);
    assert(a.subrange(6, a.len() as int) =~= rotate_attrs(n));
    assert forall|j: int| 0 <= j < 6 implies (#[trigger] a[j]).0 != "transform"@ by {
        assert(mark(a[j].0) != mark("transform"@));
    }
    turn_reads_back(a, 6, n);
    assert(mark("image"@) != mark("rect"@) && mark("image"@) != mark("line"@) && mark("image"@)
        != mark("ellipse"@) && mark("image"@) != mark("circle"@));
}

/// A shape's attributes, read under its tag's name, give the shape back.
pub proof fn shape_reads_back<S: Scalar>(n: NodeModel<S>)
    requires
        portable(n),
        n.kind != NodeKind::Group,
    ensures
        shape_of_tag::<S>(tag_name(n.kind), shape_attrs(n)) == Some(travelled(n)),
{
    match n.kind {
        NodeKind::Rect => rect_reads_back(n),
        NodeKind::Oval => oval_reads_back(n),
        NodeKind::Line => line_reads_back(n),
        NodeKind::Image => image_reads_back(n),
        NodeKind::Group => {},
    }
}

// ---------------------------------------------------------------------------
// Documents
// ---------------------------------------------------------------------------

/// A reading with several nodes more, in turn.
pub open spec fn received_each<S>(r: Reading<S>, ts: Seq<TreeModel<S>>) -> Reading<S> {
    if r.open.len() > 0 {
        Reading { open: r.open.drop_last().push(r.open.last() + ts), ..r }
    } else {
        Reading { roots: r.roots + ts, ..r }
    }
}

/// What a node is read back as: one tree, or none for a shape without extent.
pub open spec fn travelled_trees<S: Scalar>(rows: Seq<NodeModel<S>>, id: u64, steps: nat) -> Seq<
    TreeModel<S>,
>
    decreases steps, 0nat,
{
    if steps == 0 {
        Seq::empty()
    } else if peek(rows, id).kind == NodeKind::Group {
        seq![
            TreeModel::Group(
                travelled_trees_each(rows, children(rows, Some(id)), (steps - 1) as nat),
            ),
        ]
    } else {
        let s = travelled(peek(rows, id));
        if worth_keeping(s) {
            seq![TreeModel::Shape(s)]
        } else {
            Seq::empty()
        }
    }
}

/// What nodes are read back as, in turn.
pub open spec fn travelled_trees_each<S: Scalar>(
    rows: Seq<NodeModel<S>>,
    ids: Seq<u64>,
    steps: nat,
) -> Seq<TreeModel<S>>
    decreases steps, ids.len(),
{
    if ids.len() == 0 {
        Seq::empty()
    } else {
        travelled_trees_each(rows, ids.drop_last(), steps) + travelled_trees(
            rows,
            ids.last(),
            steps,
        )
    }
}

proof fn after_tags_joins<S: Scalar>(r: Reading<S>, a: Seq<Seq<char>>, b: Seq<Seq<char>>)
    ensures
        after_tags(r, a + b) == after_tags(after_tags(r, a), b),
    decreases a.len(),
{
    if a.len() == 0 {
        assert(a + b =~= b);
    } else {
        assert((a + b)[0] == a[0]);
        assert((a + b).drop_first() =~= a.drop_first() + b);
        after_tags_joins(after_tag(r, a[0]), a.drop_first(), b);
    }
}

proof fn after_one_tag<S: Scalar>(r: Reading<S>, tag: Seq<char>)
    ensures
        after_tags(r, seq![tag]) == after_tag(r, tag),
{
    assert(seq![tag].drop_first() =~= Seq::<Seq<char>>::empty());
    assert(after_tags(after_tag(r, tag), seq![tag].drop_first()) == after_tag(r, tag));
}

/// The name that a tag starts with, where a space or a slash follows it.
proof fn tag_name_is(name: Seq<char>, rest: Seq<char>)
    requires
        plain_name(name),
        rest.len() > 0 ==> rest[0] == ' ' || rest[0] == '/',
    ensures
        run(name + rest, Class::TagName) == name.len(),
        (name + rest).subrange(0, name.len() as int) == name,
        past(name + rest, name.len() as int) == rest,
        (name + rest)[0] == name[0],
        lowered_spec(name) == name,
{
    let tag = name + rest;
    assert forall|i: int| 0 <= i < name.len() implies Class::TagName.has(#[trigger] tag[i]) by {
        assert(tag[i] == name[i]);
        assert(name_char(name[i]));
    }
    if rest.len() > 0 {
        assert(tag[name.len() as int] == rest[0]);
    }
    run_ends(tag, Class::TagName, name.len() as int);
    assert(tag.subrange(0, name.len() as int) =~= name);
    assert(past(tag, name.len() as int) =~= rest);
    plain_name_lowers(name);
}

proof fn attrs_text_starts(a: Seq<(Seq<char>, Seq<char>)>)
    requires
        a.len() > 0,
    ensures
        attrs_text(a).len() > 0,
        attrs_text(a)[0] == ' ',
{
    reveal_strlit(" ");
    attrs_text_first(a);
    assert(attr_text(a[0])[0] == ' ');
}

/// A written shape is received as it travels.
proof fn shape_tag_is_received<S: Scalar>(r: Reading<S>, n: NodeModel<S>)
    requires
        portable(n),
        n.kind != NodeKind::Group,
    ensures
        after_tag(r, element(tag_name(n.kind), shape_attrs(n))) == if worth_keeping(travelled(n)) {
            received(r, TreeModel::Shape(travelled(n)))
        } else {
            r
        },
        free_of(element(tag_name(n.kind), shape_attrs(n)), '>'),
{
    reveal_strlit("/");
    tag_names();
    shape_attrs_are_plain(n);
    let a = shape_attrs(n);
    let name = tag_name(n.kind);
    assert(plain_name(name));
    assert(mark(name) != mark("g"@));
    let rest = attrs_text(a) + "/"@;
    attrs_text_starts(a);
    assert(rest[0] == ' ');
    let tag = element(name, a);
    assert(tag =~= name + rest);
    tag_name_is(name, rest);
    assert(letter(tag[0]));
    attrs_read_back(a, "/"@);
    shape_reads_back(n);
    assert(unbracketed(a)) by {
        assert forall|i: int| 0 <= i < a.len() implies free_of((#[trigger] a[i]).0, '>') && free_of(
            a[i].1,
            '>',
        ) by {
            assert(plain_name(a[i].0) && quotable(a[i].1));
        }
    }
    attrs_text_free(a);
    joined_free(name, attrs_text(a));
    joined_free(name + attrs_text(a), "/"@);
}

/// Whether a node, and everything inside it, can be written so that it reads back.
pub open spec fn portable_inside<S: Scalar>(rows: Seq<NodeModel<S>>, id: u64) -> bool {
    forall|x: u64|
        has_row(rows, x) && #[trigger] lineage(rows, x).contains(id) ==> portable(peek(rows, x))
}

/// Whether all selected nodes, and everything inside them, can be written so that they read
/// back.
pub open spec fn selection_portable<S: Scalar>(
    rows: Seq<NodeModel<S>>,
    selection: Seq<u64>,
) -> bool {
    forall|i: int| 0 <= i < selection.len() ==> portable_inside(rows, #[trigger] selection[i])
}

spec fn each_portable<S: Scalar>(rows: Seq<NodeModel<S>>, ids: Seq<u64>) -> bool {
    forall|i: int| 0 <= i < ids.len() ==> portable_inside(rows, #[trigger] ids[i])
}

/// What is inside a member is inside its group.
pub proof fn inside_a_member<S: Scalar>(rows: Seq<NodeModel<S>>, id: u64, c: u64, x: u64)
    requires
        peek(rows, c).parent == Some(id),
        lineage(rows, x).contains(c),
    ensures
        lineage(rows, x).contains(id),
{
    parents_are_around(rows, c);
    lineages_carry_on(rows, x, c, id);
}

proof fn members_are_portable<S: Scalar>(rows: Seq<NodeModel<S>>, id: u64)
    requires
        distinct(rows),
        portable_inside(rows, id),
    ensures
        each_portable(rows, children(rows, Some(id))),
{
    let members = children(rows, Some(id));
    siblings_are_in_order(rows, Some(id));
    assert forall|i: int| 0 <= i < members.len() implies portable_inside(
        rows,
        #[trigger] members[i],
    ) by {
        let c = members[i];
        assert(members.contains(c));
        assert forall|x: u64|
            has_row(rows, x) && #[trigger] lineage(rows, x).contains(c) implies portable(
            peek(rows, x),
        ) by {
            inside_a_member(rows, id, c, x);
        }
    }
}

proof fn node_is_portable<S: Scalar>(rows: Seq<NodeModel<S>>, id: u64)
    requires
        has_row(rows, id),
        portable_inside(rows, id),
    ensures
        portable(peek(rows, id)),
{
    assert(above(rows, id, 0) == Some(id));
    lineages_hold_what_is_above(rows, id, id);
}

/// What is picked is selected.
pub proof fn picks_are_selected<S: Scalar>(
    rows: Seq<NodeModel<S>>,
    selection: Seq<u64>,
    ids: Seq<u64>,
    steps: nat,
    i: int,
)
    requires
        0 <= i < picked_each(rows, selection, ids, steps).len(),
    ensures
        selection.contains(picked_each(rows, selection, ids, steps)[i]),
    decreases steps, ids.len(),
{
    let front = ids.drop_last();
    let a = picked_each(rows, selection, front, steps);
    let b = picked(rows, selection, ids.last(), steps);
    assert(picked_each(rows, selection, ids, steps) == a + b);
    if i < a.len() {
        picks_are_selected(rows, selection, front, steps, i);
    } else if selection.contains(ids.last()) {
        assert(b == seq![ids.last()]);
    } else {
        assert(steps > 0);
        picks_are_selected(
            rows,
            selection,
            children(rows, Some(ids.last())),
            (steps - 1) as nat,
            i - a.len(),
        );
    }
}

proof fn opening_tag<S: Scalar>(r: Reading<S>)
    ensures
        after_tag(r, "g"@) == (Reading { open: r.open.push(Seq::empty()), ..r }),
        free_of("g"@, '>'),
{
    tag_names();
    reveal_strlit("g");
    let empty = Seq::<char>::empty();
    assert("g"@ + empty =~= "g"@);
    tag_name_is("g"@, empty);
}

proof fn closing_tag<S: Scalar>(r: Reading<S>)
    requires
        r.open.len() > 0,
    ensures
        after_tag(r, "/g"@) == received(
            Reading { open: r.open.drop_last(), ..r },
            TreeModel::Group(r.open.last()),
        ),
        free_of("/g"@, '>'),
{
    reveal_strlit("/g");
    reveal_strlit("g");
    tag_names();
    assert(past("/g"@, 1) =~= "g"@);
    trimmed_already("g"@);
    plain_name_lowers("g"@);
}

/// A written group is received with its members.
proof fn group_is_received<S: Scalar>(
    r: Reading<S>,
    inner: Seq<Seq<char>>,
    trees: Seq<TreeModel<S>>,
)
    requires
        after_tags(Reading { open: r.open.push(Seq::empty()), ..r }, inner) == received_each(
            Reading { open: r.open.push(Seq::empty()), ..r },
            trees,
        ),
    ensures
        after_tags(r, seq!["g"@] + inner + seq!["/g"@]) == received_each(
            r,
            seq![TreeModel::Group(trees)],
        ),
        free_of("g"@, '>'),
        free_of("/g"@, '>'),
{
    let r1 = Reading { open: r.open.push(Seq::empty()), ..r };
    opening_tag(r);
    after_one_tag(r, "g"@);
    let r2 = received_each(r1, trees);
    assert(r1.open.drop_last() =~= r.open);
    assert(r1.open.last() + trees =~= trees);
    assert(r2 == (Reading { open: r.open.push(trees), ..r }));
    assert(r2.open.drop_last() =~= r.open);
    assert((Reading { open: r2.open.drop_last(), ..r2 }) == r);
    closing_tag(r2);
    after_one_tag(r2, "/g"@);
    after_tags_joins(r, seq!["g"@], inner);
    after_tags_joins(r, seq!["g"@] + inner, seq!["/g"@]);
    one_received(r, TreeModel::Group(trees));
}

/// Reading what was written of a node receives what the node travels as.
proof fn node_tags_are_received<S: Scalar>(
    rows: Seq<NodeModel<S>>,
    id: u64,
    steps: nat,
    r: Reading<S>,
)
    requires
        distinct(rows),
        has_row(rows, id),
        portable_inside(rows, id),
    ensures
        after_tags(r, node_tags(rows, id, steps)) == received_each(
            r,
            travelled_trees(rows, id, steps),
        ),
        forall|i: int|
            0 <= i < node_tags(rows, id, steps).len() ==> free_of(
                #[trigger] node_tags(rows, id, steps)[i],
                '>',
            ),
    decreases steps, 0nat,
{
    let ts = travelled_trees(rows, id, steps);
    if steps == 0 {
        nothing_received(r);
    } else if peek(rows, id).kind == NodeKind::Group {
        let members = children(rows, Some(id));
        let inner = node_tags_each(rows, members, (steps - 1) as nat);
        let trees = travelled_trees_each(rows, members, (steps - 1) as nat);
        children_stand(rows, Some(id));
        members_are_portable(rows, id);
        node_tags_each_are_received(
            rows,
            members,
            (steps - 1) as nat,
            Reading { open: r.open.push(Seq::empty()), ..r },
        );
        group_is_received(r, inner, trees);
        assert(ts =~= seq![TreeModel::Group(trees)]);
        let all = seq!["g"@] + inner + seq!["/g"@];
        assert forall|i: int| 0 <= i < all.len() implies free_of(#[trigger] all[i], '>') by {
            if i == 0 {
                assert(all[i] == "g"@);
            } else if i <= inner.len() {
                assert(all[i] == inner[i - 1]);
            } else {
                assert(all[i] == "/g"@);
            }
        }
    } else {
        let n = peek(rows, id);
        node_is_portable(rows, id);
        shape_tag_is_received(r, n);
        after_one_tag(r, element(tag_name(n.kind), shape_attrs(n)));
        if worth_keeping(travelled(n)) {
            one_received(r, TreeModel::Shape(travelled(n)));
        } else {
            nothing_received(r);
        }
    }
}

proof fn node_tags_each_are_received<S: Scalar>(
    rows: Seq<NodeModel<S>>,
    ids: Seq<u64>,
    steps: nat,
    r: Reading<S>,
)
    requires
        distinct(rows),
        rows_stand(rows, ids),
        each_portable(rows, ids),
    ensures
        after_tags(r, node_tags_each(rows, ids, steps)) == received_each(
            r,
            travelled_trees_each(rows, ids, steps),
        ),
        forall|i: int|
            0 <= i < node_tags_each(rows, ids, steps).len() ==> free_of(
                #[trigger] node_tags_each(rows, ids, steps)[i],
                '>',
            ),
    decreases steps, ids.len(),
{
    if ids.len() == 0 {
        nothing_received(r);
    } else {
        let front = ids.drop_last();
        let a = node_tags_each(rows, front, steps);
        let b = node_tags(rows, ids.last(), steps);
        let ta = travelled_trees_each(rows, front, steps);
        let tb = travelled_trees(rows, ids.last(), steps);
        assert(rows_stand(rows, front)) by {
            assert forall|i: int| 0 <= i < front.len() implies has_row(
                rows,
                #[trigger] front[i],
            ) by {
                assert(front[i] == ids[i]);
            }
        }
        assert(each_portable(rows, front)) by {
            assert forall|i: int| 0 <= i < front.len() implies portable_inside(
                rows,
                #[trigger] front[i],
            ) by {
                assert(front[i] == ids[i]);
            }
        }
        assert(has_row(rows, ids[ids.len() - 1]));
        assert(portable_inside(rows, ids[ids.len() - 1]));
        node_tags_each_are_received(rows, front, steps, r);
        let r1 = received_each(r, ta);
        node_tags_are_received(rows, ids.last(), steps, r1);
        after_tags_joins(r, a, b);
        if r.open.len() > 0 {
            assert(r1.open.drop_last() =~= r.open.drop_last());
            assert(r.open.last() + ta + tb =~= r.open.last() + (ta + tb));
        } else {
            assert(r.roots + ta + tb =~= r.roots + (ta + tb));
        }
        assert forall|i: int| 0 <= i < (a + b).len() implies free_of(#[trigger] (a + b)[i], '>') by {
            if i < a.len() {
                assert((a + b)[i] == a[i]);
            } else {
                assert((a + b)[i] == b[i - a.len()]);
            }
        }
    }
}

proof fn nothing_received<S: Scalar>(r: Reading<S>)
    ensures
        received_each(r, Seq::empty()) == r,
{
    let none = Seq::<TreeModel<S>>::empty();
    if r.open.len() > 0 {
        assert(r.open.last() + none =~= r.open.last());
        assert(r.open.drop_last().push(r.open.last()) =~= r.open);
    } else {
        assert(r.roots + none =~= r.roots);
    }
}

proof fn one_received<S: Scalar>(r: Reading<S>, t: TreeModel<S>)
    ensures
        received_each(r, seq![t]) == received(r, t),
{
    if r.open.len() > 0 {
        assert(r.open.last() + seq![t] =~= r.open.last().push(t));
    } else {
        assert(r.roots + seq![t] =~= r.roots.push(t));
    }
}

/// The brackets of a document are no node.
proof fn document_brackets<S: Scalar>(r: Reading<S>, b: (S, S, S, S))
    ensures
        after_tag(r, document_tag(b)) == r,
        after_tag(r, "/svg"@) == r,
        free_of(document_tag(b), '>'),
        free_of("/svg"@, '>'),
{
    tag_names();
    reveal_strlit("/svg");
    reveal_strlit("svg");
    reveal_strlit("g");
    reveal_strlit("xmlns");
    reveal_strlit("viewBox");
    reveal_strlit("http://www.w3.org/2000/svg");
    reveal_strlit(" ");
    let a = document_attrs(b);
    attrs_text_starts(a);
    tag_name_is("svg"@, attrs_text(a));
    assert(mark("svg"@) != mark("g"@) && mark("svg"@) != mark("rect"@) && mark("svg"@) != mark(
        "line"@,
    ) && mark("svg"@) != mark("ellipse"@) && mark("svg"@) != mark("circle"@) && mark("svg"@)
        != mark("image"@));
    number_text(b.0);
    number_text(b.1);
    number_text(b.2);
    number_text(b.3);
    joined_quotable(b.0.text_spec(), " "@);
    joined_quotable(b.0.text_spec() + " "@, b.1.text_spec());
    joined_quotable(b.0.text_spec() + " "@ + b.1.text_spec(), " "@);
    joined_quotable(b.0.text_spec() + " "@ + b.1.text_spec() + " "@, b.2.text_spec());
    joined_quotable(b.0.text_spec() + " "@ + b.1.text_spec() + " "@ + b.2.text_spec(), " "@);
    joined_quotable(
        b.0.text_spec() + " "@ + b.1.text_spec() + " "@ + b.2.text_spec() + " "@,
        b.3.text_spec(),
    );
    assert(free_of(a[0].0, '>') && free_of(a[0].1, '>'));
    assert(free_of(a[1].0, '>') && free_of(a[1].1, '>'));
    assert(unbracketed(a));
    attrs_text_free(a);
    joined_free("svg"@, attrs_text(a));
    let word = past("/svg"@, 1);
    assert(word =~= "svg"@);
    trimmed_already("svg"@);
    plain_name_lowers("svg"@);
}

/// A document reads back as the nodes it was written from.
proof fn documents_read_back<S: Scalar>(rows: Seq<NodeModel<S>>, ids: Seq<u64>, b: (S, S, S, S))
    requires
        distinct(rows),
        rows_stand(rows, ids),
        each_portable(rows, ids),
    ensures
        parsed::<S>(rendered(document_tags(rows, ids, b))) == travelled_trees_each(
            rows,
            ids,
            reach(rows),
        ),
{
    let inner = node_tags_each(rows, ids, reach(rows));
    let trees = travelled_trees_each(rows, ids, reach(rows));
    let start = Reading::<S> { roots: Seq::empty(), open: Seq::empty() };
    let all = document_tags(rows, ids, b);
    document_brackets(start, b);
    after_one_tag(start, document_tag(b));
    node_tags_each_are_received(rows, ids, reach(rows), start);
    let done = received_each(start, trees);
    assert(start.roots + trees =~= trees);
    document_brackets(done, b);
    after_one_tag(done, "/svg"@);
    after_tags_joins(start, seq![document_tag(b)], inner);
    after_tags_joins(start, seq![document_tag(b)] + inner, seq!["/svg"@]);
    assert forall|i: int| 0 <= i < all.len() implies free_of(#[trigger] all[i], '>') by {
        if i == 0 {
            assert(all[i] == document_tag(b));
        } else if i <= inner.len() {
            assert(all[i] == inner[i - 1]);
        } else {
            assert(all[i] == "/svg"@);
        }
    }
    tags_of_rendered(all);
}

/// A copied selection reads back. The text that a selection is copied as holds exactly the
/// topmost selected nodes, at whatever depth, bottom to top, with groups nested as they were and
/// every shape as it travels: the kind, the geometry, the colours, the opacities, the outline,
/// the angle, the corners and the picture.
pub proof fn copies_read_back<S: Scalar>(rows: Seq<NodeModel<S>>, selection: Seq<u64>)
    requires
        distinct(rows),
        selection_portable(rows, selection),
        joint_bounds(rows, selection) is Some,
    ensures
        selection_svg(rows, selection) is Some,
        parsed::<S>(selection_svg(rows, selection)->0) == travelled_trees_each(
            rows,
            topmost_selected(rows, selection),
            reach(rows),
        ),
{
    let ids = topmost_selected(rows, selection);
    topmost_selected_stand(rows, selection);
    assert forall|i: int| 0 <= i < ids.len() implies portable_inside(rows, #[trigger] ids[i]) by {
        picks_are_selected(rows, selection, children(rows, None), reach(rows), i);
        let k = choose|k: int| 0 <= k < selection.len() && selection[k] == ids[i];
        assert(portable_inside(rows, selection[k]));
    }
    documents_read_back(rows, ids, joint_bounds(rows, selection)->0);
}

/// Every copied node reads back as one root, in its turn: a group, or a shape with an extent.
pub proof fn copies_are_one_root_each<S: Scalar>(
    rows: Seq<NodeModel<S>>,
    ids: Seq<u64>,
    steps: nat,
)
    requires
        steps > 0,
        forall|i: int|
            0 <= i < ids.len() ==> peek(rows, #[trigger] ids[i]).kind == NodeKind::Group
                || worth_keeping(travelled(peek(rows, ids[i]))),
    ensures
        travelled_trees_each(rows, ids, steps).len() == ids.len(),
        forall|i: int|
            0 <= i < ids.len() ==> #[trigger] travelled_trees_each(rows, ids, steps)[i] == if peek(
                rows,
                ids[i],
            ).kind == NodeKind::Group {
                TreeModel::Group(
                    travelled_trees_each(rows, children(rows, Some(ids[i])), (steps - 1) as nat),
                )
            } else {
                TreeModel::Shape(travelled(peek(rows, ids[i])))
            },
    decreases ids.len(),
{
    if ids.len() > 0 {
        let front = ids.drop_last();
        let n = ids.len() - 1;
        assert forall|i: int| 0 <= i < front.len() implies peek(rows, #[trigger] front[i]).kind
            == NodeKind::Group || worth_keeping(travelled(peek(rows, front[i]))) by {
            assert(front[i] == ids[i]);
        }
        copies_are_one_root_each(rows, front, steps);
        let a = travelled_trees_each(rows, front, steps);
        let b = travelled_trees(rows, ids[n], steps);
        let w = travelled_trees_each(rows, ids, steps);
        assert(peek(rows, ids[n]).kind == NodeKind::Group || worth_keeping(
            travelled(peek(rows, ids[n])),
        ));
        assert(b.len() == 1);
        assert(w == a + b);
        assert forall|i: int| 0 <= i < ids.len() implies #[trigger] w[i] == if peek(
            rows,
            ids[i],
        ).kind == NodeKind::Group {
            TreeModel::Group(
                travelled_trees_each(rows, children(rows, Some(ids[i])), (steps - 1) as nat),
            )
        } else {
            TreeModel::Shape(travelled(peek(rows, ids[i])))
        } by {
            if i < n {
                assert(w[i] == a[i]);
                assert(front[i] == ids[i]);
            } else {
                assert(w[i] == b[0]);
            }
        }
    }
}

// ---------------------------------------------------------------------------
// What travels whole
// ---------------------------------------------------------------------------

/// Whether a colour is written as the editor writes one: `#RRGGBB`, in upper case.
pub open spec fn canonical_color(c: Seq<char>) -> bool {
    &&& c.len() == 7
    &&& c[0] == '#'
    &&& forall|i: int| 1 <= i < 7 ==> hex_digit(#[trigger] c[i]) && upper(c[i]) == c[i]
}

/// Whether a number lies between nought and one.
pub open spec fn in_unit<S: Scalar>(v: S) -> bool {
    !v.below(S::of_int(0)) && !S::of_int(1).below(v)
}

/// Whether an outline's width is one: nought, or more.
pub open spec fn a_width<S: Scalar>(v: S) -> bool {
    S::of_int(0).below(v) || v == S::of_int(0)
}

/// Whether an angle is less than a whole turn, and not negative.
pub open spec fn an_angle<S: Scalar>(v: S) -> bool {
    !v.below(S::of_int(0)) && v.below(S::of_int(360))
}

/// Whether a node's style is as the editor keeps it.
pub open spec fn canonical<S: Scalar>(n: NodeModel<S>) -> bool {
    match n.kind {
        NodeKind::Rect | NodeKind::Oval => {
            &&& canonical_color(n.fill) && canonical_color(n.stroke)
            &&& in_unit(n.fill_opacity) && in_unit(n.stroke_opacity)
            &&& a_width(n.stroke_width)
            &&& an_angle(n.rotation)
        },
        NodeKind::Line => canonical_color(n.stroke) && in_unit(n.stroke_opacity) && a_width(
            n.stroke_width,
        ),
        NodeKind::Image => in_unit(n.fill_opacity) && an_angle(n.rotation),
        NodeKind::Group => true,
    }
}

/// Whether a frame is told by what is written of it: a line's by its ends, an oval's by its
/// centre and radii, any other as it is.
pub open spec fn framed_exactly<S: Scalar>(n: NodeModel<S>) -> bool {
    let t = travelled(n);
    t.x == n.x && t.y == n.y && t.w == n.w && t.h == n.h
}

/// A shape as a reader would have it from the node itself: its own fields, the angle where it
/// has one, and the corners where they are round.
pub open spec fn own_shape<S: Scalar>(n: NodeModel<S>) -> ShapeModel<S> {
    let painted = n.kind == NodeKind::Rect || n.kind == NodeKind::Oval;
    let outlined = painted || n.kind == NodeKind::Line;
    ShapeModel {
        kind: n.kind,
        x: n.x,
        y: n.y,
        w: n.w,
        h: n.h,
        fill: if painted {
            Some(n.fill)
        } else {
            None
        },
        fill_opacity: if n.kind != NodeKind::Line {
            Some(n.fill_opacity)
        } else {
            None
        },
        stroke: if outlined {
            Some(n.stroke)
        } else {
            None
        },
        stroke_width: if outlined {
            Some(n.stroke_width)
        } else {
            None
        },
        stroke_opacity: if outlined {
            Some(n.stroke_opacity)
        } else {
            None
        },
        rotation: if n.kind == NodeKind::Line || n.rotation.magnitude().at_most(tiny()) {
            None
        } else {
            Some(n.rotation)
        },
        corner_radius: if n.kind == NodeKind::Rect && S::of_int(0).below(n.corner_radius) {
            Some(n.corner_radius)
        } else {
            None
        },
        image_bytes: if n.kind == NodeKind::Image {
            n.image_bytes
        } else {
            Seq::empty()
        },
    }
}

proof fn colors_travel_whole(c: Seq<char>)
    requires
        canonical_color(c),
    ensures
        hex_color(trim_spec(c)) == Some(c),
{
    assert(hex_digit(c[6]));
    trimmed_already(c);
    assert(Seq::new(7, |i: int| upper(c[i])) =~= c);
}

/// A node whose style is as the editor keeps it travels with all its own fields. A rectangle and
/// a picture keep their frames as they are; those of a line and an oval are computed anew.
pub proof fn shapes_travel_whole<S: Scalar>(n: NodeModel<S>)
    requires
        n.kind != NodeKind::Group,
        canonical(n),
    ensures
        ({
            let t = travelled(n);
            &&& t == (ShapeModel { x: t.x, y: t.y, w: t.w, h: t.h, ..own_shape(n) })
            &&& framed_exactly(n) ==> t == own_shape(n)
            &&& n.kind == NodeKind::Rect || n.kind == NodeKind::Image ==> framed_exactly(n)
            &&& n.kind == NodeKind::Line ==> t.x == n.x && t.y == n.y
        }),
{
    n.stroke_width.stays_in_range();
    n.corner_radius.stays_in_range();
    n.rotation.stays_in_range();
    if n.kind == NodeKind::Rect || n.kind == NodeKind::Oval {
        colors_travel_whole(n.fill);
    }
    if n.kind != NodeKind::Image {
        colors_travel_whole(n.stroke);
    }
}

/// Whether sums and halves of a node's coordinates come apart again: what is added to the place
/// of a line or an oval can be taken away, and an oval's halves make the whole.
pub open spec fn comes_apart<S: Scalar>(n: NodeModel<S>) -> bool {
    match n.kind {
        NodeKind::Line => n.x.plus(n.w).minus(n.x) == n.w && n.y.plus(n.h).minus(n.y) == n.h,
        NodeKind::Oval => {
            &&& n.x.plus(half(n.w)).minus(half(n.w)) == n.x
            &&& n.y.plus(half(n.h)).minus(half(n.h)) == n.y
            &&& half(n.w).times(S::of_int(2)) == n.w
            &&& half(n.h).times(S::of_int(2)) == n.h
        },
        NodeKind::Rect | NodeKind::Image | NodeKind::Group => true,
    }
}

/// Whether a node travels with everything that is its own: a group, or a shape that can be
/// written, in a style as the editor keeps it, with an extent, whose coordinates come apart.
pub open spec fn travels_whole<S: Scalar>(n: NodeModel<S>) -> bool {
    n.kind == NodeKind::Group || {
        &&& portable(n)
        &&& canonical(n)
        &&& comes_apart(n)
        &&& worth_keeping(own_shape(n))
    }
}

/// A node whose coordinates come apart travels as the shape it is, whatever the numbers.
pub proof fn frames_come_apart<S: Scalar>(n: NodeModel<S>)
    requires
        n.kind != NodeKind::Group,
        canonical(n),
        comes_apart(n),
    ensures
        travelled(n) == own_shape(n),
{
    shapes_travel_whole(n);
}

/// A node as a reader would have it from the drawing itself: a shape with its own fields, a group
/// with its members, bottom to top.
pub open spec fn own_tree<S: Scalar>(rows: Seq<NodeModel<S>>, id: u64, steps: nat) -> TreeModel<S>
    decreases steps, 0nat,
{
    if steps > 0 && peek(rows, id).kind == NodeKind::Group {
        TreeModel::Group(own_trees(rows, children(rows, Some(id)), (steps - 1) as nat))
    } else {
        TreeModel::Shape(own_shape(peek(rows, id)))
    }
}

/// Nodes as a reader would have them from the drawing itself, in turn.
pub open spec fn own_trees<S: Scalar>(rows: Seq<NodeModel<S>>, ids: Seq<u64>, steps: nat) -> Seq<
    TreeModel<S>,
>
    decreases steps, ids.len(),
{
    if steps == 0 || ids.len() == 0 {
        Seq::empty()
    } else {
        own_trees(rows, ids.drop_last(), steps).push(own_tree(rows, ids.last(), steps))
    }
}

/// Whether a node, and everything inside it, travels whole.
pub open spec fn whole_inside<S: Scalar>(rows: Seq<NodeModel<S>>, id: u64) -> bool {
    forall|x: u64|
        has_row(rows, x) && #[trigger] lineage(rows, x).contains(id) ==> travels_whole(
            peek(rows, x),
        )
}

/// Whether all of some nodes, and everything inside them, travel whole.
pub open spec fn all_whole<S: Scalar>(rows: Seq<NodeModel<S>>, ids: Seq<u64>) -> bool {
    forall|i: int| 0 <= i < ids.len() ==> whole_inside(rows, #[trigger] ids[i])
}

proof fn members_are_whole<S: Scalar>(rows: Seq<NodeModel<S>>, id: u64)
    requires
        distinct(rows),
        whole_inside(rows, id),
    ensures
        all_whole(rows, children(rows, Some(id))),
{
    let members = children(rows, Some(id));
    siblings_are_in_order(rows, Some(id));
    assert forall|i: int| 0 <= i < members.len() implies whole_inside(
        rows,
        #[trigger] members[i],
    ) by {
        let c = members[i];
        assert(members.contains(c));
        assert forall|x: u64|
            has_row(rows, x) && #[trigger] lineage(rows, x).contains(c) implies travels_whole(
            peek(rows, x),
        ) by {
            inside_a_member(rows, id, c, x);
        }
    }
}

proof fn whole_trees_travel<S: Scalar>(rows: Seq<NodeModel<S>>, ids: Seq<u64>, steps: nat)
    requires
        distinct(rows),
        rows_stand(rows, ids),
        all_whole(rows, ids),
    ensures
        travelled_trees_each(rows, ids, steps) == own_trees(rows, ids, steps),
    decreases steps, ids.len(),
{
    if ids.len() > 0 {
        let front = ids.drop_last();
        let n = ids.len() - 1;
        let id = ids[n];
        assert(rows_stand(rows, front)) by {
            assert forall|i: int| 0 <= i < front.len() implies has_row(
                rows,
                #[trigger] front[i],
            ) by {
                assert(front[i] == ids[i]);
            }
        }
        assert(all_whole(rows, front)) by {
            assert forall|i: int| 0 <= i < front.len() implies whole_inside(
                rows,
                #[trigger] front[i],
            ) by {
                assert(front[i] == ids[i]);
            }
        }
        whole_trees_travel(rows, front, steps);
        let a = travelled_trees_each(rows, front, steps);
        let b = travelled_trees(rows, id, steps);
        assert(travelled_trees_each(rows, ids, steps) == a + b);
        if steps == 0 {
            assert(a + b =~= Seq::<TreeModel<S>>::empty());
        } else {
            assert(has_row(rows, id) && whole_inside(rows, id));
            if peek(rows, id).kind == NodeKind::Group {
                members_are_whole(rows, id);
                children_stand(rows, Some(id));
                whole_trees_travel(rows, children(rows, Some(id)), (steps - 1) as nat);
            } else {
                assert(above(rows, id, 0) == Some(id));
                lineages_hold_what_is_above(rows, id, id);
                assert(travels_whole(peek(rows, id)));
                frames_come_apart(peek(rows, id));
            }
            assert(b == seq![own_tree(rows, id, steps)]);
            assert(a + b =~= a.push(own_tree(rows, id, steps)));
        }
    }
}

/// A copied selection reads back whole, whatever the numbers: one root for each of the topmost
/// selected nodes, bottom to top, a group as a group of its members in their order, and every
/// shape with its own fields.
pub proof fn copies_read_back_whole<S: Scalar>(rows: Seq<NodeModel<S>>, selection: Seq<u64>)
    requires
        distinct(rows),
        all_whole(rows, selection),
        joint_bounds(rows, selection) is Some,
    ensures
        selection_svg(rows, selection) is Some,
        parsed::<S>(selection_svg(rows, selection)->0) == own_trees(
            rows,
            topmost_selected(rows, selection),
            reach(rows),
        ),
        parsed::<S>(selection_svg(rows, selection)->0).len() == topmost_selected(
            rows,
            selection,
        ).len(),
{
    let ids = topmost_selected(rows, selection);
    assert forall|i: int| 0 <= i < selection.len() implies portable_inside(
        rows,
        #[trigger] selection[i],
    ) by {
        assert(whole_inside(rows, selection[i]));
        assert forall|x: u64|
            has_row(rows, x) && #[trigger] lineage(rows, x).contains(selection[i]) implies portable(
            peek(rows, x),
        ) by {
            assert(travels_whole(peek(rows, x)));
        }
    }
    copies_read_back(rows, selection);
    topmost_selected_stand(rows, selection);
    assert forall|i: int| 0 <= i < ids.len() implies whole_inside(rows, #[trigger] ids[i]) by {
        picks_are_selected(rows, selection, children(rows, None), reach(rows), i);
        let k = choose|k: int| 0 <= k < selection.len() && selection[k] == ids[i];
        assert(whole_inside(rows, selection[k]));
    }
    whole_trees_travel(rows, ids, reach(rows));
    trees_are_counted(rows, ids, reach(rows));
}

proof fn trees_are_counted<S: Scalar>(rows: Seq<NodeModel<S>>, ids: Seq<u64>, steps: nat)
    requires
        steps > 0,
    ensures
        own_trees(rows, ids, steps).len() == ids.len(),
    decreases ids.len(),
{
    if ids.len() > 0 {
        trees_are_counted(rows, ids.drop_last(), steps);
    }
}

pub open spec fn one_of(selection: Seq<u64>) -> spec_fn(u64) -> bool {
    |id: u64| selection.contains(id)
}

/// Nothing is picked below the top level where all that is selected is on it.
proof fn nothing_below<S: Scalar>(
    rows: Seq<NodeModel<S>>,
    selection: Seq<u64>,
    ids: Seq<u64>,
    steps: nat,
)
    requires
        distinct(rows),
        forall|i: int|
            0 <= i < selection.len() ==> peek(rows, #[trigger] selection[i]).parent is None,
        forall|i: int| 0 <= i < ids.len() ==> peek(rows, #[trigger] ids[i]).parent is Some,
    ensures
        picked_each(rows, selection, ids, steps) == Seq::<u64>::empty(),
    decreases steps, ids.len(),
{
    if ids.len() > 0 {
        let front = ids.drop_last();
        let n = ids.len() - 1;
        let id = ids[n];
        assert forall|i: int| 0 <= i < front.len() implies peek(
            rows,
            #[trigger] front[i],
        ).parent is Some by {
            assert(front[i] == ids[i]);
        }
        nothing_below(rows, selection, front, steps);
        assert(peek(rows, id).parent is Some);
        assert(!selection.contains(id)) by {
            if selection.contains(id) {
                let k = choose|k: int| 0 <= k < selection.len() && selection[k] == id;
                assert(peek(rows, selection[k]).parent is None);
            }
        }
        if steps > 0 {
            members_have_a_group(rows, id);
            nothing_below(rows, selection, children(rows, Some(id)), (steps - 1) as nat);
        }
        assert(picked(rows, selection, id, steps) =~= Seq::<u64>::empty());
        assert(picked_each(rows, selection, ids, steps) =~= Seq::<u64>::empty());
    }
}

proof fn members_have_a_group<S: Scalar>(rows: Seq<NodeModel<S>>, id: u64)
    requires
        distinct(rows),
    ensures
        forall|i: int|
            0 <= i < children(rows, Some(id)).len() ==> peek(
                rows,
                #[trigger] children(rows, Some(id))[i],
            ).parent is Some,
{
    let members = children(rows, Some(id));
    siblings_are_in_order(rows, Some(id));
    assert forall|i: int| 0 <= i < members.len() implies peek(
        rows,
        #[trigger] members[i],
    ).parent is Some by {
        assert(members.contains(members[i]));
    }
}

/// Where all that is selected is on the top level, what is copied is the selected nodes of the
/// top level, bottom to top.
pub proof fn top_level_copies_are_the_selection<S: Scalar>(
    rows: Seq<NodeModel<S>>,
    selection: Seq<u64>,
)
    requires
        distinct(rows),
        forall|i: int|
            0 <= i < selection.len() ==> peek(rows, #[trigger] selection[i]).parent is None,
    ensures
        topmost_selected(rows, selection) == children(rows, None).filter(one_of(selection)),
{
    roots_are_picked(rows, selection, children(rows, None), reach(rows));
}

proof fn roots_are_picked<S: Scalar>(
    rows: Seq<NodeModel<S>>,
    selection: Seq<u64>,
    ids: Seq<u64>,
    steps: nat,
)
    requires
        distinct(rows),
        steps > 0,
        forall|i: int|
            0 <= i < selection.len() ==> peek(rows, #[trigger] selection[i]).parent is None,
    ensures
        picked_each(rows, selection, ids, steps) == ids.filter(one_of(selection)),
    decreases ids.len(),
{
    reveal(Seq::filter);
    if ids.len() > 0 {
        let front = ids.drop_last();
        let id = ids.last();
        roots_are_picked(rows, selection, front, steps);
        let a = picked_each(rows, selection, front, steps);
        let b = picked(rows, selection, id, steps);
        assert(picked_each(rows, selection, ids, steps) == a + b);
        if selection.contains(id) {
            assert(b == seq![id]);
            assert(a + b =~= a.push(id));
        } else {
            members_have_a_group(rows, id);
            nothing_below(rows, selection, children(rows, Some(id)), (steps - 1) as nat);
            assert(a + b =~= a);
        }
    }
}

/// In millionths a line keeps its signed extent exactly, and an oval its place, and its extent up
/// to a millionth.
pub proof fn frames_travel_whole(n: NodeModel<Micro>)
    requires
        within(n.x, 1_000_000_000_000),
        within(n.y, 1_000_000_000_000),
        within(n.w, 1_000_000_000_000),
        within(n.h, 1_000_000_000_000),
    ensures
        n.kind == NodeKind::Line ==> framed_exactly(n) && comes_apart(n),
        n.kind == NodeKind::Oval ==> ({
            let t = travelled(n);
            &&& t.x == n.x && t.y == n.y
            &&& n.w.raw - 1 <= t.w.raw <= n.w.raw + 1
            &&& n.h.raw - 1 <= t.h.raw <= n.h.raw + 1
        }),
        n.kind == NodeKind::Oval && n.w.raw % 2 == 0 && n.h.raw % 2 == 0 ==> framed_exactly(n)
            && comes_apart(n),
{
    halved(n.w);
    halved(n.h);
    doubled(half(n.w));
    doubled(half(n.h));
}

proof fn doubled(v: Micro)
    requires
        within(v, 100_000_000_000_000),
    ensures
        v.times(Micro::of_int(2)).raw == 2 * v.raw,
{
    assert(Micro::of_int(2).raw == 2_000_000);
    assert(v.raw * 2_000_000 == (2 * v.raw) * 1_000_000);
}

} // verus!
