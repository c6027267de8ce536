//! How a drawing is written down, told by its own words: names, numbers, angles and frames, and what
//! a paste makes of them.
use vstd::prelude::*;
use crate::clipboard::RepModel;
use crate::exact::within;
use crate::foreign::says;
use crate::geometry::Point;
use crate::micro::Micro;
use crate::node::NodeKind;
use crate::ops::count_spec;
use crate::paste::{paste_offset, pasted_shape};
use crate::scalar::{numeral, Scalar};
use crate::svg::{attr, rotation_attr, ShapeModel};
use crate::svg_write::document_attrs;
use crate::text::{blank, trim_end, trim_spec, trim_start, without_px_spec};
use crate::transfer::{chosen, first_of, import_at};
use crate::travel::{number_text, rotate_text_reads_back};

verus! {

/// An attribute is found by its name, and where several have it the first is.
pub proof fn attributes_are_found_by_name(a: Seq<(Seq<char>, Seq<char>)>, name: Seq<char>)
    ensures
        match attr(a, name) {
            Some(v) => exists|i: int|
                0 <= i < a.len() && #[trigger] a[i] == (name, v) && forall|j: int|
                    0 <= j < i ==> (#[trigger] a[j]).0 != name,
            None => forall|j: int| 0 <= j < a.len() ==> (#[trigger] a[j]).0 != name,
        },
    decreases a.len(),
{
    if a.len() > 0 {
        let rest = a.drop_first();
        attributes_are_found_by_name(rest, name);
        if a[0].0 == name {
            assert(a[0] == (name, a[0].1));
        } else {
            match attr(rest, name) {
                Some(v) => {
                    let i = choose|i: int|
                        0 <= i < rest.len() && #[trigger] rest[i] == (name, v) && forall|j: int|
                            0 <= j < i ==> (#[trigger] rest[j]).0 != name;
                    assert(a[i + 1] == (name, v));
                    assert forall|j: int| 0 <= j < i + 1 implies (#[trigger] a[j]).0 != name by {
                        if j > 0 {
                            assert(a[j] == rest[j - 1]);
                        }
                    }
                },
                None => {
                    assert forall|j: int| 0 <= j < a.len() implies (#[trigger] a[j]).0 != name by {
                        if j > 0 {
                            assert(a[j] == rest[j - 1]);
                        }
                    }
                },
            }
        }
    }
}

/// A number is read as it is written, and the unit `px` behind it changes nothing.
pub proof fn numbers_are_read_as_written<S: Scalar>(
    a: Seq<(Seq<char>, Seq<char>)>,
    name: Seq<char>,
    v: S,
)
    requires
        v.finite(),
        attr(a, name) == Some(v.text_spec()) || attr(a, name) == Some(
            v.text_spec() + seq!['p', 'x'],
        ),
    ensures
        says(a, name, v),
{
    number_text(v);
    let t = v.text_spec();
    let u = t + seq!['p', 'x'];
    assert(!blank(t[0])) by {
        trim_keeps(t);
    }
    assert(u[0] == t[0] && u.last() == 'x');
    assert(!blank('x'));
    assert(trim_start(u) == u);
    assert(trim_end(u) == u);
    assert(u.subrange(0, u.len() - 2) =~= t);
    assert(without_px_spec(u) == without_px_spec(t));
    trim_keeps(t);
}

/// A number's text begins and ends in what it is made of.
pub proof fn trim_keeps(t: Seq<char>)
    requires
        t.len() > 0,
        forall|i: int| 0 <= i < t.len() ==> numeral(#[trigger] t[i]),
    ensures
        !blank(t[0]),
        trim_spec(t) == t,
{
    assert(numeral(t[0]));
    assert(numeral(t[t.len() - 1]));
    assert(trim_start(t) == t);
    assert(trim_end(t) == t);
}

/// White space around a text goes, all of it, and nothing else.
pub proof fn trimming_takes_the_white_space_around(s: Seq<char>)
    ensures
        ({
            let t = trim_spec(s);
            &&& t.len() > 0 ==> !blank(t[0]) && !blank(t.last())
            &&& exists|i: int, j: int|
                0 <= i <= j <= s.len() && t == #[trigger] s.subrange(i, j) && forall|k: int|
                    0 <= k < i || j <= k < s.len() ==> blank(#[trigger] s[k])
        }),
{
    let i = trimmed_start(s);
    let t = trim_start(s);
    let j = trimmed_end(t);
    assert(t.subrange(0, j) =~= s.subrange(i, i + j));
    assert forall|k: int| 0 <= k < i || i + j <= k < s.len() implies blank(#[trigger] s[k]) by {
        if k >= i + j {
            assert(t[k - i] == s[k]);
        }
    }
    if j > 0 {
        assert(t.subrange(0, j)[0] == t[0]);
    }
}

proof fn trimmed_start(s: Seq<char>) -> (i: int)
    ensures
        0 <= i <= s.len(),
        trim_start(s) == s.subrange(i, s.len() as int),
        forall|k: int| 0 <= k < i ==> blank(#[trigger] s[k]),
        i < s.len() ==> !blank(s[i]),
    decreases s.len(),
{
    if s.len() > 0 && blank(s[0]) {
        let rest = s.drop_first();
        let i = trimmed_start(rest);
        assert(rest.subrange(i, rest.len() as int) =~= s.subrange(i + 1, s.len() as int));
        assert forall|k: int| 0 <= k < i + 1 implies blank(#[trigger] s[k]) by {
            if k > 0 {
                assert(rest[k - 1] == s[k]);
            }
        }
        if i < rest.len() {
            assert(rest[i] == s[i + 1]);
        }
        i + 1
    } else {
        assert(s.subrange(0, s.len() as int) =~= s);
        0
    }
}

proof fn trimmed_end(s: Seq<char>) -> (j: int)
    ensures
        0 <= j <= s.len(),
        trim_end(s) == s.subrange(0, j),
        forall|k: int| j <= k < s.len() ==> blank(#[trigger] s[k]),
        j > 0 ==> !blank(s[j - 1]),
    decreases s.len(),
{
    if s.len() > 0 && blank(s.last()) {
        let front = s.drop_last();
        let j = trimmed_end(front);
        assert(front.subrange(0, j) =~= s.subrange(0, j));
        assert forall|k: int| j <= k < s.len() implies blank(#[trigger] s[k]) by {
            if k < front.len() {
                assert(front[k] == s[k]);
            }
        }
        if j > 0 {
            assert(front[j - 1] == s[j - 1]);
        }
        j
    } else {
        assert(s.subrange(0, s.len() as int) =~= s);
        s.len() as int
    }
}

/// An element that is turned says by how much, and where about; the angle is read within a full
/// turn.
pub proof fn turned_elements_say_their_angle(
    a: Seq<(Seq<char>, Seq<char>)>,
    degrees: Micro,
    cx: Micro,
    cy: Micro,
)
    requires
        attr(a, "transform"@) == Some(
            "rotate("@ + degrees.text_spec() + " "@ + cx.text_spec() + " "@ + cy.text_spec() + ")"@,
        ),
    ensures
        rotation_attr::<Micro>(a) matches Some(r) && 0 <= r.raw < 360_000_000 && (degrees.raw - r.raw)
            % 360_000_000 == 0,
{
    assert(degrees.finite());
    rotate_text_reads_back(a, degrees, cx, cy);
    assert(Micro::of_int(360).raw == 360_000_000);
}

/// A drawing shows the frame that it is written for, from its left edge and its top by its extents.
pub proof fn drawings_show_their_frame<S: Scalar>(b: (S, S, S, S))
    ensures
        attr(document_attrs(b), "viewBox"@) == Some(
            b.0.text_spec() + " "@ + b.1.text_spec() + " "@ + b.2.text_spec() + " "@
                + b.3.text_spec(),
        ),
        attr(document_attrs(b), "xmlns"@) == Some("http://www.w3.org/2000/svg"@),
{
    let a = document_attrs(b);
    reveal_strlit("xmlns");
    reveal_strlit("viewBox");
    assert("xmlns"@.len() != "viewBox"@.len());
    reveal_with_fuel(attr, 3);
    assert(a.drop_first()[0] == a[1]);
}

/// A pasted shape stands off from where its text says by the step of the paste, as much down as
/// across, and is a least extent wide and high; what its text says of its paint, its angle and its
/// picture it has.
pub proof fn pasted_shapes_are_as_said(
    s: ShapeModel<Micro>,
    id: u64,
    parent: Option<u64>,
    z: Micro,
    offset: Micro,
)
    requires
        within(s.x, 1_000_000_000_000_000),
        within(s.y, 1_000_000_000_000_000),
        within(offset, 1_000_000_000_000_000),
    ensures
        ({
            let n = pasted_shape(s, id, parent, z, offset);
            &&& n.id == id && n.parent == parent && n.z == z && n.kind == s.kind
            &&& n.x.raw == s.x.raw + offset.raw && n.y.raw == s.y.raw + offset.raw
            &&& s.kind == NodeKind::Line ==> n.w == s.w && n.h == s.h
            &&& s.kind != NodeKind::Line ==> n.w.raw == if s.w.raw < 8_000_000 {
                8_000_000
            } else {
                s.w.raw as int
            }
            &&& s.kind != NodeKind::Line ==> n.h.raw == if s.h.raw < 8_000_000 {
                8_000_000
            } else {
                s.h.raw as int
            }
            &&& s.fill matches Some(v) ==> n.fill == v
            &&& s.stroke matches Some(v) ==> n.stroke == v
            &&& s.fill_opacity matches Some(v) ==> n.fill_opacity == v
            &&& s.stroke_opacity matches Some(v) ==> n.stroke_opacity == v
            &&& s.stroke_width matches Some(v) ==> n.stroke_width == v
            &&& s.rotation matches Some(v) ==> n.rotation == v
            &&& s.corner_radius matches Some(v) ==> n.corner_radius == v
            &&& n.image_bytes == s.image_bytes
        }),
{
}

/// The first paste of a text steps off by sixteen, and so does each further one from the one before;
/// the imports of a batch do so too.
pub proof fn pastes_step_by_sixteen(
    text: Seq<char>,
    other: Seq<char>,
    step: Micro,
    p: Point<Micro>,
    index: int,
)
    requires
        other != text,
        within(step, 1_000_000_000_000_000),
        within(p.x, 1_000_000_000_000_000),
        within(p.y, 1_000_000_000_000_000),
        0 <= index <= 1_000_000,
    ensures
        paste_offset::<Micro>(None, text).raw == 16_000_000,
        paste_offset(Some((other, step)), text).raw == 16_000_000,
        paste_offset(Some((text, step)), text).raw == step.raw + 16_000_000,
        import_at(p, index).x.raw == p.x.raw + 16_000_000 * index,
        import_at(p, index).y.raw == p.y.raw + 16_000_000 * index,
{
    assert(Micro::of_int(16).raw == 16_000_000);
    let c = count_spec::<Micro>(index);
    assert(c.raw == 1_000_000 * index);
    assert(c.raw * 16_000_000 == 16_000_000 * (1_000_000 * index));
    assert(c.times(Micro::of_int(16)).raw == 16_000_000 * index);
}

/// The first representation of a type is found, and none only where there is none.
pub proof fn first_representations_are_found(reps: Seq<RepModel>, mime: Seq<char>)
    ensures
        match first_of(reps, mime) {
            Some(i) => 0 <= i < reps.len() && reps[i].mime == mime && forall|j: int|
                0 <= j < i ==> (#[trigger] reps[j]).mime != mime,
            None => forall|j: int| 0 <= j < reps.len() ==> (#[trigger] reps[j]).mime != mime,
        },
    decreases reps.len(),
{
    if reps.len() > 0 {
        let front = reps.drop_last();
        first_representations_are_found(front, mime);
        assert forall|j: int| 0 <= j < front.len() implies #[trigger] front[j] == reps[j] by {}
        match first_of(front, mime) {
            Some(i) => {
                assert(front[i] == reps[i]);
                assert forall|j: int| 0 <= j < i implies (#[trigger] reps[j]).mime != mime by {
                    assert(front[j] == reps[j]);
                }
            },
            None => {
                assert forall|j: int| 0 <= j < reps.len() - 1 implies (#[trigger] reps[j]).mime
                    != mime by {
                    assert(front[j] == reps[j]);
                }
            },
        }
    }
}

/// Of what an item offers, the type that comes first in the order is taken, and nothing only where
/// none of the types is offered.
pub proof fn the_first_type_in_order_is_taken(reps: Seq<RepModel>, order: Seq<Seq<char>>)
    ensures
        match chosen(reps, order) {
            Some(i) => 0 <= i < reps.len() && exists|k: int|
                0 <= k < order.len() && #[trigger] order[k] == reps[i].mime && forall|m: int, j: int|
                    #![trigger order[m], reps[j]]
                    0 <= m < k && 0 <= j < reps.len() ==> reps[j].mime != order[m],
            None => forall|m: int, j: int|
                #![trigger order[m], reps[j]]
                0 <= m < order.len() && 0 <= j < reps.len() ==> reps[j].mime != order[m],
        },
    decreases order.len(),
{
    if order.len() > 0 {
        let rest = order.drop_first();
        first_representations_are_found(reps, order[0]);
        the_first_type_in_order_is_taken(reps, rest);
        if first_of(reps, order[0]) is None {
            assert forall|m: int| 1 <= m < order.len() implies #[trigger] order[m] == rest[m - 1] by {}
            match chosen(reps, rest) {
                Some(i) => {
                    let k = choose|k: int|
                        0 <= k < rest.len() && #[trigger] rest[k] == reps[i].mime && forall|
                            m: int,
                            j: int,
                        |
                            #![trigger rest[m], reps[j]]
                            0 <= m < k && 0 <= j < reps.len() ==> reps[j].mime != rest[m];
                    assert(order[k + 1] == reps[i].mime);
                    assert forall|m: int, j: int|
                        #![trigger order[m], reps[j]]
                        0 <= m < k + 1 && 0 <= j < reps.len() implies reps[j].mime != order[m] by {
                        if m > 0 {
                            assert(order[m] == rest[m - 1]);
                        }
                    }
                },
                None => {
                    assert forall|m: int, j: int|
                        #![trigger order[m], reps[j]]
                        0 <= m < order.len() && 0 <= j < reps.len() implies reps[j].mime != order[m] by {
                        if m > 0 {
                            assert(order[m] == rest[m - 1]);
                        }
                    }
                },
            }
        }
    }
}

} // verus!
