//! Writing SVG: the selection as a document that stands alone.
use vstd::prelude::*;
use crate::base64;
use crate::bounds::joint_bounds;
use crate::geometry::center;
use crate::images::{picture_type, type_of_picture};
use crate::node::{Node, NodeKind, NodeModel};
use crate::ops::Editor;
use crate::scalar::{half, tiny, Scalar};
use crate::order::siblings_are_in_order;
use crate::scene::{children, distinct, has_row, peek, position, reach, Scene};
use crate::text::string_of;

verus! {

/// A tag in its brackets.
pub open spec fn bracketed(tag: Seq<char>) -> Seq<char> {
    "<"@ + tag + ">"@
}

/// Tags, one after the other.
pub open spec fn rendered(tags: Seq<Seq<char>>) -> Seq<char>
    decreases tags.len(),
{
    if tags.len() == 0 {
        Seq::empty()
    } else {
        rendered(tags.drop_last()) + bracketed(tags.last())
    }
}

/// One attribute, with the space before it.
pub open spec fn attr_text(a: (Seq<char>, Seq<char>)) -> Seq<char> {
    " "@ + a.0 + "=\""@ + a.1 + "\""@
}

/// Attributes, one after the other.
pub open spec fn attrs_text(a: Seq<(Seq<char>, Seq<char>)>) -> Seq<char>
    decreases a.len(),
{
    if a.len() == 0 {
        Seq::empty()
    } else {
        attrs_text(a.drop_last()) + attr_text(a.last())
    }
}

/// A tag that closes itself.
pub open spec fn element(name: Seq<char>, a: Seq<(Seq<char>, Seq<char>)>) -> Seq<char> {
    name + attrs_text(a) + "/"@
}

/// The `transform` attribute of a shape that is turned about its middle; none for an upright
/// one.
pub open spec fn rotate_attrs<S: Scalar>(n: NodeModel<S>) -> Seq<(Seq<char>, Seq<char>)> {
    if n.rotation.magnitude().at_most(tiny()) {
        Seq::empty()
    } else {
        let c = center((n.x, n.y, n.w, n.h));
        seq![
            (
                "transform"@,
                "rotate("@ + n.rotation.text_spec() + " "@ + c.x.text_spec() + " "@
                    + c.y.text_spec() + ")"@,
            ),
        ]
    }
}

/// The attributes of an outline.
pub open spec fn stroke_attrs<S: Scalar>(n: NodeModel<S>) -> Seq<(Seq<char>, Seq<char>)> {
    seq![
        ("stroke"@, n.stroke),
        ("stroke-width"@, n.stroke_width.text_spec()),
        ("stroke-opacity"@, n.stroke_opacity.text_spec()),
    ]
}

/// The attributes of an interior and its outline.
pub open spec fn paint_attrs<S: Scalar>(n: NodeModel<S>) -> Seq<(Seq<char>, Seq<char>)> {
    seq![("fill"@, n.fill), ("fill-opacity"@, n.fill_opacity.text_spec())] + stroke_attrs(n)
}

/// The attributes of a frame.
pub open spec fn frame_attrs<S: Scalar>(n: NodeModel<S>) -> Seq<(Seq<char>, Seq<char>)> {
    seq![
        ("x"@, n.x.text_spec()),
        ("y"@, n.y.text_spec()),
        ("width"@, n.w.text_spec()),
        ("height"@, n.h.text_spec()),
    ]
}

/// The attributes of rounded corners; none for square ones.
pub open spec fn radius_attrs<S: Scalar>(n: NodeModel<S>) -> Seq<(Seq<char>, Seq<char>)> {
    if S::of_int(0).below(n.corner_radius) {
        seq![("rx"@, n.corner_radius.text_spec()), ("ry"@, n.corner_radius.text_spec())]
    } else {
        Seq::empty()
    }
}

/// The address that holds a picture whole.
pub open spec fn picture_address(bytes: Seq<u8>) -> Seq<char> {
    "data:"@ + picture_type(bytes) + ";base64,"@ + base64::encoded(bytes)
}

/// The name of a shape's tag.
pub open spec fn tag_name(kind: NodeKind) -> Seq<char> {
    match kind {
        NodeKind::Rect => "rect"@,
        NodeKind::Oval => "ellipse"@,
        NodeKind::Line => "line"@,
        NodeKind::Image => "image"@,
        NodeKind::Group => "g"@,
    }
}

/// The attributes of a shape's tag. A line has no fill, and its two ends keep its direction.
pub open spec fn shape_attrs<S: Scalar>(n: NodeModel<S>) -> Seq<(Seq<char>, Seq<char>)> {
    match n.kind {
        NodeKind::Rect => frame_attrs(n) + radius_attrs(n) + paint_attrs(n) + rotate_attrs(n),
        NodeKind::Line => seq![
            ("x1"@, n.x.text_spec()),
            ("y1"@, n.y.text_spec()),
            ("x2"@, n.x.plus(n.w).text_spec()),
            ("y2"@, n.y.plus(n.h).text_spec()),
        ] + stroke_attrs(n),
        NodeKind::Oval => seq![
            ("cx"@, center((n.x, n.y, n.w, n.h)).x.text_spec()),
            ("cy"@, center((n.x, n.y, n.w, n.h)).y.text_spec()),
            ("rx"@, half(n.w).text_spec()),
            ("ry"@, half(n.h).text_spec()),
        ] + paint_attrs(n) + rotate_attrs(n),
        NodeKind::Image => frame_attrs(n) + seq![
            ("href"@, picture_address(n.image_bytes)),
            ("opacity"@, n.fill_opacity.text_spec()),
        ] + rotate_attrs(n),
        NodeKind::Group => Seq::empty(),
    }
}

/// The tags of a node, descending `steps` levels at most: one for a shape, and for a group
/// `g`, its members' and `/g`.
pub open spec fn node_tags<S: Scalar>(rows: Seq<NodeModel<S>>, id: u64, steps: nat) -> Seq<
    Seq<char>,
>
    decreases steps, 0nat,
{
    if steps == 0 {
        Seq::empty()
    } else if peek(rows, id).kind == NodeKind::Group {
        seq!["g"@] + node_tags_each(rows, children(rows, Some(id)), (steps - 1) as nat) + seq![
            "/g"@,
        ]
    } else {
        let n = peek(rows, id);
        seq![element(tag_name(n.kind), shape_attrs(n))]
    }
}

/// The tags of each of some nodes, in turn.
pub open spec fn node_tags_each<S: Scalar>(
    rows: Seq<NodeModel<S>>,
    ids: Seq<u64>,
    steps: nat,
) -> Seq<Seq<char>>
    decreases steps, ids.len(),
{
    if ids.len() == 0 {
        Seq::empty()
    } else {
        node_tags_each(rows, ids.drop_last(), steps) + node_tags(rows, ids.last(), steps)
    }
}

/// The topmost selected nodes under `id`, itself among them, descending `steps` levels at most.
pub open spec fn picked<S: Scalar>(
    rows: Seq<NodeModel<S>>,
    selection: Seq<u64>,
    id: u64,
    steps: nat,
) -> Seq<u64>
    decreases steps, 0nat,
{
    if steps == 0 {
        Seq::empty()
    } else if selection.contains(id) {
        seq![id]
    } else if peek(rows, id).kind == NodeKind::Group {
        picked_each(rows, selection, children(rows, Some(id)), (steps - 1) as nat)
    } else {
        Seq::empty()
    }
}

/// The topmost selected nodes under each of some nodes, in turn.
pub open spec fn picked_each<S: Scalar>(
    rows: Seq<NodeModel<S>>,
    selection: Seq<u64>,
    ids: Seq<u64>,
    steps: nat,
) -> Seq<u64>
    decreases steps, ids.len(),
{
    if ids.len() == 0 {
        Seq::empty()
    } else {
        picked_each(rows, selection, ids.drop_last(), steps) + picked(
            rows,
            selection,
            ids.last(),
            steps,
        )
    }
}

/// The topmost selected nodes, bottom to top: every selected node, at whatever depth, but for
/// those inside a selected group.
pub open spec fn topmost_selected<S: Scalar>(rows: Seq<NodeModel<S>>, selection: Seq<u64>) -> Seq<
    u64,
> {
    picked_each(rows, selection, children(rows, None), reach(rows))
}

/// Whether all of some ids have rows.
pub open spec fn rows_stand<S>(rows: Seq<NodeModel<S>>, ids: Seq<u64>) -> bool {
    forall|i: int| 0 <= i < ids.len() ==> has_row(rows, #[trigger] ids[i])
}

/// Siblings have rows.
pub proof fn children_stand<S: Scalar>(rows: Seq<NodeModel<S>>, parent: Option<u64>)
    requires
        distinct(rows),
    ensures
        rows_stand(rows, children(rows, parent)),
{
    siblings_are_in_order(rows, parent);
    let c = children(rows, parent);
    assert forall|i: int| 0 <= i < c.len() implies has_row(rows, #[trigger] c[i]) by {
        assert(c.contains(c[i]));
    }
}

proof fn picked_stand<S: Scalar>(
    rows: Seq<NodeModel<S>>,
    selection: Seq<u64>,
    ids: Seq<u64>,
    steps: nat,
)
    requires
        distinct(rows),
        rows_stand(rows, ids),
    ensures
        rows_stand(rows, picked_each(rows, selection, ids, steps)),
    decreases steps, ids.len(),
{
    if ids.len() > 0 {
        let front = ids.drop_last();
        let last = ids[ids.len() - 1];
        assert forall|i: int| 0 <= i < front.len() implies has_row(rows, #[trigger] front[i]) by {
            assert(front[i] == ids[i]);
        }
        picked_stand(rows, selection, front, steps);
        assert(has_row(rows, last));
        if steps > 0 && !selection.contains(last) && peek(rows, last).kind == NodeKind::Group {
            children_stand(rows, Some(last));
            picked_stand(rows, selection, children(rows, Some(last)), (steps - 1) as nat);
        }
        let a = picked_each(rows, selection, front, steps);
        let b = picked(rows, selection, last, steps);
        assert forall|i: int| 0 <= i < (a + b).len() implies has_row(
            rows,
            #[trigger] (a + b)[i],
        ) by {
            if i < a.len() {
                assert((a + b)[i] == a[i]);
            } else {
                assert((a + b)[i] == b[i - a.len()]);
            }
        }
    }
}

/// The topmost selected nodes have rows.
pub proof fn topmost_selected_stand<S: Scalar>(rows: Seq<NodeModel<S>>, selection: Seq<u64>)
    requires
        distinct(rows),
    ensures
        rows_stand(rows, topmost_selected(rows, selection)),
{
    children_stand(rows, None);
    picked_stand(rows, selection, children(rows, None), reach(rows));
}

/// The attributes of the opening tag of a document that shows `b`.
pub open spec fn document_attrs<S: Scalar>(b: (S, S, S, S)) -> Seq<(Seq<char>, Seq<char>)> {
    seq![
        ("xmlns"@, "http://www.w3.org/2000/svg"@),
        (
            "viewBox"@,
            b.0.text_spec() + " "@ + b.1.text_spec() + " "@ + b.2.text_spec() + " "@
                + b.3.text_spec(),
        ),
    ]
}

/// The opening tag of a document that shows `b`.
pub open spec fn document_tag<S: Scalar>(b: (S, S, S, S)) -> Seq<char> {
    "svg"@ + attrs_text(document_attrs(b))
}

/// The tags of the document that holds some nodes, and shows `b`.
pub open spec fn document_tags<S: Scalar>(
    rows: Seq<NodeModel<S>>,
    ids: Seq<u64>,
    b: (S, S, S, S),
) -> Seq<Seq<char>> {
    seq![document_tag(b)] + node_tags_each(rows, ids, reach(rows)) + seq!["/svg"@]
}

/// The selection as an SVG document; `None` when nothing with bounds is selected.
pub open spec fn selection_svg<S: Scalar>(rows: Seq<NodeModel<S>>, selection: Seq<u64>) -> Option<
    Seq<char>,
> {
    match joint_bounds(rows, selection) {
        Some(b) => Some(rendered(document_tags(rows, topmost_selected(rows, selection), b))),
        None => None,
    }
}

/// What is rendered of two runs of tags is what is rendered of each.
pub proof fn rendered_joins(a: Seq<Seq<char>>, b: Seq<Seq<char>>)
    ensures
        rendered(a + b) == rendered(a) + rendered(b),
    decreases b.len(),
{
    if b.len() == 0 {
        assert(a + b =~= a);
        assert(rendered(a) + rendered(b) =~= rendered(a));
    } else {
        assert((a + b).drop_last() =~= a + b.drop_last());
        rendered_joins(a, b.drop_last());
        assert(rendered(a + b) =~= rendered(a) + rendered(b));
    }
}

/// What is rendered of a single tag.
pub proof fn rendered_one(tag: Seq<char>)
    ensures
        rendered(seq![tag]) == bracketed(tag),
{
    assert(seq![tag].drop_last() =~= Seq::<Seq<char>>::empty());
    assert(rendered(seq![tag].drop_last()) =~= Seq::<char>::empty());
    assert(Seq::<char>::empty() + bracketed(tag) =~= bracketed(tag));
}

// ---------------------------------------------------------------------------
// The writer
// ---------------------------------------------------------------------------

pub open spec fn written_pairs(a: Seq<(&'static str, String)>) -> Seq<(Seq<char>, Seq<char>)> {
    Seq::new(a.len(), |i: int| (a[i].0@, a[i].1@))
}

/// Appends one attribute to a list.
fn put_attr(a: &mut Vec<(&'static str, String)>, name: &'static str, value: String)
    ensures
        written_pairs(final(a)@) == written_pairs(old(a)@).push((name@, value@)),
{
    let ghost before = a@;
    a.push((name, value));
    assert(written_pairs(a@) =~= written_pairs(before).push((name@, value@)));
}

fn put_rotate<S: Scalar>(a: &mut Vec<(&'static str, String)>, n: &Node<S>)
    ensures
        written_pairs(final(a)@) == written_pairs(old(a)@) + rotate_attrs(n@),
{
    let ghost before = written_pairs(a@);
    if !n.rotation.magnitude().at_most(tiny()) {
        let c = center((n.x, n.y, n.w, n.h));
        let mut v = "rotate(".to_owned();
        v.append(n.rotation.text().as_str());
        v.append(" ");
        v.append(c.x.text().as_str());
        v.append(" ");
        v.append(c.y.text().as_str());
        v.append(")");
        put_attr(a, "transform", v);
    }
    assert(written_pairs(a@) =~= before + rotate_attrs(n@));
}

fn put_stroke<S: Scalar>(a: &mut Vec<(&'static str, String)>, n: &Node<S>)
    ensures
        written_pairs(final(a)@) == written_pairs(old(a)@) + stroke_attrs(n@),
{
    let ghost before = written_pairs(a@);
    put_attr(a, "stroke", n.stroke.clone());
    put_attr(a, "stroke-width", n.stroke_width.text());
    put_attr(a, "stroke-opacity", n.stroke_opacity.text());
    assert(written_pairs(a@) =~= before + stroke_attrs(n@));
}

fn put_paint<S: Scalar>(a: &mut Vec<(&'static str, String)>, n: &Node<S>)
    ensures
        written_pairs(final(a)@) == written_pairs(old(a)@) + paint_attrs(n@),
{
    let ghost before = written_pairs(a@);
    put_attr(a, "fill", n.fill.clone());
    put_attr(a, "fill-opacity", n.fill_opacity.text());
    put_stroke(a, n);
    assert(written_pairs(a@) =~= before + paint_attrs(n@));
}

fn put_frame<S: Scalar>(a: &mut Vec<(&'static str, String)>, n: &Node<S>)
    ensures
        written_pairs(final(a)@) == written_pairs(old(a)@) + frame_attrs(n@),
{
    let ghost before = written_pairs(a@);
    put_attr(a, "x", n.x.text());
    put_attr(a, "y", n.y.text());
    put_attr(a, "width", n.w.text());
    put_attr(a, "height", n.h.text());
    assert(written_pairs(a@) =~= before + frame_attrs(n@));
}

/// The attributes of a shape's tag.
fn attrs_of<S: Scalar>(n: &Node<S>) -> (a: Vec<(&'static str, String)>)
    ensures
        written_pairs(a@) == shape_attrs(n@),
{
    let mut a: Vec<(&'static str, String)> = Vec::new();
    assert(written_pairs(a@) =~= Seq::empty());
    match n.kind {
        NodeKind::Rect => {
            put_frame(&mut a, n);
            let ghost before = written_pairs(a@);
            if S::of_int(0).below(n.corner_radius) {
                put_attr(&mut a, "rx", n.corner_radius.text());
                put_attr(&mut a, "ry", n.corner_radius.text());
            }
            assert(written_pairs(a@) =~= before + radius_attrs(n@));
            put_paint(&mut a, n);
            put_rotate(&mut a, n);
        },
        NodeKind::Line => {
            put_attr(&mut a, "x1", n.x.text());
            put_attr(&mut a, "y1", n.y.text());
            put_attr(&mut a, "x2", n.x.plus(n.w).text());
            put_attr(&mut a, "y2", n.y.plus(n.h).text());
            put_stroke(&mut a, n);
        },
        NodeKind::Oval => {
            let c = center((n.x, n.y, n.w, n.h));
            put_attr(&mut a, "cx", c.x.text());
            put_attr(&mut a, "cy", c.y.text());
            put_attr(&mut a, "rx", half(n.w).text());
            put_attr(&mut a, "ry", half(n.h).text());
            put_paint(&mut a, n);
            put_rotate(&mut a, n);
        },
        NodeKind::Image => {
            put_frame(&mut a, n);
            let ghost before = written_pairs(a@);
            let mut address = "data:".to_owned();
            address.append(type_of_picture(n.image_bytes.as_slice()).as_str());
            address.append(";base64,");
            let data = base64::encode(n.image_bytes.as_slice());
            address.append(string_of(data.as_slice()).as_str());
            put_attr(&mut a, "href", address);
            put_attr(&mut a, "opacity", n.fill_opacity.text());
            assert(written_pairs(a@) =~= before + seq![
                ("href"@, picture_address(n@.image_bytes)),
                ("opacity"@, n@.fill_opacity.text_spec()),
            ]);
            put_rotate(&mut a, n);
        },
        NodeKind::Group => {},
    }
    assert(written_pairs(a@) =~= shape_attrs(n@));
    a
}

/// Appends attributes, one after the other.
fn put_attrs(out: &mut String, a: &Vec<(&'static str, String)>)
    ensures
        final(out)@ == old(out)@ + attrs_text(written_pairs(a@)),
{
    let ghost pairs = written_pairs(a@);
    let ghost head = out@;
    let mut i: usize = 0;
    assert(pairs.subrange(0, 0) =~= Seq::empty());
    assert(head + attrs_text(pairs.subrange(0, 0)) =~= head);
    while i < a.len()
        invariant
            i <= a.len(),
            pairs == written_pairs(a@),
            out@ == head + attrs_text(pairs.subrange(0, i as int)),
        decreases a.len() - i,
    {
        let ghost before = out@;
        assert(pairs.subrange(0, i + 1).drop_last() =~= pairs.subrange(0, i as int));
        out.append(" ");
        out.append(a[i].0);
        out.append("=\"");
        out.append(a[i].1.as_str());
        out.append("\"");
        assert(out@ =~= before + attr_text(pairs[i as int]));
        i += 1;
        assert(out@ =~= head + attrs_text(pairs.subrange(0, i as int)));
    }
    assert(pairs.subrange(0, i as int) =~= pairs);
}

/// Appends a shape's tag, in its brackets.
fn put_shape<S: Scalar>(out: &mut String, n: &Node<S>)
    requires
        n@.kind != NodeKind::Group,
    ensures
        final(out)@ == old(out)@ + bracketed(element(tag_name(n@.kind), shape_attrs(n@))),
{
    let ghost start = out@;
    let name = match n.kind {
        NodeKind::Rect => "rect",
        NodeKind::Oval => "ellipse",
        NodeKind::Line => "line",
        NodeKind::Image => "image",
        NodeKind::Group => "g",
    };
    out.append("<");
    out.append(name);
    let a = attrs_of(n);
    put_attrs(out, &a);
    out.append("/");
    out.append(">");
    assert(out@ =~= start + bracketed(element(tag_name(n@.kind), shape_attrs(n@))));
}

impl<S: Scalar> Scene<S> {
    /// Appends the tags of a node, descending `below` levels below it at most.
    fn write_node(&self, out: &mut String, id: u64, below: usize)
        requires
            self.wf(),
        ensures
            final(out)@ == old(out)@ + rendered(node_tags(self@.rows, id, below as nat + 1)),
        decreases below, 0nat,
    {
        let ghost start = out@;
        if let NodeKind::Group = self.kind(id) {
            let members = self.children_of(Some(id));
            out.append("<g>");
            proof {
                reveal_strlit("<g>");
                reveal_strlit("<");
                reveal_strlit("g");
                reveal_strlit(">");
                reveal_strlit("</g>");
                reveal_strlit("/g");
                assert("<g>"@ =~= bracketed("g"@));
                assert("</g>"@ =~= bracketed("/g"@));
            }
            let ghost head = out@;
            let mut i: usize = 0;
            assert(members@.subrange(0, 0) =~= Seq::<u64>::empty());
            assert(head + rendered(
                node_tags_each(self@.rows, members@.subrange(0, 0), below as nat),
            ) =~= head);
            while below > 0 && i < members.len()
                invariant
                    self.wf(),
                    i <= members.len(),
                    below == 0 ==> i == 0,
                    out@ == head + rendered(
                        node_tags_each(
                            self@.rows,
                            members@.subrange(0, i as int),
                            below as nat,
                        ),
                    ),
                decreases members.len() - i,
            {
                assert(members@.subrange(0, i + 1).drop_last() =~= members@.subrange(0, i as int));
                self.write_node(out, members[i], below - 1);
                proof {
                    rendered_joins(
                        node_tags_each(self@.rows, members@.subrange(0, i as int), below as nat),
                        node_tags(self@.rows, members@[i as int], below as nat),
                    );
                }
                i += 1;
                assert(out@ =~= head + rendered(
                    node_tags_each(self@.rows, members@.subrange(0, i as int), below as nat),
                ));
            }
            proof {
                if below == 0 {
                    no_tags_without_steps(self@.rows, members@);
                } else {
                    assert(members@.subrange(0, i as int) =~= members@);
                }
            }
            out.append("</g>");
            proof {
                let inner = node_tags_each(self@.rows, members@, below as nat);
                rendered_one("g"@);
                rendered_one("/g"@);
                rendered_joins(seq!["g"@], inner);
                rendered_joins(seq!["g"@] + inner, seq!["/g"@]);
                assert(out@ =~= start + rendered(seq!["g"@] + inner + seq!["/g"@]));
            }
        } else {
            match self.find(id) {
                Some(i) => {
                    put_shape(out, &self.nodes[i]);
                },
                None => {
                    let absent: Node<S> = Node::absent();
                    put_shape(out, &absent);
                },
            }
            proof {
                let n = peek(self@.rows, id);
                rendered_one(element(tag_name(n.kind), shape_attrs(n)));
            }
        }
    }

    /// Appends the topmost selected nodes under `id`, descending `below` levels below it at most.
    fn pick(&self, selection: &[u64], id: u64, below: usize, out: &mut Vec<u64>)
        requires
            self.wf(),
        ensures
            final(out)@ == old(out)@ + picked(self@.rows, selection@, id, below as nat + 1),
        decreases below, 0nat,
    {
        let ghost before = out@;
        if position(selection, id).is_some() {
            out.push(id);
            assert(out@ =~= before + seq![id]);
        } else if self.kind(id) == NodeKind::Group {
            let members = self.children_of(Some(id));
            if below == 0 {
                proof {
                    nothing_picked_without_steps(self@.rows, selection@, members@);
                }
                assert(out@ =~= before + Seq::<u64>::empty());
            } else {
                self.pick_each(selection, members.as_slice(), below - 1, out);
            }
        } else {
            assert(out@ =~= before + Seq::<u64>::empty());
        }
    }

    fn pick_each(&self, selection: &[u64], ids: &[u64], below: usize, out: &mut Vec<u64>)
        requires
            self.wf(),
        ensures
            final(out)@ == old(out)@ + picked_each(self@.rows, selection@, ids@, below as nat + 1),
        decreases below, 1nat,
    {
        let ghost before = out@;
        let mut i: usize = 0;
        assert(ids@.subrange(0, 0) =~= Seq::<u64>::empty());
        assert(before + Seq::<u64>::empty() =~= before);
        while i < ids.len()
            invariant
                self.wf(),
                i <= ids.len(),
                out@ == before + picked_each(
                    self@.rows,
                    selection@,
                    ids@.subrange(0, i as int),
                    below as nat + 1,
                ),
            decreases ids.len() - i,
        {
            assert(ids@.subrange(0, i + 1).drop_last() =~= ids@.subrange(0, i as int));
            self.pick(selection, ids[i], below, out);
            i += 1;
            assert(out@ =~= before + picked_each(
                self@.rows,
                selection@,
                ids@.subrange(0, i as int),
                below as nat + 1,
            ));
        }
        assert(ids@.subrange(0, i as int) =~= ids@);
    }

    /// The topmost selected nodes, at whatever depth, bottom to top.
    pub fn topmost_selected(&self, selection: &[u64]) -> (r: Vec<u64>)
        requires
            self.wf(),
        ensures
            r@ == topmost_selected(self@.rows, selection@),
    {
        let roots = self.children_of(None);
        let mut out: Vec<u64> = Vec::new();
        self.pick_each(selection, roots.as_slice(), self.nodes.len(), &mut out);
        assert(out@ =~= topmost_selected(self@.rows, selection@));
        out
    }

    /// The selection as a standalone SVG document: shapes bottom to top, groups as `g`.
    pub fn to_svg(&self, selection: &[u64]) -> (r: Option<String>)
        requires
            self.wf(),
        ensures
            match r {
                Some(text) => selection_svg(self@.rows, selection@) == Some(text@),
                None => selection_svg(self@.rows, selection@) is None,
            },
    {
        match self.joint_bounds(selection) {
            Some(b) => {
                let ids = self.topmost_selected(selection);
                Some(self.document_of(ids.as_slice(), b))
            },
            None => None,
        }
    }

    /// The document that holds some nodes, and shows `b`.
    fn document_of(&self, ids: &[u64], b: (S, S, S, S)) -> (r: String)
        requires
            self.wf(),
        ensures
            r@ == rendered(document_tags(self@.rows, ids@, b)),
    {
        let (x, y, w, h) = b;
        let mut view = x.text();
        view.append(" ");
        view.append(y.text().as_str());
        view.append(" ");
        view.append(w.text().as_str());
        view.append(" ");
        view.append(h.text().as_str());
        let mut a: Vec<(&'static str, String)> = Vec::new();
        assert(written_pairs(a@) =~= Seq::empty());
        put_attr(&mut a, "xmlns", "http://www.w3.org/2000/svg".to_owned());
        put_attr(&mut a, "viewBox", view);
        assert(written_pairs(a@) =~= document_attrs((x, y, w, h)));
        let mut out = "<".to_owned();
        out.append("svg");
        put_attrs(&mut out, &a);
        out.append(">");
        let ghost opening = document_tag((x, y, w, h));
        assert(out@ =~= bracketed(opening));
        let mut i: usize = 0;
        let ghost steps = reach(self@.rows);
        assert(ids@.subrange(0, 0) =~= Seq::<u64>::empty());
        assert(bracketed(opening) + rendered(node_tags_each(self@.rows, ids@.subrange(0, 0), steps))
            =~= bracketed(opening));
        while i < ids.len()
            invariant
                self.wf(),
                i <= ids.len(),
                steps == self.nodes.len() + 1,
                out@ == bracketed(opening) + rendered(
                    node_tags_each(self@.rows, ids@.subrange(0, i as int), steps),
                ),
            decreases ids.len() - i,
        {
            assert(ids@.subrange(0, i + 1).drop_last() =~= ids@.subrange(0, i as int));
            self.write_node(&mut out, ids[i], self.nodes.len());
            proof {
                rendered_joins(
                    node_tags_each(self@.rows, ids@.subrange(0, i as int), steps),
                    node_tags(self@.rows, ids@[i as int], steps),
                );
            }
            i += 1;
            assert(out@ =~= bracketed(opening) + rendered(
                node_tags_each(self@.rows, ids@.subrange(0, i as int), steps),
            ));
        }
        assert(ids@.subrange(0, i as int) =~= ids@);
        out.append("</svg>");
        proof {
            reveal_strlit("</svg>");
            reveal_strlit("/svg");
            reveal_strlit("<");
            reveal_strlit(">");
            assert("</svg>"@ =~= bracketed("/svg"@));
            let inner = node_tags_each(self@.rows, ids@, steps);
            rendered_one(opening);
            rendered_one("/svg"@);
            rendered_joins(seq![opening], inner);
            rendered_joins(seq![opening] + inner, seq!["/svg"@]);
        }
        out
    }
}

proof fn nothing_picked_without_steps<S: Scalar>(
    rows: Seq<NodeModel<S>>,
    selection: Seq<u64>,
    ids: Seq<u64>,
)
    ensures
        picked_each(rows, selection, ids, 0) == Seq::<u64>::empty(),
    decreases ids.len(),
{
    if ids.len() > 0 {
        nothing_picked_without_steps(rows, selection, ids.drop_last());
        assert(picked(rows, selection, ids.last(), 0) == Seq::<u64>::empty());
        assert(picked_each(rows, selection, ids, 0) =~= Seq::<u64>::empty());
    }
}

proof fn no_tags_without_steps<S: Scalar>(rows: Seq<NodeModel<S>>, ids: Seq<u64>)
    ensures
        node_tags_each(rows, ids, 0) == Seq::<Seq<char>>::empty(),
    decreases ids.len(),
{
    if ids.len() > 0 {
        no_tags_without_steps(rows, ids.drop_last());
        assert(node_tags(rows, ids.last(), 0) == Seq::<Seq<char>>::empty());
        assert(node_tags_each(rows, ids, 0) =~= Seq::<Seq<char>>::empty());
    }
}

impl<S: Scalar> Editor<S> {
    /// The selection as an SVG document; `None` when nothing with bounds is selected.
    pub fn selection_to_svg(&self) -> (r: Option<String>)
        requires
            self.wf(),
        ensures
            match r {
                Some(text) => selection_svg(self@.rows, self@.selection) == Some(text@),
                None => selection_svg(self@.rows, self@.selection) is None,
            },
    {
        self.scene.to_svg(self.selection.as_slice())
    }
}

} // verus!
