//! One row of a drawing: a shape, an image, or a group.
use vstd::prelude::*;
use crate::scalar::{ratio, Scalar};

verus! {

/// What a node is. Every `match` on this is exhaustive, so a new kind has to say how it is
/// drawn, hit, written out and inspected.
#[derive(Clone, Copy, Debug, PartialEq, Eq, Structural)]
pub enum NodeKind {
    Rect,
    Oval,
    /// A segment from the frame's origin to its far point: `(x, y)` is the start and
    /// `(x + w, y + h)` the end, so `w` and `h` are signed.
    Line,
    Group,
    /// An embedded picture, drawn into the frame.
    Image,
}

/// A stored kind that names none of the kinds.
#[derive(Debug, PartialEq)]
pub struct NotAKind {
    pub found: String,
}

impl NodeKind {
    /// The text a file stores for the kind.
    pub open spec fn name(self) -> Seq<char> {
        match self {
            NodeKind::Rect => "rect"@,
            NodeKind::Oval => "oval"@,
            NodeKind::Line => "line"@,
            NodeKind::Group => "group"@,
            NodeKind::Image => "image"@,
        }
    }

    pub fn to_text(self) -> (r: &'static str)
        ensures
            r@ == self.name(),
    {
        match self {
            NodeKind::Rect => "rect",
            NodeKind::Oval => "oval",
            NodeKind::Line => "line",
            NodeKind::Group => "group",
            NodeKind::Image => "image",
        }
    }

    /// The kind a stored text names; any other text is refused and handed back.
    pub fn from_text(text: &str) -> (r: Result<NodeKind, NotAKind>)
        ensures
            r matches Ok(k) ==> k.name() == text@,
            r matches Err(e) ==> e.found@ == text@ && forall|k: NodeKind| #[trigger]
                k.name() != text@,
    {
        let t = text.to_owned();
        if t == "rect".to_owned() {
            Ok(NodeKind::Rect)
        } else if t == "oval".to_owned() {
            Ok(NodeKind::Oval)
        } else if t == "line".to_owned() {
            Ok(NodeKind::Line)
        } else if t == "group".to_owned() {
            Ok(NodeKind::Group)
        } else if t == "image".to_owned() {
            Ok(NodeKind::Image)
        } else {
            assert forall|k: NodeKind| #[trigger] k.name() != text@ by {
                match k {
                    NodeKind::Rect => {},
                    NodeKind::Oval => {},
                    NodeKind::Line => {},
                    NodeKind::Group => {},
                    NodeKind::Image => {},
                }
            }
            Err(NotAKind { found: t })
        }
    }
}

/// A stored kind reads back: the texts of different kinds differ.
pub proof fn kind_names_differ(a: NodeKind, b: NodeKind)
    requires
        a.name() == b.name(),
    ensures
        a == b,
{
    reveal_strlit("rect");
    reveal_strlit("oval");
    reveal_strlit("line");
    reveal_strlit("group");
    reveal_strlit("image");
    assert("rect"@[0] == 'r' && "oval"@[0] == 'o' && "line"@[0] == 'l' && "group"@[0] == 'g'
        && "image"@[0] == 'i');
}

/// A node of the drawing.
pub struct Node<S> {
    pub id: u64,
    /// The group this node is a member of; a top-level node has none.
    pub parent: Option<u64>,
    /// Sibling order, bottom to top. Fractional, so that moving a layer writes one row.
    pub z: S,
    pub kind: NodeKind,
    pub x: S,
    pub y: S,
    pub w: S,
    pub h: S,
    /// `#RRGGBB`.
    pub fill: String,
    /// Between nought and one.
    pub fill_opacity: S,
    /// `#RRGGBB`.
    pub stroke: String,
    /// In points; nought draws no outline.
    pub stroke_width: S,
    /// Between nought and one.
    pub stroke_opacity: S,
    /// Degrees clockwise about the shape's own centre.
    pub rotation: S,
    /// Corner rounding in points, for rectangles.
    pub corner_radius: S,
    /// The encoded picture of an image, as the file it came from held it.
    pub image_bytes: Vec<u8>,
}

/// What a [`Node`] holds, as values.
pub ghost struct NodeModel<S> {
    pub id: u64,
    pub parent: Option<u64>,
    pub z: S,
    pub kind: NodeKind,
    pub x: S,
    pub y: S,
    pub w: S,
    pub h: S,
    pub fill: Seq<char>,
    pub fill_opacity: S,
    pub stroke: Seq<char>,
    pub stroke_width: S,
    pub stroke_opacity: S,
    pub rotation: S,
    pub corner_radius: S,
    pub image_bytes: Seq<u8>,
}

impl<S> View for Node<S> {
    type V = NodeModel<S>;

    open spec fn view(&self) -> NodeModel<S> {
        NodeModel {
            id: self.id,
            parent: self.parent,
            z: self.z,
            kind: self.kind,
            x: self.x,
            y: self.y,
            w: self.w,
            h: self.h,
            fill: self.fill@,
            fill_opacity: self.fill_opacity,
            stroke: self.stroke@,
            stroke_width: self.stroke_width,
            stroke_opacity: self.stroke_opacity,
            rotation: self.rotation,
            corner_radius: self.corner_radius,
            image_bytes: self.image_bytes@,
        }
    }
}

/// The node that a missing row reads as: every column at its type's empty value.
pub open spec fn blank_node<S: Scalar>() -> NodeModel<S> {
    NodeModel {
        id: 0,
        parent: None,
        z: S::of_int(0),
        kind: NodeKind::Rect,
        x: S::of_int(0),
        y: S::of_int(0),
        w: S::of_int(0),
        h: S::of_int(0),
        fill: Seq::empty(),
        fill_opacity: S::of_int(0),
        stroke: Seq::empty(),
        stroke_width: S::of_int(0),
        stroke_opacity: S::of_int(0),
        rotation: S::of_int(0),
        corner_radius: S::of_int(0),
        image_bytes: Seq::empty(),
    }
}

/// A fresh node. Its style is also what a file from before the style columns reads as: a
/// solid fill under a hairline outline, black at 35% and one point wide.
pub open spec fn default_node<S: Scalar>() -> NodeModel<S> {
    NodeModel {
        fill_opacity: S::of_int(1),
        stroke: "#000000"@,
        stroke_width: S::of_int(1),
        stroke_opacity: ratio(35, 100),
        ..blank_node()
    }
}

impl<S: Scalar> Node<S> {
    /// A fresh node with the default style.
    pub fn fresh() -> (r: Node<S>)
        ensures
            r@ == default_node::<S>(),
    {
        Node {
            id: 0,
            parent: None,
            z: S::of_int(0),
            kind: NodeKind::Rect,
            x: S::of_int(0),
            y: S::of_int(0),
            w: S::of_int(0),
            h: S::of_int(0),
            fill: String::new(),
            fill_opacity: S::of_int(1),
            stroke: "#000000".to_owned(),
            stroke_width: S::of_int(1),
            stroke_opacity: ratio(35, 100),
            rotation: S::of_int(0),
            corner_radius: S::of_int(0),
            image_bytes: Vec::new(),
        }
    }

    /// What a missing row reads as.
    pub fn absent() -> (r: Node<S>)
        ensures
            r@ == blank_node::<S>(),
    {
        Node {
            fill_opacity: S::of_int(0),
            stroke: String::new(),
            stroke_width: S::of_int(0),
            stroke_opacity: S::of_int(0),
            ..Node::fresh()
        }
    }

    /// A node of the same value.
    pub fn replica(&self) -> (r: Node<S>)
        ensures
            r@ == self@,
    {
        let r = Node {
            id: self.id,
            parent: self.parent,
            z: self.z,
            kind: self.kind,
            x: self.x,
            y: self.y,
            w: self.w,
            h: self.h,
            fill: self.fill.clone(),
            fill_opacity: self.fill_opacity,
            stroke: self.stroke.clone(),
            stroke_width: self.stroke_width,
            stroke_opacity: self.stroke_opacity,
            rotation: self.rotation,
            corner_radius: self.corner_radius,
            image_bytes: self.image_bytes.clone(),
        };
        assert(r.image_bytes@ =~= self.image_bytes@);
        r
    }
}

} // verus!
