//! The operations on a drawing. Each is one turn of the editor, and so one step of undo.
use vstd::prelude::*;
use crate::node::{default_node, Node, NodeKind, NodeModel};
use crate::scalar::Scalar;
use crate::scene::{
    children, distinct, has_row, highest_id, lineage, peek, slot, written, Field, FieldModel, Scene,
};

verus! {

/// The drawing together with what an editor of it remembers between turns.
pub struct Editor<S> {
    pub scene: Scene<S>,
    /// The selected nodes, in the order they were selected. No step of undo, and no row.
    pub selection: Vec<u64>,
    /// The groups that the layer tree shows open.
    pub open_groups: Vec<u64>,
    /// The text last pasted, and how far from its place it landed.
    pub last_paste: Option<(String, S)>,
}

/// What an [`Editor`] holds, as values.
pub ghost struct EditorModel<S> {
    pub rows: Seq<NodeModel<S>>,
    pub background: Seq<char>,
    pub selection: Seq<u64>,
    pub open_groups: Set<u64>,
    pub last_paste: Option<(Seq<char>, S)>,
}

impl<S> View for Editor<S> {
    type V = EditorModel<S>;

    open spec fn view(&self) -> EditorModel<S> {
        EditorModel {
            rows: self.scene@.rows,
            background: self.scene@.background,
            selection: self.selection@,
            open_groups: self.open_groups@.to_set(),
            last_paste: match self.last_paste {
                Some((text, step)) => Some((text@, step)),
                None => None,
            },
        }
    }
}

/// A count, as a number of the drawing.
pub open spec fn count_spec<S: Scalar>(n: int) -> S {
    S::of_int(n as i64)
}

#[verifier::truncate]
pub fn count<S: Scalar>(n: usize) -> (r: S)
    ensures
        r == count_spec::<S>(n as int),
{
    S::of_int(n as i64)
}

// ---------------------------------------------------------------------------
// Rows in and out
// ---------------------------------------------------------------------------

/// No row has an id past the highest.
pub proof fn highest_id_bounds<S>(rows: Seq<NodeModel<S>>, i: int)
    requires
        0 <= i < rows.len(),
    ensures
        rows[i].id <= highest_id(rows),
    decreases rows.len(),
{
    if i < rows.len() - 1 {
        highest_id_bounds(rows.drop_last(), i);
    }
}

/// The rows left once `id` is deleted: a group takes its whole subtree with it. Deleting a
/// missing row changes nothing.
pub open spec fn removed<S: Scalar>(rows: Seq<NodeModel<S>>, id: u64) -> Seq<NodeModel<S>> {
    if has_row(rows, id) {
        rows.filter(|n: NodeModel<S>| !lineage(rows, n.id).contains(id))
    } else {
        rows
    }
}

/// The rows left once each of `ids` is deleted, in turn.
pub open spec fn removed_each<S: Scalar>(rows: Seq<NodeModel<S>>, ids: Seq<u64>) -> Seq<
    NodeModel<S>,
>
    decreases ids.len(),
{
    if ids.len() == 0 {
        rows
    } else {
        removed(removed_each(rows, ids.drop_last()), ids.last())
    }
}

/// Filtering one element more.
pub proof fn filter_step<A>(s: Seq<A>, keep: spec_fn(A) -> bool, k: int)
    requires
        0 <= k < s.len(),
    ensures
        s.subrange(0, k + 1).filter(keep) == if keep(s[k]) {
            s.subrange(0, k).filter(keep).push(s[k])
        } else {
            s.subrange(0, k).filter(keep)
        },
{
    reveal(Seq::filter);
    assert(s.subrange(0, k + 1).drop_last() =~= s.subrange(0, k));
}

/// What filtering keeps is still distinct.
pub proof fn filtered_is_distinct<S>(
    rows: Seq<NodeModel<S>>,
    keep: spec_fn(NodeModel<S>) -> bool,
)
    requires
        distinct(rows),
    ensures
        distinct(rows.filter(keep)),
        forall|i: int|
            0 <= i < rows.filter(keep).len() ==> has_row(rows, (#[trigger] rows.filter(keep)[i]).id),
    decreases rows.len(),
{
    reveal(Seq::filter);
    if rows.len() > 0 {
        let front = rows.drop_last();
        filtered_is_distinct(front, keep);
        let kept = front.filter(keep);
        assert forall|i: int| 0 <= i < kept.len() implies has_row(rows, (#[trigger] kept[i]).id)
            && kept[i].id != rows.last().id by {
            let s = slot(front, kept[i].id);
            assert(front[s] == rows[s]);
        }
        assert(rows[rows.len() - 1] == rows.last());
    }
}

impl<S: Scalar> Scene<S> {
    /// Appends a row under a new id.
    pub fn insert(&mut self, node: Node<S>)
        requires
            old(self).wf(),
            !has_row(old(self)@.rows, node.id),
        ensures
            final(self)@.rows == old(self)@.rows.push(node@),
            final(self)@.background == old(self)@.background,
            final(self).wf(),
    {
        let ghost before = self@.rows;
        self.nodes.push(node);
        assert(self@.rows =~= before.push(node@));
        assert forall|i: int, j: int|
            #![trigger self@.rows[i], self@.rows[j]]
            0 <= i < j < self@.rows.len() implies self@.rows[i].id != self@.rows[j].id by {
            assert(before[i] == self@.rows[i]);
            if j < before.len() {
                assert(before[j] == self@.rows[j]);
            }
        }
    }

    /// Deletes a row, and its subtree.
    pub fn remove(&mut self, id: u64)
        requires
            old(self).wf(),
        ensures
            final(self)@.rows == removed(old(self)@.rows, id),
            final(self)@.background == old(self)@.background,
            final(self).wf(),
    {
        let ghost rows = self@.rows;
        if self.find(id).is_none() {
            return ;
        }
        let mut doomed: Vec<bool> = Vec::new();
        let mut i: usize = 0;
        while i < self.nodes.len()
            invariant
                self.wf(),
                self@.rows == rows,
                rows.len() == self.nodes.len(),
                i <= self.nodes.len(),
                doomed.len() == i,
                forall|j: int|
                    0 <= j < i ==> doomed@[j] == lineage(rows, (#[trigger] rows[j]).id).contains(
                        id,
                    ),
            decreases self.nodes.len() - i,
        {
            let inside = self.is_within(self.nodes[i].id, id);
            doomed.push(inside);
            i += 1;
        }
        let ghost keep = |n: NodeModel<S>| !lineage(rows, n.id).contains(id);
        let ghost background = self@.background;
        let mut at: usize = 0;
        let mut k: usize = 0;
        proof {
            reveal(Seq::filter);
            assert(rows.subrange(0, 0) =~= Seq::<NodeModel<S>>::empty());
            assert(self@.rows =~= rows.subrange(0, 0).filter(keep) + rows.subrange(
                0,
                rows.len() as int,
            ));
        }
        while k < doomed.len()
            invariant
                at <= k <= doomed.len(),
                doomed.len() == rows.len(),
                keep == (|n: NodeModel<S>| !lineage(rows, n.id).contains(id)),
                forall|j: int|
                    0 <= j < rows.len() ==> doomed@[j] == lineage(
                        rows,
                        (#[trigger] rows[j]).id,
                    ).contains(id),
                at == rows.subrange(0, k as int).filter(keep).len(),
                self@.rows == rows.subrange(0, k as int).filter(keep) + rows.subrange(
                    k as int,
                    rows.len() as int,
                ),
                self@.background == background,
            decreases doomed.len() - k,
        {
            let ghost before = self@.rows;
            proof {
                filter_step(rows, keep, k as int);
            }
            assert(self.nodes@.len() == self@.rows.len());
            if doomed[k] {
                self.nodes.remove(at);
                assert(self@.rows =~= before.remove(at as int));
                assert(self@.rows =~= rows.subrange(0, k + 1).filter(keep) + rows.subrange(
                    k + 1,
                    rows.len() as int,
                ));
            } else {
                at += 1;
                assert(self@.rows =~= rows.subrange(0, k + 1).filter(keep) + rows.subrange(
                    k + 1,
                    rows.len() as int,
                ));
            }
            k += 1;
        }
        assert(rows.subrange(0, k as int) =~= rows);
        assert(self@.rows =~= rows.filter(keep));
        proof {
            filtered_is_distinct(rows, keep);
        }
    }

    /// Deletes each of `ids`, in turn.
    pub fn remove_each(&mut self, ids: &[u64])
        requires
            old(self).wf(),
        ensures
            final(self)@.rows == removed_each(old(self)@.rows, ids@),
            final(self)@.background == old(self)@.background,
            final(self).wf(),
    {
        let ghost rows = self@.rows;
        let ghost background = self@.background;
        let mut i: usize = 0;
        assert(ids@.subrange(0, 0) =~= Seq::<u64>::empty());
        while i < ids.len()
            invariant
                self.wf(),
                i <= ids.len(),
                self@.rows == removed_each(rows, ids@.subrange(0, i as int)),
                self@.background == background,
            decreases ids.len() - i,
        {
            assert(ids@.subrange(0, i + 1).drop_last() =~= ids@.subrange(0, i as int));
            self.remove(ids[i]);
            i += 1;
        }
        assert(ids@.subrange(0, i as int) =~= ids@);
    }
}

// ---------------------------------------------------------------------------
// Placing
// ---------------------------------------------------------------------------

/// The fill of a new node, by its id.
pub open spec fn palette_spec(id: u64) -> Seq<char> {
    match id % 6 {
        0 => "#3B82F6"@,
        1 => "#EF4444"@,
        2 => "#10B981"@,
        3 => "#F59E0B"@,
        4 => "#8B5CF6"@,
        _ => "#EC4899"@,
    }
}

pub fn palette(id: u64) -> (r: String)
    ensures
        r@ == palette_spec(id),
{
    let r = match id % 6 {
        0 => "#3B82F6",
        1 => "#EF4444",
        2 => "#10B981",
        3 => "#F59E0B",
        4 => "#8B5CF6",
        _ => "#EC4899",
    };
    r.to_owned()
}

/// The `z` of the topmost top-level node.
pub open spec fn top_z<S: Scalar>(rows: Seq<NodeModel<S>>) -> Option<S> {
    let roots = children(rows, None);
    if roots.len() == 0 {
        None
    } else {
        Some(peek(rows, roots.last()).z)
    }
}

/// The `z` of a new top-level node: above everything that is there.
pub open spec fn above_all<S: Scalar>(rows: Seq<NodeModel<S>>) -> S {
    match top_z(rows) {
        Some(z) => z.plus(S::of_int(1)),
        None => S::of_int(1),
    }
}

/// The width and height a shape of this kind starts with. A line is longer than a rectangle
/// is wide, and flat.
pub open spec fn starting_extent_spec<S: Scalar>(kind: NodeKind) -> (S, S) {
    match kind {
        NodeKind::Line => (S::of_int(144), S::of_int(0)),
        NodeKind::Rect | NodeKind::Oval | NodeKind::Group | NodeKind::Image => (
            S::of_int(96),
            S::of_int(64),
        ),
    }
}

#[verifier::when_used_as_spec(starting_extent_spec)]
pub fn starting_extent<S: Scalar>(kind: NodeKind) -> (r: (S, S))
    ensures
        r == starting_extent_spec::<S>(kind),
{
    match kind {
        NodeKind::Line => (S::of_int(144), S::of_int(0)),
        NodeKind::Rect | NodeKind::Oval | NodeKind::Group | NodeKind::Image => (
            S::of_int(96),
            S::of_int(64),
        ),
    }
}

/// A new shape. A line is its stroke, so it starts visible and solid where any other shape
/// starts with the hairline outline.
pub open spec fn new_shape<S: Scalar>(rows: Seq<NodeModel<S>>, kind: NodeKind, x: S, y: S) -> NodeModel<
    S,
> {
    let id = (highest_id(rows) + 1) as u64;
    NodeModel {
        id,
        z: above_all(rows),
        kind,
        x,
        y,
        w: starting_extent::<S>(kind).0,
        h: starting_extent::<S>(kind).1,
        fill: palette_spec(id),
        stroke_width: if kind == NodeKind::Line {
            S::of_int(2)
        } else {
            default_node::<S>().stroke_width
        },
        stroke_opacity: if kind == NodeKind::Line {
            S::of_int(1)
        } else {
            default_node::<S>().stroke_opacity
        },
        ..default_node()
    }
}

/// A new image in the given frame.
pub open spec fn new_image<S: Scalar>(
    rows: Seq<NodeModel<S>>,
    bytes: Seq<u8>,
    frame: (S, S, S, S),
) -> NodeModel<S> {
    NodeModel {
        id: (highest_id(rows) + 1) as u64,
        z: above_all(rows),
        kind: NodeKind::Image,
        x: frame.0,
        y: frame.1,
        w: frame.2,
        h: frame.3,
        image_bytes: bytes,
        ..default_node()
    }
}

/// The undo label of a placement.
pub open spec fn placing_label_spec(kind: NodeKind) -> Seq<char> {
    match kind {
        NodeKind::Rect => "add-rect"@,
        NodeKind::Oval => "add-oval"@,
        NodeKind::Line => "add-line"@,
        NodeKind::Group => "group"@,
        NodeKind::Image => "add-image"@,
    }
}

pub fn placing_label(kind: NodeKind) -> (r: &'static str)
    ensures
        r@ == placing_label_spec(kind),
{
    match kind {
        NodeKind::Rect => "add-rect",
        NodeKind::Oval => "add-oval",
        NodeKind::Line => "add-line",
        NodeKind::Group => "group",
        NodeKind::Image => "add-image",
    }
}

/// An id past the highest is free.
pub proof fn fresh_id_is_free<S>(rows: Seq<NodeModel<S>>, id: u64)
    requires
        id > highest_id(rows),
    ensures
        !has_row(rows, id),
{
    if has_row(rows, id) {
        highest_id_bounds(rows, slot(rows, id));
    }
}

impl<S: Scalar> Scene<S> {
    /// The `z` of the topmost top-level node.
    pub fn top_z(&self) -> (r: Option<S>)
        requires
            self.wf(),
        ensures
            r == top_z(self@.rows),
    {
        let roots = self.children_of(None);
        if roots.len() == 0 {
            None
        } else {
            Some(self.z(roots[roots.len() - 1]))
        }
    }

    /// The `z` of a new top-level node.
    pub fn above_all(&self) -> (r: S)
        requires
            self.wf(),
        ensures
            r == above_all(self@.rows),
    {
        match self.top_z() {
            Some(z) => z.plus(S::of_int(1)),
            None => S::of_int(1),
        }
    }

    /// Places a new shape with its top left at `(x, y)`, above everything; returns its id.
    pub fn place_shape(&mut self, kind: NodeKind, x: S, y: S) -> (id: u64)
        requires
            old(self).wf(),
            highest_id(old(self)@.rows) < u64::MAX,
        ensures
            id == highest_id(old(self)@.rows) + 1,
            final(self)@.rows == old(self)@.rows.push(new_shape(old(self)@.rows, kind, x, y)),
            final(self)@.background == old(self)@.background,
            final(self).wf(),
    {
        let id = self.next_id();
        let z = self.above_all();
        let (w, h) = starting_extent::<S>(kind);
        let mut node = Node::fresh();
        node.id = id;
        node.z = z;
        node.kind = kind;
        node.x = x;
        node.y = y;
        node.w = w;
        node.h = h;
        node.fill = palette(id);
        match kind {
            NodeKind::Line => {
                node.stroke_width = S::of_int(2);
                node.stroke_opacity = S::of_int(1);
            },
            NodeKind::Rect | NodeKind::Oval | NodeKind::Group | NodeKind::Image => {},
        }
        proof {
            fresh_id_is_free(self@.rows, id);
        }
        self.insert(node);
        id
    }

    /// Places an image into `frame`, above everything; returns its id.
    pub fn place_image(&mut self, bytes: Vec<u8>, frame: (S, S, S, S)) -> (id: u64)
        requires
            old(self).wf(),
            highest_id(old(self)@.rows) < u64::MAX,
        ensures
            id == highest_id(old(self)@.rows) + 1,
            final(self)@.rows == old(self)@.rows.push(new_image(old(self)@.rows, bytes@, frame)),
            final(self)@.background == old(self)@.background,
            final(self).wf(),
    {
        let id = self.next_id();
        let z = self.above_all();
        let mut node = Node::fresh();
        node.id = id;
        node.z = z;
        node.kind = NodeKind::Image;
        node.x = frame.0;
        node.y = frame.1;
        node.w = frame.2;
        node.h = frame.3;
        node.image_bytes = bytes;
        proof {
            fresh_id_is_free(self@.rows, id);
        }
        self.insert(node);
        id
    }
}

// ---------------------------------------------------------------------------
// Grouping
// ---------------------------------------------------------------------------

/// The highest `z` among those of `ids` that are there, and no less than nought.
pub open spec fn highest_z<S: Scalar>(rows: Seq<NodeModel<S>>, ids: Seq<u64>) -> S
    decreases ids.len(),
{
    if ids.len() == 0 {
        S::of_int(0)
    } else {
        let rest = highest_z(rows, ids.drop_last());
        if has_row(rows, ids.last()) {
            rest.greater(peek(rows, ids.last()).z)
        } else {
            rest
        }
    }
}

/// The rows after each of `ids` became a member of `group`, stacked in that order.
pub open spec fn adopted<S: Scalar>(rows: Seq<NodeModel<S>>, group: u64, ids: Seq<u64>) -> Seq<
    NodeModel<S>,
>
    decreases ids.len(),
{
    if ids.len() == 0 {
        rows
    } else {
        let rest = adopted(rows, group, ids.drop_last());
        let id = ids.last();
        written(
            written(rest, id, FieldModel::Parent(Some(group))),
            id,
            FieldModel::Z(count_spec::<S>(ids.len() - 1).plus(S::of_int(1))),
        )
    }
}

/// A new, empty group. It carries no frame of its own: its bounds are its members'.
pub open spec fn new_group<S: Scalar>(id: u64, z: S) -> NodeModel<S> {
    NodeModel { id, z, kind: NodeKind::Group, ..default_node() }
}

/// The rows after the selection was grouped.
pub open spec fn grouped<S: Scalar>(rows: Seq<NodeModel<S>>, ids: Seq<u64>) -> Seq<NodeModel<S>> {
    let gid = (highest_id(rows) + 1) as u64;
    adopted(rows.push(new_group(gid, highest_z(rows, ids))), gid, ids)
}

/// The rows after the members of a group went to the top level, just above `base`, in order.
pub open spec fn released<S: Scalar>(rows: Seq<NodeModel<S>>, base: S, ids: Seq<u64>) -> Seq<
    NodeModel<S>,
>
    decreases ids.len(),
{
    if ids.len() == 0 {
        rows
    } else {
        let rest = released(rows, base, ids.drop_last());
        let id = ids.last();
        written(
            written(rest, id, FieldModel::Parent(None)),
            id,
            FieldModel::Z(
                base.plus(count_spec::<S>(ids.len() - 1).plus(S::of_int(1)).over(S::of_int(1024))),
            ),
        )
    }
}

/// One selected node ungrouped: the rows, and what the selection becomes. A group gives way
/// to its members; any other node stays as it is.
pub open spec fn ungrouped_one<S: Scalar>(rows: Seq<NodeModel<S>>, id: u64) -> (
    Seq<NodeModel<S>>,
    Seq<u64>,
) {
    if peek(rows, id).kind == NodeKind::Group {
        let members = children(rows, Some(id));
        (removed(released(rows, peek(rows, id).z, members), id), members)
    } else {
        (rows, seq![id])
    }
}

/// The rows, and the selection, after every selected group was ungrouped.
pub open spec fn ungrouped<S: Scalar>(rows: Seq<NodeModel<S>>, ids: Seq<u64>) -> (
    Seq<NodeModel<S>>,
    Seq<u64>,
)
    decreases ids.len(),
{
    if ids.len() == 0 {
        (rows, Seq::empty())
    } else {
        let (r, after) = ungrouped(rows, ids.drop_last());
        let (r2, more) = ungrouped_one(r, ids.last());
        (r2, after + more)
    }
}

impl<S: Scalar> Scene<S> {
    /// The highest `z` among those of `ids` that are there, and no less than nought.
    pub fn highest_z(&self, ids: &[u64]) -> (r: S)
        requires
            self.wf(),
        ensures
            r == highest_z(self@.rows, ids@),
    {
        let mut z = S::of_int(0);
        let mut i: usize = 0;
        assert(ids@.subrange(0, 0) =~= Seq::<u64>::empty());
        while i < ids.len()
            invariant
                self.wf(),
                i <= ids.len(),
                z == highest_z(self@.rows, ids@.subrange(0, i as int)),
            decreases ids.len() - i,
        {
            assert(ids@.subrange(0, i + 1).drop_last() =~= ids@.subrange(0, i as int));
            if let Some(at) = self.find(ids[i]) {
                z = z.greater(self.nodes[at].z);
            }
            i += 1;
        }
        assert(ids@.subrange(0, i as int) =~= ids@);
        z
    }

    /// Makes each of `ids` a member of `group`, stacked in that order.
    pub fn adopt(&mut self, group: u64, ids: &[u64])
        requires
            old(self).wf(),
        ensures
            final(self)@.rows == adopted(old(self)@.rows, group, ids@),
            final(self)@.background == old(self)@.background,
            final(self).wf(),
    {
        let ghost rows = self@.rows;
        let ghost background = self@.background;
        let mut i: usize = 0;
        assert(ids@.subrange(0, 0) =~= Seq::<u64>::empty());
        while i < ids.len()
            invariant
                self.wf(),
                i <= ids.len(),
                self@.rows == adopted(rows, group, ids@.subrange(0, i as int)),
                self@.background == background,
            decreases ids.len() - i,
        {
            assert(ids@.subrange(0, i + 1).drop_last() =~= ids@.subrange(0, i as int));
            self.write(ids[i], Field::Parent(Some(group)));
            self.write(ids[i], Field::Z(count::<S>(i).plus(S::of_int(1))));
            i += 1;
        }
        assert(ids@.subrange(0, i as int) =~= ids@);
    }

    /// Moves each of `ids` to the top level, just above `base`, in order.
    pub fn release(&mut self, base: S, ids: &[u64])
        requires
            old(self).wf(),
        ensures
            final(self)@.rows == released(old(self)@.rows, base, ids@),
            final(self)@.background == old(self)@.background,
            final(self).wf(),
    {
        let ghost rows = self@.rows;
        let ghost background = self@.background;
        let mut i: usize = 0;
        assert(ids@.subrange(0, 0) =~= Seq::<u64>::empty());
        while i < ids.len()
            invariant
                self.wf(),
                i <= ids.len(),
                self@.rows == released(rows, base, ids@.subrange(0, i as int)),
                self@.background == background,
            decreases ids.len() - i,
        {
            assert(ids@.subrange(0, i + 1).drop_last() =~= ids@.subrange(0, i as int));
            self.write(ids[i], Field::Parent(None));
            self.write(
                ids[i],
                Field::Z(base.plus(count::<S>(i).plus(S::of_int(1)).over(S::of_int(1024)))),
            );
            i += 1;
        }
        assert(ids@.subrange(0, i as int) =~= ids@);
    }
}

impl<S: Scalar> Editor<S> {
    /// Every id stands in one row only.
    pub open spec fn wf(&self) -> bool {
        self.scene.wf()
    }

    /// An editor on an empty drawing, with nothing selected.
    pub fn empty() -> (r: Editor<S>)
        ensures
            r.wf(),
            r@ == (EditorModel::<S> {
                rows: Seq::empty(),
                background: "#FFFFFF"@,
                selection: Seq::empty(),
                open_groups: Set::empty(),
                last_paste: None,
            }),
    {
        let r = Editor {
            scene: Scene::empty(),
            selection: Vec::new(),
            open_groups: Vec::new(),
            last_paste: None,
        };
        assert(r@.open_groups =~= Set::<u64>::empty());
        assert(r@.selection =~= Seq::<u64>::empty());
        r
    }

    /// Selects every top-level node, in order.
    pub fn select_all(&mut self)
        ensures
            final(self)@ == (EditorModel {
                selection: children(old(self)@.rows, None),
                ..old(self)@
            }),
    {
        self.selection = self.scene.children_of(None);
    }

    /// Sets the colour of the paper.
    pub fn set_background(&mut self, hex: &str)
        ensures
            final(self)@ == (EditorModel { background: hex@, ..old(self)@ }),
    {
        self.scene.background = hex.to_owned();
    }

    /// Groups the selection, of two nodes or more, into a new group, which is then selected
    /// and shown open.
    pub fn group_selection(&mut self)
        requires
            old(self).wf(),
            highest_id(old(self)@.rows) < u64::MAX,
        ensures
            final(self).wf(),
            old(self)@.selection.len() < 2 ==> final(self)@ == old(self)@,
            old(self)@.selection.len() >= 2 ==> {
                let gid = (highest_id(old(self)@.rows) + 1) as u64;
                final(self)@ == (EditorModel {
                    rows: grouped(old(self)@.rows, old(self)@.selection),
                    selection: seq![gid],
                    open_groups: old(self)@.open_groups.insert(gid),
                    ..old(self)@
                })
            },
    {
        if self.selection.len() < 2 {
            return ;
        }
        let gid = self.scene.next_id();
        let z = self.scene.highest_z(self.selection.as_slice());
        let mut group = Node::fresh();
        group.id = gid;
        group.z = z;
        group.kind = NodeKind::Group;
        proof {
            fresh_id_is_free(self@.rows, gid);
        }
        self.scene.insert(group);
        self.scene.adopt(gid, self.selection.as_slice());
        let mut selected: Vec<u64> = Vec::new();
        selected.push(gid);
        self.selection = selected;
        assert(self.selection@ =~= seq![gid]);
        let ghost open = self.open_groups@;
        self.open_groups.push(gid);
        proof {
            assert(self.open_groups@ =~= open.push(gid));
            assert(open.push(gid).to_set() =~= open.to_set().insert(gid)) by {
                assert forall|x: u64| open.to_set().insert(gid).contains(x) implies open.push(
                    gid,
                ).to_set().contains(x) by {
                    if x == gid {
                        assert(open.push(gid)[open.len() as int] == gid);
                    } else {
                        let i = choose|i: int| 0 <= i < open.len() && open[i] == x;
                        assert(open.push(gid)[i] == x);
                    }
                }
            }
        }
    }

    /// Ungroups every selected group: its members return to the top level at the group's
    /// place, and the group goes. Anything else selected stays so.
    pub fn ungroup_selection(&mut self)
        requires
            old(self).wf(),
        ensures
            final(self).wf(),
            final(self)@ == (EditorModel {
                rows: ungrouped(old(self)@.rows, old(self)@.selection).0,
                selection: ungrouped(old(self)@.rows, old(self)@.selection).1,
                ..old(self)@
            }),
    {
        let ghost start = self@;
        let mut after: Vec<u64> = Vec::new();
        let mut i: usize = 0;
        assert(start.selection.subrange(0, 0) =~= Seq::<u64>::empty());
        while i < self.selection.len()
            invariant
                self.wf(),
                i <= self.selection.len(),
                self@ == (EditorModel {
                    rows: ungrouped(start.rows, start.selection.subrange(0, i as int)).0,
                    ..start
                }),
                after@ == ungrouped(start.rows, start.selection.subrange(0, i as int)).1,
            decreases self.selection.len() - i,
        {
            let ghost rows = self@.rows;
            let ghost sofar = after@;
            assert(start.selection.subrange(0, i + 1).drop_last() =~= start.selection.subrange(
                0,
                i as int,
            ));
            let id = self.selection[i];
            if self.scene.kind(id) != NodeKind::Group {
                after.push(id);
                assert(after@ =~= sofar + seq![id]);
            } else {
                let base = self.scene.z(id);
                let mut members = self.scene.children_of(Some(id));
                let ghost kept = members@;
                self.scene.release(base, members.as_slice());
                self.scene.remove(id);
                after.append(&mut members);
                assert(after@ =~= sofar + kept);
            }
            i += 1;
        }
        assert(start.selection.subrange(0, i as int) =~= start.selection);
        self.selection = after;
    }

    /// Deletes the selection; a group takes its subtree with it.
    pub fn delete_selection(&mut self)
        requires
            old(self).wf(),
        ensures
            final(self).wf(),
            final(self)@ == (EditorModel {
                rows: removed_each(old(self)@.rows, old(self)@.selection),
                selection: Seq::empty(),
                ..old(self)@
            }),
    {
        self.scene.remove_each(self.selection.as_slice());
        self.selection = Vec::new();
        assert(self.selection@ =~= Seq::<u64>::empty());
    }
}

} // verus!
