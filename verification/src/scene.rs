//! The scene: one table of nodes, and the tree its parent references make.
//!
//! A row that is missing reads as [`blank_node`], so every question has an answer for every
//! id. Walks along the tree are bounded by the number of rows, which a walk without a cycle
//! never reaches.
use vstd::prelude::*;
use crate::node::{blank_node, Node, NodeKind, NodeModel};
use crate::scalar::Scalar;

verus! {

/// A drawing: its nodes, and the colour of its paper.
pub struct Scene<S> {
    pub nodes: Vec<Node<S>>,
    /// `#RRGGBB`.
    pub background: String,
}

/// What a [`Scene`] holds, as values.
pub ghost struct SceneModel<S> {
    pub rows: Seq<NodeModel<S>>,
    pub background: Seq<char>,
}

pub open spec fn rows_of<S>(nodes: Seq<Node<S>>) -> Seq<NodeModel<S>> {
    Seq::new(nodes.len(), |i: int| nodes[i]@)
}

impl<S> View for Scene<S> {
    type V = SceneModel<S>;

    open spec fn view(&self) -> SceneModel<S> {
        SceneModel { rows: rows_of(self.nodes@), background: self.background@ }
    }
}

/// No id occurs twice.
pub open spec fn distinct<S>(rows: Seq<NodeModel<S>>) -> bool {
    forall|i: int, j: int|
        #![trigger rows[i], rows[j]]
        0 <= i < j < rows.len() ==> rows[i].id != rows[j].id
}

pub open spec fn has_row<S>(rows: Seq<NodeModel<S>>, id: u64) -> bool {
    exists|i: int| 0 <= i < rows.len() && (#[trigger] rows[i]).id == id
}

/// Where the row with this id stands.
pub open spec fn slot<S>(rows: Seq<NodeModel<S>>, id: u64) -> int {
    choose|i: int| 0 <= i < rows.len() && (#[trigger] rows[i]).id == id
}

/// The row with this id, or the blank node where there is none.
pub open spec fn peek<S: Scalar>(rows: Seq<NodeModel<S>>, id: u64) -> NodeModel<S> {
    if has_row(rows, id) {
        rows[slot(rows, id)]
    } else {
        blank_node()
    }
}

/// One column of a row, with the value it takes.
pub enum Field<S> {
    Parent(Option<u64>),
    Z(S),
    Kind(NodeKind),
    X(S),
    Y(S),
    W(S),
    H(S),
    Fill(String),
    FillOpacity(S),
    Stroke(String),
    StrokeWidth(S),
    StrokeOpacity(S),
    Rotation(S),
    CornerRadius(S),
    ImageBytes(Vec<u8>),
}

/// What a [`Field`] holds, as values.
pub ghost enum FieldModel<S> {
    Parent(Option<u64>),
    Z(S),
    Kind(NodeKind),
    X(S),
    Y(S),
    W(S),
    H(S),
    Fill(Seq<char>),
    FillOpacity(S),
    Stroke(Seq<char>),
    StrokeWidth(S),
    StrokeOpacity(S),
    Rotation(S),
    CornerRadius(S),
    ImageBytes(Seq<u8>),
}

impl<S> View for Field<S> {
    type V = FieldModel<S>;

    open spec fn view(&self) -> FieldModel<S> {
        match self {
            Field::Parent(v) => FieldModel::Parent(*v),
            Field::Z(v) => FieldModel::Z(*v),
            Field::Kind(v) => FieldModel::Kind(*v),
            Field::X(v) => FieldModel::X(*v),
            Field::Y(v) => FieldModel::Y(*v),
            Field::W(v) => FieldModel::W(*v),
            Field::H(v) => FieldModel::H(*v),
            Field::Fill(v) => FieldModel::Fill(v@),
            Field::FillOpacity(v) => FieldModel::FillOpacity(*v),
            Field::Stroke(v) => FieldModel::Stroke(v@),
            Field::StrokeWidth(v) => FieldModel::StrokeWidth(*v),
            Field::StrokeOpacity(v) => FieldModel::StrokeOpacity(*v),
            Field::Rotation(v) => FieldModel::Rotation(*v),
            Field::CornerRadius(v) => FieldModel::CornerRadius(*v),
            Field::ImageBytes(v) => FieldModel::ImageBytes(v@),
        }
    }
}

/// A row with one column replaced.
pub open spec fn with_field<S>(n: NodeModel<S>, f: FieldModel<S>) -> NodeModel<S> {
    match f {
        FieldModel::Parent(v) => NodeModel { parent: v, ..n },
        FieldModel::Z(v) => NodeModel { z: v, ..n },
        FieldModel::Kind(v) => NodeModel { kind: v, ..n },
        FieldModel::X(v) => NodeModel { x: v, ..n },
        FieldModel::Y(v) => NodeModel { y: v, ..n },
        FieldModel::W(v) => NodeModel { w: v, ..n },
        FieldModel::H(v) => NodeModel { h: v, ..n },
        FieldModel::Fill(v) => NodeModel { fill: v, ..n },
        FieldModel::FillOpacity(v) => NodeModel { fill_opacity: v, ..n },
        FieldModel::Stroke(v) => NodeModel { stroke: v, ..n },
        FieldModel::StrokeWidth(v) => NodeModel { stroke_width: v, ..n },
        FieldModel::StrokeOpacity(v) => NodeModel { stroke_opacity: v, ..n },
        FieldModel::Rotation(v) => NodeModel { rotation: v, ..n },
        FieldModel::CornerRadius(v) => NodeModel { corner_radius: v, ..n },
        FieldModel::ImageBytes(v) => NodeModel { image_bytes: v, ..n },
    }
}

/// The rows after one column of one row was written. A write to a missing row changes nothing.
pub open spec fn written<S>(rows: Seq<NodeModel<S>>, id: u64, f: FieldModel<S>) -> Seq<
    NodeModel<S>,
> {
    if has_row(rows, id) {
        rows.update(slot(rows, id), with_field(rows[slot(rows, id)], f))
    } else {
        rows
    }
}

/// A row's place among its siblings: first by `z`, then by id.
pub open spec fn beneath<S: Scalar>(a: (S, u64), b: (S, u64)) -> bool {
    a.0.ranks_below(b.0) || (!b.0.ranks_below(a.0) && a.1 < b.1)
}

/// `e` placed into a stack of siblings: above everything that it is not beneath.
pub open spec fn placed<S: Scalar>(stack: Seq<(S, u64)>, e: (S, u64)) -> Seq<(S, u64)>
    decreases stack.len(),
{
    if stack.len() > 0 && beneath(e, stack.last()) {
        placed(stack.drop_last(), e).push(stack.last())
    } else {
        stack.push(e)
    }
}

/// The siblings under `parent`, bottom to top, each with its `z`.
pub open spec fn stacked<S: Scalar>(rows: Seq<NodeModel<S>>, parent: Option<u64>) -> Seq<(S, u64)>
    decreases rows.len(),
{
    if rows.len() == 0 {
        Seq::empty()
    } else {
        let rest = stacked(rows.drop_last(), parent);
        if rows.last().parent == parent {
            placed(rest, (rows.last().z, rows.last().id))
        } else {
            rest
        }
    }
}

/// The members of `parent` (or, for `None`, the top level), bottom to top.
pub open spec fn children<S: Scalar>(rows: Seq<NodeModel<S>>, parent: Option<u64>) -> Seq<u64> {
    stacked(rows, parent).map_values(|e: (S, u64)| e.1)
}

/// The steps that any walk along the tree can take without meeting a row twice.
pub open spec fn reach<S>(rows: Seq<NodeModel<S>>) -> nat {
    rows.len() + 1
}

/// `id`, its group, that group's group, and so on, `steps` of them at most.
pub open spec fn lineage_within<S: Scalar>(
    rows: Seq<NodeModel<S>>,
    id: u64,
    steps: nat,
) -> Seq<u64>
    decreases steps,
{
    if steps == 0 {
        Seq::empty()
    } else {
        match peek(rows, id).parent {
            None => seq![id],
            Some(p) => seq![id] + lineage_within(rows, p, (steps - 1) as nat),
        }
    }
}

/// `id` and everything it is inside of, innermost first.
pub open spec fn lineage<S: Scalar>(rows: Seq<NodeModel<S>>, id: u64) -> Seq<u64> {
    lineage_within(rows, id, reach(rows))
}

/// The shapes under `id`, descending `steps` levels at most.
pub open spec fn shapes_within<S: Scalar>(
    rows: Seq<NodeModel<S>>,
    id: u64,
    steps: nat,
) -> Seq<u64>
    decreases steps, 0nat,
{
    if steps == 0 {
        Seq::empty()
    } else if peek(rows, id).kind == NodeKind::Group {
        shapes_within_each(rows, children(rows, Some(id)), (steps - 1) as nat)
    } else {
        seq![id]
    }
}

/// The shapes under each of `ids`, in turn.
pub open spec fn shapes_within_each<S: Scalar>(
    rows: Seq<NodeModel<S>>,
    ids: Seq<u64>,
    steps: nat,
) -> Seq<u64>
    decreases steps, ids.len(),
{
    if ids.len() == 0 {
        Seq::empty()
    } else {
        shapes_within_each(rows, ids.drop_last(), steps) + shapes_within(rows, ids.last(), steps)
    }
}

/// Every shape (that is, every node but a group) under `id`, itself included, bottom to top.
pub open spec fn shapes<S: Scalar>(rows: Seq<NodeModel<S>>, id: u64) -> Seq<u64> {
    shapes_within(rows, id, reach(rows))
}

/// The shapes under each of `ids`, in turn.
pub open spec fn shapes_of_each<S: Scalar>(rows: Seq<NodeModel<S>>, ids: Seq<u64>) -> Seq<u64> {
    shapes_within_each(rows, ids, reach(rows))
}

/// The highest id in use, or nought.
pub open spec fn highest_id<S>(rows: Seq<NodeModel<S>>) -> nat
    decreases rows.len(),
{
    if rows.len() == 0 {
        0
    } else {
        let rest = highest_id(rows.drop_last());
        if rows.last().id > rest {
            rows.last().id as nat
        } else {
            rest
        }
    }
}

/// The index of the first `id` in `ids`.
pub open spec fn first_index(ids: Seq<u64>, id: u64) -> Option<int>
    decreases ids.len(),
{
    if ids.len() == 0 {
        None
    } else {
        match first_index(ids.drop_last(), id) {
            Some(i) => Some(i),
            None => if ids.last() == id {
                Some(ids.len() - 1)
            } else {
                None
            },
        }
    }
}

proof fn placed_is_insert<S: Scalar>(stack: Seq<(S, u64)>, e: (S, u64), at: int)
    requires
        0 <= at <= stack.len(),
        forall|k: int| at <= k < stack.len() ==> beneath(e, #[trigger] stack[k]),
        at > 0 ==> !beneath(e, stack[at - 1]),
    ensures
        placed(stack, e) == stack.insert(at, e),
    decreases stack.len(),
{
    if at < stack.len() {
        placed_is_insert(stack.drop_last(), e, at);
        assert(stack.drop_last().insert(at, e).push(stack.last()) =~= stack.insert(at, e));
    } else {
        assert(stack.push(e) =~= stack.insert(at, e));
    }
}

/// With distinct ids, a row's slot is wherever that id is found.
pub proof fn slot_is_unique<S>(rows: Seq<NodeModel<S>>, i: int)
    requires
        distinct(rows),
        0 <= i < rows.len(),
    ensures
        has_row(rows, rows[i].id),
        slot(rows, rows[i].id) == i,
{
    let s = slot(rows, rows[i].id);
    assert(0 <= s < rows.len() && rows[s].id == rows[i].id);
}

/// The index of the first `id` in `ids`.
pub fn position(ids: &[u64], id: u64) -> (r: Option<usize>)
    ensures
        r matches Some(i) ==> first_index(ids@, id) == Some(i as int) && i < ids.len() && ids@[i as int] == id,
        r is None ==> first_index(ids@, id) is None && !ids@.contains(id),
{
    let mut i: usize = 0;
    while i < ids.len()
        invariant
            i <= ids.len(),
            first_index(ids@.subrange(0, i as int), id) is None,
            forall|j: int| 0 <= j < i ==> ids@[j] != id,
        decreases ids.len() - i,
    {
        assert(ids@.subrange(0, i + 1).drop_last() =~= ids@.subrange(0, i as int));
        if ids[i] == id {
            proof {
                first_index_of_prefix(ids@, id, i + 1);
            }
            return Some(i);
        }
        i += 1;
    }
    assert(ids@.subrange(0, i as int) =~= ids@);
    None
}

proof fn first_index_of_prefix(ids: Seq<u64>, id: u64, n: int)
    requires
        0 <= n <= ids.len(),
        first_index(ids.subrange(0, n), id) is Some,
    ensures
        first_index(ids, id) == first_index(ids.subrange(0, n), id),
    decreases ids.len(),
{
    if n < ids.len() {
        assert(ids.drop_last().subrange(0, n) =~= ids.subrange(0, n));
        first_index_of_prefix(ids.drop_last(), id, n);
    } else {
        assert(ids.subrange(0, n) =~= ids);
    }
}

impl<S: Scalar> Scene<S> {
    /// Every id stands in one row only.
    pub open spec fn wf(&self) -> bool {
        distinct(self@.rows)
    }

    /// An empty drawing on white paper.
    pub fn empty() -> (r: Scene<S>)
        ensures
            r@.rows == Seq::<NodeModel<S>>::empty(),
            r@.background == "#FFFFFF"@,
            r.wf(),
    {
        let r = Scene { nodes: Vec::new(), background: "#FFFFFF".to_owned() };
        assert(r@.rows =~= Seq::<NodeModel<S>>::empty());
        r
    }

    /// Where the row with this id stands.
    pub fn find(&self, id: u64) -> (r: Option<usize>)
        requires
            self.wf(),
        ensures
            r is Some <==> has_row(self@.rows, id),
            r matches Some(i) ==> i < self.nodes.len() && i == slot(self@.rows, id)
                && self@.rows[i as int] == self.nodes@[i as int]@ && self.nodes@[i as int].id
                == id && self.nodes@[i as int]@ == peek(self@.rows, id),
    {
        let mut i: usize = 0;
        while i < self.nodes.len()
            invariant
                i <= self.nodes.len(),
                self.wf(),
                forall|j: int| 0 <= j < i ==> self@.rows[j].id != id,
            decreases self.nodes.len() - i,
        {
            if self.nodes[i].id == id {
                proof {
                    slot_is_unique(self@.rows, i as int);
                }
                return Some(i);
            }
            i += 1;
        }
        None
    }

    /// Writes one column of one row.
    pub fn write(&mut self, id: u64, field: Field<S>)
        requires
            old(self).wf(),
        ensures
            final(self)@.rows == written(old(self)@.rows, id, field@),
            final(self)@.background == old(self)@.background,
            final(self).wf(),
    {
        let ghost before = self@.rows;
        if let Some(i) = self.find(id) {
            match field {
                Field::Parent(v) => self.nodes[i].parent = v,
                Field::Z(v) => self.nodes[i].z = v,
                Field::Kind(v) => self.nodes[i].kind = v,
                Field::X(v) => self.nodes[i].x = v,
                Field::Y(v) => self.nodes[i].y = v,
                Field::W(v) => self.nodes[i].w = v,
                Field::H(v) => self.nodes[i].h = v,
                Field::Fill(v) => self.nodes[i].fill = v,
                Field::FillOpacity(v) => self.nodes[i].fill_opacity = v,
                Field::Stroke(v) => self.nodes[i].stroke = v,
                Field::StrokeWidth(v) => self.nodes[i].stroke_width = v,
                Field::StrokeOpacity(v) => self.nodes[i].stroke_opacity = v,
                Field::Rotation(v) => self.nodes[i].rotation = v,
                Field::CornerRadius(v) => self.nodes[i].corner_radius = v,
                Field::ImageBytes(v) => self.nodes[i].image_bytes = v,
            }
            assert(self@.rows =~= written(before, id, field@));
        }
    }

    /// The kind of a node that is there.
    pub fn node_kind(&self, id: u64) -> (r: Option<NodeKind>)
        requires
            self.wf(),
        ensures
            r == if has_row(self@.rows, id) {
                Some(peek(self@.rows, id).kind)
            } else {
                None::<NodeKind>
            },
    {
        match self.find(id) {
            Some(i) => Some(self.nodes[i].kind),
            None => None,
        }
    }

    /// The kind of a node, a missing one counting as a rectangle.
    pub fn kind(&self, id: u64) -> (r: NodeKind)
        requires
            self.wf(),
        ensures
            r == peek(self@.rows, id).kind,
    {
        match self.find(id) {
            Some(i) => self.nodes[i].kind,
            None => NodeKind::Rect,
        }
    }

    /// The group a node is in; `None` at the top level.
    pub fn parent_of(&self, id: u64) -> (r: Option<u64>)
        requires
            self.wf(),
        ensures
            r == peek(self@.rows, id).parent,
    {
        match self.find(id) {
            Some(i) => self.nodes[i].parent,
            None => None,
        }
    }

    /// A node's place in the sibling order.
    pub fn z(&self, id: u64) -> (r: S)
        requires
            self.wf(),
        ensures
            r == peek(self@.rows, id).z,
    {
        match self.find(id) {
            Some(i) => self.nodes[i].z,
            None => S::of_int(0),
        }
    }

    /// The four geometry columns of a node, as stored.
    pub fn raw_frame(&self, id: u64) -> (r: (S, S, S, S))
        requires
            self.wf(),
        ensures
            r == (
                peek(self@.rows, id).x,
                peek(self@.rows, id).y,
                peek(self@.rows, id).w,
                peek(self@.rows, id).h,
            ),
    {
        match self.find(id) {
            Some(i) => (self.nodes[i].x, self.nodes[i].y, self.nodes[i].w, self.nodes[i].h),
            None => (S::of_int(0), S::of_int(0), S::of_int(0), S::of_int(0)),
        }
    }

    /// A node's angle, as stored.
    pub fn rotation(&self, id: u64) -> (r: S)
        requires
            self.wf(),
        ensures
            r == peek(self@.rows, id).rotation,
    {
        match self.find(id) {
            Some(i) => self.nodes[i].rotation,
            None => S::of_int(0),
        }
    }

    /// The next free id: one past the highest.
    pub fn next_id(&self) -> (r: u64)
        requires
            highest_id(self@.rows) < u64::MAX,
        ensures
            r == highest_id(self@.rows) + 1,
    {
        self.top_id() + 1
    }

    /// The highest id in use, or nought.
    pub fn top_id(&self) -> (r: u64)
        ensures
            r == highest_id(self@.rows),
    {
        let mut top: u64 = 0;
        let mut i: usize = 0;
        assert(self@.rows.subrange(0, 0) =~= Seq::<NodeModel<S>>::empty());
        while i < self.nodes.len()
            invariant
                i <= self.nodes.len(),
                top == highest_id(self@.rows.subrange(0, i as int)),
            decreases self.nodes.len() - i,
        {
            assert(self@.rows.subrange(0, i + 1).drop_last() =~= self@.rows.subrange(0, i as int));
            if self.nodes[i].id > top {
                top = self.nodes[i].id;
            }
            i += 1;
        }
        assert(self@.rows.subrange(0, i as int) =~= self@.rows);
        top
    }

    /// The members of `parent` (or, for `None`, the top level), bottom to top.
    pub fn children_of(&self, parent: Option<u64>) -> (r: Vec<u64>)
        ensures
            r@ == children(self@.rows, parent),
    {
        let mut stack: Vec<(S, u64)> = Vec::new();
        let mut i: usize = 0;
        assert(self@.rows.subrange(0, 0) =~= Seq::<NodeModel<S>>::empty());
        while i < self.nodes.len()
            invariant
                i <= self.nodes.len(),
                stack@ == stacked(self@.rows.subrange(0, i as int), parent),
            decreases self.nodes.len() - i,
        {
            assert(self@.rows.subrange(0, i + 1).drop_last() =~= self@.rows.subrange(0, i as int));
            if self.nodes[i].parent == parent {
                let e: (S, u64) = (self.nodes[i].z, self.nodes[i].id);
                let mut at: usize = stack.len();
                while at > 0 && (e.0.ranks_below(stack[at - 1].0) || (!stack[at - 1].0.ranks_below(e.0) && e.1
                    < stack[at - 1].1))
                    invariant
                        at <= stack.len(),
                        forall|k: int| at <= k < stack.len() ==> beneath(e, #[trigger] stack@[k]),
                    decreases at,
                {
                    at -= 1;
                }
                proof {
                    placed_is_insert(stack@, e, at as int);
                }
                stack.insert(at, e);
            }
            i += 1;
        }
        assert(self@.rows.subrange(0, i as int) =~= self@.rows);
        let mut out: Vec<u64> = Vec::new();
        let mut k: usize = 0;
        while k < stack.len()
            invariant
                k <= stack.len(),
                out.len() == k,
                forall|j: int| 0 <= j < k ==> out@[j] == stack@[j].1,
            decreases stack.len() - k,
        {
            out.push(stack[k].1);
            k += 1;
        }
        assert(out@ =~= children(self@.rows, parent));
        out
    }

    /// `id` and everything it is inside of, innermost first.
    pub fn lineage_of(&self, id: u64) -> (r: Vec<u64>)
        requires
            self.wf(),
        ensures
            r@ == lineage(self@.rows, id),
    {
        let mut out: Vec<u64> = Vec::new();
        let mut cur: u64 = id;
        let mut taken: usize = 0;
        while taken <= self.nodes.len()
            invariant
                self.wf(),
                taken <= self.nodes.len() + 1,
                self@.rows.len() == self.nodes.len(),
                out@ + lineage_within(self@.rows, cur, (self.nodes.len() + 1 - taken) as nat)
                    == lineage(self@.rows, id),
            decreases self.nodes.len() + 1 - taken,
        {
            let ghost seen = out@;
            out.push(cur);
            match self.parent_of(cur) {
                None => {
                    assert(out@ =~= lineage(self@.rows, id));
                    return out;
                },
                Some(p) => {
                    assert(seen + (seq![cur] + lineage_within(
                        self@.rows,
                        p,
                        (self.nodes.len() - taken) as nat,
                    )) =~= out@ + lineage_within(
                        self@.rows,
                        p,
                        (self.nodes.len() - taken) as nat,
                    ));
                    cur = p;
                    if taken == self.nodes.len() {
                        assert(out@ =~= lineage(self@.rows, id));
                        return out;
                    }
                    taken += 1;
                },
            }
        }
        out
    }

    /// Whether `node` is inside `ancestor`'s subtree, or is that node itself.
    pub fn is_within(&self, node: u64, ancestor: u64) -> (r: bool)
        requires
            self.wf(),
        ensures
            r == lineage(self@.rows, node).contains(ancestor),
    {
        let line = self.lineage_of(node);
        position(line.as_slice(), ancestor).is_some()
    }

    /// The child of `ancestor` that lies on the way down to `descendant`, the next selection
    /// of a double click; `None` when `ancestor` is not above `descendant`.
    pub fn child_toward(&self, ancestor: u64, descendant: u64) -> (r: Option<u64>)
        requires
            self.wf(),
        ensures
            r == toward(lineage(self@.rows, descendant), ancestor),
    {
        let line = self.lineage_of(descendant);
        let mut i: usize = 1;
        while i < line.len()
            invariant
                1 <= i,
                i <= line.len() || line.len() == 0,
                line@ == lineage(self@.rows, descendant),
                forall|j: int| 1 <= j < i ==> line@[j] != ancestor,
            decreases line.len() - i,
        {
            if line[i] == ancestor {
                proof {
                    toward_is(line@, ancestor, i as int);
                }
                return Some(line[i - 1]);
            }
            i += 1;
        }
        None
    }

    /// The outermost group around `id`, or `id` itself.
    pub fn top_level_ancestor(&self, id: u64) -> (r: u64)
        requires
            self.wf(),
        ensures
            r == lineage(self@.rows, id).last(),
    {
        let line = self.lineage_of(id);
        proof {
            lineage_starts(self@.rows, id, reach(self@.rows));
        }
        line[line.len() - 1]
    }

    /// Every shape under `id`, itself included, bottom to top.
    pub fn shape_descendants(&self, id: u64) -> (r: Vec<u64>)
        requires
            self.wf(),
        ensures
            r@ == shapes(self@.rows, id),
    {
        let mut out: Vec<u64> = Vec::new();
        self.gather(id, self.nodes.len(), &mut out);
        assert(out@ =~= shapes(self@.rows, id));
        out
    }

    /// Appends the shapes under `id`, descending `below` levels below it at most.
    fn gather(&self, id: u64, below: usize, out: &mut Vec<u64>)
        requires
            self.wf(),
        ensures
            final(out)@ == old(out)@ + shapes_within(self@.rows, id, below as nat + 1),
        decreases below, 0nat,
    {
        let ghost start = out@;
        if let NodeKind::Group = self.kind(id) {
            let members = self.children_of(Some(id));
            if below == 0 {
                proof {
                    no_shapes_without_steps(self@.rows, members@);
                }
                assert(out@ =~= start + shapes_within(self@.rows, id, 1));
                return;
            }
            let mut i: usize = 0;
            assert(members@.subrange(0, 0) =~= Seq::<u64>::empty());
            assert(out@ =~= start + shapes_within_each(
                self@.rows,
                members@.subrange(0, 0),
                below as nat,
            ));
            while i < members.len()
                invariant
                    self.wf(),
                    below > 0,
                    i <= members.len(),
                    out@ == start + shapes_within_each(
                        self@.rows,
                        members@.subrange(0, i as int),
                        below as nat,
                    ),
                decreases members.len() - i,
            {
                self.gather(members[i], below - 1, out);
                assert(members@.subrange(0, i + 1).drop_last() =~= members@.subrange(0, i as int));
                i += 1;
                assert(out@ =~= start + shapes_within_each(
                    self@.rows,
                    members@.subrange(0, i as int),
                    below as nat,
                ));
            }
            assert(members@.subrange(0, i as int) =~= members@);
        } else {
            out.push(id);
            assert(out@ =~= start + seq![id]);
        }
    }

    /// The shapes under each of `ids`, in turn.
    pub fn shapes_under(&self, ids: &[u64]) -> (r: Vec<u64>)
        requires
            self.wf(),
        ensures
            r@ == shapes_of_each(self@.rows, ids@),
    {
        let mut out: Vec<u64> = Vec::new();
        let mut i: usize = 0;
        assert(ids@.subrange(0, 0) =~= Seq::<u64>::empty());
        while i < ids.len()
            invariant
                self.wf(),
                i <= ids.len(),
                out@ == shapes_of_each(self@.rows, ids@.subrange(0, i as int)),
            decreases ids.len() - i,
        {
            assert(ids@.subrange(0, i + 1).drop_last() =~= ids@.subrange(0, i as int));
            self.gather(ids[i], self.nodes.len(), &mut out);
            i += 1;
        }
        assert(ids@.subrange(0, i as int) =~= ids@);
        out
    }
}

/// The element just before the first later occurrence of `ancestor` in a lineage.
pub open spec fn toward(line: Seq<u64>, ancestor: u64) -> Option<u64> {
    if exists|i: int| 1 <= i < line.len() && #[trigger] line[i] == ancestor {
        let first = choose|i: int|
            1 <= i < line.len() && #[trigger] line[i] == ancestor && forall|j: int|
                1 <= j < i ==> line[j] != ancestor;
        Some(line[first - 1])
    } else {
        None
    }
}

proof fn toward_is(line: Seq<u64>, ancestor: u64, at: int)
    requires
        1 <= at < line.len(),
        line[at] == ancestor,
        forall|j: int| 1 <= j < at ==> line[j] != ancestor,
    ensures
        toward(line, ancestor) == Some(line[at - 1]),
{
    let first = choose|i: int|
        1 <= i < line.len() && #[trigger] line[i] == ancestor && forall|j: int|
            1 <= j < i ==> line[j] != ancestor;
    assert(first == at);
}

/// A lineage starts at the node itself.
pub proof fn lineage_starts<S: Scalar>(rows: Seq<NodeModel<S>>, id: u64, steps: nat)
    ensures
        steps > 0 ==> lineage_within(rows, id, steps).len() > 0 && lineage_within(
            rows,
            id,
            steps,
        )[0] == id,
{
}

proof fn no_shapes_without_steps<S: Scalar>(rows: Seq<NodeModel<S>>, ids: Seq<u64>)
    ensures
        shapes_within_each(rows, ids, 0) == Seq::<u64>::empty(),
    decreases ids.len(),
{
    if ids.len() > 0 {
        no_shapes_without_steps(rows, ids.drop_last());
        assert(shapes_within(rows, ids.last(), 0) == Seq::<u64>::empty());
        assert(shapes_within_each(rows, ids, 0) =~= Seq::<u64>::empty());
    }
}

} // verus!
