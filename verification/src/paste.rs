//! Pasting: SVG text becomes nodes, offset from where it came from and on top of everything.
use vstd::prelude::*;
use crate::geometry::min_size;
use crate::node::{default_node, Node, NodeKind, NodeModel};
use crate::ops::{
    count, count_spec, fresh_id_is_free, palette, palette_spec, removed_each, top_z, Editor,
    EditorModel,
};
use crate::scalar::Scalar;
use crate::scene::{highest_id, Scene};
use crate::svg::{
    after_tag, after_tags, forest_of, group_tree, parsed, received, run, run_is, svg_parse, tags,
    finished, past, tree_of, Class, Reading, ShapeModel, SvgNode, SvgShape, TreeModel,
};
use crate::svg_write::selection_svg;
use crate::text::chars_of;

verus! {

/// How many nodes a tree comes to.
pub open spec fn size<S>(t: TreeModel<S>) -> nat
    decreases t,
{
    match t {
        TreeModel::Shape(_) => 1,
        TreeModel::Group(members) => 1 + size_each(members),
    }
}

pub open spec fn size_each<S>(ts: Seq<TreeModel<S>>) -> nat
    decreases ts,
{
    if ts.len() == 0 {
        0
    } else {
        size_each(ts.drop_last()) + size(ts.last())
    }
}

/// A pasted shape. What its text left out takes the document's defaults, and a colour of its
/// own. A line keeps its signed deltas; any other shape has the minimum size at least.
pub open spec fn pasted_shape<S: Scalar>(
    s: ShapeModel<S>,
    id: u64,
    parent: Option<u64>,
    z: S,
    offset: S,
) -> NodeModel<S> {
    let d = default_node::<S>();
    NodeModel {
        id,
        parent,
        z,
        kind: s.kind,
        x: s.x.plus(offset),
        y: s.y.plus(offset),
        w: if s.kind == NodeKind::Line {
            s.w
        } else {
            s.w.greater(min_size())
        },
        h: if s.kind == NodeKind::Line {
            s.h
        } else {
            s.h.greater(min_size())
        },
        fill: match s.fill {
            Some(f) => f,
            None => palette_spec(id),
        },
        fill_opacity: match s.fill_opacity {
            Some(v) => v,
            None => d.fill_opacity,
        },
        stroke: match s.stroke {
            Some(v) => v,
            None => d.stroke,
        },
        stroke_width: match s.stroke_width {
            Some(v) => v,
            None => d.stroke_width,
        },
        stroke_opacity: match s.stroke_opacity {
            Some(v) => v,
            None => d.stroke_opacity,
        },
        rotation: match s.rotation {
            Some(v) => v,
            None => d.rotation,
        },
        corner_radius: match s.corner_radius {
            Some(v) => v,
            None => d.corner_radius,
        },
        image_bytes: s.image_bytes,
    }
}

/// The rows after a tree was pasted: it takes the ids from `next` on, a group before its
/// members.
pub open spec fn planted<S: Scalar>(
    rows: Seq<NodeModel<S>>,
    t: TreeModel<S>,
    parent: Option<u64>,
    z: S,
    offset: S,
    next: int,
) -> Seq<NodeModel<S>>
    decreases t,
{
    match t {
        TreeModel::Shape(s) => rows.push(pasted_shape(s, next as u64, parent, z, offset)),
        TreeModel::Group(members) => planted_members(
            rows.push(
                NodeModel { id: next as u64, parent, z, kind: NodeKind::Group, ..default_node() },
            ),
            members,
            next as u64,
            offset,
            next + 1,
        ),
    }
}

/// The rows after the members of a group were pasted, stacked in order.
pub open spec fn planted_members<S: Scalar>(
    rows: Seq<NodeModel<S>>,
    ts: Seq<TreeModel<S>>,
    group: u64,
    offset: S,
    next: int,
) -> Seq<NodeModel<S>>
    decreases ts,
{
    if ts.len() == 0 {
        rows
    } else {
        let front = ts.drop_last();
        planted(
            planted_members(rows, front, group, offset, next),
            ts.last(),
            Some(group),
            count_spec::<S>(ts.len() - 1).plus(S::of_int(1)),
            offset,
            next + size_each(front),
        )
    }
}

/// `z` raised by one, `n` times.
pub open spec fn raised<S: Scalar>(z: S, n: nat) -> S
    decreases n,
{
    if n == 0 {
        z
    } else {
        raised(z, (n - 1) as nat).plus(S::of_int(1))
    }
}

/// The rows after trees were pasted onto the top level, each above the one before.
pub open spec fn planted_roots<S: Scalar>(
    rows: Seq<NodeModel<S>>,
    ts: Seq<TreeModel<S>>,
    z: S,
    offset: S,
    next: int,
) -> Seq<NodeModel<S>>
    decreases ts.len(),
{
    if ts.len() == 0 {
        rows
    } else {
        let front = ts.drop_last();
        planted(
            planted_roots(rows, front, z, offset, next),
            ts.last(),
            None,
            raised(z, ts.len()),
            offset,
            next + size_each(front),
        )
    }
}

/// The ids that pasted trees get.
pub open spec fn root_ids<S>(ts: Seq<TreeModel<S>>, next: int) -> Seq<u64> {
    Seq::new(ts.len(), |i: int| (next + size_each(ts.subrange(0, i))) as u64)
}

/// How far a paste lands from its place: sixteen, and sixteen more each time the same text is
/// pasted again, so that copies never stack out of sight.
pub open spec fn paste_offset<S: Scalar>(last: Option<(Seq<char>, S)>, text: Seq<char>) -> S {
    match last {
        Some((before, step)) => if before == text {
            step.plus(S::of_int(16))
        } else {
            S::of_int(16)
        },
        None => S::of_int(16),
    }
}

/// Whether there are ids enough for the trees.
pub open spec fn room_for<S>(rows: Seq<NodeModel<S>>, ts: Seq<TreeModel<S>>) -> bool {
    ts.len() > 0 ==> highest_id(rows) + size_each(ts) < u64::MAX
}

/// The editor after trees were pasted, and selected, on top of everything.
pub open spec fn planted_all<S: Scalar>(m: EditorModel<S>, ts: Seq<TreeModel<S>>, offset: S) -> EditorModel<
    S,
> {
    let next = highest_id(m.rows) as int + 1;
    let z = match top_z(m.rows) {
        Some(z) => z,
        None => S::of_int(0),
    };
    EditorModel {
        rows: planted_roots(m.rows, ts, z, offset, next),
        selection: root_ids(ts, next),
        ..m
    }
}

/// The editor after a paste. A text without shapes changes nothing; otherwise what was pasted
/// is selected.
pub open spec fn pasted<S: Scalar>(m: EditorModel<S>, text: Seq<char>) -> EditorModel<S> {
    let ts = parsed::<S>(text);
    if ts.len() == 0 {
        m
    } else {
        let offset = paste_offset(m.last_paste, text);
        EditorModel { last_paste: Some((text, offset)), ..planted_all(m, ts, offset) }
    }
}

/// What copying the selection onto itself would paste: nothing where the selection has no
/// text, or no ids are left for its copies.
pub open spec fn copies<S: Scalar>(m: EditorModel<S>) -> Seq<TreeModel<S>> {
    match selection_svg(m.rows, m.selection) {
        Some(text) => if room_for(m.rows, parsed::<S>(text)) {
            parsed::<S>(text)
        } else {
            Seq::empty()
        },
        None => Seq::empty(),
    }
}

/// The editor after the selection was copied onto itself, for a drag that takes the copies
/// along.
pub open spec fn copied_in_place<S: Scalar>(m: EditorModel<S>) -> EditorModel<S> {
    if copies(m).len() > 0 {
        planted_all(m, copies(m), S::of_int(0))
    } else {
        m
    }
}

/// A row under an id past the highest raises the highest to that id.
pub proof fn pushed_raises_highest<S>(rows: Seq<NodeModel<S>>, n: NodeModel<S>)
    requires
        highest_id(rows) < n.id,
    ensures
        highest_id(rows.push(n)) == n.id,
{
    assert(rows.push(n).drop_last() =~= rows);
}

impl<S: Scalar> SvgShape<S> {
    /// The node that a shape pastes as.
    fn to_node(&self, id: u64, parent: Option<u64>, z: S, offset: S) -> (r: Node<S>)
        ensures
            r@ == pasted_shape(self@, id, parent, z, offset),
    {
        let mut node: Node<S> = Node::fresh();
        node.id = id;
        node.parent = parent;
        node.z = z;
        node.kind = self.kind;
        node.x = self.x.plus(offset);
        node.y = self.y.plus(offset);
        match self.kind {
            NodeKind::Line => {
                node.w = self.w;
                node.h = self.h;
            },
            NodeKind::Rect | NodeKind::Oval | NodeKind::Group | NodeKind::Image => {
                node.w = self.w.greater(min_size());
                node.h = self.h.greater(min_size());
            },
        }
        node.fill = match &self.fill {
            Some(f) => f.clone(),
            None => palette(id),
        };
        if let Some(v) = self.fill_opacity {
            node.fill_opacity = v;
        }
        if let Some(s) = &self.stroke {
            node.stroke = s.clone();
        }
        if let Some(v) = self.stroke_width {
            node.stroke_width = v;
        }
        if let Some(v) = self.stroke_opacity {
            node.stroke_opacity = v;
        }
        if let Some(v) = self.rotation {
            node.rotation = v;
        }
        if let Some(v) = self.corner_radius {
            node.corner_radius = v;
        }
        node.image_bytes = self.image_bytes.clone();
        assert(node.image_bytes@ =~= self.image_bytes@);
        node
    }
}

impl<S: Scalar> Scene<S> {
    /// Pastes one tree; returns the first id past those it took.
    fn plant(
        &mut self,
        n: &SvgNode<S>,
        parent: Option<u64>,
        z: S,
        offset: S,
        next: u64,
    ) -> (after: u64)
        requires
            old(self).wf(),
            highest_id(old(self)@.rows) < next,
            next + size(tree_of(*n)) <= u64::MAX,
        ensures
            final(self).wf(),
            final(self)@.rows == planted(
                old(self)@.rows,
                tree_of(*n),
                parent,
                z,
                offset,
                next as int,
            ),
            final(self)@.background == old(self)@.background,
            after == next + size(tree_of(*n)),
            highest_id(final(self)@.rows) < after,
        decreases *n,
    {
        let ghost background = self@.background;
        proof {
            fresh_id_is_free(self@.rows, next);
        }
        match n {
            SvgNode::Shape(s) => {
                let node = s.to_node(next, parent, z, offset);
                proof {
                    pushed_raises_highest(self@.rows, node@);
                }
                self.insert(node);
                next + 1
            },
            SvgNode::Group(members) => {
                let mut group: Node<S> = Node::fresh();
                group.id = next;
                group.parent = parent;
                group.z = z;
                group.kind = NodeKind::Group;
                proof {
                    pushed_raises_highest(self@.rows, group@);
                    group_tree(*members);
                }
                self.insert(group);
                let ghost rows = self@.rows;
                let ghost ts = forest_of(members@);
                let mut at: u64 = next + 1;
                let mut i: usize = 0;
                assert(ts.subrange(0, 0) =~= Seq::<TreeModel<S>>::empty());
                while i < members.len()
                    invariant
                        self.wf(),
                        *n == SvgNode::Group(*members),
                        i <= members.len(),
                        ts == forest_of(members@),
                        self@.rows == planted_members(
                            rows,
                            ts.subrange(0, i as int),
                            next,
                            offset,
                            next + 1,
                        ),
                        self@.background == background,
                        at == next + 1 + size_each(ts.subrange(0, i as int)),
                        highest_id(self@.rows) < at,
                        next + 1 + size_each(ts) <= u64::MAX,
                    decreases members.len() - i,
                {
                    proof {
                        assert(ts.subrange(0, i + 1).drop_last() =~= ts.subrange(0, i as int));
                        size_of_prefix(ts, i + 1);
                        assert(ts[i as int] == tree_of(members@[i as int]));
                        assert(decreases_to!(*n => (*n)->Group_0));
                        assert(decreases_to!(*members => members[i as int]));
                    }
                    at = self.plant(
                        &members[i],
                        Some(next),
                        count::<S>(i).plus(S::of_int(1)),
                        offset,
                        at,
                    );
                    i += 1;
                }
                assert(ts.subrange(0, i as int) =~= ts);
                at
            },
        }
    }
}

/// A prefix comes to no more nodes than the whole.
proof fn size_of_prefix<S>(ts: Seq<TreeModel<S>>, n: int)
    requires
        0 <= n <= ts.len(),
    ensures
        size_each(ts.subrange(0, n)) <= size_each(ts),
    decreases ts.len(),
{
    if n == ts.len() {
        assert(ts.subrange(0, n) =~= ts);
    } else {
        assert(ts.drop_last().subrange(0, n) =~= ts.subrange(0, n));
        size_of_prefix(ts.drop_last(), n);
    }
}

// ---------------------------------------------------------------------------
// A text never holds more nodes than characters
// ---------------------------------------------------------------------------

/// What the open groups of a reading come to, themselves included.
spec fn open_size<S>(open: Seq<Seq<TreeModel<S>>>) -> nat
    decreases open.len(),
{
    if open.len() == 0 {
        0
    } else {
        open_size(open.drop_last()) + size_each(open.last()) + 1
    }
}

spec fn reading_size<S>(r: Reading<S>) -> nat {
    size_each(r.roots) + open_size(r.open)
}

proof fn pushed_size<S>(ts: Seq<TreeModel<S>>, t: TreeModel<S>)
    ensures
        size_each(ts.push(t)) == size_each(ts) + size(t),
{
    assert(ts.push(t).drop_last() =~= ts);
}

proof fn joined_size<S>(a: Seq<TreeModel<S>>, b: Seq<TreeModel<S>>)
    ensures
        size_each(a + b) == size_each(a) + size_each(b),
    decreases b.len(),
{
    if b.len() == 0 {
        assert(a + b =~= a);
    } else {
        assert((a + b).drop_last() =~= a + b.drop_last());
        joined_size(a, b.drop_last());
    }
}

proof fn received_size<S>(r: Reading<S>, n: TreeModel<S>)
    ensures
        reading_size(received(r, n)) == reading_size(r) + size(n),
{
    if r.open.len() > 0 {
        pushed_size(r.open.last(), n);
        let open = r.open.drop_last().push(r.open.last().push(n));
        assert(open.drop_last() =~= r.open.drop_last());
    } else {
        pushed_size(r.roots, n);
    }
}

proof fn after_tag_size<S: Scalar>(r: Reading<S>, tag: Seq<char>)
    ensures
        reading_size(after_tag(r, tag)) <= reading_size(r) + 1,
{
    if tag.len() > 0 && tag[0] == '/' {
        if r.open.len() > 0 {
            received_size(
                Reading { open: r.open.drop_last(), ..r },
                TreeModel::Group(r.open.last()),
            );
        }
    } else {
        let empty = Seq::<TreeModel<S>>::empty();
        assert(r.open.push(empty).drop_last() =~= r.open);
        assert forall|s: ShapeModel<S>| reading_size(
            #[trigger] received(r, TreeModel::Shape(s)),
        ) <= reading_size(r) + 1 by {
            received_size(r, TreeModel::Shape(s));
        }
    }
}

proof fn after_tags_size<S: Scalar>(r: Reading<S>, ts: Seq<Seq<char>>)
    ensures
        reading_size(after_tags(r, ts)) <= reading_size(r) + ts.len(),
    decreases ts.len(),
{
    if ts.len() > 0 {
        after_tag_size(r, ts[0]);
        after_tags_size(after_tag(r, ts[0]), ts.drop_first());
    }
}

proof fn finished_size<S>(r: Reading<S>)
    ensures
        size_each(finished(r)) <= reading_size(r),
    decreases r.open.len(),
{
    if r.open.len() > 0 {
        joined_size(r.roots, r.open.last());
        finished_size(Reading { roots: r.roots + r.open.last(), open: r.open.drop_last() });
    }
}

proof fn tag_count(s: Seq<char>)
    ensures
        tags(s).len() <= s.len(),
    decreases s.len(),
{
    run_is(s, Class::Not('<'));
    let open = run(s, Class::Not('<'));
    if open < s.len() {
        let after = past(s, open + 1);
        run_is(after, Class::Not('>'));
        let close = run(after, Class::Not('>'));
        if close < after.len() {
            tag_count(past(after, close + 1));
        }
    }
}

/// A text holds no more nodes than it has characters.
pub proof fn parsed_size<S: Scalar>(text: Seq<char>)
    ensures
        size_each(parsed::<S>(text)) <= text.len(),
{
    let start = Reading::<S> { roots: Seq::empty(), open: Seq::empty() };
    after_tags_size(start, tags(text));
    finished_size(after_tags(start, tags(text)));
    tag_count(text);
    assert(reading_size(start) == 0);
}

// ---------------------------------------------------------------------------
// The clipboard's operations
// ---------------------------------------------------------------------------

/// How many nodes some trees come to.
fn node_count<S: Scalar>(nodes: &Vec<SvgNode<S>>) -> (r: usize)
    requires
        size_each(forest_of(nodes@)) <= usize::MAX,
    ensures
        r == size_each(forest_of(nodes@)),
    decreases *nodes,
{
    let ghost ts = forest_of(nodes@);
    let mut total: usize = 0;
    let mut i: usize = 0;
    assert(ts.subrange(0, 0) =~= Seq::<TreeModel<S>>::empty());
    while i < nodes.len()
        invariant
            i <= nodes.len(),
            ts == forest_of(nodes@),
            total == size_each(ts.subrange(0, i as int)),
            size_each(ts) <= usize::MAX,
        decreases nodes.len() - i,
    {
        proof {
            assert(ts.subrange(0, i + 1).drop_last() =~= ts.subrange(0, i as int));
            size_of_prefix(ts, i + 1);
            assert(ts[i as int] == tree_of(nodes@[i as int]));
            assert(decreases_to!(*nodes => nodes[i as int]));
            assert(size_each(ts.subrange(0, i + 1)) == size_each(ts.subrange(0, i as int)) + size(
                ts[i as int],
            ));
        }
        match &nodes[i] {
            SvgNode::Shape(_) => {
                total += 1;
            },
            SvgNode::Group(members) => {
                proof {
                    group_tree(*members);
                    assert(decreases_to!(nodes@[i as int] => nodes@[i as int]->Group_0));
                }
                total += 1 + node_count(members);
            },
        }
        i += 1;
    }
    assert(ts.subrange(0, i as int) =~= ts);
    total
}

/// Whether a text holds anything to paste.
pub fn can_paste_svg<S: Scalar>(text: &str) -> (r: bool)
    ensures
        r == (parsed::<S>(text@).len() > 0),
{
    let chars = chars_of(text);
    let nodes = svg_parse::<S>(chars.as_slice());
    assert(forest_of(nodes@).len() == nodes.len());
    nodes.len() > 0
}

impl<S: Scalar> Editor<S> {
    /// How far the next paste of `text` lands from its place.
    fn next_offset(&self, text: &str) -> (r: S)
        ensures
            r == paste_offset(self@.last_paste, text@),
    {
        match &self.last_paste {
            Some((before, step)) => {
                if *before == text.to_owned() {
                    step.plus(S::of_int(16))
                } else {
                    S::of_int(16)
                }
            },
            None => S::of_int(16),
        }
    }

    /// Pastes nodes on top of everything, and selects them.
    fn plant_all(&mut self, nodes: &Vec<SvgNode<S>>, offset: S)
        requires
            old(self).wf(),
            nodes.len() > 0,
            room_for(old(self)@.rows, forest_of(nodes@)),
        ensures
            final(self).wf(),
            final(self)@ == planted_all(old(self)@, forest_of(nodes@), offset),
    {
        let ghost ts = forest_of(nodes@);
        proof {
            some_size(ts);
        }
        let ghost start = self@;
        let ghost next = highest_id(self@.rows) as int + 1;
        let first = self.scene.next_id();
        let base = match self.scene.top_z() {
            Some(z) => z,
            None => S::of_int(0),
        };
        let mut z = base;
        let mut at: u64 = first;
        let mut ids: Vec<u64> = Vec::new();
        let mut i: usize = 0;
        assert(ts.subrange(0, 0) =~= Seq::<TreeModel<S>>::empty());
        while i < nodes.len()
            invariant
                self.wf(),
                i <= nodes.len(),
                ts == forest_of(nodes@),
                next == first,
                self@ == (EditorModel {
                    rows: planted_roots(start.rows, ts.subrange(0, i as int), base, offset, next),
                    ..start
                }),
                z == raised(base, i as nat),
                at == next + size_each(ts.subrange(0, i as int)),
                highest_id(self@.rows) < at,
                next + size_each(ts) <= u64::MAX,
                ids.len() == i,
                forall|j: int|
                    0 <= j < i ==> ids@[j] == (next + size_each(
                        #[trigger] ts.subrange(0, j),
                    )) as u64,
            decreases nodes.len() - i,
        {
            proof {
                assert(ts.subrange(0, i + 1).drop_last() =~= ts.subrange(0, i as int));
                size_of_prefix(ts, i + 1);
                assert(ts[i as int] == tree_of(nodes@[i as int]));
            }
            z = z.plus(S::of_int(1));
            ids.push(at);
            at = self.scene.plant(&nodes[i], None, z, offset, at);
            i += 1;
        }
        assert(ts.subrange(0, i as int) =~= ts);
        self.selection = ids;
        assert(self.selection@ =~= root_ids(ts, next));
    }

    /// Pastes SVG text: its shapes land offset, stacked above everything, and selected.
    pub fn paste_text(&mut self, text: &str)
        requires
            old(self).wf(),
            room_for(old(self)@.rows, parsed::<S>(text@)),
        ensures
            final(self).wf(),
            final(self)@ == pasted(old(self)@, text@),
    {
        let chars = chars_of(text);
        let nodes = svg_parse::<S>(chars.as_slice());
        assert(parsed::<S>(text@).len() == nodes.len());
        if nodes.len() == 0 {
            return ;
        }
        let offset = self.next_offset(text);
        self.plant_all(&nodes, offset);
        self.last_paste = Some((text.to_owned(), offset));
    }

    /// Copies the selection onto itself, and selects the copies; returns whether it did.
    pub fn copy_in_place(&mut self) -> (r: bool)
        requires
            old(self).wf(),
        ensures
            final(self).wf(),
            final(self)@ == copied_in_place(old(self)@),
            r == (copies(old(self)@).len() > 0),
    {
        match self.selection_to_svg() {
            None => false,
            Some(text) => {
                let chars = chars_of(text.as_str());
                let nodes = svg_parse::<S>(chars.as_slice());
                assert(parsed::<S>(text@).len() == nodes.len());
                if nodes.len() > 0 && self.has_room(text.as_str()) {
                    self.plant_all(&nodes, S::of_int(0));
                    true
                } else {
                    false
                }
            },
        }
    }

    /// Duplicates the selection beside itself, through the text a copy would make.
    pub fn duplicate_selection(&mut self) -> (r: bool)
        requires
            old(self).wf(),
        ensures
            final(self).wf(),
            match selection_svg(old(self)@.rows, old(self)@.selection) {
                Some(text) => if room_for(old(self)@.rows, parsed::<S>(text)) {
                    r && final(self)@ == pasted(old(self)@, text)
                } else {
                    !r && final(self)@ == old(self)@
                },
                None => r && final(self)@ == old(self)@,
            },
    {
        match self.selection_to_svg() {
            None => true,
            Some(text) => {
                if self.has_room(text.as_str()) {
                    self.paste_text(text.as_str());
                    true
                } else {
                    false
                }
            },
        }
    }

    /// Whether there are ids enough for what a text holds.
    pub fn has_room(&self, text: &str) -> (r: bool)
        ensures
            r == room_for(self@.rows, parsed::<S>(text@)),
    {
        let chars = chars_of(text);
        let nodes = svg_parse::<S>(chars.as_slice());
        let ghost ts = parsed::<S>(text@);
        assert(ts.len() == nodes.len());
        proof {
            parsed_size::<S>(text@);
            assert(text@.len() == chars.len());
        }
        let n: usize = node_count(&nodes);
        let top: u64 = self.scene.top_id();
        nodes.len() == 0 || top < u64::MAX - n as u64
    }

    /// The selection's text, and the selection deleted; nothing where there is no text.
    pub fn cut_selection_svg(&mut self) -> (r: Option<String>)
        requires
            old(self).wf(),
        ensures
            final(self).wf(),
            match selection_svg(old(self)@.rows, old(self)@.selection) {
                Some(text) => r matches Some(t) && t@ == text && final(self)@ == (EditorModel {
                    rows: removed_each(old(self)@.rows, old(self)@.selection),
                    selection: Seq::empty(),
                    ..old(self)@
                }),
                None => r is None && final(self)@ == old(self)@,
            },
    {
        match self.selection_to_svg() {
            None => None,
            Some(text) => {
                self.delete_selection();
                Some(text)
            },
        }
    }
}

/// Any tree comes to one node at least.
proof fn some_size<S>(ts: Seq<TreeModel<S>>)
    requires
        ts.len() > 0,
    ensures
        size_each(ts) > 0,
{
    assert(size(ts.last()) > 0);
}

} // verus!
