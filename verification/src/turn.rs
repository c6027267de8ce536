//! Turns: what an operation changed, as the least edits that do it and undo it.
//!
//! An operation edits the drawing directly. What it did is read off by comparing the drawing
//! before with the drawing after: rows that went, columns that changed, rows that came, and the
//! paper. Carrying the edits out in order redoes the turn; taking them back in reverse order
//! undoes it. A turn without edits is none.
use vstd::prelude::*;
use crate::images::same_bytes;
use crate::node::{Node, NodeModel};
use crate::scalar::Scalar;
use crate::scene::{has_row, peek, slot, slot_is_unique, with_field, Field, FieldModel, Scene};

verus! {

/// One edit of a turn.
pub enum Edit<S> {
    Insert(Node<S>),
    Delete(Node<S>),
    /// One column of one row, with what it was and what it is.
    Write { id: u64, was: Field<S>, now: Field<S> },
    Background { old_paper: String, new_paper: String },
}

/// What an [`Edit`] holds, as values.
pub ghost enum EditModel<S> {
    Insert(NodeModel<S>),
    Delete(NodeModel<S>),
    Write { id: u64, was: FieldModel<S>, now: FieldModel<S> },
    Background { old_paper: Seq<char>, new_paper: Seq<char> },
}

impl<S> View for Edit<S> {
    type V = EditModel<S>;

    open spec fn view(&self) -> EditModel<S> {
        match self {
            Edit::Insert(n) => EditModel::Insert(n@),
            Edit::Delete(n) => EditModel::Delete(n@),
            Edit::Write { id, was, now } => EditModel::Write { id: *id, was: was@, now: now@ },
            Edit::Background { old_paper, new_paper } => EditModel::Background {
                old_paper: old_paper@,
                new_paper: new_paper@,
            },
        }
    }
}

pub open spec fn edits_of<S>(edits: Seq<Edit<S>>) -> Seq<EditModel<S>> {
    Seq::new(edits.len(), |i: int| edits[i]@)
}

/// A drawing as its rows by id, in no order, and its paper.
pub ghost struct DocModel<S> {
    pub table: Map<u64, NodeModel<S>>,
    pub background: Seq<char>,
}

/// The rows of a drawing by id.
pub open spec fn table_of<S: Scalar>(rows: Seq<NodeModel<S>>) -> Map<u64, NodeModel<S>> {
    Map::new(|id: u64| has_row(rows, id), |id: u64| peek(rows, id))
}

pub open spec fn doc_of<S: Scalar>(s: Scene<S>) -> DocModel<S> {
    DocModel { table: table_of(s@.rows), background: s@.background }
}

/// A drawing after one edit was carried out.
pub open spec fn done<S>(d: DocModel<S>, e: EditModel<S>) -> DocModel<S> {
    match e {
        EditModel::Insert(n) => DocModel { table: d.table.insert(n.id, n), ..d },
        EditModel::Delete(n) => DocModel { table: d.table.remove(n.id), ..d },
        EditModel::Write { id, was, now } => DocModel {
            table: d.table.insert(id, with_field(d.table[id], now)),
            ..d
        },
        EditModel::Background { old_paper, new_paper } => DocModel { background: new_paper, ..d },
    }
}

/// A drawing after one edit was taken back.
pub open spec fn undone<S>(d: DocModel<S>, e: EditModel<S>) -> DocModel<S> {
    match e {
        EditModel::Insert(n) => DocModel { table: d.table.remove(n.id), ..d },
        EditModel::Delete(n) => DocModel { table: d.table.insert(n.id, n), ..d },
        EditModel::Write { id, was, now } => DocModel {
            table: d.table.insert(id, with_field(d.table[id], was)),
            ..d
        },
        EditModel::Background { old_paper, new_paper } => DocModel { background: old_paper, ..d },
    }
}

/// A drawing after all edits were carried out, in order.
pub open spec fn done_each<S>(d: DocModel<S>, edits: Seq<EditModel<S>>) -> DocModel<S>
    decreases edits.len(),
{
    if edits.len() == 0 {
        d
    } else {
        done(done_each(d, edits.drop_last()), edits.last())
    }
}

/// A drawing after all edits were taken back, the last first.
pub open spec fn undone_each<S>(d: DocModel<S>, edits: Seq<EditModel<S>>) -> DocModel<S>
    decreases edits.len(),
{
    if edits.len() == 0 {
        d
    } else {
        undone_each(undone(d, edits.last()), edits.drop_last())
    }
}

/// Whether an edit changes anything: a row that was not there, one that is no longer, or a
/// column or a paper that differs.
pub open spec fn telling<S: Scalar>(
    e: EditModel<S>,
    before: DocModel<S>,
    after: DocModel<S>,
) -> bool {
    match e {
        EditModel::Insert(n) => !before.table.contains_key(n.id) && after.table.contains_key(n.id)
            && after.table[n.id] == n,
        EditModel::Delete(n) => !after.table.contains_key(n.id) && before.table.contains_key(n.id)
            && before.table[n.id] == n,
        EditModel::Write { id, was, now } => was != now && before.table.contains_key(id)
            && after.table.contains_key(id) && exists|k: int|
            #![trigger column_spec(before.table[id], k)]
            0 <= k < 15 && was == column_spec(before.table[id], k) && now == column_spec(
                after.table[id],
                k,
            ),
        EditModel::Background { old_paper, new_paper } => old_paper != new_paper
            && before.background == old_paper && after.background == new_paper,
    }
}

// ---------------------------------------------------------------------------
// Columns
// ---------------------------------------------------------------------------

/// The columns of a row, counted.
pub open spec fn column_spec<S>(n: NodeModel<S>, k: int) -> FieldModel<S> {
    if k == 0 {
        FieldModel::Parent(n.parent)
    } else if k == 1 {
        FieldModel::Z(n.z)
    } else if k == 2 {
        FieldModel::Kind(n.kind)
    } else if k == 3 {
        FieldModel::X(n.x)
    } else if k == 4 {
        FieldModel::Y(n.y)
    } else if k == 5 {
        FieldModel::W(n.w)
    } else if k == 6 {
        FieldModel::H(n.h)
    } else if k == 7 {
        FieldModel::Fill(n.fill)
    } else if k == 8 {
        FieldModel::FillOpacity(n.fill_opacity)
    } else if k == 9 {
        FieldModel::Stroke(n.stroke)
    } else if k == 10 {
        FieldModel::StrokeWidth(n.stroke_width)
    } else if k == 11 {
        FieldModel::StrokeOpacity(n.stroke_opacity)
    } else if k == 12 {
        FieldModel::Rotation(n.rotation)
    } else if k == 13 {
        FieldModel::CornerRadius(n.corner_radius)
    } else {
        FieldModel::ImageBytes(n.image_bytes)
    }
}

/// A row whose first `k` columns are those of `b`, the others those of `a`.
spec fn merged<S>(a: NodeModel<S>, b: NodeModel<S>, k: int) -> NodeModel<S> {
    NodeModel {
        id: a.id,
        parent: if k > 0 {
            b.parent
        } else {
            a.parent
        },
        z: if k > 1 {
            b.z
        } else {
            a.z
        },
        kind: if k > 2 {
            b.kind
        } else {
            a.kind
        },
        x: if k > 3 {
            b.x
        } else {
            a.x
        },
        y: if k > 4 {
            b.y
        } else {
            a.y
        },
        w: if k > 5 {
            b.w
        } else {
            a.w
        },
        h: if k > 6 {
            b.h
        } else {
            a.h
        },
        fill: if k > 7 {
            b.fill
        } else {
            a.fill
        },
        fill_opacity: if k > 8 {
            b.fill_opacity
        } else {
            a.fill_opacity
        },
        stroke: if k > 9 {
            b.stroke
        } else {
            a.stroke
        },
        stroke_width: if k > 10 {
            b.stroke_width
        } else {
            a.stroke_width
        },
        stroke_opacity: if k > 11 {
            b.stroke_opacity
        } else {
            a.stroke_opacity
        },
        rotation: if k > 12 {
            b.rotation
        } else {
            a.rotation
        },
        corner_radius: if k > 13 {
            b.corner_radius
        } else {
            a.corner_radius
        },
        image_bytes: if k > 14 {
            b.image_bytes
        } else {
            a.image_bytes
        },
    }
}

proof fn merging_one_more<S>(a: NodeModel<S>, b: NodeModel<S>, k: int)
    requires
        0 <= k < 15,
    ensures
        merged(a, b, k + 1) == with_field(merged(a, b, k), column_spec(b, k)),
        with_field(merged(a, b, k + 1), column_spec(a, k)) == merged(a, b, k),
        column_spec(a, k) == column_spec(b, k) ==> merged(a, b, k + 1) == merged(a, b, k),
        with_field(a, column_spec(a, k)) == a,
        with_field(b, column_spec(b, k)) == b,
{
}

impl<S: Scalar> Node<S> {
    /// One column of the row.
    fn column(&self, k: usize) -> (r: Field<S>)
        ensures
            r@ == column_spec(self@, k as int),
    {
        match k {
            0 => Field::Parent(self.parent),
            1 => Field::Z(self.z),
            2 => Field::Kind(self.kind),
            3 => Field::X(self.x),
            4 => Field::Y(self.y),
            5 => Field::W(self.w),
            6 => Field::H(self.h),
            7 => Field::Fill(self.fill.clone()),
            8 => Field::FillOpacity(self.fill_opacity),
            9 => Field::Stroke(self.stroke.clone()),
            10 => Field::StrokeWidth(self.stroke_width),
            11 => Field::StrokeOpacity(self.stroke_opacity),
            12 => Field::Rotation(self.rotation),
            13 => Field::CornerRadius(self.corner_radius),
            _ => {
                let bytes = self.image_bytes.clone();
                assert(bytes@ =~= self.image_bytes@);
                Field::ImageBytes(bytes)
            },
        }
    }

    /// Whether two rows agree on a column.
    fn agrees_on(&self, other: &Node<S>, k: usize) -> (r: bool)
        ensures
            r == (column_spec(self@, k as int) == column_spec(other@, k as int)),
    {
        match k {
            0 => self.parent == other.parent,
            1 => self.z.same(other.z),
            2 => self.kind == other.kind,
            3 => self.x.same(other.x),
            4 => self.y.same(other.y),
            5 => self.w.same(other.w),
            6 => self.h.same(other.h),
            7 => self.fill == other.fill,
            8 => self.fill_opacity.same(other.fill_opacity),
            9 => self.stroke == other.stroke,
            10 => self.stroke_width.same(other.stroke_width),
            11 => self.stroke_opacity.same(other.stroke_opacity),
            12 => self.rotation.same(other.rotation),
            13 => self.corner_radius.same(other.corner_radius),
            _ => same_bytes(&self.image_bytes, &other.image_bytes),
        }
    }
}

// ---------------------------------------------------------------------------
// Comparing
// ---------------------------------------------------------------------------

/// The edits so far lead from `start` to `now`, and back.
spec fn leads<S>(start: DocModel<S>, edits: Seq<EditModel<S>>, now: DocModel<S>) -> bool {
    done_each(start, edits) == now && undone_each(now, edits) == start
}

proof fn led_further<S>(
    start: DocModel<S>,
    edits: Seq<EditModel<S>>,
    now: DocModel<S>,
    e: EditModel<S>,
)
    requires
        leads(start, edits, now),
        undone(done(now, e), e) == now,
    ensures
        leads(start, edits.push(e), done(now, e)),
{
    assert(edits.push(e).drop_last() =~= edits);
}

fn put<S: Scalar>(out: &mut Vec<Edit<S>>, e: Edit<S>)
    ensures
        edits_of(final(out)@) == edits_of(old(out)@).push(e@),
{
    let ghost before = out@;
    out.push(e);
    assert(edits_of(out@) =~= edits_of(before).push(e@));
}

/// Whether every edit is a change from `a` to `b`.
spec fn all_telling<S: Scalar>(edits: Seq<EditModel<S>>, a: DocModel<S>, b: DocModel<S>) -> bool {
    forall|i: int| 0 <= i < edits.len() ==> telling(#[trigger] edits[i], a, b)
}

proof fn telling_further<S: Scalar>(
    edits: Seq<EditModel<S>>,
    e: EditModel<S>,
    a: DocModel<S>,
    b: DocModel<S>,
)
    requires
        all_telling(edits, a, b),
        telling(e, a, b),
    ensures
        all_telling(edits.push(e), a, b),
{
    assert forall|i: int| 0 <= i < edits.push(e).len() implies telling(
        #[trigger] edits.push(e)[i],
        a,
        b,
    ) by {
        if i < edits.len() {
            assert(edits.push(e)[i] == edits[i]);
        }
    }
}

/// The column that a value belongs in.
spec fn column_index<S>(f: FieldModel<S>) -> int {
    match f {
        FieldModel::Parent(_) => 0,
        FieldModel::Z(_) => 1,
        FieldModel::Kind(_) => 2,
        FieldModel::X(_) => 3,
        FieldModel::Y(_) => 4,
        FieldModel::W(_) => 5,
        FieldModel::H(_) => 6,
        FieldModel::Fill(_) => 7,
        FieldModel::FillOpacity(_) => 8,
        FieldModel::Stroke(_) => 9,
        FieldModel::StrokeWidth(_) => 10,
        FieldModel::StrokeOpacity(_) => 11,
        FieldModel::Rotation(_) => 12,
        FieldModel::CornerRadius(_) => 13,
        FieldModel::ImageBytes(_) => 14,
    }
}

/// When an edit comes: deletions, columns, insertions and the paper, each by row and column.
spec fn turn_place<S>(
    e: EditModel<S>,
    before: Seq<NodeModel<S>>,
    after: Seq<NodeModel<S>>,
) -> (int, int, int) {
    match e {
        EditModel::Delete(n) => (0, slot(before, n.id), 0),
        EditModel::Write { id, was, now } => (1, slot(after, id), column_index(now)),
        EditModel::Insert(n) => (2, slot(after, n.id), 0),
        EditModel::Background { old_paper, new_paper } => (3, 0, 0),
    }
}

spec fn earlier(a: (int, int, int), b: (int, int, int)) -> bool {
    a.0 < b.0 || (a.0 == b.0 && (a.1 < b.1 || (a.1 == b.1 && a.2 < b.2)))
}

/// Whether all edits come before `bound`, and none comes twice.
spec fn lined_up<S>(
    edits: Seq<EditModel<S>>,
    before: Seq<NodeModel<S>>,
    after: Seq<NodeModel<S>>,
    bound: (int, int, int),
) -> bool {
    &&& edits.no_duplicates()
    &&& forall|i: int|
        0 <= i < edits.len() ==> earlier(turn_place(#[trigger] edits[i], before, after), bound)
}

/// One more edit, past all others, is none of them.
proof fn lined_further<S>(
    edits: Seq<EditModel<S>>,
    e: EditModel<S>,
    before: Seq<NodeModel<S>>,
    after: Seq<NodeModel<S>>,
    bound: (int, int, int),
    next: (int, int, int),
)
    requires
        lined_up(edits, before, after, bound),
        !earlier(turn_place(e, before, after), bound),
        earlier(turn_place(e, before, after), next),
    ensures
        lined_up(edits.push(e), before, after, next),
{
    let w = edits.push(e);
    assert forall|i: int| 0 <= i < w.len() implies earlier(
        turn_place(#[trigger] w[i], before, after),
        next,
    ) by {
        if i < edits.len() {
            assert(w[i] == edits[i]);
        }
    }
    assert forall|i: int, j: int| 0 <= i < w.len() && 0 <= j < w.len() && i != j implies w[i]
        != w[j] by {
        if i < edits.len() {
            assert(w[i] == edits[i]);
            assert(earlier(turn_place(edits[i], before, after), bound));
        }
        if j < edits.len() {
            assert(w[j] == edits[j]);
            assert(earlier(turn_place(edits[j], before, after), bound));
        }
    }
}

/// The table while the first `n` rows of `before` have been looked at for deletion.
spec fn deleted_to<S: Scalar>(
    before: Seq<NodeModel<S>>,
    after: Seq<NodeModel<S>>,
    n: int,
) -> Map<u64, NodeModel<S>> {
    Map::new(
        |id: u64| has_row(before, id) && (has_row(after, id) || slot(before, id) >= n),
        |id: u64| peek(before, id),
    )
}

/// The table while the first `n` rows of `after` have been looked at for changes.
spec fn changed_to<S: Scalar>(
    before: Seq<NodeModel<S>>,
    after: Seq<NodeModel<S>>,
    n: int,
) -> Map<u64, NodeModel<S>> {
    Map::new(
        |id: u64| has_row(before, id) && has_row(after, id),
        |id: u64|
            if slot(after, id) < n {
                peek(after, id)
            } else {
                peek(before, id)
            },
    )
}

/// The table while the first `n` rows of `after` have been looked at for insertion.
spec fn inserted_to<S: Scalar>(
    before: Seq<NodeModel<S>>,
    after: Seq<NodeModel<S>>,
    n: int,
) -> Map<u64, NodeModel<S>> {
    Map::new(
        |id: u64| has_row(after, id) && (has_row(before, id) || slot(after, id) < n),
        |id: u64| peek(after, id),
    )
}

impl<S: Scalar> Scene<S> {
    /// Appends the edits that take the row `id` of `self` to `b`.
    fn diff_row(
        &self,
        other: &Scene<S>,
        i: usize,
        at: usize,
        out: &mut Vec<Edit<S>>,
        Ghost(start): Ghost<DocModel<S>>,
        Ghost(now): Ghost<DocModel<S>>,
    )
        requires
            self.wf(),
            other.wf(),
            i < self.nodes.len(),
            at < other.nodes.len(),
            self.nodes@[i as int].id == other.nodes@[at as int].id,
            leads(start, edits_of(old(out)@), now),
            now.table.contains_key(self.nodes@[i as int].id),
            now.table[self.nodes@[i as int].id] == self.nodes@[i as int]@,
            all_telling(edits_of(old(out)@), doc_of(*self), doc_of(*other)),
            lined_up(edits_of(old(out)@), self@.rows, other@.rows, (1, at as int, 0)),
        ensures
            leads(
                start,
                edits_of(final(out)@),
                DocModel {
                    table: now.table.insert(
                        self.nodes@[i as int].id,
                        other.nodes@[at as int]@,
                    ),
                    ..now
                },
            ),
            all_telling(edits_of(final(out)@), doc_of(*self), doc_of(*other)),
            lined_up(edits_of(final(out)@), self@.rows, other@.rows, (1, at + 1, 0)),
    {
        let a = &self.nodes[i];
        let b = &other.nodes[at];
        let id = a.id;
        let ghost mut cur = now;
        proof {
            slot_is_unique(self@.rows, i as int);
            slot_is_unique(other@.rows, at as int);
            assert(merged(a@, b@, 0) == a@);
            assert(now.table.insert(id, merged(a@, b@, 0)) =~= now.table);
        }
        let mut k: usize = 0;
        while k < 15
            invariant
                k <= 15,
                id == a.id,
                a.id == b.id,
                cur.table =~= now.table.insert(id, merged(a@, b@, k as int)),
                cur.background == now.background,
                leads(start, edits_of(out@), cur),
                all_telling(edits_of(out@), doc_of(*self), doc_of(*other)),
                doc_of(*self).table.contains_key(id),
                doc_of(*self).table[id] == a@,
                doc_of(*other).table.contains_key(id),
                doc_of(*other).table[id] == b@,
                slot(other@.rows, id) == at,
                lined_up(edits_of(out@), self@.rows, other@.rows, (1, at as int, k as int)),
            decreases 15 - k,
        {
            proof {
                merging_one_more(a@, b@, k as int);
            }
            if !a.agrees_on(b, k) {
                let e = Edit::Write { id, was: a.column(k), now: b.column(k) };
                proof {
                    let next = done(cur, e@);
                    assert(next.table =~= now.table.insert(id, merged(a@, b@, k + 1)));
                    assert(undone(next, e@).table =~= cur.table);
                    led_further(start, edits_of(out@), cur, e@);
                    assert(column_spec(doc_of(*self).table[id], k as int) == e@->was);
                    telling_further(edits_of(out@), e@, doc_of(*self), doc_of(*other));
                    lined_further(
                        edits_of(out@),
                        e@,
                        self@.rows,
                        other@.rows,
                        (1, at as int, k as int),
                        (1, at as int, k + 1),
                    );
                    cur = next;
                }
                put(out, e);
            }
            k += 1;
        }
        assert(merged(a@, b@, 15) == b@);
        assert(cur.table =~= now.table.insert(id, b@));
    }

    /// What a turn changed: the edits that lead from this drawing to `after`, and back.
    ///
    /// Carried out in order they give `after`; taken back in reverse order they give this
    /// drawing again. Every one of them changes something, and none comes twice, so a turn that
    /// changed nothing has none.
    pub fn edits(&self, after: &Scene<S>) -> (out: Vec<Edit<S>>)
        requires
            self.wf(),
            after.wf(),
        ensures
            done_each(doc_of(*self), edits_of(out@)) == doc_of(*after),
            undone_each(doc_of(*after), edits_of(out@)) == doc_of(*self),
            out.len() == 0 <==> doc_of(*self) == doc_of(*after),
            edits_of(out@).no_duplicates(),
            forall|i: int|
                0 <= i < out.len() ==> telling(
                    (#[trigger] out@[i])@,
                    doc_of(*self),
                    doc_of(*after),
                ),
    {
        let ghost from = self@.rows;
        let ghost to = after@.rows;
        let ghost start = doc_of(*self);
        let ghost goal = doc_of(*after);
        let ghost mut cur = start;
        let mut out: Vec<Edit<S>> = Vec::new();
        assert(edits_of(out@) =~= Seq::<EditModel<S>>::empty());
        let mut i: usize = 0;
        assert(cur.table =~= deleted_to(from, to, 0)) by {
            assert forall|id: u64| has_row(from, id) implies slot(from, id) >= 0 by {}
        }
        while i < self.nodes.len()
            invariant
                self.wf(),
                after.wf(),
                from == self@.rows,
                to == after@.rows,
                start == doc_of(*self),
                goal == doc_of(*after),
                i <= self.nodes.len(),
                cur.table == deleted_to(from, to, i as int),
                cur.background == start.background,
                leads(start, edits_of(out@), cur),
                all_telling(edits_of(out@), start, goal),
                lined_up(edits_of(out@), from, to, (0, i as int, 0)),
            decreases self.nodes.len() - i,
        {
            let id = self.nodes[i].id;
            proof {
                slot_is_unique(from, i as int);
            }
            if after.find(id).is_none() {
                let e = Edit::Delete(self.nodes[i].replica());
                proof {
                    let next = done(cur, e@);
                    assert(next.table =~= deleted_to(from, to, i + 1)) by {
                        slots_differ(from, i as int);
                    }
                    assert(undone(next, e@).table =~= cur.table);
                    led_further(start, edits_of(out@), cur, e@);
                    telling_further(edits_of(out@), e@, start, goal);
                    lined_further(edits_of(out@), e@, from, to, (0, i as int, 0), (0, i + 1, 0));
                    cur = next;
                }
                put(&mut out, e);
            } else {
                assert(cur.table =~= deleted_to(from, to, i + 1)) by {
                    slots_differ(from, i as int);
                }
            }
            i += 1;
        }
        let mut k: usize = 0;
        assert(cur.table =~= changed_to(from, to, 0)) by {
            assert forall|id: u64| has_row(from, id) implies slot(from, id) < i by {}
            assert forall|id: u64| has_row(to, id) implies slot(to, id) >= 0 by {}
        }
        while k < after.nodes.len()
            invariant
                self.wf(),
                after.wf(),
                from == self@.rows,
                to == after@.rows,
                start == doc_of(*self),
                goal == doc_of(*after),
                k <= after.nodes.len(),
                cur.table == changed_to(from, to, k as int),
                cur.background == start.background,
                leads(start, edits_of(out@), cur),
                all_telling(edits_of(out@), start, goal),
                lined_up(edits_of(out@), from, to, (1, k as int, 0)),
            decreases after.nodes.len() - k,
        {
            proof {
                slot_is_unique(to, k as int);
                slots_differ(to, k as int);
            }
            let id = after.nodes[k].id;
            match self.find(id) {
                Some(at) => {
                    self.diff_row(after, at, k, &mut out, Ghost(start), Ghost(cur));
                    proof {
                        cur = DocModel { table: cur.table.insert(id, to[k as int]), ..cur };
                        assert(cur.table =~= changed_to(from, to, k + 1));
                    }
                },
                None => {
                    assert(cur.table =~= changed_to(from, to, k + 1));
                },
            }
            k += 1;
        }
        let mut j: usize = 0;
        assert(cur.table =~= inserted_to(from, to, 0)) by {
            assert forall|id: u64| has_row(to, id) implies 0 <= slot(to, id) < k by {}
        }
        while j < after.nodes.len()
            invariant
                self.wf(),
                after.wf(),
                from == self@.rows,
                to == after@.rows,
                start == doc_of(*self),
                goal == doc_of(*after),
                j <= after.nodes.len(),
                cur.table == inserted_to(from, to, j as int),
                cur.background == start.background,
                leads(start, edits_of(out@), cur),
                all_telling(edits_of(out@), start, goal),
                lined_up(edits_of(out@), from, to, (2, j as int, 0)),
            decreases after.nodes.len() - j,
        {
            proof {
                slot_is_unique(to, j as int);
                slots_differ(to, j as int);
            }
            let id = after.nodes[j].id;
            if self.find(id).is_none() {
                let e = Edit::Insert(after.nodes[j].replica());
                proof {
                    let next = done(cur, e@);
                    assert(next.table =~= inserted_to(from, to, j + 1));
                    lined_further(edits_of(out@), e@, from, to, (2, j as int, 0), (2, j + 1, 0));
                    assert(undone(next, e@).table =~= cur.table);
                    led_further(start, edits_of(out@), cur, e@);
                    telling_further(edits_of(out@), e@, start, goal);
                    cur = next;
                }
                put(&mut out, e);
            } else {
                assert(cur.table =~= inserted_to(from, to, j + 1));
            }
            j += 1;
        }
        assert(cur.table =~= goal.table) by {
            assert forall|id: u64| has_row(to, id) implies slot(to, id) < j by {}
        }
        if self.background != after.background {
            let e = Edit::Background {
                old_paper: self.background.clone(),
                new_paper: after.background.clone(),
            };
            proof {
                led_further(start, edits_of(out@), cur, e@);
                telling_further(edits_of(out@), e@, start, goal);
                lined_further(edits_of(out@), e@, from, to, (2, j as int, 0), (4, 0, 0));
                cur = done(cur, e@);
            }
            put(&mut out, e);
        }
        proof {
            assert(cur == goal);
            if out.len() > 0 {
                let e = edits_of(out@)[0];
                assert(telling(e, start, goal));
                if start == goal {
                    telling_means_change(e, start);
                }
            }
            assert forall|n: int| 0 <= n < out.len() implies telling(
                (#[trigger] out@[n])@,
                start,
                goal,
            ) by {
                assert(edits_of(out@)[n] == out@[n]@);
            }
        }
        out
    }
}

/// No edit tells of a drawing that did not change.
proof fn telling_means_change<S: Scalar>(e: EditModel<S>, d: DocModel<S>)
    ensures
        !telling(e, d, d),
{
}

/// A slot belongs to one id alone.
proof fn slots_differ<S>(rows: Seq<NodeModel<S>>, i: int)
    requires
        0 <= i < rows.len(),
    ensures
        forall|id: u64|
            has_row(rows, id) && id != rows[i].id ==> #[trigger] slot(rows, id) != i,
{
    assert forall|id: u64| has_row(rows, id) && id != rows[i].id implies #[trigger] slot(rows, id)
        != i by {
        let s = slot(rows, id);
        assert(rows[s].id == id);
    }
}

} // verus!
