//! The layer order: moving nodes between groups, and up and down among their siblings.
//!
//! Order is fractional. A node that moves takes a `z` between its new neighbours, so that one
//! row is written; inside a group, siblings whose gap is spent are first renumbered.
use vstd::prelude::*;
use crate::node::{NodeKind, NodeModel};
use crate::ops::{count, count_spec, filter_step, Editor, EditorModel};
use crate::scalar::{half, ratio, Scalar};
use crate::scene::{
    children, first_index, has_row, lineage, peek, position, reach, written, Field, FieldModel,
    Scene,
};

verus! {

/// One line of the layer tree.
#[derive(Clone, Copy, Debug, PartialEq, Eq, Structural)]
pub struct Layer {
    pub id: u64,
    pub parent: Option<u64>,
    pub kind: NodeKind,
}

/// The lines of some siblings, each followed by those of its members, `steps` levels at most.
pub open spec fn layers_of_each<S: Scalar>(
    rows: Seq<NodeModel<S>>,
    parent: Option<u64>,
    ids: Seq<u64>,
    steps: nat,
) -> Seq<Layer>
    decreases steps, ids.len(),
{
    if steps == 0 || ids.len() == 0 {
        Seq::empty()
    } else {
        let id = ids.last();
        let kind = peek(rows, id).kind;
        layers_of_each(rows, parent, ids.drop_last(), steps) + seq![Layer { id, parent, kind }] + (
        if kind == NodeKind::Group {
            layers_of_each(rows, Some(id), children(rows, Some(id)), (steps - 1) as nat)
        } else {
            Seq::empty()
        })
    }
}

/// The layer tree, line by line: every node bottom to top, and a group before its members.
pub open spec fn layers<S: Scalar>(rows: Seq<NodeModel<S>>) -> Seq<Layer> {
    layers_of_each(rows, None, children(rows, None), reach(rows))
}

impl<S: Scalar> Scene<S> {
    /// The layer tree, line by line.
    pub fn layers(&self) -> (r: Vec<Layer>)
        requires
            self.wf(),
        ensures
            r@ == layers(self@.rows),
    {
        let mut out: Vec<Layer> = Vec::new();
        self.list_layers(None, self.nodes.len(), &mut out);
        assert(out@ =~= layers(self@.rows));
        out
    }

    /// Appends the lines under `parent`, descending `below` levels below its members at most.
    fn list_layers(&self, parent: Option<u64>, below: usize, out: &mut Vec<Layer>)
        requires
            self.wf(),
        ensures
            final(out)@ == old(out)@ + layers_of_each(
                self@.rows,
                parent,
                children(self@.rows, parent),
                below as nat + 1,
            ),
        decreases below,
    {
        let ghost start = out@;
        let ghost rows = self@.rows;
        let ids = self.children_of(parent);
        let steps: Ghost<nat> = Ghost(below as nat + 1);
        let mut i: usize = 0;
        assert(ids@.subrange(0, 0) =~= Seq::<u64>::empty());
        assert(out@ =~= start + layers_of_each(rows, parent, ids@.subrange(0, 0), steps@));
        while i < ids.len()
            invariant
                self.wf(),
                rows == self@.rows,
                ids@ == children(rows, parent),
                steps@ == below as nat + 1,
                i <= ids.len(),
                out@ == start + layers_of_each(rows, parent, ids@.subrange(0, i as int), steps@),
            decreases ids.len() - i,
        {
            let id = ids[i];
            let kind = self.kind(id);
            let ghost head = ids@.subrange(0, i + 1);
            let ghost before = layers_of_each(rows, parent, ids@.subrange(0, i as int), steps@);
            assert(head.drop_last() =~= ids@.subrange(0, i as int));
            assert(head.last() == id);
            out.push(Layer { id, parent, kind });
            assert(out@ =~= start + (before + seq![Layer { id, parent, kind }]));
            let ghost line = out@;
            let ghost inner = layers_of_each(
                rows,
                Some(id),
                children(rows, Some(id)),
                below as nat,
            );
            if let NodeKind::Group = kind {
                if below > 0 {
                    self.list_layers(Some(id), below - 1, out);
                }
                assert(out@ =~= line + inner);
            } else {
                assert(out@ =~= line + Seq::<Layer>::empty());
            }
            assert(out@ =~= start + layers_of_each(rows, parent, head, steps@));
            i += 1;
        }
        assert(ids@.subrange(0, i as int) =~= ids@);
    }
}

pub open spec fn differs_from(id: u64) -> spec_fn(u64) -> bool {
    |c: u64| c != id
}

/// `ids` without `id`.
pub open spec fn others(ids: Seq<u64>, id: u64) -> Seq<u64> {
    ids.filter(differs_from(id))
}

/// Where a node dropped at `index` comes to rest among the other children of its new parent.
/// `index` counts the children before the move, so a node dropped past its own old place
/// lands where it was aimed.
pub open spec fn drop_slot(before: Seq<u64>, id: u64, stays: bool, index: Option<int>) -> int {
    let old_at = if stays {
        first_index(before, id)
    } else {
        None
    };
    let rest = before.len() - if old_at is Some {
        1int
    } else {
        0
    };
    match index {
        None => rest,
        Some(i) => {
            let t = if old_at is Some && old_at->0 < i {
                i - 1
            } else {
                i
            };
            if t < rest {
                t
            } else {
                rest
            }
        },
    }
}

/// The `z` with which a top-level node rests at `at` among the other top-level nodes.
pub open spec fn resting_z<S: Scalar>(rows: Seq<NodeModel<S>>, rest: Seq<u64>, at: int) -> S {
    if rest.len() == 0 {
        S::of_int(1)
    } else if at == 0 {
        peek(rows, rest[0]).z.minus(S::of_int(1))
    } else if at >= rest.len() {
        peek(rows, rest[rest.len() - 1]).z.plus(S::of_int(1))
    } else {
        half(peek(rows, rest[at - 1]).z.plus(peek(rows, rest[at]).z))
    }
}

/// The rows after siblings were renumbered `1, 2, 3, ..` from the bottom.
pub open spec fn renumbered<S: Scalar>(rows: Seq<NodeModel<S>>, ids: Seq<u64>) -> Seq<NodeModel<S>>
    decreases ids.len(),
{
    if ids.len() == 0 {
        rows
    } else {
        written(
            renumbered(rows, ids.drop_last()),
            ids.last(),
            FieldModel::Z(count_spec::<S>(ids.len() as int)),
        )
    }
}

/// The rows after a member of `group` was put at `at` among the others: between its
/// neighbours, or past the end it is at. Where no number fits between the neighbours, the
/// others are renumbered first.
pub open spec fn rested_in_group<S: Scalar>(
    rows: Seq<NodeModel<S>>,
    group: u64,
    id: u64,
    at: int,
) -> Seq<NodeModel<S>> {
    let rest = others(children(rows, Some(group)), id);
    let i = if at < rest.len() {
        at
    } else {
        rest.len() as int
    };
    if rest.len() == 0 {
        written(rows, id, FieldModel::Z(S::of_int(1)))
    } else if i == rest.len() {
        written(rows, id, FieldModel::Z(peek(rows, rest[i - 1]).z.plus(S::of_int(1))))
    } else if i == 0 {
        written(rows, id, FieldModel::Z(peek(rows, rest[0]).z.minus(S::of_int(1))))
    } else {
        let a = peek(rows, rest[i - 1]).z;
        let b = peek(rows, rest[i]).z;
        let mid = a.plus(half(b.minus(a)));
        if a.below(mid) && mid.below(b) {
            written(rows, id, FieldModel::Z(mid))
        } else {
            written(
                renumbered(rows, rest),
                id,
                FieldModel::Z(count_spec::<S>(i).plus(ratio(1, 2))),
            )
        }
    }
}

/// Whether a node may move under a parent: only groups take members, and no node moves into
/// its own subtree.
pub open spec fn may_reparent<S: Scalar>(
    rows: Seq<NodeModel<S>>,
    id: u64,
    new_parent: Option<u64>,
) -> bool {
    &&& has_row(rows, id)
    &&& new_parent matches Some(p) ==> {
        &&& has_row(rows, p)
        &&& peek(rows, p).kind == NodeKind::Group
        &&& !lineage(rows, p).contains(id)
    }
}

/// The rows after a node moved under `new_parent` at `index`.
pub open spec fn reparented<S: Scalar>(
    rows: Seq<NodeModel<S>>,
    id: u64,
    new_parent: Option<u64>,
    index: Option<int>,
) -> Seq<NodeModel<S>> {
    if !may_reparent(rows, id, new_parent) {
        rows
    } else {
        let stays = peek(rows, id).parent == new_parent;
        let at = drop_slot(children(rows, new_parent), id, stays, index);
        let r = if stays {
            rows
        } else {
            written(rows, id, FieldModel::Parent(new_parent))
        };
        match new_parent {
            Some(p) => rested_in_group(r, p, id, at),
            None => written(
                r,
                id,
                FieldModel::Z(resting_z(r, others(children(r, None), id), at)),
            ),
        }
    }
}

/// The rows after each of `ids` moved to the top of the top level, in turn.
pub open spec fn surfaced_each<S: Scalar>(rows: Seq<NodeModel<S>>, ids: Seq<u64>) -> Seq<
    NodeModel<S>,
>
    decreases ids.len(),
{
    if ids.len() == 0 {
        rows
    } else {
        reparented(surfaced_each(rows, ids.drop_last()), ids.last(), None, None)
    }
}

/// Which of `ids` sit inside a group.
pub open spec fn grouped_among<S: Scalar>(rows: Seq<NodeModel<S>>, ids: Seq<u64>) -> Seq<u64> {
    ids.filter(|id: u64| peek(rows, id).parent is Some)
}

/// A step in the sibling order.
#[derive(Clone, Copy, Debug, PartialEq, Eq, Structural)]
pub enum Arrange {
    Up,
    Down,
    Top,
    Bottom,
}

/// The index that a node at `pos` of `len` siblings moves to; `None` where it is already
/// as far as the step goes.
pub open spec fn arrange_target(op: Arrange, pos: int, len: int) -> Option<int> {
    match op {
        Arrange::Up => if pos + 1 < len {
            Some(pos + 1)
        } else {
            None
        },
        Arrange::Down => if pos > 0 {
            Some(pos - 1)
        } else {
            None
        },
        Arrange::Top => if pos + 1 < len {
            Some(len - 1)
        } else {
            None
        },
        Arrange::Bottom => if pos > 0 {
            Some(0int)
        } else {
            None
        },
    }
}

/// The `z` of a top-level node that moves from `pos` to `target` among `sibs`.
pub open spec fn arranged_z<S: Scalar>(
    rows: Seq<NodeModel<S>>,
    sibs: Seq<u64>,
    pos: int,
    target: int,
) -> S {
    if target > pos {
        if target + 1 < sibs.len() {
            half(peek(rows, sibs[target]).z.plus(peek(rows, sibs[target + 1]).z))
        } else {
            peek(rows, sibs[target]).z.plus(S::of_int(1))
        }
    } else if target >= 1 {
        half(peek(rows, sibs[target]).z.plus(peek(rows, sibs[target - 1]).z))
    } else {
        peek(rows, sibs[0]).z.minus(S::of_int(1))
    }
}

/// The rows after one node took a step among its own siblings.
pub open spec fn arranged<S: Scalar>(rows: Seq<NodeModel<S>>, id: u64, op: Arrange) -> Seq<
    NodeModel<S>,
> {
    let parent = peek(rows, id).parent;
    let sibs = children(rows, parent);
    match first_index(sibs, id) {
        None => rows,
        Some(pos) => match arrange_target(op, pos, sibs.len() as int) {
            None => rows,
            Some(target) => match parent {
                Some(p) => rested_in_group(rows, p, id, target),
                None => written(rows, id, FieldModel::Z(arranged_z(rows, sibs, pos, target))),
            },
        },
    }
}

/// The rows after each of `ids` took the step, in turn.
pub open spec fn arranged_each<S: Scalar>(
    rows: Seq<NodeModel<S>>,
    ids: Seq<u64>,
    op: Arrange,
) -> Seq<NodeModel<S>>
    decreases ids.len(),
{
    if ids.len() == 0 {
        rows
    } else {
        arranged(arranged_each(rows, ids.drop_last(), op), ids.last(), op)
    }
}

pub open spec fn index_of(index: Option<usize>) -> Option<int> {
    match index {
        Some(i) => Some(i as int),
        None => None,
    }
}

/// Where a node dropped at `index` comes to rest.
fn drop_at(before: &[u64], id: u64, stays: bool, index: Option<usize>) -> (r: usize)
    ensures
        r == drop_slot(before@, id, stays, index_of(index)),
{
    let old_at = if stays {
        position(before, id)
    } else {
        None
    };
    let rest: usize = match old_at {
        Some(_) => before.len() - 1,
        None => before.len(),
    };
    match index {
        None => rest,
        Some(i) => {
            let t: usize = match old_at {
                Some(p) => if p < i {
                    i - 1
                } else {
                    i
                },
                None => i,
            };
            if t < rest {
                t
            } else {
                rest
            }
        },
    }
}

/// `ids` without `id`.
pub fn all_but(ids: &[u64], id: u64) -> (r: Vec<u64>)
    ensures
        r@ == others(ids@, id),
{
    let mut out: Vec<u64> = Vec::new();
    let mut i: usize = 0;
    let ghost keep = differs_from(id);
    proof {
        reveal(Seq::filter);
        assert(ids@.subrange(0, 0).filter(keep) =~= Seq::<u64>::empty());
    }
    while i < ids.len()
        invariant
            i <= ids.len(),
            keep == differs_from(id),
            out@ == ids@.subrange(0, i as int).filter(keep),
        decreases ids.len() - i,
    {
        proof {
            filter_step(ids@, keep, i as int);
        }
        if ids[i] != id {
            out.push(ids[i]);
        }
        i += 1;
    }
    assert(ids@.subrange(0, i as int) =~= ids@);
    out
}

impl<S: Scalar> Scene<S> {
    /// Renumbers siblings from the bottom.
    fn renumber(&mut self, ids: &[u64])
        requires
            old(self).wf(),
        ensures
            final(self).wf(),
            final(self)@.rows == renumbered(old(self)@.rows, ids@),
            final(self)@.background == old(self)@.background,
    {
        let ghost rows = self@.rows;
        let ghost background = self@.background;
        let mut i: usize = 0;
        assert(ids@.subrange(0, 0) =~= Seq::<u64>::empty());
        while i < ids.len()
            invariant
                self.wf(),
                i <= ids.len(),
                self@.rows == renumbered(rows, ids@.subrange(0, i as int)),
                self@.background == background,
            decreases ids.len() - i,
        {
            assert(ids@.subrange(0, i + 1).drop_last() =~= ids@.subrange(0, i as int));
            self.write(ids[i], Field::Z(count::<S>(i + 1)));
            i += 1;
        }
        assert(ids@.subrange(0, i as int) =~= ids@);
    }

    /// Puts a member of `group` at `at` among the others.
    pub fn rest_in_group(&mut self, group: u64, id: u64, at: usize)
        requires
            old(self).wf(),
        ensures
            final(self).wf(),
            final(self)@.rows == rested_in_group(old(self)@.rows, group, id, at as int),
            final(self)@.background == old(self)@.background,
    {
        let members = self.children_of(Some(group));
        let rest = all_but(members.as_slice(), id);
        let i: usize = if at < rest.len() {
            at
        } else {
            rest.len()
        };
        if rest.len() == 0 {
            self.write(id, Field::Z(S::of_int(1)));
        } else if i == rest.len() {
            let z = self.z(rest[i - 1]).plus(S::of_int(1));
            self.write(id, Field::Z(z));
        } else if i == 0 {
            let z = self.z(rest[0]).minus(S::of_int(1));
            self.write(id, Field::Z(z));
        } else {
            let a = self.z(rest[i - 1]);
            let b = self.z(rest[i]);
            let mid = a.plus(half(b.minus(a)));
            if a.below(mid) && mid.below(b) {
                self.write(id, Field::Z(mid));
            } else {
                self.renumber(rest.as_slice());
                self.write(id, Field::Z(count::<S>(i).plus(ratio(1, 2))));
            }
        }
    }

    /// The `z` with which a top-level node rests at `at` among the others.
    fn resting_z(&self, rest: &[u64], at: usize) -> (r: S)
        requires
            self.wf(),
        ensures
            r == resting_z(self@.rows, rest@, at as int),
    {
        if rest.len() == 0 {
            S::of_int(1)
        } else if at == 0 {
            self.z(rest[0]).minus(S::of_int(1))
        } else if at >= rest.len() {
            self.z(rest[rest.len() - 1]).plus(S::of_int(1))
        } else {
            half(self.z(rest[at - 1]).plus(self.z(rest[at])))
        }
    }

    /// Moves a node under `new_parent` (the top level for `None`) at `index` among its
    /// children, bottom to top, or on top of them for `None`.
    pub fn reparent(&mut self, id: u64, new_parent: Option<u64>, index: Option<usize>)
        requires
            old(self).wf(),
        ensures
            final(self).wf(),
            final(self)@.rows == reparented(
                old(self)@.rows,
                id,
                new_parent,
                index_of(index),
            ),
            final(self)@.background == old(self)@.background,
    {
        if self.find(id).is_none() {
            return ;
        }
        if let Some(p) = new_parent {
            match self.node_kind(p) {
                Some(NodeKind::Group) => {},
                _ => {
                    return ;
                },
            }
            if self.is_within(p, id) {
                return ;
            }
        }
        let stays = self.parent_of(id) == new_parent;
        let before = self.children_of(new_parent);
        let at = drop_at(before.as_slice(), id, stays, index);
        if !stays {
            self.write(id, Field::Parent(new_parent));
        }
        match new_parent {
            Some(p) => {
                self.rest_in_group(p, id, at);
            },
            None => {
                let roots = self.children_of(None);
                let rest = all_but(roots.as_slice(), id);
                let z = self.resting_z(rest.as_slice(), at);
                self.write(id, Field::Z(z));
            },
        }
    }

    /// Moves one node a step among its own siblings.
    pub fn arrange(&mut self, id: u64, op: Arrange)
        requires
            old(self).wf(),
        ensures
            final(self).wf(),
            final(self)@.rows == arranged(old(self)@.rows, id, op),
            final(self)@.background == old(self)@.background,
    {
        let parent = self.parent_of(id);
        let sibs = self.children_of(parent);
        let pos: usize = match position(sibs.as_slice(), id) {
            None => {
                return ;
            },
            Some(p) => p,
        };
        let last: usize = sibs.len() - 1;
        let target: usize = match op {
            Arrange::Up => if pos < last {
                pos + 1
            } else {
                return ;
            },
            Arrange::Down => if pos > 0 {
                pos - 1
            } else {
                return ;
            },
            Arrange::Top => if pos < last {
                last
            } else {
                return ;
            },
            Arrange::Bottom => if pos > 0 {
                0
            } else {
                return ;
            },
        };
        match parent {
            Some(p) => {
                self.rest_in_group(p, id, target);
            },
            None => {
                let z = if target > pos {
                    if target < last {
                        half(self.z(sibs[target]).plus(self.z(sibs[target + 1])))
                    } else {
                        self.z(sibs[target]).plus(S::of_int(1))
                    }
                } else if target >= 1 {
                    half(self.z(sibs[target]).plus(self.z(sibs[target - 1])))
                } else {
                    self.z(sibs[0]).minus(S::of_int(1))
                };
                self.write(id, Field::Z(z));
            },
        }
    }

    /// Which of `ids` sit inside a group.
    fn grouped_among(&self, ids: &[u64]) -> (r: Vec<u64>)
        requires
            self.wf(),
        ensures
            r@ == grouped_among(self@.rows, ids@),
    {
        let mut out: Vec<u64> = Vec::new();
        let mut i: usize = 0;
        let ghost keep = |id: u64| peek(self@.rows, id).parent is Some;
        proof {
            reveal(Seq::filter);
            assert(ids@.subrange(0, 0).filter(keep) =~= Seq::<u64>::empty());
        }
        while i < ids.len()
            invariant
                self.wf(),
                i <= ids.len(),
                keep == (|id: u64| peek(self@.rows, id).parent is Some),
                out@ == ids@.subrange(0, i as int).filter(keep),
            decreases ids.len() - i,
        {
            proof {
                filter_step(ids@, keep, i as int);
            }
            if self.parent_of(ids[i]).is_some() {
                out.push(ids[i]);
            }
            i += 1;
        }
        assert(ids@.subrange(0, i as int) =~= ids@);
        out
    }
}

impl<S: Scalar> Editor<S> {
    /// Moves every selected node that sits inside a group out to the top level: on top, in
    /// selection order.
    pub fn remove_selection_from_group(&mut self)
        requires
            old(self).wf(),
        ensures
            final(self).wf(),
            final(self)@ == (EditorModel {
                rows: surfaced_each(
                    old(self)@.rows,
                    grouped_among(old(self)@.rows, old(self)@.selection),
                ),
                ..old(self)@
            }),
    {
        let ghost start = self@;
        let ids = self.scene.grouped_among(self.selection.as_slice());
        let mut i: usize = 0;
        assert(ids@.subrange(0, 0) =~= Seq::<u64>::empty());
        while i < ids.len()
            invariant
                self.wf(),
                i <= ids.len(),
                self@ == (EditorModel {
                    rows: surfaced_each(start.rows, ids@.subrange(0, i as int)),
                    ..start
                }),
            decreases ids.len() - i,
        {
            assert(ids@.subrange(0, i + 1).drop_last() =~= ids@.subrange(0, i as int));
            self.scene.reparent(ids[i], None, None);
            i += 1;
        }
        assert(ids@.subrange(0, i as int) =~= ids@);
    }

    /// Moves every selected node a step among its own siblings.
    pub fn arrange_selection(&mut self, op: Arrange)
        requires
            old(self).wf(),
        ensures
            final(self).wf(),
            final(self)@ == (EditorModel {
                rows: arranged_each(old(self)@.rows, old(self)@.selection, op),
                ..old(self)@
            }),
    {
        let ghost start = self@;
        let mut i: usize = 0;
        assert(start.selection.subrange(0, 0) =~= Seq::<u64>::empty());
        while i < self.selection.len()
            invariant
                self.wf(),
                i <= self.selection.len(),
                self@ == (EditorModel {
                    rows: arranged_each(start.rows, start.selection.subrange(0, i as int), op),
                    ..start
                }),
            decreases self.selection.len() - i,
        {
            assert(start.selection.subrange(0, i + 1).drop_last() =~= start.selection.subrange(
                0,
                i as int,
            ));
            let id = self.selection[i];
            self.scene.arrange(id, op);
            i += 1;
        }
        assert(start.selection.subrange(0, i as int) =~= start.selection);
    }
}

} // verus!
