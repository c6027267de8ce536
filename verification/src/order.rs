//! Laws of the layer order: siblings are stacked by `z`, a node lands where it is dropped, and
//! the order depends on what the rows hold, not on where they stand in the table.
use vstd::prelude::*;
use crate::layers::{
    arrange_target, arranged, arranged_z, differs_from, drop_slot, may_reparent, others,
    renumbered, reparented, rested_in_group, resting_z, Arrange,
};
use crate::node::NodeModel;
use crate::ops::{above_all, count_spec, top_z};
use crate::scalar::{half, numbers_rank, ratio, Scalar};
use crate::scene::{
    beneath, children, distinct, first_index, has_row, peek, placed, slot, slot_is_unique, stacked,
    with_field, written, FieldModel,
};
use crate::turn::table_of;

verus! {

// ---------------------------------------------------------------------------
// Stacks
// ---------------------------------------------------------------------------

/// Whether every entry is beneath every later one.
pub open spec fn stack_sorted<S: Scalar>(s: Seq<(S, u64)>) -> bool {
    forall|i: int, j: int|
        #![trigger s[i], s[j]]
        0 <= i < j < s.len() ==> beneath(s[i], s[j])
}

/// Whether a stack holds exactly the entries of the rows under a parent.
pub open spec fn stack_of<S: Scalar>(
    s: Seq<(S, u64)>,
    rows: Seq<NodeModel<S>>,
    parent: Option<u64>,
) -> bool {
    forall|e: (S, u64)|
        #![trigger s.contains(e)]
        s.contains(e) <==> has_row(rows, e.1) && peek(rows, e.1).parent == parent && e.0 == peek(
            rows,
            e.1,
        ).z
}

proof fn beneath_is_irreflexive<S: Scalar>(a: (S, u64))
    ensures
        !beneath(a, a),
{
    numbers_rank::<S>();
}

proof fn beneath_is_transitive<S: Scalar>(a: (S, u64), b: (S, u64), c: (S, u64))
    requires
        beneath(a, b),
        beneath(b, c),
    ensures
        beneath(a, c),
{
    numbers_rank::<S>();
    if !a.0.ranks_below(c.0) {
        assert(!(a.0.ranks_below(b.0) && b.0.ranks_below(c.0)));
        if c.0.ranks_below(a.0) {
            assert(c.0.ranks_below(b.0) || b.0.ranks_below(a.0));
        }
        if a.0.ranks_below(b.0) {
            assert(a.0.ranks_below(c.0) || c.0.ranks_below(b.0));
        }
        if b.0.ranks_below(c.0) {
            assert(b.0.ranks_below(a.0) || a.0.ranks_below(c.0));
        }
    }
}

proof fn beneath_is_asymmetric<S: Scalar>(a: (S, u64), b: (S, u64))
    requires
        beneath(a, b),
    ensures
        !beneath(b, a),
{
    if beneath(b, a) {
        beneath_is_transitive(a, b, a);
        beneath_is_irreflexive(a);
    }
}

proof fn beneath_is_total<S: Scalar>(a: (S, u64), b: (S, u64))
    requires
        a.1 != b.1,
    ensures
        beneath(a, b) || beneath(b, a),
{
}

/// What a placed entry's stack holds.
proof fn placed_holds<S: Scalar>(stack: Seq<(S, u64)>, e: (S, u64))
    ensures
        forall|x: (S, u64)| #[trigger]
            placed(stack, e).contains(x) <==> stack.contains(x) || x == e,
    decreases stack.len(),
{
    if stack.len() > 0 && beneath(e, stack.last()) {
        let front = stack.drop_last();
        placed_holds(front, e);
        let p = placed(front, e);
        assert forall|x: (S, u64)| #[trigger] placed(stack, e).contains(x) <==> stack.contains(x)
            || x == e by {
            pushed_holds(p, stack.last(), x);
            assert(front.push(stack.last()) =~= stack);
            pushed_holds(front, stack.last(), x);
            assert(p.contains(x) <==> front.contains(x) || x == e);
        }
    } else {
        assert forall|x: (S, u64)| #[trigger] placed(stack, e).contains(x) <==> stack.contains(x)
            || x == e by {
            pushed_holds(stack, e, x);
        }
    }
}

proof fn pushed_holds<A>(s: Seq<A>, last: A, x: A)
    ensures
        s.push(last).contains(x) <==> s.contains(x) || x == last,
{
    if s.contains(x) {
        let i = choose|i: int| 0 <= i < s.len() && s[i] == x;
        assert(s.push(last)[i] == x);
    }
    if x == last {
        assert(s.push(last)[s.len() as int] == x);
    }
    if s.push(last).contains(x) && x != last {
        let i = choose|i: int| 0 <= i < s.push(last).len() && s.push(last)[i] == x;
        assert(s[i] == x);
    }
}

proof fn placed_is_sorted<S: Scalar>(stack: Seq<(S, u64)>, e: (S, u64))
    requires
        stack_sorted(stack),
        forall|i: int| 0 <= i < stack.len() ==> (#[trigger] stack[i]).1 != e.1,
    ensures
        stack_sorted(placed(stack, e)),
    decreases stack.len(),
{
    if stack.len() > 0 && beneath(e, stack.last()) {
        let front = stack.drop_last();
        let last = stack.last();
        assert(stack_sorted(front)) by {
            assert forall|i: int, j: int|
                #![trigger front[i], front[j]]
                0 <= i < j < front.len() implies beneath(front[i], front[j]) by {
                assert(front[i] == stack[i] && front[j] == stack[j]);
            }
        }
        assert forall|i: int| 0 <= i < front.len() implies (#[trigger] front[i]).1 != e.1 by {
            assert(front[i] == stack[i]);
        }
        placed_is_sorted(front, e);
        placed_holds(front, e);
        let p = placed(front, e);
        let s = p.push(last);
        assert forall|i: int, j: int|
            #![trigger s[i], s[j]]
            0 <= i < j < s.len() implies beneath(s[i], s[j]) by {
            if j < p.len() {
                assert(s[i] == p[i] && s[j] == p[j]);
            } else {
                assert(s[i] == p[i] && s[j] == last);
                assert(p.contains(p[i]));
                if p[i] != e {
                    let k = choose|k: int| 0 <= k < front.len() && front[k] == p[i];
                    assert(front[k] == stack[k]);
                    assert(stack[stack.len() - 1] == last);
                }
            }
        }
    } else {
        let s = stack.push(e);
        assert forall|i: int, j: int|
            #![trigger s[i], s[j]]
            0 <= i < j < s.len() implies beneath(s[i], s[j]) by {
            if j < stack.len() {
                assert(s[i] == stack[i] && s[j] == stack[j]);
            } else {
                let top = stack[stack.len() - 1];
                beneath_is_total(top, e);
                assert(beneath(top, e));
                assert(s[i] == stack[i] && s[j] == e);
                if i < stack.len() - 1 {
                    beneath_is_transitive(stack[i], top, e);
                }
            }
        }
    }
}

proof fn front_is_distinct<S>(rows: Seq<NodeModel<S>>)
    requires
        distinct(rows),
        rows.len() > 0,
    ensures
        distinct(rows.drop_last()),
        !has_row(rows.drop_last(), rows.last().id),
{
    let front = rows.drop_last();
    assert forall|i: int, j: int|
        #![trigger front[i], front[j]]
        0 <= i < j < front.len() implies front[i].id != front[j].id by {
        assert(front[i] == rows[i] && front[j] == rows[j]);
    }
    if has_row(front, rows.last().id) {
        let s = slot(front, rows.last().id);
        assert(front[s] == rows[s]);
        assert(rows[rows.len() - 1] == rows.last());
    }
}

/// A row of the front is the same row of the whole.
proof fn front_peeks<S: Scalar>(rows: Seq<NodeModel<S>>, id: u64)
    requires
        distinct(rows),
        rows.len() > 0,
        id != rows.last().id,
    ensures
        has_row(rows, id) <==> has_row(rows.drop_last(), id),
        peek(rows, id) == peek(rows.drop_last(), id),
{
    let front = rows.drop_last();
    front_is_distinct(rows);
    if has_row(front, id) {
        let s = slot(front, id);
        assert(front[s] == rows[s]);
        slot_is_unique(rows, s);
    }
    if has_row(rows, id) {
        let s = slot(rows, id);
        assert(rows[s].id == id);
        assert(s < rows.len() - 1);
        assert(front[s] == rows[s]);
        slot_is_unique(front, s);
    }
}

/// The stack of siblings holds exactly the rows under the parent, and is sorted.
proof fn stacked_is<S: Scalar>(rows: Seq<NodeModel<S>>, parent: Option<u64>)
    requires
        distinct(rows),
    ensures
        stack_sorted(stacked(rows, parent)),
        stack_of(stacked(rows, parent), rows, parent),
    decreases rows.len(),
{
    let s = stacked(rows, parent);
    if rows.len() > 0 {
        let front = rows.drop_last();
        let last = rows.last();
        front_is_distinct(rows);
        stacked_is(front, parent);
        let rest = stacked(front, parent);
        slot_is_unique(rows, rows.len() - 1);
        let e = (last.z, last.id);
        if last.parent == parent {
            assert forall|i: int| 0 <= i < rest.len() implies (#[trigger] rest[i]).1 != e.1 by {
                assert(rest.contains(rest[i]));
            }
            placed_is_sorted(rest, e);
            placed_holds(rest, e);
        }
        assert forall|x: (S, u64)|
            #![trigger s.contains(x)]
            s.contains(x) <==> has_row(rows, x.1) && peek(rows, x.1).parent == parent && x.0
                == peek(rows, x.1).z by {
            if x.1 == last.id {
                assert(!rest.contains(x));
                assert(peek(rows, x.1) == last);
            } else {
                front_peeks(rows, x.1);
                assert(rest.contains(x) <==> has_row(front, x.1) && peek(front, x.1).parent
                    == parent && x.0 == peek(front, x.1).z);
            }
        }
    }
}

/// Two sorted stacks of the same entries are the same stack.
proof fn sorted_is_unique<S: Scalar>(s: Seq<(S, u64)>, t: Seq<(S, u64)>)
    requires
        stack_sorted(s),
        stack_sorted(t),
        forall|e: (S, u64)| #[trigger] s.contains(e) <==> t.contains(e),
    ensures
        s == t,
    decreases s.len(),
{
    if s.len() == 0 {
        if t.len() > 0 {
            assert(t.contains(t[0]));
            assert(s.contains(t[0]));
        }
        assert(s =~= t);
    } else {
        let a = s[s.len() - 1];
        assert(s.contains(a));
        assert(t.contains(a));
        let i = choose|i: int| 0 <= i < t.len() && t[i] == a;
        let b = t[t.len() - 1];
        assert(t.contains(b));
        assert(s.contains(b));
        let j = choose|j: int| 0 <= j < s.len() && s[j] == b;
        if i < t.len() - 1 {
            assert(beneath(t[i], t[t.len() - 1]));
            if j < s.len() - 1 {
                assert(beneath(s[j], s[s.len() - 1]));
                beneath_is_asymmetric(a, b);
            } else {
                beneath_is_irreflexive(a);
            }
        }
        assert(a == b);
        let s1 = s.drop_last();
        let t1 = t.drop_last();
        front_sorted(s);
        front_sorted(t);
        assert forall|e: (S, u64)| #[trigger] s1.contains(e) <==> t1.contains(e) by {
            front_holds(s, e);
            front_holds(t, e);
            assert(s.contains(e) <==> t.contains(e));
        }
        sorted_is_unique(s1, t1);
        assert(s1.push(a) =~= s);
        assert(t1.push(a) =~= t);
    }
}

proof fn front_sorted<S: Scalar>(s: Seq<(S, u64)>)
    requires
        stack_sorted(s),
        s.len() > 0,
    ensures
        stack_sorted(s.drop_last()),
{
    let f = s.drop_last();
    assert forall|i: int, j: int|
        #![trigger f[i], f[j]]
        0 <= i < j < f.len() implies beneath(f[i], f[j]) by {
        assert(f[i] == s[i] && f[j] == s[j]);
    }
}

proof fn front_holds<S: Scalar>(s: Seq<(S, u64)>, e: (S, u64))
    requires
        stack_sorted(s),
        s.len() > 0,
    ensures
        s.drop_last().contains(e) <==> s.contains(e) && e != s.last(),
{
    let f = s.drop_last();
    if f.contains(e) {
        let i = choose|i: int| 0 <= i < f.len() && f[i] == e;
        assert(s[i] == e);
        assert(s.last() == s[s.len() - 1]);
        beneath_is_irreflexive(e);
    }
    if s.contains(e) && e != s.last() {
        let i = choose|i: int| 0 <= i < s.len() && s[i] == e;
        assert(f[i] == e);
    }
}

/// A sorted stack of the rows under a parent is the order of those siblings.
pub proof fn order_is<S: Scalar>(rows: Seq<NodeModel<S>>, parent: Option<u64>, s: Seq<(S, u64)>)
    requires
        distinct(rows),
        stack_sorted(s),
        stack_of(s, rows, parent),
    ensures
        children(rows, parent) == s.map_values(|e: (S, u64)| e.1),
{
    stacked_is(rows, parent);
    let t = stacked(rows, parent);
    assert forall|e: (S, u64)| #[trigger] t.contains(e) <==> s.contains(e) by {}
    sorted_is_unique(t, s);
}

// ---------------------------------------------------------------------------
// The order of siblings
// ---------------------------------------------------------------------------

/// A row's entry in the order of its siblings.
pub open spec fn entry<S: Scalar>(rows: Seq<NodeModel<S>>, id: u64) -> (S, u64) {
    (peek(rows, id).z, id)
}

/// Siblings stand in layer order: the members of a group, or of the top level, are exactly the
/// rows that name it as their parent, each once, and each beneath all that come after it.
pub proof fn siblings_are_in_order<S: Scalar>(rows: Seq<NodeModel<S>>, parent: Option<u64>)
    requires
        distinct(rows),
    ensures
        forall|id: u64| #[trigger]
            children(rows, parent).contains(id) <==> has_row(rows, id) && peek(rows, id).parent
                == parent,
        forall|i: int, j: int|
            #![trigger children(rows, parent)[i], children(rows, parent)[j]]
            0 <= i < j < children(rows, parent).len() ==> children(rows, parent)[i] != children(
                rows,
                parent,
            )[j] && beneath(
                entry(rows, children(rows, parent)[i]),
                entry(rows, children(rows, parent)[j]),
            ),
{
    stacked_is(rows, parent);
    let t = stacked(rows, parent);
    let c = children(rows, parent);
    assert forall|i: int| 0 <= i < c.len() implies #[trigger] entry(rows, c[i]) == t[i] by {
        assert(t.contains(t[i]));
    }
    assert forall|id: u64| #[trigger] c.contains(id) <==> has_row(rows, id) && peek(rows, id).parent
        == parent by {
        if c.contains(id) {
            let i = choose|i: int| 0 <= i < c.len() && c[i] == id;
            assert(t.contains(t[i]));
        }
        if has_row(rows, id) && peek(rows, id).parent == parent {
            assert(t.contains(entry(rows, id)));
            let i = choose|i: int| 0 <= i < t.len() && t[i] == entry(rows, id);
            assert(c[i] == id);
        }
    }
    assert forall|i: int, j: int|
        #![trigger c[i], c[j]]
        0 <= i < j < c.len() implies c[i] != c[j] && beneath(
        entry(rows, c[i]),
        entry(rows, c[j]),
    ) by {
        assert(entry(rows, c[i]) == t[i] && entry(rows, c[j]) == t[j]);
        assert(beneath(t[i], t[j]));
        if c[i] == c[j] {
            beneath_is_irreflexive(t[i]);
        }
    }
}

proof fn table_holds<S: Scalar>(rows: Seq<NodeModel<S>>, id: u64)
    ensures
        table_of(rows).contains_key(id) <==> has_row(rows, id),
        has_row(rows, id) ==> table_of(rows)[id] == peek(rows, id),
{
}

/// The layer order depends on what the rows hold alone: two tables of the same rows, in
/// whatever order they stand, have the same siblings in the same order. So what undo brings
/// back, it brings back in place.
pub proof fn same_rows_same_order<S: Scalar>(
    a: Seq<NodeModel<S>>,
    b: Seq<NodeModel<S>>,
    parent: Option<u64>,
)
    requires
        distinct(a),
        distinct(b),
        table_of(a) == table_of(b),
    ensures
        children(a, parent) == children(b, parent),
{
    stacked_is(a, parent);
    let s = stacked(a, parent);
    assert forall|e: (S, u64)|
        #![trigger s.contains(e)]
        s.contains(e) <==> has_row(b, e.1) && peek(b, e.1).parent == parent && e.0 == peek(
            b,
            e.1,
        ).z by {
        table_holds(a, e.1);
        table_holds(b, e.1);
    }
    order_is(b, parent, s);
}

// ---------------------------------------------------------------------------
// One write
// ---------------------------------------------------------------------------

/// What one write of one row leaves: every other row, and the row's other columns.
pub proof fn written_peeks<S: Scalar>(rows: Seq<NodeModel<S>>, id: u64, f: FieldModel<S>)
    requires
        distinct(rows),
    ensures
        distinct(written(rows, id, f)),
        forall|x: u64| #[trigger] has_row(written(rows, id, f), x) <==> has_row(rows, x),
        forall|x: u64| x != id ==> #[trigger] peek(written(rows, id, f), x) == peek(rows, x),
        has_row(rows, id) ==> peek(written(rows, id, f), id) == with_field(peek(rows, id), f),
{
    let w = written(rows, id, f);
    if has_row(rows, id) {
        let k = slot(rows, id);
        assert(rows[k].id == id);
        assert forall|i: int| 0 <= i < rows.len() implies (#[trigger] w[i]).id == rows[i].id by {}
        assert forall|i: int, j: int|
            #![trigger w[i], w[j]]
            0 <= i < j < w.len() implies w[i].id != w[j].id by {
            assert(w[i].id == rows[i].id && w[j].id == rows[j].id);
        }
        slot_is_unique(w, k);
        assert forall|x: u64| #[trigger] has_row(w, x) <==> has_row(rows, x) by {
            if has_row(rows, x) {
                let s = slot(rows, x);
                assert(rows[s].id == x);
                assert(w[s].id == x);
            }
            if has_row(w, x) {
                let s = slot(w, x);
                assert(w[s].id == x);
                assert(rows[s].id == x);
            }
        }
        assert forall|x: u64| x != id implies #[trigger] peek(w, x) == peek(rows, x) by {
            assert(has_row(w, x) <==> has_row(rows, x));
            if has_row(rows, x) {
                let s = slot(rows, x);
                assert(rows[s].id == x);
                assert(s != k);
                assert(w[s] == rows[s]);
                slot_is_unique(w, s);
            }
        }
    }
}

/// `ids` without `id`, where it occurs once.
pub proof fn others_of<S: Scalar>(ids: Seq<u64>, id: u64, pos: int)
    requires
        0 <= pos < ids.len(),
        ids[pos] == id,
        forall|i: int, j: int|
            #![trigger ids[i], ids[j]]
            0 <= i < j < ids.len() ==> ids[i] != ids[j],
    ensures
        others(ids, id) == ids.remove(pos),
    decreases ids.len(),
{
    reveal(Seq::filter);
    let keep = differs_from(id);
    let front = ids.drop_last();
    if pos == ids.len() - 1 {
        assert forall|i: int| 0 <= i < front.len() implies #[trigger] front[i] != id by {
            assert(front[i] == ids[i]);
            assert(ids[i] != ids[pos]);
        }
        others_absent(front, id);
        assert(ids.remove(pos) =~= front);
    } else {
        assert forall|i: int, j: int|
            #![trigger front[i], front[j]]
            0 <= i < j < front.len() implies front[i] != front[j] by {
            assert(front[i] == ids[i] && front[j] == ids[j]);
        }
        assert(front[pos] == ids[pos]);
        others_of::<S>(front, id, pos);
        assert(ids.last() == ids[ids.len() - 1]);
        assert(ids[pos] != ids[ids.len() - 1]);
        assert(others(ids, id) == others(front, id).push(ids.last()));
        assert(front.remove(pos).push(ids.last()) =~= ids.remove(pos));
    }
}

pub proof fn others_absent(ids: Seq<u64>, id: u64)
    requires
        forall|i: int| 0 <= i < ids.len() ==> #[trigger] ids[i] != id,
    ensures
        others(ids, id) == ids,
    decreases ids.len(),
{
    reveal(Seq::filter);
    if ids.len() > 0 {
        let front = ids.drop_last();
        assert forall|i: int| 0 <= i < front.len() implies #[trigger] front[i] != id by {
            assert(front[i] == ids[i]);
        }
        others_absent(front, id);
        assert(ids.last() == ids[ids.len() - 1]);
        assert(front.push(ids.last()) =~= ids);
    } else {
        assert(others(ids, id) =~= ids);
    }
}

/// Whether `e` fits at `at` into the order of some siblings.
pub open spec fn fits<S: Scalar>(
    rows: Seq<NodeModel<S>>,
    rest: Seq<u64>,
    at: int,
    e: (S, u64),
) -> bool {
    &&& at > 0 ==> beneath(entry(rows, rest[at - 1]), e)
    &&& at < rest.len() ==> beneath(e, entry(rows, rest[at]))
}

/// A node rests where its `z` fits: between its new neighbours among the other siblings.
proof fn rests_where_it_fits<S: Scalar>(
    rows: Seq<NodeModel<S>>,
    parent: Option<u64>,
    rest: Seq<u64>,
    id: u64,
    at: int,
)
    requires
        distinct(rows),
        has_row(rows, id),
        peek(rows, id).parent == parent,
        0 <= at <= rest.len(),
        forall|x: u64| #[trigger]
            rest.contains(x) <==> x != id && has_row(rows, x) && peek(rows, x).parent == parent,
        forall|i: int, j: int|
            #![trigger rest[i], rest[j]]
            0 <= i < j < rest.len() ==> beneath(entry(rows, rest[i]), entry(rows, rest[j])),
        fits(rows, rest, at, entry(rows, id)),
    ensures
        children(rows, parent) == rest.insert(at, id),
{
    let whole = rest.insert(at, id);
    let s = Seq::new(whole.len(), |i: int| entry(rows, whole[i]));
    let e = entry(rows, id);
    assert forall|i: int, j: int|
        #![trigger s[i], s[j]]
        0 <= i < j < s.len() implies beneath(s[i], s[j]) by {
        let a = if i < at {
            i
        } else {
            i - 1
        };
        let b = if j < at {
            j
        } else {
            j - 1
        };
        if i == at {
            assert(whole[j] == rest[b]);
            if b > at {
                assert(beneath(entry(rows, rest[at]), entry(rows, rest[b])));
                beneath_is_transitive(e, entry(rows, rest[at]), entry(rows, rest[b]));
            }
        } else if j == at {
            assert(whole[i] == rest[a]);
            if a < at - 1 {
                assert(beneath(entry(rows, rest[a]), entry(rows, rest[at - 1])));
                beneath_is_transitive(entry(rows, rest[a]), entry(rows, rest[at - 1]), e);
            }
        } else {
            assert(whole[i] == rest[a] && whole[j] == rest[b]);
            assert(beneath(entry(rows, rest[a]), entry(rows, rest[b])));
        }
    }
    assert forall|x: (S, u64)|
        #![trigger s.contains(x)]
        s.contains(x) <==> has_row(rows, x.1) && peek(rows, x.1).parent == parent && x.0 == peek(
            rows,
            x.1,
        ).z by {
        if s.contains(x) {
            let i = choose|i: int| 0 <= i < s.len() && s[i] == x;
            if i != at {
                let a = if i < at {
                    i
                } else {
                    i - 1
                };
                assert(whole[i] == rest[a]);
                assert(rest.contains(rest[a]));
            }
        }
        if has_row(rows, x.1) && peek(rows, x.1).parent == parent && x.0 == peek(rows, x.1).z {
            if x.1 == id {
                assert(s[at] == x);
            } else {
                assert(rest.contains(x.1));
                let a = choose|a: int| 0 <= a < rest.len() && rest[a] == x.1;
                if a < at {
                    assert(whole[a] == rest[a]);
                    assert(s[a] == x);
                } else {
                    assert(whole[a + 1] == rest[a]);
                    assert(s[a + 1] == x);
                }
            }
        }
    }
    order_is(rows, parent, s);
    assert(s.map_values(|e: (S, u64)| e.1) =~= whole);
}

/// The other siblings of a node, and their order.
proof fn others_in_order<S: Scalar>(rows: Seq<NodeModel<S>>, parent: Option<u64>, id: u64)
    requires
        distinct(rows),
    ensures
        ({
            let rest = others(children(rows, parent), id);
            &&& forall|x: u64| #[trigger]
                rest.contains(x) <==> x != id && has_row(rows, x) && peek(rows, x).parent == parent
            &&& forall|i: int, j: int|
                #![trigger rest[i], rest[j]]
                0 <= i < j < rest.len() ==> rest[i] != rest[j] && beneath(
                    entry(rows, rest[i]),
                    entry(rows, rest[j]),
                )
        }),
{
    siblings_are_in_order(rows, parent);
    let c = children(rows, parent);
    let rest = others(c, id);
    if c.contains(id) {
        let pos = choose|i: int| 0 <= i < c.len() && c[i] == id;
        others_of::<S>(c, id, pos);
        assert forall|x: u64| #[trigger] rest.contains(x) <==> x != id && has_row(rows, x) && peek(
            rows,
            x,
        ).parent == parent by {
            if rest.contains(x) {
                let i = choose|i: int| 0 <= i < rest.len() && rest[i] == x;
                let k = if i < pos {
                    i
                } else {
                    i + 1
                };
                assert(c[k] == x);
                assert(c.contains(x));
                assert(c[pos] != c[k]) by {
                    if k < pos {
                        assert(c[k] != c[pos]);
                    }
                }
            }
            if x != id && has_row(rows, x) && peek(rows, x).parent == parent {
                assert(c.contains(x));
                let k = choose|k: int| 0 <= k < c.len() && c[k] == x;
                if k < pos {
                    assert(rest[k] == x);
                } else {
                    assert(rest[k - 1] == x);
                }
            }
        }
        assert forall|i: int, j: int|
            #![trigger rest[i], rest[j]]
            0 <= i < j < rest.len() implies rest[i] != rest[j] && beneath(
            entry(rows, rest[i]),
            entry(rows, rest[j]),
        ) by {
            let a = if i < pos {
                i
            } else {
                i + 1
            };
            let b = if j < pos {
                j
            } else {
                j + 1
            };
            assert(rest[i] == c[a] && rest[j] == c[b]);
        }
    } else {
        assert forall|i: int| 0 <= i < c.len() implies #[trigger] c[i] != id by {
            if c[i] == id {
                assert(c.contains(id));
            }
        }
        others_absent(c, id);
    }
}

/// A node whose `z` is written rests where the new `z` fits among its other siblings.
pub proof fn restacking_rests_where_it_fits<S: Scalar>(
    rows: Seq<NodeModel<S>>,
    id: u64,
    z: S,
    at: int,
)
    requires
        distinct(rows),
        has_row(rows, id),
        0 <= at <= others(children(rows, peek(rows, id).parent), id).len(),
        fits(rows, others(children(rows, peek(rows, id).parent), id), at, (z, id)),
    ensures
        children(written(rows, id, FieldModel::Z(z)), peek(rows, id).parent) == others(
            children(rows, peek(rows, id).parent),
            id,
        ).insert(at, id),
{
    let parent = peek(rows, id).parent;
    let rest = others(children(rows, parent), id);
    let w = written(rows, id, FieldModel::Z(z));
    written_peeks(rows, id, FieldModel::Z(z));
    others_in_order(rows, parent, id);
    assert forall|i: int| 0 <= i < rest.len() implies #[trigger] entry(w, rest[i]) == entry(
        rows,
        rest[i],
    ) by {
        assert(rest.contains(rest[i]));
    }
    assert forall|x: u64| #[trigger] rest.contains(x) <==> x != id && has_row(w, x) && peek(
        w,
        x,
    ).parent == parent by {
        assert(has_row(w, x) <==> has_row(rows, x));
        if x != id {
            assert(peek(w, x) == peek(rows, x));
        }
    }
    assert forall|i: int, j: int|
        #![trigger rest[i], rest[j]]
        0 <= i < j < rest.len() implies beneath(entry(w, rest[i]), entry(w, rest[j])) by {
        assert(entry(w, rest[i]) == entry(rows, rest[i]) && entry(w, rest[j]) == entry(
            rows,
            rest[j],
        ));
    }
    if at > 0 {
        assert(entry(w, rest[at - 1]) == entry(rows, rest[at - 1]));
    }
    if at < rest.len() {
        assert(entry(w, rest[at]) == entry(rows, rest[at]));
    }
    rests_where_it_fits(w, parent, rest, id, at);
}

// ---------------------------------------------------------------------------
// Placing
// ---------------------------------------------------------------------------

/// What a new row leaves: every row that was there.
pub proof fn pushed_peeks<S: Scalar>(rows: Seq<NodeModel<S>>, n: NodeModel<S>)
    requires
        distinct(rows),
        !has_row(rows, n.id),
    ensures
        distinct(rows.push(n)),
        has_row(rows.push(n), n.id),
        peek(rows.push(n), n.id) == n,
        forall|x: u64| x != n.id ==> (#[trigger] has_row(rows.push(n), x) <==> has_row(rows, x)),
        forall|x: u64| x != n.id ==> #[trigger] peek(rows.push(n), x) == peek(rows, x),
{
    let w = rows.push(n);
    assert forall|i: int, j: int|
        #![trigger w[i], w[j]]
        0 <= i < j < w.len() implies w[i].id != w[j].id by {
        assert(rows[i] == w[i]);
        if j < rows.len() {
            assert(rows[j] == w[j]);
        }
    }
    slot_is_unique(w, rows.len() as int);
    assert forall|x: u64| x != n.id implies (#[trigger] has_row(w, x) <==> has_row(rows, x))
        && peek(w, x) == peek(rows, x) by {
        assert(w.drop_last() =~= rows);
        front_peeks(w, x);
    }
}

/// A new top-level node goes on top: it comes last in the layer order, and nothing else moves.
pub proof fn placing_goes_on_top<S: Scalar>(rows: Seq<NodeModel<S>>, n: NodeModel<S>)
    requires
        distinct(rows),
        !has_row(rows, n.id),
        n.parent is None,
        n.z == above_all(rows),
        top_z(rows) matches Some(z) ==> z.below(z.plus(S::of_int(1))),
    ensures
        children(rows.push(n), None) == children(rows, None).push(n.id),
        forall|p: u64| #[trigger] children(rows.push(n), Some(p)) == children(rows, Some(p)),
{
    numbers_rank::<S>();
    let w = rows.push(n);
    let rest = children(rows, None);
    pushed_peeks(rows, n);
    siblings_are_in_order(rows, None);
    assert forall|i: int| 0 <= i < rest.len() implies #[trigger] entry(w, rest[i]) == entry(
        rows,
        rest[i],
    ) && rest[i] != n.id by {
        assert(rest.contains(rest[i]));
    }
    assert forall|x: u64| #[trigger] rest.contains(x) <==> x != n.id && has_row(w, x) && peek(
        w,
        x,
    ).parent == None::<u64> by {
        if x != n.id {
            assert(has_row(w, x) <==> has_row(rows, x));
            assert(peek(w, x) == peek(rows, x));
        }
    }
    assert forall|i: int, j: int|
        #![trigger rest[i], rest[j]]
        0 <= i < j < rest.len() implies beneath(entry(w, rest[i]), entry(w, rest[j])) by {
        assert(entry(w, rest[i]) == entry(rows, rest[i]) && entry(w, rest[j]) == entry(
            rows,
            rest[j],
        ));
    }
    if rest.len() > 0 {
        assert(entry(w, rest[rest.len() - 1]) == entry(rows, rest[rest.len() - 1]));
    }
    rests_where_it_fits(w, None, rest, n.id, rest.len() as int);
    assert(rest.insert(rest.len() as int, n.id) =~= rest.push(n.id));
    assert forall|p: u64| #[trigger] children(w, Some(p)) == children(rows, Some(p)) by {
        assert(w.drop_last() =~= rows);
    }
}

// ---------------------------------------------------------------------------
// Dropping and arranging
// ---------------------------------------------------------------------------

/// The other siblings do not depend on the row of the node itself.
proof fn others_unchanged<S: Scalar>(
    rows: Seq<NodeModel<S>>,
    w: Seq<NodeModel<S>>,
    parent: Option<u64>,
    id: u64,
)
    requires
        distinct(rows),
        distinct(w),
        forall|x: u64| x != id ==> (#[trigger] has_row(w, x) <==> has_row(rows, x)),
        forall|x: u64| x != id ==> #[trigger] peek(w, x) == peek(rows, x),
    ensures
        others(children(w, parent), id) == others(children(rows, parent), id),
{
    let a = others(children(rows, parent), id);
    let b = others(children(w, parent), id);
    others_in_order(rows, parent, id);
    others_in_order(w, parent, id);
    let s = Seq::new(a.len(), |i: int| entry(rows, a[i]));
    let t = Seq::new(b.len(), |i: int| entry(w, b[i]));
    assert forall|i: int| 0 <= i < b.len() implies #[trigger] entry(w, b[i]) == entry(
        rows,
        b[i],
    ) by {
        assert(b.contains(b[i]));
    }
    assert forall|e: (S, u64)| #[trigger] s.contains(e) <==> t.contains(e) by {
        if s.contains(e) {
            let i = choose|i: int| 0 <= i < s.len() && s[i] == e;
            assert(a.contains(a[i]));
            assert(has_row(w, a[i]) <==> has_row(rows, a[i]));
            assert(peek(w, a[i]) == peek(rows, a[i]));
            assert(b.contains(a[i]));
            let j = choose|j: int| 0 <= j < b.len() && b[j] == a[i];
            assert(entry(w, b[j]) == entry(rows, b[j]));
            assert(t[j] == e);
        }
        if t.contains(e) {
            let i = choose|i: int| 0 <= i < t.len() && t[i] == e;
            assert(b.contains(b[i]));
            assert(has_row(w, b[i]) <==> has_row(rows, b[i]));
            assert(peek(w, b[i]) == peek(rows, b[i]));
            assert(a.contains(b[i]));
            let j = choose|j: int| 0 <= j < a.len() && a[j] == b[i];
            assert(entry(w, b[i]) == entry(rows, b[i]));
            assert(s[j] == e);
        }
    }
    sorted_is_unique(s, t);
    assert forall|i: int| 0 <= i < a.len() implies a[i] == b[i] by {
        assert(s[i] == t[i]);
    }
    assert(a.len() == s.len() && b.len() == t.len());
    assert(a =~= b);
}

/// Whether counts up to `n` are told apart, with a half between each and the next.
pub open spec fn counted<S: Scalar>(n: int) -> bool {
    forall|k: int|
        #![trigger count_spec::<S>(k)]
        0 <= k <= n ==> count_spec::<S>(k).below(count_spec::<S>(k).plus(ratio(1, 2)))
            && count_spec::<S>(k).plus(ratio(1, 2)).below(count_spec::<S>(k + 1))
}

proof fn counts_ascend<S: Scalar>(n: int, i: int, j: int)
    requires
        counted::<S>(n),
        0 <= i < j <= n + 1,
    ensures
        count_spec::<S>(i).ranks_below(count_spec::<S>(j)),
    decreases j - i,
{
    numbers_rank::<S>();
    let a = count_spec::<S>(j - 1);
    let b = count_spec::<S>(j - 1).plus(ratio(1, 2));
    let c = count_spec::<S>(j);
    assert(a.below(b) && b.below(c));
    assert(a.ranks_below(c));
    if i < j - 1 {
        counts_ascend::<S>(n, i, j - 1);
        assert(count_spec::<S>(i).ranks_below(a) && a.ranks_below(c));
    }
}

/// What renumbering leaves.
proof fn renumbered_peeks<S: Scalar>(rows: Seq<NodeModel<S>>, ids: Seq<u64>)
    requires
        distinct(rows),
        forall|i: int, j: int|
            #![trigger ids[i], ids[j]]
            0 <= i < j < ids.len() ==> ids[i] != ids[j],
    ensures
        distinct(renumbered(rows, ids)),
        forall|x: u64| #[trigger] has_row(renumbered(rows, ids), x) <==> has_row(rows, x),
        forall|x: u64|
            !ids.contains(x) ==> #[trigger] peek(renumbered(rows, ids), x) == peek(rows, x),
        forall|k: int|
            0 <= k < ids.len() && has_row(rows, ids[k]) ==> peek(
                renumbered(rows, ids),
                #[trigger] ids[k],
            ) == with_field(peek(rows, ids[k]), FieldModel::Z(count_spec::<S>(k + 1))),
    decreases ids.len(),
{
    if ids.len() > 0 {
        let front = ids.drop_last();
        let last = ids.last();
        assert forall|i: int, j: int|
            #![trigger front[i], front[j]]
            0 <= i < j < front.len() implies front[i] != front[j] by {
            assert(front[i] == ids[i] && front[j] == ids[j]);
        }
        renumbered_peeks(rows, front);
        let r = renumbered(rows, front);
        let f = FieldModel::Z(count_spec::<S>(ids.len() as int));
        written_peeks(r, last, f);
        let w = renumbered(rows, ids);
        assert(!front.contains(last)) by {
            if front.contains(last) {
                let i = choose|i: int| 0 <= i < front.len() && front[i] == last;
                assert(ids[i] == ids[ids.len() - 1]);
            }
        }
        assert forall|x: u64| !ids.contains(x) implies #[trigger] peek(w, x) == peek(rows, x) by {
            assert(ids[ids.len() - 1] == last);
            assert(x != last);
            assert(!front.contains(x)) by {
                if front.contains(x) {
                    let i = choose|i: int| 0 <= i < front.len() && front[i] == x;
                    assert(ids[i] == x);
                }
            }
            assert(peek(r, x) == peek(rows, x));
        }
        assert forall|k: int| 0 <= k < ids.len() && has_row(rows, ids[k]) implies peek(
            w,
            #[trigger] ids[k],
        ) == with_field(peek(rows, ids[k]), FieldModel::Z(count_spec::<S>(k + 1))) by {
            if k < front.len() {
                assert(front[k] == ids[k]);
                assert(ids[k] != ids[ids.len() - 1]);
                assert(peek(w, ids[k]) == peek(r, ids[k]));
            } else {
                assert(peek(r, last) == peek(rows, last));
                assert(has_row(r, last) <==> has_row(rows, last));
            }
        }
        assert forall|x: u64| #[trigger] has_row(w, x) <==> has_row(rows, x) by {
            assert(has_row(r, x) <==> has_row(rows, x));
        }
    }
}

/// Whether there is room at `at` among the members of a group: past the ends by one, and in
/// between by renumbering.
pub open spec fn roomy<S: Scalar>(rows: Seq<NodeModel<S>>, rest: Seq<u64>, at: int) -> bool {
    &&& at >= rest.len() > 0 ==> {
        let z = peek(rows, rest[rest.len() - 1]).z;
        z.below(z.plus(S::of_int(1)))
    }
    &&& at == 0 < rest.len() ==> {
        let z = peek(rows, rest[0]).z;
        z.minus(S::of_int(1)).below(z)
    }
    &&& 0 < at < rest.len() ==> counted::<S>(rest.len() as int)
}

/// A node put halfway between two renumbered siblings rests between them.
proof fn renumbering_makes_room<S: Scalar>(
    rows: Seq<NodeModel<S>>,
    parent: Option<u64>,
    id: u64,
    at: int,
)
    requires
        distinct(rows),
        has_row(rows, id),
        peek(rows, id).parent == parent,
        0 < at < others(children(rows, parent), id).len(),
        counted::<S>(others(children(rows, parent), id).len() as int),
    ensures
        children(
            written(
                renumbered(rows, others(children(rows, parent), id)),
                id,
                FieldModel::Z(count_spec::<S>(at).plus(ratio(1, 2))),
            ),
            parent,
        ) == others(children(rows, parent), id).insert(at, id),
{
    numbers_rank::<S>();
    let rest = others(children(rows, parent), id);
    others_in_order(rows, parent, id);
    let r = renumbered(rows, rest);
    let z = count_spec::<S>(at).plus(ratio(1, 2));
    let w = written(r, id, FieldModel::Z(z));
    renumbered_peeks(rows, rest);
    written_peeks(r, id, FieldModel::Z(z));
    assert(!rest.contains(id));
    assert(peek(r, id) == peek(rows, id));
    assert(has_row(r, id) <==> has_row(rows, id));
    assert forall|k: int| 0 <= k < rest.len() implies #[trigger] entry(w, rest[k]) == (
        count_spec::<S>(k + 1),
        rest[k],
    ) by {
        assert(rest.contains(rest[k]));
        assert(peek(w, rest[k]) == peek(r, rest[k]));
    }
    assert forall|x: u64| #[trigger] rest.contains(x) <==> x != id && has_row(w, x)
        && peek(w, x).parent == parent by {
        assert(has_row(w, x) <==> has_row(r, x));
        assert(has_row(r, x) <==> has_row(rows, x));
        if rest.contains(x) {
            let k = choose|k: int| 0 <= k < rest.len() && rest[k] == x;
            assert(peek(w, rest[k]) == peek(r, rest[k]));
        } else if x != id {
            assert(peek(w, x) == peek(r, x));
            assert(peek(r, x) == peek(rows, x));
        }
    }
    assert forall|i: int, j: int|
        #![trigger rest[i], rest[j]]
        0 <= i < j < rest.len() implies beneath(
        entry(w, rest[i]),
        entry(w, rest[j]),
    ) by {
        counts_ascend::<S>(rest.len() as int, i + 1, j + 1);
        assert(entry(w, rest[i]) == (count_spec::<S>(i + 1), rest[i]));
        assert(entry(w, rest[j]) == (count_spec::<S>(j + 1), rest[j]));
    }
    assert(entry(w, rest[at - 1]) == (count_spec::<S>(at), rest[at - 1]));
    assert(entry(w, rest[at]) == (count_spec::<S>(at + 1), rest[at]));
    assert(count_spec::<S>(at).below(z) && z.below(count_spec::<S>(at + 1)));
    rests_where_it_fits(w, parent, rest, id, at);
}

/// A member of a group rests where it is put among the others, whether or not there was a
/// number left between its new neighbours.
pub proof fn members_rest_where_they_are_put<S: Scalar>(
    rows: Seq<NodeModel<S>>,
    group: u64,
    id: u64,
    at: int,
)
    requires
        distinct(rows),
        has_row(rows, id),
        peek(rows, id).parent == Some(group),
        0 <= at <= others(children(rows, Some(group)), id).len(),
        roomy(rows, others(children(rows, Some(group)), id), at),
    ensures
        children(rested_in_group(rows, group, id, at), Some(group)) == others(
            children(rows, Some(group)),
            id,
        ).insert(at, id),
{
    numbers_rank::<S>();
    let parent = Some(group);
    let rest = others(children(rows, parent), id);
    others_in_order(rows, parent, id);
    if 0 < at < rest.len() {
        let a = peek(rows, rest[at - 1]).z;
        let b = peek(rows, rest[at]).z;
        let mid = a.plus(half(b.minus(a)));
        if a.below(mid) && mid.below(b) {
            restacking_rests_where_it_fits(rows, id, mid, at);
        } else {
            renumbering_makes_room(rows, parent, id, at);
        }
    } else if rest.len() == 0 {
        restacking_rests_where_it_fits(rows, id, S::of_int(1), at);
    } else if at == rest.len() {
        let z = peek(rows, rest[rest.len() - 1]).z;
        restacking_rests_where_it_fits(rows, id, z.plus(S::of_int(1)), at);
    } else {
        let z = peek(rows, rest[0]).z;
        restacking_rests_where_it_fits(rows, id, z.minus(S::of_int(1)), at);
    }
}

pub proof fn first_index_is(ids: Seq<u64>, id: u64)
    ensures
        match first_index(ids, id) {
            Some(i) => 0 <= i < ids.len() && ids[i] == id,
            None => !ids.contains(id),
        },
    decreases ids.len(),
{
    if ids.len() > 0 {
        let front = ids.drop_last();
        first_index_is(front, id);
        if first_index(ids, id) is None && ids.contains(id) {
            let i = choose|i: int| 0 <= i < ids.len() && ids[i] == id;
            if i < front.len() {
                assert(front[i] == id);
                assert(front.contains(id));
            }
        }
    }
}

/// Where a node is dropped is a place among the others.
proof fn drop_slot_is_a_place<S: Scalar>(
    rows: Seq<NodeModel<S>>,
    id: u64,
    new_parent: Option<u64>,
    index: Option<int>,
)
    requires
        distinct(rows),
        has_row(rows, id),
        index matches Some(i) ==> i >= 0,
    ensures
        0 <= drop_slot(
            children(rows, new_parent),
            id,
            peek(rows, id).parent == new_parent,
            index,
        ) <= others(children(rows, new_parent), id).len(),
{
    let c = children(rows, new_parent);
    siblings_are_in_order(rows, new_parent);
    first_index_is(c, id);
    if peek(rows, id).parent == new_parent {
        assert(c.contains(id));
        let pos = first_index(c, id)->0;
        others_of::<S>(c, id, pos);
    } else {
        assert(!c.contains(id));
        assert forall|i: int| 0 <= i < c.len() implies #[trigger] c[i] != id by {
            if c[i] == id {
                assert(c.contains(id));
            }
        }
        others_absent(c, id);
    }
}

/// The rows once a node has its new parent, before it is stacked.
pub open spec fn adopted_by<S: Scalar>(
    rows: Seq<NodeModel<S>>,
    id: u64,
    new_parent: Option<u64>,
) -> Seq<NodeModel<S>> {
    if peek(rows, id).parent == new_parent {
        rows
    } else {
        written(rows, id, FieldModel::Parent(new_parent))
    }
}

/// A node dropped into a group lands where it was aimed: at the drop's place among the other
/// members, whichever parent it came from. `index` counts the members before the drop.
pub proof fn drops_into_a_group_land_where_aimed<S: Scalar>(
    rows: Seq<NodeModel<S>>,
    id: u64,
    group: u64,
    index: Option<int>,
)
    requires
        distinct(rows),
        may_reparent(rows, id, Some(group)),
        index matches Some(i) ==> i >= 0,
        roomy(
            rows,
            others(children(rows, Some(group)), id),
            drop_slot(
                children(rows, Some(group)),
                id,
                peek(rows, id).parent == Some(group),
                index,
            ),
        ),
    ensures
        children(reparented(rows, id, Some(group), index), Some(group)) == others(
            children(rows, Some(group)),
            id,
        ).insert(
            drop_slot(
                children(rows, Some(group)),
                id,
                peek(rows, id).parent == Some(group),
                index,
            ),
            id,
        ),
{
    let parent = Some(group);
    let r = adopted_by(rows, id, parent);
    drop_slot_is_a_place(rows, id, parent, index);
    written_peeks(rows, id, FieldModel::Parent(parent));
    others_unchanged(rows, r, parent, id);
    let rest = others(children(rows, parent), id);
    others_in_order(rows, parent, id);
    if rest.len() > 0 {
        assert(rest.contains(rest[0]) && rest.contains(rest[rest.len() - 1]));
        assert(peek(r, rest[0]) == peek(rows, rest[0]));
        assert(peek(r, rest[rest.len() - 1]) == peek(rows, rest[rest.len() - 1]));
    }
    members_rest_where_they_are_put(
        r,
        group,
        id,
        drop_slot(children(rows, parent), id, peek(rows, id).parent == parent, index),
    );
}

/// A node dropped at the top level lands where it was aimed, as long as there is a number left
/// between its new neighbours.
pub proof fn drops_at_the_top_level_land_where_aimed<S: Scalar>(
    rows: Seq<NodeModel<S>>,
    id: u64,
    index: Option<int>,
)
    requires
        distinct(rows),
        may_reparent(rows, id, None),
        index matches Some(i) ==> i >= 0,
        fits(
            rows,
            others(children(rows, None), id),
            drop_slot(children(rows, None), id, peek(rows, id).parent is None, index),
            (
                resting_z(
                    rows,
                    others(children(rows, None), id),
                    drop_slot(children(rows, None), id, peek(rows, id).parent is None, index),
                ),
                id,
            ),
        ),
    ensures
        children(reparented(rows, id, None, index), None) == others(
            children(rows, None),
            id,
        ).insert(
            drop_slot(children(rows, None), id, peek(rows, id).parent is None, index),
            id,
        ),
{
    let r = adopted_by(rows, id, None);
    let at = drop_slot(children(rows, None), id, peek(rows, id).parent is None, index);
    drop_slot_is_a_place(rows, id, None, index);
    written_peeks(rows, id, FieldModel::Parent(None));
    others_unchanged(rows, r, None, id);
    let rest = others(children(rows, None), id);
    others_in_order(rows, None, id);
    assert forall|i: int| 0 <= i < rest.len() implies #[trigger] peek(r, rest[i]) == peek(
        rows,
        rest[i],
    ) by {
        assert(rest.contains(rest[i]));
    }
    let z = resting_z(r, rest, at);
    assert(z == resting_z(rows, rest, at)) by {
        if rest.len() > 0 {
            assert(peek(r, rest[0]) == peek(rows, rest[0]));
            assert(peek(r, rest[rest.len() - 1]) == peek(rows, rest[rest.len() - 1]));
            if 0 < at < rest.len() {
                assert(peek(r, rest[at - 1]) == peek(rows, rest[at - 1]));
                assert(peek(r, rest[at]) == peek(rows, rest[at]));
            }
        }
    }
    if at > 0 {
        assert(entry(r, rest[at - 1]) == entry(rows, rest[at - 1]));
    }
    if at < rest.len() {
        assert(entry(r, rest[at]) == entry(rows, rest[at]));
    }
    restacking_rests_where_it_fits(r, id, z, at);
}

/// Arranging moves a node to its target among its own siblings and leaves the others in their
/// order: up or down by one, or to either end. A node that is already as far as the step goes
/// stays.
pub proof fn arranging_moves_one_node<S: Scalar>(rows: Seq<NodeModel<S>>, id: u64, op: Arrange)
    requires
        distinct(rows),
        has_row(rows, id),
        ({
            let parent = peek(rows, id).parent;
            let sibs = children(rows, parent);
            let pos = first_index(sibs, id)->0;
            match arrange_target(op, pos, sibs.len() as int) {
                None => true,
                Some(target) => match parent {
                    Some(_) => roomy(rows, others(sibs, id), target),
                    None => fits(
                        rows,
                        others(sibs, id),
                        target,
                        (arranged_z(rows, sibs, pos, target), id),
                    ),
                },
            }
        }),
    ensures
        ({
            let parent = peek(rows, id).parent;
            let sibs = children(rows, parent);
            &&& first_index(sibs, id) is Some
            &&& children(arranged(rows, id, op), parent) == match arrange_target(
                op,
                first_index(sibs, id)->0,
                sibs.len() as int,
            ) {
                None => sibs,
                Some(target) => sibs.remove(first_index(sibs, id)->0).insert(target, id),
            }
        }),
{
    let parent = peek(rows, id).parent;
    let sibs = children(rows, parent);
    siblings_are_in_order(rows, parent);
    first_index_is(sibs, id);
    assert(sibs.contains(id));
    let pos = first_index(sibs, id)->0;
    others_of::<S>(sibs, id, pos);
    match arrange_target(op, pos, sibs.len() as int) {
        None => {},
        Some(target) => match parent {
            Some(g) => members_rest_where_they_are_put(rows, g, id, target),
            None => restacking_rests_where_it_fits(
                rows,
                id,
                arranged_z(rows, sibs, pos, target),
                target,
            ),
        },
    }
}

} // verus!
