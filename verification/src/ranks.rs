//! Who stands above whom after grouping and ungrouping, in millionths: a group gives its place to
//! its members, in their order, and takes the place of the topmost of them.
use vstd::prelude::*;
use crate::ancestry::{above, lineages_hold_what_is_above};
use crate::exact::counts_are_told_apart;
use crate::layers::{
    arrange_target, arranged, arranged_z, drop_slot, may_reparent, others, reparented, resting_z,
    Arrange,
};
use crate::micro::Micro;
use crate::node::{NodeKind, NodeModel};
use crate::ops::{
    count_spec, fresh_id_is_free, grouped, highest_z, new_group, released, removed, ungrouped,
    ungrouped_one,
};
use crate::order::{
    arranging_moves_one_node, drops_at_the_top_level_land_where_aimed,
    drops_into_a_group_land_where_aimed, entry, first_index_is, fits, order_is, others_absent,
    others_of, pushed_peeks, roomy, siblings_are_in_order, stack_sorted, written_peeks,
};
use crate::round_trip::{adopted_peeks, nothing_awaits, nothing_inside, released_peeks, rows_named};
use crate::scalar::{half, Scalar};
use crate::scene::{
    beneath, children, distinct, first_index, has_row, highest_id, peek, written, FieldModel,
};
use crate::tree::deleting_takes_the_subtree;

verus! {

// ---------------------------------------------------------------------------
// Ungrouping
// ---------------------------------------------------------------------------

/// How far above their group's place the `k`-th of its members is put, in millionths.
#[verifier::opaque]
spec fn rise(k: int) -> int {
    ((k + 1) * 1_000_000 * 1_000_000) / 1_024_000_000
}

proof fn rises_ascend(i: int, j: int)
    requires
        0 <= i < j < 1_000_000,
    ensures
        0 < rise(i) < rise(j),
        1_024 * rise(j) <= (j + 1) * 1_000_000,
{
    reveal(rise);
}

/// Where the members of a group are put.
proof fn members_rise(rows: Seq<NodeModel<Micro>>, base: Micro, ids: Seq<u64>, k: int)
    requires
        distinct(rows),
        ids.no_duplicates(),
        0 <= k < ids.len() <= 1_000_000,
        has_row(rows, ids[k]),
        -1_000_000_000_000_000 <= base.raw <= 1_000_000_000_000_000,
    ensures
        peek(released(rows, base, ids), ids[k]).z.raw == base.raw + rise(k),
    decreases ids.len(),
{
    let front = ids.drop_last();
    let id = ids.last();
    let n = ids.len() - 1;
    let r = released(rows, base, front);
    let z = base.plus(count_spec::<Micro>(n).plus(Micro::of_int(1)).over(Micro::of_int(1024)));
    let f = FieldModel::Parent(None);
    let r1 = written(r, id, f);
    released_peeks(rows, base, front);
    written_peeks(r, id, f);
    written_peeks(r1, id, FieldModel::Z(z));
    assert(ids[n] == id);
    if k < n {
        assert(front[k] == ids[k]);
        assert(ids[k] != ids[n]);
        assert(front.no_duplicates()) by {
            assert forall|i: int, j: int|
                0 <= i < front.len() && 0 <= j < front.len() && i != j implies front[i]
                != front[j] by {
                assert(ids[i] != ids[j]);
            }
        }
        members_rise(rows, base, front, k);
    } else {
        assert(has_row(r, id) <==> has_row(rows, id));
        assert(has_row(r1, id) <==> has_row(r, id));
        assert(count_spec::<Micro>(n).raw == n * 1_000_000);
        assert(count_spec::<Micro>(n).plus(Micro::of_int(1)).raw == (n + 1) * 1_000_000);
        reveal(rise);
        assert(z.raw == base.raw + rise(n));
    }
}

/// What ungrouping one group leaves: the group is gone, its members are at the top level, and
/// everything else is as it was.
proof fn ungrouping_leaves<S: Scalar>(rows: Seq<NodeModel<S>>, g: u64)
    requires
        distinct(rows),
        has_row(rows, g),
        peek(rows, g).kind == NodeKind::Group,
        peek(rows, g).parent != Some(g),
    ensures
        ({
            let members = children(rows, Some(g));
            let f = released(rows, peek(rows, g).z, members);
            let after = ungrouped(rows, seq![g]).0;
            &&& ungrouped(rows, seq![g]).1 == members
            &&& distinct(after)
            &&& forall|x: u64| #[trigger] has_row(after, x) <==> has_row(rows, x) && x != g
            &&& forall|x: u64|
                has_row(rows, x) && x != g ==> #[trigger] peek(after, x) == peek(f, x)
            &&& forall|x: u64|
                has_row(rows, x) && x != g && !members.contains(x) ==> #[trigger] peek(after, x)
                    == peek(rows, x)
            &&& forall|x: u64|
                members.contains(x) ==> #[trigger] peek(after, x).parent is None && x != g
        }),
{
    let members = children(rows, Some(g));
    siblings_are_in_order(rows, Some(g));
    let base = peek(rows, g).z;
    let f = released(rows, base, members);
    released_peeks(rows, base, members);
    let after = removed(f, g);
    let one = seq![g];
    assert(one.drop_last() =~= Seq::<u64>::empty());
    assert(one.last() == g);
    assert(ungrouped(rows, one.drop_last()) == (rows, Seq::<u64>::empty()));
    assert(ungrouped_one(rows, g) == (after, members));
    assert(Seq::<u64>::empty() + members =~= members);
    assert(!members.contains(g));
    assert(has_row(f, g) <==> has_row(rows, g));
    assert forall|y: u64| has_row(f, y) implies #[trigger] peek(f, y).parent != Some(g) by {
        assert(has_row(f, y) <==> has_row(rows, y));
        if members.contains(y) {
            let n = peek(f, y);
            assert(n == (NodeModel { parent: None, z: n.z, ..peek(rows, y) }));
        } else {
            assert(peek(f, y) == peek(rows, y));
        }
    }
    deleting_takes_the_subtree(f, g);
    assert(above(f, g, 0) == Some(g));
    lineages_hold_what_is_above(f, g, g);
    assert forall|x: u64| #[trigger] has_row(after, x) <==> has_row(rows, x) && x != g by {
        assert(has_row(f, x) <==> has_row(rows, x));
        if x != g {
            lineages_hold_what_is_above(f, x, g);
            assert forall|k: nat| #[trigger] above(f, x, k) != Some(g) by {
                nothing_inside(f, g, x, k);
            }
        }
    }
    assert forall|x: u64| has_row(rows, x) && x != g implies #[trigger] peek(after, x) == peek(
        f,
        x,
    ) by {
        assert(has_row(after, x));
    }
    assert forall|x: u64| members.contains(x) implies #[trigger] peek(after, x).parent is None && x
        != g by {
        assert(has_row(rows, x));
        let n = peek(f, x);
        assert(n == (NodeModel { parent: None, z: n.z, ..peek(rows, x) }));
        assert(peek(after, x) == n);
    }
    crate::ops::filtered_is_distinct(
        f,
        |n: NodeModel<S>| !crate::scene::lineage(f, n.id).contains(g),
    );
}

/// Members take the place of their group: after a group at the top level is ungrouped, its members
/// stand there in the order in which they stood in it, above everything that it was above and
/// below everything that it was below. What stands above the group leaves room for so many.
#[verifier::spinoff_prover]
pub proof fn members_take_the_place_of_their_group(rows: Seq<NodeModel<Micro>>, g: u64, at: int)
    requires
        distinct(rows),
        has_row(rows, g),
        peek(rows, g).kind == NodeKind::Group,
        -1_000_000_000_000_000 <= peek(rows, g).z.raw <= 1_000_000_000_000_000,
        children(rows, Some(g)).len() <= 1_000_000,
        0 <= at < children(rows, None).len(),
        children(rows, None)[at] == g,
        at + 1 < children(rows, None).len() ==> 1_024 * (peek(rows, children(rows, None)[at + 1]).z.raw
            - peek(rows, g).z.raw) > children(rows, Some(g)).len() * 1_000_000,
    ensures
        ({
            let (after, selection) = ungrouped(rows, seq![g]);
            let (roots, members) = (children(rows, None), children(rows, Some(g)));
            &&& children(after, None) == roots.subrange(0, at) + members + roots.subrange(
                at + 1,
                roots.len() as int,
            )
            &&& selection == members
        }),
{
    let after = ungrouped(rows, seq![g]).0;
    let t = places(rows, g, at);
    assert(distinct(after) && ungrouped(rows, seq![g]).1 == children(rows, Some(g))) by {
        the_group_is_a_root(rows, g, at);
        ungrouping_leaves(rows, g);
    }
    assert forall|i: int, j: int|
        #![trigger t[i], t[j]]
        0 <= i < j < t.len() implies beneath(entry(after, t[i]), entry(after, t[j])) by {
        one_stands(rows, g, at, i);
        one_stands(rows, g, at, j);
        they_stand_in_order(rows, after, g, at, i, t[i], j, t[j]);
    }
    assert forall|x: u64| #[trigger] t.contains(x) <==> has_row(after, x) && peek(after, x).parent
        == None::<u64> by {
        who_stands(rows, g, at, x);
    }
    order_of(after, None, t);
}

/// The order of the top level, with the members of a group in the group's place.
spec fn places(rows: Seq<NodeModel<Micro>>, g: u64, at: int) -> Seq<u64> {
    let (roots, members) = (children(rows, None), children(rows, Some(g)));
    roots.subrange(0, at) + members + roots.subrange(at + 1, roots.len() as int)
}

proof fn the_group_is_a_root(rows: Seq<NodeModel<Micro>>, g: u64, at: int)
    requires
        distinct(rows),
        0 <= at < children(rows, None).len(),
        children(rows, None)[at] == g,
    ensures
        peek(rows, g).parent is None,
{
    siblings_are_in_order(rows, None);
    assert(children(rows, None).contains(children(rows, None)[at]));
}

#[verifier::spinoff_prover]
proof fn one_stands(rows: Seq<NodeModel<Micro>>, g: u64, at: int, i: int)
    requires
        distinct(rows),
        has_row(rows, g),
        peek(rows, g).kind == NodeKind::Group,
        -1_000_000_000_000_000 <= peek(rows, g).z.raw <= 1_000_000_000_000_000,
        children(rows, Some(g)).len() <= 1_000_000,
        0 <= at < children(rows, None).len(),
        children(rows, None)[at] == g,
        0 <= i < places(rows, g, at).len(),
    ensures
        stands_there(rows, ungrouped(rows, seq![g]).0, g, at, i, places(rows, g, at)[i]),
{
    let (roots, members) = (children(rows, None), children(rows, Some(g)));
    let after = ungrouped(rows, seq![g]).0;
    let (p, q) = (at, at + members.len() as int);
    let t = places(rows, g, at);
    if i < p {
        assert(t[i] == roots[i]);
        a_root_stands(rows, g, at, i);
    } else if i < q {
        let x = members[i - p];
        assert(t[i] == x);
        siblings_are_in_order(rows, Some(g));
        the_group_is_a_root(rows, g, at);
        ungrouping_leaves(rows, g);
        assert(members.contains(x));
        assert(has_row(rows, x));
        assert(members.no_duplicates()) by {
            assert forall|i: int, j: int|
                0 <= i < members.len() && 0 <= j < members.len() && i != j implies members[i]
                != members[j] by {
                if i < j {
                    assert(members[i] != members[j]);
                } else {
                    assert(members[j] != members[i]);
                }
            }
        }
        members_rise(rows, peek(rows, g).z, members, i - p);
        assert(peek(after, x).parent is None);
        assert(has_row(after, x));
    } else {
        assert(t[i] == roots[i - q + at + 1]);
        a_root_stands(rows, g, at, i - q + at + 1);
    }
}

#[verifier::spinoff_prover]
proof fn who_stands(rows: Seq<NodeModel<Micro>>, g: u64, at: int, x: u64)
    requires
        distinct(rows),
        has_row(rows, g),
        peek(rows, g).kind == NodeKind::Group,
        -1_000_000_000_000_000 <= peek(rows, g).z.raw <= 1_000_000_000_000_000,
        children(rows, Some(g)).len() <= 1_000_000,
        0 <= at < children(rows, None).len(),
        children(rows, None)[at] == g,
    ensures
        ({
            let after = ungrouped(rows, seq![g]).0;
            places(rows, g, at).contains(x) <==> has_row(after, x) && peek(after, x).parent
                == None::<u64>
        }),
{
    let (roots, members) = (children(rows, None), children(rows, Some(g)));
    let after = ungrouped(rows, seq![g]).0;
    let (p, q) = (at, at + members.len() as int);
    let t = places(rows, g, at);
    if t.contains(x) {
        let i = choose|i: int| 0 <= i < t.len() && t[i] == x;
        one_stands(rows, g, at, i);
    }
    if has_row(after, x) && peek(after, x).parent == None::<u64> {
        the_group_is_a_root(rows, g, at);
        ungrouping_leaves(rows, g);
        siblings_are_in_order(rows, None);
        assert(has_row(rows, x) && x != g);
        if members.contains(x) {
            let k = choose|k: int| 0 <= k < members.len() && members[k] == x;
            assert(t[p + k] == x);
        } else {
            assert(peek(after, x) == peek(rows, x));
            assert(roots.contains(x));
            let k = choose|k: int| 0 <= k < roots.len() && roots[k] == x;
            if k < at {
                assert(t[k] == x);
            } else {
                assert(k > at);
                assert(t[q + k - at - 1] == x);
            }
        }
    }
}

/// Ids that stand in order, and are those of a parent's members, are that order.
pub proof fn order_of<S: Scalar>(rows: Seq<NodeModel<S>>, parent: Option<u64>, t: Seq<u64>)
    requires
        distinct(rows),
        forall|i: int, j: int|
            #![trigger t[i], t[j]]
            0 <= i < j < t.len() ==> beneath(entry(rows, t[i]), entry(rows, t[j])),
        forall|x: u64| #[trigger]
            t.contains(x) <==> has_row(rows, x) && peek(rows, x).parent == parent,
    ensures
        children(rows, parent) == t,
{
    let s = Seq::new(t.len(), |i: int| entry(rows, t[i]));
    assert(stack_sorted(s)) by {
        assert forall|i: int, j: int|
            #![trigger s[i], s[j]]
            0 <= i < j < s.len() implies beneath(s[i], s[j]) by {
            assert(beneath(entry(rows, t[i]), entry(rows, t[j])));
        }
    }
    assert forall|e: (S, u64)|
        #![trigger s.contains(e)]
        s.contains(e) <==> has_row(rows, e.1) && peek(rows, e.1).parent == parent && e.0 == peek(
            rows,
            e.1,
        ).z by {
        if s.contains(e) {
            let i = choose|i: int| 0 <= i < s.len() && s[i] == e;
            assert(t.contains(t[i]));
        }
        if has_row(rows, e.1) && peek(rows, e.1).parent == parent && e.0 == peek(rows, e.1).z {
            assert(t.contains(e.1));
            let i = choose|i: int| 0 <= i < t.len() && t[i] == e.1;
            assert(s[i] == e);
        }
    }
    order_is(rows, parent, s);
    assert(s.map_values(|e: (S, u64)| e.1) =~= t);
}

/// What stands at the `i`-th place of the top level, after the group at the place `at` has given
/// way to its members.
spec fn stands_there(
    rows: Seq<NodeModel<Micro>>,
    after: Seq<NodeModel<Micro>>,
    g: u64,
    at: int,
    i: int,
    x: u64,
) -> bool {
    let (roots, members) = (children(rows, None), children(rows, Some(g)));
    let q = at + members.len();
    let base = peek(rows, g).z;
    &&& has_row(after, x)
    &&& peek(after, x).parent is None
    &&& i < at ==> x == roots[i] && entry(after, x) == entry(rows, x)
    &&& at <= i < q ==> peek(after, x).z.raw == base.raw + rise(i - at)
    &&& i >= q ==> x == roots[i - q + at + 1] && entry(after, x) == entry(rows, x)
}

/// A root that is not the group stays as it is.
proof fn a_root_stands(rows: Seq<NodeModel<Micro>>, g: u64, at: int, k: int)
    requires
        distinct(rows),
        has_row(rows, g),
        peek(rows, g).kind == NodeKind::Group,
        0 <= at < children(rows, None).len(),
        children(rows, None)[at] == g,
        0 <= k < children(rows, None).len(),
        k != at,
    ensures
        ({
            let x = children(rows, None)[k];
            let after = ungrouped(rows, seq![g]).0;
            &&& x != g
            &&& has_row(after, x)
            &&& peek(after, x).parent is None
            &&& entry(after, x) == entry(rows, x)
        }),
{
    let (roots, members) = (children(rows, None), children(rows, Some(g)));
    siblings_are_in_order(rows, None);
    siblings_are_in_order(rows, Some(g));
    assert(roots.contains(roots[at]));
    assert(roots.contains(roots[k]));
    ungrouping_leaves(rows, g);
    if k < at {
        assert(roots[k] != roots[at]);
    } else {
        assert(roots[at] != roots[k]);
    }
    assert(!members.contains(roots[k]));
    let after = ungrouped(rows, seq![g]).0;
    assert(peek(after, roots[k]) == peek(rows, roots[k]));
    assert(has_row(after, roots[k]));
}

proof fn they_stand_in_order(
    rows: Seq<NodeModel<Micro>>,
    after: Seq<NodeModel<Micro>>,
    g: u64,
    at: int,
    i: int,
    x: u64,
    j: int,
    y: u64,
)
    requires
        distinct(rows),
        children(rows, Some(g)).len() <= 1_000_000,
        0 <= at < children(rows, None).len(),
        children(rows, None)[at] == g,
        at + 1 < children(rows, None).len() ==> 1_024 * (peek(rows, children(rows, None)[at + 1]).z.raw
            - peek(rows, g).z.raw) > children(rows, Some(g)).len() * 1_000_000,
        0 <= i < j < children(rows, None).len() - 1 + children(rows, Some(g)).len(),
        stands_there(rows, after, g, at, i, x),
        stands_there(rows, after, g, at, j, y),
    ensures
        beneath(entry(after, x), entry(after, y)),
{
    let (roots, members) = (children(rows, None), children(rows, Some(g)));
    let q = at + members.len();
    siblings_are_in_order(rows, None);
    let (k, l) = (if i < at {
        i
    } else {
        i - q + at + 1
    }, if j < at {
        j
    } else {
        j - q + at + 1
    });
    if j < at || i >= q || (i < at && j >= q) {
        assert(beneath(entry(rows, roots[k]), entry(rows, roots[l])));
    } else if i < at {
        assert(beneath(entry(rows, roots[i]), entry(rows, roots[at])));
        lifted(j - at);
    } else if j < q {
        rises_ascend(i - at, j - at);
    } else {
        below_the_room(i - at, members.len() as int);
        if l > at + 1 {
            assert(beneath(entry(rows, roots[at + 1]), entry(rows, roots[l])));
        }
    }
}

proof fn lifted(k: int)
    requires
        0 <= k < 1_000_000,
    ensures
        0 < rise(k),
{
    reveal(rise);
}

proof fn below_the_room(k: int, n: int)
    requires
        0 <= k < n <= 1_000_000,
    ensures
        1_024 * rise(k) <= n * 1_000_000,
{
    reveal(rise);
}

// ---------------------------------------------------------------------------
// Grouping
// ---------------------------------------------------------------------------

/// The highest place of some nodes.
proof fn highest_is(rows: Seq<NodeModel<Micro>>, ids: Seq<u64>)
    requires
        forall|i: int| 0 <= i < ids.len() ==> has_row(rows, #[trigger] ids[i]),
    ensures
        ({
            let z = highest_z(rows, ids);
            &&& z.raw >= 0
            &&& forall|i: int| 0 <= i < ids.len() ==> peek(rows, #[trigger] ids[i]).z.raw <= z.raw
            &&& z.raw == 0 || exists|i: int|
                0 <= i < ids.len() && peek(rows, #[trigger] ids[i]).z == z
        }),
    decreases ids.len(),
{
    if ids.len() > 0 {
        let front = ids.drop_last();
        let n = ids.len() - 1;
        assert forall|i: int| 0 <= i < front.len() implies has_row(rows, #[trigger] front[i]) by {
            assert(front[i] == ids[i]);
        }
        highest_is(rows, front);
        let (y, z) = (highest_z(rows, front), highest_z(rows, ids));
        assert(ids.last() == ids[n] && has_row(rows, ids[n]));
        assert forall|i: int| 0 <= i < ids.len() implies peek(rows, #[trigger] ids[i]).z.raw
            <= z.raw by {
            if i < n {
                assert(front[i] == ids[i]);
            }
        }
        if z.raw != 0 {
            if z == peek(rows, ids[n]).z {
                assert(peek(rows, ids[n]).z == z);
            } else {
                assert(z == y);
                let i = choose|i: int| 0 <= i < front.len() && peek(rows, #[trigger] front[i]).z == y;
                assert(front[i] == ids[i]);
            }
        }
    }
}

/// A group takes the place of the topmost of its members: it is as high as that one, above what
/// that one was above, and below what was higher; and everything else stays where it is.
pub proof fn groups_take_the_place_of_their_topmost(
    rows: Seq<NodeModel<Micro>>,
    ids: Seq<u64>,
    top: int,
)
    requires
        distinct(rows),
        nothing_awaits(rows),
        rows_named(rows, ids),
        highest_id(rows) < u64::MAX,
        0 <= top < ids.len(),
        peek(rows, ids[top]).z.raw >= 0,
        forall|i: int|
            0 <= i < ids.len() ==> peek(rows, #[trigger] ids[i]).z.raw <= peek(rows, ids[top]).z.raw,
    ensures
        ({
            let g = (highest_id(rows) + 1) as u64;
            let w = grouped(rows, ids);
            &&& has_row(w, g) && peek(w, g).kind == NodeKind::Group && peek(w, g).parent is None
            &&& peek(w, g).z == peek(rows, ids[top]).z
            &&& forall|x: u64|
                has_row(rows, x) && !ids.contains(x) ==> {
                    &&& #[trigger] peek(w, x) == peek(rows, x)
                    &&& beneath(entry(rows, x), entry(rows, ids[top])) ==> beneath(
                        entry(w, x),
                        entry(w, g),
                    )
                    &&& peek(rows, x).z.raw > peek(rows, ids[top]).z.raw ==> beneath(
                        entry(w, g),
                        entry(w, x),
                    )
                }
        }),
{
    let gid = (highest_id(rows) + 1) as u64;
    let g = new_group(gid, highest_z(rows, ids));
    fresh_id_is_free(rows, gid);
    pushed_peeks(rows, g);
    let r = rows.push(g);
    adopted_peeks(r, gid, ids);
    highest_is(rows, ids);
    assert(has_row(rows, ids[top]));
    assert(!ids.contains(gid)) by {
        if ids.contains(gid) {
            let k = choose|k: int| 0 <= k < ids.len() && ids[k] == gid;
            assert(has_row(rows, ids[k]));
        }
    }
    let w = grouped(rows, ids);
    assert(peek(w, gid) == peek(r, gid));
    assert(has_row(w, gid) <==> has_row(r, gid));
    assert forall|x: u64| has_row(rows, x) && !ids.contains(x) implies {
        &&& #[trigger] peek(w, x) == peek(rows, x)
        &&& beneath(entry(rows, x), entry(rows, ids[top])) ==> beneath(entry(w, x), entry(w, gid))
        &&& peek(rows, x).z.raw > peek(rows, ids[top]).z.raw ==> beneath(
            entry(w, gid),
            entry(w, x),
        )
    } by {
        assert(peek(w, x) == peek(r, x));
        assert(x != gid);
        assert(peek(r, x) == peek(rows, x));
        let s = crate::scene::slot(rows, x);
        crate::ops::highest_id_bounds(rows, s);
    }
}

// ---------------------------------------------------------------------------
// Arranging
// ---------------------------------------------------------------------------

/// Whether siblings are far enough apart for something to come between, and not at the ends of
/// the numbers.
#[verifier::opaque]
pub open spec fn spaced(rows: Seq<NodeModel<Micro>>, ids: Seq<u64>) -> bool {
    &&& ids.len() < 1_000_000_000
    &&& forall|i: int|
        0 <= i < ids.len() ==> -1_000_000_000_000_000 <= (#[trigger] peek(rows, ids[i])).z.raw
            <= 1_000_000_000_000_000
    &&& forall|i: int, j: int|
        #![trigger ids[i], ids[j]]
        0 <= i < j < ids.len() ==> peek(rows, ids[i]).z.raw + 2 <= peek(rows, ids[j]).z.raw
}

proof fn spaced_at(rows: Seq<NodeModel<Micro>>, ids: Seq<u64>, i: int)
    requires
        spaced(rows, ids),
        0 <= i < ids.len(),
    ensures
        ids.len() < 1_000_000_000,
        -1_000_000_000_000_000 <= peek(rows, ids[i]).z.raw <= 1_000_000_000_000_000,
        i + 1 < ids.len() ==> peek(rows, ids[i]).z.raw + 2 <= peek(rows, ids[i + 1]).z.raw,
{
    reveal(spaced);
    assert(peek(rows, ids[i]).z.raw <= 1_000_000_000_000_000);
    if i + 1 < ids.len() {
        assert(peek(rows, ids[i]).z.raw + 2 <= peek(rows, ids[i + 1]).z.raw);
    }
}

proof fn halfway(a: Micro, b: Micro)
    requires
        -1_000_000_000_000_000 <= a.raw,
        a.raw + 2 <= b.raw,
        b.raw <= 1_000_000_000_000_000,
    ensures
        a.raw < half(a.plus(b)).raw < b.raw,
        a.raw < half(b.plus(a)).raw < b.raw,
{
    let n = (a.raw + b.raw) * 1_000_000;
    if n >= 0 {
        assert(half(a.plus(b)).raw == n / 2_000_000);
    } else {
        assert(half(a.plus(b)).raw == -(-n / 2_000_000));
    }
}

proof fn found_at(rows: Seq<NodeModel<Micro>>, parent: Option<u64>, id: u64, pos: int)
    requires
        distinct(rows),
        0 <= pos < children(rows, parent).len(),
        children(rows, parent)[pos] == id,
    ensures
        first_index(children(rows, parent), id) == Some(pos),
        others(children(rows, parent), id) == children(rows, parent).remove(pos),
        has_row(rows, id),
        peek(rows, id).parent == parent,
{
    let sibs = children(rows, parent);
    siblings_are_in_order(rows, parent);
    assert(sibs.contains(sibs[pos]));
    first_index_is(sibs, id);
    let i = first_index(sibs, id)->0;
    if i < pos {
        assert(sibs[i] != sibs[pos]);
    } else if i > pos {
        assert(sibs[pos] != sibs[i]);
    }
    others_of::<Micro>(sibs, id, pos);
}

/// Whether there is room for a node among the others of its siblings.
proof fn there_is_room(rows: Seq<NodeModel<Micro>>, rest: Seq<u64>, at: int)
    requires
        spaced(rows, rest),
        0 <= at <= rest.len(),
    ensures
        roomy(rows, rest, at),
{
    if rest.len() > 0 {
        spaced_at(rows, rest, 0);
        spaced_at(rows, rest, rest.len() - 1);
        counts_are_told_apart(rest.len() as int);
    }
}

/// The place between two siblings, or past the end of them.
proof fn a_place_fits(rows: Seq<NodeModel<Micro>>, rest: Seq<u64>, at: int, id: u64)
    requires
        spaced(rows, rest),
        0 <= at <= rest.len(),
    ensures
        fits(rows, rest, at, (resting_z(rows, rest, at), id)),
{
    if rest.len() > 0 {
        if at > 0 {
            spaced_at(rows, rest, at - 1);
        }
        if at < rest.len() {
            spaced_at(rows, rest, at);
        }
        if 0 < at < rest.len() {
            halfway(peek(rows, rest[at - 1]).z, peek(rows, rest[at]).z);
        }
    }
}

/// The place that an arranged node takes fits.
proof fn an_arranged_place_fits(
    rows: Seq<NodeModel<Micro>>,
    sibs: Seq<u64>,
    pos: int,
    t: int,
    id: u64,
)
    requires
        spaced(rows, sibs),
        0 <= pos < sibs.len(),
        0 <= t < sibs.len(),
        t != pos,
    ensures
        fits(rows, sibs.remove(pos), t, (arranged_z(rows, sibs, pos, t), id)),
{
    let rest = sibs.remove(pos);
    spaced_at(rows, sibs, t);
    if t > pos {
        assert(rest[t - 1] == sibs[t]);
        if t + 1 < sibs.len() {
            assert(rest[t] == sibs[t + 1]);
            spaced_at(rows, sibs, t + 1);
            halfway(peek(rows, sibs[t]).z, peek(rows, sibs[t + 1]).z);
        }
    } else {
        assert(rest[t] == sibs[t]);
        if t >= 1 {
            assert(rest[t - 1] == sibs[t - 1]);
            spaced_at(rows, sibs, t - 1);
            halfway(peek(rows, sibs[t - 1]).z, peek(rows, sibs[t]).z);
        }
    }
}

proof fn spaced_without(rows: Seq<NodeModel<Micro>>, sibs: Seq<u64>, pos: int)
    requires
        spaced(rows, sibs),
        0 <= pos < sibs.len(),
    ensures
        spaced(rows, sibs.remove(pos)),
{
    reveal(spaced);
    let rest = sibs.remove(pos);
    assert forall|i: int| 0 <= i < rest.len() implies -1_000_000_000_000_000 <= (#[trigger] peek(
        rows,
        rest[i],
    )).z.raw <= 1_000_000_000_000_000 by {
        if i < pos {
            assert(rest[i] == sibs[i]);
            assert(peek(rows, sibs[i]).z.raw <= 1_000_000_000_000_000);
        } else {
            assert(rest[i] == sibs[i + 1]);
            assert(peek(rows, sibs[i + 1]).z.raw <= 1_000_000_000_000_000);
        }
    }
    assert forall|i: int, j: int|
        #![trigger rest[i], rest[j]]
        0 <= i < j < rest.len() implies peek(rows, rest[i]).z.raw + 2 <= peek(
        rows,
        rest[j],
    ).z.raw by {
        let (k, l) = (if i < pos {
            i
        } else {
            i + 1
        }, if j < pos {
            j
        } else {
            j + 1
        });
        assert(rest[i] == sibs[k] && rest[j] == sibs[l]);
    }
}

/// A node that is arranged goes where the step says: up past the next sibling, down past the one
/// before, to the top above all of them, or to the bottom below all; and it stays where it is
/// already as far as that.
#[verifier::spinoff_prover]
pub proof fn arranging_goes_where_it_says(
    rows: Seq<NodeModel<Micro>>,
    id: u64,
    pos: int,
    op: Arrange,
)
    requires
        distinct(rows),
        0 <= pos < children(rows, peek(rows, id).parent).len(),
        children(rows, peek(rows, id).parent)[pos] == id,
        spaced(rows, children(rows, peek(rows, id).parent)),
    ensures
        ({
            let parent = peek(rows, id).parent;
            let before = children(rows, parent);
            let after = children(arranged(rows, id, op), parent);
            let rest = before.remove(pos);
            match op {
                Arrange::Up => if pos + 1 < before.len() {
                    after == before.update(pos, before[pos + 1]).update(pos + 1, id)
                } else {
                    after == before
                },
                Arrange::Down => if pos > 0 {
                    after == before.update(pos, before[pos - 1]).update(pos - 1, id)
                } else {
                    after == before
                },
                Arrange::Top => after == rest.push(id),
                Arrange::Bottom => after == seq![id] + rest,
            }
        }),
{
    let parent = peek(rows, id).parent;
    let sibs = children(rows, parent);
    let rest = sibs.remove(pos);
    found_at(rows, parent, id, pos);
    spaced_without(rows, sibs, pos);
    let target = arrange_target(op, pos, sibs.len() as int);
    if target is Some {
        there_is_room(rows, rest, target->0);
        an_arranged_place_fits(rows, sibs, pos, target->0, id);
    }
    arranging_moves_one_node(rows, id, op);
    let after = children(arranged(rows, id, op), parent);
    match op {
        Arrange::Up => {
            if pos + 1 < sibs.len() {
                assert(after =~= sibs.update(pos, sibs[pos + 1]).update(pos + 1, id));
            }
        },
        Arrange::Down => {
            if pos > 0 {
                assert(after =~= sibs.update(pos, sibs[pos - 1]).update(pos - 1, id));
            }
        },
        Arrange::Top => {
            assert(after =~= rest.push(id));
        },
        Arrange::Bottom => {
            assert(after =~= seq![id] + rest);
        },
    }
}

// ---------------------------------------------------------------------------
// Dropping
// ---------------------------------------------------------------------------

proof fn others_join(a: Seq<u64>, b: Seq<u64>, id: u64)
    ensures
        others(a + b, id) == others(a, id) + others(b, id),
    decreases b.len(),
{
    reveal(Seq::filter);
    if b.len() == 0 {
        assert(a + b =~= a);
        assert(others(a, id) + others(b, id) =~= others(a, id));
    } else {
        assert((a + b).drop_last() =~= a + b.drop_last());
        others_join(a, b.drop_last(), id);
        assert(others(a + b, id) =~= others(a, id) + others(b, id));
    }
}

/// The slot that a drop goes to, from what stands before it.
#[verifier::spinoff_prover]
proof fn a_slot_is(
    rows: Seq<NodeModel<Micro>>,
    id: u64,
    parent: Option<u64>,
    index: Option<int>,
)
    requires
        distinct(rows),
        has_row(rows, id),
        index matches Some(i) ==> 0 <= i <= children(rows, parent).len(),
        spaced(rows, children(rows, parent)),
    ensures
        ({
            let before = children(rows, parent);
            let i = match index {
                Some(i) => i,
                None => before.len() as int,
            };
            let stays = peek(rows, id).parent == parent;
            &&& drop_slot(before, id, stays, index) == others(before.subrange(0, i), id).len()
            &&& drop_slot(before, id, stays, index) <= others(before, id).len()
            &&& spaced(rows, others(before, id))
        }),
{
    let before = children(rows, parent);
    let i = match index {
        Some(i) => i,
        None => before.len() as int,
    };
    let (a, b) = (before.subrange(0, i), before.subrange(i, before.len() as int));
    assert(a + b =~= before);
    others_join(a, b, id);
    siblings_are_in_order(rows, parent);
    if peek(rows, id).parent == parent {
        assert(before.contains(id));
        let pos = choose|pos: int| 0 <= pos < before.len() && before[pos] == id;
        found_at(rows, parent, id, pos);
        spaced_without(rows, before, pos);
        if pos < i {
            assert(a[pos] == id);
            assert forall|k: int, l: int|
                #![trigger a[k], a[l]]
                0 <= k < l < a.len() implies a[k] != a[l] by {
                assert(before[k] != before[l]);
            }
            others_of::<Micro>(a, id, pos);
        } else {
            assert forall|k: int| 0 <= k < a.len() implies #[trigger] a[k] != id by {
                assert(before[k] != before[pos]);
            }
            others_absent(a, id);
        }
    } else {
        assert forall|k: int| 0 <= k < before.len() implies #[trigger] before[k] != id by {
            assert(before.contains(before[k]));
        }
        others_absent(before, id);
        assert forall|k: int| 0 <= k < a.len() implies #[trigger] a[k] != id by {
            assert(a[k] == before[k]);
        }
        others_absent(a, id);
    }
}

/// A node that is dropped lands where it was aimed. `index` counts the children of the new parent
/// as they stood before: what stood before it stands before the node, and what stood from it on
/// stands after; without one the node goes to the end.
#[verifier::spinoff_prover]
pub proof fn drops_land_where_aimed(
    rows: Seq<NodeModel<Micro>>,
    id: u64,
    parent: Option<u64>,
    index: Option<int>,
)
    requires
        distinct(rows),
        may_reparent(rows, id, parent),
        index matches Some(i) ==> 0 <= i <= children(rows, parent).len(),
        spaced(rows, children(rows, parent)),
    ensures
        ({
            let before = children(rows, parent);
            let i = match index {
                Some(i) => i,
                None => before.len() as int,
            };
            children(reparented(rows, id, parent, index), parent) == others(
                before.subrange(0, i),
                id,
            ) + seq![id] + others(before.subrange(i, before.len() as int), id)
        }),
{
    let before = children(rows, parent);
    let i = match index {
        Some(i) => i,
        None => before.len() as int,
    };
    let (a, b) = (before.subrange(0, i), before.subrange(i, before.len() as int));
    assert(a + b =~= before);
    others_join(a, b, id);
    let rest = others(before, id);
    let stays = peek(rows, id).parent == parent;
    let slot = drop_slot(before, id, stays, index);
    a_slot_is(rows, id, parent, index);
    let landed = rest.insert(slot, id);
    assert(landed =~= others(a, id) + seq![id] + others(b, id));
    match parent {
        Some(p) => {
            there_is_room(rows, rest, slot);
            drops_into_a_group_land_where_aimed(rows, id, p, index);
        },
        None => {
            a_place_fits(rows, rest, slot, id);
            drops_at_the_top_level_land_where_aimed(rows, id, index);
        },
    }
}

} // verus!
