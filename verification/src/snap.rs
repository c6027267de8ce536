//! Snapping: what is dragged lines up with the edges and the middles of its neighbours.
use vstd::prelude::*;
use crate::bounds::{visual_frame, visual_frames};
use crate::geometry::{united, united_all};
use crate::micro::Micro;
use crate::node::NodeModel;
use crate::ops::filter_step;
use crate::scalar::{half, numbers_rank, Scalar};
use crate::scene::{children, peek, position, shapes_of_each, Scene};

verus! {

// ---------------------------------------------------------------------------
// What there is to line up
// ---------------------------------------------------------------------------

/// The two edges and the middle of a span.
pub open spec fn span_lines<S: Scalar>(at: S, extent: S) -> Seq<S> {
    seq![at, at.plus(half(extent)), at.plus(extent)]
}

/// The lines of each of some spans, in turn.
pub open spec fn lines_of_each<S: Scalar>(spans: Seq<(S, S)>) -> Seq<S>
    decreases spans.len(),
{
    if spans.len() == 0 {
        Seq::empty()
    } else {
        lines_of_each(spans.drop_last()) + span_lines(spans.last().0, spans.last().1)
    }
}

/// How far frames reach from left to right.
pub open spec fn spans_across<S>(frames: Seq<(S, S, S, S)>) -> Seq<(S, S)> {
    Seq::new(frames.len(), |i: int| (frames[i].0, frames[i].2))
}

/// How far frames reach from top to bottom.
pub open spec fn spans_down<S>(frames: Seq<(S, S, S, S)>) -> Seq<(S, S)> {
    Seq::new(frames.len(), |i: int| (frames[i].1, frames[i].3))
}

pub open spec fn left_alone(moving: Seq<u64>) -> spec_fn(u64) -> bool {
    |id: u64| !moving.contains(id)
}

/// The shapes of the drawing that a drag does not take along.
pub open spec fn neighbours<S: Scalar>(rows: Seq<NodeModel<S>>, moving: Seq<u64>) -> Seq<u64> {
    shapes_of_each(rows, children(rows, None)).filter(left_alone(moving))
}

/// The upright lines that neighbours offer.
pub open spec fn stops_across<S: Scalar>(rows: Seq<NodeModel<S>>, moving: Seq<u64>) -> Seq<S> {
    lines_of_each(spans_across(visual_frames(rows, neighbours(rows, moving))))
}

/// The level lines that neighbours offer.
pub open spec fn stops_down<S: Scalar>(rows: Seq<NodeModel<S>>, moving: Seq<u64>) -> Seq<S> {
    lines_of_each(spans_down(visual_frames(rows, neighbours(rows, moving))))
}

/// What the moving shapes together occupy.
pub open spec fn moving_frame<S: Scalar>(rows: Seq<NodeModel<S>>, moving: Seq<u64>) -> Option<
    (S, S, S, S),
> {
    united_all(visual_frames(rows, moving))
}

// ---------------------------------------------------------------------------
// The nearest line
// ---------------------------------------------------------------------------

/// The nearer of the nearest stop so far and one more. A stop comes with the step to it.
pub open spec fn nearer<S: Scalar>(best: Option<(S, S)>, edge: S, stop: S, reach: S) -> Option<
    (S, S),
> {
    let step = stop.minus(edge);
    if step.magnitude().at_most(reach) && match best {
        Some((other, _)) => step.magnitude().ranks_below(other.magnitude()),
        None => true,
    } {
        Some((step, stop))
    } else {
        best
    }
}

/// The nearest stop to one edge, or the best so far.
pub open spec fn nearest_to<S: Scalar>(best: Option<(S, S)>, edge: S, stops: Seq<S>, reach: S) -> Option<
    (S, S),
>
    decreases stops.len(),
{
    if stops.len() == 0 {
        best
    } else {
        nearer(nearest_to(best, edge, stops.drop_last(), reach), edge, stops.last(), reach)
    }
}

/// The nearest stop within reach of any edge once the edges have moved by `by`, and the step
/// to it; the first where several are as near.
pub open spec fn nearest<S: Scalar>(edges: Seq<S>, by: S, stops: Seq<S>, reach: S) -> Option<(S, S)>
    decreases edges.len(),
{
    if edges.len() == 0 {
        None
    } else {
        nearest_to(
            nearest(edges.drop_last(), by, stops, reach),
            edges.last().plus(by),
            stops,
            reach,
        )
    }
}

/// What a way along one axis is pulled to. Without travel there is no pull.
pub open spec fn pull<S: Scalar>(edges: Seq<S>, by: S, stops: Seq<S>, reach: S) -> Option<(S, S)> {
    if by.equals(S::of_int(0)) {
        None
    } else {
        nearest(edges, by, stops, reach)
    }
}

/// The way along one axis after a pull.
pub open spec fn pulled<S: Scalar>(by: S, pull: Option<(S, S)>) -> S {
    match pull {
        Some((step, _)) => by.plus(step),
        None => by,
    }
}

/// The line that a pull goes to.
pub open spec fn guide<S>(pull: Option<(S, S)>) -> Option<S> {
    match pull {
        Some((_, stop)) => Some(stop),
        None => None,
    }
}

/// The nearest stop within reach of any edge once the edges have moved by `by`.
pub fn find_pull<S: Scalar>(edges: &Vec<S>, by: S, stops: &Vec<S>, reach: S) -> (r: Option<(S, S)>)
    ensures
        r == pull(edges@, by, stops@, reach),
{
    if by.equals(S::of_int(0)) {
        return None;
    }
    let mut best: Option<(S, S)> = None;
    let mut i: usize = 0;
    assert(edges@.subrange(0, 0) =~= Seq::<S>::empty());
    while i < edges.len()
        invariant
            i <= edges.len(),
            best == nearest(edges@.subrange(0, i as int), by, stops@, reach),
        decreases edges.len() - i,
    {
        assert(edges@.subrange(0, i + 1).drop_last() =~= edges@.subrange(0, i as int));
        let edge = edges[i].plus(by);
        let ghost before = best;
        let mut j: usize = 0;
        assert(stops@.subrange(0, 0) =~= Seq::<S>::empty());
        while j < stops.len()
            invariant
                j <= stops.len(),
                best == nearest_to(before, edge, stops@.subrange(0, j as int), reach),
            decreases stops.len() - j,
        {
            assert(stops@.subrange(0, j + 1).drop_last() =~= stops@.subrange(0, j as int));
            let step = stops[j].minus(edge);
            let closer = match best {
                Some((other, _)) => step.magnitude().ranks_below(other.magnitude()),
                None => true,
            };
            if step.magnitude().at_most(reach) && closer {
                best = Some((step, stops[j]));
            }
            j += 1;
        }
        assert(stops@.subrange(0, j as int) =~= stops@);
        i += 1;
    }
    assert(edges@.subrange(0, i as int) =~= edges@);
    best
}

/// Appends the two edges and the middle of a span.
pub fn push_span<S: Scalar>(out: &mut Vec<S>, at: S, extent: S)
    ensures
        final(out)@ == old(out)@ + span_lines(at, extent),
{
    let ghost before = out@;
    out.push(at);
    out.push(at.plus(half(extent)));
    out.push(at.plus(extent));
    assert(out@ =~= before + span_lines(at, extent));
}

impl<S: Scalar> Scene<S> {
    /// The shapes of the drawing that a drag does not take along.
    pub fn neighbours(&self, moving: &[u64]) -> (r: Vec<u64>)
        requires
            self.wf(),
        ensures
            r@ == neighbours(self@.rows, moving@),
    {
        let roots = self.children_of(None);
        let all = self.shapes_under(roots.as_slice());
        let mut out: Vec<u64> = Vec::new();
        let mut i: usize = 0;
        let ghost keep = left_alone(moving@);
        proof {
            reveal(Seq::filter);
            assert(all@.subrange(0, 0).filter(keep) =~= Seq::<u64>::empty());
        }
        while i < all.len()
            invariant
                i <= all.len(),
                keep == left_alone(moving@),
                out@ == all@.subrange(0, i as int).filter(keep),
            decreases all.len() - i,
        {
            proof {
                filter_step(all@, keep, i as int);
            }
            if position(moving, all[i]).is_none() {
                out.push(all[i]);
            }
            i += 1;
        }
        assert(all@.subrange(0, i as int) =~= all@);
        out
    }

    /// The upright and the level lines that neighbours offer.
    pub fn stops(&self, moving: &[u64]) -> (r: (Vec<S>, Vec<S>))
        requires
            self.wf(),
        ensures
            r.0@ == stops_across(self@.rows, moving@),
            r.1@ == stops_down(self@.rows, moving@),
    {
        let ids = self.neighbours(moving);
        let ghost frames = visual_frames(self@.rows, ids@);
        let ghost xs = spans_across(frames);
        let ghost ys = spans_down(frames);
        let mut across: Vec<S> = Vec::new();
        let mut down: Vec<S> = Vec::new();
        let mut i: usize = 0;
        assert(xs.subrange(0, 0) =~= Seq::<(S, S)>::empty());
        assert(ys.subrange(0, 0) =~= Seq::<(S, S)>::empty());
        while i < ids.len()
            invariant
                self.wf(),
                i <= ids.len(),
                frames == visual_frames(self@.rows, ids@),
                xs == spans_across(frames),
                ys == spans_down(frames),
                across@ == lines_of_each(xs.subrange(0, i as int)),
                down@ == lines_of_each(ys.subrange(0, i as int)),
            decreases ids.len() - i,
        {
            assert(xs.subrange(0, i + 1).drop_last() =~= xs.subrange(0, i as int));
            assert(ys.subrange(0, i + 1).drop_last() =~= ys.subrange(0, i as int));
            let f = self.visual_frame(ids[i]);
            assert(f == frames[i as int]);
            push_span(&mut across, f.0, f.2);
            push_span(&mut down, f.1, f.3);
            i += 1;
        }
        assert(xs.subrange(0, i as int) =~= xs);
        assert(ys.subrange(0, i as int) =~= ys);
        (across, down)
    }

    /// What the moving shapes together occupy.
    pub fn moving_frame(&self, moving: &[u64]) -> (r: Option<(S, S, S, S)>)
        requires
            self.wf(),
        ensures
            r == moving_frame(self@.rows, moving@),
    {
        let mut acc: Option<(S, S, S, S)> = None;
        let mut i: usize = 0;
        let ghost frames = visual_frames(self@.rows, moving@);
        assert(frames.subrange(0, 0) =~= Seq::<(S, S, S, S)>::empty());
        while i < moving.len()
            invariant
                self.wf(),
                i <= moving.len(),
                frames == visual_frames(self@.rows, moving@),
                acc == united_all(frames.subrange(0, i as int)),
            decreases moving.len() - i,
        {
            assert(frames.subrange(0, i + 1).drop_last() =~= frames.subrange(0, i as int));
            let f = self.visual_frame(moving[i]);
            assert(f == visual_frame(peek(self@.rows, moving@[i as int])));
            acc = Some(
                match acc {
                    None => f,
                    Some(a) => united(a, f),
                },
            );
            i += 1;
        }
        assert(frames.subrange(0, i as int) =~= frames);
        acc
    }
}

// ---------------------------------------------------------------------------
// Laws
// ---------------------------------------------------------------------------

/// Whether a stop lies within reach of an edge.
pub open spec fn reached<S: Scalar>(edge: S, stop: S, reach: S) -> bool {
    stop.minus(edge).magnitude().at_most(reach)
}

/// Whether a stop lies nearer to an edge than `step` does.
pub open spec fn closer<S: Scalar>(edge: S, stop: S, step: S) -> bool {
    stop.minus(edge).magnitude().ranks_below(step.magnitude())
}

/// Whether a result beats one edge and all of some stops.
spec fn beats<S: Scalar>(r: Option<(S, S)>, edge: S, stops: Seq<S>, reach: S) -> bool {
    forall|j: int|
        0 <= j < stops.len() && reached(edge, #[trigger] stops[j], reach) ==> match r {
            Some((step, _)) => !closer(edge, stops[j], step),
            None => false,
        }
}

/// Whether a result is at least as near as an earlier one.
spec fn no_worse<S: Scalar>(r: Option<(S, S)>, before: Option<(S, S)>) -> bool {
    match before {
        Some((old_step, _)) => match r {
            Some((step, _)) => !old_step.magnitude().ranks_below(step.magnitude()),
            None => false,
        },
        None => true,
    }
}

proof fn nearest_to_is<S: Scalar>(best: Option<(S, S)>, edge: S, stops: Seq<S>, reach: S)
    ensures
        ({
            let r = nearest_to(best, edge, stops, reach);
            &&& beats(r, edge, stops, reach)
            &&& no_worse(r, best)
            &&& r == best || (r matches Some((step, stop)) && stops.contains(stop) && step
                == stop.minus(edge) && reached(edge, stop, reach))
        }),
    decreases stops.len(),
{
    numbers_rank::<S>();
    if stops.len() > 0 {
        let front = stops.drop_last();
        nearest_to_is(best, edge, front, reach);
        let before = nearest_to(best, edge, front, reach);
        let r = nearest_to(best, edge, stops, reach);
        let n = stops.len() - 1;
        assert(stops[n] == stops.last());
        assert(no_worse(r, before));
        assert forall|j: int|
            0 <= j < stops.len() && reached(edge, #[trigger] stops[j], reach) implies match r {
            Some((step, _)) => !closer(edge, stops[j], step),
            None => false,
        } by {
            if j < n {
                assert(front[j] == stops[j]);
                assert(reached(edge, front[j], reach));
            }
        }
        if before is Some && front.contains((before->0).1) {
            let stop = (before->0).1;
            let j = choose|j: int| 0 <= j < front.len() && front[j] == stop;
            assert(stops[j] == stop);
        }
    }
}

proof fn worse_results_are_beaten<S: Scalar>(
    r: Option<(S, S)>,
    before: Option<(S, S)>,
    edge: S,
    stops: Seq<S>,
    reach: S,
)
    requires
        no_worse(r, before),
        beats(before, edge, stops, reach),
    ensures
        beats(r, edge, stops, reach),
{
    numbers_rank::<S>();
    assert forall|j: int|
        0 <= j < stops.len() && reached(edge, #[trigger] stops[j], reach) implies match r {
        Some((step, _)) => !closer(edge, stops[j], step),
        None => false,
    } by {
        let (old_step, _) = before->0;
        assert(!closer(edge, stops[j], old_step));
        let (step, _) = r->0;
        if closer(edge, stops[j], step) {
            let m = stops[j].minus(edge).magnitude();
            assert(m.ranks_below(old_step.magnitude()) || old_step.magnitude().ranks_below(
                step.magnitude(),
            ));
        }
    }
}

/// What is dragged is pulled to the nearest line. A pull goes to a line that a neighbour offers,
/// from an edge or the middle of what is dragged, within reach, and no line lies nearer to any
/// of these; where there is no pull, none is within reach.
pub proof fn pulls_go_to_the_nearest_line<S: Scalar>(edges: Seq<S>, by: S, stops: Seq<S>, reach: S)
    ensures
        match nearest(edges, by, stops, reach) {
            Some((step, stop)) => {
                &&& stops.contains(stop)
                &&& exists|i: int|
                    0 <= i < edges.len() && step == stop.minus((#[trigger] edges[i]).plus(by))
                        && reached(edges[i].plus(by), stop, reach)
                &&& forall|i: int, j: int|
                    #![trigger edges[i], stops[j]]
                    0 <= i < edges.len() && 0 <= j < stops.len() && reached(
                        edges[i].plus(by),
                        stops[j],
                        reach,
                    ) ==> !closer(edges[i].plus(by), stops[j], step)
            },
            None => forall|i: int, j: int|
                #![trigger edges[i], stops[j]]
                0 <= i < edges.len() && 0 <= j < stops.len() ==> !reached(
                    edges[i].plus(by),
                    stops[j],
                    reach,
                ),
        },
    decreases edges.len(),
{
    if edges.len() > 0 {
        let front = edges.drop_last();
        let n = edges.len() - 1;
        let last = edges[n].plus(by);
        assert(edges[n] == edges.last());
        pulls_go_to_the_nearest_line(front, by, stops, reach);
        let before = nearest(front, by, stops, reach);
        let r = nearest(edges, by, stops, reach);
        nearest_to_is(before, last, stops, reach);
        assert forall|i: int| 0 <= i < edges.len() implies beats(
            r,
            (#[trigger] edges[i]).plus(by),
            stops,
            reach,
        ) by {
            if i < n {
                assert(front[i] == edges[i]);
                assert(beats(before, front[i].plus(by), stops, reach)) by {
                    assert forall|j: int|
                        0 <= j < stops.len() && reached(
                            front[i].plus(by),
                            #[trigger] stops[j],
                            reach,
                        ) implies match before {
                        Some((step, _)) => !closer(front[i].plus(by), stops[j], step),
                        None => false,
                    } by {
                        assert(front[i] == edges[i]);
                    }
                }
                worse_results_are_beaten(r, before, edges[i].plus(by), stops, reach);
            }
        }
        assert forall|i: int, j: int|
            #![trigger edges[i], stops[j]]
            0 <= i < edges.len() && 0 <= j < stops.len() && reached(
                edges[i].plus(by),
                stops[j],
                reach,
            ) implies (match r {
            Some((step, _)) => !closer(edges[i].plus(by), stops[j], step),
            None => false,
        }) by {
            assert(beats(r, edges[i].plus(by), stops, reach));
        }
        if r is Some && r == before {
            let (step, stop) = r->0;
            let i = choose|i: int|
                0 <= i < front.len() && step == stop.minus((#[trigger] front[i]).plus(by))
                    && reached(front[i].plus(by), stop, reach);
            assert(edges[i] == front[i]);
        }
    }
}

/// What is pulled lines up: the edge that a pull comes from ends on the line it goes to. In
/// millionths this holds to the last one, short of the ends of their range.
pub proof fn pulled_edges_meet_the_line(edges: Seq<Micro>, by: Micro, stops: Seq<Micro>, reach: Micro)
    requires
        forall|i: int|
            0 <= i < edges.len() ==> -1_000_000_000_000_000_000 <= (#[trigger] edges[i]).raw
                <= 1_000_000_000_000_000_000,
        forall|i: int|
            0 <= i < stops.len() ==> -1_000_000_000_000_000_000 <= (#[trigger] stops[i]).raw
                <= 1_000_000_000_000_000_000,
        -1_000_000_000_000_000_000 <= by.raw <= 1_000_000_000_000_000_000,
        pull(edges, by, stops, reach) is Some,
    ensures
        ({
            let p = pull(edges, by, stops, reach);
            exists|i: int|
                0 <= i < edges.len() && (#[trigger] edges[i]).plus(pulled(by, p)) == guide(p)->0
        }),
{
    pulls_go_to_the_nearest_line(edges, by, stops, reach);
    let (step, stop) = pull(edges, by, stops, reach)->0;
    let i = choose|i: int|
        0 <= i < edges.len() && step == stop.minus((#[trigger] edges[i]).plus(by)) && reached(
            edges[i].plus(by),
            stop,
            reach,
        );
    let j = choose|j: int| 0 <= j < stops.len() && stops[j] == stop;
    assert(-1_000_000_000_000_000_000 <= stops[j].raw <= 1_000_000_000_000_000_000);
    assert(edges[i].plus(by.plus(step)) == stop);
}

} // verus!
