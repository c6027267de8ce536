//! Gauges: how numbers of a drawing are read as whole units, and what it takes of the numbers
//! for sums, halves and turns to come out right but for rounding.
use vstd::prelude::*;
use crate::geometry::{turn_about, Point};
use crate::ops::count_spec;
use crate::products::{cancelled, commuted, distributed, mono, product_within};
use crate::scalar::{half, Scalar};
use crate::sway::{amiss, away, both_within, round, summed};

verus! {

/// A way to read numbers: lengths as whole units, and angles as a cosine and a sine in parts of
/// a whole `p`.
#[verifier::reject_recursive_types(S)]
pub ghost struct Gauge<S> {
    /// How many units a number is.
    pub units: spec_fn(S) -> int,
    /// The cosine and the sine of an angle, in parts.
    pub bears: spec_fn(S) -> (int, int),
    /// How many parts make a whole.
    pub p: int,
    /// How many units a number may be for it to be reckoned with.
    pub reach: int,
}

/// Whether two counts of units differ by two at most.
pub open spec fn about(a: int, b: int) -> bool {
    -2 <= a - b <= 2
}

/// How large a count of units is, either way.
pub open spec fn size(a: int) -> int {
    if a >= 0 {
        a
    } else {
        -a
    }
}

impl<S: Scalar> Gauge<S> {
    /// How many units a number is.
    pub open spec fn u(self, a: S) -> int {
        (self.units)(a)
    }

    /// The cosine and the sine of an angle, in parts.
    pub open spec fn t(self, a: S) -> (int, int) {
        (self.bears)(a)
    }

    /// Whether a number can be reckoned with.
    pub open spec fn known(self, a: S) -> bool {
        -self.reach <= self.u(a) <= self.reach
    }

    /// Where a point is, in units.
    pub open spec fn at(self, a: Point<S>) -> (int, int) {
        (self.u(a.x), self.u(a.y))
    }

    /// Whether lengths are read closely: sums, differences, halves and doubles come out right but
    /// for two units, magnitudes and the lesser of two exactly, and a mean but for two units.
    pub open spec fn reads_lengths(self) -> bool {
        &&& self.u(S::of_int(0)) == 0
        &&& forall|a: S, b: S|
            self.known(a) && self.known(b) ==> about(
                #[trigger] self.u(a.plus(b)),
                self.u(a) + self.u(b),
            )
        &&& forall|a: S, b: S|
            self.known(a) && self.known(b) ==> about(
                #[trigger] self.u(a.minus(b)),
                self.u(a) - self.u(b),
            )
        &&& forall|a: S| self.known(a) ==> about(2 * #[trigger] self.u(half(a)), self.u(a))
        &&& forall|a: S|
            self.known(a) ==> about(#[trigger] self.u(a.times(S::of_int(2))), 2 * self.u(a))
        &&& forall|a: S| self.known(a) ==> #[trigger] self.u(a.magnitude()) == size(self.u(a))
        &&& forall|a: S, b: S|
            self.known(a) && self.known(b) ==> #[trigger] self.u(a.lesser(b)) == if self.u(a)
                <= self.u(b) {
                self.u(a)
            } else {
                self.u(b)
            }
        &&& forall|a: S, n: int|
            self.known(a) && 0 < n <= 10_000 ==> -(2 * n) <= self.u(a) - #[trigger] self.u(
                a.over(count_spec::<S>(n)),
            ) * n <= 2 * n
    }

    /// Whether angles are read closely: cosines and sines lie on the circle, take their part of
    /// a length but for two units and one part of it, and add as their angles do; and an angle
    /// less itself is no turn.
    pub open spec fn reads_angles(self) -> bool {
        &&& forall|d: S| round(self.p, #[trigger] self.t(d))
        &&& forall|a: S, d: S|
            self.known(a) ==> {
                let e = self.p * #[trigger] self.u(a.times(d.sine_cosine().1)) - self.u(a) * self.t(
                    d,
                ).0;
                -(2 * self.p + size(self.u(a))) <= e <= 2 * self.p + size(self.u(a))
            }
        &&& forall|a: S, d: S|
            self.known(a) ==> {
                let e = self.p * #[trigger] self.u(a.times(d.sine_cosine().0)) - self.u(a) * self.t(
                    d,
                ).1;
                -(2 * self.p + size(self.u(a))) <= e <= 2 * self.p + size(self.u(a))
            }
        &&& forall|a: S, b: S, c: S|
            #![trigger self.t(b.minus(a)), self.t(c.minus(b))]
            self.known(a) && self.known(b) && self.known(c) ==> summed(
                self.p,
                self.t(b.minus(a)),
                self.t(c.minus(b)),
                self.t(c.minus(a)),
            )
        &&& forall|a: S| self.known(a) ==> #[trigger] self.t(a.minus(a)) == (self.p, 0int)
        &&& forall|r: S, a: S, b: S|
            self.known(r) && self.known(a) && self.known(b) ==> {
                let s = #[trigger] r.plus(b.minus(a)).wrapped(S::of_int(360));
                self.known(s) && summed(self.p, self.t(r), self.t(b.minus(a)), self.t(s))
            }
    }

    /// Whether numbers are read closely. Numbers in whole millionths are, as they stand; machine
    /// floats are, as far as the units and the parts are coarse beside their last digits.
    #[verifier::opaque]
    pub open spec fn reads_closely(self) -> bool {
        self.p > 0 && self.reads_lengths() && self.reads_angles()
    }
}

/// How sums, differences and the lesser of two numbers are read.
pub proof fn sums_read<S: Scalar>(g: Gauge<S>, a: S, b: S)
    requires
        g.reads_closely(),
        g.known(a),
        g.known(b),
    ensures
        about(g.u(a.plus(b)), g.u(a) + g.u(b)),
        about(g.u(a.minus(b)), g.u(a) - g.u(b)),
        g.u(a.lesser(b)) == if g.u(a) <= g.u(b) {
            g.u(a)
        } else {
            g.u(b)
        },
{
    reveal(Gauge::reads_closely);
}

/// How halves, doubles and magnitudes are read.
pub proof fn halves_read<S: Scalar>(g: Gauge<S>, a: S)
    requires
        g.reads_closely(),
        g.known(a),
    ensures
        about(2 * g.u(half(a)), g.u(a)),
        about(g.u(a.times(S::of_int(2))), 2 * g.u(a)),
        g.u(a.magnitude()) == size(g.u(a)),
{
    reveal(Gauge::reads_closely);
}

/// How nought is read.
pub proof fn nothing_reads<S: Scalar>(g: Gauge<S>)
    requires
        g.reads_closely(),
    ensures
        g.u(S::of_int(0)) == 0,
{
    reveal(Gauge::reads_closely);
}

/// How means are read.
pub proof fn means_read<S: Scalar>(g: Gauge<S>, a: S, n: int)
    requires
        g.reads_closely(),
        g.known(a),
        0 < n <= 10_000,
    ensures
        -(2 * n) <= g.u(a) - g.u(a.over(count_spec::<S>(n))) * n <= 2 * n,
{
    reveal(Gauge::reads_closely);
}

/// How turns from one angle to another are read.
pub proof fn angles_read<S: Scalar>(g: Gauge<S>, a: S, b: S, c: S)
    requires
        g.reads_closely(),
        g.known(a),
        g.known(b),
        g.known(c),
    ensures
        g.p > 0,
        round(g.p, g.t(c.minus(b))),
        g.t(a.minus(a)) == (g.p, 0int),
        summed(g.p, g.t(b.minus(a)), g.t(c.minus(b)), g.t(c.minus(a))),
{
    reveal(Gauge::reads_closely);
}

/// How an angle is read that was turned further.
pub proof fn turns_read<S: Scalar>(g: Gauge<S>, r: S, a: S, b: S)
    requires
        g.reads_closely(),
        g.known(r),
        g.known(a),
        g.known(b),
    ensures
        ({
            let s = r.plus(b.minus(a)).wrapped(S::of_int(360));
            g.known(s) && summed(g.p, g.t(r), g.t(b.minus(a)), g.t(s))
        }),
        round(g.p, g.t(r)),
{
    reveal(Gauge::reads_closely);
}

/// How a part of a length is read.
proof fn products_read<S: Scalar>(g: Gauge<S>, a: S, d: S)
    requires
        g.reads_closely(),
        g.known(a),
    ensures
        ({
            let (s, k) = d.sine_cosine();
            let e = g.p * g.u(a.times(k)) - g.u(a) * g.t(d).0;
            let f = g.p * g.u(a.times(s)) - g.u(a) * g.t(d).1;
            &&& -(2 * g.p + size(g.u(a))) <= e <= 2 * g.p + size(g.u(a))
            &&& -(2 * g.p + size(g.u(a))) <= f <= 2 * g.p + size(g.u(a))
        }),
        round(g.p, g.t(d)),
        g.p > 0,
{
    reveal(Gauge::reads_closely);
}

// ---------------------------------------------------------------------------
// Turned points
// ---------------------------------------------------------------------------

/// A product with a sine, from what it should be: `u` units that should be `v`.
proof fn part_of(p: int, u: int, v: int, t: int, x: int)
    requires
        p > 0,
        about(u, v),
        -p <= t <= p,
        -(2 * p + size(u)) <= p * x - u * t <= 2 * p + size(u),
    ensures
        -(4 * p + size(v) + 2) <= p * x - v * t <= 4 * p + size(v) + 2,
        size(x) <= 2 * size(v) + 8,
{
    product_within(u - v, t, 2, p);
    distributed(t, u, v);
    let s = size(v);
    product_within(v, t, s, p);
    // p times x is no more than p times twice the size of v, and eight.
    commuted(s, p);
    mono(s, 1, p);
    commuted(s, 1);
    distributed(p, 2 * s, 8);
    distributed(p, s, s);
    cancelled(p, x, 2 * s + 8);
    cancelled(p, -(2 * s + 8), x);
    distributed(p, 0, 2 * s + 8);
}

/// A point that has orbited another is where it should be, but for so much.
pub proof fn turned_points_read<S: Scalar>(
    g: Gauge<S>,
    a: Point<S>,
    c: Point<S>,
    delta: S,
    d: int,
)
    requires
        g.reads_closely(),
        100 <= d,
        100 * d <= g.reach,
        both_within(g.at(a), 3 * d),
        both_within(g.at(c), 4 * d),
    ensures
        ({
            let q = turn_about(a, c, delta);
            &&& both_within(
                amiss(g.p, away(g.at(c), g.at(a)), away(g.at(c), g.at(q)), g.t(delta)),
                13 * g.p + 15 * d,
            )
            &&& both_within(g.at(q), 40 * d)
        }),
        round(g.p, g.t(delta)),
        g.p > 0,
{
    let (s, k) = delta.sine_cosine();
    let dx = a.x.minus(c.x);
    let dy = a.y.minus(c.y);
    let v = away(g.at(c), g.at(a));
    let (t, p) = (g.t(delta), g.p);
    sums_read(g, a.x, c.x);
    sums_read(g, a.y, c.y);
    products_read(g, dx, delta);
    products_read(g, dy, delta);
    part_of(p, g.u(dx), v.0, t.0, g.u(dx.times(k)));
    part_of(p, g.u(dx), v.0, t.1, g.u(dx.times(s)));
    part_of(p, g.u(dy), v.1, t.1, g.u(dy.times(s)));
    part_of(p, g.u(dy), v.1, t.0, g.u(dy.times(k)));
    sums_read(g, c.x, dx.times(k));
    sums_read(g, c.y, dx.times(s));
    let x1 = c.x.plus(dx.times(k));
    let y1 = c.y.plus(dx.times(s));
    sums_read(g, x1, dy.times(s));
    sums_read(g, y1, dy.times(k));
    let q = turn_about(a, c, delta);
    let w = away(g.at(c), g.at(q));
    let e = w.0 - (g.u(dx.times(k)) - g.u(dy.times(s)));
    let f = w.1 - (g.u(dx.times(s)) + g.u(dy.times(k)));
    product_within(e, p, 4, p);
    product_within(f, p, 4, p);
    joined_up(p, w.0, g.u(dx.times(k)), -g.u(dy.times(s)), e);
    joined_up(p, w.1, g.u(dx.times(s)), g.u(dy.times(k)), f);
    distributed(p, 0, g.u(dy.times(s)));
    reveal(amiss);
}

proof fn joined_up(p: int, w: int, a: int, b: int, e: int)
    requires
        w == a + b + e,
    ensures
        p * w == p * a + p * b + e * p,
{
    distributed(p, a + b, e);
    distributed(p, a, b);
    commuted(p, e);
}

} // verus!
