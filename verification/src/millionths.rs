//! Numbers in whole millionths are read closely.
use vstd::prelude::*;
use crate::exact::within;
use crate::gauge::{about, size, Gauge};
use crate::micro::Micro;
use crate::ops::count_spec;
use crate::plane::{bearing, bearings_sum, nothing_bears};
use crate::products::product_within;
use crate::rigid::turn_bears;
use crate::scalar::{half, Scalar};
use crate::sway::{amiss, round, summed};
use crate::turning::mean_is;

verus! {

/// Millionths, read as they are.
pub open spec fn millionths() -> Gauge<Micro> {
    Gauge {
        units: |v: Micro| v.raw as int,
        bears: |v: Micro| bearing(v.raw as int),
        p: 1_000_000,
        reach: 1_000_000_000_000_000_000,
    }
}

pub proof fn half_reads(v: Micro)
    requires
        within(v, 1_000_000_000_000_000_000),
    ensures
        about(2 * half(v).raw, v.raw as int),
{
    let n = v.raw * 1_000_000;
    if n >= 0 {
        assert(half(v).raw == n / 2_000_000);
    } else {
        assert(half(v).raw == -(-n / 2_000_000));
    }
}

pub proof fn double_reads(v: Micro)
    requires
        within(v, 1_000_000_000_000_000_000),
    ensures
        v.times(Micro::of_int(2)).raw == 2 * v.raw,
{
    let n = v.raw * 2_000_000;
    assert(Micro::of_int(2).raw == 2_000_000);
    if n >= 0 {
        assert(v.times(Micro::of_int(2)).raw == n / 1_000_000);
    } else {
        assert(v.times(Micro::of_int(2)).raw == -(-n / 1_000_000));
    }
}

pub proof fn product_reads(v: Micro, u: Micro)
    requires
        within(v, 1_000_000_000_000_000_000),
        within(u, 1_000_000),
    ensures
        -1_000_000 <= 1_000_000 * v.times(u).raw - v.raw * u.raw <= 1_000_000,
{
    let n = v.raw * u.raw;
    product_within(v.raw as int, u.raw as int, 1_000_000_000_000_000_000, 1_000_000);
    if n >= 0 {
        assert(v.times(u).raw == n / 1_000_000);
    } else {
        assert(v.times(u).raw == -(-n / 1_000_000));
    }
}

/// Bearings add as their angles do.
proof fn bearings_summed(a: int, b: int, c: int)
    requires
        bearing(c) == bearing(a + b),
    ensures
        summed(1_000_000, bearing(a), bearing(b), bearing(c)),
{
    bearings_sum(a, b);
    reveal(amiss);
}

proof fn wrapped_bears(r: Micro, delta: Micro)
    requires
        within(r, 1_000_000_000_000_000_000),
        within(delta, 2_000_000_000_000_000_000),
    ensures
        ({
            let s = r.plus(delta).wrapped(Micro::of_int(360));
            within(s, 1_000_000_000_000_000_000) && bearing(s.raw as int) == bearing(
                r.raw + delta.raw,
            )
        }),
{
    assert(r.plus(delta).raw == r.raw + delta.raw);
    assert(Micro::of_int(360).raw == 360_000_000);
    reveal(bearing);
}

proof fn lengths_read()
    ensures
        millionths().reads_lengths(),
{
    let g = millionths();
    assert forall|a: Micro| g.known(a) implies about(2 * #[trigger] g.u(half(a)), g.u(a)) by {
        half_reads(a);
    }
    assert forall|a: Micro| g.known(a) implies about(
        #[trigger] g.u(a.times(Micro::of_int(2))),
        2 * g.u(a),
    ) by {
        double_reads(a);
    }
    assert forall|a: Micro, n: int| g.known(a) && 0 < n <= 10_000 implies -(2 * n) <= g.u(a)
        - #[trigger] g.u(a.over(count_spec::<Micro>(n))) * n <= 2 * n by {
        mean_is(a, n);
    }
}

proof fn angles_read()
    ensures
        millionths().reads_angles(),
{
    let g = millionths();
    assert forall|d: Micro| round(g.p, #[trigger] g.t(d)) by {
        turn_bears(d);
    }
    assert forall|a: Micro, d: Micro| g.known(a) implies {
        let e = g.p * #[trigger] g.u(a.times(d.sine_cosine().1)) - g.u(a) * g.t(d).0;
        -(2 * g.p + size(g.u(a))) <= e <= 2 * g.p + size(g.u(a))
    } by {
        turn_bears(d);
        product_reads(a, d.sine_cosine().1);
    }
    assert forall|a: Micro, d: Micro| g.known(a) implies {
        let e = g.p * #[trigger] g.u(a.times(d.sine_cosine().0)) - g.u(a) * g.t(d).1;
        -(2 * g.p + size(g.u(a))) <= e <= 2 * g.p + size(g.u(a))
    } by {
        turn_bears(d);
        product_reads(a, d.sine_cosine().0);
    }
    assert forall|a: Micro, b: Micro, c: Micro|
        #![trigger g.t(b.minus(a)), g.t(c.minus(b))]
        g.known(a) && g.known(b) && g.known(c) implies summed(
        g.p,
        g.t(b.minus(a)),
        g.t(c.minus(b)),
        g.t(c.minus(a)),
    ) by {
        bearings_summed(b.raw - a.raw, c.raw - b.raw, c.raw - a.raw);
    }
    assert forall|a: Micro| g.known(a) implies #[trigger] g.t(a.minus(a)) == (g.p, 0int) by {
        nothing_bears();
    }
    assert forall|r: Micro, a: Micro, b: Micro|
        g.known(r) && g.known(a) && g.known(b) implies {
        let s = #[trigger] r.plus(b.minus(a)).wrapped(Micro::of_int(360));
        g.known(s) && summed(g.p, g.t(r), g.t(b.minus(a)), g.t(s))
    } by {
        let delta = b.minus(a);
        let s = r.plus(delta).wrapped(Micro::of_int(360));
        wrapped_bears(r, delta);
        bearings_summed(r.raw as int, delta.raw as int, s.raw as int);
    }
}

/// Numbers in whole millionths are read closely, as they are.
pub proof fn millionths_read_closely()
    ensures
        millionths().reads_closely(),
{
    reveal(Gauge::reads_closely);
    lengths_read();
    angles_read();
}

} // verus!
