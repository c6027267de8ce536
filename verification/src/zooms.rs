//! Laws of zooming, in millionths: what is under the anchor stays there, and a step in and a step
//! out give the view back, up to the rounding of the numbers.
use vstd::prelude::*;
use crate::exact::zooms_stay_in_range;
use crate::geometry::Point;
use crate::micro::{quotient_spec, Micro};
use crate::products::{cancelled, commuted, distributed, mono, regrouped};
use crate::scalar::{ratio, Scalar};
use crate::viewport::Viewport;

verus! {

/// Whether a zoom lies between a quarter and four.
pub open spec fn zoom_in_range(z: Micro) -> bool {
    250_000 <= z.raw <= 4_000_000
}

/// Whether a number lies within a thousand million either way.
pub open spec fn on_hand(v: Micro) -> bool {
    -1_000_000_000_000_000 <= v.raw <= 1_000_000_000_000_000
}

/// How far two numbers are apart, in millionths.
pub open spec fn gap(a: Micro, b: Micro) -> int {
    if a.raw <= b.raw {
        b.raw - a.raw
    } else {
        a.raw - b.raw
    }
}

/// Whole division, by its two bounds.
pub proof fn shares(n: int, d: int)
    requires
        0 <= n,
        0 < d,
    ensures
        0 <= n / d,
        (n / d) * d <= n,
        n < (n / d) * d + d,
{
    vstd::arithmetic::div_mod::lemma_fundamental_div_mod(n, d);
    vstd::arithmetic::div_mod::lemma_mod_bound(n, d);
    vstd::arithmetic::div_mod::lemma_div_pos_is_pos(n, d);
    vstd::arithmetic::mul::lemma_mul_is_commutative(n / d, d);
}

/// The factor from one zoom to another.
proof fn factors(z0: int, z1: int)
    requires
        250_000 <= z0 <= 4_000_000,
        250_000 <= z1 <= 4_000_000,
    ensures
        ({
            let f = z1 * 1_000_000 / z0;
            &&& 0 <= f <= 16_000_000
            &&& f * z0 <= z1 * 1_000_000 < f * z0 + z0
        }),
{
    shares(z1 * 1_000_000, z0);
    let f = z1 * 1_000_000 / z0;
    mono(z0, 0, f);
    mono(f, 250_000, z0);
}

/// A distance from the anchor, after a zoom.
proof fn scaled(a: int, f: int)
    requires
        0 <= a <= 4_000_000_000_000_000,
        0 <= f <= 16_000_000,
    ensures
        ({
            let b = a * f / 1_000_000;
            &&& 0 <= b <= 64_000_000_000_000_000
            &&& b * 1_000_000 <= a * f < b * 1_000_000 + 1_000_000
        }),
{
    mono(a, 0, f);
    mono(a, f, 16_000_000);
    shares(a * f, 1_000_000);
}

proof fn anchored(a: int, z0: int, z1: int, f: int, b: int, m0: int, m1: int)
    requires
        0 <= a,
        250_000 <= z0 <= 4_000_000,
        250_000 <= z1 <= 4_000_000,
        f * z0 <= z1 * 1_000_000 < f * z0 + z0,
        b * 1_000_000 <= a * f < b * 1_000_000 + 1_000_000,
        m0 * z0 <= a * 1_000_000 < m0 * z0 + z0,
        m1 * z1 <= b * 1_000_000 < m1 * z1 + z1,
    ensures
        m1 <= m0,
        (m0 - m1) * 250_000 < a + 1_250_000,
{
    // From above.
    mono(a, f * z0, z1 * 1_000_000);
    mono(z0, m1 * z1, a * f);
    regrouped(a, f, z0);
    commuted(a * f, z0);
    regrouped(a, z1, 1_000_000);
    commuted(z0, m1 * z1);
    regrouped(m1, z1, z0);
    commuted(z1, z0);
    regrouped(m1, z0, z1);
    commuted(a, 1_000_000);
    regrouped(1_000_000, a, z1);
    assert((m1 * z0) * z1 <= (1_000_000 * a) * z1);
    cancelled(z1, m1 * z0, 1_000_000 * a);
    distributed(z0, m0, 1);
    cancelled(z0, m1, m0 + 1);
    // From below.
    mono(a, z1 * 1_000_000, f * z0 + z0);
    distributed(a, f * z0, z0);
    mono(z1, m0 * z0, a * 1_000_000);
    regrouped(m0, z0, z1);
    regrouped(m0, z1, z0);
    let top = m1 * z1 + z1 + 1_000_000;
    assert(a * f < top);
    mono(z0, a * f + 1, top);
    distributed(z0, a * f, 1);
    distributed(z0, top, a);
    assert((m0 * z1) * z0 < (top + a) * z0);
    cancelled(z0, m0 * z1, top + a);
    let d = m0 - m1;
    distributed(z1, m0, m1);
    if d > 0 {
        mono(d - 1, 250_000, z1);
        distributed(z1, d, 1);
    }
}

/// One coordinate of the point that a zoom is about, before and after.
proof fn anchor_stays(z0: Micro, z1: Micro, anchor: Micro, pan: Micro)
    requires
        zoom_in_range(z0),
        zoom_in_range(z1),
        on_hand(anchor),
        on_hand(pan),
    ensures
        ({
            let moved = anchor.minus(anchor.minus(pan).times(z1.over(z0)));
            gap(anchor.minus(pan).over(z0), anchor.minus(moved).over(z1)) * 250_000 <= gap(
                anchor,
                pan,
            ) + 1_250_000
        }),
{
    let n = anchor.raw - pan.raw;
    let a: int = if n >= 0 {
        n
    } else {
        -n
    };
    let f = z1.raw * 1_000_000 / z0.raw as int;
    factors(z0.raw as int, z1.raw as int);
    assert(z1.over(z0).raw == f);
    let b = a * f / 1_000_000;
    scaled(a, f);
    signed_product(n, a, f);
    let s = anchor.minus(pan).times(z1.over(z0));
    assert(s.raw == if n >= 0 {
        b
    } else {
        -b
    });
    let moved = anchor.minus(s);
    assert(anchor.minus(moved).raw == s.raw);
    shares(a * 1_000_000, z0.raw as int);
    shares(b * 1_000_000, z1.raw as int);
    let m0 = a * 1_000_000 / z0.raw as int;
    let m1 = b * 1_000_000 / z1.raw as int;
    anchored(a, z0.raw as int, z1.raw as int, f, b, m0, m1);
    assert(m0 <= a * 4) by {
        if m0 > 0 {
            mono(m0, 250_000, z0.raw as int);
        }
    }
    assert(n >= 0 ==> anchor.minus(pan).over(z0).raw == m0 && anchor.minus(moved).over(z1).raw
        == m1);
    assert(n < 0 ==> anchor.minus(pan).over(z0).raw == -m0 && anchor.minus(moved).over(z1).raw
        == -m1);
}

/// A zoom keeps what is under its anchor there: the point of the drawing under the anchor is the
/// same before and after, but for four millionths of its distance from the pan, and five
/// millionths.
pub proof fn zooming_keeps_the_anchor(v: Viewport<Micro>, target: Micro, anchor: Point<Micro>)
    requires
        zoom_in_range(v.zoom),
        on_hand(anchor.x),
        on_hand(anchor.y),
        on_hand(v.pan.x),
        on_hand(v.pan.y),
    ensures
        ({
            let before = v.to_model(anchor);
            let after = v.zoomed(target, anchor).to_model(anchor);
            &&& gap(before.x, after.x) * 250_000 <= gap(anchor.x, v.pan.x) + 1_250_000
            &&& gap(before.y, after.y) * 250_000 <= gap(anchor.y, v.pan.y) + 1_250_000
        }),
{
    zooms_stay_in_range(v, target, anchor);
    assert(ratio::<Micro>(1, 4).raw == 250_000) by {
        assert(quotient_spec(1_000_000_000_000, 4_000_000) == 250_000);
    }
    let z = v.zoomed(target, anchor).zoom;
    anchor_stays(v.zoom, z, anchor.x, v.pan.x);
    anchor_stays(v.zoom, z, anchor.y, v.pan.y);
}

proof fn there_and_back(a0: int, z0: int, z1: int, z2: int, f1: int, f2: int, a1: int, a2: int)
    requires
        0 <= a0,
        250_000 <= z0 <= 4_000_000,
        250_000 <= z1 <= 2 * z0,
        250_000 <= z2 <= z0,
        z0 - 2 <= z2 <= 2 * z1,
        f1 * z0 <= z1 * 1_000_000 < f1 * z0 + z0,
        f2 * z1 <= z2 * 1_000_000 < f2 * z1 + z1,
        0 <= f1,
        0 <= f2,
        0 <= a1,
        a1 * 1_000_000 <= a0 * f1 < a1 * 1_000_000 + 1_000_000,
        a2 * 1_000_000 <= a1 * f2 < a2 * 1_000_000 + 1_000_000,
    ensures
        a2 <= a0,
        (a0 - a2) * 1_000_000 <= 12 * a0 + 3_000_000,
{
    let g = f1 * f2;
    // From above.
    mono(f2, f1 * z0, z1 * 1_000_000);
    commuted(f2, f1 * z0);
    regrouped(f1, z0, f2);
    commuted(z0, f2);
    regrouped(f1, f2, z0);
    regrouped(f2, z1, 1_000_000);
    assert(g * z0 <= 1_000_000_000_000 * z0);
    cancelled(z0, g, 1_000_000_000_000);
    mono(f2, a1 * 1_000_000, a0 * f1);
    regrouped(f2, a1, 1_000_000);
    commuted(f2, a1);
    commuted(f2, a0 * f1);
    regrouped(a0, f1, f2);
    mono(a0, g, 1_000_000_000_000);
    assert(a2 <= a0);
    // From below.
    mono(z1, f2, f2);
    assert(f2 <= 2_000_000) by {
        cancelled(z1, f2, 2_000_000);
    }
    mono(f2, z1 * 1_000_000, f1 * z0 + z0);
    distributed(f2, f1 * z0, z0);
    mono(z0, f2, 2_000_000);
    assert(g * z0 >= 1_000_000 * (f2 * z1) - f2 * z0);
    commuted(f2, z0);
    assert(g * z0 >= 1_000_000_000_000 * z0 - 12_000_000 * z0);
    cancelled(z0, 1_000_000_000_000 - 12_000_000, g);
    mono(a0, 1_000_000_000_000 - 12_000_000, g);
    mono(f2, a0 * f1, a1 * 1_000_000 + 1_000_000);
    distributed(f2, a1 * 1_000_000, 1_000_000);
    assert(1_000_000 * (a1 * f2) >= a0 * g - 1_000_000 * f2);
}

/// One coordinate of the pan, after a step one way and a step the other.
proof fn pan_comes_back(z0: Micro, z1: Micro, z2: Micro, anchor: Micro, pan: Micro)
    requires
        zoom_in_range(z0),
        zoom_in_range(z1),
        zoom_in_range(z2),
        z1.raw <= 2 * z0.raw,
        z2.raw <= z0.raw,
        z0.raw - 2 <= z2.raw,
        z2.raw <= 2 * z1.raw,
        on_hand(anchor),
        on_hand(pan),
    ensures
        ({
            let there = anchor.minus(anchor.minus(pan).times(z1.over(z0)));
            let back = anchor.minus(anchor.minus(there).times(z2.over(z1)));
            gap(pan, back) * 1_000_000 <= 12 * gap(anchor, pan) + 3_000_000
        }),
{
    let n = anchor.raw - pan.raw;
    let a0: int = if n >= 0 {
        n
    } else {
        -n
    };
    let f1 = z1.raw * 1_000_000 / z0.raw as int;
    let f2 = z2.raw * 1_000_000 / z1.raw as int;
    factors(z0.raw as int, z1.raw as int);
    factors(z1.raw as int, z2.raw as int);
    let a1 = a0 * f1 / 1_000_000;
    scaled(a0, f1);
    let (y0, y1) = (z0.raw as int, z1.raw as int);
    cancelled(y0, f1, 2_000_000);
    mono(a0, f1, 2_000_000);
    assert(a1 <= 2 * a0);
    let a2 = a1 * f2 / 1_000_000;
    scaled(a1, f2);
    there_and_back(a0, y0, y1, z2.raw as int, f1, f2, a1, a2);
    signed_product(n, a0, f1);
    let s1 = anchor.minus(pan).times(z1.over(z0));
    assert(s1.raw == if n >= 0 {
        a1
    } else {
        -a1
    });
    let there = anchor.minus(s1);
    assert(anchor.minus(there).raw == s1.raw);
    signed_product(s1.raw as int, a1, f2);
    let s2 = anchor.minus(there).times(z2.over(z1));
    assert(s2.raw == if n >= 0 {
        a2
    } else {
        -a2
    });
}

proof fn signed_product(n: int, a: int, f: int)
    requires
        0 <= a,
        0 <= f,
        n == a || n == -a,
    ensures
        0 <= a * f,
        n == a ==> n * f == a * f,
        n == -a ==> n * f == -(a * f),
{
    mono(a, 0, f);
    distributed(f, 0, a);
}

/// Whether two views are one but for rounding: the zoom to two millionths, and the pan to three
/// and to twelve millionths of its distance from the middle.
pub open spec fn same_view(v: Viewport<Micro>, w: Viewport<Micro>) -> bool {
    &&& gap(v.zoom, w.zoom) <= 2
    &&& gap(v.pan.x, w.pan.x) * 1_000_000 <= 12 * gap(v.center().x, v.pan.x) + 3_000_000
    &&& gap(v.pan.y, w.pan.y) * 1_000_000 <= 12 * gap(v.center().y, v.pan.y) + 3_000_000
    &&& w.size == v.size
}

proof fn steps_are()
    ensures
        ratio::<Micro>(1, 4).raw == 250_000,
        ratio::<Micro>(5, 4).raw == 1_250_000,
        ratio::<Micro>(4, 5).raw == 800_000,
{
    assert(quotient_spec(1_000_000_000_000, 4_000_000) == 250_000);
    assert(quotient_spec(5_000_000_000_000, 4_000_000) == 1_250_000);
    assert(quotient_spec(4_000_000_000_000, 5_000_000) == 800_000);
}

/// A step in and a step out are inverses: from any view that a step in does not take past four to
/// one, the two steps give the view back.
pub proof fn a_step_in_and_a_step_out_give_the_view_back(v: Viewport<Micro>)
    requires
        zoom_in_range(v.zoom),
        v.zoom.raw <= 3_200_000,
        on_hand(v.center().x),
        on_hand(v.center().y),
        on_hand(v.pan.x),
        on_hand(v.pan.y),
    ensures
        ({
            let near = v.zoomed(v.zoom.times(ratio(5, 4)), v.center());
            same_view(v, near.zoomed(near.zoom.times(ratio(4, 5)), near.center()))
        }),
{
    steps_are();
    let near = v.zoomed(v.zoom.times(ratio(5, 4)), v.center());
    let back = near.zoomed(near.zoom.times(ratio(4, 5)), near.center());
    let (z0, z1, z2) = (v.zoom, near.zoom, back.zoom);
    assert(z1.raw == z0.raw * 1_250_000 / 1_000_000);
    assert(z0.raw <= z1.raw && 4 * z1.raw <= 5 * z0.raw && 5 * z0.raw < 4 * z1.raw + 4);
    let t = z1.times(ratio(4, 5));
    assert(t.raw == z1.raw * 800_000 / 1_000_000);
    assert(5 * t.raw <= 4 * z1.raw && 4 * z1.raw < 5 * t.raw + 5);
    assert(z2.raw <= z0.raw && z0.raw - 2 <= z2.raw);
    pan_comes_back(z0, z1, z2, v.center().x, v.pan.x);
    pan_comes_back(z0, z1, z2, v.center().y, v.pan.y);
}

/// A step out and a step in are inverses too, from any view that a step out does not take below a
/// quarter.
pub proof fn a_step_out_and_a_step_in_give_the_view_back(v: Viewport<Micro>)
    requires
        zoom_in_range(v.zoom),
        v.zoom.raw >= 312_500,
        on_hand(v.center().x),
        on_hand(v.center().y),
        on_hand(v.pan.x),
        on_hand(v.pan.y),
    ensures
        ({
            let far = v.zoomed(v.zoom.times(ratio(4, 5)), v.center());
            same_view(v, far.zoomed(far.zoom.times(ratio(5, 4)), far.center()))
        }),
{
    steps_are();
    let far = v.zoomed(v.zoom.times(ratio(4, 5)), v.center());
    let back = far.zoomed(far.zoom.times(ratio(5, 4)), far.center());
    let (z0, z1, z2) = (v.zoom, far.zoom, back.zoom);
    assert(z1.raw == z0.raw * 800_000 / 1_000_000);
    assert(5 * z1.raw <= 4 * z0.raw && 4 * z0.raw < 5 * z1.raw + 5);
    let t = z1.times(ratio(5, 4));
    assert(t.raw == z1.raw * 1_250_000 / 1_000_000);
    assert(4 * t.raw <= 5 * z1.raw && 5 * z1.raw < 4 * t.raw + 4);
    assert(z2.raw <= z0.raw && z0.raw - 2 <= z2.raw);
    pan_comes_back(z0, z1, z2, v.center().x, v.pan.x);
    pan_comes_back(z0, z1, z2, v.center().y, v.pan.y);
}

} // verus!
