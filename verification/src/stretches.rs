//! What stretching a line keeps, in millionths: its direction, and as much of the pointer's way as
//! lies along it.
use vstd::prelude::*;
use crate::exact::within;
use crate::geometry::{line_dragged, line_stretched, LineEnd};
use crate::grips::size_of;
use crate::micro::Micro;
use crate::products::{commuted, distributed, mono, product_within, regrouped, square_within};
use crate::scalar::Scalar;
use crate::zooms::shares;

verus! {

/// A product of millionths, but for less than one.
proof fn product_nearly(a: Micro, b: Micro, reach: int)
    requires
        -reach <= a.raw * b.raw <= reach,
        reach <= 4_000_000_000_000_000_000_000_000,
    ensures
        -1_000_000 < 1_000_000 * a.times(b).raw - a.raw * b.raw < 1_000_000,
{
    let n = a.raw * b.raw;
    if n >= 0 {
        assert(a.times(b).raw == n / 1_000_000);
    } else {
        assert(a.times(b).raw == -(-n / 1_000_000));
    }
}

/// A stretched line has the share `t` of its extents, both ways.
proof fn shares_go_the_same_way(w: int, h: int, w2: int, h2: int, t: int)
    requires
        -1_000_000 < 1_000_000 * w2 - w * t < 1_000_000,
        -1_000_000 < 1_000_000 * h2 - h * t < 1_000_000,
    ensures
        -(size_of(w) + size_of(h)) <= w2 * h - h2 * w <= size_of(w) + size_of(h),
        -1_000_000 * (size_of(w) + size_of(h)) <= 1_000_000 * (w2 * w + h2 * h) - (w * w + h * h) * t
            <= 1_000_000 * (size_of(w) + size_of(h)),
{
    let (e, f) = (1_000_000 * w2 - w * t, 1_000_000 * h2 - h * t);
    product_within(e, h, 1_000_000, size_of(h));
    product_within(f, w, 1_000_000, size_of(w));
    product_within(e, w, 1_000_000, size_of(w));
    product_within(f, h, 1_000_000, size_of(h));
    distributed(h, 1_000_000 * w2, w * t);
    distributed(w, 1_000_000 * h2, h * t);
    distributed(w, 1_000_000 * w2, w * t);
    distributed(h, 1_000_000 * h2, h * t);
    regrouped(1_000_000, w2, h);
    regrouped(1_000_000, h2, w);
    regrouped(1_000_000, w2, w);
    regrouped(1_000_000, h2, h);
    // All the shares of products of extents are the share of their product.
    commuted(w * t, h);
    commuted(h * t, w);
    regrouped(h, w, t);
    regrouped(w, h, t);
    commuted(h, w);
    commuted(w * t, w);
    commuted(h * t, h);
    regrouped(w, w, t);
    regrouped(h, h, t);
    distributed(t, w * w, h * h);
}

/// A line that is stretched keeps its direction, and the end that is dragged goes as far along it as
/// the pointer did: what is left between the two lies across the line. `across` and `along` are the
/// products that tell so.
#[verifier::spinoff_prover]
pub proof fn stretched_lines_keep_their_direction(
    start: (Micro, Micro, Micro, Micro),
    end: LineEnd,
    dx: Micro,
    dy: Micro,
)
    requires
        within(start.0, 10_000_000_000),
        within(start.1, 10_000_000_000),
        within(start.2, 10_000_000_000),
        within(start.3, 10_000_000_000),
        start.2.raw >= 1_000_000 || start.2.raw <= -1_000_000 || start.3.raw >= 1_000_000
            || start.3.raw <= -1_000_000,
        within(dx, 10_000_000_000),
        within(dy, 10_000_000_000),
    ensures
        ({
            let f = line_stretched(start, end, dx, dy);
            let (w, h) = (start.2.raw as int, start.3.raw as int);
            // The extents that the pointer asks for.
            let (fw, fh) = match end {
                LineEnd::Start => (w - dx.raw, h - dy.raw),
                LineEnd::End => (w + dx.raw, h + dy.raw),
            };
            let (sw, sh) = (f.2.raw as int, f.3.raw as int);
            let across = sw * h - sh * w;
            let along = (sw * w + sh * h) - (fw * w + fh * h);
            let slack = 2 * (size_of(w) + size_of(h)) + (w * w + h * h) / 1_000_000 + 300_000_000_000;
            &&& -(size_of(w) + size_of(h)) <= across <= size_of(w) + size_of(h)
            &&& -slack <= along <= slack
        }),
{
    let (w, h) = (start.2.raw as int, start.3.raw as int);
    let (mw, mh) = (start.2, start.3);
    let free = line_dragged(start, end, dx, dy);
    let (fw, fh) = (free.2.raw as int, free.3.raw as int);
    square_within(w, 10_000_000_000);
    square_within(h, 10_000_000_000);
    product_within(fw, w, 20_000_000_000, 10_000_000_000);
    product_within(fh, h, 20_000_000_000, 10_000_000_000);
    product_nearly(mw, mw, 100_000_000_000_000_000_000);
    product_nearly(mh, mh, 100_000_000_000_000_000_000);
    product_nearly(free.2, mw, 200_000_000_000_000_000_000);
    product_nearly(free.3, mh, 200_000_000_000_000_000_000);
    let len2 = mw.times(mw).plus(mh.times(mh));
    let dot = free.2.times(mw).plus(free.3.times(mh));
    squares_are_one_at_least(mw, mh);
    let l = len2.raw as int;
    let d = dot.raw as int;
    assert(-2_000_000 < 1_000_000 * l - (w * w + h * h) < 2_000_000);
    assert(-2_000_000 < 1_000_000 * d - (fw * w + fh * h) < 2_000_000);
    let t = dot.over(len2);
    share_is(dot, len2, w, h, fw, fh);
    let k = t.raw as int;
    product_within(w, k, 10_000_000_000, 100_000_000_000);
    product_within(h, k, 10_000_000_000, 100_000_000_000);
    product_nearly(mw, t, 1_000_000_000_000_000_000_000);
    product_nearly(mh, t, 1_000_000_000_000_000_000_000);
    let (sw, sh) = (mw.times(t).raw as int, mh.times(t).raw as int);
    shares_go_the_same_way(w, h, sw, sh, k);
    // The share of the square of the length.
    let q = w * w + h * h;
    let e = q - 1_000_000 * l;
    product_within(e, k, 2_000_000, 100_000_000_000);
    distributed(k, q, 1_000_000 * l);
    regrouped(1_000_000, l, k);
    commuted(l, k);
    assert(line_stretched(start, end, dx, dy).2 == mw.times(t));
    assert(line_stretched(start, end, dx, dy).3 == mh.times(t));
}

/// The square of the length of a line that is a unit long at least.
proof fn squares_are_one_at_least(w: Micro, h: Micro)
    requires
        within(w, 10_000_000_000),
        within(h, 10_000_000_000),
        w.raw >= 1_000_000 || w.raw <= -1_000_000 || h.raw >= 1_000_000 || h.raw <= -1_000_000,
    ensures
        w.times(w).plus(h.times(h)).raw >= 1_000_000,
        w.times(w).plus(h.times(h)).raw == w.times(w).raw + h.times(h).raw,
{
    square_within(w.raw as int, 10_000_000_000);
    square_within(h.raw as int, 10_000_000_000);
    assert(w.times(w).raw == w.raw * w.raw / 1_000_000);
    assert(h.times(h).raw == h.raw * h.raw / 1_000_000);
    if w.raw >= 1_000_000 {
        mono(w.raw as int, 1_000_000, w.raw as int);
    } else if w.raw <= -1_000_000 {
        mono(-w.raw, 1_000_000, -w.raw);
        assert(-w.raw * -w.raw == w.raw * w.raw) by (nonlinear_arith);
    } else if h.raw >= 1_000_000 {
        mono(h.raw as int, 1_000_000, h.raw as int);
    } else {
        mono(-h.raw, 1_000_000, -h.raw);
        assert(-h.raw * -h.raw == h.raw * h.raw) by (nonlinear_arith);
    }
}

/// The share that a line is stretched to.
proof fn share_is(dot: Micro, len2: Micro, w: int, h: int, fw: int, fh: int)
    requires
        len2.raw >= 1_000_000,
        len2.raw <= 400_000_000_000_000,
        -500_000_000_000_000 <= dot.raw <= 500_000_000_000_000,
        -10_000_000_000 <= w <= 10_000_000_000,
        -10_000_000_000 <= h <= 10_000_000_000,
        -20_000_000_000 <= fw <= 20_000_000_000,
        -20_000_000_000 <= fh <= 20_000_000_000,
        w * w + h * h < 1_000_000 * len2.raw + 2_000_000,
        -2_000_000 < 1_000_000 * dot.raw - (fw * w + fh * h) < 2_000_000,
    ensures
        ({
            let t = dot.over(len2).raw as int;
            &&& -len2.raw <= t * len2.raw - 1_000_000 * dot.raw <= len2.raw
            &&& -100_000_000_000 <= t <= 100_000_000_000
        }),
{
    let l = len2.raw as int;
    let n = size_of(dot.raw * 1_000_000);
    shares(n, l);
    // What the pointer asks for is no further than its way times the length.
    let (aw, ah) = (size_of(w), size_of(h));
    product_within(fw, w, 20_000_000_000, aw);
    product_within(fh, h, 20_000_000_000, ah);
    assert(aw * aw == w * w && ah * ah == h * h) by (nonlinear_arith)
        requires
            aw == w || aw == -w,
            ah == h || ah == -h,
    ;
    assert(n <= 20_000_000_000 * (aw + ah) + 2_000_000);
    let m = n / l;
    assert(m <= 100_000_000_000) by {
        if m > 100_000_000_000 {
            mono(l, 100_000_000_000, m);
            assert(100_000_000_000 * l <= n);
            // A length of a unit at least is at most its square.
            assert(1_000_000 * aw <= 1_000_000_000_000 || 1_000_000 * aw <= w * w) by {
                if aw > 1_000_000 {
                    mono(aw, 1_000_000, aw);
                }
            }
            assert(1_000_000 * ah <= 1_000_000_000_000 || 1_000_000 * ah <= h * h) by {
                if ah > 1_000_000 {
                    mono(ah, 1_000_000, ah);
                }
            }
            square_within(w, 10_000_000_000);
            square_within(h, 10_000_000_000);
            assert(aw + ah <= l + 2 + 2_000_000);
        }
    }
    if dot.raw >= 0 {
        assert(dot.over(len2).raw == m);
    } else {
        assert(dot.over(len2).raw == -m);
        distributed(l, 0, m);
    }
}

} // verus!
