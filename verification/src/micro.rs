//! A number of the drawing in whole millionths: exact, pinned to its range, and the same on
//! every machine.
use vstd::prelude::*;
use crate::rotor::{cosine_sine, cosine_sine_spec};
use crate::scalar::{numeral, Scalar};
use crate::text::{chars_of, digit_spec, digits, digits_spec, string_of};

verus! {

/// A count of millionths.
#[derive(Clone, Copy, Debug, PartialEq, Eq, Structural)]
pub struct Micro {
    pub raw: i64,
}

/// `n`, held within the range of the raw count.
pub open spec fn pin_spec(n: int) -> i64 {
    if n > i64::MAX {
        i64::MAX
    } else if n < i64::MIN {
        i64::MIN
    } else {
        n as i64
    }
}

fn pin(n: i128) -> (r: i64)
    ensures
        r == pin_spec(n as int),
{
    if n > i64::MAX as i128 {
        i64::MAX
    } else if n < i64::MIN as i128 {
        i64::MIN
    } else {
        n as i64
    }
}

/// `n / d` with the fraction dropped; nought where `d` is nought.
pub open spec fn quotient_spec(n: int, d: int) -> int {
    if d == 0 {
        0
    } else if n >= 0 && d > 0 {
        n / d
    } else if n >= 0 {
        -(n / -d)
    } else if d > 0 {
        -(-n / d)
    } else {
        -n / -d
    }
}

proof fn product_reach(a: int, b: int)
    requires
        -0x8000_0000_0000_0000 <= a <= 0x8000_0000_0000_0000,
        -0x8000_0000_0000_0000 <= b <= 0x8000_0000_0000_0000,
    ensures
        -0x4000_0000_0000_0000_0000_0000_0000_0000 <= a * b <= 0x4000_0000_0000_0000_0000_0000_0000_0000,
{
    assert(-0x4000_0000_0000_0000_0000_0000_0000_0000 <= a * b <= 0x4000_0000_0000_0000_0000_0000_0000_0000) by (nonlinear_arith)
        requires
            -0x8000_0000_0000_0000 <= a <= 0x8000_0000_0000_0000,
            -0x8000_0000_0000_0000 <= b <= 0x8000_0000_0000_0000,
    ;
}

pub(crate) fn quotient(n: i128, d: i128) -> (r: i128)
    requires
        -0x4000_0000_0000_0000_0000_0000_0000_0000 <= n <= 0x4000_0000_0000_0000_0000_0000_0000_0000,
        -0x4000_0000_0000_0000_0000_0000_0000_0000 <= d <= 0x4000_0000_0000_0000_0000_0000_0000_0000,
    ensures
        r == quotient_spec(n as int, d as int),
{
    if d == 0 {
        return 0;
    }
    let nu: u128 = if n >= 0 {
        n as u128
    } else {
        (-n) as u128
    };
    let du: u128 = if d >= 0 {
        d as u128
    } else {
        (-d) as u128
    };
    let q: u128 = nu / du;
    proof {
        assert(q <= nu) by (nonlinear_arith)
            requires
                q == nu / du,
                du >= 1,
        ;
    }
    if (n >= 0) == (d > 0) {
        q as i128
    } else {
        -(q as i128)
    }
}

/// `a` modulo the magnitude of `b`.
pub open spec fn wrap_spec(a: int, b: int) -> int {
    if b == 0 {
        0
    } else if b > 0 {
        a % b
    } else {
        a % -b
    }
}

fn wrap(a: i64, b: i64) -> (r: i64)
    ensures
        r == wrap_spec(a as int, b as int),
        b != 0 ==> 0 <= r,
{
    if b == 0 {
        return 0;
    }
    let m: u128 = if b > 0 {
        b as u128
    } else {
        (-(b as i128)) as u128
    };
    if a >= 0 {
        (a as u128 % m) as i64
    } else {
        let n: u128 = (-(a as i128)) as u128;
        let k: u128 = n % m;
        proof {
            let (ai, mi, ni) = (a as int, m as int, n as int);
            let q = ni / mi;
            assert(ni == q * mi + k) by (nonlinear_arith)
                requires
                    q == ni / mi,
                    k == ni % mi,
                    mi > 0,
            ;
            if k == 0 {
                assert(ai == (-q) * mi) by (nonlinear_arith)
                    requires
                        ni == q * mi + k,
                        k == 0,
                        ai == -ni,
                ;
                vstd::arithmetic::div_mod::lemma_fundamental_div_mod_converse(ai, mi, -q, 0);
            } else {
                assert(ai == (-q - 1) * mi + (mi - k)) by (nonlinear_arith)
                    requires
                        ni == q * mi + k,
                        ai == -ni,
                ;
                vstd::arithmetic::div_mod::lemma_fundamental_div_mod_converse(
                    ai,
                    mi,
                    -q - 1,
                    mi - k,
                );
            }
        }
        if k == 0 {
            0
        } else {
            (m - k) as i64
        }
    }
}

/// The greatest number whose square is at most `n`.
pub open spec fn is_root(n: int, r: int) -> bool {
    0 <= r && r * r <= n < (r + 1) * (r + 1)
}

pub open spec fn root_spec(n: int) -> int {
    choose|r: int| is_root(n, r)
}

proof fn root_is_unique(n: int, r: int, s: int)
    requires
        is_root(n, r),
        is_root(n, s),
    ensures
        r == s,
{
    if r < s {
        assert((r + 1) * (r + 1) <= s * s) by (nonlinear_arith)
            requires
                0 <= r,
                r + 1 <= s,
        ;
    } else if s < r {
        assert((s + 1) * (s + 1) <= r * r) by (nonlinear_arith)
            requires
                0 <= s,
                s + 1 <= r,
        ;
    }
}

/// The whole square root, by halving an interval.
fn root(n: u128) -> (r: u128)
    requires
        n <= 0x8000_0000_0000_0000_0000_0000_0000_0000,
    ensures
        r == root_spec(n as int),
        r < 0x1_0000_0000_0000_0000,
{
    let mut lo: u128 = 0;
    let mut hi: u128 = 0x1_0000_0000_0000_0000;
    while hi - lo > 1
        invariant
            lo < hi <= 0x1_0000_0000_0000_0000,
            lo * lo <= n < hi * hi,
            n <= 0x8000_0000_0000_0000_0000_0000_0000_0000,
        decreases hi - lo,
    {
        let mid: u128 = lo + (hi - lo) / 2;
        proof {
            assert(mid * mid <= 0xffff_ffff_ffff_ffff * 0xffff_ffff_ffff_ffff) by (nonlinear_arith)
                requires
                    0 <= mid <= 0xffff_ffff_ffff_ffff,
            ;
        }
        if mid * mid <= n {
            lo = mid;
        } else {
            hi = mid;
        }
    }
    proof {
        assert(hi == lo + 1);
        assert(is_root(n as int, lo as int));
        root_is_unique(n as int, lo as int, root_spec(n as int));
    }
    lo
}

// ---------------------------------------------------------------------------
// Texts
// ---------------------------------------------------------------------------

/// Ten to the power of `n`.
pub open spec fn ten_to(n: nat) -> nat
    decreases n,
{
    if n == 0 {
        1
    } else {
        10 * ten_to((n - 1) as nat)
    }
}

/// The digits of `r` over ten to the power of `width`, without trailing zeros.
pub open spec fn fraction_text(r: nat, width: nat) -> Seq<char>
    decreases width,
{
    if r == 0 || width == 0 {
        Seq::empty()
    } else {
        let p = ten_to((width - 1) as nat);
        seq![digit_spec((r / p) as nat)] + fraction_text((r % p) as nat, (width - 1) as nat)
    }
}

/// The text of a magnitude in millionths.
pub open spec fn magnitude_text(n: nat) -> Seq<char> {
    if n % 1_000_000 == 0 {
        digits_spec(n / 1_000_000)
    } else {
        digits_spec(n / 1_000_000) + seq!['.'] + fraction_text(n % 1_000_000, 6)
    }
}

pub open spec fn is_digit(c: char) -> bool {
    '0' <= c <= '9'
}

pub open spec fn all_digits(s: Seq<char>) -> bool {
    forall|i: int| 0 <= i < s.len() ==> is_digit(#[trigger] s[i])
}

/// The value of a digit.
pub open spec fn value_of(c: char) -> nat {
    (c as u32 - 48) as nat
}

/// The number that decimal digits say.
pub open spec fn whole_value(s: Seq<char>) -> nat
    decreases s.len(),
{
    if s.len() == 0 {
        0
    } else {
        whole_value(s.drop_last()) * 10 + value_of(s.last())
    }
}

/// What digits behind the point come to, over ten to the power of `width`; digits past the
/// width are dropped.
pub open spec fn fraction_value(s: Seq<char>, width: nat) -> nat
    decreases width,
{
    if s.len() == 0 || width == 0 {
        0
    } else {
        value_of(s[0]) * ten_to((width - 1) as nat) + fraction_value(
            s.drop_first(),
            (width - 1) as nat,
        )
    }
}

/// Where the point of a decimal text is, or its end.
pub open spec fn point_of(s: Seq<char>) -> int
    decreases s.len(),
{
    if s.len() > 0 && s[0] != '.' {
        1 + point_of(s.drop_first())
    } else {
        0
    }
}

/// The magnitude that a decimal text without a sign says, in millionths: digits, and behind a
/// point more digits.
pub open spec fn magnitude_of(s: Seq<char>) -> Option<nat> {
    let p = point_of(s);
    let whole = s.subrange(0, p);
    let fraction = if p < s.len() {
        s.subrange(p + 1, s.len() as int)
    } else {
        Seq::empty()
    };
    if whole.len() == 0 || !all_digits(whole) || !all_digits(fraction) {
        None
    } else {
        Some(whole_value(whole) * 1_000_000 + fraction_value(fraction, 6))
    }
}

/// The number that a decimal text says, where it is in range.
pub open spec fn of_text_meaning(s: Seq<char>) -> Option<Micro> {
    let signed = s.len() > 0 && (s[0] == '-' || s[0] == '+');
    match magnitude_of(
        if signed {
            s.drop_first()
        } else {
            s
        },
    ) {
        None => None,
        Some(m) => {
            let n = if signed && s[0] == '-' {
                -(m as int)
            } else {
                m as int
            };
            if i64::MIN <= n <= i64::MAX {
                Some(Micro { raw: n as i64 })
            } else {
                None
            }
        },
    }
}

/// A number's text.
pub open spec fn text_meaning(v: Micro) -> Seq<char> {
    if v.raw < 0 {
        seq!['-'] + magnitude_text((-v.raw) as nat)
    } else {
        magnitude_text(v.raw as nat)
    }
}

/// The tenths nearest to a magnitude in millionths, halves away from zero.
pub open spec fn tenths(n: nat) -> nat {
    (n + 50_000) / 100_000
}

/// A number's text with one fractional digit.
pub open spec fn tenth_meaning(v: Micro) -> Seq<char> {
    let n = if v.raw < 0 {
        tenths((-v.raw) as nat)
    } else {
        tenths(v.raw as nat)
    };
    let body = digits_spec(n / 10) + seq!['.', digit_spec(n % 10)];
    if v.raw < 0 {
        seq!['-'] + body
    } else {
        body
    }
}

fn magnitude(v: i64) -> (r: u64)
    ensures
        r == if v < 0 {
            -v
        } else {
            v as int
        },
{
    if v < 0 {
        (-(v as i128)) as u64
    } else {
        v as u64
    }
}

/// Appends the digits of `r` over ten to the power of six, without trailing zeros.
fn push_fraction(out: &mut Vec<char>, r: u64)
    requires
        r < 1_000_000,
    ensures
        final(out)@ == old(out)@ + fraction_text(r as nat, 6),
{
    let ghost start = out@;
    let mut left: u64 = r;
    let mut p: u64 = 100_000;
    let ghost mut width: nat = 6;
    proof {
        reveal_with_fuel(ten_to, 7);
        assert(start + fraction_text(r as nat, 6) =~= out@ + fraction_text(left as nat, width));
    }
    while left > 0
        invariant
            width <= 6,
            width > 0 ==> p == ten_to((width - 1) as nat),
            width == 0 ==> left == 0,
            width > 0 ==> left < 10 * p,
            out@ + fraction_text(left as nat, width) == start + fraction_text(r as nat, 6),
        decreases width,
    {
        let ghost before = out@;
        let d: u64 = left / p;
        proof {
            assert(p >= 1) by {
                reveal_with_fuel(ten_to, 7);
            }
            assert(d < 10) by (nonlinear_arith)
                requires
                    d == left / p,
                    left < 10 * p,
                    p >= 1,
            ;
        }
        out.push((d as u8 + 48) as char);
        let ghost rest = (left % p) as nat;
        proof {
            assert(fraction_text(left as nat, width) == seq![digit_spec(d as nat)] + fraction_text(
                rest,
                (width - 1) as nat,
            ));
            assert(out@ + fraction_text(rest, (width - 1) as nat) =~= before + fraction_text(
                left as nat,
                width,
            ));
        }
        left = left % p;
        proof {
            reveal_with_fuel(ten_to, 7);
            width = (width - 1) as nat;
        }
        p = p / 10;
    }
    assert(fraction_text(0, width) =~= Seq::<char>::empty());
    assert(out@ =~= start + fraction_text(r as nat, 6));
}

fn micro_text(v: Micro) -> (r: String)
    ensures
        r@ == text_meaning(v),
{
    let n = magnitude(v.raw);
    let mut out: Vec<char> = Vec::new();
    if v.raw < 0 {
        out.push('-');
    }
    let ghost head = out@;
    let mut whole = digits(n / 1_000_000);
    out.append(&mut whole);
    if n % 1_000_000 != 0 {
        out.push('.');
        push_fraction(&mut out, n % 1_000_000);
    }
    assert(out@ =~= text_meaning(v));
    string_of(out.as_slice())
}

fn micro_tenth_text(v: Micro) -> (r: String)
    ensures
        r@ == tenth_meaning(v),
{
    let n: u64 = (magnitude(v.raw) + 50_000) / 100_000;
    let mut out: Vec<char> = Vec::new();
    if v.raw < 0 {
        out.push('-');
    }
    let mut whole = digits(n / 10);
    out.append(&mut whole);
    out.push('.');
    out.push(((n % 10) as u8 + 48) as char);
    assert(out@ =~= tenth_meaning(v));
    string_of(out.as_slice())
}

/// The number that digits at `lo..hi` say, or a number past every range.
fn read_whole(chars: &[char], lo: usize, hi: usize) -> (r: u128)
    requires
        lo <= hi <= chars.len(),
        all_digits(chars@.subrange(lo as int, hi as int)),
    ensures
        r == whole_value(chars@.subrange(lo as int, hi as int)) || (r == 0x1_0000_0000_0000_0000
            && whole_value(chars@.subrange(lo as int, hi as int)) >= 0x1_0000_0000_0000_0000),
        r <= 0x1_0000_0000_0000_0000,
{
    let mut v: u128 = 0;
    let mut i: usize = lo;
    assert(chars@.subrange(lo as int, lo as int) =~= Seq::<char>::empty());
    while i < hi
        invariant
            lo <= i <= hi <= chars.len(),
            all_digits(chars@.subrange(lo as int, hi as int)),
            v == whole_value(chars@.subrange(lo as int, i as int)) || (v
                == 0x1_0000_0000_0000_0000 && whole_value(chars@.subrange(lo as int, i as int))
                >= 0x1_0000_0000_0000_0000),
            v <= 0x1_0000_0000_0000_0000,
        decreases hi - i,
    {
        let c = chars[i];
        proof {
            assert(chars@.subrange(lo as int, hi as int)[i - lo] == c);
            assert(chars@.subrange(lo as int, i + 1).drop_last() =~= chars@.subrange(
                lo as int,
                i as int,
            ));
        }
        v = v * 10 + (c as u32 - 48) as u128;
        if v > 0x1_0000_0000_0000_0000 {
            v = 0x1_0000_0000_0000_0000;
        }
        i += 1;
    }
    v
}

/// What the digits from `lo` on come to in millionths, behind a point.
fn read_fraction(chars: &[char], lo: usize) -> (r: u64)
    requires
        lo <= chars.len(),
        all_digits(chars@.subrange(lo as int, chars.len() as int)),
    ensures
        r == fraction_value(chars@.subrange(lo as int, chars.len() as int), 6),
        r < 1_000_000,
{
    let mut v: u64 = 0;
    let mut p: u64 = 100_000;
    let mut i: usize = lo;
    let ghost mut width: nat = 6;
    let ghost all = chars@.subrange(lo as int, chars.len() as int);
    proof {
        reveal_with_fuel(ten_to, 7);
        assert(chars@.subrange(i as int, chars.len() as int) =~= all);
    }
    while i < chars.len() && p > 0
        invariant
            lo <= i <= chars.len(),
            all == chars@.subrange(lo as int, chars.len() as int),
            all_digits(all),
            width <= 6,
            width == 0 <==> p == 0,
            width > 0 ==> p == ten_to((width - 1) as nat),
            v + ten_to(width) <= 1_000_000,
            v + fraction_value(chars@.subrange(i as int, chars.len() as int), width)
                == fraction_value(all, 6),
        decreases chars.len() - i,
    {
        let c = chars[i];
        let ghost rest = chars@.subrange(i as int, chars.len() as int);
        proof {
            assert(all[i - lo] == c);
            assert(rest[0] == c);
            assert(rest.drop_first() =~= chars@.subrange(i + 1, chars.len() as int));
            assert(value_of(c) * p <= 9 * p) by (nonlinear_arith)
                requires
                    value_of(c) <= 9,
                    p >= 0,
            ;
            assert(p <= 1_000_000) by {
                reveal_with_fuel(ten_to, 7);
            }
            assert(ten_to(width) == 10 * p);
        }
        let d: u64 = (c as u32 - 48) as u64;
        v = v + d * p;
        proof {
            assert(fraction_value(rest, width) == value_of(c) * p + fraction_value(
                rest.drop_first(),
                (width - 1) as nat,
            ));
            reveal_with_fuel(ten_to, 7);
            width = (width - 1) as nat;
        }
        p = p / 10;
        i += 1;
    }
    proof {
        let rest = chars@.subrange(i as int, chars.len() as int);
        assert(fraction_value(rest, width) == 0);
        assert(ten_to(width) >= 1) by {
            reveal_with_fuel(ten_to, 7);
        }
    }
    v
}

proof fn point_is(s: Seq<char>, p: int)
    requires
        0 <= p <= s.len(),
        forall|i: int| 0 <= i < p ==> #[trigger] s[i] != '.',
        p < s.len() ==> s[p] == '.',
    ensures
        point_of(s) == p,
    decreases s.len(),
{
    if p > 0 {
        assert(s[0] != '.');
        assert forall|i: int| 0 <= i < p - 1 implies #[trigger] s.drop_first()[i] != '.' by {
            assert(s.drop_first()[i] == s[i + 1]);
        }
        point_is(s.drop_first(), p - 1);
    }
}

/// Whether the characters at `lo..hi` are all digits.
fn are_digits(chars: &[char], lo: usize, hi: usize) -> (r: bool)
    requires
        lo <= hi <= chars.len(),
    ensures
        r == all_digits(chars@.subrange(lo as int, hi as int)),
{
    let mut i: usize = lo;
    while i < hi
        invariant
            lo <= i <= hi <= chars.len(),
            forall|j: int| lo <= j < i ==> is_digit(#[trigger] chars@[j]),
        decreases hi - i,
    {
        if !('0' <= chars[i] && chars[i] <= '9') {
            assert(!is_digit(chars@.subrange(lo as int, hi as int)[i - lo]));
            return false;
        }
        i += 1;
    }
    assert forall|j: int| 0 <= j < hi - lo implies is_digit(
        #[trigger] chars@.subrange(lo as int, hi as int)[j],
    ) by {
        assert(is_digit(chars@[lo + j]));
    }
    true
}

fn read_micro(text: &str) -> (r: Option<Micro>)
    ensures
        r == of_text_meaning(text@),
{
    let chars = chars_of(text);
    let signed = chars.len() > 0 && (chars[0] == '-' || chars[0] == '+');
    let lo: usize = if signed {
        1
    } else {
        0
    };
    let negative = signed && chars[0] == '-';
    let ghost body = if signed {
        text@.drop_first()
    } else {
        text@
    };
    assert(body =~= chars@.subrange(lo as int, chars.len() as int));
    let mut p: usize = lo;
    while p < chars.len() && chars[p] != '.'
        invariant
            lo <= p <= chars.len(),
            forall|j: int| lo <= j < p ==> #[trigger] chars@[j] != '.',
        decreases chars.len() - p,
    {
        p += 1;
    }
    proof {
        assert forall|i: int| 0 <= i < p - lo implies #[trigger] body[i] != '.' by {
            assert(body[i] == chars@[lo + i]);
        }
        point_is(body, p - lo);
        assert(body.subrange(0, p - lo) =~= chars@.subrange(lo as int, p as int));
    }
    if p == lo || !are_digits(chars.as_slice(), lo, p) {
        return None;
    }
    let from: usize = if p < chars.len() {
        p + 1
    } else {
        p
    };
    let ghost fraction = if p - lo < body.len() {
        body.subrange(p - lo + 1, body.len() as int)
    } else {
        Seq::empty()
    };
    assert(fraction =~= chars@.subrange(from as int, chars.len() as int));
    if !are_digits(chars.as_slice(), from, chars.len()) {
        return None;
    }
    let whole = read_whole(chars.as_slice(), lo, p);
    let fraction = read_fraction(chars.as_slice(), from);
    let m: u128 = whole * 1_000_000 + fraction as u128;
    let limit: u128 = if negative {
        0x8000_0000_0000_0000
    } else {
        0x7fff_ffff_ffff_ffff
    };
    if m > limit {
        return None;
    }
    let n: i128 = if negative {
        -(m as i128)
    } else {
        m as i128
    };
    Some(Micro { raw: n as i64 })
}

// ---------------------------------------------------------------------------
// The arithmetic
// ---------------------------------------------------------------------------

impl Scalar for Micro {
    open spec fn of_int_spec(n: i64) -> Micro {
        Micro { raw: pin_spec(n * 1_000_000) }
    }

    open spec fn plus_spec(self, other: Micro) -> Micro {
        Micro { raw: pin_spec(self.raw + other.raw) }
    }

    open spec fn minus_spec(self, other: Micro) -> Micro {
        Micro { raw: pin_spec(self.raw - other.raw) }
    }

    open spec fn times_spec(self, other: Micro) -> Micro {
        Micro { raw: pin_spec(quotient_spec(self.raw * other.raw, 1_000_000)) }
    }

    open spec fn over_spec(self, other: Micro) -> Micro {
        Micro { raw: pin_spec(quotient_spec(self.raw * 1_000_000, other.raw as int)) }
    }

    open spec fn negated_spec(self) -> Micro {
        Micro { raw: pin_spec(-self.raw) }
    }

    open spec fn magnitude_spec(self) -> Micro {
        Micro {
            raw: pin_spec(
                if self.raw < 0 {
                    -self.raw
                } else {
                    self.raw as int
                },
            ),
        }
    }

    open spec fn lesser_spec(self, other: Micro) -> Micro {
        if other.raw < self.raw {
            other
        } else {
            self
        }
    }

    open spec fn greater_spec(self, other: Micro) -> Micro {
        if self.raw < other.raw {
            other
        } else {
            self
        }
    }

    open spec fn highest_spec() -> Micro {
        Micro { raw: i64::MAX }
    }

    open spec fn lowest_spec() -> Micro {
        Micro { raw: i64::MIN }
    }

    open spec fn below_spec(self, other: Micro) -> bool {
        self.raw < other.raw
    }

    open spec fn ranks_below_spec(self, other: Micro) -> bool {
        self.raw < other.raw
    }

    open spec fn at_most_spec(self, other: Micro) -> bool {
        self.raw <= other.raw
    }

    open spec fn equals_spec(self, other: Micro) -> bool {
        self.raw == other.raw
    }

    open spec fn finite_spec(self) -> bool {
        true
    }

    open spec fn wrapped_spec(self, period: Micro) -> Micro {
        Micro { raw: wrap_spec(self.raw as int, period.raw as int) as i64 }
    }

    open spec fn sine_cosine_spec(self) -> (Micro, Micro) {
        let (cos, sin) = cosine_sine_spec(wrap_spec(self.raw as int, 360_000_000));
        (Micro { raw: sin as i64 }, Micro { raw: cos as i64 })
    }

    open spec fn hypotenuse_spec(self, other: Micro) -> Micro {
        Micro { raw: pin_spec(root_spec(self.raw * self.raw + other.raw * other.raw)) }
    }

    open spec fn signed_like_spec(self, other: Micro) -> Micro {
        if other.raw < 0 {
            self.magnitude().negated()
        } else {
            self.magnitude()
        }
    }

    open spec fn rounded_spec(self) -> Micro {
        let n = if self.raw < 0 {
            (-self.raw + 500_000) / 1_000_000 * 1_000_000
        } else {
            (self.raw + 500_000) / 1_000_000 * 1_000_000
        };
        Micro {
            raw: pin_spec(
                if self.raw < 0 {
                    -n
                } else {
                    n
                },
            ),
        }
    }

    open spec fn whole_spec(self) -> bool {
        wrap_spec(self.raw as int, 1_000_000) == 0
    }

    open spec fn to_int_spec(self) -> i64 {
        quotient_spec(self.raw as int, 1_000_000) as i64
    }

    open spec fn text_spec(self) -> Seq<char> {
        text_meaning(self)
    }

    open spec fn tenth_text_spec(self) -> Seq<char> {
        tenth_meaning(self)
    }

    open spec fn of_text_spec(text: Seq<char>) -> Option<Micro> {
        of_text_meaning(text)
    }

    fn of_int(n: i64) -> Micro {
        Micro { raw: pin(n as i128 * 1_000_000) }
    }

    fn plus(self, other: Micro) -> Micro {
        Micro { raw: pin(self.raw as i128 + other.raw as i128) }
    }

    fn minus(self, other: Micro) -> Micro {
        Micro { raw: pin(self.raw as i128 - other.raw as i128) }
    }

    fn times(self, other: Micro) -> Micro {
        proof {
            product_reach(self.raw as int, other.raw as int);
        }
        Micro { raw: pin(quotient(self.raw as i128 * other.raw as i128, 1_000_000)) }
    }

    fn over(self, other: Micro) -> Micro {
        Micro { raw: pin(quotient(self.raw as i128 * 1_000_000, other.raw as i128)) }
    }

    fn negated(self) -> Micro {
        Micro { raw: pin(-(self.raw as i128)) }
    }

    fn magnitude(self) -> Micro {
        Micro {
            raw: pin(
                if self.raw < 0 {
                    -(self.raw as i128)
                } else {
                    self.raw as i128
                },
            ),
        }
    }

    fn lesser(self, other: Micro) -> Micro {
        if other.raw < self.raw {
            other
        } else {
            self
        }
    }

    fn greater(self, other: Micro) -> Micro {
        if self.raw < other.raw {
            other
        } else {
            self
        }
    }

    fn highest() -> Micro {
        Micro { raw: i64::MAX }
    }

    fn lowest() -> Micro {
        Micro { raw: i64::MIN }
    }

    fn below(self, other: Micro) -> bool {
        self.raw < other.raw
    }

    fn ranks_below(self, other: Micro) -> bool {
        self.raw < other.raw
    }

    fn at_most(self, other: Micro) -> bool {
        self.raw <= other.raw
    }

    fn equals(self, other: Micro) -> bool {
        self.raw == other.raw
    }

    fn same(self, other: Micro) -> bool {
        self.raw == other.raw
    }

    fn finite(self) -> bool {
        true
    }

    fn wrapped(self, period: Micro) -> Micro {
        Micro { raw: wrap(self.raw, period.raw) }
    }

    fn sine_cosine(self) -> (Micro, Micro) {
        let (cos, sin) = cosine_sine(wrap(self.raw, 360_000_000));
        (Micro { raw: sin }, Micro { raw: cos })
    }

    fn hypotenuse(self, other: Micro) -> Micro {
        proof {
            product_reach(self.raw as int, self.raw as int);
            product_reach(other.raw as int, other.raw as int);
            let (ai, bi) = (self.raw as int, other.raw as int);
            assert(ai * ai >= 0 && bi * bi >= 0) by (nonlinear_arith);
        }
        let a: u128 = (self.raw as i128 * self.raw as i128) as u128;
        let b: u128 = (other.raw as i128 * other.raw as i128) as u128;
        Micro { raw: pin(root(a + b) as i128) }
    }

    fn signed_like(self, other: Micro) -> Micro {
        if other.raw < 0 {
            self.magnitude().negated()
        } else {
            self.magnitude()
        }
    }

    fn rounded(self) -> Micro {
        if self.raw < 0 {
            let n: u128 = ((-(self.raw as i128)) as u128 + 500_000) / 1_000_000 * 1_000_000;
            Micro { raw: pin(-(n as i128)) }
        } else {
            let n: u128 = (self.raw as u128 + 500_000) / 1_000_000 * 1_000_000;
            Micro { raw: pin(n as i128) }
        }
    }

    fn whole(self) -> bool {
        wrap(self.raw, 1_000_000) == 0
    }

    fn to_int(self) -> i64 {
        quotient(self.raw as i128, 1_000_000) as i64
    }

    fn text(self) -> String {
        micro_text(self)
    }

    fn tenth_text(self) -> String {
        micro_tenth_text(self)
    }

    fn of_text(text: &str) -> Option<Micro> {
        read_micro(text)
    }

    proof fn ranks(a: Micro, b: Micro, c: Micro) {
    }

    proof fn reads_back(self) {
        micro_reads_back(self);
    }

    proof fn stays_in_range(self) {
    }
}

/// The digits of a number say that number.
pub proof fn digits_read_back(n: nat)
    ensures
        digits_spec(n).len() > 0,
        all_digits(digits_spec(n)),
        whole_value(digits_spec(n)) == n,
    decreases n,
{
    let s = digits_spec(n);
    if n < 10 {
        assert(s.drop_last() =~= Seq::<char>::empty());
        assert(value_of(s.last()) == n);
        assert(whole_value(s.drop_last()) == 0);
    } else {
        digits_read_back(n / 10);
        assert(s.drop_last() =~= digits_spec(n / 10));
        assert forall|i: int| 0 <= i < s.len() implies is_digit(#[trigger] s[i]) by {
            if i < s.len() - 1 {
                assert(s[i] == digits_spec(n / 10)[i]);
            }
        }
        assert(value_of(s.last()) == n % 10);
    }
}

proof fn fraction_reads_back(r: nat, width: nat)
    requires
        r < ten_to(width),
    ensures
        all_digits(fraction_text(r, width)),
        fraction_value(fraction_text(r, width), width) == r,
        r > 0 ==> fraction_text(r, width).len() > 0,
    decreases width,
{
    if r > 0 && width > 0 {
        let p = ten_to((width - 1) as nat);
        let d = r / p;
        let rest = (r % p) as nat;
        ten_to_is_positive((width - 1) as nat);
        assert(d < 10 && d * p + rest == r && rest < p) by (nonlinear_arith)
            requires
                d == r / p,
                rest == r % p,
                p > 0,
                r < 10 * p,
        ;
        fraction_reads_back(rest, (width - 1) as nat);
        let s = fraction_text(r, width);
        let tail = fraction_text(rest, (width - 1) as nat);
        assert(s.drop_first() =~= tail);
        assert(value_of(s[0]) == d);
        assert forall|i: int| 0 <= i < s.len() implies is_digit(#[trigger] s[i]) by {
            if i > 0 {
                assert(s[i] == tail[i - 1]);
            }
        }
    }
}

proof fn ten_to_is_positive(n: nat)
    ensures
        ten_to(n) > 0,
    decreases n,
{
    if n > 0 {
        ten_to_is_positive((n - 1) as nat);
    }
}

proof fn magnitude_reads_back(n: nat)
    ensures
        magnitude_of(magnitude_text(n)) == Some(n),
        magnitude_text(n).len() > 0,
        is_digit(magnitude_text(n)[0]),
        forall|i: int|
            0 <= i < magnitude_text(n).len() ==> numeral(#[trigger] magnitude_text(n)[i]),
{
    let s = magnitude_text(n);
    let whole = digits_spec(n / 1_000_000);
    let r = (n % 1_000_000) as nat;
    let wl = whole.len() as int;
    digits_read_back(n / 1_000_000);
    assert(ten_to(6) == 1_000_000) by {
        reveal_with_fuel(ten_to, 7);
    }
    fraction_reads_back(r, 6);
    let f = fraction_text(r, 6);
    assert forall|i: int| 0 <= i < wl implies #[trigger] s[i] != '.' by {
        assert(s[i] == whole[i]);
        assert(is_digit(whole[i]));
    }
    if r != 0 {
        assert(s[wl] == '.');
        assert(s.subrange(wl + 1, s.len() as int) =~= f);
    }
    point_is(s, wl);
    assert(s.subrange(0, wl) =~= whole);
    assert(s[0] == whole[0]);
    assert forall|i: int| 0 <= i < s.len() implies numeral(#[trigger] s[i]) by {
        if i < wl {
            assert(s[i] == whole[i]);
        } else if i > wl {
            assert(s[i] == f[i - wl - 1]);
        }
    }
    if r == 0 {
        assert(fraction_value(Seq::<char>::empty(), 6) == 0);
        assert(all_digits(Seq::<char>::empty()));
    }
}

/// A count of millionths has a text of numerals that reads back as that count.
pub proof fn micro_reads_back(v: Micro)
    ensures
        text_meaning(v).len() > 0,
        forall|i: int| 0 <= i < text_meaning(v).len() ==> numeral(#[trigger] text_meaning(v)[i]),
        of_text_meaning(text_meaning(v)) == Some(v),
{
    let t = text_meaning(v);
    if v.raw < 0 {
        let m = magnitude_text((-v.raw) as nat);
        magnitude_reads_back((-v.raw) as nat);
        assert(t.drop_first() =~= m);
        assert forall|i: int| 0 <= i < t.len() implies numeral(#[trigger] t[i]) by {
            if i > 0 {
                assert(t[i] == m[i - 1]);
            }
        }
    } else {
        magnitude_reads_back(v.raw as nat);
    }
}

} // verus!
