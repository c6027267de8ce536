//! Colours, and their `#RRGGBB` texts.
use vstd::prelude::*;
use crate::scalar::{clamped, ratio, Scalar};
use crate::svg::hex_digit;
use crate::text::{
    blank, chars_of, trim, trim_end, trim_spec, trim_start, without_leading, without_leading_spec,
};

verus! {

/// A colour, each part between nought and one.
#[derive(Debug, PartialEq)]
pub struct Color<S> {
    pub r: S,
    pub g: S,
    pub b: S,
    pub a: S,
}

impl<S: Copy> Clone for Color<S> {
    fn clone(&self) -> (r: Self)
        ensures
            r == *self,
    {
        *self
    }
}

impl<S: Copy> Copy for Color<S> {

}

impl<S: Scalar> Color<S> {
    /// The opaque colour of the number `0xRRGGBB`.
    pub open spec fn hex_spec(v: u32) -> Color<S> {
        Color {
            r: ratio((v / 65536 % 256) as i64, 255),
            g: ratio((v / 256 % 256) as i64, 255),
            b: ratio((v % 256) as i64, 255),
            a: S::of_int(1),
        }
    }

    #[verifier::when_used_as_spec(hex_spec)]
    pub fn hex(v: u32) -> (r: Color<S>)
        ensures
            r == Color::<S>::hex_spec(v),
    {
        Color {
            r: ratio((v / 65536 % 256) as i64, 255),
            g: ratio((v / 256 % 256) as i64, 255),
            b: ratio((v % 256) as i64, 255),
            a: S::of_int(1),
        }
    }

    /// The same colour at another opacity.
    pub open spec fn with_alpha_spec(self, a: S) -> Color<S> {
        Color { r: self.r, g: self.g, b: self.b, a }
    }

    #[verifier::when_used_as_spec(with_alpha_spec)]
    pub fn with_alpha(self, a: S) -> (r: Color<S>)
        ensures
            r == self.with_alpha_spec(a),
    {
        Color { r: self.r, g: self.g, b: self.b, a }
    }
}

/// The value of a hexadecimal digit.
pub open spec fn hex_value(c: char) -> nat {
    if '0' <= c <= '9' {
        (c as u32 - 48) as nat
    } else if 'a' <= c <= 'f' {
        (c as u32 - 97 + 10) as nat
    } else {
        (c as u32 - 65 + 10) as nat
    }
}

/// The number that hexadecimal digits say.
pub open spec fn hex_number(s: Seq<char>) -> nat
    decreases s.len(),
{
    if s.len() == 0 {
        0
    } else {
        hex_number(s.drop_last()) * 16 + hex_value(s.last())
    }
}

pub open spec fn all_hex(s: Seq<char>) -> bool {
    forall|i: int| 0 <= i < s.len() ==> hex_digit(#[trigger] s[i])
}

/// The digits of a hexadecimal text, without a plus before them.
pub open spec fn past_plus(s: Seq<char>) -> Seq<char> {
    if s.len() > 0 && s[0] == '+' {
        s.drop_first()
    } else {
        s
    }
}

/// The 32-bit number that a hexadecimal text says: digits, with or without a plus before them.
pub open spec fn radix16(s: Seq<char>) -> Option<u32> {
    let digits = past_plus(s);
    if digits.len() > 0 && all_hex(digits) && hex_number(digits) <= u32::MAX {
        Some(hex_number(digits) as u32)
    } else {
        None
    }
}

proof fn prefix_says_less(s: Seq<char>, n: int)
    requires
        0 <= n <= s.len(),
    ensures
        hex_number(s.subrange(0, n)) <= hex_number(s),
    decreases s.len(),
{
    if n == s.len() {
        assert(s.subrange(0, n) =~= s);
    } else {
        assert(s.drop_last().subrange(0, n) =~= s.subrange(0, n));
        prefix_says_less(s.drop_last(), n);
    }
}

fn read_radix16(chars: &[char]) -> (r: Option<u32>)
    ensures
        r == radix16(chars@),
{
    let lo: usize = if chars.len() > 0 && chars[0] == '+' {
        1
    } else {
        0
    };
    let ghost digits = past_plus(chars@);
    assert(digits =~= chars@.subrange(lo as int, chars.len() as int));
    if lo == chars.len() {
        return None;
    }
    let mut v: u64 = 0;
    let mut i: usize = lo;
    assert(digits.subrange(0, 0) =~= Seq::<char>::empty());
    while i < chars.len()
        invariant
            lo <= i <= chars.len(),
            digits == chars@.subrange(lo as int, chars.len() as int),
            digits.len() > 0,
            digits == past_plus(chars@),
            v == hex_number(digits.subrange(0, i - lo)),
            v <= u32::MAX,
            forall|k: int| 0 <= k < i - lo ==> hex_digit(#[trigger] digits[k]),
        decreases chars.len() - i,
    {
        let c = chars[i];
        assert(digits[i - lo] == c);
        let d: u64 = if '0' <= c && c <= '9' {
            (c as u32 - 48) as u64
        } else if 'a' <= c && c <= 'f' {
            (c as u32 - 97 + 10) as u64
        } else if 'A' <= c && c <= 'F' {
            (c as u32 - 65 + 10) as u64
        } else {
            assert(!hex_digit(digits[i - lo]));
            return None;
        };
        proof {
            assert(digits.subrange(0, i - lo + 1).drop_last() =~= digits.subrange(0, i - lo));
            prefix_says_less(digits, i - lo + 1);
        }
        v = v * 16 + d;
        if v > u32::MAX as u64 {
            return None;
        }
        i += 1;
    }
    assert(digits.subrange(0, i - lo) =~= digits);
    Some(v as u32)
}

/// The colour of a stored `#RRGGBB`, as the canvas draws it; a middle grey where the text
/// cannot be read.
pub open spec fn fill_color_spec<S: Scalar>(text: Seq<char>) -> Color<S> {
    match radix16(without_leading_spec(text, '#')) {
        Some(v) => Color::hex(v),
        None => Color::hex(0x888888),
    }
}

pub fn fill_color<S: Scalar>(text: &str) -> (r: Color<S>)
    ensures
        r == fill_color_spec::<S>(text@),
{
    let chars = chars_of(text);
    let digits = without_leading(chars.as_slice(), '#');
    match read_radix16(digits.as_slice()) {
        Some(v) => Color::hex(v),
        None => Color::hex(0x888888),
    }
}

/// Each character twice.
pub open spec fn doubled(s: Seq<char>) -> Seq<char> {
    Seq::new(2 * s.len(), |i: int| s[i / 2])
}

/// The colour of a `#RRGGBB` or `#RGB`, with or without white space around it, as a colour
/// well shows it.
pub open spec fn parse_hex_spec<S: Scalar>(text: Seq<char>) -> Color<S> {
    let h = without_leading_spec(trim_spec(text), '#');
    match radix16(
        if h.len() == 3 {
            doubled(h)
        } else {
            h
        },
    ) {
        Some(v) => Color::hex(v),
        None => Color::hex(0x888888),
    }
}

pub fn parse_hex<S: Scalar>(text: &str) -> (r: Color<S>)
    ensures
        r == parse_hex_spec::<S>(text@),
{
    let chars = chars_of(text);
    let chars = trim(chars.as_slice());
    let h = without_leading(chars.as_slice(), '#');
    let h = if h.len() == 3 {
        let mut twice: Vec<char> = Vec::new();
        twice.push(h[0]);
        twice.push(h[0]);
        twice.push(h[1]);
        twice.push(h[1]);
        twice.push(h[2]);
        twice.push(h[2]);
        assert(twice@ =~= doubled(h@));
        twice
    } else {
        h
    };
    match read_radix16(h.as_slice()) {
        Some(v) => Color::hex(v),
        None => Color::hex(0x888888),
    }
}

/// A part of a colour as a byte.
pub open spec fn byte_of<S: Scalar>(v: S) -> int {
    let n = clamped(v, S::of_int(0), S::of_int(1)).times(S::of_int(255)).rounded().to_int();
    if n < 0 {
        0
    } else if n > 255 {
        255
    } else {
        n as int
    }
}

fn part<S: Scalar>(v: S) -> (r: u8)
    ensures
        r == byte_of(v),
{
    let n: i64 = clamped(v, S::of_int(0), S::of_int(1)).times(S::of_int(255)).rounded().to_int();
    if n < 0 {
        0
    } else if n > 255 {
        255
    } else {
        n as u8
    }
}

/// The upper-case hexadecimal digit of a number below sixteen.
pub open spec fn hex_letter(d: int) -> char {
    if d < 10 {
        (d + 48) as u8 as char
    } else {
        (d - 10 + 65) as u8 as char
    }
}

fn letter(d: u8) -> (r: char)
    requires
        d < 16,
    ensures
        r == hex_letter(d as int),
{
    if d < 10 {
        (d + 48) as char
    } else {
        (d - 10 + 65) as char
    }
}

/// The `#RRGGBB` of a colour.
pub open spec fn to_hex_spec<S: Scalar>(c: Color<S>) -> Seq<char> {
    seq![
        '#',
        hex_letter(byte_of(c.r) / 16),
        hex_letter(byte_of(c.r) % 16),
        hex_letter(byte_of(c.g) / 16),
        hex_letter(byte_of(c.g) % 16),
        hex_letter(byte_of(c.b) / 16),
        hex_letter(byte_of(c.b) % 16),
    ]
}

pub fn to_hex<S: Scalar>(c: Color<S>) -> (r: String)
    ensures
        r@ == to_hex_spec(c),
{
    let mut out = String::new();
    let (r, g, b) = (part(c.r), part(c.g), part(c.b));
    out.push('#');
    out.push(letter(r / 16));
    out.push(letter(r % 16));
    out.push(letter(g / 16));
    out.push(letter(g % 16));
    out.push(letter(b / 16));
    out.push(letter(b % 16));
    assert(out@ =~= to_hex_spec(c));
    out
}

/// Whether every byte survives being a part of a colour.
pub open spec fn bytes_survive<S: Scalar>() -> bool {
    forall|b: i64| 0 <= b < 256 ==> byte_of(#[trigger] ratio::<S>(b, 255)) == b
}

proof fn hex_letter_reads_back(d: int)
    requires
        0 <= d < 16,
    ensures
        hex_digit(hex_letter(d)),
        hex_value(hex_letter(d)) == d,
        hex_letter(d) != '#',
        !blank(hex_letter(d)),
        hex_letter(d) != '+',
{
}

pub proof fn six_digits(s: Seq<char>)
    requires
        s.len() == 6,
    ensures
        hex_number(s) == ((((hex_value(s[0]) * 16 + hex_value(s[1])) * 16 + hex_value(s[2])) * 16
            + hex_value(s[3])) * 16 + hex_value(s[4])) * 16 + hex_value(s[5]),
{
    let s5 = s.drop_last();
    let s4 = s5.drop_last();
    let s3 = s4.drop_last();
    let s2 = s3.drop_last();
    let s1 = s2.drop_last();
    assert(hex_number(s1.drop_last()) == 0);
    assert(hex_number(s1) == hex_value(s[0]));
    assert(hex_number(s2) == hex_number(s1) * 16 + hex_value(s[1]));
    assert(hex_number(s3) == hex_number(s2) * 16 + hex_value(s[2]));
    assert(hex_number(s4) == hex_number(s3) * 16 + hex_value(s[3]));
    assert(hex_number(s5) == hex_number(s4) * 16 + hex_value(s[4]));
}

/// A colour reads back: the text that a colour well writes is the colour that it shows.
pub proof fn colours_read_back<S: Scalar>(v: u32)
    requires
        bytes_survive::<S>(),
        v < 0x1000000,
    ensures
        parse_hex_spec::<S>(to_hex_spec(Color::<S>::hex(v))) == Color::<S>::hex(v),
        fill_color_spec::<S>(to_hex_spec(Color::<S>::hex(v))) == Color::<S>::hex(v),
{
    let c = Color::<S>::hex(v);
    let (r, g, b) = ((v / 65536 % 256) as i64, (v / 256 % 256) as i64, (v % 256) as i64);
    assert(byte_of(ratio::<S>(r, 255)) == r);
    assert(byte_of(ratio::<S>(g, 255)) == g);
    assert(byte_of(ratio::<S>(b, 255)) == b);
    let t = to_hex_spec(c);
    hex_letter_reads_back(r as int / 16);
    hex_letter_reads_back(r as int % 16);
    hex_letter_reads_back(g as int / 16);
    hex_letter_reads_back(g as int % 16);
    hex_letter_reads_back(b as int / 16);
    hex_letter_reads_back(b as int % 16);
    assert(trim_start(t) == t);
    assert(trim_end(t) == t);
    let d = t.drop_first();
    assert(without_leading_spec(t, '#') == without_leading_spec(d, '#'));
    assert(without_leading_spec(d, '#') == d);
    assert(past_plus(d) == d);
    assert(all_hex(d));
    six_digits(d);
    assert(hex_number(d) == r * 65536 + g * 256 + b);
    assert(r * 65536 + g * 256 + b == v);
}

} // verus!
