//! How numbers and bytes are put into characters, and what is made of typed ones.
use vstd::prelude::*;
use crate::base64::{encoded, letter_spec};
use crate::inspector::{fmt_spec, percent_typed, typed, unmarked};
use crate::micro::{fraction_text, magnitude_text, ten_to, tenth_meaning, text_meaning, Micro};
use crate::sayings::trim_keeps;
use crate::scalar::{clamped, numeral, Scalar};
use crate::text::{
    blank, digit_spec, digits_spec, int_text_spec, trim_end, trim_spec, trim_start,
    without_trailing_spec,
};
use crate::travel::number_text;

verus! {

/// The six bits that a character stands for: letters first, then digits, then two signs.
pub open spec fn six_bits(c: char) -> int {
    if 'A' <= c <= 'Z' {
        c as u32 - 65
    } else if 'a' <= c <= 'z' {
        c as u32 - 71
    } else if '0' <= c <= '9' {
        c as u32 + 4
    } else if c == '+' {
        62
    } else if c == '/' {
        63
    } else {
        -1
    }
}

/// Three bytes make four characters, each of which says six of their bits, the foremost first; what
/// is short of three is filled up with nought, and the characters that are not needed are signs of
/// equality.
pub proof fn characters_say_six_bits_each(bytes: Seq<u8>)
    requires
        bytes.len() > 0,
    ensures
        ({
            let e = encoded(bytes);
            let b = if bytes.len() > 1 {
                bytes[1] as int
            } else {
                0
            };
            let c = if bytes.len() > 2 {
                bytes[2] as int
            } else {
                0
            };
            let n = bytes[0] * 65_536 + b * 256 + c;
            &&& e.len() >= 4
            &&& six_bits(e[0]) == n / 262_144
            &&& six_bits(e[1]) == n / 4_096 % 64
            &&& bytes.len() > 1 ==> six_bits(e[2]) == n / 64 % 64
            &&& bytes.len() > 2 ==> six_bits(e[3]) == n % 64
            &&& bytes.len() == 1 ==> e.len() == 4 && e[2] == '=' && e[3] == '='
            &&& bytes.len() == 2 ==> e.len() == 4 && e[3] == '='
            &&& bytes.len() > 2 ==> e.subrange(4, e.len() as int) =~= encoded(
                bytes.subrange(3, bytes.len() as int),
            )
        }),
{
    let b = if bytes.len() > 1 {
        bytes[1] as int
    } else {
        0
    };
    let c = if bytes.len() > 2 {
        bytes[2] as int
    } else {
        0
    };
    let n = bytes[0] * 65_536 + b * 256 + c;
    assert(0 <= n < 16_777_216);
    letter_says(n / 262_144);
    letter_says(n / 4_096 % 64);
    letter_says(n / 64 % 64);
    letter_says(n % 64);
    if bytes.len() > 2 {
        let e = encoded(bytes);
        assert(e.subrange(4, e.len() as int) =~= encoded(bytes.subrange(3, bytes.len() as int)));
    }
}

proof fn letter_says(d: int)
    requires
        0 <= d < 64,
    ensures
        six_bits(letter_spec(d)) == d,
{
    reveal(letter_spec);
}

/// A field shows a value to the nearest tenth, and what it shows reads as that.
pub proof fn fields_show_the_nearest_tenth(v: Micro) -> (r: Micro)
    requires
        -100_000_000_000_000_000 <= v.raw <= 100_000_000_000_000_000,
    ensures
        fmt_spec(v) == r.text_spec(),
        r.raw % 100_000 == 0,
        -50_000 <= r.raw - v.raw <= 50_000,
{
    assert(Micro::of_int(10).raw == 10_000_000);
    let t = v.times(Micro::of_int(10));
    assert(v.raw * 10_000_000 == 10 * (v.raw * 1_000_000));
    assert(t.raw == 10 * v.raw);
    let u = t.rounded();
    let r = u.over(Micro::of_int(10));
    assert(u.raw % 1_000_000 == 0 && -500_000 <= u.raw - t.raw <= 500_000);
    assert(r.raw * 10 == u.raw);
    let n = if r.raw < 0 {
        (-r.raw) as nat
    } else {
        r.raw as nat
    };
    if r.raw % 1_000_000 == 0 {
        assert(n % 1_000_000 == 0);
        assert(r.to_int() == r.raw / 1_000_000);
        assert(int_text_spec(r.to_int() as int) =~= text_meaning(r));
    } else {
        tenths_are_written(n);
        assert(tenth_meaning(r) =~= text_meaning(r));
    }
    r
}

/// A magnitude of whole tenths is written with one digit behind the point.
proof fn tenths_are_written(n: nat)
    requires
        n % 100_000 == 0,
        n % 1_000_000 != 0,
    ensures
        magnitude_text(n) =~= digits_spec(n / 1_000_000) + seq![
            '.',
            digit_spec(n / 100_000 % 10),
        ],
        (n + 50_000) / 100_000 == n / 100_000,
        n / 100_000 / 10 == n / 1_000_000,
{
    reveal_with_fuel(ten_to, 7);
    let f = n % 1_000_000;
    assert(ten_to(5) == 100_000);
    assert(f % 100_000 == 0);
    assert(f / 100_000 == n / 100_000 % 10);
    assert(fraction_text(0, 5) =~= Seq::<char>::empty());
    assert(fraction_text(f, 6) =~= seq![digit_spec(f / 100_000)]);
}

/// A typed number is taken as it is.
pub proof fn typed_numbers_are_taken(v: Micro)
    ensures
        typed::<Micro>(v.text_spec()) == Some(v),
{
    number_text(v);
    trim_keeps(v.text_spec());
}

/// A typed percentage is a hundredth of its number, held between nought and one, with its sign or
/// without.
pub proof fn typed_percentages_are_hundredths(v: Micro)
    ensures
        ({
            let t = v.text_spec();
            let w = if v.raw < 0 {
                0
            } else if v.raw > 100_000_000 {
                1_000_000
            } else {
                v.raw as int / 100
            };
            &&& percent_typed::<Micro>(t) matches Some(r) && r.raw == w
            &&& percent_typed::<Micro>(t.push('%')) matches Some(r) && r.raw == w
        }),
{
    number_text(v);
    let t = v.text_spec();
    percentages_are_read(t);
    let r = clamped(v.over(Micro::of_int(100)), Micro::of_int(0), Micro::of_int(1));
    hundredths_are(v);
    assert(percent_typed::<Micro>(t) == Some(r));
    assert(percent_typed::<Micro>(t.push('%')) == Some(r));
}

/// What a typed percentage is read from.
proof fn percentages_are_read(t: Seq<char>)
    requires
        t.len() > 0,
        forall|i: int| 0 <= i < t.len() ==> numeral(#[trigger] t[i]),
    ensures
        trim_spec(without_trailing_spec(trim_spec(t.filter(unmarked())), '%')) == t,
        trim_spec(without_trailing_spec(trim_spec(t.push('%').filter(unmarked())), '%')) == t,
{
    let u = t.push('%');
    trim_keeps(t);
    assert(numeral(t[t.len() - 1]));
    nothing_is_marked(t);
    assert forall|i: int| 0 <= i < u.len() implies numeral(#[trigger] u[i]) || u[i] == '%' by {
        if i < t.len() {
            assert(u[i] == t[i]);
        }
    }
    nothing_is_marked(u);
    assert(without_trailing_spec(t, '%') == t);
    assert(u[0] == t[0]);
    assert(!blank('%'));
    assert(trim_start(u) == u);
    assert(trim_end(u) == u);
    assert(u.drop_last() =~= t);
    assert(without_trailing_spec(u, '%') == t);
}

/// A hundredth, held between nought and one.
proof fn hundredths_are(v: Micro)
    ensures
        clamped(v.over(Micro::of_int(100)), Micro::of_int(0), Micro::of_int(1)).raw == if v.raw < 0 {
            0
        } else if v.raw > 100_000_000 {
            1_000_000
        } else {
            v.raw as int / 100
        },
{
    assert(Micro::of_int(100).raw == 100_000_000 && Micro::of_int(0).raw == 0
        && Micro::of_int(1).raw == 1_000_000);
    let n = v.raw * 1_000_000;
    if n >= 0 {
        assert(n / 100_000_000 == v.raw as int / 100);
        assert(v.over(Micro::of_int(100)).raw == v.raw as int / 100);
    } else {
        assert(-n / 100_000_000 == -v.raw / 100);
        assert(v.over(Micro::of_int(100)).raw == -(-v.raw / 100));
    }
}

/// A text without marks keeps all its characters.
proof fn nothing_is_marked(s: Seq<char>)
    requires
        forall|i: int| 0 <= i < s.len() ==> numeral(#[trigger] s[i]) || s[i] == '%',
    ensures
        s.filter(unmarked()) == s,
    decreases s.len(),
{
    reveal(Seq::filter);
    if s.len() > 0 {
        let front = s.drop_last();
        assert forall|i: int| 0 <= i < front.len() implies numeral(#[trigger] front[i]) || front[i]
            == '%' by {
            assert(front[i] == s[i]);
        }
        nothing_is_marked(front);
        assert(numeral(s[s.len() - 1]) || s[s.len() - 1] == '%');
        assert(front.push(s.last()) =~= s);
    }
}

} // verus!
