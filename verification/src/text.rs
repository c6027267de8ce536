//! Text as sequences of characters: trimming, letter case, and the digits of an integer.
use vstd::prelude::*;
use vstd::std_specs::iter::IteratorSpec;

verus! {

/// `String::push`: appends the one character to the end.
pub assume_specification[ String::push ](s: &mut String, c: char)
    ensures
        final(s)@ == old(s)@.push(c),
;

/// The characters of `s`, in order.
pub fn chars_of(s: &str) -> (r: Vec<char>)
    ensures
        r@ == s@,
{
    let mut out: Vec<char> = Vec::new();
    let mut it = s.chars();
    broadcast use vstd::string::axiom_spec_iter;
    loop
        invariant
            out@ + it.remaining() == s@,
            it.decrease() is Some,
            it.obeys_prophetic_iter_laws(),
        decreases it.decrease()->0,
    {
        broadcast use vstd::string::next_postcondition;
        match it.next() {
            Some(c) => {
                out.push(c);
                assert(out@ + it.remaining() =~= s@);
            },
            None => {
                assert(out@ =~= s@);
                return out;
            },
        }
    }
}


/// The string of the given characters.
pub fn string_of(chars: &[char]) -> (r: String)
    ensures
        r@ == chars@,
{
    let mut out = String::new();
    let mut i: usize = 0;
    while i < chars.len()
        invariant
            i <= chars.len(),
            out@ == chars@.subrange(0, i as int),
        decreases chars.len() - i,
    {
        out.push(chars[i]);
        i += 1;
        assert(chars@.subrange(0, i as int) =~= chars@.subrange(0, i - 1).push(chars@[i - 1]));
    }
    assert(chars@.subrange(0, i as int) =~= chars@);
    out
}

/// The characters at `lo..hi`.
pub fn cut(chars: &[char], lo: usize, hi: usize) -> (r: Vec<char>)
    requires
        lo <= hi <= chars.len(),
    ensures
        r@ == chars@.subrange(lo as int, hi as int),
{
    let mut out: Vec<char> = Vec::new();
    let mut i: usize = lo;
    while i < hi
        invariant
            lo <= i <= hi <= chars.len(),
            out@ == chars@.subrange(lo as int, i as int),
        decreases hi - i,
    {
        out.push(chars[i]);
        i += 1;
        assert(out@ =~= chars@.subrange(lo as int, i as int));
    }
    out
}

/// Whether `chars` spells `word`.
pub fn spells(chars: &[char], word: &str) -> (r: bool)
    ensures
        r == (chars@ == word@),
{
    let w = chars_of(word);
    if w.len() != chars.len() {
        return false;
    }
    let mut i: usize = 0;
    while i < w.len()
        invariant
            i <= w.len(),
            w@ == word@,
            w.len() == chars.len(),
            forall|j: int| 0 <= j < i ==> w@[j] == chars@[j],
        decreases w.len() - i,
    {
        if w[i] != chars[i] {
            return false;
        }
        i += 1;
    }
    assert(chars@ =~= word@);
    true
}

/// White space, as Unicode defines it.
pub open spec fn blank_spec(c: char) -> bool {
    ||| '\u{9}' <= c <= '\u{d}'
    ||| c == ' '
    ||| c == '\u{85}'
    ||| c == '\u{a0}'
    ||| c == '\u{1680}'
    ||| '\u{2000}' <= c <= '\u{200a}'
    ||| c == '\u{2028}'
    ||| c == '\u{2029}'
    ||| c == '\u{202f}'
    ||| c == '\u{205f}'
    ||| c == '\u{3000}'
}

#[verifier::when_used_as_spec(blank_spec)]
pub fn blank(c: char) -> (r: bool)
    ensures
        r == blank_spec(c),
{
    ('\u{9}' <= c && c <= '\u{d}') || c == ' ' || c == '\u{85}' || c == '\u{a0}' || c == '\u{1680}'
        || ('\u{2000}' <= c && c <= '\u{200a}') || c == '\u{2028}' || c == '\u{2029}' || c
        == '\u{202f}' || c == '\u{205f}' || c == '\u{3000}'
}

/// White space within ASCII, vertical tab excepted.
pub open spec fn ascii_blank_spec(c: char) -> bool {
    c == ' ' || c == '\t' || c == '\n' || c == '\u{c}' || c == '\r'
}

#[verifier::when_used_as_spec(ascii_blank_spec)]
pub fn ascii_blank(c: char) -> (r: bool)
    ensures
        r == ascii_blank_spec(c),
{
    c == ' ' || c == '\t' || c == '\n' || c == '\u{c}' || c == '\r'
}

/// `s` without the white space it begins with.
pub open spec fn trim_start(s: Seq<char>) -> Seq<char>
    decreases s.len(),
{
    if s.len() > 0 && blank(s[0]) {
        trim_start(s.drop_first())
    } else {
        s
    }
}

/// `s` without the white space it ends in.
pub open spec fn trim_end(s: Seq<char>) -> Seq<char>
    decreases s.len(),
{
    if s.len() > 0 && blank(s.last()) {
        trim_end(s.drop_last())
    } else {
        s
    }
}

/// `s` without white space around it.
pub open spec fn trim_spec(s: Seq<char>) -> Seq<char> {
    trim_end(trim_start(s))
}

/// The text without white space around it.
pub fn trim(chars: &[char]) -> (r: Vec<char>)
    ensures
        r@ == trim_spec(chars@),
{
    let mut lo: usize = 0;
    assert(chars@.subrange(0, chars.len() as int) =~= chars@);
    while lo < chars.len() && blank(chars[lo])
        invariant
            lo <= chars.len(),
            trim_start(chars@.subrange(lo as int, chars.len() as int)) == trim_start(chars@),
        decreases chars.len() - lo,
    {
        lo += 1;
        assert(chars@.subrange(lo - 1, chars.len() as int).drop_first() =~= chars@.subrange(
            lo as int,
            chars.len() as int,
        ));
    }
    let mut hi: usize = chars.len();
    let ghost front = chars@.subrange(lo as int, chars.len() as int);
    while hi > lo && blank(chars[hi - 1])
        invariant
            lo <= hi <= chars.len(),
            trim_end(chars@.subrange(lo as int, hi as int)) == trim_end(front),
        decreases hi - lo,
    {
        hi -= 1;
        assert(chars@.subrange(lo as int, hi + 1).drop_last() =~= chars@.subrange(
            lo as int,
            hi as int,
        ));
    }
    cut(chars, lo, hi)
}

/// `s` without any copies of `c` at its start.
pub open spec fn without_leading_spec(s: Seq<char>, c: char) -> Seq<char>
    decreases s.len(),
{
    if s.len() > 0 && s[0] == c {
        without_leading_spec(s.drop_first(), c)
    } else {
        s
    }
}

pub fn without_leading(chars: &[char], c: char) -> (r: Vec<char>)
    ensures
        r@ == without_leading_spec(chars@, c),
{
    let mut lo: usize = 0;
    assert(chars@.subrange(0, chars.len() as int) =~= chars@);
    while lo < chars.len() && chars[lo] == c
        invariant
            lo <= chars.len(),
            without_leading_spec(chars@.subrange(lo as int, chars.len() as int), c)
                == without_leading_spec(chars@, c),
        decreases chars.len() - lo,
    {
        lo += 1;
        assert(chars@.subrange(lo - 1, chars.len() as int).drop_first() =~= chars@.subrange(
            lo as int,
            chars.len() as int,
        ));
    }
    cut(chars, lo, chars.len())
}

/// `s` without any copies of `c` at its end.
pub open spec fn without_trailing_spec(s: Seq<char>, c: char) -> Seq<char>
    decreases s.len(),
{
    if s.len() > 0 && s.last() == c {
        without_trailing_spec(s.drop_last(), c)
    } else {
        s
    }
}

pub fn without_trailing(chars: &[char], c: char) -> (r: Vec<char>)
    ensures
        r@ == without_trailing_spec(chars@, c),
{
    let mut hi: usize = chars.len();
    assert(chars@.subrange(0, chars.len() as int) =~= chars@);
    while hi > 0 && chars[hi - 1] == c
        invariant
            hi <= chars.len(),
            without_trailing_spec(chars@.subrange(0, hi as int), c) == without_trailing_spec(
                chars@,
                c,
            ),
        decreases hi,
    {
        hi -= 1;
        assert(chars@.subrange(0, hi + 1).drop_last() =~= chars@.subrange(0, hi as int));
    }
    cut(chars, 0, hi)
}

/// `s` without any copies of the unit `px` at its end.
pub open spec fn without_px_spec(s: Seq<char>) -> Seq<char>
    decreases s.len(),
{
    if s.len() >= 2 && s[s.len() - 2] == 'p' && s[s.len() - 1] == 'x' {
        without_px_spec(s.subrange(0, s.len() - 2))
    } else {
        s
    }
}

pub fn without_px(chars: &[char]) -> (r: Vec<char>)
    ensures
        r@ == without_px_spec(chars@),
{
    let mut hi: usize = chars.len();
    assert(chars@.subrange(0, chars.len() as int) =~= chars@);
    while hi >= 2 && chars[hi - 2] == 'p' && chars[hi - 1] == 'x'
        invariant
            hi <= chars.len(),
            without_px_spec(chars@.subrange(0, hi as int)) == without_px_spec(chars@),
        decreases hi,
    {
        hi -= 2;
        assert(chars@.subrange(0, hi + 2).subrange(0, hi as int) =~= chars@.subrange(0, hi as int));
    }
    cut(chars, 0, hi)
}

/// The lower-case form of an ASCII letter; any other character stays.
pub open spec fn lower_spec(c: char) -> char {
    if 'A' <= c <= 'Z' {
        (c as u8 + 32) as u8 as char
    } else {
        c
    }
}

#[verifier::when_used_as_spec(lower_spec)]
pub fn lower(c: char) -> (r: char)
    ensures
        r == lower_spec(c),
{
    if 'A' <= c && c <= 'Z' {
        (c as u8 + 32) as char
    } else {
        c
    }
}

/// The upper-case form of an ASCII letter; any other character stays.
pub open spec fn upper_spec(c: char) -> char {
    if 'a' <= c <= 'z' {
        (c as u8 - 32) as u8 as char
    } else {
        c
    }
}

#[verifier::when_used_as_spec(upper_spec)]
pub fn upper(c: char) -> (r: char)
    ensures
        r == upper_spec(c),
{
    if 'a' <= c && c <= 'z' {
        (c as u8 - 32) as char
    } else {
        c
    }
}

/// `s` with its ASCII letters in lower case.
pub open spec fn lowered_spec(s: Seq<char>) -> Seq<char> {
    s.map_values(|c: char| lower(c))
}

pub fn lowered(chars: &[char]) -> (r: Vec<char>)
    ensures
        r@ == lowered_spec(chars@),
{
    let mut out: Vec<char> = Vec::new();
    let mut i: usize = 0;
    while i < chars.len()
        invariant
            i <= chars.len(),
            out.len() == i,
            forall|j: int| 0 <= j < i ==> out@[j] == lower(#[trigger] chars@[j]),
        decreases chars.len() - i,
    {
        out.push(lower(chars[i]));
        i += 1;
    }
    assert(out@ =~= lowered_spec(chars@));
    out
}

/// The digit of `d`, which is below ten.
pub open spec fn digit_spec(d: nat) -> char {
    (d + 48) as u8 as char
}

/// The decimal digits of `n`, most significant first, without leading zeros.
pub open spec fn digits_spec(n: nat) -> Seq<char>
    decreases n,
{
    if n < 10 {
        seq![digit_spec(n)]
    } else {
        digits_spec(n / 10).push(digit_spec(n % 10))
    }
}

pub fn digits(n: u64) -> (r: Vec<char>)
    ensures
        r@ == digits_spec(n as nat),
    decreases n,
{
    if n < 10 {
        let mut out: Vec<char> = Vec::new();
        out.push((n as u8 + 48) as char);
        out
    } else {
        let mut out = digits(n / 10);
        out.push(((n % 10) as u8 + 48) as char);
        out
    }
}

/// The decimal text of an integer.
pub open spec fn int_text_spec(n: int) -> Seq<char> {
    if n < 0 {
        seq!['-'] + digits_spec((-n) as nat)
    } else {
        digits_spec(n as nat)
    }
}

pub fn int_text(n: i64) -> (r: String)
    ensures
        r@ == int_text_spec(n as int),
{
    let mut out = String::new();
    let magnitude: u64 = if n < 0 {
        out.push('-');
        (-(n as i128)) as u64
    } else {
        n as u64
    };
    let tail = digits(magnitude);
    let tail = string_of(tail.as_slice());
    let r = out.concat(tail.as_str());
    assert(r@ =~= int_text_spec(n as int));
    r
}

} // verus!
