//! Bytes as text, in the standard base-64 alphabet with padding.
use vstd::prelude::*;

verus! {

/// The character of a six-bit digit.
#[verifier::opaque]
pub open spec fn letter_spec(d: int) -> char {
    if d < 26 {
        (d + 65) as u8 as char
    } else if d < 52 {
        (d - 26 + 97) as u8 as char
    } else if d < 62 {
        (d - 52 + 48) as u8 as char
    } else if d == 62 {
        '+'
    } else {
        '/'
    }
}

/// The digit a character stands for.
pub open spec fn digit_of_spec(c: char) -> Option<int> {
    if 'A' <= c <= 'Z' {
        Some(c as u8 - 65)
    } else if 'a' <= c <= 'z' {
        Some(c as u8 - 97 + 26)
    } else if '0' <= c <= '9' {
        Some(c as u8 - 48 + 52)
    } else if c == '+' {
        Some(62int)
    } else if c == '/' {
        Some(63int)
    } else {
        None
    }
}

/// Three bytes as one number.
pub open spec fn three(a: u8, b: u8, c: u8) -> int {
    a * 65536 + b * 256 + c
}

/// The text of some bytes: four characters for every three bytes, the last padded by `=`.
pub open spec fn encoded(bytes: Seq<u8>) -> Seq<char>
    decreases bytes.len(),
{
    if bytes.len() == 0 {
        Seq::empty()
    } else if bytes.len() == 1 {
        let n = three(bytes[0], 0, 0);
        seq![letter_spec(n / 262144), letter_spec(n / 4096 % 64), '=', '=']
    } else if bytes.len() == 2 {
        let n = three(bytes[0], bytes[1], 0);
        seq![letter_spec(n / 262144), letter_spec(n / 4096 % 64), letter_spec(n / 64 % 64), '=']
    } else {
        let n = three(bytes[0], bytes[1], bytes[2]);
        seq![
            letter_spec(n / 262144),
            letter_spec(n / 4096 % 64),
            letter_spec(n / 64 % 64),
            letter_spec(n % 64),
        ] + encoded(bytes.subrange(3, bytes.len() as int))
    }
}

/// The bytes of four characters. Padding is read only where `last` holds.
#[verifier::opaque]
pub open spec fn quad_decoded(q: Seq<char>, last: bool) -> Option<Seq<u8>> {
    match (digit_of_spec(q[0]), digit_of_spec(q[1])) {
        (Some(d0), Some(d1)) => {
            if last && q[2] == '=' && q[3] == '=' {
                Some(seq![((d0 * 262144 + d1 * 4096) / 65536) as u8])
            } else {
                match digit_of_spec(q[2]) {
                    None => None,
                    Some(d2) => {
                        let n = d0 * 262144 + d1 * 4096 + d2 * 64;
                        if last && q[3] == '=' {
                            Some(seq![(n / 65536) as u8, (n / 256 % 256) as u8])
                        } else {
                            match digit_of_spec(q[3]) {
                                None => None,
                                Some(d3) => Some(
                                    seq![
                                        ((n + d3) / 65536) as u8,
                                        ((n + d3) / 256 % 256) as u8,
                                        ((n + d3) % 256) as u8,
                                    ],
                                ),
                            }
                        }
                    },
                }
            }
        },
        _ => None,
    }
}

/// The bytes that a text stands for; `None` where it is no such text.
pub open spec fn decoded(text: Seq<char>) -> Option<Seq<u8>>
    decreases text.len(),
{
    if text.len() == 0 {
        Some(Seq::empty())
    } else if text.len() < 4 {
        None
    } else {
        match quad_decoded(text.subrange(0, 4), text.len() == 4) {
            None => None,
            Some(head) => match decoded(text.subrange(4, text.len() as int)) {
                None => None,
                Some(rest) => Some(head + rest),
            },
        }
    }
}

/// A digit's character stands for that digit, and is no padding.
proof fn letter_reads_back(d: int)
    requires
        0 <= d < 64,
    ensures
        digit_of_spec(letter_spec(d)) == Some(d),
        letter_spec(d) != '=',
{
    reveal(letter_spec);
}

/// A character of the alphabet, or padding.
pub open spec fn in_alphabet(c: char) -> bool {
    digit_of_spec(c) is Some || c == '='
}

/// What is encoded holds characters of the alphabet, and padding, only.
pub proof fn encoded_alphabet(bytes: Seq<u8>)
    ensures
        forall|i: int|
            0 <= i < encoded(bytes).len() ==> in_alphabet(#[trigger] encoded(bytes)[i]),
    decreases bytes.len(),
{
    if bytes.len() > 0 {
        let b = if bytes.len() > 1 {
            bytes[1]
        } else {
            0
        };
        let c = if bytes.len() > 2 {
            bytes[2]
        } else {
            0
        };
        let n = three(bytes[0], b, c);
        three_splits(bytes[0], b, c);
        sextets_split(n);
        letter_reads_back(n / 262144);
        letter_reads_back(n / 4096 % 64);
        letter_reads_back(n / 64 % 64);
        letter_reads_back(n % 64);
        if bytes.len() > 2 {
            let rest = bytes.subrange(3, bytes.len() as int);
            encoded_alphabet(rest);
            assert forall|i: int| 0 <= i < encoded(bytes).len() implies in_alphabet(
                #[trigger] encoded(bytes)[i],
            ) by {
                if i >= 4 {
                    assert(encoded(bytes)[i] == encoded(rest)[i - 4]);
                }
            }
        }
    }
}

proof fn sextets_split(n: int)
    requires
        0 <= n < 16777216,
    ensures
        0 <= n / 262144 < 64,
        0 <= n / 4096 % 64 < 64,
        0 <= n / 64 % 64 < 64,
        0 <= n % 64 < 64,
        n / 262144 * 262144 + n / 4096 % 64 * 4096 + n / 64 % 64 * 64 + n % 64 == n,
{
    let q1 = n / 64;
    let q2 = q1 / 64;
    let q3 = q2 / 64;
    assert(n / 4096 == q2);
    assert(n / 262144 == q3);
}

proof fn three_splits(a: u8, b: u8, c: u8)
    ensures
        ({
            let n = three(a, b, c);
            &&& 0 <= n < 16777216
            &&& n / 65536 == a
            &&& n / 256 % 256 == b
            &&& n % 256 == c
        }),
{
    let n = three(a, b, c);
    assert(n / 256 == a * 256 + b);
}

/// Four digits' characters, all of them read.
proof fn quad_of_three(a: u8, b: u8, c: u8, last: bool)
    ensures
        ({
            let n = three(a, b, c);
            quad_decoded(
                seq![
                    letter_spec(n / 262144),
                    letter_spec(n / 4096 % 64),
                    letter_spec(n / 64 % 64),
                    letter_spec(n % 64),
                ],
                last,
            ) == Some(seq![a, b, c])
        }),
{
    reveal(quad_decoded);
    let n = three(a, b, c);
    three_splits(a, b, c);
    sextets_split(n);
    letter_reads_back(n / 262144);
    letter_reads_back(n / 4096 % 64);
    letter_reads_back(n / 64 % 64);
    letter_reads_back(n % 64);
}

proof fn quad_of_two(a: u8, b: u8)
    ensures
        ({
            let n = three(a, b, 0);
            quad_decoded(
                seq![
                    letter_spec(n / 262144),
                    letter_spec(n / 4096 % 64),
                    letter_spec(n / 64 % 64),
                    '=',
                ],
                true,
            ) == Some(seq![a, b])
        }),
{
    reveal(quad_decoded);
    let n = three(a, b, 0);
    three_splits(a, b, 0);
    sextets_split(n);
    letter_reads_back(n / 262144);
    letter_reads_back(n / 4096 % 64);
    letter_reads_back(n / 64 % 64);
    assert(n % 64 == 0);
}

proof fn quad_of_one(a: u8)
    ensures
        ({
            let n = three(a, 0, 0);
            quad_decoded(
                seq![letter_spec(n / 262144), letter_spec(n / 4096 % 64), '=', '='],
                true,
            ) == Some(seq![a])
        }),
{
    reveal(quad_decoded);
    let n = three(a, 0, 0);
    three_splits(a, 0, 0);
    sextets_split(n);
    letter_reads_back(n / 262144);
    letter_reads_back(n / 4096 % 64);
    assert(n % 64 == 0);
    assert(n / 64 == a * 1024);
    assert(n / 64 % 64 == 0);
}

/// What was encoded decodes to the same bytes.
pub proof fn decoding_restores(bytes: Seq<u8>)
    ensures
        decoded(encoded(bytes)) == Some(bytes),
    decreases bytes.len(),
{
    let text = encoded(bytes);
    if bytes.len() == 0 {
        assert(bytes =~= Seq::<u8>::empty());
    } else if bytes.len() <= 2 {
        assert(text.subrange(0, 4) =~= text);
        assert(text.subrange(4, 4) =~= Seq::<char>::empty());
        assert(decoded(text.subrange(4, 4)) == Some(Seq::<u8>::empty()));
        if bytes.len() == 1 {
            quad_of_one(bytes[0]);
            assert(seq![bytes[0]] + Seq::<u8>::empty() =~= bytes);
        } else {
            quad_of_two(bytes[0], bytes[1]);
            assert(seq![bytes[0], bytes[1]] + Seq::<u8>::empty() =~= bytes);
        }
    } else {
        let rest = bytes.subrange(3, bytes.len() as int);
        let n = three(bytes[0], bytes[1], bytes[2]);
        decoding_restores(rest);
        quad_of_three(bytes[0], bytes[1], bytes[2], text.len() == 4);
        assert(text.subrange(4, text.len() as int) =~= encoded(rest));
        assert(text.subrange(0, 4) =~= seq![
            letter_spec(n / 262144),
            letter_spec(n / 4096 % 64),
            letter_spec(n / 64 % 64),
            letter_spec(n % 64),
        ]);
        assert(seq![bytes[0], bytes[1], bytes[2]] + rest =~= bytes);
    }
}

fn letter(d: u32) -> (r: char)
    requires
        d < 64,
    ensures
        r == letter_spec(d as int),
{
    proof {
        reveal(letter_spec);
    }
    if d < 26 {
        (d as u8 + 65) as char
    } else if d < 52 {
        (d as u8 - 26 + 97) as char
    } else if d < 62 {
        (d as u8 - 52 + 48) as char
    } else if d == 62 {
        '+'
    } else {
        '/'
    }
}

fn digit_of(c: char) -> (r: Option<u32>)
    ensures
        match r {
            Some(d) => digit_of_spec(c) == Some(d as int) && d < 64,
            None => digit_of_spec(c) is None,
        },
{
    if 'A' <= c && c <= 'Z' {
        Some((c as u8 - 65) as u32)
    } else if 'a' <= c && c <= 'z' {
        Some((c as u8 - 97) as u32 + 26)
    } else if '0' <= c && c <= '9' {
        Some((c as u8 - 48) as u32 + 52)
    } else if c == '+' {
        Some(62)
    } else if c == '/' {
        Some(63)
    } else {
        None
    }
}

/// The text of some bytes.
pub fn encode(bytes: &[u8]) -> (r: Vec<char>)
    ensures
        r@ == encoded(bytes@),
{
    let mut out: Vec<char> = Vec::new();
    let mut i: usize = 0;
    assert(bytes@.subrange(0, bytes.len() as int) =~= bytes@);
    assert(out@ + encoded(bytes@) =~= encoded(bytes@));
    while bytes.len() - i >= 3
        invariant
            i <= bytes.len(),
            out@ + encoded(bytes@.subrange(i as int, bytes.len() as int)) == encoded(bytes@),
        decreases bytes.len() - i,
    {
        let ghost rest = bytes@.subrange(i as int, bytes.len() as int);
        let ghost sofar = out@;
        let n: u32 = bytes[i] as u32 * 65536 + bytes[i + 1] as u32 * 256 + bytes[i + 2] as u32;
        assert(n as int == three(rest[0], rest[1], rest[2]));
        out.push(letter(n / 262144));
        out.push(letter(n / 4096 % 64));
        out.push(letter(n / 64 % 64));
        out.push(letter(n % 64));
        i += 3;
        assert(rest.subrange(3, rest.len() as int) =~= bytes@.subrange(
            i as int,
            bytes.len() as int,
        ));
        assert(out@ + encoded(bytes@.subrange(i as int, bytes.len() as int)) =~= sofar + encoded(
            rest,
        ));
    }
    let ghost rest = bytes@.subrange(i as int, bytes.len() as int);
    let ghost sofar = out@;
    let left: usize = bytes.len() - i;
    if left == 1 {
        let n: u32 = bytes[i] as u32 * 65536;
        assert(n as int == three(rest[0], 0, 0));
        out.push(letter(n / 262144));
        out.push(letter(n / 4096 % 64));
        out.push('=');
        out.push('=');
    } else if left == 2 {
        let n: u32 = bytes[i] as u32 * 65536 + bytes[i + 1] as u32 * 256;
        assert(n as int == three(rest[0], rest[1], 0));
        out.push(letter(n / 262144));
        out.push(letter(n / 4096 % 64));
        out.push(letter(n / 64 % 64));
        out.push('=');
    }
    assert(out@ =~= sofar + encoded(rest));
    out
}

/// The bytes of four characters.
fn decode_quad(c0: char, c1: char, c2: char, c3: char, last: bool) -> (r: Option<Vec<u8>>)
    ensures
        match r {
            Some(v) => quad_decoded(seq![c0, c1, c2, c3], last) == Some(v@),
            None => quad_decoded(seq![c0, c1, c2, c3], last) is None,
        },
{
    proof {
        reveal(quad_decoded);
    }
    let d0: u32 = match digit_of(c0) {
        Some(d) => d,
        None => {
            return None;
        },
    };
    let d1: u32 = match digit_of(c1) {
        Some(d) => d,
        None => {
            return None;
        },
    };
    let mut out: Vec<u8> = Vec::new();
    let ghost whole = quad_decoded(seq![c0, c1, c2, c3], last);
    if last && c2 == '=' && c3 == '=' {
        out.push(((d0 * 262144 + d1 * 4096) / 65536) as u8);
        assert(out@ =~= whole->0);
        return Some(out);
    }
    let d2: u32 = match digit_of(c2) {
        Some(d) => d,
        None => {
            return None;
        },
    };
    let n: u32 = d0 * 262144 + d1 * 4096 + d2 * 64;
    if last && c3 == '=' {
        out.push((n / 65536) as u8);
        out.push((n / 256 % 256) as u8);
        assert(out@ =~= whole->0);
        return Some(out);
    }
    let d3: u32 = match digit_of(c3) {
        Some(d) => d,
        None => {
            return None;
        },
    };
    out.push(((n + d3) / 65536) as u8);
    out.push(((n + d3) / 256 % 256) as u8);
    out.push(((n + d3) % 256) as u8);
    assert(out@ =~= whole->0);
    Some(out)
}

/// The bytes that a text stands for; `None` where it is no such text.
pub fn decode(text: &[char]) -> (r: Option<Vec<u8>>)
    ensures
        match r {
            Some(v) => decoded(text@) == Some(v@),
            None => decoded(text@) is None,
        },
{
    let mut out: Vec<u8> = Vec::new();
    let mut i: usize = 0;
    assert(text@.subrange(0, text.len() as int) =~= text@);
    proof {
        assert(decoded(text@) matches Some(v) ==> out@ + v =~= v);
    }
    while text.len() - i >= 4
        invariant
            i <= text.len(),
            decoded(text@) is None <==> decoded(
                text@.subrange(i as int, text.len() as int),
            ) is None,
            decoded(text@) is Some ==> decoded(text@) == Some(
                out@ + decoded(text@.subrange(i as int, text.len() as int))->0,
            ),
        decreases text.len() - i,
    {
        let ghost rest = text@.subrange(i as int, text.len() as int);
        let ghost sofar = out@;
        assert(rest.subrange(0, 4) =~= seq![
            text@[i as int],
            text@[i + 1],
            text@[i + 2],
            text@[i + 3],
        ]);
        let last = text.len() - i == 4;
        match decode_quad(text[i], text[i + 1], text[i + 2], text[i + 3], last) {
            None => {
                return None;
            },
            Some(quad) => {
                let mut quad = quad;
                let ghost head = quad@;
                out.append(&mut quad);
                i += 4;
                let ghost tail = text@.subrange(i as int, text.len() as int);
                assert(rest.subrange(4, rest.len() as int) =~= tail);
                assert(decoded(tail) is Some ==> out@ + decoded(tail)->0 =~= sofar + (head
                    + decoded(tail)->0));
            },
        }
    }
    if i < text.len() {
        return None;
    }
    assert(out@ + Seq::<u8>::empty() =~= out@);
    Some(out)
}

} // verus!
