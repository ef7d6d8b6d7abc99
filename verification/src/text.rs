//! Hexadecimal text: the digit alphabet and the byte-sequence encoding used
//! both by the session identifier's canonical form and by escape sequences
//! in the cookie payload.

use vstd::prelude::*;
use vstd::string::StrSliceExecFns;

verus! {

/// The lower-case hexadecimal digit standing for a value in `0..16`.
pub open spec fn hex_char(n: int) -> char {
    if n == 0 {
        '0'
    } else if n == 1 {
        '1'
    } else if n == 2 {
        '2'
    } else if n == 3 {
        '3'
    } else if n == 4 {
        '4'
    } else if n == 5 {
        '5'
    } else if n == 6 {
        '6'
    } else if n == 7 {
        '7'
    } else if n == 8 {
        '8'
    } else if n == 9 {
        '9'
    } else if n == 10 {
        'a'
    } else if n == 11 {
        'b'
    } else if n == 12 {
        'c'
    } else if n == 13 {
        'd'
    } else if n == 14 {
        'e'
    } else {
        'f'
    }
}

/// The value of a hexadecimal digit, either case; `16` marks a character
/// that is no hexadecimal digit.
pub open spec fn hex_val(c: char) -> int {
    if c == '0' {
        0
    } else if c == '1' {
        1
    } else if c == '2' {
        2
    } else if c == '3' {
        3
    } else if c == '4' {
        4
    } else if c == '5' {
        5
    } else if c == '6' {
        6
    } else if c == '7' {
        7
    } else if c == '8' {
        8
    } else if c == '9' {
        9
    } else if c == 'a' || c == 'A' {
        10
    } else if c == 'b' || c == 'B' {
        11
    } else if c == 'c' || c == 'C' {
        12
    } else if c == 'd' || c == 'D' {
        13
    } else if c == 'e' || c == 'E' {
        14
    } else if c == 'f' || c == 'F' {
        15
    } else {
        16
    }
}

/// Whether `c` is a hexadecimal digit of either case.
pub open spec fn is_hex_char(c: char) -> bool {
    hex_val(c) < 16
}

/// Each digit the encoder emits reads back as the value it stands for.
pub proof fn lemma_hex_digit_round_trip(n: int)
    requires
        0 <= n < 16,
    ensures
        hex_val(hex_char(n)) == n,
        is_hex_char(hex_char(n)),
{
}

/// The two digits of one byte, high nibble first.
pub open spec fn byte_hex(b: u8) -> Seq<char> {
    seq![hex_char(b as int / 16), hex_char(b as int % 16)]
}

/// A byte sequence as hexadecimal text, two digits for each byte.
pub open spec fn bytes_hex(bs: Seq<u8>) -> Seq<char>
    decreases bs.len(),
{
    if bs.len() == 0 {
        Seq::empty()
    } else {
        byte_hex(bs[0]) + bytes_hex(bs.drop_first())
    }
}

/// Hexadecimal text read back as bytes; `None` on odd length or a
/// character that is no digit.
pub open spec fn parse_hex_bytes(s: Seq<char>) -> Option<Seq<u8>>
    decreases s.len(),
{
    if s.len() == 0 {
        Some(Seq::empty())
    } else if s.len() == 1 {
        None
    } else if is_hex_char(s[0]) && is_hex_char(s[1]) {
        match parse_hex_bytes(s.skip(2)) {
            Some(bs) => Some(seq![(hex_val(s[0]) * 16 + hex_val(s[1])) as u8] + bs),
            None => None,
        }
    } else {
        None
    }
}

pub proof fn lemma_bytes_hex_len(bs: Seq<u8>)
    ensures
        bytes_hex(bs).len() == 2 * bs.len(),
    decreases bs.len(),
{
    if bs.len() > 0 {
        lemma_bytes_hex_len(bs.drop_first());
    }
}

/// Hexadecimal text written by the encoder reads back as the same bytes.
pub proof fn lemma_hex_bytes_round_trip(bs: Seq<u8>)
    ensures
        parse_hex_bytes(bytes_hex(bs)) == Some(bs),
    decreases bs.len(),
{
    if bs.len() == 0 {
        assert(bytes_hex(bs) =~= Seq::<char>::empty());
        assert(Seq::<u8>::empty() =~= bs);
    } else {
        let b = bs[0];
        let rest = bs.drop_first();
        lemma_hex_bytes_round_trip(rest);
        lemma_bytes_hex_len(rest);
        let t = bytes_hex(bs);
        assert(t == byte_hex(b) + bytes_hex(rest));
        assert(t.len() == 2 + bytes_hex(rest).len());
        assert(t[0] == hex_char(b as int / 16));
        assert(t[1] == hex_char(b as int % 16));
        assert(0 <= b as int / 16 < 16);
        assert(0 <= b as int % 16 < 16);
        lemma_hex_digit_round_trip(b as int / 16);
        lemma_hex_digit_round_trip(b as int % 16);
        assert(t.skip(2) =~= bytes_hex(rest));
        assert((b as int / 16) * 16 + b as int % 16 == b as int);
        let parsed = parse_hex_bytes(t);
        assert(parsed is Some);
        assert(parsed->0 =~= bs);
    }
}

/// Bridges a character's `u32` form and its mathematical value: the cast
/// is exact, and the value lies in the Unicode scalar range.
pub proof fn lemma_char_value(c: char)
    ensures
        ((c as u32) as int) == (c as int),
        0 <= (c as int) && (c as int) <= 0x10FFFF,
{
    vstd::utf8::char_is_scalar(c);
    vstd::utf8::char_u32_cast(c, c as u32);
}

/// A successful read consumes exactly two digits for each byte.
pub proof fn lemma_parse_hex_bytes_len(s: Seq<char>)
    ensures
        parse_hex_bytes(s) matches Some(bs) ==> 2 * bs.len() == s.len(),
    decreases s.len(),
{
    if s.len() >= 2 && is_hex_char(s[0]) && is_hex_char(s[1]) {
        lemma_parse_hex_bytes_len(s.skip(2));
    }
}

/// The executable form of `hex_char`.
pub fn hex_char_exec(n: u8) -> (c: char)
    requires
        n < 16,
    ensures
        c == hex_char(n as int),
{
    if n == 0 {
        '0'
    } else if n == 1 {
        '1'
    } else if n == 2 {
        '2'
    } else if n == 3 {
        '3'
    } else if n == 4 {
        '4'
    } else if n == 5 {
        '5'
    } else if n == 6 {
        '6'
    } else if n == 7 {
        '7'
    } else if n == 8 {
        '8'
    } else if n == 9 {
        '9'
    } else if n == 10 {
        'a'
    } else if n == 11 {
        'b'
    } else if n == 12 {
        'c'
    } else if n == 13 {
        'd'
    } else if n == 14 {
        'e'
    } else {
        'f'
    }
}

/// The executable form of `hex_val`.
pub fn hex_val_exec(c: char) -> (v: u8)
    ensures
        v as int == hex_val(c),
{
    match c {
        '0' => 0,
        '1' => 1,
        '2' => 2,
        '3' => 3,
        '4' => 4,
        '5' => 5,
        '6' => 6,
        '7' => 7,
        '8' => 8,
        '9' => 9,
        'a' | 'A' => 10,
        'b' | 'B' => 11,
        'c' | 'C' => 12,
        'd' | 'D' => 13,
        'e' | 'E' => 14,
        'f' | 'F' => 15,
        _ => 16,
    }
}

/// The characters of a text, in order, as a vector.
pub fn str_chars(s: &str) -> (r: Vec<char>)
    ensures
        r@ == s@,
{
    let n = s.unicode_len();
    let mut r: Vec<char> = Vec::new();
    let mut i: usize = 0;
    while i < n
        invariant
            i <= n,
            n == s@.len(),
            r@ == s@.subrange(0, i as int),
        decreases n - i,
    {
        let c = s.get_char(i);
        r.push(c);
        proof {
            assert(r@ =~= s@.subrange(0, i as int + 1));
        }
        i += 1;
    }
    proof {
        assert(r@ =~= s@);
    }
    r
}

/// Relies on `String`'s `FromIterator<char>` implementation: collecting
/// characters yields the string of exactly those characters, in order.
#[verifier::external_body]
pub(crate) fn chars_string(cs: &Vec<char>) -> (r: String)
    ensures
        r@ == cs@,
{
    cs.iter().collect()
}

} // verus!
