//! What the digits of a text encoding stand for.

use vstd::prelude::*;

use crate::encode::{base32, base32_char, base64, base64_char, bits_at, byte_or_zero, two};
use crate::text::{is_white, trimmed, white_after, white_before};

verus! {

/// What a base64 digit counts; a padding character counts nothing.
pub open spec fn base64_value(c: char) -> int {
    if 'A' <= c <= 'Z' {
        c as int - 'A' as int
    } else if 'a' <= c <= 'z' {
        c as int - 'a' as int + 26
    } else if '0' <= c <= '9' {
        c as int - '0' as int + 52
    } else if c == '+' {
        62
    } else if c == '/' {
        63
    } else {
        0
    }
}

/// What a base32 digit counts.
pub open spec fn base32_value(c: char) -> int {
    if 'a' <= c <= 'z' {
        c as int - 'a' as int
    } else if '2' <= c <= '7' {
        c as int - '2' as int + 26
    } else {
        0
    }
}

proof fn lemma_two()
    ensures
        two(0) == 1,
        two(1) == 2,
        two(2) == 4,
        two(3) == 8,
        two(4) == 16,
        two(5) == 32,
        two(6) == 64,
        two(7) == 128,
        two(8) == 256,
        two(9) == 512,
        two(10) == 1024,
        two(11) == 2048,
{
    reveal_with_fuel(two, 13);
}

// The digits in two bytes, one beside the other: the names give the first bit and the width.

proof fn lemma_split_0_6(a: int, b: int)
    requires
        0 <= a < 256,
        0 <= b < 256,
    ensures
        (a * 256 + b) / 1024 % 64 == a / 4,
{
    assert((a * 256 + b) / 1024 == a / 4);
}

proof fn lemma_split_6_6(a: int, b: int)
    requires
        0 <= a < 256,
        0 <= b < 256,
    ensures
        (a * 256 + b) / 16 % 64 == a % 4 * 16 + b / 16,
{
    assert((a * 256 + b) / 16 == a * 16 + b / 16);
    assert(a * 16 + b / 16 == 64 * (a / 4) + (a % 4 * 16 + b / 16));
}

proof fn lemma_split_4_6(a: int, b: int)
    requires
        0 <= a < 256,
        0 <= b < 256,
    ensures
        (a * 256 + b) / 64 % 64 == a % 16 * 4 + b / 64,
{
    assert((a * 256 + b) / 64 == a * 4 + b / 64);
    assert(a * 4 + b / 64 == 64 * (a / 16) + (a % 16 * 4 + b / 64));
}

proof fn lemma_split_2_6(a: int, b: int)
    requires
        0 <= a < 256,
        0 <= b < 256,
    ensures
        (a * 256 + b) / 256 % 64 == a % 64,
{
    assert((a * 256 + b) / 256 == a);
    assert(a == 64 * (a / 64) + a % 64);
}

proof fn lemma_split_0_5(a: int, b: int)
    requires
        0 <= a < 256,
        0 <= b < 256,
    ensures
        (a * 256 + b) / 2048 % 32 == a / 8,
{
    assert((a * 256 + b) / 2048 == a / 8);
}

proof fn lemma_split_5_5(a: int, b: int)
    requires
        0 <= a < 256,
        0 <= b < 256,
    ensures
        (a * 256 + b) / 64 % 32 == a % 8 * 4 + b / 64,
{
    assert((a * 256 + b) / 64 == a * 4 + b / 64);
    assert(a * 4 + b / 64 == 32 * (a / 8) + (a % 8 * 4 + b / 64));
}

proof fn lemma_split_2_5(a: int, b: int)
    requires
        0 <= a < 256,
        0 <= b < 256,
    ensures
        (a * 256 + b) / 512 % 32 == a / 2 % 32,
{
    assert((a * 256 + b) / 512 == a / 2);
}

proof fn lemma_split_7_5(a: int, b: int)
    requires
        0 <= a < 256,
        0 <= b < 256,
    ensures
        (a * 256 + b) / 16 % 32 == a % 2 * 16 + b / 16,
{
    assert((a * 256 + b) / 16 == a * 16 + b / 16);
    assert(a * 16 + b / 16 == 32 * (a / 2) + (a % 2 * 16 + b / 16));
}

proof fn lemma_split_4_5(a: int, b: int)
    requires
        0 <= a < 256,
        0 <= b < 256,
    ensures
        (a * 256 + b) / 128 % 32 == a % 16 * 2 + b / 128,
{
    assert((a * 256 + b) / 128 == a * 2 + b / 128);
    assert(a * 2 + b / 128 == 32 * (a / 16) + (a % 16 * 2 + b / 128));
}

proof fn lemma_split_1_5(a: int, b: int)
    requires
        0 <= a < 256,
        0 <= b < 256,
    ensures
        (a * 256 + b) / 1024 % 32 == a / 4 % 32,
{
    assert((a * 256 + b) / 1024 == a / 4);
}

proof fn lemma_split_6_5(a: int, b: int)
    requires
        0 <= a < 256,
        0 <= b < 256,
    ensures
        (a * 256 + b) / 32 % 32 == a % 4 * 8 + b / 32,
{
    assert((a * 256 + b) / 32 == a * 8 + b / 32);
    assert(a * 8 + b / 32 == 32 * (a / 4) + (a % 4 * 8 + b / 32));
}

proof fn lemma_split_3_5(a: int, b: int)
    requires
        0 <= a < 256,
        0 <= b < 256,
    ensures
        (a * 256 + b) / 256 % 32 == a % 32,
{
    assert((a * 256 + b) / 256 == a);
    assert(a == 32 * (a / 32) + a % 32);
}

proof fn lemma_sum64(b0: int, b1: int, b2: int)
    requires
        0 <= b0 < 256,
        0 <= b1 < 256,
        0 <= b2 < 256,
    ensures
        (b0 / 4) * 262144 + (b0 % 4 * 16 + b1 / 16) * 4096 + (b1 % 16 * 4 + b2 / 64) * 64 + b2 % 64
            == b0 * 65536 + b1 * 256 + b2,
{
}

proof fn lemma_sum32(b0: int, b1: int, b2: int, b3: int, b4: int)
    requires
        0 <= b0 < 256,
        0 <= b1 < 256,
        0 <= b2 < 256,
        0 <= b3 < 256,
        0 <= b4 < 256,
    ensures
        (((((((b0 / 8) * 32 + (b0 % 8 * 4 + b1 / 64)) * 32 + b1 / 2 % 32) * 32 + (b1 % 2 * 16 + b2
            / 16)) * 32 + (b2 % 16 * 2 + b3 / 128)) * 32 + b3 / 4 % 32) * 32 + (b3 % 4 * 8 + b4
            / 32)) * 32 + b4 % 32 == (((b0 * 256 + b1) * 256 + b2) * 256 + b3) * 256 + b4,
{
    assert(b1 == (b1 / 64) * 64 + (b1 / 2 % 32) * 2 + b1 % 2);
    assert(b3 == (b3 / 128) * 128 + (b3 / 4 % 32) * 4 + b3 % 4);
}

/// Four base64 digits stand for three bytes: read as one number, both are the same. Bytes
/// past the end count as 0, and digits that hold none of the bytes are padding.
pub proof fn law_base64_digits_are_the_bytes(bytes: Seq<u8>, g: int)
    requires
        0 <= 3 * g < bytes.len(),
    ensures
        ({
            let t = base64(bytes);
            &&& 4 * g + 4 <= t.len()
            &&& base64_value(t[4 * g]) * 262144 + base64_value(t[4 * g + 1]) * 4096 + base64_value(
                t[4 * g + 2],
            ) * 64 + base64_value(t[4 * g + 3]) == byte_or_zero(bytes, 3 * g) * 65536
                + byte_or_zero(bytes, 3 * g + 1) * 256 + byte_or_zero(bytes, 3 * g + 2)
            &&& t[4 * g] != '=' && t[4 * g + 1] != '='
            &&& (t[4 * g + 2] == '=') == (3 * g + 1 >= bytes.len())
            &&& (t[4 * g + 3] == '=') == (3 * g + 2 >= bytes.len())
        }),
{
    lemma_two();
    let t = base64(bytes);
    let b0 = byte_or_zero(bytes, 3 * g);
    let b1 = byte_or_zero(bytes, 3 * g + 1);
    let b2 = byte_or_zero(bytes, 3 * g + 2);
    let b3 = byte_or_zero(bytes, 3 * g + 3);
    let d0 = bits_at(bytes, 6 * (4 * g), 6);
    let d1 = bits_at(bytes, 6 * (4 * g + 1), 6);
    let d2 = bits_at(bytes, 6 * (4 * g + 2), 6);
    let d3 = bits_at(bytes, 6 * (4 * g + 3), 6);
    assert(6 * (4 * g) / 8 == 3 * g && 6 * (4 * g) % 8 == 0);
    assert(6 * (4 * g + 1) / 8 == 3 * g && 6 * (4 * g + 1) % 8 == 6);
    assert(6 * (4 * g + 2) / 8 == 3 * g + 1 && 6 * (4 * g + 2) % 8 == 4);
    assert(6 * (4 * g + 3) / 8 == 3 * g + 2 && 6 * (4 * g + 3) % 8 == 2);
    assert(d0 == (b0 * 256 + b1) / 1024 % 64);
    assert(d1 == (b0 * 256 + b1) / 16 % 64);
    assert(d2 == (b1 * 256 + b2) / 64 % 64);
    assert(d3 == (b2 * 256 + b3) / 256 % 64);
    lemma_split_0_6(b0, b1);
    lemma_split_6_6(b0, b1);
    lemma_split_4_6(b1, b2);
    lemma_split_2_6(b2, b3);
    lemma_sum64(b0, b1, b2);
    assert(4 * g + 4 <= t.len()) by {
        assert((bytes.len() + 2) / 3 >= g + 1);
    }
    lemma_base64_value(d0);
    lemma_base64_value(d1);
    lemma_base64_value(d2);
    lemma_base64_value(d3);
    assert(t[4 * g] == base64_char(d0));
    assert(t[4 * g + 1] == base64_char(d1));
    if 3 * g + 1 < bytes.len() {
        assert(t[4 * g + 2] == base64_char(d2));
    } else {
        assert(t[4 * g + 2] == '=');
        assert(d2 == 0);
    }
    if 3 * g + 2 < bytes.len() {
        assert(t[4 * g + 3] == base64_char(d3));
    } else {
        assert(t[4 * g + 3] == '=');
        assert(d3 == 0);
    }
}

proof fn lemma_base64_value(d: int)
    requires
        0 <= d < 64,
    ensures
        base64_value(base64_char(d)) == d,
        base64_char(d) != '=',
{
}

proof fn lemma_base32_value(d: int)
    requires
        0 <= d < 32,
    ensures
        base32_value(base32_char(d)) == d,
{
}

/// What the base32 digit at `i` counts; 0 where there is none.
pub open spec fn base32_at(t: Seq<char>, i: int) -> int {
    if 0 <= i < t.len() {
        base32_value(t[i])
    } else {
        0
    }
}

/// Eight base32 digits stand for five bytes: read as one number, both are the same. Digits
/// and bytes past the end count as 0. There is no digit that holds none of the bytes.
pub proof fn law_base32_digits_are_the_bytes(bytes: Seq<u8>, g: int)
    requires
        0 <= 5 * g < bytes.len(),
    ensures
        ({
            let t = base32(bytes);
            &&& base32_number(t, 8 * g) == byte_number(bytes, 5 * g)
            &&& 5 * (t.len() - 1) < 8 * bytes.len() <= 5 * t.len()
        }),
{
    lemma_two();
    let t = base32(bytes);
    let b0 = byte_or_zero(bytes, 5 * g);
    let b1 = byte_or_zero(bytes, 5 * g + 1);
    let b2 = byte_or_zero(bytes, 5 * g + 2);
    let b3 = byte_or_zero(bytes, 5 * g + 3);
    let b4 = byte_or_zero(bytes, 5 * g + 4);
    let b5 = byte_or_zero(bytes, 5 * g + 5);
    let i = 8 * g;
    lemma_base32_digit(bytes, i, 5 * g, 0);
    lemma_base32_digit(bytes, i + 1, 5 * g, 5);
    lemma_base32_digit(bytes, i + 2, 5 * g + 1, 2);
    lemma_base32_digit(bytes, i + 3, 5 * g + 1, 7);
    lemma_base32_digit(bytes, i + 4, 5 * g + 2, 4);
    lemma_base32_digit(bytes, i + 5, 5 * g + 3, 1);
    lemma_base32_digit(bytes, i + 6, 5 * g + 3, 6);
    lemma_base32_digit(bytes, i + 7, 5 * g + 4, 3);
    assert(base32_at(t, i) == (b0 * 256 + b1) / 2048 % 32);
    assert(base32_at(t, i + 1) == (b0 * 256 + b1) / 64 % 32);
    assert(base32_at(t, i + 2) == (b1 * 256 + b2) / 512 % 32);
    assert(base32_at(t, i + 3) == (b1 * 256 + b2) / 16 % 32);
    assert(base32_at(t, i + 4) == (b2 * 256 + b3) / 128 % 32);
    assert(base32_at(t, i + 5) == (b3 * 256 + b4) / 1024 % 32);
    assert(base32_at(t, i + 6) == (b3 * 256 + b4) / 32 % 32);
    assert(base32_at(t, i + 7) == (b4 * 256 + b5) / 256 % 32);
    lemma_split_0_5(b0, b1);
    lemma_split_5_5(b0, b1);
    lemma_split_2_5(b1, b2);
    lemma_split_7_5(b1, b2);
    lemma_split_4_5(b2, b3);
    lemma_split_1_5(b3, b4);
    lemma_split_6_5(b3, b4);
    lemma_split_3_5(b4, b5);
    lemma_sum32(b0, b1, b2, b3, b4);
}

/// The eight base32 digits from `i` on, read as one number.
pub open spec fn base32_number(t: Seq<char>, i: int) -> int {
    ((((((base32_at(t, i) * 32 + base32_at(t, i + 1)) * 32 + base32_at(t, i + 2)) * 32 + base32_at(
        t,
        i + 3,
    )) * 32 + base32_at(t, i + 4)) * 32 + base32_at(t, i + 5)) * 32 + base32_at(t, i + 6)) * 32
        + base32_at(t, i + 7)
}

/// The five bytes from `i` on, read as one number.
pub open spec fn byte_number(b: Seq<u8>, i: int) -> int {
    (((byte_or_zero(b, i) * 256 + byte_or_zero(b, i + 1)) * 256 + byte_or_zero(b, i + 2)) * 256
        + byte_or_zero(b, i + 3)) * 256 + byte_or_zero(b, i + 4)
}

proof fn lemma_base32_digit(bytes: Seq<u8>, i: int, byte: int, bit: int)
    requires
        0 <= i,
        5 * i == 8 * byte + bit,
        0 <= bit < 8,
    ensures
        base32_at(base32(bytes), i) == (byte_or_zero(bytes, byte) * 256 + byte_or_zero(
            bytes,
            byte + 1,
        )) / two((11 - bit) as nat) % 32,
{
    lemma_two();
    let t = base32(bytes);
    let w = byte_or_zero(bytes, byte) * 256 + byte_or_zero(bytes, byte + 1);
    assert((5 * i) / 8 == byte && (5 * i) % 8 == bit);
    let d = bits_at(bytes, 5 * i, 5);
    assert(d == w / two((11 - bit) as nat) % 32);
    assert(0 <= d < 32);
    lemma_base32_value(d);
    if i < t.len() {
        assert(t[i] == base32_char(d));
    } else {
        assert(5 * i >= 8 * bytes.len());
        assert(w == 0);
        assert(0int / two((11 - bit) as nat) == 0) by {
            if bit == 0 {
            } else if bit == 1 {
            } else if bit == 2 {
            } else if bit == 3 {
            } else if bit == 4 {
            } else if bit == 5 {
            } else if bit == 6 {
            } else {
                assert(bit == 7);
            }
        }
    }
}

/// Whether all of `s` is white space.
pub open spec fn all_white(s: Seq<char>) -> bool {
    forall|i: int| 0 <= i < s.len() ==> is_white(#[trigger] s[i])
}

/// Trimming takes off white space at either end and leaves what is between: it neither
/// begins nor ends with white space.
pub proof fn law_trimming_leaves_the_middle(s: Seq<char>) -> (r: (Seq<char>, Seq<char>))
    ensures
        s == r.0 + trimmed(s) + r.1,
        all_white(r.0),
        all_white(r.1),
        trimmed(s).len() > 0 ==> !is_white(trimmed(s)[0]) && !is_white(trimmed(s).last()),
{
    lemma_white_before(s, 0);
    let a = white_before(s, 0);
    lemma_white_after(s, a, s.len() as int);
    let b = white_after(s, a, s.len() as int);
    let r = (s.take(a), s.skip(b));
    assert(s =~= r.0 + trimmed(s) + r.1);
    r
}

proof fn lemma_white_before(s: Seq<char>, i: int)
    requires
        0 <= i <= s.len(),
    ensures
        i <= white_before(s, i) <= s.len(),
        forall|k: int| i <= k < white_before(s, i) ==> is_white(#[trigger] s[k]),
        white_before(s, i) < s.len() ==> !is_white(s[white_before(s, i)]),
    decreases s.len() - i,
{
    if i < s.len() && is_white(s[i]) {
        lemma_white_before(s, i + 1);
    }
}

proof fn lemma_white_after(s: Seq<char>, start: int, end: int)
    requires
        0 <= start <= end <= s.len(),
    ensures
        start <= white_after(s, start, end) <= end,
        forall|k: int| white_after(s, start, end) <= k < end ==> is_white(#[trigger] s[k]),
        white_after(s, start, end) > start ==> !is_white(s[white_after(s, start, end) - 1]),
    decreases end - start,
{
    if end > start && is_white(s[end - 1]) {
        lemma_white_after(s, start, end - 1);
    }
}

} // verus!
