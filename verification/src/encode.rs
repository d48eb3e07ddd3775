//! Textual encodings of bytes: hexadecimal, base32, base58 and base64.

use vstd::prelude::*;

verus! {

/// The digit of value `d` in lowercase hexadecimal.
pub open spec fn hex_char(d: int) -> char {
    if d < 10 {
        (d + 0x30) as char
    } else {
        (d - 10 + 0x61) as char
    }
}

/// `bytes` in lowercase hexadecimal, two digits each.
pub open spec fn hex(bytes: Seq<u8>) -> Seq<char> {
    Seq::new(
        2 * bytes.len(),
        |i: int|
            if i % 2 == 0 {
                hex_char(bytes[i / 2] as int / 16)
            } else {
                hex_char(bytes[i / 2] as int % 16)
            },
    )
}

fn hex_digit(d: u8) -> (c: char)
    requires
        d < 16,
    ensures
        c == hex_char(d as int),
{
    if d < 10 {
        (d + 0x30) as char
    } else {
        (d - 10 + 0x61) as char
    }
}

/// Writes `bytes` in lowercase hexadecimal.
pub fn hex_lower(bytes: &[u8]) -> (r: String)
    ensures
        r@ == hex(bytes@),
{
    let mut out = String::new();
    let mut i: usize = 0;
    assert(out@ =~= hex(bytes@.take(0)));
    while i < bytes.len()
        invariant
            i <= bytes@.len(),
            out@ == hex(bytes@.take(i as int)),
        decreases bytes@.len() - i,
    {
        out.push(hex_digit(bytes[i] / 16));
        out.push(hex_digit(bytes[i] % 16));
        i += 1;
        assert(out@ =~= hex(bytes@.take(i as int)));
    }
    assert(bytes@.take(i as int) =~= bytes@);
    out
}

/// The value of a hexadecimal digit of either case.
pub open spec fn hex_value(c: char) -> Option<int> {
    let n = c as int;
    if 0x30 <= n <= 0x39 {
        Some(n - 0x30)
    } else if 0x61 <= n <= 0x66 {
        Some(n - 0x61 + 10)
    } else if 0x41 <= n <= 0x46 {
        Some(n - 0x41 + 10)
    } else {
        None
    }
}

/// Whether all of `s` are pairs of hexadecimal digits.
pub open spec fn is_hex(s: Seq<char>) -> bool {
    s.len() % 2 == 0 && forall|i: int| 0 <= i < s.len() ==> hex_value(#[trigger] s[i]) is Some
}

/// The bytes that the pairs of hexadecimal digits in `s` are.
pub open spec fn unhex(s: Seq<char>) -> Seq<u8> {
    Seq::new(
        s.len() / 2,
        |i: int| (hex_value(s[2 * i])->Some_0 * 16 + hex_value(s[2 * i + 1])->Some_0) as u8,
    )
}

/// The value of a hexadecimal digit.
pub fn nibble(c: char) -> (r: Option<u8>)
    ensures
        match r {
            Some(v) => hex_value(c) == Some(v as int) && v < 16,
            None => hex_value(c) is None,
        },
{
    let n: u32 = c as u32;
    if 0x30 <= n && n <= 0x39 {
        Some((n - 0x30) as u8)
    } else if 0x61 <= n && n <= 0x66 {
        Some((n - 0x61 + 10) as u8)
    } else if 0x41 <= n && n <= 0x46 {
        Some((n - 0x41 + 10) as u8)
    } else {
        None
    }
}

/// Reading what was written in hexadecimal gives the same bytes.
pub proof fn law_unhex_hex(bytes: Seq<u8>)
    ensures
        is_hex(hex(bytes)),
        unhex(hex(bytes)) == bytes,
{
    let s = hex(bytes);
    assert forall|i: int| 0 <= i < s.len() implies hex_value(#[trigger] s[i]) is Some by {
        lemma_hex_char(bytes[i / 2] as int / 16);
        lemma_hex_char(bytes[i / 2] as int % 16);
    }
    assert forall|i: int| 0 <= i < bytes.len() implies #[trigger] unhex(s)[i] == bytes[i] by {
        lemma_hex_char(bytes[i] as int / 16);
        lemma_hex_char(bytes[i] as int % 16);
        assert((2 * i) / 2 == i && (2 * i + 1) / 2 == i);
        assert((2 * i) % 2 == 0 && (2 * i + 1) % 2 == 1);
    }
    assert(unhex(s) =~= bytes);
}

proof fn lemma_hex_char(d: int)
    requires
        0 <= d < 16,
    ensures
        hex_value(hex_char(d)) == Some(d),
{
}

/// Two to the power of `n`.
pub open spec fn two(n: nat) -> int
    decreases n,
{
    if n == 0 {
        1
    } else {
        2 * two((n - 1) as nat)
    }
}

fn power(n: u32) -> (r: u32)
    requires
        n <= 16,
    ensures
        r == two(n as nat),
        1 <= r <= 65536,
{
    let mut r: u32 = 1;
    let mut i: u32 = 0;
    proof {
        lemma_two_bound(n as nat);
    }
    while i < n
        invariant
            i <= n <= 16,
            r == two(i as nat),
            1 <= r <= 65536,
        decreases n - i,
    {
        proof {
            lemma_two_bound((i + 1) as nat);
        }
        r = r * 2;
        i += 1;
    }
    r
}

proof fn lemma_two_bound(n: nat)
    requires
        n <= 16,
    ensures
        1 <= two(n) <= 65536,
{
    reveal_with_fuel(two, 17);
}

/// The byte at `i`, or 0 past the end.
pub open spec fn byte_or_zero(bytes: Seq<u8>, i: int) -> int {
    if 0 <= i < bytes.len() {
        bytes[i] as int
    } else {
        0
    }
}

/// The number that the `width` bits from bit `start` on are, the first bit being
/// the highest of the first byte. Bits past the end are 0.
pub open spec fn bits_at(bytes: Seq<u8>, start: int, width: nat) -> int {
    let window = byte_or_zero(bytes, start / 8) * 256 + byte_or_zero(bytes, start / 8 + 1);
    window / two((16 - start % 8 - width) as nat) % two(width)
}

fn read_bits(bytes: &[u8], byte: usize, bit: u32, width: u32) -> (r: u32)
    requires
        byte < bytes.len(),
        bit < 8,
        1 <= width <= 8,
    ensures
        r == bits_at(bytes@, byte * 8 + bit, width as nat),
        r < two(width as nat),
{
    let high: u32 = bytes[byte] as u32;
    let low: u32 = if byte + 1 < bytes.len() {
        bytes[byte + 1] as u32
    } else {
        0
    };
    let window: u32 = high * 256 + low;
    let modulus: u32 = power(width);
    let r: u32 = window / power(16 - bit - width) % modulus;
    assert((byte * 8 + bit) / 8 == byte && (byte * 8 + bit) % 8 == bit);
    r
}

/// The base32 digit of value `d`, lowercase.
pub open spec fn base32_char(d: int) -> char {
    if d < 26 {
        (d + 0x61) as char
    } else {
        (d - 26 + 0x32) as char
    }
}

/// `bytes` in lowercase base32, without padding.
pub open spec fn base32(bytes: Seq<u8>) -> Seq<char> {
    Seq::new(
        ((8 * bytes.len() + 4) / 5) as nat,
        |i: int| base32_char(bits_at(bytes, 5 * i, 5)),
    )
}

fn base32_digit(d: u32) -> (c: char)
    requires
        d < 32,
    ensures
        c == base32_char(d as int),
{
    if d < 26 {
        (d as u8 + 0x61) as char
    } else {
        (d as u8 - 26 + 0x32) as char
    }
}

/// Appends `bytes` in lowercase base32.
pub fn base32_lower_encode(bytes: &[u8], out: &mut String)
    ensures
        final(out)@ == old(out)@ + base32(bytes@),
{
    let ghost base = out@;
    let ghost all = base32(bytes@);
    let mut byte: usize = 0;
    let mut bit: u32 = 0;
    let ghost mut k: int = 0;
    assert(base + all.take(0) =~= base);
    proof {
        reveal_with_fuel(two, 6);
    }
    while byte < bytes.len()
        invariant
            byte <= bytes@.len(),
            bit < 8,
            0 <= k,
            5 * k == byte * 8 + bit,
            base == old(out)@,
            all == base32(bytes@),
            byte == bytes@.len() ==> k >= all.len(),
            byte < bytes@.len() ==> k < all.len(),
            k <= all.len(),
            out@ == base + all.take(k),
        decreases 8 * (bytes@.len() - byte) - bit,
    {
        proof {
            reveal_with_fuel(two, 6);
        }
        let d: u32 = read_bits(bytes, byte, bit, 5);
        out.push(base32_digit(d));
        assert(all[k] == base32_char(d as int));
        assert(out@ =~= base + all.take(k + 1));
        proof {
            k = k + 1;
        }
        if bit >= 3 {
            bit = bit - 3;
            byte = byte + 1;
            if byte == bytes.len() {
                proof {
                    assert(5 * k >= 8 * bytes@.len());
                }
                assert(all.take(k) =~= all);
                return;
            }
        } else {
            bit = bit + 5;
        }
    }
    assert(all.take(k) =~= all);
}

/// The base64 digit of value `d`.
pub open spec fn base64_char(d: int) -> char {
    if d < 26 {
        (d + 0x41) as char
    } else if d < 52 {
        (d - 26 + 0x61) as char
    } else if d < 62 {
        (d - 52 + 0x30) as char
    } else if d == 62 {
        '+'
    } else {
        '/'
    }
}

/// `bytes` in base64, padded to a multiple of four characters.
pub open spec fn base64(bytes: Seq<u8>) -> Seq<char> {
    Seq::new(
        ((bytes.len() + 2) / 3 * 4) as nat,
        |i: int|
            if 6 * i < 8 * bytes.len() {
                base64_char(bits_at(bytes, 6 * i, 6))
            } else {
                '='
            },
    )
}

fn base64_digit(d: u32) -> (c: char)
    requires
        d < 64,
    ensures
        c == base64_char(d as int),
{
    if d < 26 {
        (d as u8 + 0x41) as char
    } else if d < 52 {
        (d as u8 - 26 + 0x61) as char
    } else if d < 62 {
        (d as u8 - 52 + 0x30) as char
    } else if d == 62 {
        '+'
    } else {
        '/'
    }
}

/// Writes `bytes` in base64.
pub fn base64_encode(bytes: &[u8]) -> (r: String)
    ensures
        r@ == base64(bytes@),
{
    let mut out = String::new();
    let ghost all = base64(bytes@);
    let mut byte: usize = 0;
    let mut bit: u32 = 0;
    let ghost mut k: int = 0;
    assert(out@ =~= all.take(0));
    while byte < bytes.len()
        invariant
            byte <= bytes@.len(),
            bit < 8,
            bit % 2 == 0,
            byte == bytes@.len() ==> bit == 0,
            0 <= k <= all.len(),
            6 * k == byte * 8 + bit,
            all == base64(bytes@),
            out@ == all.take(k),
        decreases 8 * (bytes@.len() - byte) - bit,
    {
        proof {
            reveal_with_fuel(two, 7);
            assert(6 * k < 8 * bytes@.len());
            assert(k < all.len()) by (nonlinear_arith)
                requires
                    6 * k < 8 * bytes@.len(),
                    all.len() == (bytes@.len() + 2) / 3 * 4,
            ;
        }
        let d: u32 = read_bits(bytes, byte, bit, 6);
        out.push(base64_digit(d));
        assert(all[k] == base64_char(d as int));
        assert(out@ =~= all.take(k + 1));
        proof {
            k = k + 1;
        }
        if bit >= 2 {
            bit = bit - 2;
            byte = byte + 1;
            if byte == bytes.len() && bit > 0 {
                pad(&mut out, bytes, bit, Ghost(k));
                return out;
            }
        } else {
            bit = bit + 6;
        }
    }
    pad(&mut out, bytes, 0, Ghost(k));
    out
}

/// Fills up to a multiple of four characters, `bit` bits of the last character
/// being past the end.
fn pad(out: &mut String, bytes: &[u8], bit: u32, k: Ghost<int>)
    requires
        bit < 6,
        bit % 2 == 0,
        0 <= k@ <= base64(bytes@).len(),
        6 * k@ == 8 * bytes@.len() + bit,
        old(out)@ == base64(bytes@).take(k@),
    ensures
        final(out)@ == base64(bytes@),
{
    let ghost all = base64(bytes@);
    if bit == 2 {
        out.push('=');
        assert(all.len() == k@ + 1) by (nonlinear_arith)
            requires
                6 * k@ == 8 * bytes@.len() + 2,
                all.len() == (bytes@.len() + 2) / 3 * 4,
        ;
    } else if bit == 4 {
        out.push('=');
        out.push('=');
        assert(all.len() == k@ + 2) by (nonlinear_arith)
            requires
                6 * k@ == 8 * bytes@.len() + 4,
                all.len() == (bytes@.len() + 2) / 3 * 4,
        ;
    } else {
        assert(all.len() == k@) by (nonlinear_arith)
            requires
                6 * k@ == 8 * bytes@.len(),
                all.len() == (bytes@.len() + 2) / 3 * 4,
        ;
    }
    assert(out@ =~= all);
}

/// The number that `bytes` are, the first byte being the highest.
pub open spec fn number(bytes: Seq<u8>) -> nat
    decreases bytes.len(),
{
    if bytes.len() == 0 {
        0
    } else {
        number(bytes.drop_last()) * 256 + bytes.last() as nat
    }
}

/// The digits of `n` to the base of 58, the lowest first; none of 0.
pub open spec fn digits58(n: nat) -> Seq<u8>
    decreases n,
{
    if n == 0 {
        seq![]
    } else {
        seq![(n % 58) as u8] + digits58(n / 58)
    }
}

/// How many zero bytes `bytes` begin with.
pub open spec fn leading_zeros(bytes: Seq<u8>) -> nat
    decreases bytes.len(),
{
    if bytes.len() == 0 || bytes[0] != 0 {
        0
    } else {
        1 + leading_zeros(bytes.skip(1))
    }
}

/// The base58 digit of value `d`, in the Bitcoin alphabet: digits and letters
/// without `0`, `O`, `I` and `l`.
pub open spec fn base58_char(d: int) -> char {
    if d < 9 {
        (d + 0x31) as char
    } else if d < 17 {
        (d - 9 + 0x41) as char
    } else if d < 22 {
        (d - 17 + 0x4a) as char
    } else if d < 33 {
        (d - 22 + 0x50) as char
    } else if d < 44 {
        (d - 33 + 0x61) as char
    } else {
        (d - 44 + 0x6d) as char
    }
}

/// `bytes` in base58: a `1` for every leading zero byte, then the digits of the
/// number.
pub open spec fn base58(bytes: Seq<u8>) -> Seq<char> {
    let digits = digits58(number(bytes));
    Seq::new(leading_zeros(bytes), |i: int| '1') + Seq::new(
        digits.len(),
        |i: int| base58_char(digits[digits.len() - 1 - i] as int),
    )
}

/// A base58 digit is a digit or a letter.
pub open spec fn is_plain(c: char) -> bool {
    '0' <= c <= '9' || 'A' <= c <= 'Z' || 'a' <= c <= 'z'
}

proof fn lemma_digits58_small(n: nat)
    ensures
        forall|i: int| 0 <= i < digits58(n).len() ==> #[trigger] digits58(n)[i] < 58,
    decreases n,
{
    if n > 0 {
        lemma_digits58_small(n / 58);
        let rest = digits58(n / 58);
        assert forall|i: int| 0 <= i < digits58(n).len() implies #[trigger] digits58(n)[i] < 58 by {
            if i > 0 {
                assert(digits58(n)[i] == rest[i - 1]);
            }
        }
    }
}

/// Text in base58 is made of digits and letters.
pub proof fn law_base58_is_plain(bytes: Seq<u8>)
    ensures
        forall|i: int| 0 <= i < base58(bytes).len() ==> is_plain(#[trigger] base58(bytes)[i]),
{
    lemma_digits58_small(number(bytes));
    let digits = digits58(number(bytes));
    let zeros = leading_zeros(bytes);
    assert forall|i: int| 0 <= i < base58(bytes).len() implies is_plain(
        #[trigger] base58(bytes)[i],
    ) by {
        if i >= zeros {
            let d = digits[digits.len() - 1 - (i - zeros)] as int;
            assert(0 <= d < 58);
            assert(base58(bytes)[i] == base58_char(d));
        }
    }
}

fn base58_digit(d: u8) -> (c: char)
    requires
        d < 58,
    ensures
        c == base58_char(d as int),
{
    if d < 9 {
        (d + 0x31) as char
    } else if d < 17 {
        (d - 9 + 0x41) as char
    } else if d < 22 {
        (d - 17 + 0x4a) as char
    } else if d < 33 {
        (d - 22 + 0x50) as char
    } else if d < 44 {
        (d - 33 + 0x61) as char
    } else {
        (d - 44 + 0x6d) as char
    }
}

proof fn lemma_digit_step(carry: nat, q: nat)
    requires
        q > 0,
        carry <= 255,
    ensures
        ({
            let d = q % 58;
            let x = carry + 256 * q;
            let c = carry + 256 * d;
            &&& x % 58 == c % 58
            &&& x / 58 == c / 58 + 256 * (q / 58)
            &&& c / 58 <= 255
        }),
{
    let d = q % 58;
    let x = (carry + 256 * q) as int;
    let c = (carry + 256 * d) as int;
    assert(q == 58 * (q / 58) + d);
    assert(x == c + 58 * (256 * (q / 58)));
    vstd::arithmetic::div_mod::lemma_fundamental_div_mod_converse(
        x,
        58,
        c / 58 + 256 * (q / 58),
        c % 58,
    );
}

proof fn lemma_digits_small(n: nat)
    ensures
        forall|i: int| 0 <= i < digits58(n).len() ==> #[trigger] digits58(n)[i] < 58,
    decreases n,
{
    if n > 0 {
        lemma_digits_small(n / 58);
        assert forall|i: int| 0 <= i < digits58(n).len() implies #[trigger] digits58(n)[i] < 58 by {
            if i > 0 {
                assert(digits58(n)[i] == digits58(n / 58)[i - 1]);
            }
        }
    }
}

/// Multiplies the digits by 256 and adds `byte`.
fn mul_add(digits: &Vec<u8>, byte: u8, n: Ghost<nat>) -> (r: Vec<u8>)
    requires
        digits@ == digits58(n@),
    ensures
        r@ == digits58(n@ * 256 + byte as nat),
{
    let ghost target = digits58(n@ * 256 + byte as nat);
    let mut out: Vec<u8> = Vec::new();
    let mut carry: u32 = byte as u32;
    let ghost mut q: nat = n@;
    let mut i: usize = 0;
    proof {
        assert(digits@.skip(0) =~= digits@);
        assert(byte as nat + 256 * n@ == n@ * 256 + byte as nat);
        assert(out@ + target =~= target);
    }
    while i < digits.len()
        invariant
            i <= digits@.len(),
            carry <= 255,
            digits@.skip(i as int) == digits58(q),
            out@ + digits58(carry as nat + 256 * q) == target,
        decreases digits@.len() - i,
    {
        proof {
            assert(digits@.skip(i as int).len() > 0);
            assert(q > 0);
            assert(digits@.skip(i as int)[0] == digits@[i as int]);
            assert(digits@[i as int] == (q % 58) as u8);
            lemma_digit_step(carry as nat, q);
            assert(digits@.skip(i + 1) =~= digits58(q).skip(1));
            assert(digits58(q).skip(1) =~= digits58(q / 58));
        }
        let ghost x: nat = carry as nat + 256 * q;
        let ghost before = out@;
        let sum: u32 = carry + digits[i] as u32 * 256;
        out.push((sum % 58) as u8);
        carry = sum / 58;
        proof {
            assert(digits58(x) == seq![(x % 58) as u8] + digits58(x / 58));
            assert(out@ + digits58(x / 58) =~= before + digits58(x));
            q = q / 58;
        }
        i += 1;
    }
    proof {
        assert(digits@.skip(i as int).len() == 0);
        assert(q == 0) by {
            if q > 0 {
                assert(digits58(q).len() > 0);
            }
        }
    }
    while carry > 0
        invariant
            carry <= 255,
            out@ + digits58(carry as nat) == target,
        decreases carry,
    {
        let ghost before = out@;
        let ghost x = carry as nat;
        out.push((carry % 58) as u8);
        carry = carry / 58;
        assert(out@ + digits58(x / 58) =~= before + digits58(x));
    }
    assert(out@ + digits58(0) =~= out@);
    out
}

/// Writes `bytes` in base58, in the Bitcoin alphabet.
pub fn base58btc_encode(bytes: &[u8]) -> (r: String)
    ensures
        r@ == base58(bytes@),
{
    let mut out = String::new();
    let mut zeros: usize = 0;
    assert(bytes@.skip(0) =~= bytes@);
    let ghost ones = leading_zeros(bytes@);
    while zeros < bytes.len() && bytes[zeros] == 0
        invariant
            zeros <= bytes@.len(),
            out@ == Seq::new(zeros as nat, |i: int| '1'),
            ones == zeros + leading_zeros(bytes@.skip(zeros as int)),
        decreases bytes@.len() - zeros,
    {
        assert(bytes@.skip(zeros as int)[0] == bytes@[zeros as int]);
        assert(bytes@.skip(zeros as int).skip(1) =~= bytes@.skip(zeros + 1));
        out.push('1');
        zeros += 1;
        assert(out@ =~= Seq::new(zeros as nat, |i: int| '1'));
    }
    assert(ones == zeros);
    let mut digits: Vec<u8> = Vec::new();
    let mut i: usize = 0;
    assert(bytes@.take(0) =~= seq![]);
    assert(digits@ =~= digits58(0));
    while i < bytes.len()
        invariant
            i <= bytes@.len(),
            digits@ == digits58(number(bytes@.take(i as int))),
        decreases bytes@.len() - i,
    {
        let ghost n = number(bytes@.take(i as int));
        proof {
            assert(bytes@.take(i + 1).drop_last() =~= bytes@.take(i as int));
        }
        digits = mul_add(&digits, bytes[i], Ghost(n));
        i += 1;
    }
    assert(bytes@.take(i as int) =~= bytes@);
    proof {
        lemma_digits_small(number(bytes@));
    }
    let ghost head = out@;
    let ghost tail = Seq::new(
        digits@.len(),
        |i: int| base58_char(digits@[digits@.len() - 1 - i] as int),
    );
    let mut left: usize = digits.len();
    assert(out@ =~= head + tail.take(0));
    while left > 0
        invariant
            left <= digits@.len(),
            forall|j: int| 0 <= j < digits@.len() ==> #[trigger] digits@[j] < 58,
            tail == Seq::new(
                digits@.len(),
                |i: int| base58_char(digits@[digits@.len() - 1 - i] as int),
            ),
            out@ == head + tail.take(digits@.len() - left),
        decreases left,
    {
        left = left - 1;
        out.push(base58_digit(digits[left]));
        assert(tail[digits@.len() - 1 - left] == base58_char(digits@[left as int] as int));
        assert(out@ =~= head + tail.take(digits@.len() - left));
    }
    assert(tail.take(digits@.len() as int) =~= tail);
    out
}

/// The first `n` bytes of `s`, little endian.
pub open spec fn le_bytes(s: u64, n: nat) -> Seq<u8>
    decreases n,
{
    if n == 0 {
        Seq::empty()
    } else {
        seq![(s % 256) as u8] + le_bytes(s / 256, (n - 1) as nat)
    }
}

/// Appends the first `n` bytes of `s`, little endian.
pub fn push_le(out: &mut Vec<u8>, s: u64, n: usize)
    ensures
        final(out)@ == old(out)@ + le_bytes(s, n as nat),
{
    let ghost start = out@;
    let mut rest: u64 = s;
    let mut left: usize = n;
    while left > 0
        invariant
            out@ + le_bytes(rest, left as nat) == start + le_bytes(s, n as nat),
        decreases left,
    {
        let ghost before = out@;
        out.push((rest % 256) as u8);
        proof {
            assert(out@ + le_bytes(rest / 256, (left - 1) as nat) =~= before + le_bytes(
                rest,
                left as nat,
            ));
        }
        rest = rest / 256;
        left = left - 1;
    }
    assert(out@ + Seq::<u8>::empty() =~= out@);
}

/// The number that `s` holds, little endian.
pub open spec fn le_value(s: Seq<u8>) -> nat
    decreases s.len(),
{
    if s.len() == 0 {
        0
    } else {
        s[0] as nat + 256 * le_value(s.skip(1))
    }
}

/// A number written little endian, in as many bytes as it takes, reads back.
pub proof fn law_le_value(s: u64, n: nat)
    requires
        s < two(8 * n),
    ensures
        le_bytes(s, n).len() == n,
        le_value(le_bytes(s, n)) == s,
    decreases n,
{
    if n > 0 {
        let m = (n - 1) as nat;
        lemma_two_byte(m);
        assert(s / 256 < two(8 * m)) by (nonlinear_arith)
            requires
                s < 256 * two(8 * m),
        ;
        law_le_value(s / 256, m);
        assert(le_bytes(s, n).skip(1) =~= le_bytes(s / 256, m));
    }
}

proof fn lemma_two_byte(m: nat)
    ensures
        two(8 * (m + 1)) == 256 * two(8 * m),
{
    reveal_with_fuel(two, 9);
    let k = 8 * m;
    assert(8 * (m + 1) == k + 8);
    assert(two(k + 8) == 2 * two(k + 7));
    assert(two(k + 7) == 2 * two(k + 6));
    assert(two(k + 6) == 2 * two(k + 5));
    assert(two(k + 5) == 2 * two(k + 4));
    assert(two(k + 4) == 2 * two(k + 3));
    assert(two(k + 3) == 2 * two(k + 2));
    assert(two(k + 2) == 2 * two(k + 1));
    assert(two(k + 1) == 2 * two(k));
}

/// The number that the first `n` bytes of `s` from `pos` on hold, little endian.
pub fn read_le(s: &[u8], pos: usize, n: usize) -> (r: u64)
    requires
        n <= 8,
        pos + n <= s@.len(),
    ensures
        r == le_value(s@.subrange(pos as int, pos + n)),
{
    let len: usize = s.len();
    let mut value: u64 = 0;
    let mut left: usize = n;
    let ghost all = s@.subrange(pos as int, pos + n);
    proof {
        assert(all.skip(n as int) =~= Seq::empty());
        reveal_with_fuel(two, 1);
    }
    while left > 0
        invariant
            left <= n <= 8,
            len == s@.len(),
            pos + n <= len,
            all == s@.subrange(pos as int, pos + n),
            value == le_value(all.skip(left as int)),
            value < two(8 * ((n - left) as nat)),
        decreases left,
    {
        left = left - 1;
        proof {
            assert(all.skip(left as int).skip(1) =~= all.skip(left + 1));
            assert(all.skip(left as int)[0] == s@[pos + left]);
            lemma_two_byte((n - left - 1) as nat);
            lemma_two_bytes((n - left) as nat);
        }
        value = value * 256 + s[pos + left] as u64;
    }
    assert(all.skip(0) =~= all);
    value
}

proof fn lemma_two_bytes(n: nat)
    requires
        n <= 8,
    ensures
        two(8 * n) <= 0x1_0000_0000_0000_0000,
    decreases n,
{
    if n > 0 {
        lemma_two_bytes_step((n - 1) as nat);
    } else {
        reveal_with_fuel(two, 1);
    }
}

proof fn lemma_two_bytes_step(m: nat)
    requires
        m < 8,
    ensures
        two(8 * (m + 1)) <= 0x1_0000_0000_0000_0000,
{
    lemma_two_byte(0);
    lemma_two_byte(1);
    lemma_two_byte(2);
    lemma_two_byte(3);
    lemma_two_byte(4);
    lemma_two_byte(5);
    lemma_two_byte(6);
    lemma_two_byte(7);
    assert(two(0) == 1);
}

} // verus!
