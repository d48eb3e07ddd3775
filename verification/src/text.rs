//! Text: decimal and hexadecimal numbers, prefixes, and the order of strings.

use vstd::prelude::*;
use vstd::slice::{slice_subrange, slice_to_vec};

verus! {

/// `String::push`: appends one character.
pub assume_specification[ String::push ](s: &mut String, c: char)
    ensures
        final(s)@ == old(s)@.push(c),
;

/// `String::push_str`: appends the characters of `string`.
pub assume_specification[ String::push_str ](s: &mut String, string: &str)
    ensures
        final(s)@ == old(s)@ + string@,
;

/// The character of a decimal or lowercase hexadecimal digit.
pub open spec fn digit_char(d: int) -> char {
    if d < 10 {
        ('0' as int + d) as char
    } else {
        ('a' as int + d - 10) as char
    }
}

/// `n` written in decimal, without leading zeros.
pub open spec fn decimal(n: nat) -> Seq<char>
    decreases n,
{
    if n < 10 {
        seq![digit_char(n as int)]
    } else {
        decimal(n / 10).push(digit_char((n % 10) as int))
    }
}

/// Executable form of [`digit_char`].
pub fn digit(d: u8) -> (c: char)
    requires
        d < 16,
    ensures
        c == digit_char(d as int),
{
    if d < 10 {
        (0x30 + d) as char
    } else {
        (0x61 + (d - 10)) as char
    }
}

/// Appends `n` in decimal.
pub fn push_decimal(out: &mut String, n: u64)
    ensures
        final(out)@ == old(out)@ + decimal(n as nat),
    decreases n,
{
    if n < 10 {
        out.push(digit(n as u8));
    } else {
        push_decimal(out, n / 10);
        out.push(digit((n % 10) as u8));
    }
    assert(out@ =~= old(out)@ + decimal(n as nat));
}

/// `n` in decimal.
pub fn decimal_string(n: u64) -> (s: String)
    ensures
        s@ == decimal(n as nat),
{
    let mut s = String::new();
    push_decimal(&mut s, n);
    assert(s@ =~= decimal(n as nat));
    s
}

/// The characters of `s`, by position.
pub fn chars_of(s: &str) -> (r: Vec<char>)
    ensures
        r@ == s@,
{
    let mut out: Vec<char> = Vec::new();
    for c in it: s.chars()
        invariant
            out@ == it.seq().take(it.index() as int),
            it.seq() == s@,
    {
        out.push(c);
    }
    assert(out@ =~= s@);
    out
}

/// The string of the characters `cs`.
pub fn string_of(cs: &[char]) -> (r: String)
    ensures
        r@ == cs@,
{
    let mut out = String::new();
    let mut i: usize = 0;
    while i < cs.len()
        invariant
            i <= cs@.len(),
            out@ == cs@.take(i as int),
        decreases cs@.len() - i,
    {
        out.push(cs[i]);
        i += 1;
        assert(out@ =~= cs@.take(i as int));
    }
    assert(cs@.take(i as int) =~= cs@);
    out
}

/// Whether `a` comes before `b` in the order of strings: by the first character
/// in which they differ, a prefix first.
pub open spec fn text_lt(a: Seq<char>, b: Seq<char>) -> bool
    decreases a.len(),
{
    if b.len() == 0 {
        false
    } else if a.len() == 0 {
        true
    } else {
        a[0] < b[0] || (a[0] == b[0] && text_lt(a.skip(1), b.skip(1)))
    }
}

/// How two strings are ordered.
#[derive(Clone, Copy, Debug, PartialEq, Eq, Structural)]
pub enum Order {
    Before,
    Same,
    After,
}

/// Compares two strings in the order of [`text_lt`].
pub fn compare_text(a: &str, b: &str) -> (r: Order)
    ensures
        r is Before <==> text_lt(a@, b@),
        r is Same <==> a@ == b@,
        r is After <==> text_lt(b@, a@),
{
    let x = chars_of(a);
    let y = chars_of(b);
    let mut i: usize = 0;
    assert(x@.skip(0) =~= x@);
    assert(y@.skip(0) =~= y@);
    while i < x.len() && i < y.len()
        invariant
            x@ == a@,
            y@ == b@,
            i <= x@.len(),
            i <= y@.len(),
            x@.take(i as int) == y@.take(i as int),
            text_lt(x@, y@) == text_lt(x@.skip(i as int), y@.skip(i as int)),
            text_lt(y@, x@) == text_lt(y@.skip(i as int), x@.skip(i as int)),
        decreases x@.len() - i,
    {
        let ghost xs = x@.skip(i as int);
        let ghost ys = y@.skip(i as int);
        assert(xs[0] == x@[i as int]);
        assert(ys[0] == y@[i as int]);
        if x[i] < y[i] {
            return Order::Before;
        }
        if y[i] < x[i] {
            return Order::After;
        }
        assert(xs.skip(1) =~= x@.skip(i + 1));
        assert(ys.skip(1) =~= y@.skip(i + 1));
        assert(x@.take(i + 1) =~= x@.take(i as int).push(x@[i as int]));
        assert(y@.take(i + 1) =~= y@.take(i as int).push(y@[i as int]));
        i += 1;
    }
    if i < y.len() {
        Order::Before
    } else if i < x.len() {
        Order::After
    } else {
        assert(x@.take(i as int) =~= x@);
        assert(y@.take(i as int) =~= y@);
        Order::Same
    }
}

/// Whether two strings are the same.
pub fn same_text(a: &str, b: &str) -> (r: bool)
    ensures
        r == (a@ == b@),
{
    match compare_text(a, b) {
        Order::Same => true,
        _ => false,
    }
}

/// The order of strings is transitive.
pub proof fn lemma_text_lt_transitive(a: Seq<char>, b: Seq<char>, c: Seq<char>)
    requires
        text_lt(a, b),
        text_lt(b, c),
    ensures
        text_lt(a, c),
    decreases a.len(),
{
    if a.len() > 0 && a[0] == b[0] && b[0] == c[0] {
        lemma_text_lt_transitive(a.skip(1), b.skip(1), c.skip(1));
    }
}

/// No string comes before itself.
pub proof fn lemma_text_lt_irreflexive(a: Seq<char>)
    ensures
        !text_lt(a, a),
    decreases a.len(),
{
    if a.len() > 0 {
        lemma_text_lt_irreflexive(a.skip(1));
    }
}

/// Of two different strings one comes first.
pub proof fn lemma_text_lt_total(a: Seq<char>, b: Seq<char>)
    ensures
        text_lt(a, b) || a == b || text_lt(b, a),
    decreases a.len(),
{
    if a.len() > 0 && b.len() > 0 && a[0] == b[0] {
        lemma_text_lt_total(a.skip(1), b.skip(1));
        if a.skip(1) == b.skip(1) {
            assert(a =~= seq![a[0]] + a.skip(1));
            assert(b =~= seq![b[0]] + b.skip(1));
        }
    } else if a.len() == 0 && b.len() == 0 {
        assert(a =~= b);
    }
}

/// Why a text is not a number.
#[derive(Clone, Copy, Debug, PartialEq, Eq, Structural)]
pub enum NumberFault {
    Empty,
    InvalidDigit,
    TooLarge,
}

/// Whether `c` is a decimal digit.
pub open spec fn is_digit(c: char) -> bool {
    '0' <= c <= '9'
}

/// The value of the digits `s` after the value `n`, cut off at the first
/// character that is no digit or takes the value past `u32`.
pub open spec fn digits_value(n: int, s: Seq<char>) -> Result<u32, NumberFault>
    decreases s.len(),
{
    if s.len() == 0 {
        Ok(n as u32)
    } else if !is_digit(s[0]) {
        Err(NumberFault::InvalidDigit)
    } else {
        let next = n * 10 + (s[0] as int - '0' as int);
        if next > u32::MAX {
            Err(NumberFault::TooLarge)
        } else {
            digits_value(next, s.skip(1))
        }
    }
}

/// The number that `s` denotes: decimal digits, with an optional plus sign.
pub open spec fn parsed_u32(s: Seq<char>) -> Result<u32, NumberFault> {
    if s.len() == 0 {
        Err(NumberFault::Empty)
    } else if s[0] == '+' && s.len() > 1 {
        digits_value(0, s.skip(1))
    } else {
        digits_value(0, s)
    }
}

/// Reads a decimal `u32`.
pub fn parse_u32(s: &str) -> (r: Result<u32, NumberFault>)
    ensures
        r == parsed_u32(s@),
{
    let cs = chars_of(s);
    if cs.len() == 0 {
        return Err(NumberFault::Empty);
    }
    let mut i: usize = 0;
    if cs[0] == '+' && cs.len() > 1 {
        i = 1;
    }
    let mut n: u64 = 0;
    assert(cs@.skip(0) =~= cs@);
    while i < cs.len()
        invariant
            cs@ == s@,
            i <= cs@.len(),
            n <= u32::MAX,
            parsed_u32(cs@) == digits_value(n as int, cs@.skip(i as int)),
        decreases cs@.len() - i,
    {
        let c = cs[i];
        let ghost rest = cs@.skip(i as int);
        assert(rest[0] == c);
        if c < '0' || c > '9' {
            return Err(NumberFault::InvalidDigit);
        }
        let next: u64 = n * 10 + (c as u64 - '0' as u64);
        if next > u32::MAX as u64 {
            return Err(NumberFault::TooLarge);
        }
        assert(rest.skip(1) =~= cs@.skip(i + 1));
        n = next;
        i += 1;
    }
    Ok(n as u32)
}

proof fn lemma_digits_append(n: int, s: Seq<char>, c: char, v: u32)
    requires
        0 <= n,
        digits_value(n, s) == Ok::<u32, NumberFault>(v),
        is_digit(c),
        v * 10 + (c as int - '0' as int) <= u32::MAX,
        n <= u32::MAX,
    ensures
        digits_value(n, s.push(c)) == Ok::<u32, NumberFault>(
            (v * 10 + (c as int - '0' as int)) as u32,
        ),
    decreases s.len(),
{
    if s.len() == 0 {
        assert(s.push(c).skip(1) =~= seq![]);
        assert(digits_value(v * 10 + (c as int - '0' as int), s.push(c).skip(1)) == Ok::<
            u32,
            NumberFault,
        >((v * 10 + (c as int - '0' as int)) as u32));
    } else {
        let next = n * 10 + (s[0] as int - '0' as int);
        assert(s.push(c).skip(1) =~= s.skip(1).push(c));
        lemma_digits_append(next, s.skip(1), c, v);
    }
}

proof fn lemma_decimal_digits(n: nat)
    requires
        n <= u32::MAX,
    ensures
        decimal(n).len() > 0,
        is_digit(decimal(n)[0]),
        digits_value(0, decimal(n)) == Ok::<u32, NumberFault>(n as u32),
    decreases n,
{
    if n < 10 {
        assert(decimal(n).skip(1) =~= seq![]);
        assert(digits_value(n as int, decimal(n).skip(1)) == Ok::<u32, NumberFault>(n as u32));
    } else {
        lemma_decimal_digits(n / 10);
        lemma_digits_append(0, decimal(n / 10), digit_char((n % 10) as int), (n / 10) as u32);
    }
}

/// A number written in decimal reads back as itself.
pub proof fn law_decimal_parses(n: u32)
    ensures
        parsed_u32(decimal(n as nat)) == Ok::<u32, NumberFault>(n),
{
    lemma_decimal_digits(n as nat);
}

/// Different numbers are written differently.
pub proof fn law_decimal_injective(a: u32, b: u32)
    requires
        decimal(a as nat) == decimal(b as nat),
    ensures
        a == b,
{
    law_decimal_parses(a);
    law_decimal_parses(b);
}

/// `c` with an uppercase ASCII letter made lowercase.
pub open spec fn ascii_lower(c: char) -> char {
    if 'A' <= c <= 'Z' {
        (c as int + 32) as char
    } else {
        c
    }
}

/// Whether `s` begins with `prefix`, an ASCII case aside.
pub open spec fn begins_with(s: Seq<char>, prefix: Seq<char>) -> bool {
    s.len() >= prefix.len() && s.take(prefix.len() as int).map_values(|c: char| ascii_lower(c))
        == prefix
}

fn lower(c: char) -> (r: char)
    ensures
        r == ascii_lower(c),
{
    if 'A' <= c && c <= 'Z' {
        (c as u8 + 32) as char
    } else {
        c
    }
}

/// Executable form of [`begins_with`].
pub fn has_prefix_ignoring_case(s: &[char], prefix: &str) -> (r: bool)
    ensures
        r == begins_with(s@, prefix@),
{
    let p = chars_of(prefix);
    if s.len() < p.len() {
        return false;
    }
    let ghost head = s@.take(p@.len() as int).map_values(|c: char| ascii_lower(c));
    let mut i: usize = 0;
    while i < p.len()
        invariant
            i <= p@.len() <= s@.len(),
            p@ == prefix@,
            head == s@.take(p@.len() as int).map_values(|c: char| ascii_lower(c)),
            forall|j: int| 0 <= j < i ==> #[trigger] head[j] == p@[j],
        decreases p@.len() - i,
    {
        if lower(s[i]) != p[i] {
            assert(head[i as int] != p@[i as int]);
            return false;
        }
        i += 1;
    }
    assert(head =~= p@);
    true
}

/// Whether `s` starts with `prefix`.
pub open spec fn starts(s: Seq<char>, prefix: Seq<char>) -> bool {
    s.len() >= prefix.len() && s.take(prefix.len() as int) == prefix
}

/// Executable form of [`starts`].
pub fn has_prefix(s: &[char], prefix: &str) -> (r: bool)
    ensures
        r == starts(s@, prefix@),
{
    let p = chars_of(prefix);
    if s.len() < p.len() {
        return false;
    }
    let mut i: usize = 0;
    while i < p.len()
        invariant
            i <= p@.len() <= s@.len(),
            p@ == prefix@,
            forall|j: int| 0 <= j < i ==> s@[j] == p@[j],
        decreases p@.len() - i,
    {
        if s[i] != p[i] {
            assert(s@.take(p@.len() as int)[i as int] != p@[i as int]);
            return false;
        }
        i += 1;
    }
    assert(s@.take(p@.len() as int) =~= p@);
    true
}

/// The texts `parts`, one behind the other, with `sep` between them.
pub open spec fn joined(parts: Seq<Seq<char>>, sep: Seq<char>) -> Seq<char>
    decreases parts.len(),
{
    if parts.len() == 0 {
        seq![]
    } else if parts.len() == 1 {
        parts[0]
    } else {
        joined(parts.drop_last(), sep) + sep + parts.last()
    }
}

/// Joins the texts.
pub fn join_texts(parts: &Vec<String>, sep: &str) -> (r: String)
    ensures
        r@ == joined(parts@.map_values(|s: String| s@), sep@),
{
    let mut out = String::new();
    let ghost all = parts@.map_values(|s: String| s@);
    let mut i: usize = 0;
    assert(all.take(0) =~= seq![]);
    assert(out@ =~= seq![]);
    while i < parts.len()
        invariant
            i <= parts@.len(),
            all == parts@.map_values(|s: String| s@),
            out@ == joined(all.take(i as int), sep@),
        decreases parts@.len() - i,
    {
        assert(all.take(i + 1).drop_last() =~= all.take(i as int));
        assert(all.take(i + 1).last() == parts@[i as int]@);
        if i > 0 {
            out.push_str(sep);
        }
        out.push_str(parts[i].as_str());
        if i == 0 {
            assert(out@ =~= parts@[0]@);
        }
        i += 1;
    }
    assert(all.take(i as int) =~= all);
    out
}

/// Where the character `c` first is in `s`, from position `i` on.
pub open spec fn char_from(s: Seq<char>, c: char, i: int) -> Option<int>
    decreases s.len() - i,
{
    if i >= s.len() {
        None
    } else if s[i] == c {
        Some(i)
    } else {
        char_from(s, c, i + 1)
    }
}

/// Where the character `c` first is in `s`, from position `from` on.
pub fn find_char(s: &[char], c: char, from: usize) -> (r: Option<usize>)
    requires
        from <= s@.len(),
    ensures
        match r {
            Some(i) => char_from(s@, c, from as int) == Some(i as int) && from <= i < s@.len(),
            None => char_from(s@, c, from as int) is None,
        },
{
    let mut i: usize = from;
    while i < s.len()
        invariant
            from <= i <= s@.len(),
            char_from(s@, c, from as int) == char_from(s@, c, i as int),
        decreases s@.len() - i,
    {
        if s[i] == c {
            return Some(i);
        }
        i += 1;
    }
    None
}

/// The lines of `s` from position `i` on. A line ends with a line feed, or a
/// carriage return and a line feed; the last one may go without.
pub open spec fn lines_from(s: Seq<char>, i: int) -> Seq<Seq<char>>
    decreases s.len() - i,
    when 0 <= i <= s.len()
    via lines_from_ends
{
    if i >= s.len() {
        seq![]
    } else {
        match char_from(s, '\n', i) {
            None => seq![s.skip(i)],
            Some(k) => seq![
                s.subrange(
                    i,
                    if k > i && s[k - 1] == '\r' {
                        k - 1
                    } else {
                        k
                    },
                ),
            ] + lines_from(s, k + 1),
        }
    }
}

#[via_fn]
proof fn lines_from_ends(s: Seq<char>, i: int) {
    lemma_char_from(s, '\n', i);
}

/// What is found lies in range.
pub proof fn lemma_char_from(s: Seq<char>, c: char, i: int)
    ensures
        char_from(s, c, i) matches Some(k) ==> i <= k < s.len() && s[k] == c,
    decreases s.len() - i,
{
    if i < s.len() {
        lemma_char_from(s, c, i + 1);
    }
}

/// The lines of `s`.
pub fn text_lines(s: &str) -> (r: Vec<String>)
    ensures
        r@.map_values(|t: String| t@) == lines_from(s@, 0),
{
    let cs = chars_of(s);
    let mut out: Vec<String> = Vec::new();
    let mut i: usize = 0;
    let ghost done: Seq<Seq<char>> = out@.map_values(|t: String| t@);
    assert(done + lines_from(s@, 0) =~= lines_from(s@, 0));
    while i < cs.len()
        invariant
            i <= cs@.len(),
            cs@ == s@,
            out@.map_values(|t: String| t@) + lines_from(s@, i as int) == lines_from(s@, 0),
        decreases cs@.len() - i,
    {
        let ghost before = out@.map_values(|t: String| t@);
        match find_char(cs.as_slice(), '\n', i) {
            None => {
                let line = string_of(slice_subrange(cs.as_slice(), i, cs.len()));
                assert(line@ =~= s@.skip(i as int));
                out.push(line);
                assert(out@.map_values(|t: String| t@) =~= before + lines_from(s@, i as int));
                return out;
            },
            Some(k) => {
                let end: usize = if k > i && cs[k - 1] == '\r' {
                    k - 1
                } else {
                    k
                };
                let line = string_of(slice_subrange(cs.as_slice(), i, end));
                let ghost piece = line@;
                out.push(line);
                proof {
                    assert(out@.map_values(|t: String| t@) =~= before.push(piece));
                    assert(before.push(piece) + lines_from(s@, k + 1) =~= before + (seq![piece]
                        + lines_from(s@, k + 1)));
                }
                i = k + 1;
            },
        }
    }
    assert(out@.map_values(|t: String| t@) + seq![] =~= out@.map_values(|t: String| t@));
    out
}

/// Whether a character is white space: whether it has the Unicode property
/// `White_Space`.
pub open spec fn is_white(c: char) -> bool {
    let n = c as int;
    ||| 0x09 <= n <= 0x0d
    ||| n == 0x20
    ||| n == 0x85
    ||| n == 0xa0
    ||| n == 0x1680
    ||| 0x2000 <= n <= 0x200a
    ||| n == 0x2028
    ||| n == 0x2029
    ||| n == 0x202f
    ||| n == 0x205f
    ||| n == 0x3000
}

fn char_is_white(c: char) -> (r: bool)
    ensures
        r == is_white(c),
{
    let n: u32 = c as u32;
    (0x09 <= n && n <= 0x0d) || n == 0x20 || n == 0x85 || n == 0xa0 || n == 0x1680 || (0x2000 <= n
        && n <= 0x200a) || n == 0x2028 || n == 0x2029 || n == 0x202f || n == 0x205f || n == 0x3000
}

/// Where `s` begins past white space.
pub open spec fn white_before(s: Seq<char>, i: int) -> int
    decreases s.len() - i,
{
    if i >= s.len() || !is_white(s[i]) {
        i
    } else {
        white_before(s, i + 1)
    }
}

/// Where `s` ends before white space, looked for down to `start`.
pub open spec fn white_after(s: Seq<char>, start: int, end: int) -> int
    decreases end - start,
{
    if end <= start || !is_white(s[end - 1]) {
        end
    } else {
        white_after(s, start, end - 1)
    }
}

/// `s` without white space at either end.
pub open spec fn trimmed(s: Seq<char>) -> Seq<char> {
    let start = white_before(s, 0);
    s.subrange(start, white_after(s, start, s.len() as int))
}

/// Takes white space off either end.
pub fn trim_chars(s: &[char]) -> (r: Vec<char>)
    ensures
        r@ == trimmed(s@),
{
    let mut start: usize = 0;
    while start < s.len() && char_is_white(s[start])
        invariant
            start <= s@.len(),
            white_before(s@, 0) == white_before(s@, start as int),
        decreases s@.len() - start,
    {
        start += 1;
    }
    let mut end: usize = s.len();
    while end > start && char_is_white(s[end - 1])
        invariant
            start <= end <= s@.len(),
            white_after(s@, start as int, s@.len() as int) == white_after(
                s@,
                start as int,
                end as int,
            ),
        decreases end,
    {
        end -= 1;
    }
    slice_to_vec(slice_subrange(s, start, end))
}

/// Calls `std::str::from_utf8`: the text that the bytes encode, where they are valid
/// UTF-8.
#[verifier::external_body]
pub(crate) fn read_utf8(bytes: &[u8]) -> (r: Option<String>)
    ensures
        match r {
            Some(s) => vstd::utf8::valid_utf8(bytes@) && s@ == vstd::utf8::decode_utf8(bytes@),
            None => !vstd::utf8::valid_utf8(bytes@),
        },
{
    std::str::from_utf8(bytes).ok().map(String::from)
}

} // verus!
