//! Numbers written as text, and read back from it.

use vstd::prelude::*;

use crate::text;

verus! {

/// The digit for `d` in a base up to sixteen, in lower case.
pub open spec fn digit(d: int) -> char {
    if d < 10 {
        (48 + d) as char
    } else {
        (87 + d) as char
    }
}

/// `n` in base `base`, without leading zeros.
pub open spec fn in_base(n: nat, base: nat) -> Seq<char>
    decreases n,
    via in_base_decreases
{
    if n < base || base < 2 {
        seq![digit(n as int)]
    } else {
        in_base(n / base, base).push(digit((n % base) as int))
    }
}

#[via_fn]
proof fn in_base_decreases(n: nat, base: nat) {
    if n >= base && base >= 2 {
        lemma_div_smaller(n, base);
    }
}

proof fn lemma_div_smaller(n: nat, base: nat)
    by (nonlinear_arith)
    requires
        base >= 2,
        n >= base,
    ensures
        n / base < n,
{
}

/// `n` in decimal.
pub open spec fn decimal(n: nat) -> Seq<char> {
    in_base(n, 10)
}

/// `n` in decimal, with a minus sign when it is negative.
pub open spec fn signed_decimal(n: int) -> Seq<char> {
    if n < 0 {
        seq!['-'] + decimal((-n) as nat)
    } else {
        decimal(n as nat)
    }
}

/// `s` behind as many spaces as make it `width` characters long; `s` itself when it is longer.
pub open spec fn right_aligned(s: Seq<char>, width: nat) -> Seq<char> {
    if s.len() >= width {
        s
    } else {
        Seq::new((width - s.len()) as nat, |i: int| ' ') + s
    }
}

/// What a decimal digit is worth.
pub open spec fn digit_value(c: char) -> Option<nat> {
    if '0' <= c <= '9' {
        Some((c as int - 48) as nat)
    } else {
        None
    }
}

/// The number that a run of one or more decimal digits writes; `None` for any other text.
pub open spec fn digits_value(s: Seq<char>) -> Option<nat>
    decreases s.len(),
{
    if s.len() == 0 {
        None
    } else if s.len() == 1 {
        digit_value(s[0])
    } else {
        match (digits_value(s.drop_last()), digit_value(s.last())) {
            (Some(n), Some(d)) => Some(10 * n + d),
            _ => None,
        }
    }
}

/// The number that `s` writes: decimal digits, a plus sign before them or not.
pub open spec fn unsigned_value(s: Seq<char>) -> Option<nat> {
    if s.len() > 0 && s[0] == '+' {
        digits_value(s.skip(1))
    } else {
        digits_value(s)
    }
}

/// The number that `s` writes: decimal digits, a plus or minus sign before them or not.
pub open spec fn signed_value(s: Seq<char>) -> Option<int> {
    if s.len() > 0 && s[0] == '-' {
        match digits_value(s.skip(1)) {
            Some(n) => Some(-(n as int)),
            None => None,
        }
    } else {
        match unsigned_value(s) {
            Some(n) => Some(n as int),
            None => None,
        }
    }
}

/// The number of `s`, when it is one from 0 to 65535.
pub open spec fn u16_value(s: Seq<char>) -> Option<u16> {
    match unsigned_value(s) {
        Some(n) if n <= u16::MAX => Some(n as u16),
        _ => None,
    }
}

/// The number of `s`, when it is one that 32 bits with a sign can hold.
pub open spec fn i32_value(s: Seq<char>) -> Option<i32> {
    match signed_value(s) {
        Some(n) if i32::MIN <= n <= i32::MAX => Some(n as i32),
        _ => None,
    }
}

fn digit_char(d: u8) -> (r: char)
    requires
        d < 16,
    ensures
        r == digit(d as int),
{
    if d < 10 {
        (48 + d) as char
    } else {
        (87 + d) as char
    }
}

/// `n` in base `base`.
fn write_in_base(n: u128, base: u128) -> (r: String)
    requires
        2 <= base <= 16,
    ensures
        r@ == in_base(n as nat, base as nat),
    decreases n,
{
    if n < base {
        let mut out = String::new();
        out.push(digit_char(n as u8));
        assert(out@ =~= seq![digit(n as int)]);
        out
    } else {
        proof {
            lemma_div_smaller(n as nat, base as nat);
        }
        let rest = n / base;
        let last = n % base;
        let mut out = write_in_base(rest, base);
        out.push(digit_char(last as u8));
        out
    }
}

/// `n` in decimal.
pub fn write_decimal(n: u128) -> (r: String)
    ensures
        r@ == decimal(n as nat),
{
    write_in_base(n, 10)
}

/// `n` in lower-case hexadecimal.
pub fn write_hex(n: u128) -> (r: String)
    ensures
        r@ == in_base(n as nat, 16),
{
    write_in_base(n, 16)
}

/// `n` in decimal, with its sign when it is negative.
pub fn write_signed(n: i32) -> (r: String)
    ensures
        r@ == signed_decimal(n as int),
{
    if n < 0 {
        let mut out = String::new();
        out.push('-');
        let magnitude: i64 = -(n as i64);
        let digits = write_decimal(magnitude as u128);
        out.append(digits.as_str());
        assert(out@ =~= seq!['-'] + decimal((-(n as int)) as nat));
        out
    } else {
        write_decimal(n as u128)
    }
}

/// `s` behind spaces up to `width` characters.
pub fn align_right(s: &str, width: usize) -> (r: String)
    ensures
        r@ == right_aligned(s@, width as nat),
{
    let n = text::chars_of(s).len();
    if n >= width {
        return s.to_owned();
    }
    let mut out = String::new();
    let mut k: usize = 0;
    while k < width - n
        invariant
            n < width,
            k <= width - n,
            out@ == Seq::new(k as nat, |i: int| ' '),
        decreases width - n - k,
    {
        out.push(' ');
        k += 1;
        assert(out@ =~= Seq::new(k as nat, |i: int| ' '));
    }
    out.append(s);
    out
}

/// A text that begins with an unreadable number is unreadable.
proof fn lemma_digits_prefix(s: Seq<char>, n: int)
    requires
        0 < n <= s.len(),
        digits_value(s.take(n)) is None,
    ensures
        digits_value(s) is None,
    decreases s.len(),
{
    if n == s.len() {
        assert(s.take(n) =~= s);
    } else {
        assert(s.drop_last().take(n) =~= s.take(n));
        lemma_digits_prefix(s.drop_last(), n);
    }
}

/// A longer run of digits writes no smaller number.
proof fn lemma_digits_grow(s: Seq<char>, n: int)
    requires
        0 < n <= s.len(),
        digits_value(s.take(n)) is Some,
    ensures
        digits_value(s) is Some ==> digits_value(s)->0 >= digits_value(s.take(n))->0,
    decreases s.len(),
{
    if n == s.len() {
        assert(s.take(n) =~= s);
    } else {
        assert(s.drop_last().take(n) =~= s.take(n));
        lemma_digits_grow(s.drop_last(), n);
    }
}

/// The number written by the digits `cs[from..]`, up to `max`.
fn read_digits(cs: &[char], from: usize, max: u64) -> (r: Option<u64>)
    requires
        from <= cs@.len(),
        max <= 0xffff_ffff,
    ensures
        r == (match digits_value(cs@.skip(from as int)) {
            Some(n) if n <= max => Some(n as u64),
            _ => None::<u64>,
        }),
{
    let ghost s = cs@.skip(from as int);
    let mut value: u64 = 0;
    let mut i: usize = from;
    if i == cs.len() {
        return None;
    }
    while i < cs.len()
        invariant
            from <= i <= cs@.len(),
            from < cs@.len(),
            s == cs@.skip(from as int),
            value <= max <= 0xffff_ffff,
            i == from ==> value == 0,
            i > from ==> digits_value(s.take(i - from)) == Some(value as nat),
        decreases cs@.len() - i,
    {
        let c = cs[i];
        let ghost done = s.take(i - from);
        let ghost next = s.take(i + 1 - from);
        assert(next.drop_last() =~= done);
        assert(next.last() == c);
        if c < '0' || c > '9' {
            proof {
                lemma_digits_prefix(s, i + 1 - from);
            }
            return None;
        }
        value = value * 10 + (c as u32 - 48) as u64;
        assert(digits_value(next) == Some(value as nat));
        if value > max {
            proof {
                lemma_digits_grow(s, i + 1 - from);
            }
            return None;
        }
        i += 1;
    }
    assert(s.take(i - from) =~= s);
    Some(value)
}

/// The number of `s` from 0 to 65535, when `s` writes one.
pub fn read_u16(s: &str) -> (r: Option<u16>)
    ensures
        r == u16_value(s@),
{
    let cs = text::chars_of(s);
    assert(s@.skip(0) =~= s@);
    let from: usize = if cs.len() > 0 && cs[0] == '+' {
        1
    } else {
        0
    };
    match read_digits(cs.as_slice(), from, 0xffff) {
        Some(n) => Some(n as u16),
        None => None,
    }
}

/// The number of `s` that 32 bits with a sign can hold, when `s` writes one.
pub fn read_i32(s: &str) -> (r: Option<i32>)
    ensures
        r == i32_value(s@),
{
    let cs = text::chars_of(s);
    assert(s@.skip(0) =~= s@);
    if cs.len() > 0 && cs[0] == '-' {
        match read_digits(cs.as_slice(), 1, 0x8000_0000) {
            Some(n) => Some((-(n as i64)) as i32),
            None => None,
        }
    } else {
        let from: usize = if cs.len() > 0 && cs[0] == '+' {
            1
        } else {
            0
        };
        match read_digits(cs.as_slice(), from, 0x7fff_ffff) {
            Some(n) => Some(n as i32),
            None => None,
        }
    }
}

/// Reading what was written: the decimal digits of a number are worth that number.
pub proof fn decimal_reads_back(n: nat)
    ensures
        digits_value(decimal(n)) == Some(n),
        decimal(n).len() > 0,
    decreases n,
{
    if n < 10 {
        assert(decimal(n) =~= seq![digit(n as int)]);
    } else {
        decimal_reads_back(n / 10);
        assert(decimal(n).drop_last() =~= decimal(n / 10));
    }
}

} // verus!
