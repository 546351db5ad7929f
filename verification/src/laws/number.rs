//! Laws of numbers and their texts.

use vstd::prelude::*;

use crate::number;

verus! {

/// Whether all of `s` is decimal digits, one or more.
pub open spec fn all_digits(s: Seq<char>) -> bool {
    s.len() > 0 && forall|i: int| 0 <= i < s.len() ==> '0' <= #[trigger] s[i] <= '9'
}

/// A number is written as that of its higher digits and then its last digit: `0` to `9`, and `a` to
/// `f` where the base has them.
pub proof fn digits_are_written_last_to_last(n: nat, d: nat, base: nat)
    requires
        base == 10 || base == 16,
        d < base,
    ensures
        number::in_base(d, base).len() == 1,
        number::in_base(d, base)[0] as int == (if d < 10 {
            48 + d
        } else {
            87 + d
        }),
        n > 0 ==> number::in_base(n * base + d, base) == number::in_base(n, base) + number::in_base(
            d,
            base,
        ),
{
    let whole = n * base + d;
    if base == 10 {
        assert((n * 10 + d) / 10 == n && (n * 10 + d) % 10 == d);
    } else {
        assert((n * 16 + d) / 16 == n && (n * 16 + d) % 16 == d);
    }
    if n > 0 {
        if base == 10 {
            assert(whole >= 10);
        } else {
            assert(whole >= 16);
        }
        assert(number::in_base(whole, base) =~= number::in_base(n, base) + number::in_base(
            d,
            base,
        ));
    }
}

/// A decimal is all digits, begins with a zero only where the number is zero, and reads as that
/// number.
pub proof fn decimals_are_plain(n: nat)
    ensures
        all_digits(number::decimal(n)),
        number::decimal(n)[0] == '0' ==> n == 0,
        number::digits_value(number::decimal(n)) == Some(n),
    decreases n,
{
    number::decimal_reads_back(n);
    if n < 10 {
        assert(number::decimal(n) =~= seq![number::digit(n as int)]);
    } else {
        decimals_are_plain(n / 10);
        let front = number::decimal(n / 10);
        assert(number::decimal(n) =~= front.push(number::digit((n % 10) as int)));
        assert(number::decimal(n)[0] == front[0]);
    }
}

/// Two numbers with the same decimal are the same.
pub proof fn decimals_differ(a: nat, b: nat)
    requires
        number::decimal(a) == number::decimal(b),
    ensures
        a == b,
{
    number::decimal_reads_back(a);
    number::decimal_reads_back(b);
}

/// A run of digits is worth ten times its front and its last digit; any other text is no number.
pub proof fn digits_are_worth_their_places(s: Seq<char>, c: char)
    ensures
        number::digits_value(s) is Some == all_digits(s),
        '0' <= c <= '9' ==> number::digits_value(seq![c]) == Some((c as int - 48) as nat),
        all_digits(s) && '0' <= c <= '9' ==> number::digits_value(s.push(c)) == Some(
            (10 * number::digits_value(s)->0 + (c as int - 48)) as nat,
        ),
    decreases s.len(),
{
    assert(s.push(c).drop_last() =~= s);
    if s.len() > 1 {
        let front = s.drop_last();
        digits_are_worth_their_places(front, s.last());
        if all_digits(s) {
            assert forall|i: int| 0 <= i < front.len() implies '0' <= #[trigger] front[i]
                <= '9' by {
                assert(front[i] == s[i]);
            }
            assert(s[s.len() - 1] == s.last());
        }
        if all_digits(front) && '0' <= s.last() <= '9' {
            assert forall|i: int| 0 <= i < s.len() implies '0' <= #[trigger] s[i] <= '9' by {
                if i < front.len() {
                    assert(front[i] == s[i]);
                }
            }
        }
    } else if s.len() == 1 {
        assert(s[0] == s[s.len() - 1]);
    }
}

/// A negative number is its magnitude behind a minus sign, and any other is written as it is.
pub proof fn signs_are_written(n: nat)
    ensures
        number::signed_decimal(n as int) == number::decimal(n),
        n > 0 ==> number::signed_decimal(-(n as int)) == seq!['-'] + number::decimal(n),
{
}

/// Aligning puts spaces before a text, as many as are short of the width, and keeps the text.
pub proof fn aligning_puts_spaces_before(s: Seq<char>, width: nat)
    ensures
        ({
            let r = number::right_aligned(s, width);
            &&& r.len() == (if s.len() < width {
                width
            } else {
                s.len()
            })
            &&& r.skip(r.len() - s.len()) == s
            &&& forall|i: int| 0 <= i < r.len() - s.len() ==> r[i] == ' '
        }),
{
    let r = number::right_aligned(s, width);
    assert(r.skip(r.len() - s.len()) =~= s);
}

/// What is read as a small number is what its decimal says, with a plus sign before it or not; a
/// number that is too great, and a text that is none, are not read.
pub proof fn small_numbers_are_read(n: nat, s: Seq<char>)
    ensures
        n <= 65535 ==> number::u16_value(number::decimal(n)) == Some(n as u16),
        n <= 65535 ==> number::u16_value(seq!['+'] + number::decimal(n)) == Some(n as u16),
        n > 65535 ==> number::u16_value(number::decimal(n)) is None,
        n > 65535 ==> number::u16_value(seq!['+'] + number::decimal(n)) is None,
        number::u16_value(s) is Some ==> all_digits(s) || (s.len() > 0 && s[0] == '+' && all_digits(
            s.skip(1),
        )),
{
    let d = number::decimal(n);
    decimals_are_plain(n);
    assert((seq!['+'] + d).skip(1) =~= d);
    digits_are_worth_their_places(s, '0');
    digits_are_worth_their_places(s.skip(1), '0');
}

/// What is read as a number with a sign is what its decimal says, within 32 bits.
pub proof fn signed_numbers_are_read(n: nat, s: Seq<char>)
    ensures
        n <= 0x7fff_ffff ==> number::i32_value(number::decimal(n)) == Some(n as i32),
        n <= 0x7fff_ffff ==> number::i32_value(seq!['+'] + number::decimal(n)) == Some(n as i32),
        n > 0x7fff_ffff ==> number::i32_value(number::decimal(n)) is None,
        n <= 0x8000_0000 ==> number::i32_value(seq!['-'] + number::decimal(n)) == Some(
            (-(n as int)) as i32,
        ),
        n > 0x8000_0000 ==> number::i32_value(seq!['-'] + number::decimal(n)) is None,
        number::i32_value(s) is Some ==> all_digits(s) || (s.len() > 0 && (s[0] == '+' || s[0]
            == '-') && all_digits(s.skip(1))),
{
    let d = number::decimal(n);
    decimals_are_plain(n);
    assert((seq!['+'] + d).skip(1) =~= d);
    assert((seq!['-'] + d).skip(1) =~= d);
    digits_are_worth_their_places(s, '0');
    digits_are_worth_their_places(s.skip(1), '0');
}

} // verus!
