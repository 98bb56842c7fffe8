//! Base-10 numerals as character sequences: the spec-level meaning of a
//! digit string, rendering of integers, and the lemmas tying the two
//! directions together.

use vstd::prelude::*;
use vstd::arithmetic::div_mod::lemma_fundamental_div_mod;

verus! {

pub open spec fn is_digit(c: char) -> bool {
    '0' <= c && c <= '9'
}

/// The numeric value of a digit character.
pub open spec fn digit_val(c: char) -> int {
    c as int - '0' as int
}

/// The character for a digit value in 0..=9.
pub open spec fn digit_char(d: int) -> char {
    if d == 0 { '0' }
    else if d == 1 { '1' }
    else if d == 2 { '2' }
    else if d == 3 { '3' }
    else if d == 4 { '4' }
    else if d == 5 { '5' }
    else if d == 6 { '6' }
    else if d == 7 { '7' }
    else if d == 8 { '8' }
    else { '9' }
}

/// The value of a digit string read in base 10.
pub open spec fn digits_val(s: Seq<char>) -> int
    decreases s.len(),
{
    if s.len() == 0 {
        0
    } else {
        digits_val(s.drop_last()) * 10 + digit_val(s.last())
    }
}

/// The base-10 rendering of a non-negative integer, without sign.
pub open spec fn dec_digits(n: int) -> Seq<char>
    decreases n,
{
    if n < 10 {
        seq![digit_char(n)]
    } else {
        dec_digits(n / 10).push(digit_char(n % 10))
    }
}

/// The base-10 rendering of an integer, with a leading '-' when negative.
pub open spec fn dec_int(n: int) -> Seq<char> {
    if n < 0 {
        seq!['-'] + dec_digits(-n)
    } else {
        dec_digits(n)
    }
}

/// The length of the longest prefix of digit characters.
pub open spec fn digits_run(s: Seq<char>) -> nat
    decreases s.len(),
{
    if s.len() == 0 || !is_digit(s[0]) {
        0
    } else {
        1 + digits_run(s.drop_first())
    }
}

pub proof fn lemma_digit_char_val(d: int)
    requires
        0 <= d <= 9,
    ensures
        is_digit(digit_char(d)),
        digit_val(digit_char(d)) == d,
{
}

/// Every character of a rendered non-negative number is a digit, and
/// there is at least one.
pub proof fn lemma_dec_digits_are_digits(n: int)
    requires
        n >= 0,
    ensures
        dec_digits(n).len() >= 1,
        forall|i: int| 0 <= i < dec_digits(n).len() ==> is_digit(dec_digits(n)[i]),
    decreases n,
{
    if n < 10 {
        lemma_digit_char_val(n);
    } else {
        lemma_dec_digits_are_digits(n / 10);
        lemma_digit_char_val(n % 10);
    }
}

/// Reading back a rendered non-negative number gives the number.
pub proof fn lemma_digits_val_of_dec(n: int)
    requires
        n >= 0,
    ensures
        digits_val(dec_digits(n)) == n,
    decreases n,
{
    if n < 10 {
        lemma_digit_char_val(n);
        let s = seq![digit_char(n)];
        assert(s.drop_last() =~= Seq::<char>::empty());
        assert(digits_val(s) == digits_val(s.drop_last()) * 10 + digit_val(s.last()));
    } else {
        lemma_digits_val_of_dec(n / 10);
        lemma_digit_char_val(n % 10);
        let s = dec_digits(n / 10).push(digit_char(n % 10));
        assert(s.drop_last() =~= dec_digits(n / 10));
        assert(digits_val(s) == digits_val(dec_digits(n / 10)) * 10 + digit_val(digit_char(n % 10)));
        lemma_fundamental_div_mod(n, 10);
    }
}

/// The digit run of an all-digit string followed by anything that does
/// not begin with a digit covers exactly the all-digit string.
pub proof fn lemma_digits_run_exact(d: Seq<char>, rest: Seq<char>)
    requires
        forall|i: int| 0 <= i < d.len() ==> is_digit(d[i]),
        rest.len() > 0 ==> !is_digit(rest[0]),
    ensures
        digits_run(d + rest) == d.len(),
    decreases d.len(),
{
    if d.len() == 0 {
        assert(d + rest =~= rest);
    } else {
        assert((d + rest)[0] == d[0]);
        assert((d + rest).drop_first() =~= d.drop_first() + rest);
        lemma_digits_run_exact(d.drop_first(), rest);
    }
}

/// The digit run of a string whose first m characters are digits and
/// whose character at m (if any) is not, is exactly m.
pub proof fn lemma_digits_run_position(s: Seq<char>, m: int)
    requires
        0 <= m <= s.len(),
        forall|j: int| 0 <= j < m ==> is_digit(s[j]),
        m < s.len() ==> !is_digit(s[m]),
    ensures
        digits_run(s) == m,
    decreases m,
{
    if m == 0 {
    } else {
        assert(is_digit(s[0]));
        lemma_digits_run_position(s.drop_first(), m - 1);
    }
}

/// A digit run never reaches past the end of the string.
pub proof fn lemma_digits_run_le_len(s: Seq<char>)
    ensures
        digits_run(s) <= s.len(),
    decreases s.len(),
{
    if s.len() > 0 && is_digit(s[0]) {
        lemma_digits_run_le_len(s.drop_first());
    }
}

fn digit_to_char(d: u32) -> (c: char)
    requires
        d <= 9,
    ensures
        c == digit_char(d as int),
{
    match d {
        0 => '0',
        1 => '1',
        2 => '2',
        3 => '3',
        4 => '4',
        5 => '5',
        6 => '6',
        7 => '7',
        8 => '8',
        _ => '9',
    }
}

/// Appends the base-10 rendering of `n` to `out`.
pub fn push_dec_u32(out: &mut String, n: u32)
    ensures
        final(out)@ == old(out)@ + dec_digits(n as int),
    decreases n,
{
    if n < 10 {
        let c = digit_to_char(n);
        crate::strutil::push_char(out, c);
        assert(final(out)@ =~= old(out)@ + dec_digits(n as int));
    } else {
        push_dec_u32(out, n / 10);
        let c = digit_to_char(n % 10);
        crate::strutil::push_char(out, c);
        assert(final(out)@ =~= old(out)@ + dec_digits(n as int));
    }
}

/// Appends the base-10 rendering of `n`, sign included, to `out`.
pub fn push_dec_i32(out: &mut String, n: i32)
    ensures
        final(out)@ == old(out)@ + dec_int(n as int),
{
    if n >= 0 {
        push_dec_u32(out, n as u32);
    } else {
        crate::strutil::push_char(out, '-');
        let m: u32 = if n == i32::MIN {
            2147483648
        } else {
            (-n) as u32
        };
        assert(m as int == -(n as int));
        push_dec_u32(out, m);
        assert(final(out)@ =~= old(out)@ + dec_int(n as int));
    }
}

} // verus!
