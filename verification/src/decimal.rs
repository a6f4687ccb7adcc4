//! Numbers in decimal notation.

use vstd::prelude::*;

use crate::text::chars_of;

verus! {

/// The digit that a character stands for.
pub open spec fn digit_value(c: char) -> int {
    c as int - '0' as int
}

/// Whether all characters are decimal digits.
pub open spec fn all_digits(text: Seq<char>) -> bool {
    forall|i: int| 0 <= i < text.len() ==> '0' <= #[trigger] text[i] <= '9'
}

/// The number that decimal digits stand for.
pub open spec fn digits_value(text: Seq<char>) -> int
    decreases text.len(),
{
    if text.len() == 0 {
        0
    } else {
        10 * digits_value(text.drop_last()) + digit_value(text.last())
    }
}

/// The digits of a number without its sign.
pub open spec fn unsigned_part(text: Seq<char>) -> Seq<char> {
    if text.len() > 0 && (text[0] == '+' || text[0] == '-') {
        text.skip(1)
    } else {
        text
    }
}

/// The number that a text stands for.
pub open spec fn signed_value(text: Seq<char>) -> int {
    if text.len() > 0 && text[0] == '-' {
        -digits_value(unsigned_part(text))
    } else {
        digits_value(unsigned_part(text))
    }
}

/// The 64-bit integer that a text stands for in decimal notation: an optional
/// sign, then digits.
pub open spec fn decimal_i64(text: Seq<char>) -> Option<i64> {
    if unsigned_part(text).len() > 0 && all_digits(unsigned_part(text)) && i64::MIN <= signed_value(
        text,
    ) <= i64::MAX {
        Some(signed_value(text) as i64)
    } else {
        None
    }
}

proof fn lemma_digits_value_grows(text: Seq<char>, n: int)
    requires
        all_digits(text),
        0 <= n <= text.len(),
    ensures
        0 <= digits_value(text.take(n)) <= digits_value(text),
    decreases text.len() - n, text.len(),
{
    lemma_digits_value_nonnegative(text.take(n));
    if n < text.len() {
        let front = text.drop_last();
        assert(front.take(n) =~= text.take(n));
        lemma_digits_value_nonnegative(front);
        lemma_digits_value_grows(front, n);
        assert('0' <= text[text.len() - 1] <= '9');
    } else {
        assert(text.take(n) =~= text);
    }
}

proof fn lemma_digits_value_nonnegative(text: Seq<char>)
    requires
        all_digits(text),
    ensures
        digits_value(text) >= 0,
    decreases text.len(),
{
    if text.len() > 0 {
        lemma_digits_value_nonnegative(text.drop_last());
        assert('0' <= text[text.len() - 1] <= '9');
    }
}

fn digit_of(c: char) -> (digit: u64)
    requires
        '0' <= c <= '9',
    ensures
        digit == digit_value(c),
{
    (c as u32 - '0' as u32) as u64
}

/// Reads a 64-bit integer in decimal notation.
pub fn parse_i64(text: &str) -> (number: Option<i64>)
    ensures
        number == decimal_i64(text@),
{
    let chars: Vec<char> = chars_of(text);
    let mut start: usize = 0;
    let mut negative: bool = false;
    if chars.len() > 0 && (chars[0] == '+' || chars[0] == '-') {
        negative = chars[0] == '-';
        start = 1;
    }
    let ghost digits = unsigned_part(text@);
    assert(chars@.skip(start as int) =~= digits);
    if start == chars.len() {
        return None;
    }
    let limit: u64 = if negative {
        0x8000_0000_0000_0000
    } else {
        0x7fff_ffff_ffff_ffff
    };
    let mut value: u64 = 0;
    let mut i: usize = start;
    while i < chars.len()
        invariant
            start <= i <= chars@.len(),
            chars@ == text@,
            digits == chars@.skip(start as int),
            limit == 0x8000_0000_0000_0000 || limit == 0x7fff_ffff_ffff_ffff,
            value <= limit,
            all_digits(digits.take(i - start)),
            value == digits_value(digits.take(i - start)),
            digits == unsigned_part(text@),
            negative == (text@.len() > 0 && text@[0] == '-'),
            negative ==> limit == 0x8000_0000_0000_0000,
            !negative ==> limit == 0x7fff_ffff_ffff_ffff,
        decreases chars@.len() - i,
    {
        let c: char = chars[i];
        let ghost n = i - start;
        assert(digits[n] == c);
        assert(digits.take(n + 1).drop_last() =~= digits.take(n));
        assert(digits.take(n + 1).last() == c);
        if c < '0' || c > '9' {
            return None;
        }
        let digit: u64 = digit_of(c);
        assert(all_digits(digits.take(n + 1)));
        if value > (limit - digit) / 10 {
            proof {
                if all_digits(digits) {
                    lemma_digits_value_grows(digits, n + 1);
                    assert(digits_value(digits) > limit);
                }
            }
            return None;
        }
        value = value * 10 + digit;
        i += 1;
    }
    assert(digits.take(digits.len() as int) =~= digits);
    if negative {
        if value == 0x8000_0000_0000_0000 {
            Some(i64::MIN)
        } else {
            Some(-(value as i64))
        }
    } else {
        Some(value as i64)
    }
}

/// The natural number that a text stands for in decimal notation: an optional
/// plus sign, then digits.
pub open spec fn decimal_usize(text: Seq<char>) -> Option<usize> {
    if !(text.len() > 0 && text[0] == '-') && unsigned_part(text).len() > 0 && all_digits(
        unsigned_part(text),
    ) && digits_value(unsigned_part(text)) <= usize::MAX {
        Some(digits_value(unsigned_part(text)) as usize)
    } else {
        None
    }
}

/// Reads a natural number in decimal notation.
pub fn parse_usize(text: &str) -> (number: Option<usize>)
    ensures
        number == decimal_usize(text@),
{
    let chars: Vec<char> = chars_of(text);
    let mut start: usize = 0;
    if chars.len() > 0 && (chars[0] == '+' || chars[0] == '-') {
        if chars[0] == '-' {
            return None;
        }
        start = 1;
    }
    let ghost digits = unsigned_part(text@);
    assert(chars@.skip(start as int) =~= digits);
    if start == chars.len() {
        return None;
    }
    let mut value: usize = 0;
    let mut i: usize = start;
    while i < chars.len()
        invariant
            start <= i <= chars@.len(),
            chars@ == text@,
            digits == chars@.skip(start as int),
            digits == unsigned_part(text@),
            all_digits(digits.take(i - start)),
            value == digits_value(digits.take(i - start)),
        decreases chars@.len() - i,
    {
        let c: char = chars[i];
        assert(digits[i - start] == c);
        if !('0' <= c && c <= '9') {
            return None;
        }
        let digit: usize = digit_of(c) as usize;
        proof {
            let now = digits.take(i + 1 - start);
            assert(now.drop_last() =~= digits.take(i - start));
            assert(now.last() == c);
            assert forall|k: int| 0 <= k < now.len() implies '0' <= #[trigger] now[k] <= '9' by {
                if k < now.len() - 1 {
                    assert(digits.take(i - start)[k] == now[k]);
                }
            }
            if all_digits(digits) {
                lemma_digits_value_grows(digits, i + 1 - start);
            }
        }
        if value > (usize::MAX - digit) / 10 {
            return None;
        }
        value = value * 10 + digit;
        i += 1;
    }
    assert(digits.take(i - start) =~= digits);
    Some(value)
}

/// A number in decimal notation.
pub open spec fn decimal(number: nat) -> Seq<char>
    decreases number,
{
    let last = ('0' as int + number % 10) as char;
    if number < 10 {
        seq![last]
    } else {
        decimal(number / 10).push(last)
    }
}

/// A number in decimal notation stands for the number.
pub proof fn lemma_decimal_read_back(number: nat)
    ensures
        all_digits(decimal(number)),
        decimal(number).len() > 0,
        digits_value(decimal(number)) == number,
    decreases number,
{
    let text = decimal(number);
    if number < 10 {
        assert(text.drop_last() =~= Seq::<char>::empty());
        assert(digits_value(text.drop_last()) == 0);
    } else {
        lemma_decimal_read_back(number / 10);
        assert(text.drop_last() =~= decimal(number / 10));
    }
}

/// Writes a number in decimal notation.
pub fn decimal_text(number: usize) -> (text: String)
    ensures
        text@ == decimal(number as nat),
    decreases number,
{
    let mut text: String = if number < 10 {
        String::new()
    } else {
        decimal_text(number / 10)
    };
    let digit: u8 = (number % 10) as u8;
    text.push((48 + digit) as char);
    assert(text@ =~= decimal(number as nat));
    text
}

/// The digits count from the last one on: those before others stand for as many
/// tens, hundreds and so on as the others have digits.
pub proof fn lemma_digits_value(text: Seq<char>, digit: char)
    requires
        '0' <= digit <= '9',
    ensures
        digits_value(text.push(digit)) == 10 * digits_value(text) + (digit as int - 48),
{
    assert(text.push(digit).drop_last() =~= text);
}

/// A number is written without needless zeros.
pub proof fn lemma_no_leading_zero(number: nat)
    ensures
        number > 0 ==> decimal(number)[0] != '0',
        number == 0 ==> decimal(number) == seq!['0'],
    decreases number,
{
    lemma_decimal_read_back(number);
    if number >= 10 {
        lemma_no_leading_zero(number / 10);
        lemma_decimal_read_back(number / 10);
        assert(decimal(number)[0] == decimal(number / 10)[0]);
    }
}

/// A number that is written, with or without a sign, is read back as far as it
/// fits.
pub proof fn lemma_i64_read_back(number: nat)
    ensures
        number <= i64::MAX ==> decimal_i64(decimal(number)) == Some(number as i64) && decimal_i64(
            seq!['+'] + decimal(number),
        ) == Some(number as i64),
        number > i64::MAX ==> decimal_i64(decimal(number)) is None,
        number <= -(i64::MIN as int) ==> (decimal_i64(seq!['-'] + decimal(number)) matches Some(value)
            && value == -number),
        number > -(i64::MIN as int) ==> decimal_i64(seq!['-'] + decimal(number)) is None,
{
    let text = decimal(number);
    lemma_decimal_read_back(number);
    assert('0' <= text[0] <= '9');
    assert(unsigned_part(text) == text);
    let plus = seq!['+'] + text;
    let minus = seq!['-'] + text;
    assert(plus.skip(1) =~= text);
    assert(minus.skip(1) =~= text);
}

/// A number that is written is read back, also with a plus sign, but not with a
/// minus sign.
pub proof fn lemma_usize_read_back(number: usize)
    ensures
        decimal_usize(decimal(number as nat)) == Some(number),
        decimal_usize(seq!['+'] + decimal(number as nat)) == Some(number),
        decimal_usize(seq!['-'] + decimal(number as nat)) is None,
{
    let text = decimal(number as nat);
    lemma_decimal_read_back(number as nat);
    assert('0' <= text[0] <= '9');
    let plus = seq!['+'] + text;
    assert(plus.skip(1) =~= text);
}

/// A text that holds something else than digits, but for a sign before them, is
/// no number.
pub proof fn lemma_no_number(text: Seq<char>, i: int)
    requires
        0 <= i < text.len(),
        !('0' <= text[i] <= '9'),
        i > 0 || !(text[0] == '+' || text[0] == '-') || text.len() == 1,
    ensures
        decimal_i64(text) is None,
        decimal_usize(text) is None,
{
    let part = unsigned_part(text);
    if text[0] == '+' || text[0] == '-' {
        if i > 0 {
            assert(part[i - 1] == text[i]);
        }
    } else {
        assert(part[i] == text[i]);
    }
}

} // verus!
