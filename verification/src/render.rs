//! Numerals and padding: the pieces that listings and messages are written with.

use crate::text::{self, to_chars};
use vstd::prelude::*;
use vstd::string::*;

verus! {

/// The character of a digit below sixteen.
pub open spec fn digit_char(digit: nat) -> char {
    if digit == 0 {
        '0'
    } else if digit == 1 {
        '1'
    } else if digit == 2 {
        '2'
    } else if digit == 3 {
        '3'
    } else if digit == 4 {
        '4'
    } else if digit == 5 {
        '5'
    } else if digit == 6 {
        '6'
    } else if digit == 7 {
        '7'
    } else if digit == 8 {
        '8'
    } else if digit == 9 {
        '9'
    } else if digit == 10 {
        'a'
    } else if digit == 11 {
        'b'
    } else if digit == 12 {
        'c'
    } else if digit == 13 {
        'd'
    } else if digit == 14 {
        'e'
    } else {
        'f'
    }
}

/// A number in decimal, without leading zeros.
pub open spec fn decimal(n: nat) -> Seq<char>
    decreases n,
{
    if n < 10 {
        seq![digit_char(n)]
    } else {
        decimal(n / 10).push(digit_char(n % 10))
    }
}

/// A number in lower-case hexadecimal, without leading zeros.
pub open spec fn hexadecimal(n: nat) -> Seq<char>
    decreases n,
{
    if n < 16 {
        seq![digit_char(n)]
    } else {
        hexadecimal(n / 16).push(digit_char(n % 16))
    }
}

/// `n` times the same character.
pub open spec fn repeated(c: char, n: nat) -> Seq<char> {
    Seq::new(n, |i: int| c)
}

/// How many characters `text` falls short of `width`.
pub open spec fn shortfall(text: Seq<char>, width: nat) -> nat {
    if text.len() < width {
        (width - text.len()) as nat
    } else {
        0
    }
}

/// `text` filled with spaces on the right up to `width`.
pub open spec fn left_aligned(text: Seq<char>, width: nat) -> Seq<char> {
    text + repeated(' ', shortfall(text, width))
}

/// A number in decimal, filled with zeros on the left up to `width`.
pub open spec fn zero_filled(n: nat, width: nat) -> Seq<char> {
    repeated('0', shortfall(decimal(n), width)) + decimal(n)
}

/// The character of a digit below sixteen.
fn digit_of(digit: u8) -> (c: char)
    requires
        digit < 16,
    ensures
        c == digit_char(digit as nat),
{
    match digit {
        0 => '0',
        1 => '1',
        2 => '2',
        3 => '3',
        4 => '4',
        5 => '5',
        6 => '6',
        7 => '7',
        8 => '8',
        9 => '9',
        10 => 'a',
        11 => 'b',
        12 => 'c',
        13 => 'd',
        14 => 'e',
        _ => 'f',
    }
}

/// Appends a number in decimal.
pub fn push_decimal(out: &mut String, n: u128)
    ensures
        final(out)@ == old(out)@ + decimal(n as nat),
    decreases n,
{
    if n >= 10 {
        push_decimal(out, n / 10);
    }
    out.push(digit_of((n % 10) as u8));
}

/// Appends a number in hexadecimal.
pub fn push_hexadecimal(out: &mut String, n: u32)
    ensures
        final(out)@ == old(out)@ + hexadecimal(n as nat),
    decreases n,
{
    if n >= 16 {
        push_hexadecimal(out, n / 16);
    }
    out.push(digit_of((n % 16) as u8));
}

/// Appends the same character `n` times.
pub fn push_repeated(out: &mut String, c: char, n: usize)
    ensures
        final(out)@ == old(out)@ + repeated(c, n as nat),
{
    let mut i: usize = 0;
    while i < n
        invariant
            i <= n,
            out@ == old(out)@ + repeated(c, i as nat),
        decreases n - i,
    {
        out.push(c);
        i = i + 1;
    }
}

/// Appends a text, filled with spaces on the right up to `width`.
pub fn push_left_aligned(out: &mut String, text: &str, width: usize)
    ensures
        final(out)@ == old(out)@ + left_aligned(text@, width as nat),
{
    let len: usize = to_chars(text).len();
    out.append(text);
    if len < width {
        push_repeated(out, ' ', width - len);
    }
}

/// Appends a number in decimal, filled with zeros on the left up to `width`.
pub fn push_zero_filled(out: &mut String, n: u128, width: usize)
    ensures
        final(out)@ == old(out)@ + zero_filled(n as nat, width as nat),
{
    let mut digits: String = String::new();
    push_decimal(&mut digits, n);
    let len: usize = to_chars(digits.as_str()).len();
    if len < width {
        push_repeated(out, '0', width - len);
    }
    out.append(digits.as_str());
}

/// Decimal numerals read back as the numbers they were written from.
pub proof fn decimal_reads_back(n: nat)
    ensures
        decimal(n).len() > 0,
        forall|i: int| 0 <= i < decimal(n).len() ==> text::digit(#[trigger] decimal(n)[i]),
        crate::literal::digits_value(decimal(n)) == n,
    decreases n,
{
    reveal_with_fuel(crate::literal::digits_value, 2);
    if n >= 10 {
        decimal_reads_back(n / 10);
        assert(decimal(n).drop_last() =~= decimal(n / 10));
    }
}

/// The number that a run of hexadecimal digits stands for: each digit counts sixteen times what the
/// next one does, `0` to `9` are those numbers, and `a` to `f` are 10 to 15.
pub open spec fn read_hexadecimal(digits: Seq<char>) -> int
    decreases digits.len(),
{
    if digits.len() == 0 {
        0
    } else {
        let c = digits.last();
        read_hexadecimal(digits.drop_last()) * 16 + if '0' <= c <= '9' {
            c as int - 48
        } else {
            c as int - 97 + 10
        }
    }
}

/// Hexadecimal numerals are made of `0` to `9` and `a` to `f`, have no leading zeros and read back as
/// the numbers they were written from.
pub proof fn hexadecimal_reads_back(n: nat)
    ensures
        hexadecimal(n).len() > 0,
        forall|i: int|
            0 <= i < hexadecimal(n).len() ==> '0' <= #[trigger] hexadecimal(n)[i] <= '9' || 'a'
                <= hexadecimal(n)[i] <= 'f',
        n > 0 ==> hexadecimal(n)[0] != '0',
        hexadecimal(0) == seq!['0'],
        read_hexadecimal(hexadecimal(n)) == n,
    decreases n,
{
    reveal_with_fuel(read_hexadecimal, 2);
    if n >= 16 {
        hexadecimal_reads_back(n / 16);
        assert(hexadecimal(n).drop_last() =~= hexadecimal(n / 16));
    }
}

/// Different numbers have different numerals.
pub proof fn numerals_tell_numbers_apart(m: nat, n: nat)
    ensures
        hexadecimal(m) == hexadecimal(n) ==> m == n,
        decimal(m) == decimal(n) ==> m == n,
{
    hexadecimal_reads_back(m);
    hexadecimal_reads_back(n);
    decimal_reads_back(m);
    decimal_reads_back(n);
}

/// Decimal numerals have no leading zeros, and each digit counts ten times what the next one does.
pub proof fn decimal_numerals_are_positional(n: nat)
    ensures
        n > 0 ==> decimal(n)[0] != '0',
        n < 10 ==> decimal(n).len() == 1 && decimal(n)[0] as int == 48 + n,
        n >= 10 ==> decimal(n) == decimal(n / 10) + decimal(n % 10),
    decreases n,
{
    if n >= 10 {
        decimal_numerals_are_positional(n / 10);
        assert(decimal(n) =~= decimal(n / 10) + decimal(n % 10));
    }
}

/// Filled texts are as wide as asked or as they were, start with the text or end with it, and hold only
/// the fill besides.
pub proof fn padding_only_adds_fill(text: Seq<char>, n: nat, width: nat)
    ensures
        left_aligned(text, width).len() == if text.len() < width {
            width
        } else {
            text.len()
        },
        left_aligned(text, width).take(text.len() as int) == text,
        forall|i: int|
            text.len() <= i < left_aligned(text, width).len() ==> #[trigger] left_aligned(
                text,
                width,
            )[i] == ' ',
        zero_filled(n, width).len() == if decimal(n).len() < width {
            width
        } else {
            decimal(n).len()
        },
        crate::literal::digits_value(zero_filled(n, width)) == n,
{
    assert(left_aligned(text, width).take(text.len() as int) =~= text);
    decimal_reads_back(n);
    let fill = repeated('0', shortfall(decimal(n), width));
    lemma_zeros_count_nothing(fill, decimal(n));
}

/// Leading zeros do not change a number.
proof fn lemma_zeros_count_nothing(fill: Seq<char>, digits: Seq<char>)
    requires
        forall|i: int| 0 <= i < fill.len() ==> fill[i] == '0',
        forall|i: int| 0 <= i < digits.len() ==> text::digit(#[trigger] digits[i]),
    ensures
        crate::literal::digits_value(fill + digits) == crate::literal::digits_value(digits),
    decreases fill.len() + digits.len(),
{
    if digits.len() > 0 {
        assert((fill + digits).drop_last() =~= fill + digits.drop_last());
        lemma_zeros_count_nothing(fill, digits.drop_last());
    } else if fill.len() > 0 {
        assert((fill + digits).drop_last() =~= fill.drop_last() + digits);
        lemma_zeros_count_nothing(fill.drop_last(), digits);
    }
}

} // verus!
