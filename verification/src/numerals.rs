//! Numbers as they are written: in digits, in bytes, and in the sizes of instructions.

use vstd::arithmetic::power;
use vstd::prelude::*;

use crate::integer;
use crate::macros;
use crate::offset;
use crate::offset::OffsetError;
use crate::opcode;

verus! {

/// Whether `c` is the digit `value`, of a decimal or a hexadecimal number.
pub open spec fn is_digit(c: char, value: nat, radix: nat) -> bool {
    &&& value < radix
    &&& value < 10 ==> c as int == 0x30 + value
    &&& value >= 10 ==> c as int == 0x61 + (value - 10) || c as int == 0x41 + (value - 10)
}

/// Whether `values` are the digits of `text`.
pub open spec fn are_digits(text: Seq<char>, values: Seq<nat>, radix: nat) -> bool {
    &&& text.len() == values.len()
    &&& forall|i: int| 0 <= i < text.len() ==> is_digit(text[i], #[trigger] values[i], radix)
}

/// The number with the digits `values`: each counts as often as there are numbers with the digits
/// behind it.
pub open spec fn place_value(values: Seq<nat>, radix: nat) -> nat
    decreases values.len(),
{
    if values.len() == 0 {
        0
    } else {
        (values[0] * power::pow(radix as int, (values.len() - 1) as nat) + place_value(
            values.skip(1),
            radix,
        )) as nat
    }
}

/// A digit behind the others makes the number `radix` times as large, and counts once.
pub proof fn last_digit_counts_once(values: Seq<nat>, radix: nat)
    requires
        values.len() > 0,
    ensures
        place_value(values, radix) == place_value(values.drop_last(), radix) * radix
            + values.last(),
    decreases values.len(),
{
    let front = values.drop_last();
    let n = (values.len() - 1) as nat;
    power::lemma_pow0(radix as int);
    if n == 0 {
        assert(values.skip(1) =~= Seq::empty());
        assert(place_value(values.skip(1), radix) == 0);
        assert(place_value(front, radix) == 0);
        assert(values[0] * 1 == values[0]) by (nonlinear_arith);
    } else {
        let rest = values.skip(1);
        last_digit_counts_once(rest, radix);
        assert(rest.drop_last() =~= front.skip(1));
        reveal(power::pow);
        let unit = power::pow(radix as int, (n - 1) as nat);
        assert(power::pow(radix as int, n) == radix * unit);
        power_is_natural(radix, (n - 1) as nat);
        power_is_natural(radix, n);
        let tail = place_value(front.skip(1), radix);
        let first = values[0];
        assert(first * unit >= 0) by (nonlinear_arith)
            requires
                unit >= 0,
        ;
        assert(first * (radix * unit) >= 0) by (nonlinear_arith)
            requires
                unit >= 0,
        ;
        assert(front[0] == values[0]);
        assert(first * (radix * unit) + (tail * radix + values.last()) == (first * unit + tail)
            * radix + values.last()) by (nonlinear_arith);
    }
}

proof fn power_is_natural(radix: nat, n: nat)
    ensures
        power::pow(radix as int, n) >= 0,
    decreases n,
{
    reveal(power::pow);
    if n > 0 {
        power_is_natural(radix, (n - 1) as nat);
        assert(radix * power::pow(radix as int, (n - 1) as nat) >= 0) by (nonlinear_arith)
            requires
                power::pow(radix as int, (n - 1) as nat) >= 0,
        ;
    }
}

/// Which characters are digits, and what they count: `0` to `9`, and `a` to `f` or `A` to `F` from
/// ten on, as far as the radix goes.
pub proof fn digits_count(c: char, radix: nat, value: nat)
    requires
        radix <= 36,
    ensures
        offset::digit_value(c, radix) == Some(value) <==> is_digit(c, value, radix),
{
}

/// A text is a number where all of it is digits and the number is small enough, and the number is
/// the one with these digits.
pub proof fn digits_are_numbers(text: Seq<char>, values: Seq<nat>, radix: nat)
    requires
        0 < radix <= 36,
        are_digits(text, values, radix),
    ensures
        place_value(values, radix) <= u64::MAX ==> offset::digits_value(text, radix) == Ok::<
            nat,
            OffsetError,
        >(place_value(values, radix)),
        place_value(values, radix) > u64::MAX ==> offset::digits_value(text, radix) == Err::<
            nat,
            OffsetError,
        >(OffsetError::PosOverflow),
    decreases text.len(),
{
    if text.len() > 0 {
        let front = values.drop_last();
        assert forall|i: int| 0 <= i < text.drop_last().len() implies is_digit(
            text.drop_last()[i],
            #[trigger] front[i],
            radix,
        ) by {
            assert(is_digit(text[i], values[i], radix));
        }
        digits_are_numbers(text.drop_last(), front, radix);
        last_digit_counts_once(values, radix);
        assert(is_digit(text.last(), values.last(), radix));
        digits_count(text.last(), radix, values.last());
        assert(place_value(front, radix) * radix >= place_value(front, radix)) by (
            nonlinear_arith)
            requires
                radix >= 1,
        ;
    }
}

/// The first character that is no digit makes a text invalid, where the number in front of it is
/// small enough.
pub proof fn other_characters_are_invalid(text: Seq<char>, values: Seq<nat>, radix: nat)
    requires
        0 < radix <= 36,
        values.len() < text.len(),
        are_digits(text.take(values.len() as int), values, radix),
        forall|value: nat| !#[trigger] is_digit(text[values.len() as int], value, radix),
    ensures
        place_value(values, radix) <= u64::MAX ==> offset::digits_value(text, radix) == Err::<
            nat,
            OffsetError,
        >(OffsetError::InvalidDigit),
        place_value(values, radix) > u64::MAX ==> offset::digits_value(text, radix) == Err::<
            nat,
            OffsetError,
        >(OffsetError::PosOverflow),
    decreases text.len(),
{
    let n = values.len() as int;
    if n == text.len() - 1 {
        digits_are_numbers(text.take(n), values, radix);
        assert(text.drop_last() =~= text.take(n));
        match offset::digit_value(text.last(), radix) {
            Some(value) => {
                digits_count(text.last(), radix, value);
                assert(is_digit(text[n], value, radix));
            },
            None => {},
        }
    } else {
        assert(text.drop_last().take(n) =~= text.take(n));
        other_characters_are_invalid(text.drop_last(), values, radix);
    }
}

/// Whether `text` is an offset that is written with `digits`: behind `0x` or `0X` if it is
/// hexadecimal, and with or without a plus sign in front of the digits.
pub open spec fn is_offset(text: Seq<char>, digits: Seq<char>, radix: nat) -> bool {
    let signed = seq!['+'] + digits;
    &&& digits.len() > 0
    &&& {
        ||| radix == 10 && (text == digits || text == signed)
        ||| radix == 16 && (text == seq!['0', 'x'] + digits || text == seq!['0', 'x'] + signed)
        ||| radix == 16 && (text == seq!['0', 'X'] + digits || text == seq!['0', 'X'] + signed)
    }
}

proof fn offset_digits_decide(text: Seq<char>, digits: Seq<char>, radix: nat)
    requires
        is_offset(text, digits, radix),
        digits[0] != '+',
        radix == 10 ==> !(digits.len() >= 2 && text == digits && digits[0] == '0' && (digits[1]
            == 'x' || digits[1] == 'X')),
    ensures
        offset::offset_value(text) == offset::digits_value(digits, radix),
{
    let signed = seq!['+'] + digits;
    assert(signed.skip(1) =~= digits);
    if radix == 16 {
        assert(text[0] == '0' && (text[1] == 'x' || text[1] == 'X'));
        assert(text.skip(2) =~= digits || text.skip(2) =~= signed);
    }
}

/// What a text with the given digits stands for: the number with these digits, unless it is too
/// large.
pub proof fn offsets_are_numbers(
    text: Seq<char>,
    digits: Seq<char>,
    values: Seq<nat>,
    radix: nat,
)
    requires
        is_offset(text, digits, radix),
        are_digits(digits, values, radix),
    ensures
        place_value(values, radix) <= u64::MAX ==> offset::offset_value(text) == Ok::<
            nat,
            OffsetError,
        >(place_value(values, radix)),
        place_value(values, radix) > u64::MAX ==> offset::offset_value(text) == Err::<
            nat,
            OffsetError,
        >(OffsetError::PosOverflow),
{
    assert(is_digit(digits[0], values[0], radix));
    if digits.len() >= 2 {
        assert(is_digit(digits[1], values[1], radix));
    }
    offset_digits_decide(text, digits, radix);
    digits_are_numbers(digits, values, radix);
}

/// A text whose digits are followed by something else is invalid.
pub proof fn other_texts_are_invalid(
    text: Seq<char>,
    digits: Seq<char>,
    values: Seq<nat>,
    radix: nat,
)
    requires
        is_offset(text, digits, radix),
        digits[0] != '+',
        radix == 10 ==> !(digits.len() >= 2 && text == digits && digits[0] == '0' && (digits[1]
            == 'x' || digits[1] == 'X')),
        values.len() < digits.len(),
        are_digits(digits.take(values.len() as int), values, radix),
        forall|value: nat| !#[trigger] is_digit(digits[values.len() as int], value, radix),
        place_value(values, radix) <= u64::MAX,
    ensures
        offset::offset_value(text) == Err::<nat, OffsetError>(OffsetError::InvalidDigit),
{
    offset_digits_decide(text, digits, radix);
    other_characters_are_invalid(digits, values, radix);
}

/// A text without digits is no offset: there is nothing in it but a sign, or nothing at all.
pub proof fn empty_texts_are_refused(text: Seq<char>)
    ensures
        offset::offset_value(text) == Err::<nat, OffsetError>(OffsetError::Empty) <==> text
            == Seq::<char>::empty() || text == seq!['0', 'x'] || text == seq!['0', 'X'],
        text == seq!['+'] || text == seq!['0', 'x', '+'] || text == seq!['0', 'X', '+']
            ==> offset::offset_value(text) == Err::<nat, OffsetError>(OffsetError::InvalidDigit),
        text.len() >= 2 && text[0] == '+' && text[1] == '+' ==> offset::offset_value(text) == Err::<
            nat,
            OffsetError,
        >(OffsetError::InvalidDigit),
{
    digits_are_not_empty(text.skip(1), 10);
    digits_are_not_empty(text, 10);
    digits_are_not_empty(text.skip(2), 16);
    digits_are_not_empty(text.skip(2).skip(1), 16);
    if offset::offset_value(text) == Err::<nat, OffsetError>(OffsetError::Empty) {
        if text.len() > 0 {
            assert(text.skip(2).len() == 0);
            assert(text =~= seq!['0', 'x'] || text =~= seq!['0', 'X']);
        } else {
            assert(text =~= Seq::<char>::empty());
        }
    }
    if text.len() >= 2 && text[0] == '+' && text[1] == '+' {
        let empty = Seq::<nat>::empty();
        let digits = text.skip(1);
        assert forall|value: nat| !#[trigger] is_digit(digits[0], value, 10) by {
            assert('+' as int == 0x2b);
        }
        assert(digits.take(0) =~= Seq::<char>::empty());
        other_characters_are_invalid(digits, empty, 10);
    }
}

proof fn digits_are_not_empty(digits: Seq<char>, radix: nat)
    ensures
        offset::digits_value(digits, radix) != Err::<nat, OffsetError>(OffsetError::Empty),
    decreases digits.len(),
{
    if digits.len() > 0 {
        digits_are_not_empty(digits.drop_last(), radix);
    }
}

/// The decimal digits of a number are those of the number, and the first one is no zero where
/// there are others behind it.
pub proof fn decimals_are_numbers(value: nat) -> (values: Seq<nat>)
    ensures
        are_digits(macros::decimal(value), values, 10),
        place_value(values, 10) == value,
        values.len() > 0,
        values.len() > 1 ==> values[0] > 0,
    decreases value,
{
    if value < 10 {
        let values = seq![value];
        assert(values.drop_last() =~= Seq::<nat>::empty());
        last_digit_counts_once(values, 10);
        values
    } else {
        let front = decimals_are_numbers(value / 10);
        let values = front.push(value % 10);
        let text = macros::decimal(value);
        assert(values.drop_last() =~= front);
        last_digit_counts_once(values, 10);
        assert forall|i: int| 0 <= i < text.len() implies is_digit(
            text[i],
            #[trigger] values[i],
            10,
        ) by {
            if i < front.len() {
                assert(is_digit(macros::decimal(value / 10)[i], front[i], 10));
            }
        }
        if front.len() == 1 {
            assert(front.drop_last() =~= Seq::<nat>::empty());
            last_digit_counts_once(front, 10);
        }
        values
    }
}

/// Bytes are digits to the base 256, the first of them the one that counts most.
pub proof fn bytes_are_digits(digits: Seq<u8>)
    ensures
        integer::be_value(digits) == place_value(
            Seq::new(digits.len(), |i: int| digits[i] as nat),
            256,
        ),
    decreases digits.len(),
{
    let values = Seq::new(digits.len(), |i: int| digits[i] as nat);
    if digits.len() > 0 {
        let front = digits.drop_last();
        bytes_are_digits(front);
        last_digit_counts_once(values, 256);
        assert(values.drop_last() =~= Seq::new(front.len(), |i: int| front[i] as nat));
    }
}

/// A number in two's complement is the number with the same bytes, or, where the first bit is set,
/// that number less what the byte in front of them would count.
pub proof fn first_bit_is_the_sign(digits: Seq<u8>)
    ensures
        digits.len() == 0 ==> integer::signed_be_value(digits) == 0,
        digits.len() > 0 && digits[0] < 0x80 ==> integer::signed_be_value(digits)
            == integer::be_value(digits),
        digits.len() > 0 && digits[0] >= 0x80 ==> integer::signed_be_value(digits)
            == integer::be_value(digits) - power::pow(256, digits.len()),
    decreases digits.len(),
{
    reveal(power::pow);
    if digits.len() == 1 {
        assert(digits.drop_last() =~= Seq::<u8>::empty());
        assert(integer::be_value(digits.drop_last()) == 0);
        assert(power::pow(256, 0) == 1);
    } else if digits.len() > 1 {
        first_bit_is_the_sign(digits.drop_last());
        assert(power::pow(256, digits.len()) == 256 * power::pow(
            256,
            (digits.len() - 1) as nat,
        ));
    }
}

/// The shortest bytes of a number are those of the number, and the first one is no zero where there
/// are others behind it. There are no other such bytes.
pub proof fn shortest_bytes_are_unique(value: nat, digits: Seq<u8>)
    requires
        digits.len() > 0,
        digits.len() > 1 ==> digits[0] != 0,
        integer::be_value(digits) == value,
    ensures
        integer::be_bytes(value) == digits,
    decreases digits.len(),
{
    let front = digits.drop_last();
    if digits.len() == 1 {
        assert(integer::be_value(front) == 0);
        assert(integer::be_bytes(value) =~= digits);
    } else {
        let rest = integer::be_value(front);
        assert(rest > 0) by {
            leading_digit_counts(front);
        }
        assert(front[0] == digits[0]);
        assert(value / 256 == rest);
        assert(value % 256 == digits.last());
        shortest_bytes_are_unique(rest, front);
        assert(integer::be_bytes(value) =~= digits);
    }
}

proof fn leading_digit_counts(digits: Seq<u8>)
    requires
        digits.len() > 0,
        digits[0] != 0,
    ensures
        integer::be_value(digits) > 0,
    decreases digits.len(),
{
    if digits.len() > 1 {
        leading_digit_counts(digits.drop_last());
    }
}

/// What is behind an opcode: `n` bytes behind that of the push of `n` bytes, `0x5f + n`, for `n`
/// from 1 to 32, and nothing behind all others. In front of them stands the opcode itself.
pub proof fn pushes_have_immediates(code: u8)
    ensures
        0x60 <= code <= 0x7f ==> opcode::immediate_len(code) == code - 0x5f,
        code < 0x60 || code > 0x7f ==> opcode::immediate_len(code) == 0,
        opcode::instruction_size(code) == opcode::immediate_len(code) + 1,
{
}

/// The absolute value is a distance from zero.
pub proof fn magnitudes_are_distances(value: int)
    ensures
        integer::magnitude(value) == value || integer::magnitude(value) == -value,
        integer::magnitude(value) >= 0,
        integer::magnitude(value) == integer::magnitude(-value),
{
}

} // verus!
