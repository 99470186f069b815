//! The offset that is given on the command line.

use vstd::prelude::*;

verus! {

/// Why a text is no offset.
#[derive(Clone, Copy, Debug, PartialEq, Eq, Structural)]
pub enum OffsetError {
    /// There are no digits.
    Empty,
    /// There is something that is no digit.
    InvalidDigit,
    /// The number is too large.
    PosOverflow,
}

/// The value of the digit `c` in the given radix.
pub open spec fn digit_value(c: char, radix: nat) -> Option<nat> {
    let value = if '0' <= c <= '9' {
        (c as nat - '0' as nat) as nat
    } else if 'a' <= c <= 'z' {
        (c as nat - 'a' as nat + 10) as nat
    } else if 'A' <= c <= 'Z' {
        (c as nat - 'A' as nat + 10) as nat
    } else {
        radix
    };
    if value < radix {
        Some(value)
    } else {
        None
    }
}

/// The number with the given digits. The first digit that is none, or at which the number is too
/// large, decides the error.
pub open spec fn digits_value(digits: Seq<char>, radix: nat) -> Result<nat, OffsetError>
    decreases digits.len(),
{
    if digits.len() == 0 {
        Ok(0)
    } else {
        match digits_value(digits.drop_last(), radix) {
            Err(error) => Err(error),
            Ok(value) => match digit_value(digits.last(), radix) {
                None => Err(OffsetError::InvalidDigit),
                Some(digit) => if value * radix + digit > u64::MAX {
                    Err(OffsetError::PosOverflow)
                } else {
                    Ok(value * radix + digit)
                },
            },
        }
    }
}

/// The number that `text` stands for. There may be a plus sign in front of the digits.
pub open spec fn number_value(text: Seq<char>, radix: nat) -> Result<nat, OffsetError> {
    if text.len() == 0 {
        Err(OffsetError::Empty)
    } else if text[0] == '+' && text.len() == 1 {
        Err(OffsetError::InvalidDigit)
    } else if text[0] == '+' {
        digits_value(text.skip(1), radix)
    } else {
        digits_value(text, radix)
    }
}

/// The offset that `text` stands for: a hexadecimal number behind `0x` or `0X`, else a decimal
/// one.
pub open spec fn offset_value(text: Seq<char>) -> Result<nat, OffsetError> {
    if text.len() >= 2 && text[0] == '0' && (text[1] == 'x' || text[1] == 'X') {
        number_value(text.skip(2), 16)
    } else {
        number_value(text, 10)
    }
}

fn digit_of(c: char, radix: u64) -> (digit: Option<u64>)
    requires
        radix <= 36,
    ensures
        match digit {
            Some(digit) => digit_value(c, radix as nat) == Some(digit as nat) && digit < radix,
            None => digit_value(c, radix as nat) is None,
        },
{
    let value = if '0' <= c && c <= '9' {
        c as u64 - '0' as u64
    } else if 'a' <= c && c <= 'z' {
        c as u64 - 'a' as u64 + 10
    } else if 'A' <= c && c <= 'Z' {
        c as u64 - 'A' as u64 + 10
    } else {
        radix
    };
    if value < radix {
        Some(value)
    } else {
        None
    }
}

proof fn digits_value_stops(digits: Seq<char>, count: int, radix: nat)
    requires
        0 <= count <= digits.len(),
        digits_value(digits.take(count), radix) is Err,
    ensures
        digits_value(digits, radix) == digits_value(digits.take(count), radix),
    decreases digits.len(),
{
    if count < digits.len() {
        assert(digits.drop_last().take(count) =~= digits.take(count));
        digits_value_stops(digits.drop_last(), count, radix);
    } else {
        assert(digits.take(count) =~= digits);
    }
}

fn parse_digits(text: &Vec<char>, from: usize, radix: u64) -> (result: Result<u64, OffsetError>)
    requires
        from <= text@.len(),
        0 < radix <= 36,
    ensures
        match result {
            Ok(value) => digits_value(text@.skip(from as int), radix as nat) == Ok::<
                nat,
                OffsetError,
            >(value as nat),
            Err(error) => digits_value(text@.skip(from as int), radix as nat) == Err::<
                nat,
                OffsetError,
            >(error),
        },
{
    let ghost digits = text@.skip(from as int);
    let mut value: u64 = 0;
    assert(digits.take(0) =~= Seq::empty());
    for i in from..text.len()
        invariant
            0 < radix <= 36,
            from <= text@.len(),
            digits == text@.skip(from as int),
            digits_value(digits.take(i - from), radix as nat) == Ok::<nat, OffsetError>(
                value as nat,
            ),
    {
        let ghost before = digits.take(i - from);
        let ghost after = digits.take(i - from + 1);
        assert(after.drop_last() =~= before);
        assert(after.last() == text@[i as int]);
        match digit_of(text[i], radix) {
            None => {
                proof {
                    digits_value_stops(digits, i - from + 1, radix as nat);
                }
                return Err(OffsetError::InvalidDigit);
            },
            Some(digit) => {
                assert(value * radix <= u64::MAX * 36) by (nonlinear_arith)
                    requires
                        value <= u64::MAX,
                        0 < radix <= 36,
                ;
                let product = value as u128 * radix as u128;
                let sum = product + digit as u128;
                if sum > u64::MAX as u128 {
                    proof {
                        digits_value_stops(digits, i - from + 1, radix as nat);
                    }
                    return Err(OffsetError::PosOverflow);
                }
                value = sum as u64;
            },
        }
    }
    assert(digits.take(text@.len() - from) =~= digits);
    Ok(value)
}

fn parse_number(text: &Vec<char>, from: usize, radix: u64) -> (result: Result<u64, OffsetError>)
    requires
        from <= text@.len(),
        0 < radix <= 36,
    ensures
        match result {
            Ok(value) => number_value(text@.skip(from as int), radix as nat) == Ok::<
                nat,
                OffsetError,
            >(value as nat),
            Err(error) => number_value(text@.skip(from as int), radix as nat) == Err::<
                nat,
                OffsetError,
            >(error),
        },
{
    if from == text.len() {
        return Err(OffsetError::Empty);
    }
    if text[from] != '+' {
        return parse_digits(text, from, radix);
    }
    if from + 1 == text.len() {
        return Err(OffsetError::InvalidDigit);
    }
    assert(text@.skip(from as int).skip(1) =~= text@.skip(from + 1));
    parse_digits(text, from + 1, radix)
}

/// The offset that `src` stands for, in decimal or, behind `0x` or `0X`, in hexadecimal digits.
pub fn parse_offset(src: &str) -> (result: Result<u64, OffsetError>)
    ensures
        match result {
            Ok(value) => offset_value(src@) == Ok::<nat, OffsetError>(value as nat),
            Err(error) => offset_value(src@) == Err::<nat, OffsetError>(error),
        },
{
    let mut text: Vec<char> = Vec::new();
    let len = src.unicode_len();
    for i in 0..len
        invariant
            len == src@.len(),
            text@ == src@.take(i as int),
    {
        text.push(src.get_char(i));
        assert(text@ =~= src@.take(i + 1));
    }
    assert(src@.take(src@.len() as int) =~= src@);
    if text.len() >= 2 && text[0] == '0' && (text[1] == 'x' || text[1] == 'X') {
        parse_number(&text, 2, 16)
    } else {
        assert(text@.skip(0) =~= text@);
        parse_number(&text, 0, 10)
    }
}

} // verus!
