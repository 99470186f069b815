//! Integers of any size, as they occur in assembler expressions.

use num_bigint::{BigInt, Sign};
use vstd::prelude::*;

verus! {

/// The value of `digits`, read as base 256 digits with the most significant one first.
pub open spec fn be_value(digits: Seq<u8>) -> nat
    decreases digits.len(),
{
    if digits.len() == 0 {
        0
    } else {
        be_value(digits.drop_last()) * 256 + digits.last() as nat
    }
}

/// The shortest non-empty big-endian representation of `value`.
pub open spec fn be_bytes(value: nat) -> Seq<u8>
    decreases value,
{
    if value < 256 {
        seq![value as u8]
    } else {
        be_bytes(value / 256).push((value % 256) as u8)
    }
}

/// The value of `digits`, read as a two's complement number with the most significant byte first.
pub open spec fn signed_be_value(digits: Seq<u8>) -> int
    decreases digits.len(),
{
    if digits.len() == 0 {
        0
    } else if digits.len() == 1 {
        if digits[0] < 128 {
            digits[0] as int
        } else {
            digits[0] - 256
        }
    } else {
        signed_be_value(digits.drop_last()) * 256 + digits.last()
    }
}

/// The absolute value of `value`.
pub open spec fn magnitude(value: int) -> nat {
    if value < 0 {
        (-value) as nat
    } else {
        value as nat
    }
}

/// An integer of any size.
#[derive(Debug, PartialEq, Eq)]
pub struct Integer {
    /// Two's complement digits, most significant byte first.
    digits: Vec<u8>,
}

impl View for Integer {
    type V = int;

    closed spec fn view(&self) -> int {
        signed_be_value(self.digits@)
    }
}

impl Clone for Integer {
    fn clone(&self) -> (copy: Self)
        ensures
            copy@ == self@,
    {
        Integer { digits: self.digits.clone() }
    }
}

impl Integer {
    /// The integer with the given two's complement digits, most significant byte first.
    ///
    /// Calls `BigInt::from_signed_bytes_be`, which reads the digits as a two's complement number in
    /// base 256, the empty sequence being zero.
    #[verifier::external_body]
    pub fn from_signed_bytes_be(digits: &[u8]) -> (value: Integer)
        ensures
            value@ == signed_be_value(digits@),
    {
        Integer { digits: BigInt::from_signed_bytes_be(digits).to_signed_bytes_be() }
    }

    /// The integer `value`.
    ///
    /// Calls `BigInt::from`, which keeps the value of a primitive integer.
    #[verifier::external_body]
    pub fn from_i128(value: i128) -> (result: Integer)
        ensures
            result@ == value,
    {
        Integer { digits: BigInt::from(value).to_signed_bytes_be() }
    }

    /// The sum of two integers.
    ///
    /// Calls the `+` of `BigInt`, which is exact.
    #[verifier::external_body]
    pub(crate) fn plus(&self, other: &Integer) -> (sum: Integer)
        ensures
            sum@ == self@ + other@,
    {
        let left = BigInt::from_signed_bytes_be(&self.digits);
        let right = BigInt::from_signed_bytes_be(&other.digits);
        Integer { digits: (left + right).to_signed_bytes_be() }
    }

    /// The difference of two integers.
    ///
    /// Calls the `-` of `BigInt`, which is exact.
    #[verifier::external_body]
    pub(crate) fn minus(&self, other: &Integer) -> (difference: Integer)
        ensures
            difference@ == self@ - other@,
    {
        let left = BigInt::from_signed_bytes_be(&self.digits);
        let right = BigInt::from_signed_bytes_be(&other.digits);
        Integer { digits: (left - right).to_signed_bytes_be() }
    }

    /// Whether the integer is negative, and the bytes of its absolute value.
    ///
    /// Calls `BigInt::to_bytes_be`, which returns the sign and the shortest big-endian bytes of the
    /// absolute value, a single zero byte for zero.
    #[verifier::external_body]
    pub fn to_bytes_be(&self) -> (result: (bool, Vec<u8>))
        ensures
            result.0 == (self@ < 0),
            result.1@ == be_bytes(magnitude(self@)),
    {
        let (sign, bytes) = BigInt::from_signed_bytes_be(&self.digits).to_bytes_be();
        let negative = match sign {
            Sign::Minus => true,
            Sign::NoSign => false,
            Sign::Plus => false,
        };
        (negative, bytes)
    }
}

/// The shortest representation of a number has the value of that number, and has no leading zero
/// unless it is a single byte.
pub proof fn be_bytes_represent(value: nat)
    ensures
        be_value(be_bytes(value)) == value,
        be_bytes(value).len() >= 1,
        be_bytes(value).len() > 1 ==> be_bytes(value)[0] != 0,
    decreases value,
{
    if value < 256 {
        assert(be_bytes(value).drop_last() =~= Seq::<u8>::empty());
        reveal_with_fuel(be_value, 2);
    } else {
        be_bytes_represent(value / 256);
        assert(be_bytes(value).drop_last() =~= be_bytes(value / 256));
        assert(be_bytes(value)[0] == be_bytes(value / 256)[0]);
        if value / 256 >= 256 {
            be_bytes_represent(value / 256 / 256);
            assert(be_bytes(value / 256).len() > 1);
        }
    }
}

} // verus!
