//! The sizes of the instructions of the Ethereum virtual machine.

use vstd::prelude::*;

verus! {

/// The opcode of `JUMPDEST`.
pub const JUMPDEST: u8 = 0x5b;

/// The opcode of `POP`.
pub const POP: u8 = 0x50;

/// The opcode of `PUSH1`.
pub const PUSH1: u8 = 0x60;

/// The opcode of `PUSH32`.
pub const PUSH32: u8 = 0x7f;

/// The number of bytes that an instruction with this opcode carries behind it.
pub open spec fn immediate_len(code: u8) -> nat {
    if PUSH1 <= code <= PUSH32 {
        (code - PUSH1 + 1) as nat
    } else {
        0
    }
}

/// The encoded size of an instruction with this opcode.
pub open spec fn instruction_size(code: u8) -> nat {
    1 + immediate_len(code)
}

/// The encoded size of the instruction that starts with `code`: one byte for the opcode, and the
/// immediate of a push behind it. A byte that is no opcode counts as an instruction of one byte.
pub fn size_of_instruction(code: u8) -> (size: usize)
    ensures
        size == instruction_size(code),
{
    if PUSH1 <= code && code <= PUSH32 {
        (code - PUSH1) as usize + 2
    } else {
        1
    }
}

} // verus!
