//! Codes of the instruction forms and of the operand types.

use vstd::prelude::*;

verus! {

/// The top two bits of the opcode byte of a short-form instruction.
pub const SHORT_INSTRUCTION: u8 = 0x02;

/// The top two bits of the opcode byte of a variable-form instruction.
pub const VAR_INSTRUCTION: u8 = 0x03;

/// Operand type: a two-byte constant.
pub const LARGE_CONSTANT: u8 = 0x00;

/// Operand type: a one-byte constant.
pub const SMALL_CONSTANT: u8 = 0x01;

/// Operand type: a one-byte variable number.
pub const VARIABLE: u8 = 0x02;

/// Operand type: no operand.
pub const OMITTED: u8 = 0x03;

} // verus!
