//! Instruction set and evaluation of a register-based virtual machine.
//!
//! Instructions read typed literals from registers or immediates, compute
//! with checked or wrapping integer arithmetic or hash with a 1024-bit
//! Pedersen hash, and write one destination register. Every instruction has a
//! text form and a binary form that read back to the same instruction, and
//! functions sequence inputs, instructions and outputs in that order.

/// Literals, their kinds and visibilities, and the values registers hold.
pub mod literal;
/// Checked and wrapping integer arithmetic.
pub mod arith;
/// Register addresses and the register file.
pub mod register;
/// Operands, the instruction union, and what evaluating an instruction does.
pub mod instruction;
/// Functions: inputs, then instructions, then outputs.
pub mod function;
/// The binary form of instructions.
pub mod codec;
/// Decimal numerals.
pub mod decimal;
/// The text form of instructions.
pub mod text;
/// Properties that relate several operations.
pub mod laws;
