//! A verified decoder for a bitmask-driven memory initialisation log.
//!
//! The input is a sequence of text lines.  A line either installs a new
//! 36-character bitmask (`mask = X10...`) or writes a value to an address
//! (`mem[8] = 11`).  Two decoder versions are provided: one applies the mask
//! to the written value, the other lets the mask's floating bits expand a
//! write into a whole family of addresses.  Each decoder returns the sum of
//! the values left in memory.

pub mod decoder;
pub mod mask;
pub mod memory;
pub mod parse;

pub use mask::MaskBit;
pub use mask::MaskPattern;
pub use memory::Memory;
pub use parse::Instruction;
pub use parse::parse_instruction;
pub use decoder::DecodeError;
pub use decoder::solve_part_1;
pub use decoder::solve_part_2;
pub use decoder::write_floating;
