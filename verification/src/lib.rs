//! A CHIP-8 virtual machine and a small assembler for its instruction set.
//!
//! `chipviii` holds the machine state, the instruction decoder and the
//! semantics of every instruction; `assembler` turns assembly text into the
//! bytes of a ROM image.

pub mod assembler;
pub mod chipviii;
pub mod text;
