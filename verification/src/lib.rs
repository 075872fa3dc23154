//! Transient: a verified toolchain for a small, register-less, memory-only
//! virtual machine.
//!
//! The crate has two halves sharing one instruction-set architecture:
//! an assembler that lowers the textual intermediate representation into a
//! fixed-width bytecode image, and a virtual machine that loads such an image
//! into a flat byte-addressable memory and executes it until halted.
#![allow(unused_imports)]
#![verifier::loop_isolation(false)]

pub mod assembler;
pub mod bytes;
pub mod image;
pub mod isa;
pub mod text;
pub mod vm;

use vstd::prelude::*;

verus! {

/// Capacity of the virtual machine's memory, in bytes.
pub const TRANSIENT_MEM_MAX: usize = 0xFFFF;

} // verus!
