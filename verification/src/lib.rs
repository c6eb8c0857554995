//! Core of a sampling profiler: resolving symbols and the BSS region of an
//! on-disk binary image adjusted for its load address, and encoding per-thread
//! call-stack samples into a stream of begin/end timeline events.

pub mod balance;
pub mod binary_parser;
pub mod chrometrace;
pub mod events;
pub mod stack_trace;
pub mod symbols;

use vstd::prelude::*;

verus! {

/// Wrapping 64-bit addition: addresses in a target process wrap modulo 2^64.
pub open spec fn wadd(a: u64, b: u64) -> u64 {
    vstd::wrapping::u64_specs::wrapping_add(a, b)
}

/// Wrapping 64-bit subtraction.
pub open spec fn wsub(a: u64, b: u64) -> u64 {
    vstd::wrapping::u64_specs::wrapping_sub(a, b)
}

} // verus!
