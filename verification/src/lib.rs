//! Arithmetization core for a small proving virtual machine: a content-addressed
//! memory argument, a chipset protocol for pluggable computation units, 64-bit
//! arithmetic gadget chipsets, and a fixed-permutation trace generator.
use vstd::prelude::*;

pub mod field;
pub mod memory;
pub mod poseidon;
pub mod record;
pub mod trace;
pub mod u64_chip;
pub mod words;

verus! {

/// Adds two machine integers; the basic sanity entry point of the crate.
pub fn add(left: usize, right: usize) -> (r: usize)
    requires
        left + right <= usize::MAX,
    ensures
        r == left + right,
{
    left + right
}

} // verus!
