//! Verified core of a small RISC-V kernel: device-tree parsing, trap-cause
//! decoding and SBI call construction.
use vstd::prelude::*;

pub mod arch;
pub mod endian;
pub mod reader;
pub mod fdt;
pub mod sbi;
pub mod text;
pub mod trap;
pub mod tree;

verus! {

/// A bitmap page allocator; it holds no state yet.
pub struct BitmapAlloc {}

} // verus!
