//! Bit updates of RISC-V control and status registers.
use vstd::prelude::*;

verus! {

/// Bit of `sie` that enables supervisor timer interrupts.
pub const SIE_STIE: usize = 5;

/// Bit of `sstatus` that enables supervisor interrupts.
pub const SSTATUS_SIE: usize = 1;

/// An update of some bits of a control and status register.
#[derive(Debug, Clone, Copy, PartialEq, Eq)]
pub enum CsrBitWrite {
    /// Set the bits of the mask (`csrs`).
    SetBits(usize),
    /// Clear the bits of the mask (`csrc`).
    ClearBits(usize),
}

/// The update that gives bit `bit` of a register the value `value`.
pub fn csr_bit_write(bit: usize, value: bool) -> (r: CsrBitWrite)
    requires
        bit < usize::BITS,
    ensures
        r == (if value {
            CsrBitWrite::SetBits(1usize << bit)
        } else {
            CsrBitWrite::ClearBits(1usize << bit)
        }),
{
    let mask = 1usize << bit;
    if value {
        CsrBitWrite::SetBits(mask)
    } else {
        CsrBitWrite::ClearBits(mask)
    }
}

} // verus!
