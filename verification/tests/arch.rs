use lib::arch::{csr_bit_write, CsrBitWrite, SIE_STIE, SSTATUS_SIE};

#[test]
fn bit_updates() {
    assert_eq!(csr_bit_write(SIE_STIE, true), CsrBitWrite::SetBits(0x20));
    assert_eq!(csr_bit_write(SSTATUS_SIE, true), CsrBitWrite::SetBits(0x2));
    assert_eq!(csr_bit_write(SSTATUS_SIE, false), CsrBitWrite::ClearBits(0x2));
    assert_eq!(csr_bit_write(0, false), CsrBitWrite::ClearBits(1));
    assert_eq!(csr_bit_write(63, true), CsrBitWrite::SetBits(1 << 63));
}
