use lib::trap::{Cause, ExceptionCause, InterruptCause, InvalidConversion};

const INTERRUPT_BIT: usize = 1 << 63;

#[test]
fn exceptions_decode_from_their_numbers() {
    let all = [
        (0, ExceptionCause::InstructionAddressMisaligned),
        (1, ExceptionCause::InstructionAccessFault),
        (2, ExceptionCause::IllegalInstruction),
        (3, ExceptionCause::Breakpoint),
        (4, ExceptionCause::LoadAddressMisaligned),
        (5, ExceptionCause::LoadAccessFault),
        (6, ExceptionCause::StoreAddressMisaligned),
        (7, ExceptionCause::StoreAccessFault),
        (8, ExceptionCause::EnviornmentCallFromSupervisor),
        (9, ExceptionCause::EnviornmentCallFromUser),
        (12, ExceptionCause::InstructionPageFault),
        (13, ExceptionCause::LoadPageFault),
        (15, ExceptionCause::StorePageFault),
        (18, ExceptionCause::SoftwareCheck),
        (19, ExceptionCause::HardwareError),
    ];
    for (n, c) in all {
        assert_eq!(ExceptionCause::try_from(n), Ok(c));
        assert_eq!(c.code(), n);
        assert_eq!(Cause::from_scause(n), Ok(Cause::Exception(c)));
    }
}

#[test]
fn interrupts_decode_from_their_numbers() {
    let all = [
        (1, InterruptCause::Software),
        (5, InterruptCause::Timer),
        (9, InterruptCause::External),
        (13, InterruptCause::CounterOverflow),
    ];
    for (n, c) in all {
        assert_eq!(InterruptCause::try_from(n), Ok(c));
        assert_eq!(c.code(), n);
        assert_eq!(Cause::from_scause(INTERRUPT_BIT | n), Ok(Cause::Interrupt(c)));
    }
}

#[test]
fn unknown_numbers_are_refused() {
    for n in [10usize, 11, 14, 16, 17, 20, 63, 1000] {
        assert_eq!(ExceptionCause::try_from(n), Err(InvalidConversion));
        assert_eq!(Cause::from_scause(n), Err(InvalidConversion));
    }
    for n in [0usize, 2, 3, 4, 6, 7, 8, 10, 12, 14, 100] {
        assert_eq!(InterruptCause::try_from(n), Err(InvalidConversion));
        assert_eq!(Cause::from_scause(INTERRUPT_BIT | n), Err(InvalidConversion));
    }
}

#[test]
fn the_interrupt_bit_decides_the_kind() {
    // 9 is both an exception number and an interrupt number.
    assert_eq!(
        Cause::from_scause(9),
        Ok(Cause::Exception(ExceptionCause::EnviornmentCallFromUser))
    );
    assert_eq!(
        Cause::from_scause(INTERRUPT_BIT | 9),
        Ok(Cause::Interrupt(InterruptCause::External))
    );
    // The timer interrupt that the kernel arms.
    assert_eq!(
        Cause::from_scause(0x8000_0000_0000_0005),
        Ok(Cause::Interrupt(InterruptCause::Timer))
    );
}
