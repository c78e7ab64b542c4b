use lib::sbi::{Sbi, DBCN_EID, DBCN_WRITE_FID};

#[test]
fn console_write_call_registers() {
    let call = Sbi::dbcn_console_write(13, 0x8020_1000);
    assert_eq!(call.registers(), [13, 0x8020_1000, 0, 0, 0, 0, 0, 0x4442_434e]);
    assert_eq!(DBCN_EID, 0x4442_434e);
    assert_eq!(DBCN_WRITE_FID, 0);
}

#[test]
fn console_write_of_nothing() {
    let call = Sbi::dbcn_console_write(0, 0);
    assert_eq!(call.registers(), [0, 0, 0, 0, 0, 0, DBCN_WRITE_FID, DBCN_EID]);
}

#[test]
fn timer_call_registers() {
    let call = Sbi::time_set_timer(1_000_000);
    assert_eq!(call.registers(), [1_000_000, 0, 0, 0, 0, 0, 0, 0x5449_4d45]);
}
